use encoding_rs::{Encoding, GBK, SHIFT_JIS, UTF_16LE, UTF_8, WINDOWS_1252};
use lol_html::base::bytes::Bytes;
use lol_html::base::encoding::{AsciiCompatibleEncoding, SharedEncoding};
use lol_html::base::spanned::{SourceLocation, Spanned};
use lol_html::rewritable_units::text_decoder::TextDecoder;
use lol_html::rewritable_units::text_feed::{
    is_fast_start, piece_of_call, Piece, TextSink, DEFAULT_BUFFER_LEN,
};
use lol_html::rewriter::errors::RewritingError;
use std::ops::Range;

type Handed = (String, bool, Range<usize>);

/// Notes down what it is handed, and refuses the pieces that it is told to.
#[derive(Default)]
struct Notes {
    pieces: Vec<Handed>,
    encodings: Vec<&'static str>,
    refused: Vec<usize>,
    error: Option<fn() -> RewritingError>,
}

impl TextSink for Notes {
    fn take_text(
        &mut self,
        text: &str,
        last: bool,
        encoding: &'static Encoding,
        location: SourceLocation,
    ) -> Result<(), RewritingError> {
        self.pieces.push((text.to_owned(), last, location.bytes()));
        self.encodings.push(encoding.name());
        if let Some(error) = self.error {
            return Err(error());
        }
        if self.refused.contains(&(self.pieces.len() - 1)) {
            Err(RewritingError::Suspended)
        } else {
            Ok(())
        }
    }
}

fn decoder_for(encoding: &'static Encoding) -> TextDecoder {
    TextDecoder::new(SharedEncoding::new(
        AsciiCompatibleEncoding::new(encoding).unwrap(),
    ))
}

fn span(start: usize, bytes: &[u8]) -> Spanned<Bytes<'_>> {
    Spanned::<Bytes<'_>>::new(start, Bytes::new(bytes))
}

/// Feeds a text node part by part, resumes wherever a handler stops, and returns the pieces.
fn feed_all(encoding: &'static Encoding, parts: &[&[u8]], stop_at: &[usize]) -> Vec<Handed> {
    let mut decoder = decoder_for(encoding);
    let mut handler = Notes {
        refused: stop_at.to_vec(),
        ..Notes::default()
    };
    let mut start = 10;
    for (i, part) in parts.iter().enumerate() {
        let last = i == parts.len() - 1;
        let mut res = decoder.feed_text(span(start, part), last, &mut handler);
        while res.is_err() {
            let suspension = decoder.take_suspended().unwrap();
            res = decoder.resume_feed(suspension, &mut handler);
        }
        start += part.len();
    }
    handler.pieces
}

fn text_of(pieces: &[Handed]) -> String {
    pieces.iter().map(|piece| piece.0.as_str()).collect()
}

fn assert_in_order(pieces: &[Handed], len: usize) {
    let mut start = 10;
    for (i, piece) in pieces.iter().enumerate() {
        assert_eq!(piece.2.start, start);
        assert_eq!(piece.1, i == pieces.len() - 1);
        start = piece.2.end;
    }
    assert_eq!(start, 10 + len);
}

#[test]
fn valid_utf8_is_handed_on_at_once() {
    let text = "caf\u{e9} ".repeat(1000);
    let pieces = feed_all(UTF_8, &[text.as_bytes()], &[]);
    assert_eq!(pieces, [(text.clone(), true, 10..10 + text.len())]);
}

#[test]
fn encoding_is_handed_on_with_the_text() {
    let mut decoder = decoder_for(WINDOWS_1252);
    let mut handler = Notes::default();
    decoder
        .feed_text(span(0, b"a"), true, &mut handler)
        .unwrap();
    decoder.set_encoding(AsciiCompatibleEncoding::new(GBK).unwrap());
    decoder
        .feed_text(span(1, b"b"), true, &mut handler)
        .unwrap();
    assert_eq!(handler.encodings, ["windows-1252", "GBK"]);
}

#[test]
fn single_bytes_are_decoded() {
    let pieces = feed_all(WINDOWS_1252, &[b"caf\xe9"], &[]);
    assert_eq!(pieces, [("caf\u{e9}".to_owned(), true, 10..14)]);
}

#[test]
fn characters_split_across_parts_are_put_together() {
    let pieces = feed_all(UTF_8, &[b"a\xe2", b"\x82", b"\xac!"], &[]);
    // The second part makes no text, so nothing is handed on for it.
    assert_eq!(
        pieces,
        [
            ("a".to_owned(), false, 10..12),
            ("\u{20ac}!".to_owned(), true, 13..15)
        ]
    );
}

#[test]
fn malformed_bytes_are_replaced() {
    let pieces = feed_all(UTF_8, &[b"a\xffb\xe2\x82"], &[]);
    assert_eq!(text_of(&pieces), "a\u{fffd}b\u{fffd}");
    assert_in_order(&pieces, 5);
}

#[test]
fn long_text_comes_in_pieces_of_the_buffer() {
    let bytes = [0xe9; 3000];
    let pieces = feed_all(WINDOWS_1252, &[&bytes], &[]);
    assert!(pieces.len() > 1);
    assert!(pieces.iter().all(|piece| piece.0.len() <= 1024));
    assert_eq!(text_of(&pieces), "\u{e9}".repeat(3000));
    assert_in_order(&pieces, 3000);
}

#[test]
fn long_start_in_ascii_is_handed_on_as_it_is() {
    let mut bytes = vec![b'x'; 2000];
    bytes.push(0xe9);
    let pieces = feed_all(WINDOWS_1252, &[&bytes], &[]);
    assert_eq!(pieces[0], ("x".repeat(2000), false, 10..2010));
    assert_eq!(pieces[1], ("\u{e9}".to_owned(), true, 2010..2011));
}

#[test]
fn short_start_in_ascii_is_decoded_with_the_rest() {
    let mut bytes = vec![b'x'; 1000];
    bytes.push(0xe9);
    let pieces = feed_all(WINDOWS_1252, &[&bytes], &[]);
    assert_eq!(pieces.len(), 1);
    assert_eq!(pieces[0].2, 10..1011);
}

#[test]
fn empty_parts_are_handed_on() {
    assert_eq!(
        feed_all(UTF_8, &[b""], &[]),
        [("".to_owned(), true, 10..10)]
    );
    assert_eq!(
        feed_all(UTF_8, &[b"", b""], &[]),
        [("".to_owned(), false, 10..10), ("".to_owned(), true, 10..10)]
    );
}

#[test]
fn however_a_text_node_is_cut_its_text_is_the_same() {
    let text = "\u{3053}\u{3093}\u{306b}\u{3061}\u{306f}, world! ".repeat(200);
    let (bytes, _, _) = SHIFT_JIS.encode(&text);
    let (whole, _) = SHIFT_JIS.decode_without_bom_handling(&bytes);
    for len in [1, 7, 1000, bytes.len()] {
        let parts: Vec<&[u8]> = bytes.chunks(len).collect();
        let pieces = feed_all(SHIFT_JIS, &parts, &[]);
        assert_eq!(text_of(&pieces), whole);
    }
}

#[test]
fn resumed_feeds_hand_on_the_same() {
    let mut bytes = vec![b'x'; 1500];
    bytes.extend([0xe9; 2500]);
    let straight = feed_all(WINDOWS_1252, &[&bytes, b"y", b"z"], &[]);
    for stop in 0..straight.len() {
        assert_eq!(
            feed_all(WINDOWS_1252, &[&bytes, b"y", b"z"], &[stop]),
            straight
        );
    }
    let all: Vec<usize> = (0..straight.len()).collect();
    assert_eq!(
        feed_all(WINDOWS_1252, &[&bytes, b"y", b"z"], &all),
        straight
    );
}

#[test]
fn flush_ends_a_text_node() {
    let mut decoder = decoder_for(UTF_8);
    let mut handler = Notes::default();
    // Without a text node there is nothing to end.
    decoder.flush_pending(&mut handler).unwrap();
    decoder
        .feed_text(span(4, b"a\xe2\x82"), false, &mut handler)
        .unwrap();
    decoder.flush_pending(&mut handler).unwrap();
    decoder.flush_pending(&mut handler).unwrap();
    assert_eq!(
        handler.pieces,
        [
            ("a".to_owned(), false, 4..7),
            ("\u{fffd}".to_owned(), true, 7..7)
        ]
    );
}

#[test]
fn errors_of_the_handler_are_handed_on() {
    let mut decoder = decoder_for(UTF_8);
    let mut handler = Notes {
        error: Some(|| RewritingError::ContentHandlerError("broken".to_owned())),
        ..Notes::default()
    };
    assert_eq!(
        decoder.feed_text(span(0, b"a"), true, &mut handler),
        Err(RewritingError::ContentHandlerError("broken".to_owned()))
    );
    assert!(decoder.take_suspended().is_some());
    assert!(decoder.take_suspended().is_none());
}

#[test]
fn encodings_that_are_not_compatible_with_ascii_are_refused() {
    for encoding in [
        UTF_16LE,
        encoding_rs::UTF_16BE,
        encoding_rs::ISO_2022_JP,
        encoding_rs::REPLACEMENT,
    ] {
        assert!(AsciiCompatibleEncoding::new(encoding).is_none());
    }
    let gbk = AsciiCompatibleEncoding::new(GBK).unwrap();
    assert_eq!(gbk.encoding(), GBK);
    let mut shared = SharedEncoding::new(gbk);
    assert_eq!(shared.get(), GBK);
    shared.set(AsciiCompatibleEncoding::new(UTF_8).unwrap());
    assert_eq!(shared.get(), UTF_8);
}

#[test]
fn pieces_after_a_call() {
    let location = || SourceLocation::from_start_len(7, 3);
    assert_eq!(
        piece_of_call(true, 3, 5, 7, true),
        Piece {
            is_handed_on: true,
            really_last: true,
            location: location(),
        }
    );
    assert_eq!(
        piece_of_call(false, 3, 0, 7, true),
        Piece {
            is_handed_on: true,
            really_last: false,
            location: location(),
        }
    );
    assert_eq!(
        piece_of_call(true, 3, 0, 7, false),
        Piece {
            is_handed_on: false,
            really_last: false,
            location: location(),
        }
    );
}

#[test]
fn starts_that_are_handed_on_as_they_are() {
    assert_eq!(DEFAULT_BUFFER_LEN, 1024);
    assert!(is_fast_start(0, 0));
    assert!(is_fast_start(5, 5));
    assert!(!is_fast_start(5, 6));
    assert!(!is_fast_start(1023, 1024));
    assert!(is_fast_start(1024, 1025));
}

#[test]
fn last_piece_that_is_refused_has_to_be_resumed() {
    let mut decoder = decoder_for(WINDOWS_1252);
    let mut refuse = Notes {
        error: Some(|| RewritingError::Suspended),
        ..Notes::default()
    };
    assert_eq!(
        decoder.feed_text(span(0, b"\xe9"), true, &mut refuse),
        Err(RewritingError::Suspended)
    );
    assert!(decoder.has_ended());
    let suspension = decoder.take_suspended().unwrap();
    assert_eq!(decoder.resume_feed(suspension, &mut refuse), Ok(()));
    assert!(!decoder.has_ended());
}

#[test]
fn flush_after_valid_text_ends_it_with_nothing() {
    let mut decoder = decoder_for(UTF_8);
    let mut handler = Notes::default();
    decoder
        .feed_text(span(10, b"abc"), false, &mut handler)
        .unwrap();
    assert_eq!(handler.pieces, [("abc".to_owned(), false, 10..13)]);
    decoder.flush_pending(&mut handler).unwrap();
    decoder.flush_pending(&mut handler).unwrap();
    assert_eq!(handler.pieces[1..], [("".to_owned(), true, 13..13)]);
}

#[test]
fn nothing_is_handed_on_after_a_refusal() {
    let mut decoder = decoder_for(WINDOWS_1252);
    let mut handler = Notes {
        refused: vec![1],
        ..Notes::default()
    };
    let bytes = [0xe9; 3000];
    assert_eq!(
        decoder.feed_text(span(0, &bytes), true, &mut handler),
        Err(RewritingError::Suspended)
    );
    assert_eq!(handler.pieces.len(), 2);
    let suspension = decoder.take_suspended().unwrap();
    let mut rest = Notes::default();
    decoder.resume_feed(suspension, &mut rest).unwrap();
    let mut straight = Notes::default();
    decoder_for(WINDOWS_1252)
        .feed_text(span(0, &bytes), true, &mut straight)
        .unwrap();
    assert_eq!(
        [handler.pieces, rest.pieces].concat(),
        straight.pieces
    );
}

#[test]
fn refused_last_piece_leaves_nothing_to_hand_on() {
    for (encoding, bytes) in [(UTF_8, &b"abc"[..]), (WINDOWS_1252, &b"\xe9"[..])] {
        let mut decoder = decoder_for(encoding);
        let mut handler = Notes {
            refused: vec![0],
            ..Notes::default()
        };
        assert_eq!(
            decoder.feed_text(span(0, bytes), true, &mut handler),
            Err(RewritingError::Suspended)
        );
        assert!(handler.pieces[0].1);
        let suspension = decoder.take_suspended().unwrap();
        let mut rest = Notes::default();
        assert_eq!(decoder.resume_feed(suspension, &mut rest), Ok(()));
        assert!(rest.pieces.is_empty());
        decoder.flush_pending(&mut rest).unwrap();
        assert!(rest.pieces.is_empty());
    }
}
