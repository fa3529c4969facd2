use encoding_rs::UTF_8;
use lol_html::base::encoding::{AsciiCompatibleEncoding, SharedEncoding};
use lol_html::memory::limiter::{MemoryLimitExceededError, SharedMemoryLimiter};
use lol_html::parser::parser::{ActionError, Parser, ParserAction, ParserDirective};
use lol_html::rewritable_units::token_capture_flags::TokenCaptureFlags;
use lol_html::rewriter::errors::{ParsingAmbiguityError, RewritingError};
use lol_html::transform_stream::transform_stream::{
    Awaited, EndStep, ResumeStep, ResumedStep, TransformStream, TransformStreamSettings,
};

type Stream = TransformStream<Vec<u8>, &'static str, u32>;

fn stream(limiter: &mut SharedMemoryLimiter, flags: TokenCaptureFlags) -> Stream {
    TransformStream::new(
        TransformStreamSettings {
            transform_controller: vec![],
            initial_capture_flags: flags,
            output_sink: "sink",
            preallocated_parsing_buffer_size: 0,
            encoding: SharedEncoding::new(AsciiCompatibleEncoding::new(UTF_8).unwrap()),
            strict: true,
        },
        limiter,
    )
}

/// Writes a chunk of which the parse consumes some bytes, and returns what was parsed.
fn write(
    stream: &mut Stream,
    limiter: &mut SharedMemoryLimiter,
    data: &[u8],
    consumed: usize,
) -> Vec<u8> {
    stream.write(limiter, data).unwrap();
    let chunk = stream.chunk(data).to_vec();
    stream.parser().handle_parse_result(ActionError::EndOfInput {
        consumed_byte_count: consumed,
    });
    stream.write_parsed(limiter, data, consumed).unwrap();
    chunk
}

fn suspend(stream: &mut Stream, consumed: usize, bookmark: u32) {
    let action = stream.parser().handle_parse_result(ActionError::Suspended {
        consumed_byte_count: consumed,
        bookmark,
    });
    assert_eq!(action, ParserAction::Return(Ok(consumed)));
}

#[test]
fn machines_are_chosen_by_directive() {
    let mut parser: Parser<(), u32> =
        Parser::new((), ParserDirective::WherePossibleScanForTagsOnly, false);
    assert!(!parser.is_strict());
    assert_eq!(
        parser.parse(),
        ParserAction::Run(ParserDirective::WherePossibleScanForTagsOnly)
    );
    assert_eq!(
        parser.handle_parse_result(ActionError::ParserDirectiveChangeRequired(
            ParserDirective::Lex,
            7
        )),
        ParserAction::Continue(ParserDirective::Lex, 7)
    );
    assert_eq!(
        parser.handle_parse_result(ActionError::EndOfInput {
            consumed_byte_count: 5
        }),
        ParserAction::Return(Ok(5))
    );
    assert_eq!(parser.parse(), ParserAction::Run(ParserDirective::Lex));
    assert_eq!(parser.previously_consumed_byte_count(), 5);
}

#[test]
fn suspended_parse_is_resumed_from_its_bookmark() {
    let mut parser: Parser<(), u32> = Parser::new((), ParserDirective::Lex, false);
    parser.handle_parse_result(ActionError::Suspended {
        consumed_byte_count: 3,
        bookmark: 42,
    });
    assert!(parser.is_suspended());
    assert_eq!(
        parser.resume(None),
        ParserAction::Continue(ParserDirective::Lex, 42)
    );
    assert!(!parser.is_suspended());

    parser.handle_parse_result(ActionError::Suspended {
        consumed_byte_count: 4,
        bookmark: 43,
    });
    assert_eq!(
        parser.resume(Some(ParserDirective::WherePossibleScanForTagsOnly)),
        ParserAction::Continue(ParserDirective::WherePossibleScanForTagsOnly, 43)
    );
    assert_eq!(parser.previously_consumed_byte_count(), 7);
}

#[test]
fn failures_end_the_parse() {
    let mut parser: Parser<(), u32> = Parser::new((), ParserDirective::Lex, false);
    let ambiguity = || {
        RewritingError::ParsingAmbiguity(ParsingAmbiguityError {
            on_tag_name: "select".to_owned(),
        })
    };
    assert_eq!(
        parser.handle_parse_result(ActionError::RewritingError(ambiguity())),
        ParserAction::Return(Err(ambiguity()))
    );
    assert_eq!(
        parser.handle_parse_result(ActionError::Internal("bug".to_owned())),
        ParserAction::Return(Err(RewritingError::ContentHandlerError("bug".to_owned())))
    );
    assert_eq!(parser.previously_consumed_byte_count(), 0);
}

#[test]
fn dispatcher_is_the_output_sink() {
    let mut parser: Parser<u8, u32> = Parser::new(1, ParserDirective::Lex, true);
    *parser.get_dispatcher() += 1;
    assert_eq!(*parser.get_dispatcher(), 2);
    assert!(parser.is_strict());
}

#[test]
fn first_machine_depends_on_what_is_wanted() {
    let mut limiter = SharedMemoryLimiter::new(100);
    let mut scanning = stream(&mut limiter, TokenCaptureFlags::empty());
    assert_eq!(
        scanning.parser().parse(),
        ParserAction::Run(ParserDirective::WherePossibleScanForTagsOnly)
    );
    let mut flags = TokenCaptureFlags::empty();
    flags.insert(TokenCaptureFlags::TEXT);
    let mut lexing = stream(&mut limiter, flags);
    assert_eq!(
        lexing.parser().parse(),
        ParserAction::Run(ParserDirective::Lex)
    );
    assert!(lexing.parser().is_strict());
    assert_eq!(lexing.parser().get_dispatcher().output_sink, "sink");
}

#[test]
fn controller_can_be_reached() {
    let mut limiter = SharedMemoryLimiter::new(100);
    let mut stream = stream(&mut limiter, TokenCaptureFlags::empty());
    stream.controller().push(1);
    stream.controller_mut().push(2);
    assert_eq!(*stream.controller(), [1, 2]);
}

#[test]
fn what_is_not_consumed_comes_again() {
    let mut limiter = SharedMemoryLimiter::new(100);
    let mut stream = stream(&mut limiter, TokenCaptureFlags::empty());
    assert_eq!(write(&mut stream, &mut limiter, b"<a><b", 3), b"<a><b");
    assert_eq!(stream.remaining(), b"<b");
    assert_eq!(write(&mut stream, &mut limiter, b"> te", 3), b"<b> te");
    assert_eq!(write(&mut stream, &mut limiter, b"xt", 5), b" text");
    assert_eq!(stream.remaining(), b"");
    assert_eq!(write(&mut stream, &mut limiter, b"<c", 0), b"<c");
    stream.end();
    assert_eq!(stream.awaited(), Awaited::FinalParse);
    assert_eq!(stream.remaining(), b"<c");
    assert_eq!(stream.end_parsed(2), EndStep::Finish);
    assert_eq!(stream.awaited(), Awaited::Finish);
    assert_eq!(stream.finished(Ok(())), Ok(()));
    assert!(!stream.is_suspended());
    assert_eq!(stream.resume(), ResumeStep::Nothing);
}

#[test]
fn buffered_input_counts_against_the_limit() {
    let mut limiter = SharedMemoryLimiter::new(3);
    let mut stream = stream(&mut limiter, TokenCaptureFlags::empty());
    stream.write(&mut limiter, b"<abcd").unwrap();
    assert_eq!(
        stream.write_parsed(&mut limiter, b"<abcd", 0),
        Err(RewritingError::MemoryLimitExceeded(
            MemoryLimitExceededError
        ))
    );

    let mut limiter = SharedMemoryLimiter::new(3);
    let mut stream = self::stream(&mut limiter, TokenCaptureFlags::empty());
    write(&mut stream, &mut limiter, b"<ab", 0);
    assert_eq!(
        stream.write(&mut limiter, b"cd"),
        Err(RewritingError::MemoryLimitExceeded(
            MemoryLimitExceededError
        ))
    );
    assert_eq!(stream.remaining(), b"<ab");
}

#[test]
fn suspended_write_is_resumed_with_the_rest() {
    let mut limiter = SharedMemoryLimiter::new(100);
    let mut stream = stream(&mut limiter, TokenCaptureFlags::empty());
    stream.write(&mut limiter, b"<a><b>").unwrap();
    suspend(&mut stream, 3, 9);
    assert_eq!(
        stream.write_parsed(&mut limiter, b"<a><b>", 3),
        Err(RewritingError::Suspended)
    );
    assert!(stream.is_suspended());
    assert_eq!(stream.resume(), ResumeStep::Dispatch { last: false });
    assert_eq!(stream.remaining(), b"<b>");

    assert_eq!(
        stream.parser().resume(None),
        ParserAction::Continue(ParserDirective::WherePossibleScanForTagsOnly, 9)
    );
    suspend(&mut stream, 1, 10);
    assert_eq!(stream.resume_parsed(1), ResumedStep::Suspended);
    assert!(stream.is_suspended());
    assert_eq!(stream.remaining(), b"b>");

    assert_eq!(stream.resume(), ResumeStep::Dispatch { last: false });
    stream.parser().resume(None);
    stream.parser().handle_parse_result(ActionError::EndOfInput {
        consumed_byte_count: 2,
    });
    assert_eq!(stream.resume_parsed(2), ResumedStep::Done);
    assert!(!stream.is_suspended());
    assert_eq!(stream.remaining(), b"");
    assert_eq!(stream.parser().previously_consumed_byte_count(), 6);
}

#[test]
fn suspended_end_is_resumed_and_finished() {
    let mut limiter = SharedMemoryLimiter::new(100);
    let mut stream = stream(&mut limiter, TokenCaptureFlags::empty());
    write(&mut stream, &mut limiter, b"text", 0);
    stream.end();
    assert_eq!(stream.remaining(), b"text");
    suspend(&mut stream, 2, 1);
    assert_eq!(stream.end_parsed(2), EndStep::Suspended);
    assert_eq!(stream.resume(), ResumeStep::Dispatch { last: true });
    assert_eq!(stream.remaining(), b"xt");

    stream.parser().resume(None);
    assert_eq!(stream.resume_parsed(1), ResumedStep::Finish);
    assert_eq!(stream.remaining(), b"t");
    assert!(!stream.is_suspended());

    assert_eq!(
        stream.finished(Err(RewritingError::Suspended)),
        Err(RewritingError::Suspended)
    );
    assert_eq!(stream.resume(), ResumeStep::Finish);
    assert_eq!(
        stream.finish_resumed(Err(RewritingError::Suspended)),
        Err(RewritingError::Suspended)
    );
    assert!(stream.is_suspended());
    assert_eq!(stream.resume(), ResumeStep::Finish);
    assert_eq!(stream.finish_resumed(Ok(())), Ok(()));
    assert!(!stream.is_suspended());
}

#[test]
fn failed_end_is_not_suspended() {
    let mut limiter = SharedMemoryLimiter::new(100);
    let mut stream = stream(&mut limiter, TokenCaptureFlags::empty());
    let failure = || RewritingError::ContentHandlerError("broken".to_owned());
    stream.end();
    assert_eq!(stream.end_parsed(0), EndStep::Finish);
    assert_eq!(stream.finished(Err(failure())), Err(failure()));
    assert!(!stream.is_suspended());
}

#[test]
fn failed_resume_is_no_longer_suspended() {
    let mut limiter = SharedMemoryLimiter::new(100);
    let mut stream = stream(&mut limiter, TokenCaptureFlags::empty());
    stream.write(&mut limiter, b"<a><b>").unwrap();
    suspend(&mut stream, 3, 9);
    assert_eq!(
        stream.write_parsed(&mut limiter, b"<a><b>", 3),
        Err(RewritingError::Suspended)
    );
    assert_eq!(stream.resume(), ResumeStep::Dispatch { last: false });
    assert_eq!(stream.awaited(), Awaited::Resumption);
    assert_eq!(
        stream.resume_failed(RewritingError::Suspended),
        RewritingError::Suspended
    );
    assert!(stream.is_suspended());
    assert_eq!(stream.resume(), ResumeStep::Dispatch { last: false });
    let failure = || RewritingError::ContentHandlerError("broken".to_owned());
    assert_eq!(stream.resume_failed(failure()), failure());
    assert!(!stream.is_suspended());
}

#[test]
fn consumed_input_makes_room_at_the_limit() {
    let mut limiter = SharedMemoryLimiter::new(5);
    let mut stream = stream(&mut limiter, TokenCaptureFlags::empty());
    write(&mut stream, &mut limiter, b"<abcd", 0);
    assert_eq!(limiter.current_usage(), 5);
    write(&mut stream, &mut limiter, b"", 3);
    assert_eq!(stream.remaining(), b"cd");
    stream.write(&mut limiter, b"efg").unwrap();
    assert_eq!(stream.remaining(), b"cdefg");
    assert_eq!(limiter.current_usage(), 5);
}

#[test]
fn failed_parse_keeps_the_input() {
    let mut limiter = SharedMemoryLimiter::new(100);
    let mut stream = stream(&mut limiter, TokenCaptureFlags::empty());
    write(&mut stream, &mut limiter, b"<a", 0);
    stream.write(&mut limiter, b"b>").unwrap();
    assert_eq!(stream.awaited(), Awaited::Parse);
    let failure = || RewritingError::ContentHandlerError("broken".to_owned());
    assert_eq!(stream.parse_failed(failure()), failure());
    assert_eq!(stream.awaited(), Awaited::Input);
    assert_eq!(stream.remaining(), b"<ab>");
    assert!(!stream.is_suspended());
}

#[test]
fn suspended_just_when_the_last_answer_says_so() {
    let mut limiter = SharedMemoryLimiter::new(4);
    let mut stream = stream(&mut limiter, TokenCaptureFlags::empty());
    write(&mut stream, &mut limiter, b"<a", 0);
    assert!(!stream.is_suspended());
    assert_eq!(
        stream.write(&mut limiter, b"0123456789"),
        Err(RewritingError::MemoryLimitExceeded(MemoryLimitExceededError))
    );
    assert!(!stream.is_suspended());
    // What was refused stays in the books, so the rest needs a larger limit.
    let mut limiter = SharedMemoryLimiter::new(100);
    stream.write(&mut limiter, b">").unwrap();
    suspend(&mut stream, 1, 4);
    assert_eq!(
        stream.write_parsed(&mut limiter, b">", 1),
        Err(RewritingError::Suspended)
    );
    assert!(stream.is_suspended());
    stream.resume();
    stream.parser().resume(None);
    assert_eq!(stream.resume_parsed(2), ResumedStep::Done);
    assert!(!stream.is_suspended());
    assert_eq!(stream.resume(), ResumeStep::Nothing);
    assert!(!stream.is_suspended());
    stream.end();
    assert_eq!(stream.end_parsed(0), EndStep::Finish);
    assert_eq!(stream.finished(Ok(())), Ok(()));
    assert!(!stream.is_suspended());
}

#[test]
fn suspended_write_leaves_what_an_uninterrupted_one_leaves() {
    let mut limiter = SharedMemoryLimiter::new(100);
    let mut straight = stream(&mut limiter, TokenCaptureFlags::empty());
    write(&mut straight, &mut limiter, b"<a><b><c", 6);
    let mut paused = stream(&mut limiter, TokenCaptureFlags::empty());
    paused.write(&mut limiter, b"<a><b><c").unwrap();
    suspend(&mut paused, 3, 1);
    assert!(paused.write_parsed(&mut limiter, b"<a><b><c", 3).is_err());
    for consumed in [1, 1] {
        paused.resume();
        paused.parser().resume(None);
        suspend(&mut paused, consumed, 2);
        assert_eq!(paused.resume_parsed(consumed), ResumedStep::Suspended);
    }
    paused.resume();
    paused.parser().resume(None);
    paused.parser().handle_parse_result(ActionError::EndOfInput {
        consumed_byte_count: 1,
    });
    assert_eq!(paused.resume_parsed(1), ResumedStep::Done);
    for stream in [&mut straight, &mut paused] {
        assert_eq!(stream.remaining(), b"<c");
        assert_eq!(stream.awaited(), Awaited::Input);
        assert!(!stream.is_suspended());
        assert_eq!(stream.parser().previously_consumed_byte_count(), 6);
    }
}
