use super::bytes::{Bytes, BytesCow};
use super::utf8::is_ascii_bytes;
use encoding_rs::{CoderResult, Decoder, Encoding};
use std::borrow::Cow;
use vstd::prelude::*;
use vstd::utf8::{decode_utf8, encode_utf8, is_char_boundary, valid_utf8};

verus! {

/// The type `encoding_rs::Encoding`: a character encoding, known by its name.
#[verifier::external_type_specification]
#[verifier::external_body]
pub struct ExEncoding(encoding_rs::Encoding);

/// The type `encoding_rs::Decoder`: what turns a stream of bytes into text, call by call.
#[verifier::external_type_specification]
#[verifier::external_body]
pub struct ExDecoder(encoding_rs::Decoder);

/// The name of an encoding.
pub uninterp spec fn encoding_name(encoding: Encoding) -> Seq<char>;

/// Whether the encoding of this name is UTF-8.
pub open spec fn is_utf8_name(name: Seq<char>) -> bool {
    name == "UTF-8"@
}

/// Whether in the encoding of this name each ASCII character, and nothing else, is its own byte.
pub open spec fn is_ascii_compatible_name(name: Seq<char>) -> bool {
    name != "replacement"@ && name != "UTF-16BE"@ && name != "UTF-16LE"@ && name
        != "ISO-2022-JP"@
}

/// Whether an encoding is UTF-8.
///
/// Compares it with `encoding_rs::UTF_8` by the `==` of `encoding_rs::Encoding`. Believed of it: no
/// two encodings share a name, and the one that is equal to `UTF_8` is named "UTF-8".
#[verifier::external_body]
pub(crate) fn is_utf8(encoding: &'static Encoding) -> (same: bool)
    ensures
        same == is_utf8_name(encoding_name(*encoding)),
{
    encoding == encoding_rs::UTF_8
}

/// `encoding_rs::Encoding::is_ascii_compatible`: true of all encodings but the replacement encoding,
/// the two forms of UTF-16 and ISO-2022-JP.
pub assume_specification[ Encoding::is_ascii_compatible ](encoding: &'static Encoding) -> (compatible: bool)
    ensures
        compatible == is_ascii_compatible_name(encoding_name(*encoding)),
;

/// `encoding_rs::Encoding::ascii_valid_up_to`: how many bytes come before the first that is not
/// ASCII.
pub assume_specification[ Encoding::ascii_valid_up_to ](bytes: &[u8]) -> (len: usize)
    ensures
        len <= bytes@.len(),
        is_ascii_bytes(bytes@.take(len as int)),
        len < bytes@.len() ==> bytes@[len as int] >= 0x80,
;

/// What the encoding of a name makes of a text, and whether it had to replace characters.
pub uninterp spec fn encoded(name: Seq<char>, text: Seq<char>) -> (Seq<u8>, bool);

/// Whether text for the encoding of this name is written in UTF-8: in UTF-8 itself, and in the
/// encodings that are only read.
pub open spec fn is_written_in_utf8(name: Seq<char>) -> bool {
    is_utf8_name(name) || name == "replacement"@ || name == "UTF-16BE"@ || name == "UTF-16LE"@
}

/// Whether a text has the same bytes in the encoding of a name as in UTF-8: where UTF-8 is what is
/// written, and if it is ASCII in an encoding that is compatible with ASCII.
pub open spec fn keeps_text(name: Seq<char>, text: Seq<char>) -> bool {
    is_written_in_utf8(name) || (is_ascii_compatible_name(name) && is_ascii_bytes(
        encode_utf8(text),
    ))
}

/// The bytes of a text in an encoding, and whether characters that the encoding lacks were
/// replaced.
///
/// Calls `encoding_rs::Encoding::encode`. Believed of it: bytes and flag depend on the encoding and
/// the text alone; where UTF-8 is written they are the bytes of the text, with nothing replaced, and
/// so they are for ASCII text in an encoding that is compatible with ASCII. For any other text it
/// makes a buffer, and panics where its size overflows, which the bound on the length keeps away.
#[verifier::external_body]
pub(crate) fn encode<'b>(encoding: &'static Encoding, text: &'b str) -> (res: (BytesCow<'b>, bool))
    requires
        keeps_text(encoding_name(*encoding), text@) || encode_utf8(text@).len() <= usize::MAX / 64,
    ensures
        (res.0@, res.1) == encoded(encoding_name(*encoding), text@),
        keeps_text(encoding_name(*encoding), text@) ==> res.0@ == encode_utf8(text@) && !res.1,
{
    let (bytes, _, has_replacements) = encoding.encode(text);
    match bytes {
        Cow::Borrowed(bytes) => (BytesCow::Borrowed(Bytes::new(bytes)), has_replacements),
        Cow::Owned(bytes) => (BytesCow::Owned(bytes), has_replacements),
    }
}

/// One call of a decoder: the bytes that it was given, how many bytes of room it had for the text,
/// and whether the stream ends with the bytes.
pub struct DecodeCall {
    pub bytes: Seq<u8>,
    pub room: nat,
    pub last: bool,
}

/// What came of a call of a decoder: whether it took all bytes, how many it took, and the text that
/// it wrote.
pub struct DecodeOutcome {
    pub finished: bool,
    pub read: nat,
    pub text: Seq<char>,
}

/// The name of the encoding that a decoder decodes.
pub uninterp spec fn decoder_encoding(decoder: Decoder) -> Seq<char>;

/// The calls that a decoder has had.
pub uninterp spec fn decoder_calls(decoder: Decoder) -> Seq<DecodeCall>;

/// What comes of the last of some calls of a decoder for the encoding of a name.
pub uninterp spec fn decode_outcome(name: Seq<char>, calls: Seq<DecodeCall>) -> DecodeOutcome;

/// The text that the encoding of a name makes of a whole stream, malformed parts replaced, with a
/// byte order mark left where it is.
pub uninterp spec fn decoded(name: Seq<char>, bytes: Seq<u8>) -> Seq<char>;

/// The text that came of some calls of a decoder.
pub open spec fn text_of(name: Seq<char>, calls: Seq<DecodeCall>) -> Seq<char>
    decreases calls.len(),
{
    if calls.len() == 0 {
        Seq::empty()
    } else {
        text_of(name, calls.drop_last()) + decode_outcome(name, calls).text
    }
}

/// The bytes that were taken in some calls of a decoder.
pub open spec fn stream_of(name: Seq<char>, calls: Seq<DecodeCall>) -> Seq<u8>
    decreases calls.len(),
{
    if calls.len() == 0 {
        Seq::empty()
    } else {
        stream_of(name, calls.drop_last()) + calls.last().bytes.take(
            decode_outcome(name, calls).read as int,
        )
    }
}

/// Whether the stream has ended with the last of some calls.
pub open spec fn is_over(name: Seq<char>, calls: Seq<DecodeCall>) -> bool {
    calls.len() > 0 && calls.last().last && decode_outcome(name, calls).finished
}

/// Whether a call may follow other calls: what the call before left must come again, and where that
/// was the end of the stream nothing more.
pub open spec fn may_follow(name: Seq<char>, calls: Seq<DecodeCall>, next: DecodeCall) -> bool {
    calls.len() == 0 || {
        let left = calls.last().bytes.skip(decode_outcome(name, calls).read as int);
        if decode_outcome(name, calls).finished {
            !calls.last().last
        } else if calls.last().last {
            next.last && next.bytes == left
        } else {
            left.is_prefix_of(next.bytes)
        }
    }
}

/// Whether some calls feed one stream, part after part, with nothing left out.
pub open spec fn is_one_stream(name: Seq<char>, calls: Seq<DecodeCall>) -> bool
    decreases calls.len(),
{
    calls.len() == 0 || (is_one_stream(name, calls.drop_last()) && may_follow(
        name,
        calls.drop_last(),
        calls.last(),
    ))
}

/// Whether bytes at the start of a stream are their own text in the encoding of a name, whatever
/// follows: valid UTF-8 in UTF-8, and ASCII in an encoding that is compatible with ASCII.
pub open spec fn is_plain_start(name: Seq<char>, bytes: Seq<u8>) -> bool {
    &&& valid_utf8(bytes)
    &&& is_utf8_name(name) || (is_ascii_compatible_name(name) && is_ascii_bytes(bytes))
}

/// Whether bytes at the start of a stream that are their own text leave the decoding of what follows
/// as it is, and nothing decodes to nothing.
pub open spec fn keeps_plain_starts(name: Seq<char>) -> bool {
    &&& decoded(name, Seq::empty()) == Seq::<char>::empty()
    &&& forall|start: Seq<u8>, rest: Seq<u8>|
        is_plain_start(name, start) ==> #[trigger] decoded(name, start + rest) == decode_utf8(start)
            + decoded(name, rest)
}

/// `encoding_rs::Encoding::new_decoder_without_bom_handling`: a decoder that has had no calls yet.
/// Said here besides, of the text that its encoding makes of a whole stream: bytes at the start that
/// are their own text leave the decoding of what follows as it is.
pub assume_specification[ Encoding::new_decoder_without_bom_handling ](
    encoding: &'static Encoding,
) -> (decoder: Decoder)
    ensures
        decoder_encoding(decoder) == encoding_name(*encoding),
        decoder_calls(decoder) == Seq::<DecodeCall>::empty(),
        keeps_plain_starts(decoder_encoding(decoder)),
;

/// Decodes some bytes into the start of `buffer`: whether all were taken, how many were taken, and
/// how many bytes of `buffer` were written.
///
/// Calls `encoding_rs::Decoder::decode_to_str`. Believed of it: what comes of the call depends on
/// the encoding and on the calls that the decoder has had; the buffer keeps its size, and what was
/// written is whole characters; all bytes are taken unless the buffer got too full for more, and
/// with room for at least some bytes of output it takes at least one byte before that; the texts of
/// all calls for one stream are together the text of the stream. A decoder whose stream has ended
/// panics, and so it must not be called again.
#[verifier::external_body]
pub(crate) fn decode_to_str(
    decoder: &mut Decoder,
    bytes: &[u8],
    buffer: &mut String,
    last: bool,
) -> (res: (bool, usize, usize))
    requires
        !is_over(decoder_encoding(*old(decoder)), decoder_calls(*old(decoder))),
        encode_utf8(old(buffer)@).len() >= 64,
    ensures
        decoder_encoding(*final(decoder)) == decoder_encoding(*old(decoder)),
        decoder_calls(*final(decoder)) == decoder_calls(*old(decoder)).push(
            (DecodeCall { bytes: bytes@, room: encode_utf8(old(buffer)@).len(), last }),
        ),
        encode_utf8(final(buffer)@).len() == encode_utf8(old(buffer)@).len(),
        is_char_boundary(encode_utf8(final(buffer)@), res.2 as int),
        decode_outcome(decoder_encoding(*final(decoder)), decoder_calls(*final(decoder))) == (
        DecodeOutcome {
            finished: res.0,
            read: res.1 as nat,
            text: decode_utf8(encode_utf8(final(buffer)@).take(res.2 as int)),
        }),
        res.1 <= bytes@.len(),
        res.0 ==> res.1 == bytes@.len(),
        !res.0 ==> res.1 > 0,
        is_over(decoder_encoding(*final(decoder)), decoder_calls(*final(decoder)))
            && is_one_stream(decoder_encoding(*final(decoder)), decoder_calls(*final(decoder)))
            ==> decoded(
            decoder_encoding(*final(decoder)),
            stream_of(decoder_encoding(*final(decoder)), decoder_calls(*final(decoder))),
        ) == text_of(decoder_encoding(*final(decoder)), decoder_calls(*final(decoder))),
{
    let (status, read, written, _) = decoder.decode_to_str(bytes, buffer.as_mut_str(), last);
    (status == CoderResult::InputEmpty, read, written)
}

/// An encoding in which each ASCII character, and nothing else, is its own byte.
#[derive(Clone, Copy)]
pub struct AsciiCompatibleEncoding(&'static Encoding);

impl AsciiCompatibleEncoding {
    /// The encoding itself.
    pub closed spec fn spec_encoding(self) -> Encoding {
        *self.0
    }

    /// The encoding is compatible with ASCII.
    #[verifier::type_invariant]
    pub open spec fn is_well_formed(self) -> bool {
        is_ascii_compatible_name(encoding_name(self.spec_encoding()))
    }

    /// The encoding, if it is compatible with ASCII.
    #[must_use]
    pub fn new(encoding: &'static Encoding) -> (res: Option<Self>)
        ensures
            res is Some <==> is_ascii_compatible_name(encoding_name(*encoding)),
            res matches Some(compatible) ==> compatible.spec_encoding() == *encoding,
    {
        if encoding.is_ascii_compatible() {
            Some(AsciiCompatibleEncoding(encoding))
        } else {
            None
        }
    }

    /// The encoding itself.
    pub fn encoding(&self) -> (encoding: &'static Encoding)
        ensures
            *encoding == self.spec_encoding(),
            is_ascii_compatible_name(encoding_name(*encoding)),
    {
        proof {
            use_type_invariant(self);
        }
        self.0
    }
}

/// The encoding of a document, which may turn out to be another one while the document is read.
pub struct SharedEncoding {
    encoding: AsciiCompatibleEncoding,
}

impl SharedEncoding {
    /// The encoding at the moment.
    pub closed spec fn spec_encoding(self) -> Encoding {
        self.encoding.spec_encoding()
    }

    /// The encoding is compatible with ASCII.
    #[verifier::type_invariant]
    pub open spec fn is_well_formed(self) -> bool {
        is_ascii_compatible_name(encoding_name(self.spec_encoding()))
    }

    /// Starts with an encoding.
    #[must_use]
    pub fn new(encoding: AsciiCompatibleEncoding) -> (shared: Self)
        ensures
            shared.spec_encoding() == encoding.spec_encoding(),
    {
        proof {
            use_type_invariant(&encoding);
        }
        SharedEncoding { encoding }
    }

    /// The encoding at the moment.
    pub fn get(&self) -> (encoding: &'static Encoding)
        ensures
            *encoding == self.spec_encoding(),
            is_ascii_compatible_name(encoding_name(*encoding)),
    {
        self.encoding.encoding()
    }

    /// Goes over to another encoding.
    pub fn set(&mut self, encoding: AsciiCompatibleEncoding)
        ensures
            final(self).spec_encoding() == encoding.spec_encoding(),
    {
        proof {
            use_type_invariant(&encoding);
        }
        self.encoding = encoding;
    }
}

} // verus!
