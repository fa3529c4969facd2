use super::encoding::{encode, encoded, encoding_name, keeps_text};
use encoding_rs::Encoding;
use vstd::prelude::*;
use vstd::slice::{slice_subrange, slice_to_vec};
use vstd::utf8::encode_utf8;

verus! {

/// A part of the input, from its first byte up to the one behind its last.
#[derive(Debug, Clone, Copy, PartialEq, Eq)]
pub struct Range {
    pub start: usize,
    pub end: usize,
}

impl Range {
    /// Whether the range is one of an input of `len` bytes.
    pub open spec fn is_within(self, len: nat) -> bool {
        self.start <= self.end <= len
    }
}

/// Bytes of the input.
#[derive(Debug, Clone, Copy)]
pub struct Bytes<'b>(&'b [u8]);

impl<'b> View for Bytes<'b> {
    type V = Seq<u8>;

    closed spec fn view(&self) -> Seq<u8> {
        self.0@
    }
}

impl<'b> Bytes<'b> {
    /// The bytes of a slice.
    #[must_use]
    pub fn new(slice: &'b [u8]) -> (bytes: Self)
        ensures
            bytes@ == slice@,
    {
        Bytes(slice)
    }

    /// How many bytes there are.
    pub fn len(&self) -> (len: usize)
        ensures
            len == self@.len(),
    {
        self.0.len()
    }

    /// Whether there are none.
    pub fn is_empty(&self) -> (empty: bool)
        ensures
            empty == (self@.len() == 0),
    {
        self.0.len() == 0
    }

    /// The bytes as a slice.
    pub closed spec fn spec_slice(self) -> &'b [u8] {
        self.0
    }

    /// The bytes as a slice.
    pub fn as_slice(&self) -> (slice: &'b [u8])
        ensures
            slice@ == self@,
            slice == self.spec_slice(),
    {
        self.0
    }

    /// The bytes of a range.
    pub fn slice(&self, range: Range) -> (part: Self)
        requires
            range.is_within(self@.len()),
        ensures
            part@ == self@.subrange(range.start as int, range.end as int),
    {
        Bytes(slice_subrange(self.0, range.start, range.end))
    }
}

/// Bytes of the input, or bytes of their own.
#[derive(Debug, Clone)]
pub enum BytesCow<'b> {
    Borrowed(Bytes<'b>),
    Owned(Vec<u8>),
}

impl<'b> View for BytesCow<'b> {
    type V = Seq<u8>;

    open spec fn view(&self) -> Seq<u8> {
        match self {
            BytesCow::Borrowed(bytes) => bytes@,
            BytesCow::Owned(bytes) => bytes@,
        }
    }
}

/// The text has characters that the encoding does not.
#[derive(Debug, PartialEq, Eq)]
pub struct HasReplacementsError;

impl<'b> BytesCow<'b> {
    /// The bytes as a slice.
    pub fn as_slice(&self) -> (slice: &[u8])
        ensures
            slice@ == self@,
    {
        match self {
            BytesCow::Borrowed(bytes) => bytes.as_slice(),
            BytesCow::Owned(bytes) => bytes.as_slice(),
        }
    }

    /// Detaches the bytes from the input.
    pub fn into_owned(self) -> (owned: BytesCow<'static>)
        ensures
            owned@ == self@,
            owned is Owned,
    {
        match self {
            BytesCow::Borrowed(bytes) => BytesCow::Owned(slice_to_vec(bytes.as_slice())),
            BytesCow::Owned(bytes) => BytesCow::Owned(bytes),
        }
    }

    /// The text in an encoding. It is an error if the encoding lacks one of its characters.
    pub fn from_str_without_replacements(string: &'b str, encoding: &'static Encoding) -> (res: Result<
        Self,
        HasReplacementsError,
    >)
        requires
            keeps_text(encoding_name(*encoding), string@) || encode_utf8(string@).len()
                <= usize::MAX / 64,
        ensures
            res is Err <==> encoded(encoding_name(*encoding), string@).1,
            res matches Ok(bytes) ==> bytes@ == encoded(encoding_name(*encoding), string@).0,
            keeps_text(encoding_name(*encoding), string@) ==> (res matches Ok(bytes) && bytes@
                == encode_utf8(string@)),
    {
        let (bytes, has_replacements) = encode(encoding, string);
        without_replacements(bytes, has_replacements)
    }
}

/// What an encoder made of a text, unless it had to replace characters.
pub fn without_replacements<'b>(bytes: BytesCow<'b>, has_replacements: bool) -> (res: Result<
    BytesCow<'b>,
    HasReplacementsError,
>)
    ensures
        res == (if has_replacements {
            Err::<BytesCow<'b>, HasReplacementsError>(HasReplacementsError)
        } else {
            Ok(bytes)
        }),
{
    if has_replacements {
        Err(HasReplacementsError)
    } else {
        Ok(bytes)
    }
}

} // verus!
