use super::bytes::Bytes;
use super::decimal::{decimal, decimal_digits};
use std::ops;
use vstd::prelude::*;
use vstd::slice::slice_to_vec;
use vstd::std_specs::convert::{FromSpec, FromSpecImpl};

verus! {

/// Original position in the parsed document.
///
/// Source locations are not affected by document rewriting.
#[derive(Debug, Clone, PartialEq, Eq)]
pub struct SourceLocation {
    start: usize,
    end: usize,
}

impl SourceLocation {
    /// The position of the first byte.
    pub closed spec fn spec_start(self) -> nat {
        self.start as nat
    }

    /// The position behind the last byte.
    pub closed spec fn spec_end(self) -> nat {
        self.end as nat
    }

    /// The position of `len` bytes from `start` on.
    pub fn from_start_len(start: usize, len: usize) -> (location: Self)
        requires
            start + len <= usize::MAX,
        ensures
            location.spec_start() == start,
            location.spec_end() == start + len,
    {
        SourceLocation { start, end: start + len }
    }

    /// Absolute start/end position in bytes.
    ///
    /// The offset is in bytes, not characters. It refers to the input data, in the input's original
    /// character encoding.
    #[must_use]
    pub fn bytes(&self) -> (range: ops::Range<usize>)
        ensures
            range.start == self.spec_start(),
            range.end == self.spec_end(),
    {
        ops::Range { start: self.start, end: self.end }
    }

    /// The position as text, such as `3B...14B`.
    #[must_use]
    pub fn to_display(&self) -> (text: String)
        ensures
            text@ == decimal_digits(self.spec_start()) + "B..."@ + decimal_digits(self.spec_end())
                + "B"@,
    {
        let mut text = decimal(self.start);
        text.append("B...");
        let end = decimal(self.end);
        text.append(end.as_str());
        text.append("B");
        text
    }
}

/// Bytes, with where they start in the parsed document.
#[derive(Debug, Clone, Copy)]
pub struct Spanned<B> {
    bytes: B,
    source_location_byte_start: usize,
}

/// The bytes of a token.
#[derive(Debug, Clone)]
pub enum RawBytes<'input> {
    /// Bytes of the input.
    Original(&'input [u8]),
    /// Bytes copied out of the input, so that they can outlive it.
    Owned(Vec<u8>),
    /// The bytes are no longer those of the input. Keeps how many those were.
    Modified(usize),
}

/// The bytes of a token, with where they start in the parsed document.
pub type SpannedRawBytes<'input> = Spanned<RawBytes<'input>>;

impl<'input> RawBytes<'input> {
    /// How many bytes of the input these were.
    pub open spec fn spec_len(self) -> nat {
        match self {
            RawBytes::Original(s) => s@.len(),
            RawBytes::Owned(s) => s@.len(),
            RawBytes::Modified(l) => l as nat,
        }
    }

    /// The bytes of the input, unless they were modified.
    pub open spec fn spec_original(self) -> Option<Seq<u8>> {
        match self {
            RawBytes::Original(s) => Some(s@),
            RawBytes::Owned(s) => Some(s@),
            RawBytes::Modified(_) => None,
        }
    }
}

impl<B> Spanned<B> {
    /// The bytes.
    pub closed spec fn spec_bytes(self) -> B {
        self.bytes
    }

    /// Where they start.
    pub closed spec fn spec_start(self) -> nat {
        self.source_location_byte_start as nat
    }
}

impl<'i> From<Spanned<Bytes<'i>>> for SpannedRawBytes<'i> {
    fn from(s: Spanned<Bytes<'i>>) -> (raw: Self) {
        Spanned {
            bytes: RawBytes::Original(s.bytes.as_slice()),
            source_location_byte_start: s.source_location_byte_start,
        }
    }
}

impl<'i> FromSpecImpl<Spanned<Bytes<'i>>> for SpannedRawBytes<'i> {
    open spec fn obeys_from_spec() -> bool {
        true
    }

    closed spec fn from_spec(s: Spanned<Bytes<'i>>) -> Self {
        Spanned {
            bytes: RawBytes::Original(s.bytes.spec_slice()),
            source_location_byte_start: s.source_location_byte_start,
        }
    }
}

impl<'input> SpannedRawBytes<'input> {
    /// How many bytes of the input these were.
    pub fn len(&self) -> (len: usize)
        ensures
            len == self.spec_bytes().spec_len(),
    {
        match &self.bytes {
            RawBytes::Original(s) => s.len(),
            RawBytes::Owned(s) => s.len(),
            RawBytes::Modified(l) => *l,
        }
    }

    /// Notes that the bytes are no longer those of the input.
    pub fn set_modified(&mut self)
        ensures
            final(self).spec_bytes() is Modified,
            final(self).spec_bytes().spec_len() == old(self).spec_bytes().spec_len(),
            final(self).spec_start() == old(self).spec_start(),
    {
        self.bytes = RawBytes::Modified(self.len());
    }

    /// The bytes of the input, unless they were modified.
    pub fn original(&self) -> (bytes: Option<&[u8]>)
        ensures
            bytes is Some <==> self.spec_bytes().spec_original() is Some,
            bytes matches Some(b) ==> self.spec_bytes().spec_original() == Some(b@),
    {
        match &self.bytes {
            RawBytes::Original(s) => Some(*s),
            RawBytes::Owned(s) => Some(s.as_slice()),
            RawBytes::Modified(_) => None,
        }
    }

    /// Detaches the bytes from the input. What is left behind keeps only how many they were, and
    /// where.
    pub fn take_owned(&mut self) -> (owned: SpannedRawBytes<'static>)
        ensures
            owned.spec_bytes().spec_original() == old(self).spec_bytes().spec_original(),
            owned.spec_bytes().spec_len() == old(self).spec_bytes().spec_len(),
            !(owned.spec_bytes() is Original),
            owned.spec_start() == old(self).spec_start(),
            final(self).spec_bytes() is Modified,
            final(self).spec_bytes().spec_len() == old(self).spec_bytes().spec_len(),
            final(self).spec_start() == old(self).spec_start(),
    {
        let len: usize = self.len();
        let mut taken = RawBytes::Modified(len);
        std::mem::swap(&mut taken, &mut self.bytes);
        let bytes = match taken {
            RawBytes::Original(s) => RawBytes::Owned(slice_to_vec(s)),
            RawBytes::Owned(s) => RawBytes::Owned(s),
            RawBytes::Modified(l) => RawBytes::Modified(l),
        };
        Spanned { bytes, source_location_byte_start: self.source_location_byte_start }
    }

    /// Where the bytes were in the parsed document.
    pub fn source_location(&self) -> (location: SourceLocation)
        requires
            self.spec_start() + self.spec_bytes().spec_len() <= usize::MAX,
        ensures
            location.spec_start() == self.spec_start(),
            location.spec_end() == self.spec_start() + self.spec_bytes().spec_len(),
    {
        SourceLocation::from_start_len(self.source_location_byte_start, self.len())
    }
}

impl<'input> Spanned<Bytes<'input>> {
    /// Bytes of the input that start at a position of the parsed document.
    pub fn new(source_location_byte_start: usize, input_raw: Bytes<'input>) -> (spanned: Self)
        ensures
            spanned.spec_bytes() == input_raw,
            spanned.spec_start() == source_location_byte_start,
    {
        Spanned { bytes: input_raw, source_location_byte_start }
    }

    /// How many bytes there are.
    pub fn len(&self) -> (len: usize)
        ensures
            len == self.spec_bytes()@.len(),
    {
        self.bytes.len()
    }

    /// The bytes as a slice.
    pub fn as_slice(&self) -> (slice: &'input [u8])
        ensures
            slice@ == self.spec_bytes()@,
    {
        self.bytes.as_slice()
    }

    /// Where the bytes are in the parsed document.
    pub fn source_location(&self) -> (location: SourceLocation)
        requires
            self.spec_start() + self.spec_bytes()@.len() <= usize::MAX,
        ensures
            location.spec_start() == self.spec_start(),
            location.spec_end() == self.spec_start() + self.spec_bytes()@.len(),
    {
        SourceLocation::from_start_len(self.source_location_byte_start, self.len())
    }
}

/// Bytes of the input are the original bytes of the token that is made of them, in the same place.
pub proof fn law_input_is_original<'i>(s: Spanned<Bytes<'i>>)
    ensures
        ({
            let raw = <SpannedRawBytes<'i> as FromSpec<Spanned<Bytes<'i>>>>::from_spec(s);
            &&& raw.spec_bytes() == RawBytes::Original(s.spec_bytes().spec_slice())
            &&& raw.spec_start() == s.spec_start()
        }),
{
}

/// The bytes of the input are as many as they were, and bytes that were modified only keep how many
/// they were.
pub proof fn law_original_bytes_have_their_length<'i>(bytes: RawBytes<'i>)
    ensures
        match bytes.spec_original() {
            Some(original) => original.len() == bytes.spec_len() && !(bytes is Modified),
            None => bytes is Modified,
        },
        bytes matches RawBytes::Original(slice) ==> bytes.spec_original() == Some(slice@),
        bytes matches RawBytes::Owned(owned) ==> bytes.spec_original() == Some(owned@),
        bytes matches RawBytes::Modified(len) ==> bytes.spec_len() == len,
{
}

/// The position of some bytes in the document starts where they do, and is as long as they are.
pub proof fn law_location_covers_its_bytes<'i>(
    input: Spanned<Bytes<'i>>,
    raw: SpannedRawBytes<'i>,
    location: SourceLocation,
)
    ensures
        call_ensures(Spanned::<Bytes<'i>>::source_location, (&input,), location)
            ==> location.spec_start() == input.spec_start() && location.spec_end()
            - location.spec_start() == input.spec_bytes()@.len(),
        call_ensures(SpannedRawBytes::<'i>::source_location, (&raw,), location)
            ==> location.spec_start() == raw.spec_start() && location.spec_end()
            - location.spec_start() == raw.spec_bytes().spec_len(),
        forall|range: ops::Range<usize>|
            #[trigger] call_ensures(SourceLocation::bytes, (&location,), range) ==> range.start
                == location.spec_start() && range.end == location.spec_end(),
{
}

/// Noting that bytes were modified, or taking them out, keeps where they were and how many. What is
/// taken out has the bytes of the input, and what is left behind has not.
pub proof fn law_place_in_the_document_stays<'i>(owned: SpannedRawBytes<'static>)
    ensures
        forall|raw: &mut SpannedRawBytes<'i>|
            #[trigger] call_ensures(SpannedRawBytes::<'i>::set_modified, (raw,), ()) ==> {
                let after = *final(raw);
                &&& after.spec_start() == raw.spec_start()
                &&& after.spec_bytes().spec_len() == raw.spec_bytes().spec_len()
                &&& after.spec_bytes().spec_original() is None
            },
        forall|raw: &mut SpannedRawBytes<'i>|
            #[trigger] call_ensures(SpannedRawBytes::<'i>::take_owned, (raw,), owned) ==> {
                let after = *final(raw);
                &&& owned.spec_start() == raw.spec_start() && after.spec_start() == raw.spec_start()
                &&& owned.spec_bytes().spec_len() == raw.spec_bytes().spec_len()
                &&& after.spec_bytes().spec_len() == raw.spec_bytes().spec_len()
                &&& owned.spec_bytes().spec_original() == raw.spec_bytes().spec_original()
                &&& after.spec_bytes().spec_original() is None
            },
{
}

} // verus!
