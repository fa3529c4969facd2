use vstd::prelude::*;

verus! {

/// Which token kinds are wanted, one bit each. `NEXT_START_TAG` and `NEXT_END_TAG` apply to the tag
/// being decided on and are cleared once it has been delivered; the others stay in effect until
/// changed.
#[derive(Debug, Clone, Copy, PartialEq, Eq)]
pub struct TokenCaptureFlags {
    bits: u8,
}

impl TokenCaptureFlags {
    /// Text, decoded.
    pub const TEXT: u8 = 0b0000_0001;

    /// Comments.
    pub const COMMENTS: u8 = 0b0000_0010;

    /// The start tag just reported, with its attributes.
    pub const NEXT_START_TAG: u8 = 0b0000_0100;

    /// The end tag just reported.
    pub const NEXT_END_TAG: u8 = 0b0000_1000;

    /// Doctypes.
    pub const DOCTYPES: u8 = 0b0001_0000;

    /// Text as the raw, undecoded byte runs that the tokenizer sees. `TEXT` takes precedence if both
    /// are set.
    pub const RAW_TEXT: u8 = 0b0010_0000;

    /// The flags as bits.
    pub closed spec fn spec_bits(self) -> u8 {
        self.bits
    }

    /// Whether all of `flags` are set.
    pub open spec fn spec_contains(self, flags: u8) -> bool {
        self.spec_bits() & flags == flags
    }

    /// No flag.
    #[must_use]
    pub fn empty() -> (none: Self)
        ensures
            none.spec_bits() == 0,
    {
        TokenCaptureFlags { bits: 0 }
    }

    /// The flags as bits.
    pub fn bits(&self) -> (bits: u8)
        ensures
            bits == self.spec_bits(),
    {
        self.bits
    }

    /// Whether no flag is set.
    pub fn is_empty(&self) -> (empty: bool)
        ensures
            empty == (self.spec_bits() == 0),
    {
        self.bits == 0
    }

    /// Whether all of `flags` are set.
    pub fn contains(&self, flags: u8) -> (set: bool)
        ensures
            set == self.spec_contains(flags),
    {
        self.bits & flags == flags
    }

    /// Sets `flags`, besides those that are set already.
    pub fn insert(&mut self, flags: u8)
        ensures
            final(self).spec_bits() == old(self).spec_bits() | flags,
    {
        self.bits = self.bits | flags;
    }
}

/// Each kind of token has a bit of its own: setting one flag sets no other, and keeps those that are
/// set.
pub proof fn law_flags_are_bits_of_their_own(bits: u8, flag: u8, other: u8)
    requires
        flag == TokenCaptureFlags::TEXT || flag == TokenCaptureFlags::COMMENTS || flag
            == TokenCaptureFlags::NEXT_START_TAG || flag == TokenCaptureFlags::NEXT_END_TAG || flag
            == TokenCaptureFlags::DOCTYPES || flag == TokenCaptureFlags::RAW_TEXT,
        other == TokenCaptureFlags::TEXT || other == TokenCaptureFlags::COMMENTS || other
            == TokenCaptureFlags::NEXT_START_TAG || other == TokenCaptureFlags::NEXT_END_TAG
            || other == TokenCaptureFlags::DOCTYPES || other == TokenCaptureFlags::RAW_TEXT,
    ensures
        (bits | flag) & other == other <==> other == flag || bits & other == other,
{
    assert((bits | flag) & other == other <==> other == flag || bits & other == other)
        by (bit_vector)
        requires
            flag == 1 || flag == 2 || flag == 4 || flag == 8 || flag == 16 || flag == 32,
            other == 1 || other == 2 || other == 4 || other == 8 || other == 16 || other == 32,
    ;
}

} // verus!
