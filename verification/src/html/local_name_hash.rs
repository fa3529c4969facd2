use crate::base::utf8::{from_utf8, is_ascii_bytes, lemma_ascii_is_utf8};
use vstd::prelude::*;
use vstd::slice::slice_subrange;
use vstd::std_specs::cmp::PartialEqSpecImpl;
use vstd::std_specs::convert::FromSpecImpl;
use vstd::utf8::encode_utf8;

verus! {

/// A tag name of up to twelve `[a-zA-Z1-6]` characters packed five bits per character into a `u64`;
/// compares as an integer.
///
/// All standard tag names are made of ASCII letters and the digits from 1 to 6, and tag names are
/// case insensitive. That leaves 32 characters, so five bits are enough for one. The digits get the
/// numbers from 0 to 5, and the letters those from 6 to 31. A name that starts with a letter is then
/// told from every other one: leading zeros, which stand for the digit 1, cannot be part of it.
///
/// The hash is built character by character while a tag is parsed. A name that it cannot represent
/// invalidates it for good.
#[derive(Debug, Clone, Copy, PartialEq, Eq, Structural, Hash)]
pub struct LocalNameHash {
    packed: u64,
}

/// What stands for a name that cannot be represented.
const EMPTY_HASH: u64 = 0xffff_ffff_ffff_ffff;

pub const LOWER_A: u8 = 0x61;

pub const LOWER_Z: u8 = 0x7a;

pub const UPPER_A: u8 = 0x41;

pub const UPPER_Z: u8 = 0x5a;

pub const DIGIT_1: u8 = 0x31;

pub const DIGIT_6: u8 = 0x36;

/// The number of a character, if it has one. Upper and lower case have the same.
pub open spec fn number_of(ch: u8) -> Option<nat> {
    if LOWER_A <= ch <= LOWER_Z {
        Some((ch - LOWER_A + 6) as nat)
    } else if UPPER_A <= ch <= UPPER_Z {
        Some((ch - UPPER_A + 6) as nat)
    } else if DIGIT_1 <= ch <= DIGIT_6 {
        Some((ch - DIGIT_1) as nat)
    } else {
        None
    }
}

/// The character of a number, in lower case.
pub open spec fn character_of(number: nat) -> u8 {
    if number >= 6 {
        (number - 6 + LOWER_A) as u8
    } else {
        (number + DIGIT_1) as u8
    }
}

/// Below this, a hash has room for another character.
pub open spec fn room_limit() -> nat {
    0x80_0000_0000_0000
}

/// The hash of a name with one more character. `None` stands for a name that cannot be represented.
pub open spec fn extended(hash: Option<nat>, ch: u8) -> Option<nat> {
    match (hash, number_of(ch)) {
        (Some(packed), Some(number)) => if packed < room_limit() {
            Some(packed * 32 + number)
        } else {
            None
        },
        _ => None,
    }
}

/// The hash of a name.
pub open spec fn hash_of(name: Seq<u8>) -> Option<nat>
    decreases name.len(),
{
    if name.len() == 0 {
        Some(0)
    } else {
        extended(hash_of(name.drop_last()), name.last())
    }
}

/// The name that a hash stands for, in lower case.
pub open spec fn unpacked(packed: nat) -> Seq<u8>
    decreases packed,
{
    if packed == 0 {
        Seq::empty()
    } else {
        unpacked(packed / 32).push(character_of(packed % 32))
    }
}

/// How many names of a length there are.
spec fn power_of_32(len: nat) -> nat
    decreases len,
{
    if len == 0 {
        1
    } else {
        32 * power_of_32((len - 1) as nat)
    }
}

impl View for LocalNameHash {
    type V = Option<nat>;

    closed spec fn view(&self) -> Option<nat> {
        if self.packed == EMPTY_HASH {
            None
        } else {
            Some(self.packed as nat)
        }
    }
}

impl Default for LocalNameHash {
    fn default() -> (hash: Self)
        ensures
            hash@ == Some(0nat),
    {
        LocalNameHash { packed: 0 }
    }
}

impl LocalNameHash {
    #[verifier::type_invariant]
    spec fn is_well_formed(self) -> bool {
        self.packed == EMPTY_HASH || self.packed < 0x1000_0000_0000_0000
    }

    /// The hash of the empty name.
    #[must_use]
    pub fn new() -> (hash: Self)
        ensures
            hash@ == Some(0nat),
    {
        LocalNameHash { packed: 0 }
    }

    /// Whether the name was not representable (too long, or other characters).
    #[must_use]
    pub fn is_empty(&self) -> (empty: bool)
        ensures
            empty == (self@ is None),
    {
        self.packed == EMPTY_HASH
    }

    /// Appends one character.
    pub fn update(&mut self, ch: u8)
        ensures
            final(self)@ == extended(old(self)@, ch),
    {
        let packed: u64 = self.packed;
        // Five bits for each of twelve characters: with eleven or less there is room for another.
        // An invalid hash has all bits set.
        if packed >> 55 != 0 {
            proof {
                assert(packed >> 55 != 0 ==> packed >= 0x80_0000_0000_0000) by (bit_vector);
            }
            self.packed = EMPTY_HASH;
            return;
        }
        proof {
            assert(packed >> 55 == 0 ==> packed < 0x80_0000_0000_0000) by (bit_vector);
        }
        let number: u64 = if LOWER_A <= ch && ch <= LOWER_Z {
            (ch - LOWER_A) as u64 + 6
        } else if UPPER_A <= ch && ch <= UPPER_Z {
            (ch - UPPER_A) as u64 + 6
        } else if DIGIT_1 <= ch && ch <= DIGIT_6 {
            (ch - DIGIT_1) as u64
        } else {
            self.packed = EMPTY_HASH;
            return;
        };
        proof {
            assert((packed << 5) | number == packed * 32 + number && packed * 32 + number
                < 0x1000_0000_0000_0000) by (bit_vector)
                requires
                    packed < 0x80_0000_0000_0000,
                    number < 32,
            ;
        }
        self.packed = (packed << 5) | number;
    }

    /// Hashes a complete name.
    #[must_use]
    pub fn from_ascii(name: &[u8]) -> (hash: Self)
        ensures
            hash@ == hash_of(name@),
    {
        let mut hash = LocalNameHash::new();
        let mut i: usize = 0;
        while i < name.len()
            invariant
                i <= name@.len(),
                hash@ == hash_of(name@.take(i as int)),
            decreases name@.len() - i,
        {
            hash.update(name[i]);
            i = i + 1;
            assert(name@.take(i as int).drop_last() =~= name@.take(i - 1));
        }
        assert(name@.take(i as int) =~= name@);
        hash
    }

    /// The packed value; all bits are set when the name was not representable.
    #[must_use]
    pub fn as_u64(&self) -> (packed: u64)
        ensures
            packed == (match self@ {
                Some(packed) => packed,
                None => u64::MAX as nat,
            }),
            self@ matches Some(packed) ==> packed < room_limit() * 32,
    {
        proof {
            use_type_invariant(self);
        }
        self.packed
    }

    /// Unpacks the hash back into the lower case name that it stands for. There is none for the
    /// hash of the empty name, and for an invalid one.
    pub fn decode<'b>(&self, buf: &'b mut [u8; 12]) -> (name: Option<&'b str>)
        ensures
            name is Some <==> self@ is Some && self@ != Some(0nat),
            name matches Some(text) ==> self@ matches Some(packed) && encode_utf8(text@)
                == unpacked(packed),
    {
        proof {
            use_type_invariant(self);
        }
        if self.is_empty() || self.packed == 0 {
            return None;
        }
        let mut pos: usize = 12;
        let mut rest: u64 = self.packed;
        let ghost packed = self.packed as nat;
        proof {
            reveal_with_fuel(power_of_32, 13);
            assert(unpacked(packed) + buf@.skip(12) =~= unpacked(packed));
        }
        while rest > 0
            invariant
                pos <= 12,
                rest < power_of_32(pos as nat),
                unpacked(packed) == unpacked(rest as nat) + buf@.skip(pos as int),
                is_ascii_bytes(buf@.skip(pos as int)),
            decreases rest,
        {
            let ghost before = buf@;
            proof {
                assert(rest & 31 == rest % 32) by (bit_vector);
                assert(rest >> 5 == rest / 32) by (bit_vector);
            }
            pos = pos - 1;
            let number: u8 = (rest & 31) as u8;
            let ch: u8 = if number >= 6 {
                number - 6 + LOWER_A
            } else {
                number + DIGIT_1
            };
            buf[pos] = ch;
            proof {
                let known = before.skip(pos + 1);
                assert(buf@.skip(pos as int) =~= seq![ch] + known);
                assert(unpacked(rest as nat) == unpacked(rest as nat / 32).push(ch));
                assert(unpacked(rest as nat) + known =~= unpacked(rest as nat / 32) + (seq![ch]
                    + known));
            }
            rest = rest >> 5;
        }
        proof {
            assert(unpacked(0) + buf@.skip(pos as int) =~= buf@.skip(pos as int));
            assert(buf@.subrange(pos as int, 12) =~= buf@.skip(pos as int));
            lemma_ascii_is_utf8(buf@.skip(pos as int));
        }
        let name = slice_subrange(buf.as_slice(), pos, 12);
        match from_utf8(name) {
            Ok(text) => Some(text),
            Err(_) => None,
        }
    }
}


impl LocalNameHash {
    /// The name that the hash stands for, or `N/A` where there is none.
    #[must_use]
    pub fn to_display(&self) -> (text: String)
        ensures
            match self@ {
                Some(packed) => if packed == 0 {
                    text@ == "N/A"@
                } else {
                    encode_utf8(text@) == unpacked(packed)
                },
                None => text@ == "N/A"@,
            },
    {
        let mut buf: [u8; 12] = [0;12];
        match self.decode(&mut buf) {
            Some(name) => name.to_owned(),
            None => "N/A".to_owned(),
        }
    }
}

/// The hash with this value.
pub closed spec fn hash_with(hash: Option<nat>) -> LocalNameHash {
    LocalNameHash {
        packed: match hash {
            Some(packed) => packed as u64,
            None => EMPTY_HASH,
        },
    }
}

/// A hash is its value.
pub proof fn lemma_hash_is_its_value(hash: LocalNameHash)
    ensures
        hash_with(hash@) == hash,
{
}

/// The value of the hash with a value is that value.
pub proof fn lemma_value_of_hash_with(hash: Option<nat>)
    requires
        hash matches Some(packed) ==> packed < room_limit() * 32,
    ensures
        hash_with(hash)@ == hash,
{
}

/// The hash of a name has room for its value.
pub proof fn lemma_hash_of_is_bounded(name: Seq<u8>)
    ensures
        hash_of(name) matches Some(packed) ==> packed < room_limit() * 32,
        hash_with(hash_of(name))@ == hash_of(name),
    decreases name.len(),
{
    if name.len() > 0 {
        lemma_hash_of_is_bounded(name.drop_last());
    }
    lemma_value_of_hash_with(hash_of(name));
}

impl<'s> From<&'s str> for LocalNameHash {
    fn from(string: &'s str) -> (hash: Self) {
        let hash = LocalNameHash::from_ascii(string.as_bytes());
        proof {
            lemma_hash_is_its_value(hash);
        }
        hash
    }
}

impl<'s> FromSpecImpl<&'s str> for LocalNameHash {
    open spec fn obeys_from_spec() -> bool {
        true
    }

    open spec fn from_spec(string: &'s str) -> Self {
        hash_with(hash_of(encode_utf8(string@)))
    }
}

/// A standard tag, known by the hash of its name.
#[derive(Debug, Clone, Copy, PartialEq, Eq, Structural)]
pub struct Tag {
    hash: LocalNameHash,
}

impl Tag {
    /// The hash of the name.
    pub closed spec fn spec_hash(self) -> LocalNameHash {
        self.hash
    }

    /// The tag of this name, if the name can be represented as a hash.
    #[must_use]
    pub fn new(name: &[u8]) -> (tag: Option<Self>)
        ensures
            tag is Some <==> hash_of(name@) is Some,
            tag matches Some(t) ==> t.spec_hash()@ == hash_of(name@),
    {
        let hash = LocalNameHash::from_ascii(name);
        if hash.is_empty() {
            None
        } else {
            Some(Tag { hash })
        }
    }
}

impl PartialEq<Tag> for LocalNameHash {
    fn eq(&self, tag: &Tag) -> (same: bool) {
        self.packed == tag.hash.packed
    }
}

impl PartialEqSpecImpl<Tag> for LocalNameHash {
    open spec fn obeys_eq_spec() -> bool {
        true
    }

    open spec fn eq_spec(&self, tag: &Tag) -> bool {
        self@ == tag.spec_hash()@
    }
}

} // verus!
