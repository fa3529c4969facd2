use super::local_name_hash::{hash_of, LocalNameHash, Tag, LOWER_A, UPPER_A, UPPER_Z};
use crate::base::bytes::{Bytes, BytesCow, HasReplacementsError, Range};
use crate::base::encoding::{encoded, encoding_name, keeps_text};
use encoding_rs::Encoding;
use vstd::prelude::*;
use vstd::std_specs::cmp::PartialEqSpecImpl;
use vstd::utf8::encode_utf8;

verus! {

/// `LocalName` is used for the comparison of tag names.
/// In the majority of cases it will be represented as a hash, however for long non-standard tag
/// names it falls back to the bytes of the name.
#[derive(Clone, Debug)]
pub enum LocalName<'i> {
    /// A name representable as a [`LocalNameHash`].
    Hash(LocalNameHash),
    /// Any other name, as written (compared ASCII case-insensitively).
    Bytes(BytesCow<'i>),
}

/// What names are compared by.
pub enum LocalNameView {
    Hash(Option<nat>),
    Bytes(Seq<u8>),
}

/// A byte, or its lower case letter if it is an upper case one.
pub open spec fn lower(byte: u8) -> u8 {
    if UPPER_A <= byte <= UPPER_Z {
        (byte - UPPER_A + LOWER_A) as u8
    } else {
        byte
    }
}

/// Bytes in lower case.
pub open spec fn lower_all(bytes: Seq<u8>) -> Seq<u8> {
    Seq::new(bytes.len(), |i: int| lower(bytes[i]))
}

impl<'i> View for LocalName<'i> {
    type V = LocalNameView;

    open spec fn view(&self) -> LocalNameView {
        match self {
            LocalName::Hash(hash) => LocalNameView::Hash(hash@),
            LocalName::Bytes(bytes) => LocalNameView::Bytes(bytes@),
        }
    }
}

impl LocalNameView {
    /// Whether two names are the same, up to the case of letters.
    pub open spec fn is_same(self, other: Self) -> bool {
        match (self, other) {
            (LocalNameView::Hash(left), LocalNameView::Hash(right)) => left == right,
            (LocalNameView::Bytes(left), LocalNameView::Bytes(right)) => lower_all(left)
                == lower_all(right),
            _ => false,
        }
    }

    /// What a hasher is fed for a name.
    pub open spec fn key(self) -> (Option<nat>, Seq<u8>) {
        match self {
            LocalNameView::Hash(hash) => (hash, Seq::empty()),
            LocalNameView::Bytes(bytes) => (None, lower_all(bytes)),
        }
    }

    /// Whether an integer and a vector stand for what a hasher is fed for a name.
    pub open spec fn is_key(self, key: (u64, Vec<u8>)) -> bool {
        &&& key.0 == (match self.key().0 {
            Some(packed) => packed,
            None => u64::MAX as nat,
        })
        &&& key.1@ == self.key().1
    }
}

/// A byte, or its lower case letter if it is an upper case one.
pub fn to_ascii_lowercase(byte: u8) -> (lowered: u8)
    ensures
        lowered == lower(byte),
{
    if UPPER_A <= byte && byte <= UPPER_Z {
        byte - UPPER_A + LOWER_A
    } else {
        byte
    }
}

/// Whether two byte sequences are the same, up to the case of ASCII letters.
pub fn eq_ignore_ascii_case(left: &[u8], right: &[u8]) -> (same: bool)
    ensures
        same == (lower_all(left@) == lower_all(right@)),
{
    if left.len() != right.len() {
        assert(lower_all(left@).len() != lower_all(right@).len());
        return false;
    }
    let mut i: usize = 0;
    while i < left.len()
        invariant
            i <= left@.len(),
            left@.len() == right@.len(),
            forall|k: int| 0 <= k < i ==> lower(left@[k]) == lower(right@[k]),
        decreases left@.len() - i,
    {
        if to_ascii_lowercase(left[i]) != to_ascii_lowercase(right[i]) {
            assert(lower_all(left@)[i as int] != lower_all(right@)[i as int]);
            return false;
        }
        i = i + 1;
    }
    assert(lower_all(left@) =~= lower_all(right@));
    true
}

impl<'i> LocalName<'i> {
    /// The name in a range of the input, whose hash was made while it was parsed.
    #[must_use]
    pub fn new(input: Bytes<'i>, range: Range, hash: LocalNameHash) -> (name: Self)
        requires
            hash@ is None ==> range.is_within(input@.len()),
        ensures
            name@ == (if hash@ is None {
                LocalNameView::Bytes(input@.subrange(range.start as int, range.end as int))
            } else {
                LocalNameView::Hash(hash@)
            }),
    {
        if hash.is_empty() {
            LocalName::Bytes(BytesCow::Borrowed(input.slice(range)))
        } else {
            LocalName::Hash(hash)
        }
    }

    /// Detaches the name from the input buffer.
    #[must_use]
    pub fn into_owned(self) -> (name: LocalName<'static>)
        ensures
            name@ == self@,
    {
        match self {
            LocalName::Bytes(bytes) => LocalName::Bytes(bytes.into_owned()),
            LocalName::Hash(hash) => LocalName::Hash(hash),
        }
    }

    /// Builds a name for comparison; fails if `string` has to be written out and is not
    /// representable in `encoding`.
    pub fn from_str_without_replacements(string: &'i str, encoding: &'static Encoding) -> (res: Result<
        Self,
        HasReplacementsError,
    >)
        requires
            hash_of(encode_utf8(string@)) is Some || keeps_text(encoding_name(*encoding), string@)
                || encode_utf8(string@).len() <= usize::MAX / 64,
        ensures
            res is Err <==> hash_of(encode_utf8(string@)) is None && encoded(
                encoding_name(*encoding),
                string@,
            ).1,
            res matches Ok(name) ==> name@ == name_of(
                hash_of(encode_utf8(string@)),
                encoded(encoding_name(*encoding), string@).0,
            ),
            keeps_text(encoding_name(*encoding), string@) ==> (res matches Ok(name) && name@
                == name_of(hash_of(encode_utf8(string@)), encode_utf8(string@))),
    {
        let hash = LocalNameHash::from_ascii(string.as_bytes());
        if hash.is_empty() {
            match BytesCow::from_str_without_replacements(string, encoding) {
                Ok(bytes) => Ok(LocalName::Bytes(bytes)),
                Err(error) => Err(error),
            }
        } else {
            Ok(LocalName::Hash(hash))
        }
    }

    /// What a hasher is fed for the name: its hash, or else its bytes in lower case.
    pub fn hash_key(&self) -> (key: (u64, Vec<u8>))
        ensures
            self@.is_key(key),
    {
        let mut lowered: Vec<u8> = Vec::new();
        match self {
            LocalName::Hash(hash) => {
                assert(lowered@ =~= Seq::<u8>::empty());
                (hash.as_u64(), lowered)
            },
            LocalName::Bytes(bytes) => {
                let slice = bytes.as_slice();
                let mut i: usize = 0;
                while i < slice.len()
                    invariant
                        i <= slice@.len(),
                        lowered@ == lower_all(slice@.take(i as int)),
                    decreases slice@.len() - i,
                {
                    lowered.push(to_ascii_lowercase(slice[i]));
                    i = i + 1;
                    assert(lowered@ =~= lower_all(slice@.take(i as int)));
                }
                assert(slice@.take(i as int) =~= slice@);
                (0xffff_ffff_ffff_ffff, lowered)
            },
        }
    }
}

/// The name with a hash, or else with bytes.
pub open spec fn name_of(hash: Option<nat>, bytes: Seq<u8>) -> LocalNameView {
    if hash is Some {
        LocalNameView::Hash(hash)
    } else {
        LocalNameView::Bytes(bytes)
    }
}

/// Feeds a hasher with a name.
///
/// Calls `Hash::hash` of std for an integer and a vector. Nothing is believed of what the hasher
/// makes of them. The contract by which names are hashed says that this is called, and with what.
#[verifier::external_body]
pub fn feed_hasher<S: std::hash::Hasher>(key: (u64, Vec<u8>), state: &mut S) {
    std::hash::Hash::hash(&key, state);
}

impl<'i> std::hash::Hash for LocalName<'i> {
    /// Feeds a hasher with the key of the name, and with nothing else.
    fn hash<S: std::hash::Hasher>(&self, state: &mut S)
        ensures
            exists|key: (u64, Vec<u8>), fed: &mut S|
                {
                    &&& #[trigger] call_ensures(feed_hasher::<S>, (key, fed), ())
                    &&& self@.is_key(key)
                    &&& *fed == *old(state)
                    &&& *final(fed) == *final(state)
                },
    {
        let feed = feed_hasher::<S>;
        feed(self.hash_key(), state);
    }
}

impl<'i> PartialEq<Tag> for LocalName<'i> {
    fn eq(&self, tag: &Tag) -> (same: bool) {
        match self {
            LocalName::Hash(hash) => *hash == *tag,
            LocalName::Bytes(_) => false,
        }
    }
}

impl<'i> PartialEqSpecImpl<Tag> for LocalName<'i> {
    open spec fn obeys_eq_spec() -> bool {
        true
    }

    open spec fn eq_spec(&self, tag: &Tag) -> bool {
        self@ == LocalNameView::Hash(tag.spec_hash()@)
    }
}

impl<'i, 'o> PartialEq<LocalName<'o>> for LocalName<'i> {
    fn eq(&self, other: &LocalName<'o>) -> (same: bool) {
        match (self, other) {
            (LocalName::Hash(left), LocalName::Hash(right)) => left.as_u64() == right.as_u64(),
            (LocalName::Bytes(left), LocalName::Bytes(right)) => eq_ignore_ascii_case(
                left.as_slice(),
                right.as_slice(),
            ),
            _ => false,
        }
    }
}

impl<'i, 'o> PartialEqSpecImpl<LocalName<'o>> for LocalName<'i> {
    open spec fn obeys_eq_spec() -> bool {
        true
    }

    open spec fn eq_spec(&self, other: &LocalName<'o>) -> bool {
        self@.is_same(other@)
    }
}

impl<'i> Eq for LocalName<'i> {

}

} // verus!
