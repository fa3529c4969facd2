use super::local_name::{feed_hasher, lower, lower_all, name_of, LocalName, LocalNameView};
use super::local_name_hash::{
    character_of, hash_of, lemma_hash_of_is_bounded, number_of, room_limit, unpacked,
    LocalNameHash, Tag, DIGIT_1,
};
use crate::base::bytes::{Bytes, Range};
use vstd::prelude::*;
use vstd::std_specs::cmp::PartialEqSpec;
use vstd::std_specs::convert::FromSpec;
use vstd::utf8::encode_utf8;

verus! {

/// Whether every character of a name has a number.
pub open spec fn has_numbers(name: Seq<u8>) -> bool {
    forall|i: int| 0 <= i < name.len() ==> number_of(#[trigger] name[i]) is Some
}

/// Whether a name can be the name of a tag as far as its first character goes: the digit 1, which is
/// packed as zero, does not come first.
pub open spec fn starts_well(name: Seq<u8>) -> bool {
    name.len() > 0 ==> name[0] != DIGIT_1
}

proof fn lemma_character_of_number(ch: u8)
    requires
        number_of(ch) is Some,
    ensures
        number_of(ch)->0 < 32,
        character_of(number_of(ch)->0) == lower(ch),
        number_of(ch) == number_of(lower(ch)),
{
}

proof fn lemma_hash_has_numbers(name: Seq<u8>)
    requires
        hash_of(name) is Some,
    ensures
        has_numbers(name),
    decreases name.len(),
{
    if name.len() > 0 {
        let shorter = name.drop_last();
        lemma_hash_has_numbers(shorter);
        assert forall|i: int| 0 <= i < name.len() implies number_of(#[trigger] name[i]) is Some by {
            if i < shorter.len() {
                assert(shorter[i] == name[i]);
            }
        }
    }
}

/// How large the numbers of names with `len` characters are at most.
spec fn bound(len: nat) -> nat
    decreases len,
{
    if len == 0 {
        1
    } else {
        32 * bound((len - 1) as nat)
    }
}

proof fn lemma_bound_grows(small: nat, large: nat)
    requires
        small <= large,
    ensures
        bound(small) <= bound(large),
        bound(small) >= 1,
    decreases large,
{
    if large > 0 {
        if small < large {
            lemma_bound_grows(small, (large - 1) as nat);
        } else {
            lemma_bound_grows((small - 1) as nat, (large - 1) as nat);
        }
    }
}

/// A name without a leading zero is packed into as many digits of base 32 as it has characters.
proof fn lemma_hash_is_in_bounds(name: Seq<u8>)
    requires
        hash_of(name) is Some,
        starts_well(name),
        name.len() > 0,
    ensures
        bound((name.len() - 1) as nat) <= hash_of(name)->0 < bound(name.len()),
    decreases name.len(),
{
    let shorter = name.drop_last();
    lemma_character_of_number(name.last());
    if shorter.len() > 0 {
        assert(shorter[0] == name[0]);
        lemma_hash_is_in_bounds(shorter);
    } else {
        assert(name.last() == name[0]);
        reveal_with_fuel(bound, 2);
    }
}

/// A name is representable exactly if it has at most twelve characters, all of them letters or
/// digits from 1 to 6.
pub proof fn law_representable_names(name: Seq<u8>)
    requires
        starts_well(name),
    ensures
        hash_of(name) is Some <==> name.len() <= 12 && has_numbers(name),
    decreases name.len(),
{
    if name.len() > 0 {
        let shorter = name.drop_last();
        assert(starts_well(shorter)) by {
            if shorter.len() > 0 {
                assert(shorter[0] == name[0]);
            }
        }
        law_representable_names(shorter);
        assert(room_limit() == bound(11)) by {
            reveal_with_fuel(bound, 12);
        }
        if hash_of(shorter) is Some && shorter.len() > 0 {
            lemma_hash_is_in_bounds(shorter);
            if shorter.len() <= 11 {
                lemma_bound_grows(shorter.len(), 11);
            } else {
                lemma_bound_grows(11, (shorter.len() - 1) as nat);
            }
        }
        assert(has_numbers(name) <==> has_numbers(shorter) && number_of(name.last()) is Some) by {
            if has_numbers(shorter) && number_of(name.last()) is Some {
                assert forall|i: int| 0 <= i < name.len() implies number_of(
                    #[trigger] name[i],
                ) is Some by {
                    if i < shorter.len() {
                        assert(shorter[i] == name[i]);
                    }
                }
            }
            if has_numbers(name) {
                assert forall|i: int| 0 <= i < shorter.len() implies number_of(
                    #[trigger] shorter[i],
                ) is Some by {
                    assert(name[i] == shorter[i]);
                }
                assert(number_of(name[name.len() - 1]) is Some);
            }
        }
    }
}

/// The encoding is reversible for every representable name: unpacking gives the name back, in lower
/// case.
pub proof fn law_hash_is_reversible(name: Seq<u8>)
    requires
        hash_of(name) is Some,
        starts_well(name),
    ensures
        unpacked(hash_of(name)->0) == lower_all(name),
    decreases name.len(),
{
    if name.len() == 0 {
        assert(lower_all(name) =~= Seq::<u8>::empty());
    } else {
        let shorter = name.drop_last();
        let packed = hash_of(name)->0;
        let number = number_of(name.last())->0;
        assert(starts_well(shorter)) by {
            if shorter.len() > 0 {
                assert(shorter[0] == name[0]);
            }
        }
        law_hash_is_reversible(shorter);
        lemma_character_of_number(name.last());
        lemma_hash_is_in_bounds(name);
        lemma_bound_grows(0, (name.len() - 1) as nat);
        assert(packed / 32 == hash_of(shorter)->0);
        assert(packed % 32 == number);
        assert(lower_all(name) =~= lower_all(shorter).push(lower(name.last())));
    }
}

proof fn lemma_hash_ignores_case(name: Seq<u8>)
    ensures
        hash_of(name) == hash_of(lower_all(name)),
    decreases name.len(),
{
    if name.len() == 0 {
        assert(lower_all(name) =~= name);
    } else {
        lemma_hash_ignores_case(name.drop_last());
        assert(lower_all(name).drop_last() =~= lower_all(name.drop_last()));
        let ch = name.last();
        assert(number_of(ch) == number_of(lower(ch)));
    }
}

/// Two names have the same hash exactly if they are the same up to the case of letters.
pub proof fn law_hashes_tell_names_apart(left: Seq<u8>, right: Seq<u8>)
    requires
        hash_of(left) is Some,
        hash_of(right) is Some,
        starts_well(left),
        starts_well(right),
    ensures
        hash_of(left) == hash_of(right) <==> lower_all(left) == lower_all(right),
{
    law_hash_is_reversible(left);
    law_hash_is_reversible(right);
    lemma_hash_ignores_case(left);
    lemma_hash_ignores_case(right);
}

/// Names compare as the same exactly if their bytes do, up to the case of letters, whether they are
/// held as hashes or written out. It does not matter which comes first, and a name that is held as a
/// hash is never the same as one that is written out.
pub proof fn law_names_compare_ignoring_case(left: Seq<u8>, right: Seq<u8>)
    requires
        starts_well(left),
        starts_well(right),
    ensures
        name_of(hash_of(left), left).is_same(name_of(hash_of(right), right)) <==> lower_all(left)
            == lower_all(right),
        name_of(hash_of(left), left).is_same(name_of(hash_of(right), right)) <==> name_of(
            hash_of(right),
            right,
        ).is_same(name_of(hash_of(left), left)),
        hash_of(left) is Some != hash_of(right) is Some ==> !name_of(hash_of(left), left).is_same(
            name_of(hash_of(right), right),
        ),
{
    lemma_hash_ignores_case(left);
    lemma_hash_ignores_case(right);
    if hash_of(left) is Some && hash_of(right) is Some {
        law_hashes_tell_names_apart(left, right);
    }
}

/// Names that compare as the same feed a hasher alike: they have the same key, and what the hasher may
/// be left with after the one it may be left with after the other.
pub proof fn law_same_names_hash_the_same<S: std::hash::Hasher>(
    left: LocalNameView,
    right: LocalNameView,
    before: S,
    after: S,
)
    requires
        left.is_same(right),
    ensures
        left.key() == right.key(),
        forall|key: (u64, Vec<u8>)| left.is_key(key) <==> #[trigger] right.is_key(key),
        (exists|key: (u64, Vec<u8>), state: &mut S|
            {
                &&& #[trigger] call_ensures(feed_hasher::<S>, (key, state), ())
                &&& left.is_key(key)
                &&& *state == before
                &&& *final(state) == after
            }) <==> (exists|key: (u64, Vec<u8>), state: &mut S|
            {
                &&& #[trigger] call_ensures(feed_hasher::<S>, (key, state), ())
                &&& right.is_key(key)
                &&& *state == before
                &&& *final(state) == after
            }),
{
}

/// Two characters are the same up to case exactly if they are the same, or the upper and the lower
/// case of one of the 26 letters, which are 32 apart. In lower case there is no upper case letter.
pub proof fn law_only_letters_have_case(left: u8, right: u8)
    ensures
        lower(left) == lower(right) <==> left == right || (65 <= left <= 90 && right == left + 32)
            || (65 <= right <= 90 && left == right + 32),
        !(65 <= lower(left) <= 90),
        lower(lower(left)) == lower(left),
        !(65 <= left <= 90) ==> lower(left) == left,
{
}

/// Bytes are the same up to case exactly if they are, one by one.
pub proof fn law_bytes_are_the_same_one_by_one(left: Seq<u8>, right: Seq<u8>)
    ensures
        lower_all(left) == lower_all(right) <==> left.len() == right.len() && forall|i: int|
            0 <= i < left.len() ==> lower(#[trigger] left[i]) == lower(right[i]),
{
    if lower_all(left) == lower_all(right) {
        assert(lower_all(left).len() == lower_all(right).len());
        assert forall|i: int| 0 <= i < left.len() implies lower(#[trigger] left[i]) == lower(
            right[i],
        ) by {
            assert(lower_all(left)[i] == lower_all(right)[i]);
        }
    }
    if left.len() == right.len() && (forall|i: int|
        0 <= i < left.len() ==> lower(#[trigger] left[i]) == lower(right[i])) {
        assert(lower_all(left) =~= lower_all(right));
    }
}

/// With each character a hash gets five bits longer, and the new ones say which character it was. A
/// name that cannot be represented does not become representable.
pub proof fn law_hash_grows_by_a_character(name: Seq<u8>, ch: u8)
    ensures
        match hash_of(name.push(ch)) {
            Some(packed) => {
                &&& hash_of(name) == Some(packed / 32)
                &&& character_of(packed % 32) == lower(ch)
                &&& packed < 0x1000_0000_0000_0000
            },
            None => hash_of(name) is None || hash_of(name)->0 >= 0x80_0000_0000_0000 || !((97
                <= lower(ch) <= 122) || (49 <= ch <= 54)),
        },
        hash_of(Seq::<u8>::empty()) == Some(0nat),
{
    assert(name.push(ch).drop_last() =~= name);
    if hash_of(name.push(ch)) is Some {
        lemma_character_of_number(ch);
    }
}

/// A name is a tag exactly if the name of the tag has the same bytes, up to the case of letters.
pub proof fn law_name_is_the_tag_of_its_bytes(name: Seq<u8>, tag: Seq<u8>)
    requires
        starts_well(name),
        starts_well(tag),
        hash_of(tag) is Some,
    ensures
        name_of(hash_of(name), name) == LocalNameView::Hash(hash_of(tag)) <==> lower_all(name)
            == lower_all(tag),
{
    lemma_hash_ignores_case(name);
    lemma_hash_ignores_case(tag);
    if hash_of(name) is Some {
        law_hashes_tell_names_apart(name, tag);
    }
}

/// Names have the same key exactly if they compare as the same, so that names that differ feed a hasher
/// differently.
pub proof fn law_keys_tell_names_apart(left: LocalNameView, right: LocalNameView)
    requires
        left matches LocalNameView::Hash(hash) ==> hash is Some,
        right matches LocalNameView::Hash(hash) ==> hash is Some,
    ensures
        left.key() == right.key() <==> left.is_same(right),
{
}

/// Two integers and vectors that stand for what a hasher is fed are the same exactly if the names are,
/// as far as their hashes have twelve characters at most.
pub proof fn law_fed_values_tell_names_apart(
    left: LocalNameView,
    right: LocalNameView,
    left_key: (u64, Vec<u8>),
    right_key: (u64, Vec<u8>),
)
    requires
        left.is_key(left_key),
        right.is_key(right_key),
        left matches LocalNameView::Hash(hash) ==> hash is Some && hash->0 < 0x1000_0000_0000_0000,
        right matches LocalNameView::Hash(hash) ==> hash is Some && hash->0 < 0x1000_0000_0000_0000,
    ensures
        left_key.0 == right_key.0 && left_key.1@ == right_key.1@ <==> left.is_same(right),
{
}

/// A name in a range of the input whose hash was made of that range is the name of those bytes.
pub proof fn law_name_of_a_range<'i>(
    input: Bytes<'i>,
    range: Range,
    hash: LocalNameHash,
    name: LocalName<'i>,
)
    requires
        range.is_within(input@.len()),
        hash@ == hash_of(input@.subrange(range.start as int, range.end as int)),
        call_ensures(LocalName::new, (input, range, hash), name),
    ensures
        ({
            let bytes = input@.subrange(range.start as int, range.end as int);
            match name@ {
                LocalNameView::Hash(of) => of == hash_of(bytes) && of is Some,
                LocalNameView::Bytes(written) => written == bytes && hash_of(bytes) is None,
            }
        }),
{
}

/// A name equals a tag, and another name, exactly if they are made of the same bytes, up to the case of
/// letters.
pub proof fn law_names_are_equal<'i, 'o>(
    name: LocalName<'i>,
    bytes: Seq<u8>,
    other: LocalName<'o>,
    other_bytes: Seq<u8>,
    tag: Tag,
    tag_bytes: Seq<u8>,
)
    requires
        starts_well(bytes),
        starts_well(other_bytes),
        starts_well(tag_bytes),
        hash_of(tag_bytes) is Some,
        name@ == name_of(hash_of(bytes), bytes),
        other@ == name_of(hash_of(other_bytes), other_bytes),
        tag.spec_hash()@ == hash_of(tag_bytes),
    ensures
        PartialEqSpec::<LocalName<'o>>::eq_spec(&name, &other) <==> lower_all(bytes) == lower_all(
            other_bytes,
        ),
        PartialEqSpec::<Tag>::eq_spec(&name, &tag) <==> lower_all(bytes) == lower_all(tag_bytes),
{
    law_names_compare_ignoring_case(bytes, other_bytes);
    law_name_is_the_tag_of_its_bytes(bytes, tag_bytes);
}

/// The hash that is made of a text is the hash of its bytes.
pub proof fn law_hash_of_a_text<'s>(text: &'s str)
    ensures
        <LocalNameHash as FromSpec<&'s str>>::from_spec(text)@ == hash_of(encode_utf8(text@)),
{
    lemma_hash_of_is_bounded(encode_utf8(text@));
}

/// A hash equals a tag exactly if the name that it was made of has the bytes of the tag, up to the case
/// of letters. The hash of a name that cannot be represented equals none.
pub proof fn law_hash_equals_the_tag_of_its_name(
    hash: LocalNameHash,
    bytes: Seq<u8>,
    tag: Tag,
    tag_bytes: Seq<u8>,
)
    requires
        starts_well(bytes),
        starts_well(tag_bytes),
        hash_of(tag_bytes) is Some,
        hash@ == hash_of(bytes),
        tag.spec_hash()@ == hash_of(tag_bytes),
    ensures
        PartialEqSpec::<Tag>::eq_spec(&hash, &tag) <==> lower_all(bytes) == lower_all(tag_bytes),
        hash@ is None ==> !PartialEqSpec::<Tag>::eq_spec(&hash, &tag),
{
    lemma_hash_ignores_case(bytes);
    lemma_hash_ignores_case(tag_bytes);
    if hash_of(bytes) is Some {
        law_hashes_tell_names_apart(bytes, tag_bytes);
    }
}

} // verus!
