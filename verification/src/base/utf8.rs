use vstd::prelude::*;
use vstd::utf8::{
    encode_utf8, is_leading_byte_width_1, partial_valid_utf8_extend_ascii_block, valid_utf8,
};

verus! {

/// Whether every byte is that of an ASCII character.
pub open spec fn is_ascii_bytes(bytes: Seq<u8>) -> bool {
    forall|i: int| 0 <= i < bytes.len() ==> #[trigger] bytes[i] < 0x80
}

/// ASCII is valid UTF-8.
pub proof fn lemma_ascii_is_utf8(bytes: Seq<u8>)
    requires
        is_ascii_bytes(bytes),
    ensures
        valid_utf8(bytes),
{
    assert(bytes.subrange(0, 0) =~= Seq::<u8>::empty());
    assert forall|i: int| 0 <= i < bytes.len() implies #[trigger]
        is_leading_byte_width_1(bytes[i]) by {
        let byte = bytes[i];
        assert(byte < 0x80);
    }
    partial_valid_utf8_extend_ascii_block(bytes, 0, bytes.len() as int);
    assert(bytes.subrange(0, bytes.len() as int) =~= bytes);
}

/// The bytes as text, or else how many of them are valid UTF-8.
///
/// Calls `std::str::from_utf8`. Believed of it: it takes exactly the bytes that are valid UTF-8, and
/// the text has those bytes; otherwise `valid_up_to` of its error is the largest number of bytes
/// from the start that it would take.
#[verifier::external_body]
pub(crate) fn from_utf8(bytes: &[u8]) -> (res: Result<&str, usize>)
    ensures
        res is Ok <==> valid_utf8(bytes@),
        res matches Ok(text) ==> encode_utf8(text@) == bytes@,
        res matches Err(valid_up_to) ==> valid_up_to <= bytes@.len() && valid_utf8(
            bytes@.take(valid_up_to as int),
        ) && forall|len: int|
            valid_up_to < len <= bytes@.len() ==> !valid_utf8(#[trigger] bytes@.take(len)),
{
    std::str::from_utf8(bytes).map_err(|error| error.valid_up_to())
}

} // verus!
