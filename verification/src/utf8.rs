//! The parts of UTF-8 that decoding text needs: the width that a lead byte
//! announces, and the check that bytes are well-formed.

use vstd::prelude::*;
use vstd::utf8::{
    decode_first_scalar, decode_utf8, length_of_first_scalar, pop_first_scalar, valid_first_scalar,
    valid_utf8,
};

verus! {

/// The number of bytes of the encoded character that `lead` starts, or 0
/// where no well-formed character starts with `lead`.
pub open spec fn char_width(lead: u8) -> nat {
    if lead < 0x80 {
        1
    } else if lead < 0xC2 {
        0
    } else if lead < 0xE0 {
        2
    } else if lead < 0xF0 {
        3
    } else if lead < 0xF5 {
        4
    } else {
        0
    }
}

/// The width that a lead byte announces; see [`char_width`].
pub fn utf8_char_width(lead: u8) -> (w: usize)
    ensures
        w == char_width(lead),
        w <= 4,
{
    if lead < 0x80 {
        1
    } else if lead < 0xC2 {
        0
    } else if lead < 0xE0 {
        2
    } else if lead < 0xF0 {
        3
    } else if lead < 0xF5 {
        4
    } else {
        0
    }
}

/// Calls `String::from_utf8`. The contract claims what its documentation
/// says: the conversion succeeds exactly on well-formed UTF-8, and the
/// string then holds the characters that the bytes encode.
#[verifier::external_body]
pub(crate) fn string_from_utf8(bytes: Vec<u8>) -> (r: Option<String>)
    ensures
        r.is_some() == valid_utf8(bytes@),
        r.is_some() ==> r.unwrap()@ == decode_utf8(bytes@),
{
    String::from_utf8(bytes).ok()
}

/// The width that the lead byte of a well-formed character announces is the
/// number of bytes of that character: the lead bytes of overlong forms and of
/// numbers past the last character announce none.
pub proof fn lemma_width_of_first(bytes: Seq<u8>)
    requires
        valid_first_scalar(bytes),
    ensures
        char_width(bytes[0]) == length_of_first_scalar(bytes),
{
    let b0 = bytes[0];
    if 0xc0 <= b0 <= 0xdf {
        let b1 = bytes[1];
        assert((b0 == 0xc0 || b0 == 0xc1) ==> ((((b0 & 0x1F) as u32) << 6) | ((b1 & 0x3f) as u32))
            < 0x80) by (bit_vector);
    } else if 0xf0 <= b0 <= 0xf7 {
        let b1 = bytes[1];
        let b2 = bytes[2];
        let b3 = bytes[3];
        assert(0xf5 <= b0 <= 0xf7 ==> ((((b0 & 0x07) as u32) << 18) | (((b1 & 0x3f) as u32) << 12)
            | (((b2 & 0x3f) as u32) << 6) | ((b3 & 0x3f) as u32)) > 0x10ffff) by (bit_vector);
    }
}

/// Well-formed bytes that are as many as their lead byte announces encode
/// exactly one character.
pub proof fn lemma_one_char(bytes: Seq<u8>)
    requires
        bytes.len() >= 1,
        bytes.len() == char_width(bytes[0]),
        valid_utf8(bytes),
    ensures
        decode_utf8(bytes).len() == 1,
        decode_utf8(bytes)[0] == decode_first_scalar(bytes) as char,
{
    assert(valid_first_scalar(bytes));
    assert(length_of_first_scalar(bytes) == bytes.len());
    assert(pop_first_scalar(bytes) =~= Seq::<u8>::empty());
    reveal_with_fuel(decode_utf8, 2);
    reveal_with_fuel(valid_utf8, 2);
    assert(decode_utf8(Seq::<u8>::empty()) =~= Seq::<char>::empty());
    assert(decode_utf8(bytes) =~= seq![decode_first_scalar(bytes) as char]);
}

/// Well-formed bytes encode at least one character unless there are none.
pub proof fn lemma_some_char(bytes: Seq<u8>)
    requires
        bytes.len() >= 1,
        valid_utf8(bytes),
    ensures
        decode_utf8(bytes).len() >= 1,
        decode_utf8(bytes)[0] == decode_first_scalar(bytes) as char,
{
}

} // verus!
