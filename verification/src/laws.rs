//! What holds of decoding whatever the shape and the buffer: a value's end
//! is the buffer's end, a buffer cut short is out of data, and what the
//! format cannot express fails on every buffer.

use crate::de::decoded;
use crate::error::{Error, Invalid, Unsupported};
use crate::int_code::{decode_spec, decode_word_spec, zeros_at, Code, NumericEncoding};
use crate::read::{
    bit_at, bit_len, bytes_at, fits, lemma_aligned_byte, lemma_aligned_bytes, lemma_word_agrees,
};
use crate::shape::{Model, Shape};
use crate::utf8::{char_width, lemma_one_char, lemma_width_of_first};
use crate::wire::{
    bool_at, bounded_len_at, char_at, char_bytes_at, entries_at, enum_at, fields_at, items_at,
    len_and_bytes_at, len_at, map_at, mapping, max_len, option_at, scalar_at, seq_at, string_at,
    then_value, u8_at, value_at, variant_index_at, Owed,
};
use vstd::prelude::*;
use vstd::utf8::{
    decode_utf8, encode_scalar, encode_utf8, encode_utf8_decode_utf8, encode_utf8_first_scalar,
    encode_utf8_valid_utf8, valid_utf8,
};

verus! {

/// Whether `long` starts with the bytes of `short`.
pub open spec fn is_prefix(short: Seq<u8>, long: Seq<u8>) -> bool {
    &&& short.len() <= long.len()
    &&& forall|i: int| 0 <= i < short.len() ==> short[i] == long[i]
}

/// How a read of a buffer relates to the same read of a prefix of it that
/// ends at bit `limit`. A read only moves forward. A read that starts
/// within the prefix and succeeds on it succeeds in the same way on the
/// whole buffer. A read that starts within the prefix and succeeds on the
/// whole buffer either ends within the prefix, and is then the same on it, or
/// is out of data on the prefix.
pub open spec fn cut<T>(long: Owed<T>, short: Owed<T>, pos: int, limit: int) -> bool {
    &&& long matches Ok((_, end)) ==> pos <= end
    &&& pos <= limit ==> (short matches Ok((_, end)) ==> end <= limit && long == short)
    &&& pos <= limit ==> (long matches Ok((_, end)) ==> short == if end <= limit {
        long
    } else {
        Err(Error::Eof)
    })
}

proof fn lemma_bit_agrees(long: Seq<u8>, short: Seq<u8>, pos: int)
    requires
        is_prefix(short, long),
        0 <= pos,
        fits(short, pos, 1),
    ensures
        bit_at(short, pos) == bit_at(long, pos),
{
    assert(0 <= pos / 8 < short.len());
}

proof fn lemma_bytes_agree(long: Seq<u8>, short: Seq<u8>, pos: int, len: nat)
    requires
        is_prefix(short, long),
        0 <= pos,
        fits(short, pos, 8 * (len as int)),
    ensures
        bytes_at(short, pos, len) == bytes_at(long, pos, len),
{
    assert forall|j: int| 0 <= j < len implies #[trigger] bytes_at(short, pos, len)[j]
        == bytes_at(long, pos, len)[j] by {
        lemma_word_agrees(short, long, short.len() as int, pos + 8 * j, 8);
    }
    assert(bytes_at(short, pos, len) =~= bytes_at(long, pos, len));
}

proof fn lemma_bool_cut(long: Seq<u8>, short: Seq<u8>, pos: int)
    requires
        is_prefix(short, long),
        0 <= pos,
    ensures
        cut(bool_at(long, pos), bool_at(short, pos), pos, bit_len(short)),
{
    if fits(short, pos, 1) {
        lemma_bit_agrees(long, short, pos);
    }
}

/// Zero bits are counted alike in a buffer and in a prefix of it, unless the
/// prefix ends among them.
proof fn lemma_zeros_cut(long: Seq<u8>, short: Seq<u8>, pos: int, max: nat)
    requires
        is_prefix(short, long),
        0 <= pos,
    ensures
        zeros_at(short, pos, max) <= zeros_at(long, pos, max) <= max,
        zeros_at(short, pos, max) < max && fits(short, pos + zeros_at(short, pos, max), 1)
            ==> zeros_at(long, pos, max) == zeros_at(short, pos, max),
    decreases max,
{
    if max > 0 && fits(short, pos, 1) {
        lemma_bit_agrees(long, short, pos);
        if !bit_at(short, pos) {
            lemma_zeros_cut(long, short, pos + 1, (max - 1) as nat);
        }
    } else if max > 0 && fits(long, pos, 1) && !bit_at(long, pos) {
        lemma_zeros_cut(long, long, pos + 1, (max - 1) as nat);
    }
}

proof fn lemma_decode_cut(code: Code, long: Seq<u8>, short: Seq<u8>, pos: int, width: nat)
    requires
        is_prefix(short, long),
        0 <= pos,
    ensures
        cut(
            decode_spec(code, long, pos, width),
            decode_spec(code, short, pos, width),
            pos,
            bit_len(short),
        ),
{
    match code {
        Code::Fixed => {
            if fits(short, pos, width as int) {
                lemma_word_agrees(short, long, short.len() as int, pos, width);
            }
        },
        Code::Gamma => {
            lemma_zeros_cut(long, short, pos, width + 1);
            let zeros = zeros_at(short, pos, width + 1);
            if zeros <= width && fits(short, pos + zeros, 1 + (zeros as int)) {
                lemma_word_agrees(short, long, short.len() as int, pos + zeros + 1, zeros);
            }
        },
    }
}

proof fn lemma_word_cut(code: Code, long: Seq<u8>, short: Seq<u8>, pos: int)
    requires
        is_prefix(short, long),
        0 <= pos,
    ensures
        cut(
            decode_word_spec(code, long, pos),
            decode_word_spec(code, short, pos),
            pos,
            bit_len(short),
        ),
{
    lemma_decode_cut(code, long, short, pos, crate::int_code::WORD_BITS as nat);
}

proof fn lemma_variant_index_cut(enc: NumericEncoding, long: Seq<u8>, short: Seq<u8>, pos: int)
    requires
        is_prefix(short, long),
        0 <= pos,
    ensures
        cut(
            variant_index_at(enc, long, pos),
            variant_index_at(enc, short, pos),
            pos,
            bit_len(short),
        ),
{
    lemma_word_cut(enc.code, long, short, pos);
}

proof fn lemma_len_and_bytes_cut(enc: NumericEncoding, long: Seq<u8>, short: Seq<u8>, pos: int)
    requires
        is_prefix(short, long),
        0 <= pos,
    ensures
        cut(
            len_and_bytes_at(enc, long, pos),
            len_and_bytes_at(enc, short, pos),
            pos,
            bit_len(short),
        ),
{
    lemma_word_cut(enc.code, long, short, pos);
    if let Ok((len, start)) = len_at(enc, short, pos) {
        if fits(short, start, 8 * len) {
            lemma_bytes_agree(long, short, start, len as nat);
        }
    }
}

proof fn lemma_string_cut(enc: NumericEncoding, long: Seq<u8>, short: Seq<u8>, pos: int)
    requires
        is_prefix(short, long),
        0 <= pos,
    ensures
        cut(string_at(enc, long, pos), string_at(enc, short, pos), pos, bit_len(short)),
{
    lemma_len_and_bytes_cut(enc, long, short, pos);
}

proof fn lemma_char_cut(enc: NumericEncoding, long: Seq<u8>, short: Seq<u8>, pos: int)
    requires
        is_prefix(short, long),
        0 <= pos,
    ensures
        cut(char_at(enc, long, pos), char_at(enc, short, pos), pos, bit_len(short)),
{
    lemma_decode_cut(enc.code, long, short, pos, 8);
    if let Ok((lead, start)) = crate::wire::u8_at(enc, short, pos) {
        let more: int = if crate::utf8::char_width(lead) > 1 {
            crate::utf8::char_width(lead) - 1
        } else {
            0
        };
        if fits(short, start, 8 * more) {
            lemma_bytes_agree(long, short, start, more as nat);
        }
    }
}

proof fn lemma_scalar_cut(
    enc: NumericEncoding,
    long: Seq<u8>,
    short: Seq<u8>,
    pos: int,
    shape: Shape,
)
    requires
        is_prefix(short, long),
        0 <= pos,
    ensures
        cut(
            scalar_at(enc, long, pos, shape),
            scalar_at(enc, short, pos, shape),
            pos,
            bit_len(short),
        ),
{
    match shape {
        Shape::Bool => {
            lemma_bool_cut(long, short, pos);
        },
        Shape::I8 | Shape::U8 => {
            lemma_decode_cut(enc.code, long, short, pos, 8);
        },
        Shape::I16 | Shape::U16 => {
            lemma_decode_cut(enc.code, long, short, pos, 16);
        },
        Shape::U32 => {
            lemma_decode_cut(enc.code, long, short, pos, 32);
        },
        Shape::I32 => {
            lemma_decode_cut(enc.code, long, short, pos, 32);
            lemma_decode_cut(Code::Fixed, long, short, pos, 32);
        },
        Shape::U64 => {
            lemma_decode_cut(enc.code, long, short, pos, 64);
            lemma_decode_cut(Code::Fixed, long, short, pos, 64);
        },
        Shape::F32 => {
            lemma_decode_cut(Code::Fixed, long, short, pos, 32);
        },
        Shape::I64 | Shape::F64 => {
            lemma_decode_cut(Code::Fixed, long, short, pos, 64);
        },
        Shape::Char => {
            lemma_char_cut(enc, long, short, pos);
        },
        Shape::Str => {
            lemma_string_cut(enc, long, short, pos);
        },
        Shape::Bytes => {
            lemma_len_and_bytes_cut(enc, long, short, pos);
        },
        _ => {},
    }
}

/// Decoding a buffer and decoding a prefix of it agree as [`cut`] says: as
/// long as a value ends within the prefix it is the same value, and a value
/// that reaches past the prefix is out of data there.
pub proof fn lemma_value_cut(
    enc: NumericEncoding,
    long: Seq<u8>,
    short: Seq<u8>,
    pos: int,
    shape: Shape,
)
    requires
        is_prefix(short, long),
        0 <= pos,
    ensures
        cut(
            value_at(enc, long, pos, shape),
            value_at(enc, short, pos, shape),
            pos,
            bit_len(short),
        ),
    decreases shape, 2nat, 0nat,
{
    match shape {
        Shape::Option(inner) => {
            lemma_option_cut(enc, long, short, pos, *inner);
        },
        Shape::Newtype(inner) => {
            lemma_value_cut(enc, long, short, pos, *inner);
        },
        Shape::Sequence(item) => {
            lemma_seq_cut(enc, long, short, pos, *item);
        },
        Shape::Tuple(fields) => {
            lemma_fields_cut(enc, long, short, pos, fields@, 0);
        },
        Shape::Mapping(key, value) => {
            lemma_map_cut(enc, long, short, pos, *key, *value);
        },
        Shape::Enum(cases) => {
            lemma_enum_cut(enc, long, short, pos, cases@);
        },
        _ => {
            lemma_scalar_cut(enc, long, short, pos, shape);
        },
    }
}

proof fn lemma_option_cut(
    enc: NumericEncoding,
    long: Seq<u8>,
    short: Seq<u8>,
    pos: int,
    inner: Shape,
)
    requires
        is_prefix(short, long),
        0 <= pos,
    ensures
        cut(
            option_at(enc, long, pos, inner),
            option_at(enc, short, pos, inner),
            pos,
            bit_len(short),
        ),
    decreases inner, 3nat, 0nat,
{
    lemma_bool_cut(long, short, pos);
    if let Ok((present, start)) = bool_at(long, pos) {
        if present {
            lemma_value_cut(enc, long, short, start, inner);
        }
    }
}

proof fn lemma_items_cut(
    enc: NumericEncoding,
    long: Seq<u8>,
    short: Seq<u8>,
    pos: int,
    item: Shape,
    count: nat,
)
    requires
        is_prefix(short, long),
        0 <= pos,
    ensures
        cut(
            items_at(enc, long, pos, item, count),
            items_at(enc, short, pos, item, count),
            pos,
            bit_len(short),
        ),
    decreases item, 3nat, count,
{
    if count > 0 {
        lemma_value_cut(enc, long, short, pos, item);
        if let Ok((_, next)) = value_at(enc, long, pos, item) {
            lemma_items_cut(enc, long, short, next, item, (count - 1) as nat);
        }
    }
}

proof fn lemma_seq_cut(
    enc: NumericEncoding,
    long: Seq<u8>,
    short: Seq<u8>,
    pos: int,
    item: Shape,
)
    requires
        is_prefix(short, long),
        0 <= pos,
    ensures
        cut(seq_at(enc, long, pos, item), seq_at(enc, short, pos, item), pos, bit_len(short)),
    decreases item, 4nat, 0nat,
{
    lemma_word_cut(enc.code, long, short, pos);
    if let Ok((len, start)) = len_at(enc, long, pos) {
        lemma_items_cut(enc, long, short, start, item, len as nat);
    }
}

proof fn lemma_fields_cut(
    enc: NumericEncoding,
    long: Seq<u8>,
    short: Seq<u8>,
    pos: int,
    fields: Seq<Shape>,
    from: nat,
)
    requires
        is_prefix(short, long),
        0 <= pos,
    ensures
        cut(
            fields_at(enc, long, pos, fields, from),
            fields_at(enc, short, pos, fields, from),
            pos,
            bit_len(short),
        ),
    decreases fields, 0nat, fields.len() - from,
{
    if from < fields.len() {
        lemma_value_cut(enc, long, short, pos, fields[from as int]);
        if let Ok((_, next)) = value_at(enc, long, pos, fields[from as int]) {
            lemma_fields_cut(enc, long, short, next, fields, from + 1);
        }
    }
}

proof fn lemma_entries_cut(
    enc: NumericEncoding,
    long: Seq<u8>,
    short: Seq<u8>,
    pos: int,
    key: Shape,
    value: Shape,
    count: nat,
)
    requires
        is_prefix(short, long),
        0 <= pos,
    ensures
        cut(
            entries_at(enc, long, pos, key, value, count),
            entries_at(enc, short, pos, key, value, count),
            pos,
            bit_len(short),
        ),
    decreases mapping(key, value), 0nat, count,
{
    if count > 0 {
        let whole = mapping(key, value);
        assert(decreases_to!(whole => *whole->Mapping_0));
        assert(decreases_to!(whole => *whole->Mapping_1));
        lemma_value_cut(enc, long, short, pos, key);
        if let Ok((_, mid)) = value_at(enc, long, pos, key) {
            lemma_value_cut(enc, long, short, mid, value);
            if let Ok((_, next)) = value_at(enc, long, mid, value) {
                lemma_entries_cut(enc, long, short, next, key, value, (count - 1) as nat);
            }
        }
    }
}

proof fn lemma_map_cut(
    enc: NumericEncoding,
    long: Seq<u8>,
    short: Seq<u8>,
    pos: int,
    key: Shape,
    value: Shape,
)
    requires
        is_prefix(short, long),
        0 <= pos,
    ensures
        cut(
            map_at(enc, long, pos, key, value),
            map_at(enc, short, pos, key, value),
            pos,
            bit_len(short),
        ),
    decreases mapping(key, value), 1nat, 0nat,
{
    lemma_word_cut(enc.code, long, short, pos);
    if let Ok((len, start)) = len_at(enc, long, pos) {
        lemma_entries_cut(enc, long, short, start, key, value, len as nat);
    }
}

proof fn lemma_enum_cut(
    enc: NumericEncoding,
    long: Seq<u8>,
    short: Seq<u8>,
    pos: int,
    cases: Seq<Shape>,
)
    requires
        is_prefix(short, long),
        0 <= pos,
    ensures
        cut(
            enum_at(enc, long, pos, cases),
            enum_at(enc, short, pos, cases),
            pos,
            bit_len(short),
        ),
    decreases cases, 0nat, 0nat,
{
    lemma_variant_index_cut(enc, long, short, pos);
    if let Ok((index, start)) = variant_index_at(enc, long, pos) {
        if index < cases.len() {
            lemma_value_cut(enc, long, short, start, cases[index as int]);
        }
    }
}

/// A value that starts within the buffer ends within it, and not before it
/// starts.
pub proof fn lemma_value_within(enc: NumericEncoding, data: Seq<u8>, pos: int, shape: Shape)
    requires
        0 <= pos <= bit_len(data),
    ensures
        value_at(enc, data, pos, shape) matches Ok((_, end)) ==> pos <= end <= bit_len(data),
{
    lemma_value_cut(enc, data, data, pos, shape);
}

/// Exact consumption. A decode call returns a value only if the value ends
/// in the last byte of the buffer: no whole byte is left unread, and the bits
/// of the last byte that the value does not reach are padding.
pub proof fn lemma_exact_consumption(enc: NumericEncoding, data: Seq<u8>, shape: Shape)
    requires
        decoded(enc, data, shape) is Ok,
    ensures
        value_at(enc, data, 0, shape) matches Ok((v, end)) && decoded(enc, data, shape) == Ok::<
            Model,
            Error,
        >(v) && bit_len(data) - 8 < end <= bit_len(data),
{
    lemma_value_within(enc, data, 0, shape);
}

/// Trailing data. If a buffer decodes to a value, the same buffer with any
/// bytes added at its end still holds that value at its start, but a decode
/// call on it fails with the trailing-data error.
pub proof fn lemma_trailing_data(
    enc: NumericEncoding,
    data: Seq<u8>,
    more: Seq<u8>,
    shape: Shape,
)
    requires
        decoded(enc, data, shape) is Ok,
        more.len() > 0,
    ensures
        value_at(enc, data + more, 0, shape) == value_at(enc, data, 0, shape),
        decoded(enc, data + more, shape) == Err::<Model, Error>(Error::ExpectedEof),
{
    assert(is_prefix(data, data + more));
    lemma_value_cut(enc, data + more, data, 0, shape);
}

/// Truncation is always out of data. If a buffer decodes to a value, a decode
/// call on the same buffer without its last byte, or without any number of
/// its last bytes, fails with the out-of-data error and with no other,
/// whichever part of the value the cut falls in.
pub proof fn lemma_truncation(enc: NumericEncoding, data: Seq<u8>, keep: int, shape: Shape)
    requires
        decoded(enc, data, shape) is Ok,
        0 <= keep < data.len(),
    ensures
        decoded(enc, data.take(keep), shape) == Err::<Model, Error>(Error::Eof),
{
    assert(is_prefix(data.take(keep), data));
    lemma_exact_consumption(enc, data, shape);
    lemma_value_cut(enc, data, data.take(keep), 0, shape);
}

/// What the format cannot express fails in the same way on every buffer,
/// empty or not, under every policy.
pub proof fn lemma_unsupported(enc: NumericEncoding, data: Seq<u8>)
    ensures
        decoded(enc, data, Shape::Any) == Err::<Model, Error>(
            Error::NotSupported(Unsupported::Any),
        ),
        decoded(enc, data, Shape::Identifier) == Err::<Model, Error>(
            Error::NotSupported(Unsupported::Identifier),
        ),
        decoded(enc, data, Shape::IgnoredAny) == Err::<Model, Error>(
            Error::NotSupported(Unsupported::IgnoredAny),
        ),
{
}

/// Length ceiling rejection. Wherever a length gates what follows it, in a
/// string, a byte run, a sequence or a map, a length word above the ceiling
/// makes the value an invalid length, whatever stands after the word and
/// whatever the items are.
pub proof fn lemma_length_ceiling(enc: NumericEncoding, data: Seq<u8>, pos: int, shape: Shape)
    requires
        shape is Str || shape is Bytes || shape is Sequence || shape is Mapping,
        len_at(enc, data, pos) matches Ok((len, _)) && len > max_len(),
    ensures
        value_at(enc, data, pos, shape) == Err::<(Model, int), Error>(
            Error::Invalid(Invalid::Length),
        ),
{
    let refused = Error::Invalid(Invalid::Length);
    assert(bounded_len_at(enc, data, pos) == Err::<(usize, int), Error>(refused));
    match shape {
        Shape::Sequence(item) => {
            assert(seq_at(enc, data, pos, *item) == Err::<(Seq<Model>, int), Error>(refused));
        },
        Shape::Mapping(key, value) => {
            assert(map_at(enc, data, pos, *key, *value) == Err::<(Seq<Model>, int), Error>(
                refused,
            ));
        },
        _ => {
            assert(len_and_bytes_at(enc, data, pos) == Err::<(Seq<u8>, int), Error>(refused));
            assert(string_at(enc, data, pos) == Err::<(Seq<char>, int), Error>(refused));
            assert(scalar_at(enc, data, pos, shape) == Err::<(Model, int), Error>(refused));
        },
    }
}

/// Enum index mapping. Index 0 selects the first declared case, and in
/// general an index below the number of cases selects the case declared at
/// that place; every other length word, also one whose low 32 bits would
/// name a case, is an invalid variant index.
pub proof fn lemma_variant_selection(
    enc: NumericEncoding,
    data: Seq<u8>,
    pos: int,
    cases: Seq<Shape>,
)
    requires
        len_at(enc, data, pos) is Ok,
    ensures
        len_at(enc, data, pos) matches Ok((word, start)) && enum_at(enc, data, pos, cases) == (
        if word <= u32::MAX && word < cases.len() {
            then_value(
                value_at(enc, data, start, cases[word as int]),
                |v: Model| (word as u32, v),
            )
        } else {
            Err(Error::Invalid(Invalid::VariantIndex))
        }),
{
}

/// A decoded character is whole. Its bytes are as many as the lead byte
/// announces, between one and four; they encode that character and nothing
/// else; and after the lead byte exactly the announced bytes are read, so
/// none after a lead byte that stands alone and three after one that
/// announces four.
pub proof fn lemma_char_whole(enc: NumericEncoding, data: Seq<u8>, pos: int)
    requires
        char_at(enc, data, pos) is Ok,
    ensures
        char_at(enc, data, pos) matches Ok((c, end)) && char_bytes_at(enc, data, pos) matches Ok(
            (bytes, bytes_end),
        ) && u8_at(enc, data, pos) matches Ok((lead, start)) && {
            &&& bytes_end == end
            &&& bytes[0] == lead
            &&& 1 <= char_width(lead) <= 4
            &&& bytes.len() == char_width(lead)
            &&& decode_utf8(bytes) == seq![c]
            &&& end == start + 8 * (char_width(lead) - 1)
        },
{
    let bytes = char_bytes_at(enc, data, pos)->Ok_0.0;
    lemma_one_char(bytes);
    assert(decode_utf8(bytes) =~= seq![decode_utf8(bytes)[0]]);
}

proof fn lemma_encoded_char(c: char)
    ensures
        valid_utf8(encode_utf8(seq![c])),
        decode_utf8(encode_utf8(seq![c])) == seq![c],
        1 <= encode_utf8(seq![c]).len() <= 4,
        encode_utf8(seq![c]).len() == char_width(encode_utf8(seq![c])[0]),
{
    let data = encode_utf8(seq![c]);
    encode_utf8_first_scalar(seq![c]);
    encode_utf8_valid_utf8(seq![c]);
    encode_utf8_decode_utf8(seq![c]);
    assert(seq![c].drop_first() =~= Seq::<char>::empty());
    assert(encode_utf8(Seq::<char>::empty()) =~= Seq::<u8>::empty());
    assert(data =~= encode_scalar(c as u32));
    lemma_width_of_first(data);
}

proof fn lemma_char_bytes_of_whole_buffer(wide: bool, data: Seq<u8>)
    requires
        1 <= data.len() <= 4,
        data.len() == char_width(data[0]),
    ensures
        char_bytes_at(NumericEncoding { code: Code::Fixed, wide }, data, 0) == Ok::<
            (Seq<u8>, int),
            Error,
        >((data, bit_len(data))),
{
    let enc = NumericEncoding { code: Code::Fixed, wide };
    let width: int = data.len() as int;
    lemma_aligned_byte(data, 0);
    lemma_aligned_bytes(data, 1, (width - 1) as nat);
    assert(fits(data, 0, 8));
    assert(u8_at(enc, data, 0) == Ok::<(u8, int), Error>((data[0], 8)));
    assert(fits(data, 8, 8 * (width - 1)));
    assert(seq![data[0]] + data.subrange(1, width) =~= data);
}

/// A character comes back from its own encoding. Under the fixed code, the
/// UTF-8 bytes of any character decode to that character, and the value ends
/// where the buffer ends.
pub proof fn lemma_char_round_trip(c: char, wide: bool)
    ensures
        decoded(
            NumericEncoding { code: Code::Fixed, wide },
            encode_utf8(seq![c]),
            Shape::Char,
        ) == Ok::<Model, Error>(Model::Char(c)),
{
    let data = encode_utf8(seq![c]);
    lemma_encoded_char(c);
    lemma_char_bytes_of_whole_buffer(wide, data);
}

} // verus!
