//! The wire layout: what stands in the stream for each kind of value.
//!
//! Every function here is a specification. It takes the buffer, the bit
//! position at which a value starts and, where numbers go through it, the
//! numeric encoding policy, and gives the value with the position after it,
//! or the error that decoding fails with.

use crate::error::{Error, Invalid, Unsupported};
use crate::int_code::{decode_spec, decode_word_spec, folds_sign, Code, NumericEncoding};
use crate::read::{bit_at, bytes_at, fits};
use crate::shape::{models, Model, Shape, Value};
use crate::utf8::char_width;
use vstd::arithmetic::power2::pow2;
use vstd::prelude::*;
use vstd::utf8::{decode_utf8, valid_utf8};

verus! {

/// The outcome that a read owes: a value and the position after it, or an
/// error.
pub type Owed<T> = Result<(T, int), Error>;

/// The same outcome with the value passed through `f`.
pub open spec fn then_value<A, B>(r: Owed<A>, f: spec_fn(A) -> B) -> Owed<B> {
    match r {
        Ok((v, end)) => Ok((f(v), end)),
        Err(e) => Err(e),
    }
}

/// An executable result with its value replaced by the value's view.
pub open spec fn viewed<T: View>(r: Result<T, Error>) -> Result<T::V, Error> {
    match r {
        Ok(v) => Ok(v@),
        Err(e) => Err(e),
    }
}

/// An executable result with its values replaced by their models.
pub open spec fn modeled(r: Result<Vec<Value>, Error>) -> Result<Seq<Model>, Error> {
    match r {
        Ok(v) => Ok(models(v@)),
        Err(e) => Err(e),
    }
}

/// An executable result with an optional value replaced by its model.
pub open spec fn option_modeled(r: Result<Option<Value>, Error>) -> Result<Option<Model>, Error> {
    match r {
        Ok(Some(v)) => Ok(Some(v@)),
        Ok(None) => Ok(None),
        Err(e) => Err(e),
    }
}

/// An executable result with a case's payload replaced by its model.
pub open spec fn variant_modeled(r: Result<(u32, Value), Error>) -> Result<(u32, Model), Error> {
    match r {
        Ok((index, v)) => Ok((index, v@)),
        Err(e) => Err(e),
    }
}

/// The outcome of reading `head` and then what `rest` owes.
pub open spec fn prepend(head: Seq<Model>, rest: Owed<Seq<Model>>) -> Owed<Seq<Model>> {
    match rest {
        Ok((tail, end)) => Ok((head + tail, end)),
        Err(e) => Err(e),
    }
}

/// The largest length that a string or a byte run may announce.
pub open spec fn max_len() -> int {
    (isize::MAX as int) / 255
}

/// The two's complement reading of a `width`-bit number.
pub open spec fn signed(v: u64, width: nat) -> int {
    if v >= pow2((width - 1) as nat) {
        v - pow2(width)
    } else {
        v as int
    }
}

/// The signed number that a folded number stands for: 0, 1, 2, 3, ... stand
/// for 0, -1, 1, -2, ...
pub open spec fn unfolded(v: u64) -> int {
    if v % 2 == 0 {
        (v / 2) as int
    } else {
        -(v / 2) - 1
    }
}

/// The signed reading of a `width`-bit number that went through the policy.
pub open spec fn coded_signed(enc: NumericEncoding, v: u64, width: nat) -> int {
    if folds_sign(enc.code) {
        unfolded(v)
    } else {
        signed(v, width)
    }
}

/// A boolean is one raw bit.
pub open spec fn bool_at(data: Seq<u8>, pos: int) -> Owed<bool> {
    if fits(data, pos, 1) {
        Ok((bit_at(data, pos), pos + 1))
    } else {
        Err(Error::Eof)
    }
}

/// A number in exactly `width` raw bits, whatever the policy.
pub open spec fn raw_at(data: Seq<u8>, pos: int, width: nat) -> Owed<u64> {
    decode_spec(Code::Fixed, data, pos, width)
}

/// A number of logical width `width` as the policy lays it out.
pub open spec fn coded_at(enc: NumericEncoding, data: Seq<u8>, pos: int, width: nat) -> Owed<
    u64,
> {
    decode_spec(enc.code, data, pos, width)
}

/// A number of a kind that goes through the policy only where the stream was
/// written for a wide native word, and is raw bits otherwise.
pub open spec fn native_at(enc: NumericEncoding, data: Seq<u8>, pos: int, width: nat) -> Owed<
    u64,
> {
    if enc.wide {
        coded_at(enc, data, pos, width)
    } else {
        raw_at(data, pos, width)
    }
}

/// An unsigned integer of 8 bits; it goes through the policy.
pub open spec fn u8_at(enc: NumericEncoding, data: Seq<u8>, pos: int) -> Owed<u8> {
    then_value(coded_at(enc, data, pos, 8), |v: u64| v as u8)
}

/// An unsigned integer of 16 bits; it goes through the policy.
pub open spec fn u16_at(enc: NumericEncoding, data: Seq<u8>, pos: int) -> Owed<u16> {
    then_value(coded_at(enc, data, pos, 16), |v: u64| v as u16)
}

/// An unsigned integer of 32 bits; it goes through the policy.
pub open spec fn u32_at(enc: NumericEncoding, data: Seq<u8>, pos: int) -> Owed<u32> {
    then_value(coded_at(enc, data, pos, 32), |v: u64| v as u32)
}

/// An unsigned integer of 64 bits: through the policy in a stream written
/// for a wide native word, raw bits otherwise.
pub open spec fn u64_at(enc: NumericEncoding, data: Seq<u8>, pos: int) -> Owed<u64> {
    native_at(enc, data, pos, 64)
}

/// A signed integer of 8 bits; it goes through the policy.
pub open spec fn i8_at(enc: NumericEncoding, data: Seq<u8>, pos: int) -> Owed<i8> {
    then_value(coded_at(enc, data, pos, 8), |v: u64| coded_signed(enc, v, 8) as i8)
}

/// A signed integer of 16 bits; it goes through the policy.
pub open spec fn i16_at(enc: NumericEncoding, data: Seq<u8>, pos: int) -> Owed<i16> {
    then_value(coded_at(enc, data, pos, 16), |v: u64| coded_signed(enc, v, 16) as i16)
}

/// A signed integer of 32 bits: through the policy in a stream written for
/// a wide native word, raw bits in two's complement otherwise.
pub open spec fn i32_at(enc: NumericEncoding, data: Seq<u8>, pos: int) -> Owed<i32> {
    if enc.wide {
        then_value(coded_at(enc, data, pos, 32), |v: u64| coded_signed(enc, v, 32) as i32)
    } else {
        then_value(raw_at(data, pos, 32), |v: u64| signed(v, 32) as i32)
    }
}

/// A 64-bit signed integer is raw bits under every policy.
pub open spec fn i64_at(data: Seq<u8>, pos: int) -> Owed<i64> {
    then_value(raw_at(data, pos, 64), |v: u64| signed(v, 64) as i64)
}

/// The bit pattern of a 32-bit float: raw bits.
pub open spec fn f32_at(data: Seq<u8>, pos: int) -> Owed<u32> {
    then_value(raw_at(data, pos, 32), |v: u64| v as u32)
}

/// The bit pattern of a 64-bit float: raw bits.
pub open spec fn f64_at(data: Seq<u8>, pos: int) -> Owed<u64> {
    raw_at(data, pos, 64)
}

/// A length: one length word.
pub open spec fn len_at(enc: NumericEncoding, data: Seq<u8>, pos: int) -> Owed<usize> {
    decode_word_spec(enc.code, data, pos)
}

/// A length that gates how much is read after it, be it bytes, items or
/// entries: one length word, which must not be above [`max_len`]. A length
/// above it is refused before anything that it gates is read.
pub open spec fn bounded_len_at(enc: NumericEncoding, data: Seq<u8>, pos: int) -> Owed<usize> {
    match len_at(enc, data, pos) {
        Ok((len, start)) => if len > max_len() {
            Err(Error::Invalid(Invalid::Length))
        } else {
            Ok((len, start))
        },
        Err(e) => Err(e),
    }
}

/// A byte run: a length within the ceiling, then that many bytes.
pub open spec fn len_and_bytes_at(enc: NumericEncoding, data: Seq<u8>, pos: int) -> Owed<
    Seq<u8>,
> {
    match bounded_len_at(enc, data, pos) {
        Ok((len, start)) => if fits(data, start, 8 * len) {
            Ok((bytes_at(data, start, len as nat), start + 8 * len))
        } else {
            Err(Error::Eof)
        },
        Err(e) => Err(e),
    }
}

/// A string: a byte run that is well-formed UTF-8.
pub open spec fn string_at(enc: NumericEncoding, data: Seq<u8>, pos: int) -> Owed<Seq<char>> {
    match len_and_bytes_at(enc, data, pos) {
        Ok((bytes, end)) => if valid_utf8(bytes) {
            Ok((decode_utf8(bytes), end))
        } else {
            Err(Error::Invalid(Invalid::Utf8))
        },
        Err(e) => Err(e),
    }
}

/// A variant index: a length word that fits 32 bits. A word that does not,
/// or bits that are no length word, are an invalid variant index.
pub open spec fn variant_index_at(enc: NumericEncoding, data: Seq<u8>, pos: int) -> Owed<u32> {
    match len_at(enc, data, pos) {
        Ok((word, end)) => if word > u32::MAX {
            Err(Error::Invalid(Invalid::VariantIndex))
        } else {
            Ok((word as u32, end))
        },
        Err(Error::Invalid(_)) => Err(Error::Invalid(Invalid::VariantIndex)),
        Err(e) => Err(e),
    }
}

/// The bytes of an encoded character. There is no length field: the lead
/// byte, which goes through the policy as an 8-bit number, announces how
/// many raw bytes follow it. A lead byte that starts no character stands
/// alone.
pub open spec fn char_bytes_at(enc: NumericEncoding, data: Seq<u8>, pos: int) -> Owed<Seq<u8>> {
    match u8_at(enc, data, pos) {
        Ok((lead, start)) => {
            let more: int = if char_width(lead) > 1 {
                char_width(lead) - 1
            } else {
                0
            };
            if fits(data, start, 8 * more) {
                Ok((seq![lead] + bytes_at(data, start, more as nat), start + 8 * more))
            } else {
                Err(Error::Eof)
            }
        },
        Err(e) => Err(e),
    }
}

/// A character: its encoded bytes, which must be as many as the lead byte
/// announces and well-formed UTF-8, and so exactly one character.
pub open spec fn char_at(enc: NumericEncoding, data: Seq<u8>, pos: int) -> Owed<char> {
    match char_bytes_at(enc, data, pos) {
        Ok((bytes, end)) => if char_width(bytes[0]) >= 1 && valid_utf8(bytes) {
            Ok((decode_utf8(bytes)[0], end))
        } else {
            Err(Error::Invalid(Invalid::Char))
        },
        Err(e) => Err(e),
    }
}

/// Reading `head`, then `mid`, then what `rest` owes is reading `head` and
/// `mid` together, then what `rest` owes.
pub proof fn lemma_prepend_twice(head: Seq<Model>, mid: Seq<Model>, rest: Owed<Seq<Model>>)
    ensures
        prepend(head, prepend(mid, rest)) == prepend(head + mid, rest),
{
    if let Ok((tail, _)) = rest {
        assert(head + (mid + tail) =~= (head + mid) + tail);
    }
}

/// Reading `head` and then nothing more is reading `head`.
pub proof fn lemma_prepend_nothing(head: Seq<Model>, end: int)
    ensures
        prepend(head, Ok((Seq::empty(), end))) == Ok::<(Seq<Model>, int), Error>((head, end)),
{
    assert(head + Seq::<Model>::empty() =~= head);
}

/// Reading `head`, then a key and its value, then what `rest` owes.
pub proof fn lemma_entry_read(head: Seq<Model>, k: Model, v: Model, rest: Owed<Seq<Model>>)
    ensures
        prepend(head, prepend(seq![k, v], rest)) == prepend(head + seq![k] + seq![v], rest),
{
    lemma_prepend_twice(head, seq![k, v], rest);
    assert(head + seq![k] + seq![v] =~= head + seq![k, v]);
}

/// The models of values with one more value at their end.
pub proof fn lemma_models_push(values: Seq<Value>, v: Value)
    ensures
        models(values.push(v)) == models(values) + seq![v@],
{
    assert(models(values.push(v)) =~= models(values) + seq![v@]);
}

/// A mapping shape, as the measure by which decoding its entries ends.
pub open spec fn mapping(key: Shape, value: Shape) -> Shape {
    Shape::Mapping(Box::new(key), Box::new(value))
}

/// Whether a shape has no shape inside it.
pub open spec fn is_scalar(shape: Shape) -> bool {
    match shape {
        Shape::Option(_) | Shape::Newtype(_) | Shape::Sequence(_) | Shape::Tuple(_)
        | Shape::Mapping(_, _) | Shape::Enum(_) => false,
        _ => true,
    }
}

/// A value of a shape that has no shape inside it. The three shapes that the
/// format cannot express fail whatever the stream holds. (Of a shape with
/// shapes inside, which [`value_at`] never hands over, nothing is read.)
pub open spec fn scalar_at(enc: NumericEncoding, data: Seq<u8>, pos: int, shape: Shape) -> Owed<
    Model,
> {
    match shape {
        Shape::Unit => Ok((Model::Unit, pos)),
        Shape::Bool => then_value(bool_at(data, pos), |v: bool| Model::Bool(v)),
        Shape::I8 => then_value(i8_at(enc, data, pos), |v: i8| Model::I8(v)),
        Shape::I16 => then_value(i16_at(enc, data, pos), |v: i16| Model::I16(v)),
        Shape::I32 => then_value(i32_at(enc, data, pos), |v: i32| Model::I32(v)),
        Shape::I64 => then_value(i64_at(data, pos), |v: i64| Model::I64(v)),
        Shape::U8 => then_value(u8_at(enc, data, pos), |v: u8| Model::U8(v)),
        Shape::U16 => then_value(u16_at(enc, data, pos), |v: u16| Model::U16(v)),
        Shape::U32 => then_value(u32_at(enc, data, pos), |v: u32| Model::U32(v)),
        Shape::U64 => then_value(u64_at(enc, data, pos), |v: u64| Model::U64(v)),
        Shape::F32 => then_value(f32_at(data, pos), |v: u32| Model::F32(v)),
        Shape::F64 => then_value(f64_at(data, pos), |v: u64| Model::F64(v)),
        Shape::Char => then_value(char_at(enc, data, pos), |v: char| Model::Char(v)),
        Shape::Str => then_value(string_at(enc, data, pos), |v: Seq<char>| Model::Str(v)),
        Shape::Bytes => then_value(
            len_and_bytes_at(enc, data, pos),
            |v: Seq<u8>| Model::Bytes(v),
        ),
        Shape::Any => Err(Error::NotSupported(Unsupported::Any)),
        Shape::Identifier => Err(Error::NotSupported(Unsupported::Identifier)),
        Shape::IgnoredAny => Err(Error::NotSupported(Unsupported::IgnoredAny)),
        _ => Ok((Model::Unit, pos)),
    }
}

/// The model of an optional value.
pub open spec fn option_model(v: Option<Model>) -> Model {
    Model::Option(
        match v {
            Some(m) => Some(Box::new(m)),
            None => None,
        },
    )
}

/// A value of the given shape. The shape alone decides what is read: no bit
/// of the stream says what kind of value follows.
pub open spec fn value_at(enc: NumericEncoding, data: Seq<u8>, pos: int, shape: Shape) -> Owed<
    Model,
>
    decreases shape, 2nat, 0nat,
{
    match shape {
        Shape::Option(inner) => then_value(
            option_at(enc, data, pos, *inner),
            |v: Option<Model>| option_model(v),
        ),
        Shape::Newtype(inner) => value_at(enc, data, pos, *inner),
        Shape::Sequence(item) => then_value(
            seq_at(enc, data, pos, *item),
            |v: Seq<Model>| Model::Sequence(v),
        ),
        Shape::Tuple(fields) => then_value(
            fields_at(enc, data, pos, fields@, 0),
            |v: Seq<Model>| Model::Tuple(v),
        ),
        Shape::Mapping(key, value) => then_value(
            map_at(enc, data, pos, *key, *value),
            |v: Seq<Model>| Model::Mapping(v),
        ),
        Shape::Enum(cases) => then_value(
            enum_at(enc, data, pos, cases@),
            |v: (u32, Model)| Model::Variant(v.0, Box::new(v.1)),
        ),
        _ => scalar_at(enc, data, pos, shape),
    }
}

/// An option: one presence bit and, only if it is set, the inner value.
pub open spec fn option_at(enc: NumericEncoding, data: Seq<u8>, pos: int, inner: Shape) -> Owed<
    Option<Model>,
>
    decreases inner, 3nat, 0nat,
{
    match bool_at(data, pos) {
        Ok((present, start)) => if present {
            then_value(value_at(enc, data, start, inner), |v: Model| Some(v))
        } else {
            Ok((None, start))
        },
        Err(e) => Err(e),
    }
}

/// `count` values of one shape, one after the other, with nothing between.
pub open spec fn items_at(
    enc: NumericEncoding,
    data: Seq<u8>,
    pos: int,
    item: Shape,
    count: nat,
) -> Owed<Seq<Model>>
    decreases item, 3nat, count,
{
    if count == 0 {
        Ok((Seq::empty(), pos))
    } else {
        match value_at(enc, data, pos, item) {
            Ok((first, next)) => prepend(
                seq![first],
                items_at(enc, data, next, item, (count - 1) as nat),
            ),
            Err(e) => Err(e),
        }
    }
}

/// A sequence: a length within the ceiling, then that many items.
pub open spec fn seq_at(enc: NumericEncoding, data: Seq<u8>, pos: int, item: Shape) -> Owed<
    Seq<Model>,
>
    decreases item, 4nat, 0nat,
{
    match bounded_len_at(enc, data, pos) {
        Ok((len, start)) => items_at(enc, data, start, item, len as nat),
        Err(e) => Err(e),
    }
}

/// The values of the shapes `fields[from..]` in declared order, with no
/// length before them and no names.
pub open spec fn fields_at(
    enc: NumericEncoding,
    data: Seq<u8>,
    pos: int,
    fields: Seq<Shape>,
    from: nat,
) -> Owed<Seq<Model>>
    decreases fields, 0nat, fields.len() - from,
{
    if from >= fields.len() {
        Ok((Seq::empty(), pos))
    } else {
        match value_at(enc, data, pos, fields[from as int]) {
            Ok((first, next)) => prepend(
                seq![first],
                fields_at(enc, data, next, fields, from + 1),
            ),
            Err(e) => Err(e),
        }
    }
}

/// `count` entries, each a key and then its value; the result holds keys and
/// values in turn.
pub open spec fn entries_at(
    enc: NumericEncoding,
    data: Seq<u8>,
    pos: int,
    key: Shape,
    value: Shape,
    count: nat,
) -> Owed<Seq<Model>>
    decreases mapping(key, value), 0nat, count,
{
    if count == 0 {
        Ok((Seq::empty(), pos))
    } else {
        proof {
            let whole = mapping(key, value);
            assert(decreases_to!(whole => *whole->Mapping_0));
            assert(decreases_to!(whole => *whole->Mapping_1));
        }
        match value_at(enc, data, pos, key) {
            Ok((k, mid)) => match value_at(enc, data, mid, value) {
                Ok((v, next)) => prepend(
                    seq![k, v],
                    entries_at(enc, data, next, key, value, (count - 1) as nat),
                ),
                Err(e) => Err(e),
            },
            Err(e) => Err(e),
        }
    }
}

/// A map: a length within the ceiling, then that many entries.
pub open spec fn map_at(
    enc: NumericEncoding,
    data: Seq<u8>,
    pos: int,
    key: Shape,
    value: Shape,
) -> Owed<Seq<Model>>
    decreases mapping(key, value), 1nat, 0nat,
{
    match bounded_len_at(enc, data, pos) {
        Ok((len, start)) => entries_at(enc, data, start, key, value, len as nat),
        Err(e) => Err(e),
    }
}

/// An enum: the index of the case, which must be one of the declared cases
/// (the first has index 0), then the payload of that case.
pub open spec fn enum_at(enc: NumericEncoding, data: Seq<u8>, pos: int, cases: Seq<Shape>) -> Owed<
    (u32, Model),
>
    decreases cases, 0nat, 0nat,
{
    match variant_index_at(enc, data, pos) {
        Ok((index, start)) => if index < cases.len() {
            then_value(value_at(enc, data, start, cases[index as int]), |v: Model| (index, v))
        } else {
            Err(Error::Invalid(Invalid::VariantIndex))
        },
        Err(e) => Err(e),
    }
}

} // verus!
