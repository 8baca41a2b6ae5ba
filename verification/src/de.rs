//! The decoder: a bit cursor and a numeric encoding policy, with one read
//! for each kind of value that the format knows.

use crate::error::{Error, Invalid, Unsupported};
use crate::int_code::{lemma_decode_bounds, Code, NumericEncoding};
use crate::read::{bytes_at, finish_spec, le_bytes, lemma_block_bytes, lemma_word_bound, BitReader};
use crate::shape::{models, Model, Shape, Value};
use crate::utf8::{lemma_some_char, string_from_utf8, utf8_char_width};
use crate::wire::{
    bool_at, bounded_len_at, char_at, coded_at, entries_at, enum_at, f32_at, f64_at, fields_at,
    i16_at, i32_at, i64_at, i8_at, is_scalar, items_at, lemma_entry_read, lemma_models_push,
    lemma_prepend_nothing, lemma_prepend_twice, len_and_bytes_at, len_at, map_at, mapping,
    max_len, modeled, native_at, option_at, option_modeled, prepend, raw_at, scalar_at, seq_at,
    signed, string_at, then_value, u16_at, u32_at, u64_at, u8_at, unfolded, value_at,
    variant_index_at, variant_modeled, viewed, Owed,
};
use vstd::arithmetic::power2::{
    lemma2_to64, lemma2_to64_rest, lemma_pow2_strictly_increases, pow2,
};
use vstd::prelude::*;
use vstd::string::StrSliceExecFns;

verus! {

/// The state of one decode call. It lives for that call only, and owns the
/// cursor and the policy for its whole length.
pub struct BitcodeDeserializer {
    /// The cursor over the buffer that is decoded.
    pub data: BitReader,
    /// The policy that the buffer was written with.
    pub num_encoding: NumericEncoding,
}

fn to_i8(v: u64, fold: bool) -> (r: i8)
    requires
        v < 0x100,
    ensures
        r == if fold {
            unfolded(v)
        } else {
            signed(v, 8)
        },
{
    proof {
        lemma2_to64();
    }
    if fold {
        if v % 2 == 0 {
            (v / 2) as i8
        } else {
            (-((v / 2) as i16) - 1) as i8
        }
    } else if v >= 0x80 {
        (v as i16 - 0x100) as i8
    } else {
        v as i8
    }
}

fn to_i16(v: u64, fold: bool) -> (r: i16)
    requires
        v < 0x10000,
    ensures
        r == if fold {
            unfolded(v)
        } else {
            signed(v, 16)
        },
{
    proof {
        lemma2_to64();
    }
    if fold {
        if v % 2 == 0 {
            (v / 2) as i16
        } else {
            (-((v / 2) as i32) - 1) as i16
        }
    } else if v >= 0x8000 {
        (v as i32 - 0x10000) as i16
    } else {
        v as i16
    }
}

fn to_i32(v: u64, fold: bool) -> (r: i32)
    requires
        v < 0x1_0000_0000,
    ensures
        r == if fold {
            unfolded(v)
        } else {
            signed(v, 32)
        },
{
    proof {
        lemma2_to64();
    }
    if fold {
        if v % 2 == 0 {
            (v / 2) as i32
        } else {
            (-((v / 2) as i64) - 1) as i32
        }
    } else if v >= 0x8000_0000 {
        (v as i64 - 0x1_0000_0000) as i32
    } else {
        v as i32
    }
}

fn to_i64(v: u64) -> (r: i64)
    ensures
        r == signed(v, 64),
{
    proof {
        lemma2_to64();
        lemma2_to64_rest();
    }
    if v >= 0x8000_0000_0000_0000 {
        (v as i128 - 0x1_0000_0000_0000_0000) as i64
    } else {
        v as i64
    }
}

/// Appends to `out` the `k` bytes that `block` holds, lowest byte first.
fn push_le_bytes(out: &mut Vec<u8>, block: u64, k: usize)
    ensures
        final(out)@ == old(out)@ + le_bytes(block as nat, k as nat),
{
    let mut rest: u64 = block;
    let mut j: usize = 0;
    assert(le_bytes(rest as nat, 0) =~= Seq::<u8>::empty());
    assert(out@ =~= old(out)@ + Seq::<u8>::empty());
    while j < k
        invariant
            j <= k,
            out@ + le_bytes(rest as nat, (k - j) as nat) == old(out)@ + le_bytes(
                block as nat,
                k as nat,
            ),
        decreases k - j,
    {
        let ghost before = out@;
        out.push((rest % 256) as u8);
        assert(before + le_bytes(rest as nat, (k - j) as nat) =~= out@ + le_bytes(
            (rest / 256) as nat,
            (k - j - 1) as nat,
        ));
        rest = rest / 256;
        j = j + 1;
    }
    assert(le_bytes(rest as nat, 0) =~= Seq::<u8>::empty());
    assert(out@ =~= out@ + Seq::<u8>::empty());
}

impl BitcodeDeserializer {
    /// The buffer that is decoded.
    pub open spec fn buf(self) -> Seq<u8> {
        self.data.data()
    }

    /// The position of the next unread bit.
    pub open spec fn pos(self) -> int {
        self.data.pos()
    }

    /// How a read that owed `owed` leaves the decoder `post` and the result
    /// `r`: the policy is kept, and the cursor moves as
    /// [`BitReader::reads`] says.
    pub open spec fn steps<T>(self, post: Self, r: Result<T, Error>, owed: Owed<T>) -> bool {
        &&& post.num_encoding == self.num_encoding
        &&& self.data.reads(post.data, r, owed)
    }

    /// Where a length word that is read and then refused leaves the cursor:
    /// right after the word, before anything that the length gates.
    pub open spec fn stops_after_len(self, post: Self, refused: spec_fn(usize) -> bool) -> bool {
        match len_at(self.num_encoding, self.buf(), self.pos()) {
            Ok((len, start)) => refused(len) ==> post.pos() == start,
            Err(_) => true,
        }
    }

    /// A decoder at the start of `bytes`.
    pub fn new(bytes: Vec<u8>, num_encoding: NumericEncoding) -> (d: BitcodeDeserializer)
        ensures
            d.buf() == bytes@,
            d.pos() == 0,
            !d.data.overrun(),
            d.num_encoding == num_encoding,
    {
        BitcodeDeserializer { data: BitReader::new(bytes), num_encoding }
    }

    fn read_coded(&mut self, width: usize) -> (r: Result<u64, Error>)
        requires
            width <= 64,
        ensures
            old(self).steps(
                *final(self),
                r,
                coded_at(
                    old(self).num_encoding,
                    old(self).buf(),
                    old(self).pos(),
                    width as nat,
                ),
            ),
            r is Ok ==> r.unwrap() < pow2(width as nat),
    {
        proof {
            lemma_decode_bounds(self.num_encoding.code, self.buf(), self.pos(), width as nat);
        }
        let enc = self.num_encoding;
        enc.decode(&mut self.data, width)
    }

    fn read_raw(&mut self, width: usize) -> (r: Result<u64, Error>)
        requires
            width <= 64,
        ensures
            old(self).steps(
                *final(self),
                r,
                raw_at(old(self).buf(), old(self).pos(), width as nat),
            ),
            r is Ok ==> r.unwrap() < pow2(width as nat),
    {
        proof {
            lemma_decode_bounds(Code::Fixed, self.buf(), self.pos(), width as nat);
        }
        let enc = NumericEncoding::fixed(self.num_encoding.wide);
        enc.decode(&mut self.data, width)
    }

    fn read_native(&mut self, width: usize) -> (r: Result<u64, Error>)
        requires
            width <= 64,
        ensures
            old(self).steps(
                *final(self),
                r,
                native_at(
                    old(self).num_encoding,
                    old(self).buf(),
                    old(self).pos(),
                    width as nat,
                ),
            ),
            r is Ok ==> r.unwrap() < pow2(width as nat),
    {
        if self.num_encoding.wide {
            self.read_coded(width)
        } else {
            self.read_raw(width)
        }
    }

    /// Reads an 8-bit unsigned integer through the policy.
    pub fn read_u8(&mut self) -> (r: Result<u8, Error>)
        ensures
            old(self).steps(
                *final(self),
                r,
                u8_at(old(self).num_encoding, old(self).buf(), old(self).pos()),
            ),
    {
        proof {
            lemma2_to64();
        }
        match self.read_coded(8) {
            Ok(v) => Ok(v as u8),
            Err(e) => Err(e),
        }
    }

    /// Reads a 16-bit unsigned integer through the policy.
    pub fn read_u16(&mut self) -> (r: Result<u16, Error>)
        ensures
            old(self).steps(
                *final(self),
                r,
                u16_at(old(self).num_encoding, old(self).buf(), old(self).pos()),
            ),
    {
        proof {
            lemma2_to64();
        }
        match self.read_coded(16) {
            Ok(v) => Ok(v as u16),
            Err(e) => Err(e),
        }
    }

    /// Reads a 32-bit unsigned integer through the policy.
    pub fn read_u32(&mut self) -> (r: Result<u32, Error>)
        ensures
            old(self).steps(
                *final(self),
                r,
                u32_at(old(self).num_encoding, old(self).buf(), old(self).pos()),
            ),
    {
        proof {
            lemma2_to64();
        }
        match self.read_coded(32) {
            Ok(v) => Ok(v as u32),
            Err(e) => Err(e),
        }
    }

    /// Reads a 64-bit unsigned integer: through the policy in a stream
    /// written for a wide native word, as raw bits otherwise.
    pub fn read_u64(&mut self) -> (r: Result<u64, Error>)
        ensures
            old(self).steps(
                *final(self),
                r,
                u64_at(old(self).num_encoding, old(self).buf(), old(self).pos()),
            ),
    {
        self.read_native(64)
    }

    /// Reads an 8-bit signed integer through the policy.
    pub fn read_i8(&mut self) -> (r: Result<i8, Error>)
        ensures
            old(self).steps(
                *final(self),
                r,
                i8_at(old(self).num_encoding, old(self).buf(), old(self).pos()),
            ),
    {
        proof {
            lemma2_to64();
        }
        let fold = self.num_encoding.folds_sign();
        match self.read_coded(8) {
            Ok(v) => Ok(to_i8(v, fold)),
            Err(e) => Err(e),
        }
    }

    /// Reads a 16-bit signed integer through the policy.
    pub fn read_i16(&mut self) -> (r: Result<i16, Error>)
        ensures
            old(self).steps(
                *final(self),
                r,
                i16_at(old(self).num_encoding, old(self).buf(), old(self).pos()),
            ),
    {
        proof {
            lemma2_to64();
        }
        let fold = self.num_encoding.folds_sign();
        match self.read_coded(16) {
            Ok(v) => Ok(to_i16(v, fold)),
            Err(e) => Err(e),
        }
    }

    /// Reads a 32-bit signed integer: through the policy in a stream written
    /// for a wide native word, as raw bits otherwise.
    pub fn read_i32(&mut self) -> (r: Result<i32, Error>)
        ensures
            old(self).steps(
                *final(self),
                r,
                i32_at(old(self).num_encoding, old(self).buf(), old(self).pos()),
            ),
    {
        proof {
            lemma2_to64();
        }
        if self.num_encoding.wide {
            let fold = self.num_encoding.folds_sign();
            match self.read_coded(32) {
                Ok(v) => Ok(to_i32(v, fold)),
                Err(e) => Err(e),
            }
        } else {
            match self.read_raw(32) {
                Ok(v) => Ok(to_i32(v, false)),
                Err(e) => Err(e),
            }
        }
    }

    /// Reads a 64-bit signed integer, which is raw bits under every policy.
    pub fn read_i64(&mut self) -> (r: Result<i64, Error>)
        ensures
            old(self).steps(*final(self), r, i64_at(old(self).buf(), old(self).pos())),
    {
        match self.read_raw(64) {
            Ok(v) => Ok(to_i64(v)),
            Err(e) => Err(e),
        }
    }

    /// Reads the raw bit pattern of a 32-bit float.
    pub fn read_f32_bits(&mut self) -> (r: Result<u32, Error>)
        ensures
            old(self).steps(*final(self), r, f32_at(old(self).buf(), old(self).pos())),
    {
        proof {
            lemma2_to64();
        }
        match self.read_raw(32) {
            Ok(v) => Ok(v as u32),
            Err(e) => Err(e),
        }
    }

    /// Reads the raw bit pattern of a 64-bit float.
    pub fn read_f64_bits(&mut self) -> (r: Result<u64, Error>)
        ensures
            old(self).steps(*final(self), r, f64_at(old(self).buf(), old(self).pos())),
    {
        self.read_raw(64)
    }

    /// Reads a boolean: one raw bit.
    pub fn read_bool(&mut self) -> (r: Result<bool, Error>)
        ensures
            old(self).steps(*final(self), r, bool_at(old(self).buf(), old(self).pos())),
    {
        self.data.read_bit()
    }

    /// Reads a length word.
    pub fn read_len(&mut self) -> (r: Result<usize, Error>)
        ensures
            old(self).steps(
                *final(self),
                r,
                len_at(old(self).num_encoding, old(self).buf(), old(self).pos()),
            ),
    {
        let enc = self.num_encoding;
        enc.decode_word(&mut self.data)
    }

    /// Reads a length that gates how much is read after it: a length word,
    /// which is refused if it is above the ceiling. The cursor then stands
    /// right after the word.
    pub fn read_bounded_len(&mut self) -> (r: Result<usize, Error>)
        ensures
            old(self).steps(
                *final(self),
                r,
                bounded_len_at(old(self).num_encoding, old(self).buf(), old(self).pos()),
            ),
            old(self).stops_after_len(*final(self), |len: usize| len > max_len()),
    {
        let len = match self.read_len() {
            Ok(len) => len,
            Err(e) => { return Err(e); },
        };
        if len > isize::MAX as usize / u8::MAX as usize {
            return Err(Error::Invalid(Invalid::Length));
        }
        Ok(len)
    }

    /// Reads a length and then that many bytes. A length above the ceiling
    /// is refused before any byte is read or any room is made.
    pub fn read_len_and_bytes(&mut self) -> (r: Result<Vec<u8>, Error>)
        ensures
            old(self).steps(
                *final(self),
                viewed(r),
                len_and_bytes_at(old(self).num_encoding, old(self).buf(), old(self).pos()),
            ),
            old(self).stops_after_len(*final(self), |len: usize| len > max_len()),
    {
        let len = match self.read_bounded_len() {
            Ok(len) => len,
            Err(e) => { return Err(e); },
        };
        self.data.read_bytes(len)
    }

    /// Reads a string: a length word, that many bytes, and the check that
    /// they are well-formed UTF-8.
    pub fn read_string(&mut self) -> (r: Result<String, Error>)
        ensures
            old(self).steps(
                *final(self),
                viewed(r),
                string_at(old(self).num_encoding, old(self).buf(), old(self).pos()),
            ),
    {
        let bytes = match self.read_len_and_bytes() {
            Ok(bytes) => bytes,
            Err(e) => { return Err(e); },
        };
        match string_from_utf8(bytes) {
            Some(s) => Ok(s),
            None => Err(Error::Invalid(Invalid::Utf8)),
        }
    }

    /// Reads a character. It has no length field: the lead byte, which
    /// goes through the policy, announces how many bytes follow, and those
    /// are read as one block of raw bits and split lowest byte first. The
    /// bytes together must be one well-formed character.
    pub fn read_char(&mut self) -> (r: Result<char, Error>)
        ensures
            old(self).steps(
                *final(self),
                r,
                char_at(old(self).num_encoding, old(self).buf(), old(self).pos()),
            ),
    {
        let lead = match self.read_u8() {
            Ok(lead) => lead,
            Err(e) => { return Err(e); },
        };
        let ghost start = self.pos();
        let len = utf8_char_width(lead);
        let mut bytes: Vec<u8> = Vec::new();
        bytes.push(lead);
        assert(bytes@ =~= seq![lead]);
        if len > 1 {
            let block = match self.data.read_bits((len - 1) * 8) {
                Ok(block) => block,
                Err(e) => { return Err(e); },
            };
            proof {
                lemma_block_bytes(self.buf(), start, (len - 1) as nat);
                lemma_word_bound(self.buf(), start, (8 * (len - 1)) as nat);
                lemma2_to64();
                lemma_pow2_strictly_increases(
                    (8 * (len - 1)) as nat,
                    64,
                );
            }
            push_le_bytes(&mut bytes, block, len - 1);
        } else {
            assert(bytes_at(self.buf(), start, 0) =~= Seq::<u8>::empty());
            assert(bytes@ =~= seq![lead] + Seq::<u8>::empty());
        }
        if len == 0 {
            return Err(Error::Invalid(Invalid::Char));
        }
        let ghost encoded = bytes@;
        match string_from_utf8(bytes) {
            Some(s) => {
                proof {
                    lemma_some_char(encoded);
                }
                Ok(s.as_str().get_char(0))
            },
            None => Err(Error::Invalid(Invalid::Char)),
        }
    }

    /// Reads the index of an enum's case: a length word that fits 32 bits.
    /// A word that does not, or bits that are no length word, are an invalid
    /// variant index. After a word that was read, fitting or not, the cursor
    /// stands right after it.
    pub fn read_variant_index(&mut self) -> (r: Result<u32, Error>)
        ensures
            old(self).steps(
                *final(self),
                r,
                variant_index_at(old(self).num_encoding, old(self).buf(), old(self).pos()),
            ),
            old(self).stops_after_len(*final(self), |word: usize| true),
    {
        let word = match self.read_len() {
            Ok(word) => word,
            Err(Error::Invalid(_)) => { return Err(Error::Invalid(Invalid::VariantIndex)); },
            Err(e) => { return Err(e); },
        };
        if word > u32::MAX as usize {
            return Err(Error::Invalid(Invalid::VariantIndex));
        }
        Ok(word as u32)
    }

    /// Refuses to decode a value whose kind the stream would have to tell.
    /// Nothing is read.
    pub fn deserialize_any(&mut self) -> (r: Result<Value, Error>)
        ensures
            *final(self) == *old(self),
            r matches Err(e) && e == Error::NotSupported(Unsupported::Any),
    {
        Err(Error::NotSupported(Unsupported::Any))
    }

    /// Refuses to decode a field or variant name: names are never in the
    /// stream. Nothing is read.
    pub fn deserialize_identifier(&mut self) -> (r: Result<Value, Error>)
        ensures
            *final(self) == *old(self),
            r matches Err(e) && e == Error::NotSupported(Unsupported::Identifier),
    {
        Err(Error::NotSupported(Unsupported::Identifier))
    }

    /// Refuses to skip a value of unknown kind. Nothing is read.
    pub fn deserialize_ignored_any(&mut self) -> (r: Result<Value, Error>)
        ensures
            *final(self) == *old(self),
            r matches Err(e) && e == Error::NotSupported(Unsupported::IgnoredAny),
    {
        Err(Error::NotSupported(Unsupported::IgnoredAny))
    }

    /// Decodes one value of a shape that has no shape inside it.
    fn deserialize_scalar(&mut self, shape: &Shape) -> (r: Result<Value, Error>)
        requires
            is_scalar(*shape),
        ensures
            old(self).steps(
                *final(self),
                viewed(r),
                scalar_at(old(self).num_encoding, old(self).buf(), old(self).pos(), *shape),
            ),
    {
        match shape {
            Shape::Unit => Ok(Value::Unit),
            Shape::Bool => match self.read_bool() {
                Ok(v) => Ok(Value::Bool(v)),
                Err(e) => Err(e),
            },
            Shape::I8 => match self.read_i8() {
                Ok(v) => Ok(Value::I8(v)),
                Err(e) => Err(e),
            },
            Shape::I16 => match self.read_i16() {
                Ok(v) => Ok(Value::I16(v)),
                Err(e) => Err(e),
            },
            Shape::I32 => match self.read_i32() {
                Ok(v) => Ok(Value::I32(v)),
                Err(e) => Err(e),
            },
            Shape::I64 => match self.read_i64() {
                Ok(v) => Ok(Value::I64(v)),
                Err(e) => Err(e),
            },
            Shape::U8 => match self.read_u8() {
                Ok(v) => Ok(Value::U8(v)),
                Err(e) => Err(e),
            },
            Shape::U16 => match self.read_u16() {
                Ok(v) => Ok(Value::U16(v)),
                Err(e) => Err(e),
            },
            Shape::U32 => match self.read_u32() {
                Ok(v) => Ok(Value::U32(v)),
                Err(e) => Err(e),
            },
            Shape::U64 => match self.read_u64() {
                Ok(v) => Ok(Value::U64(v)),
                Err(e) => Err(e),
            },
            Shape::F32 => match self.read_f32_bits() {
                Ok(v) => Ok(Value::F32(v)),
                Err(e) => Err(e),
            },
            Shape::F64 => match self.read_f64_bits() {
                Ok(v) => Ok(Value::F64(v)),
                Err(e) => Err(e),
            },
            Shape::Char => match self.read_char() {
                Ok(v) => Ok(Value::Char(v)),
                Err(e) => Err(e),
            },
            Shape::Str => match self.read_string() {
                Ok(v) => Ok(Value::Str(v)),
                Err(e) => Err(e),
            },
            Shape::Bytes => match self.read_len_and_bytes() {
                Ok(v) => Ok(Value::Bytes(v)),
                Err(e) => Err(e),
            },
            Shape::Any => self.deserialize_any(),
            Shape::Identifier => self.deserialize_identifier(),
            Shape::IgnoredAny => self.deserialize_ignored_any(),
            _ => Ok(Value::Unit),
        }
    }

    /// Decodes one value of the given shape, reading exactly the bits that
    /// the shape asks for. A shape inside a shape is decoded by a call inside
    /// this call, so the call stack grows as deep as the shape is nested.
    pub fn deserialize(&mut self, shape: &Shape) -> (r: Result<Value, Error>)
        ensures
            old(self).steps(
                *final(self),
                viewed(r),
                value_at(old(self).num_encoding, old(self).buf(), old(self).pos(), *shape),
            ),
        decreases *shape, 2nat, 0nat,
    {
        match shape {
            Shape::Option(inner) => match self.deserialize_option(&**inner) {
                Ok(Some(v)) => Ok(Value::Option(Some(Box::new(v)))),
                Ok(None) => Ok(Value::Option(None)),
                Err(e) => Err(e),
            },
            Shape::Newtype(inner) => self.deserialize(&**inner),
            Shape::Sequence(item) => match self.deserialize_seq(&**item) {
                Ok(v) => Ok(Value::Sequence(v)),
                Err(e) => Err(e),
            },
            Shape::Tuple(fields) => match self.deserialize_tuple(fields) {
                Ok(v) => Ok(Value::Tuple(v)),
                Err(e) => Err(e),
            },
            Shape::Mapping(key, value) => match self.deserialize_map(&**key, &**value) {
                Ok(v) => Ok(Value::Mapping(v)),
                Err(e) => Err(e),
            },
            Shape::Enum(cases) => match self.deserialize_enum(cases) {
                Ok((index, v)) => Ok(Value::Variant(index, Box::new(v))),
                Err(e) => Err(e),
            },
            _ => self.deserialize_scalar(shape),
        }
    }

    /// Decodes an option: one presence bit and, only if it is set, the
    /// inner value.
    pub fn deserialize_option(&mut self, inner: &Shape) -> (r: Result<Option<Value>, Error>)
        ensures
            old(self).steps(
                *final(self),
                option_modeled(r),
                option_at(old(self).num_encoding, old(self).buf(), old(self).pos(), *inner),
            ),
        decreases *inner, 3nat, 0nat,
    {
        match self.read_bool() {
            Ok(true) => match self.deserialize(inner) {
                Ok(v) => Ok(Some(v)),
                Err(e) => Err(e),
            },
            Ok(false) => Ok(None),
            Err(e) => Err(e),
        }
    }
}

/// The elements of an aggregate that are still to come. The count is exact:
/// for a sequence or a map it was read from the stream, for a tuple it is
/// the number of declared fields.
pub struct Access {
    len: usize,
}

impl Access {
    /// The number of elements that are still to come.
    pub closed spec fn remaining(&self) -> nat {
        self.len as nat
    }

    /// An access to `len` elements.
    pub fn new(len: usize) -> (a: Access)
        ensures
            a.remaining() == len,
    {
        Access { len }
    }

    /// The number of elements that are still to come; an upper bound that
    /// can be relied on, not an estimate.
    pub fn size_hint(&self) -> (r: Option<usize>)
        ensures
            r == Some(self.remaining() as usize),
            self.remaining() <= usize::MAX,
    {
        Some(self.len)
    }

    /// Counts one element off, if any is left.
    pub fn advance(&mut self) -> (more: bool)
        ensures
            more == (old(self).remaining() > 0),
            more ==> final(self).remaining() == old(self).remaining() - 1,
            !more ==> final(self).remaining() == 0,
    {
        if self.len > 0 {
            self.len = self.len - 1;
            true
        } else {
            false
        }
    }

    /// Decodes the next element, of the given shape, or reports the end
    /// without reading anything.
    pub fn next_element(&mut self, de: &mut BitcodeDeserializer, shape: &Shape) -> (r: Result<
        Option<Value>,
        Error,
    >)
        ensures
            old(self).remaining() == 0 ==> r == Ok::<Option<Value>, Error>(None) && *final(de)
                == *old(de) && final(self).remaining() == 0,
            old(self).remaining() > 0 ==> final(self).remaining() == old(self).remaining() - 1
                && !(r matches Ok(None)) && old(de).steps(
                *final(de),
                option_modeled(r),
                then_value(
                    value_at(old(de).num_encoding, old(de).buf(), old(de).pos(), *shape),
                    |v: Model| Some(v),
                ),
            ),
        decreases *shape, 3nat, 0nat,
    {
        if self.advance() {
            match de.deserialize(shape) {
                Ok(v) => Ok(Some(v)),
                Err(e) => Err(e),
            }
        } else {
            Ok(None)
        }
    }

    /// Decodes the next key of a map, or reports the end without reading
    /// anything.
    pub fn next_key(&mut self, de: &mut BitcodeDeserializer, shape: &Shape) -> (r: Result<
        Option<Value>,
        Error,
    >)
        ensures
            old(self).remaining() == 0 ==> r == Ok::<Option<Value>, Error>(None) && *final(de)
                == *old(de) && final(self).remaining() == 0,
            old(self).remaining() > 0 ==> final(self).remaining() == old(self).remaining() - 1
                && !(r matches Ok(None)) && old(de).steps(
                *final(de),
                option_modeled(r),
                then_value(
                    value_at(old(de).num_encoding, old(de).buf(), old(de).pos(), *shape),
                    |v: Model| Some(v),
                ),
            ),
        decreases *shape, 4nat, 0nat,
    {
        self.next_element(de, shape)
    }

    /// Decodes the value that belongs to the key that was decoded last. The
    /// count is not touched: an entry is counted off with its key.
    pub fn next_value(&mut self, de: &mut BitcodeDeserializer, shape: &Shape) -> (r: Result<
        Value,
        Error,
    >)
        ensures
            final(self).remaining() == old(self).remaining(),
            old(de).steps(
                *final(de),
                viewed(r),
                value_at(old(de).num_encoding, old(de).buf(), old(de).pos(), *shape),
            ),
        decreases *shape, 3nat, 0nat,
    {
        de.deserialize(shape)
    }
}

/// The first phase of decoding an enum: the declared case that an index
/// names. Cases are numbered from 0 in declared order; an index that names
/// no case is an invalid variant index.
pub fn select_variant(cases: &Vec<Shape>, index: u32) -> (r: Result<&Shape, Error>)
    ensures
        index < cases@.len() ==> (r matches Ok(case) && *case == cases@[index as int]),
        index >= cases@.len() ==> (r matches Err(e) && e == Error::Invalid(Invalid::VariantIndex)),
{
    let i = index as usize;
    if i < cases.len() {
        Ok(&cases[i])
    } else {
        Err(Error::Invalid(Invalid::VariantIndex))
    }
}

impl BitcodeDeserializer {
    /// Decodes `len` values of one shape, with nothing before or between
    /// them.
    fn deserialize_items(&mut self, item: &Shape, len: usize) -> (r: Result<
        Vec<Value>,
        Error,
    >)
        ensures
            old(self).steps(
                *final(self),
                modeled(r),
                items_at(
                    old(self).num_encoding,
                    old(self).buf(),
                    old(self).pos(),
                    *item,
                    len as nat,
                ),
            ),
        decreases *item, 4nat, 0nat,
    {
        let ghost enc = self.num_encoding;
        let ghost data = self.buf();
        let ghost owed = items_at(enc, data, self.pos(), *item, len as nat);
        let ghost was_overrun = self.data.overrun();
        let mut access = Access::new(len);
        let mut out: Vec<Value> = Vec::new();
        proof {
            lemma_prepend_twice(Seq::empty(), Seq::empty(), owed);
            assert(models(out@) =~= Seq::<Model>::empty());
            assert(owed is Ok ==> Seq::<Model>::empty() + owed.unwrap().0 =~= owed.unwrap().0);
        }
        loop
            invariant
                enc == old(self).num_encoding,
                data == old(self).buf(),
                was_overrun == old(self).data.overrun(),
                owed == items_at(enc, data, old(self).pos(), *item, len as nat),
                self.num_encoding == enc,
                self.buf() == data,
                self.data.overrun() == was_overrun,
                prepend(
                    models(out@),
                    items_at(enc, data, self.pos(), *item, access.remaining()),
                ) == owed,
            decreases access.remaining(),
        {
            let ghost left = access.remaining();
            match access.next_element(self, item) {
                Ok(Some(v)) => {
                    proof {
                        lemma_models_push(out@, v);
                        lemma_prepend_twice(
                            models(out@),
                            seq![v@],
                            items_at(enc, data, self.pos(), *item, (left - 1) as nat),
                        );
                    }
                    out.push(v);
                },
                Ok(None) => {
                    proof {
                        lemma_prepend_nothing(models(out@), self.pos());
                    }
                    return Ok(out);
                },
                Err(e) => {
                    return Err(e);
                },
            }
        }
    }

    /// Decodes a sequence: a length, then that many items. A length above
    /// the ceiling is refused before any item is decoded.
    pub fn deserialize_seq(&mut self, item: &Shape) -> (r: Result<Vec<Value>, Error>)
        ensures
            old(self).steps(
                *final(self),
                modeled(r),
                seq_at(old(self).num_encoding, old(self).buf(), old(self).pos(), *item),
            ),
            old(self).stops_after_len(*final(self), |len: usize| len > max_len()),
        decreases *item, 5nat, 0nat,
    {
        let len = match self.read_bounded_len() {
            Ok(len) => len,
            Err(e) => { return Err(e); },
        };
        self.deserialize_items(item, len)
    }

    /// Decodes a tuple, or the fields of a struct: one value for each
    /// declared shape, in declared order, with no length before them.
    pub fn deserialize_tuple(&mut self, fields: &Vec<Shape>) -> (r: Result<Vec<Value>, Error>)
        ensures
            old(self).steps(
                *final(self),
                modeled(r),
                fields_at(old(self).num_encoding, old(self).buf(), old(self).pos(), fields@, 0),
            ),
        decreases fields@, 0nat, 0nat,
    {
        let ghost enc = self.num_encoding;
        let ghost data = self.buf();
        let ghost owed = fields_at(enc, data, self.pos(), fields@, 0);
        let ghost was_overrun = self.data.overrun();
        let mut access = Access::new(fields.len());
        let mut out: Vec<Value> = Vec::new();
        let mut i: usize = 0;
        proof {
            assert(models(out@) =~= Seq::<Model>::empty());
            assert(owed is Ok ==> Seq::<Model>::empty() + owed.unwrap().0 =~= owed.unwrap().0);
        }
        while i < fields.len()
            invariant
                i <= fields.len(),
                access.remaining() == fields.len() - i,
                enc == old(self).num_encoding,
                data == old(self).buf(),
                was_overrun == old(self).data.overrun(),
                owed == fields_at(enc, data, old(self).pos(), fields@, 0),
                self.num_encoding == enc,
                self.buf() == data,
                self.data.overrun() == was_overrun,
                prepend(models(out@), fields_at(enc, data, self.pos(), fields@, i as nat))
                    == owed,
            decreases fields.len() - i,
        {
            match access.next_element(self, &fields[i]) {
                Ok(Some(v)) => {
                    proof {
                        lemma_models_push(out@, v);
                        lemma_prepend_twice(
                            models(out@),
                            seq![v@],
                            fields_at(enc, data, self.pos(), fields@, (i + 1) as nat),
                        );
                    }
                    out.push(v);
                    i = i + 1;
                },
                Ok(None) => {
                    return Ok(out);
                },
                Err(e) => {
                    return Err(e);
                },
            }
        }
        proof {
            lemma_prepend_nothing(models(out@), self.pos());
        }
        Ok(out)
    }

    /// Decodes `len` entries, each a key and then its value, with nothing
    /// before or between them. The result holds keys and values in turn.
    fn deserialize_entries(&mut self, key: &Shape, value: &Shape, len: usize) -> (r: Result<
        Vec<Value>,
        Error,
    >)
        ensures
            old(self).steps(
                *final(self),
                modeled(r),
                entries_at(
                    old(self).num_encoding,
                    old(self).buf(),
                    old(self).pos(),
                    *key,
                    *value,
                    len as nat,
                ),
            ),
        decreases mapping(*key, *value), 0nat, 0nat,
    {
        proof {
            let whole = mapping(*key, *value);
            assert(decreases_to!(whole => *whole->Mapping_0));
            assert(decreases_to!(whole => *whole->Mapping_1));
        }
        let ghost enc = self.num_encoding;
        let ghost data = self.buf();
        let ghost owed = entries_at(enc, data, self.pos(), *key, *value, len as nat);
        let ghost was_overrun = self.data.overrun();
        let mut access = Access::new(len);
        let mut out: Vec<Value> = Vec::new();
        proof {
            assert(models(out@) =~= Seq::<Model>::empty());
            assert(owed is Ok ==> Seq::<Model>::empty() + owed.unwrap().0 =~= owed.unwrap().0);
        }
        loop
            invariant
                enc == old(self).num_encoding,
                data == old(self).buf(),
                was_overrun == old(self).data.overrun(),
                owed == entries_at(enc, data, old(self).pos(), *key, *value, len as nat),
                self.num_encoding == enc,
                self.buf() == data,
                self.data.overrun() == was_overrun,
                decreases_to!(mapping(*key, *value) => *key),
                decreases_to!(mapping(*key, *value) => *value),
                prepend(
                    models(out@),
                    entries_at(enc, data, self.pos(), *key, *value, access.remaining()),
                ) == owed,
            decreases access.remaining(),
        {
            let ghost left = access.remaining();
            let k = match access.next_key(self, key) {
                Ok(Some(k)) => k,
                Ok(None) => {
                    proof {
                        lemma_prepend_nothing(models(out@), self.pos());
                    }
                    return Ok(out);
                },
                Err(e) => {
                    return Err(e);
                },
            };
            let v = match access.next_value(self, value) {
                Ok(v) => v,
                Err(e) => {
                    return Err(e);
                },
            };
            proof {
                lemma_entry_read(
                    models(out@),
                    k@,
                    v@,
                    entries_at(enc, data, self.pos(), *key, *value, (left - 1) as nat),
                );
                lemma_models_push(out@, k);
                lemma_models_push(out@.push(k), v);
            }
            out.push(k);
            out.push(v);
        }
    }

    /// Decodes a map: a length, then that many entries, each a key and then
    /// its value. The result holds keys and values in turn. A length above
    /// the ceiling is refused before any entry is decoded.
    pub fn deserialize_map(&mut self, key: &Shape, value: &Shape) -> (r: Result<
        Vec<Value>,
        Error,
    >)
        ensures
            old(self).steps(
                *final(self),
                modeled(r),
                map_at(old(self).num_encoding, old(self).buf(), old(self).pos(), *key, *value),
            ),
            old(self).stops_after_len(*final(self), |len: usize| len > max_len()),
        decreases mapping(*key, *value), 1nat, 0nat,
    {
        let len = match self.read_bounded_len() {
            Ok(len) => len,
            Err(e) => { return Err(e); },
        };
        self.deserialize_entries(key, value, len)
    }

    /// Decodes an enum in two phases: the index of the case, which selects
    /// one of the declared cases, and then that case's payload. An index
    /// that names no declared case is refused before any payload is decoded.
    pub fn deserialize_enum(&mut self, cases: &Vec<Shape>) -> (r: Result<(u32, Value), Error>)
        ensures
            old(self).steps(
                *final(self),
                variant_modeled(r),
                enum_at(old(self).num_encoding, old(self).buf(), old(self).pos(), cases@),
            ),
            old(self).stops_after_len(
                *final(self),
                |word: usize| word > u32::MAX || word >= cases@.len(),
            ),
        decreases cases@, 0nat, 0nat,
    {
        let index = match self.read_variant_index() {
            Ok(index) => index,
            Err(e) => { return Err(e); },
        };
        let case = match select_variant(cases, index) {
            Ok(case) => case,
            Err(e) => { return Err(e); },
        };
        match self.deserialize(case) {
            Ok(v) => Ok((index, v)),
            Err(e) => Err(e),
        }
    }
}

/// Why a decode call failed: decoding the value failed, with an error of
/// the caller's kind, or the closing check did.
#[derive(Debug, PartialEq, Eq)]
pub enum Failure<E> {
    /// Decoding the value failed.
    Decode(E),
    /// The closing check failed.
    Finish(Error),
}

/// What a decode call returns, given how decoding the root went and what
/// the closing check found. Out-of-data at closing time comes first,
/// whatever decoding returned: the buffer was cut short, and nothing that was
/// decoded from it can be relied on. Then comes the error of decoding, then
/// trailing data, and only then the value.
pub open spec fn settled<T, E>(result: Result<T, E>, finish: Result<(), Error>) -> Result<
    T,
    Failure<E>,
> {
    if finish == Err::<(), Error>(Error::Eof) {
        Err(Failure::Finish(Error::Eof))
    } else {
        match result {
            Err(e) => Err(Failure::Decode(e)),
            Ok(v) => match finish {
                Err(e) => Err(Failure::Finish(e)),
                Ok(_) => Ok(v),
            },
        }
    }
}

/// [`settled`] where decoding fails with this library's own errors.
pub open spec fn resolved<T>(result: Result<T, Error>, finish: Result<(), Error>) -> Result<
    T,
    Error,
> {
    match settled(result, finish) {
        Ok(v) => Ok(v),
        Err(Failure::Decode(e)) => Err(e),
        Err(Failure::Finish(e)) => Err(e),
    }
}

/// What decoding a value of `shape` returns for a cursor at `pos` of `data`
/// that has or has not overrun the buffer already.
pub open spec fn decoded_from(
    enc: NumericEncoding,
    data: Seq<u8>,
    pos: int,
    overrun: bool,
    shape: Shape,
) -> Result<Model, Error> {
    if overrun {
        Err(Error::Eof)
    } else {
        match value_at(enc, data, pos, shape) {
            Ok((v, end)) => match finish_spec(data, end, false) {
                Ok(_) => Ok(v),
                Err(e) => Err(e),
            },
            Err(e) => Err(e),
        }
    }
}

/// What decoding the whole of `data` as one value of `shape` returns: the
/// value, if the buffer holds it and no whole byte more; otherwise the error.
pub open spec fn decoded(enc: NumericEncoding, data: Seq<u8>, shape: Shape) -> Result<
    Model,
    Error,
> {
    decoded_from(enc, data, 0, false, shape)
}

/// Settles what a decode call returns; see [`settled`].
pub fn settle<T, E>(result: Result<T, E>, finish: Result<(), Error>) -> (r: Result<T, Failure<E>>)
    ensures
        r == settled(result, finish),
{
    if let Err(e) = &finish {
        if e.same(&Error::Eof) {
            return Err(Failure::Finish(Error::Eof));
        }
    }
    let t = match result {
        Ok(t) => t,
        Err(e) => { return Err(Failure::Decode(e)); },
    };
    match finish {
        Ok(_) => Ok(t),
        Err(e) => Err(Failure::Finish(e)),
    }
}

/// Settles what a decode call returns where decoding fails with this
/// library's own errors; see [`resolved`].
pub fn resolve<T>(result: Result<T, Error>, finish: Result<(), Error>) -> (r: Result<T, Error>)
    ensures
        r == resolved(result, finish),
{
    match settle(result, finish) {
        Ok(v) => Ok(v),
        Err(Failure::Decode(e)) => Err(e),
        Err(Failure::Finish(e)) => Err(e),
    }
}

/// Decodes one value of `shape` from a cursor and checks that the buffer
/// ends with it.
pub fn deserialize_from(r: BitReader, num_encoding: NumericEncoding, shape: &Shape) -> (res:
    Result<Value, Error>)
    ensures
        viewed(res) == decoded_from(num_encoding, r.data(), r.pos(), r.overrun(), *shape),
{
    let mut d = BitcodeDeserializer { data: r, num_encoding };
    let result = d.deserialize(shape);
    let finish = d.data.finish();
    resolve(result, finish)
}

/// Decodes the whole of `bytes` as one value of `shape`.
pub fn deserialize_with(bytes: &[u8], num_encoding: NumericEncoding, shape: &Shape) -> (res:
    Result<Value, Error>)
    ensures
        viewed(res) == decoded(num_encoding, bytes@, *shape),
{
    deserialize_from(BitReader::new(vstd::slice::slice_to_vec(bytes)), num_encoding, shape)
}

} // verus!
