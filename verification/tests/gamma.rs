use bitcode_de::de::{deserialize_with, BitcodeDeserializer};
use bitcode_de::error::{Error, Invalid};
use bitcode_de::int_code::NumericEncoding;
use bitcode_de::read::BitReader;
use bitcode_de::shape::{Shape, Value};

/// A stream under construction, bit by bit.
struct Bits(Vec<bool>);

impl Bits {
    fn new() -> Bits {
        Bits(Vec::new())
    }

    fn raw(mut self, v: u64, n: usize) -> Bits {
        for i in 0..n {
            self.0.push((v >> i) & 1 == 1);
        }
        self
    }

    /// The gamma code of `v`: the zero bits, the one bit, the low bits.
    fn gamma(mut self, v: u64) -> Bits {
        let n = v as u128 + 1;
        let zeros = 127 - n.leading_zeros() as usize;
        for _ in 0..zeros {
            self.0.push(false);
        }
        self.0.push(true);
        for i in 0..zeros {
            self.0.push((n >> i) & 1 == 1);
        }
        self
    }

    fn bytes(&self) -> Vec<u8> {
        let mut out = vec![0u8; (self.0.len() + 7) / 8];
        for (i, b) in self.0.iter().enumerate() {
            if *b {
                out[i / 8] |= 1 << (i % 8);
            }
        }
        out
    }
}

fn gamma() -> NumericEncoding {
    NumericEncoding::gamma(true)
}

#[test]
fn zero_is_one_bit() {
    let mut d = BitcodeDeserializer::new(vec![0x01], gamma());
    assert_eq!(d.read_u8(), Ok(0));
    assert_eq!(d.data.position(), (0, 1));
}

#[test]
fn five_is_five_bits() {
    // Six is 110: two zero bits, the one bit, then 10 lowest first.
    let mut d = BitcodeDeserializer::new(vec![0b0001_0100], gamma());
    assert_eq!(d.read_u8(), Ok(5));
    assert_eq!(d.data.position(), (0, 5));
    assert_eq!(Bits::new().gamma(5).bytes(), vec![0b0001_0100]);
}

#[test]
fn small_numbers() {
    for v in 0..=255u64 {
        let bytes = Bits::new().gamma(v).bytes();
        assert_eq!(deserialize_with(&bytes, gamma(), &Shape::U8), Ok(Value::U8(v as u8)));
        assert_eq!(deserialize_with(&bytes, gamma(), &Shape::U16), Ok(Value::U16(v as u16)));
    }
}

#[test]
fn largest_number_of_a_width() {
    assert_eq!(
        deserialize_with(&[0x00, 0x01, 0x00], gamma(), &Shape::U8),
        Ok(Value::U8(255))
    );
    let bytes = Bits::new().gamma(u16::MAX as u64).bytes();
    assert_eq!(deserialize_with(&bytes, gamma(), &Shape::U16), Ok(Value::U16(u16::MAX)));
    let bytes = Bits::new().gamma(u32::MAX as u64).bytes();
    assert_eq!(deserialize_with(&bytes, gamma(), &Shape::U32), Ok(Value::U32(u32::MAX)));
    let bytes = Bits::new().gamma(u64::MAX).bytes();
    assert_eq!(bytes.len(), 17);
    assert_eq!(deserialize_with(&bytes, gamma(), &Shape::U64), Ok(Value::U64(u64::MAX)));
    let bytes = Bits::new().gamma(u64::MAX - 1).bytes();
    assert_eq!(deserialize_with(&bytes, gamma(), &Shape::U64), Ok(Value::U64(u64::MAX - 1)));
}

#[test]
fn a_number_too_large_for_its_width_is_invalid() {
    // 256 does not fit eight bits: eight zero bits, the one bit, low bits 1.
    assert_eq!(
        deserialize_with(&[0x00, 0x03, 0x00], gamma(), &Shape::U8),
        Err(Error::Invalid(Invalid::Integer))
    );
    // Nine zero bits.
    assert_eq!(
        deserialize_with(&[0x00, 0x02, 0x00], gamma(), &Shape::U8),
        Err(Error::Invalid(Invalid::Integer))
    );
}

#[test]
fn zero_bits_to_the_end_are_out_of_data() {
    assert_eq!(deserialize_with(&[0x00], gamma(), &Shape::U8), Err(Error::Eof));
    assert_eq!(deserialize_with(&[], gamma(), &Shape::U8), Err(Error::Eof));
    // The one bit is there, the low bits are not.
    assert_eq!(deserialize_with(&[0x80], gamma(), &Shape::U8), Err(Error::Eof));
}

#[test]
fn signed_numbers_are_folded() {
    assert_eq!(deserialize_with(&[0x01], gamma(), &Shape::I8), Ok(Value::I8(0)));
    assert_eq!(deserialize_with(&[0x02], gamma(), &Shape::I8), Ok(Value::I8(-1)));
    assert_eq!(deserialize_with(&[0x06], gamma(), &Shape::I8), Ok(Value::I8(1)));
    assert_eq!(
        deserialize_with(&[0x00, 0x01, 0x00], gamma(), &Shape::I8),
        Ok(Value::I8(-128))
    );
    let bytes = Bits::new().gamma(254).bytes();
    assert_eq!(deserialize_with(&bytes, gamma(), &Shape::I8), Ok(Value::I8(127)));
    let bytes = Bits::new().gamma(u16::MAX as u64).bytes();
    assert_eq!(deserialize_with(&bytes, gamma(), &Shape::I16), Ok(Value::I16(i16::MIN)));
    let bytes = Bits::new().gamma(7).bytes();
    assert_eq!(deserialize_with(&bytes, gamma(), &Shape::I16), Ok(Value::I16(-4)));
    let bytes = Bits::new().gamma(u32::MAX as u64).bytes();
    assert_eq!(deserialize_with(&bytes, gamma(), &Shape::I32), Ok(Value::I32(i32::MIN)));
    let bytes = Bits::new().gamma(u32::MAX as u64 - 1).bytes();
    assert_eq!(deserialize_with(&bytes, gamma(), &Shape::I32), Ok(Value::I32(i32::MAX)));
}

#[test]
fn wide_and_narrow_streams_differ() {
    let narrow = NumericEncoding::gamma(false);
    // In a narrow stream a 32-bit signed integer is raw two's complement ...
    assert_eq!(
        deserialize_with(&[0xFD, 0xFF, 0xFF, 0xFF], narrow, &Shape::I32),
        Ok(Value::I32(-3))
    );
    // ... and a 64-bit unsigned integer is raw as well.
    assert_eq!(
        deserialize_with(&9u64.to_le_bytes(), narrow, &Shape::U64),
        Ok(Value::U64(9))
    );
    // In a wide stream both are gamma-coded.
    let bytes = Bits::new().gamma(5).bytes();
    assert_eq!(deserialize_with(&bytes, gamma(), &Shape::I32), Ok(Value::I32(-3)));
    let bytes = Bits::new().gamma(9).bytes();
    assert_eq!(deserialize_with(&bytes, gamma(), &Shape::U64), Ok(Value::U64(9)));
    // Smaller integers go through the policy either way.
    let bytes = Bits::new().gamma(5).bytes();
    assert_eq!(deserialize_with(&bytes, narrow, &Shape::I16), Ok(Value::I16(-3)));
    assert_eq!(deserialize_with(&bytes, narrow, &Shape::U32), Ok(Value::U32(5)));
}

#[test]
fn i64_and_floats_are_raw_under_every_policy() {
    assert_eq!(
        deserialize_with(&(-7i64).to_le_bytes(), gamma(), &Shape::I64),
        Ok(Value::I64(-7))
    );
    assert_eq!(
        deserialize_with(&0x4000_0000u32.to_le_bytes(), gamma(), &Shape::F32),
        Ok(Value::F32(2.0f32.to_bits()))
    );
    assert_eq!(
        deserialize_with(&1.0f64.to_bits().to_le_bytes(), gamma(), &Shape::F64),
        Ok(Value::F64(1.0f64.to_bits()))
    );
}

#[test]
fn string_under_gamma() {
    let bytes = Bits::new()
        .gamma(2)
        .raw(b'h' as u64, 8)
        .raw(b'i' as u64, 8)
        .bytes();
    assert_eq!(bytes.len(), 3);
    assert_eq!(
        deserialize_with(&bytes, gamma(), &Shape::Str),
        Ok(Value::Str("hi".to_string()))
    );
}

#[test]
fn char_under_gamma() {
    // The lead byte goes through the policy, the rest is raw.
    let euro = "€".as_bytes();
    let bytes = Bits::new()
        .gamma(euro[0] as u64)
        .raw(euro[1] as u64, 8)
        .raw(euro[2] as u64, 8)
        .bytes();
    assert_eq!(deserialize_with(&bytes, gamma(), &Shape::Char), Ok(Value::Char('€')));
    let bytes = Bits::new().gamma(b'A' as u64).bytes();
    let mut d = BitcodeDeserializer::new(bytes, gamma());
    assert_eq!(d.read_char(), Ok('A'));
    assert_eq!(d.data.position(), (1, 5));
}

#[test]
fn record_under_gamma() {
    let shape = Shape::Tuple(vec![
        Shape::Bool,
        Shape::Sequence(Box::new(Shape::U16)),
        Shape::Enum(vec![Shape::Unit, Shape::I8]),
    ]);
    let bits = Bits::new()
        .raw(1, 1)
        .gamma(3)
        .gamma(0)
        .gamma(1000)
        .gamma(65535)
        .gamma(1)
        .gamma(3);
    let bytes = bits.bytes();
    let expected = Value::Tuple(vec![
        Value::Bool(true),
        Value::Sequence(vec![Value::U16(0), Value::U16(1000), Value::U16(65535)]),
        Value::Variant(1, Box::new(Value::I8(-2))),
    ]);
    assert_eq!(deserialize_with(&bytes, gamma(), &shape), Ok(expected));
    for keep in 0..bytes.len() {
        assert_eq!(deserialize_with(&bytes[..keep], gamma(), &shape), Err(Error::Eof));
    }
    let mut longer = bytes.clone();
    longer.push(0xFF);
    assert_eq!(deserialize_with(&longer, gamma(), &shape), Err(Error::ExpectedEof));
}

#[test]
fn bits_that_are_no_length() {
    // Sixty-five zero bits.
    let bytes = vec![0u8; 9];
    let mut d = BitcodeDeserializer::new(bytes.clone(), gamma());
    assert_eq!(d.read_len(), Err(Error::Invalid(Invalid::Length)));
    let mut d = BitcodeDeserializer::new(bytes.clone(), gamma());
    assert_eq!(d.read_len_and_bytes(), Err(Error::Invalid(Invalid::Length)));
    let mut d = BitcodeDeserializer::new(bytes.clone(), gamma());
    assert_eq!(d.read_variant_index(), Err(Error::Invalid(Invalid::VariantIndex)));
    assert_eq!(
        deserialize_with(&bytes, gamma(), &Shape::Enum(vec![Shape::Unit])),
        Err(Error::Invalid(Invalid::VariantIndex))
    );
    assert_eq!(
        deserialize_with(&bytes, gamma(), &Shape::Str),
        Err(Error::Invalid(Invalid::Length))
    );
    assert_eq!(Invalid::Integer.tag(), "integer");
}

#[test]
fn policy_decodes_on_a_bare_reader() {
    let mut r = BitReader::new(Bits::new().gamma(300).gamma(2).bytes());
    assert_eq!(gamma().decode(&mut r, 16), Ok(300));
    assert_eq!(gamma().decode_word(&mut r), Ok(2));
    assert_eq!(r.finish(), Ok(()));
    let mut r = BitReader::new(vec![0x2A, 0, 0, 0, 0, 0, 0, 0]);
    assert_eq!(NumericEncoding::fixed(true).decode_word(&mut r), Ok(42));
    assert!(gamma().folds_sign());
    assert!(!NumericEncoding::fixed(false).folds_sign());
}
