use bitcode_de::de::{
    deserialize_from, deserialize_with, resolve, select_variant, Access, BitcodeDeserializer,
};
use bitcode_de::error::{Error, Invalid, Unsupported};
use bitcode_de::int_code::NumericEncoding;
use bitcode_de::read::BitReader;
use bitcode_de::shape::{Shape, Value};

fn fixed() -> NumericEncoding {
    NumericEncoding::fixed(true)
}

fn word(n: u64) -> Vec<u8> {
    n.to_le_bytes().to_vec()
}

fn boxed(shape: Shape) -> Box<Shape> {
    Box::new(shape)
}

#[test]
fn sequence_is_length_then_items() {
    let mut bytes = word(3);
    bytes.extend_from_slice(&[1, 2, 3]);
    assert_eq!(
        deserialize_with(&bytes, fixed(), &Shape::Sequence(boxed(Shape::U8))),
        Ok(Value::Sequence(vec![Value::U8(1), Value::U8(2), Value::U8(3)]))
    );
}

#[test]
fn empty_sequence_is_a_length_alone() {
    assert_eq!(
        deserialize_with(&word(0), fixed(), &Shape::Sequence(boxed(Shape::U64))),
        Ok(Value::Sequence(vec![]))
    );
}

#[test]
fn sequence_of_units_reads_only_the_length() {
    assert_eq!(
        deserialize_with(&word(4), fixed(), &Shape::Sequence(boxed(Shape::Unit))),
        Ok(Value::Sequence(vec![Value::Unit, Value::Unit, Value::Unit, Value::Unit]))
    );
}

#[test]
fn sequence_longer_than_the_buffer_is_out_of_data() {
    let mut bytes = word(3);
    bytes.extend_from_slice(&[1, 2]);
    assert_eq!(
        deserialize_with(&bytes, fixed(), &Shape::Sequence(boxed(Shape::U8))),
        Err(Error::Eof)
    );
}

#[test]
fn tuple_has_no_length() {
    let shape = Shape::Tuple(vec![Shape::U8, Shape::U16, Shape::U8]);
    assert_eq!(
        deserialize_with(&[7, 0x34, 0x12, 9], fixed(), &shape),
        Ok(Value::Tuple(vec![Value::U8(7), Value::U16(0x1234), Value::U8(9)]))
    );
}

#[test]
fn empty_tuple_reads_nothing() {
    assert_eq!(
        deserialize_with(&[], fixed(), &Shape::Tuple(vec![])),
        Ok(Value::Tuple(vec![]))
    );
    assert_eq!(
        deserialize_with(&[0], fixed(), &Shape::Tuple(vec![])),
        Err(Error::ExpectedEof)
    );
}

#[test]
fn fields_come_in_declared_order() {
    let a = Shape::Tuple(vec![Shape::U8, Shape::I8]);
    let b = Shape::Tuple(vec![Shape::I8, Shape::U8]);
    assert_eq!(
        deserialize_with(&[0xFF, 0x01], fixed(), &a),
        Ok(Value::Tuple(vec![Value::U8(255), Value::I8(1)]))
    );
    assert_eq!(
        deserialize_with(&[0xFF, 0x01], fixed(), &b),
        Ok(Value::Tuple(vec![Value::I8(-1), Value::U8(1)]))
    );
}

#[test]
fn map_is_length_then_keys_and_values_in_turn() {
    let mut bytes = word(2);
    bytes.extend_from_slice(&[1, 0, 2, 1]);
    let shape = Shape::Mapping(boxed(Shape::U8), boxed(Shape::Bool));
    // Key 1, value false, key 2 ... the booleans are single bits, so lay the
    // stream out bit by bit instead.
    let mut v: u128 = 2; // the length word
    let mut at = 64;
    v |= 1u128 << at; // key 1
    at += 8;
    at += 1; // value false
    v |= 2u128 << at; // key 2
    at += 8;
    v |= 1u128 << at; // value true
    at += 1;
    let len = (at + 7) / 8;
    let stream = &v.to_le_bytes()[..len];
    assert_eq!(
        deserialize_with(stream, fixed(), &shape),
        Ok(Value::Mapping(vec![
            Value::U8(1),
            Value::Bool(false),
            Value::U8(2),
            Value::Bool(true)
        ]))
    );
    // Read as bytes for bytes, the first buffer is a map from u8 to u8.
    let shape = Shape::Mapping(boxed(Shape::U8), boxed(Shape::U8));
    assert_eq!(
        deserialize_with(&bytes, fixed(), &shape),
        Ok(Value::Mapping(vec![Value::U8(1), Value::U8(0), Value::U8(2), Value::U8(1)]))
    );
}

#[test]
fn map_cut_after_a_key_is_out_of_data() {
    let mut bytes = word(2);
    bytes.extend_from_slice(&[1, 0, 2]);
    let shape = Shape::Mapping(boxed(Shape::U8), boxed(Shape::U8));
    assert_eq!(deserialize_with(&bytes, fixed(), &shape), Err(Error::Eof));
}

#[test]
fn newtype_adds_no_framing() {
    let shape = Shape::Newtype(boxed(Shape::Newtype(boxed(Shape::U16))));
    assert_eq!(deserialize_with(&[0x34, 0x12], fixed(), &shape), Ok(Value::U16(0x1234)));
}

fn cases() -> Vec<Shape> {
    vec![
        Shape::Unit,
        Shape::U8,
        Shape::Tuple(vec![Shape::U8, Shape::U8]),
    ]
}

#[test]
fn index_zero_is_the_first_declared_case() {
    assert_eq!(
        deserialize_with(&word(0), fixed(), &Shape::Enum(cases())),
        Ok(Value::Variant(0, Box::new(Value::Unit)))
    );
}

#[test]
fn case_with_one_value() {
    let mut bytes = word(1);
    bytes.push(42);
    assert_eq!(
        deserialize_with(&bytes, fixed(), &Shape::Enum(cases())),
        Ok(Value::Variant(1, Box::new(Value::U8(42))))
    );
}

#[test]
fn case_with_several_values() {
    let mut bytes = word(2);
    bytes.extend_from_slice(&[4, 5]);
    assert_eq!(
        deserialize_with(&bytes, fixed(), &Shape::Enum(cases())),
        Ok(Value::Variant(2, Box::new(Value::Tuple(vec![Value::U8(4), Value::U8(5)]))))
    );
}

#[test]
fn index_past_the_cases_is_invalid() {
    assert_eq!(
        deserialize_with(&word(3), fixed(), &Shape::Enum(cases())),
        Err(Error::Invalid(Invalid::VariantIndex))
    );
    assert_eq!(
        deserialize_with(&word(u32::MAX as u64), fixed(), &Shape::Enum(cases())),
        Err(Error::Invalid(Invalid::VariantIndex))
    );
    assert_eq!(
        deserialize_with(&word(0), fixed(), &Shape::Enum(vec![])),
        Err(Error::Invalid(Invalid::VariantIndex))
    );
}

#[test]
fn select_variant_maps_an_index_to_its_case() {
    let cases = cases();
    assert_eq!(select_variant(&cases, 0), Ok(&Shape::Unit));
    assert_eq!(select_variant(&cases, 1), Ok(&Shape::U8));
    assert_eq!(select_variant(&cases, 2), Ok(&cases[2]));
    assert_eq!(select_variant(&cases, 3), Err(Error::Invalid(Invalid::VariantIndex)));
}

#[test]
fn variant_index_past_32_bits_is_invalid() {
    let mut d = BitcodeDeserializer::new(word(0x0000_0001_0000_0002), fixed());
    assert_eq!(d.read_variant_index(), Err(Error::Invalid(Invalid::VariantIndex)));
    // The word was read, and nothing after it.
    assert_eq!(d.data.position(), (8, 0));
    let mut d = BitcodeDeserializer::new(word(u32::MAX as u64), fixed());
    assert_eq!(d.read_variant_index(), Ok(u32::MAX));
    let mut d = BitcodeDeserializer::new(word(u32::MAX as u64 + 1), fixed());
    assert_eq!(d.read_variant_index(), Err(Error::Invalid(Invalid::VariantIndex)));
}

#[test]
fn word_whose_low_bits_name_a_case_selects_none() {
    // Two to the 32nd is no index, though its low 32 bits are zero.
    let bytes = [0u8, 0, 0, 0, 1, 0, 0, 0];
    assert_eq!(
        deserialize_with(&bytes, fixed(), &Shape::Enum(vec![Shape::Unit])),
        Err(Error::Invalid(Invalid::VariantIndex))
    );
    assert_eq!(
        deserialize_with(&word((1u64 << 32) + 1), fixed(), &Shape::Enum(cases())),
        Err(Error::Invalid(Invalid::VariantIndex))
    );
    // No payload is read after an index that names no case.
    let mut bytes = word(3);
    bytes.push(42);
    let mut d = BitcodeDeserializer::new(bytes, fixed());
    assert_eq!(d.deserialize_enum(&cases()), Err(Error::Invalid(Invalid::VariantIndex)));
    assert_eq!(d.data.position(), (8, 0));
}

#[test]
fn sequence_length_above_the_ceiling_is_refused() {
    let ceiling = isize::MAX as u64 / 255;
    let shape = Shape::Sequence(boxed(Shape::Unit));
    assert_eq!(
        deserialize_with(&word(ceiling + 1), fixed(), &shape),
        Err(Error::Invalid(Invalid::Length))
    );
    assert_eq!(
        deserialize_with(&word(u64::MAX), fixed(), &Shape::Sequence(boxed(Shape::U8))),
        Err(Error::Invalid(Invalid::Length))
    );
    // No item is read after a length that is refused.
    let mut bytes = word(ceiling + 1);
    bytes.extend_from_slice(&[1, 2, 3]);
    let mut d = BitcodeDeserializer::new(bytes, fixed());
    assert_eq!(d.deserialize_seq(&Shape::U8), Err(Error::Invalid(Invalid::Length)));
    assert_eq!(d.data.position(), (8, 0));
}

#[test]
fn map_length_above_the_ceiling_is_refused() {
    let ceiling = isize::MAX as u64 / 255;
    let shape = Shape::Mapping(boxed(Shape::Unit), boxed(Shape::Unit));
    assert_eq!(
        deserialize_with(&word(ceiling + 1), fixed(), &shape),
        Err(Error::Invalid(Invalid::Length))
    );
    let mut bytes = word(ceiling + 1);
    bytes.extend_from_slice(&[1, 2]);
    let mut d = BitcodeDeserializer::new(bytes, fixed());
    assert_eq!(
        d.deserialize_map(&Shape::U8, &Shape::U8),
        Err(Error::Invalid(Invalid::Length))
    );
    assert_eq!(d.data.position(), (8, 0));
}

#[test]
fn bounded_length() {
    let ceiling = isize::MAX as u64 / 255;
    let mut d = BitcodeDeserializer::new(word(ceiling), fixed());
    assert_eq!(d.read_bounded_len(), Ok(ceiling as usize));
    let mut d = BitcodeDeserializer::new(word(ceiling + 1), fixed());
    assert_eq!(d.read_bounded_len(), Err(Error::Invalid(Invalid::Length)));
    assert_eq!(d.data.position(), (8, 0));
    // The bare length word is not held to the ceiling.
    let mut d = BitcodeDeserializer::new(word(ceiling + 1), fixed());
    assert_eq!(d.read_len(), Ok(ceiling as usize + 1));
    let mut d = BitcodeDeserializer::new(vec![0; 7], fixed());
    assert_eq!(d.read_bounded_len(), Err(Error::Eof));
}

#[test]
fn variant_index_out_of_data() {
    let mut d = BitcodeDeserializer::new(vec![0; 7], fixed());
    assert_eq!(d.read_variant_index(), Err(Error::Eof));
    assert_eq!(d.data.finish(), Err(Error::Eof));
}

#[test]
fn nested_shapes() {
    // A sequence of two optional pairs: absent, then present (3, true).
    let shape = Shape::Sequence(boxed(Shape::Option(boxed(Shape::Tuple(vec![
        Shape::U8,
        Shape::Bool,
    ])))));
    let mut v: u128 = 2;
    let mut at = 64;
    at += 1; // absent
    v |= 1u128 << at; // present
    at += 1;
    v |= 3u128 << at;
    at += 8;
    v |= 1u128 << at;
    at += 1;
    let stream = &v.to_le_bytes()[..(at + 7) / 8];
    assert_eq!(
        deserialize_with(stream, fixed(), &shape),
        Ok(Value::Sequence(vec![
            Value::Option(None),
            Value::Option(Some(Box::new(Value::Tuple(vec![Value::U8(3), Value::Bool(true)])))),
        ]))
    );
}

#[test]
fn unsupported_inside_a_value() {
    let shape = Shape::Tuple(vec![Shape::U8, Shape::Any]);
    assert_eq!(
        deserialize_with(&[1], fixed(), &shape),
        Err(Error::NotSupported(Unsupported::Any))
    );
}

#[test]
fn every_cut_of_a_valid_buffer_is_out_of_data() {
    let shape = Shape::Tuple(vec![
        Shape::Bool,
        Shape::Str,
        Shape::Sequence(boxed(Shape::Option(boxed(Shape::Char)))),
        Shape::Enum(cases()),
        Shape::I64,
    ]);
    // Build the stream bit by bit.
    let mut bits: Vec<bool> = Vec::new();
    let push = |bits: &mut Vec<bool>, v: u64, n: usize| {
        for i in 0..n {
            bits.push((v >> i) & 1 == 1);
        }
    };
    push(&mut bits, 1, 1);
    push(&mut bits, 2, 64);
    push(&mut bits, b'o' as u64, 8);
    push(&mut bits, b'k' as u64, 8);
    push(&mut bits, 2, 64);
    push(&mut bits, 1, 1);
    for b in "€".as_bytes() {
        push(&mut bits, *b as u64, 8);
    }
    push(&mut bits, 0, 1);
    push(&mut bits, 1, 64);
    push(&mut bits, 200, 8);
    push(&mut bits, (-5i64) as u64, 64);
    let mut bytes = vec![0u8; (bits.len() + 7) / 8];
    for (i, b) in bits.iter().enumerate() {
        if *b {
            bytes[i / 8] |= 1 << (i % 8);
        }
    }
    let expected = Value::Tuple(vec![
        Value::Bool(true),
        Value::Str("ok".to_string()),
        Value::Sequence(vec![
            Value::Option(Some(Box::new(Value::Char('€')))),
            Value::Option(None),
        ]),
        Value::Variant(1, Box::new(Value::U8(200))),
        Value::I64(-5),
    ]);
    assert_eq!(deserialize_with(&bytes, fixed(), &shape), Ok(expected));
    for keep in 0..bytes.len() {
        assert_eq!(deserialize_with(&bytes[..keep], fixed(), &shape), Err(Error::Eof));
    }
    let mut longer = bytes.clone();
    longer.push(0);
    assert_eq!(deserialize_with(&longer, fixed(), &shape), Err(Error::ExpectedEof));
}

#[test]
fn access_counts_down_and_then_reads_nothing() {
    let mut d = BitcodeDeserializer::new(vec![5, 6, 7], fixed());
    let mut access = Access::new(2);
    assert_eq!(access.size_hint(), Some(2));
    assert_eq!(access.next_element(&mut d, &Shape::U8), Ok(Some(Value::U8(5))));
    assert_eq!(access.size_hint(), Some(1));
    assert_eq!(access.next_element(&mut d, &Shape::U8), Ok(Some(Value::U8(6))));
    assert_eq!(access.size_hint(), Some(0));
    assert_eq!(access.next_element(&mut d, &Shape::U8), Ok(None));
    assert_eq!(access.next_element(&mut d, &Shape::U8), Ok(None));
    assert_eq!(d.data.position(), (2, 0));
}

#[test]
fn access_counts_an_entry_with_its_key() {
    let mut d = BitcodeDeserializer::new(vec![1, 2], fixed());
    let mut access = Access::new(1);
    assert_eq!(access.next_key(&mut d, &Shape::U8), Ok(Some(Value::U8(1))));
    assert_eq!(access.size_hint(), Some(0));
    assert_eq!(access.next_value(&mut d, &Shape::U8), Ok(Value::U8(2)));
    assert_eq!(access.size_hint(), Some(0));
    assert_eq!(access.next_key(&mut d, &Shape::U8), Ok(None));
}

#[test]
fn access_advance() {
    let mut access = Access::new(1);
    assert!(access.advance());
    assert!(!access.advance());
    assert_eq!(access.size_hint(), Some(0));
}

#[test]
fn access_counts_an_element_that_fails() {
    let mut d = BitcodeDeserializer::new(vec![], fixed());
    let mut access = Access::new(3);
    assert_eq!(access.next_element(&mut d, &Shape::U8), Err(Error::Eof));
    assert_eq!(access.size_hint(), Some(2));
}

#[test]
fn out_of_data_at_closing_comes_first() {
    let eof: Result<(), Error> = Err(Error::Eof);
    let trailing: Result<(), Error> = Err(Error::ExpectedEof);
    let invalid: Result<u8, Error> = Err(Error::Invalid(Invalid::Char));
    assert_eq!(resolve(Ok(1u8), eof), Err(Error::Eof));
    assert_eq!(resolve(invalid, eof), Err(Error::Eof));
    assert_eq!(resolve(invalid, trailing), Err(Error::Invalid(Invalid::Char)));
    assert_eq!(resolve(invalid, Ok(())), Err(Error::Invalid(Invalid::Char)));
    assert_eq!(resolve(Ok(1u8), trailing), Err(Error::ExpectedEof));
    assert_eq!(resolve(Ok(1u8), Ok(())), Ok(1));
    let unsupported: Result<u8, Error> = Err(Error::NotSupported(Unsupported::Any));
    assert_eq!(resolve(unsupported, trailing), Err(Error::NotSupported(Unsupported::Any)));
}

#[test]
fn decoding_from_a_cursor_that_has_moved() {
    let mut r = BitReader::new(vec![9, 0x34, 0x12]);
    assert_eq!(r.read_bits(8), Ok(9));
    assert_eq!(deserialize_from(r, fixed(), &Shape::U16), Ok(Value::U16(0x1234)));
}

#[test]
fn decoding_from_a_cursor_that_ran_out() {
    let mut r = BitReader::new(vec![9]);
    assert_eq!(r.read_bits(16), Err(Error::Eof));
    // The failed read took nothing, but the buffer is known to be short.
    assert_eq!(r.position(), (0, 0));
    assert_eq!(deserialize_from(r, fixed(), &Shape::U8), Err(Error::Eof));
}

#[test]
fn narrow_streams_hold_the_same_integers_under_the_fixed_code() {
    let narrow = NumericEncoding::fixed(false);
    assert_eq!(
        deserialize_with(&[0xFE, 0xFF, 0xFF, 0xFF], narrow, &Shape::I32),
        Ok(Value::I32(-2))
    );
    assert_eq!(deserialize_with(&word(77), narrow, &Shape::U64), Ok(Value::U64(77)));
}
