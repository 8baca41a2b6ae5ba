//! What a caller expects to find in the stream, and what decoding hands back.
//!
//! The stream carries no type tags, so the caller's [`Shape`] alone decides
//! how many bits are read and what they mean. A decoded [`Value`] follows the
//! shape it was decoded against; its mathematical content is its [`Model`].

use vstd::prelude::*;

verus! {

/// The statically known structure of a value.
#[derive(Debug, PartialEq, Eq)]
pub enum Shape {
    /// A value of no bits; a unit-like marker type too.
    Unit,
    Bool,
    I8,
    I16,
    I32,
    I64,
    U8,
    U16,
    U32,
    U64,
    /// A 32-bit float, carried as its raw bit pattern.
    F32,
    /// A 64-bit float, carried as its raw bit pattern.
    F64,
    Char,
    /// A string of UTF-8 text.
    Str,
    /// A run of arbitrary bytes.
    Bytes,
    /// Either nothing or one value of the inner shape.
    Option(Box<Shape>),
    /// A wrapper that adds no framing of its own.
    Newtype(Box<Shape>),
    /// Any number of values of one shape.
    Sequence(Box<Shape>),
    /// A fixed number of values in declared order: a tuple, or the fields
    /// of a struct, whose names are never in the stream.
    Tuple(Vec<Shape>),
    /// Any number of key and value pairs.
    Mapping(Box<Shape>, Box<Shape>),
    /// One of the declared cases, each with the shape of its payload: `Unit`
    /// for a case without one, `Tuple` for a tuple or struct case, any other
    /// shape for a case that holds one value.
    Enum(Vec<Shape>),
    /// A value whose kind only the stream could tell; not decodable.
    Any,
    /// A field or variant name; not decodable.
    Identifier,
    /// A value to be read and thrown away; not decodable.
    IgnoredAny,
}

/// A decoded value.
#[derive(Debug, PartialEq, Eq)]
pub enum Value {
    Unit,
    Bool(bool),
    I8(i8),
    I16(i16),
    I32(i32),
    I64(i64),
    U8(u8),
    U16(u16),
    U32(u32),
    U64(u64),
    /// The raw bit pattern of a 32-bit float.
    F32(u32),
    /// The raw bit pattern of a 64-bit float.
    F64(u64),
    Char(char),
    Str(String),
    Bytes(Vec<u8>),
    Option(Option<Box<Value>>),
    Sequence(Vec<Value>),
    Tuple(Vec<Value>),
    /// The entries as keys and values in turn, so twice as many items as
    /// there are entries.
    Mapping(Vec<Value>),
    /// The index of the case that was found, and its payload.
    Variant(u32, Box<Value>),
}

/// The mathematical content of a [`Value`].
pub ghost enum Model {
    Unit,
    Bool(bool),
    I8(i8),
    I16(i16),
    I32(i32),
    I64(i64),
    U8(u8),
    U16(u16),
    U32(u32),
    U64(u64),
    F32(u32),
    F64(u64),
    Char(char),
    Str(Seq<char>),
    Bytes(Seq<u8>),
    Option(Option<Box<Model>>),
    Sequence(Seq<Model>),
    Tuple(Seq<Model>),
    Mapping(Seq<Model>),
    Variant(u32, Box<Model>),
}

/// The models of a vector of values, item by item.
pub open spec fn models(values: Seq<Value>) -> Seq<Model>
    decreases values,
{
    Seq::new(
        values.len(),
        |i: int|
            if 0 <= i < values.len() {
                values[i].model()
            } else {
                Model::Unit
            },
    )
}

impl Value {
    /// The mathematical content of this value.
    pub open spec fn model(&self) -> Model
        decreases self,
    {
        match self {
            Value::Unit => Model::Unit,
            Value::Bool(v) => Model::Bool(*v),
            Value::I8(v) => Model::I8(*v),
            Value::I16(v) => Model::I16(*v),
            Value::I32(v) => Model::I32(*v),
            Value::I64(v) => Model::I64(*v),
            Value::U8(v) => Model::U8(*v),
            Value::U16(v) => Model::U16(*v),
            Value::U32(v) => Model::U32(*v),
            Value::U64(v) => Model::U64(*v),
            Value::F32(v) => Model::F32(*v),
            Value::F64(v) => Model::F64(*v),
            Value::Char(v) => Model::Char(*v),
            Value::Str(v) => Model::Str(v@),
            Value::Bytes(v) => Model::Bytes(v@),
            Value::Option(None) => Model::Option(None),
            Value::Option(Some(v)) => Model::Option(Some(Box::new(v.model()))),
            Value::Sequence(items) => Model::Sequence(models(items@)),
            Value::Tuple(items) => Model::Tuple(models(items@)),
            Value::Mapping(items) => Model::Mapping(models(items@)),
            Value::Variant(index, v) => Model::Variant(*index, Box::new(v.model())),
        }
    }
}

impl View for Value {
    type V = Model;

    open spec fn view(&self) -> Model {
        self.model()
    }
}

} // verus!
