//! The ways in which a decode can fail.

use vstd::prelude::*;

verus! {

/// Why a value that could be read is nevertheless not acceptable.
#[derive(Clone, Copy, Debug, PartialEq, Eq, Structural)]
pub enum Invalid {
    /// A length field above the ceiling, or bits that are no length word.
    Length,
    /// String bytes that are not well-formed UTF-8.
    Utf8,
    /// Character bytes that are not exactly one well-formed scalar.
    Char,
    /// A variant index that cannot be read or that names no declared case.
    VariantIndex,
    /// Bits that are no number under the numeric encoding policy.
    Integer,
}

/// An operation that a format without type tags cannot express.
#[derive(Clone, Copy, Debug, PartialEq, Eq, Structural)]
pub enum Unsupported {
    /// Decoding a value whose kind the stream would have to announce.
    Any,
    /// Decoding a field or variant name.
    Identifier,
    /// Decoding a value only to discard it.
    IgnoredAny,
}

/// A failed decode. Every kind is terminal for the call that produced it.
#[derive(Clone, Copy, Debug, PartialEq, Eq, Structural)]
pub enum Error {
    /// A read asked for more bits than the buffer holds.
    Eof,
    /// The value was decoded but whole bytes of the buffer were left unread.
    ExpectedEof,
    /// A value was read but breaks a constraint of the format.
    Invalid(Invalid),
    /// The caller asked for something the format cannot express.
    NotSupported(Unsupported),
}

impl Invalid {
    /// The short tag under which this reason is reported.
    pub fn tag(&self) -> (s: &'static str)
        ensures
            s@ == self.tag_spec()@,
    {
        match self {
            Invalid::Length => "length",
            Invalid::Utf8 => "utf8",
            Invalid::Char => "char",
            Invalid::VariantIndex => "variant index",
            Invalid::Integer => "integer",
        }
    }

    /// The tag as a spec-level string.
    pub open spec fn tag_spec(&self) -> &'static str {
        match self {
            Invalid::Length => "length",
            Invalid::Utf8 => "utf8",
            Invalid::Char => "char",
            Invalid::VariantIndex => "variant index",
            Invalid::Integer => "integer",
        }
    }
}

impl Unsupported {
    /// The name of the operation that was asked for.
    pub fn tag(&self) -> (s: &'static str)
        ensures
            s@ == self.tag_spec()@,
    {
        match self {
            Unsupported::Any => "deserialize_any",
            Unsupported::Identifier => "deserialize_identifier",
            Unsupported::IgnoredAny => "deserialize_ignored_any",
        }
    }

    /// The name as a spec-level string.
    pub open spec fn tag_spec(&self) -> &'static str {
        match self {
            Unsupported::Any => "deserialize_any",
            Unsupported::Identifier => "deserialize_identifier",
            Unsupported::IgnoredAny => "deserialize_ignored_any",
        }
    }
}

impl Error {
    /// Whether this is the out-of-data error.
    pub fn is_eof(&self) -> (b: bool)
        ensures
            b == (*self == Error::Eof),
    {
        match self {
            Error::Eof => true,
            _ => false,
        }
    }

    /// Whether two errors are of the same kind with the same tag.
    pub fn same(&self, other: &Error) -> (b: bool)
        ensures
            b == (*self == *other),
    {
        *self == *other
    }
}

} // verus!
