//! Decode half of a compact, bit-packed binary format.
//!
//! A value is rebuilt bit by bit from a byte buffer, driven by the shape that
//! the caller expects; the stream itself carries no type tags, field names or
//! headers. Decoding reads exactly the bits that the shape asks for, and a
//! decode call succeeds only if the value ends where the buffer ends.
//!
//! - [`read`]: the bit cursor over a byte buffer.
//! - [`int_code`]: the numeric encoding policy for integers, lengths and
//!   variant indices.
//! - [`shape`]: shapes, decoded values and their mathematical models.
//! - [`wire`]: the wire layout of every shape, as specifications.
//! - [`de`]: the decoder itself and the decode calls.
//! - [`laws`]: what holds of decoding for every shape and buffer.
//! - [`utf8`], [`error`]: lead byte widths and the UTF-8 check; the errors.

pub mod de;
pub mod error;
pub mod int_code;
pub mod laws;
pub mod read;
pub mod shape;
pub mod utf8;
pub mod wire;
