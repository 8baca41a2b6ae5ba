//! The numeric encoding policy: how many physical bits a logical integer, a
//! length or a variant index occupies in the stream.
//!
//! The policy is fixed for a whole decode and must be the one the stream was
//! written with; a stream read under another policy decodes to other values.

use crate::error::{Error, Invalid};
use crate::read::{bit_at, fits, lemma_word_bound, word_at, BitReader};
use vstd::arithmetic::power2::{
    lemma2_to64, lemma2_to64_rest, lemma_pow2_strictly_increases, lemma_pow2_unfold, pow2,
};
use vstd::prelude::*;

verus! {

/// How an unsigned number of a given logical width is laid out.
#[derive(Clone, Copy, Debug, PartialEq, Eq, Structural)]
pub enum Code {
    /// Exactly as many bits as the logical width, lowest bit first.
    Fixed,
    /// Elias gamma code of the number plus one: as many zero bits as the
    /// number plus one has bits below its highest set bit, a one bit, and
    /// then those lower bits, lowest first. Small numbers take few bits; the
    /// largest number of a width takes twice the width and one.
    Gamma,
}

/// The policy of one decode call.
#[derive(Clone, Copy, Debug, PartialEq, Eq, Structural)]
pub struct NumericEncoding {
    /// The layout of every number that goes through the policy.
    pub code: Code,
    /// Whether the stream was written for a wide native word. Only then do
    /// 32-bit signed and 64-bit unsigned integers go through the policy;
    /// otherwise they are raw fixed-width bits.
    pub wide: bool,
}

/// The logical width of a length word.
pub const WORD_BITS: usize = 64;

/// The number of zero bits from `pos` on, counting no more than `max` and
/// none past the end of the buffer.
pub open spec fn zeros_at(data: Seq<u8>, pos: int, max: nat) -> nat
    decreases max,
{
    if max == 0 || !fits(data, pos, 1) || bit_at(data, pos) {
        0
    } else {
        1 + zeros_at(data, pos + 1, (max - 1) as nat)
    }
}

/// The gamma-coded number of `width` bits at `pos`. More zero bits than the
/// width, or a number that the width cannot hold, are no number.
pub open spec fn gamma_spec(data: Seq<u8>, pos: int, width: nat) -> Result<(u64, int), Error> {
    let zeros = zeros_at(data, pos, width + 1);
    if zeros > width {
        Err(Error::Invalid(Invalid::Integer))
    } else if !fits(data, pos + zeros, 1 + (zeros as int)) {
        Err(Error::Eof)
    } else {
        let low = word_at(data, pos + zeros + 1, zeros);
        if zeros == width && low != 0 {
            Err(Error::Invalid(Invalid::Integer))
        } else {
            Ok(((pow2(zeros) - 1 + low) as u64, pos + 2 * zeros + 1))
        }
    }
}

/// The number of `width` bits that `code` finds at `pos`, with the position
/// after it, or the error that it fails with.
pub open spec fn decode_spec(code: Code, data: Seq<u8>, pos: int, width: nat) -> Result<
    (u64, int),
    Error,
> {
    match code {
        Code::Fixed => if fits(data, pos, width as int) {
            Ok((word_at(data, pos, width) as u64, pos + width))
        } else {
            Err(Error::Eof)
        },
        Code::Gamma => gamma_spec(data, pos, width),
    }
}

/// Whether signed numbers that go through the policy are folded, so that
/// numbers near zero of either sign are small: 0, -1, 1, -2, ... stand as
/// 0, 1, 2, 3, ... Otherwise they are in two's complement.
pub open spec fn folds_sign(code: Code) -> bool {
    code == Code::Gamma
}

/// The length word that `code` finds at `pos`, with the position after it.
/// Bits that are no number, or a number that does not fit the machine's
/// sizes, are an invalid length.
pub open spec fn decode_word_spec(code: Code, data: Seq<u8>, pos: int) -> Result<
    (usize, int),
    Error,
> {
    match decode_spec(code, data, pos, WORD_BITS as nat) {
        Ok((v, end)) => if v <= usize::MAX {
            Ok((v as usize, end))
        } else {
            Err(Error::Invalid(Invalid::Length))
        },
        Err(Error::Invalid(_)) => Err(Error::Invalid(Invalid::Length)),
        Err(e) => Err(e),
    }
}

/// A decoded number is below two to the logical width, and decoding only
/// moves forward within the buffer.
pub proof fn lemma_decode_bounds(code: Code, data: Seq<u8>, pos: int, width: nat)
    requires
        width <= 64,
    ensures
        decode_spec(code, data, pos, width) matches Ok((v, end)) ==> v < pow2(width) && pos <= end
            <= 8 * data.len(),
{
    lemma2_to64();
    lemma2_to64_rest();
    lemma_pow2_strictly_increases(width, 65);
    match code {
        Code::Fixed => {
            lemma_word_bound(data, pos, width);
        },
        Code::Gamma => {
            let zeros = zeros_at(data, pos, width + 1);
            if zeros <= width {
                lemma_word_bound(data, pos + zeros + 1, zeros);
                lemma_pow2_unfold(zeros + 1);
                if zeros + 1 < width {
                    lemma_pow2_strictly_increases(zeros + 1, width);
                }
            }
        },
    }
}

/// Decodes a gamma-coded number of logical width `width`.
fn decode_gamma(reader: &mut BitReader, width: usize) -> (r: Result<u64, Error>)
    requires
        width <= 64,
    ensures
        old(reader).reads(
            *final(reader),
            r,
            gamma_spec(old(reader).data(), old(reader).pos(), width as nat),
        ),
{
    let ghost data = reader.data();
    let ghost start = reader.pos();
    let ghost total = zeros_at(data, start, (width + 1) as nat);
    let mut zeros: usize = 0;
    let mut weight: u64 = 1;
    proof {
        lemma2_to64();
    }
    loop
        invariant_except_break
            reader.pos() == start + zeros,
            total == zeros + zeros_at(data, start + zeros, (width + 1 - zeros) as nat),
        invariant
            width <= 64,
            data == old(reader).data(),
            start == old(reader).pos(),
            total == zeros_at(data, start, (width + 1) as nat),
            reader.data() == data,
            reader.overrun() == old(reader).overrun(),
            zeros <= width,
            zeros < 64 ==> weight == pow2(zeros as nat),
        ensures
            reader.pos() == start + zeros + 1,
            total == zeros,
            fits(data, start + zeros, 1),
        decreases width - zeros,
    {
        match reader.read_bit() {
            Err(e) => {
                return Err(e);
            },
            Ok(true) => {
                break ;
            },
            Ok(false) => {
                if zeros == width {
                    assert(zeros_at(data, start + zeros + 1, 0) == 0);
                    return Err(Error::Invalid(Invalid::Integer));
                }
                proof {
                    lemma_pow2_unfold((zeros + 1) as nat);
                    lemma_pow2_strictly_increases((zeros + 1) as nat, 65);
                    if zeros + 1 < 64 {
                        lemma_pow2_strictly_increases((zeros + 1) as nat, 64);
                    }
                    lemma2_to64();
                    lemma2_to64_rest();
                }
                zeros = zeros + 1;
                if zeros < 64 {
                    weight = weight * 2;
                }
            },
        }
    }
    let low = match reader.read_bits(zeros) {
        Ok(low) => low,
        Err(e) => {
            return Err(e);
        },
    };
    proof {
        lemma_word_bound(data, start + zeros + 1, zeros as nat);
        lemma_pow2_unfold((zeros + 1) as nat);
        lemma_pow2_strictly_increases(zeros as nat, 65);
        if zeros < 64 {
            lemma_pow2_strictly_increases((zeros + 1) as nat, 65);
        }
        lemma2_to64();
        lemma2_to64_rest();
    }
    if zeros == width && low != 0 {
        return Err(Error::Invalid(Invalid::Integer));
    }
    if zeros == 64 {
        Ok(u64::MAX)
    } else {
        Ok(weight - 1 + low)
    }
}

impl NumericEncoding {
    /// The policy that lays every number out at its full width.
    pub fn fixed(wide: bool) -> (r: NumericEncoding)
        ensures
            r == (NumericEncoding { code: Code::Fixed, wide }),
    {
        NumericEncoding { code: Code::Fixed, wide }
    }

    /// The policy that lays every number out in Elias gamma code.
    pub fn gamma(wide: bool) -> (r: NumericEncoding)
        ensures
            r == (NumericEncoding { code: Code::Gamma, wide }),
    {
        NumericEncoding { code: Code::Gamma, wide }
    }

    /// Whether signed numbers that go through the policy are folded; see
    /// [`folds_sign`].
    pub fn folds_sign(&self) -> (r: bool)
        ensures
            r == folds_sign(self.code),
    {
        match self.code {
            Code::Fixed => false,
            Code::Gamma => true,
        }
    }

    /// Decodes an unsigned number of logical width `width`.
    pub fn decode(&self, reader: &mut BitReader, width: usize) -> (r: Result<u64, Error>)
        requires
            width <= 64,
        ensures
            old(reader).reads(
                *final(reader),
                r,
                decode_spec(self.code, old(reader).data(), old(reader).pos(), width as nat),
            ),
    {
        proof {
            lemma_word_bound(reader.data(), reader.pos(), width as nat);
            lemma2_to64();
            lemma2_to64_rest();
            lemma_pow2_strictly_increases(width as nat, 65);
        }
        match self.code {
            Code::Fixed => reader.read_bits(width),
            Code::Gamma => decode_gamma(reader, width),
        }
    }

    /// Decodes a length word: a size, a count or a variant index.
    pub fn decode_word(&self, reader: &mut BitReader) -> (r: Result<usize, Error>)
        ensures
            old(reader).reads(
                *final(reader),
                r,
                decode_word_spec(self.code, old(reader).data(), old(reader).pos()),
            ),
    {
        match self.decode(reader, WORD_BITS) {
            Ok(v) => {
                if v <= usize::MAX as u64 {
                    Ok(v as usize)
                } else {
                    Err(Error::Invalid(Invalid::Length))
                }
            },
            Err(Error::Invalid(_)) => Err(Error::Invalid(Invalid::Length)),
            Err(e) => Err(e),
        }
    }
}

} // verus!
