//! A cursor over a byte buffer that is addressed bit by bit.
//!
//! The stream is the buffer's bytes in order, and within each byte the least
//! significant bit comes first. A word of `n` bits is read lowest bit first,
//! so a run of whole bytes read as one word is little-endian.

use crate::error::Error;
use vstd::arithmetic::power2::{lemma2_to64, lemma_pow2_unfold, pow2};
use vstd::prelude::*;

verus! {

/// The number of bits in a buffer.
pub open spec fn bit_len(data: Seq<u8>) -> int {
    8 * (data.len() as int)
}

/// The bit at stream position `i`.
pub open spec fn bit_at(data: Seq<u8>, i: int) -> bool {
    (data[i / 8] >> ((i % 8) as u8)) & 1u8 == 1u8
}

/// Whether `n` more bits can be read at position `pos`.
pub open spec fn fits(data: Seq<u8>, pos: int, n: int) -> bool {
    pos + n <= bit_len(data)
}

/// The `n` bits from position `pos` on, as a number whose lowest bit comes
/// first in the stream.
pub open spec fn word_at(data: Seq<u8>, pos: int, n: nat) -> nat
    decreases n,
{
    if n == 0 {
        0
    } else {
        word_at(data, pos, (n - 1) as nat) + if bit_at(data, pos + n - 1) {
            pow2((n - 1) as nat)
        } else {
            0
        }
    }
}

/// The `len` bytes that start at bit position `pos`, which need not be a
/// multiple of eight.
pub open spec fn bytes_at(data: Seq<u8>, pos: int, len: nat) -> Seq<u8> {
    Seq::new(len, |j: int| word_at(data, pos + 8 * j, 8) as u8)
}

/// What the closing check reports for a cursor at `pos` that did or did not
/// run out of data: out-of-data first, then whole unread bytes as trailing
/// data. Unread bits of a byte that was partly read are padding.
pub open spec fn finish_spec(data: Seq<u8>, pos: int, overrun: bool) -> Result<(), Error> {
    if overrun {
        Err(Error::Eof)
    } else if (pos + 7) / 8 < data.len() {
        Err(Error::ExpectedEof)
    } else {
        Ok(())
    }
}

/// A word of `n` bits is below `2^n`.
pub proof fn lemma_word_bound(data: Seq<u8>, pos: int, n: nat)
    ensures
        word_at(data, pos, n) < pow2(n),
    decreases n,
{
    if n == 0 {
        lemma2_to64();
    } else {
        lemma_word_bound(data, pos, (n - 1) as nat);
        lemma_pow2_unfold(n);
    }
}

/// A word depends only on the bits it covers: two buffers that agree on the
/// bytes below `k` hold the same word wherever it ends within them.
pub proof fn lemma_word_agrees(a: Seq<u8>, b: Seq<u8>, k: int, pos: int, n: nat)
    requires
        0 <= pos,
        pos + n <= 8 * k,
        k <= a.len(),
        k <= b.len(),
        forall|i: int| 0 <= i < k ==> a[i] == b[i],
    ensures
        word_at(a, pos, n) == word_at(b, pos, n),
    decreases n,
{
    if n > 0 {
        lemma_word_agrees(a, b, k, pos, (n - 1) as nat);
        let i = pos + n - 1;
        assert(0 <= i / 8 < k);
    }
}

/// A word of `n + m` bits is its low `n` bits and, above them, the `m` bits
/// that follow.
pub proof fn lemma_word_split(data: Seq<u8>, pos: int, n: nat, m: nat)
    ensures
        word_at(data, pos, n + m) == word_at(data, pos, n) + pow2(n) * word_at(data, pos + n, m),
    decreases m,
{
    if m == 0 {
        assert(pow2(n) * 0 == 0);
    } else {
        let k = (m - 1) as nat;
        lemma_word_split(data, pos, n, k);
        vstd::arithmetic::power2::lemma_pow2_adds(n, k);
        let top: nat = if bit_at(data, pos + n + k) {
            1
        } else {
            0
        };
        assert(word_at(data, pos, n + m) == word_at(data, pos, n + k) + top * pow2(n + k)) by {
            assert((n + m - 1) as nat == n + k);
        }
        assert(word_at(data, pos + n, m) == word_at(data, pos + n, k) + top * pow2(k));
        assert(pow2(n) * (word_at(data, pos + n, k) + top * pow2(k)) == pow2(n) * word_at(
            data,
            pos + n,
            k,
        ) + top * (pow2(n) * pow2(k))) by (nonlinear_arith);
    }
}

/// The `k` bytes that a block of `8 * k` bits holds, lowest byte first.
pub open spec fn le_bytes(block: nat, k: nat) -> Seq<u8>
    decreases k,
{
    if k == 0 {
        Seq::empty()
    } else {
        seq![(block % 256) as u8] + le_bytes(block / 256, (k - 1) as nat)
    }
}

/// Bytes read as one block and split lowest byte first are the bytes read
/// one by one.
pub proof fn lemma_block_bytes(data: Seq<u8>, pos: int, k: nat)
    ensures
        le_bytes(word_at(data, pos, 8 * k), k) == bytes_at(data, pos, k),
    decreases k,
{
    if k == 0 {
        assert(bytes_at(data, pos, 0) =~= Seq::<u8>::empty());
    } else {
        let rest = (k - 1) as nat;
        lemma_word_split(data, pos, 8, 8 * rest);
        lemma_word_bound(data, pos, 8);
        lemma2_to64();
        lemma_block_bytes(data, pos + 8, rest);
        let low = word_at(data, pos, 8);
        let high = word_at(data, pos + 8, 8 * rest);
        let block = word_at(data, pos, 8 * k);
        assert(8 + 8 * rest == 8 * k);
        assert(block == low + 256 * high);
        assert(block % 256 == low && block / 256 == high) by (nonlinear_arith)
            requires
                block == low + 256 * high,
                low < 256,
        ;
        assert(bytes_at(data, pos, k) =~= seq![low as u8] + bytes_at(data, pos + 8, rest)) by {
            assert forall|j: int| 0 <= j < k implies bytes_at(data, pos, k)[j] == (seq![low as u8]
                + bytes_at(data, pos + 8, rest))[j] by {
                if j > 0 {
                    assert(pos + 8 * j == pos + 8 + 8 * (j - 1));
                }
            }
        }
    }
}

/// The weight of a bit, if the bit is set.
spec fn bit_weight(set: bool, weight: nat) -> nat {
    if set {
        weight
    } else {
        0
    }
}

proof fn lemma_word_of_eight(data: Seq<u8>, pos: int)
    ensures
        word_at(data, pos, 8) == bit_weight(bit_at(data, pos), 1) + bit_weight(
            bit_at(data, pos + 1),
            2,
        ) + bit_weight(bit_at(data, pos + 2), 4) + bit_weight(bit_at(data, pos + 3), 8)
            + bit_weight(bit_at(data, pos + 4), 16) + bit_weight(bit_at(data, pos + 5), 32)
            + bit_weight(bit_at(data, pos + 6), 64) + bit_weight(bit_at(data, pos + 7), 128),
{
    lemma2_to64();
    reveal_with_fuel(word_at, 9);
}

proof fn lemma_byte_of_bits(b: u8)
    ensures
        b == bit_weight((b >> 0u8) & 1u8 == 1u8, 1) + bit_weight((b >> 1u8) & 1u8 == 1u8, 2)
            + bit_weight((b >> 2u8) & 1u8 == 1u8, 4) + bit_weight((b >> 3u8) & 1u8 == 1u8, 8)
            + bit_weight((b >> 4u8) & 1u8 == 1u8, 16) + bit_weight((b >> 5u8) & 1u8 == 1u8, 32)
            + bit_weight((b >> 6u8) & 1u8 == 1u8, 64) + bit_weight(
            (b >> 7u8) & 1u8 == 1u8,
            128,
        ),
{
    let q0: u8 = b >> 0u8;
    let q1: u8 = b >> 1u8;
    let q2: u8 = b >> 2u8;
    let q3: u8 = b >> 3u8;
    let q4: u8 = b >> 4u8;
    let q5: u8 = b >> 5u8;
    let q6: u8 = b >> 6u8;
    let q7: u8 = b >> 7u8;
    assert(q0 == b && q1 == q0 / 2u8 && q2 == q1 / 2u8 && q3 == q2 / 2u8 && q4 == q3 / 2u8 && q5
        == q4 / 2u8 && q6 == q5 / 2u8 && q7 == q6 / 2u8 && q7 / 2u8 == 0u8) by (bit_vector)
        requires
            q0 == b >> 0u8,
            q1 == b >> 1u8,
            q2 == b >> 2u8,
            q3 == b >> 3u8,
            q4 == b >> 4u8,
            q5 == b >> 5u8,
            q6 == b >> 6u8,
            q7 == b >> 7u8,
    ;
    assert(forall|x: u8| ((#[trigger] (x & 1u8)) == 1u8) <==> (x % 2u8 == 1u8)) by (bit_vector);
    assert(((q0 & 1u8) == 1u8) <==> (q0 % 2u8 == 1u8));
    assert(((q1 & 1u8) == 1u8) <==> (q1 % 2u8 == 1u8));
    assert(((q2 & 1u8) == 1u8) <==> (q2 % 2u8 == 1u8));
    assert(((q3 & 1u8) == 1u8) <==> (q3 % 2u8 == 1u8));
    assert(((q4 & 1u8) == 1u8) <==> (q4 % 2u8 == 1u8));
    assert(((q5 & 1u8) == 1u8) <==> (q5 % 2u8 == 1u8));
    assert(((q6 & 1u8) == 1u8) <==> (q6 % 2u8 == 1u8));
    assert(((q7 & 1u8) == 1u8) <==> (q7 % 2u8 == 1u8));
}

/// On a byte boundary, a word of eight bits is the byte that stands there.
pub proof fn lemma_aligned_byte(data: Seq<u8>, j: int)
    requires
        0 <= j < data.len(),
    ensures
        word_at(data, 8 * j, 8) == data[j],
{
    lemma_word_of_eight(data, 8 * j);
    lemma_byte_of_bits(data[j]);
    assert((8 * j + 0) / 8 == j && (8 * j + 0) % 8 == 0);
    assert((8 * j + 1) / 8 == j && (8 * j + 1) % 8 == 1);
    assert((8 * j + 2) / 8 == j && (8 * j + 2) % 8 == 2);
    assert((8 * j + 3) / 8 == j && (8 * j + 3) % 8 == 3);
    assert((8 * j + 4) / 8 == j && (8 * j + 4) % 8 == 4);
    assert((8 * j + 5) / 8 == j && (8 * j + 5) % 8 == 5);
    assert((8 * j + 6) / 8 == j && (8 * j + 6) % 8 == 6);
    assert((8 * j + 7) / 8 == j && (8 * j + 7) % 8 == 7);
}

/// On a byte boundary, a run of bytes is the buffer's own bytes.
pub proof fn lemma_aligned_bytes(data: Seq<u8>, j: int, len: nat)
    requires
        0 <= j,
        j + len <= data.len(),
    ensures
        bytes_at(data, 8 * j, len) == data.subrange(j, j + len),
{
    assert forall|i: int| 0 <= i < len implies #[trigger] bytes_at(data, 8 * j, len)[i]
        == data.subrange(j, j + len)[i] by {
        lemma_aligned_byte(data, j + i);
        assert(8 * j + 8 * i == 8 * (j + i));
    }
    assert(bytes_at(data, 8 * j, len) =~= data.subrange(j, j + len));
}

/// A bit cursor over an owned byte buffer.
///
/// A read that asks for more than the buffer holds fails with
/// [`Error::Eof`], reads nothing and marks the cursor as overrun for the
/// closing check.
pub struct BitReader {
    bytes: Vec<u8>,
    byte: usize,
    bit: u8,
    overrun: bool,
}

impl BitReader {
    #[verifier::type_invariant]
    spec fn inv(self) -> bool {
        &&& self.byte <= self.bytes.len()
        &&& self.bit < 8
        &&& (self.byte == self.bytes.len() ==> self.bit == 0)
    }

    /// The buffer that is being read.
    pub closed spec fn data(&self) -> Seq<u8> {
        self.bytes@
    }

    /// The position of the next unread bit.
    pub closed spec fn pos(&self) -> int {
        8 * self.byte + self.bit
    }

    /// Whether some read has asked for more than the buffer holds.
    pub closed spec fn overrun(&self) -> bool {
        self.overrun
    }

    /// How a read that owed `owed` (a value and the position after it, or an
    /// error) leaves the cursor `post` and the result `r`: the buffer is
    /// kept, success moves the cursor to the owed position, and exactly an
    /// out-of-data failure marks it as overrun.
    pub open spec fn reads<T>(
        self,
        post: BitReader,
        r: Result<T, Error>,
        owed: Result<(T, int), Error>,
    ) -> bool {
        &&& post.data() == self.data()
        &&& match owed {
            Ok((v, end)) => r == Ok::<T, Error>(v) && post.pos() == end && post.overrun()
                == self.overrun(),
            Err(e) => r == Err::<T, Error>(e) && post.overrun() == (self.overrun() || e
                == Error::Eof),
        }
    }

    /// A cursor at the start of `bytes`.
    pub fn new(bytes: Vec<u8>) -> (r: BitReader)
        ensures
            r.data() == bytes@,
            r.pos() == 0,
            !r.overrun(),
    {
        BitReader { bytes, byte: 0, bit: 0, overrun: false }
    }

    /// The position of the next unread bit, in whole bytes and bits.
    pub fn position(&self) -> (r: (usize, u8))
        ensures
            self.pos() == 8 * r.0 + r.1,
            r.1 < 8,
            0 <= self.pos() <= bit_len(self.data()),
    {
        proof {
            use_type_invariant(self);
        }
        (self.byte, self.bit)
    }

    fn has_bits(&self, n: usize) -> (b: bool)
        requires
            n <= 64,
        ensures
            b == fits(self.data(), self.pos(), n as int),
            0 <= self.pos() <= bit_len(self.data()),
    {
        proof {
            use_type_invariant(self);
        }
        let whole: usize = self.bytes.len() - self.byte;
        if whole >= 9 {
            true
        } else {
            let bit: usize = self.bit as usize;
            whole * 8 - bit >= n
        }
    }

    fn take_bit(&mut self) -> (v: bool)
        requires
            fits(old(self).data(), old(self).pos(), 1),
        ensures
            final(self).data() == old(self).data(),
            final(self).overrun() == old(self).overrun(),
            final(self).pos() == old(self).pos() + 1,
            v == bit_at(old(self).data(), old(self).pos()),
    {
        proof {
            use_type_invariant(&*self);
        }
        assert(self.byte < self.bytes.len());
        let b: u8 = self.bytes[self.byte];
        let v = (b >> self.bit) & 1u8 == 1u8;
        if self.bit == 7 {
            self.bit = 0;
            self.byte = self.byte + 1;
        } else {
            self.bit = self.bit + 1;
        }
        v
    }

    fn take_bits(&mut self, n: usize) -> (v: u64)
        requires
            n <= 64,
            fits(old(self).data(), old(self).pos(), n as int),
        ensures
            final(self).data() == old(self).data(),
            final(self).overrun() == old(self).overrun(),
            final(self).pos() == old(self).pos() + n,
            v == word_at(old(self).data(), old(self).pos(), n as nat),
    {
        let ghost data = self.data();
        let ghost start = self.pos();
        let mut acc: u64 = 0;
        let mut weight: u64 = 1;
        let mut i: usize = 0;
        proof {
            lemma2_to64();
        }
        while i < n
            invariant
                i <= n <= 64,
                self.data() == data,
                self.overrun() == old(self).overrun(),
                self.pos() == start + i,
                fits(data, start, n as int),
                acc == word_at(data, start, i as nat),
                i < 64 ==> weight == pow2(i as nat),
            decreases n - i,
        {
            let b = self.take_bit();
            proof {
                lemma_word_bound(data, start, i as nat);
                lemma_pow2_unfold((i + 1) as nat);
                lemma_word_bound(data, start, (i + 1) as nat);
                vstd::arithmetic::power2::lemma_pow2_strictly_increases((i + 1) as nat, 65);
                if i + 1 < 64 {
                    vstd::arithmetic::power2::lemma_pow2_strictly_increases((i + 1) as nat, 64);
                }
                lemma2_to64();
                vstd::arithmetic::power2::lemma2_to64_rest();
            }
            if b {
                acc = acc + weight;
            }
            i = i + 1;
            if i < 64 {
                weight = weight * 2;
            }
        }
        acc
    }

    /// Reads one bit.
    pub fn read_bit(&mut self) -> (r: Result<bool, Error>)
        ensures
            final(self).data() == old(self).data(),
            0 <= old(self).pos() <= final(self).pos() <= bit_len(old(self).data()),
            fits(old(self).data(), old(self).pos(), 1) ==> r == Ok::<bool, Error>(
                bit_at(old(self).data(), old(self).pos()),
            ) && final(self).pos() == old(self).pos() + 1 && final(self).overrun() == old(
                self,
            ).overrun(),
            !fits(old(self).data(), old(self).pos(), 1) ==> r == Err::<bool, Error>(Error::Eof)
                && final(self).pos() == old(self).pos() && final(self).overrun(),
    {
        proof {
            use_type_invariant(&*self);
        }
        if self.has_bits(1) {
            Ok(self.take_bit())
        } else {
            self.overrun = true;
            Err(Error::Eof)
        }
    }

    /// Reads `n` bits, at most a machine word, as an unsigned number.
    pub fn read_bits(&mut self, n: usize) -> (r: Result<u64, Error>)
        requires
            n <= 64,
        ensures
            final(self).data() == old(self).data(),
            0 <= old(self).pos() <= final(self).pos() <= bit_len(old(self).data()),
            fits(old(self).data(), old(self).pos(), n as int) ==> r == Ok::<u64, Error>(
                word_at(old(self).data(), old(self).pos(), n as nat) as u64,
            ) && final(self).pos() == old(self).pos() + n && final(self).overrun() == old(
                self,
            ).overrun(),
            !fits(old(self).data(), old(self).pos(), n as int) ==> r == Err::<u64, Error>(
                Error::Eof,
            ) && final(self).pos() == old(self).pos() && final(self).overrun(),
    {
        proof {
            use_type_invariant(&*self);
        }
        if self.has_bits(n) {
            Ok(self.take_bits(n))
        } else {
            self.overrun = true;
            Err(Error::Eof)
        }
    }

    /// Reads `len` whole bytes from the current bit position.
    pub fn read_bytes(&mut self, len: usize) -> (r: Result<Vec<u8>, Error>)
        ensures
            final(self).data() == old(self).data(),
            0 <= old(self).pos() <= final(self).pos() <= bit_len(old(self).data()),
            fits(old(self).data(), old(self).pos(), 8 * len) ==> r.is_ok() && r.unwrap()@
                == bytes_at(old(self).data(), old(self).pos(), len as nat) && final(self).pos()
                == old(self).pos() + 8 * len && final(self).overrun() == old(self).overrun(),
            !fits(old(self).data(), old(self).pos(), 8 * len) ==> r.is_err() && r.unwrap_err()
                == Error::Eof && final(self).pos() == old(self).pos() && final(self).overrun(),
    {
        proof {
            use_type_invariant(&*self);
        }
        let whole: usize = self.bytes.len() - self.byte;
        let usable: usize = if self.bit == 0 {
            whole
        } else {
            whole - 1
        };
        if len > usable {
            self.overrun = true;
            return Err(Error::Eof);
        }
        let ghost data = self.data();
        let ghost start = self.pos();
        let mut out: Vec<u8> = Vec::new();
        let mut j: usize = 0;
        while j < len
            invariant
                j <= len,
                self.data() == data,
                self.overrun() == old(self).overrun(),
                self.pos() == start + 8 * j,
                fits(data, start, 8 * len),
                out@ == bytes_at(data, start, j as nat),
            decreases len - j,
        {
            let w = self.take_bits(8);
            proof {
                lemma_word_bound(data, start + 8 * j, 8);
                lemma2_to64();
            }
            out.push(w as u8);
            j = j + 1;
            assert(out@ =~= bytes_at(data, start, j as nat));
        }
        Ok(out)
    }

    /// The closing check: out-of-data if any read overran the buffer,
    /// trailing data if whole bytes were left unread, and otherwise success.
    pub fn finish(&self) -> (r: Result<(), Error>)
        ensures
            r == finish_spec(self.data(), self.pos(), self.overrun()),
    {
        proof {
            use_type_invariant(self);
        }
        if self.overrun {
            return Err(Error::Eof);
        }
        let read: usize = if self.bit == 0 {
            self.byte
        } else {
            self.byte + 1
        };
        if read < self.bytes.len() {
            Err(Error::ExpectedEof)
        } else {
            Ok(())
        }
    }
}

} // verus!
