//! Reader of a little-endian bit stream: bit `i` of the stream is bit `i % 8` of
//! byte `i / 8`, counting from the least significant bit.
use vstd::prelude::*;
use vstd::arithmetic::power2::{pow2, lemma_pow2_unfold};
use vstd::slice::slice_subrange;

use crate::error::Error;

verus! {

/// Bit `i` of the stream `data`.
pub open spec fn bit_at(data: Seq<u8>, i: int) -> int {
    ((data[i / 8] >> ((i % 8) as u8)) & 1u8) as int
}

/// The `n` bits starting at bit `pos`, the first one least significant.
pub open spec fn bits_value(data: Seq<u8>, pos: int, n: int) -> int
    decreases n,
{
    if n <= 0 {
        0
    } else {
        bit_at(data, pos) + 2 * bits_value(data, pos + 1, n - 1)
    }
}

proof fn lemma_bit_at_range(data: Seq<u8>, i: int)
    requires
        0 <= i < data.len() * 8,
    ensures
        0 <= bit_at(data, i) <= 1,
{
    let b = data[i / 8];
    let s = (i % 8) as u8;
    assert((b >> s) & 1u8 <= 1u8) by (bit_vector);
}

pub(crate) proof fn lemma_bits_value_range(data: Seq<u8>, pos: int, n: int)
    requires
        0 <= pos,
        0 <= n,
        pos + n <= data.len() * 8,
    ensures
        0 <= bits_value(data, pos, n) < pow2(n as nat),
    decreases n,
{
    if n > 0 {
        lemma_bits_value_range(data, pos + 1, n - 1);
        lemma_bit_at_range(data, pos);
        lemma_pow2_unfold(n as nat);
    } else {
        vstd::arithmetic::power2::lemma2_to64();
    }
}

/// A position in a byte stream, read bit by bit.
pub struct BitReader<'a> {
    data: &'a [u8],
    pos: usize,
}

impl<'a> BitReader<'a> {
    /// The bytes of the stream.
    pub closed spec fn data(&self) -> Seq<u8> {
        self.data@
    }

    /// Number of bits read so far.
    pub closed spec fn pos(&self) -> int {
        self.pos as int
    }

    pub open spec fn wf(&self) -> bool {
        &&& 0 <= self.pos() <= self.data().len() * 8
        &&& self.data().len() * 8 <= usize::MAX
    }

    pub fn new(data: &'a [u8]) -> (r: Self)
        requires
            data@.len() * 8 <= usize::MAX,
        ensures
            r.wf(),
            r.data() == data@,
            r.pos() == 0,
    {
        BitReader { data, pos: 0 }
    }

    pub fn total_bits_read(&self) -> (r: usize)
        ensures
            r == self.pos(),
    {
        self.pos
    }

    /// Number of bits left to read.
    pub fn bits_left(&self) -> (r: usize)
        requires
            self.wf(),
        ensures
            r == self.data().len() * 8 - self.pos(),
    {
        self.data.len() * 8 - self.pos
    }

    /// Reads `n` bits as a number, the first bit least significant.
    pub fn read(&mut self, n: usize) -> (r: Result<u64, Error>)
        requires
            old(self).wf(),
            n <= 64,
        ensures
            final(self).wf(),
            final(self).data() == old(self).data(),
            old(self).pos() + n <= old(self).data().len() * 8 ==> r == Ok::<u64, Error>(
                bits_value(old(self).data(), old(self).pos(), n as int) as u64,
            ) && final(self).pos() == old(self).pos() + n,
            old(self).pos() + n > old(self).data().len() * 8 ==> r == Err::<u64, Error>(
                Error::OutOfBounds,
            ) && final(self).pos() == old(self).pos(),
    {
        if n > self.bits_left() {
            return Err(Error::OutOfBounds);
        }
        let ghost data = self.data@;
        let pos = self.pos;
        let mut v: u64 = 0;
        let mut k: usize = n;
        proof {
            vstd::arithmetic::power2::lemma2_to64();
        }
        while k > 0
            invariant
                k <= n <= 64,
                pos + n <= data.len() * 8,
                data.len() * 8 <= usize::MAX,
                data == self.data@,
                v as int == bits_value(data, pos + k, (n - k) as int),
                v < pow2((n - k) as nat),
            decreases k,
        {
            k = k - 1;
            let i = pos + k;
            let byte = self.data[i / 8];
            let b = (byte >> ((i % 8) as u8)) & 1u8;
            proof {
                lemma_bit_at_range(data, i as int);
                lemma_pow2_unfold((n - k) as nat);
                vstd::arithmetic::power2::lemma2_to64_rest();
                if n - k - 1 < 63 {
                    vstd::arithmetic::power2::lemma_pow2_strictly_increases((n - k - 1) as nat, 63);
                }
            }
            v = 2 * v + b as u64;
        }
        self.pos = pos + n;
        Ok(v)
    }

    /// Skips to the next byte boundary; the bits skipped must be zero.
    pub fn jump_to_byte_boundary(&mut self) -> (r: Result<(), Error>)
        requires
            old(self).wf(),
        ensures
            final(self).wf(),
            final(self).data() == old(self).data(),
            ({
                let k = (8 - old(self).pos() % 8) % 8;
                &&& final(self).pos() == old(self).pos() + k
                &&& (r is Ok <==> bits_value(old(self).data(), old(self).pos(), k) == 0)
                &&& (r is Err ==> r == Err::<(), Error>(Error::NonZeroPadding))
            }),
    {
        let k = (8 - self.pos % 8) % 8;
        proof {
            assert(self.pos() + k <= self.data().len() * 8);
            lemma_bits_value_range(self.data(), self.pos(), k as int);
            vstd::arithmetic::power2::lemma2_to64();
            if k < 8 {
                vstd::arithmetic::power2::lemma_pow2_strictly_increases(k as nat, 8);
            }
        }
        let v = self.read(k);
        match v {
            Ok(0) => Ok(()),
            _ => Err(Error::NonZeroPadding),
        }
    }

    /// Hands out a reader of the next `n` bytes and moves past them.
    pub fn split_at(&mut self, n: usize) -> (r: Result<BitReader<'a>, Error>)
        requires
            old(self).wf(),
            old(self).pos() % 8 == 0,
        ensures
            final(self).wf(),
            final(self).data() == old(self).data(),
            final(self).pos() % 8 == 0,
            ({
                let start = old(self).pos() / 8;
                &&& start + n <= old(self).data().len() ==> (r matches Ok(sub) && sub.wf()
                    && sub.pos() == 0 && sub.data() == old(self).data().subrange(start, start + n)
                    && final(self).pos() == old(self).pos() + 8 * n)
                &&& start + n > old(self).data().len() ==> r == Err::<BitReader<'a>, Error>(
                    Error::OutOfBounds,
                ) && final(self).pos() == old(self).pos()
            }),
    {
        let start = self.pos / 8;
        if n > self.data.len() - start {
            return Err(Error::OutOfBounds);
        }
        let sub = BitReader { data: slice_subrange(self.data, start, start + n), pos: 0 };
        self.pos = self.pos + 8 * n;
        Ok(sub)
    }
}

} // verus!
