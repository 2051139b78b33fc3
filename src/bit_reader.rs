//! A reader of bits, most significant first, over the bytes of the core data block.
use vstd::arithmetic::power2::{lemma2_to64, lemma_pow2_strictly_increases, lemma_pow2_unfold, pow2};
use vstd::prelude::*;

verus! {

/// Bit `p` of `data`, counting from the most significant bit of byte 0.
pub open spec fn bit_at(data: Seq<u8>, p: int) -> int {
    ((data[p / 8] >> ((7 - p % 8) as u8)) & 1u8) as int
}

/// The `n` bits of `data` from bit `p`, read as a big-endian unsigned number.
pub open spec fn bits_at(data: Seq<u8>, p: int, n: nat) -> int
    decreases n,
{
    if n == 0 {
        0
    } else {
        bits_at(data, p, (n - 1) as nat) * 2 + bit_at(data, p + n - 1)
    }
}

/// The value of a [`BitReader`]: the bytes it reads and the index of the next bit.
pub struct BitReaderView {
    pub data: Seq<u8>,
    pub position: int,
}

/// A cursor over bits.
pub struct BitReader<'a> {
    data: &'a [u8],
    position: u128,
}

impl<'a> View for BitReader<'a> {
    type V = BitReaderView;

    closed spec fn view(&self) -> BitReaderView {
        BitReaderView { data: self.data@, position: self.position as int }
    }
}

proof fn lemma_bit_at_is_bit(data: Seq<u8>, p: int)
    requires
        0 <= p < data.len() * 8,
    ensures
        0 <= bit_at(data, p) <= 1,
{
    let x = data[p / 8];
    let s = (7 - p % 8) as u8;
    assert((x >> s) & 1u8 <= 1u8) by (bit_vector);
}

impl<'a> BitReader<'a> {
    /// Every position of the reader lies within its data.
    pub open spec fn well_formed(&self) -> bool {
        0 <= self@.position <= self@.data.len() * 8
    }

    pub fn new(data: &'a [u8]) -> (r: BitReader<'a>)
        ensures
            r@ == (BitReaderView { data: data@, position: 0 }),
            r.well_formed(),
    {
        BitReader { data, position: 0 }
    }

    /// The index of the next bit.
    pub fn position(&self) -> (r: u128)
        ensures
            r == self@.position,
    {
        self.position
    }

    /// Reads one bit; none is left when the data is exhausted.
    pub fn read_bit(&mut self) -> (r: Option<u8>)
        requires
            old(self).well_formed(),
        ensures
            final(self).well_formed(),
            final(self)@.data == old(self)@.data,
            old(self)@.position < old(self)@.data.len() * 8 ==> r == Some(
                bit_at(old(self)@.data, old(self)@.position) as u8,
            ) && final(self)@.position == old(self)@.position + 1,
            old(self)@.position >= old(self)@.data.len() * 8 ==> r is None && final(self)@
                == old(self)@,
    {
        let total: u128 = (self.data.len() as u128) * 8;
        if self.position >= total {
            return None;
        }
        let byte = self.data[(self.position / 8) as usize];
        let shift = (7 - self.position % 8) as u8;
        let bit = (byte >> shift) & 1u8;
        self.position = self.position + 1;
        Some(bit)
    }

    /// Reads `n` bits as a big-endian unsigned number; fails, reading nothing, when
    /// fewer than `n` are left.
    pub fn read_bits(&mut self, n: u32) -> (r: Option<u32>)
        requires
            old(self).well_formed(),
            n <= 32,
        ensures
            final(self).well_formed(),
            final(self)@.data == old(self)@.data,
            old(self)@.position + n <= old(self)@.data.len() * 8 ==> r is Some && r->Some_0 as int
                == bits_at(old(self)@.data, old(self)@.position, n as nat) && final(self)@.position
                == old(self)@.position + n,
            old(self)@.position + n > old(self)@.data.len() * 8 ==> r is None && final(self)@
                == old(self)@,
    {
        let total: u128 = (self.data.len() as u128) * 8;
        if n as u128 > total - self.position {
            return None;
        }
        let ghost start = self@.position;
        let mut v: u64 = 0;
        let mut t: u32 = 0;
        proof {
            lemma2_to64();
        }
        while t < n
            invariant
                self.well_formed(),
                self@.data == old(self)@.data,
                start == old(self)@.position,
                start + n <= self@.data.len() * 8,
                t <= n <= 32,
                self@.position == start + t,
                v == bits_at(self@.data, start, t as nat),
                v < pow2(t as nat),
                pow2(32) == 0x1_0000_0000,
            decreases n - t,
        {
            let bit = self.read_bit();
            proof {
                lemma_bit_at_is_bit(self@.data, start + t);
                lemma_pow2_unfold((t + 1) as nat);
                if t + 1 < 32 {
                    lemma_pow2_strictly_increases((t + 1) as nat, 32);
                }
            }
            let b = match bit {
                Some(b) => b,
                None => 0,
            };
            v = v * 2 + b as u64;
            t = t + 1;
        }
        Some(v as u32)
    }
}

} // verus!
