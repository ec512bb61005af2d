//! Bit-level reader over a DEFLATE stream: least-significant bit first within
//! each byte, with grouping of consecutive bits into `BitstreamItem`s, one per
//! syntactic decoding event.

use vstd::prelude::*;

verus! {

/// A contiguous span of the compressed stream: bit position, length in bits,
/// and the bits themselves (first-read bit in the least significant position).
#[derive(Debug, Clone, Copy, PartialEq, Eq, Structural)]
pub struct BitstreamItem {
    pub pos: usize,
    pub length: usize,
    pub bits: u32,
}

/// The bit of `data` at bit position `i` (LSB-first within a byte).
pub open spec fn bit_at(data: Seq<u8>, i: int) -> u32 {
    ((data[i / 8] as u32) >> ((i % 8) as u32)) & 1
}

/// The `n`-bit field of `data` starting at bit position `pos`, assembled
/// LSB-first: the bit at `pos + k` lands at value bit `k`.
pub open spec fn bits_at(data: Seq<u8>, pos: int, n: nat) -> u32
    decreases n,
{
    if n == 0 {
        0
    } else {
        bits_at(data, pos, (n - 1) as nat) | (bit_at(data, pos + n - 1) << ((n - 1) as u32))
    }
}

proof fn lemma_shift_and_one(x: u32, sh: u32)
    ensures
        (x >> sh) & 1 <= 1,
{
    assert((x >> sh) & 1 <= 1) by (bit_vector);
}

proof fn lemma_or_shift_bound(prev: u32, b: u32, m: u32)
    requires
        prev < (1u32 << m),
        b <= 1,
        m < 31,
    ensures
        (prev | (b << m)) < (1u32 << ((m + 1) as u32)),
{
    assert(prev < (1u32 << m) && b <= 1 && m < 31 ==> (prev | (b << m)) < (1u32 << ((m + 1)
        as u32))) by (bit_vector);
}

/// An `n`-bit field is below `2^n`.
pub proof fn lemma_bits_at_bound(data: Seq<u8>, pos: int, n: nat)
    requires
        n <= 31,
    ensures
        bits_at(data, pos, n) < (1u32 << (n as u32)),
    decreases n,
{
    if n == 0 {
        assert(bits_at(data, pos, 0) < (1u32 << 0u32)) by (bit_vector);
    } else {
        lemma_bits_at_bound(data, pos, (n - 1) as nat);
        let prev = bits_at(data, pos, (n - 1) as nat);
        let byte = data[(pos + n - 1) / 8] as u32;
        let sh = ((pos + n - 1) % 8) as u32;
        let b = (byte >> sh) & 1;
        lemma_shift_and_one(byte, sh);
        let m = (n - 1) as u32;
        lemma_or_shift_bound(prev, b, m);
    }
}

pub struct Bitstream<'a> {
    data: &'a [u8],
    pos: usize,
    item_start: usize,
}

impl<'a> Bitstream<'a> {
    pub closed spec fn data_spec(&self) -> Seq<u8> {
        self.data@
    }

    pub closed spec fn pos_spec(&self) -> int {
        self.pos as int
    }

    pub closed spec fn item_start_spec(&self) -> int {
        self.item_start as int
    }

    /// Positions are inside the stream and the data is small enough that bit
    /// positions fit in a `usize`.
    pub closed spec fn wf(&self) -> bool {
        &&& self.data@.len() <= usize::MAX as int / 8
        &&& self.item_start <= self.pos
        &&& self.pos <= self.data@.len() * 8
    }

    /// What `wf` guarantees about the tracked positions.
    pub proof fn lemma_wf_bounds(&self)
        requires
            self.wf(),
        ensures
            0 <= self.item_start_spec() <= self.pos_spec() <= self.data_spec().len() * 8,
            self.data_spec().len() <= usize::MAX as int / 8,
    {
    }

    pub fn new(data: &'a [u8]) -> (r: Bitstream<'a>)
        requires
            data@.len() <= usize::MAX as int / 8,
        ensures
            r.wf(),
            r.data_spec() == data@,
            r.pos_spec() == 0,
            r.item_start_spec() == 0,
    {
        Bitstream { data, pos: 0, item_start: 0 }
    }

    /// True while another bit can be read.
    pub fn has_bit(&self) -> (r: bool)
        requires
            self.wf(),
        ensures
            r == (self.pos_spec() < self.data_spec().len() * 8),
    {
        proof {
            assert(self.pos < self.data@.len() * 8 ==> self.pos / 8 < self.data@.len())
                by (nonlinear_arith)
                requires
                    self.pos <= self.data@.len() * 8;
            assert(self.pos / 8 < self.data@.len() ==> self.pos < self.data@.len() * 8)
                by (nonlinear_arith);
        }
        self.pos / 8 < self.data.len()
    }

    /// Reads one bit and advances.
    pub fn get_bit(&mut self) -> (r: u32)
        requires
            old(self).wf(),
            old(self).pos_spec() < old(self).data_spec().len() * 8,
        ensures
            final(self).wf(),
            final(self).data_spec() == old(self).data_spec(),
            final(self).item_start_spec() == old(self).item_start_spec(),
            final(self).pos_spec() == old(self).pos_spec() + 1,
            r == bit_at(old(self).data_spec(), old(self).pos_spec()),
            r == 0 || r == 1,
    {
        proof {
            assert(self.pos / 8 < self.data@.len()) by (nonlinear_arith)
                requires
                    self.pos < self.data@.len() * 8;
            assert(((self.pos % 8) as u32) < 8);
            let byte = self.data@[self.pos as int / 8] as u32;
            let sh = (self.pos % 8) as u32;
            assert((byte >> sh) & 1 <= 1) by (bit_vector);
        }
        let bit = ((self.data[self.pos / 8] as u32) >> ((self.pos % 8) as u32)) & 1;
        self.pos = self.pos + 1;
        bit
    }

    /// Reads an `n`-bit field, LSB-first.
    pub fn get_bits(&mut self, n: u32) -> (r: u32)
        requires
            old(self).wf(),
            n <= 32,
            old(self).pos_spec() + n <= old(self).data_spec().len() * 8,
        ensures
            final(self).wf(),
            final(self).data_spec() == old(self).data_spec(),
            final(self).item_start_spec() == old(self).item_start_spec(),
            final(self).pos_spec() == old(self).pos_spec() + n,
            r == bits_at(old(self).data_spec(), old(self).pos_spec(), n as nat),
    {
        let mut value: u32 = 0;
        let mut i: u32 = 0;
        while i < n
            invariant
                self.wf(),
                i <= n,
                n <= 32,
                self.data_spec() == old(self).data_spec(),
                self.item_start_spec() == old(self).item_start_spec(),
                self.pos_spec() == old(self).pos_spec() + i,
                old(self).pos_spec() + n <= old(self).data_spec().len() * 8,
                value == bits_at(old(self).data_spec(), old(self).pos_spec(), i as nat),
            decreases n - i,
        {
            let bit = self.get_bit();
            value = value | (bit << i);
            i = i + 1;
        }
        value
    }

    /// True when `n` more bits can be read.
    pub fn has_bits(&self, n: u32) -> (r: bool)
        requires
            self.wf(),
        ensures
            r == (self.pos_spec() + n <= self.data_spec().len() * 8),
    {
        let rem = self.data.len() * 8 - self.pos;
        n as usize <= rem
    }

    /// The current bit position.
    pub fn bit_pos(&self) -> (r: usize)
        ensures
            r == self.pos_spec(),
    {
        self.pos
    }

    /// Returns the span of every bit consumed since the previous item, and
    /// starts the next item there. The span is at most 32 bits.
    pub fn take_item(&mut self) -> (r: BitstreamItem)
        requires
            old(self).wf(),
            old(self).pos_spec() - old(self).item_start_spec() <= 32,
        ensures
            final(self).wf(),
            final(self).data_spec() == old(self).data_spec(),
            final(self).pos_spec() == old(self).pos_spec(),
            final(self).item_start_spec() == final(self).pos_spec(),
            r.pos == old(self).item_start_spec(),
            r.length == old(self).pos_spec() - old(self).item_start_spec(),
            r.bits == bits_at(old(self).data_spec(), r.pos as int, r.length as nat),
    {
        let length = self.pos - self.item_start;
        let pos = self.item_start;
        self.pos = pos;
        let bits = self.get_bits(length as u32);
        self.item_start = self.pos;
        BitstreamItem { pos, length, bits }
    }
}

} // verus!
