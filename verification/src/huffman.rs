//! Canonical-Huffman decoding as a running-difference walk.
//!
//! A code is given as `(symbol, code_length)` pairs sorted by
//! `(code_length, symbol)`. Decoding reads bits MSB-first into an accumulator;
//! for each pair in order, bits are read until the accumulator holds
//! `code_length` bits; an accumulator of zero yields the symbol, otherwise the
//! accumulator is decremented and the walk continues. This matches the
//! standard canonical code assignment whenever the lengths form a prefix code.

use vstd::prelude::*;

use crate::PackError;
use crate::bitstream::{Bitstream, bit_at};

verus! {

/// `(symbol, code_length)` pairs are ordered by length, then symbol.
pub open spec fn code_le(a: (u32, u32), b: (u32, u32)) -> bool {
    a.1 < b.1 || (a.1 == b.1 && a.0 <= b.0)
}

pub open spec fn codes_sorted(s: Seq<(u32, u32)>) -> bool {
    forall|i: int, j: int| 0 <= i < j < s.len() ==> code_le(#[trigger] s[i], #[trigger] s[j])
}

/// Lengths lie in 1..=15, as DEFLATE's alphabets guarantee.
pub open spec fn codes_wf(s: Seq<(u32, u32)>) -> bool {
    &&& codes_sorted(s)
    &&& forall|i: int| 0 <= i < s.len() ==> 1 <= (#[trigger] s[i]).1 <= 15
}

/// Extends the MSB-first accumulator `code` by the `k` bits starting at `pos`.
pub open spec fn msb_extend(data: Seq<u8>, pos: int, code: u32, k: nat) -> u32
    decreases k,
{
    if k == 0 {
        code
    } else {
        msb_extend(data, pos + 1, (code << 1u32) | bit_at(data, pos), (k - 1) as nat)
    }
}

/// The canonical walk from entry `idx` with accumulator `code` holding
/// `nbits` bits. `None` is a malformed stream: bits ran out or no entry
/// matched.
pub open spec fn walk_spec(
    codes: Seq<(u32, u32)>,
    data: Seq<u8>,
    pos: int,
    idx: int,
    code: u32,
    nbits: u32,
) -> Option<(u32, int)>
    decreases codes.len() - idx,
{
    if idx < 0 || idx >= codes.len() {
        None
    } else {
        let (value, length) = codes[idx];
        let k: nat = if nbits <= length { (length - nbits) as nat } else { 0 };
        if pos + k > data.len() * 8 {
            None
        } else {
            let code2 = msb_extend(data, pos, code, k);
            if code2 == 0 {
                Some((value, pos + k))
            } else {
                walk_spec(codes, data, pos + k, idx + 1, (code2 - 1) as u32, length)
            }
        }
    }
}

/// What one Huffman decode yields at bit position `pos`, or `None` for a
/// malformed stream.
pub open spec fn huff_decode(codes: Seq<(u32, u32)>, data: Seq<u8>, pos: int) -> Option<
    (u32, int),
> {
    walk_spec(codes, data, pos, 0, 0, 0)
}

/// A successful walk consumes between `1 - nbits` and `15 - nbits` further
/// bits and stays inside the stream.
pub proof fn lemma_walk_advance(
    codes: Seq<(u32, u32)>,
    data: Seq<u8>,
    pos: int,
    idx: int,
    code: u32,
    nbits: u32,
)
    requires
        codes_wf(codes),
        0 <= idx,
        idx < codes.len() ==> nbits <= codes[idx].1,
    ensures
        walk_spec(codes, data, pos, idx, code, nbits) matches Some(r) ==> {
            &&& pos + 1 - nbits <= r.1 <= pos + 15 - nbits
            &&& r.1 <= data.len() * 8
        },
    decreases codes.len() - idx,
{
    if 0 <= idx < codes.len() {
        let (value, length) = codes[idx];
        let k: nat = if nbits <= length { (length - nbits) as nat } else { 0 };
        if pos + k <= data.len() * 8 {
            let code2 = msb_extend(data, pos, code, k);
            if code2 != 0 {
                if idx + 1 < codes.len() {
                    assert(code_le(codes[idx], codes[idx + 1]));
                }
                lemma_walk_advance(codes, data, pos + k, idx + 1, (code2 - 1) as u32, length);
            }
        }
    }
}

/// A successful decode consumes between 1 and 15 bits.
pub proof fn lemma_decode_advance(codes: Seq<(u32, u32)>, data: Seq<u8>, pos: int)
    requires
        codes_wf(codes),
    ensures
        huff_decode(codes, data, pos) matches Some(r) ==> {
            &&& pos + 1 <= r.1 <= pos + 15
            &&& r.1 <= data.len() * 8
        },
{
    lemma_walk_advance(codes, data, pos, 0, 0, 0);
}

/// Stable insertion of `e` into a sorted code list: `e` lands after every
/// entry that is `code_le` it.
pub open spec fn insert_sorted(s: Seq<(u32, u32)>, e: (u32, u32)) -> Seq<(u32, u32)>
    decreases s.len(),
{
    if s.len() == 0 {
        seq![e]
    } else if code_le(s[0], e) {
        seq![s[0]] + insert_sorted(s.skip(1), e)
    } else {
        seq![e] + s
    }
}

/// The first `n` entries of `s`, insertion-sorted in order.
pub open spec fn sort_upto(s: Seq<(u32, u32)>, n: int) -> Seq<(u32, u32)>
    decreases n,
{
    if n <= 0 {
        Seq::empty()
    } else {
        insert_sorted(sort_upto(s, n - 1), s[n - 1])
    }
}

/// The code list sorted by `(length, symbol)`, stably.
pub open spec fn sort_codes(s: Seq<(u32, u32)>) -> Seq<(u32, u32)> {
    sort_upto(s, s.len() as int)
}

proof fn lemma_insert_sorted_at(s: Seq<(u32, u32)>, e: (u32, u32), p: int)
    requires
        0 <= p <= s.len(),
        forall|i: int| 0 <= i < p ==> code_le(#[trigger] s[i], e),
        p < s.len() ==> !code_le(s[p], e),
    ensures
        insert_sorted(s, e) == s.insert(p, e),
    decreases s.len(),
{
    if s.len() == 0 {
        assert(insert_sorted(s, e) =~= s.insert(0, e));
    } else if p == 0 {
        assert(!code_le(s[0], e));
        assert(insert_sorted(s, e) =~= s.insert(0, e));
    } else {
        assert(code_le(s[0], e));
        let s1 = s.skip(1);
        assert(forall|i: int| 0 <= i < p - 1 ==> code_le(#[trigger] s1[i], e));
        lemma_insert_sorted_at(s1, e, p - 1);
        assert(insert_sorted(s, e) =~= s.insert(p, e));
    }
}

proof fn lemma_insert_sorted_props(s: Seq<(u32, u32)>, e: (u32, u32))
    requires
        codes_wf(s),
        1 <= e.1 <= 15,
    ensures
        codes_wf(insert_sorted(s, e)),
        insert_sorted(s, e).len() == s.len() + 1,
    decreases s.len(),
{
    let r = insert_sorted(s, e);
    if s.len() == 0 {
    } else if code_le(s[0], e) {
        let s1 = s.skip(1);
        assert(forall|i: int| 0 <= i < s1.len() ==> s1[i] == s[i + 1]);
        lemma_insert_sorted_props(s1, e);
        let r1 = insert_sorted(s1, e);
        assert(forall|i: int| 0 <= i < r1.len() ==> r[i + 1] == r1[i]);
        assert(r[0] == s[0]);
        // s[0] precedes everything that was inserted after it
        assert forall|j: int| 1 <= j < r.len() implies code_le(r[0], #[trigger] r[j]) by {
            if r1[j - 1] == e {
                assert(code_le(s[0], e));
            } else {
                lemma_insert_sorted_member(s1, e, j - 1);
            }
        }
        assert(codes_sorted(r));
        assert forall|i: int| 0 <= i < r.len() implies 1 <= (#[trigger] r[i]).1 <= 15 by {
            if i > 0 {
                assert(r[i] == r1[i - 1]);
            }
        }
    } else {
        assert(forall|i: int| 0 <= i < s.len() ==> r[i + 1] == s[i]);
        assert(r[0] == e);
        assert forall|j: int| 1 <= j < r.len() implies code_le(r[0], #[trigger] r[j]) by {
            if j > 1 {
                assert(code_le(s[0], s[j - 1]));
            }
            assert(!code_le(s[0], e));
        }
        assert(codes_sorted(r));
    }
}

/// Every entry of `insert_sorted(s, e)` is `e` or an entry of `s`.
proof fn lemma_insert_sorted_member(s: Seq<(u32, u32)>, e: (u32, u32), j: int)
    requires
        0 <= j < insert_sorted(s, e).len(),
    ensures
        insert_sorted(s, e)[j] == e || exists|i: int|
            0 <= i < s.len() && s[i] == insert_sorted(s, e)[j],
    decreases s.len(),
{
    let r = insert_sorted(s, e);
    if s.len() == 0 {
    } else if code_le(s[0], e) {
        if j == 0 {
            assert(s[0] == r[0]);
        } else {
            lemma_insert_sorted_member(s.skip(1), e, j - 1);
            let s1 = s.skip(1);
            if r[j] != e {
                let i = choose|i: int| 0 <= i < s1.len() && s1[i] == insert_sorted(s1, e)[j - 1];
                assert(s[i + 1] == r[j]);
            }
        }
    } else {
        if j > 0 {
            assert(s[j - 1] == r[j]);
        }
    }
}

proof fn lemma_sort_upto_wf(s: Seq<(u32, u32)>, n: int)
    requires
        forall|i: int| 0 <= i < s.len() ==> 1 <= (#[trigger] s[i]).1 <= 15,
        n <= s.len(),
    ensures
        codes_wf(sort_upto(s, n)),
        sort_upto(s, n).len() == if n <= 0 { 0int } else { n },
    decreases n,
{
    if n <= 0 {
    } else {
        lemma_sort_upto_wf(s, n - 1);
        lemma_insert_sorted_props(sort_upto(s, n - 1), s[n - 1]);
    }
}

/// A sorted code list over in-range lengths is well-formed.
pub proof fn lemma_sort_codes_wf(s: Seq<(u32, u32)>)
    requires
        forall|i: int| 0 <= i < s.len() ==> 1 <= (#[trigger] s[i]).1 <= 15,
    ensures
        codes_wf(sort_codes(s)),
        sort_codes(s).len() == s.len(),
{
    lemma_sort_upto_wf(s, s.len() as int);
}

/// Collects `(symbol, code_length)` pairs, ignoring zero lengths, and builds
/// the sorted decoder.
pub struct HuffmanBuilder {
    codes: Vec<(u32, u32)>,
}

impl HuffmanBuilder {
    pub closed spec fn codes_spec(&self) -> Seq<(u32, u32)> {
        self.codes@
    }

    pub open spec fn wf(&self) -> bool {
        forall|i: int| 0 <= i < self.codes_spec().len() ==> 1 <= (#[trigger] self.codes_spec()[
            i
        ]).1 <= 15
    }

    pub fn new() -> (r: HuffmanBuilder)
        ensures
            r.wf(),
            r.codes_spec() == Seq::<(u32, u32)>::empty(),
    {
        HuffmanBuilder { codes: Vec::new() }
    }

    /// Registers `code` with length `num_bits`; a zero length means the
    /// symbol does not occur.
    pub fn add_code(&mut self, code: u32, num_bits: u32)
        requires
            old(self).wf(),
            num_bits <= 15,
        ensures
            final(self).wf(),
            final(self).codes_spec() == if num_bits == 0 {
                old(self).codes_spec()
            } else {
                old(self).codes_spec().push((code, num_bits))
            },
    {
        if num_bits > 0 {
            self.codes.push((code, num_bits));
            proof {
                assert forall|i: int| 0 <= i < self.codes_spec().len() implies 1 <= (
                #[trigger] self.codes_spec()[i]).1 <= 15 by {
                    if i < old(self).codes_spec().len() {
                        assert(self.codes_spec()[i] == old(self).codes_spec()[i]);
                    }
                }
            }
        }
    }

    /// Registers the inclusive symbol range `lo..=hi`, all with length
    /// `num_bits`.
    pub fn add_codes(&mut self, lo: u32, hi: u32, num_bits: u32)
        requires
            old(self).wf(),
            num_bits <= 15,
            lo <= hi,
            hi < u32::MAX,
        ensures
            final(self).wf(),
            final(self).codes_spec() == if num_bits == 0 {
                old(self).codes_spec()
            } else {
                old(self).codes_spec() + range_codes(lo, hi, num_bits)
            },
    {
        if num_bits == 0 {
            proof {
                assert(self.codes_spec() =~= old(self).codes_spec());
            }
            return ;
        }
        let mut c = lo;
        proof {
            assert(self.codes_spec() =~= old(self).codes_spec() + range_n(lo, 0, num_bits));
        }
        loop
            invariant
                lo <= c <= hi + 1,
                hi < u32::MAX,
                1 <= num_bits <= 15,
                self.wf(),
                self.codes_spec() == old(self).codes_spec() + range_n(lo, (c - lo) as nat,
                    num_bits),
            ensures
                self.codes_spec() == old(self).codes_spec() + range_codes(lo, hi, num_bits),
            decreases hi + 1 - c,
        {
            if c > hi {
                proof {
                    assert(range_n(lo, (c - lo) as nat, num_bits) =~= range_codes(lo, hi,
                        num_bits));
                }
                break ;
            }
            self.codes.push((c, num_bits));
            proof {
                let k = (c - lo) as nat;
                assert(range_n(lo, (k + 1) as nat, num_bits) =~= range_n(lo, k, num_bits).push((
                c, num_bits)));
                assert(self.codes_spec() =~= old(self).codes_spec() + range_n(lo, (k + 1) as nat,
                    num_bits));
            }
            c = c + 1;
        }
    }

    /// The decoder over the accumulated codes, sorted by `(length, symbol)`.
    pub fn build(self) -> (r: Huffman)
        requires
            self.wf(),
        ensures
            r.wf(),
            r.codes_spec() == sort_codes(self.codes_spec()),
    {
        let n = self.codes.len();
        let mut out: Vec<(u32, u32)> = Vec::new();
        let mut i: usize = 0;
        proof {
            lemma_sort_upto_wf(self.codes_spec(), 0);
        }
        while i < n
            invariant
                i <= n,
                n == self.codes_spec().len(),
                self.wf(),
                out@ == sort_upto(self.codes_spec(), i as int),
                codes_wf(out@),
            decreases n - i,
        {
            let e = self.codes[i];
            let mut p: usize = 0;
            while p < out.len() && code_le_exec(out[p], e)
                invariant
                    p <= out@.len(),
                    forall|q: int| 0 <= q < p ==> code_le(#[trigger] out@[q], e),
                decreases out@.len() - p,
            {
                p = p + 1;
            }
            proof {
                lemma_insert_sorted_at(out@, e, p as int);
                lemma_insert_sorted_props(out@, e);
            }
            out.insert(p, e);
            i = i + 1;
        }
        Huffman::from_sorted(out)
    }
}

/// `(lo, n), (lo+1, n), ..., (hi, n)`.
pub open spec fn range_codes(lo: u32, hi: u32, num_bits: u32) -> Seq<(u32, u32)> {
    Seq::new(if hi < lo { 0 } else { (hi - lo + 1) as nat }, |i: int| ((lo + i) as u32, num_bits))
}

/// The first `k` entries of an ascending code range starting at `lo`.
pub open spec fn range_n(lo: u32, k: nat, num_bits: u32) -> Seq<(u32, u32)> {
    Seq::new(k, |i: int| ((lo + i) as u32, num_bits))
}

fn code_le_exec(a: (u32, u32), b: (u32, u32)) -> (r: bool)
    ensures
        r == code_le(a, b),
{
    a.1 < b.1 || (a.1 == b.1 && a.0 <= b.0)
}

pub struct Huffman {
    codes: Vec<(u32, u32)>,
}

impl Huffman {
    pub closed spec fn codes_spec(&self) -> Seq<(u32, u32)> {
        self.codes@
    }

    pub open spec fn wf(&self) -> bool {
        codes_wf(self.codes_spec())
    }

    /// Wraps a sorted code list.
    pub fn from_sorted(codes: Vec<(u32, u32)>) -> (r: Huffman)
        requires
            codes_wf(codes@),
        ensures
            r.wf(),
            r.codes_spec() == codes@,
    {
        Huffman { codes }
    }

    /// Decodes one symbol, advancing the bit reader; `Err` on a malformed
    /// stream. Consumes at most 15 bits.
    #[verifier::loop_isolation(false)]
    pub fn read(&self, bs: &mut Bitstream<'_>) -> (r: Result<u32, PackError>)
        requires
            self.wf(),
            old(bs).wf(),
        ensures
            final(bs).wf(),
            final(bs).data_spec() == old(bs).data_spec(),
            final(bs).item_start_spec() == old(bs).item_start_spec(),
            match r {
                Ok(sym) => {
                    &&& huff_decode(self.codes_spec(), old(bs).data_spec(), old(bs).pos_spec())
                        == Some((sym, final(bs).pos_spec()))
                    &&& old(bs).pos_spec() <= final(bs).pos_spec() <= old(bs).pos_spec() + 15
                },
                Err(e) => {
                    &&& e == PackError::Decompress
                    &&& huff_decode(self.codes_spec(), old(bs).data_spec(), old(bs).pos_spec())
                        is None
                },
            },
    {
        let ghost data = old(bs).data_spec();
        let ghost p0 = old(bs).pos_spec();
        let mut code: u32 = 0;
        let mut num_bits: u32 = 0;
        let mut idx: usize = 0;
        proof {
            assert(0u32 < (1u32 << 0u32)) by (bit_vector);
        }
        loop
            invariant
                bs.wf(),
                bs.data_spec() == data,
                bs.item_start_spec() == old(bs).item_start_spec(),
                idx <= self.codes_spec().len(),
                num_bits <= 15,
                code < (1u32 << num_bits),
                idx < self.codes_spec().len() ==> num_bits <= self.codes_spec()[idx as int].1,
                bs.pos_spec() == p0 + num_bits,
                walk_spec(self.codes_spec(), data, p0, 0, 0, 0) == walk_spec(
                    self.codes_spec(),
                    data,
                    bs.pos_spec(),
                    idx as int,
                    code,
                    num_bits,
                ),
            decreases self.codes_spec().len() - idx,
        {
            if idx >= self.codes.len() {
                return Err(PackError::Decompress);
            }
            let (value, length) = self.codes[idx];
            let ghost pos_e = bs.pos_spec();
            let ghost code_e = code;
            let ghost nb_e = num_bits;
            let ghost k: nat = (length - num_bits) as nat;
            while num_bits < length
                invariant
                    bs.wf(),
                    bs.data_spec() == data,
                    bs.item_start_spec() == old(bs).item_start_spec(),
                    nb_e <= num_bits <= length,
                    code < (1u32 << num_bits),
                    bs.pos_spec() == pos_e + (num_bits - nb_e),
                    bs.pos_spec() == p0 + num_bits,
                    msb_extend(data, bs.pos_spec(), code, (length - num_bits) as nat)
                        == msb_extend(data, pos_e, code_e, k),
                decreases length - num_bits,
            {
                if !bs.has_bit() {
                    proof {
                        assert(pos_e + k > data.len() * 8);
                    }
                    return Err(PackError::Decompress);
                }
                let bit = bs.get_bit();
                proof {
                    let n = num_bits;
                    let c = code;
                    let b = bit;
                    assert(c < (1u32 << n) && b <= 1 && n < 15 ==> ((c << 1u32) | b) < (1u32 << (
                    n + 1) as u32)) by (bit_vector);
                }
                code = (code << 1u32) | bit;
                num_bits = num_bits + 1;
            }
            proof {
                bs.lemma_wf_bounds();
                assert(num_bits == length);
                assert(code == msb_extend(data, pos_e, code_e, k));
                assert(pos_e + k <= data.len() * 8);
            }
            if code == 0 {
                return Ok(value);
            }
            proof {
                if idx + 1 < self.codes_spec().len() {
                    assert(code_le(
                        self.codes_spec()[idx as int],
                        self.codes_spec()[idx as int + 1],
                    ));
                }
            }
            code = code - 1;
            idx = idx + 1;
        }
    }
}

} // verus!
