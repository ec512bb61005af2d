//! DEFLATE stream analysis.
//!
//! The analyser decodes a raw-deflate stream, records every decoding event as
//! a `BitstreamItem`, and attributes to each output byte a bit cost: a
//! literal pays its own Huffman code, a match spreads its total item cost
//! evenly over the bytes it produces. After decoding, costs are redistributed
//! from match copies toward their origin literals.
//!
//! Costs are held in fixed point: bits scaled by `COST_SCALE`, so that the
//! attribution arithmetic is exact integer arithmetic.

use vstd::prelude::*;

use crate::PackError;
use crate::SENTINEL;
use crate::bitstream::{Bitstream, BitstreamItem, bits_at};
use crate::huffman::{
    Huffman, HuffmanBuilder, codes_wf, huff_decode, lemma_decode_advance, range_codes, sort_codes,
};

verus! {

/// One fixed-point unit per bit of cost.
pub const COST_SCALE: i128 = 65536;

/// The scaled cost of an item of `bits` bits.
pub open spec fn mul_scale(bits: int) -> i128 {
    (bits * (COST_SCALE as int)) as i128
}

/// The scaled per-byte cost of a match of `len` bytes whose items hold
/// `bits` bits.
pub open spec fn match_cost(bits: int, len: int) -> i128 {
    ((bits * (COST_SCALE as int)) / len) as i128
}

/// One decoded LZ77 event, with the bitstream spans that produced it.
#[derive(Debug)]
pub enum LzItem {
    Literal { byte: u8, item: BitstreamItem },
    Match {
        length: u32,
        offset: u32,
        length_base: BitstreamItem,
        length_ext: BitstreamItem,
        offset_base: BitstreamItem,
        offset_ext: BitstreamItem,
    },
    EndOfBlock { item: BitstreamItem },
}

/// `(extra_bits, base_length)` for length symbols 257..=285.
pub open spec fn spec_len_entry(sym: u32) -> (u32, u32) {
    let i = sym - 257;
    if i < 8 {
        (0, (3 + i) as u32)
    } else if i < 12 {
        (1, (11 + 2 * (i - 8)) as u32)
    } else if i < 16 {
        (2, (19 + 4 * (i - 12)) as u32)
    } else if i < 20 {
        (3, (35 + 8 * (i - 16)) as u32)
    } else if i < 24 {
        (4, (67 + 16 * (i - 20)) as u32)
    } else if i < 28 {
        (5, (131 + 32 * (i - 24)) as u32)
    } else {
        (0, 258)
    }
}

/// `(extra_bits, base_distance)` for distance symbols 0..=29.
pub open spec fn spec_dist_entry(sym: u32) -> (u32, u32) {
    if sym < 4 {
        (0, (1 + sym) as u32)
    } else {
        let e = (sym - 2) / 2;
        let base = (1 + ((2 + (sym % 2)) as u32) * (1u32 << (e as u32))) as u32;
        (e as u32, base)
    }
}

#[verifier::when_used_as_spec(spec_len_entry)]
fn len_entry(sym: u32) -> (r: (u32, u32))
    requires
        257 <= sym <= 285,
    ensures
        r == spec_len_entry(sym),
{
    let i = sym - 257;
    if i < 8 {
        (0, 3 + i)
    } else if i < 12 {
        (1, 11 + 2 * (i - 8))
    } else if i < 16 {
        (2, 19 + 4 * (i - 12))
    } else if i < 20 {
        (3, 35 + 8 * (i - 16))
    } else if i < 24 {
        (4, 67 + 16 * (i - 20))
    } else if i < 28 {
        (5, 131 + 32 * (i - 24))
    } else {
        (0, 258)
    }
}

#[verifier::when_used_as_spec(spec_dist_entry)]
fn dist_entry(sym: u32) -> (r: (u32, u32))
    requires
        sym <= 29,
    ensures
        r == spec_dist_entry(sym),
{
    if sym < 4 {
        (0, 1 + sym)
    } else {
        let e = (sym - 2) / 2;
        proof {
            assert(e < 14);
            assert(1u32 << (e as u32) <= 0x2000u32) by (bit_vector)
                requires
                    e < 14;
            assert((1u32 << (e as u32)) >= 1) by (bit_vector)
                requires
                    e < 14;
        }
        let pw = 1u32 << e;
        let base = if sym % 2 == 0 {
            1 + 2 * pw
        } else {
            1 + 3 * pw
        };
        (e, base)
    }
}

/// The ghost state of the LZ77 decode: position in the bit stream, the four
/// per-output-byte arrays, and the items of the current block.
pub struct LzSt {
    pub pos: int,
    pub unpacked: Seq<u8>,
    pub lit_index: Seq<usize>,
    pub cost: Seq<i128>,
    pub btype: Seq<u8>,
    pub items: Seq<LzItem>,
}

impl LzSt {
    /// The four arrays stay aligned; each match copy points at an earlier
    /// byte that is itself a literal of equal value; costs are one item's
    /// bits spread over its bytes; block types are the two handled kinds.
    pub open spec fn wf(self) -> bool {
        &&& self.lit_index.len() == self.unpacked.len()
        &&& self.cost.len() == self.unpacked.len()
        &&& self.btype.len() == self.unpacked.len()
        &&& forall|i: int| 0 <= i < self.unpacked.len() ==> #[trigger] self.lit_index[i]
            == SENTINEL || (self.lit_index[i] < i && self.lit_index[self.lit_index[i] as int]
            == SENTINEL && self.unpacked[self.lit_index[i] as int] == self.unpacked[i])
        &&& forall|i: int| 0 <= i < self.cost.len() ==> 0 <= #[trigger] self.cost[i] <= 48
            * COST_SCALE
        &&& forall|i: int| 0 <= i < self.btype.len() ==> (#[trigger] self.btype[i] == 1
            || self.btype[i] == 2)
    }
}

/// Appends `n` bytes copied from index `base` onward, resolving each copied
/// byte's origin literal, at `c` cost units per byte, in block kind `bt`.
pub open spec fn lz_copy(st: LzSt, base: int, n: nat, c: i128, bt: u8) -> LzSt
    decreases n,
{
    if n == 0 {
        st
    } else {
        let li: usize = if st.lit_index[base] == SENTINEL {
            base as usize
        } else {
            st.lit_index[base]
        };
        let st1 = LzSt {
            pos: st.pos,
            unpacked: st.unpacked.push(st.unpacked[base]),
            lit_index: st.lit_index.push(li),
            cost: st.cost.push(c),
            btype: st.btype.push(bt),
            items: st.items,
        };
        lz_copy(st1, base + 1, (n - 1) as nat, c, bt)
    }
}

/// One step of the in-block LZ decode: a literal, a match, or the end of the
/// block. `None` is a malformed stream.
pub open spec fn lz_step(
    lit: Seq<(u32, u32)>,
    dist: Seq<(u32, u32)>,
    data: Seq<u8>,
    bt: u8,
    st: LzSt,
) -> Option<(LzSt, bool)> {
    match huff_decode(lit, data, st.pos) {
        None => None,
        Some((sym, p1)) => {
            let item0 = BitstreamItem {
                pos: st.pos as usize,
                length: (p1 - st.pos) as usize,
                bits: bits_at(data, st.pos, (p1 - st.pos) as nat),
            };
            if sym == 256 {
                Some(
                    (
                        LzSt {
                            pos: p1,
                            items: st.items.push(LzItem::EndOfBlock { item: item0 }),
                            ..st
                        },
                        true,
                    ),
                )
            } else if sym < 256 {
                Some(
                    (
                        LzSt {
                            pos: p1,
                            unpacked: st.unpacked.push(sym as u8),
                            lit_index: st.lit_index.push(SENTINEL),
                            cost: st.cost.push(mul_scale(p1 - st.pos)),
                            btype: st.btype.push(bt),
                            items: st.items.push(
                                LzItem::Literal { byte: sym as u8, item: item0 },
                            ),
                        },
                        false,
                    ),
                )
            } else if sym > 285 {
                None
            } else {
                let (len_extra, len_base) = spec_len_entry(sym);
                if p1 + len_extra > data.len() * 8 {
                    None
                } else {
                    let length = len_base + bits_at(data, p1, len_extra as nat);
                    let p2 = p1 + len_extra;
                    let len_ext_item = BitstreamItem {
                        pos: p1 as usize,
                        length: len_extra as usize,
                        bits: bits_at(data, p1, len_extra as nat),
                    };
                    match huff_decode(dist, data, p2) {
                        None => None,
                        Some((dsym, p3)) => {
                            if dsym > 29 {
                                None
                            } else {
                                let dist_base_item = BitstreamItem {
                                    pos: p2 as usize,
                                    length: (p3 - p2) as usize,
                                    bits: bits_at(data, p2, (p3 - p2) as nat),
                                };
                                let (dist_extra, dist_base) = spec_dist_entry(dsym);
                                if p3 + dist_extra > data.len() * 8 {
                                    None
                                } else {
                                    let distance = dist_base + bits_at(
                                        data,
                                        p3,
                                        dist_extra as nat,
                                    );
                                    let p4 = p3 + dist_extra;
                                    let dist_ext_item = BitstreamItem {
                                        pos: p3 as usize,
                                        length: dist_extra as usize,
                                        bits: bits_at(data, p3, dist_extra as nat),
                                    };
                                    if distance > st.unpacked.len() || st.unpacked.len()
                                        + length > usize::MAX {
                                        None
                                    } else {
                                        let c = match_cost(p4 - st.pos, length);
                                        let base = st.unpacked.len() - distance;
                                        let st1 = LzSt {
                                            items: st.items.push(
                                                LzItem::Match {
                                                    length: length as u32,
                                                    offset: distance as u32,
                                                    length_base: item0,
                                                    length_ext: len_ext_item,
                                                    offset_base: dist_base_item,
                                                    offset_ext: dist_ext_item,
                                                },
                                            ),
                                            pos: p4,
                                            ..st
                                        };
                                        Some((lz_copy(st1, base, length as nat, c, bt), false))
                                    }
                                }
                            }
                        },
                    }
                }
            }
        },
    }
}

/// A step advances the bit position and cannot shrink the output.
pub proof fn lemma_lz_step_advance(
    lit: Seq<(u32, u32)>,
    dist: Seq<(u32, u32)>,
    data: Seq<u8>,
    bt: u8,
    st: LzSt,
)
    requires
        codes_wf(lit),
        codes_wf(dist),
    ensures
        lz_step(lit, dist, data, bt, st) matches Some(r) ==> {
            &&& st.pos + 1 <= r.0.pos <= st.pos + 48
            &&& r.0.pos <= data.len() * 8
            &&& r.0.unpacked.len() >= st.unpacked.len()
        },
{
    lemma_decode_advance(lit, data, st.pos);
    if let Some((sym, p1)) = huff_decode(lit, data, st.pos) {
        if 256 < sym <= 285 {
            let (len_extra, len_base) = spec_len_entry(sym);
            assert(len_extra <= 5);
            let p2 = p1 + len_extra;
            lemma_decode_advance(dist, data, p2);
            if p1 + len_extra <= data.len() * 8 {
                if let Some((dsym, p3)) = huff_decode(dist, data, p2) {
                    if dsym <= 29 {
                        let (dist_extra, dist_base) = spec_dist_entry(dsym);
                        assert(dist_extra <= 13);
                        let p4 = p3 + dist_extra;
                        if p4 <= data.len() * 8 {
                            let (de2, db2) = spec_dist_entry(dsym);
                            let distance = db2 + bits_at(data, p3, de2 as nat);
                            let length = len_base + bits_at(data, p1, len_extra as nat);
                            if distance <= st.unpacked.len() && st.unpacked.len() + length
                                <= usize::MAX {
                                let c = match_cost(p4 - st.pos, length);
                                let base = st.unpacked.len() - distance;
                                let st1 = lz_step_match_state(
                                    lit, dist, data, bt, st, sym, p1,
                                );
                                lemma_lz_copy_grows(st1, base, length as nat, c, bt);
                            }
                        }
                    }
                }
            }
        }
    }
}

/// The match state right before the copy; mirrors the construction inside
/// `lz_step`.
pub open spec fn lz_step_match_state(
    lit: Seq<(u32, u32)>,
    dist: Seq<(u32, u32)>,
    data: Seq<u8>,
    bt: u8,
    st: LzSt,
    sym: u32,
    p1: int,
) -> LzSt {
    let item0 = BitstreamItem {
        pos: st.pos as usize,
        length: (p1 - st.pos) as usize,
        bits: bits_at(data, st.pos, (p1 - st.pos) as nat),
    };
    let (len_extra, len_base) = spec_len_entry(sym);
    let length = len_base + bits_at(data, p1, len_extra as nat);
    let p2 = p1 + len_extra;
    let len_ext_item = BitstreamItem {
        pos: p1 as usize,
        length: len_extra as usize,
        bits: bits_at(data, p1, len_extra as nat),
    };
    let (dsym, p3) = huff_decode(dist, data, p2).unwrap();
    let dist_base_item = BitstreamItem {
        pos: p2 as usize,
        length: (p3 - p2) as usize,
        bits: bits_at(data, p2, (p3 - p2) as nat),
    };
    let (dist_extra, dist_base) = spec_dist_entry(dsym);
    let distance = dist_base + bits_at(data, p3, dist_extra as nat);
    let p4 = p3 + dist_extra;
    let dist_ext_item = BitstreamItem {
        pos: p3 as usize,
        length: dist_extra as usize,
        bits: bits_at(data, p3, dist_extra as nat),
    };
    LzSt {
        items: st.items.push(
            LzItem::Match {
                length: length as u32,
                offset: distance as u32,
                length_base: item0,
                length_ext: len_ext_item,
                offset_base: dist_base_item,
                offset_ext: dist_ext_item,
            },
        ),
        pos: p4,
        ..st
    }
}

pub proof fn lemma_lz_copy_grows(st: LzSt, base: int, n: nat, c: i128, bt: u8)
    ensures
        lz_copy(st, base, n, c, bt).unpacked.len() == st.unpacked.len() + n,
        lz_copy(st, base, n, c, bt).pos == st.pos,
    decreases n,
{
    if n > 0 {
        let li: usize = if st.lit_index[base] == SENTINEL {
            base as usize
        } else {
            st.lit_index[base]
        };
        let st1 = LzSt {
            pos: st.pos,
            unpacked: st.unpacked.push(st.unpacked[base]),
            lit_index: st.lit_index.push(li),
            cost: st.cost.push(c),
            btype: st.btype.push(bt),
            items: st.items,
        };
        lemma_lz_copy_grows(st1, base + 1, (n - 1) as nat, c, bt);
    }
}

/// A successful run only advances the position and keeps it in the stream.
pub proof fn lemma_lz_run_advance(
    lit: Seq<(u32, u32)>,
    dist: Seq<(u32, u32)>,
    data: Seq<u8>,
    bt: u8,
    st: LzSt,
)
    requires
        codes_wf(lit),
        codes_wf(dist),
        0 <= st.pos <= data.len() * 8,
    ensures
        lz_run(lit, dist, data, bt, st) matches Some(r) ==> st.pos < r.pos <= data.len() * 8,
    decreases data.len() * 8 - st.pos,
{
    lemma_lz_step_advance(lit, dist, data, bt, st);
    if let Some((st1, end)) = lz_step(lit, dist, data, bt, st) {
        if !end {
            lemma_lz_run_advance(lit, dist, data, bt, st1);
        }
    }
}

/// Runs `lz_step` until the end-of-block symbol. `None` is a malformed
/// stream.
pub open spec fn lz_run(
    lit: Seq<(u32, u32)>,
    dist: Seq<(u32, u32)>,
    data: Seq<u8>,
    bt: u8,
    st: LzSt,
) -> Option<LzSt>
    decreases data.len() * 8 - st.pos,
    when codes_wf(lit) && codes_wf(dist) && st.pos <= data.len() * 8
{
    match lz_step(lit, dist, data, bt, st) {
        None => None,
        Some((st1, end)) => if end {
            Some(st1)
        } else {
            proof {
                lemma_lz_step_advance(lit, dist, data, bt, st);
            }
            lz_run(lit, dist, data, bt, st1)
        },
    }
}


/// One decoded event of the dynamic-Huffman header: an explicit code length,
/// a repeat of the previous length, or a run of zeros.
#[derive(Debug)]
pub enum HuffmanHeaderCode {
    Length { huff_item: BitstreamItem, length: u32 },
    Repeat { huff_item: BitstreamItem, count_item: BitstreamItem, count: u32 },
    Skip { huff_item: BitstreamItem, count_item: BitstreamItem, count: u32 },
}

/// `n` copies of `v`.
pub open spec fn rep_u32(v: u32, n: nat) -> Seq<u32> {
    Seq::new(n, |i: int| v)
}

/// The order in which the code-length alphabet's lengths are stored.
pub open spec fn spec_clen_order(i: int) -> u32 {
    seq![16u32, 17, 18, 0, 8, 7, 9, 6, 10, 5, 11, 4, 12, 3, 13, 2, 14, 1, 15][i]
}

/// The span of the bits `pos..p1` as an item.
pub open spec fn item_span(data: Seq<u8>, pos: int, p1: int) -> BitstreamItem {
    BitstreamItem {
        pos: pos as usize,
        length: (p1 - pos) as usize,
        bits: bits_at(data, pos, (p1 - pos) as nat),
    }
}

/// Reads code lengths with the code-length Huffman until exactly `target`
/// lengths are present; repeats that overshoot, a repeat with no previous
/// length, or a symbol past the alphabet are malformed.
pub open spec fn clen_run(
    h: Seq<(u32, u32)>,
    data: Seq<u8>,
    pos: int,
    lens: Seq<u32>,
    target: int,
    hdr: Seq<HuffmanHeaderCode>,
) -> Option<(Seq<u32>, int, Seq<HuffmanHeaderCode>)>
    decreases data.len() * 8 - pos,
    when codes_wf(h) && pos <= data.len() * 8
{
    if lens.len() >= target {
        Some((lens, pos, hdr))
    } else {
        match huff_decode(h, data, pos) {
            None => None,
            Some((sym, p1)) => {
                proof {
                    lemma_decode_advance(h, data, pos);
                }
                let huff_item = item_span(data, pos, p1);
                if sym == 16 {
                    if lens.len() == 0 || p1 + 2 > data.len() * 8 {
                        None
                    } else {
                        let count = (bits_at(data, p1, 2) + 3) as u32;
                        let count_item = item_span(data, p1, p1 + 2);
                        if lens.len() + count > target {
                            None
                        } else {
                            clen_run(
                                h,
                                data,
                                p1 + 2,
                                lens + rep_u32(lens.last(), count as nat),
                                target,
                                hdr.push(
                                    HuffmanHeaderCode::Repeat { huff_item, count_item, count },
                                ),
                            )
                        }
                    }
                } else if sym == 17 || sym == 18 {
                    let nbits: nat = if sym == 17 { 3nat } else { 7nat };
                    let base: u32 = if sym == 17 { 3u32 } else { 11u32 };
                    if p1 + nbits > data.len() * 8 {
                        None
                    } else {
                        let count = (bits_at(data, p1, nbits) + base) as u32;
                        let count_item = item_span(data, p1, p1 + nbits);
                        if lens.len() + count > target {
                            None
                        } else {
                            clen_run(
                                h,
                                data,
                                p1 + nbits,
                                lens + rep_u32(0, count as nat),
                                target,
                                hdr.push(
                                    HuffmanHeaderCode::Skip { huff_item, count_item, count },
                                ),
                            )
                        }
                    }
                } else if sym <= 15 {
                    clen_run(
                        h,
                        data,
                        p1,
                        lens.push(sym),
                        target,
                        hdr.push(HuffmanHeaderCode::Length { huff_item, length: sym }),
                    )
                } else {
                    None
                }
            },
        }
    }
}

/// A successful code-length read yields exactly `target` lengths, all at most
/// 15, and ends within the stream.
pub proof fn lemma_clen_run_props(
    h: Seq<(u32, u32)>,
    data: Seq<u8>,
    pos: int,
    lens: Seq<u32>,
    target: int,
    hdr: Seq<HuffmanHeaderCode>,
)
    requires
        codes_wf(h),
        0 <= pos <= data.len() * 8,
        forall|i: int| 0 <= i < lens.len() ==> #[trigger] lens[i] <= 15,
    ensures
        clen_run(h, data, pos, lens, target, hdr) matches Some(r) ==> {
            &&& r.0.len() >= target
            &&& forall|i: int| 0 <= i < r.0.len() ==> #[trigger] r.0[i] <= 15
            &&& pos <= r.1 <= data.len() * 8
        },
    decreases data.len() * 8 - pos,
{
    if lens.len() >= target {
    } else if let Some((sym, p1)) = huff_decode(h, data, pos) {
        lemma_decode_advance(h, data, pos);
        if sym == 16 {
            if lens.len() > 0 && p1 + 2 <= data.len() * 8 {
                let count = (bits_at(data, p1, 2) + 3) as u32;
                if lens.len() + count <= target {
                    let lens2 = lens + rep_u32(lens.last(), count as nat);
                    assert(forall|i: int| 0 <= i < lens2.len() ==> #[trigger] lens2[i] <= 15);
                    let hdr2 = hdr.push(
                        HuffmanHeaderCode::Repeat {
                            huff_item: item_span(data, pos, p1),
                            count_item: item_span(data, p1, p1 + 2),
                            count,
                        },
                    );
                    lemma_clen_run_props(h, data, p1 + 2, lens2, target, hdr2);
                }
            }
        } else if sym == 17 || sym == 18 {
            let nbits: nat = if sym == 17 { 3nat } else { 7nat };
            let base: u32 = if sym == 17 { 3u32 } else { 11u32 };
            if p1 + nbits <= data.len() * 8 {
                let count = (bits_at(data, p1, nbits) + base) as u32;
                if lens.len() + count <= target {
                    let lens2 = lens + rep_u32(0, count as nat);
                    assert(forall|i: int| 0 <= i < lens2.len() ==> #[trigger] lens2[i] <= 15);
                    let hdr2 = hdr.push(
                        HuffmanHeaderCode::Skip {
                            huff_item: item_span(data, pos, p1),
                            count_item: item_span(data, p1, p1 + nbits),
                            count,
                        },
                    );
                    lemma_clen_run_props(h, data, p1 + nbits, lens2, target, hdr2);
                }
            }
        } else if sym <= 15 {
            let hdr2 = hdr.push(
                HuffmanHeaderCode::Length { huff_item: item_span(data, pos, p1), length: sym },
            );
            lemma_clen_run_props(h, data, p1, lens.push(sym), target, hdr2);
        }
    }
}

/// The `(symbol, length)` pairs of the non-zero entries of the `n_done`
/// lengths from `lo` on, symbols relative to `lo`.
pub open spec fn pairs_of(lens: Seq<u32>, lo: int, n_done: int) -> Seq<(u32, u32)>
    decreases n_done,
{
    if n_done <= 0 {
        Seq::empty()
    } else {
        let prev = pairs_of(lens, lo, n_done - 1);
        if lens[lo + n_done - 1] == 0 {
            prev
        } else {
            prev.push((((n_done - 1) as u32), lens[lo + n_done - 1]))
        }
    }
}

pub proof fn lemma_pairs_of_wf(lens: Seq<u32>, lo: int, n_done: int)
    requires
        forall|i: int| 0 <= i < lens.len() ==> #[trigger] lens[i] <= 15,
        lo >= 0,
        lo + n_done <= lens.len(),
    ensures
        forall|i: int| 0 <= i < pairs_of(lens, lo, n_done).len() ==> 1 <= (#[trigger] pairs_of(
            lens,
            lo,
            n_done,
        )[i]).1 <= 15,
    decreases n_done,
{
    if n_done > 0 {
        lemma_pairs_of_wf(lens, lo, n_done - 1);
        let prev = pairs_of(lens, lo, n_done - 1);
        let r = pairs_of(lens, lo, n_done);
        assert forall|i: int| 0 <= i < r.len() implies 1 <= (#[trigger] r[i]).1 <= 15 by {
            if i < prev.len() {
                assert(r[i] == prev[i]);
            }
        }
    }
}

/// The static literal/length code of DEFLATE.
pub open spec fn static_lit_codes() -> Seq<(u32, u32)> {
    sort_codes(
        range_codes(0, 143, 8) + range_codes(144, 255, 9) + range_codes(256, 279, 7)
            + range_codes(280, 287, 8),
    )
}

/// The static distance code of DEFLATE.
pub open spec fn static_dist_codes() -> Seq<(u32, u32)> {
    sort_codes(range_codes(0, 31, 5))
}

/// One decoded block, as the model sees it: its three header bits, its kind,
/// and its LZ items.
pub struct BlockRec {
    pub header_item: BitstreamItem,
    pub bt: u8,
    pub lz: Seq<LzItem>,
}

/// The literal/length and distance codes of a dynamic block whose header
/// lengths are `lens` under `hlit`/`hdist`.
pub open spec fn dyn_lit_codes(lens: Seq<u32>, hlit: int) -> Seq<(u32, u32)> {
    sort_codes(pairs_of(lens, 0, hlit + 257))
}

pub open spec fn dyn_dist_codes(lens: Seq<u32>, hlit: int, hdist: int) -> Seq<(u32, u32)> {
    sort_codes(pairs_of(lens, hlit + 257, hdist + 1))
}

/// Reads a dynamic block's Huffman tables starting at `p` (just after the
/// three header bits): the literal/length codes, the distance codes, and the
/// position after the header.
pub open spec fn dyn_header(data: Seq<u8>, p: int) -> Option<
    (Seq<(u32, u32)>, Seq<(u32, u32)>, int),
> {
    if p + 14 > data.len() * 8 {
        None
    } else {
        let hlit = bits_at(data, p, 5) as int;
        let hdist = bits_at(data, p + 5, 5) as int;
        let hclen = bits_at(data, p + 10, 4) as int;
        let p2 = p + 14;
        if p2 + 3 * (hclen + 4) > data.len() * 8 {
            None
        } else {
            let hcodes = sort_codes(clen_pairs(data, p2, hclen + 4));
            let p3 = p2 + 3 * (hclen + 4);
            let target = hlit + 257 + hdist + 1;
            match clen_run(hcodes, data, p3, Seq::empty(), target, Seq::empty()) {
                None => None,
                Some((lens, p4, hdr)) => Some(
                    (dyn_lit_codes(lens, hlit), dyn_dist_codes(lens, hlit, hdist), p4),
                ),
            }
        }
    }
}

/// The two table code lists of a well-formed dynamic header are well-formed,
/// and the header ends inside the stream.
pub proof fn lemma_dyn_header_wf(data: Seq<u8>, p: int)
    requires
        0 <= p <= data.len() * 8,
    ensures
        dyn_header(data, p) matches Some(r) ==> {
            &&& codes_wf(r.0)
            &&& codes_wf(r.1)
            &&& p <= r.2 <= data.len() * 8
        },
{
    if p + 14 <= data.len() * 8 {
        let hlit = bits_at(data, p, 5) as int;
        let hdist = bits_at(data, p + 5, 5) as int;
        let hclen = bits_at(data, p + 10, 4) as int;
        let p2 = p + 14;
        if p2 + 3 * (hclen + 4) <= data.len() * 8 {
            let hcodes = sort_codes(clen_pairs(data, p2, hclen + 4));
            let p3 = p2 + 3 * (hclen + 4);
            let target = hlit + 257 + hdist + 1;
            lemma_clen_pairs_wf(data, p2, hclen + 4);
            crate::huffman::lemma_sort_codes_wf(clen_pairs(data, p2, hclen + 4));
            if let Some((lens, p4, hdr)) = clen_run(
                hcodes,
                data,
                p3,
                Seq::empty(),
                target,
                Seq::empty(),
            ) {
                lemma_clen_run_props(hcodes, data, p3, Seq::empty(), target, Seq::empty());
                lemma_pairs_of_wf(lens, 0, hlit + 257);
                lemma_pairs_of_wf(lens, hlit + 257, hdist + 1);
                crate::huffman::lemma_sort_codes_wf(pairs_of(lens, 0, hlit + 257));
                crate::huffman::lemma_sort_codes_wf(pairs_of(lens, hlit + 257, hdist + 1));
            }
        }
    }
}

/// Decodes one dynamic-Huffman block body starting at `p` (just after the
/// three header bits).
pub open spec fn dyn_block_run(data: Seq<u8>, st: LzSt, p: int) -> Option<LzSt> {
    match dyn_header(data, p) {
        None => None,
        Some((lit, dst, p4)) => lz_run(lit, dst, data, 2, LzSt { pos: p4, ..st }),
    }
}

/// A successful dynamic block decode advances the position.
pub proof fn lemma_dyn_block_run_advance(data: Seq<u8>, st: LzSt, p: int)
    requires
        0 <= p <= data.len() * 8,
    ensures
        dyn_block_run(data, st, p) matches Some(r) ==> p < r.pos <= data.len() * 8,
{
    lemma_dyn_header_wf(data, p);
    if let Some((lit, dst, p4)) = dyn_header(data, p) {
        lemma_lz_run_advance(lit, dst, data, 2, LzSt { pos: p4, ..st });
    }
}

/// Decodes blocks until one is marked final. `None` is a malformed stream,
/// including the stored kind, which the analyser does not handle.
#[verifier::opaque]
pub open spec fn stream_run(data: Seq<u8>, st: LzSt, blocks: Seq<BlockRec>) -> Option<
    (LzSt, Seq<BlockRec>),
>
    decreases data.len() * 8 - st.pos,
    when 0 <= st.pos <= data.len() * 8 && st.items.len() == 0
{
    if st.pos + 3 > data.len() * 8 {
        None
    } else {
        let bfinal = bits_at(data, st.pos, 1);
        let btv = bits_at(data, st.pos + 1, 2);
        let header_item = item_span(data, st.pos, st.pos + 3);
        let p = st.pos + 3;
        let body = if btv == 1 {
            proof {
                lemma_static_codes_wf();
                lemma_lz_run_advance(
                    static_lit_codes(),
                    static_dist_codes(),
                    data,
                    1,
                    LzSt { pos: p, ..st },
                );
            }
            lz_run(static_lit_codes(), static_dist_codes(), data, 1, LzSt { pos: p, ..st })
        } else if btv == 2 {
            proof {
                lemma_dyn_block_run_advance(data, st, p);
            }
            dyn_block_run(data, st, p)
        } else {
            None
        };
        match body {
            None => None,
            Some(st1) => {
                let blocks1 = blocks.push(
                    BlockRec { header_item, bt: btv as u8, lz: st1.items },
                );
                let st2 = LzSt { items: Seq::empty(), ..st1 };
                if bfinal == 1 {
                    Some((st2, blocks1))
                } else {
                    stream_run(data, st2, blocks1)
                }
            },
        }
    }
}

/// The `(symbol, 3-bit length)` pairs of the first `n` entries of the
/// code-length header, zero lengths dropped.
pub open spec fn clen_pairs(data: Seq<u8>, p2: int, n: int) -> Seq<(u32, u32)>
    decreases n,
{
    if n <= 0 {
        Seq::empty()
    } else {
        let prev = clen_pairs(data, p2, n - 1);
        let l = bits_at(data, p2 + 3 * (n - 1), 3);
        if l == 0 {
            prev
        } else {
            prev.push((spec_clen_order(n - 1), l))
        }
    }
}

pub proof fn lemma_clen_pairs_wf(data: Seq<u8>, p2: int, n: int)
    ensures
        forall|i: int| 0 <= i < clen_pairs(data, p2, n).len() ==> 1 <= (#[trigger] clen_pairs(
            data,
            p2,
            n,
        )[i]).1 <= 15,
    decreases n,
{
    if n > 0 {
        lemma_clen_pairs_wf(data, p2, n - 1);
        lemma_bits_at_3_bound(data, p2 + 3 * (n - 1));
        let prev = clen_pairs(data, p2, n - 1);
        let r = clen_pairs(data, p2, n);
        assert forall|i: int| 0 <= i < r.len() implies 1 <= (#[trigger] r[i]).1 <= 15 by {
            if i < prev.len() {
                assert(r[i] == prev[i]);
            }
        }
    }
}

/// A 3-bit field is below 8.
pub proof fn lemma_bits_at_3_bound(data: Seq<u8>, pos: int)
    ensures
        bits_at(data, pos, 3) <= 7,
{
    let b0 = bits_at(data, pos, 0);
    let b1 = bits_at(data, pos, 1);
    let b2 = bits_at(data, pos, 2);
    let b3 = bits_at(data, pos, 3);
    lemma_bit_at_bound(data, pos);
    lemma_bit_at_bound(data, pos + 1);
    lemma_bit_at_bound(data, pos + 2);
    let x0 = crate::bitstream::bit_at(data, pos);
    let x1 = crate::bitstream::bit_at(data, pos + 1);
    let x2 = crate::bitstream::bit_at(data, pos + 2);
    assert(b1 == b0 | (x0 << 0u32));
    assert(b2 == b1 | (x1 << 1u32));
    assert(b3 == b2 | (x2 << 2u32));
    assert(x0 <= 1 && x1 <= 1 && x2 <= 1 ==> (((0u32 | (x0 << 0u32)) | (x1 << 1u32)) | (x2
        << 2u32)) <= 7) by (bit_vector);
}

/// A single stream bit is 0 or 1.
pub proof fn lemma_bit_at_bound(data: Seq<u8>, pos: int)
    ensures
        crate::bitstream::bit_at(data, pos) <= 1,
{
    let byte = data[pos / 8] as u32;
    let sh = (pos % 8) as u32;
    assert((byte >> sh) & 1 <= 1) by (bit_vector);
}

/// The static codes are well-formed.
pub proof fn lemma_static_codes_wf()
    ensures
        codes_wf(static_lit_codes()),
        codes_wf(static_dist_codes()),
{
    let lit = range_codes(0, 143, 8) + range_codes(144, 255, 9) + range_codes(256, 279, 7)
        + range_codes(280, 287, 8);
    assert(forall|i: int| 0 <= i < lit.len() ==> 1 <= (#[trigger] lit[i]).1 <= 15);
    crate::huffman::lemma_sort_codes_wf(lit);
    let dst = range_codes(0, 31, 5);
    assert(forall|i: int| 0 <= i < dst.len() ==> 1 <= (#[trigger] dst[i]).1 <= 15);
    crate::huffman::lemma_sort_codes_wf(dst);
}



/// Bounds of the distance table.
pub proof fn lemma_dist_entry_bounds(sym: u32)
    requires
        sym <= 29,
    ensures
        spec_dist_entry(sym).0 <= 13,
        1 <= spec_dist_entry(sym).1 <= 24577,
{
    if sym >= 4 {
        let eu = ((sym - 2) / 2) as u32;
        assert(eu <= 13);
        assert(eu <= 13 ==> 1u32 <= (1u32 << eu) && (1u32 << eu) <= 0x2000) by (bit_vector);
        let m = (2 + (sym % 2)) as u32;
        let p = 1u32 << eu;
        assert(2 <= m <= 3);
        assert(m * p <= 3 * 0x2000 && m * p >= 2) by (nonlinear_arith)
            requires
                2 <= m <= 3 && 1 <= p <= 0x2000;
    }
}

/// Division of a bounded non-negative quantity stays bounded.
proof fn lemma_div_bound(a: int, b: int, m: int)
    requires
        0 <= a <= m,
        b >= 1,
    ensures
        0 <= a / b <= m,
{
    assert(0 <= a / b <= a) by (nonlinear_arith)
        requires
            0 <= a && b >= 1;
}

/// Copying preserves well-formedness: every copied byte records an origin
/// literal of equal value.
pub proof fn lemma_lz_copy_wf(st: LzSt, base: int, n: nat, c: i128, bt: u8)
    requires
        st.wf(),
        0 <= base,
        n > 0 ==> base < st.unpacked.len(),
        0 <= c <= 48 * COST_SCALE,
        bt == 1 || bt == 2,
        st.unpacked.len() + n <= usize::MAX,
    ensures
        lz_copy(st, base, n, c, bt).wf(),
        lz_copy(st, base, n, c, bt).unpacked.len() == st.unpacked.len() + n,
        lz_copy(st, base, n, c, bt).pos == st.pos,
        lz_copy(st, base, n, c, bt).items == st.items,
    decreases n,
{
    if n > 0 {
        let l = st.unpacked.len() as int;
        let li: usize = if st.lit_index[base] == SENTINEL {
            base as usize
        } else {
            st.lit_index[base]
        };
        let st1 = LzSt {
            pos: st.pos,
            unpacked: st.unpacked.push(st.unpacked[base]),
            lit_index: st.lit_index.push(li),
            cost: st.cost.push(c),
            btype: st.btype.push(bt),
            items: st.items,
        };
        assert(st1.wf()) by {
            assert forall|i: int| 0 <= i < st1.unpacked.len() implies #[trigger] st1.lit_index[i]
                == SENTINEL || (st1.lit_index[i] < i && st1.lit_index[st1.lit_index[i] as int]
                == SENTINEL && st1.unpacked[st1.lit_index[i] as int] == st1.unpacked[i]) by {
                if i < l {
                    assert(st1.lit_index[i] == st.lit_index[i]);
                    assert(st1.unpacked[i] == st.unpacked[i]);
                } else {
                    assert(st1.lit_index[i] == li);
                    assert(st1.unpacked[i] == st.unpacked[base]);
                }
            }
        }
        lemma_lz_copy_wf(st1, base + 1, (n - 1) as nat, c, bt);
    }
}

/// One step preserves well-formedness.
pub proof fn lemma_lz_step_wf(
    lit: Seq<(u32, u32)>,
    dist: Seq<(u32, u32)>,
    data: Seq<u8>,
    bt: u8,
    st: LzSt,
)
    requires
        codes_wf(lit),
        codes_wf(dist),
        st.wf(),
        0 <= st.pos,
        bt == 1 || bt == 2,
    ensures
        lz_step(lit, dist, data, bt, st) matches Some(r) ==> r.0.wf(),
{
    lemma_decode_advance(lit, data, st.pos);
    if let Some((sym, p1)) = huff_decode(lit, data, st.pos) {
        if sym == 256 {
        } else if sym < 256 {
            let stl = lz_step(lit, dist, data, bt, st).unwrap().0;
            assert(0 <= mul_scale(p1 - st.pos) <= 48 * COST_SCALE);
            assert forall|i: int| 0 <= i < stl.unpacked.len() implies #[trigger] stl.lit_index[i]
                == SENTINEL || (stl.lit_index[i] < i && stl.lit_index[stl.lit_index[i] as int]
                == SENTINEL && stl.unpacked[stl.lit_index[i] as int] == stl.unpacked[i]) by {
                if i < st.unpacked.len() {
                    assert(stl.lit_index[i] == st.lit_index[i]);
                    assert(stl.unpacked[i] == st.unpacked[i]);
                }
            }
        } else if sym <= 285 {
            let (len_extra, len_base) = spec_len_entry(sym);
            let p2 = p1 + len_extra;
            lemma_decode_advance(dist, data, p2);
            if p2 <= data.len() * 8 {
                if let Some((dsym, p3)) = huff_decode(dist, data, p2) {
                    if dsym <= 29 {
                        let (dist_extra, dist_base) = spec_dist_entry(dsym);
                        let p4 = p3 + dist_extra;
                        if p4 <= data.len() * 8 {
                            let distance = dist_base + bits_at(data, p3, dist_extra as nat);
                            let length = len_base + bits_at(data, p1, len_extra as nat);
                            if distance <= st.unpacked.len() && st.unpacked.len() + length
                                <= usize::MAX {
                                crate::bitstream::lemma_bits_at_bound(
                                    data,
                                    p1,
                                    len_extra as nat,
                                );
                                assert(len_extra <= 5);
                                assert(bits_at(data, p1, len_extra as nat) < (1u32 << (len_extra
                                    as u32)));
                                assert((1u32 << 0u32) == 1 && (1u32 << 1u32) == 2 && (1u32
                                    << 2u32) == 4 && (1u32 << 3u32) == 8 && (1u32 << 4u32) == 16
                                    && (1u32 << 5u32) == 32) by (bit_vector);
                                assert(length <= 258);
                                assert(length >= 3);
                                let c = match_cost(p4 - st.pos, length);
                                assert(p4 - st.pos <= 48);
                                lemma_div_bound(
                                    (p4 - st.pos) * (COST_SCALE as int),
                                    length as int,
                                    48 * (COST_SCALE as int),
                                );
                                let base = st.unpacked.len() - distance;
                                lemma_dist_entry_bounds(dsym);
                                assert(distance >= 1);
                                let st1 = lz_step_match_state(lit, dist, data, bt, st, sym, p1);
                                assert(st1.wf());
                                lemma_lz_copy_wf(st1, base, length as nat, c, bt);
                            }
                        }
                    }
                }
            }
        }
    }
}

/// A whole block run preserves well-formedness.
pub proof fn lemma_lz_run_wf(
    lit: Seq<(u32, u32)>,
    dist: Seq<(u32, u32)>,
    data: Seq<u8>,
    bt: u8,
    st: LzSt,
)
    requires
        codes_wf(lit),
        codes_wf(dist),
        st.wf(),
        0 <= st.pos <= data.len() * 8,
        bt == 1 || bt == 2,
    ensures
        lz_run(lit, dist, data, bt, st) matches Some(r) ==> r.wf(),
    decreases data.len() * 8 - st.pos,
{
    lemma_lz_step_advance(lit, dist, data, bt, st);
    if let Some((st1, end)) = lz_step(lit, dist, data, bt, st) {
        lemma_lz_step_wf(lit, dist, data, bt, st);
        if !end {
            lemma_lz_run_wf(lit, dist, data, bt, st1);
        }
    }
}

/// One step grows the output by at most 258 bytes.
pub proof fn lemma_lz_step_growth(
    lit: Seq<(u32, u32)>,
    dist: Seq<(u32, u32)>,
    data: Seq<u8>,
    bt: u8,
    st: LzSt,
)
    requires
        codes_wf(lit),
        codes_wf(dist),
    ensures
        lz_step(lit, dist, data, bt, st) matches Some(r) ==> r.0.unpacked.len()
            <= st.unpacked.len() + 258,
{
    if let Some((sym, p1)) = huff_decode(lit, data, st.pos) {
        if 256 < sym <= 285 {
            let (len_extra, len_base) = spec_len_entry(sym);
            let p2 = p1 + len_extra;
            if p2 <= data.len() * 8 {
                if let Some((dsym, p3)) = huff_decode(dist, data, p2) {
                    if dsym <= 29 {
                        let (dist_extra, dist_base) = spec_dist_entry(dsym);
                        let p4 = p3 + dist_extra;
                        if p4 <= data.len() * 8 {
                            let distance = dist_base + bits_at(data, p3, dist_extra as nat);
                            let length = len_base + bits_at(data, p1, len_extra as nat);
                            if distance <= st.unpacked.len() && st.unpacked.len() + length
                                <= usize::MAX {
                                crate::bitstream::lemma_bits_at_bound(data, p1, len_extra as nat);
                                assert(len_extra <= 5);
                                assert((1u32 << 0u32) == 1 && (1u32 << 1u32) == 2 && (1u32
                                    << 2u32) == 4 && (1u32 << 3u32) == 8 && (1u32 << 4u32) == 16
                                    && (1u32 << 5u32) == 32) by (bit_vector);
                                assert(length <= 258);
                                let c = match_cost(p4 - st.pos, length);
                                let base = st.unpacked.len() - distance;
                                let st1 = lz_step_match_state(lit, dist, data, bt, st, sym, p1);
                                lemma_lz_copy_grows(st1, base, length as nat, c, bt);
                            }
                        }
                    }
                }
            }
        }
    }
}

/// What the whole analyser decodes from a raw-deflate stream, before cost
/// redistribution.
pub open spec fn decode_model(data: Seq<u8>) -> Option<(LzSt, Seq<BlockRec>)> {
    stream_run(
        data,
        LzSt {
            pos: 0,
            unpacked: Seq::empty(),
            lit_index: Seq::empty(),
            cost: Seq::empty(),
            btype: Seq::empty(),
            items: Seq::empty(),
        },
        Seq::empty(),
    )
}


/// The four per-output-byte arrays of the analysis.
#[derive(Debug)]
pub struct AnalysisData {
    pub unpacked: Vec<u8>,
    pub literal_index: Vec<usize>,
    pub cost: Vec<i128>,
    pub block_type: Vec<u8>,
}

impl AnalysisData {
    /// The decode state these arrays stand for, at stream position `pos` with
    /// the current block's `items`.
    pub open spec fn st_of(&self, pos: int, items: Seq<LzItem>) -> LzSt {
        LzSt {
            pos,
            unpacked: self.unpacked@,
            lit_index: self.literal_index@,
            cost: self.cost@,
            btype: self.block_type@,
            items,
        }
    }
}

/// Decodes one match once its length symbol `sym` is read: length extra bits,
/// distance code and extra bits, then the back-copy into the arrays.
#[verifier::loop_isolation(false)]
#[verifier::rlimit(60)]
fn decode_match(
    bs: &mut Bitstream<'_>,
    d: &mut AnalysisData,
    items: &mut Vec<LzItem>,
    bt: u8,
    dist_h: &Huffman,
    sym: u32,
    lit_item: BitstreamItem,
    litc: Ghost<Seq<(u32, u32)>>,
) -> (r: Result<(), PackError>)
    requires
        dist_h.wf(),
        old(bs).wf(),
        old(bs).item_start_spec() == old(bs).pos_spec(),
        bt == 1 || bt == 2,
        256 < sym <= 285,
        old(d).st_of(old(bs).pos_spec() - lit_item.length, old(items)@).wf(),
        huff_decode(
            litc@,
            old(bs).data_spec(),
            old(bs).pos_spec() - lit_item.length,
        ) == Some((sym, old(bs).pos_spec())),
        lit_item.pos == old(bs).pos_spec() - lit_item.length,
        lit_item.length <= 15,
        lit_item.bits == bits_at(
            old(bs).data_spec(),
            lit_item.pos as int,
            lit_item.length as nat,
        ),
    ensures
        final(bs).wf(),
        final(bs).data_spec() == old(bs).data_spec(),
        match r {
            Ok(()) => {
                &&& final(bs).item_start_spec() == final(bs).pos_spec()
                &&& lz_step(
                    litc@,
                    dist_h.codes_spec(),
                    old(bs).data_spec(),
                    bt,
                    old(d).st_of(old(bs).pos_spec() - lit_item.length, old(items)@),
                ) == Some(
                    (final(d).st_of(final(bs).pos_spec(), final(items)@), false),
                )
            },
            Err(e) => {
                &&& e == PackError::Decompress
                &&& lz_step(
                    litc@,
                    dist_h.codes_spec(),
                    old(bs).data_spec(),
                    bt,
                    old(d).st_of(old(bs).pos_spec() - lit_item.length, old(items)@),
                ) is None
            },
        },
{
    let ghost data = old(bs).data_spec();
    let ghost distc = dist_h.codes_spec();
    let ghost st_pre = old(d).st_of(old(bs).pos_spec() - lit_item.length, old(items)@);
    let ghost p1g = old(bs).pos_spec();
    let (len_extra, len_base) = len_entry(sym);
    if !bs.has_bits(len_extra) {
        return Err(PackError::Decompress);
    }
    proof {
        crate::bitstream::lemma_bits_at_bound(data, bs.pos_spec(), len_extra as nat);
        assert(len_extra <= 5 ==> (1u32 << (len_extra as u32)) <= 32) by (bit_vector);
    }
    let length = len_base + bs.get_bits(len_extra);
    let len_ext_item = bs.take_item();
    let dsym = match dist_h.read(bs) {
        Ok(v) => v,
        Err(e) => {
            return Err(e);
        },
    };
    let dist_base_item = bs.take_item();
    if dsym > 29 {
        return Err(PackError::Decompress);
    }
    let (dist_extra, dist_base) = dist_entry(dsym);
    proof {
        lemma_dist_entry_bounds(dsym);
    }
    if !bs.has_bits(dist_extra) {
        return Err(PackError::Decompress);
    }
    proof {
        crate::bitstream::lemma_bits_at_bound(data, bs.pos_spec(), dist_extra as nat);
        assert(dist_extra <= 13 ==> (1u32 << (dist_extra as u32)) <= 0x2000) by (bit_vector);
    }
    let distance = dist_base + bs.get_bits(dist_extra);
    let dist_ext_item = bs.take_item();
    if distance as usize > d.unpacked.len() || length as usize > usize::MAX - d.unpacked.len() {
        return Err(PackError::Decompress);
    }
    let total_bits = lit_item.length + len_ext_item.length + dist_base_item.length
        + dist_ext_item.length;
    let c: i128 = (total_bits as i128) * COST_SCALE / (length as i128);
    let copy_base = d.unpacked.len() - distance as usize;
    items.push(
        LzItem::Match {
            length,
            offset: distance,
            length_base: lit_item,
            length_ext: len_ext_item,
            offset_base: dist_base_item,
            offset_ext: dist_ext_item,
        },
    );
    let ghost st1 = d.st_of(bs.pos_spec(), items@);
    proof {
        assert(st1 == lz_step_match_state(litc@, distc, data, bt, st_pre, sym, p1g));
        assert(c == match_cost(bs.pos_spec() - st_pre.pos, length as int));
    }
    let mut i: usize = 0;
    while i < length as usize
        invariant
            i <= length,
            d.unpacked@.len() == st1.unpacked.len() + i,
            d.literal_index@.len() == d.unpacked@.len(),
            d.cost@.len() == d.unpacked@.len(),
            d.block_type@.len() == d.unpacked@.len(),
            copy_base + length <= st1.unpacked.len() + length <= usize::MAX,
            d.st_of(bs.pos_spec(), items@).pos == st1.pos,
            d.st_of(bs.pos_spec(), items@).items == st1.items,
            lz_copy(
                d.st_of(bs.pos_spec(), items@),
                copy_base + i,
                (length - i) as nat,
                c,
                bt,
            ) == lz_copy(st1, copy_base as int, length as nat, c, bt),
        decreases length - i,
    {
        let b = d.unpacked[copy_base + i];
        let li_src = d.literal_index[copy_base + i];
        let li: usize = if li_src == SENTINEL {
            copy_base + i
        } else {
            li_src
        };
        d.unpacked.push(b);
        d.literal_index.push(li);
        d.cost.push(c);
        d.block_type.push(bt);
        i = i + 1;
    }
    proof {
        let st_post = d.st_of(bs.pos_spec(), items@);
        assert(lz_step(litc@, distc, data, bt, st_pre) == Some((st_post, false)));
    }
    Ok(())
}

/// Decodes the LZ items of one block into `d`, returning the block's items.
#[verifier::loop_isolation(false)]
#[verifier::rlimit(60)]
fn decode_block(
    bs: &mut Bitstream<'_>,
    d: &mut AnalysisData,
    bt: u8,
    lit_h: &Huffman,
    dist_h: &Huffman,
) -> (r: Result<Vec<LzItem>, PackError>)
    requires
        lit_h.wf(),
        dist_h.wf(),
        old(bs).wf(),
        old(bs).item_start_spec() == old(bs).pos_spec(),
        bt == 1 || bt == 2,
        old(d).st_of(old(bs).pos_spec(), Seq::empty()).wf(),
    ensures
        final(bs).wf(),
        final(bs).data_spec() == old(bs).data_spec(),
        match r {
            Ok(items) => {
                &&& final(bs).item_start_spec() == final(bs).pos_spec()
                &&& lz_run(
                    lit_h.codes_spec(),
                    dist_h.codes_spec(),
                    old(bs).data_spec(),
                    bt,
                    old(d).st_of(old(bs).pos_spec(), Seq::empty()),
                ) == Some(final(d).st_of(final(bs).pos_spec(), items@))
                &&& final(d).st_of(final(bs).pos_spec(), items@).wf()
            },
            Err(e) => {
                &&& e == PackError::Decompress
                &&& lz_run(
                    lit_h.codes_spec(),
                    dist_h.codes_spec(),
                    old(bs).data_spec(),
                    bt,
                    old(d).st_of(old(bs).pos_spec(), Seq::empty()),
                ) is None
            },
        },
{
    let ghost data = old(bs).data_spec();
    let ghost litc = lit_h.codes_spec();
    let ghost distc = dist_h.codes_spec();
    let ghost st0 = old(d).st_of(old(bs).pos_spec(), Seq::empty());
    let mut items: Vec<LzItem> = Vec::new();
    proof {
        old(bs).lemma_wf_bounds();
    }
    loop
        invariant
            bs.wf(),
            bs.data_spec() == data,
            bs.item_start_spec() == bs.pos_spec(),
            d.st_of(bs.pos_spec(), items@).wf(),
            lz_run(litc, distc, data, bt, d.st_of(bs.pos_spec(), items@)) == lz_run(
                litc,
                distc,
                data,
                bt,
                st0,
            ),
        decreases data.len() * 8 - bs.pos_spec(),
    {
        let ghost st_pre = d.st_of(bs.pos_spec(), items@);
        proof {
            bs.lemma_wf_bounds();
            lemma_lz_step_advance(litc, distc, data, bt, st_pre);
            lemma_lz_step_wf(litc, distc, data, bt, st_pre);
        }
        let sym = match lit_h.read(bs) {
            Ok(sym) => sym,
            Err(e) => {
                return Err(e);
            },
        };
        let lit_item = bs.take_item();
        if sym == 256 {
            items.push(LzItem::EndOfBlock { item: lit_item });
            return Ok(items);
        }
        if sym < 256 {
            d.unpacked.push(sym as u8);
            d.literal_index.push(SENTINEL);
            d.cost.push((lit_item.length as i128) * COST_SCALE);
            d.block_type.push(bt);
            items.push(LzItem::Literal { byte: sym as u8, item: lit_item });
            proof {
                let st_post = d.st_of(bs.pos_spec(), items@);
                assert(lz_step(litc, distc, data, bt, st_pre) == Some((st_post, false)));
            }
            continue ;
        }
        if sym > 285 {
            return Err(PackError::Decompress);
        }
        match decode_match(bs, d, &mut items, bt, dist_h, sym, lit_item, Ghost(litc)) {
            Ok(()) => {
                proof {
                    assert(lz_run(litc, distc, data, bt, st_pre) == lz_run(
                        litc,
                        distc,
                        data,
                        bt,
                        d.st_of(bs.pos_spec(), items@),
                    ));
                }
            },
            Err(e) => {
                return Err(e);
            },
        }
    }
}


fn clen_order(i: usize) -> (r: u32)
    requires
        i < 19,
    ensures
        r == spec_clen_order(i as int),
{
    let r: u32 = if i == 0 {
        16
    } else if i == 1 {
        17
    } else if i == 2 {
        18
    } else if i == 3 {
        0
    } else if i == 4 {
        8
    } else if i == 5 {
        7
    } else if i == 6 {
        9
    } else if i == 7 {
        6
    } else if i == 8 {
        10
    } else if i == 9 {
        5
    } else if i == 10 {
        11
    } else if i == 11 {
        4
    } else if i == 12 {
        12
    } else if i == 13 {
        3
    } else if i == 14 {
        13
    } else if i == 15 {
        2
    } else if i == 16 {
        14
    } else if i == 17 {
        1
    } else {
        15
    };
    r
}

/// The fixed literal/length and distance decoders of a static block.
fn static_tables() -> (r: (Huffman, Huffman))
    ensures
        r.0.wf(),
        r.1.wf(),
        r.0.codes_spec() == static_lit_codes(),
        r.1.codes_spec() == static_dist_codes(),
{
    let mut lit = HuffmanBuilder::new();
    lit.add_codes(0, 143, 8);
    lit.add_codes(144, 255, 9);
    lit.add_codes(256, 279, 7);
    lit.add_codes(280, 287, 8);
    proof {
        assert(lit.codes_spec() =~= range_codes(0, 143, 8) + range_codes(144, 255, 9)
            + range_codes(256, 279, 7) + range_codes(280, 287, 8));
    }
    let lit_h = lit.build();
    let mut dst = HuffmanBuilder::new();
    dst.add_codes(0, 31, 5);
    proof {
        assert(dst.codes_spec() =~= range_codes(0, 31, 5));
    }
    let dist_h = dst.build();
    proof {
        lemma_static_codes_wf();
    }
    (lit_h, dist_h)
}

/// How one block was decoded: the diagnostic trace kept for disassembly.
#[derive(Debug)]
pub enum BlockType {
    StaticHuffman,
    DynamicHuffman {
        huff_header_item: BitstreamItem,
        hlit: usize,
        hdist: usize,
        hclen: usize,
        huff_header_lengths: Vec<(u32, u32, BitstreamItem)>,
        huff_header_codes: Vec<HuffmanHeaderCode>,
    },
}

/// One decoded block: its kind with the header trace, the three header bits,
/// and its LZ items.
#[derive(Debug)]
pub struct BlockAnalysis {
    pub block_type: BlockType,
    pub header_item: BitstreamItem,
    pub lz: Vec<LzItem>,
}

/// Reads the `target` code lengths of a dynamic header with the code-length
/// decoder `hh`.
#[verifier::loop_isolation(false)]
#[verifier::rlimit(60)]
fn read_code_lengths(bs: &mut Bitstream<'_>, hh: &Huffman, target: usize) -> (r: Result<
    (Vec<u32>, Vec<HuffmanHeaderCode>),
    PackError,
>)
    requires
        hh.wf(),
        old(bs).wf(),
        old(bs).item_start_spec() == old(bs).pos_spec(),
    ensures
        final(bs).wf(),
        final(bs).data_spec() == old(bs).data_spec(),
        match r {
            Ok((lens, hdr)) => {
                &&& final(bs).item_start_spec() == final(bs).pos_spec()
                &&& lens@.len() == target
                &&& forall|k: int| 0 <= k < lens@.len() ==> #[trigger] lens@[k] <= 15
                &&& clen_run(
                    hh.codes_spec(),
                    old(bs).data_spec(),
                    old(bs).pos_spec(),
                    Seq::empty(),
                    target as int,
                    Seq::empty(),
                ) == Some((lens@, final(bs).pos_spec(), hdr@))
            },
            Err(e) => {
                &&& e == PackError::Decompress
                &&& clen_run(
                    hh.codes_spec(),
                    old(bs).data_spec(),
                    old(bs).pos_spec(),
                    Seq::empty(),
                    target as int,
                    Seq::empty(),
                ) is None
            },
        },
{
    let ghost data = old(bs).data_spec();
    let ghost p3 = old(bs).pos_spec();
    let mut lens: Vec<u32> = Vec::new();
    let mut huff_header_codes: Vec<HuffmanHeaderCode> = Vec::new();
    proof {
        bs.lemma_wf_bounds();
    }
    while lens.len() < target
        invariant
            bs.wf(),
            bs.data_spec() == data,
            bs.item_start_spec() == bs.pos_spec(),
            lens@.len() <= target,
            forall|k: int| 0 <= k < lens@.len() ==> #[trigger] lens@[k] <= 15,
            clen_run(
                hh.codes_spec(),
                data,
                bs.pos_spec(),
                lens@,
                target as int,
                huff_header_codes@,
            ) == clen_run(hh.codes_spec(), data, p3, Seq::empty(), target as int, Seq::empty()),
        decreases target - lens@.len(), data.len() * 8 - bs.pos_spec(),
    {
        proof {
            bs.lemma_wf_bounds();
            lemma_decode_advance(hh.codes_spec(), data, bs.pos_spec());
        }
        let sym = match hh.read(bs) {
            Ok(v) => v,
            Err(e) => {
                return Err(e);
            },
        };
        let huff_item = bs.take_item();
        if sym == 16 {
            if lens.len() == 0 || !bs.has_bits(2) {
                return Err(PackError::Decompress);
            }
            proof {
                crate::bitstream::lemma_bits_at_bound(data, bs.pos_spec(), 2);
                assert((1u32 << 2u32) == 4) by (bit_vector);
            }
            let count = bs.get_bits(2) + 3;
            let count_item = bs.take_item();
            if count as usize > target - lens.len() {
                return Err(PackError::Decompress);
            }
            let prev = lens[lens.len() - 1];
            let ghost lens0 = lens@;
            let mut k: u32 = 0;
            while k < count
                invariant
                    k <= count,
                    lens@ == lens0 + rep_u32(prev, k as nat),
                decreases count - k,
            {
                lens.push(prev);
                proof {
                    assert(lens0 + rep_u32(prev, (k + 1) as nat) =~= (lens0 + rep_u32(prev,
                        k as nat)).push(prev));
                }
                k = k + 1;
            }
            huff_header_codes.push(HuffmanHeaderCode::Repeat { huff_item, count_item, count });
        } else if sym == 17 || sym == 18 {
            let nbits: u32 = if sym == 17 { 3 } else { 7 };
            let base: u32 = if sym == 17 { 3 } else { 11 };
            if !bs.has_bits(nbits) {
                return Err(PackError::Decompress);
            }
            proof {
                crate::bitstream::lemma_bits_at_bound(data, bs.pos_spec(), nbits as nat);
                assert((1u32 << 3u32) == 8 && (1u32 << 7u32) == 128) by (bit_vector);
            }
            let count = bs.get_bits(nbits) + base;
            let count_item = bs.take_item();
            if count as usize > target - lens.len() {
                return Err(PackError::Decompress);
            }
            let ghost lens0 = lens@;
            let mut k: u32 = 0;
            while k < count
                invariant
                    k <= count,
                    lens@ == lens0 + rep_u32(0, k as nat),
                decreases count - k,
            {
                lens.push(0);
                proof {
                    assert(lens0 + rep_u32(0, (k + 1) as nat) =~= (lens0 + rep_u32(0,
                        k as nat)).push(0));
                }
                k = k + 1;
            }
            huff_header_codes.push(HuffmanHeaderCode::Skip { huff_item, count_item, count });
        } else if sym <= 15 {
            lens.push(sym);
            huff_header_codes.push(HuffmanHeaderCode::Length { huff_item, length: sym });
        } else {
            return Err(PackError::Decompress);
        }
    }
    proof {
        bs.lemma_wf_bounds();
    }
    Ok((lens, huff_header_codes))
}

/// Builds the decoder for symbols `0..n` whose lengths sit at `lens[lo..]`.
#[verifier::loop_isolation(false)]
fn build_range_table(lens: &Vec<u32>, lo: usize, n: usize) -> (r: Huffman)
    requires
        lo + n <= lens@.len(),
        forall|k: int| 0 <= k < lens@.len() ==> #[trigger] lens@[k] <= 15,
    ensures
        r.wf(),
        r.codes_spec() == sort_codes(pairs_of(lens@, lo as int, n as int)),
{
    let mut b = HuffmanBuilder::new();
    let m = lens.len();
    let mut c: usize = 0;
    while c < n
        invariant
            c <= n,
            m == lens@.len(),
            lo + n <= m,
            forall|k: int| 0 <= k < lens@.len() ==> #[trigger] lens@[k] <= 15,
            b.wf(),
            b.codes_spec() == pairs_of(lens@, lo as int, c as int),
        decreases n - c,
    {
        b.add_code(c as u32, lens[lo + c]);
        c = c + 1;
    }
    proof {
        lemma_pairs_of_wf(lens@, lo as int, n as int);
        crate::huffman::lemma_sort_codes_wf(pairs_of(lens@, lo as int, n as int));
    }
    b.build()
}

/// Reads a dynamic block's code-length header and builds its two decoders,
/// returning also the diagnostic trace.
#[verifier::loop_isolation(false)]
#[verifier::rlimit(60)]
fn read_dynamic_header(bs: &mut Bitstream<'_>) -> (r: Result<
    (Huffman, Huffman, BlockType),
    PackError,
>)
    requires
        old(bs).wf(),
        old(bs).item_start_spec() == old(bs).pos_spec(),
    ensures
        final(bs).wf(),
        final(bs).data_spec() == old(bs).data_spec(),
        match r {
            Ok((lit_h, dist_h, rec)) => {
                &&& final(bs).item_start_spec() == final(bs).pos_spec()
                &&& lit_h.wf()
                &&& dist_h.wf()
                &&& rec is DynamicHuffman
                &&& dyn_header(old(bs).data_spec(), old(bs).pos_spec()) == Some(
                    (lit_h.codes_spec(), dist_h.codes_spec(), final(bs).pos_spec()),
                )
            },
            Err(e) => {
                &&& e == PackError::Decompress
                &&& dyn_header(old(bs).data_spec(), old(bs).pos_spec()) is None
            },
        },
{
    let ghost data = old(bs).data_spec();
    let ghost p = old(bs).pos_spec();
    if !bs.has_bits(14) {
        return Err(PackError::Decompress);
    }
    let hlit = bs.get_bits(5) as usize;
    let hdist = bs.get_bits(5) as usize;
    let hclen = bs.get_bits(4) as usize;
    let huff_header_item = bs.take_item();
    proof {
        crate::bitstream::lemma_bits_at_bound(data, p, 5);
        crate::bitstream::lemma_bits_at_bound(data, p + 5, 5);
        crate::bitstream::lemma_bits_at_bound(data, p + 10, 4);
        assert((1u32 << 5u32) == 32 && (1u32 << 4u32) == 16) by (bit_vector);
    }
    let ghost p2 = bs.pos_spec();
    if !bs.has_bits((3 * (hclen + 4)) as u32) {
        return Err(PackError::Decompress);
    }
    let mut huff_header = HuffmanBuilder::new();
    let mut huff_header_lengths: Vec<(u32, u32, BitstreamItem)> = Vec::new();
    let mut i: usize = 0;
    while i < hclen + 4
        invariant
            i <= hclen + 4,
            bs.wf(),
            bs.data_spec() == data,
            bs.item_start_spec() == bs.pos_spec(),
            bs.pos_spec() == p2 + 3 * i,
            huff_header.wf(),
            huff_header.codes_spec() == clen_pairs(data, p2, i as int),
        decreases hclen + 4 - i,
    {
        proof {
            lemma_bits_at_3_bound(data, bs.pos_spec());
        }
        let length = bs.get_bits(3);
        let code = clen_order(i);
        huff_header.add_code(code, length);
        huff_header_lengths.push((code, length, bs.take_item()));
        i = i + 1;
    }
    let hh = huff_header.build();
    proof {
        lemma_clen_pairs_wf(data, p2, (hclen + 4) as int);
        crate::huffman::lemma_sort_codes_wf(clen_pairs(data, p2, (hclen + 4) as int));
    }
    let target = hlit + 257 + hdist + 1;
    let (lens, huff_header_codes) = match read_code_lengths(bs, &hh, target) {
        Ok(v) => v,
        Err(e) => {
            return Err(e);
        },
    };
    let lit_h = build_range_table(&lens, 0, hlit + 257);
    let dist_h = build_range_table(&lens, hlit + 257, hdist + 1);
    proof {
        assert(lit_h.codes_spec() == dyn_lit_codes(lens@, hlit as int));
        assert(dist_h.codes_spec() == dyn_dist_codes(lens@, hlit as int, hdist as int));
    }
    Ok(
        (
            lit_h,
            dist_h,
            BlockType::DynamicHuffman {
                huff_header_item,
                hlit,
                hdist,
                hclen,
                huff_header_lengths,
                huff_header_codes,
            },
        ),
    )
}


/// Truncating division, as the fixed-point redistribution computes it.
pub open spec fn tdiv(a: int, b: int) -> int {
    if a >= 0 {
        a / b
    } else {
        -((-a) / b)
    }
}

/// How many of the first `n` bytes were copied from origin `j`.
pub open spec fn rc_upto(li: Seq<usize>, j: int, n: int) -> int
    decreases n,
{
    if n <= 0 {
        0
    } else {
        rc_upto(li, j, n - 1) + if li[n - 1] != SENTINEL && li[n - 1] as int == j {
            1int
        } else {
            0int
        }
    }
}

pub open spec fn rc(li: Seq<usize>, j: int) -> int {
    rc_upto(li, j, li.len() as int)
}

/// The cost share byte `i` passes toward its origin literal: the cost gap,
/// split over the origin's references plus one.
pub open spec fn delta_of(li: Seq<usize>, cost: Seq<i128>, i: int) -> int {
    if li[i] == SENTINEL {
        0
    } else {
        tdiv(cost[li[i] as int] - cost[i], rc(li, li[i] as int) + 1)
    }
}

/// The total share the first `n` bytes pass toward origin `k`.
pub open spec fn dsum_upto(li: Seq<usize>, cost: Seq<i128>, k: int, n: int) -> int
    decreases n,
{
    if n <= 0 {
        0
    } else {
        dsum_upto(li, cost, k, n - 1) + if li[n - 1] != SENTINEL && li[n - 1] as int == k {
            delta_of(li, cost, n - 1)
        } else {
            0int
        }
    }
}

proof fn lemma_dsum_unfold(li: Seq<usize>, cost: Seq<i128>, k: int, n: int)
    requires
        n >= 1,
    ensures
        dsum_upto(li, cost, k, n) == dsum_upto(li, cost, k, n - 1) + if li[n - 1] != SENTINEL
            && li[n - 1] as int == k {
            delta_of(li, cost, n - 1)
        } else {
            0int
        },
{
}

/// Bytes below `n` cannot point at an origin at `n` or beyond.
proof fn lemma_dsum_zero_high(li: Seq<usize>, cost: Seq<i128>, k: int, n: int)
    requires
        k >= n - 1,
        forall|j: int| 0 <= j < n ==> #[trigger] li[j] == SENTINEL || li[j] < j,
    ensures
        dsum_upto(li, cost, k, n) == 0,
    decreases n,
{
    if n > 0 {
        lemma_dsum_zero_high(li, cost, k, n - 1);
    }
}

/// The net cost movement of byte `k`: what it gains as a copy minus what it
/// passes on as an origin.
pub open spec fn shifted_of(li: Seq<usize>, cost: Seq<i128>, k: int) -> int {
    delta_of(li, cost, k) - dsum_upto(li, cost, k, li.len() as int)
}

/// The per-byte costs after one redistribution pass toward origin literals.
pub open spec fn redistribute(li: Seq<usize>, cost: Seq<i128>) -> Seq<i128> {
    Seq::new(cost.len(), |k: int| (cost[k] + shifted_of(li, cost, k)) as i128)
}

/// One redistribution pass over the arrays, in place.
#[verifier::loop_isolation(false)]
#[verifier::rlimit(60)]
fn redistribute_costs(d: &mut AnalysisData)
    requires
        old(d).st_of(0, Seq::empty()).wf(),
    ensures
        final(d).unpacked == old(d).unpacked,
        final(d).literal_index == old(d).literal_index,
        final(d).block_type == old(d).block_type,
        final(d).cost@ == redistribute(old(d).literal_index@, old(d).cost@),
{
    let ghost li = old(d).literal_index@;
    let ghost cost0 = old(d).cost@;
    let n = d.literal_index.len();
    let mut ref_count: Vec<usize> = Vec::new();
    let mut z: usize = 0;
    while z < n
        invariant
            z <= n,
            ref_count@.len() == z,
            forall|k: int| 0 <= k < z ==> #[trigger] ref_count@[k] == 0,
        decreases n - z,
    {
        ref_count.push(0);
        z = z + 1;
    }
    let mut i: usize = 0;
    while i < n
        invariant
            i <= n,
            n == li.len(),
            d.literal_index@ == li,
            ref_count@.len() == n,
            forall|k: int| 0 <= k < n ==> #[trigger] ref_count@[k] as int == rc_upto(li, k,
                i as int),
            forall|k: int| 0 <= k < n ==> #[trigger] ref_count@[k] <= i,
        decreases n - i,
    {
        let x = d.literal_index[i];
        if x != SENTINEL {
            let prev = ref_count[x];
            ref_count.set(x, prev + 1);
        }
        proof {
            assert forall|k: int| 0 <= k < n implies #[trigger] ref_count@[k] as int == rc_upto(
                li,
                k,
                i + 1,
            ) by {
                assert(rc_upto(li, k, i + 1) == rc_upto(li, k, i as int) + if li[i as int]
                    != SENTINEL && li[i as int] as int == k {
                    1int
                } else {
                    0int
                });
            }
        }
        i = i + 1;
    }
    let mut shifted: Vec<i128> = Vec::new();
    let ghost bound: int = 96 * (COST_SCALE as int);
    let mut i2: usize = 0;
    while i2 < n
        invariant
            i2 <= n,
            n == li.len(),
            n == cost0.len(),
            d.literal_index@ == li,
            d.cost@ == cost0,
            ref_count@.len() == n,
            forall|k: int| 0 <= k < n ==> #[trigger] ref_count@[k] as int == rc(li, k),
            forall|k: int| 0 <= k < n ==> #[trigger] ref_count@[k] <= n,
            old(d).st_of(0, Seq::empty()).wf(),
            shifted@.len() == i2,
            forall|k: int| 0 <= k < i2 ==> #[trigger] shifted@[k] as int == delta_of(li, cost0, k)
                - dsum_upto(li, cost0, k, i2 as int),
            forall|k: int| 0 <= k < i2 ==> -(bound * (1 + i2 as int)) <= #[trigger] shifted@[
                k
            ] as int <= bound * (1 + i2 as int),
        decreases n - i2,
    {
        let x = d.literal_index[i2];
        let ghost shifted_pre = shifted@;
        if x != SENTINEL {
            proof {
                let stw = old(d).st_of(0, Seq::empty());
                assert(stw.lit_index[i2 as int] == x);
                assert(x < i2);
                assert(0 <= cost0[i2 as int] <= 48 * COST_SCALE);
                assert(0 <= cost0[x as int] <= 48 * COST_SCALE);
            }
            let diff = d.cost[x] - d.cost[i2];
            let divisor = ref_count[x] as i128 + 1;
            let ghost ai: int = diff as int;
            let ghost bi: int = divisor as int;
            proof {
                assert(ai >= 0 ==> 0 <= ai / bi <= ai) by (nonlinear_arith)
                    requires
                        bi >= 1;
                assert(ai < 0 ==> 0 <= (-ai) / bi <= -ai) by (nonlinear_arith)
                    requires
                        bi >= 1;
            }
            let delta: i128 = if diff >= 0 {
                diff / divisor
            } else {
                -((0 - diff) / divisor)
            };
            proof {
                assert(delta as int == delta_of(li, cost0, i2 as int));
            }
            shifted.push(delta);
            let prev = shifted[x];
            shifted.set(x, prev - delta);
        } else {
            shifted.push(0);
            proof {
                assert(delta_of(li, cost0, i2 as int) == 0);
            }
        }
        proof {
            let stw = old(d).st_of(0, Seq::empty());
            assert forall|j: int| 0 <= j < i2 + 1 implies #[trigger] li[j] == SENTINEL || li[j]
                < j by {
                assert(stw.lit_index[j] == li[j]);
            }
            assert forall|k: int| 0 <= k < i2 + 1 implies #[trigger] shifted@[k] as int
                == delta_of(li, cost0, k) - dsum_upto(li, cost0, k, i2 + 1) by {
                lemma_dsum_unfold(li, cost0, k, i2 + 1);
                if k == i2 {
                    lemma_dsum_zero_high(li, cost0, k, i2 + 1);
                } else if !(li[i2 as int] != SENTINEL && li[i2 as int] as int == k) {
                    assert(shifted@[k] == shifted_pre[k]);
                }
            }
        }
        i2 = i2 + 1;
    }
    let mut i3: usize = 0;
    while i3 < n
        invariant
            i3 <= n,
            n == li.len(),
            n == cost0.len(),
            d.literal_index@ == li,
            d.unpacked == old(d).unpacked,
            d.literal_index == old(d).literal_index,
            d.block_type == old(d).block_type,
            d.cost@.len() == n,
            shifted@.len() == n,
            forall|k: int| 0 <= k < n ==> #[trigger] shifted@[k] as int == shifted_of(li, cost0,
                k),
            forall|k: int| 0 <= k < i3 ==> #[trigger] d.cost@[k] == redistribute(li, cost0)[k],
            forall|k: int| i3 <= k < n ==> #[trigger] d.cost@[k] == cost0[k],
        decreases n - i3,
    {
        let v = d.cost[i3];
        let delta = shifted[i3];
        d.cost.set(i3, v + delta);
        i3 = i3 + 1;
    }
    proof {
        assert(d.cost@ =~= redistribute(li, cost0));
    }
}


/// The full analysis: the four arrays, the decoded blocks with their items,
/// and the number of bits the decode consumed.
#[derive(Debug)]
pub struct Analysis {
    pub data: AnalysisData,
    pub blocks: Vec<BlockAnalysis>,
    pub total_bits: usize,
}

/// Each decoded block of `bas` carries the model's header span, kind and
/// items.
pub open spec fn blocks_match(bas: Seq<BlockAnalysis>, recs: Seq<BlockRec>) -> bool {
    &&& bas.len() == recs.len()
    &&& forall|i: int| 0 <= i < recs.len() ==> {
        &&& (#[trigger] bas[i]).header_item == recs[i].header_item
        &&& bas[i].lz@ == recs[i].lz
        &&& (recs[i].bt == 1 <==> bas[i].block_type is StaticHuffman)
        &&& (recs[i].bt == 2 <==> bas[i].block_type is DynamicHuffman)
    }
}

impl Analysis {
    /// The analysis result the model assigns to `data`: the decoded state and
    /// blocks, with costs redistributed.
    pub open spec fn matches_model(&self, data: Seq<u8>) -> bool {
        decode_model(data) matches Some((st, recs)) && {
            &&& self.data.unpacked@ == st.unpacked
            &&& self.data.literal_index@ == st.lit_index
            &&& self.data.block_type@ == st.btype
            &&& self.data.cost@ == redistribute(st.lit_index, st.cost)
            &&& self.total_bits == st.pos
            &&& blocks_match(self.blocks@, recs)
            &&& st.wf()
        }
    }

    pub fn data(&self) -> (r: &AnalysisData)
        ensures
            r == &self.data,
    {
        &self.data
    }

    /// The number of bits of the stream the decode consumed.
    pub fn total_size(&self) -> (r: usize)
        ensures
            r == self.total_bits,
    {
        self.total_bits
    }
}

/// Decodes one block: header bits, tables, and the block body, appending to
/// the arrays, the block list and the model block list. Returns whether the
/// block was marked final.
#[verifier::loop_isolation(false)]
#[verifier::rlimit(100)]
#[verifier::spinoff_prover]
fn analyze_block(
    bs: &mut Bitstream<'_>,
    d: &mut AnalysisData,
    blocks: &mut Vec<BlockAnalysis>,
    brecs: Ghost<Seq<BlockRec>>,
) -> (r: Result<(bool, Ghost<Seq<BlockRec>>), PackError>)
    requires
        old(bs).wf(),
        old(bs).item_start_spec() == old(bs).pos_spec(),
        old(d).st_of(old(bs).pos_spec(), Seq::empty()).wf(),
        blocks_match(old(blocks)@, brecs@),
    ensures
        final(bs).wf(),
        final(bs).data_spec() == old(bs).data_spec(),
        match r {
            Ok((done, brecs2)) => {
                &&& final(bs).item_start_spec() == final(bs).pos_spec()
                &&& final(bs).pos_spec() > old(bs).pos_spec()
                &&& final(d).st_of(final(bs).pos_spec(), Seq::empty()).wf()
                &&& blocks_match(final(blocks)@, brecs2@)
                &&& stream_run(
                    old(bs).data_spec(),
                    old(d).st_of(old(bs).pos_spec(), Seq::empty()),
                    brecs@,
                ) == if done {
                    Some((final(d).st_of(final(bs).pos_spec(), Seq::empty()), brecs2@))
                } else {
                    stream_run(
                        old(bs).data_spec(),
                        final(d).st_of(final(bs).pos_spec(), Seq::empty()),
                        brecs2@,
                    )
                }
            },
            Err(e) => {
                &&& e == PackError::Decompress
                &&& stream_run(
                    old(bs).data_spec(),
                    old(d).st_of(old(bs).pos_spec(), Seq::empty()),
                    brecs@,
                ) is None
            },
        },
{
    let ghost data = old(bs).data_spec();
    let ghost st_cur = old(d).st_of(old(bs).pos_spec(), Seq::empty());
    proof {
        bs.lemma_wf_bounds();
    }
    if !bs.has_bits(3) {
        proof {
            reveal(stream_run);
        }
        return Err(PackError::Decompress);
    }
    let bfinal = bs.get_bit();
    let btv = bs.get_bits(2);
    let header_item = bs.take_item();
    proof {
        let x = crate::bitstream::bit_at(data, st_cur.pos);
        assert(0u32 | (x << 0u32) == x) by (bit_vector);
    }
    let (block_type_rec, lit_h, dist_h) = if btv == 1 {
        let (lh, dh) = static_tables();
        proof {
            lemma_static_codes_wf();
            lemma_lz_run_advance(
                static_lit_codes(),
                static_dist_codes(),
                data,
                1,
                LzSt { pos: st_cur.pos + 3, ..st_cur },
            );
        }
        (BlockType::StaticHuffman, lh, dh)
    } else if btv == 2 {
        let (lh, dh, rec) = match read_dynamic_header(bs) {
            Ok(v) => v,
            Err(e) => {
                proof {
                    reveal(stream_run);
                }
                return Err(e);
            },
        };
        proof {
            lemma_dyn_header_wf(data, st_cur.pos + 3);
            if let Some((litc, dstc, p4)) = dyn_header(data, st_cur.pos + 3) {
                lemma_lz_run_advance(litc, dstc, data, 2, LzSt { pos: p4, ..st_cur });
            }
        }
        (rec, lh, dh)
    } else {
        proof {
            reveal(stream_run);
        }
        return Err(PackError::Decompress);
    };
    let bt: u8 = if btv == 1 {
        1
    } else {
        2
    };
    proof {
        assert(d.st_of(bs.pos_spec(), Seq::empty()) == LzSt { pos: bs.pos_spec(), ..st_cur });
    }
    let items = match decode_block(bs, d, bt, &lit_h, &dist_h) {
        Ok(v) => v,
        Err(e) => {
            proof {
                reveal(stream_run);
            }
            return Err(e);
        },
    };
    let ghost st1 = d.st_of(bs.pos_spec(), items@);
    blocks.push(BlockAnalysis { block_type: block_type_rec, header_item, lz: items });
    let ghost brecs2 = brecs@.push(BlockRec { header_item, bt, lz: st1.items });
    proof {
        assert(LzSt { items: Seq::empty(), ..st1 } == d.st_of(bs.pos_spec(), Seq::empty()));
        assert forall|i: int| 0 <= i < brecs2.len() implies {
            &&& (#[trigger] blocks@[i]).header_item == brecs2[i].header_item
            &&& blocks@[i].lz@ == brecs2[i].lz
            &&& (brecs2[i].bt == 1 <==> blocks@[i].block_type is StaticHuffman)
            &&& (brecs2[i].bt == 2 <==> blocks@[i].block_type is DynamicHuffman)
        } by {
            if i < brecs@.len() {
                assert(blocks@[i] == old(blocks)@[i]);
                assert(brecs2[i] == brecs@[i]);
            } else {
                assert(blocks@[i] == blocks@.last());
                assert(brecs2[i] == brecs2.last());
            }
        }
        assert(blocks_match(blocks@, brecs2));
        let p = st_cur.pos + 3;
        assert(header_item == item_span(data, st_cur.pos, p));
        assert(bits_at(data, st_cur.pos, 0) == 0);
        assert(bfinal == bits_at(data, st_cur.pos, 1));
        let body = if btv == 1 {
            lz_run(static_lit_codes(), static_dist_codes(), data, 1, LzSt { pos: p, ..st_cur })
        } else {
            dyn_block_run(data, st_cur, p)
        };
        assert(body == Some(st1));
        reveal(stream_run);
        assert(stream_run(data, st_cur, brecs@) == if bits_at(data, st_cur.pos, 1) == 1 {
            Some((LzSt { items: Seq::empty(), ..st1 }, brecs2))
        } else {
            stream_run(data, LzSt { items: Seq::empty(), ..st1 }, brecs2)
        });
    }
    Ok((bfinal == 1, Ghost(brecs2)))
}

/// Decodes a raw-deflate stream and attributes a per-output-byte cost.
///
/// A malformed stream, and the stored block kind, which no stream produced by
/// the in-scope compressors contains, yield `Err`.
#[verifier::loop_isolation(false)]
pub fn analyze(data: &[u8]) -> (r: Result<Analysis, PackError>)
    requires
        data@.len() <= usize::MAX as int / 8,
    ensures
        match r {
            Ok(a) => a.matches_model(data@),
            Err(e) => e == PackError::Decompress && decode_model(data@) is None,
        },
{
    let mut bs = Bitstream::new(data);
    let mut d = AnalysisData {
        unpacked: Vec::new(),
        literal_index: Vec::new(),
        cost: Vec::new(),
        block_type: Vec::new(),
    };
    let mut blocks: Vec<BlockAnalysis> = Vec::new();
    let ghost mut brecs: Seq<BlockRec> = Seq::empty();
    proof {
        assert(d.st_of(0, Seq::empty()).unpacked =~= Seq::<u8>::empty());
        assert(blocks@ =~= Seq::<BlockAnalysis>::empty());
    }
    let mut done = false;
    while !done
        invariant
            bs.wf(),
            bs.data_spec() == data@,
            bs.item_start_spec() == bs.pos_spec(),
            d.st_of(bs.pos_spec(), Seq::empty()).wf(),
            blocks_match(blocks@, brecs),
            !done ==> stream_run(data@, d.st_of(bs.pos_spec(), Seq::empty()), brecs)
                == decode_model(data@),
            done ==> decode_model(data@) == Some(
                (d.st_of(bs.pos_spec(), Seq::empty()), brecs),
            ),
        decreases data@.len() * 8 - bs.pos_spec() + if done {
            0int
        } else {
            1int
        },
    {
        proof {
            bs.lemma_wf_bounds();
        }
        match analyze_block(&mut bs, &mut d, &mut blocks, Ghost(brecs)) {
            Ok((fin, brecs2)) => {
                proof {
                    brecs = brecs2@;
                }
                done = fin;
            },
            Err(e) => {
                return Err(e);
            },
        }
        proof {
            bs.lemma_wf_bounds();
        }
    }
    let ghost st_final = d.st_of(bs.pos_spec(), Seq::empty());
    let total_bits = bs.bit_pos();
    redistribute_costs(&mut d);
    Ok(Analysis { data: d, blocks, total_bits })
}


/// Literal attribution: every byte that a match produced points at an
/// earlier byte of equal value that a literal produced.
pub proof fn lemma_literal_attribution(a: Analysis, data: Seq<u8>)
    requires
        a.matches_model(data),
    ensures
        forall|i: int|
            0 <= i < a.data.unpacked@.len() ==> (#[trigger] a.data.literal_index@[i]) == SENTINEL
                || (a.data.literal_index@[i] < i && a.data.unpacked@[a.data.literal_index@[
                i
            ] as int] == a.data.unpacked@[i] && a.data.literal_index@[a.data.literal_index@[
                i
            ] as int] == SENTINEL),
{
    let (st, recs) = decode_model(data).unwrap();
    assert(st.wf());
}


/// The sum of the first `n` cost cells.
pub open spec fn sum_costs(s: Seq<i128>, n: int) -> int
    decreases n,
{
    if n <= 0 {
        0
    } else {
        sum_costs(s, n - 1) + s[n - 1]
    }
}

/// The sum of the first `n` cost movements.
pub open spec fn sum_delta(li: Seq<usize>, cost: Seq<i128>, n: int) -> int
    decreases n,
{
    if n <= 0 {
        0
    } else {
        sum_delta(li, cost, n - 1) + delta_of(li, cost, n - 1)
    }
}

/// The sum over origins `k < m` of what the first `n` bytes pass to `k`.
pub open spec fn sum_dsum(li: Seq<usize>, cost: Seq<i128>, m: int, n: int) -> int
    decreases m,
{
    if m <= 0 {
        0
    } else {
        sum_dsum(li, cost, m - 1, n) + dsum_upto(li, cost, m - 1, n)
    }
}

/// The sum over `k < m` of a value paid only at `k == j`.
pub open spec fn ind_sum(j: int, m: int, v: int) -> int
    decreases m,
{
    if m <= 0 {
        0
    } else {
        ind_sum(j, m - 1, v) + if m - 1 == j {
            v
        } else {
            0int
        }
    }
}

proof fn lemma_ind_sum(j: int, m: int, v: int)
    requires
        0 <= j < m,
    ensures
        ind_sum(j, m, v) == v,
    decreases m,
{
    if j == m - 1 {
        lemma_ind_sum_zero(j, m - 1, v);
    } else {
        lemma_ind_sum(j, m - 1, v);
    }
}

proof fn lemma_ind_sum_zero(j: int, m: int, v: int)
    requires
        m <= j,
    ensures
        ind_sum(j, m, v) == 0,
    decreases m,
{
    if m > 0 {
        lemma_ind_sum_zero(j, m - 1, v);
    }
}

/// Peeling the `n`-th byte off the double sum costs exactly its movement.
proof fn lemma_sum_dsum_step(li: Seq<usize>, cost: Seq<i128>, m: int, n: int)
    requires
        n >= 1,
    ensures
        sum_dsum(li, cost, m, n) == sum_dsum(li, cost, m, n - 1) + if li[n - 1] != SENTINEL {
            ind_sum(li[n - 1] as int, m, delta_of(li, cost, n - 1))
        } else {
            0int
        },
    decreases m,
{
    if m > 0 {
        lemma_sum_dsum_step(li, cost, m - 1, n);
        lemma_dsum_unfold(li, cost, m - 1, n);
    }
}

proof fn lemma_sum_dsum_empty(li: Seq<usize>, cost: Seq<i128>, m: int, n: int)
    requires
        n <= 0,
    ensures
        sum_dsum(li, cost, m, n) == 0,
    decreases m,
{
    if m > 0 {
        lemma_sum_dsum_empty(li, cost, m - 1, n);
    }
}

/// Every movement lands inside the array, so the double sum collapses to the
/// sum of movements.
proof fn lemma_sum_dsum_collapse(li: Seq<usize>, cost: Seq<i128>, n: int)
    requires
        0 <= n <= li.len(),
        forall|i: int| 0 <= i < li.len() ==> (#[trigger] li[i]) == SENTINEL || li[i] < i,
    ensures
        sum_dsum(li, cost, li.len() as int, n) == sum_delta(li, cost, n),
    decreases n,
{
    if n > 0 {
        lemma_sum_dsum_collapse(li, cost, n - 1);
        lemma_sum_dsum_step(li, cost, li.len() as int, n);
        if li[n - 1] != SENTINEL {
            assert(li[n - 1] < n - 1);
            lemma_ind_sum(li[n - 1] as int, li.len() as int, delta_of(li, cost, n - 1));
        } else {
            assert(delta_of(li, cost, n - 1) == 0);
        }
    } else {
        lemma_sum_dsum_empty(li, cost, li.len() as int, n);
    }
}

/// The magnitude of one movement.
proof fn lemma_delta_bound(li: Seq<usize>, cost: Seq<i128>, i: int)
    requires
        0 <= i < li.len(),
        li.len() == cost.len(),
        forall|k: int| 0 <= k < li.len() ==> (#[trigger] li[k]) == SENTINEL || li[k] < k,
        forall|k: int| 0 <= k < cost.len() ==> 0 <= #[trigger] cost[k] <= 48 * COST_SCALE,
    ensures
        -96 * (COST_SCALE as int) <= delta_of(li, cost, i) <= 96 * (COST_SCALE as int),
{
    if li[i] != SENTINEL {
        let a = cost[li[i] as int] - cost[i];
        let b = rc(li, li[i] as int) + 1;
        lemma_rc_nonneg(li, li[i] as int, li.len() as int);
        assert(-96 * (COST_SCALE as int) <= a <= 96 * (COST_SCALE as int));
        if a >= 0 {
            assert(0 <= a / b <= a) by (nonlinear_arith)
                requires
                    a >= 0 && b >= 1,
            ;
        } else {
            assert(0 <= (-a) / b <= -a) by (nonlinear_arith)
                requires
                    -a >= 0 && b >= 1,
            ;
        }
    }
}

proof fn lemma_rc_nonneg(li: Seq<usize>, j: int, n: int)
    ensures
        0 <= rc_upto(li, j, n) || n <= 0,
        rc_upto(li, j, n) >= 0 || n <= 0,
        n >= 0 ==> 0 <= rc_upto(li, j, n) <= n,
    decreases n,
{
    if n > 0 {
        lemma_rc_nonneg(li, j, n - 1);
    }
}

/// The per-cell movements in range: the redistributed cell value fits `i128`
/// and the cast in `redistribute` is exact.
proof fn lemma_dsum_bound(li: Seq<usize>, cost: Seq<i128>, k: int, n: int)
    requires
        0 <= n <= li.len(),
        li.len() == cost.len(),
        forall|q: int| 0 <= q < li.len() ==> (#[trigger] li[q]) == SENTINEL || li[q] < q,
        forall|q: int| 0 <= q < cost.len() ==> 0 <= #[trigger] cost[q] <= 48 * COST_SCALE,
    ensures
        -96 * (COST_SCALE as int) * n <= dsum_upto(li, cost, k, n) <= 96 * (COST_SCALE as int)
            * n,
    decreases n,
{
    if n > 0 {
        lemma_dsum_bound(li, cost, k, n - 1);
        lemma_dsum_unfold(li, cost, k, n);
        if li[n - 1] != SENTINEL && li[n - 1] as int == k {
            lemma_delta_bound(li, cost, n - 1);
        }
        assert(96 * (COST_SCALE as int) * n == 96 * (COST_SCALE as int) * (n - 1) + 96 * (
        COST_SCALE as int)) by (nonlinear_arith);
        assert(-96 * (COST_SCALE as int) * n == -96 * (COST_SCALE as int) * (n - 1) + (-96) * (
        COST_SCALE as int)) by (nonlinear_arith);
    } else {
        assert(96 * (COST_SCALE as int) * n == 0) by (nonlinear_arith)
            requires
                n == 0,
        ;
        assert(-96 * (COST_SCALE as int) * n == 0) by (nonlinear_arith)
            requires
                n == 0,
        ;
    }
}

/// Linearity: the sum of the redistributed cells splits into the old sum,
/// the gains, and the losses.
proof fn lemma_sum_redistribute_split(li: Seq<usize>, cost: Seq<i128>, n: int)
    requires
        0 <= n <= li.len(),
        li.len() == cost.len(),
        li.len() <= 0xFFFF_FFFF_FFFF_FFFF,
        forall|q: int| 0 <= q < li.len() ==> (#[trigger] li[q]) == SENTINEL || li[q] < q,
        forall|q: int| 0 <= q < cost.len() ==> 0 <= #[trigger] cost[q] <= 48 * COST_SCALE,
    ensures
        sum_costs(redistribute(li, cost), n) == sum_costs(cost, n) + sum_delta(li, cost, n)
            - sum_dsum(li, cost, n, li.len() as int),
    decreases n,
{
    if n > 0 {
        lemma_sum_redistribute_split(li, cost, n - 1);
        lemma_delta_bound(li, cost, n - 1);
        lemma_dsum_bound(li, cost, n - 1, li.len() as int);
        let sc = COST_SCALE as int;
        let len = li.len() as int;
        assert(96 * sc * len <= 96 * sc * 0xFFFF_FFFF_FFFF_FFFF) by (nonlinear_arith)
            requires
                len <= 0xFFFF_FFFF_FFFF_FFFF && sc == 65536,
        ;
        assert(-96 * sc * len == -(96 * sc * len)) by (nonlinear_arith);
        let v = cost[n - 1] + shifted_of(li, cost, n - 1);
        assert(-(96 * sc) - 96 * sc * len <= v <= 48 * sc + 96 * sc + 96 * sc * len);
        assert(redistribute(li, cost)[n - 1] == v as i128);
        assert(v as i128 == v);
    }
}

/// Cost conservation: one redistribution pass moves cost between bytes and
/// never creates or destroys any.
pub proof fn lemma_redistribute_conserves_sum(li: Seq<usize>, cost: Seq<i128>)
    requires
        li.len() == cost.len(),
        li.len() <= 0xFFFF_FFFF_FFFF_FFFF,
        forall|i: int| 0 <= i < li.len() ==> (#[trigger] li[i]) == SENTINEL || li[i] < i,
        forall|i: int| 0 <= i < cost.len() ==> 0 <= #[trigger] cost[i] <= 48 * COST_SCALE,
    ensures
        sum_costs(redistribute(li, cost), cost.len() as int) == sum_costs(
            cost,
            cost.len() as int,
        ),
{
    let n = li.len() as int;
    lemma_sum_redistribute_split(li, cost, n);
    lemma_sum_dsum_collapse(li, cost, n);
}

/// Cost conservation for an analysis result: the emitted costs sum to
/// exactly the attributed costs of the decode, before redistribution.
pub proof fn lemma_analysis_cost_conserved(a: Analysis, data: Seq<u8>)
    requires
        a.matches_model(data),
    ensures
        decode_model(data) matches Some(m) && sum_costs(
            a.data.cost@,
            a.data.cost@.len() as int,
        ) == sum_costs(m.0.cost, m.0.cost.len() as int),
{
    let (st, recs) = decode_model(data).unwrap();
    assert(st.wf());
    assert(vstd::std_specs::vec::spec_vec_len(&a.data.cost) == a.data.cost@.len());
    assert(st.cost.len() <= usize::MAX);
    lemma_redistribute_conserves_sum(st.lit_index, st.cost);
}


/// The bits one LZ item pays: a literal its code, a match its four
/// components; the end-of-block code is excluded.
pub open spec fn item_bits(it: LzItem) -> int {
    match it {
        LzItem::Literal { item, .. } => item.length as int,
        LzItem::Match { length_base, length_ext, offset_base, offset_ext, .. } => length_base.length
            + length_ext.length + offset_base.length + offset_ext.length,
        LzItem::EndOfBlock { .. } => 0,
    }
}

/// The payload bits of the first `n` items.
pub open spec fn payload_bits(items: Seq<LzItem>, n: int) -> int
    decreases n,
{
    if n <= 0 {
        0
    } else {
        payload_bits(items, n - 1) + item_bits(items[n - 1])
    }
}

/// The payload bits of the first `n` blocks.
pub open spec fn blocks_payload(recs: Seq<BlockRec>, n: int) -> int
    decreases n,
{
    if n <= 0 {
        0
    } else {
        blocks_payload(recs, n - 1) + payload_bits(recs[n - 1].lz, recs[n - 1].lz.len() as int)
    }
}

/// Sums read only the cells below `n`, so appending leaves them unchanged.
proof fn lemma_sum_costs_push(s: Seq<i128>, v: i128, n: int)
    requires
        0 <= n <= s.len(),
    ensures
        sum_costs(s.push(v), n) == sum_costs(s, n),
    decreases n,
{
    if n > 0 {
        lemma_sum_costs_push(s, v, n - 1);
    }
}

proof fn lemma_payload_push(items: Seq<LzItem>, x: LzItem, n: int)
    requires
        0 <= n <= items.len(),
    ensures
        payload_bits(items.push(x), n) == payload_bits(items, n),
    decreases n,
{
    if n > 0 {
        lemma_payload_push(items, x, n - 1);
    }
}

/// Copying adds exactly `n` cells of cost `c`.
proof fn lemma_lz_copy_cost(st: LzSt, base: int, n: nat, c: i128, bt: u8)
    ensures
        ({
            let st2 = lz_copy(st, base, n, c, bt);
            &&& st2.cost.len() == st.cost.len() + n
            &&& st2.items == st.items
            &&& sum_costs(st2.cost, st2.cost.len() as int) == sum_costs(
                st.cost,
                st.cost.len() as int,
            ) + n * c
        }),
    decreases n,
{
    if n == 0 {
        assert(n * c == 0) by (nonlinear_arith)
            requires
                n == 0,
        ;
    } else {
        let li: usize = if st.lit_index[base] == SENTINEL {
            base as usize
        } else {
            st.lit_index[base]
        };
        let st1 = LzSt {
            pos: st.pos,
            unpacked: st.unpacked.push(st.unpacked[base]),
            lit_index: st.lit_index.push(li),
            cost: st.cost.push(c),
            btype: st.btype.push(bt),
            items: st.items,
        };
        lemma_sum_costs_push(st.cost, c, st.cost.len() as int);
        assert(sum_costs(st1.cost, st1.cost.len() as int) == sum_costs(
            st.cost,
            st.cost.len() as int,
        ) + c);
        lemma_lz_copy_cost(st1, base + 1, (n - 1) as nat, c, bt);
        assert(n * c == (n - 1) * c + c) by (nonlinear_arith)
            requires
                n >= 1,
        ;
    }
}

/// One step pays its item's bits, up to a truncation of less than one cost
/// unit per produced byte.
proof fn lemma_lz_step_cost(
    lit: Seq<(u32, u32)>,
    dist: Seq<(u32, u32)>,
    data: Seq<u8>,
    bt: u8,
    st: LzSt,
)
    requires
        codes_wf(lit),
        codes_wf(dist),
    ensures
        lz_step(lit, dist, data, bt, st) matches Some(r) ==> ({
            let (st2, end) = r;
            let sum1 = sum_costs(st.cost, st.cost.len() as int);
            let sum2 = sum_costs(st2.cost, st2.cost.len() as int);
            let grown = st2.cost.len() - st.cost.len();
            &&& st2.items.len() == st.items.len() + 1
            &&& st2.items.subrange(0, st.items.len() as int) == st.items
            &&& grown >= 0
            &&& item_bits(st2.items.last()) * (COST_SCALE as int) - grown <= sum2 - sum1
                <= item_bits(st2.items.last()) * (COST_SCALE as int)
        }),
{
    lemma_decode_advance(lit, data, st.pos);
    if let Some((sym, p1)) = huff_decode(lit, data, st.pos) {
        if sym == 256 {
            let (st2, end) = lz_step(lit, dist, data, bt, st).unwrap();
            assert(st2.items.subrange(0, st.items.len() as int) =~= st.items);
        } else if sym < 256 {
            let (st2, end) = lz_step(lit, dist, data, bt, st).unwrap();
            assert(st2.items.subrange(0, st.items.len() as int) =~= st.items);
            lemma_sum_costs_push(st.cost, mul_scale(p1 - st.pos), st.cost.len() as int);
            assert(item_bits(st2.items.last()) == p1 - st.pos);
        } else if sym <= 285 {
            let (len_extra, len_base) = spec_len_entry(sym);
            let p2 = p1 + len_extra;
            lemma_decode_advance(dist, data, p2);
            if p2 <= data.len() * 8 {
                if let Some((dsym, p3)) = huff_decode(dist, data, p2) {
                    if dsym <= 29 {
                        let (dist_extra, dist_base) = spec_dist_entry(dsym);
                        let p4 = p3 + dist_extra;
                        if p4 <= data.len() * 8 {
                            let distance = dist_base + bits_at(data, p3, dist_extra as nat);
                            let length = len_base + bits_at(data, p1, len_extra as nat);
                            if distance <= st.unpacked.len() && st.unpacked.len() + length
                                <= usize::MAX {
                                crate::bitstream::lemma_bits_at_bound(data, p1, len_extra as nat);
                                assert(len_extra <= 5);
                                assert((1u32 << 0u32) == 1 && (1u32 << 1u32) == 2 && (1u32
                                    << 2u32) == 4 && (1u32 << 3u32) == 8 && (1u32 << 4u32) == 16
                                    && (1u32 << 5u32) == 32) by (bit_vector);
                                assert(3 <= length <= 258);
                                let c = match_cost(p4 - st.pos, length);
                                let base = st.unpacked.len() - distance;
                                let st1 = lz_step_match_state(lit, dist, data, bt, st, sym, p1);
                                lemma_lz_copy_cost(st1, base, length as nat, c, bt);
                                let (st2, end) = lz_step(lit, dist, data, bt, st).unwrap();
                                assert(st2.items.subrange(0, st.items.len() as int) =~= st.items);
                                let bits = p4 - st.pos;
                                assert(item_bits(st2.items.last()) == bits);
                                assert(0 <= bits <= 48);
                                let sc = COST_SCALE as int;
                                let cv = (bits * sc) / (length as int);
                                assert(0 <= cv && c == cv as i128 && cv == c) by (nonlinear_arith)
                                    requires
                                        c == match_cost(bits, length as int) && cv == (bits * sc)
                                            / (length as int) && 0 <= bits <= 48 && 3 <= length
                                            <= 258 && sc == 65536,
                                ;
                                assert(bits * sc - length < (length as int) * cv <= bits * sc)
                                    by (nonlinear_arith)
                                    requires
                                        cv == (bits * sc) / (length as int) && 0 <= bits && 1
                                            <= length as int,
                                ;
                                assert((length as nat) * c == (length as int) * cv);
                            }
                        }
                    }
                }
            }
        }
    }
}


/// Payload sums read only the first `n` items.
proof fn lemma_payload_agree(a: Seq<LzItem>, b: Seq<LzItem>, n: int)
    requires
        0 <= n <= a.len(),
        n <= b.len(),
        forall|k: int| 0 <= k < n ==> a[k] == b[k],
    ensures
        payload_bits(a, n) == payload_bits(b, n),
    decreases n,
{
    if n > 0 {
        lemma_payload_agree(a, b, n - 1);
    }
}

/// A whole block run pays the bits of the items it appends, up to one cost
/// unit per produced byte.
proof fn lemma_lz_run_cost(
    lit: Seq<(u32, u32)>,
    dist: Seq<(u32, u32)>,
    data: Seq<u8>,
    bt: u8,
    st: LzSt,
)
    requires
        codes_wf(lit),
        codes_wf(dist),
        0 <= st.pos <= data.len() * 8,
    ensures
        lz_run(lit, dist, data, bt, st) matches Some(stf) ==> ({
            let sum1 = sum_costs(st.cost, st.cost.len() as int);
            let sum2 = sum_costs(stf.cost, stf.cost.len() as int);
            let dp = payload_bits(stf.items, stf.items.len() as int) - payload_bits(
                st.items,
                st.items.len() as int,
            );
            &&& stf.items.len() >= st.items.len()
            &&& stf.items.subrange(0, st.items.len() as int) == st.items
            &&& stf.cost.len() >= st.cost.len()
            &&& dp * (COST_SCALE as int) - (stf.cost.len() - st.cost.len()) <= sum2 - sum1
                <= dp * (COST_SCALE as int)
        }),
    decreases data.len() * 8 - st.pos,
{
    lemma_lz_step_advance(lit, dist, data, bt, st);
    lemma_lz_step_cost(lit, dist, data, bt, st);
    if let Some((st1, end)) = lz_step(lit, dist, data, bt, st) {
        if end {
            let stf = st1;
            lemma_payload_agree(stf.items, st.items, st.items.len() as int);
            assert(payload_bits(stf.items, stf.items.len() as int) == payload_bits(
                stf.items,
                st.items.len() as int,
            ) + item_bits(stf.items.last()));
            let dp = payload_bits(stf.items, stf.items.len() as int) - payload_bits(
                st.items,
                st.items.len() as int,
            );
            assert(dp == item_bits(stf.items.last()));
        } else {
            lemma_lz_run_cost(lit, dist, data, bt, st1);
            if let Some(stf) = lz_run(lit, dist, data, bt, st1) {
                lemma_payload_agree(st1.items, st.items, st.items.len() as int);
                assert(payload_bits(st1.items, st1.items.len() as int) == payload_bits(
                    st1.items,
                    st.items.len() as int,
                ) + item_bits(st1.items.last()));
                assert forall|k: int| 0 <= k < st.items.len() implies stf.items[k]
                    == st.items[k] by {
                    assert(stf.items.subrange(0, st1.items.len() as int)[k] == stf.items[k]);
                    assert(st1.items.subrange(0, st.items.len() as int)[k] == st1.items[k]);
                }
                assert(stf.items.subrange(0, st.items.len() as int) =~= st.items);
                let d1 = item_bits(st1.items.last());
                let d2 = payload_bits(stf.items, stf.items.len() as int) - payload_bits(
                    st1.items,
                    st1.items.len() as int,
                );
                let dp = d1 + d2;
                let sc = COST_SCALE as int;
                assert(dp * sc == d1 * sc + d2 * sc) by (nonlinear_arith)
                    requires
                        dp == d1 + d2,
                ;
            }
        }
    }
}

proof fn lemma_blocks_payload_push(recs: Seq<BlockRec>, x: BlockRec, n: int)
    requires
        0 <= n <= recs.len(),
    ensures
        blocks_payload(recs.push(x), n) == blocks_payload(recs, n),
    decreases n,
{
    if n > 0 {
        lemma_blocks_payload_push(recs, x, n - 1);
    }
}

/// The whole stream's costs pay the blocks' payload bits, up to one cost unit
/// per decoded byte.
#[verifier::rlimit(100)]
proof fn lemma_stream_run_cost(data: Seq<u8>, st: LzSt, recs: Seq<BlockRec>)
    requires
        0 <= st.pos <= data.len() * 8,
        st.items.len() == 0,
    ensures
        stream_run(data, st, recs) matches Some(r) ==> ({
            let (stf, recsf) = r;
            let sum1 = sum_costs(st.cost, st.cost.len() as int);
            let sum2 = sum_costs(stf.cost, stf.cost.len() as int);
            let dp = blocks_payload(recsf, recsf.len() as int) - blocks_payload(
                recs,
                recs.len() as int,
            );
            &&& stf.cost.len() >= st.cost.len()
            &&& dp * (COST_SCALE as int) - (stf.cost.len() - st.cost.len()) <= sum2 - sum1
                <= dp * (COST_SCALE as int)
        }),
    decreases data.len() * 8 - st.pos,
{
    reveal(stream_run);
    if st.pos + 3 <= data.len() * 8 {
        let bfinal = bits_at(data, st.pos, 1);
        let btv = bits_at(data, st.pos + 1, 2);
        let header_item = item_span(data, st.pos, st.pos + 3);
        let p = st.pos + 3;
        let body: Option<LzSt> = if btv == 1 {
            lz_run(static_lit_codes(), static_dist_codes(), data, 1, LzSt { pos: p, ..st })
        } else if btv == 2 {
            dyn_block_run(data, st, p)
        } else {
            None
        };
        if btv == 1 {
            lemma_static_codes_wf();
            lemma_lz_run_cost(
                static_lit_codes(),
                static_dist_codes(),
                data,
                1,
                LzSt { pos: p, ..st },
            );
            lemma_lz_run_advance(
                static_lit_codes(),
                static_dist_codes(),
                data,
                1,
                LzSt { pos: p, ..st },
            );
        } else if btv == 2 {
            lemma_dyn_header_wf(data, p);
            if let Some((litc, dstc, p4)) = dyn_header(data, p) {
                lemma_lz_run_cost(litc, dstc, data, 2, LzSt { pos: p4, ..st });
                lemma_lz_run_advance(litc, dstc, data, 2, LzSt { pos: p4, ..st });
            }
        }
        match body {
            None => {},
            Some(st1) => {
                let blocks1 = recs.push(BlockRec { header_item, bt: btv as u8, lz: st1.items });
                let st2 = LzSt { items: Seq::empty(), ..st1 };
                assert(payload_bits(st1.items, st1.items.len() as int) - payload_bits(
                    st.items,
                    0,
                ) == payload_bits(st1.items, st1.items.len() as int));
                lemma_blocks_payload_push(
                    recs,
                    BlockRec { header_item, bt: btv as u8, lz: st1.items },
                    recs.len() as int,
                );
                assert(blocks_payload(blocks1, blocks1.len() as int) == blocks_payload(
                    recs,
                    recs.len() as int,
                ) + payload_bits(st1.items, st1.items.len() as int));
                let sc = COST_SCALE as int;
                if bfinal == 1 {
                } else {
                    lemma_stream_run_cost(data, st2, blocks1);
                    if let Some((stf, recsf)) = stream_run(data, st2, blocks1) {
                        let d1 = payload_bits(st1.items, st1.items.len() as int);
                        let d2 = blocks_payload(recsf, recsf.len() as int) - blocks_payload(
                            blocks1,
                            blocks1.len() as int,
                        );
                        assert((d1 + d2) * sc == d1 * sc + d2 * sc) by (nonlinear_arith);
                        assert(blocks_payload(recsf, recsf.len() as int) - blocks_payload(
                            recs,
                            recs.len() as int,
                        ) == d1 + d2);
                    }
                }
            },
        }
    }
}

/// Cost attribution: the decoded costs sum to the blocks' payload bits, up to
/// a truncation of less than one cost unit per decoded byte.
pub proof fn lemma_cost_attribution(data: Seq<u8>)
    ensures
        decode_model(data) matches Some(m) ==> ({
            let (st, recs) = m;
            let total = blocks_payload(recs, recs.len() as int);
            total * (COST_SCALE as int) - st.cost.len() <= sum_costs(
                st.cost,
                st.cost.len() as int,
            ) <= total * (COST_SCALE as int)
        }),
{
    let st0 = LzSt {
        pos: 0,
        unpacked: Seq::empty(),
        lit_index: Seq::empty(),
        cost: Seq::empty(),
        btype: Seq::empty(),
        items: Seq::empty(),
    };
    lemma_stream_run_cost(data, st0, Seq::empty());
}

/// Cost conservation and attribution for an analysis result: the emitted
/// costs sum to the decoded blocks' payload bits, up to less than one cost
/// unit (`1 / COST_SCALE` of a bit) per decoded byte.
pub proof fn lemma_analysis_cost_attribution(a: Analysis, data: Seq<u8>)
    requires
        a.matches_model(data),
    ensures
        decode_model(data) matches Some(m) && ({
            let total = blocks_payload(m.1, m.1.len() as int);
            total * (COST_SCALE as int) - a.data.cost@.len() <= sum_costs(
                a.data.cost@,
                a.data.cost@.len() as int,
            ) <= total * (COST_SCALE as int)
        }),
{
    lemma_analysis_cost_conserved(a, data);
    lemma_cost_attribution(data);
}

} // verus!
