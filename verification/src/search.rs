//! The rename search: ranks renameable identifiers by the cost mass of their
//! literal occurrences, ranks single-byte replacement names by their cheapness
//! when newly duplicated, and pairs the two rankings into a renaming.
//!
//! Scores count whole points for bytes in dynamic-Huffman blocks and tenths
//! elsewhere; they are held in tenths, so the arithmetic is exact.

use vstd::prelude::*;

use crate::SENTINEL;
use crate::deflate::AnalysisData;
use crate::program::RenameCandidates;
use crate::rename::Renaming;

verus! {

/// One ranked renameable identifier: name, score in tenths, earliest
/// occurrence offset.
pub struct IdEntry {
    pub name: Seq<u8>,
    pub score: int,
    pub first: int,
}

/// The score a single emitted byte contributes: a whole point in a
/// dynamic-Huffman block, a tenth elsewhere, and only for literal bytes.
pub open spec fn byte_score(li: Seq<usize>, bt: Seq<u8>, o: int) -> int {
    if 0 <= o < li.len() && li[o] == SENTINEL {
        if bt[o] == 2 {
            10
        } else {
            1
        }
    } else {
        0
    }
}

/// The score of the bytes `off .. off + n`.
pub open spec fn span_score(li: Seq<usize>, bt: Seq<u8>, off: int, n: int) -> int
    decreases n,
{
    if n <= 0 {
        0
    } else {
        byte_score(li, bt, off) + span_score(li, bt, off + 1, n - 1)
    }
}

/// The score of all occurrences of an identifier of length `n` at `offsets`.
pub open spec fn occ_score(li: Seq<usize>, bt: Seq<u8>, offsets: Seq<usize>, k: int, n: int) -> int
    decreases offsets.len() - k,
{
    if k < 0 || k >= offsets.len() {
        0
    } else {
        span_score(li, bt, offsets[k] as int, n) + occ_score(li, bt, offsets, k + 1, n)
    }
}

/// Whether `a` ranks before `b`: larger per-byte score first, then earlier
/// first occurrence.
pub open spec fn id_before(a: IdEntry, b: IdEntry) -> bool {
    let lhs = a.score * b.name.len();
    let rhs = b.score * a.name.len();
    lhs > rhs || (lhs == rhs && a.first < b.first)
}

/// Stable insertion by rank.
pub open spec fn id_insert(s: Seq<IdEntry>, e: IdEntry) -> Seq<IdEntry>
    decreases s.len(),
{
    if s.len() == 0 {
        seq![e]
    } else if !id_before(e, s[0]) {
        seq![s[0]] + id_insert(s.skip(1), e)
    } else {
        seq![e] + s
    }
}

/// The ranked identifiers built from entries `i..` of the discovery list.
pub open spec fn rank_ids(
    li: Seq<usize>,
    bt: Seq<u8>,
    rn: Seq<(Seq<u8>, Seq<usize>)>,
    i: int,
    acc: Seq<IdEntry>,
) -> Seq<IdEntry>
    decreases rn.len() - i,
{
    if i < 0 || i >= rn.len() {
        acc
    } else {
        let (name, offsets) = rn[i];
        if offsets.len() == 0 {
            rank_ids(li, bt, rn, i + 1, acc)
        } else {
            let e = IdEntry {
                name,
                score: occ_score(li, bt, offsets, 0, name.len() as int),
                first: offsets[0] as int,
            };
            rank_ids(li, bt, rn, i + 1, id_insert(acc, e))
        }
    }
}

/// One ranked candidate character: the byte, its score in tenths, its
/// earliest offset.
pub struct ChEntry {
    pub ch: u8,
    pub score: int,
    pub first: int,
}

/// Letters `a`..`f` never force a separator after a number, `p` and `x`
/// rarely do; others are neutral.
pub open spec fn ws_efficiency(c: u8) -> int {
    if 97 <= (c | 32) && (c | 32) <= 102 {
        0
    } else if (c | 32) == 112 || (c | 32) == 120 {
        1
    } else {
        2
    }
}

pub open spec fn ch_before(a: ChEntry, b: ChEntry) -> bool {
    a.score > b.score || (a.score == b.score && (ws_efficiency(a.ch) > ws_efficiency(b.ch) || (
    ws_efficiency(a.ch) == ws_efficiency(b.ch) && a.first < b.first)))
}

pub open spec fn ch_insert(s: Seq<ChEntry>, e: ChEntry) -> Seq<ChEntry>
    decreases s.len(),
{
    if s.len() == 0 {
        seq![e]
    } else if !ch_before(e, s[0]) {
        seq![s[0]] + ch_insert(s.skip(1), e)
    } else {
        seq![e] + s
    }
}

/// Accumulates candidate-character buckets: per byte value, the score over
/// its free literal occurrences and the earliest such offset.
pub open spec fn bucket_chars(
    unp: Seq<u8>,
    li: Seq<usize>,
    bt: Seq<u8>,
    chars: Seq<usize>,
    k: int,
    acc: Seq<ChEntry>,
) -> Seq<ChEntry>
    decreases chars.len() - k,
{
    if k < 0 || k >= chars.len() {
        acc
    } else {
        let o = chars[k] as int;
        if 0 <= o < li.len() && li[o] == SENTINEL {
            bucket_chars(unp, li, bt, chars, k + 1, bucket_add(acc, unp[o], byte_score(li, bt, o),
                chars[k]))
        } else {
            bucket_chars(unp, li, bt, chars, k + 1, acc)
        }
    }
}

pub open spec fn bucket_add(acc: Seq<ChEntry>, c: u8, pts: int, off: usize) -> Seq<ChEntry>
    decreases acc.len(),
{
    if acc.len() == 0 {
        seq![ChEntry { ch: c, score: pts, first: off as int }]
    } else if acc[0].ch == c {
        seq![ChEntry { ch: c, score: acc[0].score + pts, first: acc[0].first }] + acc.skip(1)
    } else {
        seq![acc[0]] + bucket_add(acc.skip(1), c, pts, off)
    }
}

/// Sorts the buckets by rank.
pub open spec fn rank_chars(buckets: Seq<ChEntry>, i: int, acc: Seq<ChEntry>) -> Seq<ChEntry>
    decreases buckets.len() - i,
{
    if i < 0 || i >= buckets.len() {
        acc
    } else {
        rank_chars(buckets, i + 1, ch_insert(acc, buckets[i]))
    }
}


/// The priority order for seeding the single-byte name pool.
pub open spec fn seed_chars() -> Seq<u8> {
    seq![95u8, 103, 104, 105, 106, 107, 108, 109, 110, 111, 113, 114, 115, 116, 117, 118, 119,
        121, 122, 112, 120, 97, 98, 99, 100, 101, 102, 71, 72, 73, 74, 75, 76, 77, 78, 79, 81,
        82, 83, 84, 85, 86, 87, 89, 90, 80, 88, 65, 66, 67, 68, 69, 70]
}

pub open spec fn name_set_has(s: Seq<Seq<u8>>, key: Seq<u8>) -> bool {
    exists|k: int| 0 <= k < s.len() && #[trigger] s[k] == key
}

/// Adds the seed characters that are neither fixed nor already pooled.
pub open spec fn seed_pool(fixed: Seq<Seq<u8>>, pool: Seq<Seq<u8>>, i: int) -> Seq<Seq<u8>>
    decreases seed_chars().len() - i,
{
    if i < 0 || i >= seed_chars().len() {
        pool
    } else {
        let nm = seq![seed_chars()[i]];
        if !name_set_has(fixed, nm) && !name_set_has(pool, nm) {
            seed_pool(fixed, pool.push(nm), i + 1)
        } else {
            seed_pool(fixed, pool, i + 1)
        }
    }
}

/// The diagonal index of the triangular enumeration at step `p`: the largest
/// `d` with `d (d + 1) / 2 <= p`.
pub open spec fn tri_d(p: int, d: int) -> int
    decreases p - d,
    when 0 <= d <= p
{
    if (d + 1) * (d + 2) / 2 > p {
        d
    } else {
        proof {
            assert((d + 2) * (d + 3) / 2 > (d + 1) * (d + 2) / 2) by (nonlinear_arith)
                requires
                    d >= 0;
            assert((p + 1) * (p + 2) / 2 > p) by (nonlinear_arith)
                requires
                    p >= 0;
        }
        tri_d(p, d + 1)
    }
}

/// Grows the pool with two-character names by the triangular enumeration,
/// up to `cap` steps.
pub open spec fn grow_pool(
    fixed: Seq<Seq<u8>>,
    pool: Seq<Seq<u8>>,
    need: int,
    pos: int,
    cap: int,
) -> Option<Seq<Seq<u8>>>
    decreases cap - pos,
    when 0 <= pos
{
    if pool.len() >= need {
        Some(pool)
    } else if pos >= cap {
        None
    } else {
        let d = tri_d(pos, 0);
        let x = pos - d * (d + 1) / 2;
        let y = d - x;
        if 0 <= y < pool.len() && 0 <= x < pool.len() {
            let nm = pool[y] + pool[x];
            if !name_set_has(fixed, nm) && !name_set_has(pool, nm) {
                grow_pool(fixed, pool.push(nm), need, pos + 1, cap)
            } else {
                grow_pool(fixed, pool, need, pos + 1, cap)
            }
        } else {
            None
        }
    }
}

/// The names of the ranked identifiers paired with the first names of the
/// pool, as a renaming.
pub open spec fn pair_up(ids: Seq<IdEntry>, pool: Seq<Seq<u8>>, i: int) -> Seq<(Seq<u8>, Seq<u8>)>
    decreases ids.len() - i,
{
    if i < 0 || i >= ids.len() || i >= pool.len() {
        Seq::empty()
    } else {
        seq![(ids[i].name, pool[i])] + pair_up(ids, pool, i + 1)
    }
}

/// The single-byte names of the ranked candidate characters.
pub open spec fn pool_of_chars(cs: Seq<ChEntry>) -> Seq<Seq<u8>> {
    Seq::new(cs.len(), |i: int| seq![cs[i].ch])
}

/// The suggested renaming for a program with discovery result `rc` and
/// analysis arrays `(unp, li, bt)`: ranked identifiers paired with ranked
/// replacement names, the pool seeded and grown when it runs short.
pub open spec fn suggestions_of(
    unp: Seq<u8>,
    li: Seq<usize>,
    bt: Seq<u8>,
    renameable: Seq<(Seq<u8>, Seq<usize>)>,
    fixed: Seq<Seq<u8>>,
    chars: Seq<usize>,
    cap: int,
) -> Option<Seq<(Seq<u8>, Seq<u8>)>> {
    let ids = rank_ids(li, bt, renameable, 0, Seq::empty());
    let pool0 = pool_of_chars(rank_chars(bucket_chars(unp, li, bt, chars, 0, Seq::empty()), 0,
        Seq::empty()));
    if ids.len() <= pool0.len() {
        Some(pair_up(ids, pool0, 0))
    } else {
        match grow_pool(fixed, seed_pool(fixed, pool0, 0), ids.len() as int, 0, cap) {
            Some(pool) => Some(pair_up(ids, pool, 0)),
            None => None,
        }
    }
}


proof fn lemma_span_bound(li: Seq<usize>, bt: Seq<u8>, off: int, n: int)
    ensures
        0 <= span_score(li, bt, off, n),
        n >= 0 ==> span_score(li, bt, off, n) <= 10 * n,
    decreases n,
{
    if n > 0 {
        lemma_span_bound(li, bt, off + 1, n - 1);
    }
}

proof fn lemma_occ_bound(li: Seq<usize>, bt: Seq<u8>, offsets: Seq<usize>, k: int, n: int)
    requires
        0 <= k <= offsets.len(),
        n >= 0,
    ensures
        0 <= occ_score(li, bt, offsets, k, n) <= 10 * (offsets.len() - k) * n,
    decreases offsets.len() - k,
{
    if k < offsets.len() {
        lemma_span_bound(li, bt, offsets[k] as int, n);
        lemma_occ_bound(li, bt, offsets, k + 1, n);
        assert(10 * n + 10 * (offsets.len() - k - 1) * n == 10 * (offsets.len() - k) * n)
            by (nonlinear_arith);
    } else {
        assert(10 * (offsets.len() - k) * n == 0) by (nonlinear_arith)
            requires
                k == offsets.len();
    }
}

/// One ranked identifier, executably.
pub struct RankedId {
    pub name: Vec<u8>,
    pub score: u64,
    pub first: usize,
}

pub open spec fn rid_view(r: RankedId) -> IdEntry {
    IdEntry { name: r.name@, score: r.score as int, first: r.first as int }
}

pub open spec fn rids_view(s: Seq<RankedId>) -> Seq<IdEntry> {
    Seq::new(s.len(), |i: int| rid_view(s[i]))
}

pub open spec fn chs_view(s: Seq<(u8, u64, usize)>) -> Seq<ChEntry> {
    Seq::new(s.len(), |i: int| ChEntry { ch: s[i].0, score: s[i].1 as int, first: s[i].2 as int })
}

/// The score of one identifier's occurrences.
#[verifier::loop_isolation(false)]
fn score_of(li: &Vec<usize>, bt: &Vec<u8>, offsets: &Vec<usize>, n: usize) -> (r: u64)
    requires
        n <= 0xFFFF,
        offsets@.len() <= 0xFFFF_FFFF,
        bt@.len() == li@.len(),
    ensures
        r == occ_score(li@, bt@, offsets@, 0, n as int),
{
    let mut acc: u64 = 0;
    let mut k: usize = 0;
    let nli = li.len();
    proof {
        lemma_occ_bound(li@, bt@, offsets@, 0, n as int);
        assert(10 * (offsets@.len() - 0) * n <= 10 * 0xFFFF_FFFF * 0xFFFF) by (nonlinear_arith)
            requires
                offsets@.len() <= 0xFFFF_FFFF && n <= 0xFFFF;
    }
    while k < offsets.len()
        invariant
            k <= offsets@.len(),
            nli == li@.len(),
            acc + occ_score(li@, bt@, offsets@, k as int, n as int) == occ_score(
                li@,
                bt@,
                offsets@,
                0,
                n as int,
            ),
            occ_score(li@, bt@, offsets@, 0, n as int) <= 10 * 0xFFFF_FFFF * 0xFFFF,
        decreases offsets@.len() - k,
    {
        proof {
            lemma_span_bound(li@, bt@, offsets@[k as int] as int, n as int);
            lemma_occ_bound(li@, bt@, offsets@, k + 1, n as int);
        }
        let off = offsets[k];
        let mut j: usize = 0;
        let ghost acc_k = acc;
        while j < n
            invariant
                j <= n,
                nli == li@.len(),
                acc == acc_k + (span_score(li@, bt@, off as int, n as int) - span_score(
                    li@,
                    bt@,
                    off + j,
                    n - j,
                )),
                acc_k + span_score(li@, bt@, off as int, n as int) <= 10 * 0xFFFF_FFFF * 0xFFFF,
            decreases n - j,
        {
            proof {
                lemma_span_bound(li@, bt@, off as int, n as int);
                lemma_span_bound(li@, bt@, off + j, n - j);
                lemma_span_bound(li@, bt@, off + j + 1, n - j - 1);
            }
            if off <= usize::MAX - j && off + j < nli {
                let o = off + j;
                if li[o] == SENTINEL {
                    if bt[o] == 2 {
                        acc = acc + 10;
                    } else {
                        acc = acc + 1;
                    }
                }
            }
            j = j + 1;
        }
        k = k + 1;
    }
    acc
}

proof fn lemma_mul64_fits(x: u128, y: u128)
    requires
        x < 0x1_0000_0000_0000_0000,
        y < 0x1_0000_0000_0000_0000,
    ensures
        x * y <= u128::MAX,
{
    assert(x * y <= u128::MAX) by (nonlinear_arith)
        requires
            x < 0x1_0000_0000_0000_0000 && y < 0x1_0000_0000_0000_0000;
}

fn id_before_x(a: &RankedId, b: &RankedId) -> (r: bool)
    ensures
        r == id_before(rid_view(*a), rid_view(*b)),
{
    let la = a.name.len();
    let lb = b.name.len();
    proof {
        lemma_mul64_fits(a.score as u128, lb as u128);
        lemma_mul64_fits(b.score as u128, la as u128);
    }
    let lhs = (a.score as u128) * (lb as u128);
    let rhs = (b.score as u128) * (la as u128);
    proof {
        assert(lhs == rid_view(*a).score * rid_view(*b).name.len());
        assert(rhs == rid_view(*b).score * rid_view(*a).name.len());
    }
    lhs > rhs || (lhs == rhs && a.first < b.first)
}

proof fn lemma_id_insert_at(s: Seq<IdEntry>, e: IdEntry, p: int)
    requires
        0 <= p <= s.len(),
        forall|k: int| 0 <= k < p ==> !id_before(e, #[trigger] s[k]),
        p < s.len() ==> id_before(e, s[p]),
    ensures
        id_insert(s, e) == s.insert(p, e),
    decreases s.len(),
{
    if s.len() == 0 || p == 0 {
        assert(id_insert(s, e) =~= s.insert(p, e));
    } else {
        let s1 = s.skip(1);
        assert(forall|k: int| 0 <= k < p - 1 ==> !id_before(e, #[trigger] s1[k]));
        lemma_id_insert_at(s1, e, p - 1);
        assert(id_insert(s, e) =~= s.insert(p, e));
    }
}

proof fn lemma_ch_insert_at(s: Seq<ChEntry>, e: ChEntry, p: int)
    requires
        0 <= p <= s.len(),
        forall|k: int| 0 <= k < p ==> !ch_before(e, #[trigger] s[k]),
        p < s.len() ==> ch_before(e, s[p]),
    ensures
        ch_insert(s, e) == s.insert(p, e),
    decreases s.len(),
{
    if s.len() == 0 || p == 0 {
        assert(ch_insert(s, e) =~= s.insert(p, e));
    } else {
        let s1 = s.skip(1);
        assert(forall|k: int| 0 <= k < p - 1 ==> !ch_before(e, #[trigger] s1[k]));
        lemma_ch_insert_at(s1, e, p - 1);
        assert(ch_insert(s, e) =~= s.insert(p, e));
    }
}

#[verifier::loop_isolation(false)]
fn insert_ranked(v: &mut Vec<RankedId>, e: RankedId)
    ensures
        rids_view(final(v)@) == id_insert(rids_view(old(v)@), rid_view(e)),
{
    let ghost v0 = rids_view(v@);
    let mut p: usize = 0;
    while p < v.len() && !id_before_x(&e, &v[p])
        invariant
            p <= v@.len(),
            v0 == rids_view(v@),
            forall|k: int| 0 <= k < p ==> !id_before(rid_view(e), #[trigger] v0[k]),
        decreases v@.len() - p,
    {
        proof {
            assert(v0[p as int] == rid_view(v@[p as int]));
        }
        p = p + 1;
    }
    proof {
        if p < v@.len() {
            assert(v0[p as int] == rid_view(v@[p as int]));
        }
        lemma_id_insert_at(v0, rid_view(e), p as int);
    }
    v.insert(p, e);
    proof {
        assert(rids_view(v@) =~= v0.insert(p as int, rid_view(e)));
    }
}

#[verifier::loop_isolation(false)]
fn insert_chr(v: &mut Vec<(u8, u64, usize)>, e: (u8, u64, usize))
    ensures
        chs_view(final(v)@) == ch_insert(
            chs_view(old(v)@),
            ChEntry { ch: e.0, score: e.1 as int, first: e.2 as int },
        ),
{
    let ghost v0 = chs_view(v@);
    let ghost ev = ChEntry { ch: e.0, score: e.1 as int, first: e.2 as int };
    let mut p: usize = 0;
    while p < v.len() && !ch_before_x(&e, &v[p])
        invariant
            p <= v@.len(),
            v0 == chs_view(v@),
            forall|k: int| 0 <= k < p ==> !ch_before(ev, #[trigger] v0[k]),
        decreases v@.len() - p,
    {
        proof {
            assert(v0[p as int] == (ChEntry { ch: v@[p as int].0, score: v@[p as int].1 as int,
                first: v@[p as int].2 as int }));
        }
        p = p + 1;
    }
    proof {
        if p < v@.len() {
            assert(v0[p as int] == (ChEntry { ch: v@[p as int].0, score: v@[p as int].1 as int,
                first: v@[p as int].2 as int }));
        }
        lemma_ch_insert_at(v0, ev, p as int);
    }
    v.insert(p, e);
    proof {
        assert(chs_view(v@) =~= v0.insert(p as int, ev));
    }
}

fn ch_before_x(a: &(u8, u64, usize), b: &(u8, u64, usize)) -> (r: bool)
    ensures
        r == ch_before(
            ChEntry { ch: a.0, score: a.1 as int, first: a.2 as int },
            ChEntry { ch: b.0, score: b.1 as int, first: b.2 as int },
        ),
{
    let wa = ws_eff_x(a.0);
    let wb = ws_eff_x(b.0);
    a.1 > b.1 || (a.1 == b.1 && (wa > wb || (wa == wb && a.2 < b.2)))
}

fn ws_eff_x(c: u8) -> (r: u8)
    ensures
        r as int == ws_efficiency(c),
{
    if 97 <= (c | 32) && (c | 32) <= 102 {
        0
    } else if (c | 32) == 112 || (c | 32) == 120 {
        1
    } else {
        2
    }
}


pub open spec fn names_view(s: Seq<Vec<u8>>) -> Seq<Seq<u8>> {
    Seq::new(s.len(), |i: int| s[i]@)
}

fn bucket_add_x(acc: &mut Vec<(u8, u64, usize)>, c: u8, pts: u64, off: usize, bound: u64)
    requires
        pts <= 10,
        bound + 10 <= u64::MAX,
        forall|k: int| 0 <= k < old(acc)@.len() ==> (#[trigger] old(acc)@[k]).1 <= bound,
    ensures
        chs_view(final(acc)@) == bucket_add(
            chs_view(old(acc)@),
            c,
            pts as int,
            off,
        ),
        forall|k: int| 0 <= k < final(acc)@.len() ==> (#[trigger] final(acc)@[k]).1 <= bound
            + 10,
{
    let ghost v0 = chs_view(acc@);
    let mut i: usize = 0;
    while i < acc.len()
        invariant
            i <= acc@.len(),
            *acc == *old(acc),
            v0 == chs_view(acc@),
            pts <= 10,
            bound + 10 <= u64::MAX,
            forall|k: int| 0 <= k < acc@.len() ==> (#[trigger] acc@[k]).1 <= bound,
            forall|k: int| 0 <= k < i ==> (#[trigger] v0[k]).ch != c,
        decreases acc@.len() - i,
    {
        let ghost ii = i as int;
        proof {
            assert(v0[ii] == (ChEntry { ch: acc@[ii].0, score: acc@[ii].1 as int, first: acc@[
                ii
            ].2 as int }));
        }
        if acc[i].0 == c {
            proof {
                lemma_bucket_add_found(v0, c, pts as int, off, ii);
                assert(acc@[ii].1 <= bound);
            }
            let e = acc.remove(i);
            acc.insert(i, (e.0, e.1 + pts, e.2));
            proof {
                assert(chs_view(acc@) =~= v0.update(ii, ChEntry { ch: c, score: v0[ii].score
                    + pts, first: v0[ii].first }));
                assert forall|k: int| 0 <= k < acc@.len() implies (#[trigger] acc@[k]).1
                    <= bound + 10 by {
                    if k != ii {
                        assert(acc@[k] == old(acc)@[k]);
                    }
                }
            }
            return ;
        }
        i = i + 1;
    }
    proof {
        lemma_bucket_add_missing(v0, c, pts as int, off);
    }
    acc.push((c, pts, off));
    proof {
        assert(chs_view(acc@) =~= v0.push(ChEntry { ch: c, score: pts as int, first: off
            as int }));
        assert forall|k: int| 0 <= k < acc@.len() implies (#[trigger] acc@[k]).1 <= bound
            + 10 by {
            if k < acc@.len() - 1 {
                assert(acc@[k] == old(acc)@[k]);
            }
        }
    }
}

proof fn lemma_bucket_add_found(s: Seq<ChEntry>, c: u8, pts: int, off: usize, i: int)
    requires
        0 <= i < s.len(),
        s[i].ch == c,
        forall|k: int| 0 <= k < i ==> (#[trigger] s[k]).ch != c,
    ensures
        bucket_add(s, c, pts, off) == s.update(
            i,
            ChEntry { ch: c, score: s[i].score + pts, first: s[i].first },
        ),
    decreases s.len(),
{
    if i == 0 {
        assert(bucket_add(s, c, pts, off) =~= s.update(0, ChEntry { ch: c, score: s[0].score
            + pts, first: s[0].first }));
    } else {
        let s1 = s.skip(1);
        assert(forall|k: int| 0 <= k < i - 1 ==> (#[trigger] s1[k]).ch != c);
        lemma_bucket_add_found(s1, c, pts, off, i - 1);
        assert(bucket_add(s, c, pts, off) =~= s.update(i, ChEntry { ch: c, score: s[i].score
            + pts, first: s[i].first }));
    }
}

proof fn lemma_bucket_add_missing(s: Seq<ChEntry>, c: u8, pts: int, off: usize)
    requires
        forall|k: int| 0 <= k < s.len() ==> (#[trigger] s[k]).ch != c,
    ensures
        bucket_add(s, c, pts, off) == s.push(ChEntry { ch: c, score: pts, first: off as int }),
    decreases s.len(),
{
    if s.len() == 0 {
        assert(bucket_add(s, c, pts, off) =~= s.push(ChEntry { ch: c, score: pts, first: off
            as int }));
    } else {
        lemma_bucket_add_missing(s.skip(1), c, pts, off);
        assert(bucket_add(s, c, pts, off) =~= s.push(ChEntry { ch: c, score: pts, first: off
            as int }));
    }
}

/// The largest `d` with `d (d + 1) / 2 <= p`, found by walking the diagonal,
/// with the triangular number `d (d + 1) / 2` itself.
#[verifier::loop_isolation(false)]
fn tri_d_x(p: usize) -> (r: Option<(usize, usize)>)
    ensures
        r matches Some((d, t)) ==> d as int == tri_d(p as int, 0) && t == d * (d + 1) / 2 && t
            <= p,
        r is None ==> p >= 0xFFFF_FFFF,
{
    let mut d: usize = 0;
    if p >= 0xFFFF_FFFF {
        return None;
    }
    let mut fin = false;
    while !fin
        invariant
            p < 0xFFFF_FFFF,
            d <= p,
            d * (d + 1) / 2 <= p,
            tri_d(p as int, 0) == tri_d(p as int, d as int),
            fin ==> d as int == tri_d(p as int, 0),
        decreases p - d + if fin {
            0int
        } else {
            1int
        },
    {
        proof {
            let du = d as u64;
            assert((du + 1) * (du + 2) <= 0xFFFF_FFFFu64 * 0x1_0000_0000) by (nonlinear_arith)
                requires
                    du < 0xFFFF_FFFF,
            ;
        }
        let prod = (d as u64 + 1) * (d as u64 + 2);
        if prod / 2 <= p as u64 {
            proof {
                assert(d + 1 <= p) by (nonlinear_arith)
                    requires
                        (d + 1) * (d + 2) / 2 <= p && d >= 0,
                ;
            }
            d = d + 1;
        } else {
            fin = true;
        }
    }
    proof {
        let du = d as u64;
        assert(du * (du + 1) <= 0xFFFF_FFFFu64 * 0x1_0000_0000) by (nonlinear_arith)
            requires
                du < 0xFFFF_FFFF,
        ;
        assert(d * (d + 1) / 2 <= p);
    }
    let t64 = ((d as u64) * (d as u64 + 1)) / 2;
    let t = t64 as usize;
    Some((d, t))
}

/// The seed characters as bytes.
fn seed_chars_x() -> (r: Vec<u8>)
    ensures
        r@ == seed_chars(),
{
    let mut v: Vec<u8> = Vec::new();
    v.push(95);
    v.push(103);
    v.push(104);
    v.push(105);
    v.push(106);
    v.push(107);
    v.push(108);
    v.push(109);
    v.push(110);
    v.push(111);
    v.push(113);
    v.push(114);
    v.push(115);
    v.push(116);
    v.push(117);
    v.push(118);
    v.push(119);
    v.push(121);
    v.push(122);
    v.push(112);
    v.push(120);
    v.push(97);
    v.push(98);
    v.push(99);
    v.push(100);
    v.push(101);
    v.push(102);
    v.push(71);
    v.push(72);
    v.push(73);
    v.push(74);
    v.push(75);
    v.push(76);
    v.push(77);
    v.push(78);
    v.push(79);
    v.push(81);
    v.push(82);
    v.push(83);
    v.push(84);
    v.push(85);
    v.push(86);
    v.push(87);
    v.push(89);
    v.push(90);
    v.push(80);
    v.push(88);
    v.push(65);
    v.push(66);
    v.push(67);
    v.push(68);
    v.push(69);
    v.push(70);
    proof {
        assert(v@ =~= seed_chars());
    }
    v
}

/// Seeds the pool with the priority characters and grows it with
/// two-character names until it holds `need` names; `None` when the
/// enumeration runs out of steps or indices.
#[verifier::loop_isolation(false)]
#[verifier::rlimit(100)]
fn expand_pool(pool: Vec<Vec<u8>>, fixed: &Vec<Vec<u8>>, need: usize) -> (r: Option<
    Vec<Vec<u8>>,
>)
    ensures
        ({
            let fv = names_view(fixed@);
            let grown = grow_pool(
                fv,
                seed_pool(fv, names_view(pool@), 0),
                need as int,
                0,
                0xFFFF_FFFF,
            );
            match r {
                Some(p2) => grown == Some(names_view(p2@)) && p2@.len() >= need,
                None => grown is None,
            }
        }),
{
    let ghost fv = names_view(fixed@);
    let ghost pool0v = names_view(pool@);
    let mut pool = pool;
    let seeds = seed_chars_x();
    let mut si: usize = 0;
    proof {
        assert(names_view(fixed@) == fv);
    }
    while si < seeds.len()
        invariant
            si <= seeds@.len(),
            seed_pool(fv, names_view(pool@), si as int) == seed_pool(fv, pool0v, 0),
        decreases seeds@.len() - si,
    {
        let mut nm: Vec<u8> = Vec::new();
        nm.push(seeds[si]);
        proof {
            assert(nm@ =~= seq![seed_chars()[si as int]]);
        }
        let ghost pv = names_view(pool@);
        if !names_has_x(fixed, nm.as_slice()) && !names_has_x(&pool, nm.as_slice()) {
            let ghost nmv = nm@;
            pool.push(nm);
            proof {
                assert(names_view(pool@) =~= pv.push(nmv));
            }
        }
        si = si + 1;
    }
    let ghost seededv = names_view(pool@);
    proof {
        assert(seed_pool(fv, seededv, seed_chars().len() as int) == seededv);
        assert(seededv == seed_pool(fv, pool0v, 0));
    }
    let mut pos: usize = 0;
    while pool.len() < need
        invariant
            pos <= 0xFFFF_FFFF,
            grow_pool(fv, names_view(pool@), need as int, pos as int, 0xFFFF_FFFF) == grow_pool(
                fv,
                seededv,
                need as int,
                0,
                0xFFFF_FFFF,
            ),
        decreases 0xFFFF_FFFFu64 - pos,
    {
        if pos >= 0xFFFF_FFFF {
            return None;
        }
        let (dd, t) = match tri_d_x(pos) {
            Some(v) => v,
            None => {
                return None;
            },
        };
        let x = pos - t;
        if x > dd {
            return None;
        }
        let y = dd - x;
        if y >= pool.len() || x >= pool.len() {
            return None;
        }
        let mut nm = pool[y].clone();
        let ghost nm0 = nm@;
        proof {
            assert(nm0 == names_view(pool@)[y as int]);
        }
        let mut q: usize = 0;
        while q < pool[x].len()
            invariant
                q <= pool@[x as int]@.len(),
                x < pool@.len(),
                nm@ == nm0 + pool@[x as int]@.subrange(0, q as int),
            decreases pool@[x as int]@.len() - q,
        {
            nm.push(pool[x][q]);
            proof {
                assert(nm0 + pool@[x as int]@.subrange(0, q + 1) =~= (nm0 + pool@[
                    x as int
                ]@.subrange(0, q as int)).push(pool@[x as int]@[q as int]));
            }
            q = q + 1;
        }
        proof {
            assert(pool@[x as int]@.subrange(0, pool@[x as int]@.len() as int) =~= pool@[
                x as int
            ]@);
            assert(nm@ =~= names_view(pool@)[y as int] + names_view(pool@)[x as int]);
        }
        let ghost pv = names_view(pool@);
        if !names_has_x(fixed, nm.as_slice()) && !names_has_x(&pool, nm.as_slice()) {
            let ghost nmv = nm@;
            pool.push(nm);
            proof {
                assert(names_view(pool@) =~= pv.push(nmv));
            }
        }
        pos = pos + 1;
    }
    proof {
        assert(grow_pool(fv, names_view(pool@), need as int, pos as int, 0xFFFF_FFFF) == Some(
            names_view(pool@),
        ));
    }
    Some(pool)
}

/// Whether the discovery result and the analysis arrays are within the
/// ranges the exact search arithmetic covers: aligned arrays, and sizes that
/// keep the scores inside 64 bits.
pub open spec fn search_inputs_ok(rc: RenameCandidates, d: AnalysisData) -> bool {
    &&& d.block_type@.len() == d.literal_index@.len()
    &&& d.unpacked@.len() == d.literal_index@.len()
    &&& rc.candidate_chars@.len() <= 0xFFFF_FFFF
    &&& forall|i: int| 0 <= i < rc.renameable@.len() ==> (#[trigger] rc.renameable@[
        i
    ]).0@.len() <= 0xFFFF && rc.renameable@[i].1@.len() <= 0xFFFF_FFFF
}

/// What `compute_rename_suggestions` computes for this input.
pub open spec fn suggestions_spec(rc: RenameCandidates, d: AnalysisData) -> Option<
    Seq<(Seq<u8>, Seq<u8>)>,
> {
    let st = crate::program::rc_view(rc);
    suggestions_of(
        d.unpacked@,
        d.literal_index@,
        d.block_type@,
        st.renameable,
        st.fixed,
        st.chars,
        0xFFFF_FFFF,
    )
}

/// Builds the suggested renaming for one discovery result and analysis. For
/// in-range inputs the result is owed whenever the model has one; out-of-range
/// inputs yield nothing.
#[verifier::loop_isolation(false)]
#[verifier::rlimit(100)]
pub fn compute_rename_suggestions(rc: &RenameCandidates, d: &AnalysisData) -> (r: Option<
    Renaming,
>)
    ensures
        r matches Some(v) ==> suggestions_spec(*rc, *d) == Some(crate::rename::rn_view(v)),
        search_inputs_ok(*rc, *d) && suggestions_spec(*rc, *d) is Some ==> r is Some,
{
    let li = &d.literal_index;
    let bt = &d.block_type;
    let unp = &d.unpacked;
    if bt.len() != li.len() || unp.len() != li.len() {
        return None;
    }
    let ghost liv = li@;
    let ghost btv = bt@;
    let ghost unpv = unp@;
    let ghost rnv = crate::program::rc_view(*rc).renameable;
    let ghost fxv = crate::program::rc_view(*rc).fixed;
    let ghost chv = crate::program::rc_view(*rc).chars;

    let mut ids: Vec<RankedId> = Vec::new();
    let mut i: usize = 0;
    proof {
        assert(rids_view(ids@) =~= Seq::<IdEntry>::empty());
    }
    while i < rc.renameable.len()
        invariant
            i <= rc.renameable@.len(),
            rank_ids(liv, btv, rnv, i as int, rids_view(ids@)) == rank_ids(
                liv,
                btv,
                rnv,
                0,
                Seq::empty(),
            ),
        decreases rc.renameable@.len() - i,
    {
        let ghost ii = i as int;
        proof {
            assert(rnv[ii] == (rc.renameable@[ii].0@, rc.renameable@[ii].1@));
        }
        let name = &rc.renameable[i].0;
        let offsets = &rc.renameable[i].1;
        if name.len() > 0xFFFF || offsets.len() > 0xFFFF_FFFF {
            return None;
        }
        if offsets.len() > 0 {
            let score = score_of(li, bt, offsets, name.len());
            let e = RankedId { name: name.clone(), score, first: offsets[0] };
            proof {
                assert(rid_view(e) == (IdEntry {
                    name: rnv[ii].0,
                    score: occ_score(liv, btv, rnv[ii].1, 0, rnv[ii].0.len() as int),
                    first: rnv[ii].1[0] as int,
                }));
            }
            insert_ranked(&mut ids, e);
        }
        i = i + 1;
    }

    let mut buckets: Vec<(u8, u64, usize)> = Vec::new();
    if rc.candidate_chars.len() > 0xFFFF_FFFF {
        return None;
    }
    let mut k: usize = 0;
    proof {
        assert(chs_view(buckets@) =~= Seq::<ChEntry>::empty());
    }
    while k < rc.candidate_chars.len()
        invariant
            k <= rc.candidate_chars@.len(),
            rc.candidate_chars@.len() <= 0xFFFF_FFFF,
            bucket_chars(unpv, liv, btv, chv, k as int, chs_view(buckets@)) == bucket_chars(
                unpv,
                liv,
                btv,
                chv,
                0,
                Seq::empty(),
            ),
            forall|q: int| 0 <= q < buckets@.len() ==> (#[trigger] buckets@[q]).1 <= 10 * (
            k as u64),
        decreases rc.candidate_chars@.len() - k,
    {
        let ghost kk = k as int;
        proof {
            assert(chv[kk] == rc.candidate_chars@[kk]);
        }
        let o = rc.candidate_chars[k];
        if o < li.len() && li[o] == SENTINEL {
            let pts: u64 = if bt[o] == 2 {
                10
            } else {
                1
            };
            bucket_add_x(&mut buckets, unp[o], pts, o, 10 * (k as u64));
        }
        k = k + 1;
    }

    let mut ranked: Vec<(u8, u64, usize)> = Vec::new();
    let ghost bksv = chs_view(buckets@);
    let mut b: usize = 0;
    proof {
        assert(chs_view(ranked@) =~= Seq::<ChEntry>::empty());
    }
    while b < buckets.len()
        invariant
            b <= buckets@.len(),
            bksv == chs_view(buckets@),
            rank_chars(bksv, b as int, chs_view(ranked@)) == rank_chars(bksv, 0, Seq::empty()),
        decreases buckets@.len() - b,
    {
        let ghost bb = b as int;
        proof {
            assert(bksv[bb] == (ChEntry { ch: buckets@[bb].0, score: buckets@[bb].1 as int,
                first: buckets@[bb].2 as int }));
        }
        let e = buckets[b];
        insert_chr(&mut ranked, e);
        b = b + 1;
    }

    let mut pool: Vec<Vec<u8>> = Vec::new();
    let ghost rkv = chs_view(ranked@);
    let mut c2: usize = 0;
    while c2 < ranked.len()
        invariant
            c2 <= ranked@.len(),
            rkv == chs_view(ranked@),
            names_view(pool@) == pool_of_chars(rkv).take(c2 as int),
        decreases ranked@.len() - c2,
    {
        let mut nm: Vec<u8> = Vec::new();
        nm.push(ranked[c2].0);
        pool.push(nm);
        proof {
            assert(names_view(pool@) =~= pool_of_chars(rkv).take(c2 + 1));
        }
        c2 = c2 + 1;
    }
    proof {
        assert(pool_of_chars(rkv).take(ranked@.len() as int) =~= pool_of_chars(rkv));
        assert(names_view(pool@) == pool_of_chars(rkv));
    }

    let pool = if ids.len() > pool.len() {
        match expand_pool(pool, &rc.fixed, ids.len()) {
            Some(p2) => p2,
            None => {
                return None;
            },
        }
    } else {
        pool
    };

    let mut out = Renaming { pairs: Vec::new() };
    let ghost idsv = rids_view(ids@);
    let ghost poolv = names_view(pool@);
    let mut pi: usize = 0;
    proof {
        assert(crate::rename::rn_view(out) =~= Seq::<(Seq<u8>, Seq<u8>)>::empty());
    }
    while pi < ids.len() && pi < pool.len()
        invariant
            pi <= ids@.len(),
            idsv == rids_view(ids@),
            poolv == names_view(pool@),
            crate::rename::rn_view(out) + pair_up(idsv, poolv, pi as int) == pair_up(
                idsv,
                poolv,
                0,
            ),
        decreases ids@.len() - pi,
    {
        let ghost pp = pi as int;
        proof {
            assert(idsv[pp] == rid_view(ids@[pp]));
            assert(poolv[pp] == pool@[pp]@);
        }
        out.pairs.push((ids[pi].name.clone(), pool[pi].clone()));
        proof {
            assert(crate::rename::rn_view(out) =~= crate::rename::rn_view(Renaming {
                pairs: out.pairs,
            }));
            assert(crate::rename::rn_view(out) + pair_up(idsv, poolv, pp + 1) =~= pair_up(
                idsv,
                poolv,
                0,
            ));
        }
        pi = pi + 1;
    }
    proof {
        assert(pair_up(idsv, poolv, pi as int) =~= Seq::<(Seq<u8>, Seq<u8>)>::empty());
        assert(crate::rename::rn_view(out) =~= crate::rename::rn_view(out) + Seq::<(
            Seq<u8>,
            Seq<u8>,
        )>::empty());
    }
    Some(out)
}

fn names_has_x(s: &Vec<Vec<u8>>, key: &[u8]) -> (r: bool)
    ensures
        r == name_set_has(names_view(s@), key@),
{
    let ghost sv = names_view(s@);
    let mut i: usize = 0;
    while i < s.len()
        invariant
            i <= s@.len(),
            sv == names_view(s@),
            forall|k: int| 0 <= k < i ==> #[trigger] sv[k] != key@,
        decreases s@.len() - i,
    {
        if crate::parse::bytes_eq(s[i].as_slice(), key) {
            proof {
                assert(sv[i as int] == s@[i as int]@);
            }
            return true;
        }
        proof {
            assert(sv[i as int] == s@[i as int]@);
        }
        i = i + 1;
    }
    false
}

} // verus!
