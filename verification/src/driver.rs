//! The pack driver's decision core: one suggestion round, and the auto-rename
//! search that reapplies suggestions until the cartridge stops shrinking.

use vstd::prelude::*;

use crate::compress::{zopfli_deflate, zopfli_deflate_opt};
use crate::deflate::{analyze, decode_model};
use crate::program::Program;
use crate::rename::{merge_renames, merge_spec, rn_view, Renaming};
use crate::search::compute_rename_suggestions;
use crate::serialize::serialise;
use crate::token::view_tree;

verus! {

/// The analysed bit size of the compressed serialization of `code`, where
/// the compressor succeeds and the analyser accepts its stream.
pub open spec fn compressed_size_of(code: Seq<u8>, iterations: u64) -> Option<int> {
    match zopfli_deflate_opt(code, iterations) {
        Some(z) => match decode_model(z) {
            Some((st, recs)) => Some(st.pos),
            None => None,
        },
        None => None,
    }
}

/// A fresh copy of a renaming.
#[verifier::loop_isolation(false)]
fn clone_renaming(a: &Renaming) -> (r: Renaming)
    ensures
        rn_view(r) == rn_view(*a),
{
    let mut out = Renaming { pairs: Vec::new() };
    let mut i: usize = 0;
    proof {
        assert(rn_view(out) =~= rn_view(*a).take(0));
    }
    while i < a.pairs.len()
        invariant
            i <= a.pairs@.len(),
            rn_view(out) == rn_view(*a).take(i as int),
        decreases a.pairs@.len() - i,
    {
        let k = a.pairs[i].0.clone();
        let v = a.pairs[i].1.clone();
        proof {
            assert(k@ == a.pairs@[i as int].0@);
            assert(v@ == a.pairs@[i as int].1@);
        }
        out.pairs.push((k, v));
        proof {
            assert(rn_view(out) =~= rn_view(*a).take(i + 1));
        }
        i = i + 1;
    }
    proof {
        assert(rn_view(*a).take(a.pairs@.len() as int) =~= rn_view(*a));
    }
    out
}

/// True only when the two renamings hold the same pairs in the same order.
#[verifier::loop_isolation(false)]
fn renamings_eq(a: &Renaming, b: &Renaming) -> (r: bool)
    ensures
        r ==> rn_view(*a) == rn_view(*b),
{
    if a.pairs.len() != b.pairs.len() {
        return false;
    }
    let mut i: usize = 0;
    while i < a.pairs.len()
        invariant
            i <= a.pairs@.len(),
            a.pairs@.len() == b.pairs@.len(),
            forall|k: int| 0 <= k < i ==> rn_view(*a)[k] == rn_view(*b)[k],
        decreases a.pairs@.len() - i,
    {
        let ghost ii = i as int;
        if !crate::parse::bytes_eq(a.pairs[i].0.as_slice(), b.pairs[i].0.as_slice())
            || !crate::parse::bytes_eq(a.pairs[i].1.as_slice(), b.pairs[i].1.as_slice()) {
            return false;
        }
        proof {
            assert(rn_view(*a)[ii] == (a.pairs@[ii].0@, a.pairs@[ii].1@));
            assert(rn_view(*b)[ii] == (b.pairs@[ii].0@, b.pairs@[ii].1@));
        }
        i = i + 1;
    }
    proof {
        assert(rn_view(*a) =~= rn_view(*b));
    }
    true
}

fn seen_contains(seen: &Vec<Renaming>, rn: &Renaming) -> (r: bool)
{
    let mut i: usize = 0;
    while i < seen.len()
        decreases seen@.len() - i,
    {
        if renamings_eq(&seen[i], rn) {
            return true;
        }
        i = i + 1;
    }
    false
}

/// What one suggestion round computes for a program tree: the suggestions of
/// the analysis of its compressed serialization, merged into `source`.
pub open spec fn round_spec(
    tree: Seq<crate::token::Node>,
    source: Seq<(Seq<u8>, Seq<u8>)>,
    iterations: u64,
) -> Option<Seq<(Seq<u8>, Seq<u8>)>> {
    let code = serialise(tree, 32).1;
    let tree2 = serialise(tree, 32).0;
    match zopfli_deflate_opt(code, iterations) {
        Some(z) => match decode_model(z) {
            Some((st, recs)) => {
                let cand = crate::program::candidates_of(tree2);
                match crate::search::suggestions_of(
                    st.unpacked,
                    st.lit_index,
                    st.btype,
                    cand.renameable,
                    cand.fixed,
                    cand.chars,
                    0xFFFF_FFFF,
                ) {
                    Some(sugg) => Some(merge_spec(source, sugg)),
                    None => None,
                }
            },
            None => None,
        },
        None => None,
    }
}

/// One suggestion round: serialise the program, compress and analyse it, and
/// merge the computed suggestions into `source`. `None` where the compressor,
/// the analyser or the search yields nothing.
pub fn pack_suggestions(program: &mut Program, source: &Renaming, iterations: u64) -> (r: Option<
    Renaming,
>)
    requires
        iterations >= 1,
    ensures
        r matches Some(v) ==> round_spec(view_tree(old(program).tt@), rn_view(*source),
            iterations) == Some(rn_view(v)),
{
    let code = program.serialize(32);
    let z = match zopfli_deflate(code.as_slice(), iterations) {
        Some(z) => z,
        None => {
            return None;
        },
    };
    let cap = usize::MAX;
    if z.len() > cap / 8 {
        return None;
    }
    let analysis = match analyze(z.as_slice()) {
        Ok(a) => a,
        Err(_) => {
            return None;
        },
    };
    let rc = program.get_rename_candidates();
    let sugg = match compute_rename_suggestions(&rc, &analysis.data) {
        Some(s) => s,
        None => {
            return None;
        },
    };
    let merged = merge_renames(source, &sugg);
    proof {
        assert(rn_view(merged) == merge_spec(rn_view(*source), rn_view(sugg)));
    }
    Some(merged)
}

/// The auto-rename search: suggest renames from the current analysis, merge
/// them with the prior map, apply, reserialise, recompress, reanalyse; keep
/// the best-compressed variant. Stops when a merged map repeats, a round
/// yields nothing, or after `max_rounds` rounds. The kept code analyses to no
/// more bits than the starting serialization.
#[verifier::loop_isolation(false)]
#[verifier::rlimit(60)]
pub fn auto_rename_search(
    program: &mut Program,
    source_renames: &Renaming,
    iterations: u64,
    max_rounds: u64,
) -> (r: Option<(Vec<u8>, Renaming)>)
    requires
        iterations >= 1,
    ensures
        r matches Some(v) ==> ({
            let first = serialise(view_tree(old(program).tt@), 32).1;
            &&& compressed_size_of(first, iterations) is Some
            &&& compressed_size_of(v.0@, iterations) is Some
            &&& compressed_size_of(v.0@, iterations)->Some_0 <= compressed_size_of(
                first,
                iterations,
            )->Some_0
        }),
{
    let code = program.serialize(32);
    let z = match zopfli_deflate(code.as_slice(), iterations) {
        Some(z) => z,
        None => {
            return None;
        },
    };
    let cap = usize::MAX;
    if z.len() > cap / 8 {
        return None;
    }
    let mut analysis = match analyze(z.as_slice()) {
        Ok(a) => a,
        Err(_) => {
            return None;
        },
    };
    let ghost first = serialise(view_tree(old(program).tt@), 32).1;
    let ghost s0: int = analysis.total_bits as int;
    proof {
        assert(compressed_size_of(first, iterations) == Some(s0));
    }
    let mut best_size = analysis.total_size();
    let mut best_code = code;
    let mut rename = clone_renaming(source_renames);
    let mut best_rename = clone_renaming(source_renames);
    let mut seen: Vec<Renaming> = Vec::new();
    let first_seen = clone_renaming(&rename);
    seen.push(first_seen);
    let mut round: u64 = 0;
    let mut done = false;
    while !done && round < max_rounds
        invariant
            iterations >= 1,
            compressed_size_of(best_code@, iterations) == Some(best_size as int),
            best_size as int <= s0,
            round <= max_rounds,
        decreases max_rounds - round, if done {
            0int
        } else {
            1int
        },
    {
        round = round + 1;
        let rc = program.get_rename_candidates();
        let new_rename = match compute_rename_suggestions(&rc, &analysis.data) {
            Some(s) => s,
            None => {
                done = true;
                continue ;
            },
        };
        let merged = merge_renames(&rename, &new_rename);
        rename = merged;
        if seen_contains(&seen, &rename) {
            done = true;
            continue ;
        }
        seen.push(clone_renaming(&rename));
        program.apply_renames(&new_rename);
        let new_code = program.serialize(32);
        let z2 = match zopfli_deflate(new_code.as_slice(), iterations) {
            Some(z2) => z2,
            None => {
                done = true;
                continue ;
            },
        };
        let cap2 = usize::MAX;
        if z2.len() > cap2 / 8 {
            done = true;
            continue ;
        }
        let a2 = match analyze(z2.as_slice()) {
            Ok(a2) => a2,
            Err(_) => {
                done = true;
                continue ;
            },
        };
        let size2 = a2.total_size();
        analysis = a2;
        if size2 < best_size {
            best_size = size2;
            best_code = new_code;
            best_rename = clone_renaming(&rename);
        }
    }
    Some((best_code, best_rename))
}

} // verus!
