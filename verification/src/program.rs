//! A parsed program: the token tree with directives extracted and applied,
//! and the discovery of renameable identifiers and candidate replacement
//! characters.

use vstd::prelude::*;

use crate::parse::{bytes_eq, kw_function, tokenise};
use crate::rename::{
    Renaming, apply_renames_tree, ar_nodes, find_renames, fr_nodes, rn_view, tf_nodes,
    apply_transform_to_load,
};
use crate::serialize::{serialise, serialize_tree};
use crate::token::{Node, TokenType, TreeToken, view_node, view_tree};
use crate::tokenizer::is_ident_start_spec;

verus! {

/// The entry points the host virtual machine calls; never renamed.
pub open spec fn vm_entry(name: Seq<u8>) -> bool {
    ||| name == seq![84u8, 73, 67]
    ||| name == seq![83u8, 67, 78]
    ||| name == seq![79u8, 86, 82]
}

/// Whether `name` is introduced as an assignment target or a function name
/// anywhere in `tt[i..]`, sub-trees and code strings included, and is not a
/// VM entry point.
pub open spec fn rin(tt: Seq<Node>, i: int, name: Seq<u8>) -> bool
    decreases tt, tt.len() - i,
    when 0 <= i
{
    if i >= tt.len() {
        false
    } else {
        let here = match tt[i] {
            Node::Token { type_: TokenType::Identifier, text, .. } => {
                i + 1 < tt.len() && match tt[i + 1] {
                    Node::Token { type_: t2, text: text2, .. } => {
                        ||| (t2 == TokenType::Other && text2 == seq![61u8] && text == name
                            && !vm_entry(name))
                        ||| (t2 == TokenType::Identifier && text == kw_function() && text2
                            == name && !vm_entry(name))
                    },
                    _ => false,
                }
            },
            Node::SubTree(sub) => rin(sub, 0, name),
            Node::CodeString { tt: sub, .. } => rin(sub, 0, name),
            _ => false,
        };
        here || rin(tt, i + 1, name)
    }
}

/// Decides `rin` for one name.
#[verifier::loop_isolation(false)]
#[verifier::rlimit(60)]
pub fn is_renamable(tt: &Vec<TreeToken>, name: &[u8]) -> (r: bool)
    ensures
        r == rin(view_tree(tt@), 0, name@),
    decreases tt,
{
    let ghost v0 = view_tree(tt@);
    let mut i: usize = 0;
    while i < tt.len()
        invariant
            i <= tt@.len(),
            rin(v0, 0, name@) == rin(v0, i as int, name@),
        decreases tt@.len() - i,
    {
        let ghost ii = i as int;
        proof {
            assert(view_node(tt@[ii]) == v0[ii]);
        }
        let here = match &tt[i] {
            TreeToken::Token { type_, text, .. } => {
                if *type_ == TokenType::Identifier && i + 1 < tt.len() {
                    proof {
                        assert(view_node(tt@[ii + 1]) == v0[ii + 1]);
                    }
                    match &tt[i + 1] {
                        TreeToken::Token { type_: t2, text: text2, .. } => {
                            let excluded = bytes_eq(name, &[84, 73, 67]) || bytes_eq(
                                name,
                                &[83, 67, 78],
                            ) || bytes_eq(name, &[79, 86, 82]);
                            proof {
                                assert(name@ =~= seq![84u8, 73, 67] || name@ != seq![84u8, 73,
                                    67]);
                            }
                            let a = *t2 == TokenType::Other && text2.len() == 1 && text2[0] == 61
                                && bytes_eq(text.as_slice(), name) && !excluded;
                            let b = *t2 == TokenType::Identifier && bytes_eq(
                                text.as_slice(),
                                &[102, 117, 110, 99, 116, 105, 111, 110],
                            ) && bytes_eq(text2.as_slice(), name) && !excluded;
                            proof {
                                if text2@.len() == 1 && text2@[0] == 61 {
                                    assert(text2@ =~= seq![61u8]);
                                }
                                if text2@ == seq![61u8] {
                                    assert(text2@[0] == 61);
                                }
                            }
                            a || b
                        },
                        _ => false,
                    }
                } else {
                    false
                }
            },
            TreeToken::SubTree(sub) => {
                proof {
                    crate::token::lemma_view_node_subtree(*sub);
                }
                is_renamable(sub, name)
            },
            TreeToken::CodeString { tt: sub, .. } => {
                proof {
                    let d = tt@[ii]->CodeString_delim;
                    crate::token::lemma_view_node_codestring(*sub, d);
                }
                is_renamable(sub, name)
            },
        };
        if here {
            return true;
        }
        i = i + 1;
    }
    false
}

/// The discovery result: each renameable identifier with its emitted
/// occurrence offsets; the identifiers that stay fixed; and the emitted
/// offsets of free identifier-start bytes, the pool of single-byte names.
pub struct RenameCandidates {
    pub renameable: Vec<(Vec<u8>, Vec<usize>)>,
    pub fixed: Vec<Vec<u8>>,
    pub candidate_chars: Vec<usize>,
}

/// The candidate state as sequences.
pub struct CandSt {
    pub renameable: Seq<(Seq<u8>, Seq<usize>)>,
    pub fixed: Seq<Seq<u8>>,
    pub chars: Seq<usize>,
}

/// Appends `off` to `key`'s occurrence list, creating the entry at the end if
/// none exists.
pub open spec fn assoc_push(s: Seq<(Seq<u8>, Seq<usize>)>, key: Seq<u8>, off: usize) -> Seq<
    (Seq<u8>, Seq<usize>),
>
    decreases s.len(),
{
    if s.len() == 0 {
        seq![(key, seq![off])]
    } else if s[0].0 == key {
        seq![(s[0].0, s[0].1.push(off))] + s.skip(1)
    } else {
        seq![s[0]] + assoc_push(s.skip(1), key, off)
    }
}

pub open spec fn set_has(s: Seq<Seq<u8>>, key: Seq<u8>) -> bool {
    exists|k: int| 0 <= k < s.len() && #[trigger] s[k] == key
}

pub open spec fn set_push(s: Seq<Seq<u8>>, key: Seq<u8>) -> Seq<Seq<u8>> {
    if set_has(s, key) {
        s
    } else {
        s.push(key)
    }
}

/// The escape-expanded length of one byte under the stack, with the wrapping
/// arithmetic the collector uses.
pub open spec fn enc_len_u(stack: Seq<u8>, k: int, c: u8) -> usize
    decreases stack.len() - k,
{
    if k < 0 || k >= stack.len() {
        1
    } else {
        let tail = enc_len_u(stack, k + 1, c);
        if c == 92 || c == stack[k] {
            enc_len_u(stack, k + 1, 92).wrapping_add(tail)
        } else {
            tail
        }
    }
}

/// The candidate-character offsets of a non-identifier token's text, walking
/// it with escape-expanded positions.
pub open spec fn other_chars(stack: Seq<u8>, text: Seq<u8>, j: int, off: usize) -> Seq<usize>
    decreases text.len() - j,
{
    if j < 0 || j >= text.len() {
        Seq::empty()
    } else {
        let off2 = off.wrapping_add(enc_len_u(stack, 0, text[j])).wrapping_sub(1);
        let rest = other_chars(stack, text, j + 1, off2.wrapping_add(1));
        if is_ident_start_spec(text[j]) {
            seq![off2] + rest
        } else {
            rest
        }
    }
}

/// The identifier-start offsets inside a fixed identifier's text.
pub open spec fn ident_chars(text: Seq<u8>, j: int, off: usize) -> Seq<usize>
    decreases text.len() - j,
{
    if j < 0 || j >= text.len() {
        Seq::empty()
    } else {
        let rest = ident_chars(text, j + 1, off);
        if is_ident_start_spec(text[j]) {
            seq![off.wrapping_add(j as usize)] + rest
        } else {
            rest
        }
    }
}

/// The candidate walk over `tt[i..]` under the delimiter stack.
pub open spec fn cand_nodes(
    full: Seq<Node>,
    tt: Seq<Node>,
    i: int,
    stack: Seq<u8>,
    st: CandSt,
) -> CandSt
    decreases tt, tt.len() - i,
    when 0 <= i
{
    if i >= tt.len() {
        st
    } else {
        let st1 = cand_node(full, tt[i], stack, st);
        cand_nodes(full, tt, i + 1, stack, st1)
    }
}

pub open spec fn cand_node(full: Seq<Node>, t: Node, stack: Seq<u8>, st: CandSt) -> CandSt
    decreases t, 0int,
{
    match t {
        Node::Token { type_, offset, text } => {
            if type_ == TokenType::Comment {
                st
            } else if type_ == TokenType::Identifier {
                if rin(full, 0, text) {
                    CandSt { renameable: assoc_push(st.renameable, text, offset), ..st }
                } else {
                    CandSt {
                        fixed: set_push(st.fixed, text),
                        chars: st.chars + ident_chars(text, 0, offset),
                        ..st
                    }
                }
            } else {
                CandSt { chars: st.chars + other_chars(stack, text, 0, offset), ..st }
            }
        },
        Node::SubTree(sub) => cand_nodes(full, sub, 0, stack, st),
        Node::CodeString { tt: sub, delim } => cand_nodes(
            full,
            sub,
            0,
            seq![delim] + stack,
            st,
        ),
    }
}

/// What the discovery yields for a whole tree.
pub open spec fn candidates_of(tt: Seq<Node>) -> CandSt {
    cand_nodes(
        tt,
        tt,
        0,
        Seq::empty(),
        CandSt { renameable: Seq::empty(), fixed: Seq::empty(), chars: Seq::empty() },
    )
}

/// The view of a discovery result.
pub open spec fn rc_view(rc: RenameCandidates) -> CandSt {
    CandSt {
        renameable: Seq::new(
            rc.renameable@.len(),
            |i: int| (rc.renameable@[i].0@, rc.renameable@[i].1@),
        ),
        fixed: Seq::new(rc.fixed@.len(), |i: int| rc.fixed@[i]@),
        chars: rc.chars_view(),
    }
}

impl RenameCandidates {
    pub open spec fn chars_view(&self) -> Seq<usize> {
        self.candidate_chars@
    }
}


fn assoc_push_x(s: &mut Vec<(Vec<u8>, Vec<usize>)>, key: &Vec<u8>, off: usize)
    ensures
        ({
            let v0 = Seq::new(old(s)@.len(), |i: int| (old(s)@[i].0@, old(s)@[i].1@));
            let v1 = Seq::new(final(s)@.len(), |i: int| (final(s)@[i].0@, final(s)@[i].1@));
            v1 == assoc_push(v0, key@, off)
        }),
{
    let ghost v0 = Seq::new(s@.len(), |i: int| (s@[i].0@, s@[i].1@));
    let mut i: usize = 0;
    while i < s.len()
        invariant
            i <= s@.len(),
            *s == *old(s),
            v0 == Seq::new(s@.len(), |q: int| (s@[q].0@, s@[q].1@)),
            forall|k: int| 0 <= k < i ==> (#[trigger] v0[k]).0 != key@,
        decreases s@.len() - i,
    {
        let ghost ii = i as int;
        if bytes_eq(s[i].0.as_slice(), key.as_slice()) {
            proof {
                assert(v0[ii] == (s@[ii].0@, s@[ii].1@));
                lemma_assoc_push_found(v0, key@, off, ii);
            }
            let mut entry = s.remove(i);
            entry.1.push(off);
            s.insert(i, entry);
            proof {
                let v1 = Seq::new(s@.len(), |q: int| (s@[q].0@, s@[q].1@));
                assert(v1 =~= v0.update(ii, (v0[ii].0, v0[ii].1.push(off))));
            }
            return ;
        }
        proof {
            assert(v0[ii] == (s@[ii].0@, s@[ii].1@));
        }
        i = i + 1;
    }
    proof {
        lemma_assoc_push_missing(v0, key@, off);
    }
    let mut offs: Vec<usize> = Vec::new();
    offs.push(off);
    s.push((key.clone(), offs));
    proof {
        let v1 = Seq::new(s@.len(), |q: int| (s@[q].0@, s@[q].1@));
        assert(v1 =~= v0.push((key@, seq![off])));
    }
}

proof fn lemma_assoc_push_found(s: Seq<(Seq<u8>, Seq<usize>)>, key: Seq<u8>, off: usize, i: int)
    requires
        0 <= i < s.len(),
        s[i].0 == key,
        forall|k: int| 0 <= k < i ==> (#[trigger] s[k]).0 != key,
    ensures
        assoc_push(s, key, off) == s.update(i, (s[i].0, s[i].1.push(off))),
    decreases s.len(),
{
    if i == 0 {
        assert(assoc_push(s, key, off) =~= s.update(0, (s[0].0, s[0].1.push(off))));
    } else {
        let s1 = s.skip(1);
        assert(forall|k: int| 0 <= k < i - 1 ==> (#[trigger] s1[k]).0 != key);
        lemma_assoc_push_found(s1, key, off, i - 1);
        assert(assoc_push(s, key, off) =~= s.update(i, (s[i].0, s[i].1.push(off))));
    }
}

proof fn lemma_assoc_push_missing(s: Seq<(Seq<u8>, Seq<usize>)>, key: Seq<u8>, off: usize)
    requires
        forall|k: int| 0 <= k < s.len() ==> (#[trigger] s[k]).0 != key,
    ensures
        assoc_push(s, key, off) == s.push((key, seq![off])),
    decreases s.len(),
{
    if s.len() == 0 {
        assert(assoc_push(s, key, off) =~= s.push((key, seq![off])));
    } else {
        lemma_assoc_push_missing(s.skip(1), key, off);
        assert(assoc_push(s, key, off) =~= s.push((key, seq![off])));
    }
}

fn set_push_x(s: &mut Vec<Vec<u8>>, key: &Vec<u8>)
    ensures
        ({
            let v0 = Seq::new(old(s)@.len(), |i: int| old(s)@[i]@);
            let v1 = Seq::new(final(s)@.len(), |i: int| final(s)@[i]@);
            v1 == set_push(v0, key@)
        }),
{
    let ghost v0 = Seq::new(s@.len(), |i: int| s@[i]@);
    let mut i: usize = 0;
    while i < s.len()
        invariant
            i <= s@.len(),
            *s == *old(s),
            v0 == Seq::new(s@.len(), |q: int| s@[q]@),
            forall|k: int| 0 <= k < i ==> #[trigger] v0[k] != key@,
        decreases s@.len() - i,
    {
        let ghost ii = i as int;
        if bytes_eq(s[i].as_slice(), key.as_slice()) {
            proof {
                assert(v0[ii] == s@[ii]@);
                assert(set_has(v0, key@));
            }
            return ;
        }
        proof {
            assert(v0[ii] == s@[ii]@);
        }
        i = i + 1;
    }
    proof {
        assert(!set_has(v0, key@));
    }
    s.push(key.clone());
    proof {
        let v1 = Seq::new(s@.len(), |q: int| s@[q]@);
        assert(v1 =~= v0.push(key@));
    }
}

/// The escape-expanded length of `c` under the stack.
fn encode_length(stack: &Vec<u8>, k: usize, c: u8) -> (r: usize)
    requires
        k <= stack@.len(),
    ensures
        r == enc_len_u(stack@, k as int, c),
    decreases stack@.len() - k,
{
    if k >= stack.len() {
        return 1;
    }
    let tail = encode_length(stack, k + 1, c);
    if c == 92 || c == stack[k] {
        let esc = encode_length(stack, k + 1, 92);
        esc.wrapping_add(tail)
    } else {
        tail
    }
}

/// The candidate walk over one level.
#[verifier::loop_isolation(false)]
#[verifier::rlimit(100)]
fn cand_level(
    full: &Vec<TreeToken>,
    tt: &Vec<TreeToken>,
    stack: &Vec<u8>,
    rc: &mut RenameCandidates,
)
    ensures
        rc_view(*final(rc)) == cand_nodes(
            view_tree(full@),
            view_tree(tt@),
            0,
            stack@,
            rc_view(*old(rc)),
        ),
    decreases tt,
{
    let ghost fullv = view_tree(full@);
    let ghost v0 = view_tree(tt@);
    let mut i: usize = 0;
    while i < tt.len()
        invariant
            i <= tt@.len(),
            cand_nodes(fullv, v0, i as int, stack@, rc_view(*rc)) == cand_nodes(
                fullv,
                v0,
                0,
                stack@,
                rc_view(*old(rc)),
            ),
        decreases tt@.len() - i,
    {
        let ghost ii = i as int;
        let ghost st_pre = rc_view(*rc);
        proof {
            assert(view_node(tt@[ii]) == v0[ii]);
        }
        match &tt[i] {
            TreeToken::Token { type_, offset, text } => {
                proof {
                    assert(v0[ii] == Node::Token { type_: *type_, offset: *offset, text: text@ });
                }
                if *type_ == TokenType::Comment {
                    proof {
                        assert(rc_view(*rc) == cand_node(fullv, v0[ii], stack@, st_pre));
                    }
                } else if *type_ == TokenType::Identifier {
                    if is_renamable(full, text.as_slice()) {
                        assoc_push_x(&mut rc.renameable, text, *offset);
                        proof {
                            assert(rc_view(*rc) == cand_node(fullv, v0[ii], stack@, st_pre));
                        }
                    } else {
                        set_push_x(&mut rc.fixed, text);
                        let mut j: usize = 0;
                        let ghost chars0 = rc.candidate_chars@;
                        let ghost ren0 = rc.renameable@;
                        let ghost fix0 = rc.fixed@;
                        while j < text.len()
                            invariant
                                j <= text@.len(),
                                rc.renameable@ == ren0,
                                rc.fixed@ == fix0,
                                rc.candidate_chars@ + ident_chars(text@, j as int, *offset)
                                    == chars0 + ident_chars(text@, 0, *offset),
                            decreases text@.len() - j,
                        {
                            if crate::tokenizer::is_valid_ident_start(text[j]) {
                                rc.candidate_chars.push(offset.wrapping_add(j));
                                proof {
                                    assert(rc.candidate_chars@ + ident_chars(text@, j + 1,
                                        *offset) =~= chars0 + ident_chars(text@, 0, *offset));
                                }
                            }
                            j = j + 1;
                        }
                        proof {
                            assert(ident_chars(text@, text@.len() as int, *offset)
                                =~= Seq::<usize>::empty());
                            assert(rc.candidate_chars@ =~= rc.candidate_chars@
                                + Seq::<usize>::empty());
                            assert(rc.candidate_chars@ =~= chars0 + ident_chars(text@, 0,
                                *offset));
                            assert(rc_view(*rc).renameable =~= st_pre.renameable);
                            assert(rc_view(*rc).fixed =~= set_push(st_pre.fixed, text@));
                            assert(rc_view(*rc).chars =~= st_pre.chars + ident_chars(text@, 0,
                                *offset));
                            assert(rc_view(*rc) == cand_node(fullv, v0[ii], stack@, st_pre));
                        }
                    }
                } else {
                    let mut j: usize = 0;
                    let mut off: usize = *offset;
                    let ghost chars0 = rc.candidate_chars@;
                    let ghost ren0 = rc.renameable@;
                    let ghost fix0 = rc.fixed@;
                    while j < text.len()
                        invariant
                            j <= text@.len(),
                            rc.renameable@ == ren0,
                            rc.fixed@ == fix0,
                            rc.candidate_chars@ + other_chars(stack@, text@, j as int, off)
                                == chars0 + other_chars(stack@, text@, 0, *offset),
                        decreases text@.len() - j,
                    {
                        let el = encode_length(stack, 0, text[j]);
                        let off2 = off.wrapping_add(el).wrapping_sub(1);
                        if crate::tokenizer::is_valid_ident_start(text[j]) {
                            rc.candidate_chars.push(off2);
                            proof {
                                assert(rc.candidate_chars@ + other_chars(stack@, text@, j + 1,
                                    off2.wrapping_add(1)) =~= chars0 + other_chars(stack@,
                                    text@, 0, *offset));
                            }
                        }
                        off = off2.wrapping_add(1);
                        j = j + 1;
                    }
                    proof {
                        assert(other_chars(stack@, text@, text@.len() as int, off)
                            =~= Seq::<usize>::empty());
                        assert(rc.candidate_chars@ =~= rc.candidate_chars@
                            + Seq::<usize>::empty());
                        assert(rc.candidate_chars@ =~= chars0 + other_chars(stack@, text@, 0,
                            *offset));
                        assert(rc_view(*rc).renameable =~= st_pre.renameable);
                        assert(rc_view(*rc).fixed =~= st_pre.fixed);
                        assert(rc_view(*rc).chars =~= st_pre.chars + other_chars(stack@, text@,
                            0, *offset));
                        assert(rc_view(*rc) == cand_node(fullv, v0[ii], stack@, st_pre));
                    }
                }
            },
            TreeToken::SubTree(sub) => {
                proof {
                    crate::token::lemma_view_node_subtree(*sub);
                }
                cand_level(full, sub, stack, rc);
                proof {
                    assert(rc_view(*rc) == cand_node(fullv, v0[ii], stack@, st_pre));
                }
            },
            TreeToken::CodeString { tt: sub, delim } => {
                proof {
                    crate::token::lemma_view_node_codestring(*sub, *delim);
                }
                let mut stack2: Vec<u8> = Vec::new();
                stack2.push(*delim);
                let mut si: usize = 0;
                while si < stack.len()
                    invariant
                        si <= stack@.len(),
                        stack2@ == seq![tt@[ii]->CodeString_delim] + stack@.subrange(
                            0,
                            si as int,
                        ),
                    decreases stack@.len() - si,
                {
                    stack2.push(stack[si]);
                    proof {
                        assert(seq![tt@[ii]->CodeString_delim] + stack@.subrange(0, si + 1)
                            =~= (seq![tt@[ii]->CodeString_delim] + stack@.subrange(0,
                            si as int)).push(stack@[si as int]));
                    }
                    si = si + 1;
                }
                proof {
                    assert(stack2@ =~= seq![tt@[ii]->CodeString_delim] + stack@);
                }
                cand_level(full, sub, &stack2, rc);
                proof {
                    assert(rc_view(*rc) == cand_node(fullv, v0[ii], stack@, st_pre));
                }
            },
        }
        proof {
            assert(rc_view(*rc) == cand_node(fullv, v0[ii], stack@, st_pre));
            assert(cand_nodes(fullv, v0, ii, stack@, st_pre) == cand_nodes(
                fullv,
                v0,
                ii + 1,
                stack@,
                cand_node(fullv, v0[ii], stack@, st_pre),
            ));
        }
        i = i + 1;
    }
}

/// A parsed program: its token tree and the renames its directives declared.
pub struct Program {
    pub tt: Vec<TreeToken>,
    pub renames: Renaming,
}

/// What parsing builds: the tokenised tree with rename directives extracted
/// and applied and the transform-to-load rewrite done.
pub open spec fn program_tree(code: Seq<u8>) -> Seq<Node> {
    let (kept, rn) = fr_nodes(tokenise(code), 0, Seq::empty());
    tf_nodes(ar_nodes(kept, 0, rn), 0, false)
}

impl Program {
    /// Parses source bytes: tokenise, extract `-- rename` directives, apply
    /// them, and apply `-- transform to load`.
    pub fn parse(code: &[u8]) -> (r: Program)
        ensures
            view_tree(r.tt@) == program_tree(code@),
            rn_view(r.renames) == fr_nodes(tokenise(code@), 0, Seq::empty()).1,
    {
        let tt = crate::parse::parse(code);
        let (tt, renames) = find_renames(tt);
        let tt = apply_renames_tree(tt, &renames);
        let tt = apply_transform_to_load(tt);
        Program { tt, renames }
    }

    /// Applies a further renaming throughout the tree.
    pub fn apply_renames(&mut self, renames: &Renaming)
        ensures
            view_tree(final(self).tt@) == ar_nodes(view_tree(old(self).tt@), 0, rn_view(
                *renames,
            )),
            final(self).renames == old(self).renames,
    {
        let mut tmp: Vec<TreeToken> = Vec::new();
        core::mem::swap(&mut self.tt, &mut tmp);
        let tt = apply_renames_tree(tmp, renames);
        self.tt = tt;
    }

    /// Serialises the tree with separator byte `ws`, recording each token's
    /// emitted offset in the tree.
    pub fn serialize(&mut self, ws: u8) -> (r: Vec<u8>)
        ensures
            view_tree(final(self).tt@) == serialise(view_tree(old(self).tt@), ws).0,
            r@ == serialise(view_tree(old(self).tt@), ws).1,
            final(self).renames == old(self).renames,
    {
        let mut tmp: Vec<TreeToken> = Vec::new();
        core::mem::swap(&mut self.tt, &mut tmp);
        let (tt, code) = serialize_tree(tmp, ws);
        self.tt = tt;
        code
    }

    /// Discovers the renameable identifiers with their emitted offsets, the
    /// fixed identifiers, and the candidate replacement characters.
    pub fn get_rename_candidates(&self) -> (r: RenameCandidates)
        ensures
            rc_view(r) == candidates_of(view_tree(self.tt@)),
    {
        let mut rc = RenameCandidates {
            renameable: Vec::new(),
            fixed: Vec::new(),
            candidate_chars: Vec::new(),
        };
        proof {
            assert(rc_view(rc).renameable =~= Seq::<(Seq<u8>, Seq<usize>)>::empty());
            assert(rc_view(rc).fixed =~= Seq::<Seq<u8>>::empty());
            assert(rc_view(rc).chars =~= Seq::<usize>::empty());
            assert(rc_view(rc) == (CandSt {
                renameable: Seq::empty(),
                fixed: Seq::empty(),
                chars: Seq::empty(),
            }));
        }
        let stack: Vec<u8> = Vec::new();
        cand_level(&self.tt, &self.tt, &stack, &mut rc);
        rc
    }
}

} // verus!
