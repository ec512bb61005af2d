//! Rename directives and their application.
//!
//! A comment `-- rename OLD -> NEW` is consumed into the renaming map; the
//! map sends identifiers to their replacements throughout the tree, nested
//! code strings included. A `-- transform to load` comment rewrites the next
//! `function NAME ( ) … end` sub-tree into `NAME = load "body"`.

use vstd::prelude::*;

use crate::parse::bytes_eq;
use crate::token::{Node, TokenType, TreeToken, view_node, view_tree};
use crate::tokenizer::{is_ident_char, is_space, scan};

verus! {

/// An ordered renaming: `old -> new` pairs with distinct keys, in insertion
/// order.
pub struct Renaming {
    pub pairs: Vec<(Vec<u8>, Vec<u8>)>,
}

/// The pairs as sequences.
pub open spec fn rn_view(r: Renaming) -> Seq<(Seq<u8>, Seq<u8>)> {
    Seq::new(r.pairs@.len(), |i: int| (r.pairs@[i].0@, r.pairs@[i].1@))
}

/// The first replacement recorded for `key`.
pub open spec fn rn_lookup(s: Seq<(Seq<u8>, Seq<u8>)>, key: Seq<u8>) -> Option<Seq<u8>>
    decreases s.len(),
{
    if s.len() == 0 {
        None
    } else if s[0].0 == key {
        Some(s[0].1)
    } else {
        rn_lookup(s.skip(1), key)
    }
}

impl Renaming {
    pub fn new() -> (r: Renaming)
        ensures
            rn_view(r) == Seq::<(Seq<u8>, Seq<u8>)>::empty(),
    {
        let r = Renaming { pairs: Vec::new() };
        proof {
            assert(rn_view(r) =~= Seq::<(Seq<u8>, Seq<u8>)>::empty());
        }
        r
    }

    /// The recorded replacement for `key`, if any.
    pub fn lookup(&self, key: &[u8]) -> (r: Option<&Vec<u8>>)
        ensures
            match r {
                Some(v) => rn_lookup(rn_view(*self), key@) == Some(v@),
                None => rn_lookup(rn_view(*self), key@) is None,
            },
    {
        let mut i: usize = 0;
        proof {
            assert(rn_view(*self).skip(0) =~= rn_view(*self));
        }
        while i < self.pairs.len()
            invariant
                i <= self.pairs@.len(),
                rn_lookup(rn_view(*self), key@) == rn_lookup(
                    rn_view(*self).skip(i as int),
                    key@,
                ),
            decreases self.pairs@.len() - i,
        {
            if bytes_eq(self.pairs[i].0.as_slice(), key) {
                proof {
                    assert(rn_view(*self).skip(i as int)[0] == (self.pairs@[i as int].0@,
                        self.pairs@[i as int].1@));
                }
                return Some(&self.pairs[i].1);
            }
            proof {
                assert(rn_view(*self).skip(i as int)[0] == (self.pairs@[i as int].0@,
                    self.pairs@[i as int].1@));
                assert(rn_view(*self).skip(i as int).skip(1) =~= rn_view(*self).skip(i + 1));
            }
            i = i + 1;
        }
        proof {
            assert(rn_view(*self).skip(i as int).len() == 0);
        }
        None
    }

    /// Records `old -> new`, replacing an earlier entry for `old`.
    pub fn insert(&mut self, old_name: Vec<u8>, new_name: Vec<u8>)
        ensures
            rn_view(*final(self)) == rn_insert(rn_view(*old(self)), old_name@, new_name@),
    {
        let ghost v0 = rn_view(*old(self));
        let mut i: usize = 0;
        while i < self.pairs.len()
            invariant
                i <= self.pairs@.len(),
                *self == *old(self),
                v0 == rn_view(*self),
                forall|k: int| 0 <= k < i ==> (#[trigger] v0[k]).0 != old_name@,
            decreases self.pairs@.len() - i,
        {
            let ghost ii = i as int;
            if bytes_eq(self.pairs[i].0.as_slice(), old_name.as_slice()) {
                proof {
                    assert(v0[ii] == (self.pairs@[ii].0@, self.pairs@[ii].1@));
                    assert(v0[ii].0 == old_name@);
                    lemma_rn_insert_found(v0, old_name@, new_name@, ii);
                }
                self.pairs.set(i, (old_name, new_name));
                proof {
                    assert(rn_view(*self) =~= v0.update(ii, (v0[ii].0, new_name@)));
                }
                return ;
            }
            proof {
                assert(v0[ii] == (self.pairs@[ii].0@, self.pairs@[ii].1@));
                assert(v0[ii].0 != old_name@);
            }
            i = i + 1;
        }
        proof {
            lemma_rn_insert_missing(v0, old_name@, new_name@);
        }
        self.pairs.push((old_name, new_name));
        proof {
            assert(rn_view(*self) =~= v0.push((old_name@, new_name@)));
        }
    }
}

/// Inserting into the map: replace the first entry with the key, else append.
pub open spec fn rn_insert(s: Seq<(Seq<u8>, Seq<u8>)>, key: Seq<u8>, val: Seq<u8>) -> Seq<
    (Seq<u8>, Seq<u8>),
>
    decreases s.len(),
{
    if s.len() == 0 {
        seq![(key, val)]
    } else if s[0].0 == key {
        seq![(s[0].0, val)] + s.skip(1)
    } else {
        seq![s[0]] + rn_insert(s.skip(1), key, val)
    }
}

proof fn lemma_rn_insert_found(s: Seq<(Seq<u8>, Seq<u8>)>, key: Seq<u8>, val: Seq<u8>, i: int)
    requires
        0 <= i < s.len(),
        s[i].0 == key,
        forall|k: int| 0 <= k < i ==> (#[trigger] s[k]).0 != key,
    ensures
        rn_insert(s, key, val) == s.update(i, (s[i].0, val)),
    decreases s.len(),
{
    if i == 0 {
        assert(rn_insert(s, key, val) =~= s.update(0, (s[0].0, val)));
    } else {
        let s1 = s.skip(1);
        assert(forall|k: int| 0 <= k < i - 1 ==> (#[trigger] s1[k]).0 != key);
        lemma_rn_insert_found(s1, key, val, i - 1);
        assert(rn_insert(s, key, val) =~= s.update(i, (s[i].0, val)));
    }
}

proof fn lemma_rn_insert_missing(s: Seq<(Seq<u8>, Seq<u8>)>, key: Seq<u8>, val: Seq<u8>)
    requires
        forall|k: int| 0 <= k < s.len() ==> (#[trigger] s[k]).0 != key,
    ensures
        rn_insert(s, key, val) == s.push((key, val)),
    decreases s.len(),
{
    if s.len() == 0 {
        assert(rn_insert(s, key, val) =~= s.push((key, val)));
    } else {
        lemma_rn_insert_missing(s.skip(1), key, val);
        assert(rn_insert(s, key, val) =~= s.push((key, val)));
    }
}

/// The word at `k`: identifier characters.
pub open spec fn word_end(text: Seq<u8>, k: int) -> int {
    scan(text, k, |c: u8| is_ident_char(c))
}

/// `-- rename OLD -> NEW` (spaces optional): the two captured words, or
/// nothing.
pub open spec fn match_rename(text: Seq<u8>) -> Option<(Seq<u8>, Seq<u8>)> {
    if text.len() < 2 || text[0] != 45 || text[1] != 45 {
        None
    } else {
        let j = scan(text, 2, |c: u8| is_space(c));
        if !(j + 6 <= text.len() && text.subrange(j, j + 6) == seq![
            114u8,
            101,
            110,
            97,
            109,
            101,
        ]) {
            None
        } else {
            let k = scan(text, j + 6, |c: u8| is_space(c));
            let w1 = word_end(text, k);
            if w1 <= k {
                None
            } else {
                let l = scan(text, w1, |c: u8| is_space(c));
                if !(l + 2 <= text.len() && text[l] == 45 && text[l + 1] == 62) {
                    None
                } else {
                    let m0 = scan(text, l + 2, |c: u8| is_space(c));
                    let w2 = word_end(text, m0);
                    if w2 <= m0 {
                        None
                    } else {
                        let f = scan(text, w2, |c: u8| is_space(c));
                        if f == text.len() {
                            Some((text.subrange(k, w1), text.subrange(m0, w2)))
                        } else {
                            None
                        }
                    }
                }
            }
        }
    }
}

/// `-- transform to load` (spaces optional).
pub open spec fn match_transform(text: Seq<u8>) -> bool {
    if text.len() < 2 || text[0] != 45 || text[1] != 45 {
        false
    } else {
        let j = scan(text, 2, |c: u8| is_space(c));
        if !(j + 9 <= text.len() && text.subrange(j, j + 9) == seq![
            116u8,
            114,
            97,
            110,
            115,
            102,
            111,
            114,
            109,
        ]) {
            false
        } else {
            let k = scan(text, j + 9, |c: u8| is_space(c));
            if !(k + 2 <= text.len() && text.subrange(k, k + 2) == seq![116u8, 111]) {
                false
            } else {
                let l = scan(text, k + 2, |c: u8| is_space(c));
                if !(l + 4 <= text.len() && text.subrange(l, l + 4) == seq![108u8, 111, 97,
                    100]) {
                    false
                } else {
                    scan(text, l + 4, |c: u8| is_space(c)) == text.len()
                }
            }
        }
    }
}


/// A node's token text; empty for structural nodes.
pub open spec fn node_text(t: Node) -> Seq<u8> {
    match t {
        Node::Token { text, .. } => text,
        _ => Seq::empty(),
    }
}

/// Renaming applied to every identifier, nested code strings included.
/// A renamed identifier's offset is reset; serialisation assigns it anew.
pub open spec fn ar_nodes(tt: Seq<Node>, i: int, rn: Seq<(Seq<u8>, Seq<u8>)>) -> Seq<Node>
    decreases tt, tt.len() - i,
{
    if i < 0 || i >= tt.len() {
        Seq::empty()
    } else {
        seq![ar_node(tt[i], rn)] + ar_nodes(tt, i + 1, rn)
    }
}

pub open spec fn ar_node(t: Node, rn: Seq<(Seq<u8>, Seq<u8>)>) -> Node
    decreases t, 0int,
{
    match t {
        Node::Token { type_, offset, text } => {
            if type_ == TokenType::Identifier {
                match rn_lookup(rn, text) {
                    Some(v) => Node::Token { type_: TokenType::Identifier, offset: 0, text: v },
                    None => t,
                }
            } else {
                t
            }
        },
        Node::SubTree(sub) => Node::SubTree(ar_nodes(sub, 0, rn)),
        Node::CodeString { tt: sub, delim } => Node::CodeString {
            tt: ar_nodes(sub, 0, rn),
            delim,
        },
    }
}

/// Rebuilds the tree with the renaming applied.
#[verifier::loop_isolation(false)]
pub fn apply_renames_tree(tt: Vec<TreeToken>, rn: &Renaming) -> (r: Vec<TreeToken>)
    ensures
        view_tree(r@) == ar_nodes(view_tree(tt@), 0, rn_view(*rn)),
    decreases tt,
{
    let ghost v0 = view_tree(tt@);
    let ghost rnv = rn_view(*rn);
    let mut out: Vec<TreeToken> = Vec::new();
    let mut rest = tt;
    proof {
        assert(view_tree(out@) =~= Seq::<Node>::empty());
        assert(view_tree(out@) + ar_nodes(v0, 0, rnv) =~= ar_nodes(v0, 0, rnv));
    }
    loop
        invariant
            rest@.len() <= v0.len(),
            view_tree(out@) + ar_nodes(v0, v0.len() - rest@.len(), rnv) == ar_nodes(v0, 0, rnv),
            forall|k: int| 0 <= k < rest@.len() ==> (#[trigger] rest@[k]) == tt@[tt@.len()
                - rest@.len() + k],
        decreases rest@.len(),
    {
        let ghost i = v0.len() - rest@.len();
        if rest.len() == 0 {
            proof {
                assert(ar_nodes(v0, v0.len() as int, rnv) =~= Seq::<Node>::empty());
                assert(view_tree(out@) =~= view_tree(out@) + Seq::<Node>::empty());
            }
            return out;
        }
        let ghost rest_old = rest@;
        let el = rest.remove(0);
        proof {
            assert(el == rest_old[0]);
            assert(el == tt@[i]);
            assert(view_node(el) == v0[i]);
            assert forall|k: int| 0 <= k < rest@.len() implies (#[trigger] rest@[k]) == tt@[
                tt@.len() - rest@.len() + k
            ] by {
                assert(rest@[k] == rest_old[k + 1]);
            }
        }
        match el {
            TreeToken::Token { type_, offset, text } => {
                if type_ == TokenType::Identifier {
                    match rn.lookup(text.as_slice()) {
                        Some(v) => {
                            let nv = v.clone();
                            proof {
                                assert(nv@ == v@);
                            }
                            out.push(TreeToken::Token {
                                type_: TokenType::Identifier,
                                offset: 0,
                                text: nv,
                            });
                        },
                        None => {
                            out.push(TreeToken::Token { type_, offset, text });
                        },
                    }
                } else {
                    out.push(TreeToken::Token { type_, offset, text });
                }
                proof {
                    assert(view_node(out@.last()) == ar_node(v0[i], rnv));
                }
            },
            TreeToken::SubTree(sub) => {
                proof {
                    crate::token::lemma_view_node_subtree(sub);
                }
                let sub2 = apply_renames_tree(sub, rn);
                out.push(TreeToken::SubTree(sub2));
                proof {
                    let subv = out@.last()->SubTree_0;
                    crate::token::lemma_view_node_subtree(subv);
                    assert(view_node(out@.last()) == ar_node(v0[i], rnv));
                }
            },
            TreeToken::CodeString { tt: sub, delim } => {
                proof {
                    crate::token::lemma_view_node_codestring(sub, delim);
                }
                let sub2 = apply_renames_tree(sub, rn);
                out.push(TreeToken::CodeString { tt: sub2, delim });
                proof {
                    let subv = out@.last()->CodeString_tt;
                    crate::token::lemma_view_node_codestring(subv, delim);
                    assert(view_node(out@.last()) == ar_node(v0[i], rnv));
                }
            },
        }
        proof {
            crate::token::lemma_view_tree_push(out@.drop_last(), out@.last());
            assert(out@.drop_last().push(out@.last()) =~= out@);
            assert(ar_nodes(v0, i, rnv) == seq![ar_node(v0[i], rnv)] + ar_nodes(v0, i + 1, rnv));
            assert(view_tree(out@) + ar_nodes(v0, i + 1, rnv) =~= ar_nodes(v0, 0, rnv));
        }
    }
}

/// The tree with rename directives removed, and the map they build up, in
/// document order.
pub open spec fn fr_nodes(tt: Seq<Node>, i: int, rn: Seq<(Seq<u8>, Seq<u8>)>) -> (
    Seq<Node>,
    Seq<(Seq<u8>, Seq<u8>)>,
)
    decreases tt.len() - i,
{
    if i < 0 || i >= tt.len() {
        (Seq::empty(), rn)
    } else {
        let taken = tt[i] matches Node::Token { type_: TokenType::Comment, text, .. }
            && match_rename(text) is Some;
        if taken {
            fr_nodes(tt, i + 1, rn_insert(rn, match_rename(node_text(tt[i])).unwrap().0,
                match_rename(node_text(tt[i])).unwrap().1))
        } else {
            let (rest, rn2) = fr_nodes(tt, i + 1, rn);
            (seq![tt[i]] + rest, rn2)
        }
    }
}

/// Extracts `-- rename` directives from the top level of the tree.
#[verifier::loop_isolation(false)]
pub fn find_renames(tt: Vec<TreeToken>) -> (r: (Vec<TreeToken>, Renaming))
    ensures
        ({
            let (nodes, rn) = fr_nodes(view_tree(tt@), 0, Seq::empty());
            view_tree(r.0@) == nodes && rn_view(r.1) == rn
        }),
{
    let ghost v0 = view_tree(tt@);
    let mut out: Vec<TreeToken> = Vec::new();
    let mut rn = Renaming::new();
    let mut rest = tt;
    proof {
        assert(view_tree(out@) =~= Seq::<Node>::empty());
    }
    loop
        invariant
            rest@.len() <= v0.len(),
            ({
                let (nodes, rnf) = fr_nodes(v0, v0.len() - rest@.len(), rn_view(rn));
                view_tree(out@) + nodes == fr_nodes(v0, 0, Seq::empty()).0 && rnf == fr_nodes(
                    v0,
                    0,
                    Seq::empty(),
                ).1
            }),
            forall|k: int| 0 <= k < rest@.len() ==> (#[trigger] rest@[k]) == tt@[tt@.len()
                - rest@.len() + k],
        decreases rest@.len(),
    {
        let ghost i = v0.len() - rest@.len();
        if rest.len() == 0 {
            proof {
                assert(view_tree(out@) =~= view_tree(out@) + Seq::<Node>::empty());
            }
            return (out, rn);
        }
        let ghost rest_old = rest@;
        let el = rest.remove(0);
        proof {
            assert(el == rest_old[0]);
            assert(el == tt@[i]);
            assert(view_node(el) == v0[i]);
            assert forall|k: int| 0 <= k < rest@.len() implies (#[trigger] rest@[k]) == tt@[
                tt@.len() - rest@.len() + k
            ] by {
                assert(rest@[k] == rest_old[k + 1]);
            }
        }
        let mut taken = false;
        match &el {
            TreeToken::Token { type_, text, .. } => {
                if *type_ == TokenType::Comment {
                    match match_rename_x(text.as_slice()) {
                        Some((a, b)) => {
                            rn.insert(a, b);
                            taken = true;
                        },
                        None => {},
                    }
                }
            },
            _ => {},
        }
        if !taken {
            out.push(el);
            proof {
                crate::token::lemma_view_tree_push(out@.drop_last(), out@.last());
                assert(out@.drop_last().push(out@.last()) =~= out@);
                assert(view_tree(out@) + fr_nodes(v0, i + 1, rn_view(rn)).0 =~= fr_nodes(
                    v0,
                    0,
                    Seq::empty(),
                ).0);
            }
        }
    }
}

/// The captured words of a `-- rename OLD -> NEW` comment.
fn match_rename_x(text: &[u8]) -> (r: Option<(Vec<u8>, Vec<u8>)>)
    ensures
        match r {
            Some((a, b)) => match_rename(text@) == Some((a@, b@)),
            None => match_rename(text@) is None,
        },
{
    if text.len() < 2 || text[0] != 45 || text[1] != 45 {
        return None;
    }
    let j = crate::tokenizer::scan_space(text, 2);
    if text.len() < 6 || j > text.len() - 6 {
        return None;
    }
    if !(text[j] == 114 && text[j + 1] == 101 && text[j + 2] == 110 && text[j + 3] == 97 && text[j
        + 4] == 109 && text[j + 5] == 101) {
        proof {
            lemma_subrange_ne6(text@, j as int);
        }
        return None;
    }
    proof {
        assert(text@.subrange(j as int, j + 6) =~= seq![114u8, 101, 110, 97, 109, 101]);
    }
    let k = crate::tokenizer::scan_space(text, j + 6);
    let w1 = crate::tokenizer::scan_word(text, k);
    if w1 <= k {
        return None;
    }
    let l = crate::tokenizer::scan_space(text, w1);
    if l > text.len() - 2 || text[l] != 45 || text[l + 1] != 62 {
        return None;
    }
    let m0 = crate::tokenizer::scan_space(text, l + 2);
    let w2 = crate::tokenizer::scan_word(text, m0);
    if w2 <= m0 {
        return None;
    }
    let f = crate::tokenizer::scan_space(text, w2);
    if f != text.len() {
        return None;
    }
    let a = crate::tokenizer::copy_byte_range(text, k, w1);
    let b = crate::tokenizer::copy_byte_range(text, m0, w2);
    Some((a, b))
}

proof fn lemma_subrange_ne6(text: Seq<u8>, j: int)
    requires
        0 <= j,
        j + 6 <= text.len(),
        !(text[j] == 114 && text[j + 1] == 101 && text[j + 2] == 110 && text[j + 3] == 97
            && text[j + 4] == 109 && text[j + 5] == 101),
    ensures
        text.subrange(j, j + 6) != seq![114u8, 101, 110, 97, 109, 101],
{
    if text.subrange(j, j + 6) == seq![114u8, 101, 110, 97, 109, 101] {
        assert(text.subrange(j, j + 6)[0] == 114);
        assert(text.subrange(j, j + 6)[1] == 101);
        assert(text.subrange(j, j + 6)[2] == 110);
        assert(text.subrange(j, j + 6)[3] == 97);
        assert(text.subrange(j, j + 6)[4] == 109);
        assert(text.subrange(j, j + 6)[5] == 101);
    }
}


/// Whether a sub-tree has exactly the shape `function NAME ( ) … end`.
pub open spec fn shape_ok(sub: Seq<Node>) -> bool {
    &&& sub.len() >= 5
    &&& node_text(sub[0]) == crate::parse::kw_function()
    &&& node_text(sub[1]).len() > 0
    &&& node_text(sub[2]) == seq![40u8]
    &&& node_text(sub[3]) == seq![41u8]
    &&& node_text(sub[sub.len() - 1]) == crate::parse::kw_end()
}

/// What the matched sub-tree becomes: `NAME = load "body"`.
pub open spec fn tf_expansion(sub: Seq<Node>) -> Seq<Node> {
    seq![
        Node::Token { type_: TokenType::Identifier, offset: 0, text: node_text(sub[1]) },
        Node::Token { type_: TokenType::Other, offset: 0, text: seq![61u8] },
        Node::Token { type_: TokenType::Identifier, offset: 0, text: crate::parse::kw_load() },
        Node::CodeString { tt: sub.subrange(4, sub.len() - 1), delim: 34 },
    ]
}

/// The transform-to-load pass: a matching comment arms the rewrite for the
/// next sub-tree of the right shape.
pub open spec fn tf_nodes(tt: Seq<Node>, i: int, armed: bool) -> Seq<Node>
    decreases tt.len() - i,
{
    if i < 0 || i >= tt.len() {
        Seq::empty()
    } else {
        match tt[i] {
            Node::Token { type_, text, .. } => {
                if type_ == TokenType::Comment && match_transform(text) {
                    tf_nodes(tt, i + 1, true)
                } else {
                    seq![tt[i]] + tf_nodes(tt, i + 1, armed)
                }
            },
            Node::SubTree(sub) => {
                if armed && shape_ok(sub) {
                    tf_expansion(sub) + tf_nodes(tt, i + 1, false)
                } else {
                    seq![tt[i]] + tf_nodes(tt, i + 1, armed)
                }
            },
            Node::CodeString { .. } => seq![tt[i]] + tf_nodes(tt, i + 1, armed),
        }
    }
}

/// Whether a `-- transform to load` comment matches.
fn match_transform_x(text: &[u8]) -> (r: bool)
    ensures
        r == match_transform(text@),
{
    if text.len() < 2 || text[0] != 45 || text[1] != 45 {
        return false;
    }
    let j = crate::tokenizer::scan_space(text, 2);
    if text.len() < 9 || j > text.len() - 9 {
        return false;
    }
    if !(text[j] == 116 && text[j + 1] == 114 && text[j + 2] == 97 && text[j + 3] == 110 && text[j
        + 4] == 115 && text[j + 5] == 102 && text[j + 6] == 111 && text[j + 7] == 114 && text[j
        + 8] == 109) {
        proof {
            if text@.subrange(j as int, j + 9) == seq![116u8, 114, 97, 110, 115, 102, 111, 114,
                109] {
                assert(text@.subrange(j as int, j + 9)[0] == 116);
                assert(text@.subrange(j as int, j + 9)[1] == 114);
                assert(text@.subrange(j as int, j + 9)[2] == 97);
                assert(text@.subrange(j as int, j + 9)[3] == 110);
                assert(text@.subrange(j as int, j + 9)[4] == 115);
                assert(text@.subrange(j as int, j + 9)[5] == 102);
                assert(text@.subrange(j as int, j + 9)[6] == 111);
                assert(text@.subrange(j as int, j + 9)[7] == 114);
                assert(text@.subrange(j as int, j + 9)[8] == 109);
            }
        }
        return false;
    }
    proof {
        assert(text@.subrange(j as int, j + 9) =~= seq![116u8, 114, 97, 110, 115, 102, 111, 114,
            109]);
    }
    let k = crate::tokenizer::scan_space(text, j + 9);
    if k > text.len() - 2 || !(text[k] == 116 && text[k + 1] == 111) {
        proof {
            if k + 2 <= text@.len() && text@.subrange(k as int, k + 2) == seq![116u8, 111] {
                assert(text@.subrange(k as int, k + 2)[0] == 116);
                assert(text@.subrange(k as int, k + 2)[1] == 111);
            }
        }
        return false;
    }
    proof {
        assert(text@.subrange(k as int, k + 2) =~= seq![116u8, 111]);
    }
    let l = crate::tokenizer::scan_space(text, k + 2);
    if l > text.len() - 4 || !(text[l] == 108 && text[l + 1] == 111 && text[l + 2] == 97 && text[l
        + 3] == 100) {
        proof {
            if l + 4 <= text@.len() && text@.subrange(l as int, l + 4) == seq![108u8, 111, 97,
                100] {
                assert(text@.subrange(l as int, l + 4)[0] == 108);
                assert(text@.subrange(l as int, l + 4)[1] == 111);
                assert(text@.subrange(l as int, l + 4)[2] == 97);
                assert(text@.subrange(l as int, l + 4)[3] == 100);
            }
        }
        return false;
    }
    proof {
        assert(text@.subrange(l as int, l + 4) =~= seq![108u8, 111, 97, 100]);
    }
    let f = crate::tokenizer::scan_space(text, l + 4);
    f == text.len()
}

/// Applies the transform-to-load rewrite across the top level of the tree.
#[verifier::loop_isolation(false)]
#[verifier::rlimit(60)]
pub fn apply_transform_to_load(tt: Vec<TreeToken>) -> (r: Vec<TreeToken>)
    ensures
        view_tree(r@) == tf_nodes(view_tree(tt@), 0, false),
{
    let ghost v0 = view_tree(tt@);
    let mut out: Vec<TreeToken> = Vec::new();
    let mut armed = false;
    let mut rest = tt;
    proof {
        assert(view_tree(out@) =~= Seq::<Node>::empty());
        assert(view_tree(out@) + tf_nodes(v0, 0, false) =~= tf_nodes(v0, 0, false));
    }
    loop
        invariant
            rest@.len() <= v0.len(),
            view_tree(out@) + tf_nodes(v0, v0.len() - rest@.len(), armed) == tf_nodes(
                v0,
                0,
                false,
            ),
            forall|k: int| 0 <= k < rest@.len() ==> (#[trigger] rest@[k]) == tt@[tt@.len()
                - rest@.len() + k],
        decreases rest@.len(),
    {
        let ghost i = v0.len() - rest@.len();
        if rest.len() == 0 {
            proof {
                assert(tf_nodes(v0, v0.len() as int, armed) =~= Seq::<Node>::empty());
                assert(view_tree(out@) =~= view_tree(out@) + Seq::<Node>::empty());
            }
            return out;
        }
        let ghost rest_old = rest@;
        let el = rest.remove(0);
        proof {
            assert(el == rest_old[0]);
            assert(el == tt@[i]);
            assert(view_node(el) == v0[i]);
            assert forall|k: int| 0 <= k < rest@.len() implies (#[trigger] rest@[k]) == tt@[
                tt@.len() - rest@.len() + k
            ] by {
                assert(rest@[k] == rest_old[k + 1]);
            }
        }
        match el {
            TreeToken::Token { type_, offset, text } => {
                if type_ == TokenType::Comment && match_transform_x(text.as_slice()) {
                    armed = true;
                } else {
                    out.push(TreeToken::Token { type_, offset, text });
                    proof {
                        crate::token::lemma_view_tree_push(out@.drop_last(), out@.last());
                        assert(out@.drop_last().push(out@.last()) =~= out@);
                        assert(view_tree(out@) + tf_nodes(v0, i + 1, armed) =~= tf_nodes(
                            v0,
                            0,
                            false,
                        ));
                    }
                }
            },
            TreeToken::SubTree(sub) => {
                proof {
                    crate::token::lemma_view_node_subtree(sub);
                }
                let matches_shape = armed && sub.len() >= 5 && {
                    let ok0 = match &sub[0] {
                        TreeToken::Token { text, .. } => bytes_eq(text.as_slice(), &[102, 117,
                            110, 99, 116, 105, 111, 110]),
                        _ => false,
                    };
                    let ok1 = match &sub[1] {
                        TreeToken::Token { text, .. } => text.len() > 0,
                        _ => false,
                    };
                    let ok2 = match &sub[2] {
                        TreeToken::Token { text, .. } => text.len() == 1 && text[0] == 40,
                        _ => false,
                    };
                    let ok3 = match &sub[3] {
                        TreeToken::Token { text, .. } => text.len() == 1 && text[0] == 41,
                        _ => false,
                    };
                    let ok4 = match &sub[sub.len() - 1] {
                        TreeToken::Token { text, .. } => bytes_eq(text.as_slice(), &[101, 110,
                            100]),
                        _ => false,
                    };
                    ok0 && ok1 && ok2 && ok3 && ok4
                };
                proof {
                    if matches_shape {
                        assert(node_text(view_tree(sub@)[2]) =~= seq![40u8]);
                        assert(node_text(view_tree(sub@)[3]) =~= seq![41u8]);
                        assert(shape_ok(view_tree(sub@)));
                    } else {
                        if armed && sub@.len() >= 5 {
                        }
                    }
                }
                if matches_shape {
                    let ghost subv = view_tree(sub@);
                    let ghost sub0 = sub@;
                    let name: Vec<u8> = match &sub[1] {
                        TreeToken::Token { text, .. } => text.clone(),
                        _ => Vec::new(),
                    };
                    proof {
                        assert(view_node(sub0[1]) == subv[1]);
                        assert(name@ == node_text(subv[1]));
                    }
                    let mut body = sub;
                    let _d0 = body.remove(0);
                    let _d1 = body.remove(0);
                    let _d2 = body.remove(0);
                    let _d3 = body.remove(0);
                    let _dl = body.pop();
                    proof {
                        assert forall|k: int| 0 <= k < body@.len() implies (#[trigger] body@[k])
                            == sub0[k + 4] by {
                        }
                        assert(view_tree(body@) =~= subv.subrange(4, subv.len() - 1));
                    }
                    let mut eqv: Vec<u8> = Vec::new();
                    eqv.push(61);
                    let mut loadv: Vec<u8> = Vec::new();
                    loadv.push(108);
                    loadv.push(111);
                    loadv.push(97);
                    loadv.push(100);
                    proof {
                        assert(eqv@ =~= seq![61u8]);
                        assert(loadv@ =~= crate::parse::kw_load());
                    }
                    out.push(
                        TreeToken::Token { type_: TokenType::Identifier, offset: 0, text: name },
                    );
                    proof {
                        crate::token::lemma_view_tree_push(out@.drop_last(), out@.last());
                        assert(out@.drop_last().push(out@.last()) =~= out@);
                    }
                    out.push(TreeToken::Token { type_: TokenType::Other, offset: 0, text: eqv });
                    proof {
                        crate::token::lemma_view_tree_push(out@.drop_last(), out@.last());
                        assert(out@.drop_last().push(out@.last()) =~= out@);
                    }
                    out.push(
                        TreeToken::Token { type_: TokenType::Identifier, offset: 0, text: loadv },
                    );
                    proof {
                        crate::token::lemma_view_tree_push(out@.drop_last(), out@.last());
                        assert(out@.drop_last().push(out@.last()) =~= out@);
                    }
                    out.push(TreeToken::CodeString { tt: body, delim: 34 });
                    armed = false;
                    proof {
                        let bodyv = out@.last()->CodeString_tt;
                        crate::token::lemma_view_node_codestring(bodyv, 34);
                        crate::token::lemma_view_tree_push(out@.drop_last(), out@.last());
                        assert(out@.drop_last().push(out@.last()) =~= out@);
                        assert(view_tree(out@) + tf_nodes(v0, i + 1, armed) =~= tf_nodes(
                            v0,
                            0,
                            false,
                        ));
                    }
                } else {
                    out.push(TreeToken::SubTree(sub));
                    proof {
                        let subv2 = out@.last()->SubTree_0;
                        crate::token::lemma_view_node_subtree(subv2);
                        crate::token::lemma_view_tree_push(out@.drop_last(), out@.last());
                        assert(out@.drop_last().push(out@.last()) =~= out@);
                        assert(view_tree(out@) + tf_nodes(v0, i + 1, armed) =~= tf_nodes(
                            v0,
                            0,
                            false,
                        ));
                    }
                }
            },
            TreeToken::CodeString { tt: sub, delim } => {
                proof {
                    crate::token::lemma_view_node_codestring(sub, delim);
                }
                out.push(TreeToken::CodeString { tt: sub, delim });
                proof {
                    let subv = out@.last()->CodeString_tt;
                    crate::token::lemma_view_node_codestring(subv, delim);
                    crate::token::lemma_view_tree_push(out@.drop_last(), out@.last());
                    assert(out@.drop_last().push(out@.last()) =~= out@);
                    assert(view_tree(out@) + tf_nodes(v0, i + 1, armed) =~= tf_nodes(
                        v0,
                        0,
                        false,
                    ));
                }
            },
        }
    }
}


/// The source of the last recorded pair whose target is `val`.
pub open spec fn rn_rev_lookup(s: Seq<(Seq<u8>, Seq<u8>)>, val: Seq<u8>) -> Option<Seq<u8>>
    decreases s.len(),
{
    if s.len() == 0 {
        None
    } else if s.last().1 == val {
        Some(s.last().0)
    } else {
        rn_rev_lookup(s.drop_last(), val)
    }
}

/// One merged entry: a new rename whose source is a prior rename's target
/// retargets that prior entry.
pub open spec fn mg(
    a0: Seq<(Seq<u8>, Seq<u8>)>,
    acc: Seq<(Seq<u8>, Seq<u8>)>,
    b: Seq<(Seq<u8>, Seq<u8>)>,
    i: int,
) -> Seq<(Seq<u8>, Seq<u8>)>
    decreases b.len() - i,
{
    if i < 0 || i >= b.len() {
        acc
    } else {
        let key = match rn_rev_lookup(a0, b[i].0) {
            Some(ps) => ps,
            None => b[i].0,
        };
        mg(a0, rn_insert(acc, key, b[i].1), b, i + 1)
    }
}

/// What merging `b` into `a` yields, with transitive renames preserved.
pub open spec fn merge_spec(a: Seq<(Seq<u8>, Seq<u8>)>, b: Seq<(Seq<u8>, Seq<u8>)>) -> Seq<
    (Seq<u8>, Seq<u8>),
> {
    mg(a, a, b, 0)
}

#[verifier::loop_isolation(false)]
fn rev_lookup_x(a: &Renaming, val: &[u8]) -> (r: Option<Vec<u8>>)
    ensures
        match r {
            Some(v) => rn_rev_lookup(rn_view(*a), val@) == Some(v@),
            None => rn_rev_lookup(rn_view(*a), val@) is None,
        },
{
    let ghost av = rn_view(*a);
    let mut i: usize = a.pairs.len();
    proof {
        assert(av.subrange(0, i as int) =~= av);
    }
    while i > 0
        invariant
            i <= a.pairs@.len(),
            rn_rev_lookup(av, val@) == rn_rev_lookup(av.subrange(0, i as int), val@),
        decreases i,
    {
        i = i - 1;
        proof {
            assert(av.subrange(0, i + 1).last() == av[i as int]);
            assert(av[i as int] == (a.pairs@[i as int].0@, a.pairs@[i as int].1@));
            assert(av.subrange(0, i + 1).drop_last() =~= av.subrange(0, i as int));
        }
        if bytes_eq(a.pairs[i].1.as_slice(), val) {
            return Some(a.pairs[i].0.clone());
        }
    }
    proof {
        assert(av.subrange(0, 0) =~= Seq::<(Seq<u8>, Seq<u8>)>::empty());
    }
    None
}

/// Merges `b` into `a`: a new rename whose source matches a prior rename's
/// target retargets the prior entry, so renames stay transitive across
/// iterations.
#[verifier::loop_isolation(false)]
pub fn merge_renames(a: &Renaming, b: &Renaming) -> (r: Renaming)
    ensures
        rn_view(r) == merge_spec(rn_view(*a), rn_view(*b)),
{
    let ghost av = rn_view(*a);
    let ghost bv = rn_view(*b);
    let mut out = Renaming { pairs: Vec::new() };
    let mut k: usize = 0;
    while k < a.pairs.len()
        invariant
            k <= a.pairs@.len(),
            rn_view(out) == av.subrange(0, k as int),
        decreases a.pairs@.len() - k,
    {
        out.pairs.push((a.pairs[k].0.clone(), a.pairs[k].1.clone()));
        proof {
            assert(rn_view(out) =~= av.subrange(0, k + 1));
        }
        k = k + 1;
    }
    proof {
        assert(av.subrange(0, a.pairs@.len() as int) =~= av);
    }
    let mut i: usize = 0;
    while i < b.pairs.len()
        invariant
            i <= b.pairs@.len(),
            mg(av, rn_view(out), bv, i as int) == mg(av, av, bv, 0),
        decreases b.pairs@.len() - i,
    {
        let ghost ii = i as int;
        proof {
            assert(bv[ii] == (b.pairs@[ii].0@, b.pairs@[ii].1@));
        }
        let src = &b.pairs[i].0;
        let dst = b.pairs[i].1.clone();
        match rev_lookup_x(a, src.as_slice()) {
            Some(prev_src) => {
                out.insert(prev_src, dst);
            },
            None => {
                out.insert(src.clone(), dst);
            },
        }
        i = i + 1;
    }
    out
}

} // verus!
