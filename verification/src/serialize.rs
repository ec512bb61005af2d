//! The serialiser: flattens a token tree to bytes, dropping comments,
//! inserting one separator byte exactly where two adjacent tokens would
//! otherwise re-tokenise as one, escaping bytes for the enclosing code-string
//! delimiters, and recording each token's offset in the emitted output.

use vstd::prelude::*;

use crate::token::{Node, TokenType, TreeToken, view_node, view_tree};
use crate::tokenizer::{is_hex_digit, is_ident_char};

verus! {

/// The encoding of byte `c` under the delimiter stack `stack[k..]`
/// (innermost first): each layer escapes its delimiter and the backslash.
pub open spec fn enc_byte(stack: Seq<u8>, k: int, c: u8) -> Seq<u8>
    decreases stack.len() - k,
{
    if k < 0 || k >= stack.len() {
        seq![c]
    } else {
        let esc: Seq<u8> = if c == 92 || c == stack[k] {
            enc_byte(stack, k + 1, 92)
        } else {
            Seq::empty()
        };
        esc + enc_byte(stack, k + 1, c)
    }
}

/// The encoding of a whole text.
pub open spec fn enc_text(stack: Seq<u8>, text: Seq<u8>, i: int) -> Seq<u8>
    decreases text.len() - i,
{
    if i < 0 || i >= text.len() {
        Seq::empty()
    } else {
        enc_byte(stack, 0, text[i]) + enc_text(stack, text, i + 1)
    }
}

/// Whether a separator must precede a token starting with `first`, after a
/// token of kind `lt` with text `ltext`.
pub open spec fn needs_sep(lt: TokenType, ltext: Seq<u8>, first: u8) -> bool {
    if lt == TokenType::Identifier {
        is_ident_char(first)
    } else if lt == TokenType::Number {
        first == 46 || is_hex_digit(first) || ((first | 32) == 120 && (ltext == seq![48u8]
            || ltext == seq![46u8, 48u8]))
    } else if lt == TokenType::HexNumber {
        first == 46 || is_hex_digit(first) || (first | 32) == 112
    } else {
        false
    }
}

/// The serialiser state: emitted bytes and the kind and text of the last
/// emitted token.
pub struct SerSt {
    pub out: Seq<u8>,
    pub lt: TokenType,
    pub ltext: Seq<u8>,
}

/// Serialises the nodes `tt[i..]` under delimiter stack `stack`, returning
/// the nodes with their emitted offsets and the new state.
pub open spec fn ser_nodes(
    tt: Seq<Node>,
    i: int,
    stack: Seq<u8>,
    ws: u8,
    st: SerSt,
) -> (Seq<Node>, SerSt)
    decreases tt, tt.len() - i,
    when 0 <= i
{
    if i >= tt.len() {
        (Seq::empty(), st)
    } else {
        let (n1, st1) = ser_node(tt[i], stack, ws, st);
        let (rest, st2) = ser_nodes(tt, i + 1, stack, ws, st1);
        (seq![n1] + rest, st2)
    }
}

/// Serialises one node.
pub open spec fn ser_node(t: Node, stack: Seq<u8>, ws: u8, st: SerSt) -> (Node, SerSt)
    decreases t, 0int,
{
    match t {
        Node::Token { type_, offset, text } => {
            if type_ == TokenType::Comment {
                (t, st)
            } else {
                let sep: Seq<u8> = if text.len() > 0 && needs_sep(st.lt, st.ltext, text[0]) {
                    seq![ws]
                } else {
                    Seq::empty()
                };
                let out1 = st.out + sep;
                let newoff = out1.len() as usize;
                (
                    Node::Token { type_, offset: newoff, text },
                    SerSt { out: out1 + enc_text(stack, text, 0), lt: type_, ltext: text },
                )
            }
        },
        Node::SubTree(sub) => {
            let (sub2, st2) = ser_nodes(sub, 0, stack, ws, st);
            (Node::SubTree(sub2), st2)
        },
        Node::CodeString { tt: sub, delim } => {
            let st1 = SerSt {
                out: st.out + enc_byte(stack, 0, delim),
                lt: TokenType::Other,
                ltext: st.ltext,
            };
            let (sub2, st2) = ser_nodes(sub, 0, seq![delim] + stack, ws, st1);
            let st3 = SerSt { out: st2.out + enc_byte(stack, 0, delim), ..st2 };
            (Node::CodeString { tt: sub2, delim }, st3)
        },
    }
}

/// What serialising a whole tree emits, with offsets assigned.
pub open spec fn serialise(tt: Seq<Node>, ws: u8) -> (Seq<Node>, Seq<u8>) {
    let st0 = SerSt { out: Seq::empty(), lt: TokenType::Other, ltext: Seq::empty() };
    let (tt2, st) = ser_nodes(tt, 0, Seq::empty(), ws, st0);
    (tt2, st.out)
}


fn enc_byte_x(stack: &Vec<u8>, k: usize, c: u8, out: &mut Vec<u8>)
    requires
        k <= stack@.len(),
    ensures
        final(out)@ == old(out)@ + enc_byte(stack@, k as int, c),
    decreases stack@.len() - k,
{
    if k >= stack.len() {
        out.push(c);
        proof {
            assert(final(out)@ =~= old(out)@ + enc_byte(stack@, k as int, c));
        }
        return ;
    }
    if c == 92 || c == stack[k] {
        enc_byte_x(stack, k + 1, 92, out);
    }
    enc_byte_x(stack, k + 1, c, out);
    proof {
        assert(final(out)@ =~= old(out)@ + enc_byte(stack@, k as int, c));
    }
}

fn enc_text_x(stack: &Vec<u8>, text: &Vec<u8>, out: &mut Vec<u8>)
    ensures
        final(out)@ == old(out)@ + enc_text(stack@, text@, 0),
{
    let mut i: usize = 0;
    while i < text.len()
        invariant
            i <= text@.len(),
            old(out)@ + enc_text(stack@, text@, 0) == out@ + enc_text(stack@, text@, i as int),
        decreases text@.len() - i,
    {
        let ghost out_pre = out@;
        enc_byte_x(stack, 0, text[i], out);
        proof {
            assert(out_pre + enc_text(stack@, text@, i as int) =~= out@ + enc_text(stack@,
                text@,
                i + 1));
        }
        i = i + 1;
    }
    proof {
        assert(enc_text(stack@, text@, text@.len() as int) =~= Seq::<u8>::empty());
        assert(out@ + Seq::<u8>::empty() =~= out@);
    }
}

fn needs_sep_x(lt: TokenType, ltext: &Vec<u8>, first: u8) -> (r: bool)
    ensures
        r == needs_sep(lt, ltext@, first),
{
    match lt {
        TokenType::Identifier => first == 95 || (97 <= (first | 32) && (first | 32) <= 122) || (48
            <= first && first <= 57),
        TokenType::Number => {
            let xish = (first | 32) == 120 && (ltext.len() == 1 && ltext[0] == 48 || ltext.len()
                == 2 && ltext[0] == 46 && ltext[1] == 48);
            proof {
                if ltext@.len() == 1 && ltext@[0] == 48 {
                    assert(ltext@ =~= seq![48u8]);
                }
                if ltext@.len() == 2 && ltext@[0] == 46 && ltext@[1] == 48 {
                    assert(ltext@ =~= seq![46u8, 48u8]);
                }
                if ltext@ == seq![48u8] {
                    assert(ltext@[0] == 48);
                }
                if ltext@ == seq![46u8, 48u8] {
                    assert(ltext@[0] == 46 && ltext@[1] == 48);
                }
            }
            first == 46 || (48 <= first && first <= 57) || (97 <= (first | 32) && (first | 32)
                <= 102) || xish
        },
        TokenType::HexNumber => first == 46 || (48 <= first && first <= 57) || (97 <= (first
            | 32) && (first | 32) <= 102) || (first | 32) == 112,
        _ => false,
    }
}

/// Serialises one level under the given delimiter stack, threading the
/// emitted bytes and the last-token state.
#[verifier::loop_isolation(false)]
#[verifier::rlimit(100)]
fn ser_level(
    tt: Vec<TreeToken>,
    stack: &Vec<u8>,
    ws: u8,
    out: Vec<u8>,
    lt: TokenType,
    ltext: Vec<u8>,
) -> (r: (Vec<TreeToken>, Vec<u8>, TokenType, Vec<u8>))
    ensures
        ({
            let (nn, st2) = ser_nodes(
                view_tree(tt@),
                0,
                stack@,
                ws,
                SerSt { out: out@, lt, ltext: ltext@ },
            );
            &&& view_tree(r.0@) == nn
            &&& r.1@ == st2.out
            &&& r.2 == st2.lt
            &&& r.3@ == st2.ltext
        }),
    decreases tt,
{
    let ghost v0 = view_tree(tt@);
    let ghost st0 = SerSt { out: out@, lt, ltext: ltext@ };
    let ghost target = ser_nodes(v0, 0, stack@, ws, st0);
    let mut built: Vec<TreeToken> = Vec::new();
    let mut out = out;
    let mut lt = lt;
    let mut ltext = ltext;
    let mut rest = tt;
    proof {
        assert(view_tree(built@) =~= Seq::<Node>::empty());
        assert(view_tree(built@) + target.0 =~= target.0);
    }
    loop
        invariant
            rest@.len() <= v0.len(),
            ser_nodes(v0, v0.len() - rest@.len(), stack@, ws, SerSt { out: out@, lt, ltext:
                ltext@ }).1 == target.1,
            view_tree(built@) + ser_nodes(v0, v0.len() - rest@.len(), stack@, ws, SerSt {
                out: out@,
                lt,
                ltext: ltext@,
            }).0 == target.0,
            forall|k: int| 0 <= k < rest@.len() ==> (#[trigger] rest@[k]) == tt@[tt@.len()
                - rest@.len() + k],
        decreases rest@.len(),
    {
        let ghost i = v0.len() - rest@.len();
        let ghost cur_st = SerSt { out: out@, lt, ltext: ltext@ };
        if rest.len() == 0 {
            proof {
                assert(ser_nodes(v0, v0.len() as int, stack@, ws, cur_st).0
                    =~= Seq::<Node>::empty());
                assert(view_tree(built@) =~= view_tree(built@) + Seq::<Node>::empty());
            }
            return (built, out, lt, ltext);
        }
        let ghost rest_old = rest@;
        let el = rest.remove(0);
        proof {
            assert(el == rest_old[0]);
            assert(el == tt@[i]);
            assert(view_node(el) == v0[i]);
            assert forall|k: int| 0 <= k < rest@.len() implies (#[trigger] rest@[k]) == tt@[
                tt@.len() - rest@.len() + k
            ] by {
                assert(rest@[k] == rest_old[k + 1]);
            }
        }
        match el {
            TreeToken::Token { type_, offset, text } => {
                if type_ == TokenType::Comment {
                    built.push(TreeToken::Token { type_, offset, text });
                    proof {
                        assert(view_node(built@.last()) == ser_node(v0[i], stack@, ws,
                            cur_st).0);
                    }
                } else {
                    if text.len() > 0 && needs_sep_x(lt, &ltext, text[0]) {
                        out.push(ws);
                        proof {
                            assert(out@ =~= cur_st.out + seq![ws]);
                        }
                    } else {
                        proof {
                            assert(out@ =~= cur_st.out + Seq::<u8>::empty());
                        }
                    }
                    let newoff = out.len();
                    enc_text_x(stack, &text, &mut out);
                    lt = type_;
                    ltext = text.clone();
                    proof {
                        assert(ltext@ == text@);
                    }
                    built.push(TreeToken::Token { type_, offset: newoff, text });
                    proof {
                        assert(view_node(built@.last()) == ser_node(v0[i], stack@, ws,
                            cur_st).0);
                    }
                }
            },
            TreeToken::SubTree(sub) => {
                proof {
                    crate::token::lemma_view_node_subtree(sub);
                }
                let (sub2, out2, lt2, ltext2) = ser_level(sub, stack, ws, out, lt, ltext);
                out = out2;
                lt = lt2;
                ltext = ltext2;
                built.push(TreeToken::SubTree(sub2));
                proof {
                    let subv = built@.last()->SubTree_0;
                    crate::token::lemma_view_node_subtree(subv);
                    assert(view_node(built@.last()) == ser_node(v0[i], stack@, ws, cur_st).0);
                }
            },
            TreeToken::CodeString { tt: sub, delim } => {
                proof {
                    crate::token::lemma_view_node_codestring(sub, delim);
                }
                enc_byte_x(stack, 0, delim, &mut out);
                lt = TokenType::Other;
                let mut stack2: Vec<u8> = Vec::new();
                stack2.push(delim);
                let mut si: usize = 0;
                while si < stack.len()
                    invariant
                        si <= stack@.len(),
                        stack2@ == seq![delim] + stack@.subrange(0, si as int),
                    decreases stack@.len() - si,
                {
                    stack2.push(stack[si]);
                    proof {
                        assert(seq![delim] + stack@.subrange(0, si + 1) =~= (seq![delim]
                            + stack@.subrange(0, si as int)).push(stack@[si as int]));
                    }
                    si = si + 1;
                }
                proof {
                    assert(stack2@ =~= seq![delim] + stack@);
                }
                let (sub2, out2, lt2, ltext2) = ser_level(sub, &stack2, ws, out, lt, ltext);
                out = out2;
                lt = lt2;
                ltext = ltext2;
                enc_byte_x(stack, 0, delim, &mut out);
                built.push(TreeToken::CodeString { tt: sub2, delim });
                proof {
                    let subv = built@.last()->CodeString_tt;
                    crate::token::lemma_view_node_codestring(subv, delim);
                    assert(view_node(built@.last()) == ser_node(v0[i], stack@, ws, cur_st).0);
                }
            },
        }
        proof {
            crate::token::lemma_view_tree_push(built@.drop_last(), built@.last());
            assert(built@.drop_last().push(built@.last()) =~= built@);
            assert(ser_nodes(v0, i, stack@, ws, cur_st).0 == seq![ser_node(v0[i], stack@, ws,
                cur_st).0] + ser_nodes(v0, i + 1, stack@, ws, ser_node(v0[i], stack@, ws,
                cur_st).1).0);
            assert(view_tree(built@) + ser_nodes(v0, i + 1, stack@, ws, SerSt { out: out@, lt,
                ltext: ltext@ }).0 =~= target.0);
        }
    }
}

/// Serialises a whole tree with separator byte `ws`: the emitted bytes, and
/// the tree with each token's offset set to its place in them.
pub fn serialize_tree(tt: Vec<TreeToken>, ws: u8) -> (r: (Vec<TreeToken>, Vec<u8>))
    ensures
        view_tree(r.0@) == serialise(view_tree(tt@), ws).0,
        r.1@ == serialise(view_tree(tt@), ws).1,
{
    let stack: Vec<u8> = Vec::new();
    let out: Vec<u8> = Vec::new();
    let ltext: Vec<u8> = Vec::new();
    let (tt2, out2, _, _) = ser_level(tt, &stack, ws, out, TokenType::Other, ltext);
    (tt2, out2)
}


/// Offset fidelity: every non-comment token's recorded offset points at
/// exactly its escape-encoded text inside `out`; code-string children are
/// checked under their delimiter.
pub open spec fn token_offsets_ok(t: Node, stack: Seq<u8>, out: Seq<u8>) -> bool
    decreases t,
{
    match t {
        Node::Token { type_, offset, text } => type_ == TokenType::Comment || {
            let enc = enc_text(stack, text, 0);
            &&& offset + enc.len() <= out.len()
            &&& out.subrange(offset as int, offset + enc.len()) == enc
        },
        Node::SubTree(sub) => forall|i: int|
            0 <= i < sub.len() ==> token_offsets_ok(#[trigger] sub[i], stack, out),
        Node::CodeString { tt: sub, delim } => forall|i: int|
            0 <= i < sub.len() ==> token_offsets_ok(#[trigger] sub[i], seq![delim] + stack, out),
    }
}

pub open spec fn tree_offsets_ok(tt: Seq<Node>, stack: Seq<u8>, out: Seq<u8>) -> bool {
    forall|i: int| 0 <= i < tt.len() ==> token_offsets_ok(#[trigger] tt[i], stack, out)
}

/// Serialisation only appends to the emitted bytes.
proof fn lemma_ser_node_grows(t: Node, stack: Seq<u8>, ws: u8, st: SerSt)
    ensures
        ({
            let (n2, st2) = ser_node(t, stack, ws, st);
            &&& st.out.len() <= st2.out.len()
            &&& st2.out.subrange(0, st.out.len() as int) == st.out
        }),
    decreases t, 0int,
{
    match t {
        Node::Token { type_, offset, text } => {
            let (n2, st2) = ser_node(t, stack, ws, st);
            assert(st2.out.subrange(0, st.out.len() as int) =~= st.out);
        },
        Node::SubTree(sub) => {
            lemma_ser_nodes_grows(sub, 0, stack, ws, st);
        },
        Node::CodeString { tt: sub, delim } => {
            let st1 = SerSt {
                out: st.out + enc_byte(stack, 0, delim),
                lt: TokenType::Other,
                ltext: st.ltext,
            };
            lemma_ser_nodes_grows(sub, 0, seq![delim] + stack, ws, st1);
            let (sub2, st2) = ser_nodes(sub, 0, seq![delim] + stack, ws, st1);
            let (n3, st3) = ser_node(t, stack, ws, st);
            assert(st1.out.subrange(0, st.out.len() as int) =~= st.out);
            assert(st3.out.subrange(0, st2.out.len() as int) =~= st2.out);
            assert(st3.out.subrange(0, st.out.len() as int) =~= st.out);
        },
    }
}

proof fn lemma_ser_nodes_grows(tt: Seq<Node>, i: int, stack: Seq<u8>, ws: u8, st: SerSt)
    requires
        0 <= i,
    ensures
        ({
            let (n2, st2) = ser_nodes(tt, i, stack, ws, st);
            &&& st.out.len() <= st2.out.len()
            &&& st2.out.subrange(0, st.out.len() as int) == st.out
        }),
    decreases tt, tt.len() - i,
{
    if i < tt.len() {
        lemma_ser_node_grows(tt[i], stack, ws, st);
        let (n1, st1) = ser_node(tt[i], stack, ws, st);
        lemma_ser_nodes_grows(tt, i + 1, stack, ws, st1);
        let (rest, st2) = ser_nodes(tt, i + 1, stack, ws, st1);
        assert(st2.out.subrange(0, st.out.len() as int) =~= st.out);
    } else {
        let (n2, st2) = ser_nodes(tt, i, stack, ws, st);
        assert(st2.out.subrange(0, st.out.len() as int) =~= st.out);
    }
}

/// Offset fidelity survives appending to the output.
proof fn lemma_offsets_ok_extend(t: Node, stack: Seq<u8>, out: Seq<u8>, out2: Seq<u8>)
    requires
        token_offsets_ok(t, stack, out),
        out.len() <= out2.len(),
        out2.subrange(0, out.len() as int) == out,
    ensures
        token_offsets_ok(t, stack, out2),
    decreases t,
{
    match t {
        Node::Token { type_, offset, text } => {
            if type_ != TokenType::Comment {
                let enc = enc_text(stack, text, 0);
                assert(out2.subrange(offset as int, offset + enc.len()) =~= out.subrange(
                    offset as int,
                    offset + enc.len(),
                ));
            }
        },
        Node::SubTree(sub) => {
            assert forall|i: int| 0 <= i < sub.len() implies token_offsets_ok(
                #[trigger] sub[i],
                stack,
                out2,
            ) by {
                lemma_offsets_ok_extend(sub[i], stack, out, out2);
            }
        },
        Node::CodeString { tt: sub, delim } => {
            assert forall|i: int| 0 <= i < sub.len() implies token_offsets_ok(
                #[trigger] sub[i],
                seq![delim] + stack,
                out2,
            ) by {
                lemma_offsets_ok_extend(sub[i], seq![delim] + stack, out, out2);
            }
        },
    }
}

/// Each serialised node's tokens point at their encoded text in the state the
/// serialiser leaves behind.
proof fn lemma_ser_node_offsets(t: Node, stack: Seq<u8>, ws: u8, st: SerSt)
    requires
        ser_node(t, stack, ws, st).1.out.len() <= usize::MAX,
    ensures
        ({
            let (n2, st2) = ser_node(t, stack, ws, st);
            token_offsets_ok(n2, stack, st2.out)
        }),
    decreases t, 0int,
{
    match t {
        Node::Token { type_, offset, text } => {
            if type_ != TokenType::Comment {
                let (n2, st2) = ser_node(t, stack, ws, st);
                let sep: Seq<u8> = if text.len() > 0 && needs_sep(st.lt, st.ltext, text[0]) {
                    seq![ws]
                } else {
                    Seq::empty()
                };
                let out1 = st.out + sep;
                let enc = enc_text(stack, text, 0);
                assert(st2.out.subrange(out1.len() as int, out1.len() as int + enc.len()
                    as int) =~= enc);
            }
        },
        Node::SubTree(sub) => {
            lemma_ser_sub_offsets(sub, 0, stack, ws, st);
        },
        Node::CodeString { tt: sub, delim } => {
            let st1 = SerSt {
                out: st.out + enc_byte(stack, 0, delim),
                lt: TokenType::Other,
                ltext: st.ltext,
            };
            let (sub2, st2) = ser_nodes(sub, 0, seq![delim] + stack, ws, st1);
            let (n3, st3) = ser_node(t, stack, ws, st);
            assert(st3.out =~= st2.out + enc_byte(stack, 0, delim));
            lemma_ser_sub_offsets(sub, 0, seq![delim] + stack, ws, st1);
            lemma_ser_nodes_grows(sub, 0, seq![delim] + stack, ws, st1);
            assert(st3.out =~= st2.out + enc_byte(stack, 0, delim));
            assert forall|i: int| 0 <= i < sub2.len() implies token_offsets_ok(
                #[trigger] sub2[i],
                seq![delim] + stack,
                st3.out,
            ) by {
                assert(st3.out.subrange(0, st2.out.len() as int) =~= st2.out);
                lemma_offsets_ok_extend(sub2[i], seq![delim] + stack, st2.out, st3.out);
            }
            assert(token_offsets_ok(Node::CodeString { tt: sub2, delim }, stack, st3.out));
        },
    }
}

/// Every token of the serialised suffix points at its encoded text in the
/// final output of the pass.
proof fn lemma_ser_sub_offsets(tt: Seq<Node>, i: int, stack: Seq<u8>, ws: u8, st: SerSt)
    requires
        0 <= i,
        ser_nodes(tt, i, stack, ws, st).1.out.len() <= usize::MAX,
    ensures
        ({
            let (n2, st2) = ser_nodes(tt, i, stack, ws, st);
            tree_offsets_ok(n2, stack, st2.out)
        }),
    decreases tt, tt.len() - i,
{
    if i < tt.len() {
        let (n1, st1) = ser_node(tt[i], stack, ws, st);
        lemma_ser_nodes_grows(tt, i + 1, stack, ws, st1);
        lemma_ser_node_offsets(tt[i], stack, ws, st);
        lemma_ser_sub_offsets(tt, i + 1, stack, ws, st1);
        let (rest, st2) = ser_nodes(tt, i + 1, stack, ws, st1);
        lemma_ser_nodes_grows(tt, i + 1, stack, ws, st1);
        let (full, st3) = ser_nodes(tt, i, stack, ws, st);
        assert forall|k: int| 0 <= k < full.len() implies token_offsets_ok(
            #[trigger] full[k],
            stack,
            st3.out,
        ) by {
            if k == 0 {
                assert(full[0] == n1);
                lemma_offsets_ok_extend(n1, stack, st1.out, st2.out);
            } else {
                assert(full[k] == rest[k - 1]);
            }
        }
    }
}

/// Offset fidelity: in a serialised tree, the bytes at each token's recorded
/// offset are exactly its escape-encoded text.
pub proof fn lemma_offset_fidelity(tt: Seq<Node>, ws: u8)
    requires
        serialise(tt, ws).1.len() <= usize::MAX,
    ensures
        tree_offsets_ok(serialise(tt, ws).0, Seq::empty(), serialise(tt, ws).1),
{
    let st0 = SerSt { out: Seq::empty(), lt: TokenType::Other, ltext: Seq::empty() };
    lemma_ser_sub_offsets(tt, 0, Seq::empty(), ws, st0);
}


/// Equality up to token offsets: the serialiser reads kinds, texts and
/// structure, never the recorded offsets.
pub open spec fn same_shape(a: Node, b: Node) -> bool
    decreases a,
{
    match (a, b) {
        (Node::Token { type_: t1, text: x1, .. }, Node::Token { type_: t2, text: x2, .. }) => t1
            == t2 && x1 == x2,
        (Node::SubTree(s1), Node::SubTree(s2)) => s1.len() == s2.len() && forall|i: int|
            0 <= i < s1.len() ==> same_shape(#[trigger] s1[i], s2[i]),
        (Node::CodeString { tt: s1, delim: d1 }, Node::CodeString { tt: s2, delim: d2 }) => d1
            == d2 && s1.len() == s2.len() && forall|i: int|
            0 <= i < s1.len() ==> same_shape(#[trigger] s1[i], s2[i]),
        _ => false,
    }
}

pub open spec fn same_shape_seq(a: Seq<Node>, b: Seq<Node>) -> bool {
    a.len() == b.len() && forall|i: int| 0 <= i < a.len() ==> same_shape(#[trigger] a[i], b[i])
}

/// Two trees of the same shape serialise to the same bytes and state, and the
/// outputs keep that shape.
proof fn lemma_ser_node_shape(a: Node, b: Node, stack: Seq<u8>, ws: u8, st: SerSt)
    requires
        same_shape(a, b),
    ensures
        ser_node(a, stack, ws, st).1 == ser_node(b, stack, ws, st).1,
        same_shape(ser_node(a, stack, ws, st).0, ser_node(b, stack, ws, st).0),
    decreases a, 0int,
{
    match (a, b) {
        (Node::Token { .. }, Node::Token { .. }) => {},
        (Node::SubTree(s1), Node::SubTree(s2)) => {
            lemma_ser_nodes_shape(s1, s2, 0, stack, ws, st);
        },
        (Node::CodeString { tt: s1, delim: d1 }, Node::CodeString { tt: s2, delim: d2 }) => {
            let st1 = SerSt {
                out: st.out + enc_byte(stack, 0, d1),
                lt: TokenType::Other,
                ltext: st.ltext,
            };
            lemma_ser_nodes_shape(s1, s2, 0, seq![d1] + stack, ws, st1);
        },
        _ => {},
    }
}

proof fn lemma_ser_nodes_shape(
    a: Seq<Node>,
    b: Seq<Node>,
    i: int,
    stack: Seq<u8>,
    ws: u8,
    st: SerSt,
)
    requires
        0 <= i,
        same_shape_seq(a, b),
    ensures
        ser_nodes(a, i, stack, ws, st).1 == ser_nodes(b, i, stack, ws, st).1,
        same_shape_seq(ser_nodes(a, i, stack, ws, st).0, ser_nodes(b, i, stack, ws, st).0),
    decreases a, a.len() - i,
{
    if i < a.len() {
        lemma_ser_node_shape(a[i], b[i], stack, ws, st);
        let (n1a, st1) = ser_node(a[i], stack, ws, st);
        let (n1b, _) = ser_node(b[i], stack, ws, st);
        lemma_ser_nodes_shape(a, b, i + 1, stack, ws, st1);
        let (ra, st2a) = ser_nodes(a, i + 1, stack, ws, st1);
        let (rb, st2b) = ser_nodes(b, i + 1, stack, ws, st1);
        let fa = ser_nodes(a, i, stack, ws, st).0;
        let fb = ser_nodes(b, i, stack, ws, st).0;
        assert forall|k: int| 0 <= k < fa.len() implies same_shape(#[trigger] fa[k], fb[k]) by {
            if k == 0 {
                assert(fa[0] == n1a && fb[0] == n1b);
            } else {
                assert(fa[k] == ra[k - 1] && fb[k] == rb[k - 1]);
            }
        }
    }
}

/// Serialisation changes only the offsets: the result has the input's shape.
proof fn lemma_ser_node_keeps_shape(t: Node, stack: Seq<u8>, ws: u8, st: SerSt)
    ensures
        same_shape(ser_node(t, stack, ws, st).0, t),
    decreases t, 0int,
{
    match t {
        Node::Token { .. } => {},
        Node::SubTree(sub) => {
            lemma_ser_nodes_keep_shape(sub, 0, stack, ws, st);
        },
        Node::CodeString { tt: sub, delim } => {
            let st1 = SerSt {
                out: st.out + enc_byte(stack, 0, delim),
                lt: TokenType::Other,
                ltext: st.ltext,
            };
            lemma_ser_nodes_keep_shape(sub, 0, seq![delim] + stack, ws, st1);
        },
    }
}

proof fn lemma_ser_nodes_keep_shape(tt: Seq<Node>, i: int, stack: Seq<u8>, ws: u8, st: SerSt)
    requires
        0 <= i,
    ensures
        ser_nodes(tt, i, stack, ws, st).0.len() == if i <= tt.len() {
            tt.len() - i
        } else {
            0int
        },
        forall|k: int| 0 <= k < ser_nodes(tt, i, stack, ws, st).0.len() ==> same_shape(
            #[trigger] ser_nodes(tt, i, stack, ws, st).0[k],
            tt[i + k],
        ),
    decreases tt, tt.len() - i,
{
    if i < tt.len() {
        lemma_ser_node_keeps_shape(tt[i], stack, ws, st);
        let (n1, st1) = ser_node(tt[i], stack, ws, st);
        lemma_ser_nodes_keep_shape(tt, i + 1, stack, ws, st1);
        let (rest, st2) = ser_nodes(tt, i + 1, stack, ws, st1);
        let f = ser_nodes(tt, i, stack, ws, st).0;
        assert forall|k: int| 0 <= k < f.len() implies same_shape(#[trigger] f[k], tt[i + k]) by {
            if k == 0 {
                assert(f[0] == n1);
            } else {
                assert(f[k] == rest[k - 1]);
            }
        }
    }
}

/// Serialising twice yields the same bytes: the first pass only rewrites
/// offsets, which the serialiser never reads.
pub proof fn lemma_serialize_twice(tt: Seq<Node>, ws: u8)
    ensures
        serialise(serialise(tt, ws).0, ws).1 == serialise(tt, ws).1,
{
    let st0 = SerSt { out: Seq::empty(), lt: TokenType::Other, ltext: Seq::empty() };
    let once = serialise(tt, ws).0;
    lemma_ser_nodes_keep_shape(tt, 0, Seq::empty(), ws, st0);
    assert(same_shape_seq(once, tt));
    lemma_ser_nodes_shape(once, tt, 0, Seq::empty(), ws, st0);
}

} // verus!
