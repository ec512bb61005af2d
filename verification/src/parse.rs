//! The parser: builds the token tree, opening sub-trees on `function` and
//! continuing inline on `do`/`if` until the matching `end`; a second pass
//! turns `load "…"` arguments and strings marked by a `-- code string`
//! comment into nested code.

use vstd::prelude::*;

use crate::token::{Node, TokenType, TreeToken, node_size, nodes_text_size, view_node, view_tree};
use crate::tokenizer::{next_token, next_token_spec};

verus! {

pub open spec fn kw_function() -> Seq<u8> {
    seq![102u8, 117, 110, 99, 116, 105, 111, 110]
}

pub open spec fn kw_do() -> Seq<u8> {
    seq![100u8, 111]
}

pub open spec fn kw_if() -> Seq<u8> {
    seq![105u8, 102]
}

pub open spec fn kw_end() -> Seq<u8> {
    seq![101u8, 110, 100]
}

pub open spec fn kw_load() -> Seq<u8> {
    seq![108u8, 111, 97, 100]
}

/// A non-`Eof` token's span is non-empty and inside the input.
pub proof fn lemma_next_token_advance(code: Seq<u8>, pos: int)
    requires
        0 <= pos <= code.len(),
    ensures
        ({
            let (t, s, e) = next_token_spec(code, pos);
            &&& pos <= s <= e <= code.len()
            &&& (t != TokenType::Eof ==> s + 1 <= e)
            &&& (t == TokenType::Eof ==> s == e == code.len())
        }),
{
    let spaces = |c: u8| crate::tokenizer::is_space(c);
    crate::tokenizer::lemma_scan_bounds(code, pos, spaces);
    let i = crate::tokenizer::scan(code, pos, spaces);
    if i < code.len() {
        if i + 1 < code.len() && code[i] == 45 && code[i + 1] == 45 && crate::tokenizer::bracket_opens(
            code,
            i + 2,
        ) {
            let lvl = crate::tokenizer::bracket_level(code, i + 2);
            crate::tokenizer::lemma_scan_bounds(code, i + 3, |c: u8| c == 61);
            crate::tokenizer::lemma_lbe_bounds(code, i, lvl);
        } else if i + 1 < code.len() && code[i] == 45 && code[i + 1] == 45 {
            crate::tokenizer::lemma_scan_bounds(code, i, |c: u8| c != 10);
            assert(crate::tokenizer::scan(code, i, |c: u8| c != 10) >= i + 1);
        } else if crate::tokenizer::is_ident_start_spec(code[i]) {
            crate::tokenizer::lemma_scan_bounds(code, i + 1, |c: u8| crate::tokenizer::is_ident_char(c));
        } else if crate::tokenizer::hex_starts(code, i) {
            lemma_hex_end_bounds(code, i);
        } else if crate::tokenizer::number_starts(code, i) {
            lemma_number_end_bounds(code, i);
        } else if code[i] == 34 || code[i] == 39 {
            lemma_string_end_bounds(code, i + 1, code[i]);
        } else if crate::tokenizer::bracket_opens(code, i) {
            let lvl = crate::tokenizer::bracket_level(code, i);
            crate::tokenizer::lemma_scan_bounds(code, i + 1, |c: u8| c == 61);
            crate::tokenizer::lemma_lbe_bounds(code, i, lvl);
        }
    }
}

proof fn lemma_string_end_bounds(code: Seq<u8>, pos: int, delim: u8)
    requires
        0 <= pos <= code.len(),
    ensures
        pos <= crate::tokenizer::string_end(code, pos, delim) <= code.len(),
    decreases code.len() - pos,
{
    if pos < code.len() {
        let c = code[pos];
        if c == delim {
        } else if c == 92 && pos + 1 < code.len() {
            lemma_string_end_bounds(code, pos + 2, delim);
        } else {
            lemma_string_end_bounds(code, pos + 1, delim);
        }
    }
}

proof fn lemma_exp_end_bounds(code: Seq<u8>, j: int, letter: u8)
    requires
        0 <= j <= code.len(),
    ensures
        j <= crate::tokenizer::exp_end(code, j, letter) <= code.len(),
{
    if j < code.len() && (code[j] | 32) == letter {
        let k = if j + 1 < code.len() && code[j + 1] == 45 {
            j + 2
        } else {
            j + 1
        };
        crate::tokenizer::lemma_scan_bounds(code, k, |c: u8| crate::tokenizer::is_digit(c));
    }
}

proof fn lemma_hex_end_bounds(code: Seq<u8>, i: int)
    requires
        0 <= i,
        i + 2 <= code.len(),
    ensures
        i + 2 <= crate::tokenizer::hex_end(code, i) <= code.len(),
{
    let hexd = |c: u8| crate::tokenizer::is_hex_digit(c);
    crate::tokenizer::lemma_scan_bounds(code, i + 2, hexd);
    let j0 = crate::tokenizer::scan(code, i + 2, hexd);
    if j0 < code.len() && code[j0] == 46 {
        crate::tokenizer::lemma_scan_bounds(code, j0 + 1, hexd);
        lemma_exp_end_bounds(code, crate::tokenizer::scan(code, j0 + 1, hexd), 112);
    } else {
        lemma_exp_end_bounds(code, j0, 112);
    }
}

proof fn lemma_number_end_bounds(code: Seq<u8>, i: int)
    requires
        0 <= i < code.len(),
        crate::tokenizer::number_starts(code, i),
    ensures
        i + 1 <= crate::tokenizer::number_end(code, i) <= code.len(),
{
    let digits = |c: u8| crate::tokenizer::is_digit(c);
    if crate::tokenizer::is_digit(code[i]) {
        crate::tokenizer::lemma_scan_bounds(code, i, digits);
        let j0 = crate::tokenizer::scan(code, i, digits);
        assert(j0 >= i + 1);
        if j0 < code.len() && code[j0] == 46 {
            crate::tokenizer::lemma_scan_bounds(code, j0 + 1, digits);
            lemma_exp_end_bounds(code, crate::tokenizer::scan(code, j0 + 1, digits), 101);
        } else {
            lemma_exp_end_bounds(code, j0, 101);
        }
    } else {
        crate::tokenizer::lemma_scan_bounds(code, i + 1, digits);
        lemma_exp_end_bounds(code, crate::tokenizer::scan(code, i + 1, digits), 101);
    }
}

/// One parsed level: the tokens up to and including the closing `end` (or the
/// end of input), and the position after them. `function` wraps its region in
/// a sub-tree; `do` and `if` continue inline.
pub open spec fn parse_st(code: Seq<u8>, pos: int) -> (Seq<Node>, int)
    decreases code.len() - pos,
    when 0 <= pos <= code.len()
{
    let (t, s, e) = next_token_spec(code, pos);
    proof {
        lemma_next_token_advance(code, pos);
    }
    if t == TokenType::Eof {
        (Seq::empty(), e)
    } else {
        let text = code.subrange(s, e);
        let tok = Node::Token { type_: t, offset: s as usize, text };
        if t == TokenType::Identifier && text == kw_function() {
            let (sub, p2) = parse_st(code, e);
            let node = Node::SubTree(seq![tok] + sub);
            let (rest, p3) = parse_st(code, resume_at(code, e, p2));
            (seq![node] + rest, p3)
        } else if t == TokenType::Identifier && (text == kw_do() || text == kw_if()) {
            let (sub, p2) = parse_st(code, e);
            let (rest, p3) = parse_st(code, resume_at(code, e, p2));
            (seq![tok] + sub + rest, p3)
        } else if t == TokenType::Identifier && text == kw_end() {
            (seq![tok], e)
        } else {
            let (rest, p3) = parse_st(code, e);
            (seq![tok] + rest, p3)
        }
    }
}

/// Where parsing resumes after a nested level that began at `e` ended at
/// `p2`. A level never stops before its start nor beyond the input, so this
/// is `p2`; the clamp serves termination checking alone.
pub open spec fn resume_at(code: Seq<u8>, e: int, p2: int) -> int {
    if p2 < e {
        e
    } else if p2 > code.len() {
        code.len() as int
    } else {
        p2
    }
}

/// A parsed level starts no earlier than `pos` and ends inside the input, and
/// the clamp never fires.
pub proof fn lemma_parse_st_advance(code: Seq<u8>, pos: int)
    requires
        0 <= pos <= code.len(),
    ensures
        pos <= parse_st(code, pos).1 <= code.len(),
    decreases code.len() - pos,
{
    lemma_next_token_advance(code, pos);
    let (t, s, e) = next_token_spec(code, pos);
    if t != TokenType::Eof {
        let text = code.subrange(s, e);
        if t == TokenType::Identifier && (text == kw_function() || text == kw_do() || text
            == kw_if()) {
            lemma_parse_st_advance(code, e);
            let (sub, p2) = parse_st(code, e);
            lemma_parse_st_advance(code, resume_at(code, e, p2));
        } else if t == TokenType::Identifier && text == kw_end() {
        } else {
            lemma_parse_st_advance(code, e);
        }
    }
}


/// Unescaped content of a quoted string token from scan position `pos`
/// (initially just after the delimiter), and for each content byte the
/// position, in the enclosing input, of the escape that produced it
/// (`tokoff` is the token's offset there). The closing delimiter is dropped.
pub open spec fn unesc(text: Seq<u8>, tokoff: usize, pos: int) -> (Seq<u8>, Seq<usize>)
    decreases text.len() - pos,
    when pos >= 1
{
    if pos + 1 >= text.len() {
        (Seq::empty(), Seq::empty())
    } else {
        let (b, npos): (u8, int) = if text[pos] == 92 {
            let c = text[pos + 1];
            let m: u8 = if c == 110 {
                10
            } else if c == 114 {
                13
            } else if c == 116 {
                9
            } else {
                c
            };
            (m, pos + 2)
        } else {
            (text[pos], pos + 1)
        };
        let (rest, restmap) = unesc(text, tokoff, npos);
        (seq![b] + rest, seq![tokoff.wrapping_add(pos as usize)] + restmap)
    }
}

/// Replaces every token offset by its position in the enclosing input.
pub open spec fn remap_nodes(tt: Seq<Node>, m: Seq<usize>, i: int) -> Seq<Node>
    decreases tt, tt.len() - i,
{
    if i < 0 || i >= tt.len() {
        Seq::empty()
    } else {
        seq![remap_node(tt[i], m)] + remap_nodes(tt, m, i + 1)
    }
}

pub open spec fn remap_node(t: Node, m: Seq<usize>) -> Node
    decreases t, 0int,
{
    match t {
        Node::Token { type_, offset, text } => Node::Token {
            type_,
            offset: m[offset as int],
            text,
        },
        Node::SubTree(sub) => Node::SubTree(remap_nodes(sub, m, 0)),
        Node::CodeString { tt: sub, delim } => Node::CodeString {
            tt: remap_nodes(sub, m, 0),
            delim,
        },
    }
}

/// Whether a comment marks the following string as code: `--`, spaces,
/// `code`, at least one space, `string`.
pub open spec fn cs_comment(text: Seq<u8>) -> bool {
    let j = crate::tokenizer::scan(text, 2, |c: u8| crate::tokenizer::is_space(c));
    let word_code = seq![99u8, 111, 100, 101];
    let word_string = seq![115u8, 116, 114, 105, 110, 103];
    &&& text.len() >= 2
    &&& text[0] == 45 && text[1] == 45
    &&& j + 4 <= text.len() && text.subrange(j, j + 4) == word_code
    &&& {
        let l = crate::tokenizer::scan(text, j + 4, |c: u8| crate::tokenizer::is_space(c));
        &&& l > j + 4
        &&& l + 6 <= text.len()
        &&& text.subrange(l, l + 6) == word_string
    }
}

/// Token texts of a level sum to at most the bytes the level consumed.
pub proof fn lemma_parse_st_size(code: Seq<u8>, pos: int)
    requires
        0 <= pos <= code.len(),
    ensures
        nodes_text_size(parse_st(code, pos).0, 0) <= parse_st(code, pos).1 - pos,
        parse_st(code, pos).1 <= code.len(),
    decreases code.len() - pos,
{
    lemma_next_token_advance(code, pos);
    lemma_parse_st_advance(code, pos);
    let (t, s, e) = next_token_spec(code, pos);
    if t == TokenType::Eof {
        assert(nodes_text_size(Seq::<Node>::empty(), 0) == 0);
    } else {
        let text = code.subrange(s, e);
        let tok = Node::Token { type_: t, offset: s as usize, text };
        assert(node_size(tok) == e - s <= e - pos);
        if t == TokenType::Identifier && text == kw_function() {
            lemma_parse_st_size(code, e);
            lemma_parse_st_advance(code, e);
            let (sub, p2) = parse_st(code, e);
            lemma_parse_st_size(code, resume_at(code, e, p2));
            let node = Node::SubTree(seq![tok] + sub);
            let (rest, p3) = parse_st(code, resume_at(code, e, p2));
            lemma_nodes_size_concat(seq![tok], sub);
            lemma_size_singleton(tok);
            lemma_nodes_size_concat(seq![node], rest);
            lemma_size_singleton(node);
        } else if t == TokenType::Identifier && (text == kw_do() || text == kw_if()) {
            lemma_parse_st_size(code, e);
            lemma_parse_st_advance(code, e);
            let (sub, p2) = parse_st(code, e);
            lemma_parse_st_size(code, resume_at(code, e, p2));
            let (rest, p3) = parse_st(code, resume_at(code, e, p2));
            lemma_nodes_size_concat(seq![tok] + sub, rest);
            lemma_nodes_size_concat(seq![tok], sub);
            lemma_size_singleton(tok);
        } else if t == TokenType::Identifier && text == kw_end() {
            lemma_size_singleton(tok);
        } else {
            lemma_parse_st_size(code, e);
            let (rest, p3) = parse_st(code, e);
            lemma_nodes_size_concat(seq![tok], rest);
            lemma_size_singleton(tok);
        }
    }
}


proof fn lemma_size_singleton(t: Node)
    ensures
        nodes_text_size(seq![t], 0) == node_size(t),
{
    assert(nodes_text_size(seq![t], 1) == 0);
}

/// Text size adds over concatenation.
pub proof fn lemma_nodes_size_concat(a: Seq<Node>, b: Seq<Node>)
    ensures
        nodes_text_size(a + b, 0) == nodes_text_size(a, 0) + nodes_text_size(b, 0),
{
    lemma_nodes_size_concat_from(a, b, 0);
}

proof fn lemma_nodes_size_concat_from(a: Seq<Node>, b: Seq<Node>, i: int)
    requires
        0 <= i <= a.len(),
    ensures
        nodes_text_size(a + b, i) == nodes_text_size(a, i) + nodes_text_size(b, 0),
    decreases a.len() - i,
{
    if i < a.len() {
        assert((a + b)[i] == a[i]);
        lemma_nodes_size_concat_from(a, b, i + 1);
    } else {
        lemma_nodes_size_shift(a, b, 0);
    }
}

proof fn lemma_nodes_size_shift(a: Seq<Node>, b: Seq<Node>, j: int)
    requires
        0 <= j <= b.len(),
    ensures
        nodes_text_size(a + b, a.len() + j) == nodes_text_size(b, j),
    decreases b.len() - j,
{
    if j < b.len() {
        assert((a + b)[a.len() + j] == b[j]);
        lemma_nodes_size_shift(a, b, j + 1);
    }
}

/// The unescaped content is shorter than the token text.
pub proof fn lemma_unesc_size(text: Seq<u8>, tokoff: usize, pos: int)
    requires
        1 <= pos,
    ensures
        unesc(text, tokoff, pos).0.len() <= text.len() - pos - 1 || unesc(
            text,
            tokoff,
            pos,
        ).0.len() == 0,
        unesc(text, tokoff, pos).1.len() == unesc(text, tokoff, pos).0.len(),
    decreases text.len() - pos,
{
    if pos + 1 < text.len() {
        if text[pos] == 92 {
            lemma_unesc_size(text, tokoff, pos + 2);
        } else {
            lemma_unesc_size(text, tokoff, pos + 1);
        }
    }
}

/// Remapping keeps every text, so it keeps the size.
pub proof fn lemma_remap_size(tt: Seq<Node>, m: Seq<usize>, i: int)
    requires
        0 <= i <= tt.len(),
    ensures
        nodes_text_size(remap_nodes(tt, m, i), 0) == nodes_text_size(tt, i),
        remap_nodes(tt, m, i).len() == tt.len() - i,
    decreases tt, tt.len() - i,
{
    if i < tt.len() {
        lemma_remap_size(tt, m, i + 1);
        lemma_remap_node_size(tt[i], m);
        lemma_nodes_size_concat(seq![remap_node(tt[i], m)], remap_nodes(tt, m, i + 1));
        lemma_size_singleton(remap_node(tt[i], m));
    }
}

proof fn lemma_remap_node_size(t: Node, m: Seq<usize>)
    ensures
        node_size(remap_node(t, m)) == node_size(t),
    decreases t, 0int,
{
    match t {
        Node::Token { .. } => {},
        Node::SubTree(sub) => {
            lemma_remap_size(sub, m, 0);
        },
        Node::CodeString { tt: sub, .. } => {
            lemma_remap_size(sub, m, 0);
        },
    }
}


/// The nested-code rewrite from element `i` on: a string argument of `load`,
/// or a string after a `-- code string` comment, becomes a `CodeString` whose
/// content is re-parsed and whose offsets point back into the enclosing
/// input.
pub open spec fn rewrite_cs(tt: Seq<Node>, i: int) -> Seq<Node>
    decreases nodes_text_size(tt, 0), tt.len() - i,
    when 0 <= i
{
    if i >= tt.len() {
        Seq::empty()
    } else {
        let load_case = tt[i] matches Node::Token { type_: TokenType::Identifier, text, .. }
            && text == kw_load();
        let comment_case = tt[i] matches Node::Token { type_: TokenType::Comment, text, .. }
            && cs_comment(text);
        let next_str = i + 1 < tt.len() && tt[i + 1] matches Node::Token {
            type_: TokenType::Str,
            ..
        };
        if (load_case || comment_case) && next_str {
            proof {
                lemma_make_cs_decreases(tt, i);
            }
            let cs = make_cs(tt[i + 1]);
            if load_case {
                seq![tt[i], cs] + rewrite_cs(tt, i + 2)
            } else {
                seq![cs] + rewrite_cs(tt, i + 2)
            }
        } else {
            seq![tt[i]] + rewrite_cs(tt, i + 1)
        }
    }
}

/// The code string for a string token: its unescaped content re-parsed, the
/// inner offsets remapped to the enclosing input, and the rewrite applied
/// recursively.
pub open spec fn make_cs(strtok: Node) -> Node
    decreases node_size(strtok), 0int,
    when strtok is Token
{
    let text = strtok->Token_text;
    let offset = strtok->Token_offset;
    let (content, m) = unesc(text, offset, 1);
    proof {
        lemma_unesc_size(text, offset, 1);
        lemma_parse_st_size(content, 0);
        lemma_remap_size(parse_st(content, 0).0, m, 0);
    }
    let inner = remap_nodes(parse_st(content, 0).0, m, 0);
    Node::CodeString {
        tt: if content.len() == 0 {
            Seq::empty()
        } else {
            rewrite_cs(inner, 0)
        },
        delim: if text.len() > 0 {
            text[0]
        } else {
            34
        },
    }
}

/// Inside `rewrite_cs`, the recursion into a string token's content shrinks
/// the text-size measure.
pub proof fn lemma_make_cs_decreases(tt: Seq<Node>, i: int)
    requires
        0 <= i,
        i + 1 < tt.len(),
        tt[i + 1] is Token,
    ensures
        node_size(tt[i + 1]) <= nodes_text_size(tt, 0),
{
    lemma_node_size_le(tt, i + 1);
}

proof fn lemma_node_size_le(tt: Seq<Node>, j: int)
    requires
        0 <= j < tt.len(),
    ensures
        node_size(tt[j]) <= nodes_text_size(tt, 0),
{
    lemma_node_size_le_from(tt, 0, j);
}

proof fn lemma_node_size_le_from(tt: Seq<Node>, i: int, j: int)
    requires
        0 <= i <= j < tt.len(),
    ensures
        node_size(tt[j]) <= nodes_text_size(tt, i),
    decreases j - i,
{
    if i < j {
        lemma_node_size_le_from(tt, i + 1, j);
    }
}

/// What parsing a whole program yields: the token tree with nested code
/// strings resolved.
pub open spec fn tokenise(code: Seq<u8>) -> Seq<Node> {
    rewrite_cs(parse_st(code, 0).0, 0)
}


/// Byte-sequence equality.
pub fn bytes_eq(a: &[u8], b: &[u8]) -> (r: bool)
    ensures
        r == (a@ == b@),
{
    if a.len() != b.len() {
        proof {
            assert(a@.len() != b@.len());
        }
        return false;
    }
    let mut i: usize = 0;
    while i < a.len()
        invariant
            i <= a@.len(),
            a@.len() == b@.len(),
            forall|j: int| 0 <= j < i ==> a@[j] == b@[j],
        decreases a@.len() - i,
    {
        if a[i] != b[i] {
            return false;
        }
        i = i + 1;
    }
    proof {
        assert(a@ =~= b@);
    }
    true
}

/// Parses one level, appending its nodes to `out` and leaving `offset` after
/// the closing `end` (or at the end of input).
#[verifier::loop_isolation(false)]
#[verifier::rlimit(60)]
fn parse_level(code: &[u8], offset: &mut usize, out: &mut Vec<TreeToken>)
    requires
        *old(offset) <= code@.len(),
    ensures
        *final(offset) == parse_st(code@, *old(offset) as int).1,
        *final(offset) <= code@.len(),
        view_tree(final(out)@) == view_tree(old(out)@) + parse_st(
            code@,
            *old(offset) as int,
        ).0,
    decreases code@.len() - *old(offset),
{
    let ghost pos0 = *old(offset) as int;
    let ghost out0 = view_tree(old(out)@);
    proof {
        lemma_parse_st_advance(code@, pos0);
    }
    let ghost target = parse_st(code@, pos0);
    loop
        invariant
            pos0 <= *offset,
            *offset <= code@.len(),
            view_tree(out@) + parse_st(code@, *offset as int).0 == out0 + target.0,
            parse_st(code@, *offset as int).1 == target.1,
        decreases code@.len() - *offset, 0int,
    {
        let ghost cur = *offset as int;
        proof {
            lemma_next_token_advance(code@, cur);
            lemma_parse_st_advance(code@, cur);
        }
        let (t, text, start) = next_token(code, offset);
        let ghost tokn = Node::Token {
            type_: t,
            offset: start,
            text: code@.subrange(
                next_token_spec(code@, cur).1,
                next_token_spec(code@, cur).2,
            ),
        };
        if t == TokenType::Eof {
            proof {
                assert(view_tree(out@) =~= out0 + target.0);
            }
            return ;
        }
        if t == TokenType::Identifier && bytes_eq(text.as_slice(), &[102, 117, 110, 99, 116,
            105, 111, 110]) {
            proof {
                assert(text@ == kw_function());
            }
            let mut sub: Vec<TreeToken> = Vec::new();
            sub.push(TreeToken::Token { type_: t, offset: start, text });
            let ghost e = *offset as int;
            proof {
                assert(view_tree(sub@) =~= seq![tokn]);
                lemma_parse_st_advance(code@, e);
            }
            parse_level(code, offset, &mut sub);
            proof {
                assert(resume_at(code@, e, parse_st(code@, e).1) == parse_st(code@, e).1);
            }
            let ghost vsub = view_tree(sub@);
            out.push(TreeToken::SubTree(sub));
            proof {
                let subv = out@.last()->SubTree_0;
                crate::token::lemma_view_node_subtree(subv);
                crate::token::lemma_view_tree_push(out@.drop_last(), out@.last());
                assert(out@.drop_last().push(out@.last()) =~= out@);
                assert(vsub =~= seq![tokn] + parse_st(code@, e).0);
                assert(view_tree(out@) + parse_st(code@, *offset as int).0 =~= out0 + target.0);
            }
        } else if t == TokenType::Identifier && (bytes_eq(text.as_slice(), &[100, 111])
            || bytes_eq(text.as_slice(), &[105, 102])) {
            let ghost e = *offset as int;
            let istok = TreeToken::Token { type_: t, offset: start, text };
            out.push(istok);
            proof {
                crate::token::lemma_view_tree_push(out@.drop_last(), out@.last());
                assert(out@.drop_last().push(out@.last()) =~= out@);
                lemma_parse_st_advance(code@, e);
                assert(resume_at(code@, e, parse_st(code@, e).1) == parse_st(code@, e).1);
            }
            parse_level(code, offset, out);
            proof {
                assert(view_tree(out@) + parse_st(code@, *offset as int).0 =~= out0 + target.0);
            }
        } else if t == TokenType::Identifier && bytes_eq(text.as_slice(), &[101, 110, 100]) {
            out.push(TreeToken::Token { type_: t, offset: start, text });
            proof {
                crate::token::lemma_view_tree_push(out@.drop_last(), out@.last());
                assert(out@.drop_last().push(out@.last()) =~= out@);
                assert(view_tree(out@) =~= out0 + target.0);
            }
            return ;
        } else {
            out.push(TreeToken::Token { type_: t, offset: start, text });
            proof {
                crate::token::lemma_view_tree_push(out@.drop_last(), out@.last());
                assert(out@.drop_last().push(out@.last()) =~= out@);
                assert(view_tree(out@) + parse_st(code@, *offset as int).0 =~= out0 + target.0);
            }
        }
    }
}


/// Model-level well-formedness: every token has a kind other than `Eof`, a
/// non-empty text, and a span inside an input of length `n`.
pub open spec fn nwf(t: Node, n: int) -> bool
    decreases t,
{
    match t {
        Node::Token { type_, offset, text } => {
            &&& type_ != TokenType::Eof
            &&& 1 <= text.len()
            &&& offset + text.len() <= n
        },
        Node::SubTree(sub) => forall|i: int| 0 <= i < sub.len() ==> nwf(#[trigger] sub[i], n),
        Node::CodeString { tt: sub, .. } => forall|i: int|
            0 <= i < sub.len() ==> nwf(#[trigger] sub[i], n),
    }
}

pub open spec fn nwf_tree(tt: Seq<Node>, n: int) -> bool {
    forall|i: int| 0 <= i < tt.len() ==> nwf(#[trigger] tt[i], n)
}

/// Parsing yields a well-formed level.
pub proof fn lemma_parse_st_wf(code: Seq<u8>, pos: int)
    requires
        0 <= pos <= code.len(),
    ensures
        nwf_tree(parse_st(code, pos).0, code.len() as int),
    decreases code.len() - pos,
{
    lemma_next_token_advance(code, pos);
    let (t, s, e) = next_token_spec(code, pos);
    let n = code.len() as int;
    if t != TokenType::Eof {
        let text = code.subrange(s, e);
        let tok = Node::Token { type_: t, offset: s as usize, text };
        assert(nwf(tok, n));
        if t == TokenType::Identifier && text == kw_function() {
            lemma_parse_st_wf(code, e);
            lemma_parse_st_advance(code, e);
            let (sub, p2) = parse_st(code, e);
            lemma_parse_st_wf(code, resume_at(code, e, p2));
            let node = Node::SubTree(seq![tok] + sub);
            assert forall|i: int| 0 <= i < (seq![tok] + sub).len() implies nwf(
                #[trigger] (seq![tok] + sub)[i],
                n,
            ) by {
                if i > 0 {
                    assert((seq![tok] + sub)[i] == sub[i - 1]);
                }
            }
            let r = parse_st(code, pos).0;
            let rest = parse_st(code, resume_at(code, e, p2)).0;
            assert forall|i: int| 0 <= i < r.len() implies nwf(#[trigger] r[i], n) by {
                if i > 0 {
                    assert(r[i] == rest[i - 1]);
                }
            }
        } else if t == TokenType::Identifier && (text == kw_do() || text == kw_if()) {
            lemma_parse_st_wf(code, e);
            lemma_parse_st_advance(code, e);
            let (sub, p2) = parse_st(code, e);
            lemma_parse_st_wf(code, resume_at(code, e, p2));
            let rest = parse_st(code, resume_at(code, e, p2)).0;
            let r = parse_st(code, pos).0;
            assert forall|i: int| 0 <= i < r.len() implies nwf(#[trigger] r[i], n) by {
                if 0 < i < 1 + sub.len() {
                    assert(r[i] == sub[i - 1]);
                } else if i >= 1 + sub.len() {
                    assert(r[i] == rest[i - 1 - sub.len()]);
                }
            }
        } else if t == TokenType::Identifier && text == kw_end() {
        } else {
            lemma_parse_st_wf(code, e);
            let rest = parse_st(code, e).0;
            let r = parse_st(code, pos).0;
            assert forall|i: int| 0 <= i < r.len() implies nwf(#[trigger] r[i], n) by {
                if i > 0 {
                    assert(r[i] == rest[i - 1]);
                }
            }
        }
    }
}



pub proof fn lemma_nwf_subtree(vs: Seq<Node>, n: int)
    requires
        nwf(Node::SubTree(vs), n),
    ensures
        nwf_tree(vs, n),
{
    let t = Node::SubTree(vs);
    assert(nwf(t, n));
    assert forall|i: int| 0 <= i < vs.len() implies nwf(#[trigger] vs[i], n) by {
        match t {
            Node::SubTree(sub) => {
                assert(nwf(sub[i], n));
            },
            _ => {
                assert(false);
            },
        }
    }
}

pub proof fn lemma_nwf_codestring(vs: Seq<Node>, delim: u8, n: int)
    requires
        nwf(Node::CodeString { tt: vs, delim }, n),
    ensures
        nwf_tree(vs, n),
{
    let t = Node::CodeString { tt: vs, delim };
    assert(nwf(t, n));
    assert forall|i: int| 0 <= i < vs.len() implies nwf(#[trigger] vs[i], n) by {
        match t {
            Node::CodeString { tt: sub, .. } => {
                assert(nwf(sub[i], n));
            },
            _ => {
                assert(false);
            },
        }
    }
}

/// Well-formedness survives a larger input bound.
pub proof fn lemma_nwf_widen(t: Node, n: int, wider: int)
    requires
        nwf(t, n),
        n <= wider,
    ensures
        nwf(t, wider),
    decreases t,
{
    match t {
        Node::Token { .. } => {},
        Node::SubTree(sub) => {
            assert forall|i: int| 0 <= i < sub.len() implies nwf(#[trigger] sub[i], wider) by {
                lemma_nwf_widen(sub[i], n, wider);
            }
        },
        Node::CodeString { tt: sub, .. } => {
            assert forall|i: int| 0 <= i < sub.len() implies nwf(#[trigger] sub[i], wider) by {
                lemma_nwf_widen(sub[i], n, wider);
            }
        },
    }
}

/// The unescaped content of a string token, with each content byte's position
/// in the enclosing input.
fn unescape(text: &Vec<u8>, offset: usize) -> (r: (Vec<u8>, Vec<usize>))
    ensures
        (r.0@, r.1@) == unesc(text@, offset, 1),
{
    let ghost target = unesc(text@, offset, 1);
    let mut content: Vec<u8> = Vec::new();
    let mut m: Vec<usize> = Vec::new();
    let mut pos: usize = 1;
    while pos < text.len() && text.len() - pos > 1
        invariant
            1 <= pos,
            pos <= text@.len() || pos == 1,
            target == (content@ + unesc(text@, offset, pos as int).0, m@ + unesc(
                text@,
                offset,
                pos as int,
            ).1),
        decreases text@.len() - pos,
    {
        m.push(offset.wrapping_add(pos));
        let ghost pos_g = pos as int;
        let b: u8;
        if text[pos] == 92 {
            let c = text[pos + 1];
            b = if c == 110 {
                10
            } else if c == 114 {
                13
            } else if c == 116 {
                9
            } else {
                c
            };
            pos = pos + 2;
        } else {
            b = text[pos];
            pos = pos + 1;
        }
        content.push(b);
        proof {
            let (rb, rm) = unesc(text@, offset, pos_g);
            let (nb, nm) = unesc(text@, offset, pos as int);
            assert(rb == seq![b] + nb && rm == seq![offset.wrapping_add(pos_g as usize)] + nm);
            assert(content@ + nb =~= content@.drop_last() + rb);
            assert(m@ + nm =~= m@.drop_last() + rm);
        }
    }
    proof {
        assert(unesc(text@, offset, pos as int).0 =~= Seq::<u8>::empty());
        assert(unesc(text@, offset, pos as int).1 =~= Seq::<usize>::empty());
        assert(content@ =~= content@ + Seq::<u8>::empty());
        assert(m@ =~= m@ + Seq::<usize>::empty());
    }
    (content, m)
}

/// Rebuilds a tree with every token offset sent through `m`.
#[verifier::loop_isolation(false)]
fn remap_tree(tt: Vec<TreeToken>, m: &Vec<usize>) -> (r: Vec<TreeToken>)
    requires
        nwf_tree(view_tree(tt@), m@.len() as int),
    ensures
        view_tree(r@) == remap_nodes(view_tree(tt@), m@, 0),
    decreases tt,
{
    let ghost v0 = view_tree(tt@);
    let mut out: Vec<TreeToken> = Vec::new();
    let mut rest = tt;
    proof {
        assert(view_tree(out@) =~= Seq::<Node>::empty());
        assert(view_tree(out@) + remap_nodes(v0, m@, 0) =~= remap_nodes(v0, m@, 0));
    }
    loop
        invariant
            nwf_tree(v0, m@.len() as int),
            rest@.len() <= v0.len(),
            view_tree(out@) + remap_nodes(v0, m@, v0.len() - rest@.len()) == remap_nodes(
                v0,
                m@,
                0,
            ),
            forall|k: int| 0 <= k < rest@.len() ==> (#[trigger] rest@[k]) == tt@[tt@.len()
                - rest@.len() + k],
        decreases rest@.len(),
    {
        let ghost i = v0.len() - rest@.len();
        if rest.len() == 0 {
            proof {
                assert(remap_nodes(v0, m@, v0.len() as int) =~= Seq::<Node>::empty());
                assert(view_tree(out@) =~= view_tree(out@) + Seq::<Node>::empty());
            }
            return out;
        }
        let ghost rest_old = rest@;
        let el = rest.remove(0);
        proof {
            assert(el == rest_old[0]);
            assert(el == tt@[i]);
            assert(view_node(el) == v0[i]);
            assert(nwf(v0[i], m@.len() as int));
            assert forall|k: int| 0 <= k < rest@.len() implies (#[trigger] rest@[k]) == tt@[
                tt@.len() - rest@.len() + k
            ] by {
                assert(rest@[k] == rest_old[k + 1]);
            }
        }
        match el {
            TreeToken::Token { type_, offset, text } => {
                out.push(TreeToken::Token { type_, offset: m[offset], text });
                proof {
                    assert(view_node(out@.last()) == remap_node(v0[i], m@));
                }
            },
            TreeToken::SubTree(sub) => {
                proof {
                    crate::token::lemma_view_node_subtree(sub);
                    assert(el == TreeToken::SubTree(sub));
                    assert(nwf(Node::SubTree(view_tree(sub@)), m@.len() as int));
                    lemma_nwf_subtree(view_tree(sub@), m@.len() as int);
                }
                let sub2 = remap_tree(sub, m);
                out.push(TreeToken::SubTree(sub2));
                proof {
                    let subv = out@.last()->SubTree_0;
                    crate::token::lemma_view_node_subtree(subv);
                    assert(view_node(out@.last()) == remap_node(v0[i], m@));
                }
            },
            TreeToken::CodeString { tt: sub, delim } => {
                proof {
                    crate::token::lemma_view_node_codestring(sub, delim);
                    assert(el == TreeToken::CodeString { tt: sub, delim });
                    assert(nwf(Node::CodeString { tt: view_tree(sub@), delim }, m@.len() as int));
                    lemma_nwf_codestring(view_tree(sub@), delim, m@.len() as int);
                }
                let sub2 = remap_tree(sub, m);
                out.push(TreeToken::CodeString { tt: sub2, delim });
                proof {
                    let subv = out@.last()->CodeString_tt;
                    crate::token::lemma_view_node_codestring(subv, delim);
                    assert(view_node(out@.last()) == remap_node(v0[i], m@));
                }
            },
        }
        proof {
            crate::token::lemma_view_tree_push(out@.drop_last(), out@.last());
            assert(out@.drop_last().push(out@.last()) =~= out@);
            assert(remap_nodes(v0, m@, i) == seq![remap_node(v0[i], m@)] + remap_nodes(
                v0,
                m@,
                i + 1,
            ));
            assert(view_tree(out@) + remap_nodes(v0, m@, i + 1) =~= remap_nodes(v0, m@, 0));
        }
    }
}


/// Builds the `CodeString` node for a string token: unescape, re-parse,
/// remap, and rewrite nested code inside.
#[verifier::loop_isolation(false)]
#[verifier::rlimit(60)]
fn make_code_string(text: Vec<u8>, offset: usize, strtok: Ghost<Node>) -> (r: TreeToken)
    requires
        strtok@ matches Node::Token { offset: o, text: t, .. } && o == offset && t == text@,
    ensures
        view_node(r) == make_cs(strtok@),
    decreases text@.len(), 0nat,
{
    let (content, m) = unescape(&text, offset);
    proof {
        lemma_unesc_size(text@, offset, 1);
        lemma_parse_st_size(content@, 0);
        lemma_parse_st_wf(content@, 0);
        lemma_remap_size(parse_st(content@, 0).0, m@, 0);
    }
    let mut off: usize = 0;
    let mut inner: Vec<TreeToken> = Vec::new();
    parse_level(&content, &mut off, &mut inner);
    proof {
        assert(view_tree(inner@) =~= parse_st(content@, 0).0);
        assert forall|k: int| 0 <= k < view_tree(inner@).len() implies nwf(
            #[trigger] view_tree(inner@)[k],
            m@.len() as int,
        ) by {
            assert(nwf(parse_st(content@, 0).0[k], content@.len() as int));
            lemma_nwf_widen(parse_st(content@, 0).0[k], content@.len() as int, m@.len() as int);
        }
    }
    let remapped = remap_tree(inner, &m);
    let delim = if text.len() > 0 {
        text[0]
    } else {
        34
    };
    if content.len() == 0 {
        let empty_v: Vec<TreeToken> = Vec::new();
        proof {
            crate::token::lemma_view_node_codestring(empty_v, delim);
            assert(view_tree(empty_v@) =~= Seq::<Node>::empty());
        }
        return TreeToken::CodeString { tt: empty_v, delim };
    }
    proof {
        assert(nodes_text_size(view_tree(remapped@), 0) < text@.len());
    }
    let rewritten = rewrite_code_strings(remapped);
    proof {
        crate::token::lemma_view_node_codestring(rewritten, delim);
    }
    TreeToken::CodeString { tt: rewritten, delim }
}

/// The nested-code rewrite: a string argument of `load`, or a string after a
/// `-- code string` comment, becomes a `CodeString` node.
#[verifier::loop_isolation(false)]
#[verifier::rlimit(60)]
pub fn rewrite_code_strings(tt: Vec<TreeToken>) -> (r: Vec<TreeToken>)
    ensures
        view_tree(r@) == rewrite_cs(view_tree(tt@), 0),
    decreases nodes_text_size(view_tree(tt@), 0), tt@.len(),
{
    let ghost v0 = view_tree(tt@);
    let mut out: Vec<TreeToken> = Vec::new();
    let mut rest = tt;
    proof {
        assert(view_tree(out@) =~= Seq::<Node>::empty());
        assert(view_tree(out@) + rewrite_cs(v0, 0) =~= rewrite_cs(v0, 0));
    }
    loop
        invariant
            rest@.len() <= v0.len(),
            view_tree(out@) + rewrite_cs(v0, v0.len() - rest@.len()) == rewrite_cs(v0, 0),
            forall|k: int| 0 <= k < rest@.len() ==> (#[trigger] rest@[k]) == tt@[tt@.len()
                - rest@.len() + k],
        decreases rest@.len(),
    {
        let ghost i = v0.len() - rest@.len();
        if rest.len() == 0 {
            proof {
                assert(rewrite_cs(v0, v0.len() as int) =~= Seq::<Node>::empty());
                assert(view_tree(out@) =~= view_tree(out@) + Seq::<Node>::empty());
            }
            return out;
        }
        let is_load = match &rest[0] {
            TreeToken::Token { type_, text, .. } => *type_ == TokenType::Identifier && bytes_eq(
                text.as_slice(),
                &[108, 111, 97, 100],
            ),
            _ => false,
        };
        let is_cs_marker = match &rest[0] {
            TreeToken::Token { type_, text, .. } => *type_ == TokenType::Comment
                && is_cs_comment_x(text.as_slice()),
            _ => false,
        };
        let next_is_str = rest.len() >= 2 && match &rest[1] {
            TreeToken::Token { type_, .. } => *type_ == TokenType::Str,
            _ => false,
        };
        let ghost rest_old = rest@;
        proof {
            assert(rest_old[0] == tt@[i]);
            assert(view_node(rest_old[0]) == v0[i]);
            if rest_old.len() >= 2 {
                assert(rest_old[1] == tt@[i + 1]);
                assert(view_node(rest_old[1]) == v0[i + 1]);
            }
        }
        if (is_load || is_cs_marker) && next_is_str {
            let first = rest.remove(0);
            let strtok = rest.remove(0);
            proof {
                assert(first == rest_old[0]);
                assert(strtok == rest_old[1]);
                lemma_make_cs_decreases(v0, i);
                assert forall|k: int| 0 <= k < rest@.len() implies (#[trigger] rest@[k]) == tt@[
                    tt@.len() - rest@.len() + k
                ] by {
                    assert(rest@[k] == rest_old[k + 2]);
                }
            }
            let (stext, soff) = match strtok {
                TreeToken::Token { text, offset, .. } => (text, offset),
                _ => {
                    proof {
                        assert(false);
                    }
                    (Vec::new(), 0)
                },
            };
            proof {
                assert(view_node(strtok) == v0[i + 1]);
                assert(v0[i + 1] matches Node::Token { offset: o, text: t, .. } && o == soff
                    && t == stext@);
            }
            let cs = make_code_string(stext, soff, Ghost(v0[i + 1]));
            if is_load {
                out.push(first);
                proof {
                    crate::token::lemma_view_tree_push(out@.drop_last(), out@.last());
                    assert(out@.drop_last().push(out@.last()) =~= out@);
                }
            }
            out.push(cs);
            proof {
                crate::token::lemma_view_tree_push(out@.drop_last(), out@.last());
                assert(out@.drop_last().push(out@.last()) =~= out@);
                assert(view_tree(out@) + rewrite_cs(v0, i + 2) =~= rewrite_cs(v0, 0));
            }
        } else {
            let first = rest.remove(0);
            proof {
                assert(first == rest_old[0]);
                assert forall|k: int| 0 <= k < rest@.len() implies (#[trigger] rest@[k]) == tt@[
                    tt@.len() - rest@.len() + k
                ] by {
                    assert(rest@[k] == rest_old[k + 1]);
                }
            }
            out.push(first);
            proof {
                crate::token::lemma_view_tree_push(out@.drop_last(), out@.last());
                assert(out@.drop_last().push(out@.last()) =~= out@);
                assert(view_tree(out@) + rewrite_cs(v0, i + 1) =~= rewrite_cs(v0, 0));
            }
        }
    }
}

/// Whether a comment text marks the following string as code.
fn is_cs_comment_x(text: &[u8]) -> (r: bool)
    ensures
        r == cs_comment(text@),
{
    if text.len() < 2 || text[0] != 45 || text[1] != 45 {
        return false;
    }
    let j = crate::tokenizer::scan_space(text, 2);
    if text.len() < 4 || j > text.len() - 4 {
        return false;
    }
    if !(text[j] == 99 && text[j + 1] == 111 && text[j + 2] == 100 && text[j + 3] == 101) {
        proof {
            assert(text@.subrange(j as int, j + 4) != seq![99u8, 111, 100, 101]) by {
                if text@.subrange(j as int, j + 4) == seq![99u8, 111, 100, 101] {
                    assert(text@.subrange(j as int, j + 4)[0] == 99);
                }
            }
        }
        return false;
    }
    proof {
        assert(text@.subrange(j as int, j + 4) =~= seq![99u8, 111, 100, 101]);
    }
    let l = crate::tokenizer::scan_space(text, j + 4);
    if l == j + 4 {
        return false;
    }
    if text.len() < 6 || l > text.len() - 6 {
        return false;
    }
    if text[l] == 115 && text[l + 1] == 116 && text[l + 2] == 114 && text[l + 3] == 105 && text[l
        + 4] == 110 && text[l + 5] == 103 {
        proof {
            assert(text@.subrange(l as int, l + 6) =~= seq![115u8, 116, 114, 105, 110, 103]);
        }
        true
    } else {
        proof {
            assert(text@.subrange(l as int, l + 6) != seq![115u8, 116, 114, 105, 110, 103]) by {
                if text@.subrange(l as int, l + 6) == seq![115u8, 116, 114, 105, 110, 103] {
                    assert(text@.subrange(l as int, l + 6)[0] == 115);
                }
            }
        }
        false
    }
}

/// Parses a whole program: the token tree with nested code strings resolved.
pub fn parse(code: &[u8]) -> (r: Vec<TreeToken>)
    ensures
        view_tree(r@) == tokenise(code@),
{
    let mut offset: usize = 0;
    let mut tt: Vec<TreeToken> = Vec::new();
    parse_level(code, &mut offset, &mut tt);
    proof {
        assert(view_tree(tt@) =~= parse_st(code@, 0).0);
    }
    rewrite_code_strings(tt)
}

} // verus!
