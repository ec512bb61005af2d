//! The token tree produced by the tokeniser.
//!
//! A tree is an ordered sequence of nodes: plain tokens, sub-trees opened by
//! `function`/`do`/`if` and closed by `end`, and code strings whose content is
//! itself a token tree parsed from a quoted string.

use vstd::prelude::*;

verus! {

/// Kind of a single token.
#[derive(PartialEq, Eq, Structural, Debug, Clone, Copy)]
pub enum TokenType {
    Comment,
    Identifier,
    Number,
    HexNumber,
    Str,
    Eof,
    Other,
}

/// One node of a token tree.
#[derive(Debug)]
pub enum TreeToken {
    Token { type_: TokenType, offset: usize, text: Vec<u8> },
    SubTree(Vec<TreeToken>),
    CodeString { tt: Vec<TreeToken>, delim: u8 },
}

pub type TokenTree = Vec<TreeToken>;

impl TreeToken {
    /// The token's raw bytes; empty for structural nodes.
    pub fn text(&self) -> (r: &[u8])
        ensures
            r@ == self.spec_text(),
    {
        if let TreeToken::Token { text, .. } = self {
            text.as_slice()
        } else {
            &[]
        }
    }

    pub open spec fn spec_text(&self) -> Seq<u8> {
        match self {
            TreeToken::Token { text, .. } => text@,
            _ => Seq::empty(),
        }
    }
}

/// The mathematical mirror of a tree node: texts as sequences. Contracts and
/// models speak of `Node`s; `view_node` relates the executable tree to them.
pub enum Node {
    Token { type_: TokenType, offset: usize, text: Seq<u8> },
    SubTree(Seq<Node>),
    CodeString { tt: Seq<Node>, delim: u8 },
}

pub open spec fn view_node(t: TreeToken) -> Node
    decreases t,
{
    match t {
        TreeToken::Token { type_, offset, text } => Node::Token { type_, offset, text: text@ },
        TreeToken::SubTree(sub) => Node::SubTree(
            Seq::new(
                sub@.len(),
                |i: int|
                    if 0 <= i < sub@.len() {
                        view_node(sub@[i])
                    } else {
                        Node::SubTree(Seq::empty())
                    },
            ),
        ),
        TreeToken::CodeString { tt: sub, delim } => Node::CodeString {
            tt: Seq::new(
                sub@.len(),
                |i: int|
                    if 0 <= i < sub@.len() {
                        view_node(sub@[i])
                    } else {
                        Node::SubTree(Seq::empty())
                    },
            ),
            delim,
        },
    }
}

/// The view of a sub-tree is the view of its elements.
pub proof fn lemma_view_node_subtree(sub: Vec<TreeToken>)
    ensures
        view_node(TreeToken::SubTree(sub)) == Node::SubTree(view_tree(sub@)),
{
    assert(view_node(TreeToken::SubTree(sub)) ->
        SubTree_0 =~= view_tree(sub@));
}

pub proof fn lemma_view_node_codestring(sub: Vec<TreeToken>, delim: u8)
    ensures
        view_node(TreeToken::CodeString { tt: sub, delim }) == (Node::CodeString {
            tt: view_tree(sub@),
            delim,
        }),
{
    assert(view_node(TreeToken::CodeString { tt: sub, delim }) ->
        CodeString_tt =~= view_tree(sub@));
}

pub open spec fn view_tree(tt: Seq<TreeToken>) -> Seq<Node> {
    Seq::new(tt.len(), |i: int| view_node(tt[i]))
}

pub proof fn lemma_view_tree_push(tt: Seq<TreeToken>, t: TreeToken)
    ensures
        view_tree(tt.push(t)) == view_tree(tt).push(view_node(t)),
{
    assert(view_tree(tt.push(t)) =~= view_tree(tt).push(view_node(t)));
}

/// Total length of the token texts under a node sequence.
pub open spec fn nodes_text_size(tt: Seq<Node>, i: int) -> nat
    decreases tt, tt.len() - i,
{
    if i < 0 || i >= tt.len() {
        0
    } else {
        node_size(tt[i]) + nodes_text_size(tt, i + 1)
    }
}

pub open spec fn node_size(t: Node) -> nat
    decreases t, 0nat,
{
    match t {
        Node::Token { text, .. } => text.len(),
        Node::SubTree(sub) => nodes_text_size(sub, 0),
        Node::CodeString { tt: sub, .. } => nodes_text_size(sub, 0),
    }
}

} // verus!
