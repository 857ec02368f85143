//! The tree builder: drives the lexer and turns balanced parenthesis groups
//! into nested containers, identifiers and numbers into leaves.
//!
//! Malformed input never raises an error: an unmatched character or a stray
//! close-parenthesis merely ends the group being built, and a group left
//! open closes implicitly at the end of the input.

use vstd::prelude::*;
use crate::lexer::{lemma_trim_idempotent, space_run, spec_token, token, Token, TokenModel};

verus! {

broadcast use vstd::std_specs::vec::group_vec_axioms;

/// One node of the parse result: a leaf wrapping a single lexical unit, or
/// a group holding its children in source order.
#[derive(Debug, PartialEq)]
pub enum TokenTree<'src> {
    Token(Token<'src>),
    Tree(Vec<TokenTree<'src>>),
}

/// The mathematical shape of a tree node.
pub enum TreeModel {
    Leaf(TokenModel),
    Node(Seq<TreeModel>),
}

impl<'src> View for TokenTree<'src> {
    type V = TreeModel;

    open spec fn view(&self) -> TreeModel
        decreases self,
    {
        match self {
            TokenTree::Token(t) => TreeModel::Leaf(t@),
            TokenTree::Tree(v) => TreeModel::Node(
                Seq::new(
                    v@.len(),
                    |i: int|
                        if 0 <= i < v@.len() {
                            v[i].view()
                        } else {
                            TreeModel::Node(Seq::<TreeModel>::empty())
                        },
                ),
            ),
        }
    }
}

/// The views of a sequence of built nodes, in order.
pub open spec fn views_of(v: Seq<TokenTree>) -> Seq<TreeModel> {
    Seq::new(v.len(), |i: int| v[i]@)
}

/// How many characters are still unread; zero once the cursor is past the end.
pub open spec fn chars_left(s: Seq<char>, pos: int) -> int {
    if pos <= s.len() {
        s.len() - pos
    } else {
        0
    }
}

/// What the builder makes of the input from `pos` on: the count of
/// characters it consumes, and the children of the group it accumulates.
///
/// A leaf token extends the current group; an open parenthesis starts an
/// inner group, built by recursion, and the level resumes after it; a close
/// parenthesis is consumed and ends the level, as does a position where no
/// token matches (its trailing spaces are still consumed) or the end of the
/// input.
pub open spec fn spec_source(s: Seq<char>, pos: int) -> (nat, Seq<TreeModel>)
    decreases chars_left(s, pos),
{
    if !(0 <= pos < s.len()) {
        (0, Seq::<TreeModel>::empty())
    } else {
        let (tp, tok) = spec_token(s, pos);
        match tok {
            None => ((tp - pos) as nat, Seq::<TreeModel>::empty()),
            Some(TokenModel::LParen) => {
                let (n1, inner) = spec_source(s, tp);
                let (n2, rest) = spec_source(s, tp + n1);
                (((tp - pos) + n1 + n2) as nat, seq![TreeModel::Node(inner)] + rest)
            },
            Some(TokenModel::RParen) => ((tp - pos) as nat, Seq::<TreeModel>::empty()),
            Some(t) => {
                let (n2, rest) = spec_source(s, tp);
                (((tp - pos) + n2) as nat, seq![TreeModel::Leaf(t)] + rest)
            },
        }
    }
}

/// Builds one group from the cursor on, returning the cursor after what was
/// consumed and the group itself.
pub fn source<'src>(input: &'src str, pos: usize) -> (r: (usize, TokenTree<'src>))
    requires
        pos as int <= input@.len(),
    ensures
        r.0 as int == pos + spec_source(input@, pos as int).0,
        pos <= r.0,
        r.0 as int <= input@.len(),
        r.1@ == TreeModel::Node(spec_source(input@, pos as int).1),
    decreases input@.len() - pos,
{
    let ghost s = input@;
    let mut tokens: Vec<TokenTree<'src>> = Vec::new();
    let mut cur: usize = pos;
    loop
        invariant
            pos <= cur,
            cur as int <= s.len(),
            s == input@,
            pos as int <= s.len(),
            spec_source(s, pos as int).0 == (cur - pos) + spec_source(s, cur as int).0,
            spec_source(s, pos as int).1 =~= views_of(tokens@) + spec_source(s, cur as int).1,
        ensures
            pos <= cur,
            cur as int <= s.len(),
            s == input@,
            spec_source(s, pos as int).0 == cur - pos,
            spec_source(s, pos as int).1 =~= views_of(tokens@),
        decreases s.len() - cur,
    {
        let len: usize = input.unicode_len();
        if cur >= len {
            proof {
                assert(spec_source(s, cur as int).1 =~= Seq::<TreeModel>::empty());
                assert(views_of(tokens@) + Seq::<TreeModel>::empty() =~= views_of(tokens@));
            }
            break;
        }
        let (tp, tok) = token(input, cur);
        match tok {
            None => {
                proof {
                    lemma_trim_idempotent(s, cur as int);
                    assert(space_run(s, tp as int) == 0);
                    assert(spec_source(s, tp as int).0 == 0);
                    assert(spec_source(s, tp as int).1 =~= Seq::<TreeModel>::empty());
                    assert(views_of(tokens@) + Seq::<TreeModel>::empty() =~= views_of(tokens@));
                }
                cur = tp;
                break;
            },
            Some(Token::LParen) => {
                let ghost cur0 = cur as int;
                let (p2, tt) = source(input, tp);
                proof {
                    let (n1, inner) = spec_source(s, tp as int);
                    let (n2, rest) = spec_source(s, tp + n1);
                    assert(spec_source(s, cur0).0 == (tp - cur0) + n1 + n2);
                    assert(spec_source(s, cur0).1 == seq![TreeModel::Node(inner)] + rest);
                    assert(views_of(tokens@.push(tt)) =~= views_of(tokens@) + seq![
                        TreeModel::Node(inner),
                    ]);
                    assert((views_of(tokens@) + (seq![TreeModel::Node(inner)] + rest)) =~= (
                    views_of(tokens@) + seq![TreeModel::Node(inner)]) + rest);
                }
                tokens.push(tt);
                cur = p2;
            },
            Some(Token::RParen) => {
                proof {
                    assert(spec_source(s, cur as int).1 =~= Seq::<TreeModel>::empty());
                    assert(spec_source(s, pos as int).1 =~= views_of(tokens@));
                    assert(TokenTree::Tree(tokens)@ matches TreeModel::Node(cs) && cs =~= views_of(
                        tokens@,
                    ));
                }
                return (tp, TokenTree::Tree(tokens));
            },
            Some(t) => {
                proof {
                    let (n2, rest) = spec_source(s, tp as int);
                    assert(spec_source(s, cur as int).1 == seq![TreeModel::Leaf(t@)] + rest);
                    assert(views_of(tokens@.push(TokenTree::Token(t))) =~= views_of(tokens@)
                        + seq![TreeModel::Leaf(t@)]);
                    assert((views_of(tokens@) + (seq![TreeModel::Leaf(t@)] + rest)) =~= (views_of(
                        tokens@,
                    ) + seq![TreeModel::Leaf(t@)]) + rest);
                }
                tokens.push(TokenTree::Token(t));
                cur = tp;
            },
        }
    }
    proof {
        assert(TokenTree::Tree(tokens)@ matches TreeModel::Node(cs) && cs =~= views_of(tokens@));
    }
    (cur, TokenTree::Tree(tokens))
}

/// The builder never consumes past the end of the input.
pub proof fn lemma_spec_source_in_bounds(s: Seq<char>, pos: int)
    requires
        0 <= pos <= s.len(),
    ensures
        pos + spec_source(s, pos).0 <= s.len(),
    decreases chars_left(s, pos),
{
    if pos < s.len() {
        crate::lexer::lemma_spec_token_bounds(s, pos);
        let (tp, tok) = spec_token(s, pos);
        match tok {
            None => {
            },
            Some(TokenModel::LParen) => {
                lemma_spec_source_in_bounds(s, tp);
                lemma_spec_source_in_bounds(s, tp + spec_source(s, tp).0);
            },
            Some(TokenModel::RParen) => {
            },
            Some(t) => {
                lemma_spec_source_in_bounds(s, tp);
            },
        }
    }
}

} // verus!
