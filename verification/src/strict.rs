//! The strict mode: the same grammar as the silent builder, but each of the
//! four malformed-input cases is reported as a distinct error carrying the
//! offending position, instead of silently ending a group.

use vstd::prelude::*;
use crate::lexer::{
    is_number_start, lemma_spec_token_bounds, spec_token, token, Token, TokenModel,
};
use crate::tree::{chars_left, spec_source, views_of, TokenTree, TreeModel};

verus! {

/// What strict parsing reports, with the character position at fault.
#[derive(Debug, PartialEq, Eq)]
pub enum ParseError {
    /// A numeric literal began here but its text stands for no float value.
    MalformedNumber(usize),
    /// No lexical category matches the character here.
    UnexpectedChar(usize),
    /// A close parenthesis here closes a group that was never opened.
    UnbalancedClose(usize),
    /// The group opened here is still open at the end of the input.
    UnterminatedGroup(usize),
}

/// The mathematical shape of a strict-mode error.
pub enum ErrorModel {
    MalformedNumber(int),
    UnexpectedChar(int),
    UnbalancedClose(int),
    UnterminatedGroup(int),
}

impl View for ParseError {
    type V = ErrorModel;

    open spec fn view(&self) -> ErrorModel {
        match self {
            ParseError::MalformedNumber(p) => ErrorModel::MalformedNumber(*p as int),
            ParseError::UnexpectedChar(p) => ErrorModel::UnexpectedChar(*p as int),
            ParseError::UnbalancedClose(p) => ErrorModel::UnbalancedClose(*p as int),
            ParseError::UnterminatedGroup(p) => ErrorModel::UnterminatedGroup(*p as int),
        }
    }
}

/// The position a group was opened at, if the level being built is nested.
pub open spec fn opt_pos_view(o: Option<usize>) -> Option<int> {
    match o {
        Some(p) => Some(p as int),
        None => None,
    }
}

/// What strict building makes of the input from `pos` on, `open` holding
/// the position of the unclosed parenthesis of the level being built: the
/// characters consumed and the children accumulated, or the first error.
pub open spec fn spec_strict(s: Seq<char>, pos: int, open: Option<int>) -> Result<
    (nat, Seq<TreeModel>),
    ErrorModel,
>
    decreases chars_left(s, pos),
{
    if !(0 <= pos < s.len()) {
        match open {
            None => Ok((0, Seq::<TreeModel>::empty())),
            Some(op) => Err(ErrorModel::UnterminatedGroup(op)),
        }
    } else {
        let (tp, tok) = spec_token(s, pos);
        match tok {
            None => {
                if tp < s.len() {
                    if is_number_start(s[tp]) {
                        Err(ErrorModel::MalformedNumber(tp))
                    } else {
                        Err(ErrorModel::UnexpectedChar(tp))
                    }
                } else {
                    match open {
                        None => Ok(((tp - pos) as nat, Seq::<TreeModel>::empty())),
                        Some(op) => Err(ErrorModel::UnterminatedGroup(op)),
                    }
                }
            },
            Some(TokenModel::LParen) => {
                match spec_strict(s, tp, Some(tp - 1)) {
                    Err(e) => Err(e),
                    Ok((n1, inner)) => match spec_strict(s, tp + n1, open) {
                        Err(e) => Err(e),
                        Ok((n2, rest)) => Ok(
                            (((tp - pos) + n1 + n2) as nat, seq![TreeModel::Node(inner)] + rest),
                        ),
                    },
                }
            },
            Some(TokenModel::RParen) => {
                match open {
                    Some(_) => Ok(((tp - pos) as nat, Seq::<TreeModel>::empty())),
                    None => Err(ErrorModel::UnbalancedClose(tp - 1)),
                }
            },
            Some(t) => {
                match spec_strict(s, tp, open) {
                    Err(e) => Err(e),
                    Ok((n2, rest)) => Ok(
                        (((tp - pos) + n2) as nat, seq![TreeModel::Leaf(t)] + rest),
                    ),
                }
            },
        }
    }
}

/// Builds one group strictly from the cursor on; `open` is the position of
/// the parenthesis that opened this level, if any.
pub fn source_strict<'src>(input: &'src str, pos: usize, open: Option<usize>) -> (r: Result<
    (usize, TokenTree<'src>),
    ParseError,
>)
    requires
        pos as int <= input@.len(),
    ensures
        ({
            let sr = spec_strict(input@, pos as int, opt_pos_view(open));
            match r {
                Ok((p, tt)) => {
                    &&& sr is Ok
                    &&& p == pos + sr->Ok_0.0
                    &&& p as int <= input@.len()
                    &&& tt@ == TreeModel::Node(sr->Ok_0.1)
                },
                Err(e) => sr == Err::<(nat, Seq<TreeModel>), ErrorModel>(e@),
            }
        }),
    decreases input@.len() - pos,
{
    let ghost s = input@;
    let ghost opv = opt_pos_view(open);
    let mut tokens: Vec<TokenTree<'src>> = Vec::new();
    let mut cur: usize = pos;
    loop
        invariant
            pos <= cur,
            cur as int <= s.len(),
            s == input@,
            opv == opt_pos_view(open),
            pos as int <= s.len(),
            (match spec_strict(s, cur as int, opv) {
                Ok((n2, rest)) => spec_strict(s, pos as int, opv) == Ok::<_, ErrorModel>(
                    (((cur - pos) + n2) as nat, views_of(tokens@) + rest),
                ),
                Err(e) => spec_strict(s, pos as int, opv) == Err::<(nat, Seq<TreeModel>), _>(e),
            }),
        decreases s.len() - cur,
    {
        let len: usize = input.unicode_len();
        if cur >= len {
            proof {
                assert(views_of(tokens@) + Seq::<TreeModel>::empty() =~= views_of(tokens@));
                assert(TokenTree::Tree(tokens)@ matches TreeModel::Node(cs) && cs =~= views_of(
                    tokens@,
                ));
            }
            match open {
                None => {
                    return Ok((cur, TokenTree::Tree(tokens)));
                },
                Some(op) => {
                    return Err(ParseError::UnterminatedGroup(op));
                },
            }
        }
        let (tp, tok) = token(input, cur);
        match tok {
            None => {
                if tp < len {
                    let c = input.get_char(tp);
                    if c == '+' || c == '-' || c == '.' || ('0' <= c && c <= '9') {
                        return Err(ParseError::MalformedNumber(tp));
                    } else {
                        return Err(ParseError::UnexpectedChar(tp));
                    }
                } else {
                    proof {
                        assert(views_of(tokens@) + Seq::<TreeModel>::empty() =~= views_of(
                            tokens@,
                        ));
                        assert(TokenTree::Tree(tokens)@ matches TreeModel::Node(cs) && cs
                            =~= views_of(tokens@));
                    }
                    match open {
                        None => {
                            return Ok((tp, TokenTree::Tree(tokens)));
                        },
                        Some(op) => {
                            return Err(ParseError::UnterminatedGroup(op));
                        },
                    }
                }
            },
            Some(Token::LParen) => {
                let ghost cur0 = cur as int;
                match source_strict(input, tp, Some(tp - 1)) {
                    Err(e) => {
                        return Err(e);
                    },
                    Ok((p2, tt)) => {
                        proof {
                            let inner = spec_strict(s, tp as int, Some(tp - 1 as int))->Ok_0.1;
                            let n1 = spec_strict(s, tp as int, Some(tp - 1 as int))->Ok_0.0;
                            if spec_strict(s, tp + n1, opv) is Ok {
                                let rest = spec_strict(s, tp + n1, opv)->Ok_0.1;
                                assert(views_of(tokens@.push(tt)) =~= views_of(tokens@) + seq![
                                    TreeModel::Node(inner),
                                ]);
                                assert((views_of(tokens@) + (seq![TreeModel::Node(inner)] + rest))
                                    =~= (views_of(tokens@) + seq![TreeModel::Node(inner)]) + rest);
                            }
                        }
                        tokens.push(tt);
                        cur = p2;
                    },
                }
            },
            Some(Token::RParen) => {
                match open {
                    Some(_) => {
                        proof {
                            assert(views_of(tokens@) + Seq::<TreeModel>::empty() =~= views_of(
                                tokens@,
                            ));
                            assert(TokenTree::Tree(tokens)@ matches TreeModel::Node(cs) && cs
                                =~= views_of(tokens@));
                        }
                        return Ok((tp, TokenTree::Tree(tokens)));
                    },
                    None => {
                        return Err(ParseError::UnbalancedClose(tp - 1));
                    },
                }
            },
            Some(t) => {
                proof {
                    if spec_strict(s, tp as int, opv) is Ok {
                        let rest = spec_strict(s, tp as int, opv)->Ok_0.1;
                        assert(views_of(tokens@.push(TokenTree::Token(t))) =~= views_of(tokens@)
                            + seq![TreeModel::Leaf(t@)]);
                        assert((views_of(tokens@) + (seq![TreeModel::Leaf(t@)] + rest)) =~= (
                        views_of(tokens@) + seq![TreeModel::Leaf(t@)]) + rest);
                    }
                }
                tokens.push(TokenTree::Token(t));
                cur = tp;
            },
        }
    }
}

/// Parses a whole source strictly: the tree on clean input, and otherwise
/// the error for the first of the four malformed-input cases hit.
pub fn parse_strict<'src>(input: &'src str) -> (r: Result<TokenTree<'src>, ParseError>)
    ensures
        ({
            let sr = spec_strict(input@, 0, None);
            match r {
                Ok(tt) => sr is Ok && tt@ == TreeModel::Node(sr->Ok_0.1),
                Err(e) => sr == Err::<(nat, Seq<TreeModel>), ErrorModel>(e@),
            }
        }),
{
    match source_strict(input, 0, None) {
        Ok((_, tt)) => Ok(tt),
        Err(e) => Err(e),
    }
}


/// Strictness changes no accepted parse: when the strict mode accepts a
/// source, it consumes the same characters and builds the very tree that
/// the silent mode builds.
pub proof fn lemma_strict_agrees_with_silent(s: Seq<char>, pos: int, open: Option<int>)
    requires
        0 <= pos <= s.len(),
        spec_strict(s, pos, open) is Ok,
    ensures
        spec_strict(s, pos, open)->Ok_0 == spec_source(s, pos),
    decreases chars_left(s, pos),
{
    if 0 <= pos < s.len() {
        lemma_spec_token_bounds(s, pos);
        let (tp, tok) = spec_token(s, pos);
        match tok {
            None => {
            },
            Some(TokenModel::LParen) => {
                lemma_strict_agrees_with_silent(s, tp, Some(tp - 1));
                let n1 = spec_strict(s, tp, Some(tp - 1))->Ok_0.0;
                crate::tree::lemma_spec_source_in_bounds(s, tp);
                lemma_strict_agrees_with_silent(s, tp + n1, open);
            },
            Some(TokenModel::RParen) => {
            },
            Some(t) => {
                lemma_strict_agrees_with_silent(s, tp, open);
            },
        }
    }
}

} // verus!
