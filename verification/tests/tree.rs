use sexpr::lexer::Token;
use sexpr::tree::{source, TokenTree};

fn leaf(t: Token) -> TokenTree {
    TokenTree::Token(t)
}

fn count_leaves(t: &TokenTree) -> usize {
    match t {
        TokenTree::Token(_) => 1,
        TokenTree::Tree(v) => v.iter().map(count_leaves).sum(),
    }
}

fn depth(t: &TokenTree) -> usize {
    match t {
        TokenTree::Token(_) => 0,
        TokenTree::Tree(v) => 1 + v.iter().map(depth).max().unwrap_or(0),
    }
}

#[test]
fn test_flat_idents() {
    let (rest, tt) = source("Hello world", 0);
    assert_eq!(rest, 11);
    assert_eq!(
        tt,
        TokenTree::Tree(vec![leaf(Token::Ident("Hello")), leaf(Token::Ident("world"))])
    );
}

#[test]
fn test_group_of_numbers_and_ident() {
    let (rest, tt) = source("(123  456 world)", 0);
    assert_eq!(rest, 16);
    assert_eq!(
        tt,
        TokenTree::Tree(vec![TokenTree::Tree(vec![
            leaf(Token::Number("123")),
            leaf(Token::Number("456")),
            leaf(Token::Ident("world")),
        ])])
    );
    // the captured texts stand for the expected float values
    assert_eq!("123".parse::<f64>().unwrap(), 123.0);
    assert_eq!("456".parse::<f64>().unwrap(), 456.0);
}

#[test]
fn test_group_then_ident() {
    let (rest, tt) = source("(123  456 ) world", 0);
    assert_eq!(rest, 17);
    assert_eq!(
        tt,
        TokenTree::Tree(vec![
            TokenTree::Tree(vec![leaf(Token::Number("123")), leaf(Token::Number("456"))]),
            leaf(Token::Ident("world")),
        ])
    );
}

#[test]
fn test_nested_groups() {
    let (rest, tt) = source("((car cdr) cdr)", 0);
    assert_eq!(rest, 15);
    assert_eq!(
        tt,
        TokenTree::Tree(vec![TokenTree::Tree(vec![
            TokenTree::Tree(vec![leaf(Token::Ident("car")), leaf(Token::Ident("cdr"))]),
            leaf(Token::Ident("cdr")),
        ])])
    );
}

#[test]
fn test_unbalanced_terminates() {
    // deliberately unbalanced input: parsing completes without faulting
    let s = "()())))((()))";
    let (rest, _tt) = source(s, 0);
    assert!(rest <= s.chars().count());
}

#[test]
fn test_whitespace_runs_do_not_change_tree() {
    let (_, a) = source("a (b  1)", 0);
    let (_, b) = source("  a   (b 1)  ", 0);
    assert_eq!(a, b);
}

#[test]
fn test_leaf_count_and_depth_on_balanced_input() {
    let (rest, tt) = source("(a (b c) 2)", 0);
    assert_eq!(rest, 11);
    // four identifier or number units, nested two parentheses deep
    assert_eq!(count_leaves(&tt), 4);
    assert_eq!(depth(&tt), 1 + 2);
}

#[test]
fn test_identifier_text_is_kept_exactly() {
    let (_, tt) = source("x1 Y2z", 0);
    assert_eq!(
        tt,
        TokenTree::Tree(vec![leaf(Token::Ident("x1")), leaf(Token::Ident("Y2z"))])
    );
}

#[test]
fn test_stray_character_stops_the_group() {
    let (rest, tt) = source("a ! b", 0);
    assert_eq!(rest, 2);
    assert_eq!(tt, TokenTree::Tree(vec![leaf(Token::Ident("a"))]));
}

#[test]
fn test_rejected_number_stops_the_group() {
    let (rest, tt) = source("a 1.2.3", 0);
    assert_eq!(rest, 2);
    assert_eq!(tt, TokenTree::Tree(vec![leaf(Token::Ident("a"))]));
}

#[test]
fn test_extra_close_ends_the_top_group() {
    let (rest, tt) = source(") a", 0);
    assert_eq!(rest, 1);
    assert_eq!(tt, TokenTree::Tree(vec![]));
}

#[test]
fn test_unterminated_group_closes_at_end() {
    let (rest, tt) = source("(a", 0);
    assert_eq!(rest, 2);
    assert_eq!(
        tt,
        TokenTree::Tree(vec![TokenTree::Tree(vec![leaf(Token::Ident("a"))])])
    );
}

#[test]
fn test_empty_input() {
    let (rest, tt) = source("", 0);
    assert_eq!(rest, 0);
    assert_eq!(tt, TokenTree::Tree(vec![]));
}

#[test]
fn test_deep_nesting() {
    let (rest, tt) = source("((((x))))", 0);
    assert_eq!(rest, 9);
    assert_eq!(count_leaves(&tt), 1);
    assert_eq!(depth(&tt), 1 + 4);
}
