use sexpr::lexer::Token;
use sexpr::strict::{parse_strict, ParseError};
use sexpr::tree::{source, TokenTree};

fn leaf(t: Token) -> TokenTree {
    TokenTree::Token(t)
}

#[test]
fn test_strict_accepts_clean_input() {
    assert_eq!(
        parse_strict("(a b)"),
        Ok(TokenTree::Tree(vec![TokenTree::Tree(vec![
            leaf(Token::Ident("a")),
            leaf(Token::Ident("b")),
        ])]))
    );
}

#[test]
fn test_strict_agrees_with_silent_on_clean_input() {
    let s = "( x 1 ) y";
    let (_, silent) = source(s, 0);
    assert_eq!(parse_strict(s), Ok(silent));
}

#[test]
fn test_strict_empty_and_trailing_spaces() {
    assert_eq!(parse_strict(""), Ok(TokenTree::Tree(vec![])));
    assert_eq!(
        parse_strict("a  "),
        Ok(TokenTree::Tree(vec![leaf(Token::Ident("a"))]))
    );
}

#[test]
fn test_strict_malformed_number() {
    assert_eq!(parse_strict("a 1.2.3"), Err(ParseError::MalformedNumber(2)));
}

#[test]
fn test_strict_unexpected_char() {
    assert_eq!(parse_strict("a !"), Err(ParseError::UnexpectedChar(2)));
}

#[test]
fn test_strict_unbalanced_close() {
    assert_eq!(parse_strict("a) b"), Err(ParseError::UnbalancedClose(1)));
}

#[test]
fn test_strict_unterminated_group() {
    // the outermost group left open is the one reported
    assert_eq!(parse_strict("(a (b)"), Err(ParseError::UnterminatedGroup(0)));
    assert_eq!(parse_strict("a ("), Err(ParseError::UnterminatedGroup(2)));
}
