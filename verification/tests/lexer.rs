use sexpr::lexer::{advance_char, ident, lparen, number, peek_char, rparen, token, whitespace, Token};

#[test]
fn test_whitespace() {
    // the whole run of spaces is consumed
    assert_eq!(whitespace("    ", 0), 4);
}

#[test]
fn test_ident() {
    assert_eq!(ident("Adam", 0), Some((4, Token::Ident("Adam"))));
}

#[test]
fn test_number() {
    let r = number("123.45 ", 0);
    assert_eq!(r, Some((6, Token::Number("123.45"))));
    match r {
        Some((_, Token::Number(text))) => {
            assert_eq!(text.parse::<f64>().unwrap(), 123.45);
        }
        _ => panic!("expected a number"),
    }
}

#[test]
fn test_peek_and_advance() {
    assert_eq!(peek_char("ab", 0), Some('a'));
    assert_eq!(peek_char("ab", 1), Some('b'));
    assert_eq!(peek_char("ab", 2), None);
    assert_eq!(peek_char("", 0), None);
    assert_eq!(advance_char("ab", 0), 1);
    // advancing an empty remainder leaves it as it is
    assert_eq!(advance_char("ab", 2), 2);
    assert_eq!(advance_char("", 0), 0);
}

#[test]
fn test_whitespace_stops_at_nonspace() {
    assert_eq!(whitespace("  x ", 0), 2);
    assert_eq!(whitespace("x", 0), 0);
    assert_eq!(whitespace("", 0), 0);
}

#[test]
fn test_ident_takes_letters_and_digits() {
    assert_eq!(ident("a1b2 x", 0), Some((4, Token::Ident("a1b2"))));
    assert_eq!(ident("Zz9", 0), Some((3, Token::Ident("Zz9"))));
    // a digit cannot open an identifier
    assert_eq!(ident("1abc", 0), None);
    assert_eq!(ident("", 0), None);
}

#[test]
fn test_number_signs_and_dot() {
    let r = number("-3", 0);
    assert_eq!(r, Some((2, Token::Number("-3"))));
    if let Some((_, Token::Number(text))) = r {
        assert_eq!(text.parse::<f64>().unwrap(), -3.0);
    }
    let r = number("+.5", 0);
    assert_eq!(r, Some((3, Token::Number("+.5"))));
    if let Some((_, Token::Number(text))) = r {
        assert_eq!(text.parse::<f64>().unwrap(), 0.5);
    }
    let r = number("123.45", 0);
    assert_eq!(r, Some((6, Token::Number("123.45"))));
}

#[test]
fn test_number_fails_open_on_bad_literal() {
    // two dots: the captured text is no float literal, so the category fails
    assert_eq!(number("1.2.3", 0), None);
    assert_eq!(number(".", 0), None);
    assert_eq!(number("+", 0), None);
    assert_eq!(number("-.", 0), None);
    // a bare sign before a letter is no number either
    assert_eq!(number("-x", 0), None);
}

#[test]
fn test_parens() {
    assert_eq!(lparen("(a", 0), Some((1, Token::LParen)));
    assert_eq!(lparen(")a", 0), None);
    assert_eq!(rparen(")", 0), Some((1, Token::RParen)));
    assert_eq!(rparen("(", 0), None);
}

#[test]
fn test_token_trims_and_prioritises() {
    assert_eq!(token("   foo", 0), (6, Some(Token::Ident("foo"))));
    assert_eq!(token(" 12 ", 0), (3, Some(Token::Number("12"))));
    assert_eq!(token(" ( ", 0), (2, Some(Token::LParen)));
    assert_eq!(token(" ) ", 0), (2, Some(Token::RParen)));
    // no match: the trimmed position is still reported
    assert_eq!(token("  !", 0), (2, None));
    assert_eq!(token("", 0), (0, None));
    assert_eq!(token("   ", 0), (3, None));
}
