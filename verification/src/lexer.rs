//! The lexer: character classification and the four token categories.
//!
//! Positions into the input are character indices (not byte offsets); a
//! cursor is the pair of the input string and such an index, and advancing
//! never mutates the input.

use vstd::prelude::*;
use vstd::string::StrSliceExecFns;

verus! {

/// The one whitespace character the lexer skips between tokens.
pub open spec fn is_space(c: char) -> bool {
    c == ' '
}

/// ASCII letter, upper or lower case.
pub open spec fn is_alpha(c: char) -> bool {
    ('a' <= c && c <= 'z') || ('A' <= c && c <= 'Z')
}

/// ASCII decimal digit.
pub open spec fn is_digit(c: char) -> bool {
    '0' <= c && c <= '9'
}

/// A character that may continue an identifier after its leading letter.
pub open spec fn is_ident_char(c: char) -> bool {
    is_alpha(c) || is_digit(c)
}

/// A character that may open a numeric literal.
pub open spec fn is_number_start(c: char) -> bool {
    c == '+' || c == '-' || c == '.' || is_digit(c)
}

/// A character that may continue a numeric literal after its first character.
pub open spec fn is_number_char(c: char) -> bool {
    c == '.' || is_digit(c)
}

/// Length of the run of spaces starting at `pos`.
pub open spec fn space_run(s: Seq<char>, pos: int) -> nat
    decreases s.len() - pos,
{
    if 0 <= pos < s.len() && is_space(s[pos]) {
        (1 + space_run(s, pos + 1)) as nat
    } else {
        0
    }
}

/// Length of the run of identifier-continuation characters starting at `pos`.
pub open spec fn ident_run(s: Seq<char>, pos: int) -> nat
    decreases s.len() - pos,
{
    if 0 <= pos < s.len() && is_ident_char(s[pos]) {
        (1 + ident_run(s, pos + 1)) as nat
    } else {
        0
    }
}

/// Length of the run of number-continuation characters starting at `pos`.
pub open spec fn number_run(s: Seq<char>, pos: int) -> nat
    decreases s.len() - pos,
{
    if 0 <= pos < s.len() && is_number_char(s[pos]) {
        (1 + number_run(s, pos + 1)) as nat
    } else {
        0
    }
}

/// A classified lexical unit. Identifier and number text is copied out of the
/// input, so a token owns nothing but its own characters.
#[derive(Debug, PartialEq)]
pub enum Token<'src> {
    /// A leading ASCII letter followed by letters and digits.
    Ident(&'src str),
    /// The exact text of a numeric literal the lexer accepted.
    Number(&'src str),
    LParen,
    RParen,
}

/// The mathematical shape of a token: its category and its text.
pub enum TokenModel {
    Ident(Seq<char>),
    Number(Seq<char>),
    LParen,
    RParen,
}

impl<'src> View for Token<'src> {
    type V = TokenModel;

    open spec fn view(&self) -> TokenModel {
        match self {
            Token::Ident(t) => TokenModel::Ident(t@),
            Token::Number(t) => TokenModel::Number(t@),
            Token::LParen => TokenModel::LParen,
            Token::RParen => TokenModel::RParen,
        }
    }
}

/// The next character, if any; the input is left as it is.
pub fn peek_char(input: &str, pos: usize) -> (r: Option<char>)
    ensures
        r == (if (pos as int) < input@.len() {
            Some(input@[pos as int])
        } else {
            None::<char>
        }),
{
    let len: usize = input.unicode_len();
    if pos < len {
        Some(input.get_char(pos))
    } else {
        None
    }
}

/// The cursor one character further on; an empty remainder is left as it is.
pub fn advance_char(input: &str, pos: usize) -> (r: usize)
    requires
        pos as int <= input@.len(),
    ensures
        r as int == (if (pos as int) < input@.len() {
            pos as int + 1
        } else {
            input@.len() as int
        }),
{
    let len: usize = input.unicode_len();
    if pos < len {
        pos + 1
    } else {
        len
    }
}

/// Skips the run of spaces at the cursor and returns the trimmed position.
pub fn whitespace(input: &str, pos: usize) -> (r: usize)
    requires
        pos as int <= input@.len(),
    ensures
        r == pos + space_run(input@, pos as int),
        r as int <= input@.len(),
{
    let mut cur: usize = pos;
    loop
        invariant
            pos <= cur,
            cur as int <= input@.len(),
            pos + space_run(input@, pos as int) == cur + space_run(input@, cur as int),
        ensures
            space_run(input@, cur as int) == 0,
            pos <= cur,
            cur as int <= input@.len(),
            pos + space_run(input@, pos as int) == cur + space_run(input@, cur as int),
        decreases input@.len() - cur,
    {
        match peek_char(input, cur) {
            Some(c) => {
                if c == ' ' {
                    cur = advance_char(input, cur);
                } else {
                    break;
                }
            },
            None => {
                break;
            },
        }
    }
    cur
}

/// Digits in `s`, counted from the right.
pub open spec fn digit_count(s: Seq<char>) -> nat
    decreases s.len(),
{
    if s.len() == 0 {
        0
    } else {
        digit_count(s.drop_last()) + (if is_digit(s.last()) {
            1nat
        } else {
            0nat
        })
    }
}

/// Dots in `s`, counted from the right.
pub open spec fn dot_count(s: Seq<char>) -> nat
    decreases s.len(),
{
    if s.len() == 0 {
        0
    } else {
        dot_count(s.drop_last()) + (if s.last() == '.' {
            1nat
        } else {
            0nat
        })
    }
}

/// Which captured numeric texts stand for a floating-point value.
///
/// The lexer only ever captures an optional sign followed by digits and dots.
/// Among such texts, the ones Rust's documented float grammar accepts are
/// exactly those with at least one digit and at most one dot after the sign;
/// a rejected text (say a second dot) makes the whole category fail to match.
pub open spec fn is_float_literal(s: Seq<char>) -> bool {
    let t = if s.len() > 0 && (s[0] == '+' || s[0] == '-') {
        s.subrange(1, s.len() as int)
    } else {
        s
    };
    digit_count(t) >= 1 && dot_count(t) <= 1
}

/// What one category parser reports: the position after the token, and the
/// token itself; `None` when the category does not match at the cursor.
pub open spec fn lex_view(r: Option<(usize, Token)>) -> Option<(int, TokenModel)> {
    match r {
        Some((p, t)) => Some((p as int, t@)),
        None => None,
    }
}

/// Where an identifier starting at `pos` ends.
pub open spec fn ident_end(s: Seq<char>, pos: int) -> int {
    pos + 1 + ident_run(s, pos + 1)
}

/// The identifier category: a leading letter, then letters and digits,
/// captured as the exact matched text.
pub open spec fn spec_ident(s: Seq<char>, pos: int) -> Option<(int, TokenModel)> {
    if 0 <= pos < s.len() && is_alpha(s[pos]) {
        Some((ident_end(s, pos), TokenModel::Ident(s.subrange(pos, ident_end(s, pos)))))
    } else {
        None
    }
}

/// Where a numeric literal starting at `pos` ends.
pub open spec fn number_end(s: Seq<char>, pos: int) -> int {
    pos + 1 + number_run(s, pos + 1)
}

/// The number category: a sign, dot or digit opens it, digits and dots
/// continue it, and the captured text must stand for a float value.
pub open spec fn spec_number(s: Seq<char>, pos: int) -> Option<(int, TokenModel)> {
    if 0 <= pos < s.len() && is_number_start(s[pos]) {
        if is_float_literal(s.subrange(pos, number_end(s, pos))) {
            Some((number_end(s, pos), TokenModel::Number(s.subrange(pos, number_end(s, pos)))))
        } else {
            None
        }
    } else {
        None
    }
}

/// The open-parenthesis category.
pub open spec fn spec_lparen(s: Seq<char>, pos: int) -> Option<(int, TokenModel)> {
    if 0 <= pos < s.len() && s[pos] == '(' {
        Some((pos + 1, TokenModel::LParen))
    } else {
        None
    }
}

/// The close-parenthesis category.
pub open spec fn spec_rparen(s: Seq<char>, pos: int) -> Option<(int, TokenModel)> {
    if 0 <= pos < s.len() && s[pos] == ')' {
        Some((pos + 1, TokenModel::RParen))
    } else {
        None
    }
}

/// Parses an identifier at the cursor, if one starts there.
pub fn ident<'src>(input: &'src str, pos: usize) -> (r: Option<(usize, Token<'src>)>)
    requires
        pos as int <= input@.len(),
    ensures
        lex_view(r) == spec_ident(input@, pos as int),
        r is Some ==> pos < r.unwrap().0 && r.unwrap().0 as int <= input@.len(),
{
    match peek_char(input, pos) {
        Some(c0) => {
            if ('a' <= c0 && c0 <= 'z') || ('A' <= c0 && c0 <= 'Z') {
                let mut cur: usize = advance_char(input, pos);
                loop
                    invariant
                        pos + 1 <= cur,
                        cur as int <= input@.len(),
                        (pos + 1) + ident_run(input@, pos as int + 1) == cur + ident_run(
                            input@,
                            cur as int,
                        ),
                    ensures
                        ident_run(input@, cur as int) == 0,
                        pos + 1 <= cur,
                        cur as int <= input@.len(),
                        (pos + 1) + ident_run(input@, pos as int + 1) == cur + ident_run(
                            input@,
                            cur as int,
                        ),
                    decreases input@.len() - cur,
                {
                    match peek_char(input, cur) {
                        Some(c) => {
                            if ('a' <= c && c <= 'z') || ('A' <= c && c <= 'Z') || ('0' <= c && c
                                <= '9') {
                                cur = advance_char(input, cur);
                            } else {
                                break;
                            }
                        },
                        None => {
                            break;
                        },
                    }
                }
                Some((cur, Token::Ident(input.substring_char(pos, cur))))
            } else {
                None
            }
        },
        None => None,
    }
}

/// Parses a numeric literal at the cursor, if one starts there and its text
/// stands for a float value; otherwise the category fails open.
pub fn number<'src>(input: &'src str, pos: usize) -> (r: Option<(usize, Token<'src>)>)
    requires
        pos as int <= input@.len(),
    ensures
        lex_view(r) == spec_number(input@, pos as int),
        r is Some ==> pos < r.unwrap().0 && r.unwrap().0 as int <= input@.len(),
{
    match peek_char(input, pos) {
        Some(c0) => {
            if c0 == '+' || c0 == '-' || c0 == '.' || ('0' <= c0 && c0 <= '9') {
                let mut cur: usize = advance_char(input, pos);
                loop
                    invariant
                        pos + 1 <= cur,
                        cur as int <= input@.len(),
                        (pos + 1) + number_run(input@, pos as int + 1) == cur + number_run(
                            input@,
                            cur as int,
                        ),
                    ensures
                        number_run(input@, cur as int) == 0,
                        pos + 1 <= cur,
                        cur as int <= input@.len(),
                        (pos + 1) + number_run(input@, pos as int + 1) == cur + number_run(
                            input@,
                            cur as int,
                        ),
                    decreases input@.len() - cur,
                {
                    match peek_char(input, cur) {
                        Some(c) => {
                            if c == '.' || ('0' <= c && c <= '9') {
                                cur = advance_char(input, cur);
                            } else {
                                break;
                            }
                        },
                        None => {
                            break;
                        },
                    }
                }
                let t0: usize = if c0 == '+' || c0 == '-' {
                    pos + 1
                } else {
                    pos
                };
                let mut digits: usize = 0;
                let mut dots: usize = 0;
                let mut i: usize = t0;
                while i < cur
                    invariant
                        t0 <= i <= cur,
                        cur as int <= input@.len(),
                        digits == digit_count(input@.subrange(t0 as int, i as int)),
                        dots == dot_count(input@.subrange(t0 as int, i as int)),
                        digits <= i - t0,
                        dots <= i - t0,
                    decreases cur - i,
                {
                    let c = input.get_char(i);
                    proof {
                        assert(input@.subrange(t0 as int, i + 1 as int).drop_last()
                            =~= input@.subrange(t0 as int, i as int));
                        assert(input@.subrange(t0 as int, i + 1 as int).last() == input@[i as int]);
                    }
                    if '0' <= c && c <= '9' {
                        digits = digits + 1;
                    }
                    if c == '.' {
                        dots = dots + 1;
                    }
                    i = i + 1;
                }
                proof {
                    if c0 == '+' || c0 == '-' {
                        let lit = input@.subrange(pos as int, cur as int);
                        assert(lit.subrange(1, lit.len() as int) =~= input@.subrange(
                            t0 as int,
                            cur as int,
                        ));
                    }
                }
                if digits >= 1 && dots <= 1 {
                    Some((cur, Token::Number(input.substring_char(pos, cur))))
                } else {
                    None
                }
            } else {
                None
            }
        },
        None => None,
    }
}

/// Parses a single `(` at the cursor.
pub fn lparen<'src>(input: &'src str, pos: usize) -> (r: Option<(usize, Token<'src>)>)
    requires
        pos as int <= input@.len(),
    ensures
        lex_view(r) == spec_lparen(input@, pos as int),
        r is Some ==> pos < r.unwrap().0 && r.unwrap().0 as int <= input@.len(),
{
    match peek_char(input, pos) {
        Some(c) => {
            if c == '(' {
                Some((advance_char(input, pos), Token::LParen))
            } else {
                None
            }
        },
        None => None,
    }
}

/// Parses a single `)` at the cursor.
pub fn rparen<'src>(input: &'src str, pos: usize) -> (r: Option<(usize, Token<'src>)>)
    requires
        pos as int <= input@.len(),
    ensures
        lex_view(r) == spec_rparen(input@, pos as int),
        r is Some ==> pos < r.unwrap().0 && r.unwrap().0 as int <= input@.len(),
{
    match peek_char(input, pos) {
        Some(c) => {
            if c == ')' {
                Some((advance_char(input, pos), Token::RParen))
            } else {
                None
            }
        },
        None => None,
    }
}


/// What `token` reports in its second slot.
pub open spec fn token_view(o: Option<Token>) -> Option<TokenModel> {
    match o {
        Some(t) => Some(t@),
        None => None,
    }
}

/// One step of the lexer: trim spaces, then try the categories in their
/// fixed priority order. The first slot is the position after the match, or
/// the trimmed position when nothing matches.
pub open spec fn spec_token(s: Seq<char>, pos: int) -> (int, Option<TokenModel>) {
    let p = pos + space_run(s, pos);
    match spec_ident(s, p) {
        Some((e, t)) => (e, Some(t)),
        None => match spec_number(s, p) {
            Some((e, t)) => (e, Some(t)),
            None => match spec_lparen(s, p) {
                Some((e, t)) => (e, Some(t)),
                None => match spec_rparen(s, p) {
                    Some((e, t)) => (e, Some(t)),
                    None => (p, None),
                },
            },
        },
    }
}

/// Requests the next lexical unit: identifier first, then number, then the
/// parentheses; leading spaces are consumed even when nothing matches.
pub fn token<'src>(input: &'src str, pos: usize) -> (r: (usize, Option<Token<'src>>))
    requires
        pos as int <= input@.len(),
    ensures
        r.0 as int == spec_token(input@, pos as int).0,
        token_view(r.1) == spec_token(input@, pos as int).1,
        pos <= r.0,
        r.0 as int <= input@.len(),
        r.1 is Some ==> pos < r.0,
{
    let t = whitespace(input, pos);
    if let Some((e, tok)) = ident(input, t) {
        return (e, Some(tok));
    }
    if let Some((e, tok)) = number(input, t) {
        return (e, Some(tok));
    }
    if let Some((e, tok)) = lparen(input, t) {
        return (e, Some(tok));
    }
    if let Some((e, tok)) = rparen(input, t) {
        return (e, Some(tok));
    }
    (t, None)
}


/// Trimming is idempotent: the position after a run of spaces starts with
/// no further space.
pub proof fn lemma_trim_idempotent(s: Seq<char>, pos: int)
    ensures
        space_run(s, pos + space_run(s, pos)) == 0,
    decreases s.len() - pos,
{
    if 0 <= pos < s.len() && is_space(s[pos]) {
        lemma_trim_idempotent(s, pos + 1);
    }
}


/// A run of spaces stops at the end of the input at the latest.
pub proof fn lemma_space_run_in_bounds(s: Seq<char>, pos: int)
    requires
        0 <= pos <= s.len(),
    ensures
        pos + space_run(s, pos) <= s.len(),
    decreases s.len() - pos,
{
    if pos < s.len() && is_space(s[pos]) {
        lemma_space_run_in_bounds(s, pos + 1);
    }
}

/// A run of identifier characters stops at the end of the input at the latest.
pub proof fn lemma_ident_run_in_bounds(s: Seq<char>, pos: int)
    requires
        0 <= pos <= s.len(),
    ensures
        pos + ident_run(s, pos) <= s.len(),
    decreases s.len() - pos,
{
    if pos < s.len() && is_ident_char(s[pos]) {
        lemma_ident_run_in_bounds(s, pos + 1);
    }
}

/// A run of number characters stops at the end of the input at the latest.
pub proof fn lemma_number_run_in_bounds(s: Seq<char>, pos: int)
    requires
        0 <= pos <= s.len(),
    ensures
        pos + number_run(s, pos) <= s.len(),
    decreases s.len() - pos,
{
    if pos < s.len() && is_number_char(s[pos]) {
        lemma_number_run_in_bounds(s, pos + 1);
    }
}

/// One lexer step stays within the input, and a match advances the cursor.
pub proof fn lemma_spec_token_bounds(s: Seq<char>, pos: int)
    requires
        0 <= pos <= s.len(),
    ensures
        pos <= spec_token(s, pos).0 <= s.len(),
        spec_token(s, pos).1 is Some ==> pos < spec_token(s, pos).0,
{
    lemma_space_run_in_bounds(s, pos);
    let p = pos + space_run(s, pos);
    if p < s.len() {
        lemma_ident_run_in_bounds(s, p + 1);
        lemma_number_run_in_bounds(s, p + 1);
    }
}

} // verus!
