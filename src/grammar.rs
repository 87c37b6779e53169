//! The lexical grammar, stated over the character sequence of the input.
//! Every index below is 0-based; a token's column is its index plus one.
use vstd::prelude::*;
use crate::token::{TokenKind, TokenView};

verus! {

/// Whitespace that may stand between tokens.
pub open spec fn is_whitespace(c: char) -> bool {
    c == ' ' || c == '\t' || c == '\n' || c == '\r'
}

pub open spec fn is_digit(c: char) -> bool {
    '0' <= c && c <= '9'
}

pub open spec fn is_hex_digit(c: char) -> bool {
    is_digit(c) || ('a' <= c && c <= 'f') || ('A' <= c && c <= 'F')
}

/// The Unicode control characters (general category Cc).
pub open spec fn is_control(c: char) -> bool {
    c <= '\u{1f}' || ('\u{7f}' <= c && c <= '\u{9f}')
}

/// Characters that may follow a backslash on their own.
pub open spec fn is_simple_escape(c: char) -> bool {
    c == '"' || c == '\\' || c == '/' || c == 'b' || c == 'f' || c == 'n' || c == 'r' || c == 't'
}

pub open spec fn is_structural(c: char) -> bool {
    c == '{' || c == '}' || c == '[' || c == ']' || c == ':' || c == ','
}

/// The token that a structural character stands for.
pub open spec fn structural_kind(c: char) -> TokenKind
    recommends
        is_structural(c),
{
    if c == '{' {
        TokenKind::ObjectStart
    } else if c == '}' {
        TokenKind::ObjectEnd
    } else if c == '[' {
        TokenKind::ArrayStart
    } else if c == ']' {
        TokenKind::ArrayEnd
    } else if c == ':' {
        TokenKind::Colon
    } else {
        TokenKind::Comma
    }
}

/// The first index at or after `i` that does not hold whitespace.
pub open spec fn skip_whitespace(s: Seq<char>, i: int) -> int
    decreases s.len() - i,
{
    if 0 <= i < s.len() && is_whitespace(s[i]) {
        skip_whitespace(s, i + 1)
    } else {
        i
    }
}

/// The first index at or after `i` that does not hold a decimal digit.
pub open spec fn digits_end(s: Seq<char>, i: int) -> int
    decreases s.len() - i,
{
    if 0 <= i < s.len() && is_digit(s[i]) {
        digits_end(s, i + 1)
    } else {
        i
    }
}

/// Where an optional fraction that may start at `i` ends: `Some(i)` when
/// there is no `.`, `None` when a `.` is not followed by a digit.
pub open spec fn fraction_end(s: Seq<char>, i: int) -> Option<int> {
    if 0 <= i < s.len() && s[i] == '.' {
        let end = digits_end(s, i + 1);
        if end == i + 1 {
            None
        } else {
            Some(end)
        }
    } else {
        Some(i)
    }
}

/// Where an optional exponent that may start at `i` ends: `Some(i)` when
/// there is no `e`, `None` when the `e` and its optional sign are not
/// followed by a digit.
pub open spec fn exponent_end(s: Seq<char>, i: int) -> Option<int> {
    if 0 <= i < s.len() && s[i] == 'e' {
        let digits = if i + 1 < s.len() && (s[i + 1] == '+' || s[i + 1] == '-') {
            i + 2
        } else {
            i + 1
        };
        let end = digits_end(s, digits);
        if end == digits {
            None
        } else {
            Some(end)
        }
    } else {
        Some(i)
    }
}

/// The number token whose lexeme starts at `start` and whose first digit is
/// at `first` (after a minus sign, if any), with the index just past it.
/// A fraction makes it a float; an exponent alone does not.
pub open spec fn number_token(s: Seq<char>, start: int, first: int) -> Option<(TokenKind, int)> {
    let int_end = digits_end(s, first + 1);
    match fraction_end(s, int_end) {
        None => None,
        Some(frac_end) => match exponent_end(s, frac_end) {
            None => None,
            Some(end) => {
                let text = s.subrange(start, end);
                if frac_end > int_end {
                    Some((TokenKind::Float(text), end))
                } else {
                    Some((TokenKind::Integer(text), end))
                }
            },
        },
    }
}

/// Length of the valid escape sequence whose backslash is at `i`.
pub open spec fn escape_len(s: Seq<char>, i: int) -> Option<int> {
    if i + 1 < s.len() && is_simple_escape(s[i + 1]) {
        Some(2)
    } else if i + 5 < s.len() && s[i + 1] == 'u' && is_hex_digit(s[i + 2]) && is_hex_digit(
        s[i + 3],
    ) && is_hex_digit(s[i + 4]) && is_hex_digit(s[i + 5]) {
        Some(6)
    } else {
        None
    }
}

/// The index of the quote that closes a string body starting at `i`, or
/// `None` when the body holds a raw control character or an invalid escape,
/// or is not closed.
pub open spec fn string_close(s: Seq<char>, i: int) -> Option<int>
    decreases s.len() - i,
{
    if i < 0 || i >= s.len() {
        None
    } else if is_control(s[i]) {
        None
    } else if s[i] == '"' {
        Some(i)
    } else if s[i] == '\\' {
        match escape_len(s, i) {
            None => None,
            Some(n) => string_close(s, i + n),
        }
    } else {
        string_close(s, i + 1)
    }
}

/// The token whose first character is at `i`, with the index just past it;
/// `None` on a lexical failure.
pub open spec fn token_at(s: Seq<char>, i: int) -> Option<(TokenKind, int)>
    recommends
        0 <= i < s.len(),
{
    let c = s[i];
    if is_structural(c) {
        Some((structural_kind(c), i + 1))
    } else if is_digit(c) {
        number_token(s, i, i)
    } else if c == '"' {
        match string_close(s, i + 1) {
            None => None,
            Some(close) => Some((TokenKind::Str(s.subrange(i + 1, close)), close + 1)),
        }
    } else if c == '-' && i + 1 < s.len() && is_digit(s[i + 1]) {
        number_token(s, i, i + 1)
    } else {
        None
    }
}

/// One scanning step from `i`: skip whitespace, then read one token.
/// `None` both at the end of the input and on a lexical failure.
pub open spec fn next_token_at(s: Seq<char>, i: int) -> Option<(TokenView, int)> {
    let k = skip_whitespace(s, i);
    if k < 0 || k >= s.len() {
        None
    } else {
        match token_at(s, k) {
            None => None,
            Some((kind, next)) => Some((TokenView { kind, position: k + 1 }, next)),
        }
    }
}

/// The tokens read from `i` on, up to the end of the input or the first
/// lexical failure, whichever comes first.
pub open spec fn tokens_from(s: Seq<char>, i: int) -> Seq<TokenView>
    decreases s.len() - i,
{
    match next_token_at(s, i) {
        None => Seq::empty(),
        Some((t, next)) => {
            proof {
                lemma_next_token_advances(s, i);
            }
            seq![t] + tokens_from(s, next)
        },
    }
}

/// The tokens of a whole text.
pub open spec fn lex(s: Seq<char>) -> Seq<TokenView> {
    tokens_from(s, 0)
}

pub proof fn lemma_skip_whitespace_bounds(s: Seq<char>, i: int)
    ensures
        skip_whitespace(s, i) >= i,
        0 <= i <= s.len() ==> skip_whitespace(s, i) <= s.len(),
    decreases s.len() - i,
{
    if 0 <= i < s.len() && is_whitespace(s[i]) {
        lemma_skip_whitespace_bounds(s, i + 1);
    }
}

pub proof fn lemma_digits_end_bounds(s: Seq<char>, i: int)
    ensures
        digits_end(s, i) >= i,
        0 <= i <= s.len() ==> digits_end(s, i) <= s.len(),
    decreases s.len() - i,
{
    if 0 <= i < s.len() && is_digit(s[i]) {
        lemma_digits_end_bounds(s, i + 1);
    }
}

pub proof fn lemma_string_close_bounds(s: Seq<char>, i: int)
    ensures
        string_close(s, i) matches Some(j) ==> i <= j < s.len(),
    decreases s.len() - i,
{
    if 0 <= i < s.len() && !is_control(s[i]) && s[i] != '"' {
        if s[i] == '\\' {
            if let Some(n) = escape_len(s, i) {
                lemma_string_close_bounds(s, i + n);
            }
        } else {
            lemma_string_close_bounds(s, i + 1);
        }
    }
}

/// A token read at `i` ends past `i` and within the input.
pub proof fn lemma_token_at_bounds(s: Seq<char>, i: int)
    requires
        0 <= i < s.len(),
    ensures
        token_at(s, i) matches Some((_, next)) ==> i < next <= s.len(),
{
    let c = s[i];
    if is_digit(c) || c == '-' {
        let first = if is_digit(c) { i } else { i + 1 };
        if first < s.len() {
            let int_end = digits_end(s, first + 1);
            lemma_digits_end_bounds(s, first + 1);
            lemma_digits_end_bounds(s, int_end + 1);
            if let Some(frac_end) = fraction_end(s, int_end) {
                lemma_digits_end_bounds(s, frac_end + 1);
                lemma_digits_end_bounds(s, frac_end + 2);
            }
        }
    } else if c == '"' {
        lemma_string_close_bounds(s, i + 1);
    }
}

/// A scanning step never goes backwards and stays within the input.
pub proof fn lemma_next_token_advances(s: Seq<char>, i: int)
    ensures
        next_token_at(s, i) matches Some((t, next)) ==> i < next <= s.len() && i < t.position
            <= next,
{
    lemma_skip_whitespace_bounds(s, i);
    let k = skip_whitespace(s, i);
    if 0 <= k < s.len() {
        lemma_token_at_bounds(s, k);
    }
}

} // verus!
