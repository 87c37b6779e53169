//! General facts about `lex`, proved from the grammar.
use vstd::prelude::*;
use crate::grammar::{
    digits_end, escape_len, exponent_end, fraction_end, is_control, is_digit, is_hex_digit,
    is_simple_escape, is_structural, is_whitespace, lemma_digits_end_bounds,
    lemma_next_token_advances, lemma_skip_whitespace_bounds, lemma_string_close_bounds,
    lemma_token_at_bounds, lex, next_token_at, number_token, skip_whitespace, string_close,
    structural_kind, token_at, tokens_from,
};
use crate::token::{TokenKind, TokenView};

verus! {

/// The text of a number literal: an optional minus sign, the whole part, a
/// fraction when `fraction` is not empty, and an exponent when `exponent` is
/// not empty, with `exponent_sign` (empty, `+` or `-`) after the `e`.
pub open spec fn number_literal(
    negative: bool,
    whole: Seq<char>,
    fraction: Seq<char>,
    exponent_sign: Seq<char>,
    exponent: Seq<char>,
) -> Seq<char> {
    (if negative {
        seq!['-']
    } else {
        Seq::empty()
    }) + whole + (if fraction.len() > 0 {
        seq!['.'] + fraction
    } else {
        Seq::empty()
    }) + (if exponent.len() > 0 {
        seq!['e'] + exponent_sign + exponent
    } else {
        Seq::empty()
    })
}

pub open spec fn all_digits(s: Seq<char>) -> bool {
    forall|k: int| 0 <= k < s.len() ==> is_digit(#[trigger] s[k])
}

/// Once the input is used up, no step reads a token and no further tokens
/// follow: scanning cannot start over.
pub proof fn lemma_nothing_at_end(s: Seq<char>)
    ensures
        next_token_at(s, s.len() as int) is None,
        tokens_from(s, s.len() as int) == Seq::<TokenView>::empty(),
{
    assert(skip_whitespace(s, s.len() as int) == s.len());
}

proof fn lemma_digits_end_at(s: Seq<char>, i: int, j: int)
    requires
        0 <= i <= j <= s.len(),
        forall|k: int| i <= k < j ==> is_digit(#[trigger] s[k]),
        j == s.len() || !is_digit(s[j]),
    ensures
        digits_end(s, i) == j,
    decreases j - i,
{
    if i < j {
        lemma_digits_end_at(s, i + 1, j);
    }
}

/// A lone structural character is one token of its kind, at column 1.
pub proof fn lemma_structural_character_alone(c: char)
    requires
        is_structural(c),
    ensures
        lex(seq![c]) == seq![TokenView { kind: structural_kind(c), position: 1 }],
{
    let s = seq![c];
    assert(skip_whitespace(s, 0) == 0);
    lemma_nothing_at_end(s);
    assert(lex(s) =~= seq![TokenView { kind: structural_kind(c), position: 1 }]);
}

/// A number literal on its own is one token at column 1 whose text is the
/// whole input; it is a float exactly when it has a fraction, whatever its
/// exponent.
#[verifier::rlimit(30)]
pub proof fn lemma_number_literal_alone(
    negative: bool,
    whole: Seq<char>,
    fraction: Seq<char>,
    exponent_sign: Seq<char>,
    exponent: Seq<char>,
)
    requires
        whole.len() >= 1,
        all_digits(whole),
        all_digits(fraction),
        all_digits(exponent),
        exponent_sign == Seq::<char>::empty() || exponent_sign == seq!['+'] || exponent_sign
            == seq!['-'],
        exponent.len() == 0 ==> exponent_sign.len() == 0,
    ensures
        ({
            let t = number_literal(negative, whole, fraction, exponent_sign, exponent);
            lex(t) == seq![
                TokenView {
                    kind: if fraction.len() > 0 {
                        TokenKind::Float(t)
                    } else {
                        TokenKind::Integer(t)
                    },
                    position: 1,
                },
            ]
        }),
{
    let sign = if negative {
        seq!['-']
    } else {
        Seq::<char>::empty()
    };
    let frac_part = if fraction.len() > 0 {
        seq!['.'] + fraction
    } else {
        Seq::<char>::empty()
    };
    let exp_part = if exponent.len() > 0 {
        seq!['e'] + exponent_sign + exponent
    } else {
        Seq::<char>::empty()
    };
    let t = number_literal(negative, whole, fraction, exponent_sign, exponent);
    assert(t == sign + whole + frac_part + exp_part);
    let first = sign.len() as int;
    let int_end = first + whole.len();
    let frac_end = int_end + frac_part.len();
    let digits = frac_end + 1 + exponent_sign.len();
    assert(t.len() == frac_end + exp_part.len());
    assert forall|k: int| 0 <= k < whole.len() implies t[first + k] == whole[k] by {
        assert(t[first + k] == (sign + whole)[first + k]);
    }
    assert forall|k: int| 0 <= k < frac_part.len() implies t[int_end + k] == frac_part[k] by {
        assert(t[int_end + k] == (sign + whole + frac_part)[int_end + k]);
    }
    assert forall|k: int| 0 <= k < exp_part.len() implies t[frac_end + k] == exp_part[k] by {}
    // the whole part
    assert forall|k: int| first + 1 <= k < int_end implies is_digit(#[trigger] t[k]) by {
        assert(t[first + (k - first)] == whole[k - first]);
    }
    assert(t[first] == whole[0]);
    if negative {
        assert(t[0] == '-');
    }
    if fraction.len() > 0 {
        assert(t[int_end] == frac_part[0]);
    } else if exponent.len() > 0 {
        assert(t[int_end] == exp_part[0]);
    }
    lemma_digits_end_at(t, first + 1, int_end);
    // the fraction
    if fraction.len() > 0 {
        assert forall|k: int| int_end + 1 <= k < frac_end implies is_digit(#[trigger] t[k]) by {
            assert(t[int_end + (k - int_end)] == frac_part[k - int_end]);
            assert(frac_part[k - int_end] == fraction[k - int_end - 1]);
        }
        if exponent.len() > 0 {
            assert(t[frac_end] == exp_part[0]);
        }
        lemma_digits_end_at(t, int_end + 1, frac_end);
    }
    assert(fraction_end(t, int_end) == Some(frac_end));
    // the exponent
    if exponent.len() > 0 {
        assert(t[frac_end] == 'e');
        assert(t[frac_end + 1] == exp_part[1]);
        if exponent_sign.len() == 0 {
            assert(exp_part[1] == exponent[0]);
        }
        assert forall|k: int| digits <= k < t.len() implies is_digit(#[trigger] t[k]) by {
            assert(t[frac_end + (k - frac_end)] == exp_part[k - frac_end]);
            assert(exp_part[k - frac_end] == exponent[k - digits]);
        }
        lemma_digits_end_at(t, digits, t.len() as int);
    }
    assert(exponent_end(t, frac_end) == Some(t.len() as int));
    assert(t.subrange(0, t.len() as int) =~= t);
    assert(skip_whitespace(t, 0) == 0);
    lemma_nothing_at_end(t);
    let kind = if fraction.len() > 0 {
        TokenKind::Float(t)
    } else {
        TokenKind::Integer(t)
    };
    assert(lex(t) =~= seq![TokenView { kind, position: 1 }]);
}

/// A run of digits on its own is one integer token whose text is the input.
pub proof fn lemma_digits_alone(s: Seq<char>)
    requires
        s.len() >= 1,
        all_digits(s),
    ensures
        lex(s) == seq![TokenView { kind: TokenKind::Integer(s), position: 1 }],
{
    let e = Seq::<char>::empty();
    assert(number_literal(false, s, e, e, e) =~= s);
    lemma_number_literal_alone(false, s, e, e, e);
}

/// Digits, a `.` and more digits, with an optional minus sign and no
/// exponent, are one float token whose text is the input.
pub proof fn lemma_fraction_alone(negative: bool, whole: Seq<char>, fraction: Seq<char>)
    requires
        whole.len() >= 1,
        fraction.len() >= 1,
        all_digits(whole),
        all_digits(fraction),
    ensures
        ({
            let t = (if negative {
                seq!['-']
            } else {
                Seq::empty()
            }) + whole + seq!['.'] + fraction;
            lex(t) == seq![TokenView { kind: TokenKind::Float(t), position: 1 }]
        }),
{
    let e = Seq::<char>::empty();
    let t = (if negative {
        seq!['-']
    } else {
        Seq::empty()
    }) + whole + seq!['.'] + fraction;
    assert(number_literal(negative, whole, fraction, e, e) =~= t);
    lemma_number_literal_alone(negative, whole, fraction, e, e);
}

proof fn lemma_string_close_stops_at_control(s: Seq<char>, i: int, k: int)
    requires
        0 <= i <= k < s.len(),
        is_control(s[k]),
        forall|j: int| i <= j < k ==> s[j] != '"',
    ensures
        string_close(s, i) is None,
    decreases k - i,
{
    if !is_control(s[i]) {
        if s[i] == '\\' {
            if let Some(n) = escape_len(s, i) {
                if i + n <= k {
                    lemma_string_close_stops_at_control(s, i + n, k);
                } else {
                    assert(!is_control(s[i + 1]));
                    if n == 6 {
                        assert(!is_control(s[i + 2]));
                        assert(!is_control(s[i + 3]));
                        assert(!is_control(s[i + 4]));
                        assert(!is_control(s[i + 5]));
                    }
                }
            }
        } else {
            lemma_string_close_stops_at_control(s, i + 1, k);
        }
    }
}

/// A quoted text whose body holds a raw control character (at `k`) and no
/// quote gives no token at all.
pub proof fn lemma_control_character_in_string(body: Seq<char>, k: int)
    requires
        0 <= k < body.len(),
        is_control(body[k]),
        forall|j: int| 0 <= j < body.len() ==> body[j] != '"',
    ensures
        lex(seq!['"'] + body + seq!['"']) == Seq::<TokenView>::empty(),
{
    let s = seq!['"'] + body + seq!['"'];
    assert forall|j: int| 1 <= j < k + 1 implies s[j] != '"' by {
        assert(s[j] == body[j - 1]);
    }
    assert(s[k + 1] == body[k]);
    lemma_string_close_stops_at_control(s, 1, k + 1);
    assert(skip_whitespace(s, 0) == 0);
}

/// Tokenizing depends on the text alone: equal texts give equal tokens.
pub proof fn lemma_tokenizing_is_deterministic(a: Seq<char>, b: Seq<char>)
    requires
        a == b,
    ensures
        lex(a) == lex(b),
{
}

/// The tokens `ts` with every column moved right by `n`.
pub open spec fn shift_columns(ts: Seq<TokenView>, n: int) -> Seq<TokenView> {
    ts.map_values(|t: TokenView| TokenView { kind: t.kind, position: t.position + n })
}

proof fn lemma_skip_whitespace_shift(p: Seq<char>, s: Seq<char>, i: int)
    requires
        0 <= i <= s.len(),
    ensures
        skip_whitespace(p + s, p.len() + i) == p.len() + skip_whitespace(s, i),
    decreases s.len() - i,
{
    if i < s.len() {
        assert((p + s)[p.len() + i] == s[i]);
        if is_whitespace(s[i]) {
            lemma_skip_whitespace_shift(p, s, i + 1);
        }
    }
}

proof fn lemma_digits_end_shift(p: Seq<char>, s: Seq<char>, i: int)
    requires
        0 <= i <= s.len(),
    ensures
        digits_end(p + s, p.len() + i) == p.len() + digits_end(s, i),
    decreases s.len() - i,
{
    if i < s.len() {
        assert((p + s)[p.len() + i] == s[i]);
        if is_digit(s[i]) {
            lemma_digits_end_shift(p, s, i + 1);
        }
    }
}

proof fn lemma_number_token_shift(p: Seq<char>, s: Seq<char>, start: int, first: int)
    requires
        0 <= start <= first < s.len(),
    ensures
        number_token(p + s, p.len() + start, p.len() + first) == match number_token(
            s,
            start,
            first,
        ) {
            None => None,
            Some((kind, end)) => Some((kind, p.len() + end)),
        },
{
    let u = p + s;
    let n = p.len() as int;
    lemma_digits_end_shift(p, s, first + 1);
    lemma_digits_end_bounds(s, first + 1);
    let a = digits_end(s, first + 1);
    if a < s.len() {
        assert(u[n + a] == s[a]);
        if s[a] == '.' {
            lemma_digits_end_shift(p, s, a + 1);
            lemma_digits_end_bounds(s, a + 1);
        }
    }
    assert(fraction_end(u, n + a) == match fraction_end(s, a) {
        None => None,
        Some(b) => Some(n + b),
    });
    if let Some(b) = fraction_end(s, a) {
        if b < s.len() {
            assert(u[n + b] == s[b]);
            if b + 1 < s.len() {
                assert(u[n + b + 1] == s[b + 1]);
            }
            if s[b] == 'e' {
                lemma_digits_end_bounds(s, b + 1);
                lemma_digits_end_bounds(s, b + 2);
                lemma_digits_end_shift(p, s, b + 1);
                if b + 1 < s.len() {
                    lemma_digits_end_shift(p, s, b + 2);
                }
            }
        }
        assert(exponent_end(u, n + b) == match exponent_end(s, b) {
            None => None,
            Some(c) => Some(n + c),
        });
        if let Some(c) = exponent_end(s, b) {
            assert(u.subrange(n + start, n + c) =~= s.subrange(start, c));
        }
    }
}

proof fn lemma_string_close_shift(p: Seq<char>, s: Seq<char>, i: int)
    requires
        0 <= i,
    ensures
        string_close(p + s, p.len() + i) == match string_close(s, i) {
            None => None,
            Some(j) => Some(p.len() + j),
        },
    decreases s.len() - i,
{
    let u = p + s;
    let n = p.len() as int;
    if i < s.len() {
        assert(u[n + i] == s[i]);
        if s[i] == '\\' {
            if i + 1 < s.len() {
                assert(u[n + i + 1] == s[i + 1]);
            }
            if i + 5 < s.len() {
                assert(u[n + i + 2] == s[i + 2]);
                assert(u[n + i + 3] == s[i + 3]);
                assert(u[n + i + 4] == s[i + 4]);
                assert(u[n + i + 5] == s[i + 5]);
            }
            assert(escape_len(u, n + i) == escape_len(s, i));
            if let Some(m) = escape_len(s, i) {
                lemma_string_close_shift(p, s, i + m);
            }
        } else {
            lemma_string_close_shift(p, s, i + 1);
        }
    }
}

proof fn lemma_next_token_shift(p: Seq<char>, s: Seq<char>, i: int)
    requires
        0 <= i <= s.len(),
    ensures
        next_token_at(p + s, p.len() + i) == match next_token_at(s, i) {
            None => None,
            Some((t, next)) => Some(
                (TokenView { kind: t.kind, position: t.position + p.len() }, p.len() + next),
            ),
        },
{
    let u = p + s;
    let n = p.len() as int;
    lemma_skip_whitespace_shift(p, s, i);
    lemma_skip_whitespace_bounds(s, i);
    let k = skip_whitespace(s, i);
    if k < s.len() {
        assert(u[n + k] == s[k]);
        if k + 1 < s.len() {
            assert(u[n + k + 1] == s[k + 1]);
        }
        let c = s[k];
        if is_digit(c) {
            lemma_number_token_shift(p, s, k, k);
        } else if c == '-' && k + 1 < s.len() && is_digit(s[k + 1]) {
            lemma_number_token_shift(p, s, k, k + 1);
        } else if c == '"' {
            lemma_string_close_shift(p, s, k + 1);
            lemma_string_close_bounds(s, k + 1);
            if let Some(close) = string_close(s, k + 1) {
                assert(u.subrange(n + k + 1, n + close) =~= s.subrange(k + 1, close));
            }
        }
        assert(token_at(u, n + k) == match token_at(s, k) {
            None => None,
            Some((kind, next)) => Some((kind, n + next)),
        });
    }
}

proof fn lemma_tokens_from_shift(p: Seq<char>, s: Seq<char>, i: int)
    requires
        0 <= i <= s.len(),
    ensures
        tokens_from(p + s, p.len() + i) == shift_columns(tokens_from(s, i), p.len() as int),
    decreases s.len() - i,
{
    lemma_next_token_shift(p, s, i);
    lemma_next_token_advances(s, i);
    match next_token_at(s, i) {
        None => {
            assert(shift_columns(tokens_from(s, i), p.len() as int) =~= Seq::<TokenView>::empty());
        },
        Some((t, next)) => {
            lemma_tokens_from_shift(p, s, next);
            let rest = tokens_from(s, next);
            assert(shift_columns(seq![t] + rest, p.len() as int) =~= seq![
                TokenView { kind: t.kind, position: t.position + p.len() },
            ] + shift_columns(rest, p.len() as int));
        },
    }
}

proof fn lemma_skip_leading_whitespace(u: Seq<char>, j: int, n: int)
    requires
        0 <= j <= n <= u.len(),
        forall|k: int| j <= k < n ==> is_whitespace(#[trigger] u[k]),
    ensures
        skip_whitespace(u, j) == skip_whitespace(u, n),
    decreases n - j,
{
    if j < n {
        lemma_skip_leading_whitespace(u, j + 1, n);
    }
}

/// Whitespace before a text adds no token and moves every column right by
/// its length.
pub proof fn lemma_leading_whitespace(w: Seq<char>, s: Seq<char>)
    requires
        forall|k: int| 0 <= k < w.len() ==> is_whitespace(#[trigger] w[k]),
    ensures
        lex(w + s) == shift_columns(lex(s), w.len() as int),
{
    let u = w + s;
    assert forall|k: int| 0 <= k < w.len() implies is_whitespace(#[trigger] u[k]) by {
        assert(u[k] == w[k]);
    }
    lemma_skip_leading_whitespace(u, 0, w.len() as int);
    assert(next_token_at(u, 0) == next_token_at(u, w.len() as int));
    assert(tokens_from(u, 0) == tokens_from(u, w.len() as int));
    lemma_tokens_from_shift(w, s, 0);
}

/// A text of whitespace alone gives no token.
pub proof fn lemma_whitespace_alone(w: Seq<char>)
    requires
        forall|k: int| 0 <= k < w.len() ==> is_whitespace(#[trigger] w[k]),
    ensures
        lex(w) == Seq::<TokenView>::empty(),
{
    let e = Seq::<char>::empty();
    lemma_leading_whitespace(w, e);
    assert(w + e =~= w);
    assert(skip_whitespace(e, 0) == 0);
    assert(shift_columns(lex(e), w.len() as int) =~= Seq::<TokenView>::empty());
}

proof fn lemma_string_close_plain(s: Seq<char>, i: int, j: int)
    requires
        0 <= i <= j < s.len(),
        s[j] == '"',
        forall|k: int| i <= k < j ==> !is_control(#[trigger] s[k]) && s[k] != '"' && s[k] != '\\',
    ensures
        string_close(s, i) == Some(j),
    decreases j - i,
{
    if i < j {
        lemma_string_close_plain(s, i + 1, j);
    }
}

/// The text of a quoted string with the given body.
pub open spec fn quoted(body: Seq<char>) -> Seq<char> {
    seq!['"'] + body + seq!['"']
}

/// A quoted body with no quote, backslash or control character is one
/// string token holding that body.
pub proof fn lemma_plain_string_alone(body: Seq<char>)
    requires
        forall|k: int|
            0 <= k < body.len() ==> !is_control(#[trigger] body[k]) && body[k] != '"' && body[k]
                != '\\',
    ensures
        lex(quoted(body)) == seq![TokenView { kind: TokenKind::Str(body), position: 1 }],
{
    let s = quoted(body);
    let close = body.len() + 1int;
    assert forall|k: int| 1 <= k < close implies !is_control(#[trigger] s[k]) && s[k] != '"'
        && s[k] != '\\' by {
        assert(s[k] == body[k - 1]);
    }
    lemma_string_close_plain(s, 1, close);
    assert(s.subrange(1, close) =~= body);
    assert(skip_whitespace(s, 0) == 0);
    lemma_nothing_at_end(s);
    assert(lex(s) =~= seq![TokenView { kind: TokenKind::Str(body), position: 1 }]);
}

/// A valid escape sequence, alone in a quoted string, is kept as written:
/// a backslash and one of `" \ / b f n r t`, or `\u` and four hex digits.
pub proof fn lemma_escape_kept(escape: Seq<char>)
    requires
        (escape.len() == 2 && escape[0] == '\\' && is_simple_escape(escape[1])) || (escape.len()
            == 6 && escape[0] == '\\' && escape[1] == 'u' && is_hex_digit(escape[2])
            && is_hex_digit(escape[3]) && is_hex_digit(escape[4]) && is_hex_digit(escape[5])),
    ensures
        lex(quoted(escape)) == seq![TokenView { kind: TokenKind::Str(escape), position: 1 }],
{
    let s = quoted(escape);
    let close = escape.len() + 1int;
    assert forall|k: int| 1 <= k < close implies s[k] == escape[k - 1] by {}
    assert(s[close] == '"');
    assert(escape_len(s, 1) == Some(escape.len() as int));
    assert(string_close(s, close) == Some(close));
    assert(string_close(s, 1) == Some(close));
    assert(s.subrange(1, close) =~= escape);
    assert(skip_whitespace(s, 0) == 0);
    lemma_nothing_at_end(s);
    assert(lex(s) =~= seq![TokenView { kind: TokenKind::Str(escape), position: 1 }]);
}

/// A backslash followed by a character outside `" \ / b f n r t u` at the
/// start of a string body gives no token, whatever follows.
pub proof fn lemma_invalid_escape(c: char, rest: Seq<char>)
    requires
        !is_simple_escape(c),
        c != 'u',
    ensures
        lex(seq!['"', '\\', c] + rest) == Seq::<TokenView>::empty(),
{
    let s = seq!['"', '\\', c] + rest;
    assert(s[1] == '\\' && s[2] == c);
    assert(escape_len(s, 1) is None);
    assert(string_close(s, 1) is None);
    assert(skip_whitespace(s, 0) == 0);
}

/// A `\u` followed by fewer than four hex digits before the end of the text
/// gives no token.
pub proof fn lemma_short_unicode_escape(digits: Seq<char>)
    requires
        digits.len() < 4,
    ensures
        lex(seq!['"', '\\', 'u'] + digits) == Seq::<TokenView>::empty(),
{
    let s = seq!['"', '\\', 'u'] + digits;
    assert(s[1] == '\\' && s[2] == 'u');
    assert(escape_len(s, 1) is None);
    assert(string_close(s, 1) is None);
    assert(skip_whitespace(s, 0) == 0);
}

/// The tokens read by stepping from `from`, when the steps land exactly on
/// `to`: `Some` of them if so, `None` if a step fails or passes over `to`.
pub open spec fn tokens_until(s: Seq<char>, from: int, to: int) -> Option<Seq<TokenView>>
    decreases to - from,
{
    if from >= to {
        if from == to {
            Some(Seq::empty())
        } else {
            None
        }
    } else {
        match next_token_at(s, from) {
            None => None,
            Some((t, next)) => {
                proof {
                    lemma_next_token_advances(s, from);
                }
                if next <= to {
                    match tokens_until(s, next, to) {
                        None => None,
                        Some(rest) => Some(seq![t] + rest),
                    }
                } else {
                    None
                }
            },
        }
    }
}

proof fn lemma_tokens_until_split(s: Seq<char>, from: int, to: int)
    requires
        tokens_until(s, from, to) is Some,
    ensures
        tokens_from(s, from) == tokens_until(s, from, to)->0 + tokens_from(s, to),
    decreases to - from,
{
    if from == to {
        assert(Seq::<TokenView>::empty() + tokens_from(s, to) =~= tokens_from(s, to));
    } else {
        lemma_next_token_advances(s, from);
        let (t, next) = next_token_at(s, from)->0;
        lemma_tokens_until_split(s, next, to);
        let rest = tokens_until(s, next, to)->0;
        assert(seq![t] + rest + tokens_from(s, to) =~= seq![t] + (rest + tokens_from(s, to)));
    }
}

/// `s2` has the characters of `s1` before `hi`, and whitespace at `hi`.
spec fn same_then_space(s1: Seq<char>, s2: Seq<char>, hi: int) -> bool {
    &&& 0 <= hi <= s1.len()
    &&& hi < s2.len()
    &&& is_whitespace(s2[hi])
    &&& forall|k: int| 0 <= k < hi ==> s1[k] == s2[k]
}

proof fn lemma_digits_end_local(s1: Seq<char>, s2: Seq<char>, hi: int, i: int)
    requires
        same_then_space(s1, s2, hi),
        0 <= i,
        digits_end(s1, i) <= hi,
    ensures
        digits_end(s2, i) == digits_end(s1, i),
    decreases s1.len() - i,
{
    if i < s1.len() && is_digit(s1[i]) {
        lemma_digits_end_bounds(s1, i + 1);
        assert(s1[i] == s2[i]);
        lemma_digits_end_local(s1, s2, hi, i + 1);
    } else if i < hi {
        assert(s1[i] == s2[i]);
    }
}

proof fn lemma_fraction_end_local(s1: Seq<char>, s2: Seq<char>, hi: int, i: int)
    requires
        same_then_space(s1, s2, hi),
        0 <= i <= hi,
        fraction_end(s1, i) matches Some(j) && j <= hi,
    ensures
        fraction_end(s2, i) == fraction_end(s1, i),
{
    if i < hi {
        assert(s1[i] == s2[i]);
        if s1[i] == '.' {
            lemma_digits_end_local(s1, s2, hi, i + 1);
        }
    } else if i < s1.len() && s1[i] == '.' {
        lemma_digits_end_bounds(s1, i + 1);
    }
}

proof fn lemma_exponent_end_local(s1: Seq<char>, s2: Seq<char>, hi: int, i: int)
    requires
        same_then_space(s1, s2, hi),
        0 <= i <= hi,
        exponent_end(s1, i) matches Some(j) && j <= hi,
    ensures
        exponent_end(s2, i) == exponent_end(s1, i),
{
    if i < s1.len() && s1[i] == 'e' {
        lemma_digits_end_bounds(s1, i + 1);
        lemma_digits_end_bounds(s1, i + 2);
        if i < hi {
            assert(s1[i] == s2[i]);
            assert(i + 1 < hi);
            assert(s1[i + 1] == s2[i + 1]);
            lemma_digits_end_local(s1, s2, hi, i + 1);
            lemma_digits_end_local(s1, s2, hi, i + 2);
        }
    } else if i < hi {
        assert(s1[i] == s2[i]);
    }
}

proof fn lemma_number_token_local(s1: Seq<char>, s2: Seq<char>, hi: int, start: int, first: int)
    requires
        same_then_space(s1, s2, hi),
        0 <= start <= first,
        number_token(s1, start, first) matches Some((_, end)) && end <= hi,
    ensures
        number_token(s2, start, first) == number_token(s1, start, first),
{
    let int_end = digits_end(s1, first + 1);
    lemma_digits_end_bounds(s1, first + 1);
    lemma_digits_end_bounds(s1, int_end + 1);
    let frac_end = fraction_end(s1, int_end)->0;
    lemma_digits_end_bounds(s1, frac_end + 1);
    lemma_digits_end_bounds(s1, frac_end + 2);
    let end = exponent_end(s1, frac_end)->0;
    lemma_digits_end_local(s1, s2, hi, first + 1);
    lemma_fraction_end_local(s1, s2, hi, int_end);
    lemma_exponent_end_local(s1, s2, hi, frac_end);
    assert(s2.subrange(start, end) =~= s1.subrange(start, end));
}

proof fn lemma_string_close_local(s1: Seq<char>, s2: Seq<char>, hi: int, i: int)
    requires
        same_then_space(s1, s2, hi),
        0 <= i,
        string_close(s1, i) matches Some(c) && c < hi,
    ensures
        string_close(s2, i) == string_close(s1, i),
    decreases s1.len() - i,
{
    lemma_string_close_bounds(s1, i);
    assert(s1[i] == s2[i]);
    if s1[i] == '\\' {
        let n = escape_len(s1, i)->0;
        lemma_string_close_bounds(s1, i + n);
        assert(s1[i + 1] == s2[i + 1]);
        if n == 6 {
            assert(s1[i + 2] == s2[i + 2]);
            assert(s1[i + 3] == s2[i + 3]);
            assert(s1[i + 4] == s2[i + 4]);
            assert(s1[i + 5] == s2[i + 5]);
        }
        assert(escape_len(s2, i) == escape_len(s1, i));
        lemma_string_close_local(s1, s2, hi, i + n);
    } else if s1[i] != '"' {
        lemma_string_close_local(s1, s2, hi, i + 1);
    }
}

proof fn lemma_skip_whitespace_local(s1: Seq<char>, s2: Seq<char>, hi: int, i: int)
    requires
        same_then_space(s1, s2, hi),
        0 <= i,
        skip_whitespace(s1, i) < hi,
    ensures
        skip_whitespace(s2, i) == skip_whitespace(s1, i),
    decreases s1.len() - i,
{
    lemma_skip_whitespace_bounds(s1, i + 1);
    assert(s1[i] == s2[i]);
    if is_whitespace(s1[i]) {
        lemma_skip_whitespace_local(s1, s2, hi, i + 1);
    }
}

proof fn lemma_next_token_local(s1: Seq<char>, s2: Seq<char>, hi: int, from: int)
    requires
        same_then_space(s1, s2, hi),
        0 <= from,
        next_token_at(s1, from) matches Some((_, next)) && next <= hi,
    ensures
        next_token_at(s2, from) == next_token_at(s1, from),
{
    lemma_skip_whitespace_bounds(s1, from);
    let k = skip_whitespace(s1, from);
    lemma_token_at_bounds(s1, k);
    lemma_skip_whitespace_local(s1, s2, hi, from);
    assert(s1[k] == s2[k]);
    let c = s1[k];
    if is_digit(c) {
        lemma_number_token_local(s1, s2, hi, k, k);
    } else if c == '"' {
        lemma_string_close_local(s1, s2, hi, k + 1);
        let close = string_close(s1, k + 1)->0;
        lemma_string_close_bounds(s1, k + 1);
        assert(s2.subrange(k + 1, close) =~= s1.subrange(k + 1, close));
    } else if c == '-' {
        lemma_digits_end_bounds(s1, k + 2);
        let int_end = digits_end(s1, k + 2);
        lemma_digits_end_bounds(s1, int_end + 1);
        let frac_end = fraction_end(s1, int_end)->0;
        lemma_digits_end_bounds(s1, frac_end + 1);
        lemma_digits_end_bounds(s1, frac_end + 2);
        assert(s1[k + 1] == s2[k + 1]);
        lemma_number_token_local(s1, s2, hi, k, k + 1);
    }
}

proof fn lemma_tokens_until_local(s1: Seq<char>, s2: Seq<char>, hi: int, from: int)
    requires
        same_then_space(s1, s2, hi),
        0 <= from,
        tokens_until(s1, from, hi) is Some,
    ensures
        tokens_until(s2, from, hi) == tokens_until(s1, from, hi),
    decreases hi - from,
{
    if from < hi {
        lemma_next_token_advances(s1, from);
        lemma_next_token_local(s1, s2, hi, from);
        let (_, next) = next_token_at(s1, from)->0;
        lemma_tokens_until_local(s1, s2, hi, next);
    }
}

/// Whitespace inserted where one token ends adds no token: when stepping
/// through `a + b` lands exactly on the end of `a`, putting `w` there keeps
/// the tokens read from `a` with their columns, and moves every later column
/// right by the length of `w`.
pub proof fn lemma_whitespace_between_tokens(a: Seq<char>, w: Seq<char>, b: Seq<char>)
    requires
        forall|k: int| 0 <= k < w.len() ==> is_whitespace(#[trigger] w[k]),
        tokens_until(a + b, 0, a.len() as int) is Some,
    ensures
        lex(a + b) == tokens_until(a + b, 0, a.len() as int)->0 + tokens_from(
            a + b,
            a.len() as int,
        ),
        lex(a + w + b) == tokens_until(a + b, 0, a.len() as int)->0 + shift_columns(
            tokens_from(a + b, a.len() as int),
            w.len() as int,
        ),
{
    let s1 = a + b;
    let s2 = a + w + b;
    let hi = a.len() as int;
    let p = tokens_until(s1, 0, hi)->0;
    lemma_tokens_until_split(s1, 0, hi);
    lemma_tokens_from_shift(a, b, 0);
    let rest = tokens_from(b, 0);
    if w.len() == 0 {
        assert(s2 =~= s1);
        assert(shift_columns(tokens_from(s1, hi), 0) =~= tokens_from(s1, hi));
    } else {
        assert forall|k: int| 0 <= k < hi implies s1[k] == s2[k] by {
            assert(s1[k] == a[k]);
            assert(s2[k] == (a + w)[k]);
        }
        assert(s2[hi] == (a + w)[hi]);
        assert(same_then_space(s1, s2, hi));
        lemma_tokens_until_local(s1, s2, hi, 0);
        lemma_tokens_until_split(s2, 0, hi);
        let n = hi + w.len();
        assert forall|k: int| hi <= k < n implies is_whitespace(#[trigger] s2[k]) by {
            assert(s2[k] == (a + w)[k]);
            assert((a + w)[k] == w[k - hi]);
        }
        lemma_skip_leading_whitespace(s2, hi, n);
        assert(next_token_at(s2, hi) == next_token_at(s2, n));
        assert(tokens_from(s2, hi) == tokens_from(s2, n));
        lemma_tokens_from_shift(a + w, b, 0);
        assert(shift_columns(shift_columns(rest, hi), w.len() as int) =~= shift_columns(rest, n));
    }
}

} // verus!
