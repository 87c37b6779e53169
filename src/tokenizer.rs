use std::str::Chars;
use vstd::prelude::*;
use vstd::std_specs::iter::IteratorSpec;
use crate::grammar::{
    digits_end, escape_len, exponent_end, fraction_end, is_control, is_digit, is_hex_digit,
    is_simple_escape, is_whitespace, lemma_next_token_advances, lemma_skip_whitespace_bounds,
    next_token_at, number_token, skip_whitespace, string_close, tokens_from,
};
use crate::token::{Token, TokenKind, TokenType, TokenView};

verus! {

/// Number of line feeds among the first `n` characters of `s`.
pub open spec fn newlines_before(s: Seq<char>, n: int) -> int
    decreases n,
{
    if n <= 0 {
        0
    } else {
        newlines_before(s, n - 1) + if s[n - 1] == '\n' { 1int } else { 0int }
    }
}

proof fn lemma_newlines_before_bound(s: Seq<char>, n: int)
    requires
        0 <= n,
    ensures
        0 <= newlines_before(s, n) <= n,
    decreases n,
{
    if n > 0 {
        lemma_newlines_before_bound(s, n - 1);
    }
}

/// Relies on `String::push`: appends one character at the end.
#[verifier::external_body]
fn push_char(s: &mut String, c: char)
    ensures
        final(s)@ == old(s)@.push(c),
{
    s.push(c);
}

fn is_whitespace_char(c: char) -> (r: bool)
    ensures
        r == is_whitespace(c),
{
    c == ' ' || c == '\t' || c == '\n' || c == '\r'
}

fn is_digit_char(c: char) -> (r: bool)
    ensures
        r == is_digit(c),
{
    '0' <= c && c <= '9'
}

fn is_hex_digit_char(c: char) -> (r: bool)
    ensures
        r == is_hex_digit(c),
{
    is_digit_char(c) || ('a' <= c && c <= 'f') || ('A' <= c && c <= 'F')
}

fn is_simple_escape_char(c: char) -> (r: bool)
    ensures
        r == is_simple_escape(c),
{
    c == '"' || c == '\\' || c == '/' || c == 'b' || c == 'f' || c == 'n' || c == 'r' || c == 't'
}

fn is_control_char(c: char) -> (r: bool)
    ensures
        r == is_control(c),
{
    c <= '\u{1f}' || ('\u{7f}' <= c && c <= '\u{9f}')
}

/// A forward-only scanner over the characters of a JSON text.
pub struct Tokenizer {
    source: Vec<char>,
    cursor: usize,
    current_col: i32,
    current_line: i32,
    token_start_col: i32,
}

impl Tokenizer {
    /// The characters being scanned.
    pub closed spec fn text(&self) -> Seq<char> {
        self.source@
    }

    /// Number of characters consumed so far.
    pub closed spec fn offset(&self) -> int {
        self.cursor as int
    }

    /// The line of the cursor, counted from 1.
    pub closed spec fn line(&self) -> int {
        self.current_line as int
    }

    /// The column at which the token being read began.
    pub closed spec fn token_start(&self) -> int {
        self.token_start_col as int
    }

    /// The scanner's invariant: the text fits the `i32` columns, and the
    /// column and line counters agree with the cursor.
    pub closed spec fn wf(&self) -> bool {
        &&& self.source@.len() < i32::MAX
        &&& self.cursor <= self.source@.len()
        &&& self.current_col == self.cursor
        &&& self.current_line == 1 + newlines_before(self.source@, self.cursor as int)
    }

    /// A scanner at the start of the characters that `input` yields. An
    /// iterator from `str::chars` meets both requirements for any text of
    /// fewer than `i32::MAX` characters.
    pub fn new(input: Chars) -> (r: Tokenizer)
        requires
            input.remaining().len() < i32::MAX,
            input.decrease() is Some,
        ensures
            r.wf(),
            r.text() == input.remaining(),
            r.offset() == 0,
            r.line() == 1,
            r.token_start() == 0,
    {
        let mut chars = input;
        let mut source: Vec<char> = Vec::new();
        loop
            invariant_except_break
                chars.decrease() is Some,
            invariant
                source@ + chars.remaining() == input.remaining(),
            ensures
                source@ == input.remaining(),
            decreases chars.decrease()->0,
        {
            match chars.next() {
                Some(c) => source.push(c),
                None => break,
            }
        }
        Tokenizer { source, cursor: 0, current_col: 0, current_line: 1, token_start_col: 0 }
    }

    /// Reads the whole input, or up to the first lexical failure, as a
    /// sequence of tokens. A failure is not reported: the sequence just ends.
    pub fn tokenize(&mut self) -> (r: Vec<Token>)
        requires
            old(self).wf(),
        ensures
            final(self).wf(),
            final(self).text() == old(self).text(),
            r@.map_values(|t: Token| t@) == tokens_from(old(self).text(), old(self).offset()),
    {
        let ghost s = self.text();
        let ghost start = self.offset();
        let mut tokens: Vec<Token> = Vec::new();
        loop
            invariant_except_break
                self.wf(),
                self.text() == s,
                tokens@.map_values(|t: Token| t@) + tokens_from(s, self.offset()) == tokens_from(
                    s,
                    start,
                ),
            ensures
                self.wf(),
                self.text() == s,
                tokens@.map_values(|t: Token| t@) == tokens_from(s, start),
            decreases s.len() - self.offset(),
        {
            let ghost before = tokens@.map_values(|t: Token| t@);
            let ghost at = self.offset();
            proof {
                lemma_next_token_advances(s, at);
            }
            match self.next_token() {
                Some(token) => {
                    let ghost view = token@;
                    tokens.push(token);
                    assert(tokens@.map_values(|t: Token| t@) =~= before.push(view));
                    assert(before.push(view) + tokens_from(s, self.offset()) =~= before + (seq![
                        view,
                    ] + tokens_from(s, self.offset())));
                    assert(tokens_from(s, at) == seq![view] + tokens_from(s, self.offset()));
                },
                None => {
                    assert(tokens_from(s, at) == Seq::<TokenView>::empty());
                    assert(before + tokens_from(s, at) =~= before);
                    break;
                },
            }
        }
        tokens
    }

    /// Skips whitespace and reads one token. `None` both at the end of the
    /// input and on a lexical failure.
    pub fn next_token(&mut self) -> (r: Option<Token>)
        requires
            old(self).wf(),
        ensures
            final(self).wf(),
            final(self).text() == old(self).text(),
            match next_token_at(old(self).text(), old(self).offset()) {
                None => {
                    &&& r is None
                    &&& old(self).offset() <= final(self).offset() <= old(self).text().len()
                    &&& skip_whitespace(old(self).text(), old(self).offset())
                        >= old(self).text().len() ==> final(self).offset()
                        == old(self).text().len()
                },
                Some((t, next)) => r matches Some(token) && token@ == t && final(self).offset()
                    == next,
            },
    {
        let ghost s = self.text();
        proof {
            lemma_skip_whitespace_bounds(s, self.offset());
        }
        let c = match self.skip_whitespaces() {
            Some(c) => c,
            None => return None,
        };
        let col = self.current_col;
        if c == '{' {
            Some(Token::new(TokenType::ObjectStart, col))
        } else if c == '}' {
            Some(Token::new(TokenType::ObjectEnd, col))
        } else if c == '[' {
            Some(Token::new(TokenType::ArrayStart, col))
        } else if c == ']' {
            Some(Token::new(TokenType::ArrayEnd, col))
        } else if c == ':' {
            Some(Token::new(TokenType::Colon, col))
        } else if c == ',' {
            Some(Token::new(TokenType::Comma, col))
        } else if is_digit_char(c) {
            self.token_start_col = col;
            self.tokenize_number(true)
        } else if c == '"' {
            self.token_start_col = col;
            self.tokenize_string()
        } else if c == '-' {
            self.token_start_col = col;
            match self.next_char() {
                Some(d) => {
                    if is_digit_char(d) {
                        self.tokenize_number(false)
                    } else {
                        None
                    }
                },
                None => None,
            }
        } else {
            None
        }
    }

    /// Reads a number whose first digit has just been consumed, preceded by
    /// a minus sign unless `positive`.
    fn tokenize_number(&mut self, positive: bool) -> (r: Option<Token>)
        requires
            old(self).wf(),
            old(self).offset() >= (if positive { 1int } else { 2int }),
            is_digit(old(self).text()[old(self).offset() - 1]),
            !positive ==> old(self).text()[old(self).offset() - 2] == '-',
            old(self).token_start() == old(self).offset() - (if positive { 0int } else { 1int }),
        ensures
            final(self).wf(),
            final(self).text() == old(self).text(),
            old(self).offset() <= final(self).offset(),
            ({
                let first = old(self).offset() - 1;
                let start = if positive { first } else { first - 1 };
                match number_token(old(self).text(), start, first) {
                    None => r is None,
                    Some((kind, end)) => r matches Some(token) && token@ == (TokenView {
                        kind,
                        position: start + 1,
                    }) && final(self).offset() == end,
                }
            }),
    {
        let ghost s = self.text();
        let ghost first = self.offset() - 1;
        let ghost start = if positive { first } else { first - 1 };
        let mut number = String::new();
        if !positive {
            push_char(&mut number, '-');
        }
        push_char(&mut number, self.source[self.cursor - 1]);
        assert(number@ =~= s.subrange(start, self.offset()));
        self.handle_integer(&mut number);
        assert(number@ =~= s.subrange(start, self.offset()));
        let ghost int_end = self.offset();
        let mut is_float = false;
        if self.next_is('.') {
            self.next_char();
            push_char(&mut number, '.');
            assert(number@ =~= s.subrange(start, self.offset()));
            let digits = self.cursor;
            self.handle_integer(&mut number);
            assert(number@ =~= s.subrange(start, self.offset()));
            if self.cursor == digits {
                return None;
            }
            is_float = true;
        }
        assert(number@ =~= s.subrange(start, self.offset()));
        let ghost frac_end = self.offset();
        assert(fraction_end(s, int_end) == Some(frac_end));
        if self.next_is('e') {
            self.next_char();
            push_char(&mut number, 'e');
            if self.next_is('+') || self.next_is('-') {
                let sign = self.source[self.cursor];
                self.next_char();
                push_char(&mut number, sign);
            }
            let digits = self.cursor;
            self.handle_integer(&mut number);
            if self.cursor == digits {
                return None;
            }
        }
        assert(number@ =~= s.subrange(start, self.offset()));
        assert(exponent_end(s, frac_end) == Some(self.offset()));
        let token_type = if is_float {
            TokenType::Float(number)
        } else {
            TokenType::Integer(number)
        };
        Some(Token::new(token_type, self.token_start_col))
    }

    /// Consumes a run of decimal digits and appends it to `number`.
    fn handle_integer(&mut self, number: &mut String)
        requires
            old(self).wf(),
        ensures
            final(self).wf(),
            final(self).text() == old(self).text(),
            final(self).token_start() == old(self).token_start(),
            old(self).offset() <= final(self).offset() <= old(self).text().len(),
            final(self).offset() == digits_end(old(self).text(), old(self).offset()),
            final(number)@ == old(number)@ + old(self).text().subrange(
                old(self).offset(),
                final(self).offset(),
            ),
    {
        let ghost s = self.text();
        let ghost start = self.offset();
        let ghost prefix = number@;
        loop
            invariant
                self.wf(),
                self.text() == s,
                self.token_start() == old(self).token_start(),
                0 <= start <= self.offset(),
                digits_end(s, self.offset()) == digits_end(s, start),
                number@ == prefix + s.subrange(start, self.offset()),
            ensures
                self.wf(),
                self.text() == s,
                self.token_start() == old(self).token_start(),
                start <= self.offset() <= s.len(),
                self.offset() == digits_end(s, start),
                number@ == prefix + s.subrange(start, self.offset()),
            decreases s.len() - self.offset(),
        {
            match self.peek() {
                Some(c) => {
                    if !is_digit_char(c) {
                        break;
                    }
                    self.next_char();
                    push_char(number, c);
                    assert(prefix + s.subrange(start, self.offset()) =~= (prefix + s.subrange(
                        start,
                        self.offset() - 1,
                    )).push(c));
                },
                None => break,
            }
        }
    }

    /// Reads a string whose opening quote has just been consumed. Escape
    /// sequences are checked and kept as they are written.
    fn tokenize_string(&mut self) -> (r: Option<Token>)
        requires
            old(self).wf(),
            old(self).offset() >= 1,
            old(self).text()[old(self).offset() - 1] == '"',
            old(self).token_start() == old(self).offset(),
        ensures
            final(self).wf(),
            final(self).text() == old(self).text(),
            old(self).offset() <= final(self).offset(),
            match string_close(old(self).text(), old(self).offset()) {
                None => r is None,
                Some(close) => r matches Some(token) && token@ == (TokenView {
                    kind: TokenKind::Str(old(self).text().subrange(old(self).offset(), close)),
                    position: old(self).offset(),
                }) && final(self).offset() == close + 1,
            },
    {
        let ghost s = self.text();
        let ghost body = self.offset();
        let mut string_val = String::new();
        let mut result: Option<Token> = None;
        loop
            invariant_except_break
                result is None,
                self.wf(),
                self.text() == s,
                self.token_start() == body,
                1 <= body <= self.offset(),
                string_close(s, self.offset()) == string_close(s, body),
                string_val@ == s.subrange(body, self.offset()),
            ensures
                self.wf(),
                self.text() == s,
                body <= self.offset(),
                match string_close(s, body) {
                    None => result is None,
                    Some(close) => result matches Some(token) && token@ == (TokenView {
                        kind: TokenKind::Str(s.subrange(body, close)),
                        position: body,
                    }) && self.offset() == close + 1,
                },
            decreases s.len() - self.offset(),
        {
            match self.peek() {
                None => break,
                Some(c) => {
                    if is_control_char(c) {
                        break;
                    }
                    if c == '"' {
                        self.next_char();
                        result = Some(Token::new(TokenType::String(string_val), self.token_start_col));
                        break;
                    }
                    if c == '\\' {
                        if !self.handle_escapes(&mut string_val) {
                            break;
                        }
                    } else {
                        self.next_char();
                        push_char(&mut string_val, c);
                    }
                    assert(string_val@ =~= s.subrange(body, self.offset()));
                },
            }
        }
        result
    }

    /// Checks the escape sequence whose backslash is the next character,
    /// consumes it and appends it, as written, to `out`.
    fn handle_escapes(&mut self, out: &mut String) -> (r: bool)
        requires
            old(self).wf(),
            old(self).offset() < old(self).text().len(),
            old(self).text()[old(self).offset()] == '\\',
        ensures
            final(self).wf(),
            final(self).text() == old(self).text(),
            final(self).token_start() == old(self).token_start(),
            old(self).offset() <= final(self).offset(),
            match escape_len(old(self).text(), old(self).offset()) {
                None => !r,
                Some(n) => r && final(self).offset() == old(self).offset() + n && final(out)@
                    == old(out)@ + old(self).text().subrange(
                    old(self).offset(),
                    old(self).offset() + n,
                ),
            },
    {
        let ghost s = self.text();
        let ghost at = self.offset();
        let ghost prefix = out@;
        self.next_char();
        push_char(out, '\\');
        let c = match self.next_char() {
            Some(c) => c,
            None => return false,
        };
        push_char(out, c);
        assert(out@ =~= prefix + s.subrange(at, at + 2));
        if is_simple_escape_char(c) {
            return true;
        }
        if c != 'u' {
            return false;
        }
        let mut k: usize = 0;
        let mut valid = true;
        loop
            invariant_except_break
                valid,
                self.wf(),
                self.text() == s,
                self.token_start() == old(self).token_start(),
                k <= 4,
                0 <= at,
                self.offset() == at + 2 + k,
                s[at + 1] == 'u',
                forall|m: int| 0 <= m < k ==> is_hex_digit(#[trigger] s[at + 2 + m]),
                out@ == prefix + s.subrange(at, self.offset()),
            ensures
                self.wf(),
                self.text() == s,
                self.token_start() == old(self).token_start(),
                at <= self.offset(),
                valid ==> k == 4 && self.offset() == at + 6 && out@ == prefix + s.subrange(
                    at,
                    at + 6,
                ) && forall|m: int| 0 <= m < 4 ==> is_hex_digit(#[trigger] s[at + 2 + m]),
                !valid ==> escape_len(s, at) is None,
            decreases 4 - k,
        {
            if k == 4 {
                break;
            }
            match self.next_char() {
                Some(h) => {
                    if !is_hex_digit_char(h) {
                        valid = false;
                        break;
                    }
                    push_char(out, h);
                    assert(out@ =~= prefix + s.subrange(at, self.offset()));
                    k = k + 1;
                },
                None => {
                    valid = false;
                    break;
                },
            }
        }
        if !valid {
            return false;
        }
        assert(is_hex_digit(s[at + 2 + 0]) && is_hex_digit(s[at + 2 + 1]) && is_hex_digit(
            s[at + 2 + 2],
        ) && is_hex_digit(s[at + 2 + 3]));
        true
    }

    /// Consumes and returns the next character, if any.
    pub fn next_char(&mut self) -> (r: Option<char>)
        requires
            old(self).wf(),
        ensures
            final(self).wf(),
            final(self).text() == old(self).text(),
            final(self).token_start() == old(self).token_start(),
            old(self).offset() < old(self).text().len() ==> r == Some(
                old(self).text()[old(self).offset()],
            ) && final(self).offset() == old(self).offset() + 1,
            old(self).offset() >= old(self).text().len() ==> r is None && final(self).offset()
                == old(self).offset(),
            final(self).line() == old(self).line() + if r == Some('\n') { 1int } else { 0int },
    {
        if self.cursor < self.source.len() {
            let c = self.source[self.cursor];
            proof {
                lemma_newlines_before_bound(self.source@, self.cursor as int);
            }
            self.cursor = self.cursor + 1;
            self.current_col = self.current_col + 1;
            if c == '\n' {
                self.current_line = self.current_line + 1;
            }
            Some(c)
        } else {
            None
        }
    }

    /// The next character, not consumed.
    fn peek(&self) -> (r: Option<char>)
        requires
            self.wf(),
        ensures
            self.offset() < self.text().len() ==> r == Some(self.text()[self.offset()]),
            self.offset() >= self.text().len() ==> r is None,
    {
        if self.cursor < self.source.len() {
            Some(self.source[self.cursor])
        } else {
            None
        }
    }

    /// Whether the next character is `expected`.
    fn next_is(&self, expected: char) -> (r: bool)
        requires
            self.wf(),
        ensures
            r == (self.offset() < self.text().len() && self.text()[self.offset()] == expected),
    {
        match self.peek() {
            Some(c) => c == expected,
            None => false,
        }
    }

    /// Consumes whitespace and then one more character, which it returns.
    fn skip_whitespaces(&mut self) -> (r: Option<char>)
        requires
            old(self).wf(),
        ensures
            final(self).wf(),
            final(self).text() == old(self).text(),
            final(self).token_start() == old(self).token_start(),
            ({
                let k = skip_whitespace(old(self).text(), old(self).offset());
                if k < old(self).text().len() {
                    r == Some(old(self).text()[k]) && final(self).offset() == k + 1
                } else {
                    r is None && final(self).offset() == k
                }
            }),
    {
        let ghost s = self.text();
        let ghost k = skip_whitespace(s, self.offset());
        let mut result: Option<char> = None;
        loop
            invariant_except_break
                result is None,
                self.wf(),
                self.text() == s,
                self.token_start() == old(self).token_start(),
                skip_whitespace(s, self.offset()) == k,
            ensures
                self.wf(),
                self.text() == s,
                self.token_start() == old(self).token_start(),
                if k < s.len() {
                    result == Some(s[k]) && self.offset() == k + 1
                } else {
                    result is None && self.offset() == k
                },
            decreases s.len() - self.offset(),
        {
            match self.next_char() {
                None => break,
                Some(c) => {
                    if !is_whitespace_char(c) {
                        result = Some(c);
                        break;
                    }
                },
            }
        }
        result
    }
}

} // verus!
