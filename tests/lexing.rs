use json_tokenizer::{Token, TokenType, Tokenizer};

fn lex(text: &str) -> Vec<Token> {
    Tokenizer::new(text.chars()).tokenize()
}

fn integer(text: &str, position: i32) -> Token {
    Token::new(TokenType::Integer(text.to_string()), position)
}

fn float(text: &str, position: i32) -> Token {
    Token::new(TokenType::Float(text.to_string()), position)
}

fn string(body: &str, position: i32) -> Token {
    Token::new(TokenType::String(body.to_string()), position)
}

#[test]
fn structural_characters_alone() {
    assert_eq!(lex("{"), vec![Token::new(TokenType::ObjectStart, 1)]);
    assert_eq!(lex("}"), vec![Token::new(TokenType::ObjectEnd, 1)]);
    assert_eq!(lex("["), vec![Token::new(TokenType::ArrayStart, 1)]);
    assert_eq!(lex("]"), vec![Token::new(TokenType::ArrayEnd, 1)]);
    assert_eq!(lex(":"), vec![Token::new(TokenType::Colon, 1)]);
    assert_eq!(lex(","), vec![Token::new(TokenType::Comma, 1)]);
}

#[test]
fn digit_runs_are_integers() {
    assert_eq!(lex("0"), vec![integer("0", 1)]);
    assert_eq!(lex("5"), vec![integer("5", 1)]);
    assert_eq!(lex("007"), vec![integer("007", 1)]);
    assert_eq!(lex("1234567890"), vec![integer("1234567890", 1)]);
    assert_eq!(lex("-42"), vec![integer("-42", 1)]);
}

#[test]
fn fractions_are_floats() {
    assert_eq!(lex("3.14"), vec![float("3.14", 1)]);
    assert_eq!(lex("-0.5"), vec![float("-0.5", 1)]);
    assert_eq!(lex("10.000"), vec![float("10.000", 1)]);
}

#[test]
fn exponent_does_not_make_a_float() {
    assert_eq!(lex("1e2"), vec![integer("1e2", 1)]);
    assert_eq!(lex("1e+2"), vec![integer("1e+2", 1)]);
    assert_eq!(lex("-7e-3"), vec![integer("-7e-3", 1)]);
    assert_eq!(lex("1.0e2"), vec![float("1.0e2", 1)]);
    assert_eq!(lex("2.0879878e243"), vec![float("2.0879878e243", 1)]);
    assert_eq!(lex("-32.928e-54"), vec![float("-32.928e-54", 1)]);
    assert_eq!(lex("-32.928e+54"), vec![float("-32.928e+54", 1)]);
}

#[test]
fn malformed_numbers_end_the_sequence() {
    assert_eq!(lex("5."), vec![]);
    assert_eq!(lex("+5"), vec![]);
    assert_eq!(lex("1e"), vec![]);
    assert_eq!(lex("1e+"), vec![]);
    assert_eq!(lex("1.e5"), vec![]);
    assert_eq!(lex("-"), vec![]);
    assert_eq!(lex("- 5"), vec![]);
    assert_eq!(lex("-a"), vec![]);
    assert_eq!(lex("[1.5e, 2]"), vec![Token::new(TokenType::ArrayStart, 1)]);
}

#[test]
fn number_stops_before_other_characters() {
    assert_eq!(
        lex("1.2.3"),
        vec![float("1.2", 1)]
    );
    assert_eq!(lex("1E5"), vec![integer("1", 1)]);
    assert_eq!(lex("12}"), vec![integer("12", 1), Token::new(TokenType::ObjectEnd, 3)]);
}

#[test]
fn escapes_are_kept_as_written() {
    let text = r#""\"\\\/\b\f\n\r\téꯍ""#;
    assert_eq!(lex(text), vec![string(r#"\"\\\/\b\f\n\r\téꯍ"#, 1)]);
}

#[test]
fn invalid_escapes_fail() {
    assert_eq!(lex(r#""\x""#), vec![]);
    assert_eq!(lex(r#""\u12G4""#), vec![]);
    assert_eq!(lex(r#""\u12""#), vec![]);
    assert_eq!(lex(r#""\u"#), vec![]);
    assert_eq!(lex("\"\\"), vec![]);
    assert_eq!(lex(r#"["ok", "\q"]"#), vec![
        Token::new(TokenType::ArrayStart, 1),
        string("ok", 2),
        Token::new(TokenType::Comma, 6),
    ]);
}

#[test]
fn control_characters_in_strings_fail() {
    assert_eq!(lex("\"a\nb\""), vec![]);
    assert_eq!(lex("\"\t\""), vec![]);
    assert_eq!(lex("\"a\u{7f}\""), vec![]);
    assert_eq!(lex("\"a\u{9f}\""), vec![]);
    assert_eq!(lex("\"a\u{a0}\""), vec![string("a\u{a0}", 1)]);
}

#[test]
fn unterminated_string_fails() {
    assert_eq!(lex("\"abc"), vec![]);
    assert_eq!(lex("\""), vec![]);
    assert_eq!(lex("\"\""), vec![string("", 1)]);
}

#[test]
fn unrecognized_character_truncates() {
    assert_eq!(lex("true"), vec![]);
    assert_eq!(
        lex("[1, x, 2]"),
        vec![Token::new(TokenType::ArrayStart, 1), integer("1", 2), Token::new(TokenType::Comma, 3)]
    );
}

#[test]
fn tokenizing_twice_gives_the_same_tokens() {
    let text = r#"{"a": [1, 2.5, -3e4, "x\ty"], "b": "A"}"#;
    assert_eq!(lex(text), lex(text));
    assert_eq!(lex("5."), lex("5."));
}

#[test]
fn whitespace_makes_no_tokens() {
    assert_eq!(lex(""), vec![]);
    assert_eq!(lex(" \t\n\r  "), vec![]);
    assert_eq!(
        lex(" \t{ \n}\r"),
        vec![Token::new(TokenType::ObjectStart, 3), Token::new(TokenType::ObjectEnd, 6)]
    );
    assert_eq!(lex("\n\n7"), vec![integer("7", 3)]);
}

#[test]
fn multibyte_characters_count_as_one_column() {
    let text = "{\"money\": \"\u{1f4b6}=\u{1f525}\"}";
    assert_eq!(
        lex(text),
        vec![
            Token::new(TokenType::ObjectStart, 1),
            string("money", 2),
            Token::new(TokenType::Colon, 9),
            string("\u{1f4b6}=\u{1f525}", 11),
            Token::new(TokenType::ObjectEnd, 16),
        ]
    );
}

#[test]
fn stepping_one_token_at_a_time() {
    let mut lexer = Tokenizer::new("[ 1,".chars());
    assert_eq!(lexer.next_token(), Some(Token::new(TokenType::ArrayStart, 1)));
    assert_eq!(lexer.next_token(), Some(integer("1", 3)));
    assert_eq!(lexer.next_token(), Some(Token::new(TokenType::Comma, 4)));
    assert_eq!(lexer.next_token(), None);
    assert_eq!(lexer.next_token(), None);
}

#[test]
fn next_char_reads_each_character_once() {
    let mut lexer = Tokenizer::new("a\u{e9}".chars());
    assert_eq!(lexer.next_char(), Some('a'));
    assert_eq!(lexer.next_char(), Some('\u{e9}'));
    assert_eq!(lexer.next_char(), None);
    assert_eq!(lexer.tokenize(), vec![]);
}

#[test]
fn single_escapes_alone() {
    assert_eq!(lex(r#""\n""#), vec![string(r#"\n"#, 1)]);
    assert_eq!(lex(r#""\/""#), vec![string(r#"\/"#, 1)]);
    assert_eq!(lex(r#""é""#), vec![string(r#"é"#, 1)]);
    assert_eq!(lex(r#""ꯍ""#), vec![string(r#"ꯍ"#, 1)]);
    assert_eq!(lex(r#""plain text""#), vec![string("plain text", 1)]);
}

#[test]
fn whitespace_between_tokens_only_moves_columns() {
    assert_eq!(
        lex("[1,\"a\"]"),
        vec![
            Token::new(TokenType::ArrayStart, 1),
            integer("1", 2),
            Token::new(TokenType::Comma, 3),
            string("a", 4),
            Token::new(TokenType::ArrayEnd, 7),
        ]
    );
    assert_eq!(
        lex("[1 \t,\n\"a\"\r ]"),
        vec![
            Token::new(TokenType::ArrayStart, 1),
            integer("1", 2),
            Token::new(TokenType::Comma, 5),
            string("a", 7),
            Token::new(TokenType::ArrayEnd, 12),
        ]
    );
}

#[test]
fn nothing_is_read_after_the_end() {
    let mut lexer = Tokenizer::new("{ } \n ".chars());
    assert_eq!(lexer.next_token(), Some(Token::new(TokenType::ObjectStart, 1)));
    assert_eq!(lexer.next_token(), Some(Token::new(TokenType::ObjectEnd, 3)));
    assert_eq!(lexer.next_token(), None);
    assert_eq!(lexer.next_token(), None);
    assert_eq!(lexer.tokenize(), vec![]);
    assert_eq!(lexer.next_char(), None);
}
