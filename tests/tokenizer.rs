use json_tokenizer::{Token, TokenType, Tokenizer};

#[test]
fn simple_objects() {
    let json_str = r#"{"coolness_factor":2,"description":"This is kinda \"cool\"!"}"#;
    let mut lexer = Tokenizer::new(json_str.chars());
    let tokens = lexer.tokenize();
    let expected_tokens = vec![
        Token::new(TokenType::ObjectStart, 1),
        Token::new(TokenType::String("coolness_factor".to_string()), 2),
        Token::new(TokenType::Colon, 19),
        Token::new(TokenType::Integer("2".to_string()), 20),
        Token::new(TokenType::Comma, 21),
        Token::new(TokenType::String("description".to_string()), 22),
        Token::new(TokenType::Colon, 35),
        Token::new(TokenType::String("This is kinda \\\"cool\\\"!".to_string()), 36),
        Token::new(TokenType::ObjectEnd, 61)
    ];
    assert_eq!(tokens, expected_tokens);
}

#[test]
fn escape_sequences() {
    let json_str = r#"{"allowed":"\u0009","allowed1":"\b","allowed2":"\n","allowed3":"\\"}"#;
    let mut lexer = Tokenizer::new(json_str.chars());
    let tokens = lexer.tokenize();
    let expected_tokens = vec![
        Token::new(TokenType::ObjectStart, 1),
        Token::new(TokenType::String("allowed".to_string()), 2),
        Token::new(TokenType::Colon, 11),
        Token::new(TokenType::String("\\u0009".to_string()), 12),
        Token::new(TokenType::Comma, 20),
        Token::new(TokenType::String("allowed1".to_string()), 21),
        Token::new(TokenType::Colon, 31),
        Token::new(TokenType::String("\\b".to_string()), 32),
        Token::new(TokenType::Comma, 36),
        Token::new(TokenType::String("allowed2".to_string()), 37),
        Token::new(TokenType::Colon, 47),
        Token::new(TokenType::String("\\n".to_string()), 48),
        Token::new(TokenType::Comma, 52),
        Token::new(TokenType::String("allowed3".to_string()), 53),
        Token::new(TokenType::Colon, 63),
        Token::new(TokenType::String("\\\\".to_string()), 64),
        Token::new(TokenType::ObjectEnd, 68)
    ];
    assert_eq!(tokens, expected_tokens);
}

#[test]
fn strings() {
    let complete_string = r#""This string is completed and should be tokenized.""#;
    let mut lexer = Tokenizer::new(complete_string.chars());
    let tokens = lexer.tokenize();
    let expected_tokens = vec![
        Token::new(TokenType::String("This string is completed and should be tokenized.".to_string()), 1),
    ];
    assert_eq!(tokens, expected_tokens);

    let incomplete_string = r#""This string is missing a quotation mark at the end and should not be tokenized."#;
    let mut lexer = Tokenizer::new(incomplete_string.chars());
    let tokens = lexer.tokenize();
    let expected_tokens = vec![
        Token::new(TokenType::String("This string is missing a quotation mark at the end and should not be tokenized.}".to_string()), 1),
    ];
    assert_ne!(tokens, expected_tokens);

    let money_is_fire = r#"{"money": "ðŸ’¶=ðŸ”¥"}"#;
    let mut lexer = Tokenizer::new(money_is_fire.chars());
    let tokens = lexer.tokenize();
    let expected_tokens = vec![
        Token::new(TokenType::ObjectStart, 1),
        Token::new(TokenType::String("money".to_string()), 2),
        Token::new(TokenType::Colon, 9),
        Token::new(TokenType::String("ðŸ’¶=ðŸ”¥".to_string()), 11),
        Token::new(TokenType::ObjectEnd, 22)
    ];
    assert_eq!(tokens, expected_tokens);

    let ctrlseq = r#"{"ctrlseq": "
        "}"#;
    let mut lexer = Tokenizer::new(ctrlseq.chars());
    let tokens = lexer.tokenize();
    let expected_tokens = vec![
        Token::new(TokenType::ObjectStart, 1),
        Token::new(TokenType::String("ctrlseq".to_string()), 2),
        Token::new(TokenType::Colon, 11),
        Token::new(TokenType::String("ðŸ’¶=ðŸ”¥".to_string()), 13),
        Token::new(TokenType::ObjectEnd, 16)
    ];
    assert_ne!(tokens, expected_tokens);
}

#[test]
fn numbers() {
    let integer = r#"[5, -10, -928472]"#;
    let mut lexer = Tokenizer::new(integer.chars());
    let tokens = lexer.tokenize();
    let expected_tokens = vec![
        Token::new(TokenType::ArrayStart, 1),
        Token::new(TokenType::Integer("5".to_string()), 2),
        Token::new(TokenType::Comma, 3),
        Token::new(TokenType::Integer("-10".to_string()), 5),
        Token::new(TokenType::Comma, 8),
        Token::new(TokenType::Integer("-928472".to_string()), 10),
        Token::new(TokenType::ArrayEnd, 17),
    ];
    assert_eq!(tokens, expected_tokens);

    let float = r#"[5.23, -23.0923787687]"#;
    let mut lexer = Tokenizer::new(float.chars());
    let tokens = lexer.tokenize();
    let expected_tokens = vec![
        Token::new(TokenType::ArrayStart, 1),
        Token::new(TokenType::Float("5.23".to_string()), 2),
        Token::new(TokenType::Comma, 6),
        Token::new(TokenType::Float("-23.0923787687".to_string()), 8),
        Token::new(TokenType::ArrayEnd, 22),
    ];
    assert_eq!(tokens, expected_tokens);

    let exponents = r#"[1e2, 1.0e2, 2.0879878e243, -32.928e-54, -32.928e+54]"#;
    let mut lexer = Tokenizer::new(exponents.chars());
    let tokens = lexer.tokenize();
    let expected_tokens = vec![
        Token::new(TokenType::ArrayStart, 1),
        Token::new(TokenType::Integer("1e2".to_string()), 2),
        Token::new(TokenType::Comma, 5),
        Token::new(TokenType::Float("1.0e2".to_string()), 7),
        Token::new(TokenType::Comma, 12),
        Token::new(TokenType::Float("2.0879878e243".to_string()), 14),
        Token::new(TokenType::Comma, 27),
        Token::new(TokenType::Float("-32.928e-54".to_string()), 29),
        Token::new(TokenType::Comma, 40),
        Token::new(TokenType::Float("-32.928e+54".to_string()), 42),
        Token::new(TokenType::ArrayEnd, 53),
    ];
    assert_eq!(tokens, expected_tokens);

    let do_not_recognize = r#"5."#;
    let mut lexer = Tokenizer::new(do_not_recognize.chars());
    let tokens = lexer.tokenize();
    let expected_tokens = vec![];
    assert_eq!(tokens, expected_tokens);

    let do_not_recognize = r#"+5"#;
    let mut lexer = Tokenizer::new(do_not_recognize.chars());
    let tokens = lexer.tokenize();
    let expected_tokens = vec![];
    assert_eq!(tokens, expected_tokens);
}
