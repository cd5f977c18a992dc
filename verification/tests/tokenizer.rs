use rlox::errors::TokenizeError;
use rlox::tokenizer::{Token, TokenType, Tokenizer};

fn number_bits(text: &str) -> Result<u32, std::num::ParseFloatError> {
    text.parse::<f32>().map(f32::to_bits)
}

fn tokens(content: &str) -> Vec<Result<Token, TokenizeError>> {
    let mut tokenizer = Tokenizer::new(content.as_bytes());
    let mut out = Vec::new();
    while let Some(token) = tokenizer.next_token(&number_bits) {
        let failed = token.is_err();
        out.push(token);
        if failed {
            break;
        }
    }
    out
}

fn types(content: &str) -> Vec<TokenType> {
    tokens(content).into_iter().map(|t| t.unwrap().token_type).collect()
}

#[test]
fn parse_numbers_integer() {
    assert_eq!(types("13"), [TokenType::Number(13.0f32.to_bits())])
}

#[test]
fn parse_numbers_fraction() {
    assert_eq!(types("13.0"), [TokenType::Number(13.0f32.to_bits())])
}

#[test]
fn parse_numbers_long_fraction() {
    assert_eq!(
        types("13.0000000000000000000000000"),
        [TokenType::Number(13.0f32.to_bits())]
    )
}

#[test]
fn parse_string() {
    assert_eq!(
        types("\"Hello world!\""),
        [TokenType::String("Hello world!".to_string())]
    )
}

#[test]
#[should_panic]
fn parse_unterminated_string() {
    types("\"Hello");
}

#[test]
fn parse_identifiers() {
    assert_eq!(
        types("foo bar hello"),
        [
            TokenType::Identifier,
            TokenType::Identifier,
            TokenType::Identifier
        ]
    )
}

#[test]
fn parse_reserved() {
    assert_eq!(
        types("and class else false fun for if nil or print super return this true var while"),
        [
            TokenType::And,
            TokenType::Class,
            TokenType::Else,
            TokenType::False,
            TokenType::Fun,
            TokenType::For,
            TokenType::If,
            TokenType::Nil,
            TokenType::Or,
            TokenType::Print,
            TokenType::Super,
            TokenType::Return,
            TokenType::This,
            TokenType::True,
            TokenType::Var,
            TokenType::While,
        ]
    )
}

#[test]
fn parse_operators() {
    assert_eq!(
        types("( ) { } , . - + ; * / ? : = < > ! != <= >= == %"),
        [
            TokenType::LeftParen,
            TokenType::RightParen,
            TokenType::LeftBrace,
            TokenType::RightBrace,
            TokenType::Comma,
            TokenType::Dot,
            TokenType::Minus,
            TokenType::Plus,
            TokenType::Semicolon,
            TokenType::Star,
            TokenType::Slash,
            TokenType::Question,
            TokenType::Colon,
            TokenType::Equal,
            TokenType::Less,
            TokenType::Greater,
            TokenType::Bang,
            TokenType::BangEqual,
            TokenType::LessEqual,
            TokenType::GreaterEqual,
            TokenType::EqualEqual,
            TokenType::Percent,
        ]
    )
}

fn lexemes(content: &str) -> Vec<String> {
    tokens(content).into_iter().map(|t| t.unwrap().lexeme).collect()
}

#[test]
fn comments_and_blanks_are_skipped() {
    assert_eq!(
        types("1 // a comment ( \n\t2\r\n"),
        [
            TokenType::Number(1.0f32.to_bits()),
            TokenType::Number(2.0f32.to_bits())
        ]
    );
    assert_eq!(types("// only a comment"), []);
}

#[test]
fn slash_on_last_byte_ends_the_tokens() {
    assert_eq!(types("1 /"), [TokenType::Number(1.0f32.to_bits())]);
    assert_eq!(
        types("1 / 2"),
        [
            TokenType::Number(1.0f32.to_bits()),
            TokenType::Slash,
            TokenType::Number(2.0f32.to_bits())
        ]
    );
}

#[test]
fn pair_character_on_last_byte_ends_the_tokens() {
    assert_eq!(types("1 ="), [TokenType::Number(1.0f32.to_bits())]);
    assert_eq!(types("!"), []);
    assert_eq!(types("< 1"), [TokenType::Less, TokenType::Number(1.0f32.to_bits())]);
}

#[test]
fn unexpected_character_is_reported_again() {
    let mut tokenizer = Tokenizer::new(b"1 @ 2");
    assert!(matches!(tokenizer.next_token(&number_bits), Some(Ok(_))));
    for _ in 0..3 {
        assert!(matches!(
            tokenizer.next_token(&number_bits),
            Some(Err(TokenizeError::UnexpectedCharacter))
        ));
    }
}

#[test]
fn finished_stays_finished() {
    let mut tokenizer = Tokenizer::new(b"1 ");
    assert!(matches!(tokenizer.next_token(&number_bits), Some(Ok(_))));
    assert!(tokenizer.next_token(&number_bits).is_none());
    assert!(tokenizer.next_token(&number_bits).is_none());
}

#[test]
fn numbers_take_one_dot() {
    assert_eq!(lexemes("13."), ["13."]);
    assert_eq!(types("13."), [TokenType::Number(13.0f32.to_bits())]);
    assert_eq!(
        types("1.2.3"),
        [
            TokenType::Number(1.2f32.to_bits()),
            TokenType::Dot,
            TokenType::Number(3.0f32.to_bits())
        ]
    );
}

#[test]
fn number_conversion_failure_is_reported() {
    fn refuse(text: &str) -> Result<u32, std::num::ParseFloatError> {
        format!("x{text}").parse::<f32>().map(f32::to_bits)
    }
    let mut tokenizer = Tokenizer::new(b"12");
    match tokenizer.next_token(&refuse) {
        Some(Err(TokenizeError::ConvertionError(error))) => {
            assert!(error.message().starts_with("failed to parse number: "));
        }
        other => panic!("unexpected {other:?}"),
    }
}

#[test]
fn host_sees_the_number_text() {
    fn length(text: &str) -> Result<u32, std::num::ParseFloatError> {
        Ok(text.len() as u32)
    }
    let mut tokenizer = Tokenizer::new(b"12.50 7");
    let first = tokenizer.next_token(&length).unwrap().unwrap();
    assert_eq!(first.token_type, TokenType::Number(5));
    let second = tokenizer.next_token(&length).unwrap().unwrap();
    assert_eq!(second.token_type, TokenType::Number(1));
}

#[test]
fn lexemes_are_the_source_text() {
    assert_eq!(
        lexemes("<= ab_1 \"x y\" > "),
        ["<=", "ab_1", "\"x y\"", ">"]
    );
}

#[test]
fn invalid_bytes_in_strings_are_replaced() {
    let mut tokenizer = Tokenizer::new(b"\"a\xffb\"");
    let token = tokenizer.next_token(&number_bits).unwrap().unwrap();
    assert_eq!(token.token_type, TokenType::String("a\u{fffd}b".to_string()));
    assert_eq!(token.lexeme, "\"a\u{fffd}b\"");
}

#[test]
fn unterminated_string_leaves_lexeme_start_behind() {
    let mut tokenizer = Tokenizer::new(b"\"ab(");
    assert!(matches!(
        tokenizer.next_token(&number_bits),
        Some(Err(TokenizeError::UnterminatedString))
    ));
    let token = tokenizer.next_token(&number_bits).unwrap().unwrap();
    assert_eq!(token.token_type, TokenType::LeftParen);
    assert_eq!(token.lexeme, "\"ab(");
    assert!(tokenizer.next_token(&number_bits).is_none());
}

#[test]
fn unexpected_character_message() {
    let error = tokens("#").pop().unwrap().unwrap_err();
    assert_eq!(error.message(), "unexpected character");
    let error = tokens("\"open").pop().unwrap().unwrap_err();
    assert_eq!(error.message(), "unterminated string");
}

#[test]
fn token_new_decodes_the_lexeme() {
    let token = Token::new(TokenType::Identifier, b"abc");
    assert_eq!(token.lexeme, "abc");
    assert_eq!(token.token_type, TokenType::Identifier);
}

#[test]
fn number_tokens_compare_by_value() {
    assert_eq!(TokenType::Number(0.0f32.to_bits()), TokenType::Number((-0.0f32).to_bits()));
    assert_ne!(TokenType::Number(f32::NAN.to_bits()), TokenType::Number(f32::NAN.to_bits()));
    assert_ne!(TokenType::Number(1.0f32.to_bits()), TokenType::Number(2.0f32.to_bits()));
    assert_ne!(TokenType::Number(1.0f32.to_bits()), TokenType::Plus);
}

#[test]
fn token_lexeme_is_its_text() {
    assert_eq!(Token::new(TokenType::Plus, b"+").lexeme, "+");
    assert_eq!(Token::new(TokenType::Identifier, b"a\xffb").lexeme, "a\u{FFFD}b");
}

#[test]
fn leading_blanks_change_nothing() {
    let plain: Vec<(TokenType, String)> = tokens("(1.5 != \"hi\") and foo")
        .into_iter()
        .map(|t| {
            let t = t.unwrap();
            (t.token_type, t.lexeme)
        })
        .collect();
    let padded: Vec<(TokenType, String)> = tokens(" \t\r\n  (1.5 != \"hi\") and foo")
        .into_iter()
        .map(|t| {
            let t = t.unwrap();
            (t.token_type, t.lexeme)
        })
        .collect();
    assert_eq!(plain, padded);
    assert_eq!(plain.len(), 7);
}

#[test]
fn number_lexeme_takes_one_dot() {
    let first = tokens("1.2.3").into_iter().next().unwrap().unwrap();
    assert_eq!(first.lexeme, "1.2");
    assert_eq!(first.token_type, TokenType::Number(1.2f32.to_bits()));
}

#[test]
fn blanks_between_tokens_change_nothing() {
    let pairs = |content: &str| -> Vec<(TokenType, String)> {
        tokens(content)
            .into_iter()
            .map(|t| {
                let t = t.unwrap();
                (t.token_type, t.lexeme)
            })
            .collect()
    };
    let narrow = pairs("!= \"hi\" foo 1.5");
    let wide = pairs("!=\t\t\"hi\"\r\n\n  foo   1.5");
    assert_eq!(narrow, wide);
    assert_eq!(
        narrow,
        vec![
            (TokenType::BangEqual, "!=".to_string()),
            (TokenType::String("hi".to_string()), "\"hi\"".to_string()),
            (TokenType::Identifier, "foo".to_string()),
            (TokenType::Number(1.5f32.to_bits()), "1.5".to_string()),
        ]
    );
}
