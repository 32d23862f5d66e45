use rlox::common::{is_punctuation, Token, TokenType};
use rlox::lexer::{is_digit, is_letter, is_whitespace, Lexer, LexerError, LexerErrorKind};

fn lex(source: &str) -> (Vec<Token>, Vec<LexerError>) {
    Lexer::new(source).collect_tokens()
}

fn kinds(source: &str) -> Vec<TokenType> {
    let (tokens, errors) = lex(source);
    assert!(errors.is_empty(), "{:?}", errors);
    tokens.iter().map(|t| t.token_type).collect()
}

fn texts(source: &str) -> Vec<String> {
    lex(source).0.iter().map(|t| t.raw.clone()).collect()
}

#[test]
fn tokens_carry_kind_text_and_position() {
    let (tokens, errors) = lex("var a = 1;");
    assert!(errors.is_empty());
    assert_eq!(
        tokens,
        vec![
            Token::new(TokenType::Var, "var", 1, 4),
            Token::new(TokenType::Identifier, "a", 1, 6),
            Token::new(TokenType::Equal, "=", 1, 8),
            Token::new(TokenType::Number, "1", 1, 10),
            Token::new(TokenType::SemiColon, ";", 1, 11),
            Token::new(TokenType::EOF, "", 1, 11),
        ]
    );
}

#[test]
fn an_empty_source_is_the_end_marker() {
    assert_eq!(lex(""), (vec![Token::new(TokenType::EOF, "", 1, 1)], vec![]));
    assert_eq!(lex("  \n "), (vec![Token::new(TokenType::EOF, "", 2, 2)], vec![]));
}

#[test]
fn lines_are_counted() {
    let (tokens, _) = lex("a\nb\n\n  c");
    assert_eq!(
        tokens,
        vec![
            Token::new(TokenType::Identifier, "a", 1, 2),
            Token::new(TokenType::Identifier, "b", 2, 2),
            Token::new(TokenType::Identifier, "c", 4, 4),
            Token::new(TokenType::EOF, "", 4, 4),
        ]
    );
}

#[test]
fn punctuation_and_operators() {
    assert_eq!(
        kinds("( ) { } , . - + * ; / ! != = == < <= > >="),
        vec![
            TokenType::LeftParen,
            TokenType::RightParen,
            TokenType::LeftBrace,
            TokenType::RightBrace,
            TokenType::Comma,
            TokenType::Dot,
            TokenType::Minus,
            TokenType::Plus,
            TokenType::Star,
            TokenType::SemiColon,
            TokenType::Slash,
            TokenType::Bang,
            TokenType::BangEqual,
            TokenType::Equal,
            TokenType::EqualEqual,
            TokenType::Less,
            TokenType::LessEqual,
            TokenType::Greater,
            TokenType::GreaterEqual,
            TokenType::EOF,
        ]
    );
    assert_eq!(texts("!= == <= >= ! ==="), vec!["!=", "==", "<=", ">=", "!", "==", "=", ""]);
    let (tokens, _) = lex("a<=b");
    assert_eq!(tokens[1], Token::new(TokenType::LessEqual, "<=", 1, 4));
}

#[test]
fn keywords_and_identifiers() {
    assert_eq!(
        kinds("and break class else false funct for finally if meth nil or print return super this true var while"),
        vec![
            TokenType::And,
            TokenType::Break,
            TokenType::Class,
            TokenType::Else,
            TokenType::False,
            TokenType::Funct,
            TokenType::For,
            TokenType::Finally,
            TokenType::If,
            TokenType::Meth,
            TokenType::Nil,
            TokenType::Or,
            TokenType::Print,
            TokenType::Return,
            TokenType::Super,
            TokenType::This,
            TokenType::True,
            TokenType::Var,
            TokenType::While,
            TokenType::EOF,
        ]
    );
    assert_eq!(
        kinds("classy _x foo_1 While fun"),
        vec![
            TokenType::Identifier,
            TokenType::Identifier,
            TokenType::Identifier,
            TokenType::Identifier,
            TokenType::Identifier,
            TokenType::EOF,
        ]
    );
    assert_eq!(texts("classy _x foo_1"), vec!["classy", "_x", "foo_1", ""]);
}

#[test]
fn comments_are_passed_over() {
    assert_eq!(texts("1 // one\n2"), vec!["1", "2", ""]);
    assert_eq!(texts("1 // to the end"), vec!["1", ""]);
    assert_eq!(texts("/* a * b / c */ 3"), vec!["3", ""]);
    assert_eq!(texts("4 /* never closed"), vec!["4", ""]);
    assert_eq!(texts("/*/ still inside */ 5"), vec!["5", ""]);
    let (tokens, _) = lex("/* a\nb */c");
    assert_eq!(tokens[0], Token::new(TokenType::Identifier, "c", 2, 6));
}

#[test]
fn strings_hold_their_text() {
    let (tokens, errors) = lex("\"hi\" \"a\nb\" \"\"");
    assert!(errors.is_empty());
    assert_eq!(
        tokens,
        vec![
            Token::new(TokenType::Strang, "hi", 1, 5),
            Token::new(TokenType::Strang, "a\nb", 2, 3),
            Token::new(TokenType::Strang, "", 2, 6),
            Token::new(TokenType::EOF, "", 2, 6),
        ]
    );
}

#[test]
fn an_unclosed_string_is_reported() {
    let (tokens, errors) = lex("1 \"abc");
    assert_eq!(texts("1 \"abc"), vec!["1", ""]);
    assert_eq!(tokens.len(), 2);
    assert_eq!(
        errors,
        vec![LexerError {
            kind: LexerErrorKind::UnclosedStringLiteral { literal: "abc".to_string() },
            line: 1,
            column: 7,
        }]
    );
}

#[test]
fn numbers() {
    assert_eq!(texts("1 23 4.5 0.125 7"), vec!["1", "23", "4.5", "0.125", "7", ""]);
    assert_eq!(texts("(12)"), vec!["(", "12", ")", ""]);
    assert_eq!(texts("1+2"), vec!["1+2", ""]);
    assert_eq!(kinds("1.5;"), vec![TokenType::Number, TokenType::SemiColon, TokenType::EOF]);
}

#[test]
fn invalid_numbers_are_reported() {
    let (tokens, errors) = lex("1.");
    assert_eq!(tokens, vec![Token::new(TokenType::EOF, "", 1, 3)]);
    assert_eq!(
        errors,
        vec![LexerError {
            kind: LexerErrorKind::InvalidNumberLiteral { literal: "1.".to_string(), symbol: '.' },
            line: 1,
            column: 3,
        }]
    );
    let (tokens, errors) = lex("1.x");
    assert_eq!(tokens[0], Token::new(TokenType::Identifier, "x", 1, 4));
    assert_eq!(errors.len(), 1);
    let (tokens, errors) = lex("1.2.3");
    assert_eq!(
        errors,
        vec![LexerError {
            kind: LexerErrorKind::InvalidNumberLiteral { literal: "1.2.".to_string(), symbol: '.' },
            line: 1,
            column: 4,
        }]
    );
    assert_eq!(
        tokens.iter().map(|t| t.token_type).collect::<Vec<_>>(),
        vec![TokenType::Dot, TokenType::Number, TokenType::EOF]
    );
    let (tokens, errors) = lex("12abc");
    assert_eq!(
        errors,
        vec![LexerError {
            kind: LexerErrorKind::InvalidNumberLiteral { literal: "12".to_string(), symbol: 'a' },
            line: 1,
            column: 3,
        }]
    );
    assert_eq!(tokens[0], Token::new(TokenType::Identifier, "abc", 1, 6));
}

#[test]
fn unknown_symbols_are_reported_and_passed_over() {
    let (tokens, errors) = lex("a @ b #");
    assert_eq!(
        tokens.iter().map(|t| t.raw.as_str()).collect::<Vec<_>>(),
        vec!["a", "b", ""]
    );
    assert_eq!(
        errors,
        vec![
            LexerError { kind: LexerErrorKind::UnrecognisedSymbol { symbol: '@' }, line: 1, column: 4 },
            LexerError { kind: LexerErrorKind::UnrecognisedSymbol { symbol: '#' }, line: 1, column: 8 },
        ]
    );
}

#[test]
fn errors_are_worded() {
    assert_eq!(
        LexerErrorKind::UnrecognisedSymbol { symbol: '@' }.to_string(),
        "unrecognised symbol @"
    );
    assert_eq!(
        LexerErrorKind::UnclosedStringLiteral { literal: "abc".to_string() }.to_string(),
        "invalid string literal abc. Expected \" found end of file"
    );
    assert_eq!(
        LexerErrorKind::InvalidNumberLiteral { literal: "1.".to_string(), symbol: '.' }.to_string(),
        "invalid numeric literal 1.. invalid symbol ."
    );
}

#[test]
fn the_last_token_is_the_end_marker() {
    for source in ["", "a", "1 +", "\"open", "@", "// c", "/* c", "print 1;\n"] {
        let (tokens, _) = lex(source);
        assert_eq!(tokens.last().map(|t| t.token_type), Some(TokenType::EOF));
        assert_eq!(
            tokens.iter().filter(|t| t.token_type == TokenType::EOF).count(),
            1
        );
    }
}

#[test]
fn character_classes_are_those_of_the_standard_library() {
    for code in 0..=0x10ffffu32 {
        if let Some(c) = char::from_u32(code) {
            assert_eq!(is_whitespace(c), c.is_whitespace(), "white space {:?}", c);
            assert_eq!(is_digit(c), c.is_digit(10), "digit {:?}", c);
            assert_eq!(is_letter(c), c.is_ascii_alphabetic(), "letter {:?}", c);
        }
    }
}

#[test]
fn punctuation_characters() {
    for c in ['(', ')', '{', '}', '[', ']', ';', ',', '\'', '"', '.'] {
        assert!(is_punctuation(&c));
    }
    for c in ['a', '1', ' ', '+', '-', '*', '/', '=', '<', '!', '_', ':'] {
        assert!(!is_punctuation(&c));
    }
}

#[test]
fn is_at_end_follows_the_source() {
    assert!(Lexer::new("").is_at_end());
    assert!(!Lexer::new("a").is_at_end());
}
