use json_formatter::lexer::Lexer;
use json_formatter::lexer::Token;

/// The number that a number token stands for.
fn number_of(token: Option<Token>) -> f64 {
    match token {
        Some(Token::Number(text)) => text.parse::<f64>().unwrap(),
        other => panic!("no number token: {:?}", other),
    }
}

/// All that the lexer reads from `input`, up to the end of the text.
fn all_tokens(input: &str) -> Vec<Option<Token>> {
    let mut lexer = Lexer::new(input);
    let mut tokens = Vec::new();
    while lexer.ch().is_some() {
        tokens.push(lexer.next_token());
    }
    tokens
}

#[test]
fn test_lexer_initialization() {
    let input = r#"{ "[Test]" }"#;
    let lexer = Lexer::new(input);

    assert_eq!(lexer.input(), input);
    assert_eq!(lexer.position(), 0);
    assert_eq!(lexer.read_position(), 1);
    assert_eq!(lexer.ch(), Some('{'));
}

#[test]
fn test_next_token_simple() {
    let input = r#"{ }"#;
    let mut lexer = Lexer::new(input);

    assert_eq!(lexer.next_token(), Some(Token::LeftBrace));
    assert_eq!(lexer.next_token(), Some(Token::RightBrace));
}

#[test]
fn test_next_token_string() {
    let input = r#""Hello, World!"#;
    let mut lexer = Lexer::new(input);

    assert_eq!(lexer.next_token(), Some(Token::String("Hello, World!".to_string())));
    assert_eq!(lexer.next_token(), None);
}

#[test]
fn test_next_token_string_escape1() {
    let input = r#""Hello, \"World\"!""#;
    let mut lexer = Lexer::new(input);

    assert_eq!(lexer.next_token(), Some(Token::String("Hello, \"World\"!".to_string())));
    assert_eq!(lexer.next_token(), None);
}

#[test]
fn test_next_token_string_escape2() {
    let input = "\"\\b\\f\\n\\r\\t\"";
    let mut lexer = Lexer::new(input);

    assert_eq!(lexer.next_token(), Some(Token::String("\x08\x0C\n\r\t".to_string())));
    assert_eq!(lexer.next_token(), None);
}

#[test]
fn test_next_token_number1() {
    let input = "12345";
    let mut lexer = Lexer::new(input);

    assert_eq!(number_of(lexer.next_token()), 12345.0);
    assert_eq!(lexer.next_token(), None);
}

#[test]
fn test_next_token_number2() {
    let input = "123.45";
    let mut lexer = Lexer::new(input);

    assert_eq!(number_of(lexer.next_token()), 123.45);
    assert_eq!(lexer.next_token(), None);
}

#[test]
fn test_next_token_number3() {
    let input = "-123.45";
    let mut lexer = Lexer::new(input);

    assert_eq!(number_of(lexer.next_token()), -123.45);
    assert_eq!(lexer.next_token(), None);
}

#[test]
fn test_next_token_number4() {
    let input = "+123.45e6";
    let mut lexer = Lexer::new(input);

    assert_eq!(number_of(lexer.next_token()), 123450000.0);
    assert_eq!(lexer.next_token(), None);
}

#[test]
fn test_next_token_number5() {
    let input = "-123.45E-3";
    let mut lexer = Lexer::new(input);

    assert_eq!(number_of(lexer.next_token()), -0.12345);
    assert_eq!(lexer.next_token(), None);
}

#[test]
fn test_next_token_literal_true() {
    let input = "true";
    let mut lexer = Lexer::new(input);

    assert_eq!(lexer.next_token(), Some(Token::True));
    assert_eq!(lexer.next_token(), None);
}

#[test]
fn test_next_token_literal_false() {
    let input = "false";
    let mut lexer = Lexer::new(input);

    assert_eq!(lexer.next_token(), Some(Token::False));
    assert_eq!(lexer.next_token(), None);
}

#[test]
fn test_next_token_literal_null() {
    let input = "null";
    let mut lexer = Lexer::new(input);

    assert_eq!(lexer.next_token(), Some(Token::Null));
    assert_eq!(lexer.next_token(), None);
}

#[test]
fn braces_then_end() {
    let mut lexer = Lexer::new("{ }");
    assert_eq!(lexer.next_token(), Some(Token::LeftBrace));
    assert_eq!(lexer.next_token(), Some(Token::RightBrace));
    assert_eq!(lexer.next_token(), None);
    assert_eq!(lexer.ch(), None);
    assert_eq!(lexer.next_token(), None);
}

#[test]
fn all_punctuation() {
    assert_eq!(
        all_tokens("{}[]:,"),
        vec![
            Some(Token::LeftBrace),
            Some(Token::RightBrace),
            Some(Token::LeftBracket),
            Some(Token::RightBracket),
            Some(Token::Colon),
            Some(Token::Comma),
        ]
    );
}

#[test]
fn empty_text_has_no_token() {
    let mut lexer = Lexer::new("");
    assert_eq!(lexer.ch(), None);
    assert_eq!(lexer.position(), 0);
    assert_eq!(lexer.read_position(), 0);
    assert_eq!(lexer.next_token(), None);
    assert_eq!(lexer.position(), 0);
    assert_eq!(lexer.read_position(), 0);
}

#[test]
fn white_space_is_passed() {
    let mut lexer = Lexer::new(" \t\r\n\u{a0}\u{3000}true");
    assert_eq!(lexer.next_token(), Some(Token::True));
    let mut lexer = Lexer::new("  \n ");
    assert_eq!(lexer.next_token(), None);
    assert_eq!(lexer.ch(), None);
}

#[test]
fn cursors_follow_the_bytes_of_each_character() {
    // one byte, two bytes, three bytes, four bytes
    let input = "a\u{e9}\u{4eac}\u{1f49d}";
    let mut lexer = Lexer::new(input);
    assert_eq!((lexer.position(), lexer.read_position(), lexer.ch()), (0, 1, Some('a')));
    assert_eq!(lexer.next_token(), None);
    // the run of letters `a`, `é`, `京` was read; the current character is the last one
    assert_eq!((lexer.position(), lexer.read_position(), lexer.ch()), (6, 10, Some('\u{1f49d}')));
    assert_eq!(lexer.next_token(), None);
    assert_eq!((lexer.position(), lexer.read_position(), lexer.ch()), (10, 10, None));
    assert_eq!(input.len(), 10);
}

#[test]
fn cursor_invariant_after_each_token() {
    let input = "{\"k\u{e9}y\": [1.5, \"\u{4eac}\\n\", tru, @ null]} \u{1f49d}";
    let mut lexer = Lexer::new(input);
    let mut calls = 0;
    loop {
        assert!(lexer.position() <= lexer.read_position());
        assert!(lexer.read_position() <= input.len());
        let width = lexer.ch().map_or(0, |c| c.len_utf8());
        assert_eq!(lexer.read_position() - lexer.position(), width);
        assert_eq!(lexer.ch(), input[lexer.position()..].chars().next());
        if lexer.ch().is_none() {
            break;
        }
        lexer.next_token();
        calls += 1;
        assert!(calls <= input.len());
    }
    assert_eq!(lexer.next_token(), None);
}

#[test]
fn every_escape() {
    let mut lexer = Lexer::new(r#""\"\\\/\b\f\n\r\t""#);
    assert_eq!(
        lexer.next_token(),
        Some(Token::String("\"\\/\x08\x0C\n\r\t".to_string()))
    );
}

#[test]
fn unicode_escape_is_passed_over() {
    let mut lexer = Lexer::new(r#""a\u0041b""#);
    assert_eq!(lexer.next_token(), Some(Token::String("ab".to_string())));
    assert_eq!(lexer.next_token(), None);
    // cut short by the end of the text
    let mut lexer = Lexer::new(r#""a\u00"#);
    assert_eq!(lexer.next_token(), Some(Token::String("a".to_string())));
    assert_eq!(lexer.ch(), None);
}

#[test]
fn unknown_escape_is_dropped() {
    let mut lexer = Lexer::new(r#""a\qb""#);
    assert_eq!(lexer.next_token(), Some(Token::String("ab".to_string())));
}

#[test]
fn backslash_at_the_end() {
    let mut lexer = Lexer::new("\"ab\\");
    assert_eq!(lexer.next_token(), Some(Token::String("ab".to_string())));
    assert_eq!(lexer.ch(), None);
}

#[test]
fn string_keeps_other_characters() {
    let mut lexer = Lexer::new("\"\u{e9} \u{4eac}\n{}\" ,");
    assert_eq!(lexer.next_token(), Some(Token::String("\u{e9} \u{4eac}\n{}".to_string())));
    assert_eq!(lexer.next_token(), Some(Token::Comma));
}

#[test]
fn number_keeps_its_text() {
    let mut lexer = Lexer::new("+123.45e6,");
    assert_eq!(lexer.next_token(), Some(Token::Number("+123.45e6".to_string())));
    assert_eq!(lexer.next_token(), Some(Token::Comma));
}

#[test]
fn run_that_is_no_number_gives_no_token() {
    for input in ["-", "+", "1-2", "1.2.3", "1e", "1e+", "--1", "1ee5", "-.", "+e1", "-e", "1.e"] {
        let mut lexer = Lexer::new(input);
        assert_eq!(lexer.next_token(), None, "{}", input);
        assert_eq!(lexer.ch(), None, "{}", input);
        assert!(input.parse::<f64>().is_err(), "{}", input);
    }
}

#[test]
fn number_forms() {
    for input in ["0", "-0", "1.", "-1.", "1.5", "-.5", "+.5e1", "1e5", "1E+5", "1.e-5", "007", "1.e1"] {
        let mut lexer = Lexer::new(input);
        let expected = input.parse::<f64>().unwrap();
        assert_eq!(number_of(lexer.next_token()), expected, "{}", input);
        assert_eq!(lexer.ch(), None, "{}", input);
    }
}

#[test]
fn number_starts_with_digit_or_sign_only() {
    // a point starts no token: it is passed alone
    let mut lexer = Lexer::new(".5");
    assert_eq!(lexer.next_token(), None);
    assert_eq!(lexer.ch(), Some('5'));
    assert_eq!(number_of(lexer.next_token()), 5.0);
}

#[test]
fn word_that_is_no_keyword_gives_no_token() {
    for input in ["tru", "True", "nulls", "falsey", "x", "\u{e9}t\u{e9}"] {
        let mut lexer = Lexer::new(input);
        assert_eq!(lexer.next_token(), None, "{}", input);
        assert_eq!(lexer.ch(), None, "{}", input);
    }
}

#[test]
fn keyword_ends_at_the_first_other_character() {
    assert_eq!(
        all_tokens("true,null]false1"),
        vec![
            Some(Token::True),
            Some(Token::Comma),
            Some(Token::Null),
            Some(Token::RightBracket),
            Some(Token::False),
            Some(Token::Number("1".to_string())),
        ]
    );
}

#[test]
fn unknown_character_is_passed_alone() {
    let mut lexer = Lexer::new("@#1");
    assert_eq!(lexer.next_token(), None);
    assert_eq!(lexer.ch(), Some('#'));
    assert_eq!(lexer.next_token(), None);
    assert_eq!(lexer.ch(), Some('1'));
    assert_eq!(number_of(lexer.next_token()), 1.0);
}

#[test]
fn lexing_ends() {
    let input = "{\"a\": [1, 2.5e3, \"x\\ty\"], @@ tru \"open";
    let mut lexer = Lexer::new(input);
    let mut calls = 0;
    while lexer.ch().is_some() {
        let before = input.len() - lexer.position();
        lexer.next_token();
        let after = input.len() - lexer.position();
        assert!(after < before);
        calls += 1;
    }
    assert!(calls <= input.chars().count());
    assert_eq!(lexer.next_token(), None);
    assert_eq!(lexer.next_token(), None);
}

#[test]
fn tokens_are_equal_by_kind_and_text() {
    assert_eq!(Token::String("1".to_string()), Token::String("1".to_string()));
    assert_ne!(Token::String("1".to_string()), Token::Number("1".to_string()));
    assert_ne!(Token::Number("1".to_string()), Token::Number("1.0".to_string()));
    assert_ne!(Token::True, Token::False);
    assert_ne!(Token::LeftBrace, Token::LeftBracket);
}
