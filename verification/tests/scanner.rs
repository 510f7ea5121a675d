use lox::scanner::{parse_numeral, scan, scannable, try_scan, whole_literal, Error, Scanner};
use lox::text::is_utf8;
use lox::token::{Literal, Token, TokenType};

fn kinds(tokens: &[Token]) -> Vec<TokenType> {
    tokens.iter().map(|token| *token.token_type()).collect()
}

fn tokens_of(source: &str) -> Vec<Token> {
    match scan(source.as_bytes()) {
        Ok(tokens) => tokens,
        Err(errors) => panic!("unexpected errors: {:?}", errors),
    }
}

fn errors_of(source: &str) -> Vec<Error> {
    match scan(source.as_bytes()) {
        Ok(tokens) => panic!("unexpected tokens: {:?}", tokens),
        Err(errors) => errors.0,
    }
}

#[test]
fn empty_source_is_the_closing_token_alone() {
    let tokens = tokens_of("");
    assert_eq!(kinds(&tokens), vec![TokenType::Eof]);
    assert_eq!(tokens[0].lexeme(), "");
    assert_eq!(*tokens[0].line(), 0);
    assert!(tokens[0].literal().is_none());
}

#[test]
fn single_character_tokens() {
    let tokens = tokens_of("(){},.-+;:*?/");
    assert_eq!(
        kinds(&tokens),
        vec![
            TokenType::LeftParen,
            TokenType::RightParen,
            TokenType::LeftBrace,
            TokenType::RightBrace,
            TokenType::Comma,
            TokenType::Dot,
            TokenType::Minus,
            TokenType::Plus,
            TokenType::Semicolon,
            TokenType::Colon,
            TokenType::Star,
            TokenType::QuestionMark,
            TokenType::Slash,
            TokenType::Eof,
        ]
    );
    assert_eq!(tokens[0].lexeme(), "(");
    assert_eq!(tokens[12].lexeme(), "/");
}

#[test]
fn operators_of_one_and_two_characters() {
    let tokens = tokens_of("! != = == < <= > >=");
    assert_eq!(
        kinds(&tokens),
        vec![
            TokenType::Bang,
            TokenType::BangEqual,
            TokenType::Equal,
            TokenType::EqualEqual,
            TokenType::Less,
            TokenType::LessEqual,
            TokenType::Greater,
            TokenType::GreaterEqual,
            TokenType::Eof,
        ]
    );
    assert_eq!(tokens[1].lexeme(), "!=");
    assert_eq!(tokens[7].lexeme(), ">=");
}

#[test]
fn three_equal_signs_are_two_tokens() {
    let tokens = tokens_of("===");
    assert_eq!(kinds(&tokens), vec![TokenType::EqualEqual, TokenType::Equal, TokenType::Eof]);
}

#[test]
fn comment_runs_to_the_end_of_the_line() {
    let tokens = tokens_of("1 // two three\n4");
    assert_eq!(kinds(&tokens), vec![TokenType::Number, TokenType::Number, TokenType::Eof]);
    assert_eq!(*tokens[0].line(), 1);
    assert_eq!(tokens[1].lexeme(), "4");
    assert_eq!(*tokens[1].line(), 2);
}

#[test]
fn comment_at_the_end_of_the_source() {
    let tokens = tokens_of("// nothing else");
    assert_eq!(kinds(&tokens), vec![TokenType::Eof]);
}

#[test]
fn whitespace_is_skipped_and_lines_are_counted() {
    let tokens = tokens_of(" \t\r\n\n  x");
    assert_eq!(kinds(&tokens), vec![TokenType::Identifier, TokenType::Eof]);
    assert_eq!(*tokens[0].line(), 3);
}

#[test]
fn every_keyword_is_recognised() {
    let source =
        "and class else false for fun if nil or print return super this true var while";
    let tokens = tokens_of(source);
    assert_eq!(
        kinds(&tokens),
        vec![
            TokenType::And,
            TokenType::Class,
            TokenType::Else,
            TokenType::False,
            TokenType::For,
            TokenType::Fun,
            TokenType::If,
            TokenType::Nil,
            TokenType::Or,
            TokenType::Print,
            TokenType::Return,
            TokenType::Super,
            TokenType::This,
            TokenType::True,
            TokenType::Var,
            TokenType::While,
            TokenType::Eof,
        ]
    );
    assert!(tokens[0].literal().is_none());
}

#[test]
fn identifiers_may_hold_letters_digits_and_underscores() {
    let tokens = tokens_of("_a1 orchid While var_");
    assert_eq!(
        kinds(&tokens),
        vec![
            TokenType::Identifier,
            TokenType::Identifier,
            TokenType::Identifier,
            TokenType::Identifier,
            TokenType::Eof,
        ]
    );
    assert_eq!(tokens[0].lexeme(), "_a1");
    assert_eq!(tokens[1].lexeme(), "orchid");
    assert_eq!(tokens[2].lexeme(), "While");
    assert_eq!(tokens[3].lexeme(), "var_");
}

#[test]
fn number_lexeme_is_the_matched_text() {
    for numeral in ["0", "7", "123", "45.67", "0.5", "10.0", "000123.4500"] {
        let tokens = tokens_of(numeral);
        assert_eq!(kinds(&tokens), vec![TokenType::Number, TokenType::Eof]);
        assert_eq!(tokens[0].lexeme(), numeral);
        match tokens[0].literal() {
            Some(Literal::Number(text)) => assert_eq!(text, numeral),
            other => panic!("unexpected literal: {:?}", other),
        }
    }
}

#[test]
fn integral_number_round_trips_through_its_text() {
    for value in [0.0_f64, 1.0, 42.0, 1234567.0, 9007199254740992.0] {
        let text = format!("{}", value);
        let tokens = tokens_of(&text);
        assert_eq!(kinds(&tokens), vec![TokenType::Number, TokenType::Eof]);
        assert_eq!(tokens[0].lexeme(), text);
        match tokens[0].literal() {
            Some(Literal::Number(numeral)) => {
                assert_eq!(numeral.parse::<f64>().unwrap(), value)
            }
            other => panic!("unexpected literal: {:?}", other),
        }
    }
}

#[test]
fn point_without_a_digit_behind_it_is_no_part_of_a_number() {
    let tokens = tokens_of("12.");
    assert_eq!(kinds(&tokens), vec![TokenType::Number, TokenType::Dot, TokenType::Eof]);
    assert_eq!(tokens[0].lexeme(), "12");
    let tokens = tokens_of("1.2.3");
    assert_eq!(
        kinds(&tokens),
        vec![TokenType::Number, TokenType::Dot, TokenType::Number, TokenType::Eof]
    );
    assert_eq!(tokens[0].lexeme(), "1.2");
    assert_eq!(tokens[2].lexeme(), "3");
    let tokens = tokens_of(".5");
    assert_eq!(kinds(&tokens), vec![TokenType::Dot, TokenType::Number, TokenType::Eof]);
}

#[test]
fn number_followed_by_a_letter() {
    let tokens = tokens_of("12ab");
    assert_eq!(kinds(&tokens), vec![TokenType::Number, TokenType::Identifier, TokenType::Eof]);
    assert_eq!(tokens[0].lexeme(), "12");
    assert_eq!(tokens[1].lexeme(), "ab");
}

#[test]
fn string_literal_holds_what_stands_between_the_quotes() {
    let tokens = tokens_of("\"hello world\"");
    assert_eq!(kinds(&tokens), vec![TokenType::String, TokenType::Eof]);
    assert_eq!(tokens[0].lexeme(), "\"hello world\"");
    match tokens[0].literal() {
        Some(Literal::String(text)) => assert_eq!(text, "hello world"),
        other => panic!("unexpected literal: {:?}", other),
    }
}

#[test]
fn empty_string_literal() {
    let tokens = tokens_of("\"\"");
    assert_eq!(tokens[0].lexeme(), "\"\"");
    match tokens[0].literal() {
        Some(Literal::String(text)) => assert_eq!(text, ""),
        other => panic!("unexpected literal: {:?}", other),
    }
}

#[test]
fn string_literal_over_several_lines() {
    let tokens = tokens_of("\"a\nb\nc\" x");
    assert_eq!(kinds(&tokens), vec![TokenType::String, TokenType::Identifier, TokenType::Eof]);
    match tokens[0].literal() {
        Some(Literal::String(text)) => assert_eq!(text, "a\nb\nc"),
        other => panic!("unexpected literal: {:?}", other),
    }
    assert_eq!(*tokens[0].line(), 3);
    assert_eq!(*tokens[1].line(), 3);
}

#[test]
fn string_literal_may_hold_other_alphabets() {
    let tokens = tokens_of("\"gr\u{fc}\u{df}e \u{4e16}\u{754c}\"");
    match tokens[0].literal() {
        Some(Literal::String(text)) => assert_eq!(text, "gr\u{fc}\u{df}e \u{4e16}\u{754c}"),
        other => panic!("unexpected literal: {:?}", other),
    }
}

#[test]
fn unterminated_string_is_an_error_with_its_line() {
    let errors = errors_of("var a = \"abc\ndef");
    assert_eq!(errors.len(), 1);
    match &errors[0] {
        Error::UnterminatedString(line) => assert_eq!(*line, 2),
        other => panic!("unexpected error: {:?}", other),
    }
}

#[test]
fn unexpected_character_is_an_error() {
    let errors = errors_of("@");
    assert_eq!(errors.len(), 1);
    match &errors[0] {
        Error::UnexpectedChar(c, line) => {
            assert_eq!(*c, '@');
            assert_eq!(*line, 1);
        }
        other => panic!("unexpected error: {:?}", other),
    }
}

#[test]
fn two_invalid_characters_on_different_lines_are_both_reported() {
    let errors = errors_of("var a = 1;\n#\nprint a;\n  ^ ");
    assert_eq!(errors.len(), 2);
    match &errors[0] {
        Error::UnexpectedChar(c, line) => {
            assert_eq!(*c, '#');
            assert_eq!(*line, 2);
        }
        other => panic!("unexpected error: {:?}", other),
    }
    match &errors[1] {
        Error::UnexpectedChar(c, line) => {
            assert_eq!(*c, '^');
            assert_eq!(*line, 4);
        }
        other => panic!("unexpected error: {:?}", other),
    }
}

#[test]
fn errors_of_different_kinds_come_in_the_order_of_the_source() {
    let errors = errors_of("$ 1 \"open");
    assert_eq!(errors.len(), 2);
    assert!(matches!(errors[0], Error::UnexpectedChar('$', 1)));
    assert!(matches!(errors[1], Error::UnterminatedString(1)));
}

#[test]
fn tokens_are_kept_when_there_are_errors() {
    let mut scanner = Scanner::new("var x = 1; @ print x;".as_bytes());
    let result = scanner.scan_tokens();
    assert!(result.is_err());
    assert_eq!(
        kinds(scanner.tokens()),
        vec![
            TokenType::Var,
            TokenType::Identifier,
            TokenType::Equal,
            TokenType::Number,
            TokenType::Semicolon,
            TokenType::Print,
            TokenType::Identifier,
            TokenType::Semicolon,
            TokenType::Eof,
        ]
    );
}

#[test]
fn scanner_gives_the_tokens_of_a_statement() {
    let mut scanner = Scanner::new("print 1 + 2;".as_bytes());
    let tokens = scanner.scan_tokens().unwrap();
    assert_eq!(
        kinds(&tokens),
        vec![
            TokenType::Print,
            TokenType::Number,
            TokenType::Plus,
            TokenType::Number,
            TokenType::Semicolon,
            TokenType::Eof,
        ]
    );
    assert_eq!(tokens[2].lexeme(), "+");
    assert_eq!(*tokens[4].line(), 1);
}

#[test]
fn parse_numeral_takes_numerals_only() {
    for numeral in ["0", "12", "3.25", "007.500"] {
        match parse_numeral(numeral) {
            Ok(Literal::Number(text)) => assert_eq!(text, numeral),
            other => panic!("unexpected result: {:?}", other),
        }
    }
    for text in ["", ".", "1.", ".5", "1.2.3", "1e5", "-1", "12a", " 1", "x"] {
        match parse_numeral(text) {
            Err(Error::ParseError(given)) => assert_eq!(given, text),
            other => panic!("unexpected result: {:?}", other),
        }
    }
}

#[test]
fn well_formed_utf8_is_told_from_other_bytes() {
    assert!(is_utf8("print \"\u{e9}\";".as_bytes()));
    assert!(is_utf8(&[]));
    assert!(!is_utf8(&[0xff, 0xfe]));
    assert!(!is_utf8(&[b'a', 0xc3]));
}

#[test]
fn whole_number_is_written_out_and_scanned_back() {
    for value in [0_u64, 7, 10, 42, 1900, 18446744073709551615] {
        let written = match whole_literal(value) {
            Literal::Number(numeral) => numeral,
            other => panic!("unexpected literal: {:?}", other),
        };
        assert_eq!(written, format!("{}", value));
        let tokens = tokens_of(&written);
        assert_eq!(kinds(&tokens), vec![TokenType::Number, TokenType::Eof]);
        match tokens[0].literal() {
            Some(Literal::Number(numeral)) => assert_eq!(numeral.parse::<u64>().unwrap(), value),
            other => panic!("unexpected literal: {:?}", other),
        }
    }
}

#[test]
fn bytes_that_are_no_text_have_no_outcome() {
    assert!(try_scan(&[b'1', 0xff]).is_none());
    assert!(try_scan(&[0xc3]).is_none());
    match try_scan("1 + 2".as_bytes()) {
        Some(Ok(tokens)) => assert_eq!(
            kinds(&tokens),
            vec![TokenType::Number, TokenType::Plus, TokenType::Number, TokenType::Eof]
        ),
        other => panic!("unexpected outcome: {:?}", other),
    }
    match try_scan("1 ~ 2".as_bytes()) {
        Some(Err(errors)) => assert!(matches!(errors.0[0], Error::UnexpectedChar('~', 1))),
        other => panic!("unexpected outcome: {:?}", other),
    }
}

#[test]
fn text_of_any_length_can_be_scanned_where_its_lines_can_be_counted() {
    assert!(scannable("print 1;\nprint 2;\n".as_bytes()));
    assert!(scannable(&[]));
    assert!(!scannable(&[b'1', 0xff]));
    let long = "1".repeat(100_000);
    let tokens = tokens_of(&long);
    assert_eq!(kinds(&tokens), vec![TokenType::Number, TokenType::Eof]);
    assert_eq!(tokens[0].lexeme(), long);
}

#[test]
fn many_lines_are_counted() {
    let source = "\n".repeat(5000) + "x";
    let tokens = tokens_of(&source);
    assert_eq!(*tokens[0].line(), 5001);
}
