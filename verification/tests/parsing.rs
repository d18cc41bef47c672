use interpreter::lexer::Lexer;
use interpreter::parser::Parser;
use interpreter::ParseError;
use interpreter::Token;
use interpreter::TokenType;

fn tokens_of(src: &str) -> Vec<Token> {
    Lexer::new(src).lex().unwrap()
}

#[test]
fn parse_empty_line_expects_number() {
    let err = Parser::new(tokens_of("")).parse().unwrap_err();
    assert!(matches!(
        err,
        ParseError::UnexpectedToken {
            expected: TokenType::Num,
            found: TokenType::EOF,
            position: 0,
        }
    ));
}

#[test]
fn parse_lone_operator_expects_number() {
    let err = Parser::new(tokens_of("+")).parse().unwrap_err();
    assert!(matches!(
        err,
        ParseError::UnexpectedToken {
            expected: TokenType::Num,
            found: TokenType::Plus,
            position: 0,
        }
    ));
}

#[test]
fn parse_dangling_operator_expects_number() {
    let err = Parser::new(tokens_of("3 +")).parse().unwrap_err();
    assert!(matches!(
        err,
        ParseError::UnexpectedToken {
            expected: TokenType::Num,
            found: TokenType::EOF,
            position: 3,
        }
    ));
}

#[test]
fn parse_second_number_is_trailing_input() {
    let err = Parser::new(tokens_of("2 2")).parse().unwrap_err();
    match err {
        ParseError::TrailingInput { text, position } => {
            assert_eq!(text, "2");
            assert_eq!(position, 2);
        },
        other => panic!("expected TrailingInput, got {:?}", other),
    }
}

#[test]
fn parse_number_too_large_for_i32() {
    let err = Parser::new(tokens_of("9999999999")).parse().unwrap_err();
    match err {
        ParseError::NumberFormat { text, position } => {
            assert_eq!(text, "9999999999");
            assert_eq!(position, 0);
        },
        other => panic!("expected NumberFormat, got {:?}", other),
    }
}

#[test]
fn parse_number_just_past_i32_max() {
    let err = Parser::new(tokens_of("2147483648")).parse().unwrap_err();
    assert!(matches!(err, ParseError::NumberFormat { .. }));
}

#[test]
fn parse_i32_max_is_accepted() {
    assert!(Parser::new(tokens_of("2147483647")).parse().is_ok());
}

#[test]
fn parse_overflow_in_factor_reports_its_position() {
    let err = Parser::new(tokens_of("2 * 99999999999")).parse().unwrap_err();
    match err {
        ParseError::NumberFormat { text, position } => {
            assert_eq!(text, "99999999999");
            assert_eq!(position, 4);
        },
        other => panic!("expected NumberFormat, got {:?}", other),
    }
}

#[test]
fn parse_accepts_full_sum_of_products() {
    assert!(Parser::new(tokens_of("1 + 2 * 3 - 4")).parse().is_ok());
}

#[test]
fn parse_identifier_is_not_a_number() {
    let err = Parser::new(tokens_of("foo")).parse().unwrap_err();
    assert!(matches!(
        err,
        ParseError::UnexpectedToken {
            expected: TokenType::Num,
            found: TokenType::Identifier,
            position: 0,
        }
    ));
}
