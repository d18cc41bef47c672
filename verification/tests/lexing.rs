use interpreter::lexer::Lexer;
use interpreter::LexError;
use interpreter::TokenType;

#[test]
fn lex_simple_expression() {
    let tokens = Lexer::new("1 + 2 * 3").lex().unwrap();
    let kinds: Vec<TokenType> = tokens.iter().map(|t| t.tok_type).collect();
    assert_eq!(
        kinds,
        vec![
            TokenType::Num,
            TokenType::Plus,
            TokenType::Num,
            TokenType::Times,
            TokenType::Num,
            TokenType::EOF,
        ]
    );
    assert_eq!(tokens[0].text, "1");
    assert_eq!(tokens[2].text, "2");
    assert_eq!(tokens[4].text, "3");
    assert_eq!(tokens[5].text, "<EOF>");
    let positions: Vec<u32> = tokens.iter().map(|t| t.start_pos).collect();
    assert_eq!(positions, vec![0, 2, 4, 6, 8, 9]);
}

#[test]
fn lex_empty_line_gives_single_end_of_input() {
    let tokens = Lexer::new("").lex().unwrap();
    assert_eq!(tokens.len(), 1);
    assert_eq!(tokens[0].tok_type, TokenType::EOF);
    assert_eq!(tokens[0].start_pos, 0);
}

#[test]
fn lex_rejects_unknown_character() {
    let err = Lexer::new("7 % 2").lex().unwrap_err();
    assert_eq!(err, LexError { character: '%', position: 2 });
}

#[test]
fn lex_without_whitespace() {
    let tokens = Lexer::new("5+2").lex().unwrap();
    let kinds: Vec<TokenType> = tokens.iter().map(|t| t.tok_type).collect();
    assert_eq!(kinds, vec![TokenType::Num, TokenType::Plus, TokenType::Num, TokenType::EOF]);
    assert_eq!(tokens[0].text, "5");
    assert_eq!(tokens[2].text, "2");
    assert_eq!(tokens[2].start_pos, 2);
}

#[test]
fn lex_groups_maximal_digit_runs() {
    let tokens = Lexer::new("  1234  ").lex().unwrap();
    assert_eq!(tokens.len(), 2);
    assert_eq!(tokens[0].tok_type, TokenType::Num);
    assert_eq!(tokens[0].text, "1234");
    assert_eq!(tokens[0].start_pos, 2);
    assert_eq!(tokens[1].tok_type, TokenType::EOF);
    assert_eq!(tokens[1].start_pos, 8);
}

#[test]
fn lex_keywords_and_identifiers() {
    let tokens = Lexer::new("true false foo").lex().unwrap();
    let kinds: Vec<TokenType> = tokens.iter().map(|t| t.tok_type).collect();
    assert_eq!(
        kinds,
        vec![TokenType::True, TokenType::False, TokenType::Identifier, TokenType::EOF]
    );
    assert_eq!(tokens[0].text, "true");
    assert_eq!(tokens[1].text, "false");
    assert_eq!(tokens[2].text, "foo");
    assert_eq!(tokens[2].start_pos, 11);
}

#[test]
fn lex_minus_and_times_tokens() {
    let tokens = Lexer::new("4*2-1").lex().unwrap();
    let kinds: Vec<TokenType> = tokens.iter().map(|t| t.tok_type).collect();
    assert_eq!(
        kinds,
        vec![
            TokenType::Num,
            TokenType::Times,
            TokenType::Num,
            TokenType::Minus,
            TokenType::Num,
            TokenType::EOF,
        ]
    );
}

#[test]
fn lex_whitespace_only_gives_single_end_of_input() {
    let tokens = Lexer::new(" \t ").lex().unwrap();
    assert_eq!(tokens.len(), 1);
    assert_eq!(tokens[0].tok_type, TokenType::EOF);
    assert_eq!(tokens[0].start_pos, 3);
}
