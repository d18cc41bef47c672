use interpreter::interpreter::Interpreter;
use interpreter::lexer::Lexer;
use interpreter::parser::Parser;
use interpreter::Expr;
use interpreter::ExprOpt;
use interpreter::Term;
use interpreter::TermOpt;
use interpreter::TokenType;

fn run(src: &str) -> i32 {
    let tokens = Lexer::new(src).lex().unwrap();
    let ast = Parser::new(tokens).parse().unwrap();
    Interpreter::new(ast).eval()
}

#[test]
fn eval_multiplication_binds_tighter() {
    assert_eq!(run("1 + 2 * 3"), 7);
}

#[test]
fn eval_subtraction_is_left_to_right() {
    assert_eq!(run("5-2-1"), 2);
}

#[test]
fn eval_product_chain() {
    assert_eq!(run("4*2*3"), 24);
}

#[test]
fn eval_single_number() {
    assert_eq!(run("42"), 42);
}

#[test]
fn eval_is_unchanged_by_whitespace() {
    assert_eq!(run("1+2*3"), 7);
    assert_eq!(run("  1 +2*   3 "), 7);
    assert_eq!(run("1 + 2 *3"), 7);
}

#[test]
fn eval_mixed_chain() {
    assert_eq!(run("10 - 2 * 3 + 4"), 8);
}

fn sample_tree() -> Expr {
    // 2 * 3 + 4
    let first = Term::new(2, vec![TermOpt::new(3)]);
    let second = Term::new(4, vec![]);
    Expr::new(first, vec![ExprOpt::new(TokenType::Plus, second)])
}

#[test]
fn eval_twice_gives_same_result() {
    let a = Interpreter::new(sample_tree()).eval();
    let b = Interpreter::new(sample_tree()).eval();
    assert_eq!(a, b);
    assert_eq!(a, 10);
}

#[test]
fn eval_checked_agrees_with_eval() {
    let tokens = Lexer::new("10 - 2 * 3 + 4").lex().unwrap();
    let ast = Parser::new(tokens).parse().unwrap();
    assert_eq!(Interpreter::new(ast).eval_checked(), Some(8));
}

#[test]
fn eval_checked_detects_additive_overflow() {
    let tokens = Lexer::new("2000000000 + 2000000000").lex().unwrap();
    let ast = Parser::new(tokens).parse().unwrap();
    assert_eq!(Interpreter::new(ast).eval_checked(), None);
}

#[test]
fn eval_checked_detects_multiplicative_overflow() {
    let tokens = Lexer::new("100000 * 100000").lex().unwrap();
    let ast = Parser::new(tokens).parse().unwrap();
    assert_eq!(Interpreter::new(ast).eval_checked(), None);
}

#[test]
fn eval_checked_detects_intermediate_overflow() {
    // The running sum overflows even though the final value would fit.
    let tokens = Lexer::new("2147483647 + 1 - 2").lex().unwrap();
    let ast = Parser::new(tokens).parse().unwrap();
    assert_eq!(Interpreter::new(ast).eval_checked(), None);
}

#[test]
fn eval_checked_handles_negative_running_sum() {
    let tokens = Lexer::new("0 - 5 + 3").lex().unwrap();
    let ast = Parser::new(tokens).parse().unwrap();
    assert_eq!(Interpreter::new(ast).eval_checked(), Some(-2));
}

#[test]
fn eval_longer_mixed_chain() {
    assert_eq!(run("2*3+4*5-6"), 20);
    assert_eq!(run("1-2*3"), -5);
}
