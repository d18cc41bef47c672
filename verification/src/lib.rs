pub mod interpreter;
pub mod laws;
pub mod lexer;
pub mod parser;

use vstd::prelude::*;

verus! {

// ============
//   GRAMMAR
// ============

/// A left-associative chain of additions and subtractions: a leading term
/// followed by zero or more `(+|-) term` continuations.
#[derive(Debug)]
pub struct Expr {
    pub term: Term,
    pub expr_opt: Vec<ExprOpt>,
}

/// Ghost model of an `Expr`.
pub ghost struct SpecExpr {
    pub term: SpecTerm,
    pub expr_opt: Seq<SpecExprOpt>,
}

impl View for Expr {
    type V = SpecExpr;

    open spec fn view(&self) -> SpecExpr {
        SpecExpr { term: self.term@, expr_opt: opt_views(self.expr_opt@) }
    }
}

/// The views of a sequence of expression continuations.
pub open spec fn opt_views(s: Seq<ExprOpt>) -> Seq<SpecExprOpt> {
    s.map_values(|o: ExprOpt| o@)
}

/// The factors held by a sequence of term continuations.
pub open spec fn factor_views(s: Seq<TermOpt>) -> Seq<i32> {
    s.map_values(|o: TermOpt| o.num)
}

impl Expr {
    pub fn new(term: Term, expr_opt: Vec<ExprOpt>) -> (e: Expr)
        ensures
            e.term == term,
            e.expr_opt == expr_opt,
    {
        Expr { term, expr_opt }
    }
}

/// One `(+|-) term` continuation of an expression.
#[derive(Debug)]
pub struct ExprOpt {
    pub op: TokenType,
    pub term: Term,
}

/// Ghost model of an `ExprOpt`.
pub ghost struct SpecExprOpt {
    pub op: TokenType,
    pub term: SpecTerm,
}

impl View for ExprOpt {
    type V = SpecExprOpt;

    open spec fn view(&self) -> SpecExprOpt {
        SpecExprOpt { op: self.op, term: self.term@ }
    }
}

impl ExprOpt {
    pub fn new(op: TokenType, term: Term) -> (o: ExprOpt)
        ensures
            o.op == op,
            o.term == term,
    {
        ExprOpt { op, term }
    }
}

/// A left-associative chain of multiplications: a leading number followed by
/// zero or more `* number` continuations.
#[derive(Debug)]
pub struct Term {
    pub num: i32,
    pub term_opts: Vec<TermOpt>,
}

/// Ghost model of a `Term`: the leading factor and the chain of further factors.
pub ghost struct SpecTerm {
    pub num: i32,
    pub term_opts: Seq<i32>,
}

impl View for Term {
    type V = SpecTerm;

    open spec fn view(&self) -> SpecTerm {
        SpecTerm { num: self.num, term_opts: factor_views(self.term_opts@) }
    }
}

impl Term {
    pub fn new(num: i32, term_opts: Vec<TermOpt>) -> (t: Term)
        ensures
            t.num == num,
            t.term_opts == term_opts,
    {
        Term { num, term_opts }
    }
}

/// One `* number` continuation of a term.
#[derive(Debug)]
pub struct TermOpt {
    pub num: i32,
}

impl TermOpt {
    pub fn new(num: i32) -> (o: TermOpt)
        ensures
            o.num == num,
    {
        TermOpt { num }
    }
}

// =================
//  TOKEN AND TYPES
// =================

/// A lexical token: its kind, its literal text, and the 0-based offset of its
/// first character in the source line (kept for diagnostics).
#[derive(Debug)]
pub struct Token {
    pub tok_type: TokenType,
    pub text: String,
    pub start_pos: u32,
}

impl Clone for Token {
    fn clone(&self) -> (t: Token)
        ensures
            t == *self,
    {
        Token { tok_type: self.tok_type, text: self.text.clone(), start_pos: self.start_pos }
    }
}

/// Ghost model of a `Token`: the text is a sequence of characters.
pub ghost struct SpecToken {
    pub tok_type: TokenType,
    pub text: Seq<char>,
    pub start_pos: u32,
}

impl View for Token {
    type V = SpecToken;

    open spec fn view(&self) -> SpecToken {
        SpecToken { tok_type: self.tok_type, text: self.text@, start_pos: self.start_pos }
    }
}

impl Token {
    pub fn new(tok_type: TokenType, text: String, start_pos: u32) -> (t: Token)
        ensures
            t@ == (SpecToken { tok_type, text: text@, start_pos }),
    {
        Token { tok_type, text, start_pos }
    }
}

#[derive(Debug, PartialEq, Eq, Structural, Clone, Copy)]
pub enum TokenType {
    Num,
    Plus,
    Minus,
    Times,
    Identifier,
    True,
    False,
    EOF,
}

/// The views of a sequence of tokens.
pub open spec fn views_of(toks: Seq<Token>) -> Seq<SpecToken> {
    toks.map_values(|t: Token| t@)
}

// ========
//  ERRORS
// ========

/// An unrecognized character at a given position aborts scanning.
#[derive(Debug, PartialEq, Eq, Structural, Clone, Copy)]
pub struct LexError {
    pub character: char,
    pub position: u32,
}

/// A parse failure: a token of the wrong kind, a number token whose text does
/// not fit the target integer type, or leftover tokens after a complete
/// expression.
#[derive(Debug)]
pub enum ParseError {
    UnexpectedToken { expected: TokenType, found: TokenType, position: u32 },
    NumberFormat { text: String, position: u32 },
    TrailingInput { text: String, position: u32 },
}

/// Ghost model of a `ParseError`.
pub ghost enum SpecParseError {
    UnexpectedToken { expected: TokenType, found: TokenType, position: u32 },
    NumberFormat { text: Seq<char>, position: u32 },
    TrailingInput { text: Seq<char>, position: u32 },
}

impl View for ParseError {
    type V = SpecParseError;

    open spec fn view(&self) -> SpecParseError {
        match self {
            ParseError::UnexpectedToken { expected, found, position } => {
                SpecParseError::UnexpectedToken {
                    expected: *expected,
                    found: *found,
                    position: *position,
                }
            },
            ParseError::NumberFormat { text, position } => {
                SpecParseError::NumberFormat { text: text@, position: *position }
            },
            ParseError::TrailingInput { text, position } => {
                SpecParseError::TrailingInput { text: text@, position: *position }
            },
        }
    }
}

} // verus!
