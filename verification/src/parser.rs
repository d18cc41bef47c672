use vstd::prelude::*;
use vstd::string::*;

use crate::Expr;
use crate::ExprOpt;
use crate::ParseError;
use crate::SpecExpr;
use crate::SpecExprOpt;
use crate::SpecParseError;
use crate::SpecTerm;
use crate::SpecToken;
use crate::Term;
use crate::TermOpt;
use crate::Token;
use crate::TokenType;
use crate::factor_views;
use crate::lexer::is_digit_char;
use crate::opt_views;
use crate::views_of;

verus! {

// ================
//  NUMBER PARSING
// ================

/// Every character of the text is a decimal digit.
pub open spec fn all_digits(text: Seq<char>) -> bool {
    forall|j: int| 0 <= j < text.len() ==> is_digit_char(text[j])
}

/// The value of a digit string read in base ten.
pub open spec fn digits_val(text: Seq<char>) -> int
    decreases text.len(),
{
    if text.len() == 0 {
        0
    } else {
        digits_val(text.drop_last()) * 10 + (text.last() as u32 - 48)
    }
}

/// What converting a token's text to an `i32` yields: the base-ten value of a
/// non-empty all-digit text when it fits, nothing otherwise.
pub open spec fn spec_str_to_i32(text: Seq<char>) -> Option<i32> {
    if text.len() > 0 && all_digits(text) && digits_val(text) <= i32::MAX {
        Some(digits_val(text) as i32)
    } else {
        None
    }
}

pub proof fn lemma_digits_val_nonneg(text: Seq<char>)
    requires
        all_digits(text),
    ensures
        digits_val(text) >= 0,
    decreases text.len(),
{
    if text.len() > 0 {
        assert(all_digits(text.drop_last()));
        lemma_digits_val_nonneg(text.drop_last());
        assert(is_digit_char(text.last()));
    }
}

/// A digit string is worth at least any of its prefixes.
pub proof fn lemma_digits_val_take_le(text: Seq<char>, m: int)
    requires
        all_digits(text),
        0 <= m <= text.len(),
    ensures
        digits_val(text.take(m)) <= digits_val(text),
    decreases text.len() - m,
{
    assert(text.take(text.len() as int) =~= text);
    if m < text.len() {
        assert(all_digits(text.take(m)));
        lemma_digits_val_nonneg(text.take(m));
        assert(text.take(m + 1).drop_last() =~= text.take(m));
        assert(text.take(m + 1).last() == text[m]);
        assert(is_digit_char(text[m]));
        assert(digits_val(text.take(m)) <= digits_val(text.take(m + 1)));
        lemma_digits_val_take_le(text, m + 1);
    }
}

/// Converts the text of a Number token to an `i32`, exactly as
/// `spec_str_to_i32` says: the base-ten value of a non-empty all-digit text
/// when it fits the type, `None` otherwise.
pub fn parse_number(text: &String) -> (r: Option<i32>)
    ensures
        r == spec_str_to_i32(text@),
{
    let n: usize = text.as_str().unicode_len();
    if n == 0 {
        return None;
    }
    let mut val: i32 = 0;
    let mut k: usize = 0;
    while k < n
        invariant
            n == text@.len(),
            k <= n,
            all_digits(text@.take(k as int)),
            0 <= val,
            val as int == digits_val(text@.take(k as int)),
        decreases n - k,
    {
        let c = text.as_str().get_char(k);
        if !(c >= '0' && c <= '9') {
            proof {
                assert(!is_digit_char(text@[k as int]));
                assert(!all_digits(text@));
            }
            return None;
        }
        let d: u32 = c as u32 - 48;
        let wide: i64 = val as i64 * 10 + d as i64;
        proof {
            assert(text@.take(k + 1).drop_last() =~= text@.take(k as int));
            assert(text@.take(k + 1).last() == text@[k as int]);
            assert(wide as int == digits_val(text@.take(k + 1)));
        }
        if wide > i32::MAX as i64 {
            proof {
                if all_digits(text@) {
                    lemma_digits_val_take_le(text@, k + 1);
                    assert(digits_val(text@) > i32::MAX);
                }
            }
            return None;
        }
        val = wide as i32;
        k = k + 1;
    }
    proof {
        assert(text@.take(n as int) =~= text@);
    }
    Some(val)
}

// ===============
//  GHOST PARSING
// ===============

/// The token stream invariant the lexer guarantees: it is never empty and
/// ends with the EndOfInput sentinel.
pub open spec fn stream_wf(toks: Seq<SpecToken>) -> bool {
    toks.len() >= 1 && toks.last().tok_type == TokenType::EOF
}

/// Consuming one token of an expected kind: the token when it matches, a
/// grammar-mismatch error otherwise.
pub open spec fn spec_eat(toks: Seq<SpecToken>, i: nat, kind: TokenType) -> Result<
    SpecToken,
    SpecParseError,
> {
    let t = toks[i as int];
    if t.tok_type == kind {
        Ok(t)
    } else {
        Err(
            SpecParseError::UnexpectedToken {
                expected: kind,
                found: t.tok_type,
                position: t.start_pos,
            },
        )
    }
}

/// Reading a Number token's text as an `i32`.
pub open spec fn spec_num_value(t: SpecToken) -> Result<i32, SpecParseError> {
    match spec_str_to_i32(t.text) {
        Some(v) => Ok(v),
        None => Err(SpecParseError::NumberFormat { text: t.text, position: t.start_pos }),
    }
}

/// The `( '*' Number )*` continuations of a term, read from offset `i`:
/// the factors and the offset of the first token not consumed.
pub open spec fn spec_term_opts(toks: Seq<SpecToken>, i: nat) -> Result<
    (Seq<i32>, nat),
    SpecParseError,
>
    decreases toks.len() - i,
    when stream_wf(toks) && i < toks.len()
    via spec_term_opts_decreases
{
    if toks[i as int].tok_type == TokenType::Times {
        match spec_eat(toks, (i + 1) as nat, TokenType::Num) {
            Ok(t) => match spec_num_value(t) {
                Ok(v) => match spec_term_opts(toks, (i + 2) as nat) {
                    Ok(r) => Ok((seq![v] + r.0, r.1)),
                    Err(e) => Err(e),
                },
                Err(e) => Err(e),
            },
            Err(e) => Err(e),
        }
    } else {
        Ok((Seq::empty(), i))
    }
}

#[via_fn]
proof fn spec_term_opts_decreases(toks: Seq<SpecToken>, i: nat) {
    if stream_wf(toks) && i < toks.len() {
        assert(toks[toks.len() - 1].tok_type == TokenType::EOF);
    }
}

/// `Term := Number ( '*' Number )*`, read from offset `i`.
pub open spec fn spec_term(toks: Seq<SpecToken>, i: nat) -> Result<
    (SpecTerm, nat),
    SpecParseError,
> {
    match spec_eat(toks, i, TokenType::Num) {
        Ok(t) => match spec_num_value(t) {
            Ok(v) => match spec_term_opts(toks, (i + 1) as nat) {
                Ok(r) => Ok((SpecTerm { num: v, term_opts: r.0 }, r.1)),
                Err(e) => Err(e),
            },
            Err(e) => Err(e),
        },
        Err(e) => Err(e),
    }
}

pub proof fn lemma_term_opts_bounds(toks: Seq<SpecToken>, i: nat)
    requires
        stream_wf(toks),
        i < toks.len(),
    ensures
        match spec_term_opts(toks, i) {
            Ok(r) => i <= r.1 < toks.len(),
            Err(_) => true,
        },
    decreases toks.len() - i,
{
    assert(toks[toks.len() - 1].tok_type == TokenType::EOF);
    if toks[i as int].tok_type == TokenType::Times {
        if toks[i + 1 as int].tok_type == TokenType::Num {
            if spec_str_to_i32(toks[i + 1 as int].text) is Some {
                lemma_term_opts_bounds(toks, (i + 2) as nat);
            }
        }
    }
}

pub proof fn lemma_term_bounds(toks: Seq<SpecToken>, i: nat)
    requires
        stream_wf(toks),
        i < toks.len(),
    ensures
        match spec_term(toks, i) {
            Ok(r) => i < r.1 < toks.len(),
            Err(_) => true,
        },
{
    assert(toks[toks.len() - 1].tok_type == TokenType::EOF);
    if toks[i as int].tok_type == TokenType::Num {
        if spec_str_to_i32(toks[i as int].text) is Some {
            lemma_term_opts_bounds(toks, (i + 1) as nat);
        }
    }
}

/// The `( ('+'|'-') Term )*` continuations of an expression, read from
/// offset `i`: the continuations and the offset of the first token not
/// consumed.
pub open spec fn spec_expr_opt(toks: Seq<SpecToken>, i: nat) -> Result<
    (Seq<SpecExprOpt>, nat),
    SpecParseError,
>
    decreases toks.len() - i,
    when stream_wf(toks) && i < toks.len()
    via spec_expr_opt_decreases
{
    let k = toks[i as int].tok_type;
    if k == TokenType::Plus || k == TokenType::Minus {
        match spec_term(toks, (i + 1) as nat) {
            Ok(r) => match spec_expr_opt(toks, r.1) {
                Ok(r2) => Ok((seq![SpecExprOpt { op: k, term: r.0 }] + r2.0, r2.1)),
                Err(e) => Err(e),
            },
            Err(e) => Err(e),
        }
    } else {
        Ok((Seq::empty(), i))
    }
}

#[via_fn]
proof fn spec_expr_opt_decreases(toks: Seq<SpecToken>, i: nat) {
    if stream_wf(toks) && i < toks.len() {
        assert(toks[toks.len() - 1].tok_type == TokenType::EOF);
        let k = toks[i as int].tok_type;
        if k == TokenType::Plus || k == TokenType::Minus {
            lemma_term_bounds(toks, (i + 1) as nat);
        }
    }
}

pub proof fn lemma_expr_opt_bounds(toks: Seq<SpecToken>, i: nat)
    requires
        stream_wf(toks),
        i < toks.len(),
    ensures
        match spec_expr_opt(toks, i) {
            Ok(r) => i <= r.1 < toks.len(),
            Err(_) => true,
        },
    decreases toks.len() - i,
{
    assert(toks[toks.len() - 1].tok_type == TokenType::EOF);
    let k = toks[i as int].tok_type;
    if k == TokenType::Plus || k == TokenType::Minus {
        lemma_term_bounds(toks, (i + 1) as nat);
        match spec_term(toks, (i + 1) as nat) {
            Ok(r) => {
                lemma_expr_opt_bounds(toks, r.1);
            },
            Err(_) => {},
        }
    }
}

/// `Expr := Term ( ('+'|'-') Term )*`, read from offset `i`.
pub open spec fn spec_expr(toks: Seq<SpecToken>, i: nat) -> Result<
    (SpecExpr, nat),
    SpecParseError,
> {
    match spec_term(toks, i) {
        Ok(r) => match spec_expr_opt(toks, r.1) {
            Ok(r2) => Ok((SpecExpr { term: r.0, expr_opt: r2.0 }, r2.1)),
            Err(e) => Err(e),
        },
        Err(e) => Err(e),
    }
}

pub proof fn lemma_expr_bounds(toks: Seq<SpecToken>, i: nat)
    requires
        stream_wf(toks),
        i < toks.len(),
    ensures
        match spec_expr(toks, i) {
            Ok(r) => i < r.1 < toks.len(),
            Err(_) => true,
        },
{
    lemma_term_bounds(toks, i);
    match spec_term(toks, i) {
        Ok(r) => {
            lemma_expr_opt_bounds(toks, r.1);
        },
        Err(_) => {},
    }
}

/// What parsing a whole token stream yields: the expression tree when the
/// stream is one expression followed by EndOfInput, the first error met
/// otherwise.
pub open spec fn spec_parse(toks: Seq<SpecToken>) -> Result<SpecExpr, SpecParseError> {
    match spec_expr(toks, 0) {
        Ok(r) => {
            let t = toks[r.1 as int];
            if t.tok_type == TokenType::EOF {
                Ok(r.0)
            } else {
                Err(SpecParseError::TrailingInput { text: t.text, position: t.start_pos })
            }
        },
        Err(e) => Err(e),
    }
}

/// What `Parser::parse` returns: exactly the ghost parse of the tokens.
pub open spec fn parse_matches(toks: Seq<SpecToken>, r: Result<Expr, ParseError>) -> bool {
    match r {
        Ok(e) => spec_parse(toks) == Ok::<SpecExpr, SpecParseError>(e@),
        Err(pe) => spec_parse(toks) == Err::<SpecExpr, SpecParseError>(pe@),
    }
}

// ==============
//  EXEC PARSER
// ==============

pub struct Parser {
    pub tokens: Vec<Token>,
    pub pos: usize,
}

impl Parser {
    /// A parser is ready when it stands at the start of a stream that ends
    /// with the EndOfInput sentinel, as the lexer leaves it.
    pub open spec fn wf(self) -> bool {
        stream_wf(views_of(self.tokens@)) && self.pos == 0
    }

    pub fn new(tokens: Vec<Token>) -> (p: Parser)
        ensures
            p.tokens == tokens,
            p.pos == 0,
    {
        Parser { tokens, pos: 0 }
    }

    pub fn parse(self) -> (r: Result<Expr, ParseError>)
        requires
            self.wf(),
        ensures
            parse_matches(views_of(self.tokens@), r),
    {
        let ghost toks = views_of(self.tokens@);
        let mut this = self;
        proof {
            assert(toks.len() == this.tokens@.len());
        }
        let expr = match this.expr() {
            Ok(e) => e,
            Err(e) => {
                return Err(e);
            },
        };
        proof {
            lemma_expr_bounds(toks, 0);
            assert(toks[this.pos as int] == this.tokens@[this.pos as int]@);
        }
        let token = &this.tokens[this.pos];
        if token.tok_type != TokenType::EOF {
            return Err(
                ParseError::TrailingInput { text: token.text.clone(), position: token.start_pos },
            );
        }
        Ok(expr)
    }

    fn expr(&mut self) -> (r: Result<Expr, ParseError>)
        requires
            stream_wf(views_of(old(self).tokens@)),
            old(self).pos < old(self).tokens@.len(),
        ensures
            final(self).tokens@ == old(self).tokens@,
            match r {
                Ok(e) => spec_expr(views_of(old(self).tokens@), old(self).pos as nat) == Ok::<
                    (SpecExpr, nat),
                    SpecParseError,
                >((e@, final(self).pos as nat)) && old(self).pos < final(self).pos < old(
                    self,
                ).tokens@.len(),
                Err(pe) => spec_expr(views_of(old(self).tokens@), old(self).pos as nat) == Err::<
                    (SpecExpr, nat),
                    SpecParseError,
                >(pe@),
            },
    {
        let term = match self.term() {
            Ok(t) => t,
            Err(e) => {
                return Err(e);
            },
        };
        let opts = match self.expr_opt() {
            Ok(o) => o,
            Err(e) => {
                return Err(e);
            },
        };
        Ok(Expr::new(term, opts))
    }

    fn expr_opt(&mut self) -> (r: Result<Vec<ExprOpt>, ParseError>)
        requires
            stream_wf(views_of(old(self).tokens@)),
            old(self).pos < old(self).tokens@.len(),
        ensures
            final(self).tokens@ == old(self).tokens@,
            match r {
                Ok(v) => spec_expr_opt(views_of(old(self).tokens@), old(self).pos as nat) == Ok::<
                    (Seq<SpecExprOpt>, nat),
                    SpecParseError,
                >((opt_views(v@), final(self).pos as nat)) && old(self).pos <= final(self).pos
                    < old(self).tokens@.len(),
                Err(pe) => spec_expr_opt(views_of(old(self).tokens@), old(self).pos as nat)
                    == Err::<(Seq<SpecExprOpt>, nat), SpecParseError>(pe@),
            },
    {
        let ghost toks = views_of(self.tokens@);
        let ghost start = self.pos as nat;
        let mut opts: Vec<ExprOpt> = Vec::new();
        proof {
            assert(toks.len() == self.tokens@.len());
            assert(opt_views(opts@) =~= Seq::<SpecExprOpt>::empty());
            expr_opt_inv_init(toks, start);
        }
        while self.tokens[self.pos].tok_type == TokenType::Plus || self.tokens[self.pos].tok_type
            == TokenType::Minus
            invariant
                stream_wf(toks),
                self.tokens@ == old(self).tokens@,
                toks == views_of(self.tokens@),
                toks.len() == self.tokens@.len(),
                start == old(self).pos as nat,
                start <= self.pos as nat,
                self.pos < self.tokens@.len(),
                expr_opt_inv(toks, start, opt_views(opts@), self.pos as nat),
            decreases toks.len() - self.pos,
        {
            proof {
                assert(toks[self.pos as int] == self.tokens@[self.pos as int]@);
            }
            let tt = self.tokens[self.pos].tok_type;
            let ghost p = self.pos as nat;
            let ghost done = opt_views(opts@);
            let op_token = if tt == TokenType::Plus {
                match self.eat(TokenType::Plus) {
                    Ok(t) => t,
                    Err(e) => {
                        return Err(e);
                    },
                }
            } else {
                match self.eat(TokenType::Minus) {
                    Ok(t) => t,
                    Err(e) => {
                        return Err(e);
                    },
                }
            };
            let op = op_token.tok_type;
            let term = match self.term() {
                Ok(t) => t,
                Err(e) => {
                    proof {
                        expr_opt_inv_err(toks, start, done, p, e@);
                    }
                    return Err(e);
                },
            };
            let o = ExprOpt::new(op, term);
            proof {
                lemma_opt_views_push(opts@, o);
                expr_opt_inv_step(toks, start, done, p, op, term@, self.pos as nat);
            }
            opts.push(o);
        }
        proof {
            assert(toks[self.pos as int] == self.tokens@[self.pos as int]@);
            assert(spec_expr_opt(toks, self.pos as nat) == Ok::<
                (Seq<SpecExprOpt>, nat),
                SpecParseError,
            >((Seq::<SpecExprOpt>::empty(), self.pos as nat)));
            assert(opt_views(opts@) + Seq::<SpecExprOpt>::empty() =~= opt_views(opts@));
        }
        Ok(opts)
    }

    fn term(&mut self) -> (r: Result<Term, ParseError>)
        requires
            stream_wf(views_of(old(self).tokens@)),
            old(self).pos < old(self).tokens@.len(),
        ensures
            final(self).tokens@ == old(self).tokens@,
            match r {
                Ok(t) => spec_term(views_of(old(self).tokens@), old(self).pos as nat) == Ok::<
                    (SpecTerm, nat),
                    SpecParseError,
                >((t@, final(self).pos as nat)) && old(self).pos < final(self).pos < old(
                    self,
                ).tokens@.len(),
                Err(pe) => spec_term(views_of(old(self).tokens@), old(self).pos as nat) == Err::<
                    (SpecTerm, nat),
                    SpecParseError,
                >(pe@),
            },
    {
        let ghost toks = views_of(self.tokens@);
        proof {
            assert(toks.len() == self.tokens@.len());
        }
        let num_token = match self.eat(TokenType::Num) {
            Ok(t) => t,
            Err(e) => {
                return Err(e);
            },
        };
        let num = match parse_number(&num_token.text) {
            Some(v) => v,
            None => {
                return Err(
                    ParseError::NumberFormat {
                        text: num_token.text,
                        position: num_token.start_pos,
                    },
                );
            },
        };
        proof {
            assert(toks[toks.len() - 1].tok_type == TokenType::EOF);
            assert(self.pos < self.tokens@.len());
        }
        let opts = match self.term_opts() {
            Ok(o) => o,
            Err(e) => {
                return Err(e);
            },
        };
        proof {
            lemma_term_bounds(toks, old(self).pos as nat);
        }
        Ok(Term::new(num, opts))
    }

    fn term_opts(&mut self) -> (r: Result<Vec<TermOpt>, ParseError>)
        requires
            stream_wf(views_of(old(self).tokens@)),
            old(self).pos < old(self).tokens@.len(),
        ensures
            final(self).tokens@ == old(self).tokens@,
            match r {
                Ok(v) => spec_term_opts(views_of(old(self).tokens@), old(self).pos as nat) == Ok::<
                    (Seq<i32>, nat),
                    SpecParseError,
                >((factor_views(v@), final(self).pos as nat)) && old(self).pos <= final(self).pos
                    < old(self).tokens@.len(),
                Err(pe) => spec_term_opts(views_of(old(self).tokens@), old(self).pos as nat)
                    == Err::<(Seq<i32>, nat), SpecParseError>(pe@),
            },
    {
        let ghost toks = views_of(self.tokens@);
        let ghost start = self.pos as nat;
        let mut opts: Vec<TermOpt> = Vec::new();
        proof {
            assert(toks.len() == self.tokens@.len());
            assert(factor_views(opts@) =~= Seq::<i32>::empty());
            term_opts_inv_init(toks, start);
        }
        while self.tokens[self.pos].tok_type == TokenType::Times
            invariant
                stream_wf(toks),
                self.tokens@ == old(self).tokens@,
                toks == views_of(self.tokens@),
                toks.len() == self.tokens@.len(),
                start == old(self).pos as nat,
                start <= self.pos as nat,
                self.pos < self.tokens@.len(),
                term_opts_inv(toks, start, factor_views(opts@), self.pos as nat),
            decreases toks.len() - self.pos,
        {
            proof {
                assert(toks[self.pos as int] == self.tokens@[self.pos as int]@);
            }
            let ghost p = self.pos as nat;
            let ghost done = factor_views(opts@);
            match self.eat(TokenType::Times) {
                Ok(_) => {},
                Err(e) => {
                    return Err(e);
                },
            };
            proof {
                assert(toks[toks.len() - 1].tok_type == TokenType::EOF);
            }
            let num_token = match self.eat(TokenType::Num) {
                Ok(t) => t,
                Err(e) => {
                    proof {
                        term_opts_inv_err(toks, start, done, p, e@);
                    }
                    return Err(e);
                },
            };
            let num = match parse_number(&num_token.text) {
                Some(v) => v,
                None => {
                    let err = ParseError::NumberFormat {
                        text: num_token.text,
                        position: num_token.start_pos,
                    };
                    proof {
                        term_opts_inv_err(toks, start, done, p, err@);
                    }
                    return Err(err);
                },
            };
            let o = TermOpt::new(num);
            proof {
                assert(toks[self.pos as int] == self.tokens@[self.pos as int]@);
                lemma_factor_views_push(opts@, o);
                term_opts_inv_step(toks, start, done, p, num, self.pos as nat);
            }
            opts.push(o);
        }
        proof {
            assert(toks[self.pos as int] == self.tokens@[self.pos as int]@);
            assert(spec_term_opts(toks, self.pos as nat) == Ok::<(Seq<i32>, nat), SpecParseError>(
                (Seq::<i32>::empty(), self.pos as nat),
            ));
            assert(factor_views(opts@) + Seq::<i32>::empty() =~= factor_views(opts@));
        }
        Ok(opts)
    }

    fn eat(&mut self, tok_type: TokenType) -> (r: Result<Token, ParseError>)
        requires
            old(self).pos < old(self).tokens@.len(),
        ensures
            final(self).tokens@ == old(self).tokens@,
            final(self).pos == old(self).pos + 1,
            match r {
                Ok(t) => t@ == views_of(old(self).tokens@)[old(self).pos as int] && t.tok_type
                    == tok_type && spec_eat(
                    views_of(old(self).tokens@),
                    old(self).pos as nat,
                    tok_type,
                ) == Ok::<SpecToken, SpecParseError>(t@),
                Err(pe) => spec_eat(views_of(old(self).tokens@), old(self).pos as nat, tok_type)
                    == Err::<SpecToken, SpecParseError>(pe@) && views_of(
                    old(self).tokens@,
                )[old(self).pos as int].tok_type != tok_type,
            },
    {
        proof {
            assert(views_of(self.tokens@)[self.pos as int] == self.tokens@[self.pos as int]@);
        }
        let n = self.tokens.len();
        let token = self.tokens[self.pos].clone();
        proof {
            assert(self.pos < n);
        }
        self.pos = self.pos + 1;
        if token.tok_type != tok_type {
            return Err(
                ParseError::UnexpectedToken {
                    expected: tok_type,
                    found: token.tok_type,
                    position: token.start_pos,
                },
            );
        }
        Ok(token)
    }
}

// =====================================
//  LOOP INVARIANTS OF THE TWO REPEATS
// =====================================

/// Invariant of the `term_opts` loop: the factors taken so far, followed by
/// whatever the ghost parse takes from the cursor on, is the ghost parse from
/// the start.
pub open spec fn term_opts_inv(toks: Seq<SpecToken>, start: nat, done: Seq<i32>, i: nat) -> bool {
    match spec_term_opts(toks, i) {
        Ok(r) => spec_term_opts(toks, start) == Ok::<(Seq<i32>, nat), SpecParseError>(
            (done + r.0, r.1),
        ),
        Err(e) => spec_term_opts(toks, start) == Err::<(Seq<i32>, nat), SpecParseError>(e),
    }
}

proof fn term_opts_inv_init(toks: Seq<SpecToken>, start: nat)
    ensures
        term_opts_inv(toks, start, Seq::empty(), start),
{
    match spec_term_opts(toks, start) {
        Ok(r) => {
            assert(Seq::<i32>::empty() + r.0 =~= r.0);
        },
        Err(_) => {},
    }
}

proof fn term_opts_inv_step(
    toks: Seq<SpecToken>,
    start: nat,
    done: Seq<i32>,
    p: nat,
    v: i32,
    q: nat,
)
    requires
        stream_wf(toks),
        p < toks.len(),
        term_opts_inv(toks, start, done, p),
        toks[p as int].tok_type == TokenType::Times,
        toks[p + 1 as int].tok_type == TokenType::Num,
        spec_num_value(toks[p + 1 as int]) == Ok::<i32, SpecParseError>(v),
        q == p + 2,
    ensures
        term_opts_inv(toks, start, done.push(v), q),
{
    match spec_term_opts(toks, q) {
        Ok(r) => {
            assert(spec_term_opts(toks, p) == Ok::<(Seq<i32>, nat), SpecParseError>(
                (seq![v] + r.0, r.1),
            ));
            assert(done + (seq![v] + r.0) =~= done.push(v) + r.0);
        },
        Err(_) => {},
    }
}

proof fn term_opts_inv_err(
    toks: Seq<SpecToken>,
    start: nat,
    done: Seq<i32>,
    p: nat,
    e: SpecParseError,
)
    requires
        stream_wf(toks),
        p < toks.len(),
        term_opts_inv(toks, start, done, p),
        toks[p as int].tok_type == TokenType::Times,
        (match spec_eat(toks, (p + 1) as nat, TokenType::Num) {
            Ok(t) => spec_num_value(t) == Err::<i32, SpecParseError>(e),
            Err(e2) => e2 == e,
        }),
    ensures
        spec_term_opts(toks, start) == Err::<(Seq<i32>, nat), SpecParseError>(e),
{
    assert(spec_term_opts(toks, p) == Err::<(Seq<i32>, nat), SpecParseError>(e));
}

/// Invariant of the `expr_opt` loop, in the shape of `term_opts_inv`.
pub open spec fn expr_opt_inv(
    toks: Seq<SpecToken>,
    start: nat,
    done: Seq<SpecExprOpt>,
    i: nat,
) -> bool {
    match spec_expr_opt(toks, i) {
        Ok(r) => spec_expr_opt(toks, start) == Ok::<(Seq<SpecExprOpt>, nat), SpecParseError>(
            (done + r.0, r.1),
        ),
        Err(e) => spec_expr_opt(toks, start) == Err::<(Seq<SpecExprOpt>, nat), SpecParseError>(e),
    }
}

proof fn expr_opt_inv_init(toks: Seq<SpecToken>, start: nat)
    ensures
        expr_opt_inv(toks, start, Seq::empty(), start),
{
    match spec_expr_opt(toks, start) {
        Ok(r) => {
            assert(Seq::<SpecExprOpt>::empty() + r.0 =~= r.0);
        },
        Err(_) => {},
    }
}

proof fn expr_opt_inv_step(
    toks: Seq<SpecToken>,
    start: nat,
    done: Seq<SpecExprOpt>,
    p: nat,
    op: TokenType,
    t: SpecTerm,
    q: nat,
)
    requires
        stream_wf(toks),
        p < toks.len(),
        expr_opt_inv(toks, start, done, p),
        toks[p as int].tok_type == op,
        op == TokenType::Plus || op == TokenType::Minus,
        spec_term(toks, (p + 1) as nat) == Ok::<(SpecTerm, nat), SpecParseError>((t, q)),
    ensures
        expr_opt_inv(toks, start, done.push(SpecExprOpt { op, term: t }), q),
{
    let o = SpecExprOpt { op, term: t };
    assert(toks[toks.len() - 1].tok_type == TokenType::EOF);
    assert(p + 1 < toks.len());
    lemma_term_bounds(toks, (p + 1) as nat);
    match spec_expr_opt(toks, q) {
        Ok(r) => {
            assert(spec_expr_opt(toks, p) == Ok::<(Seq<SpecExprOpt>, nat), SpecParseError>(
                (seq![o] + r.0, r.1),
            ));
            assert(done + (seq![o] + r.0) =~= done.push(o) + r.0);
        },
        Err(_) => {},
    }
}

proof fn expr_opt_inv_err(
    toks: Seq<SpecToken>,
    start: nat,
    done: Seq<SpecExprOpt>,
    p: nat,
    e: SpecParseError,
)
    requires
        stream_wf(toks),
        p < toks.len(),
        expr_opt_inv(toks, start, done, p),
        toks[p as int].tok_type == TokenType::Plus || toks[p as int].tok_type == TokenType::Minus,
        spec_term(toks, (p + 1) as nat) == Err::<(SpecTerm, nat), SpecParseError>(e),
    ensures
        spec_expr_opt(toks, start) == Err::<(Seq<SpecExprOpt>, nat), SpecParseError>(e),
{
    assert(spec_expr_opt(toks, p) == Err::<(Seq<SpecExprOpt>, nat), SpecParseError>(e));
}

pub proof fn lemma_opt_views_push(s: Seq<ExprOpt>, o: ExprOpt)
    ensures
        opt_views(s.push(o)) =~= opt_views(s).push(o@),
{
    assert forall|k: int| 0 <= k < s.len() + 1 implies opt_views(s.push(o))[k] == opt_views(
        s,
    ).push(o@)[k] by {
        if k < s.len() {
            assert(s.push(o)[k] == s[k]);
        } else {
            assert(s.push(o)[k] == o);
        }
    }
}

pub proof fn lemma_factor_views_push(s: Seq<TermOpt>, o: TermOpt)
    ensures
        factor_views(s.push(o)) =~= factor_views(s).push(o.num),
{
    assert forall|k: int| 0 <= k < s.len() + 1 implies factor_views(s.push(o))[k] == factor_views(
        s,
    ).push(o.num)[k] by {
        if k < s.len() {
            assert(s.push(o)[k] == s[k]);
        } else {
            assert(s.push(o)[k] == o);
        }
    }
}

} // verus!

