use vstd::prelude::*;
use vstd::string::*;

use crate::LexError;
use crate::SpecToken;
use crate::Token;
use crate::TokenType;
use crate::views_of;

verus! {

// ==========================
//  CHARACTER CLASSIFICATION
// ==========================

/// A decimal digit.
pub open spec fn is_digit_char(c: char) -> bool {
    '0' <= c && c <= '9'
}

/// Whether a character has the Unicode `White_Space` property; a function of
/// the character alone, defined by the Unicode tables.
pub uninterp spec fn is_whitespace_char(c: char) -> bool;

/// Whether a character has the Unicode `Alphabetic` property; a function of
/// the character alone, defined by the Unicode tables.
pub uninterp spec fn is_alphabetic_char(c: char) -> bool;

/// Relies on char::is_whitespace: true exactly for characters with the Unicode
/// `White_Space` property, a function of the character alone.
pub assume_specification[ char::is_whitespace ](c: char) -> (r: bool)
    ensures
        r == is_whitespace_char(c),
;

/// Relies on char::is_alphabetic: true exactly for characters with the Unicode
/// `Alphabetic` property, a function of the character alone.
pub assume_specification[ char::is_alphabetic ](c: char) -> (r: bool)
    ensures
        r == is_alphabetic_char(c),
;

fn is_digit(c: char) -> (r: bool)
    ensures
        r == is_digit_char(c),
{
    c >= '0' && c <= '9'
}

// =====================
//  GHOST TOKENIZATION
// =====================

/// The end of the maximal run of decimal digits that starts at `i`.
pub open spec fn digit_run_end(s: Seq<char>, i: nat) -> nat
    decreases s.len() - i,
    when i <= s.len()
{
    if i < s.len() && is_digit_char(s[i as int]) {
        digit_run_end(s, (i + 1) as nat)
    } else {
        i
    }
}

/// The end of the maximal run of alphabetic characters that starts at `i`.
pub open spec fn alpha_run_end(s: Seq<char>, i: nat) -> nat
    decreases s.len() - i,
    when i <= s.len()
{
    if i < s.len() && is_alphabetic_char(s[i as int]) {
        alpha_run_end(s, (i + 1) as nat)
    } else {
        i
    }
}

pub proof fn lemma_digit_run_end(s: Seq<char>, i: nat)
    requires
        i <= s.len(),
    ensures
        i <= digit_run_end(s, i) <= s.len(),
        i < s.len() && is_digit_char(s[i as int]) ==> digit_run_end(s, i) > i,
        forall|j: int| i <= j < digit_run_end(s, i) ==> is_digit_char(s[j]),
    decreases s.len() - i,
{
    if i < s.len() && is_digit_char(s[i as int]) {
        lemma_digit_run_end(s, (i + 1) as nat);
    }
}

pub proof fn lemma_alpha_run_end(s: Seq<char>, i: nat)
    requires
        i <= s.len(),
    ensures
        i <= alpha_run_end(s, i) <= s.len(),
        i < s.len() && is_alphabetic_char(s[i as int]) ==> alpha_run_end(s, i) > i,
        forall|j: int| i <= j < alpha_run_end(s, i) ==> is_alphabetic_char(s[j]),
    decreases s.len() - i,
{
    if i < s.len() && is_alphabetic_char(s[i as int]) {
        lemma_alpha_run_end(s, (i + 1) as nat);
    }
}

/// A maximal run is delimited by exactly one point: all of `[i, e)` matches
/// and `e` does not (or is the end of the input).
pub proof fn lemma_digit_run_end_is(s: Seq<char>, i: nat, e: nat)
    requires
        i <= e <= s.len(),
        forall|j: int| i <= j < e ==> is_digit_char(s[j]),
        e < s.len() ==> !is_digit_char(s[e as int]),
    ensures
        digit_run_end(s, i) == e,
    decreases e - i,
{
    if i < e {
        assert(is_digit_char(s[i as int]));
        lemma_digit_run_end_is(s, (i + 1) as nat, e);
    }
}

pub proof fn lemma_alpha_run_end_is(s: Seq<char>, i: nat, e: nat)
    requires
        i <= e <= s.len(),
        forall|j: int| i <= j < e ==> is_alphabetic_char(s[j]),
        e < s.len() ==> !is_alphabetic_char(s[e as int]),
    ensures
        alpha_run_end(s, i) == e,
    decreases e - i,
{
    if i < e {
        assert(is_alphabetic_char(s[i as int]));
        lemma_alpha_run_end_is(s, (i + 1) as nat, e);
    }
}

/// The kind of an alphabetic token: the two keywords, else an identifier.
pub open spec fn keyword_type(text: Seq<char>) -> TokenType {
    if text == "false"@ {
        TokenType::False
    } else if text == "true"@ {
        TokenType::True
    } else {
        TokenType::Identifier
    }
}

pub open spec fn spec_token(tok_type: TokenType, text: Seq<char>, pos: nat) -> SpecToken {
    SpecToken { tok_type, text, start_pos: pos as u32 }
}

/// Prepend a token to a tokenization outcome; an error swallows it.
pub open spec fn lex_cons(t: SpecToken, rest: Result<Seq<SpecToken>, LexError>) -> Result<
    Seq<SpecToken>,
    LexError,
> {
    match rest {
        Ok(ts) => Ok(seq![t] + ts),
        Err(e) => Err(e),
    }
}

/// The tokens of `s` from offset `i` on: one left-to-right pass that skips
/// whitespace, emits single-character operator tokens, turns each maximal
/// digit run into one Number token and each maximal alphabetic run into one
/// keyword or identifier token, stops at the first unrecognized character,
/// and otherwise ends with exactly one EndOfInput token at the final offset.
pub open spec fn spec_lex_from(s: Seq<char>, i: nat) -> Result<Seq<SpecToken>, LexError>
    decreases s.len() - i,
    when i <= s.len()
    via spec_lex_from_decreases
{
    if i >= s.len() {
        Ok(seq![spec_token(TokenType::EOF, "<EOF>"@, i)])
    } else {
        let c = s[i as int];
        if is_whitespace_char(c) {
            spec_lex_from(s, (i + 1) as nat)
        } else if c == '+' {
            lex_cons(spec_token(TokenType::Plus, seq![c], i), spec_lex_from(s, (i + 1) as nat))
        } else if c == '*' {
            lex_cons(spec_token(TokenType::Times, seq![c], i), spec_lex_from(s, (i + 1) as nat))
        } else if c == '-' {
            lex_cons(spec_token(TokenType::Minus, seq![c], i), spec_lex_from(s, (i + 1) as nat))
        } else if is_digit_char(c) {
            let j = digit_run_end(s, i);
            lex_cons(
                spec_token(TokenType::Num, s.subrange(i as int, j as int), i),
                spec_lex_from(s, j),
            )
        } else if is_alphabetic_char(c) {
            let j = alpha_run_end(s, i);
            let text = s.subrange(i as int, j as int);
            lex_cons(spec_token(keyword_type(text), text, i), spec_lex_from(s, j))
        } else {
            Err(LexError { character: c, position: i as u32 })
        }
    }
}

#[via_fn]
proof fn spec_lex_from_decreases(s: Seq<char>, i: nat) {
    if i < s.len() {
        lemma_digit_run_end(s, i);
        lemma_alpha_run_end(s, i);
    }
}

/// The tokens of a whole source line.
pub open spec fn spec_lex(s: Seq<char>) -> Result<Seq<SpecToken>, LexError> {
    spec_lex_from(s, 0)
}

/// What `Lexer::lex` returns: exactly the ghost tokenization of the source.
pub open spec fn lex_matches(src: Seq<char>, r: Result<Vec<Token>, LexError>) -> bool {
    match r {
        Ok(toks) => spec_lex(src) == Ok::<Seq<SpecToken>, LexError>(views_of(toks@)),
        Err(e) => spec_lex(src) == Err::<Seq<SpecToken>, LexError>(e),
    }
}

// =============
//  EXEC LEXER
// =============

pub struct Lexer<'a> {
    pub src: &'a str,
    pub current_pos: u32,
}

impl<'a> Lexer<'a> {
    /// A lexer is ready when it stands at the start of a source line short
    /// enough for its `u32` positions.
    pub open spec fn wf(self) -> bool {
        self.current_pos == 0 && self.src@.len() <= u32::MAX
    }

    pub fn new(src: &'a str) -> (l: Lexer<'a>)
        ensures
            l.src@ == src@,
            l.current_pos == 0,
    {
        Lexer { src, current_pos: 0 }
    }

    pub fn lex(self) -> (r: Result<Vec<Token>, LexError>)
        requires
            self.wf(),
        ensures
            lex_matches(self.src@, r),
    {
        let src = self.src;
        let ghost s = src@;
        let n: usize = src.unicode_len();
        let mut tokens: Vec<Token> = Vec::new();
        let mut pos: u32 = self.current_pos;
        proof {
            assert(views_of(tokens@) =~= Seq::<SpecToken>::empty());
            match spec_lex_from(s, 0) {
                Ok(rest) => {
                    assert(Seq::<SpecToken>::empty() + rest =~= rest);
                },
                Err(_) => {},
            }
        }
        while (pos as usize) < n
            invariant
                s == src@,
                s == self.src@,
                s.len() == n,
                n <= u32::MAX,
                pos <= n,
                lex_inv(s, views_of(tokens@), pos as nat),
            decreases n - pos,
        {
            let ghost done = views_of(tokens@);
            let token_pos = pos;
            let c = src.get_char(pos as usize);
            if c.is_whitespace() {
                pos = pos + 1;
            } else if c == '+' {
                let text = String::from_str(src.substring_char(pos as usize, pos as usize + 1));
                let token = Token::new(TokenType::Plus, text, token_pos);
                proof {
                    assert(text@ =~= seq![c]);
                    lemma_inv_step(s, done, pos as nat, (pos + 1) as nat, token@);
                    lemma_views_push(tokens@, token);
                }
                tokens.push(token);
                pos = pos + 1;
            } else if c == '*' {
                let text = String::from_str(src.substring_char(pos as usize, pos as usize + 1));
                let token = Token::new(TokenType::Times, text, token_pos);
                proof {
                    assert(text@ =~= seq![c]);
                    lemma_inv_step(s, done, pos as nat, (pos + 1) as nat, token@);
                    lemma_views_push(tokens@, token);
                }
                tokens.push(token);
                pos = pos + 1;
            } else if c == '-' {
                let text = String::from_str(src.substring_char(pos as usize, pos as usize + 1));
                let token = Token::new(TokenType::Minus, text, token_pos);
                proof {
                    assert(text@ =~= seq![c]);
                    lemma_inv_step(s, done, pos as nat, (pos + 1) as nat, token@);
                    lemma_views_push(tokens@, token);
                }
                tokens.push(token);
                pos = pos + 1;
            } else if is_digit(c) {
                let start = pos;
                pos = pos + 1;
                while (pos as usize) < n && is_digit(src.get_char(pos as usize))
                    invariant
                        s == src@,
                        s.len() == n,
                        n <= u32::MAX,
                        start < pos <= n,
                        forall|j: int| start <= j < pos ==> is_digit_char(s[j]),
                    decreases n - pos,
                {
                    pos = pos + 1;
                }
                let text = String::from_str(src.substring_char(start as usize, pos as usize));
                let token = Token::new(TokenType::Num, text, token_pos);
                proof {
                    lemma_digit_run_end_is(s, start as nat, pos as nat);
                    lemma_inv_step(s, done, start as nat, pos as nat, token@);
                    lemma_views_push(tokens@, token);
                }
                tokens.push(token);
            } else if c.is_alphabetic() {
                let start = pos;
                pos = pos + 1;
                while (pos as usize) < n && src.get_char(pos as usize).is_alphabetic()
                    invariant
                        s == src@,
                        s.len() == n,
                        n <= u32::MAX,
                        start < pos <= n,
                        forall|j: int| start <= j < pos ==> is_alphabetic_char(s[j]),
                    decreases n - pos,
                {
                    pos = pos + 1;
                }
                let text = String::from_str(src.substring_char(start as usize, pos as usize));
                let token_type = if text == String::from_str("false") {
                    TokenType::False
                } else if text == String::from_str("true") {
                    TokenType::True
                } else {
                    TokenType::Identifier
                };
                let token = Token::new(token_type, text, token_pos);
                proof {
                    lemma_alpha_run_end_is(s, start as nat, pos as nat);
                    lemma_inv_step(s, done, start as nat, pos as nat, token@);
                    lemma_views_push(tokens@, token);
                }
                tokens.push(token);
            } else {
                proof {
                    assert(spec_lex_from(s, pos as nat) == Err::<Seq<SpecToken>, LexError>(
                        LexError { character: c, position: pos },
                    ));
                }
                return Err(LexError { character: c, position: pos });
            }
        }
        let eof_text = String::from_str("<EOF>");
        let token = Token::new(TokenType::EOF, eof_text, pos);
        proof {
            let done = views_of(tokens@);
            assert(spec_lex_from(s, pos as nat) == Ok::<Seq<SpecToken>, LexError>(
                seq![token@],
            ));
            match spec_lex_from(s, pos as nat) {
                Ok(rest) => {
                    assert(done + rest =~= done.push(token@));
                },
                Err(_) => {},
            }
            lemma_views_push(tokens@, token);
        }
        tokens.push(token);
        Ok(tokens)
    }
}

/// Loop invariant of `lex`: the tokens emitted so far, followed by whatever
/// the ghost tokenization yields from the cursor on, is the tokenization of
/// the whole line.
pub open spec fn lex_inv(s: Seq<char>, done: Seq<SpecToken>, i: nat) -> bool {
    match spec_lex_from(s, i) {
        Ok(rest) => spec_lex(s) == Ok::<Seq<SpecToken>, LexError>(done + rest),
        Err(e) => spec_lex(s) == Err::<Seq<SpecToken>, LexError>(e),
    }
}

proof fn lemma_inv_step(s: Seq<char>, done: Seq<SpecToken>, i: nat, j: nat, t: SpecToken)
    requires
        i <= s.len(),
        j <= s.len(),
        lex_inv(s, done, i),
        spec_lex_from(s, i) == lex_cons(t, spec_lex_from(s, j)),
    ensures
        lex_inv(s, done.push(t), j),
{
    match spec_lex_from(s, j) {
        Ok(rest) => {
            assert(spec_lex_from(s, i) == Ok::<Seq<SpecToken>, LexError>(seq![t] + rest));
            assert(done + (seq![t] + rest) =~= done.push(t) + rest);
        },
        Err(_) => {},
    }
}

// ======
//  LAWS
// ======

/// A character a lexed arithmetic line may consist of: a digit, one of the
/// three operators, or whitespace.
pub open spec fn is_arith_char(c: char) -> bool {
    is_digit_char(c) || c == '+' || c == '-' || c == '*' || is_whitespace_char(c)
}

proof fn lemma_lex_cons_keeps_eof(t: SpecToken, rest: Result<Seq<SpecToken>, LexError>)
    requires
        (match rest {
            Ok(ts) => ts.len() >= 1 && ts.last().tok_type == TokenType::EOF,
            Err(_) => false,
        }),
    ensures
        (match lex_cons(t, rest) {
            Ok(ts) => ts.len() >= 1 && ts.last().tok_type == TokenType::EOF,
            Err(_) => false,
        }),
{
    match rest {
        Ok(ts) => {
            assert((seq![t] + ts).last() == ts.last());
        },
        Err(_) => {},
    }
}

proof fn lemma_lex_arith_total_from(s: Seq<char>, i: nat)
    requires
        i <= s.len(),
        forall|j: int| 0 <= j < s.len() ==> is_arith_char(s[j]),
    ensures
        (match spec_lex_from(s, i) {
            Ok(ts) => ts.len() >= 1 && ts.last().tok_type == TokenType::EOF,
            Err(_) => false,
        }),
    decreases s.len() - i,
{
    if i < s.len() {
        let c = s[i as int];
        assert(is_arith_char(c));
        if is_whitespace_char(c) {
            lemma_lex_arith_total_from(s, (i + 1) as nat);
        } else if c == '+' {
            lemma_lex_arith_total_from(s, (i + 1) as nat);
            lemma_lex_cons_keeps_eof(
                spec_token(TokenType::Plus, seq![c], i),
                spec_lex_from(s, (i + 1) as nat),
            );
        } else if c == '*' {
            lemma_lex_arith_total_from(s, (i + 1) as nat);
            lemma_lex_cons_keeps_eof(
                spec_token(TokenType::Times, seq![c], i),
                spec_lex_from(s, (i + 1) as nat),
            );
        } else if c == '-' {
            lemma_lex_arith_total_from(s, (i + 1) as nat);
            lemma_lex_cons_keeps_eof(
                spec_token(TokenType::Minus, seq![c], i),
                spec_lex_from(s, (i + 1) as nat),
            );
        } else {
            assert(is_digit_char(c));
            lemma_digit_run_end(s, i);
            let j = digit_run_end(s, i);
            lemma_lex_arith_total_from(s, j);
            lemma_lex_cons_keeps_eof(
                spec_token(TokenType::Num, s.subrange(i as int, j as int), i),
                spec_lex_from(s, j),
            );
        }
    }
}

/// Lexing never fails on arithmetic input: on a line made of digits,
/// whitespace, `+`, `-` and `*` alone, tokenization succeeds and the token
/// sequence ends with the EndOfInput sentinel.
pub proof fn lemma_lex_total_on_arith(s: Seq<char>)
    requires
        forall|j: int| 0 <= j < s.len() ==> is_arith_char(s[j]),
    ensures
        (match spec_lex(s) {
            Ok(ts) => ts.len() >= 1 && ts.last().tok_type == TokenType::EOF,
            Err(_) => false,
        }),
{
    lemma_lex_arith_total_from(s, 0);
}

pub proof fn lemma_views_push(ts: Seq<Token>, t: Token)
    ensures
        views_of(ts.push(t)) =~= views_of(ts).push(t@),
{
    assert forall|k: int| 0 <= k < ts.len() + 1 implies views_of(ts.push(t))[k] == views_of(
        ts,
    ).push(t@)[k] by {
        if k < ts.len() {
            assert(ts.push(t)[k] == ts[k]);
        } else {
            assert(ts.push(t)[k] == t);
        }
    }
}

} // verus!
