use vstd::prelude::*;

use crate::SpecExpr;
use crate::SpecExprOpt;
use crate::SpecTerm;
use crate::SpecToken;
use crate::TokenType;
use crate::interpreter::expr_prefix_val;
use crate::interpreter::expr_val;
use crate::interpreter::term_prefix_val;
use crate::interpreter::term_val;
use crate::lexer::digit_run_end;
use crate::lexer::is_digit_char;
use crate::lexer::is_whitespace_char;
use crate::lexer::lemma_digit_run_end;
use crate::lexer::spec_lex;
use crate::lexer::spec_lex_from;
use crate::parser::all_digits;
use crate::parser::digits_val;
use crate::parser::lemma_digits_val_nonneg;
use crate::parser::spec_parse;
use crate::parser::spec_str_to_i32;
use crate::parser::spec_term;
use crate::parser::spec_term_opts;
use crate::parser::spec_expr_opt;
use crate::parser::stream_wf;

verus! {

// =====================================================
//  EVALUATION AS LEFT FOLDS OVER THE TREE'S SEQUENCES
// =====================================================

/// Multiplying a running product by each factor, left to right.
pub open spec fn mul_fold(acc: int, fs: Seq<i32>) -> int
    decreases fs.len(),
{
    if fs.len() == 0 {
        acc
    } else {
        mul_fold(acc * fs[0], fs.skip(1))
    }
}

/// Adding or subtracting each continuation's term value, left to right.
pub open spec fn sum_fold(acc: int, opts: Seq<SpecExprOpt>) -> int
    decreases opts.len(),
{
    if opts.len() == 0 {
        acc
    } else if opts[0].op == TokenType::Plus {
        sum_fold(acc + term_val(opts[0].term), opts.skip(1))
    } else {
        sum_fold(acc - term_val(opts[0].term), opts.skip(1))
    }
}

proof fn lemma_mul_fold_push(acc: int, fs: Seq<i32>, f: i32)
    ensures
        mul_fold(acc, fs.push(f)) == mul_fold(acc, fs) * f,
    decreases fs.len(),
{
    if fs.len() == 0 {
        assert(fs.push(f)[0] == f);
        assert(fs.push(f).skip(1) =~= Seq::<i32>::empty());
        assert(fs.push(f).len() == 1);
        assert(mul_fold(acc, fs.push(f)) == mul_fold(acc * f, Seq::<i32>::empty()));
        assert(mul_fold(acc * f, Seq::<i32>::empty()) == acc * f);
        assert(mul_fold(acc, fs) == acc);
    } else {
        assert(fs.push(f)[0] == fs[0]);
        assert(fs.push(f).skip(1) =~= fs.skip(1).push(f));
        assert(mul_fold(acc, fs.push(f)) == mul_fold(acc * fs[0], fs.skip(1).push(f)));
        lemma_mul_fold_push(acc * fs[0], fs.skip(1), f);
        assert(mul_fold(acc, fs) == mul_fold(acc * fs[0], fs.skip(1)));
    }
}

proof fn lemma_sum_fold_push(acc: int, opts: Seq<SpecExprOpt>, o: SpecExprOpt)
    ensures
        sum_fold(acc, opts.push(o)) == (if o.op == TokenType::Plus {
            sum_fold(acc, opts) + term_val(o.term)
        } else {
            sum_fold(acc, opts) - term_val(o.term)
        }),
    decreases opts.len(),
{
    if opts.len() == 0 {
        assert(opts.push(o)[0] == o);
        assert(opts.push(o).skip(1) =~= Seq::<SpecExprOpt>::empty());
        assert(opts.push(o).len() == 1);
        assert(sum_fold(acc, opts) == acc);
        if o.op == TokenType::Plus {
            assert(sum_fold(acc, opts.push(o)) == sum_fold(
                acc + term_val(o.term),
                Seq::<SpecExprOpt>::empty(),
            ));
        } else {
            assert(sum_fold(acc, opts.push(o)) == sum_fold(
                acc - term_val(o.term),
                Seq::<SpecExprOpt>::empty(),
            ));
        }
    } else {
        assert(opts.push(o)[0] == opts[0]);
        assert(opts.push(o).skip(1) =~= opts.skip(1).push(o));
        if opts[0].op == TokenType::Plus {
            assert(sum_fold(acc, opts.push(o)) == sum_fold(
                acc + term_val(opts[0].term),
                opts.skip(1).push(o),
            ));
            assert(sum_fold(acc, opts) == sum_fold(acc + term_val(opts[0].term), opts.skip(1)));
            lemma_sum_fold_push(acc + term_val(opts[0].term), opts.skip(1), o);
        } else {
            assert(sum_fold(acc, opts.push(o)) == sum_fold(
                acc - term_val(opts[0].term),
                opts.skip(1).push(o),
            ));
            assert(sum_fold(acc, opts) == sum_fold(acc - term_val(opts[0].term), opts.skip(1)));
            lemma_sum_fold_push(acc - term_val(opts[0].term), opts.skip(1), o);
        }
    }
}

/// A term's value is the left fold of its factors over its leading number.
pub proof fn lemma_term_val_is_fold(t: SpecTerm, k: int)
    requires
        0 <= k <= t.term_opts.len(),
    ensures
        term_prefix_val(t, k) == mul_fold(t.num as int, t.term_opts.take(k)),
    decreases k,
{
    if k == 0 {
        assert(t.term_opts.take(0) =~= Seq::<i32>::empty());
    } else {
        lemma_term_val_is_fold(t, k - 1);
        assert(t.term_opts.take(k) =~= t.term_opts.take(k - 1).push(t.term_opts[k - 1]));
        lemma_mul_fold_push(t.num as int, t.term_opts.take(k - 1), t.term_opts[k - 1]);
    }
}

/// An expression's value is the left fold of its continuations over its
/// leading term's value.
pub proof fn lemma_expr_val_is_fold(e: SpecExpr, k: int)
    requires
        0 <= k <= e.expr_opt.len(),
    ensures
        expr_prefix_val(e, k) == sum_fold(term_val(e.term), e.expr_opt.take(k)),
    decreases k,
{
    if k == 0 {
        assert(e.expr_opt.take(0) =~= Seq::<SpecExprOpt>::empty());
    } else {
        lemma_expr_val_is_fold(e, k - 1);
        assert(e.expr_opt.take(k) =~= e.expr_opt.take(k - 1).push(e.expr_opt[k - 1]));
        lemma_sum_fold_push(term_val(e.term), e.expr_opt.take(k - 1), e.expr_opt[k - 1]);
    }
}

// =====================================================
//  THE DIRECT LEFT-TO-RIGHT SEMANTICS OF AN OPERATOR CHAIN
// =====================================================

/// One step of the standard calculator walk over `n0 op1 n1 op2 n2 ...`:
/// `sum` is the value of the finished groups, `sign * prod` the group being
/// built; `*` grows the group, `+` and `-` close it and open the next.
pub open spec fn chain_sem_loop(sum: int, sign: int, prod: int, rest: Seq<(TokenType, i32)>) -> int
    decreases rest.len(),
{
    if rest.len() == 0 {
        sum + sign * prod
    } else if rest[0].0 == TokenType::Times {
        chain_sem_loop(sum, sign, prod * rest[0].1, rest.skip(1))
    } else if rest[0].0 == TokenType::Plus {
        chain_sem_loop(sum + sign * prod, 1, rest[0].1 as int, rest.skip(1))
    } else {
        chain_sem_loop(sum + sign * prod, -1, rest[0].1 as int, rest.skip(1))
    }
}

/// The standard left-to-right, multiplication-groups-first value of the
/// chain `n0 (op_k n_k)*`.
pub open spec fn chain_sem(n0: i32, rest: Seq<(TokenType, i32)>) -> int {
    chain_sem_loop(0, 1, n0 as int, rest)
}

/// The value still owed from a group boundary `c` on, once the finished part
/// has collapsed into `acc`.
pub open spec fn rest_sem(acc: int, rest: Seq<(TokenType, i32)>, c: int) -> int {
    chain_sem_loop(acc, 1, 0, rest.skip(c))
}

/// How many `*` continuations follow chain position `c` without a break.
pub open spec fn times_run(rest: Seq<(TokenType, i32)>, c: int) -> int
    decreases rest.len() - c,
{
    if 0 <= c < rest.len() && rest[c].0 == TokenType::Times {
        1 + times_run(rest, c + 1)
    } else {
        0
    }
}

/// The factors of the `*` run at chain position `c`.
pub open spec fn times_factors(rest: Seq<(TokenType, i32)>, c: int) -> Seq<i32>
    decreases rest.len() - c,
{
    if 0 <= c < rest.len() && rest[c].0 == TokenType::Times {
        seq![rest[c].1] + times_factors(rest, c + 1)
    } else {
        Seq::empty()
    }
}

proof fn lemma_times_run_bounds(rest: Seq<(TokenType, i32)>, c: int)
    requires
        0 <= c <= rest.len(),
    ensures
        0 <= times_run(rest, c),
        c + times_run(rest, c) <= rest.len(),
        c + times_run(rest, c) == rest.len() || rest[c + times_run(rest, c)].0 != TokenType::Times,
    decreases rest.len() - c,
{
    if c < rest.len() && rest[c].0 == TokenType::Times {
        lemma_times_run_bounds(rest, c + 1);
    }
}

/// Folding a whole `*` run into the running product.
proof fn lemma_chain_sem_times_run(
    sum: int,
    sign: int,
    prod: int,
    rest: Seq<(TokenType, i32)>,
    c: int,
)
    requires
        0 <= c <= rest.len(),
    ensures
        chain_sem_loop(sum, sign, prod, rest.skip(c)) == chain_sem_loop(
            sum,
            sign,
            mul_fold(prod, times_factors(rest, c)),
            rest.skip(c + times_run(rest, c)),
        ),
    decreases rest.len() - c,
{
    if c < rest.len() && rest[c].0 == TokenType::Times {
        assert(rest.skip(c)[0] == rest[c]);
        assert(rest.skip(c).skip(1) =~= rest.skip(c + 1));
        assert(times_factors(rest, c).skip(1) =~= times_factors(rest, c + 1));
        assert(times_factors(rest, c)[0] == rest[c].1);
        lemma_chain_sem_times_run(sum, sign, prod * rest[c].1, rest, c + 1);
    } else {
        assert(times_factors(rest, c) =~= Seq::<i32>::empty());
    }
}

/// At a group boundary the running group collapses into the sum.
proof fn lemma_chain_sem_boundary(
    sum: int,
    sign: int,
    prod: int,
    rest: Seq<(TokenType, i32)>,
    c: int,
)
    requires
        0 <= c <= rest.len(),
        c == rest.len() || rest[c].0 == TokenType::Plus || rest[c].0 == TokenType::Minus,
    ensures
        chain_sem_loop(sum, sign, prod, rest.skip(c)) == rest_sem(sum + sign * prod, rest, c),
{
    if c == rest.len() {
        assert(rest.skip(c) =~= Seq::<(TokenType, i32)>::empty());
    } else {
        assert(rest.skip(c)[0] == rest[c]);
    }
}

// ===================================================
//  THE TOKEN ENCODING OF A CHAIN, AND THE ROUND TRIP
// ===================================================

/// A Number token carrying exactly the value `n`.
pub open spec fn is_num_token(t: SpecToken, n: i32) -> bool {
    t.tok_type == TokenType::Num && spec_str_to_i32(t.text) == Some(n)
}

/// The token stream that renders the chain `n0 (op_k n_k)*`: its numbers at
/// the even offsets, its operators (each `+`, `-` or `*`) between them, and
/// the EndOfInput sentinel at the end. Positions and exact digit texts are
/// free: any whitespace layout of the rendering lexes to such a stream.
pub open spec fn chain_tokens(
    toks: Seq<SpecToken>,
    n0: i32,
    rest: Seq<(TokenType, i32)>,
) -> bool {
    &&& toks.len() == 2 * rest.len() + 2
    &&& is_num_token(toks[0], n0)
    &&& forall|k: int|
        0 <= k < rest.len() ==> (#[trigger] toks[2 * k + 1].tok_type) == rest[k].0
    &&& forall|k: int| 0 <= k < rest.len() ==> is_num_token(#[trigger] toks[2 * k + 2], rest[k].1)
    &&& forall|k: int|
        0 <= k < rest.len() ==> (rest[k].0 == TokenType::Plus || rest[k].0 == TokenType::Minus
            || (#[trigger] rest[k].0) == TokenType::Times)
    &&& toks[toks.len() - 1].tok_type == TokenType::EOF
}

/// The factors the parser reads for the `*` run at chain position `c` are
/// exactly that run's factors.
proof fn lemma_chain_term_opts(
    toks: Seq<SpecToken>,
    n0: i32,
    rest: Seq<(TokenType, i32)>,
    c: int,
)
    requires
        chain_tokens(toks, n0, rest),
        0 <= c <= rest.len(),
    ensures
        spec_term_opts(toks, (2 * c + 1) as nat) == Ok::<(Seq<i32>, nat), crate::SpecParseError>(
            (times_factors(rest, c), (2 * (c + times_run(rest, c)) + 1) as nat),
        ),
    decreases rest.len() - c,
{
    assert(stream_wf(toks));
    lemma_times_run_bounds(rest, c);
    if c < rest.len() && rest[c].0 == TokenType::Times {
        assert(toks[2 * c + 1].tok_type == rest[c].0);
        assert(is_num_token(toks[2 * c + 2], rest[c].1));
        lemma_chain_term_opts(toks, n0, rest, c + 1);
        assert(seq![rest[c].1] + times_factors(rest, c + 1) == times_factors(rest, c));
    } else {
        if c < rest.len() {
            assert(toks[2 * c + 1].tok_type == rest[c].0);
            assert(rest[c].0 != TokenType::Times);
        } else {
            assert(toks[2 * c + 1].tok_type == TokenType::EOF);
        }
        assert(times_factors(rest, c) =~= Seq::<i32>::empty());
    }
}

/// The term the parser reads at chain position `c` is that group: the
/// number at `c` with the factors of the `*` run behind it.
proof fn lemma_chain_term(toks: Seq<SpecToken>, n0: i32, rest: Seq<(TokenType, i32)>, c: int)
    requires
        chain_tokens(toks, n0, rest),
        0 <= c <= rest.len(),
    ensures
        spec_term(toks, (2 * c) as nat) == Ok::<(SpecTerm, nat), crate::SpecParseError>(
            (
                SpecTerm {
                    num: (if c == 0 {
                        n0
                    } else {
                        rest[c - 1].1
                    }),
                    term_opts: times_factors(rest, c),
                },
                (2 * (c + times_run(rest, c)) + 1) as nat,
            ),
        ),
{
    assert(stream_wf(toks));
    if c == 0 {
        assert(is_num_token(toks[0], n0));
    } else {
        assert(is_num_token(toks[2 * (c - 1) + 2], rest[c - 1].1));
        assert(2 * (c - 1) + 2 == 2 * c);
    }
    lemma_chain_term_opts(toks, n0, rest, c);
}

/// From a group boundary on, the parser's continuations fold to exactly
/// what the calculator walk still owes.
proof fn lemma_chain_groups(
    toks: Seq<SpecToken>,
    n0: i32,
    rest: Seq<(TokenType, i32)>,
    c: int,
    acc: int,
)
    requires
        chain_tokens(toks, n0, rest),
        0 <= c <= rest.len(),
        c == rest.len() || rest[c].0 != TokenType::Times,
    ensures
        (match spec_expr_opt(toks, (2 * c + 1) as nat) {
            Ok(r) => r.1 == 2 * rest.len() + 1 && sum_fold(acc, r.0) == rest_sem(acc, rest, c),
            Err(_) => false,
        }),
    decreases rest.len() - c,
{
    assert(stream_wf(toks));
    if c == rest.len() {
        assert(toks[2 * c + 1].tok_type == TokenType::EOF);
        assert(rest.skip(c) =~= Seq::<(TokenType, i32)>::empty());
    } else {
        let op = rest[c].0;
        assert(toks[2 * c + 1].tok_type == op);
        assert(op == TokenType::Plus || op == TokenType::Minus);
        lemma_chain_term(toks, n0, rest, c + 1);
        lemma_times_run_bounds(rest, c + 1);
        let r1 = times_run(rest, c + 1);
        let c2 = c + 1 + r1;
        let t = SpecTerm { num: rest[c].1, term_opts: times_factors(rest, c + 1) };
        let tv = term_val(t);
        lemma_term_val_is_fold(t, t.term_opts.len() as int);
        assert(t.term_opts.take(t.term_opts.len() as int) =~= t.term_opts);
        let acc2 = if op == TokenType::Plus {
            acc + tv
        } else {
            acc - tv
        };
        lemma_chain_groups(toks, n0, rest, c2, acc2);
        match spec_expr_opt(toks, (2 * c2 + 1) as nat) {
            Ok(r2) => {
                let o = SpecExprOpt { op, term: t };
                assert(spec_expr_opt(toks, (2 * c + 1) as nat) == Ok::<
                    (Seq<SpecExprOpt>, nat),
                    crate::SpecParseError,
                >((seq![o] + r2.0, r2.1)));
                // the fold over the parsed continuations
                assert((seq![o] + r2.0)[0] == o);
                assert((seq![o] + r2.0).skip(1) =~= r2.0);
                assert(sum_fold(acc, seq![o] + r2.0) == sum_fold(acc2, r2.0));
                // the calculator walk over the same stretch of the chain
                assert(rest.skip(c)[0] == rest[c]);
                assert(rest.skip(c).skip(1) =~= rest.skip(c + 1));
                assert(chain_sem_loop(acc, 1, 0, rest.skip(c)) == chain_sem_loop(
                    acc,
                    (if op == TokenType::Plus {
                        1int
                    } else {
                        -1int
                    }),
                    rest[c].1 as int,
                    rest.skip(c + 1),
                ));
                if op == TokenType::Plus {
                    lemma_chain_sem_times_run(acc, 1, rest[c].1 as int, rest, c + 1);
                    lemma_chain_sem_boundary(acc, 1, tv, rest, c2);
                } else {
                    lemma_chain_sem_times_run(acc, -1, rest[c].1 as int, rest, c + 1);
                    lemma_chain_sem_boundary(acc, -1, tv, rest, c2);
                }
            },
            Err(_) => {},
        }
    }
}

/// Round trip: a chain of numbers joined by `+`, `-` and `*`, rendered as a
/// token stream, parses, and evaluating the tree yields the value of the
/// standard left-to-right, multiplication-groups-first calculation.
pub proof fn lemma_parse_eval_round_trip(
    toks: Seq<SpecToken>,
    n0: i32,
    rest: Seq<(TokenType, i32)>,
)
    requires
        chain_tokens(toks, n0, rest),
    ensures
        (match spec_parse(toks) {
            Ok(e) => expr_val(e) == chain_sem(n0, rest),
            Err(_) => false,
        }),
{
    assert(stream_wf(toks));
    lemma_chain_term(toks, n0, rest, 0);
    lemma_times_run_bounds(rest, 0);
    let r0 = times_run(rest, 0);
    let t0 = SpecTerm { num: n0, term_opts: times_factors(rest, 0) };
    let tv0 = term_val(t0);
    lemma_term_val_is_fold(t0, t0.term_opts.len() as int);
    assert(t0.term_opts.take(t0.term_opts.len() as int) =~= t0.term_opts);
    lemma_chain_groups(toks, n0, rest, r0, tv0);
    match spec_expr_opt(toks, (2 * r0 + 1) as nat) {
        Ok(r2) => {
            let e = SpecExpr { term: t0, expr_opt: r2.0 };
            assert(toks[2 * rest.len() + 1 as int].tok_type == TokenType::EOF);
            assert(spec_parse(toks) == Ok::<SpecExpr, crate::SpecParseError>(e));
            lemma_expr_val_is_fold(e, e.expr_opt.len() as int);
            assert(e.expr_opt.take(e.expr_opt.len() as int) =~= e.expr_opt);
            // the calculator walk: fold the leading group, then the rest
            assert(rest.skip(0) =~= rest);
            lemma_chain_sem_times_run(0, 1, n0 as int, rest, 0);
            lemma_chain_sem_boundary(0, 1, tv0, rest, r0);
        },
        Err(_) => {},
    }
}


// =====================================================
//  RENDERING A CHAIN AS TEXT, WITH ARBITRARY WHITESPACE
// =====================================================

/// The number standing at chain position `c`: the head for `c == 0`, else
/// the number of the continuation before `c`.
pub open spec fn num_at(n0: i32, rest: Seq<(TokenType, i32)>, c: int) -> i32 {
    if c == 0 {
        n0
    } else {
        rest[c - 1].1
    }
}

/// The character that writes an operator.
pub open spec fn op_char(op: TokenType) -> char {
    if op == TokenType::Plus {
        '+'
    } else if op == TokenType::Minus {
        '-'
    } else {
        '*'
    }
}

/// From offset `i` the line shows, after any whitespace, the decimal digits
/// of the number at chain position `c`, and then the rest of the chain.
pub open spec fn renders_num_from(
    s: Seq<char>,
    i: nat,
    n0: i32,
    rest: Seq<(TokenType, i32)>,
    c: int,
) -> bool
    decreases s.len() - i, 1int,
    when i <= s.len() && 0 <= c <= rest.len()
    via renders_num_from_decreases
{
    if i < s.len() && is_whitespace_char(s[i as int]) {
        renders_num_from(s, (i + 1) as nat, n0, rest, c)
    } else if i < s.len() && is_digit_char(s[i as int]) {
        let j = digit_run_end(s, i);
        digits_val(s.subrange(i as int, j as int)) == num_at(n0, rest, c) as int
            && renders_op_from(s, j, n0, rest, c)
    } else {
        false
    }
}

/// From offset `i` the line shows, after any whitespace, either its end
/// (the chain is spent) or the character of the operator at chain position
/// `c` followed by the rendering of the rest.
pub open spec fn renders_op_from(
    s: Seq<char>,
    i: nat,
    n0: i32,
    rest: Seq<(TokenType, i32)>,
    c: int,
) -> bool
    decreases s.len() - i, 0int,
    when i <= s.len() && 0 <= c <= rest.len()
{
    if i < s.len() && is_whitespace_char(s[i as int]) {
        renders_op_from(s, (i + 1) as nat, n0, rest, c)
    } else if i == s.len() {
        c == rest.len()
    } else {
        &&& c < rest.len()
        &&& (rest[c].0 == TokenType::Plus || rest[c].0 == TokenType::Minus || rest[c].0
            == TokenType::Times)
        &&& s[i as int] == op_char(rest[c].0)
        &&& renders_num_from(s, (i + 1) as nat, n0, rest, c + 1)
    }
}

#[via_fn]
proof fn renders_num_from_decreases(s: Seq<char>, i: nat, n0: i32, rest: Seq<(TokenType, i32)>, c: int) {
    if i < s.len() {
        lemma_digit_run_end(s, i);
    }
}

/// The whole line renders the whole chain.
pub open spec fn renders_chain(s: Seq<char>, n0: i32, rest: Seq<(TokenType, i32)>) -> bool {
    renders_num_from(s, 0, n0, rest, 0)
}

/// The tokens still owed from chain position `c` on, starting at an
/// operator: alternating operator and Number tokens, then the sentinel.
pub open spec fn tail_tokens_op(
    ts: Seq<SpecToken>,
    rest: Seq<(TokenType, i32)>,
    c: int,
) -> bool {
    &&& ts.len() == 2 * (rest.len() - c) + 1
    &&& forall|k: int| c <= k < rest.len() ==> (#[trigger] ts[2 * (k - c)].tok_type) == rest[k].0
    &&& forall|k: int| c <= k < rest.len() ==> is_num_token(#[trigger] ts[2 * (k - c) + 1], rest[k].1)
    &&& ts[ts.len() - 1].tok_type == TokenType::EOF
}

/// The tokens still owed from chain position `c` on, starting at a number.
pub open spec fn tail_tokens_num(
    ts: Seq<SpecToken>,
    n0: i32,
    rest: Seq<(TokenType, i32)>,
    c: int,
) -> bool {
    &&& ts.len() >= 1
    &&& is_num_token(ts[0], num_at(n0, rest, c))
    &&& tail_tokens_op(ts.skip(1), rest, c)
}

proof fn lemma_render_lex_op(s: Seq<char>, i: nat, n0: i32, rest: Seq<(TokenType, i32)>, c: int)
    requires
        i <= s.len(),
        0 <= c <= rest.len(),
        renders_op_from(s, i, n0, rest, c),
    ensures
        (match spec_lex_from(s, i) {
            Ok(ts) => tail_tokens_op(ts, rest, c),
            Err(_) => false,
        }),
        forall|k: int|
            c <= k < rest.len() ==> ((#[trigger] rest[k].0) == TokenType::Plus || rest[k].0
                == TokenType::Minus || rest[k].0 == TokenType::Times),
    decreases s.len() - i, 0int,
{
    if i < s.len() && is_whitespace_char(s[i as int]) {
        lemma_render_lex_op(s, (i + 1) as nat, n0, rest, c);
    } else if i == s.len() {
    } else {
        let op = rest[c].0;
        let t = SpecToken { tok_type: op, text: seq![s[i as int]], start_pos: i as u32 };
        lemma_render_lex_num(s, (i + 1) as nat, n0, rest, c + 1);
        match spec_lex_from(s, (i + 1) as nat) {
            Ok(ts2) => {
                assert(spec_lex_from(s, i) == Ok::<Seq<SpecToken>, crate::LexError>(
                    seq![t] + ts2,
                ));
                let full = seq![t] + ts2;
                let ts3 = ts2.skip(1);
                assert(full.len() == 2 * (rest.len() - c) + 1);
                assert forall|k: int| c <= k < rest.len() implies (#[trigger] full[2 * (k
                    - c)].tok_type) == rest[k].0 by {
                    if k == c {
                        assert(full[0] == t);
                    } else {
                        assert(full[2 * (k - c)] == ts2[2 * (k - c) - 1]);
                        assert(ts2[2 * (k - c) - 1] == ts3[2 * (k - (c + 1))]);
                        assert(ts3[2 * (k - (c + 1))].tok_type == rest[k].0);
                    }
                }
                assert forall|k: int| c <= k < rest.len() implies is_num_token(
                    #[trigger] full[2 * (k - c) + 1],
                    rest[k].1,
                ) by {
                    if k == c {
                        assert(full[1] == ts2[0]);
                        assert(num_at(n0, rest, c + 1) == rest[c].1);
                    } else {
                        assert(full[2 * (k - c) + 1] == ts2[2 * (k - c)]);
                        assert(ts2[2 * (k - c)] == ts3[2 * (k - (c + 1)) + 1]);
                        assert(is_num_token(ts3[2 * (k - (c + 1)) + 1], rest[k].1));
                    }
                }
                assert(full[full.len() - 1] == ts3[ts3.len() - 1]);
            },
            Err(_) => {},
        }
    }
}

proof fn lemma_render_lex_num(s: Seq<char>, i: nat, n0: i32, rest: Seq<(TokenType, i32)>, c: int)
    requires
        i <= s.len(),
        0 <= c <= rest.len(),
        renders_num_from(s, i, n0, rest, c),
    ensures
        (match spec_lex_from(s, i) {
            Ok(ts) => tail_tokens_num(ts, n0, rest, c),
            Err(_) => false,
        }),
        forall|k: int|
            c <= k < rest.len() ==> ((#[trigger] rest[k].0) == TokenType::Plus || rest[k].0
                == TokenType::Minus || rest[k].0 == TokenType::Times),
    decreases s.len() - i, 1int,
{
    if i < s.len() && is_whitespace_char(s[i as int]) {
        lemma_render_lex_num(s, (i + 1) as nat, n0, rest, c);
    } else {
        let ch = s[i as int];
        assert(is_digit_char(ch));
        lemma_digit_run_end(s, i);
        let j = digit_run_end(s, i);
        let text = s.subrange(i as int, j as int);
        assert(all_digits(text));
        lemma_digits_val_nonneg(text);
        let t = SpecToken { tok_type: TokenType::Num, text: text, start_pos: i as u32 };
        assert(spec_str_to_i32(text) == Some(num_at(n0, rest, c)));
        lemma_render_lex_op(s, j, n0, rest, c);
        match spec_lex_from(s, j) {
            Ok(ts2) => {
                assert(spec_lex_from(s, i) == Ok::<Seq<SpecToken>, crate::LexError>(
                    seq![t] + ts2,
                ));
                let full = seq![t] + ts2;
                assert(full[0] == t);
                assert(full.skip(1) =~= ts2);
            },
            Err(_) => {},
        }
    }
}

/// A rendering of the chain — its numbers in decimal, its operators as
/// their characters, any whitespace between them — lexes to exactly the
/// chain's token stream.
pub proof fn lemma_render_lexes(s: Seq<char>, n0: i32, rest: Seq<(TokenType, i32)>)
    requires
        renders_chain(s, n0, rest),
    ensures
        (match spec_lex(s) {
            Ok(ts) => chain_tokens(ts, n0, rest),
            Err(_) => false,
        }),
{
    lemma_render_lex_num(s, 0, n0, rest, 0);
    match spec_lex_from(s, 0) {
        Ok(ts) => {
            let ts3 = ts.skip(1);
            assert(ts.len() == 2 * rest.len() + 2);
            assert forall|k: int| 0 <= k < rest.len() implies (#[trigger] ts[2 * k
                + 1].tok_type) == rest[k].0 by {
                assert(ts[2 * k + 1] == ts3[2 * k]);
                assert(ts3[2 * (k - 0)].tok_type == rest[k].0);
            }
            assert forall|k: int| 0 <= k < rest.len() implies is_num_token(
                #[trigger] ts[2 * k + 2],
                rest[k].1,
            ) by {
                assert(ts[2 * k + 2] == ts3[2 * k + 1]);
                assert(is_num_token(ts3[2 * (k - 0) + 1], rest[k].1));
            }
            assert(ts[ts.len() - 1] == ts3[ts3.len() - 1]);
        },
        Err(_) => {},
    }
}

/// The whole round trip of the text: rendering a chain, lexing, parsing and
/// evaluating yields the standard left-to-right, multiplication-groups-first
/// value of the chain.
pub proof fn lemma_text_round_trip(s: Seq<char>, n0: i32, rest: Seq<(TokenType, i32)>)
    requires
        renders_chain(s, n0, rest),
    ensures
        (match spec_lex(s) {
            Ok(ts) => match spec_parse(ts) {
                Ok(e) => expr_val(e) == chain_sem(n0, rest),
                Err(_) => false,
            },
            Err(_) => false,
        }),
{
    lemma_render_lexes(s, n0, rest);
    match spec_lex(s) {
        Ok(ts) => {
            lemma_parse_eval_round_trip(ts, n0, rest);
        },
        Err(_) => {},
    }
}

} // verus!
