use vstd::prelude::*;

use crate::Expr;
use crate::SpecExpr;
use crate::SpecTerm;
use crate::Term;
use crate::TokenType;

verus! {

// ==================
//  GHOST EVALUATION
// ==================

/// The value of a term after folding its first `k` further factors into the
/// leading one, left to right.
pub open spec fn term_prefix_val(t: SpecTerm, k: int) -> int
    decreases k,
{
    if k <= 0 {
        t.num as int
    } else {
        term_prefix_val(t, k - 1) * t.term_opts[k - 1]
    }
}

/// The value of a term: all its factors multiplied left to right.
pub open spec fn term_val(t: SpecTerm) -> int {
    term_prefix_val(t, t.term_opts.len() as int)
}

/// Every intermediate product of the term's left-to-right fold fits an `i32`.
pub open spec fn term_in_range(t: SpecTerm) -> bool {
    forall|k: int| 0 <= k <= t.term_opts.len() ==> i32::MIN <= #[trigger] term_prefix_val(t, k) <= i32::MAX
}

/// The value of an expression after folding its first `k` continuations,
/// left to right; a Plus continuation adds its term's value, any other
/// subtracts it.
pub open spec fn expr_prefix_val(e: SpecExpr, k: int) -> int
    decreases k,
{
    if k <= 0 {
        term_val(e.term)
    } else if e.expr_opt[k - 1].op == TokenType::Plus {
        expr_prefix_val(e, k - 1) + term_val(e.expr_opt[k - 1].term)
    } else {
        expr_prefix_val(e, k - 1) - term_val(e.expr_opt[k - 1].term)
    }
}

/// The value of a whole expression tree.
pub open spec fn expr_val(e: SpecExpr) -> int {
    expr_prefix_val(e, e.expr_opt.len() as int)
}

/// Every intermediate value of the whole left-to-right evaluation fits an
/// `i32`: each term's fold and each running sum.
pub open spec fn expr_in_range(e: SpecExpr) -> bool {
    &&& term_in_range(e.term)
    &&& forall|k: int| 0 <= k < e.expr_opt.len() ==> term_in_range(e.expr_opt[k].term)
    &&& forall|k: int|
        0 <= k <= e.expr_opt.len() ==> i32::MIN <= #[trigger] expr_prefix_val(e, k) <= i32::MAX
}

// =================
//  EXEC EVALUATOR
// =================

pub struct Interpreter {
    pub ast: Expr,
}

impl Interpreter {
    pub fn new(ast: Expr) -> (it: Interpreter)
        ensures
            it.ast == ast,
    {
        Interpreter { ast }
    }

    /// Folds the tree into one integer, strictly left to right; the caller
    /// rules out intermediate overflow, as `eval_checked` can establish.
    pub fn eval(self) -> (r: i32)
        requires
            expr_in_range(self.ast@),
        ensures
            r as int == expr_val(self.ast@),
    {
        let mut tmp = self.eval_term(&self.ast.term);
        let n = self.ast.expr_opt.len();
        let mut k: usize = 0;
        while k < n
            invariant
                n == self.ast.expr_opt@.len(),
                k <= n,
                expr_in_range(self.ast@),
                tmp as int == expr_prefix_val(self.ast@, k as int),
            decreases n - k,
        {
            let opt = &self.ast.expr_opt[k];
            proof {
                assert(self.ast@.expr_opt[k as int] == opt@);
                assert(i32::MIN <= expr_prefix_val(self.ast@, k + 1) <= i32::MAX);
                assert(term_in_range(self.ast@.expr_opt[k as int].term));
            }
            let tv = self.eval_term(&opt.term);
            if opt.op == TokenType::Plus {
                tmp = tmp + tv;
            } else {
                tmp = tmp - tv;
            }
            k = k + 1;
        }
        tmp
    }

    fn eval_term(&self, term: &Term) -> (r: i32)
        requires
            term_in_range(term@),
        ensures
            r as int == term_val(term@),
    {
        let mut tmp = term.num;
        let n = term.term_opts.len();
        let mut k: usize = 0;
        while k < n
            invariant
                n == term.term_opts@.len(),
                k <= n,
                term_in_range(term@),
                tmp as int == term_prefix_val(term@, k as int),
            decreases n - k,
        {
            let f = term.term_opts[k].num;
            proof {
                assert(term@.term_opts[k as int] == term.term_opts@[k as int].num);
                assert(i32::MIN <= term_prefix_val(term@, k + 1) <= i32::MAX);
            }
            tmp = tmp * f;
            k = k + 1;
        }
        tmp
    }

    /// Like `eval`, but total: the tree's value when every intermediate step
    /// of the left-to-right fold fits an `i32`, and `None` exactly when some
    /// step would overflow.
    pub fn eval_checked(self) -> (r: Option<i32>)
        ensures
            match r {
                Some(v) => expr_in_range(self.ast@) && v as int == expr_val(self.ast@),
                None => !expr_in_range(self.ast@),
            },
    {
        let mut tmp = match Self::eval_term_checked(&self.ast.term) {
            Some(v) => v,
            None => {
                return None;
            },
        };
        let n = self.ast.expr_opt.len();
        let mut k: usize = 0;
        while k < n
            invariant
                n == self.ast.expr_opt@.len(),
                k <= n,
                term_in_range(self.ast@.term),
                forall|j: int| 0 <= j < k ==> term_in_range(self.ast@.expr_opt[j].term),
                forall|j: int| 0 <= j <= k ==> i32::MIN <= #[trigger] expr_prefix_val(self.ast@, j) <= i32::MAX,
                tmp as int == expr_prefix_val(self.ast@, k as int),
            decreases n - k,
        {
            let opt = &self.ast.expr_opt[k];
            proof {
                assert(self.ast@.expr_opt[k as int] == opt@);
            }
            let tv = match Self::eval_term_checked(&opt.term) {
                Some(v) => v,
                None => {
                    proof {
                        if expr_in_range(self.ast@) {
                            assert(term_in_range(self.ast@.expr_opt[k as int].term));
                        }
                    }
                    return None;
                },
            };
            let wide: i64 = if opt.op == TokenType::Plus {
                tmp as i64 + tv as i64
            } else {
                tmp as i64 - tv as i64
            };
            proof {
                assert(wide as int == expr_prefix_val(self.ast@, k + 1));
            }
            if wide > i32::MAX as i64 || wide < i32::MIN as i64 {
                proof {
                    if expr_in_range(self.ast@) {
                        assert(i32::MIN <= expr_prefix_val(self.ast@, k + 1) <= i32::MAX);
                    }
                }
                return None;
            }
            tmp = wide as i32;
            k = k + 1;
        }
        Some(tmp)
    }

    fn eval_term_checked(term: &Term) -> (r: Option<i32>)
        ensures
            match r {
                Some(v) => term_in_range(term@) && v as int == term_val(term@),
                None => !term_in_range(term@),
            },
    {
        let mut tmp = term.num;
        let n = term.term_opts.len();
        let mut k: usize = 0;
        while k < n
            invariant
                n == term.term_opts@.len(),
                k <= n,
                forall|j: int| 0 <= j <= k ==> i32::MIN <= #[trigger] term_prefix_val(term@, j) <= i32::MAX,
                tmp as int == term_prefix_val(term@, k as int),
            decreases n - k,
        {
            let f = term.term_opts[k].num;
            proof {
                assert(term@.term_opts[k as int] == term.term_opts@[k as int].num);
                let a = tmp as int;
                let b = f as int;
                assert(-0x8000_0000_0000_0000 <= a * b < 0x8000_0000_0000_0000)
                    by (nonlinear_arith)
                    requires
                        -0x8000_0000 <= a <= 0x7fff_ffff,
                        -0x8000_0000 <= b <= 0x7fff_ffff,
                ;
            }
            let wide: i64 = tmp as i64 * f as i64;
            proof {
                assert(wide as int == term_prefix_val(term@, k + 1));
            }
            if wide > i32::MAX as i64 || wide < i32::MIN as i64 {
                proof {
                    if term_in_range(term@) {
                        assert(i32::MIN <= term_prefix_val(term@, k + 1) <= i32::MAX);
                    }
                }
                return None;
            }
            tmp = wide as i32;
            k = k + 1;
        }
        Some(tmp)
    }
}

// ======
//  LAWS
// ======

/// Evaluating the same parsed tree twice yields the same result: `eval`'s
/// contract fixes every result as `expr_val` of the tree alone, so two
/// evaluations of interpreters holding equal trees cannot disagree.
pub proof fn lemma_eval_idempotent(i1: Interpreter, i2: Interpreter, r1: i32, r2: i32)
    requires
        i1.ast@ == i2.ast@,
        r1 as int == expr_val(i1.ast@),
        r2 as int == expr_val(i2.ast@),
    ensures
        r1 == r2,
{
}

} // verus!
