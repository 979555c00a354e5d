//! Reference-counted expressions: the same tree shape as [`crate::expr`],
//! with shared subtrees, and a structure-preserving conversion from the
//! boxed form.

use vstd::prelude::*;

use crate::expr::expr_eval;
use crate::expr::BOp;
use crate::expr::Env;
use crate::expr::Expr;

verus! {

/// A Boolean expression tree whose children may be shared.
#[derive(Debug)]
pub enum ExprRc {
    LitRc(bool),
    VarRc(usize),
    NotRc(std::rc::Rc<ExprRc>),
    BinaryRc(std::rc::Rc<ExprRc>, BOp, std::rc::Rc<ExprRc>),
}

/// The value of a shared expression under the assignment `env`.
pub open spec fn rc_eval(e: ExprRc, env: Seq<bool>) -> bool
    decreases e,
{
    match e {
        ExprRc::LitRc(b) => b,
        ExprRc::VarRc(x) => env[x as int],
        ExprRc::NotRc(e1) => !rc_eval(*e1, env),
        ExprRc::BinaryRc(e1, op, e2) => match op {
            BOp::And => rc_eval(*e1, env) && rc_eval(*e2, env),
            BOp::Or => rc_eval(*e1, env) || rc_eval(*e2, env),
        },
    }
}

/// Every variable occurring in `e` is below `n`.
pub open spec fn rc_vars_lt(e: ExprRc, n: int) -> bool
    decreases e,
{
    match e {
        ExprRc::LitRc(_) => true,
        ExprRc::VarRc(x) => (x as int) < n,
        ExprRc::NotRc(e1) => rc_vars_lt(*e1, n),
        ExprRc::BinaryRc(e1, _, e2) => rc_vars_lt(*e1, n) && rc_vars_lt(*e2, n),
    }
}

/// `r` is node-for-node the same tree as `e`.
pub open spec fn mirrors(r: ExprRc, e: Expr) -> bool
    decreases e,
{
    match (r, e) {
        (ExprRc::LitRc(b1), Expr::Lit(b2)) => b1 == b2,
        (ExprRc::VarRc(x1), Expr::Var(x2)) => x1 == x2,
        (ExprRc::NotRc(r1), Expr::Not(e1)) => mirrors(*r1, *e1),
        (ExprRc::BinaryRc(r1, op1, r2), Expr::Binary(e1, op2, e2)) => op1 == op2 && mirrors(
            *r1,
            *e1,
        ) && mirrors(*r2, *e2),
        _ => false,
    }
}

/// Wraps a shared expression in a negation.
pub fn not_rc(e: ExprRc) -> (r: ExprRc)
    ensures
        r == ExprRc::NotRc(std::rc::Rc::new(e)),
{
    ExprRc::NotRc(std::rc::Rc::new(e))
}

/// Combines two shared expressions under a binary operator.
pub fn bin_rc(e_1: ExprRc, bop: BOp, e_2: ExprRc) -> (r: ExprRc)
    ensures
        r == ExprRc::BinaryRc(std::rc::Rc::new(e_1), bop, std::rc::Rc::new(e_2)),
{
    ExprRc::BinaryRc(std::rc::Rc::new(e_1), bop, std::rc::Rc::new(e_2))
}

/// Converts a boxed expression into the shared form, node for node; the
/// result is the same tree and denotes the same Boolean function.
pub fn to_expr_rc(e: &Expr) -> (r: ExprRc)
    ensures
        mirrors(r, *e),
        forall|env: Seq<bool>| rc_eval(r, env) == expr_eval(*e, env),
    decreases *e,
{
    match e {
        Expr::Lit(b) => ExprRc::LitRc(*b),
        Expr::Var(x) => ExprRc::VarRc(*x),
        Expr::Not(e1) => {
            let inner = to_expr_rc(&**e1);
            let ghost gi = inner;
            let r = not_rc(inner);
            proof {
                assert forall|env: Seq<bool>| rc_eval(r, env) == expr_eval(*e, env) by {
                    assert(rc_eval(gi, env) == expr_eval(**e1, env));
                }
            }
            r
        }
        Expr::Binary(e1, bop, e2) => {
            let left = to_expr_rc(&**e1);
            let ghost gl = left;
            let right = to_expr_rc(&**e2);
            let ghost gr = right;
            let r = bin_rc(left, *bop, right);
            proof {
                assert forall|env: Seq<bool>| rc_eval(r, env) == expr_eval(*e, env) by {
                    assert(rc_eval(gl, env) == expr_eval(**e1, env));
                    assert(rc_eval(gr, env) == expr_eval(**e2, env));
                }
            }
            r
        }
    }
}

/// Evaluates a shared expression under a full assignment.
pub fn eval_rc(e: &ExprRc, env: &Env) -> (r: bool)
    requires
        rc_vars_lt(*e, env@.len() as int),
    ensures
        r == rc_eval(*e, env@),
    decreases *e,
{
    match e {
        ExprRc::LitRc(b) => *b,
        ExprRc::VarRc(x) => env[*x],
        ExprRc::NotRc(e1) => !eval_rc(&**e1, env),
        ExprRc::BinaryRc(e1, op, e2) => match op {
            BOp::And => eval_rc(&**e1, env) && eval_rc(&**e2, env),
            BOp::Or => eval_rc(&**e1, env) || eval_rc(&**e2, env),
        },
    }
}

} // verus!
