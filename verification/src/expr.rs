//! Boolean expressions: an immutable AST over integer variable indices,
//! with full and partial evaluation.

use vstd::prelude::*;

verus! {

/// A binary Boolean operator.
#[derive(Clone, Copy, Debug, PartialEq, Eq, Structural)]
pub enum BOp {
    And,
    Or,
}

/// An immutable Boolean expression tree over variable indices.
#[derive(Debug)]
pub enum Expr {
    Lit(bool),
    Var(usize),
    Not(Box<Expr>),
    Binary(Box<Expr>, BOp, Box<Expr>),
}

/// A full assignment: one slot per variable in the universe.
pub type Env = Vec<bool>;

/// A partial assignment: variables absent from the map are unconstrained.
pub type PartialEnv = std::collections::HashMap<usize, bool>;

/// A partial assignment backed by an ordered map.
pub type PartialEnvBTree = std::collections::BTreeMap<usize, bool>;

/// The value of `e` under the assignment `env`.
pub open spec fn expr_eval(e: Expr, env: Seq<bool>) -> bool
    decreases e,
{
    match e {
        Expr::Lit(b) => b,
        Expr::Var(x) => env[x as int],
        Expr::Not(e1) => !expr_eval(*e1, env),
        Expr::Binary(e1, op, e2) => match op {
            BOp::And => expr_eval(*e1, env) && expr_eval(*e2, env),
            BOp::Or => expr_eval(*e1, env) || expr_eval(*e2, env),
        },
    }
}

/// Whether the variable `v` occurs in `e`.
pub open spec fn expr_contains_var(e: Expr, v: usize) -> bool
    decreases e,
{
    match e {
        Expr::Lit(_) => false,
        Expr::Var(x) => x == v,
        Expr::Not(e1) => expr_contains_var(*e1, v),
        Expr::Binary(e1, _, e2) => expr_contains_var(*e1, v) || expr_contains_var(*e2, v),
    }
}

/// Every variable occurring in `e` is below `n`.
pub open spec fn expr_vars_lt(e: Expr, n: int) -> bool
    decreases e,
{
    match e {
        Expr::Lit(_) => true,
        Expr::Var(x) => (x as int) < n,
        Expr::Not(e1) => expr_vars_lt(*e1, n),
        Expr::Binary(e1, _, e2) => expr_vars_lt(*e1, n) && expr_vars_lt(*e2, n),
    }
}

/// Evaluation reads the assignment only at the variables that occur in the
/// expression: assignments that agree there evaluate alike.
pub proof fn lemma_expr_eval_agree(e: Expr, env1: Seq<bool>, env2: Seq<bool>)
    requires
        forall|v: usize| expr_contains_var(e, v) ==> env1[v as int] == env2[v as int],
    ensures
        expr_eval(e, env1) == expr_eval(e, env2),
    decreases e,
{
    match e {
        Expr::Lit(_) => {}
        Expr::Var(x) => {
            assert(expr_contains_var(e, x));
        }
        Expr::Not(e1) => {
            lemma_expr_eval_agree(*e1, env1, env2);
        }
        Expr::Binary(e1, _, e2) => {
            lemma_expr_eval_agree(*e1, env1, env2);
            lemma_expr_eval_agree(*e2, env1, env2);
        }
    }
}

/// A variable occurring in an expression whose variables are below `n` is
/// itself below `n`.
pub proof fn lemma_vars_lt_contains(e: Expr, n: int, v: usize)
    requires
        expr_vars_lt(e, n),
        expr_contains_var(e, v),
    ensures
        (v as int) < n,
    decreases e,
{
    match e {
        Expr::Lit(_) => {}
        Expr::Var(_) => {}
        Expr::Not(e1) => {
            lemma_vars_lt_contains(*e1, n, v);
        }
        Expr::Binary(e1, _, e2) => {
            if expr_contains_var(*e1, v) {
                lemma_vars_lt_contains(*e1, n, v);
            } else {
                lemma_vars_lt_contains(*e2, n, v);
            }
        }
    }
}

/// An expression whose every occurring variable is below `n` has all its
/// variables below `n`.
pub proof fn lemma_vars_lt_intro(e: Expr, n: int)
    requires
        forall|v: usize| expr_contains_var(e, v) ==> (v as int) < n,
    ensures
        expr_vars_lt(e, n),
    decreases e,
{
    match e {
        Expr::Lit(_) => {}
        Expr::Var(x) => {
            assert(expr_contains_var(e, x));
        }
        Expr::Not(e1) => {
            assert forall|v: usize| expr_contains_var(*e1, v) implies (v as int) < n by {
                assert(expr_contains_var(e, v));
            }
            lemma_vars_lt_intro(*e1, n);
        }
        Expr::Binary(e1, _, e2) => {
            assert forall|v: usize| expr_contains_var(*e1, v) implies (v as int) < n by {
                assert(expr_contains_var(e, v));
            }
            assert forall|v: usize| expr_contains_var(*e2, v) implies (v as int) < n by {
                assert(expr_contains_var(e, v));
            }
            lemma_vars_lt_intro(*e1, n);
            lemma_vars_lt_intro(*e2, n);
        }
    }
}

/// Wraps an expression in a negation.
pub fn not(e_1: Expr) -> (r: Expr)
    ensures
        r == Expr::Not(Box::new(e_1)),
{
    Expr::Not(Box::new(e_1))
}

/// Combines two expressions under a binary operator.
pub fn bin(e_1: Expr, bop: BOp, e_2: Expr) -> (r: Expr)
    ensures
        r == Expr::Binary(Box::new(e_1), bop, Box::new(e_2)),
{
    Expr::Binary(Box::new(e_1), bop, Box::new(e_2))
}

/// Evaluates `e` under a full assignment.
pub fn eval(e: &Expr, env: &Env) -> (r: bool)
    requires
        expr_vars_lt(*e, env@.len() as int),
    ensures
        r == expr_eval(*e, env@),
    decreases *e,
{
    match e {
        Expr::Lit(b) => *b,
        Expr::Var(x) => env[*x],
        Expr::Not(e1) => !eval(&**e1, env),
        Expr::Binary(e1, op, e2) => match op {
            BOp::And => eval(&**e1, env) && eval(&**e2, env),
            BOp::Or => eval(&**e1, env) || eval(&**e2, env),
        },
    }
}

/// The full assignment that a partial assignment is padded to: one slot per
/// assigned variable, holding the assigned value where the slot's own index
/// is assigned and false elsewhere.
pub open spec fn padded_env(m: Map<usize, bool>) -> Seq<bool> {
    Seq::new(
        m.dom().len() as nat,
        |i: int|
            if m.dom().contains(i as usize) {
                m[i as usize]
            } else {
                false
            },
    )
}

/// Evaluates `e` under a partial assignment by padding it to a full vector of
/// one slot per assigned variable; unassigned slots read false.
pub fn eval_partial(e: &Expr, env: &PartialEnv) -> (r: bool)
    requires
        expr_vars_lt(*e, env@.dom().len() as int),
    ensures
        r == expr_eval(*e, padded_env(env@)),
{
    let n = env.len();
    let mut v: Vec<bool> = Vec::new();
    let mut i: usize = 0;
    while i < n
        invariant
            n as int == env@.dom().len() as int,
            i <= n,
            v@.len() == i as int,
            forall|j: int|
                0 <= j < i ==> v@[j] == (if env@.dom().contains(j as usize) {
                    env@[j as usize]
                } else {
                    false
                }),
        decreases n - i,
    {
        match env.get(&i) {
            Some(b) => {
                v.push(*b);
            }
            None => {
                v.push(false);
            }
        }
        i += 1;
    }
    proof {
        assert(v@ =~= padded_env(env@));
    }
    eval(e, &v)
}

/// Evaluates `e` under an ordered-map partial assignment, padding exactly as
/// [`eval_partial`] does.
pub fn eval_partialbtree(e: &Expr, env: &PartialEnvBTree) -> (r: bool)
    requires
        expr_vars_lt(*e, env@.dom().len() as int),
    ensures
        r == expr_eval(*e, padded_env(env@)),
{
    let n = env.len();
    let mut v: Vec<bool> = Vec::new();
    let mut i: usize = 0;
    while i < n
        invariant
            n as int == env@.dom().len() as int,
            i <= n,
            v@.len() == i as int,
            forall|j: int|
                0 <= j < i ==> v@[j] == (if env@.dom().contains(j as usize) {
                    env@[j as usize]
                } else {
                    false
                }),
        decreases n - i,
    {
        match env.get(&i) {
            Some(b) => {
                v.push(*b);
            }
            None => {
                v.push(false);
            }
        }
        i += 1;
    }
    proof {
        assert(v@ =~= padded_env(env@));
    }
    eval(e, &v)
}

} // verus!
