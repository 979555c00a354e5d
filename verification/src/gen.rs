//! Benchmark expression generator: the n-bit comparator, which is true
//! exactly when the two interleaved bit vectors are equal, together with the
//! two standard variable orders for it — the interleaved ("good") order and
//! the blocked ("bad") order.

use vstd::prelude::*;

use crate::expr::bin;
use crate::expr::expr_contains_var;
use crate::expr::expr_eval;
use crate::expr::not;
use crate::expr::BOp;
use crate::expr::Expr;

verus! {

/// Bit `i` of the first operand (slot `2i`) equals bit `i` of the second
/// (slot `2i+1`).
pub open spec fn bit_eq(env: Seq<bool>, i: int) -> bool {
    env[2 * i] == env[2 * i + 1]
}

/// The comparator's meaning: every bit below `n` is equal across the two
/// operands.
pub open spec fn all_bits_eq(env: Seq<bool>, n: int) -> bool {
    forall|i: int| 0 <= i < n ==> #[trigger] bit_eq(env, i)
}

/// Builds the conjunction of per-bit equalities for the low `n_bits` bits:
/// `(!x_i && !y_i || x_i && y_i) && ...`.
fn comparator_rec(n_bits: usize) -> (r: Expr)
    requires
        n_bits <= usize::MAX / 2,
    ensures
        forall|v: usize| expr_contains_var(r, v) ==> (v as int) < 2 * n_bits as int,
        forall|env: Seq<bool>| expr_eval(r, env) == all_bits_eq(env, n_bits as int),
    decreases n_bits,
{
    if n_bits == 0 {
        let r = Expr::Lit(true);
        proof {
            assert forall|env: Seq<bool>| expr_eval(r, env) == all_bits_eq(env, 0) by {}
        }
        r
    } else {
        let var_idx = n_bits - 1;
        let xn = var_idx * 2;
        let yn = var_idx * 2 + 1;
        let rest = comparator_rec(n_bits - 1);
        let ghost grest = rest;
        let not_x = not(Expr::Var(xn));
        let ghost g_nx = not_x;
        let not_y = not(Expr::Var(yn));
        let ghost g_ny = not_y;
        let both_false = bin(not_x, BOp::And, not_y);
        let ghost g_ff = both_false;
        let both_true = bin(Expr::Var(xn), BOp::And, Expr::Var(yn));
        let ghost g_tt = both_true;
        let eq_bit = bin(both_false, BOp::Or, both_true);
        let ghost g_eq = eq_bit;
        let r = bin(eq_bit, BOp::And, rest);
        proof {
            let n = n_bits as int;
            assert forall|v: usize| expr_contains_var(r, v) implies (v as int) < 2 * n by {
                assert(expr_contains_var(r, v) == (expr_contains_var(g_eq, v)
                    || expr_contains_var(grest, v)));
                assert(expr_contains_var(g_eq, v) == (expr_contains_var(g_ff, v)
                    || expr_contains_var(g_tt, v)));
                assert(expr_contains_var(Expr::Var(xn), v) == (v == xn));
                assert(expr_contains_var(Expr::Var(yn), v) == (v == yn));
                assert(expr_contains_var(g_nx, v) == expr_contains_var(Expr::Var(xn), v));
                assert(expr_contains_var(g_ny, v) == expr_contains_var(Expr::Var(yn), v));
                assert(expr_contains_var(g_ff, v) == (v == xn || v == yn));
                assert(expr_contains_var(g_tt, v) == (expr_contains_var(Expr::Var(xn), v)
                    || expr_contains_var(Expr::Var(yn), v)));
                if v != xn && v != yn {
                    assert(expr_contains_var(grest, v));
                }
            }
            assert forall|env: Seq<bool>| expr_eval(r, env) == all_bits_eq(env, n) by {
                assert(expr_eval(grest, env) == all_bits_eq(env, n - 1));
                assert(expr_eval(Expr::Var(xn), env) == env[xn as int]);
                assert(expr_eval(Expr::Var(yn), env) == env[yn as int]);
                assert(expr_eval(g_nx, env) == !expr_eval(Expr::Var(xn), env));
                assert(expr_eval(g_ny, env) == !expr_eval(Expr::Var(yn), env));
                assert(expr_eval(g_ff, env) == (expr_eval(g_nx, env) && expr_eval(g_ny, env)));
                assert(expr_eval(g_tt, env) == (expr_eval(Expr::Var(xn), env) && expr_eval(
                    Expr::Var(yn),
                    env,
                )));
                assert(expr_eval(g_eq, env) == (expr_eval(g_ff, env) || expr_eval(g_tt, env)));
                assert(expr_eval(r, env) == (expr_eval(g_eq, env) && expr_eval(grest, env)));
                assert(xn as int == 2 * (n - 1) && yn as int == 2 * (n - 1) + 1);
                assert(expr_eval(g_eq, env) == bit_eq(env, n - 1));
                assert(expr_eval(r, env) == (bit_eq(env, n - 1) && all_bits_eq(env, n - 1)));
                if bit_eq(env, n - 1) && all_bits_eq(env, n - 1) {
                    assert forall|i: int| 0 <= i < n implies #[trigger] bit_eq(env, i) by {
                        if i < n - 1 {
                            assert(bit_eq(env, i));
                        }
                    }
                }
                if all_bits_eq(env, n) {
                    assert(bit_eq(env, n - 1));
                    assert forall|i: int| 0 <= i < n - 1 implies #[trigger] bit_eq(env, i) by {
                        assert(0 <= i < n);
                    }
                }
            }
        }
        r
    }
}

/// The n-bit comparator benchmark: the expression, the blocked ("bad") order
/// `[x0..x(n-1), y0..y(n-1)]`, and the interleaved ("good") order
/// `[x0, y0, x1, y1, ...]`.  Both orders are duplicate-free permutations of
/// the comparator's `2 * n_bits` variables.
pub fn comparator(n_bits: usize) -> (r: (Expr, Vec<usize>, Vec<usize>))
    requires
        n_bits <= usize::MAX / 2,
    ensures
        r.1@.len() == 2 * n_bits as int,
        r.2@.len() == 2 * n_bits as int,
        forall|i: int| 0 <= i < n_bits as int ==> r.1@[i] == 2 * i,
        forall|i: int|
            n_bits as int <= i < 2 * n_bits as int ==> r.1@[i] == 2 * (i - n_bits as int) + 1,
        forall|i: int| 0 <= i < 2 * n_bits as int ==> r.2@[i] == i,
        r.1@.no_duplicates(),
        r.2@.no_duplicates(),
        forall|k: int| 0 <= k < r.1@.len() ==> (r.1@[k] as int) < r.1@.len(),
        forall|k: int| 0 <= k < r.2@.len() ==> (r.2@[k] as int) < r.2@.len(),
        forall|v: usize| expr_contains_var(r.0, v) ==> r.1@.contains(v),
        forall|v: usize| expr_contains_var(r.0, v) ==> r.2@.contains(v),
        forall|env: Seq<bool>| expr_eval(r.0, env) == all_bits_eq(env, n_bits as int),
{
    let n = n_bits;
    let mut var_ord_bad: Vec<usize> = Vec::new();
    let mut var_ord_good: Vec<usize> = Vec::new();
    let mut i: usize = 0;
    while i < n
        invariant
            n <= usize::MAX / 2,
            i <= n,
            var_ord_bad@.len() == i as int,
            forall|j: int| 0 <= j < i ==> var_ord_bad@[j] == 2 * j,
        decreases n - i,
    {
        var_ord_bad.push(i * 2);
        i += 1;
    }
    let mut i: usize = 0;
    while i < n
        invariant
            n <= usize::MAX / 2,
            i <= n,
            var_ord_bad@.len() == n as int + i as int,
            forall|j: int| 0 <= j < n as int ==> var_ord_bad@[j] == 2 * j,
            forall|j: int|
                n as int <= j < n as int + i as int ==> var_ord_bad@[j] == 2 * (j - n as int) + 1,
        decreases n - i,
    {
        var_ord_bad.push(i * 2 + 1);
        i += 1;
    }
    let mut i: usize = 0;
    while i < n
        invariant
            n <= usize::MAX / 2,
            i <= n,
            var_ord_good@.len() == 2 * i as int,
            forall|j: int| 0 <= j < 2 * i as int ==> var_ord_good@[j] == j,
        decreases n - i,
    {
        var_ord_good.push(i * 2);
        var_ord_good.push(i * 2 + 1);
        i += 1;
    }
    let e = comparator_rec(n);
    proof {
        let bad = var_ord_bad@;
        let good = var_ord_good@;
        let nn = n as int;
        assert(bad.no_duplicates()) by {
            assert forall|p: int, q: int| 0 <= p < q < bad.len() implies bad[p] != bad[q] by {
                if q < nn {
                } else if p >= nn {
                } else {
                    assert(bad[p] == 2 * p);
                    assert(bad[q] == 2 * (q - nn) + 1);
                }
            }
        }
        assert(good.no_duplicates()) by {
            assert forall|p: int, q: int| 0 <= p < q < good.len() implies good[p] != good[q] by {}
        }
        assert forall|v: usize| expr_contains_var(e, v) implies good.contains(v) by {
            assert((v as int) < 2 * nn);
            assert(good[v as int] == v as int);
        }
        assert forall|v: usize| expr_contains_var(e, v) implies bad.contains(v) by {
            assert((v as int) < 2 * nn);
            if v as int % 2 == 0 {
                let j = v as int / 2;
                assert(bad[j] == 2 * j == v as int);
            } else {
                let j = (v as int - 1) / 2;
                assert(bad[nn + j] == 2 * ((nn + j) - nn) + 1);
                assert(bad[nn + j] == v as int);
            }
        }
        assert forall|k: int| 0 <= k < bad.len() implies (bad[k] as int) < bad.len() by {
            if k < nn {
                assert(bad[k] == 2 * k);
            } else {
                assert(bad[k] == 2 * (k - nn) + 1);
            }
        }
    }
    (e, var_ord_bad, var_ord_good)
}

} // verus!
