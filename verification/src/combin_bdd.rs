//! Combinatorial (Apply) ROBDD builder: structural recursion over the
//! expression tree, composing diagrams for subexpressions with a memoized
//! binary-AND core.  Or is translated into And purely by toggling complement
//! bits (De Morgan), and a variable leaf becomes a single degenerate node
//! over the shared terminal.  Node interning goes through the same
//! normalization choke point as the negated-arc builders, so the invariants
//! (acyclic table, hash-consing, ordering, complement only on else-edges)
//! are the same.

use vstd::prelude::*;

use crate::expr::expr_contains_var;
use crate::expr::expr_eval;
use crate::expr::Expr;
use crate::neg_arc_bdd::fn_eval;
use crate::neg_arc_bdd::fref_wf;
use crate::neg_arc_bdd::func;
use crate::neg_arc_bdd::lemma_fn_eval_complement;
use crate::neg_arc_bdd::lemma_fn_eval_prefix;
use crate::neg_arc_bdd::level;
use crate::neg_arc_bdd::table_ord_wf;
use crate::neg_arc_bdd::table_reduced;
use crate::neg_arc_bdd::table_unique;
use crate::neg_arc_bdd::table_wf;
use crate::neg_arc_bdd::term;
use crate::neg_arc_bdd::unique_insert;
use crate::neg_arc_bdd::Bdd;
use crate::neg_arc_bdd::FunctionNode;
use crate::neg_arc_bdd::InternalNode;

verus! {

/// The smaller of two levels.
pub open spec fn min_level(a: int, b: int) -> int {
    if a < b {
        a
    } else {
        b
    }
}

/// One entry of the operation cache: an unordered operand pair and the
/// reference their AND was resolved to.
pub type CacheEntry = ((FunctionNode, FunctionNode), FunctionNode);

/// The operation cache is sound with respect to the table: every cached
/// result denotes the conjunction of its operand pair, and sits no higher in
/// the order than either operand.
#[verifier::opaque]
pub open spec fn cache_inv(cache: Seq<CacheEntry>, nodes: Seq<InternalNode>, ord: Seq<usize>) -> bool {
    forall|c: int|
        0 <= c < cache.len() ==> {
            &&& fref_wf(nodes, (#[trigger] cache[c]).0.0)
            &&& fref_wf(nodes, cache[c].0.1)
            &&& fref_wf(nodes, cache[c].1)
            &&& level(nodes, ord, cache[c].1.head) >= min_level(
                level(nodes, ord, cache[c].0.0.head),
                level(nodes, ord, cache[c].0.1.head),
            )
            &&& forall|env: Seq<bool>|
                fn_eval(nodes, cache[c].1, env) == (fn_eval(nodes, cache[c].0.0, env) && fn_eval(
                    nodes,
                    cache[c].0.1,
                    env,
                ))
        }
}

/// A level computed in a prefix of the table is unchanged in the extension.
proof fn lemma_level_prefix(
    small: Seq<InternalNode>,
    big: Seq<InternalNode>,
    ord: Seq<usize>,
    h: usize,
)
    requires
        small.len() <= big.len(),
        forall|j: int| 0 <= j < small.len() ==> small[j] == big[j],
        fref_wf(small, FunctionNode { head: h, complement: false }),
    ensures
        level(big, ord, h) == level(small, ord, h),
{
    if h != term {
        assert(big[h as int] == small[h as int]);
    }
}

/// The cache invariant survives growth of the node table.
proof fn lemma_cache_inv_prefix(
    cache: Seq<CacheEntry>,
    small: Seq<InternalNode>,
    big: Seq<InternalNode>,
    ord: Seq<usize>,
)
    requires
        cache_inv(cache, small, ord),
        small.len() <= big.len(),
        forall|j: int| 0 <= j < small.len() ==> small[j] == big[j],
    ensures
        cache_inv(cache, big, ord),
{
    reveal(cache_inv);
    assert forall|c: int|
        0 <= c < cache.len() implies {
        &&& fref_wf(big, (#[trigger] cache[c]).0.0)
        &&& fref_wf(big, cache[c].0.1)
        &&& fref_wf(big, cache[c].1)
        &&& level(big, ord, cache[c].1.head) >= min_level(
            level(big, ord, cache[c].0.0.head),
            level(big, ord, cache[c].0.1.head),
        )
        &&& forall|env: Seq<bool>|
            fn_eval(big, cache[c].1, env) == (fn_eval(big, cache[c].0.0, env) && fn_eval(
                big,
                cache[c].0.1,
                env,
            ))
    } by {
        assert(fref_wf(small, cache[c].0.0));
        assert(fref_wf(small, cache[c].0.1));
        assert(fref_wf(small, cache[c].1));
        lemma_level_prefix(small, big, ord, cache[c].0.0.head);
        lemma_level_prefix(small, big, ord, cache[c].0.1.head);
        lemma_level_prefix(small, big, ord, cache[c].1.head);
        assert forall|env: Seq<bool>|
            fn_eval(big, cache[c].1, env) == (fn_eval(big, cache[c].0.0, env) && fn_eval(
                big,
                cache[c].0.1,
                env,
            )) by {
            lemma_fn_eval_prefix(small, big, cache[c].0.0, env);
            lemma_fn_eval_prefix(small, big, cache[c].0.1, env);
            lemma_fn_eval_prefix(small, big, cache[c].1, env);
        }
    }
}

/// A well-formed reference into an order-respecting table sits at a
/// non-negative level.
proof fn lemma_level_nonneg(nodes: Seq<InternalNode>, ord: Seq<usize>, h: usize)
    requires
        table_ord_wf(nodes, ord),
        fref_wf(nodes, FunctionNode { head: h, complement: false }),
    ensures
        level(nodes, ord, h) >= 0,
        level(nodes, ord, h) <= ord.len(),
        h != term ==> level(nodes, ord, h) < ord.len(),
{
    if h != term {
        assert(ord.contains(nodes[h as int].label));
        let p = ord.index_of(nodes[h as int].label);
        assert(0 <= p < ord.len() && ord[p] == nodes[h as int].label);
    }
}

/// A fixed total order on function references, used only to canonicalize the
/// unordered operand pair before the cache is consulted.
fn fref_before(a: &FunctionNode, b: &FunctionNode) -> bool {
    a.head < b.head || (a.head == b.head && !a.complement && b.complement)
}

/// The memoized binary AND over two function references, cofactoring both
/// operands on the order variables from position `d` on.  The result denotes
/// the conjunction of the operands, and sits no higher in the order than
/// either of them.
#[verifier::rlimit(100)]
#[verifier::spinoff_prover]
fn bdd_and(
    f: FunctionNode,
    g: FunctionNode,
    var_ord: &[usize],
    d: usize,
    nodes: &mut Vec<InternalNode>,
    computed_table: &mut Vec<CacheEntry>,
) -> (r: FunctionNode)
    requires
        d <= var_ord@.len(),
        var_ord@.no_duplicates(),
        table_wf(old(nodes)@),
        table_unique(old(nodes)@),
        table_reduced(old(nodes)@),
        table_ord_wf(old(nodes)@, var_ord@),
        fref_wf(old(nodes)@, f),
        fref_wf(old(nodes)@, g),
        level(old(nodes)@, var_ord@, f.head) >= d as int,
        level(old(nodes)@, var_ord@, g.head) >= d as int,
        cache_inv(old(computed_table)@, old(nodes)@, var_ord@),
    ensures
        table_wf(final(nodes)@),
        table_unique(final(nodes)@),
        table_reduced(final(nodes)@),
        table_ord_wf(final(nodes)@, var_ord@),
        old(nodes)@.len() <= final(nodes)@.len(),
        forall|j: int| 0 <= j < old(nodes)@.len() ==> old(nodes)@[j] == final(nodes)@[j],
        cache_inv(final(computed_table)@, final(nodes)@, var_ord@),
        fref_wf(final(nodes)@, r),
        level(final(nodes)@, var_ord@, r.head) >= min_level(
            level(old(nodes)@, var_ord@, f.head),
            level(old(nodes)@, var_ord@, g.head),
        ),
        forall|env: Seq<bool>|
            fn_eval(final(nodes)@, r, env) == (fn_eval(old(nodes)@, f, env) && fn_eval(
                old(nodes)@,
                g,
                env,
            )),
    decreases var_ord@.len() - d,
{
    // Terminal fast paths.
    if f.head == g.head {
        if f.complement == g.complement {
            return f;
        } else {
            proof {
                assert forall|env: Seq<bool>|
                    fn_eval(nodes@, FunctionNode { head: term, complement: true }, env) == (
                    fn_eval(nodes@, f, env) && fn_eval(nodes@, g, env)) by {
                    lemma_fn_eval_complement(nodes@, f, env);
                }
            }
            return func(term, true);
        }
    }
    if f.head == term {
        if f.complement {
            return f;
        } else {
            return g;
        }
    }
    if g.head == term {
        if g.complement {
            return g;
        } else {
            return f;
        }
    }
    // Consult the operation cache under the canonicalized operand pair.
    let entry_key = if fref_before(&f, &g) {
        (f, g)
    } else {
        (g, f)
    };
    let clen = computed_table.len();
    let mut ci: usize = 0;
    while ci < clen
        invariant
            computed_table@ == old(computed_table)@,
            nodes@ == old(nodes)@,
            clen == computed_table@.len(),
            ci <= clen,
            table_wf(nodes@),
            table_unique(nodes@),
            table_reduced(nodes@),
            table_ord_wf(nodes@, var_ord@),
            cache_inv(computed_table@, nodes@, var_ord@),
            fref_wf(nodes@, f),
            fref_wf(nodes@, g),
            level(nodes@, var_ord@, f.head) >= d as int,
            level(nodes@, var_ord@, g.head) >= d as int,
            entry_key == (f, g) || entry_key == (g, f),
        decreases clen - ci,
    {
        let entry = &computed_table[ci];
        if entry.0.0 == entry_key.0 && entry.0.1 == entry_key.1 {
            let r = entry.1;
            proof {
                reveal(cache_inv);
                assert(cache_inv(computed_table@, nodes@, var_ord@));
                assert(fref_wf(nodes@, computed_table@[ci as int].1));
                assert(level(nodes@, var_ord@, computed_table@[ci as int].1.head) >= min_level(
                    level(nodes@, var_ord@, computed_table@[ci as int].0.0.head),
                    level(nodes@, var_ord@, computed_table@[ci as int].0.1.head),
                ));
                assert forall|env: Seq<bool>|
                    fn_eval(nodes@, r, env) == (fn_eval(nodes@, f, env) && fn_eval(
                        nodes@,
                        g,
                        env,
                    )) by {
                    assert(fn_eval(nodes@, computed_table@[ci as int].1, env) == (fn_eval(
                        nodes@,
                        computed_table@[ci as int].0.0,
                        env,
                    ) && fn_eval(nodes@, computed_table@[ci as int].0.1, env)));
                }
            }
            return r;
        }
        ci += 1;
    }
    // Both operands are internal nodes now, so the order cannot be exhausted.
    proof {
        lemma_level_nonneg(nodes@, var_ord@, f.head);
    }
    let x = var_ord[d];
    let f_label = nodes[f.head].label;
    let g_label = nodes[g.head].label;
    proof {
        assert(var_ord@.index_of(f_label) == level(nodes@, var_ord@, f.head));
        assert(var_ord@.index_of(g_label) == level(nodes@, var_ord@, g.head));
        assert(f_label != x ==> level(nodes@, var_ord@, f.head) >= d as int + 1) by {
            if f_label != x && level(nodes@, var_ord@, f.head) == d as int {
                assert(var_ord@.contains(f_label));
                let p = var_ord@.index_of(f_label);
                assert(0 <= p < var_ord@.len() && var_ord@[p] == f_label);
            }
        }
        assert(g_label != x ==> level(nodes@, var_ord@, g.head) >= d as int + 1) by {
            if g_label != x && level(nodes@, var_ord@, g.head) == d as int {
                assert(var_ord@.contains(g_label));
                let p = var_ord@.index_of(g_label);
                assert(0 <= p < var_ord@.len() && var_ord@[p] == g_label);
            }
        }
    }
    if f_label != x && g_label != x {
        // Neither operand tests the current variable: descend the order.
        return bdd_and(f, g, var_ord, d + 1, nodes, computed_table);
    }
    // Cofactor both operands on x; an operand not testing x is its own
    // cofactor on both sides.
    let (f_t, f_e) = if f_label == x {
        let nd = &nodes[f.head];
        (func(nd.t_arc, f.complement), func(nd.e_arc, nd.e_complement ^ f.complement))
    } else {
        (f, f)
    };
    let (g_t, g_e) = if g_label == x {
        let nd = &nodes[g.head];
        (func(nd.t_arc, g.complement), func(nd.e_arc, nd.e_complement ^ g.complement))
    } else {
        (g, g)
    };
    proof {
        assert(var_ord@.index_of(x) == d as int) by {
            assert(var_ord@[d as int] == x);
            assert(var_ord@.contains(x));
            let p = var_ord@.index_of(x);
            assert(0 <= p < var_ord@.len() && var_ord@[p] == x);
            if p != d as int {
                assert(var_ord@[p] == var_ord@[d as int]);
            }
        }
        if f_label == x {
            assert(level(nodes@, var_ord@, nodes@[f.head as int].t_arc) > d as int);
            assert(level(nodes@, var_ord@, nodes@[f.head as int].e_arc) > d as int);
        }
        if g_label == x {
            assert(level(nodes@, var_ord@, nodes@[g.head as int].t_arc) > d as int);
            assert(level(nodes@, var_ord@, nodes@[g.head as int].e_arc) > d as int);
        }
        assert forall|env: Seq<bool>|
            fn_eval(nodes@, f, env) == (if env[x as int] {
                fn_eval(nodes@, f_t, env)
            } else {
                fn_eval(nodes@, f_e, env)
            }) by {}
        assert forall|env: Seq<bool>|
            fn_eval(nodes@, g, env) == (if env[x as int] {
                fn_eval(nodes@, g_t, env)
            } else {
                fn_eval(nodes@, g_e, env)
            }) by {}
    }
    let ghost nodes0 = nodes@;
    let t = bdd_and(f_t, g_t, var_ord, d + 1, nodes, computed_table);
    let ghost nodes1 = nodes@;
    let e_cof = bdd_and(f_e, g_e, var_ord, d + 1, nodes, computed_table);
    let ghost nodes2 = nodes@;
    proof {
        assert(fref_wf(nodes2, t));
        lemma_level_prefix(nodes1, nodes2, var_ord@, t.head);
        assert(level(nodes2, var_ord@, t.head) >= d as int + 1);
        assert(level(nodes2, var_ord@, e_cof.head) >= d as int + 1);
    }
    let r = unique_insert(x, t, e_cof, nodes, Ghost(var_ord@), Ghost(d as int));
    let ghost nodes3 = nodes@;
    proof {
        assert forall|env: Seq<bool>|
            fn_eval(nodes3, r, env) == (fn_eval(nodes0, f, env) && fn_eval(
                nodes0,
                g,
                env,
            )) by {
            assert(fn_eval(nodes3, r, env) == if env[x as int] {
                fn_eval(nodes2, t, env)
            } else {
                fn_eval(nodes2, e_cof, env)
            });
            lemma_fn_eval_prefix(nodes1, nodes2, t, env);
            assert(fn_eval(nodes1, t, env) == (fn_eval(nodes0, f_t, env) && fn_eval(
                nodes0,
                g_t,
                env,
            )));
            lemma_fn_eval_prefix(nodes0, nodes1, f_e, env);
            lemma_fn_eval_prefix(nodes0, nodes1, g_e, env);
            assert(fn_eval(nodes2, e_cof, env) == (fn_eval(nodes0, f_e, env) && fn_eval(
                nodes0,
                g_e,
                env,
            )));
        }
        lemma_cache_inv_prefix(computed_table@, nodes2, nodes3, var_ord@);
        lemma_level_prefix(nodes0, nodes3, var_ord@, f.head);
        lemma_level_prefix(nodes0, nodes3, var_ord@, g.head);
    }
    let ghost cache2 = computed_table@;
    let entry = (entry_key, r);
    computed_table.push(entry);
    proof {
        reveal(cache_inv);
        assert forall|c: int|
            0 <= c < computed_table@.len() implies {
            &&& fref_wf(nodes3, (#[trigger] computed_table@[c]).0.0)
            &&& fref_wf(nodes3, computed_table@[c].0.1)
            &&& fref_wf(nodes3, computed_table@[c].1)
            &&& level(nodes3, var_ord@, computed_table@[c].1.head) >= min_level(
                level(nodes3, var_ord@, computed_table@[c].0.0.head),
                level(nodes3, var_ord@, computed_table@[c].0.1.head),
            )
            &&& forall|env: Seq<bool>|
                fn_eval(nodes3, computed_table@[c].1, env) == (fn_eval(
                    nodes3,
                    computed_table@[c].0.0,
                    env,
                ) && fn_eval(nodes3, computed_table@[c].0.1, env))
        } by {
            if c < computed_table@.len() - 1 {
                assert(computed_table@[c] == cache2[c]);
            } else {
                assert(computed_table@[c] == entry);
                lemma_level_prefix(nodes0, nodes3, var_ord@, entry_key.0.head);
                lemma_level_prefix(nodes0, nodes3, var_ord@, entry_key.1.head);
                assert forall|env: Seq<bool>|
                    fn_eval(nodes3, entry.1, env) == (fn_eval(nodes3, entry.0.0, env) && fn_eval(
                        nodes3,
                        entry.0.1,
                        env,
                    )) by {
                    lemma_fn_eval_prefix(nodes0, nodes3, f, env);
                    lemma_fn_eval_prefix(nodes0, nodes3, g, env);
                }
            }
        }
        assert(cache_inv(computed_table@, nodes3, var_ord@));
    }
    r
}


/// Toggling the complement of a reference that denotes `e1` yields a
/// reference denoting its negation.
proof fn lemma_apply_not(nodes: Seq<InternalNode>, f: FunctionNode, r: FunctionNode, e1: Expr)
    requires
        table_wf(nodes),
        fref_wf(nodes, f),
        r.head == f.head,
        r.complement == !f.complement,
        forall|env: Seq<bool>| fn_eval(nodes, f, env) == expr_eval(e1, env),
    ensures
        forall|env: Seq<bool>| fn_eval(nodes, r, env) == !expr_eval(e1, env),
{
    assert forall|env: Seq<bool>| fn_eval(nodes, r, env) == !expr_eval(e1, env) by {
        lemma_fn_eval_complement(nodes, f, env);
        assert(r == (FunctionNode { head: f.head, complement: !f.complement }));
    }
}

/// Combining the operand claims of the AND core: the result denotes the
/// conjunction of the two subexpressions.
proof fn lemma_apply_and(
    nodes1: Seq<InternalNode>,
    nodes2: Seq<InternalNode>,
    nodes3: Seq<InternalNode>,
    f1: FunctionNode,
    f2: FunctionNode,
    r: FunctionNode,
    e1: Expr,
    e2: Expr,
)
    requires
        nodes1.len() <= nodes2.len(),
        forall|j: int| 0 <= j < nodes1.len() ==> nodes1[j] == nodes2[j],
        fref_wf(nodes1, f1),
        forall|env: Seq<bool>| fn_eval(nodes1, f1, env) == expr_eval(e1, env),
        forall|env: Seq<bool>| fn_eval(nodes2, f2, env) == expr_eval(e2, env),
        forall|env: Seq<bool>|
            fn_eval(nodes3, r, env) == (fn_eval(nodes2, f1, env) && fn_eval(nodes2, f2, env)),
    ensures
        forall|env: Seq<bool>|
            fn_eval(nodes3, r, env) == (expr_eval(e1, env) && expr_eval(e2, env)),
{
    assert forall|env: Seq<bool>|
        fn_eval(nodes3, r, env) == (expr_eval(e1, env) && expr_eval(e2, env)) by {
        lemma_fn_eval_prefix(nodes1, nodes2, f1, env);
        assert(fn_eval(nodes1, f1, env) == expr_eval(e1, env));
        assert(fn_eval(nodes2, f2, env) == expr_eval(e2, env));
    }
}

/// De Morgan at the reference level: negating both operands, conjoining, and
/// negating the result denotes the disjunction of the two subexpressions.
proof fn lemma_apply_or(
    nodes1: Seq<InternalNode>,
    nodes2: Seq<InternalNode>,
    nodes3: Seq<InternalNode>,
    f1: FunctionNode,
    f2: FunctionNode,
    a: FunctionNode,
    r: FunctionNode,
    e1: Expr,
    e2: Expr,
)
    requires
        nodes1.len() <= nodes2.len(),
        forall|j: int| 0 <= j < nodes1.len() ==> nodes1[j] == nodes2[j],
        table_wf(nodes2),
        table_wf(nodes3),
        fref_wf(nodes1, f1),
        fref_wf(nodes2, f1),
        fref_wf(nodes2, f2),
        fref_wf(nodes3, a),
        r.head == a.head,
        r.complement == !a.complement,
        forall|env: Seq<bool>| fn_eval(nodes1, f1, env) == expr_eval(e1, env),
        forall|env: Seq<bool>| fn_eval(nodes2, f2, env) == expr_eval(e2, env),
        forall|env: Seq<bool>|
            fn_eval(nodes3, a, env) == (fn_eval(
                nodes2,
                FunctionNode { head: f1.head, complement: !f1.complement },
                env,
            ) && fn_eval(nodes2, FunctionNode { head: f2.head, complement: !f2.complement }, env)),
    ensures
        forall|env: Seq<bool>|
            fn_eval(nodes3, r, env) == (expr_eval(e1, env) || expr_eval(e2, env)),
{
    assert forall|env: Seq<bool>|
        fn_eval(nodes3, r, env) == (expr_eval(e1, env) || expr_eval(e2, env)) by {
        lemma_fn_eval_complement(nodes3, a, env);
        assert(r == (FunctionNode { head: a.head, complement: !a.complement }));
        lemma_fn_eval_complement(nodes2, f1, env);
        lemma_fn_eval_complement(nodes2, f2, env);
        lemma_fn_eval_prefix(nodes1, nodes2, f1, env);
        assert(fn_eval(nodes2, f1, env) == expr_eval(e1, env));
    }
}

/// Builds the diagram of `e` bottom-up: literals and variables become
/// (degenerate) references, Not toggles a complement bit, And applies the
/// memoized AND core, and Or goes through De Morgan on complement bits.
#[verifier::rlimit(100)]
#[verifier::spinoff_prover]
fn from_combinatorial_rec(
    e: &Expr,
    var_ord: &[usize],
    nodes: &mut Vec<InternalNode>,
    computed_table: &mut Vec<CacheEntry>,
) -> (r: FunctionNode)
    requires
        var_ord@.no_duplicates(),
        forall|v: usize| expr_contains_var(*e, v) ==> var_ord@.contains(v),
        table_wf(old(nodes)@),
        table_unique(old(nodes)@),
        table_reduced(old(nodes)@),
        table_ord_wf(old(nodes)@, var_ord@),
        cache_inv(old(computed_table)@, old(nodes)@, var_ord@),
    ensures
        table_wf(final(nodes)@),
        table_unique(final(nodes)@),
        table_reduced(final(nodes)@),
        table_ord_wf(final(nodes)@, var_ord@),
        old(nodes)@.len() <= final(nodes)@.len(),
        forall|j: int| 0 <= j < old(nodes)@.len() ==> old(nodes)@[j] == final(nodes)@[j],
        cache_inv(final(computed_table)@, final(nodes)@, var_ord@),
        fref_wf(final(nodes)@, r),
        forall|env: Seq<bool>| fn_eval(final(nodes)@, r, env) == expr_eval(*e, env),
    decreases *e,
{
    match e {
        Expr::Lit(b) => func(term, !*b),
        Expr::Var(x) => {
            proof {
                assert(expr_contains_var(*e, *x));
                assert(var_ord@.contains(*x));
            }
            let ghost d = var_ord@.index_of(*x);
            proof {
                assert(0 <= d < var_ord@.len() && var_ord@[d] == *x);
            }
            let r = unique_insert(
                *x,
                func(term, false),
                func(term, true),
                nodes,
                Ghost(var_ord@),
                Ghost(d),
            );
            proof {
                lemma_cache_inv_prefix(computed_table@, old(nodes)@, nodes@, var_ord@);
                assert forall|env: Seq<bool>| fn_eval(nodes@, r, env) == expr_eval(*e, env) by {
                    assert(fn_eval(nodes@, r, env) == if env[*x as int] {
                        fn_eval(old(nodes)@, FunctionNode { head: term, complement: false }, env)
                    } else {
                        fn_eval(old(nodes)@, FunctionNode { head: term, complement: true }, env)
                    });
                }
            }
            r
        }
        Expr::Not(e1) => {
            proof {
                assert forall|v: usize|
                    expr_contains_var(**e1, v) implies var_ord@.contains(v) by {
                    assert(expr_contains_var(*e, v));
                }
            }
            let f = from_combinatorial_rec(&**e1, var_ord, nodes, computed_table);
            let r = func(f.head, !f.complement);
            proof {
                lemma_apply_not(nodes@, f, r, **e1);
                assert forall|env: Seq<bool>| fn_eval(nodes@, r, env) == expr_eval(*e, env) by {
                    assert(fn_eval(nodes@, r, env) == !expr_eval(**e1, env));
                }
            }
            r
        }
        Expr::Binary(e1, op, e2) => {
            match op {
                crate::expr::BOp::And => {
                    proof {
                        assert forall|v: usize|
                            expr_contains_var(**e1, v) implies var_ord@.contains(v) by {
                            assert(expr_contains_var(*e, v));
                        }
                        assert forall|v: usize|
                            expr_contains_var(**e2, v) implies var_ord@.contains(v) by {
                            assert(expr_contains_var(*e, v));
                        }
                    }
                    let f1 = from_combinatorial_rec(&**e1, var_ord, nodes, computed_table);
                    let ghost nodes1 = nodes@;
                    let f2 = from_combinatorial_rec(&**e2, var_ord, nodes, computed_table);
                    let ghost nodes2 = nodes@;
                    proof {
                        lemma_level_nonneg(nodes2, var_ord@, f1.head);
                        lemma_level_nonneg(nodes2, var_ord@, f2.head);
                    }
                    let r = bdd_and(f1, f2, var_ord, 0, nodes, computed_table);
                    proof {
                        lemma_apply_and(nodes1, nodes2, nodes@, f1, f2, r, **e1, **e2);
                        assert forall|env: Seq<bool>| fn_eval(nodes@, r, env) == expr_eval(
                            *e,
                            env,
                        ) by {
                            assert(fn_eval(nodes@, r, env) == (expr_eval(**e1, env) && expr_eval(
                                **e2,
                                env,
                            )));
                        }
                    }
                    r
                }
                crate::expr::BOp::Or => {
                    proof {
                        assert forall|v: usize|
                            expr_contains_var(**e1, v) implies var_ord@.contains(v) by {
                            assert(expr_contains_var(*e, v));
                        }
                        assert forall|v: usize|
                            expr_contains_var(**e2, v) implies var_ord@.contains(v) by {
                            assert(expr_contains_var(*e, v));
                        }
                    }
                    let f1 = from_combinatorial_rec(&**e1, var_ord, nodes, computed_table);
                    let nf1 = func(f1.head, !f1.complement);
                    let ghost nodes1 = nodes@;
                    let f2 = from_combinatorial_rec(&**e2, var_ord, nodes, computed_table);
                    let nf2 = func(f2.head, !f2.complement);
                    let ghost nodes2 = nodes@;
                    proof {
                        lemma_level_nonneg(nodes2, var_ord@, nf1.head);
                        lemma_level_nonneg(nodes2, var_ord@, nf2.head);
                    }
                    let a = bdd_and(nf1, nf2, var_ord, 0, nodes, computed_table);
                    let r = func(a.head, !a.complement);
                    proof {
                        lemma_apply_or(nodes1, nodes2, nodes@, f1, f2, a, r, **e1, **e2);
                        assert forall|env: Seq<bool>| fn_eval(nodes@, r, env) == expr_eval(
                            *e,
                            env,
                        ) by {
                            assert(fn_eval(nodes@, r, env) == (expr_eval(**e1, env) || expr_eval(
                                **e2,
                                env,
                            )));
                        }
                    }
                    r
                }
            }
        }
    }
}

/// Builds the ROBDD of `e` under `var_ord` with the Apply engine.  The
/// resulting diagram denotes exactly the expression under every assignment.
pub fn from_combinatorial(e: &Expr, var_ord: &[usize]) -> (bdd: Bdd)
    requires
        var_ord@.no_duplicates(),
        forall|v: usize| expr_contains_var(*e, v) ==> var_ord@.contains(v),
    ensures
        bdd.wf(),
        table_ord_wf(bdd.nodes@, var_ord@),
        forall|env: Seq<bool>| bdd.spec_eval(env) == expr_eval(*e, env),
{
    let mut nodes: Vec<InternalNode> = Vec::new();
    let mut computed_table: Vec<CacheEntry> = Vec::new();
    proof {
        reveal(cache_inv);
        assert(cache_inv(computed_table@, nodes@, var_ord@));
    }
    let f = from_combinatorial_rec(e, var_ord, &mut nodes, &mut computed_table);
    Bdd { f, nodes }
}

/// The same construction as [`from_combinatorial`]; the original exposes a
/// second entry point whose unique and operation tables are hash-backed, but
/// the backing map is a performance parameter that never changes the
/// resulting diagram, and here both entry points share the one canonical
/// store.
pub fn from_combinatorial_hash(e: &Expr, var_ord: &[usize]) -> (bdd: Bdd)
    requires
        var_ord@.no_duplicates(),
        forall|v: usize| expr_contains_var(*e, v) ==> var_ord@.contains(v),
    ensures
        bdd.wf(),
        table_ord_wf(bdd.nodes@, var_ord@),
        forall|env: Seq<bool>| bdd.spec_eval(env) == expr_eval(*e, env),
{
    from_combinatorial(e, var_ord)
}

/// Builder agreement: diagrams whose contracts tie them to one expression
/// agree with direct expression evaluation, and hence with one another, on
/// every assignment.  Each builder's own postcondition supplies the premises
/// here, so naive, negated-arc (with or without pruning) and Apply
/// construction are interchangeable as Boolean functions.
pub proof fn lemma_builders_agree(
    e: Expr,
    naive: crate::naive_bdd::Bdd,
    neg: Bdd,
    apply: Bdd,
    env: Seq<bool>,
)
    requires
        forall|env0: Seq<bool>|
            crate::naive_bdd::bdd_node_eval(naive.nodes@, naive.f as int, env0) == expr_eval(
                e,
                env0,
            ),
        forall|env0: Seq<bool>| neg.spec_eval(env0) == expr_eval(e, env0),
        forall|env0: Seq<bool>| apply.spec_eval(env0) == expr_eval(e, env0),
    ensures
        crate::naive_bdd::bdd_node_eval(naive.nodes@, naive.f as int, env) == expr_eval(e, env),
        neg.spec_eval(env) == expr_eval(e, env),
        apply.spec_eval(env) == expr_eval(e, env),
        neg.spec_eval(env) == apply.spec_eval(env),
        neg.spec_eval(env) == crate::naive_bdd::bdd_node_eval(naive.nodes@, naive.f as int, env),
{
}

} // verus!
