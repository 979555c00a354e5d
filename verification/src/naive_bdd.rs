//! Naive ROBDD builder: full Shannon expansion over the variable order, two
//! physical terminals, hash-consing through a canonical node store, no
//! pruning.  Serves as the semantic baseline the other builders are checked
//! against.

use vstd::pervasive::arbitrary;
use vstd::prelude::*;

use crate::expr::eval;
use crate::expr::lemma_vars_lt_intro;
use crate::expr::Env;
use crate::expr::expr_contains_var;
use crate::expr::expr_eval;
use crate::expr::expr_vars_lt;
use crate::expr::lemma_expr_eval_agree;
use crate::expr::lemma_vars_lt_contains;
use crate::expr::Expr;

verus! {

pub type NodeIdx = usize;

/// A node of the naive diagram: an internal decision node or one of the two
/// physical terminals.
#[derive(Clone, Debug, PartialEq, Eq, Structural)]
pub enum BddNode {
    Internal { label: usize, t_arc: NodeIdx, e_arc: NodeIdx },
    Terminal(bool),
}

/// A built diagram: a root index into an append-only node table.
#[derive(Debug)]
pub struct Bdd {
    /// Index of the root node.
    pub f: usize,
    /// The node table; arcs always point to earlier entries.
    pub nodes: Vec<BddNode>,
}

/// An internal node may only reference strictly earlier table entries; this
/// is what makes the diagram acyclic.
pub open spec fn node_wf(n: BddNode, i: int) -> bool {
    match n {
        BddNode::Internal { label, t_arc, e_arc } => (t_arc as int) < i && (e_arc as int) < i,
        BddNode::Terminal(_) => true,
    }
}

/// Every node of the table references only earlier entries.
pub open spec fn table_wf(nodes: Seq<BddNode>) -> bool {
    forall|i: int| 0 <= i < nodes.len() ==> node_wf(#[trigger] nodes[i], i)
}

/// Hash-consing invariant: no two table entries hold the same description.
pub open spec fn table_unique(nodes: Seq<BddNode>) -> bool {
    forall|i: int, j: int| 0 <= i < j < nodes.len() ==> nodes[i] != nodes[j]
}

/// Reduction invariant: an internal node's branches differ; a node whose
/// branches coincide is never created, the shared branch is returned
/// directly.
pub open spec fn table_reduced(nodes: Seq<BddNode>) -> bool {
    forall|i: int|
        0 <= i < nodes.len() ==> match #[trigger] nodes[i] {
            BddNode::Internal { t_arc, e_arc, .. } => t_arc != e_arc,
            BddNode::Terminal(_) => true,
        }
}

/// Every internal node's variable is below `n`.
pub open spec fn table_labels_lt(nodes: Seq<BddNode>, n: int) -> bool {
    forall|i: int| 0 <= i < nodes.len() ==> match #[trigger] nodes[i] {
        BddNode::Internal { label, .. } => (label as int) < n,
        BddNode::Terminal(_) => true,
    }
}

/// The Boolean function denoted by table entry `i` under assignment `env`:
/// follow the then-arc where the node's variable is true, the else-arc where
/// it is false, until a terminal is reached.
pub open spec fn bdd_node_eval(nodes: Seq<BddNode>, i: int, env: Seq<bool>) -> bool
    decreases i,
{
    if 0 <= i < nodes.len() {
        match nodes[i] {
            BddNode::Terminal(b) => b,
            BddNode::Internal { label, t_arc, e_arc } => {
                if (t_arc as int) < i && (e_arc as int) < i {
                    if env[label as int] {
                        bdd_node_eval(nodes, t_arc as int, env)
                    } else {
                        bdd_node_eval(nodes, e_arc as int, env)
                    }
                } else {
                    arbitrary()
                }
            },
        }
    } else {
        arbitrary()
    }
}

/// A diagram's denotation is unchanged when the table grows: evaluation of an
/// existing entry never looks at later entries.
pub proof fn lemma_bdd_eval_prefix(small: Seq<BddNode>, big: Seq<BddNode>, i: int, env: Seq<bool>)
    requires
        small.len() <= big.len(),
        forall|j: int| 0 <= j < small.len() ==> small[j] == big[j],
        0 <= i < small.len(),
    ensures
        bdd_node_eval(big, i, env) == bdd_node_eval(small, i, env),
    decreases i,
{
    match small[i] {
        BddNode::Terminal(_) => {}
        BddNode::Internal { label, t_arc, e_arc } => {
            if (t_arc as int) < i && (e_arc as int) < i {
                if env[label as int] {
                    lemma_bdd_eval_prefix(small, big, t_arc as int, env);
                } else {
                    lemma_bdd_eval_prefix(small, big, e_arc as int, env);
                }
            }
        }
    }
}

/// Returns the index of the unique table entry equal to `n`, appending `n`
/// only when no such entry exists yet.  This is the hash-consing choke point:
/// one physical node per distinct description.
fn intern(nodes: &mut Vec<BddNode>, n: BddNode) -> (i: usize)
    requires
        table_wf(old(nodes)@),
        table_unique(old(nodes)@),
        table_reduced(old(nodes)@),
        node_wf(n, old(nodes)@.len() as int),
        n matches BddNode::Internal { t_arc, e_arc, .. } ==> t_arc != e_arc,
    ensures
        table_wf(final(nodes)@),
        table_unique(final(nodes)@),
        table_reduced(final(nodes)@),
        (i as int) < final(nodes)@.len(),
        final(nodes)@[i as int] == n,
        final(nodes)@ == old(nodes)@ || final(nodes)@ == old(nodes)@.push(n),
        (exists|k: int| 0 <= k < old(nodes)@.len() && old(nodes)@[k] == n)
            ==> final(nodes)@ == old(nodes)@,
{
    let len = nodes.len();
    let mut j: usize = 0;
    while j < len
        invariant
            nodes@ == old(nodes)@,
            table_wf(nodes@),
            table_unique(nodes@),
            table_reduced(nodes@),
            len == nodes@.len(),
            j <= len,
            forall|k: int| 0 <= k < j ==> nodes@[k] != n,
        decreases len - j,
    {
        if nodes[j] == n {
            return j;
        }
        j += 1;
    }
    nodes.push(n);
    len
}

/// Whether `v` occurs in the order at position `d` or later.
pub open spec fn in_tail(ord: Seq<usize>, d: int, v: usize) -> bool {
    exists|i: int| d <= i < ord.len() && ord[i] == v
}

/// `env` agrees with the partial path assignment `cof` at every variable of
/// `e` that the remaining order (from position `d` on) can no longer touch.
pub open spec fn env_agrees(
    env: Seq<bool>,
    cof: Seq<bool>,
    ord: Seq<usize>,
    d: int,
    e: Expr,
) -> bool {
    forall|v: usize|
        expr_contains_var(e, v) && (v as int) < cof.len() && !in_tail(ord, d, v) ==> env[v as int]
            == cof[v as int]
}

/// Recursive Shannon expansion over the order tail starting at `d`: builds
/// (or finds) the node denoting `e` restricted by the path assignment.
fn from_rec(e: &Expr, var_ord: &[usize], d: usize, cof_asgn: &mut Vec<bool>, nodes: &mut Vec<
    BddNode,
>) -> (ret: usize)
    requires
        d <= var_ord@.len(),
        forall|k: int| 0 <= k < var_ord@.len() ==> (var_ord@[k] as int) < old(cof_asgn)@.len(),
        expr_vars_lt(*e, old(cof_asgn)@.len() as int),
        table_wf(old(nodes)@),
        table_unique(old(nodes)@),
        table_reduced(old(nodes)@),
        table_labels_lt(old(nodes)@, old(cof_asgn)@.len() as int),
    ensures
        final(cof_asgn)@.len() == old(cof_asgn)@.len(),
        forall|v: usize|
            (v as int) < final(cof_asgn)@.len() && !in_tail(var_ord@, d as int, v)
                ==> final(cof_asgn)@[v as int] == old(cof_asgn)@[v as int],
        table_wf(final(nodes)@),
        table_unique(final(nodes)@),
        table_reduced(final(nodes)@),
        table_labels_lt(final(nodes)@, final(cof_asgn)@.len() as int),
        old(nodes)@.len() <= final(nodes)@.len(),
        forall|j: int| 0 <= j < old(nodes)@.len() ==> old(nodes)@[j] == final(nodes)@[j],
        (ret as int) < final(nodes)@.len(),
        forall|env: Seq<bool>|
            env_agrees(env, old(cof_asgn)@, var_ord@, d as int, *e) ==> bdd_node_eval(
                final(nodes)@,
                ret as int,
                env,
            ) == expr_eval(*e, env),
    decreases var_ord@.len() - d,
{
    if d == var_ord.len() {
        let b = eval(e, cof_asgn);
        let ret = intern(nodes, BddNode::Terminal(b));
        proof {
            assert forall|env: Seq<bool>|
                env_agrees(env, old(cof_asgn)@, var_ord@, d as int, *e) implies bdd_node_eval(
                nodes@,
                ret as int,
                env,
            ) == expr_eval(*e, env) by {
                assert forall|v: usize| expr_contains_var(*e, v) implies env[v as int] == old(
                    cof_asgn,
                )@[v as int] by {
                    lemma_vars_lt_contains(*e, old(cof_asgn)@.len() as int, v);
                    assert(!in_tail(var_ord@, d as int, v));
                }
                lemma_expr_eval_agree(*e, env, old(cof_asgn)@);
            }
        }
        ret
    } else {
        let ghost cof0 = cof_asgn@;
        let ghost nodes0 = nodes@;
        let x = var_ord[d];
        cof_asgn.set(x, false);
        let ghost c1 = cof_asgn@;
        let neg = from_rec(e, var_ord, d + 1, cof_asgn, nodes);
        let ghost nodes1 = nodes@;
        cof_asgn.set(x, true);
        let ghost c3 = cof_asgn@;
        let pos = from_rec(e, var_ord, d + 1, cof_asgn, nodes);
        let ghost nodes2 = nodes@;
        proof {
            assert(in_tail(var_ord@, d as int, x)) by {
                assert(var_ord@[d as int] == x);
            }
            assert forall|v: usize|
                (v as int) < cof_asgn@.len() && !in_tail(var_ord@, d as int, v) implies cof_asgn@[v
                as int] == cof0[v as int] by {
                assert(v != x);
                assert(!in_tail(var_ord@, d as int + 1, v));
            }
        }
        let ret = if neg == pos {
            neg
        } else {
            intern(
                nodes,
                BddNode::Internal { label: x, t_arc: pos, e_arc: neg },
            )
        };
        proof {
            let dd = d as int;
            assert forall|env: Seq<bool>|
                env_agrees(env, cof0, var_ord@, dd, *e) implies bdd_node_eval(
                nodes@,
                ret as int,
                env,
            ) == expr_eval(*e, env) by {
                if env[x as int] {
                    assert(env_agrees(env, c3, var_ord@, dd + 1, *e)) by {
                        assert forall|v: usize|
                            expr_contains_var(*e, v) && (v as int) < c3.len() && !in_tail(
                                var_ord@,
                                dd + 1,
                                v,
                            ) implies env[v as int] == c3[v as int] by {
                            if v == x {
                            } else {
                                assert(!in_tail(var_ord@, dd, v));
                            }
                        }
                    }
                    assert(bdd_node_eval(nodes2, pos as int, env) == expr_eval(*e, env));
                    lemma_bdd_eval_prefix(nodes2, nodes@, pos as int, env);
                } else {
                    assert(env_agrees(env, c1, var_ord@, dd + 1, *e)) by {
                        assert forall|v: usize|
                            expr_contains_var(*e, v) && (v as int) < c1.len() && !in_tail(
                                var_ord@,
                                dd + 1,
                                v,
                            ) implies env[v as int] == c1[v as int] by {
                            if v == x {
                            } else {
                                assert(!in_tail(var_ord@, dd, v));
                            }
                        }
                    }
                    assert(bdd_node_eval(nodes1, neg as int, env) == expr_eval(*e, env));
                    lemma_bdd_eval_prefix(nodes1, nodes2, neg as int, env);
                    lemma_bdd_eval_prefix(nodes2, nodes@, neg as int, env);
                }
                if neg != pos {
                    assert(nodes@[ret as int] == (BddNode::Internal {
                        label: x,
                        t_arc: pos,
                        e_arc: neg,
                    }));
                    assert((pos as int) < ret as int && (neg as int) < ret as int) by {
                        assert(node_wf(nodes@[ret as int], ret as int));
                    }
                }
            }
        }
        ret
    }
}

/// Builds the naive ROBDD of `e` under `var_ord` by full Shannon expansion.
///
/// The order must mention every variable occurring in `e`, and its entries
/// must index into an assignment of the order's length.  The resulting
/// diagram denotes exactly the expression: it evaluates as `e` does under
/// every assignment.
pub fn from(e: &Expr, var_ord: &[usize]) -> (bdd: Bdd)
    requires
        forall|k: int| 0 <= k < var_ord@.len() ==> (var_ord@[k] as int) < var_ord@.len(),
        forall|v: usize| expr_contains_var(*e, v) ==> var_ord@.contains(v),
    ensures
        table_wf(bdd.nodes@),
        table_unique(bdd.nodes@),
        table_reduced(bdd.nodes@),
        table_labels_lt(bdd.nodes@, var_ord@.len() as int),
        (bdd.f as int) < bdd.nodes@.len(),
        forall|env: Seq<bool>|
            bdd_node_eval(bdd.nodes@, bdd.f as int, env) == expr_eval(*e, env),
{
    let n = var_ord.len();
    let mut cof_asgn: Vec<bool> = Vec::new();
    let mut i: usize = 0;
    while i < n
        invariant
            i <= n,
            cof_asgn@.len() == i as int,
        decreases n - i,
    {
        cof_asgn.push(false);
        i += 1;
    }
    proof {
        assert forall|v: usize| expr_contains_var(*e, v) implies (v as int) < n as int by {
            let k = choose|k: int| 0 <= k < var_ord@.len() && var_ord@[k] == v;
            assert((var_ord@[k] as int) < var_ord@.len());
        }
        lemma_vars_lt_intro(*e, n as int);
    }
    let mut nodes: Vec<BddNode> = Vec::new();
    let f = from_rec(e, var_ord, 0, &mut cof_asgn, &mut nodes);
    proof {
        assert forall|env: Seq<bool>| bdd_node_eval(nodes@, f as int, env) == expr_eval(
            *e,
            env,
        ) by {
            assert forall|v: usize|
                expr_contains_var(*e, v) && !in_tail(var_ord@, 0, v) implies false by {
                assert(var_ord@.contains(v));
                let k = choose|k: int| 0 <= k < var_ord@.len() && var_ord@[k] == v;
                assert(in_tail(var_ord@, 0, v));
            }
        }
    }
    Bdd { f, nodes }
}

/// The same construction as [`from`]; the original exposes a second entry
/// point whose intern index is backed by an ordered map, but the backing map
/// is a performance parameter that never changes the resulting diagram, and
/// here both entry points share the one canonical store.
pub fn from_btree_mem(e: &Expr, var_ord: &[usize]) -> (bdd: Bdd)
    requires
        forall|k: int| 0 <= k < var_ord@.len() ==> (var_ord@[k] as int) < var_ord@.len(),
        forall|v: usize| expr_contains_var(*e, v) ==> var_ord@.contains(v),
    ensures
        table_wf(bdd.nodes@),
        table_unique(bdd.nodes@),
        table_reduced(bdd.nodes@),
        table_labels_lt(bdd.nodes@, var_ord@.len() as int),
        (bdd.f as int) < bdd.nodes@.len(),
        forall|env: Seq<bool>|
            bdd_node_eval(bdd.nodes@, bdd.f as int, env) == expr_eval(*e, env),
{
    from(e, var_ord)
}

impl Bdd {
    /// Evaluates the diagram under a full assignment by walking arcs from
    /// the root: the result equals the denoted Boolean function at `env`.
    pub fn eval(&self, env: &Env) -> (r: bool)
        requires
            table_wf(self.nodes@),
            table_labels_lt(self.nodes@, env@.len() as int),
            (self.f as int) < self.nodes@.len(),
        ensures
            r == bdd_node_eval(self.nodes@, self.f as int, env@),
    {
        let mut next_idx = self.f;
        loop
            invariant
                table_wf(self.nodes@),
                table_labels_lt(self.nodes@, env@.len() as int),
                (next_idx as int) < self.nodes@.len(),
                bdd_node_eval(self.nodes@, next_idx as int, env@) == bdd_node_eval(
                    self.nodes@,
                    self.f as int,
                    env@,
                ),
            decreases next_idx,
        {
            match &self.nodes[next_idx] {
                BddNode::Internal { label, t_arc, e_arc } => {
                    proof {
                        assert(node_wf(self.nodes@[next_idx as int], next_idx as int));
                    }
                    next_idx = if env[*label] {
                        *t_arc
                    } else {
                        *e_arc
                    };
                }
                BddNode::Terminal(b) => {
                    return *b;
                }
            }
        }
    }
}

/// Hash-consing canonicity: within one node store satisfying the uniqueness
/// invariant, two structurally identical node descriptions never sit at
/// distinct indices.
pub proof fn lemma_hash_consing_canonicity(nodes: Seq<BddNode>, i: int, j: int)
    requires
        table_unique(nodes),
        0 <= i < nodes.len(),
        0 <= j < nodes.len(),
        nodes[i] == nodes[j],
    ensures
        i == j,
{
}

} // verus!
