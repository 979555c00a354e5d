//! Negated-arc ROBDD builder: a single sentinel terminal, with falsity
//! expressed by a complement bit on the referencing edge.  Only else-edges of
//! stored nodes may carry a complement bit; a complemented then-cofactor is
//! hoisted onto the whole function reference at a single normalization choke
//! point shared by every builder variant.  Three pruning variants decide,
//! through a three-valued support algebra, whether a variable can still
//! affect the expression under the current partial path, and skip it when it
//! cannot.

use vstd::pervasive::arbitrary;
use vstd::prelude::*;
use vstd::string::StrSliceExecFns;
use vstd::string::StringExecFns;

use crate::expr::eval;
use crate::expr::expr_contains_var;
use crate::expr::expr_eval;
use crate::expr::expr_vars_lt;
use crate::expr::lemma_expr_eval_agree;
use crate::expr::lemma_vars_lt_contains;
use crate::expr::lemma_vars_lt_intro;
use crate::expr::eval_partial;
use crate::expr::eval_partialbtree;
use crate::expr::padded_env;
use crate::expr::Env;
use crate::expr::Expr;
use crate::expr::PartialEnv;
use crate::expr::PartialEnvBTree;
use crate::naive_bdd::env_agrees;
use crate::naive_bdd::in_tail;

verus! {

pub type NodeIdx = usize;

/// The sentinel index of the unique terminal; it denotes truth when reached
/// with an even number of complement bits.
#[allow(non_upper_case_globals)]
pub const term: usize = usize::MAX;

/// An internal node: "if `label` then `t_arc` else (possibly complemented)
/// `e_arc`".  Only the else-arc may carry a complement bit.
#[derive(Clone, Debug, PartialEq, Eq, Structural)]
pub struct InternalNode {
    pub label: usize,
    pub t_arc: NodeIdx,
    pub e_arc: NodeIdx,
    pub e_complement: bool,
}

/// A function reference: a node index paired with a complement bit.  This is
/// the unit of composition; equality of references is equality of these two
/// fields, never a diagram traversal.
#[derive(Clone, Copy, Debug, PartialEq, Eq, Structural)]
pub struct FunctionNode {
    pub head: NodeIdx,
    pub complement: bool,
}

/// A built diagram: a root reference into an append-only node table.
#[derive(Debug)]
pub struct Bdd {
    pub f: FunctionNode,
    pub nodes: Vec<InternalNode>,
}

/// An arc either reaches the terminal or points strictly earlier in the
/// table; this is what makes diagrams acyclic.
pub open spec fn arc_wf(a: usize, i: int) -> bool {
    a == term || (a as int) < i
}

/// Every node of the table references only the terminal or earlier entries.
pub open spec fn table_wf(nodes: Seq<InternalNode>) -> bool {
    forall|i: int|
        0 <= i < nodes.len() ==> arc_wf(#[trigger] nodes[i].t_arc, i) && arc_wf(nodes[i].e_arc, i)
}

/// Hash-consing invariant: no two table entries hold the same description.
pub open spec fn table_unique(nodes: Seq<InternalNode>) -> bool {
    forall|i: int, j: int| 0 <= i < j < nodes.len() ==> nodes[i] != nodes[j]
}

/// Reduction invariant: a stored node's branches differ.  With a complement
/// bit the two arcs may share a head, but then the else-edge must carry the
/// bit; a node whose branches were equal as function references is never
/// created.
pub open spec fn table_reduced(nodes: Seq<InternalNode>) -> bool {
    forall|i: int|
        0 <= i < nodes.len() ==> ((#[trigger] nodes[i].t_arc) == nodes[i].e_arc
            ==> nodes[i].e_complement)
}

/// Every node's variable is below `n`.
pub open spec fn table_labels_lt(nodes: Seq<InternalNode>, n: int) -> bool {
    forall|i: int| 0 <= i < nodes.len() ==> (#[trigger] nodes[i].label as int) < n
}

/// A function reference points at the terminal or into the table.
pub open spec fn fref_wf(nodes: Seq<InternalNode>, f: FunctionNode) -> bool {
    f.head == term || (f.head as int) < nodes.len()
}

/// Termination measure for walks over a well-formed table.
pub open spec fn fn_measure(h: usize) -> int {
    if h == term {
        0
    } else {
        h as int + 1
    }
}

/// The position of a head in the order: the terminal sits below every
/// variable, an internal node at the position of its label.
pub open spec fn level(nodes: Seq<InternalNode>, ord: Seq<usize>, h: usize) -> int {
    if h == term {
        ord.len() as int
    } else {
        ord.index_of(nodes[h as int].label)
    }
}

/// Ordering invariant relative to `ord`: every node is labelled by an order
/// variable, and its arcs lead to strictly later levels.
pub open spec fn table_ord_wf(nodes: Seq<InternalNode>, ord: Seq<usize>) -> bool {
    forall|i: int|
        0 <= i < nodes.len() ==> {
            &&& ord.contains(#[trigger] nodes[i].label)
            &&& level(nodes, ord, nodes[i].t_arc) > ord.index_of(nodes[i].label)
            &&& level(nodes, ord, nodes[i].e_arc) > ord.index_of(nodes[i].label)
        }
}

/// The Boolean function denoted by the reference `f` under assignment `env`:
/// walk arcs, accumulating complement bits from else-edges, and negate the
/// terminal's truth by the accumulated bit.
pub open spec fn fn_eval(nodes: Seq<InternalNode>, f: FunctionNode, env: Seq<bool>) -> bool
    decreases fn_measure(f.head),
{
    if f.head == term {
        !f.complement
    } else if (f.head as int) < nodes.len() {
        let nd = nodes[f.head as int];
        if arc_wf(nd.t_arc, f.head as int) && arc_wf(nd.e_arc, f.head as int) {
            if env[nd.label as int] {
                fn_eval(nodes, FunctionNode { head: nd.t_arc, complement: f.complement }, env)
            } else {
                fn_eval(
                    nodes,
                    FunctionNode { head: nd.e_arc, complement: f.complement ^ nd.e_complement },
                    env,
                )
            }
        } else {
            arbitrary()
        }
    } else {
        arbitrary()
    }
}

/// A reference's denotation is unchanged when the table grows.
pub proof fn lemma_fn_eval_prefix(
    small: Seq<InternalNode>,
    big: Seq<InternalNode>,
    f: FunctionNode,
    env: Seq<bool>,
)
    requires
        small.len() <= big.len(),
        forall|j: int| 0 <= j < small.len() ==> small[j] == big[j],
        fref_wf(small, f),
    ensures
        fn_eval(big, f, env) == fn_eval(small, f, env),
    decreases fn_measure(f.head),
{
    if f.head != term {
        let nd = small[f.head as int];
        if arc_wf(nd.t_arc, f.head as int) && arc_wf(nd.e_arc, f.head as int) {
            if env[nd.label as int] {
                lemma_fn_eval_prefix(
                    small,
                    big,
                    FunctionNode { head: nd.t_arc, complement: f.complement },
                    env,
                );
            } else {
                lemma_fn_eval_prefix(
                    small,
                    big,
                    FunctionNode { head: nd.e_arc, complement: f.complement ^ nd.e_complement },
                    env,
                );
            }
        }
    }
}

/// Flipping a reference's complement bit negates its denotation.
pub proof fn lemma_fn_eval_complement(nodes: Seq<InternalNode>, f: FunctionNode, env: Seq<bool>)
    requires
        table_wf(nodes),
        fref_wf(nodes, f),
    ensures
        fn_eval(nodes, FunctionNode { head: f.head, complement: !f.complement }, env) == !fn_eval(
            nodes,
            f,
            env,
        ),
    decreases fn_measure(f.head),
{
    if f.head != term {
        let nd = nodes[f.head as int];
        if env[nd.label as int] {
            lemma_fn_eval_complement(
                nodes,
                FunctionNode { head: nd.t_arc, complement: f.complement },
                env,
            );
        } else {
            lemma_fn_eval_complement(
                nodes,
                FunctionNode { head: nd.e_arc, complement: f.complement ^ nd.e_complement },
                env,
            );
        }
    }
}

/// Two assignments that agree on every order variable from position `d` on
/// give a reference of level at least `d` the same denotation: a diagram
/// never reads below its own level.
pub proof fn lemma_fn_eval_env_agree(
    nodes: Seq<InternalNode>,
    ord: Seq<usize>,
    f: FunctionNode,
    env1: Seq<bool>,
    env2: Seq<bool>,
    d: int,
)
    requires
        table_wf(nodes),
        table_ord_wf(nodes, ord),
        fref_wf(nodes, f),
        level(nodes, ord, f.head) >= d,
        forall|j: int| d <= j < ord.len() ==> env1[#[trigger] ord[j] as int] == env2[ord[j] as int],
    ensures
        fn_eval(nodes, f, env1) == fn_eval(nodes, f, env2),
    decreases fn_measure(f.head),
{
    if f.head != term {
        let nd = nodes[f.head as int];
        let p = ord.index_of(nd.label);
        assert(ord.contains(nd.label));
        assert(0 <= p < ord.len() && ord[p] == nd.label);
        assert(env1[nd.label as int] == env2[nd.label as int]);
        if env1[nd.label as int] {
            lemma_fn_eval_env_agree(
                nodes,
                ord,
                FunctionNode { head: nd.t_arc, complement: f.complement },
                env1,
                env2,
                d,
            );
        } else {
            lemma_fn_eval_env_agree(
                nodes,
                ord,
                FunctionNode { head: nd.e_arc, complement: f.complement ^ nd.e_complement },
                env1,
                env2,
                d,
            );
        }
    }
}

/// In an order-respecting table whose order variables are below `n`, every
/// label is below `n`.
pub proof fn lemma_labels_lt_from_ord(nodes: Seq<InternalNode>, ord: Seq<usize>, n: int)
    requires
        table_ord_wf(nodes, ord),
        forall|k: int| 0 <= k < ord.len() ==> (ord[k] as int) < n,
    ensures
        table_labels_lt(nodes, n),
{
    assert forall|i: int| 0 <= i < nodes.len() implies (#[trigger] nodes[i].label as int) < n by {
        assert(ord.contains(nodes[i].label));
        let k = choose|k: int| 0 <= k < ord.len() && ord[k] == nodes[i].label;
        assert((ord[k] as int) < n);
    }
}

/// Appending a fresh node whose arcs respect the table keeps every table
/// invariant.
proof fn lemma_table_push(small: Seq<InternalNode>, n: InternalNode, ord: Seq<usize>)
    requires
        table_wf(small),
        table_unique(small),
        table_reduced(small),
        table_ord_wf(small, ord),
        forall|k: int| 0 <= k < small.len() ==> small[k] != n,
        arc_wf(n.t_arc, small.len() as int),
        arc_wf(n.e_arc, small.len() as int),
        n.t_arc == n.e_arc ==> n.e_complement,
        ord.contains(n.label),
        level(small, ord, n.t_arc) > ord.index_of(n.label),
        level(small, ord, n.e_arc) > ord.index_of(n.label),
    ensures
        table_wf(small.push(n)),
        table_unique(small.push(n)),
        table_reduced(small.push(n)),
        table_ord_wf(small.push(n), ord),
{
    assert forall|i: int|
        0 <= i < small.push(n).len() implies ((#[trigger] small.push(n)[i].t_arc) == small.push(
        n,
    )[i].e_arc ==> small.push(n)[i].e_complement) by {
        if i < small.len() {
            assert(small.push(n)[i] == small[i]);
            assert(small[i].t_arc == small[i].e_arc ==> small[i].e_complement);
        } else {
            assert(small.push(n)[i] == n);
        }
    }
    let big = small.push(n);
    assert forall|i: int|
        0 <= i < big.len() implies arc_wf(#[trigger] big[i].t_arc, i) && arc_wf(
        big[i].e_arc,
        i,
    ) by {
        if i < small.len() {
            assert(big[i] == small[i]);
            assert(arc_wf(small[i].t_arc, i) && arc_wf(small[i].e_arc, i));
        } else {
            assert(big[i] == n);
        }
    }
    assert forall|i: int, j: int| 0 <= i < j < big.len() implies big[i] != big[j] by {
        if j < small.len() {
            assert(small[i] != small[j]);
        } else {
            assert(big[j] == n && big[i] == small[i]);
        }
    }
    assert forall|i: int|
        0 <= i < big.len() implies {
        &&& ord.contains(#[trigger] big[i].label)
        &&& level(big, ord, big[i].t_arc) > ord.index_of(big[i].label)
        &&& level(big, ord, big[i].e_arc) > ord.index_of(big[i].label)
    } by {
        if i < small.len() {
            assert(big[i] == small[i]);
            assert(ord.contains(small[i].label));
            assert(level(small, ord, small[i].t_arc) > ord.index_of(small[i].label));
            assert(level(small, ord, small[i].e_arc) > ord.index_of(small[i].label));
            assert(arc_wf(small[i].t_arc, i) && arc_wf(small[i].e_arc, i));
            assert(level(big, ord, small[i].t_arc) == level(small, ord, small[i].t_arc));
            assert(level(big, ord, small[i].e_arc) == level(small, ord, small[i].e_arc));
        } else {
            assert(big[i] == n);
            assert(level(big, ord, n.t_arc) == level(small, ord, n.t_arc));
            assert(level(big, ord, n.e_arc) == level(small, ord, n.e_arc));
        }
    }
}

/// Returns the index of the unique table entry equal to `n`, appending `n`
/// only when no such entry exists yet: one physical node per description.
fn intern(nodes: &mut Vec<InternalNode>, n: InternalNode, Ghost(ord): Ghost<Seq<usize>>) -> (i:
    usize)
    requires
        table_wf(old(nodes)@),
        table_unique(old(nodes)@),
        table_reduced(old(nodes)@),
        table_ord_wf(old(nodes)@, ord),
        arc_wf(n.t_arc, old(nodes)@.len() as int),
        arc_wf(n.e_arc, old(nodes)@.len() as int),
        n.t_arc == n.e_arc ==> n.e_complement,
        ord.contains(n.label),
        level(old(nodes)@, ord, n.t_arc) > ord.index_of(n.label),
        level(old(nodes)@, ord, n.e_arc) > ord.index_of(n.label),
    ensures
        table_wf(final(nodes)@),
        table_unique(final(nodes)@),
        table_reduced(final(nodes)@),
        table_ord_wf(final(nodes)@, ord),
        (i as int) < final(nodes)@.len(),
        i != term,
        final(nodes)@[i as int] == n,
        final(nodes)@ == old(nodes)@ || final(nodes)@ == old(nodes)@.push(n),
        (exists|k: int| 0 <= k < old(nodes)@.len() && old(nodes)@[k] == n)
            ==> final(nodes)@ == old(nodes)@,
{
    let len = nodes.len();
    let mut j: usize = 0;
    while j < len
        invariant
            nodes@ == old(nodes)@,
            table_wf(nodes@),
            table_unique(nodes@),
            table_reduced(nodes@),
            table_ord_wf(nodes@, ord),
            len == nodes@.len(),
            j <= len,
            forall|k: int| 0 <= k < j ==> nodes@[k] != n,
        decreases len - j,
    {
        if nodes[j] == n {
            return j;
        }
        j += 1;
    }
    nodes.push(n);
    let new_len = nodes.len();
    proof {
        assert(new_len as int == old(nodes)@.len() + 1);
        assert(len < new_len);
        assert(len != term);
        lemma_table_push(old(nodes)@, n, ord);
        assert(nodes@ == old(nodes)@.push(n));
    }
    len
}

/// The single normalization choke point shared by every builder variant.
///
/// Given the then- and else-cofactor references of a prospective node over
/// the variable `x` (standing at position `d` of the order), it applies the
/// reduction rule (equal cofactors collapse to either) and the complement
/// normalization (a complemented then-cofactor is hoisted onto the returned
/// reference and XORed into the else bit), then interns the description.
/// The returned reference denotes "if `x` then `t` else `e`".
pub(crate) fn unique_insert(
    x: usize,
    t: FunctionNode,
    e: FunctionNode,
    nodes: &mut Vec<InternalNode>,
    Ghost(ord): Ghost<Seq<usize>>,
    Ghost(d): Ghost<int>,
) -> (r: FunctionNode)
    requires
        table_wf(old(nodes)@),
        table_unique(old(nodes)@),
        table_reduced(old(nodes)@),
        table_ord_wf(old(nodes)@, ord),
        ord.no_duplicates(),
        0 <= d < ord.len(),
        ord[d] == x,
        fref_wf(old(nodes)@, t),
        fref_wf(old(nodes)@, e),
        level(old(nodes)@, ord, t.head) > d,
        level(old(nodes)@, ord, e.head) > d,
    ensures
        table_wf(final(nodes)@),
        table_unique(final(nodes)@),
        table_reduced(final(nodes)@),
        table_ord_wf(final(nodes)@, ord),
        old(nodes)@.len() <= final(nodes)@.len(),
        forall|j: int| 0 <= j < old(nodes)@.len() ==> old(nodes)@[j] == final(nodes)@[j],
        fref_wf(final(nodes)@, r),
        level(final(nodes)@, ord, r.head) >= d,
        t == e ==> final(nodes)@ == old(nodes)@ && r == t,
        forall|env: Seq<bool>|
            fn_eval(final(nodes)@, r, env) == if env[x as int] {
                fn_eval(old(nodes)@, t, env)
            } else {
                fn_eval(old(nodes)@, e, env)
            },
{
    if t == e {
        return t;
    }
    let (complement, e_complement) = if t.complement {
        (true, !e.complement)
    } else {
        (false, e.complement)
    };
    let node = InternalNode { label: x, t_arc: t.head, e_arc: e.head, e_complement };
    proof {
        assert(node.t_arc == node.e_arc ==> node.e_complement) by {
            if t.head == e.head {
                assert(t.complement != e.complement);
            }
        }
        assert(ord.contains(x)) by {
            assert(ord[d] == x);
        }
        assert(ord.index_of(x) == d) by {
            let p = ord.index_of(x);
            assert(0 <= p < ord.len() && ord[p] == x);
            if p != d {
                assert(false);
            }
        }
    }
    let i = intern(nodes, node, Ghost(ord));
    let r = FunctionNode { head: i, complement };
    proof {
        let small = old(nodes)@;
        let big = nodes@;
        assert(level(big, ord, r.head) == d);
        assert forall|env: Seq<bool>|
            fn_eval(big, r, env) == (if env[x as int] {
                fn_eval(small, t, env)
            } else {
                fn_eval(small, e, env)
            }) by {
            assert(big[i as int] == node);
            assert(arc_wf(node.t_arc, i as int) && arc_wf(node.e_arc, i as int)) by {
                assert(arc_wf(big[i as int].t_arc, i as int) && arc_wf(big[i as int].e_arc, i as int));
            }
            if env[x as int] {
                assert(fn_eval(big, r, env) == fn_eval(
                    big,
                    FunctionNode { head: t.head, complement: t.complement },
                    env,
                ));
                lemma_fn_eval_prefix(small, big, t, env);
            } else {
                assert(complement ^ e_complement == e.complement);
                assert(fn_eval(big, r, env) == fn_eval(
                    big,
                    FunctionNode { head: e.head, complement: e.complement },
                    env,
                ));
                lemma_fn_eval_prefix(small, big, e, env);
            }
        }
    }
    r
}

impl Bdd {
    /// The diagram is well formed: acyclic table, hash-consed, root in range.
    pub open spec fn wf(self) -> bool {
        &&& table_wf(self.nodes@)
        &&& table_unique(self.nodes@)
        &&& table_reduced(self.nodes@)
        &&& fref_wf(self.nodes@, self.f)
    }

    /// The Boolean function this diagram denotes.
    pub open spec fn spec_eval(self, env: Seq<bool>) -> bool {
        fn_eval(self.nodes@, self.f, env)
    }

    /// Evaluates the diagram under a full assignment by walking arcs from the
    /// root while accumulating complement bits; pure, and pinned to the
    /// denoted function, so repeated calls with one assignment agree.
    pub fn eval(&self, env: &Env) -> (r: bool)
        requires
            self.wf(),
            table_labels_lt(self.nodes@, env@.len() as int),
        ensures
            r == self.spec_eval(env@),
    {
        let mut next_node = self.f.head;
        let mut complement = self.f.complement;
        while next_node != term
            invariant
                table_wf(self.nodes@),
                table_labels_lt(self.nodes@, env@.len() as int),
                fref_wf(self.nodes@, FunctionNode { head: next_node, complement }),
                fn_eval(self.nodes@, FunctionNode { head: next_node, complement }, env@)
                    == fn_eval(self.nodes@, self.f, env@),
            decreases fn_measure(next_node),
        {
            let node = &self.nodes[next_node];
            proof {
                assert(arc_wf(self.nodes@[next_node as int].t_arc, next_node as int) && arc_wf(
                    self.nodes@[next_node as int].e_arc,
                    next_node as int,
                ));
            }
            if env[node.label] {
                next_node = node.t_arc;
            } else {
                complement = complement ^ node.e_complement;
                next_node = node.e_arc;
            }
        }
        !complement
    }
}

/// Packs a head index and a complement bit into a function reference.
pub fn func(head: NodeIdx, complement: bool) -> (r: FunctionNode)
    ensures
        r == (FunctionNode { head, complement }),
{
    FunctionNode { head, complement }
}

/// Recursive negated-arc construction over the order tail starting at `d`:
/// returns a reference denoting `e` restricted by the path assignment.
#[verifier::rlimit(100)]
#[verifier::spinoff_prover]
fn from_rec(e: &Expr, var_ord: &[usize], d: usize, cof_asgn: &mut Vec<bool>, nodes: &mut Vec<
    InternalNode,
>) -> (r: FunctionNode)
    requires
        d <= var_ord@.len(),
        var_ord@.no_duplicates(),
        forall|k: int| 0 <= k < var_ord@.len() ==> (var_ord@[k] as int) < old(cof_asgn)@.len(),
        expr_vars_lt(*e, old(cof_asgn)@.len() as int),
        table_wf(old(nodes)@),
        table_unique(old(nodes)@),
        table_reduced(old(nodes)@),
        table_ord_wf(old(nodes)@, var_ord@),
    ensures
        final(cof_asgn)@.len() == old(cof_asgn)@.len(),
        forall|v: usize|
            (v as int) < final(cof_asgn)@.len() && !in_tail(var_ord@, d as int, v)
                ==> final(cof_asgn)@[v as int] == old(cof_asgn)@[v as int],
        table_wf(final(nodes)@),
        table_unique(final(nodes)@),
        table_reduced(final(nodes)@),
        table_ord_wf(final(nodes)@, var_ord@),
        old(nodes)@.len() <= final(nodes)@.len(),
        forall|j: int| 0 <= j < old(nodes)@.len() ==> old(nodes)@[j] == final(nodes)@[j],
        fref_wf(final(nodes)@, r),
        level(final(nodes)@, var_ord@, r.head) >= d as int,
        forall|env: Seq<bool>|
            env_agrees(env, old(cof_asgn)@, var_ord@, d as int, *e) ==> fn_eval(
                final(nodes)@,
                r,
                env,
            ) == expr_eval(*e, env),
    decreases var_ord@.len() - d,
{
    if d == var_ord.len() {
        let b = eval(e, cof_asgn);
        let r = FunctionNode { head: term, complement: !b };
        proof {
            assert forall|env: Seq<bool>|
                env_agrees(env, old(cof_asgn)@, var_ord@, d as int, *e) implies fn_eval(
                nodes@,
                r,
                env,
            ) == expr_eval(*e, env) by {
                assert forall|v: usize| expr_contains_var(*e, v) implies env[v as int] == old(
                    cof_asgn,
                )@[v as int] by {
                    lemma_vars_lt_contains(*e, old(cof_asgn)@.len() as int, v);
                    assert(!in_tail(var_ord@, d as int, v));
                }
                lemma_expr_eval_agree(*e, env, old(cof_asgn)@);
            }
        }
        r
    } else {
        let ghost cof0 = cof_asgn@;
        let x = var_ord[d];
        cof_asgn.set(x, true);
        let ghost c_pos = cof_asgn@;
        let pos = from_rec(e, var_ord, d + 1, cof_asgn, nodes);
        let ghost nodes1 = nodes@;
        cof_asgn.set(x, false);
        let ghost c_neg = cof_asgn@;
        let neg = from_rec(e, var_ord, d + 1, cof_asgn, nodes);
        let ghost nodes2 = nodes@;
        proof {
            assert(in_tail(var_ord@, d as int, x)) by {
                assert(var_ord@[d as int] == x);
            }
            assert forall|v: usize|
                (v as int) < cof_asgn@.len() && !in_tail(var_ord@, d as int, v) implies cof_asgn@[v
                as int] == cof0[v as int] by {
                assert(v != x);
                assert(!in_tail(var_ord@, d as int + 1, v));
            }
            assert(fref_wf(nodes2, pos));
            assert(level(nodes2, var_ord@, pos.head) >= d as int + 1) by {
                if pos.head != term {
                    assert(nodes2[pos.head as int] == nodes1[pos.head as int]);
                }
            }
        }
        let r = if neg == pos {
            neg
        } else {
            unique_insert(x, pos, neg, nodes, Ghost(var_ord@), Ghost(d as int))
        };
        proof {
            lemma_expand_branch(
                *e,
                var_ord@,
                d as int,
                x,
                cof0,
                c_pos,
                c_neg,
                nodes1,
                nodes2,
                nodes@,
                pos,
                neg,
                r,
            );
        }
        r
    }
}

/// Builds the negated-arc ROBDD of `e` under `var_ord`: full expansion with
/// complement edges, no pruning.  The resulting diagram denotes exactly the
/// expression under every assignment.
pub fn from(e: &Expr, var_ord: &[usize]) -> (bdd: Bdd)
    requires
        var_ord@.no_duplicates(),
        forall|k: int| 0 <= k < var_ord@.len() ==> (var_ord@[k] as int) < var_ord@.len(),
        forall|v: usize| expr_contains_var(*e, v) ==> var_ord@.contains(v),
    ensures
        bdd.wf(),
        table_ord_wf(bdd.nodes@, var_ord@),
        table_labels_lt(bdd.nodes@, var_ord@.len() as int),
        forall|env: Seq<bool>| bdd.spec_eval(env) == expr_eval(*e, env),
{
    let n = var_ord.len();
    let mut cof_asgn: Vec<bool> = Vec::new();
    let mut i: usize = 0;
    while i < n
        invariant
            i <= n,
            cof_asgn@.len() == i as int,
        decreases n - i,
    {
        cof_asgn.push(false);
        i += 1;
    }
    proof {
        assert forall|v: usize| expr_contains_var(*e, v) implies (v as int) < n as int by {
            let k = choose|k: int| 0 <= k < var_ord@.len() && var_ord@[k] == v;
            assert((var_ord@[k] as int) < var_ord@.len());
        }
        lemma_vars_lt_intro(*e, n as int);
    }
    let mut nodes: Vec<InternalNode> = Vec::new();
    let f = from_rec(e, var_ord, 0, &mut cof_asgn, &mut nodes);
    proof {
        assert forall|env: Seq<bool>| fn_eval(nodes@, f, env) == expr_eval(*e, env) by {
            assert forall|v: usize|
                expr_contains_var(*e, v) && !in_tail(var_ord@, 0, v) implies false by {
                assert(var_ord@.contains(v));
                let k = choose|k: int| 0 <= k < var_ord@.len() && var_ord@[k] == v;
                assert(in_tail(var_ord@, 0, v));
            }
        }
        lemma_labels_lt_from_ord(nodes@, var_ord@, var_ord@.len() as int);
    }
    Bdd { f, nodes }
}

/// The three-valued result of the support oracle for a variable `x` under a
/// partial assignment: the subexpression still depends on `x`; or it is a
/// constant independent of everything unset; or it varies with other unset
/// variables but not with `x`.
#[derive(Clone, Copy, Debug, PartialEq, Eq, Structural)]
pub enum SupportResult {
    Dependant,
    IndependantVaries,
    IndependantConst(bool),
}

/// The combination table for And; Or is its De Morgan dual.  A false operand
/// absorbs; a true operand defers to the other side; dependence propagates
/// unless absorbed.
pub open spec fn and_combine(a: SupportResult, b: SupportResult) -> SupportResult {
    match (a, b) {
        (SupportResult::IndependantConst(false), _) => SupportResult::IndependantConst(false),
        (_, SupportResult::IndependantConst(false)) => SupportResult::IndependantConst(false),
        (SupportResult::IndependantConst(true), s) => s,
        (s, SupportResult::IndependantConst(true)) => s,
        (SupportResult::Dependant, _) => SupportResult::Dependant,
        (_, SupportResult::Dependant) => SupportResult::Dependant,
        (SupportResult::IndependantVaries, SupportResult::IndependantVaries)
            => SupportResult::IndependantVaries,
    }
}

/// The combination table for Or: a true operand absorbs, a false operand
/// defers.
pub open spec fn or_combine(a: SupportResult, b: SupportResult) -> SupportResult {
    match (a, b) {
        (SupportResult::IndependantConst(true), _) => SupportResult::IndependantConst(true),
        (_, SupportResult::IndependantConst(true)) => SupportResult::IndependantConst(true),
        (SupportResult::IndependantConst(false), s) => s,
        (s, SupportResult::IndependantConst(false)) => s,
        (SupportResult::Dependant, _) => SupportResult::Dependant,
        (_, SupportResult::Dependant) => SupportResult::Dependant,
        (SupportResult::IndependantVaries, SupportResult::IndependantVaries)
            => SupportResult::IndependantVaries,
    }
}

/// The three-valued support analysis of `e` with respect to `x`, under the
/// partial assignment `m`.
#[verifier::opaque]
pub open spec fn support_val(x: usize, e: Expr, m: Map<usize, bool>) -> SupportResult
    decreases e,
{
    match e {
        Expr::Lit(b) => SupportResult::IndependantConst(b),
        Expr::Var(x2) => if x2 == x {
            SupportResult::Dependant
        } else if m.dom().contains(x2) {
            SupportResult::IndependantConst(m[x2])
        } else {
            SupportResult::IndependantVaries
        },
        Expr::Not(e1) => match support_val(x, *e1, m) {
            SupportResult::IndependantConst(b) => SupportResult::IndependantConst(!b),
            s => s,
        },
        Expr::Binary(e1, op, e2) => match op {
            crate::expr::BOp::And => and_combine(support_val(x, *e1, m), support_val(x, *e2, m)),
            crate::expr::BOp::Or => or_combine(support_val(x, *e1, m), support_val(x, *e2, m)),
        },
    }
}

/// `env` agrees with the partial assignment `m` on every assigned variable
/// that occurs in `e`.
pub open spec fn env_consistent_on(e: Expr, env: Seq<bool>, m: Map<usize, bool>) -> bool {
    forall|v: usize|
        expr_contains_var(e, v) && m.dom().contains(v) ==> env[v as int] == m[v]
}

/// Soundness of the support algebra.  For assignments consistent with the
/// partial assignment: an `IndependantConst` verdict pins the expression to
/// that constant, and any verdict other than `Dependant` means the value of
/// `x` cannot change the expression's value.
pub proof fn lemma_support_sound(
    x: usize,
    e: Expr,
    m: Map<usize, bool>,
    env1: Seq<bool>,
    env2: Seq<bool>,
)
    requires
        env_consistent_on(e, env1, m),
        env_consistent_on(e, env2, m),
        forall|v: usize|
            expr_contains_var(e, v) && v != x ==> env1[v as int] == env2[v as int],
    ensures
        support_val(x, e, m) matches SupportResult::IndependantConst(b) ==> expr_eval(e, env1)
            == b && expr_eval(e, env2) == b,
        support_val(x, e, m) != SupportResult::Dependant ==> expr_eval(e, env1) == expr_eval(
            e,
            env2,
        ),
    decreases e,
{
    reveal(support_val);
    match e {
        Expr::Lit(_) => {}
        Expr::Var(x2) => {
            if x2 != x && m.dom().contains(x2) {
                assert(expr_contains_var(e, x2));
                assert(env1[x2 as int] == m[x2]);
                assert(env2[x2 as int] == m[x2]);
            }
        }
        Expr::Not(e1) => {
            assert forall|v: usize|
                expr_contains_var(*e1, v) && m.dom().contains(v) implies env1[v as int] == m[v]
                && env2[v as int] == m[v] by {
                assert(expr_contains_var(e, v));
            }
            assert forall|v: usize|
                expr_contains_var(*e1, v) && v != x implies env1[v as int] == env2[v as int] by {
                assert(expr_contains_var(e, v));
            }
            lemma_support_sound(x, *e1, m, env1, env2);
        }
        Expr::Binary(e1, _, e2) => {
            assert forall|v: usize|
                expr_contains_var(*e1, v) && m.dom().contains(v) implies env1[v as int] == m[v]
                && env2[v as int] == m[v] by {
                assert(expr_contains_var(e, v));
            }
            assert forall|v: usize|
                expr_contains_var(*e2, v) && m.dom().contains(v) implies env1[v as int] == m[v]
                && env2[v as int] == m[v] by {
                assert(expr_contains_var(e, v));
            }
            assert forall|v: usize|
                expr_contains_var(*e1, v) && v != x implies env1[v as int] == env2[v as int] by {
                assert(expr_contains_var(e, v));
            }
            assert forall|v: usize|
                expr_contains_var(*e2, v) && v != x implies env1[v as int] == env2[v as int] by {
                assert(expr_contains_var(e, v));
            }
            lemma_support_sound(x, *e1, m, env1, env2);
            lemma_support_sound(x, *e2, m, env1, env2);
        }
    }
}

/// The partial assignment represented by a value vector and a validity mask:
/// variable `v` is assigned `vals[v]` exactly when `valid[v]` holds.
#[verifier::opaque]
pub open spec fn map_of_vecs(vals: Seq<bool>, valid: Seq<bool>) -> Map<usize, bool> {
    Map::new(
        |v: usize| (v as int) < valid.len() && valid[v as int],
        |v: usize| vals[v as int],
    )
}

/// Correctness of one expansion step.  Given the two cofactor claims from the
/// recursive calls (stated against the path assignments with the current
/// variable set true resp. false) and the normalization step's description of
/// `r`, the combined reference denotes the expression on every assignment
/// that agrees with the path so far.
proof fn lemma_expand_branch(
    e: Expr,
    ord: Seq<usize>,
    d: int,
    x: usize,
    cof0: Seq<bool>,
    c_pos: Seq<bool>,
    c_neg: Seq<bool>,
    nodes1: Seq<InternalNode>,
    nodes2: Seq<InternalNode>,
    nodes3: Seq<InternalNode>,
    pos: FunctionNode,
    neg: FunctionNode,
    r: FunctionNode,
)
    requires
        0 <= d < ord.len(),
        ord[d] == x,
        c_pos == cof0.update(x as int, true),
        c_neg.len() == cof0.len(),
        (x as int) < cof0.len(),
        c_neg[x as int] == false,
        forall|v: usize|
            (v as int) < cof0.len() && v != x && !in_tail(ord, d + 1, v) ==> c_neg[v as int]
                == cof0[v as int],
        forall|env: Seq<bool>|
            env_agrees(env, c_pos, ord, d + 1, e) ==> fn_eval(nodes1, pos, env) == expr_eval(
                e,
                env,
            ),
        forall|env: Seq<bool>|
            env_agrees(env, c_neg, ord, d + 1, e) ==> fn_eval(nodes2, neg, env) == expr_eval(
                e,
                env,
            ),
        nodes1.len() <= nodes2.len(),
        forall|j: int| 0 <= j < nodes1.len() ==> nodes1[j] == nodes2[j],
        fref_wf(nodes1, pos),
        (neg == pos && r == neg && nodes3 == nodes2) || (forall|env: Seq<bool>|
            fn_eval(nodes3, r, env) == if env[x as int] {
                fn_eval(nodes2, pos, env)
            } else {
                fn_eval(nodes2, neg, env)
            }),
    ensures
        forall|env: Seq<bool>|
            env_agrees(env, cof0, ord, d, e) ==> fn_eval(nodes3, r, env) == expr_eval(e, env),
{
    assert forall|env: Seq<bool>|
        env_agrees(env, cof0, ord, d, e) implies fn_eval(nodes3, r, env) == expr_eval(
        e,
        env,
    ) by {
        if env[x as int] {
            assert(env_agrees(env, c_pos, ord, d + 1, e)) by {
                assert forall|v: usize|
                    expr_contains_var(e, v) && (v as int) < c_pos.len() && !in_tail(
                        ord,
                        d + 1,
                        v,
                    ) implies env[v as int] == c_pos[v as int] by {
                    if v != x {
                        assert(!in_tail(ord, d, v));
                    }
                }
            }
            assert(fn_eval(nodes1, pos, env) == expr_eval(e, env));
            lemma_fn_eval_prefix(nodes1, nodes2, pos, env);
        } else {
            assert(env_agrees(env, c_neg, ord, d + 1, e)) by {
                assert forall|v: usize|
                    expr_contains_var(e, v) && (v as int) < c_neg.len() && !in_tail(
                        ord,
                        d + 1,
                        v,
                    ) implies env[v as int] == c_neg[v as int] by {
                    if v != x {
                        assert(!in_tail(ord, d, v));
                    }
                }
            }
            assert(fn_eval(nodes2, neg, env) == expr_eval(e, env));
        }
    }
}

/// The independence consequence of the support algebra alone: when the
/// verdict is not `Dependant`, flipping `x` cannot change the expression.
proof fn lemma_support_indep(
    x: usize,
    e: Expr,
    m: Map<usize, bool>,
    env1: Seq<bool>,
    env2: Seq<bool>,
)
    requires
        env_consistent_on(e, env1, m),
        env_consistent_on(e, env2, m),
        forall|v: usize|
            expr_contains_var(e, v) && v != x ==> env1[v as int] == env2[v as int],
        support_val(x, e, m) != SupportResult::Dependant,
    ensures
        expr_eval(e, env1) == expr_eval(e, env2),
{
    lemma_support_sound(x, e, m, env1, env2);
}

/// A variable standing before position `d` of a duplicate-free order does
/// not stand at or after `d`.
proof fn lemma_head_not_tail(ord: Seq<usize>, d: int, v: usize)
    requires
        ord.no_duplicates(),
        in_head(ord, d, v),
        d <= ord.len(),
    ensures
        !in_tail(ord, d, v),
{
    let i = choose|i: int| 0 <= i < d && ord[i] == v;
    if in_tail(ord, d, v) {
        let j = choose|j: int| d <= j < ord.len() && ord[j] == v;
        assert(ord[i] == ord[j] && i != j);
    }
}

/// An assignment that agrees with the path so far is consistent, on the
/// expression's variables, with the vector-backed partial assignment.
proof fn lemma_agrees_consistent(
    e: Expr,
    ord: Seq<usize>,
    d: int,
    cof0: Seq<bool>,
    valid0: Seq<bool>,
    env: Seq<bool>,
)
    requires
        ord.no_duplicates(),
        0 <= d <= ord.len(),
        expr_vars_lt(e, cof0.len() as int),
        valid0.len() == cof0.len(),
        forall|v: usize|
            (v as int) < valid0.len() ==> (valid0[v as int] <==> in_head(ord, d, v)),
        env_agrees(env, cof0, ord, d, e),
    ensures
        env_consistent_on(e, env, map_of_vecs(cof0, valid0)),
{
    reveal(map_of_vecs);
    let m = map_of_vecs(cof0, valid0);
    assert forall|v: usize|
        expr_contains_var(e, v) && m.dom().contains(v) implies env[v as int] == m[v] by {
        lemma_vars_lt_contains(e, cof0.len() as int, v);
        assert(valid0[v as int]);
        assert(in_head(ord, d, v));
        lemma_head_not_tail(ord, d, v);
        assert(env[v as int] == cof0[v as int]);
    }
}

/// Correctness of one pruning step, for a single assignment of the path's
/// own length.  When the support oracle rules `x` out, the single recursive
/// result (built with `x` fixed to false) already denotes the expression for
/// either value of `x`: the expression cannot read `x`, and the diagram sits
/// entirely below it.
#[verifier::rlimit(100)]
#[verifier::spinoff_prover]
proof fn lemma_prune_branch_one(
    e: Expr,
    ord: Seq<usize>,
    d: int,
    x: usize,
    cof0: Seq<bool>,
    valid0: Seq<bool>,
    nodes: Seq<InternalNode>,
    r: FunctionNode,
    env: Seq<bool>,
)
    requires
        0 <= d < ord.len(),
        ord[d] == x,
        ord.no_duplicates(),
        forall|k: int| 0 <= k < ord.len() ==> (ord[k] as int) < cof0.len(),
        expr_vars_lt(e, cof0.len() as int),
        valid0.len() == cof0.len(),
        forall|v: usize|
            (v as int) < valid0.len() ==> (valid0[v as int] <==> in_head(ord, d, v)),
        support_val(x, e, map_of_vecs(cof0, valid0)) != SupportResult::Dependant,
        table_wf(nodes),
        table_ord_wf(nodes, ord),
        fref_wf(nodes, r),
        level(nodes, ord, r.head) >= d + 1,
        forall|env0: Seq<bool>|
            env_agrees(env0, cof0.update(x as int, false), ord, d + 1, e) ==> fn_eval(
                nodes,
                r,
                env0,
            ) == expr_eval(e, env0),
        env_agrees(env, cof0, ord, d, e),
        env.len() == cof0.len(),
    ensures
        fn_eval(nodes, r, env) == expr_eval(e, env),
{
    reveal(map_of_vecs);
    let m = map_of_vecs(cof0, valid0);
    let c1 = cof0.update(x as int, false);
    assert((x as int) < cof0.len());
    assert(!in_head(ord, d, x));
    assert(!m.dom().contains(x));
    let env2 = env.update(x as int, false);
    assert(env_agrees(env2, c1, ord, d + 1, e)) by {
        assert forall|v: usize|
            expr_contains_var(e, v) && (v as int) < c1.len() && !in_tail(
                ord,
                d + 1,
                v,
            ) implies env2[v as int] == c1[v as int] by {
            lemma_vars_lt_contains(e, c1.len() as int, v);
            if v != x {
                assert(!in_tail(ord, d, v));
                assert(env2[v as int] == env[v as int]);
            }
        }
    }
    assert(fn_eval(nodes, r, env2) == expr_eval(e, env2));
    lemma_agrees_consistent(e, ord, d, cof0, valid0, env);
    assert(env_consistent_on(e, env2, m)) by {
        assert forall|v: usize|
            expr_contains_var(e, v) && m.dom().contains(v) implies env2[v as int] == m[v] by {
            lemma_vars_lt_contains(e, cof0.len() as int, v);
            assert(v != x);
            assert(env[v as int] == m[v]);
        }
    }
    assert forall|v: usize|
        expr_contains_var(e, v) && v != x implies env[v as int] == env2[v as int] by {
        lemma_vars_lt_contains(e, cof0.len() as int, v);
    }
    lemma_support_indep(x, e, m, env, env2);
    assert(expr_eval(e, env) == expr_eval(e, env2));
    assert(fn_eval(nodes, r, env) == fn_eval(nodes, r, env2)) by {
        assert forall|j: int|
            d + 1 <= j < ord.len() implies env[#[trigger] ord[j] as int] == env2[ord[j]
            as int] by {
            assert(ord[j] != x) by {
                if ord[j] == x {
                    assert(ord[j] == ord[d] && j != d);
                }
            }
            assert((ord[j] as int) < cof0.len());
        }
        lemma_fn_eval_env_agree(nodes, ord, r, env, env2, d + 1);
    }
}

/// Correctness of one pruning step, over all assignments: an assignment of
/// any length is first replaced by its restriction to the path's length,
/// which neither the expression nor the diagram can tell apart.
#[verifier::rlimit(60)]
#[verifier::spinoff_prover]
proof fn lemma_prune_branch(
    e: Expr,
    ord: Seq<usize>,
    d: int,
    x: usize,
    cof0: Seq<bool>,
    valid0: Seq<bool>,
    nodes: Seq<InternalNode>,
    r: FunctionNode,
)
    requires
        0 <= d < ord.len(),
        ord[d] == x,
        ord.no_duplicates(),
        forall|k: int| 0 <= k < ord.len() ==> (ord[k] as int) < cof0.len(),
        expr_vars_lt(e, cof0.len() as int),
        valid0.len() == cof0.len(),
        forall|v: usize|
            (v as int) < valid0.len() ==> (valid0[v as int] <==> in_head(ord, d, v)),
        support_val(x, e, map_of_vecs(cof0, valid0)) != SupportResult::Dependant,
        table_wf(nodes),
        table_ord_wf(nodes, ord),
        fref_wf(nodes, r),
        level(nodes, ord, r.head) >= d + 1,
        forall|env0: Seq<bool>|
            env_agrees(env0, cof0.update(x as int, false), ord, d + 1, e) ==> fn_eval(
                nodes,
                r,
                env0,
            ) == expr_eval(e, env0),
    ensures
        forall|env: Seq<bool>|
            env_agrees(env, cof0, ord, d, e) ==> fn_eval(nodes, r, env) == expr_eval(e, env),
{
    assert forall|env: Seq<bool>|
        env_agrees(env, cof0, ord, d, e) implies fn_eval(nodes, r, env) == expr_eval(
        e,
        env,
    ) by {
        let env_l = Seq::new(cof0.len(), |i: int| env[i]);
        assert(env_agrees(env_l, cof0, ord, d, e)) by {
            assert forall|v: usize|
                expr_contains_var(e, v) && (v as int) < cof0.len() && !in_tail(
                    ord,
                    d,
                    v,
                ) implies env_l[v as int] == cof0[v as int] by {
                assert(env[v as int] == cof0[v as int]);
            }
        }
        lemma_prune_branch_one(e, ord, d, x, cof0, valid0, nodes, r, env_l);
        assert(expr_eval(e, env) == expr_eval(e, env_l)) by {
            assert forall|v: usize|
                expr_contains_var(e, v) implies env[v as int] == env_l[v as int] by {
                lemma_vars_lt_contains(e, cof0.len() as int, v);
            }
            lemma_expr_eval_agree(e, env, env_l);
        }
        assert(fn_eval(nodes, r, env) == fn_eval(nodes, r, env_l)) by {
            assert forall|j: int|
                d + 1 <= j < ord.len() implies env[#[trigger] ord[j] as int] == env_l[ord[j]
                as int] by {
                assert((ord[j] as int) < cof0.len());
            }
            lemma_fn_eval_env_agree(nodes, ord, r, env, env_l, d + 1);
        }
    }
}

/// The support analysis of `e` with respect to `x`, over a vector-backed
/// partial assignment; returns exactly the algebra's verdict.
fn support_rec_vec(x: usize, e: &Expr, cof_asgn: &Vec<bool>, cof_valid: &Vec<bool>) -> (s:
    SupportResult)
    requires
        cof_valid@.len() == cof_asgn@.len(),
        expr_vars_lt(*e, cof_asgn@.len() as int),
    ensures
        s == support_val(x, *e, map_of_vecs(cof_asgn@, cof_valid@)),
    decreases *e,
{
    proof {
        reveal(support_val);
        reveal(map_of_vecs);
    }
    match e {
        Expr::Lit(b) => SupportResult::IndependantConst(*b),
        Expr::Var(x2) => {
            if *x2 == x {
                SupportResult::Dependant
            } else {
                if cof_valid[*x2] {
                    SupportResult::IndependantConst(cof_asgn[*x2])
                } else {
                    SupportResult::IndependantVaries
                }
            }
        }
        Expr::Not(e1) => {
            match support_rec_vec(x, &**e1, cof_asgn, cof_valid) {
                SupportResult::IndependantConst(b) => SupportResult::IndependantConst(!b),
                s => s,
            }
        }
        Expr::Binary(e1, op, e2) => {
            let s1 = support_rec_vec(x, &**e1, cof_asgn, cof_valid);
            let s2 = support_rec_vec(x, &**e2, cof_asgn, cof_valid);
            match op {
                crate::expr::BOp::And => match (s1, s2) {
                    (SupportResult::IndependantConst(false), _)
                        => SupportResult::IndependantConst(false),
                    (_, SupportResult::IndependantConst(false))
                        => SupportResult::IndependantConst(false),
                    (SupportResult::IndependantConst(true), s) => s,
                    (s, SupportResult::IndependantConst(true)) => s,
                    (SupportResult::Dependant, _) => SupportResult::Dependant,
                    (_, SupportResult::Dependant) => SupportResult::Dependant,
                    (SupportResult::IndependantVaries, SupportResult::IndependantVaries)
                        => SupportResult::IndependantVaries,
                },
                crate::expr::BOp::Or => match (s1, s2) {
                    (SupportResult::IndependantConst(true), _)
                        => SupportResult::IndependantConst(true),
                    (_, SupportResult::IndependantConst(true))
                        => SupportResult::IndependantConst(true),
                    (SupportResult::IndependantConst(false), s) => s,
                    (s, SupportResult::IndependantConst(false)) => s,
                    (SupportResult::Dependant, _) => SupportResult::Dependant,
                    (_, SupportResult::Dependant) => SupportResult::Dependant,
                    (SupportResult::IndependantVaries, SupportResult::IndependantVaries)
                        => SupportResult::IndependantVaries,
                },
            }
        }
    }
}

/// Whether `x` can still affect the value of `e` given the vector-backed
/// partial assignment: the oracle behind the vector-pruning builder.
pub fn in_support_vec(x: usize, e: &Expr, cof_asgn: &Vec<bool>, cof_valid: &Vec<bool>) -> (r: bool)
    requires
        cof_valid@.len() == cof_asgn@.len(),
        expr_vars_lt(*e, cof_asgn@.len() as int),
    ensures
        r == (support_val(x, *e, map_of_vecs(cof_asgn@, cof_valid@))
            == SupportResult::Dependant),
{
    let s = support_rec_vec(x, e, cof_asgn, cof_valid);
    match s {
        SupportResult::Dependant => true,
        _ => false,
    }
}

/// Whether `v` stands in the order before position `d`.
pub open spec fn in_head(ord: Seq<usize>, d: int, v: usize) -> bool {
    exists|i: int| 0 <= i < d && ord[i] == v
}

/// Recursive negated-arc construction with exact support pruning over a
/// vector-backed partial assignment: a variable the oracle proves irrelevant
/// under the current path is fixed arbitrarily and expanded only once.
#[verifier::rlimit(100)]
#[verifier::spinoff_prover]
fn from_support_vec_rec(
    e: &Expr,
    var_ord: &[usize],
    d: usize,
    cof_asgn: &mut Vec<bool>,
    cof_valid: &mut Vec<bool>,
    nodes: &mut Vec<InternalNode>,
) -> (r: FunctionNode)
    requires
        d <= var_ord@.len(),
        var_ord@.no_duplicates(),
        forall|k: int| 0 <= k < var_ord@.len() ==> (var_ord@[k] as int) < old(cof_asgn)@.len(),
        expr_vars_lt(*e, old(cof_asgn)@.len() as int),
        old(cof_valid)@.len() == old(cof_asgn)@.len(),
        forall|v: usize|
            (v as int) < old(cof_valid)@.len() ==> (old(cof_valid)@[v as int] <==> in_head(
                var_ord@,
                d as int,
                v,
            )),
        table_wf(old(nodes)@),
        table_unique(old(nodes)@),
        table_reduced(old(nodes)@),
        table_ord_wf(old(nodes)@, var_ord@),
    ensures
        final(cof_asgn)@.len() == old(cof_asgn)@.len(),
        forall|v: usize|
            (v as int) < final(cof_asgn)@.len() && !in_tail(var_ord@, d as int, v)
                ==> final(cof_asgn)@[v as int] == old(cof_asgn)@[v as int],
        final(cof_valid)@ == old(cof_valid)@,
        table_wf(final(nodes)@),
        table_unique(final(nodes)@),
        table_reduced(final(nodes)@),
        table_ord_wf(final(nodes)@, var_ord@),
        old(nodes)@.len() <= final(nodes)@.len(),
        forall|j: int| 0 <= j < old(nodes)@.len() ==> old(nodes)@[j] == final(nodes)@[j],
        fref_wf(final(nodes)@, r),
        level(final(nodes)@, var_ord@, r.head) >= d as int,
        forall|env: Seq<bool>|
            env_agrees(env, old(cof_asgn)@, var_ord@, d as int, *e) ==> fn_eval(
                final(nodes)@,
                r,
                env,
            ) == expr_eval(*e, env),
    decreases var_ord@.len() - d,
{
    if d == var_ord.len() {
        let b = eval(e, cof_asgn);
        let r = FunctionNode { head: term, complement: !b };
        proof {
            assert forall|env: Seq<bool>|
                env_agrees(env, old(cof_asgn)@, var_ord@, d as int, *e) implies fn_eval(
                nodes@,
                r,
                env,
            ) == expr_eval(*e, env) by {
                assert forall|v: usize| expr_contains_var(*e, v) implies env[v as int] == old(
                    cof_asgn,
                )@[v as int] by {
                    lemma_vars_lt_contains(*e, old(cof_asgn)@.len() as int, v);
                    assert(!in_tail(var_ord@, d as int, v));
                }
                lemma_expr_eval_agree(*e, env, old(cof_asgn)@);
            }
        }
        r
    } else {
        let ghost cof0 = cof_asgn@;
        let ghost valid0 = cof_valid@;
        let x = var_ord[d];
        proof {
            assert(in_tail(var_ord@, d as int, x)) by {
                assert(var_ord@[d as int] == x);
            }
            assert(!in_head(var_ord@, d as int, x));
            assert(!valid0[x as int]);
        }
        if in_support_vec(x, e, cof_asgn, cof_valid) {
            cof_asgn.set(x, true);
            cof_valid.set(x, true);
            proof {
                assert forall|v: usize|
                    (v as int) < cof_valid@.len() implies (cof_valid@[v as int] <==> in_head(
                    var_ord@,
                    d as int + 1,
                    v,
                )) by {
                    if v == x {
                        assert(var_ord@[d as int] == x);
                        assert(in_head(var_ord@, d as int + 1, x));
                    } else {
                        assert(in_head(var_ord@, d as int, v) <==> in_head(
                            var_ord@,
                            d as int + 1,
                            v,
                        ));
                    }
                }
            }
            let ghost c_pos = cof_asgn@;
            let pos = from_support_vec_rec(e, var_ord, d + 1, cof_asgn, cof_valid, nodes);
            let ghost nodes1 = nodes@;
            cof_asgn.set(x, false);
            let ghost c_neg = cof_asgn@;
            let neg = from_support_vec_rec(e, var_ord, d + 1, cof_asgn, cof_valid, nodes);
            let ghost nodes2 = nodes@;
            cof_valid.set(x, false);
            proof {
                assert(cof_valid@ == valid0);
                assert forall|v: usize|
                    (v as int) < cof_asgn@.len() && !in_tail(var_ord@, d as int, v) implies
                    cof_asgn@[v as int] == cof0[v as int] by {
                    assert(v != x);
                    assert(!in_tail(var_ord@, d as int + 1, v));
                }
                assert(fref_wf(nodes2, pos));
                assert(level(nodes2, var_ord@, pos.head) >= d as int + 1) by {
                    if pos.head != term {
                        assert(nodes2[pos.head as int] == nodes1[pos.head as int]);
                    }
                }
            }
            let r = if neg == pos {
                neg
            } else {
                unique_insert(x, pos, neg, nodes, Ghost(var_ord@), Ghost(d as int))
            };
            proof {
                lemma_expand_branch(
                    *e,
                    var_ord@,
                    d as int,
                    x,
                    cof0,
                    c_pos,
                    c_neg,
                    nodes1,
                    nodes2,
                    nodes@,
                    pos,
                    neg,
                    r,
                );
            }
            r
        } else {
            let ghost m = map_of_vecs(cof0, valid0);
            cof_asgn.set(x, false);
            cof_valid.set(x, true);
            proof {
                assert forall|v: usize|
                    (v as int) < cof_valid@.len() implies (cof_valid@[v as int] <==> in_head(
                    var_ord@,
                    d as int + 1,
                    v,
                )) by {
                    if v == x {
                        assert(var_ord@[d as int] == x);
                        assert(in_head(var_ord@, d as int + 1, x));
                    } else {
                        assert(in_head(var_ord@, d as int, v) <==> in_head(
                            var_ord@,
                            d as int + 1,
                            v,
                        ));
                    }
                }
            }
            let ghost c1 = cof_asgn@;
            let r = from_support_vec_rec(e, var_ord, d + 1, cof_asgn, cof_valid, nodes);
            cof_valid.set(x, false);
            proof {
                let dd = d as int;
                assert(cof_valid@ == valid0);
                assert forall|v: usize|
                    (v as int) < cof_asgn@.len() && !in_tail(var_ord@, dd, v) implies cof_asgn@[v
                    as int] == cof0[v as int] by {
                    assert(v != x);
                    assert(!in_tail(var_ord@, dd + 1, v));
                }
                assert(c1 == cof0.update(x as int, false));
                lemma_prune_branch(*e, var_ord@, dd, x, cof0, valid0, nodes@, r);
            }
            r
        }
    }
}

/// Builds the negated-arc ROBDD of `e` under `var_ord` with exact support
/// pruning over a vector-backed partial assignment.  Semantically equivalent
/// to the non-pruning builder: the diagram denotes exactly the expression.
pub fn from_support_vec(e: &Expr, var_ord: &[usize]) -> (bdd: Bdd)
    requires
        var_ord@.no_duplicates(),
        forall|k: int| 0 <= k < var_ord@.len() ==> (var_ord@[k] as int) < var_ord@.len(),
        forall|v: usize| expr_contains_var(*e, v) ==> var_ord@.contains(v),
    ensures
        bdd.wf(),
        table_ord_wf(bdd.nodes@, var_ord@),
        table_labels_lt(bdd.nodes@, var_ord@.len() as int),
        forall|env: Seq<bool>| bdd.spec_eval(env) == expr_eval(*e, env),
{
    let n = var_ord.len();
    let mut cof_asgn: Vec<bool> = Vec::new();
    let mut cof_valid: Vec<bool> = Vec::new();
    let mut i: usize = 0;
    while i < n
        invariant
            i <= n,
            cof_asgn@.len() == i as int,
            cof_valid@.len() == i as int,
            forall|v: int| 0 <= v < i ==> !cof_valid@[v],
        decreases n - i,
    {
        cof_asgn.push(false);
        cof_valid.push(false);
        i += 1;
    }
    proof {
        assert forall|v: usize| expr_contains_var(*e, v) implies (v as int) < n as int by {
            let k = choose|k: int| 0 <= k < var_ord@.len() && var_ord@[k] == v;
            assert((var_ord@[k] as int) < var_ord@.len());
        }
        lemma_vars_lt_intro(*e, n as int);
        assert forall|v: usize|
            (v as int) < cof_valid@.len() implies (cof_valid@[v as int] <==> in_head(
            var_ord@,
            0,
            v,
        )) by {
            assert(!cof_valid@[v as int]);
        }
    }
    let mut nodes: Vec<InternalNode> = Vec::new();
    let f = from_support_vec_rec(e, var_ord, 0, &mut cof_asgn, &mut cof_valid, &mut nodes);
    proof {
        assert forall|env: Seq<bool>| fn_eval(nodes@, f, env) == expr_eval(*e, env) by {
            assert forall|v: usize|
                expr_contains_var(*e, v) && !in_tail(var_ord@, 0, v) implies false by {
                assert(var_ord@.contains(v));
                let k = choose|k: int| 0 <= k < var_ord@.len() && var_ord@[k] == v;
                assert(in_tail(var_ord@, 0, v));
            }
        }
        lemma_labels_lt_from_ord(nodes@, var_ord@, var_ord@.len() as int);
    }
    Bdd { f, nodes }
}

/// Substitutes `b` for `x` in `e` and folds constants through Not/And/Or
/// short-circuit rules.  The result no longer mentions `x`, mentions no new
/// variables, and agrees with `e` on every assignment that maps `x` to `b`.
#[verifier::rlimit(60)]
pub fn subst_and_simplify(e: &Expr, x: usize, b: bool) -> (r: Expr)
    ensures
        !expr_contains_var(r, x),
        forall|v: usize| expr_contains_var(r, v) ==> expr_contains_var(*e, v),
        forall|env: Seq<bool>|
            env[x as int] == b ==> expr_eval(r, env) == expr_eval(*e, env),
    decreases *e,
{
    match e {
        Expr::Lit(b2) => Expr::Lit(*b2),
        Expr::Var(x2) => {
            if x == *x2 {
                Expr::Lit(b)
            } else {
                Expr::Var(*x2)
            }
        }
        Expr::Not(e1) => {
            let e_simp = subst_and_simplify(&**e1, x, b);
            let ghost gs = e_simp;
            match e_simp {
                Expr::Lit(b1) => Expr::Lit(!b1),
                _ => {
                    let r = crate::expr::not(e_simp);
                    proof {
                        assert forall|v: usize|
                            expr_contains_var(r, v) implies expr_contains_var(*e, v) by {
                            assert(expr_contains_var(gs, v));
                            assert(expr_contains_var(**e1, v));
                        }
                        assert forall|env: Seq<bool>|
                            env[x as int] == b implies expr_eval(r, env) == expr_eval(
                            *e,
                            env,
                        ) by {
                            assert(expr_eval(gs, env) == expr_eval(**e1, env));
                        }
                    }
                    r
                }
            }
        }
        Expr::Binary(e1, op, e2) => {
            let e1_simp = subst_and_simplify(&**e1, x, b);
            let ghost g1 = e1_simp;
            let is_lit_false = matches!(e1_simp, Expr::Lit(false));
            let is_lit_true = matches!(e1_simp, Expr::Lit(true));
            match op {
                crate::expr::BOp::And => {
                    if is_lit_false {
                        let r = Expr::Lit(false);
                        proof {
                            assert forall|env: Seq<bool>|
                                env[x as int] == b implies expr_eval(r, env) == expr_eval(
                                *e,
                                env,
                            ) by {
                                assert(expr_eval(g1, env) == expr_eval(**e1, env));
                            }
                        }
                        r
                    } else if is_lit_true {
                        let r = subst_and_simplify(&**e2, x, b);
                        let ghost g2 = r;
                        proof {
                            assert forall|v: usize|
                                expr_contains_var(g2, v) implies expr_contains_var(*e, v) by {
                                assert(expr_contains_var(**e2, v));
                            }
                            assert forall|env: Seq<bool>|
                                env[x as int] == b implies expr_eval(g2, env) == expr_eval(
                                *e,
                                env,
                            ) by {
                                assert(expr_eval(g1, env) == expr_eval(**e1, env));
                                assert(expr_eval(g2, env) == expr_eval(**e2, env));
                            }
                        }
                        r
                    } else {
                        let e2_simp = subst_and_simplify(&**e2, x, b);
                        let ghost g2 = e2_simp;
                        let is2_false = matches!(e2_simp, Expr::Lit(false));
                        let is2_true = matches!(e2_simp, Expr::Lit(true));
                        if is2_false {
                            let r = Expr::Lit(false);
                            proof {
                                assert forall|env: Seq<bool>|
                                    env[x as int] == b implies expr_eval(r, env) == expr_eval(
                                    *e,
                                    env,
                                ) by {
                                    assert(expr_eval(g2, env) == expr_eval(**e2, env));
                                }
                            }
                            r
                        } else if is2_true {
                            let r = e1_simp;
                            proof {
                                assert forall|v: usize|
                                    expr_contains_var(g1, v) implies expr_contains_var(
                                    *e,
                                    v,
                                ) by {
                                    assert(expr_contains_var(**e1, v));
                                }
                                assert forall|env: Seq<bool>|
                                    env[x as int] == b implies expr_eval(g1, env) == expr_eval(
                                    *e,
                                    env,
                                ) by {
                                    assert(expr_eval(g1, env) == expr_eval(**e1, env));
                                    assert(expr_eval(g2, env) == expr_eval(**e2, env));
                                }
                            }
                            r
                        } else {
                            let r = crate::expr::bin(e1_simp, crate::expr::BOp::And, e2_simp);
                            proof {
                                assert forall|v: usize|
                                    expr_contains_var(r, v) implies expr_contains_var(
                                    *e,
                                    v,
                                ) by {
                                    assert(expr_contains_var(g1, v) || expr_contains_var(g2, v));
                                    assert(expr_contains_var(**e1, v) || expr_contains_var(
                                        **e2,
                                        v,
                                    ));
                                }
                                assert forall|env: Seq<bool>|
                                    env[x as int] == b implies expr_eval(r, env) == expr_eval(
                                    *e,
                                    env,
                                ) by {
                                    assert(expr_eval(g1, env) == expr_eval(**e1, env));
                                    assert(expr_eval(g2, env) == expr_eval(**e2, env));
                                }
                            }
                            r
                        }
                    }
                }
                crate::expr::BOp::Or => {
                    if is_lit_true {
                        let r = Expr::Lit(true);
                        proof {
                            assert forall|env: Seq<bool>|
                                env[x as int] == b implies expr_eval(r, env) == expr_eval(
                                *e,
                                env,
                            ) by {
                                assert(expr_eval(g1, env) == expr_eval(**e1, env));
                            }
                        }
                        r
                    } else if is_lit_false {
                        let r = subst_and_simplify(&**e2, x, b);
                        let ghost g2 = r;
                        proof {
                            assert forall|v: usize|
                                expr_contains_var(g2, v) implies expr_contains_var(*e, v) by {
                                assert(expr_contains_var(**e2, v));
                            }
                            assert forall|env: Seq<bool>|
                                env[x as int] == b implies expr_eval(g2, env) == expr_eval(
                                *e,
                                env,
                            ) by {
                                assert(expr_eval(g1, env) == expr_eval(**e1, env));
                                assert(expr_eval(g2, env) == expr_eval(**e2, env));
                            }
                        }
                        r
                    } else {
                        let e2_simp = subst_and_simplify(&**e2, x, b);
                        let ghost g2 = e2_simp;
                        let is2_false = matches!(e2_simp, Expr::Lit(false));
                        let is2_true = matches!(e2_simp, Expr::Lit(true));
                        if is2_true {
                            let r = Expr::Lit(true);
                            proof {
                                assert forall|env: Seq<bool>|
                                    env[x as int] == b implies expr_eval(r, env) == expr_eval(
                                    *e,
                                    env,
                                ) by {
                                    assert(expr_eval(g2, env) == expr_eval(**e2, env));
                                }
                            }
                            r
                        } else if is2_false {
                            let r = e1_simp;
                            proof {
                                assert forall|v: usize|
                                    expr_contains_var(g1, v) implies expr_contains_var(
                                    *e,
                                    v,
                                ) by {
                                    assert(expr_contains_var(**e1, v));
                                }
                                assert forall|env: Seq<bool>|
                                    env[x as int] == b implies expr_eval(g1, env) == expr_eval(
                                    *e,
                                    env,
                                ) by {
                                    assert(expr_eval(g1, env) == expr_eval(**e1, env));
                                    assert(expr_eval(g2, env) == expr_eval(**e2, env));
                                }
                            }
                            r
                        } else {
                            let r = crate::expr::bin(e1_simp, crate::expr::BOp::Or, e2_simp);
                            proof {
                                assert forall|v: usize|
                                    expr_contains_var(r, v) implies expr_contains_var(
                                    *e,
                                    v,
                                ) by {
                                    assert(expr_contains_var(g1, v) || expr_contains_var(g2, v));
                                    assert(expr_contains_var(**e1, v) || expr_contains_var(
                                        **e2,
                                        v,
                                    ));
                                }
                                assert forall|env: Seq<bool>|
                                    env[x as int] == b implies expr_eval(r, env) == expr_eval(
                                    *e,
                                    env,
                                ) by {
                                    assert(expr_eval(g1, env) == expr_eval(**e1, env));
                                    assert(expr_eval(g2, env) == expr_eval(**e2, env));
                                }
                            }
                            r
                        }
                    }
                }
            }
        }
    }
}

/// Whether `x` occurs in `e`.  After simplification a variable occurs exactly
/// when it can still affect the value, so this is the oracle behind the
/// simplify-then-support builder.
pub fn in_support_simplified(x: usize, e: &Expr) -> (r: bool)
    ensures
        r == expr_contains_var(*e, x),
    decreases *e,
{
    match e {
        Expr::Lit(_) => false,
        Expr::Var(x2) => *x2 == x,
        Expr::Not(e1) => in_support_simplified(x, &**e1),
        Expr::Binary(e1, _, e2) => in_support_simplified(x, &**e1) || in_support_simplified(
            x,
            &**e2,
        ),
    }
}

/// Transfers a cofactor claim about a simplified expression back to the
/// original: on assignments that agree with the path below `d` (so fix `x`
/// to the substituted value), the two expressions cannot differ.
proof fn lemma_subst_claim(
    e: Expr,
    e_sub: Expr,
    x: usize,
    b: bool,
    ord: Seq<usize>,
    d: int,
    cof: Seq<bool>,
    nodes: Seq<InternalNode>,
    f: FunctionNode,
)
    requires
        0 <= d < ord.len(),
        ord[d] == x,
        ord.no_duplicates(),
        expr_contains_var(e, x),
        (x as int) < cof.len(),
        cof[x as int] == b,
        forall|v: usize| expr_contains_var(e_sub, v) ==> expr_contains_var(e, v),
        forall|env: Seq<bool>|
            env[x as int] == b ==> expr_eval(e_sub, env) == expr_eval(e, env),
        forall|env: Seq<bool>|
            env_agrees(env, cof, ord, d + 1, e_sub) ==> fn_eval(nodes, f, env) == expr_eval(
                e_sub,
                env,
            ),
    ensures
        forall|env: Seq<bool>|
            env_agrees(env, cof, ord, d + 1, e) ==> fn_eval(nodes, f, env) == expr_eval(e, env),
{
    assert forall|env: Seq<bool>|
        env_agrees(env, cof, ord, d + 1, e) implies fn_eval(nodes, f, env) == expr_eval(
        e,
        env,
    ) by {
        assert(env_agrees(env, cof, ord, d + 1, e_sub)) by {
            assert forall|v: usize|
                expr_contains_var(e_sub, v) && (v as int) < cof.len() && !in_tail(
                    ord,
                    d + 1,
                    v,
                ) implies env[v as int] == cof[v as int] by {
                assert(expr_contains_var(e, v));
            }
        }
        assert(!in_tail(ord, d + 1, x)) by {
            if in_tail(ord, d + 1, x) {
                let j = choose|j: int| d + 1 <= j < ord.len() && ord[j] == x;
                assert(ord[j] == ord[d] && j != d);
            }
        }
        assert(env[x as int] == cof[x as int]);
        assert(expr_eval(e_sub, env) == expr_eval(e, env));
    }
}

/// Recursive negated-arc construction with simplify-then-support pruning:
/// before expanding a variable the expression is reduced by substitution, so
/// occurrence alone decides relevance, and pruned variables need no partial
/// assignment bookkeeping at all.
#[verifier::rlimit(60)]
#[verifier::spinoff_prover]
fn from_support_simplified_rec(
    e: &Expr,
    var_ord: &[usize],
    d: usize,
    cof_asgn: &mut Vec<bool>,
    nodes: &mut Vec<InternalNode>,
) -> (r: FunctionNode)
    requires
        d <= var_ord@.len(),
        var_ord@.no_duplicates(),
        forall|k: int| 0 <= k < var_ord@.len() ==> (var_ord@[k] as int) < old(cof_asgn)@.len(),
        expr_vars_lt(*e, old(cof_asgn)@.len() as int),
        table_wf(old(nodes)@),
        table_unique(old(nodes)@),
        table_reduced(old(nodes)@),
        table_ord_wf(old(nodes)@, var_ord@),
    ensures
        final(cof_asgn)@.len() == old(cof_asgn)@.len(),
        forall|v: usize|
            (v as int) < final(cof_asgn)@.len() && !in_tail(var_ord@, d as int, v)
                ==> final(cof_asgn)@[v as int] == old(cof_asgn)@[v as int],
        table_wf(final(nodes)@),
        table_unique(final(nodes)@),
        table_reduced(final(nodes)@),
        table_ord_wf(final(nodes)@, var_ord@),
        old(nodes)@.len() <= final(nodes)@.len(),
        forall|j: int| 0 <= j < old(nodes)@.len() ==> old(nodes)@[j] == final(nodes)@[j],
        fref_wf(final(nodes)@, r),
        level(final(nodes)@, var_ord@, r.head) >= d as int,
        forall|env: Seq<bool>|
            env_agrees(env, old(cof_asgn)@, var_ord@, d as int, *e) ==> fn_eval(
                final(nodes)@,
                r,
                env,
            ) == expr_eval(*e, env),
    decreases var_ord@.len() - d,
{
    if d == var_ord.len() {
        let b = eval(e, cof_asgn);
        let r = FunctionNode { head: term, complement: !b };
        proof {
            assert forall|env: Seq<bool>|
                env_agrees(env, old(cof_asgn)@, var_ord@, d as int, *e) implies fn_eval(
                nodes@,
                r,
                env,
            ) == expr_eval(*e, env) by {
                assert forall|v: usize| expr_contains_var(*e, v) implies env[v as int] == old(
                    cof_asgn,
                )@[v as int] by {
                    lemma_vars_lt_contains(*e, old(cof_asgn)@.len() as int, v);
                    assert(!in_tail(var_ord@, d as int, v));
                }
                lemma_expr_eval_agree(*e, env, old(cof_asgn)@);
            }
        }
        r
    } else {
        let ghost cof0 = cof_asgn@;
        let x = var_ord[d];
        proof {
            assert(in_tail(var_ord@, d as int, x)) by {
                assert(var_ord@[d as int] == x);
            }
        }
        if in_support_simplified(x, e) {
            cof_asgn.set(x, true);
            let e_pos = subst_and_simplify(e, x, true);
            proof {
                assert forall|v: usize| expr_contains_var(e_pos, v) implies (v as int) < cof_asgn@.len() by {
                    assert(expr_contains_var(*e, v));
                    lemma_vars_lt_contains(*e, cof_asgn@.len() as int, v);
                }
                lemma_vars_lt_intro(e_pos, cof_asgn@.len() as int);
            }
            let ghost c_pos = cof_asgn@;
            let pos = from_support_simplified_rec(&e_pos, var_ord, d + 1, cof_asgn, nodes);
            let ghost nodes1 = nodes@;
            cof_asgn.set(x, false);
            let e_neg = subst_and_simplify(e, x, false);
            proof {
                assert forall|v: usize| expr_contains_var(e_neg, v) implies (v as int) < cof_asgn@.len() by {
                    assert(expr_contains_var(*e, v));
                    lemma_vars_lt_contains(*e, cof_asgn@.len() as int, v);
                }
                lemma_vars_lt_intro(e_neg, cof_asgn@.len() as int);
            }
            let ghost c_neg = cof_asgn@;
            let neg = from_support_simplified_rec(&e_neg, var_ord, d + 1, cof_asgn, nodes);
            let ghost nodes2 = nodes@;
            proof {
                assert forall|v: usize|
                    (v as int) < cof_asgn@.len() && !in_tail(var_ord@, d as int, v) implies
                    cof_asgn@[v as int] == cof0[v as int] by {
                    assert(v != x);
                    assert(!in_tail(var_ord@, d as int + 1, v));
                }
                assert(fref_wf(nodes2, pos));
                assert(level(nodes2, var_ord@, pos.head) >= d as int + 1) by {
                    if pos.head != term {
                        assert(nodes2[pos.head as int] == nodes1[pos.head as int]);
                    }
                }
            }
            let r = if neg == pos {
                neg
            } else {
                unique_insert(x, pos, neg, nodes, Ghost(var_ord@), Ghost(d as int))
            };
            proof {
                lemma_subst_claim(
                    *e,
                    e_pos,
                    x,
                    true,
                    var_ord@,
                    d as int,
                    c_pos,
                    nodes1,
                    pos,
                );
                lemma_subst_claim(
                    *e,
                    e_neg,
                    x,
                    false,
                    var_ord@,
                    d as int,
                    c_neg,
                    nodes2,
                    neg,
                );
                lemma_expand_branch(
                    *e,
                    var_ord@,
                    d as int,
                    x,
                    cof0,
                    c_pos,
                    c_neg,
                    nodes1,
                    nodes2,
                    nodes@,
                    pos,
                    neg,
                    r,
                );
            }
            r
        } else {
            let r = from_support_simplified_rec(e, var_ord, d + 1, cof_asgn, nodes);
            proof {
                let dd = d as int;
                assert forall|v: usize|
                    (v as int) < cof_asgn@.len() && !in_tail(var_ord@, dd, v) implies cof_asgn@[v
                    as int] == cof0[v as int] by {
                    assert(v != x);
                    assert(!in_tail(var_ord@, dd + 1, v));
                }
                assert forall|env: Seq<bool>|
                    env_agrees(env, cof0, var_ord@, dd, *e) implies fn_eval(nodes@, r, env)
                    == expr_eval(*e, env) by {
                    assert(env_agrees(env, cof0, var_ord@, dd + 1, *e)) by {
                        assert forall|v: usize|
                            expr_contains_var(*e, v) && (v as int) < cof0.len() && !in_tail(
                                var_ord@,
                                dd + 1,
                                v,
                            ) implies env[v as int] == cof0[v as int] by {
                            assert(v != x);
                            assert(!in_tail(var_ord@, dd, v));
                        }
                    }
                }
            }
            r
        }
    }
}

/// Builds the negated-arc ROBDD of `e` under `var_ord` with
/// simplify-then-support pruning: the expression is reduced by substitution
/// as the recursion descends, so later relevance checks are plain occurrence
/// tests.  The diagram denotes exactly the expression.
pub fn from_support_simplified(e: &Expr, var_ord: &[usize]) -> (bdd: Bdd)
    requires
        var_ord@.no_duplicates(),
        forall|k: int| 0 <= k < var_ord@.len() ==> (var_ord@[k] as int) < var_ord@.len(),
        forall|v: usize| expr_contains_var(*e, v) ==> var_ord@.contains(v),
    ensures
        bdd.wf(),
        table_ord_wf(bdd.nodes@, var_ord@),
        table_labels_lt(bdd.nodes@, var_ord@.len() as int),
        forall|env: Seq<bool>| bdd.spec_eval(env) == expr_eval(*e, env),
{
    let n = var_ord.len();
    let mut cof_asgn: Vec<bool> = Vec::new();
    let mut i: usize = 0;
    while i < n
        invariant
            i <= n,
            cof_asgn@.len() == i as int,
        decreases n - i,
    {
        cof_asgn.push(false);
        i += 1;
    }
    proof {
        assert forall|v: usize| expr_contains_var(*e, v) implies (v as int) < n as int by {
            let k = choose|k: int| 0 <= k < var_ord@.len() && var_ord@[k] == v;
            assert((var_ord@[k] as int) < var_ord@.len());
        }
        lemma_vars_lt_intro(*e, n as int);
    }
    let mut nodes: Vec<InternalNode> = Vec::new();
    let f = from_support_simplified_rec(e, var_ord, 0, &mut cof_asgn, &mut nodes);
    proof {
        assert forall|env: Seq<bool>| fn_eval(nodes@, f, env) == expr_eval(*e, env) by {
            assert forall|v: usize|
                expr_contains_var(*e, v) && !in_tail(var_ord@, 0, v) implies false by {
                assert(var_ord@.contains(v));
                let k = choose|k: int| 0 <= k < var_ord@.len() && var_ord@[k] == v;
                assert(in_tail(var_ord@, 0, v));
            }
        }
        lemma_labels_lt_from_ord(nodes@, var_ord@, var_ord@.len() as int);
    }
    Bdd { f, nodes }
}

/// The support analysis of `e` with respect to `x`, over a hash-map partial
/// assignment; returns exactly the algebra's verdict.
fn support_rec(x: usize, e: &Expr, cof_asgn: &PartialEnv) -> (s: SupportResult)
    ensures
        s == support_val(x, *e, cof_asgn@),
    decreases *e,
{
    proof {
        reveal(support_val);
    }
    match e {
        Expr::Lit(b) => SupportResult::IndependantConst(*b),
        Expr::Var(x2) => {
            if *x2 == x {
                SupportResult::Dependant
            } else {
                match cof_asgn.get(x2) {
                    Some(b) => SupportResult::IndependantConst(*b),
                    None => SupportResult::IndependantVaries,
                }
            }
        }
        Expr::Not(e1) => {
            match support_rec(x, &**e1, cof_asgn) {
                SupportResult::IndependantConst(b) => SupportResult::IndependantConst(!b),
                s => s,
            }
        }
        Expr::Binary(e1, op, e2) => {
            let s1 = support_rec(x, &**e1, cof_asgn);
            let s2 = support_rec(x, &**e2, cof_asgn);
            match op {
                crate::expr::BOp::And => match (s1, s2) {
                    (SupportResult::IndependantConst(false), _)
                        => SupportResult::IndependantConst(false),
                    (_, SupportResult::IndependantConst(false))
                        => SupportResult::IndependantConst(false),
                    (SupportResult::IndependantConst(true), s) => s,
                    (s, SupportResult::IndependantConst(true)) => s,
                    (SupportResult::Dependant, _) => SupportResult::Dependant,
                    (_, SupportResult::Dependant) => SupportResult::Dependant,
                    (SupportResult::IndependantVaries, SupportResult::IndependantVaries)
                        => SupportResult::IndependantVaries,
                },
                crate::expr::BOp::Or => match (s1, s2) {
                    (SupportResult::IndependantConst(true), _)
                        => SupportResult::IndependantConst(true),
                    (_, SupportResult::IndependantConst(true))
                        => SupportResult::IndependantConst(true),
                    (SupportResult::IndependantConst(false), s) => s,
                    (s, SupportResult::IndependantConst(false)) => s,
                    (SupportResult::Dependant, _) => SupportResult::Dependant,
                    (_, SupportResult::Dependant) => SupportResult::Dependant,
                    (SupportResult::IndependantVaries, SupportResult::IndependantVaries)
                        => SupportResult::IndependantVaries,
                },
            }
        }
    }
}

/// Whether `x` can still affect the value of `e` given the hash-map partial
/// assignment: the oracle behind the support-pruning builder.
pub fn in_support(x: usize, e: &Expr, cof_asgn: &PartialEnv) -> (r: bool)
    ensures
        r == (support_val(x, *e, cof_asgn@) == SupportResult::Dependant),
{
    let s = support_rec(x, e, cof_asgn);
    match s {
        SupportResult::Dependant => true,
        _ => false,
    }
}

/// Relates the padded partial assignment at the bottom of the recursion to
/// the ghost path vector: with the whole order assigned, the two evaluate the
/// expression alike.
proof fn lemma_padded_env_full(
    e: Expr,
    ord: Seq<usize>,
    cof_g: Seq<bool>,
    valid_g: Seq<bool>,
    m: Map<usize, bool>,
)
    requires
        ord.no_duplicates(),
        cof_g.len() == valid_g.len(),
        forall|k: int| 0 <= k < ord.len() ==> (ord[k] as int) < cof_g.len(),
        forall|k: int| 0 <= k < ord.len() ==> (ord[k] as int) < ord.len(),
        expr_vars_lt(e, cof_g.len() as int),
        forall|v: usize|
            (v as int) < valid_g.len() ==> (valid_g[v as int] <==> in_head(
                ord,
                ord.len() as int,
                v,
            )),
        forall|v: usize| expr_contains_var(e, v) ==> ord.contains(v),
        m == map_of_vecs(cof_g, valid_g),
    ensures
        m.dom().len() == ord.len(),
        expr_eval(e, padded_env(m)) == expr_eval(e, cof_g),
{
    reveal(map_of_vecs);
    assert(m.dom() =~= ord.to_set()) by {
        assert forall|v: usize| m.dom().contains(v) implies ord.to_set().contains(v) by {
            assert(valid_g[v as int]);
            assert(in_head(ord, ord.len() as int, v));
            let i = choose|i: int| 0 <= i < ord.len() && ord[i] == v;
            assert(ord.contains(v));
        }
        assert forall|v: usize| ord.to_set().contains(v) implies m.dom().contains(v) by {
            assert(ord.contains(v));
            let i = choose|i: int| 0 <= i < ord.len() && ord[i] == v;
            assert((ord[i] as int) < cof_g.len());
            assert(in_head(ord, ord.len() as int, v));
        }
    }
    ord.unique_seq_to_set();
    assert(m.dom().len() == ord.len());
    assert forall|v: usize| expr_contains_var(e, v) implies padded_env(m)[v as int] == cof_g[v
        as int] by {
        lemma_vars_lt_contains(e, cof_g.len() as int, v);
        assert(ord.contains(v));
        let i = choose|i: int| 0 <= i < ord.len() && ord[i] == v;
        assert(in_head(ord, ord.len() as int, v));
        assert(m.dom().contains(v));
        assert((v as int) < m.dom().len() as int) by {
            assert((ord[i] as int) < ord.len());
        }
    }
    lemma_expr_eval_agree(e, padded_env(m), cof_g);
}

/// Recursive negated-arc construction with exact support pruning over a
/// hash-map partial assignment.  The ghost pair of vectors mirrors the map's
/// contents so the path reasoning is the same as for the vector-backed
/// variant.
#[verifier::rlimit(100)]
#[verifier::spinoff_prover]
fn from_support_rec(
    e: &Expr,
    var_ord: &[usize],
    d: usize,
    cof_asgn: &mut PartialEnv,
    nodes: &mut Vec<InternalNode>,
    Ghost(cof_g): Ghost<Seq<bool>>,
    Ghost(valid_g): Ghost<Seq<bool>>,
) -> (r: FunctionNode)
    requires
        d <= var_ord@.len(),
        var_ord@.no_duplicates(),
        cof_g.len() == valid_g.len(),
        forall|k: int| 0 <= k < var_ord@.len() ==> (var_ord@[k] as int) < cof_g.len(),
        forall|k: int| 0 <= k < var_ord@.len() ==> (var_ord@[k] as int) < var_ord@.len(),
        expr_vars_lt(*e, cof_g.len() as int),
        forall|v: usize| expr_contains_var(*e, v) ==> var_ord@.contains(v),
        forall|v: usize|
            (v as int) < valid_g.len() ==> (valid_g[v as int] <==> in_head(var_ord@, d as int, v)),
        old(cof_asgn)@ == map_of_vecs(cof_g, valid_g),
        table_wf(old(nodes)@),
        table_unique(old(nodes)@),
        table_reduced(old(nodes)@),
        table_ord_wf(old(nodes)@, var_ord@),
    ensures
        final(cof_asgn)@ == old(cof_asgn)@,
        table_wf(final(nodes)@),
        table_unique(final(nodes)@),
        table_reduced(final(nodes)@),
        table_ord_wf(final(nodes)@, var_ord@),
        old(nodes)@.len() <= final(nodes)@.len(),
        forall|j: int| 0 <= j < old(nodes)@.len() ==> old(nodes)@[j] == final(nodes)@[j],
        fref_wf(final(nodes)@, r),
        level(final(nodes)@, var_ord@, r.head) >= d as int,
        forall|env: Seq<bool>|
            env_agrees(env, cof_g, var_ord@, d as int, *e) ==> fn_eval(final(nodes)@, r, env)
                == expr_eval(*e, env),
    decreases var_ord@.len() - d,
{
    if d == var_ord.len() {
        proof {
            lemma_padded_env_full(*e, var_ord@, cof_g, valid_g, cof_asgn@);
            assert forall|v: usize|
                expr_contains_var(*e, v) implies (v as int) < var_ord@.len() by {
                assert(var_ord@.contains(v));
                let k = choose|k: int| 0 <= k < var_ord@.len() && var_ord@[k] == v;
                assert((var_ord@[k] as int) < var_ord@.len());
            }
            lemma_vars_lt_intro(*e, var_ord@.len() as int);
        }
        let b = eval_partial(e, cof_asgn);
        let r = FunctionNode { head: term, complement: !b };
        proof {
            assert forall|env: Seq<bool>|
                env_agrees(env, cof_g, var_ord@, d as int, *e) implies fn_eval(nodes@, r, env)
                == expr_eval(*e, env) by {
                assert forall|v: usize| expr_contains_var(*e, v) implies env[v as int] == cof_g[v
                    as int] by {
                    lemma_vars_lt_contains(*e, cof_g.len() as int, v);
                    assert(!in_tail(var_ord@, d as int, v));
                }
                lemma_expr_eval_agree(*e, env, cof_g);
            }
        }
        r
    } else {
        let ghost m0 = cof_asgn@;
        let x = var_ord[d];
        proof {
            assert(in_tail(var_ord@, d as int, x)) by {
                assert(var_ord@[d as int] == x);
            }
            assert(!in_head(var_ord@, d as int, x)) by {
                if in_head(var_ord@, d as int, x) {
                    let i = choose|i: int| 0 <= i < d && var_ord@[i] == x;
                    assert(var_ord@[i] == var_ord@[d as int] && i != d);
                }
            }
            assert(!valid_g[x as int]);
        }
        let ghost valid1 = valid_g.update(x as int, true);
        proof {
            assert forall|v: usize|
                (v as int) < valid1.len() implies (valid1[v as int] <==> in_head(
                var_ord@,
                d as int + 1,
                v,
            )) by {
                if v == x {
                    assert(var_ord@[d as int] == x);
                    assert(in_head(var_ord@, d as int + 1, x));
                } else {
                    assert(in_head(var_ord@, d as int, v) <==> in_head(var_ord@, d as int + 1, v));
                }
            }
        }
        if in_support(x, e, cof_asgn) {
            cof_asgn.insert(x, true);
            let ghost c_pos = cof_g.update(x as int, true);
            proof {
                reveal(map_of_vecs);
                assert(cof_asgn@ =~= map_of_vecs(c_pos, valid1));
            }
            let pos = from_support_rec(
                e,
                var_ord,
                d + 1,
                cof_asgn,
                nodes,
                Ghost(c_pos),
                Ghost(valid1),
            );
            let ghost nodes1 = nodes@;
            cof_asgn.insert(x, false);
            let ghost c_neg = cof_g.update(x as int, false);
            proof {
                reveal(map_of_vecs);
                assert(cof_asgn@ =~= map_of_vecs(c_neg, valid1));
            }
            let neg = from_support_rec(
                e,
                var_ord,
                d + 1,
                cof_asgn,
                nodes,
                Ghost(c_neg),
                Ghost(valid1),
            );
            let ghost nodes2 = nodes@;
            cof_asgn.remove(&x);
            proof {
                reveal(map_of_vecs);
                assert(cof_asgn@ =~= map_of_vecs(cof_g, valid_g));
                assert(cof_asgn@ == m0);
                assert(fref_wf(nodes2, pos));
                assert(level(nodes2, var_ord@, pos.head) >= d as int + 1) by {
                    if pos.head != term {
                        assert(nodes2[pos.head as int] == nodes1[pos.head as int]);
                    }
                }
            }
            let r = if neg == pos {
                neg
            } else {
                unique_insert(x, pos, neg, nodes, Ghost(var_ord@), Ghost(d as int))
            };
            proof {
                lemma_expand_branch(
                    *e,
                    var_ord@,
                    d as int,
                    x,
                    cof_g,
                    c_pos,
                    c_neg,
                    nodes1,
                    nodes2,
                    nodes@,
                    pos,
                    neg,
                    r,
                );
            }
            r
        } else {
            cof_asgn.insert(x, false);
            let ghost c1 = cof_g.update(x as int, false);
            proof {
                reveal(map_of_vecs);
                assert(cof_asgn@ =~= map_of_vecs(c1, valid1));
            }
            let r = from_support_rec(
                e,
                var_ord,
                d + 1,
                cof_asgn,
                nodes,
                Ghost(c1),
                Ghost(valid1),
            );
            cof_asgn.remove(&x);
            proof {
                reveal(map_of_vecs);
                assert(cof_asgn@ =~= map_of_vecs(cof_g, valid_g));
                assert(cof_asgn@ == m0);
                lemma_prune_branch(*e, var_ord@, d as int, x, cof_g, valid_g, nodes@, r);
            }
            r
        }
    }
}

/// Builds the negated-arc ROBDD of `e` under `var_ord` with exact support
/// pruning over a hash-map partial assignment.  Semantically equivalent to
/// the non-pruning builder: the diagram denotes exactly the expression.
pub fn from_support(e: &Expr, var_ord: &[usize]) -> (bdd: Bdd)
    requires
        var_ord@.no_duplicates(),
        forall|k: int| 0 <= k < var_ord@.len() ==> (var_ord@[k] as int) < var_ord@.len(),
        forall|v: usize| expr_contains_var(*e, v) ==> var_ord@.contains(v),
    ensures
        bdd.wf(),
        table_ord_wf(bdd.nodes@, var_ord@),
        table_labels_lt(bdd.nodes@, var_ord@.len() as int),
        forall|env: Seq<bool>| bdd.spec_eval(env) == expr_eval(*e, env),
{
    let n = var_ord.len();
    let ghost cof_g = Seq::new(n as nat, |i: int| false);
    let ghost valid_g = Seq::new(n as nat, |i: int| false);
    proof {
        assert forall|v: usize| expr_contains_var(*e, v) implies (v as int) < n as int by {
            let k = choose|k: int| 0 <= k < var_ord@.len() && var_ord@[k] == v;
            assert((var_ord@[k] as int) < var_ord@.len());
        }
        lemma_vars_lt_intro(*e, n as int);
    }
    let mut cof_asgn: PartialEnv = std::collections::HashMap::new();
    proof {
        reveal(map_of_vecs);
        assert(cof_asgn@ =~= map_of_vecs(cof_g, valid_g));
    }
    let mut nodes: Vec<InternalNode> = Vec::new();
    let f = from_support_rec(
        e,
        var_ord,
        0,
        &mut cof_asgn,
        &mut nodes,
        Ghost(cof_g),
        Ghost(valid_g),
    );
    proof {
        assert forall|env: Seq<bool>| fn_eval(nodes@, f, env) == expr_eval(*e, env) by {
            assert forall|v: usize|
                expr_contains_var(*e, v) && !in_tail(var_ord@, 0, v) implies false by {
                assert(var_ord@.contains(v));
                let k = choose|k: int| 0 <= k < var_ord@.len() && var_ord@[k] == v;
                assert(in_tail(var_ord@, 0, v));
            }
        }
        lemma_labels_lt_from_ord(nodes@, var_ord@, var_ord@.len() as int);
    }
    Bdd { f, nodes }
}

/// The support analysis of `e` with respect to `x`, over an ordered-map
/// partial assignment; returns exactly the algebra's verdict.
fn support_rec_btree(x: usize, e: &Expr, cof_asgn: &PartialEnvBTree) -> (s: SupportResult)
    ensures
        s == support_val(x, *e, cof_asgn@),
    decreases *e,
{
    proof {
        reveal(support_val);
    }
    match e {
        Expr::Lit(b) => SupportResult::IndependantConst(*b),
        Expr::Var(x2) => {
            if *x2 == x {
                SupportResult::Dependant
            } else {
                match cof_asgn.get(x2) {
                    Some(b) => SupportResult::IndependantConst(*b),
                    None => SupportResult::IndependantVaries,
                }
            }
        }
        Expr::Not(e1) => {
            match support_rec_btree(x, &**e1, cof_asgn) {
                SupportResult::IndependantConst(b) => SupportResult::IndependantConst(!b),
                s => s,
            }
        }
        Expr::Binary(e1, op, e2) => {
            let s1 = support_rec_btree(x, &**e1, cof_asgn);
            let s2 = support_rec_btree(x, &**e2, cof_asgn);
            match op {
                crate::expr::BOp::And => match (s1, s2) {
                    (SupportResult::IndependantConst(false), _)
                        => SupportResult::IndependantConst(false),
                    (_, SupportResult::IndependantConst(false))
                        => SupportResult::IndependantConst(false),
                    (SupportResult::IndependantConst(true), s) => s,
                    (s, SupportResult::IndependantConst(true)) => s,
                    (SupportResult::Dependant, _) => SupportResult::Dependant,
                    (_, SupportResult::Dependant) => SupportResult::Dependant,
                    (SupportResult::IndependantVaries, SupportResult::IndependantVaries)
                        => SupportResult::IndependantVaries,
                },
                crate::expr::BOp::Or => match (s1, s2) {
                    (SupportResult::IndependantConst(true), _)
                        => SupportResult::IndependantConst(true),
                    (_, SupportResult::IndependantConst(true))
                        => SupportResult::IndependantConst(true),
                    (SupportResult::IndependantConst(false), s) => s,
                    (s, SupportResult::IndependantConst(false)) => s,
                    (SupportResult::Dependant, _) => SupportResult::Dependant,
                    (_, SupportResult::Dependant) => SupportResult::Dependant,
                    (SupportResult::IndependantVaries, SupportResult::IndependantVaries)
                        => SupportResult::IndependantVaries,
                },
            }
        }
    }
}

/// Whether `x` can still affect the value of `e` given the ordered-map
/// partial assignment.
pub fn in_support_btree(x: usize, e: &Expr, cof_asgn: &PartialEnvBTree) -> (r: bool)
    ensures
        r == (support_val(x, *e, cof_asgn@) == SupportResult::Dependant),
{
    let s = support_rec_btree(x, e, cof_asgn);
    match s {
        SupportResult::Dependant => true,
        _ => false,
    }
}

/// Recursive negated-arc construction with exact support pruning over an
/// ordered-map partial assignment; the path reasoning is shared with the
/// other pruning variants through the same ghost vectors.
#[verifier::rlimit(100)]
#[verifier::spinoff_prover]
fn from_support_btree_rec(
    e: &Expr,
    var_ord: &[usize],
    d: usize,
    cof_asgn: &mut PartialEnvBTree,
    nodes: &mut Vec<InternalNode>,
    Ghost(cof_g): Ghost<Seq<bool>>,
    Ghost(valid_g): Ghost<Seq<bool>>,
) -> (r: FunctionNode)
    requires
        d <= var_ord@.len(),
        var_ord@.no_duplicates(),
        cof_g.len() == valid_g.len(),
        forall|k: int| 0 <= k < var_ord@.len() ==> (var_ord@[k] as int) < cof_g.len(),
        forall|k: int| 0 <= k < var_ord@.len() ==> (var_ord@[k] as int) < var_ord@.len(),
        expr_vars_lt(*e, cof_g.len() as int),
        forall|v: usize| expr_contains_var(*e, v) ==> var_ord@.contains(v),
        forall|v: usize|
            (v as int) < valid_g.len() ==> (valid_g[v as int] <==> in_head(var_ord@, d as int, v)),
        old(cof_asgn)@ == map_of_vecs(cof_g, valid_g),
        table_wf(old(nodes)@),
        table_unique(old(nodes)@),
        table_reduced(old(nodes)@),
        table_ord_wf(old(nodes)@, var_ord@),
    ensures
        final(cof_asgn)@ == old(cof_asgn)@,
        table_wf(final(nodes)@),
        table_unique(final(nodes)@),
        table_reduced(final(nodes)@),
        table_ord_wf(final(nodes)@, var_ord@),
        old(nodes)@.len() <= final(nodes)@.len(),
        forall|j: int| 0 <= j < old(nodes)@.len() ==> old(nodes)@[j] == final(nodes)@[j],
        fref_wf(final(nodes)@, r),
        level(final(nodes)@, var_ord@, r.head) >= d as int,
        forall|env: Seq<bool>|
            env_agrees(env, cof_g, var_ord@, d as int, *e) ==> fn_eval(final(nodes)@, r, env)
                == expr_eval(*e, env),
    decreases var_ord@.len() - d,
{
    if d == var_ord.len() {
        proof {
            lemma_padded_env_full(*e, var_ord@, cof_g, valid_g, cof_asgn@);
            assert forall|v: usize|
                expr_contains_var(*e, v) implies (v as int) < var_ord@.len() by {
                assert(var_ord@.contains(v));
                let k = choose|k: int| 0 <= k < var_ord@.len() && var_ord@[k] == v;
                assert((var_ord@[k] as int) < var_ord@.len());
            }
            lemma_vars_lt_intro(*e, var_ord@.len() as int);
        }
        let b = eval_partialbtree(e, cof_asgn);
        let r = FunctionNode { head: term, complement: !b };
        proof {
            assert forall|env: Seq<bool>|
                env_agrees(env, cof_g, var_ord@, d as int, *e) implies fn_eval(nodes@, r, env)
                == expr_eval(*e, env) by {
                assert forall|v: usize| expr_contains_var(*e, v) implies env[v as int] == cof_g[v
                    as int] by {
                    lemma_vars_lt_contains(*e, cof_g.len() as int, v);
                    assert(!in_tail(var_ord@, d as int, v));
                }
                lemma_expr_eval_agree(*e, env, cof_g);
            }
        }
        r
    } else {
        let ghost m0 = cof_asgn@;
        let x = var_ord[d];
        proof {
            assert(in_tail(var_ord@, d as int, x)) by {
                assert(var_ord@[d as int] == x);
            }
            assert(!in_head(var_ord@, d as int, x)) by {
                if in_head(var_ord@, d as int, x) {
                    let i = choose|i: int| 0 <= i < d && var_ord@[i] == x;
                    assert(var_ord@[i] == var_ord@[d as int] && i != d);
                }
            }
            assert(!valid_g[x as int]);
        }
        let ghost valid1 = valid_g.update(x as int, true);
        proof {
            assert forall|v: usize|
                (v as int) < valid1.len() implies (valid1[v as int] <==> in_head(
                var_ord@,
                d as int + 1,
                v,
            )) by {
                if v == x {
                    assert(var_ord@[d as int] == x);
                    assert(in_head(var_ord@, d as int + 1, x));
                } else {
                    assert(in_head(var_ord@, d as int, v) <==> in_head(var_ord@, d as int + 1, v));
                }
            }
        }
        if in_support_btree(x, e, cof_asgn) {
            cof_asgn.insert(x, true);
            let ghost c_pos = cof_g.update(x as int, true);
            proof {
                reveal(map_of_vecs);
                assert(cof_asgn@ =~= map_of_vecs(c_pos, valid1));
            }
            let pos = from_support_btree_rec(
                e,
                var_ord,
                d + 1,
                cof_asgn,
                nodes,
                Ghost(c_pos),
                Ghost(valid1),
            );
            let ghost nodes1 = nodes@;
            cof_asgn.insert(x, false);
            let ghost c_neg = cof_g.update(x as int, false);
            proof {
                reveal(map_of_vecs);
                assert(cof_asgn@ =~= map_of_vecs(c_neg, valid1));
            }
            let neg = from_support_btree_rec(
                e,
                var_ord,
                d + 1,
                cof_asgn,
                nodes,
                Ghost(c_neg),
                Ghost(valid1),
            );
            let ghost nodes2 = nodes@;
            cof_asgn.remove(&x);
            proof {
                reveal(map_of_vecs);
                assert(cof_asgn@ =~= map_of_vecs(cof_g, valid_g));
                assert(cof_asgn@ == m0);
                assert(fref_wf(nodes2, pos));
                assert(level(nodes2, var_ord@, pos.head) >= d as int + 1) by {
                    if pos.head != term {
                        assert(nodes2[pos.head as int] == nodes1[pos.head as int]);
                    }
                }
            }
            let r = if neg == pos {
                neg
            } else {
                unique_insert(x, pos, neg, nodes, Ghost(var_ord@), Ghost(d as int))
            };
            proof {
                lemma_expand_branch(
                    *e,
                    var_ord@,
                    d as int,
                    x,
                    cof_g,
                    c_pos,
                    c_neg,
                    nodes1,
                    nodes2,
                    nodes@,
                    pos,
                    neg,
                    r,
                );
            }
            r
        } else {
            cof_asgn.insert(x, false);
            let ghost c1 = cof_g.update(x as int, false);
            proof {
                reveal(map_of_vecs);
                assert(cof_asgn@ =~= map_of_vecs(c1, valid1));
            }
            let r = from_support_btree_rec(
                e,
                var_ord,
                d + 1,
                cof_asgn,
                nodes,
                Ghost(c1),
                Ghost(valid1),
            );
            cof_asgn.remove(&x);
            proof {
                reveal(map_of_vecs);
                assert(cof_asgn@ =~= map_of_vecs(cof_g, valid_g));
                assert(cof_asgn@ == m0);
                lemma_prune_branch(*e, var_ord@, d as int, x, cof_g, valid_g, nodes@, r);
            }
            r
        }
    }
}

/// Builds the negated-arc ROBDD of `e` under `var_ord` with exact support
/// pruning over an ordered-map partial assignment.  Semantically equivalent
/// to the non-pruning builder: the diagram denotes exactly the expression.
pub fn from_support_btree(e: &Expr, var_ord: &[usize]) -> (bdd: Bdd)
    requires
        var_ord@.no_duplicates(),
        forall|k: int| 0 <= k < var_ord@.len() ==> (var_ord@[k] as int) < var_ord@.len(),
        forall|v: usize| expr_contains_var(*e, v) ==> var_ord@.contains(v),
    ensures
        bdd.wf(),
        table_ord_wf(bdd.nodes@, var_ord@),
        table_labels_lt(bdd.nodes@, var_ord@.len() as int),
        forall|env: Seq<bool>| bdd.spec_eval(env) == expr_eval(*e, env),
{
    let n = var_ord.len();
    let ghost cof_g = Seq::new(n as nat, |i: int| false);
    let ghost valid_g = Seq::new(n as nat, |i: int| false);
    proof {
        assert forall|v: usize| expr_contains_var(*e, v) implies (v as int) < n as int by {
            let k = choose|k: int| 0 <= k < var_ord@.len() && var_ord@[k] == v;
            assert((var_ord@[k] as int) < var_ord@.len());
        }
        lemma_vars_lt_intro(*e, n as int);
    }
    let mut cof_asgn: PartialEnvBTree = std::collections::BTreeMap::new();
    proof {
        reveal(map_of_vecs);
        assert(cof_asgn@ =~= map_of_vecs(cof_g, valid_g));
    }
    let mut nodes: Vec<InternalNode> = Vec::new();
    let f = from_support_btree_rec(
        e,
        var_ord,
        0,
        &mut cof_asgn,
        &mut nodes,
        Ghost(cof_g),
        Ghost(valid_g),
    );
    proof {
        assert forall|env: Seq<bool>| fn_eval(nodes@, f, env) == expr_eval(*e, env) by {
            assert forall|v: usize|
                expr_contains_var(*e, v) && !in_tail(var_ord@, 0, v) implies false by {
                assert(var_ord@.contains(v));
                let k = choose|k: int| 0 <= k < var_ord@.len() && var_ord@[k] == v;
                assert(in_tail(var_ord@, 0, v));
            }
        }
        lemma_labels_lt_from_ord(nodes@, var_ord@, var_ord@.len() as int);
    }
    Bdd { f, nodes }
}

/// The character of a single decimal digit.
pub open spec fn dec_digit_char(d: int) -> char {
    if d == 0 {
        '0'
    } else if d == 1 {
        '1'
    } else if d == 2 {
        '2'
    } else if d == 3 {
        '3'
    } else if d == 4 {
        '4'
    } else if d == 5 {
        '5'
    } else if d == 6 {
        '6'
    } else if d == 7 {
        '7'
    } else if d == 8 {
        '8'
    } else {
        '9'
    }
}

/// The decimal rendering of a non-negative number, most significant digit
/// first.
pub open spec fn dec_digits(n: int) -> Seq<char>
    decreases n,
{
    if n < 10 {
        seq![dec_digit_char(n)]
    } else {
        dec_digits(n / 10).push(dec_digit_char(n % 10))
    }
}

/// Appends one decimal digit character to a string.
fn push_digit(s: &mut String, d: usize)
    requires
        d < 10,
    ensures
        final(s)@ == old(s)@.push(dec_digit_char(d as int)),
{
    match d {
        0 => {
            s.append("0");
            proof {
                reveal_strlit("0");
                assert(s@ =~= old(s)@.push(dec_digit_char(0)));
            }
        }
        1 => {
            s.append("1");
            proof {
                reveal_strlit("1");
                assert(s@ =~= old(s)@.push(dec_digit_char(1)));
            }
        }
        2 => {
            s.append("2");
            proof {
                reveal_strlit("2");
                assert(s@ =~= old(s)@.push(dec_digit_char(2)));
            }
        }
        3 => {
            s.append("3");
            proof {
                reveal_strlit("3");
                assert(s@ =~= old(s)@.push(dec_digit_char(3)));
            }
        }
        4 => {
            s.append("4");
            proof {
                reveal_strlit("4");
                assert(s@ =~= old(s)@.push(dec_digit_char(4)));
            }
        }
        5 => {
            s.append("5");
            proof {
                reveal_strlit("5");
                assert(s@ =~= old(s)@.push(dec_digit_char(5)));
            }
        }
        6 => {
            s.append("6");
            proof {
                reveal_strlit("6");
                assert(s@ =~= old(s)@.push(dec_digit_char(6)));
            }
        }
        7 => {
            s.append("7");
            proof {
                reveal_strlit("7");
                assert(s@ =~= old(s)@.push(dec_digit_char(7)));
            }
        }
        8 => {
            s.append("8");
            proof {
                reveal_strlit("8");
                assert(s@ =~= old(s)@.push(dec_digit_char(8)));
            }
        }
        _ => {
            s.append("9");
            proof {
                reveal_strlit("9");
                assert(s@ =~= old(s)@.push(dec_digit_char(9)));
            }
        }
    }
}

/// Renders a number in decimal.
fn to_decimal(n: usize) -> (s: String)
    ensures
        s@ == dec_digits(n as int),
{
    let mut digits: Vec<usize> = Vec::new();
    let mut m = n;
    digits.push(m % 10);
    m = m / 10;
    while m > 0
        invariant
            digits@.len() >= 1,
            forall|i: int| 0 <= i < digits@.len() ==> (#[trigger] digits@[i] as int) < 10,
            dec_digits(n as int) == (if m > 0 {
                dec_digits(m as int)
            } else {
                Seq::<char>::empty()
            }) + Seq::new(digits@.len(), |i: int| dec_digit_char(digits@[digits@.len() - 1 - i] as int)),
        decreases m,
    {
        proof {
            let ds = digits@;
            let ds2 = ds.push(m % 10);
            assert(Seq::new(ds2.len(), |i: int| dec_digit_char(ds2[ds2.len() - 1 - i] as int))
                =~= seq![dec_digit_char((m % 10) as int)] + Seq::new(
                ds.len(),
                |i: int| dec_digit_char(ds[ds.len() - 1 - i] as int),
            ));
            if m >= 10 {
                assert(dec_digits(m as int) == dec_digits(m as int / 10).push(
                    dec_digit_char(m as int % 10),
                ));
                assert(dec_digits(m as int) =~= dec_digits(m as int / 10) + seq![
                    dec_digit_char(m as int % 10)
                ]);
            } else {
                assert(dec_digits(m as int) == seq![dec_digit_char(m as int)]);
            }
        }
        digits.push(m % 10);
        m = m / 10;
        proof {
            assert(dec_digits(n as int) =~= (if m > 0 {
                dec_digits(m as int)
            } else {
                Seq::<char>::empty()
            }) + Seq::new(
                digits@.len(),
                |i: int| dec_digit_char(digits@[digits@.len() - 1 - i] as int),
            ));
        }
    }
    let mut s = String::new();
    let mut i = digits.len();
    while i > 0
        invariant
            i <= digits@.len(),
            forall|k: int| 0 <= k < digits@.len() ==> (#[trigger] digits@[k] as int) < 10,
            dec_digits(n as int) == Seq::new(
                digits@.len(),
                |k: int| dec_digit_char(digits@[digits@.len() - 1 - k] as int),
            ),
            s@ =~= Seq::new(
                (digits@.len() - i) as nat,
                |k: int| dec_digit_char(digits@[digits@.len() - 1 - k] as int),
            ),
        decreases i,
    {
        i = i - 1;
        push_digit(&mut s, digits[i]);
        proof {
            assert(s@ =~= Seq::new(
                (digits@.len() - i) as nat,
                |k: int| dec_digit_char(digits@[digits@.len() - 1 - k] as int),
            ));
        }
    }
    proof {
        assert(s@ =~= dec_digits(n as int));
    }
    s
}

/// The visited mask after a depth-first walk from `h`: every node reachable
/// from `h` (and not already masked) becomes marked.
pub open spec fn mark(nodes: Seq<InternalNode>, h: usize, vis: Seq<bool>) -> Seq<bool>
    decreases fn_measure(h),
{
    if h == term {
        vis
    } else if (h as int) < nodes.len() && (h as int) < vis.len() && arc_wf(
        nodes[h as int].t_arc,
        h as int,
    ) && arc_wf(nodes[h as int].e_arc, h as int) {
        if vis[h as int] {
            vis
        } else {
            let nd = nodes[h as int];
            mark(nodes, nd.e_arc, mark(nodes, nd.t_arc, vis.update(h as int, true)))
        }
    } else {
        vis
    }
}

/// How many entries of the mask are set.
pub open spec fn count_true(s: Seq<bool>) -> int
    decreases s.len(),
{
    if s.len() == 0 {
        0
    } else {
        count_true(s.drop_last()) + if s.last() {
            1int
        } else {
            0int
        }
    }
}

/// Marking never changes the mask's length.
pub proof fn lemma_mark_len(nodes: Seq<InternalNode>, h: usize, vis: Seq<bool>)
    ensures
        mark(nodes, h, vis).len() == vis.len(),
    decreases fn_measure(h),
{
    if h != term && (h as int) < nodes.len() && (h as int) < vis.len() && arc_wf(
        nodes[h as int].t_arc,
        h as int,
    ) && arc_wf(nodes[h as int].e_arc, h as int) && !vis[h as int] {
        let nd = nodes[h as int];
        lemma_mark_len(nodes, nd.t_arc, vis.update(h as int, true));
        lemma_mark_len(nodes, nd.e_arc, mark(nodes, nd.t_arc, vis.update(h as int, true)));
    }
}

/// The text a node renders to, and the mask after rendering it.  A node seen
/// for the first time renders as a definition `n<id> @ x<var> := (then,
/// else)`; a node already marked renders as the bare back-reference `n<id>`;
/// the terminal renders as `T` or `F` according to the pending complement; a
/// pending complement on an internal node prefixes `!`.
pub open spec fn render_spec(
    nodes: Seq<InternalNode>,
    h: usize,
    calc: Seq<bool>,
    negate: bool,
) -> (Seq<char>, Seq<bool>)
    decreases fn_measure(h),
{
    if h == term {
        (
            if negate {
                "F"@
            } else {
                "T"@
            },
            calc,
        )
    } else if (h as int) < nodes.len() && (h as int) < calc.len() && arc_wf(
        nodes[h as int].t_arc,
        h as int,
    ) && arc_wf(nodes[h as int].e_arc, h as int) {
        let neg_part: Seq<char> = if negate {
            "!"@
        } else {
            Seq::empty()
        };
        if calc[h as int] {
            (neg_part + "n"@ + dec_digits(h as int), calc)
        } else {
            let nd = nodes[h as int];
            let calc1 = calc.update(h as int, true);
            let tr = render_spec(nodes, nd.t_arc, calc1, false);
            let er = render_spec(nodes, nd.e_arc, tr.1, nd.e_complement);
            (
                neg_part + "n"@ + dec_digits(h as int) + " @ x"@ + dec_digits(nd.label as int)
                    + " := ("@ + tr.0 + ", "@ + er.0 + ")"@,
                er.1,
            )
        }
    } else {
        (Seq::empty(), calc)
    }
}

/// Rendering marks exactly the nodes that the size walk marks: the set of
/// nodes rendered as definitions is the set the node count counts.
pub proof fn lemma_render_marks_as_size(
    nodes: Seq<InternalNode>,
    h: usize,
    vis: Seq<bool>,
    negate: bool,
)
    ensures
        render_spec(nodes, h, vis, negate).1 == mark(nodes, h, vis),
    decreases fn_measure(h),
{
    if h != term && (h as int) < nodes.len() && (h as int) < vis.len() && arc_wf(
        nodes[h as int].t_arc,
        h as int,
    ) && arc_wf(nodes[h as int].e_arc, h as int) && !vis[h as int] {
        let nd = nodes[h as int];
        let calc1 = vis.update(h as int, true);
        lemma_render_marks_as_size(nodes, nd.t_arc, calc1, false);
        lemma_render_marks_as_size(
            nodes,
            nd.e_arc,
            render_spec(nodes, nd.t_arc, calc1, false).1,
            nd.e_complement,
        );
    }
}

impl Bdd {
    /// The number of internal nodes reachable from the root, the terminal
    /// excluded.
    pub open spec fn spec_size(self) -> int {
        count_true(
            mark(self.nodes@, self.f.head, Seq::new(self.nodes@.len() as nat, |i: int| false)),
        )
    }

    /// Marks every node reachable from `n` into `visited`.
    fn size_rec(&self, n: usize, visited: &mut Vec<bool>)
        requires
            table_wf(self.nodes@),
            n == term || (n as int) < self.nodes@.len(),
            old(visited)@.len() == self.nodes@.len(),
        ensures
            final(visited)@ == mark(self.nodes@, n, old(visited)@),
        decreases fn_measure(n),
    {
        if n != term {
            if !visited[n] {
                proof {
                    assert(arc_wf(self.nodes@[n as int].t_arc, n as int) && arc_wf(
                        self.nodes@[n as int].e_arc,
                        n as int,
                    ));
                }
                visited.set(n, true);
                let t_arc = self.nodes[n].t_arc;
                let e_arc = self.nodes[n].e_arc;
                proof {
                    lemma_mark_len(self.nodes@, t_arc, visited@);
                }
                self.size_rec(t_arc, visited);
                self.size_rec(e_arc, visited);
            }
        }
    }

    /// The number of nodes reachable from the root, not counting the
    /// terminal.
    pub fn size(&self) -> (r: usize)
        requires
            self.wf(),
        ensures
            r as int == self.spec_size(),
    {
        let len = self.nodes.len();
        let mut visited: Vec<bool> = Vec::new();
        let mut i: usize = 0;
        while i < len
            invariant
                i <= len,
                visited@.len() == i as int,
                forall|j: int| 0 <= j < i ==> !visited@[j],
            decreases len - i,
        {
            visited.push(false);
            i += 1;
        }
        proof {
            assert(visited@ =~= Seq::new(self.nodes@.len() as nat, |i: int| false));
        }
        self.size_rec(self.f.head, &mut visited);
        proof {
            lemma_mark_len(
                self.nodes@,
                self.f.head,
                Seq::new(self.nodes@.len() as nat, |i: int| false),
            );
        }
        let mut cnt: usize = 0;
        let mut j: usize = 0;
        let vlen = visited.len();
        while j < vlen
            invariant
                j <= vlen,
                vlen == visited@.len(),
                cnt <= j,
                cnt as int == count_true(visited@.take(j as int)),
            decreases vlen - j,
        {
            proof {
                assert(visited@.take(j as int + 1).drop_last() =~= visited@.take(j as int));
                assert(visited@.take(j as int + 1).last() == visited@[j as int]);
            }
            if visited[j] {
                cnt += 1;
            }
            j += 1;
        }
        proof {
            assert(visited@.take(vlen as int) =~= visited@);
        }
        cnt
    }

    /// Renders the sub-diagram at `n`, marking each node the first time it
    /// is written out; the result and the updated mask follow
    /// [`render_spec`] exactly.
    fn textual_repr_rec(&self, n: usize, calculated: &mut Vec<bool>, negate: bool) -> (r: String)
        requires
            table_wf(self.nodes@),
            n == term || (n as int) < self.nodes@.len(),
            old(calculated)@.len() == self.nodes@.len(),
        ensures
            r@ == render_spec(self.nodes@, n, old(calculated)@, negate).0,
            final(calculated)@ == render_spec(self.nodes@, n, old(calculated)@, negate).1,
        decreases fn_measure(n),
    {
        if n == term {
            if negate {
                "F".to_owned()
            } else {
                "T".to_owned()
            }
        } else {
            proof {
                assert(arc_wf(self.nodes@[n as int].t_arc, n as int) && arc_wf(
                    self.nodes@[n as int].e_arc,
                    n as int,
                ));
            }
            let mut s = String::new();
            if negate {
                s.append("!");
            }
            s.append("n");
            let dn = to_decimal(n);
            s.append(dn.as_str());
            if calculated[n] {
                proof {
                    assert(s@ =~= render_spec(self.nodes@, n, old(calculated)@, negate).0);
                }
                return s;
            }
            calculated.set(n, true);
            let label = self.nodes[n].label;
            let t_arc = self.nodes[n].t_arc;
            let e_arc = self.nodes[n].e_arc;
            let e_complement = self.nodes[n].e_complement;
            s.append(" @ x");
            let dl = to_decimal(label);
            s.append(dl.as_str());
            s.append(" := (");
            proof {
                lemma_render_marks_as_size(self.nodes@, t_arc, calculated@, false);
                lemma_mark_len(self.nodes@, t_arc, calculated@);
            }
            let st = self.textual_repr_rec(t_arc, calculated, false);
            s.append(st.as_str());
            s.append(", ");
            let se = self.textual_repr_rec(e_arc, calculated, e_complement);
            s.append(se.as_str());
            s.append(")");
            proof {
                assert(s@ =~= render_spec(self.nodes@, n, old(calculated)@, negate).0);
            }
            s
        }
    }

    /// Renders the whole diagram: the root reference followed by each
    /// reachable node, written out once and back-referenced afterwards.
    pub fn textual_repr(&self) -> (r: String)
        requires
            self.wf(),
        ensures
            r@ == "f = "@ + render_spec(
                self.nodes@,
                self.f.head,
                Seq::new(self.nodes@.len() as nat, |i: int| false),
                self.f.complement,
            ).0,
    {
        let len = self.nodes.len();
        let mut calculated: Vec<bool> = Vec::new();
        let mut i: usize = 0;
        while i < len
            invariant
                i <= len,
                calculated@.len() == i as int,
                forall|j: int| 0 <= j < i ==> !calculated@[j],
            decreases len - i,
        {
            calculated.push(false);
            i += 1;
        }
        proof {
            assert(calculated@ =~= Seq::new(self.nodes@.len() as nat, |i: int| false));
        }
        let mut s = "f = ".to_owned();
        let body = self.textual_repr_rec(self.f.head, &mut calculated, self.f.complement);
        s.append(body.as_str());
        s
    }
}


/// Shannon cofactoring at the reference level: fixing the node's own
/// variable in the assignment steers the reference to the corresponding
/// cofactor reference, which cannot read the variable again.
proof fn lemma_ref_cofactor(
    nodes: Seq<InternalNode>,
    ord: Seq<usize>,
    n: int,
    h: usize,
    c: bool,
    env: Seq<bool>,
)
    requires
        table_wf(nodes),
        table_ord_wf(nodes, ord),
        ord.no_duplicates(),
        forall|k: int| 0 <= k < ord.len() ==> (ord[k] as int) < n,
        h != term,
        (h as int) < nodes.len(),
        env.len() == n,
    ensures
        fn_eval(
            nodes,
            FunctionNode { head: h, complement: c },
            env.update(nodes[h as int].label as int, true),
        ) == fn_eval(nodes, FunctionNode { head: nodes[h as int].t_arc, complement: c }, env),
        fn_eval(
            nodes,
            FunctionNode { head: h, complement: c },
            env.update(nodes[h as int].label as int, false),
        ) == fn_eval(
            nodes,
            FunctionNode {
                head: nodes[h as int].e_arc,
                complement: c ^ nodes[h as int].e_complement,
            },
            env,
        ),
{
    let nd = nodes[h as int];
    let x = nd.label;
    let p = ord.index_of(x);
    assert(ord.contains(x));
    assert(0 <= p < ord.len() && ord[p] == x);
    assert((x as int) < n);
    let env_t = env.update(x as int, true);
    let env_e = env.update(x as int, false);
    assert(arc_wf(nd.t_arc, h as int) && arc_wf(nd.e_arc, h as int));
    assert(fn_eval(nodes, FunctionNode { head: h, complement: c }, env_t) == fn_eval(
        nodes,
        FunctionNode { head: nd.t_arc, complement: c },
        env_t,
    ));
    assert(fn_eval(nodes, FunctionNode { head: h, complement: c }, env_e) == fn_eval(
        nodes,
        FunctionNode { head: nd.e_arc, complement: c ^ nd.e_complement },
        env_e,
    ));
    assert forall|j: int|
        p + 1 <= j < ord.len() implies env_t[#[trigger] ord[j] as int] == env[ord[j] as int] by {
        assert(ord[j] != x) by {
            if ord[j] == x {
                assert(ord[j] == ord[p] && j != p);
            }
        }
    }
    assert forall|j: int|
        p + 1 <= j < ord.len() implies env_e[#[trigger] ord[j] as int] == env[ord[j] as int] by {
        assert(ord[j] != x) by {
            if ord[j] == x {
                assert(ord[j] == ord[p] && j != p);
            }
        }
    }
    assert(level(nodes, ord, nd.t_arc) >= p + 1);
    assert(level(nodes, ord, nd.e_arc) >= p + 1);
    lemma_fn_eval_env_agree(
        nodes,
        ord,
        FunctionNode { head: nd.t_arc, complement: c },
        env_t,
        env,
        p + 1,
    );
    lemma_fn_eval_env_agree(
        nodes,
        ord,
        FunctionNode { head: nd.e_arc, complement: c ^ nd.e_complement },
        env_e,
        env,
        p + 1,
    );
}

/// Hash-consing canonicity for the negated-arc store: two structurally
/// identical node descriptions never sit at distinct indices of one table.
pub proof fn lemma_hash_consing_canonicity(nodes: Seq<InternalNode>, i: int, j: int)
    requires
        table_unique(nodes),
        0 <= i < nodes.len(),
        0 <= j < nodes.len(),
        nodes[i] == nodes[j],
    ensures
        i == j,
{
}

/// The renderer and the node count agree: starting from a clean mask, the
/// set of nodes the renderer writes out as definitions is exactly the set
/// whose cardinality [`Bdd::size`] reports.
pub proof fn lemma_render_count(b: Bdd)
    ensures
        count_true(
            render_spec(
                b.nodes@,
                b.f.head,
                Seq::new(b.nodes@.len() as nat, |i: int| false),
                b.f.complement,
            ).1,
        ) == b.spec_size(),
{
    lemma_render_marks_as_size(
        b.nodes@,
        b.f.head,
        Seq::new(b.nodes@.len() as nat, |i: int| false),
        b.f.complement,
    );
}


/// Two denotation-equal references whose heads test the same variable have
/// denotation-equal cofactors on that variable, for every assignment.
#[verifier::rlimit(60)]
#[verifier::spinoff_prover]
proof fn lemma_equal_cofactors(
    nodes: Seq<InternalNode>,
    ord: Seq<usize>,
    n: int,
    f: FunctionNode,
    g: FunctionNode,
    env: Seq<bool>,
)
    requires
        table_wf(nodes),
        table_ord_wf(nodes, ord),
        ord.no_duplicates(),
        forall|k: int| 0 <= k < ord.len() ==> (ord[k] as int) < n,
        f.head != term,
        g.head != term,
        (f.head as int) < nodes.len(),
        (g.head as int) < nodes.len(),
        nodes[f.head as int].label == nodes[g.head as int].label,
        forall|env0: Seq<bool>| fn_eval(nodes, f, env0) == fn_eval(nodes, g, env0),
    ensures
        fn_eval(nodes, FunctionNode { head: nodes[f.head as int].t_arc, complement: f.complement }, env)
            == fn_eval(
            nodes,
            FunctionNode { head: nodes[g.head as int].t_arc, complement: g.complement },
            env,
        ),
        fn_eval(
            nodes,
            FunctionNode {
                head: nodes[f.head as int].e_arc,
                complement: f.complement ^ nodes[f.head as int].e_complement,
            },
            env,
        ) == fn_eval(
            nodes,
            FunctionNode {
                head: nodes[g.head as int].e_arc,
                complement: g.complement ^ nodes[g.head as int].e_complement,
            },
            env,
        ),
{
    let x = nodes[f.head as int].label;
    let p = ord.index_of(x);
    assert(ord.contains(x));
    assert(0 <= p < ord.len() && ord[p] == x);
    // Work over a copy of `env` of the universe's length; no reference in the
    // table reads beyond it.
    let env_l = Seq::new(n as nat, |i: int| env[i]);
    assert forall|j: int|
        0 <= j < ord.len() implies env[#[trigger] ord[j] as int] == env_l[ord[j] as int] by {
        assert((ord[j] as int) < n);
    }
    lemma_ref_cofactor(nodes, ord, n, f.head, f.complement, env_l);
    lemma_ref_cofactor(nodes, ord, n, g.head, g.complement, env_l);
    let ft = FunctionNode { head: nodes[f.head as int].t_arc, complement: f.complement };
    let gt = FunctionNode { head: nodes[g.head as int].t_arc, complement: g.complement };
    let fe = FunctionNode {
        head: nodes[f.head as int].e_arc,
        complement: f.complement ^ nodes[f.head as int].e_complement,
    };
    let ge = FunctionNode {
        head: nodes[g.head as int].e_arc,
        complement: g.complement ^ nodes[g.head as int].e_complement,
    };
    assert(fn_eval(nodes, f, env_l.update(x as int, true)) == fn_eval(
        nodes,
        g,
        env_l.update(x as int, true),
    ));
    assert(fn_eval(nodes, f, env_l.update(x as int, false)) == fn_eval(
        nodes,
        g,
        env_l.update(x as int, false),
    ));
    assert(fn_eval(nodes, ft, env_l) == fn_eval(nodes, gt, env_l));
    assert(fn_eval(nodes, fe, env_l) == fn_eval(nodes, ge, env_l));
    assert(level(nodes, ord, nodes[f.head as int].t_arc) >= p + 1);
    assert(level(nodes, ord, nodes[g.head as int].t_arc) >= p + 1);
    assert(level(nodes, ord, nodes[f.head as int].e_arc) >= p + 1);
    assert(level(nodes, ord, nodes[g.head as int].e_arc) >= p + 1);
    lemma_fn_eval_env_agree(nodes, ord, ft, env, env_l, p + 1);
    lemma_fn_eval_env_agree(nodes, ord, gt, env, env_l, p + 1);
    lemma_fn_eval_env_agree(nodes, ord, fe, env, env_l, p + 1);
    lemma_fn_eval_env_agree(nodes, ord, ge, env, env_l, p + 1);
}

/// A reference whose head tests a variable strictly below another
/// denotation-equal reference cannot really depend on that variable: its own
/// two cofactors denote the same function, for every assignment.
#[verifier::rlimit(60)]
#[verifier::spinoff_prover]
proof fn lemma_low_head_cofactors_equal(
    nodes: Seq<InternalNode>,
    ord: Seq<usize>,
    n: int,
    lo: FunctionNode,
    hi: FunctionNode,
    env: Seq<bool>,
)
    requires
        table_wf(nodes),
        table_ord_wf(nodes, ord),
        ord.no_duplicates(),
        forall|k: int| 0 <= k < ord.len() ==> (ord[k] as int) < n,
        lo.head != term,
        (lo.head as int) < nodes.len(),
        fref_wf(nodes, hi),
        level(nodes, ord, hi.head) > level(nodes, ord, lo.head),
        forall|env0: Seq<bool>| fn_eval(nodes, lo, env0) == fn_eval(nodes, hi, env0),
    ensures
        fn_eval(nodes, FunctionNode { head: nodes[lo.head as int].t_arc, complement: lo.complement }, env)
            == fn_eval(
            nodes,
            FunctionNode {
                head: nodes[lo.head as int].e_arc,
                complement: lo.complement ^ nodes[lo.head as int].e_complement,
            },
            env,
        ),
{
    let x = nodes[lo.head as int].label;
    let p = ord.index_of(x);
    assert(ord.contains(x));
    assert(0 <= p < ord.len() && ord[p] == x);
    let env_l = Seq::new(n as nat, |i: int| env[i]);
    assert forall|j: int|
        0 <= j < ord.len() implies env[#[trigger] ord[j] as int] == env_l[ord[j] as int] by {
        assert((ord[j] as int) < n);
    }
    lemma_ref_cofactor(nodes, ord, n, lo.head, lo.complement, env_l);
    let lt = FunctionNode { head: nodes[lo.head as int].t_arc, complement: lo.complement };
    let le = FunctionNode {
        head: nodes[lo.head as int].e_arc,
        complement: lo.complement ^ nodes[lo.head as int].e_complement,
    };
    let env_t = env_l.update(x as int, true);
    let env_e = env_l.update(x as int, false);
    assert(fn_eval(nodes, lo, env_t) == fn_eval(nodes, hi, env_t));
    assert(fn_eval(nodes, lo, env_e) == fn_eval(nodes, hi, env_e));
    // `hi` sits strictly below `x` in the order, so it reads neither update.
    assert forall|j: int|
        p + 1 <= j < ord.len() implies env_t[#[trigger] ord[j] as int] == env_e[ord[j] as int] by {
        assert(ord[j] != x) by {
            if ord[j] == x {
                assert(ord[j] == ord[p] && j != p);
            }
        }
    }
    lemma_fn_eval_env_agree(nodes, ord, hi, env_t, env_e, p + 1);
    assert(fn_eval(nodes, lt, env_l) == fn_eval(nodes, le, env_l));
    assert(level(nodes, ord, nodes[lo.head as int].t_arc) >= p + 1);
    assert(level(nodes, ord, nodes[lo.head as int].e_arc) >= p + 1);
    lemma_fn_eval_env_agree(nodes, ord, lt, env, env_l, p + 1);
    lemma_fn_eval_env_agree(nodes, ord, le, env, env_l, p + 1);
}

/// Canonicity of the negated-arc representation.  Within one store that is
/// acyclic, hash-consed, reduced and order-respecting, two function
/// references that denote the same Boolean function are the same reference
/// pair: function equality is O(1) reference equality, never a diagram
/// traversal.
#[verifier::rlimit(100)]
#[verifier::spinoff_prover]
pub proof fn lemma_canonical_refs(
    nodes: Seq<InternalNode>,
    ord: Seq<usize>,
    n: int,
    f: FunctionNode,
    g: FunctionNode,
    d: int,
)
    requires
        table_wf(nodes),
        table_unique(nodes),
        table_reduced(nodes),
        table_ord_wf(nodes, ord),
        ord.no_duplicates(),
        forall|k: int| 0 <= k < ord.len() ==> (ord[k] as int) < n,
        fref_wf(nodes, f),
        fref_wf(nodes, g),
        0 <= d <= ord.len(),
        level(nodes, ord, f.head) >= d,
        level(nodes, ord, g.head) >= d,
        forall|env: Seq<bool>| fn_eval(nodes, f, env) == fn_eval(nodes, g, env),
    ensures
        f == g,
    decreases ord.len() - d,
{
    let lf = level(nodes, ord, f.head);
    let lg = level(nodes, ord, g.head);
    if f.head != term {
        assert(ord.contains(nodes[f.head as int].label));
        let pf = ord.index_of(nodes[f.head as int].label);
        assert(0 <= pf < ord.len() && ord[pf] == nodes[f.head as int].label);
    }
    if g.head != term {
        assert(ord.contains(nodes[g.head as int].label));
        let pg = ord.index_of(nodes[g.head as int].label);
        assert(0 <= pg < ord.len() && ord[pg] == nodes[g.head as int].label);
    }
    if f.head == term && g.head == term {
        assert(fn_eval(nodes, f, Seq::empty()) == fn_eval(nodes, g, Seq::empty()));
        assert(f == g);
    } else if lf == lg {
        // Both internal (the terminal's level lies beyond every label's).
        let p = lf;
        assert(f.head != term && g.head != term);
        assert(nodes[f.head as int].label == ord[p] && nodes[g.head as int].label == ord[p]);
        let ft = FunctionNode { head: nodes[f.head as int].t_arc, complement: f.complement };
        let gt = FunctionNode { head: nodes[g.head as int].t_arc, complement: g.complement };
        let fe = FunctionNode {
            head: nodes[f.head as int].e_arc,
            complement: f.complement ^ nodes[f.head as int].e_complement,
        };
        let ge = FunctionNode {
            head: nodes[g.head as int].e_arc,
            complement: g.complement ^ nodes[g.head as int].e_complement,
        };
        assert forall|env: Seq<bool>| fn_eval(nodes, ft, env) == fn_eval(nodes, gt, env) by {
            lemma_equal_cofactors(nodes, ord, n, f, g, env);
        }
        assert forall|env: Seq<bool>| fn_eval(nodes, fe, env) == fn_eval(nodes, ge, env) by {
            lemma_equal_cofactors(nodes, ord, n, f, g, env);
        }
        assert(arc_wf(nodes[f.head as int].t_arc, f.head as int));
        assert(arc_wf(nodes[f.head as int].e_arc, f.head as int));
        assert(arc_wf(nodes[g.head as int].t_arc, g.head as int));
        assert(arc_wf(nodes[g.head as int].e_arc, g.head as int));
        assert(level(nodes, ord, ft.head) >= p + 1 && level(nodes, ord, gt.head) >= p + 1);
        assert(level(nodes, ord, fe.head) >= p + 1 && level(nodes, ord, ge.head) >= p + 1);
        lemma_canonical_refs(nodes, ord, n, ft, gt, p + 1);
        lemma_canonical_refs(nodes, ord, n, fe, ge, p + 1);
        assert(f.complement == g.complement);
        assert(nodes[f.head as int].e_complement == nodes[g.head as int].e_complement);
        assert(nodes[f.head as int] == nodes[g.head as int]);
        lemma_hash_consing_canonicity(nodes, f.head as int, g.head as int);
        assert(f == g);
    } else {
        // One head tests a strictly earlier variable than the other reads;
        // reduction makes its two cofactors distinct, yet equality with the
        // later reference forces them to denote one function.
        let (lo, hi) = if lf < lg {
            (f, g)
        } else {
            (g, f)
        };
        let p = level(nodes, ord, lo.head);
        assert(lo.head != term);
        let lt = FunctionNode { head: nodes[lo.head as int].t_arc, complement: lo.complement };
        let le = FunctionNode {
            head: nodes[lo.head as int].e_arc,
            complement: lo.complement ^ nodes[lo.head as int].e_complement,
        };
        assert forall|env: Seq<bool>| fn_eval(nodes, lt, env) == fn_eval(nodes, le, env) by {
            assert forall|env0: Seq<bool>|
                fn_eval(nodes, lo, env0) == fn_eval(nodes, hi, env0) by {}
            lemma_low_head_cofactors_equal(nodes, ord, n, lo, hi, env);
        }
        assert(arc_wf(nodes[lo.head as int].t_arc, lo.head as int));
        assert(arc_wf(nodes[lo.head as int].e_arc, lo.head as int));
        assert(level(nodes, ord, lt.head) >= p + 1 && level(nodes, ord, le.head) >= p + 1);
        lemma_canonical_refs(nodes, ord, n, lt, le, p + 1);
        // But a stored node's branches differ as references.
        assert(nodes[lo.head as int].t_arc == nodes[lo.head as int].e_arc
            ==> nodes[lo.head as int].e_complement);
        assert(false);
    }
}

} // verus!
