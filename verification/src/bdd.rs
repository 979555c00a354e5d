//! The earliest form of the naive builder, kept for its callers.  It
//! resolved node descriptions by scanning the store directly instead of
//! through a separate intern index; the backing of that lookup is a
//! performance parameter that never changes the diagram, and here every
//! naive entry point shares the one canonical store.

use vstd::prelude::*;

use crate::expr::expr_contains_var;
use crate::expr::expr_eval;
use crate::expr::Expr;
use crate::naive_bdd::bdd_node_eval;
use crate::naive_bdd::table_labels_lt;
use crate::naive_bdd::table_reduced;
use crate::naive_bdd::table_unique;
use crate::naive_bdd::table_wf;

pub use crate::naive_bdd::Bdd;
pub use crate::naive_bdd::BddNode;
pub use crate::naive_bdd::NodeIdx;

verus! {

/// Builds the naive ROBDD of `e` under `var_ord` by full Shannon expansion,
/// with the store scanned linearly for an existing description.  The diagram
/// denotes exactly the expression under every assignment.
pub fn from(e: &Expr, var_ord: &[usize]) -> (bdd: Bdd)
    requires
        forall|k: int| 0 <= k < var_ord@.len() ==> (var_ord@[k] as int) < var_ord@.len(),
        forall|v: usize| expr_contains_var(*e, v) ==> var_ord@.contains(v),
    ensures
        table_wf(bdd.nodes@),
        table_unique(bdd.nodes@),
        table_reduced(bdd.nodes@),
        table_labels_lt(bdd.nodes@, var_ord@.len() as int),
        (bdd.f as int) < bdd.nodes@.len(),
        forall|env: Seq<bool>|
            bdd_node_eval(bdd.nodes@, bdd.f as int, env) == expr_eval(*e, env),
{
    crate::naive_bdd::from(e, var_ord)
}

} // verus!
