//! Reduced Ordered Binary Decision Diagrams built from Boolean expressions.
//!
//! Expressions over integer variable indices are turned into canonical
//! decision diagrams under a caller-supplied variable order.  Three builder
//! families are provided: a naive Shannon-expansion builder with two physical
//! terminals, a negated-arc builder with a single terminal and complement
//! bits on else-edges (with several support-based pruning variants), and a
//! combinatorial Apply engine that composes diagrams bottom-up over the
//! expression tree.  Every builder is verified against the expression
//! evaluator: the diagram it returns evaluates exactly as the expression
//! does, on every assignment.

pub mod bdd;
pub mod expr;
pub mod expr_rc;
pub mod gen;
pub mod naive_bdd;
pub mod neg_arc_bdd;
pub mod combin_bdd;
