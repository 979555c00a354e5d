use rdd::combin_bdd;
use rdd::expr::bin;
use rdd::expr::eval;
use rdd::expr::eval_partial;
use rdd::expr::eval_partialbtree;
use rdd::expr::not;
use rdd::expr::BOp;
use rdd::expr::Expr;
use rdd::expr_rc::bin_rc;
use rdd::expr_rc::eval_rc;
use rdd::expr_rc::not_rc;
use rdd::expr_rc::to_expr_rc;
use rdd::expr_rc::ExprRc;
use rdd::gen::comparator;
use rdd::naive_bdd;
use rdd::neg_arc_bdd;
use rdd::neg_arc_bdd::func;
use rdd::neg_arc_bdd::in_support;
use rdd::neg_arc_bdd::in_support_btree;
use rdd::neg_arc_bdd::in_support_simplified;
use rdd::neg_arc_bdd::in_support_vec;
use rdd::neg_arc_bdd::subst_and_simplify;
use rdd::neg_arc_bdd::term;
use rdd::neg_arc_bdd::InternalNode;

fn one_bit_comparator() -> Expr {
    // (x0 AND y0) OR (NOT x0 AND NOT y0)
    bin(
        bin(Expr::Var(0), BOp::And, Expr::Var(1)),
        BOp::Or,
        bin(not(Expr::Var(0)), BOp::And, not(Expr::Var(1))),
    )
}

fn all_assignments(n: usize) -> Vec<Vec<bool>> {
    let mut out = Vec::new();
    for bits in 0..(1usize << n) {
        let mut env = Vec::new();
        for i in 0..n {
            env.push(bits & (1 << i) != 0);
        }
        out.push(env);
    }
    out
}

#[test]
fn expr_eval_basics() {
    let e = bin(Expr::Var(0), BOp::And, not(Expr::Var(1)));
    assert_eq!(eval(&e, &vec![true, false]), true);
    assert_eq!(eval(&e, &vec![true, true]), false);
    assert_eq!(eval(&e, &vec![false, false]), false);
    assert_eq!(eval(&Expr::Lit(true), &vec![]), true);
    assert_eq!(eval(&Expr::Lit(false), &vec![]), false);
}

#[test]
fn eval_partial_pads_with_false() {
    let mut env = std::collections::HashMap::new();
    env.insert(0usize, true);
    env.insert(1usize, false);
    let e = bin(Expr::Var(0), BOp::And, not(Expr::Var(1)));
    assert_eq!(eval_partial(&e, &env), true);
    let e2 = bin(Expr::Var(0), BOp::And, Expr::Var(1));
    assert_eq!(eval_partial(&e2, &env), false);
}

#[test]
fn eval_partialbtree_pads_with_false() {
    let mut env = std::collections::BTreeMap::new();
    env.insert(0usize, false);
    env.insert(1usize, true);
    let e = bin(not(Expr::Var(0)), BOp::And, Expr::Var(1));
    assert_eq!(eval_partialbtree(&e, &env), true);
}

#[test]
fn expr_rc_mirrors_and_evaluates() {
    let e = bin(Expr::Var(0), BOp::Or, not(Expr::Var(1)));
    let rc = to_expr_rc(&e);
    for env in all_assignments(2) {
        assert_eq!(eval_rc(&rc, &env), eval(&e, &env));
    }
    let direct = bin_rc(ExprRc::VarRc(0), BOp::Or, not_rc(ExprRc::VarRc(1)));
    for env in all_assignments(2) {
        assert_eq!(eval_rc(&direct, &env), eval_rc(&rc, &env));
    }
}

#[test]
fn comparator_orders_and_meaning() {
    let (e, bad, good) = comparator(2);
    assert_eq!(bad, vec![0, 2, 1, 3]);
    assert_eq!(good, vec![0, 1, 2, 3]);
    for env in all_assignments(4) {
        let expect = env[0] == env[1] && env[2] == env[3];
        assert_eq!(eval(&e, &env), expect);
    }
}

#[test]
fn builders_agree_with_expression_evaluation() {
    let (e, bad, good) = comparator(2);
    for ord in [&bad, &good] {
        let naive = naive_bdd::from(&e, ord);
        let naive_btree = naive_bdd::from_btree_mem(&e, ord);
        let neg = neg_arc_bdd::from(&e, ord);
        let sup = neg_arc_bdd::from_support(&e, ord);
        let sup_simpl = neg_arc_bdd::from_support_simplified(&e, ord);
        let sup_btree = neg_arc_bdd::from_support_btree(&e, ord);
        let sup_vec = neg_arc_bdd::from_support_vec(&e, ord);
        let apply = combin_bdd::from_combinatorial(&e, ord);
        let apply_hash = combin_bdd::from_combinatorial_hash(&e, ord);
        let legacy = rdd::bdd::from(&e, ord);
        for env in all_assignments(4) {
            let expect = eval(&e, &env);
            assert_eq!(naive.eval(&env), expect);
            assert_eq!(naive_btree.eval(&env), expect);
            assert_eq!(neg.eval(&env), expect);
            assert_eq!(sup.eval(&env), expect);
            assert_eq!(sup_simpl.eval(&env), expect);
            assert_eq!(sup_btree.eval(&env), expect);
            assert_eq!(sup_vec.eval(&env), expect);
            assert_eq!(apply.eval(&env), expect);
            assert_eq!(apply_hash.eval(&env), expect);
            assert_eq!(legacy.eval(&env), expect);
        }
    }
}

#[test]
fn one_bit_comparator_builds_two_nodes() {
    let e = one_bit_comparator();
    let bdd = neg_arc_bdd::from(&e, &[0, 1]);
    assert_eq!(bdd.size(), 2);
    assert_eq!(bdd.nodes.len(), 2);
    // The node testing y0: then-edge to True, else-edge to (complemented)
    // False, both through the single terminal.
    assert_eq!(
        bdd.nodes[0],
        InternalNode { label: 1, t_arc: term, e_arc: term, e_complement: true }
    );
    // The root tests x0; its then-edge reaches the y0 node plainly and its
    // else-edge reaches the complement of that same node.
    assert_eq!(
        bdd.nodes[1],
        InternalNode { label: 0, t_arc: 0, e_arc: 0, e_complement: true }
    );
    assert_eq!(bdd.f, func(1, false));
}

#[test]
fn two_bit_comparator_interleaved_order_is_smaller() {
    let (e, bad, good) = comparator(2);
    let good_bdd = neg_arc_bdd::from(&e, &good);
    let bad_bdd = neg_arc_bdd::from(&e, &bad);
    assert!(good_bdd.size() < bad_bdd.size());
}

#[test]
fn comparator_node_counts_scale_with_order() {
    // Under the interleaved order the count grows linearly; under the
    // blocked order it explodes.  Spot-check both trends.
    let (e3, bad3, good3) = comparator(3);
    let good_bdd3 = neg_arc_bdd::from(&e3, &good3);
    let bad_bdd3 = neg_arc_bdd::from(&e3, &bad3);
    let (e4, bad4, good4) = comparator(4);
    let good_bdd4 = neg_arc_bdd::from(&e4, &good4);
    let bad_bdd4 = neg_arc_bdd::from(&e4, &bad4);
    let (e2, bad2, good2) = comparator(2);
    let good_bdd2 = neg_arc_bdd::from(&e2, &good2);
    let bad_bdd2 = neg_arc_bdd::from(&e2, &bad2);
    // Linear growth for the interleaved order: the same constant step per
    // extra bit.
    assert_eq!(
        good_bdd4.size() - good_bdd3.size(),
        good_bdd3.size() - good_bdd2.size()
    );
    // Faster-than-linear growth for the blocked order.
    assert!(bad_bdd4.size() - bad_bdd3.size() > bad_bdd3.size() - bad_bdd2.size());
    assert!(good_bdd3.size() < bad_bdd3.size());
    assert!(good_bdd4.size() < bad_bdd4.size());
}

#[test]
fn pruned_variants_never_exceed_unpruned_node_count() {
    // An expression over a sparse subset of the order's variables, so that
    // pruning has work to do.
    let e = bin(Expr::Var(0), BOp::Or, Expr::Var(3));
    let ord = [0usize, 1, 2, 3];
    let unpruned = neg_arc_bdd::from(&e, &ord);
    let sup = neg_arc_bdd::from_support(&e, &ord);
    let sup_simpl = neg_arc_bdd::from_support_simplified(&e, &ord);
    let sup_btree = neg_arc_bdd::from_support_btree(&e, &ord);
    let sup_vec = neg_arc_bdd::from_support_vec(&e, &ord);
    assert!(sup.size() <= unpruned.size());
    assert!(sup_simpl.size() <= unpruned.size());
    assert!(sup_btree.size() <= unpruned.size());
    assert!(sup_vec.size() <= unpruned.size());
    // And on the comparator benchmark as well.
    let (c, bad, good) = comparator(3);
    for ord in [&bad, &good] {
        let unpruned = neg_arc_bdd::from(&c, ord);
        assert!(neg_arc_bdd::from_support(&c, ord).size() <= unpruned.size());
        assert!(neg_arc_bdd::from_support_simplified(&c, ord).size() <= unpruned.size());
        assert!(neg_arc_bdd::from_support_btree(&c, ord).size() <= unpruned.size());
        assert!(neg_arc_bdd::from_support_vec(&c, ord).size() <= unpruned.size());
    }
}

#[test]
fn eval_is_pure_and_idempotent() {
    let (e, _, good) = comparator(2);
    let bdd = neg_arc_bdd::from(&e, &good);
    let env = vec![true, true, false, false];
    let first = bdd.eval(&env);
    let second = bdd.eval(&env);
    assert_eq!(first, second);
    assert_eq!(first, true);
    // The diagram itself is untouched by evaluation.
    let size_before = bdd.size();
    let _ = bdd.eval(&env);
    assert_eq!(bdd.size(), size_before);
}

#[test]
fn comparator_diagram_matches_direct_evaluation() {
    let (e, _, good) = comparator(2);
    let bdd = combin_bdd::from_combinatorial(&e, &good);
    // All bits equal: true.
    let all_equal = vec![true, true, false, false];
    assert_eq!(bdd.eval(&all_equal), true);
    // Differing in the high bit: matches the expression evaluator.
    let high_differs = vec![true, true, true, false];
    assert_eq!(bdd.eval(&high_differs), eval(&e, &high_differs));
    assert_eq!(bdd.eval(&high_differs), false);
}

#[test]
fn render_lists_each_node_once() {
    let e = one_bit_comparator();
    let bdd = neg_arc_bdd::from(&e, &[0, 1]);
    let repr = bdd.textual_repr();
    assert_eq!(repr, "f = n1 @ x0 := (n0 @ x1 := (T, F), !n0)");
    // Each distinct node is defined exactly once (one " @ " per definition),
    // and the number of definitions is the node count.
    assert_eq!(repr.matches(" @ ").count(), bdd.size());
}

#[test]
fn render_backreference_count_matches_size() {
    let (e, _, good) = comparator(2);
    let bdd = neg_arc_bdd::from(&e, &good);
    let repr = bdd.textual_repr();
    assert_eq!(repr.matches(" @ ").count(), bdd.size());
    // Every token n<id> refers to a definition that appears in the text.
    for i in 0..bdd.nodes.len() {
        let def = format!("n{} @ ", i);
        if repr.contains(&format!("n{}", i)) {
            assert!(repr.contains(&def));
        }
    }
}

#[test]
fn store_holds_no_duplicate_descriptions() {
    let (e, _, good) = comparator(3);
    let bdd = neg_arc_bdd::from(&e, &good);
    for i in 0..bdd.nodes.len() {
        for j in (i + 1)..bdd.nodes.len() {
            assert_ne!(bdd.nodes[i], bdd.nodes[j]);
        }
    }
    let naive = naive_bdd::from(&e, &good);
    for i in 0..naive.nodes.len() {
        for j in (i + 1)..naive.nodes.len() {
            assert_ne!(naive.nodes[i], naive.nodes[j]);
        }
    }
}

#[test]
fn support_oracles_agree() {
    // x1 is absorbed once x0 is false in (x0 AND x1).
    let e = bin(Expr::Var(0), BOp::And, Expr::Var(1));
    let mut part = std::collections::HashMap::new();
    let mut part_btree = std::collections::BTreeMap::new();
    assert!(in_support(1, &e, &part));
    assert!(in_support_btree(1, &e, &part_btree));
    assert!(in_support_vec(1, &e, &vec![false, false], &vec![false, false]));
    part.insert(0usize, false);
    part_btree.insert(0usize, false);
    assert!(!in_support(1, &e, &part));
    assert!(!in_support_btree(1, &e, &part_btree));
    assert!(!in_support_vec(1, &e, &vec![false, false], &vec![true, false]));
}

#[test]
fn subst_and_simplify_folds_constants() {
    let e = bin(Expr::Var(0), BOp::And, Expr::Var(1));
    let fixed_true = subst_and_simplify(&e, 0, true);
    assert!(matches!(fixed_true, Expr::Var(1)));
    let fixed_false = subst_and_simplify(&e, 0, false);
    assert!(matches!(fixed_false, Expr::Lit(false)));
    let o = bin(Expr::Var(0), BOp::Or, Expr::Var(1));
    let o_true = subst_and_simplify(&o, 0, true);
    assert!(matches!(o_true, Expr::Lit(true)));
    let n = not(Expr::Var(0));
    let n_true = subst_and_simplify(&n, 0, true);
    assert!(matches!(n_true, Expr::Lit(false)));
    assert!(!in_support_simplified(0, &fixed_true));
    assert!(in_support_simplified(1, &fixed_true));
}

#[test]
fn naive_builder_keeps_two_terminals() {
    let e = bin(Expr::Var(0), BOp::Or, Expr::Var(1));
    let bdd = naive_bdd::from(&e, &[0, 1]);
    let mut terminals = 0;
    for node in &bdd.nodes {
        if matches!(node, naive_bdd::BddNode::Terminal(_)) {
            terminals += 1;
        }
    }
    assert_eq!(terminals, 2);
    for env in all_assignments(2) {
        assert_eq!(bdd.eval(&env), env[0] || env[1]);
    }
}

#[test]
fn render_handles_multidigit_node_ids() {
    let (e, bad, _) = comparator(4);
    let bdd = neg_arc_bdd::from(&e, &bad);
    // The blocked order blows the table past ten nodes, so identifiers with
    // more than one digit appear in the rendering.
    assert!(bdd.nodes.len() > 10);
    let repr = bdd.textual_repr();
    assert!(repr.contains("n10"));
    assert_eq!(repr.matches(" @ ").count(), bdd.size());
}
