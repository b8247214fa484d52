use derva::egraph::rewrite::{EqualitySaturator, Extractor, RewriteRule, SaturationBudget, SaturationStopReason};
use derva::egraph::{crate_name, EGraph, EGraphError, ENode, EType};
use derva::kernel::orid::{ObjectKind, ORID};

#[test]
fn test_congruence_closure_algebraic() {
    let mut eg = EGraph::new();

    let x = eg.add(ENode::new("x", vec![], EType::Int)).unwrap();
    let y = eg.add(ENode::new("y", vec![], EType::Int)).unwrap();

    let fx = eg.add(ENode::new("f", vec![x], EType::Int)).unwrap();
    let fy = eg.add(ENode::new("f", vec![y], EType::Int)).unwrap();

    assert_ne!(eg.find(fx), eg.find(fy));

    eg.union_typed(x, y).unwrap();
    eg.rebuild();

    assert_eq!(eg.find(fx), eg.find(fy), "Congruence closure must unify f(x) and f(y)");
}

#[test]
fn test_zero_type_violating_unions() {
    let mut eg = EGraph::new();

    let int_val = eg.add(ENode::new("10", vec![], EType::Int)).unwrap();
    let bool_val = eg.add(ENode::new("true", vec![], EType::Bool)).unwrap();

    let res = eg.union_typed(int_val, bool_val);
    assert!(res.is_err(), "Union of mismatched types Int and Bool MUST fail");
}

#[test]
fn test_1m_enodes_memory_budget() {
    let mut eg = EGraph::new();
    let count = 1_000_000;

    for i in 0..count {
        let name = format!("v_{}", i % 100);
        let _id = eg.add(ENode::new(&name, vec![], EType::Int)).unwrap();
    }

    assert!(eg.classes.len() <= 100, "Hash-consing must collapse identical enodes");
}

#[test]
fn adding_a_node_twice_gives_the_same_class() {
    let mut eg = EGraph::new();
    let a = eg.add(ENode::new("a", vec![], EType::Int)).unwrap();
    let b = eg.add(ENode::new("a", vec![], EType::Int)).unwrap();
    assert_eq!(a, b);
    let c = eg.add(ENode::new("a", vec![], EType::Bool)).unwrap();
    assert_ne!(a, c);
}

#[test]
fn a_child_outside_the_graph_is_refused() {
    let mut eg = EGraph::new();
    let res = eg.add(ENode::new("f", vec![7], EType::Int));
    assert!(res.is_err());
    let _ = EGraphError::InvalidId(7);
}

#[test]
fn union_of_one_class_merges_nothing() {
    let mut eg = EGraph::new();
    let a = eg.add(ENode::new("a", vec![], EType::Int)).unwrap();
    assert_eq!(eg.union_typed(a, a), Ok(false));
    let b = eg.add(ENode::new("b", vec![], EType::Int)).unwrap();
    assert_eq!(eg.union_typed(a, b), Ok(true));
    // A union takes effect when the graph is rebuilt.
    assert_ne!(eg.find(a), eg.find(b));
    assert_eq!(eg.rebuild(), 1);
    assert_eq!(eg.find(a), eg.find(b));
}

#[test]
fn test_rewrites_100_percent_have_proof_id() {
    let mut eg = EGraph::new();

    let x = eg.add(ENode::new("x", vec![], EType::Int)).unwrap();
    let zero = eg.add(ENode::new("0", vec![], EType::Int)).unwrap();
    let add_expr = eg.add(ENode::new("+", vec![x, zero], EType::Int)).unwrap();

    let rule =
        RewriteRule::new("add-zero", "+", Some("0".to_string()), None, ORID::compute(ObjectKind::Claim, b"axiom_add_zero"));

    let saturator = EqualitySaturator::new();
    let budget = SaturationBudget::default();
    let report = saturator.saturate(&mut eg, &[rule], &budget);

    assert!(!report.applied_rewrites.is_empty());
    for applied in &report.applied_rewrites {
        assert_ne!(applied.proof_id.hash, [0u8; 32]);
        assert_eq!(applied.rule_name, "add-zero");
    }

    assert_eq!(eg.find(add_expr), eg.find(x));
}

#[test]
fn test_saturation_respects_iteration_budget() {
    let mut eg = EGraph::new();
    let x = eg.add(ENode::new("x", vec![], EType::Int)).unwrap();
    let zero = eg.add(ENode::new("0", vec![], EType::Int)).unwrap();
    let _add_expr = eg.add(ENode::new("+", vec![x, zero], EType::Int)).unwrap();

    let rule =
        RewriteRule::new("add-zero", "+", Some("0".to_string()), None, ORID::compute(ObjectKind::Claim, b"axiom_add_zero"));

    let saturator = EqualitySaturator::new();
    let tight_budget = SaturationBudget { max_iterations: 1, max_nodes: 1000 };

    let report = saturator.saturate(&mut eg, &[rule], &tight_budget);
    assert!(report.iterations <= 1);
}

#[test]
fn saturation_without_matches_is_saturated() {
    let mut eg = EGraph::new();
    let _x = eg.add(ENode::new("x", vec![], EType::Int)).unwrap();
    let rule = RewriteRule::new("mul-one", "*", Some("1".to_string()), None, ORID::compute(ObjectKind::Claim, b"axiom"));
    let report = EqualitySaturator::new().saturate(&mut eg, &[rule], &SaturationBudget::default());
    assert_eq!(report.stop_reason, SaturationStopReason::Saturated);
    assert_eq!(report.iterations, 0);
    assert!(report.applied_rewrites.is_empty());
}

#[test]
fn test_extractor_returns_simplest_equivalent_expression() {
    let mut eg = EGraph::new();

    let x = eg.add(ENode::new("x", vec![], EType::Int)).unwrap();
    let zero = eg.add(ENode::new("0", vec![], EType::Int)).unwrap();
    let add_expr = eg.add(ENode::new("+", vec![x, zero], EType::Int)).unwrap();

    let rule =
        RewriteRule::new("add-zero", "+", Some("0".to_string()), None, ORID::compute(ObjectKind::Claim, b"axiom_add_zero"));

    let saturator = EqualitySaturator::new();
    saturator.saturate(&mut eg, &[rule], &SaturationBudget::default());

    let (extracted, _cost) = Extractor::extract_best(&mut eg, add_expr);
    assert_eq!(extracted, "x", "Extractor MUST choose simplified 'x' over '(+ x 0)'");
}

#[test]
fn congruence_reaches_nested_nodes_after_rebuild() {
    let mut eg = EGraph::new();
    let x = eg.add(ENode::new("x", vec![], EType::Int)).unwrap();
    let y = eg.add(ENode::new("y", vec![], EType::Int)).unwrap();
    let gx = eg.add(ENode::new("g", vec![x], EType::Int)).unwrap();
    let gy = eg.add(ENode::new("g", vec![y], EType::Int)).unwrap();
    let fgx = eg.add(ENode::new("f", vec![gx, x], EType::Int)).unwrap();
    let fgy = eg.add(ENode::new("f", vec![gy, y], EType::Int)).unwrap();
    let hx = eg.add(ENode::new("h", vec![x], EType::Int)).unwrap();
    assert_ne!(eg.find(fgx), eg.find(fgy));

    eg.union_typed(x, y).unwrap();
    let merges = eg.rebuild();

    assert_eq!(eg.find(gx), eg.find(gy));
    assert_eq!(eg.find(fgx), eg.find(fgy));
    assert_ne!(eg.find(hx), eg.find(gx));
    assert_eq!(merges, 3);
    assert!(eg.worklist.is_empty());
}

#[test]
fn a_saturated_graph_saturates_again_at_once() {
    let mut eg = EGraph::new();
    let x = eg.add(ENode::new("x", vec![], EType::Int)).unwrap();
    let zero = eg.add(ENode::new("0", vec![], EType::Int)).unwrap();
    let add_expr = eg.add(ENode::new("+", vec![x, zero], EType::Int)).unwrap();
    let rule =
        RewriteRule::new("add-zero", "+", Some("0".to_string()), None, ORID::compute(ObjectKind::Claim, b"axiom_add_zero"));
    let saturator = EqualitySaturator::new();

    let first = saturator.saturate(&mut eg, &[rule.clone()], &SaturationBudget::default());
    assert_eq!(first.stop_reason, SaturationStopReason::Saturated);
    assert_eq!(first.iterations, 1);
    assert_eq!(first.applied_rewrites.len(), 1);
    assert_eq!(eg.find(add_expr), eg.find(x));

    let second = saturator.saturate(&mut eg, &[rule], &SaturationBudget::default());
    assert_eq!(second.stop_reason, SaturationStopReason::Saturated);
    assert_eq!(second.iterations, 0);
    assert!(second.applied_rewrites.is_empty());
}

#[test]
fn a_match_across_types_merges_nothing() {
    let mut eg = EGraph::new();
    let x = eg.add(ENode::new("x", vec![], EType::Int)).unwrap();
    let zero = eg.add(ENode::new("0", vec![], EType::Int)).unwrap();
    let cmp = eg.add(ENode::new("+", vec![x, zero], EType::Bool)).unwrap();
    let rule =
        RewriteRule::new("add-zero", "+", Some("0".to_string()), None, ORID::compute(ObjectKind::Claim, b"axiom_add_zero"));
    let report = EqualitySaturator::new().saturate(&mut eg, &[rule], &SaturationBudget::default());
    assert_eq!(report.stop_reason, SaturationStopReason::Saturated);
    assert_eq!(report.iterations, 0);
    assert!(report.applied_rewrites.is_empty());
    assert_ne!(eg.find(cmp), eg.find(x));
}

#[test]
fn egraph_crate_name() {
    assert_eq!(crate_name(), "origin-egraph");
}

#[test]
fn congruence_merges_exactly_what_it_must() {
    let mut eg = EGraph::new();
    let x = eg.add(ENode::new("x", vec![], EType::Int)).unwrap();
    let y = eg.add(ENode::new("y", vec![], EType::Int)).unwrap();
    let fx = eg.add(ENode::new("f", vec![x], EType::Int)).unwrap();
    let fy = eg.add(ENode::new("f", vec![y], EType::Int)).unwrap();
    let z = eg.add(ENode::new("z", vec![], EType::Int)).unwrap();
    assert_eq!(eg.union_typed(x, y), Ok(true));
    assert_eq!(eg.rebuild(), 2);
    assert_eq!(eg.find(x), eg.find(y));
    assert_eq!(eg.find(fx), eg.find(fy));
    assert_ne!(eg.find(x), eg.find(fx));
    assert_ne!(eg.find(z), eg.find(x));
    assert_ne!(eg.find(z), eg.find(fx));
}

#[test]
fn a_refused_union_queues_nothing() {
    let mut eg = EGraph::new();
    let i = eg.add(ENode::new("10", vec![], EType::Int)).unwrap();
    let b = eg.add(ENode::new("true", vec![], EType::Bool)).unwrap();
    assert_eq!(
        eg.union_typed(i, b),
        Err(EGraphError::TypeMismatch { a: 0, b: 1, ty_a: EType::Int, ty_b: EType::Bool })
    );
    assert_eq!(eg.union_typed(i, i), Ok(false));
    assert_eq!(eg.rebuild(), 0);
    assert_ne!(eg.find(i), eg.find(b));
}

#[test]
fn saturation_reports_the_one_rewrite_it_applies() {
    let mut eg = EGraph::new();
    let x = eg.add(ENode::new("x", vec![], EType::Int)).unwrap();
    let z = eg.add(ENode::new("0", vec![], EType::Int)).unwrap();
    let e = eg.add(ENode::new("+", vec![x, z], EType::Int)).unwrap();
    let rule =
        RewriteRule::new("add-zero", "+", Some("0".to_string()), None, ORID::compute(ObjectKind::Claim, b"axiom_add_zero"));
    let report = EqualitySaturator::new().saturate(&mut eg, &[rule.clone()], &SaturationBudget::default());
    assert_eq!(report.applied_rewrites.len(), 1);
    assert_eq!(report.applied_rewrites[0].rule_name, "add-zero");
    assert_eq!(report.applied_rewrites[0].proof_id, rule.proof_id);
    assert_eq!(report.applied_rewrites[0].class_a, 2);
    assert_eq!(report.applied_rewrites[0].class_b, 0);
    assert_eq!(report.iterations, 1);
    assert_eq!(report.stop_reason, SaturationStopReason::Saturated);
    assert_eq!(report.nodes_count, 3);
    assert_eq!(eg.find(e), eg.find(x));
    assert_ne!(eg.find(z), eg.find(x));
}
