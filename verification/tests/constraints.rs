use derva::constraints::assignment::Assignment;
use derva::constraints::crate_name;
use derva::constraints::reference::ReferenceSolver;
use derva::constraints::{Constraint, SolveResult};

#[test]
fn test_constraints_boundary() {
    assert_eq!(crate_name(), "origin-constraints");
}

#[test]
fn test_sat_linear_equality_constraint() {
    let solver = ReferenceSolver::new();
    let constraints = vec![Constraint::VarEquals("x".to_string(), 42), Constraint::VarEquals("y".to_string(), 10)];

    let res = solver.solve(&constraints, 10000);
    match res {
        SolveResult::Sat(w) => {
            assert_eq!(w.assignments.get("x"), Some(&42));
            assert_eq!(w.assignments.get("y"), Some(&10));
        }
        _ => panic!("Expected Sat result"),
    }
}

#[test]
fn test_unsat_contradictory_constraints() {
    let solver = ReferenceSolver::new();
    let constraints = vec![Constraint::VarEquals("x".to_string(), 10), Constraint::VarEquals("x".to_string(), 20)];

    let res = solver.solve(&constraints, 10000);
    match res {
        SolveResult::Unsat(proof) => {
            assert_eq!(proof.unsat_core.len(), 2);
        }
        _ => panic!("Expected Unsat result"),
    }
}

#[test]
fn test_timeout_never_converts_to_unsat() {
    let solver = ReferenceSolver::new();
    let constraints = vec![
        Constraint::VarGreaterThan("x".to_string(), 50),
        Constraint::VarLessThan("x".to_string(), 90),
        Constraint::VarGreaterThan("y".to_string(), 50),
    ];

    let res = solver.solve(&constraints, 5);
    match res {
        SolveResult::Unknown(stop) => {
            assert!(stop.steps_taken >= 5);
        }
        SolveResult::Unsat(_) => panic!("Timeout must NEVER return Unsat!"),
        _ => panic!("Expected Unknown result due to budget stop"),
    }
}

#[test]
fn a_budget_stop_names_its_budget_and_spends_it() {
    let solver = ReferenceSolver::new();
    let constraints = vec![Constraint::VarGreaterThan("x".to_string(), 99)];
    match solver.solve(&constraints, 7) {
        SolveResult::Unknown(stop) => {
            assert_eq!(stop.steps_taken, 7);
            assert_eq!(stop.reason, "Budget step limit exceeded (steps >= 7)");
        }
        _ => panic!("Expected Unknown"),
    }
    // With enough steps the single value 100 is found.
    match solver.solve(&constraints, 1000) {
        SolveResult::Sat(w) => assert_eq!(w.assignments.get("x"), Some(&100)),
        _ => panic!("Expected Sat"),
    }
}

#[test]
fn the_first_solution_in_search_order_is_returned() {
    let solver = ReferenceSolver::new();
    let constraints = vec![
        Constraint::LinearGe(vec![(1, "b".to_string()), (1, "a".to_string())], 199),
        Constraint::NotEquals("a".to_string(), 100),
    ];
    match solver.solve(&constraints, 1_000_000) {
        SolveResult::Sat(w) => {
            // Variables go in byte order: a first, then b; values from -100 up.
            assert_eq!(w.assignments.get("a"), Some(&99));
            assert_eq!(w.assignments.get("b"), Some(&100));
            assert_eq!(w.assignments.len(), 2);
        }
        _ => panic!("Expected Sat"),
    }
}

#[test]
fn no_variables_and_a_false_bound_is_unsat() {
    let solver = ReferenceSolver::new();
    let constraints = vec![Constraint::LinearGe(vec![], 1)];
    assert!(matches!(solver.solve(&constraints, 0), SolveResult::Unsat(_)));
    let constraints = vec![Constraint::LinearGe(vec![], 0)];
    match solver.solve(&constraints, 0) {
        SolveResult::Sat(w) => assert_eq!(w.assignments.len(), 0),
        _ => panic!("Expected Sat"),
    }
}

#[test]
fn evaluation_leaves_unbound_variables_unconstrained() {
    let mut env = Assignment::new();
    env.insert("x".to_string(), 5);
    assert!(Constraint::VarLessThan("x".to_string(), 6).evaluate(&env));
    assert!(!Constraint::VarGreaterThan("x".to_string(), 5).evaluate(&env));
    assert!(Constraint::VarEquals("y".to_string(), 1).evaluate(&env));
    let lin = Constraint::LinearGe(vec![(2, "x".to_string()), (-1, "y".to_string())], 100);
    assert!(lin.evaluate(&env));
    env.insert("y".to_string(), 3);
    assert!(!lin.evaluate(&env));
    env.remove("y");
    assert_eq!(env.get("y"), None);
    assert_eq!(env.get("x"), Some(&5));
}

#[test]
fn collected_variables_are_sorted_and_distinct() {
    let mut vars: Vec<String> = Vec::new();
    Constraint::LinearGe(vec![(1, "zeta".to_string()), (1, "alpha".to_string()), (2, "zeta".to_string())], 0)
        .collect_variables(&mut vars);
    Constraint::VarEquals("mid".to_string(), 0).collect_variables(&mut vars);
    assert_eq!(vars, vec!["alpha".to_string(), "mid".to_string(), "zeta".to_string()]);
}

#[test]
fn unsat_proof_id_hashes_the_debug_text_of_the_constraints() {
    let v = "q \"x\"\n\t\u{e9}".to_string();
    let constraints = vec![
        Constraint::VarEquals(v.clone(), 5),
        Constraint::NotEquals(v.clone(), 5),
        Constraint::VarLessThan(v.clone(), -7),
        Constraint::LinearGe(vec![(2, v.clone()), (-1, v.clone())], i64::MIN),
        Constraint::VarGreaterThan(v.clone(), 0),
        Constraint::LinearGe(vec![], 3),
    ];
    match ReferenceSolver::new().solve(&constraints, 1_000_000) {
        SolveResult::Unsat(proof) => {
            let seed = format!("unsat_core_{:?}", constraints);
            let expected = derva::kernel::orid::ORID::compute(derva::kernel::orid::ObjectKind::Artifact, seed.as_bytes());
            assert_eq!(proof.proof_id.to_display_string(), expected.to_display_string());
        }
        _ => panic!("Expected Unsat result"),
    }
}
