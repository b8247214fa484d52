use derva::causal::counterfactual::{Capability, CounterfactualError, CounterfactualFork};
use derva::causal::crate_name;
use derva::causal::interaction::{DiagnosticTag, InteractionDiagnosticChecker};
use derva::causal::journal::{EnvironmentReceipt, InterventionJournal, InterventionOutcome, InterventionRecord};
use derva::causal::operator::{CausalOperator, EffectId, SchemaId};
use derva::causal::promotion::CausalPromotionValidator;
use derva::kernel::causal_status::{CausalError, CausalStatus, CausalWitness, CausalWitnessKind};
use derva::kernel::object::Claim;
use derva::kernel::orid::{ObjectKind, ORID};
use derva::kernel::state::{Budget, State, StateTxn};
use derva::kernel::status::Status;
use std::time::Instant;
use derva::causal::compose::{build_composed, check_composition, check_structure, combined_status, CompositionCheckError, CompositionProof};

#[test]
fn test_counterfactual_branch_does_not_modify_real_root_100_percent() {
    let base_state = State::new();
    let initial_graph_len = base_state.graph.len();
    let parent_commit = ORID::compute(ObjectKind::Commit, b"parent_01");

    let mut cf = CounterfactualFork::create_fork(parent_commit, &base_state).unwrap();

    let mut txn = StateTxn::new(cf.fork_state.clone());
    let claim_id = ORID::compute(ObjectKind::Claim, b"hypothetical_claim");
    txn.add_claim(Claim {
        id: claim_id,
        statement: "What if X happens?".to_string(),
        status: Status::Hypothesis,
        provenance_roots: vec![],
    });

    let updated_fork_state = cf.apply_hypothetical_txn(txn).unwrap();

    assert_eq!(updated_fork_state.graph.len(), 1);
    assert_eq!(cf.fork_state.graph.len(), 1);

    assert_eq!(base_state.graph.len(), initial_graph_len, "Real base state root MUST be 100% unmodified");
}

#[test]
fn test_external_effect_capabilities_absent_by_construction() {
    let base_state = State::new();
    let parent_commit = ORID::compute(ObjectKind::Commit, b"parent_01");

    let cf = CounterfactualFork::create_fork(parent_commit, &base_state).unwrap();

    assert!(
        !cf.capabilities().contains(&Capability::RealWorldEffect),
        "Real-world effect capability MUST be absent by construction"
    );

    let err = cf.verify_capability(Capability::RealWorldEffect);
    assert_eq!(err, Err(CounterfactualError::CapabilityViolation(Capability::RealWorldEffect)));
    assert_eq!(cf.verify_capability(Capability::ReadState), Ok(()));
}

#[test]
fn test_fork_creation_p99_latency_under_1ms() {
    let base_state = State::new();
    let parent_commit = ORID::compute(ObjectKind::Commit, b"parent_01");

    let iterations = 1000;
    let mut durations = Vec::with_capacity(iterations);

    for _ in 0..iterations {
        let start = Instant::now();
        let _cf = CounterfactualFork::create_fork(parent_commit, &base_state).unwrap();
        durations.push(start.elapsed());
    }

    durations.sort();
    let p99 = durations[(iterations * 99 / 100).min(iterations - 1)];

    println!("Fork creation p99 latency: {:?}", p99);
    assert!(p99.as_micros() < 1000, "p99 creation latency must be < 1ms (was {:?})", p99);
}

fn create_test_forks_commutative() -> (CounterfactualFork, CounterfactualFork) {
    let state = State::new();
    let parent_id = ORID::compute(ObjectKind::Commit, b"root");

    let fork_ab = CounterfactualFork::create_fork(parent_id, &state).unwrap();
    let fork_ba = CounterfactualFork::create_fork(parent_id, &state).unwrap();

    (fork_ab, fork_ba)
}

fn create_test_forks_non_commutative() -> (CounterfactualFork, CounterfactualFork) {
    let state = State::new();
    let parent_id = ORID::compute(ObjectKind::Commit, b"root");

    let mut fork_ab = CounterfactualFork::create_fork(parent_id, &state).unwrap();
    let fork_ba = CounterfactualFork::create_fork(parent_id, &state).unwrap();

    let mut txn = StateTxn::new(fork_ab.fork_state.clone());
    let claim_id = ORID::compute(ObjectKind::Claim, b"order_dependent_claim");
    txn.add_claim(Claim {
        id: claim_id,
        statement: "State changed by A then B".to_string(),
        status: Status::Supported,
        provenance_roots: vec![],
    });
    fork_ab.apply_hypothetical_txn(txn).unwrap();

    (fork_ab, fork_ba)
}

#[test]
fn test_zero_diagnostics_promoted_automatically_to_causal_status() {
    let checker = InteractionDiagnosticChecker::new();
    let (fork_ab, fork_ba) = create_test_forks_commutative();
    let op_a = ORID::compute(ObjectKind::Operator, b"op_a");
    let op_b = ORID::compute(ObjectKind::Operator, b"op_b");
    let budget = Budget { cpu_steps_remaining: 1000, wall_time_ms_limit: 100, max_allocations: 100 };

    let diag = checker.evaluate_order_interaction(op_a, op_b, &fork_ab, &fork_ba, &budget);

    assert_eq!(diag.tag, DiagnosticTag::OrderInteraction);
}

#[test]
fn test_exact_agreement_in_finite_worlds() {
    let checker = InteractionDiagnosticChecker::new();
    let op_a = ORID::compute(ObjectKind::Operator, b"op_a");
    let op_b = ORID::compute(ObjectKind::Operator, b"op_b");
    let budget = Budget { cpu_steps_remaining: 1000, wall_time_ms_limit: 100, max_allocations: 100 };

    let (fork_ab_c, fork_ba_c) = create_test_forks_commutative();
    let diag_c = checker.evaluate_order_interaction(op_a, op_b, &fork_ab_c, &fork_ba_c, &budget);
    assert!(diag_c.is_commutative);
    assert!(diag_c.delta.is_zero());

    let (fork_ab_nc, fork_ba_nc) = create_test_forks_non_commutative();
    let diag_nc = checker.evaluate_order_interaction(op_a, op_b, &fork_ab_nc, &fork_ba_nc, &budget);
    assert!(!diag_nc.is_commutative);
    assert_eq!(diag_nc.delta.graph_diff_count, 1);
    assert_eq!(diag_nc.delta.total_differences, 1);
}

#[test]
fn test_budget_bounded_for_large_domains() {
    let checker = InteractionDiagnosticChecker::new();
    let mut state = State::new();

    for i in 0..100 {
        let id = ORID::compute(ObjectKind::Claim, format!("c_{}", i).as_bytes());
        state.graph.insert(
            id,
            Claim { id, statement: format!("Claim {}", i), status: Status::Supported, provenance_roots: vec![] },
        );
    }

    let parent_id = ORID::compute(ObjectKind::Commit, b"root");
    let fork_ab = CounterfactualFork::create_fork(parent_id, &state).unwrap();
    let fork_ba = CounterfactualFork::create_fork(parent_id, &state).unwrap();

    let tight_budget = Budget { cpu_steps_remaining: 10, wall_time_ms_limit: 10, max_allocations: 10 };

    let op_a = ORID::compute(ObjectKind::Operator, b"op_a");
    let op_b = ORID::compute(ObjectKind::Operator, b"op_b");

    let diag = checker.evaluate_order_interaction(op_a, op_b, &fork_ab, &fork_ba, &tight_budget);

    assert!(diag.budget_exhausted, "Budget MUST be marked as exhausted");
    assert_eq!(diag.evaluated_steps, 10, "Evaluated steps MUST be capped at budget ceiling");
}

#[test]
fn a_zero_budget_still_compares_one_claim() {
    let checker = InteractionDiagnosticChecker::new();
    let (fork_ab, fork_ba) = create_test_forks_non_commutative();
    let op = ORID::compute(ObjectKind::Operator, b"op");
    let budget = Budget { cpu_steps_remaining: 0, wall_time_ms_limit: 0, max_allocations: 0 };
    let diag = checker.evaluate_order_interaction(op, op, &fork_ab, &fork_ba, &budget);
    assert_eq!(diag.evaluated_steps, 1);
    assert!(!diag.budget_exhausted);
    // The claim of the first fork is missing from the second one.
    assert_eq!(diag.delta.graph_diff_count, 1);
    // Swapped, the missing key is counted from the other side.
    let swapped = checker.evaluate_order_interaction(op, op, &fork_ba, &fork_ab, &budget);
    assert_eq!(swapped.delta.graph_diff_count, 1);
    assert_eq!(swapped.evaluated_steps, 0);
    assert_ne!(diag.diagnostic_id, ORID::compute(ObjectKind::Artifact, b""));
}

fn create_dummy_receipt() -> EnvironmentReceipt {
    EnvironmentReceipt::new("node_worker_01", 0, b"no_errors")
}

#[test]
fn test_100_percent_interventions_generate_receipt_and_entry() {
    let mut journal = InterventionJournal::new();
    let before = ORID::compute(ObjectKind::Commit, b"state_t0");
    let action = ORID::compute(ObjectKind::Operator, b"action_a");
    let receipt = create_dummy_receipt();
    let after = ORID::compute(ObjectKind::Commit, b"state_t1");

    let record = InterventionRecord::new(
        before,
        action,
        "exec_capability",
        receipt.clone(),
        Some(after),
        InterventionOutcome::Success,
        1000,
        2000,
    );

    let res = journal.append(record);
    assert!(res.is_ok());
    assert_eq!(journal.len(), 1);
    assert_eq!(journal.entries[0].environment_receipt, receipt);
}

#[test]
fn test_missing_after_observation_marks_outcome_unknown_never_success() {
    let before = ORID::compute(ObjectKind::Commit, b"state_t0");
    let action = ORID::compute(ObjectKind::Operator, b"action_a");
    let receipt = create_dummy_receipt();

    let record = InterventionRecord::new(
        before,
        action,
        "exec_capability",
        receipt,
        None,
        InterventionOutcome::Success,
        1000,
        2000,
    );

    assert_eq!(
        record.outcome,
        InterventionOutcome::Unknown,
        "Outcome MUST be downgraded to Unknown when after_observation is missing"
    );
}

#[test]
fn test_journal_append_atomic_with_commit() {
    let mut journal = InterventionJournal::new();
    let state = State::new();
    let txn = StateTxn::new(state);

    let before = ORID::compute(ObjectKind::Commit, b"state_t0");
    let action = ORID::compute(ObjectKind::Operator, b"action_a");
    let receipt = create_dummy_receipt();
    let after = ORID::compute(ObjectKind::Commit, b"state_t1");

    let record = InterventionRecord::new(
        before,
        action,
        "exec_capability",
        receipt,
        Some(after),
        InterventionOutcome::Success,
        1000,
        2000,
    );

    let (committed_state, _id) = journal.append_atomic(txn, record).unwrap();
    assert_eq!(journal.len(), 1);
    assert!(committed_state.is_schema_valid());
}

#[test]
fn test_causal_boundary() {
    assert_eq!(crate_name(), "origin-causal");
}

fn create_test_operator() -> CausalOperator {
    CausalOperator::new(
        "test_op",
        SchemaId::new("In"),
        SchemaId::new("Out"),
        vec![],
        EffectId::new("eff"),
        vec![],
        CausalStatus::Observational,
        None,
        None,
    )
    .unwrap()
}

#[test]
fn test_zero_false_promotions_in_known_truth_suite() {
    let validator = CausalPromotionValidator::new();
    let dummy_orid = ORID::compute(ObjectKind::Evidence, b"witness_root");

    let statuses = [
        CausalStatus::Observational,
        CausalStatus::AssumedCausal,
        CausalStatus::Interventional,
        CausalStatus::Mechanistic,
        CausalStatus::VerifiedCausal,
    ];

    let witness_kinds =
        [CausalWitnessKind::Assumption, CausalWitnessKind::Intervention, CausalWitnessKind::MechanisticDerivation];

    let mut false_promotions = 0;

    for &from in &statuses {
        for &to in &statuses {
            for &kind in &witness_kinds {
                let witness = CausalWitness::new(kind, dummy_orid, vec![dummy_orid], vec!["assumption_a".to_string()]);

                let supported = validator.supports_transition(from, to, &witness);

                if from == CausalStatus::Observational && to == CausalStatus::VerifiedCausal && supported {
                    false_promotions += 1;
                }

                if from == CausalStatus::AssumedCausal && to == CausalStatus::VerifiedCausal && supported {
                    false_promotions += 1;
                }
            }
        }
    }

    assert_eq!(false_promotions, 0, "False promotion count MUST be exactly 0 in known-truth suite");
}

#[test]
fn test_every_verified_causal_requires_witness() {
    let mut validator = CausalPromotionValidator::new();
    let mut op = create_test_operator();
    let dummy_orid = ORID::compute(ObjectKind::Evidence, b"witness_root");

    let interv_witness = CausalWitness::new(CausalWitnessKind::Intervention, dummy_orid, vec![dummy_orid], vec![]);
    let res = validator.validate_and_promote(&mut op, CausalStatus::Interventional, interv_witness);
    assert_eq!(res, Ok(CausalStatus::Interventional));

    let illegal_witness =
        CausalWitness::new(CausalWitnessKind::Assumption, dummy_orid, vec![dummy_orid], vec!["assumption".to_string()]);
    let err_res = validator.validate_and_promote(&mut op, CausalStatus::VerifiedCausal, illegal_witness);
    assert_eq!(err_res, Err(CausalError::IllegalPromotion));

    let mech_witness = CausalWitness::new(CausalWitnessKind::MechanisticDerivation, dummy_orid, vec![dummy_orid], vec![]);
    let valid_res = validator.validate_and_promote(&mut op, CausalStatus::VerifiedCausal, mech_witness);
    assert_eq!(valid_res, Ok(CausalStatus::VerifiedCausal));
}

#[test]
fn test_assumption_removal_invalidates_dependent_status_100_percent() {
    let mut validator = CausalPromotionValidator::new();
    let mut op = create_test_operator();
    let dummy_orid = ORID::compute(ObjectKind::Evidence, b"witness_root");

    let assumption_name = "homogeneity_assumption";
    let witness =
        CausalWitness::new(CausalWitnessKind::Assumption, dummy_orid, vec![dummy_orid], vec![assumption_name.to_string()]);

    let res = validator.validate_and_promote(&mut op, CausalStatus::AssumedCausal, witness);
    assert_eq!(res, Ok(CausalStatus::AssumedCausal));
    assert_eq!(op.status, CausalStatus::AssumedCausal);

    let was_retracted = validator.retract_assumption(assumption_name, &mut op);
    assert!(was_retracted, "Assumption removal MUST return true");
    assert_eq!(
        op.status,
        CausalStatus::Observational,
        "Operator status MUST be degraded back to Observational upon assumption retraction"
    );
}

fn plain_operator(name: &str, dom: &str, codom: &str, pre: Vec<&str>, effect: &str, cost: u64) -> CausalOperator {
    CausalOperator::new(
        name,
        SchemaId::new(dom),
        SchemaId::new(codom),
        pre.into_iter().map(derva::causal::operator::PredicateId::new).collect(),
        EffectId::new(effect),
        vec![],
        CausalStatus::Observational,
        Some(derva::causal::operator::Cost::new(cost, "steps")),
        None,
    )
    .unwrap()
}

#[test]
fn composition_checks_in_order() {
    let a = plain_operator("A", "S1", "S2", vec!["ready"], "warm", 5);
    let b = plain_operator("B", "S2", "S3", vec!["warm", "ready"], "hot", 7);
    assert_eq!(check_composition(&a, &b, &[], None), Ok(12));
    assert_eq!(
        check_composition(&a, &b, &[], Some(10)),
        Err(CompositionCheckError::PolicyViolationCost { total: 12, max: 10 })
    );
    assert_eq!(
        check_composition(&a, &b, &[EffectId::new("hot")], None),
        Err(CompositionCheckError::PolicyViolationDisallowedEffect(EffectId::new("hot")))
    );
    let c = plain_operator("C", "S2", "S3", vec!["cold"], "x", 1);
    assert_eq!(
        check_composition(&a, &c, &[EffectId::new("hot")], None),
        Err(CompositionCheckError::UnsatisfiedPrecondition(derva::causal::operator::PredicateId::new("cold")))
    );
    let d = plain_operator("D", "S9", "S3", vec![], "x", 1);
    assert_eq!(
        check_composition(&a, &d, &[], None),
        Err(CompositionCheckError::CodomainDomainMismatch { codomain_a: SchemaId::new("S2"), domain_b: SchemaId::new("S9") })
    );
}

#[test]
fn composite_status_takes_the_strongest() {
    assert_eq!(combined_status(CausalStatus::Observational, CausalStatus::Mechanistic), CausalStatus::Mechanistic);
    assert_eq!(combined_status(CausalStatus::VerifiedCausal, CausalStatus::Interventional), CausalStatus::Interventional);
    assert_eq!(combined_status(CausalStatus::Observational, CausalStatus::Observational), CausalStatus::Observational);
}

#[test]
fn structure_is_checked_before_the_cost() {
    let a = plain_operator("A", "S1", "S2", vec![], "warm", u64::MAX);
    let b = plain_operator("B", "S9", "S3", vec![], "hot", 1);
    // the schemas do not meet, so the cost is never summed
    assert_eq!(
        check_composition(&a, &b, &[], None),
        Err(CompositionCheckError::CodomainDomainMismatch { codomain_a: SchemaId::new("S2"), domain_b: SchemaId::new("S9") })
    );
    assert!(check_structure(&a, &b, &[]).is_err());
    let c = plain_operator("C", "S2", "S3", vec![], "hot", 1);
    assert_eq!(check_structure(&a, &c, &[]), Ok(()));
}

#[test]
fn composed_operator_is_named_and_proved_from_its_parts() {
    let mut a = plain_operator("A", "S1", "S2", vec!["ready"], "warm", 5);
    a.evidence = vec![ORID::compute(ObjectKind::Evidence, b"e1")];
    let mut b = plain_operator("B", "S2", "S3", vec!["warm"], "hot", 7);
    b.evidence = vec![ORID::compute(ObjectKind::Evidence, b"e2")];
    b.status = CausalStatus::Mechanistic;
    let risk = derva::causal::operator::Risk { score_bits: 0.5f64.to_bits(), description: "composite_risk".to_string() };
    let c = build_composed(&a, &b, 12, risk.clone());
    assert_eq!(c.operator.name, "(A) >> (B)");
    assert_eq!(c.operator.id, ORID::compute(ObjectKind::Operator, b"(A) >> (B)"));
    assert_eq!(c.operator.domain, SchemaId::new("S1"));
    assert_eq!(c.operator.codomain, SchemaId::new("S3"));
    assert_eq!(c.operator.preconditions, vec![derva::causal::operator::PredicateId::new("ready")]);
    assert_eq!(c.operator.effect, EffectId::new("warm+hot"));
    assert_eq!(c.operator.evidence, vec![a.evidence[0], b.evidence[0]]);
    assert_eq!(c.operator.status, combined_status(a.status, b.status));
    assert_eq!(c.operator.cost, Some(derva::causal::operator::Cost::new(12, "cost_units")));
    assert_eq!(c.operator.risk, Some(risk));
    let expected = CompositionProof::compute(&[a.id, b.id], &a.domain, &b.codomain, true);
    assert_eq!(c.proof.proof_id, expected.proof_id);
    assert_eq!(c.proof.step_operators, vec![a.id, b.id]);
    assert!(c.proof.is_associative);
}
