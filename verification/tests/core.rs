use derva::kernel::causal_status::{causal_promote, CausalError, CausalStatus, CausalWitness, CausalWitnessKind};
use derva::kernel::codec::{
    decode_bytes_bounded, decode_exact, decode_str_bounded, decode_varint, encode_str_bounded, encode_varint, CodecError,
    DEFAULT_MAX_BOUND,
};
use derva::kernel::distinction::{are_equivalent_under_distinctions, Distinction, DistinctionError};
use derva::kernel::evidence::{is_verified_path_valid, EvidenceRecord};
use derva::kernel::object::{Artifact, Canonical, Claim, Entity, Evidence, Obligation, Observation, Operator};
use derva::kernel::obligation::{detect_obligation_cycles, ObligationError, ObligationKind, TypedObligation};
use derva::kernel::omap::OridMap;
use derva::kernel::opcode::{Instruction, OpCode};
use derva::kernel::orid::{ObjectKind, ORID};
use derva::kernel::state::{State, StateTxn};
use derva::kernel::status::{promote, EpistemicError, Proof, ProofKind, Status};
use std::time::Instant;

#[test]
fn test_zero_observational_to_verified_causal_without_chain() {
    let dummy_orid = ORID::compute(ObjectKind::Evidence, b"witness");
    let witness_interv = CausalWitness::new(CausalWitnessKind::Intervention, dummy_orid, vec![dummy_orid], vec![]);

    let res = causal_promote(CausalStatus::Observational, &witness_interv);
    assert_eq!(res, Ok(CausalStatus::Interventional));

    let witness_mech =
        CausalWitness::new(CausalWitnessKind::MechanisticDerivation, dummy_orid, vec![dummy_orid], vec![]);
    let res_v = causal_promote(CausalStatus::Interventional, &witness_mech);
    assert_eq!(res_v, Ok(CausalStatus::VerifiedCausal));
}

#[test]
fn test_missing_provenance_rejected() {
    let dummy_orid = ORID::compute(ObjectKind::Evidence, b"witness");
    let invalid_witness = CausalWitness::new(CausalWitnessKind::Intervention, dummy_orid, vec![], vec![]);

    let res = causal_promote(CausalStatus::Observational, &invalid_witness);
    assert_eq!(res, Err(CausalError::MissingProvenance));
}

#[test]
fn test_known_truth_synthetic_suite_zero_false_promotions() {
    let dummy_orid = ORID::compute(ObjectKind::Evidence, b"synthetic");
    let kinds = [CausalWitnessKind::Assumption, CausalWitnessKind::Intervention, CausalWitnessKind::MechanisticDerivation];
    let statuses = [
        CausalStatus::Observational,
        CausalStatus::AssumedCausal,
        CausalStatus::Interventional,
        CausalStatus::Mechanistic,
        CausalStatus::VerifiedCausal,
    ];

    let mut false_promotions = 0;
    for &s in &statuses {
        for &k in &kinds {
            let w = CausalWitness::new(k, dummy_orid, vec![dummy_orid], vec!["assumption_1".to_string()]);
            if let Ok(next) = causal_promote(s, &w) {
                if s == CausalStatus::Observational && next == CausalStatus::VerifiedCausal {
                    false_promotions += 1;
                }
            }
        }
    }

    assert_eq!(false_promotions, 0, "False causal promotions count must be zero");
}

#[test]
fn test_varint_canonical_roundtrip() {
    let values = [0, 1, 127, 128, 255, 16384, u64::MAX];
    for &val in &values {
        let mut buf = Vec::new();
        encode_varint(val, &mut buf);
        let mut offset = 0;
        let decoded = decode_varint(&buf, &mut offset).unwrap();
        assert_eq!(decoded, val);
        assert_eq!(offset, buf.len());
    }
}

#[test]
fn test_rejection_of_non_canonical_overlong_varints() {
    let overlong_zero = vec![0x80, 0x00];
    let mut offset = 0;
    let res = decode_varint(&overlong_zero, &mut offset);
    assert_eq!(res, Err(CodecError::NonCanonicalEncoding));
}

#[test]
fn test_rejection_of_trailing_bytes() {
    let mut buf = Vec::new();
    encode_str_bounded("valid_str", &mut buf);
    buf.push(0xFF);

    let res = decode_exact(&buf, |s, off| decode_str_bounded(s, off, DEFAULT_MAX_BOUND));
    assert_eq!(res, Err(CodecError::TrailingBytes));
}

#[test]
fn test_rejection_exceeding_max_bound() {
    let mut buf = Vec::new();
    encode_varint(1000, &mut buf);
    buf.resize(1005, 0);

    let mut offset = 0;
    let res = decode_bytes_bounded(&buf, &mut offset, 500);
    assert_eq!(res, Err(CodecError::BoundedLengthExceeded));
}

#[test]
fn varint_encodings_of_known_values() {
    let mut buf = Vec::new();
    encode_varint(300, &mut buf);
    assert_eq!(buf, vec![0xAC, 0x02]);
    let mut buf = Vec::new();
    encode_varint(0, &mut buf);
    assert_eq!(buf, vec![0x00]);
    let mut offset = 0;
    assert_eq!(decode_varint(&[0x81], &mut offset), Err(CodecError::UnexpectedEof));
}

#[test]
fn test_distinction_instantiation_requires_domain_predicate_cost() {
    let valid = Distinction::new("physics", "parity_even", 5);
    assert!(valid.is_ok());
    let d = valid.unwrap();
    assert_eq!(d.domain.0, "physics");
    assert_eq!(d.predicate.0, "parity_even");
    assert_eq!(d.cost.0, 5);

    assert_eq!(Distinction::new("", "parity_even", 5), Err(DistinctionError::MissingDomain));
    assert_eq!(Distinction::new("physics", "", 5), Err(DistinctionError::MissingPredicate));
}

#[test]
fn test_decision_relative_equivalence() {
    let d1 = Distinction::new("math", "even_sum", 1).unwrap();
    let state_a = vec![2, 4, 6];
    let state_b = vec![1, 3, 8];
    let state_c = vec![1, 2, 4];

    assert!(are_equivalent_under_distinctions(&state_a, &state_b, &[d1.clone()]));
    assert!(!are_equivalent_under_distinctions(&state_a, &state_c, &[d1]));
}

#[test]
fn test_anti_amplification_100_copies_count_as_one_root() {
    let mut graph = OridMap::new();

    let primary_raw = ORID::compute(ObjectKind::Evidence, b"primary_sensor_data");
    let primary_id = ORID::compute(ObjectKind::Evidence, b"primary_record");

    let primary_rec = EvidenceRecord::new_primary(primary_id, primary_raw, "sensor_net");
    graph.insert(primary_id, primary_rec);

    let mut last_id = primary_id;
    for i in 0..100 {
        let derived_id = ORID::compute(ObjectKind::Evidence, format!("copy_{}", i).as_bytes());
        let derived_rec = EvidenceRecord::new_derived(derived_id, "replication_rule", vec![last_id], "derived_net");
        graph.insert(derived_id, derived_rec);
        last_id = derived_id;
    }

    let final_derived = graph.get(&last_id).unwrap();
    assert_eq!(final_derived.independent_root_count(&graph), 1);
    assert!(is_verified_path_valid(&graph, &last_id));
}

#[test]
fn test_zero_verified_without_valid_primary_path() {
    let mut graph = OridMap::new();

    let rootless_id = ORID::compute(ObjectKind::Evidence, b"rootless_record");
    let missing_parent_id = ORID::compute(ObjectKind::Evidence, b"missing_parent");

    let rootless_rec = EvidenceRecord::new_derived(rootless_id, "ungrounded_rule", vec![missing_parent_id], "invalid_net");
    graph.insert(rootless_id, rootless_rec);

    assert!(!is_verified_path_valid(&graph, &rootless_id));
}

#[test]
fn two_primary_roots_count_twice() {
    let mut graph = OridMap::new();
    let a = ORID::compute(ObjectKind::Evidence, b"a");
    let b = ORID::compute(ObjectKind::Evidence, b"b");
    let raw_a = ORID::compute(ObjectKind::Observation, b"raw_a");
    let raw_b = ORID::compute(ObjectKind::Observation, b"raw_b");
    let d = ORID::compute(ObjectKind::Evidence, b"d");
    graph.insert(a, EvidenceRecord::new_primary(a, raw_a, "x"));
    graph.insert(b, EvidenceRecord::new_primary(b, raw_b, "y"));
    graph.insert(d, EvidenceRecord::new_derived(d, "join", vec![a, b, a], "z"));
    let rec = graph.get(&d).unwrap();
    assert_eq!(rec.independent_root_count(&graph), 2);
    let roots = rec.resolve_primary_roots(&graph);
    assert!(roots.contains(&raw_a) && roots.contains(&raw_b));
}

#[test]
fn test_all_seven_objects_encoding_determinism() {
    let dummy_orid = ORID::compute(ObjectKind::Claim, b"dummy_seed");

    let entity = Entity { domain_id: "physics".to_string(), name: "mass".to_string() };
    let obs = Observation { source_id: "sensor_01".to_string(), timestamp: 1600000000, payload: vec![1, 2, 3, 4] };
    let claim = Claim {
        id: dummy_orid,
        statement: "Invariance holds".to_string(),
        status: Status::Verified,
        provenance_roots: vec![dummy_orid],
    };
    let evidence = Evidence {
        id: dummy_orid,
        raw_orid: dummy_orid,
        source_id: "lab_test".to_string(),
        observed_at_timestamp: 1600000001,
    };
    let operator = Operator {
        id: dummy_orid,
        name: "transform".to_string(),
        domain_schema: "schema_v1".to_string(),
        status: CausalStatus::VerifiedCausal,
        cost: 10,
    };
    let obligation =
        Obligation { id: dummy_orid, claim_id: dummy_orid, obligation_kind: "Execution".to_string(), resolved: true };
    let artifact = Artifact { id: dummy_orid, name: "kernel_v1.oir".to_string(), data: vec![0xDE, 0xAD, 0xBE, 0xEF] };

    assert_eq!(entity.canonical_bytes(), entity.canonical_bytes());
    assert_eq!(obs.canonical_bytes(), obs.canonical_bytes());
    assert_eq!(claim.canonical_bytes(), claim.canonical_bytes());
    assert_eq!(evidence.canonical_bytes(), evidence.canonical_bytes());
    assert_eq!(operator.canonical_bytes(), operator.canonical_bytes());
    assert_eq!(obligation.canonical_bytes(), obligation.canonical_bytes());
    assert_eq!(artifact.canonical_bytes(), artifact.canonical_bytes());
}

#[test]
fn test_property_canonical_encoding_coverage_1e6_cases() {
    let dummy_orid = ORID::compute(ObjectKind::Artifact, b"property_seed");

    let mut total_cases = 0;
    for i in 0..150_000 {
        let entity_a = Entity { domain_id: format!("domain_{}", i % 10), name: format!("entity_{}", i) };
        let entity_b = entity_a.clone();
        assert_eq!(entity_a.canonical_bytes(), entity_b.canonical_bytes());

        let art_a = Artifact { id: dummy_orid, name: format!("art_{}", i), data: vec![(i % 256) as u8, ((i >> 8) % 256) as u8] };
        let art_b = art_a.clone();
        assert_eq!(art_a.canonical_bytes(), art_b.canonical_bytes());

        total_cases += 7;
    }

    assert!(total_cases >= 1_000_000, "Total property cases: {}", total_cases);
}

#[test]
fn test_self_satisfaction_prohibited() {
    let claim_id = ORID::compute(ObjectKind::Claim, b"claim_under_test");
    let ob_id = ORID::compute(ObjectKind::Obligation, b"ob_1");

    let mut ob = TypedObligation::new(ob_id, claim_id, ObligationKind::Proof, 0);

    let res = ob.discharge(claim_id, 100);
    assert_eq!(res, Err(ObligationError::SelfSatisfactionProhibited));
    assert!(!ob.is_valid_and_fresh(100));

    let witness_id = ORID::compute(ObjectKind::Evidence, b"external_proof");
    let res_ok = ob.discharge(witness_id, 100);
    assert!(res_ok.is_ok());
    assert!(ob.is_valid_and_fresh(100));
}

#[test]
fn test_expiration_invalidates_freshness() {
    let claim_id = ORID::compute(ObjectKind::Claim, b"claim_exp");
    let ob_id = ORID::compute(ObjectKind::Obligation, b"ob_exp");
    let witness_id = ORID::compute(ObjectKind::Evidence, b"witness_exp");

    let mut ob = TypedObligation::new(ob_id, claim_id, ObligationKind::Freshness, 1000);
    assert!(ob.discharge(witness_id, 500).is_ok());
    assert!(ob.is_valid_and_fresh(999));

    assert!(!ob.is_valid_and_fresh(1001));
}

#[test]
fn expired_discharge_is_rejected() {
    let claim_id = ORID::compute(ObjectKind::Claim, b"c");
    let ob_id = ORID::compute(ObjectKind::Obligation, b"o");
    let witness_id = ORID::compute(ObjectKind::Evidence, b"w");
    let mut ob = TypedObligation::new(ob_id, claim_id, ObligationKind::Freshness, 10);
    assert_eq!(ob.discharge(witness_id, 11), Err(ObligationError::Expired));
    assert!(!ob.is_resolved);
}

#[test]
fn test_obligation_cycle_detection() {
    let a = ORID::compute(ObjectKind::Obligation, b"A");
    let b = ORID::compute(ObjectKind::Obligation, b"B");

    let mut graph = OridMap::new();
    graph.insert(a, vec![b]);
    graph.insert(b, vec![a]);

    assert!(detect_obligation_cycles(&graph));

    graph.insert(b, vec![]);
    assert!(!detect_obligation_cycles(&graph));
}

#[test]
fn self_loop_is_a_cycle() {
    let a = ORID::compute(ObjectKind::Obligation, b"A");
    let mut graph = OridMap::new();
    graph.insert(a, vec![a]);
    assert!(detect_obligation_cycles(&graph));
}

#[test]
fn test_micro_isa_exact_nine_opcodes_invariant() {
    assert_eq!(OpCode::count(), 9, "Micro-ISA v1 must contain exactly 9 opcodes");
    assert_eq!(OpCode::ALL.len(), 9);

    for op in OpCode::ALL {
        let byte_val = op.byte_value();
        assert!(byte_val >= 1 && byte_val <= 9);
        assert_eq!(OpCode::from_u8(byte_val), Some(op));
    }

    assert_eq!(OpCode::from_u8(0), None);
    assert_eq!(OpCode::from_u8(10), None);
}

#[test]
fn test_reference_reasoning_flow_expressible_by_composition() {
    let flow = vec![
        Instruction::new(OpCode::Observe, b"sensor_ingest"),
        Instruction::new(OpCode::Propose, b"hypothesis_claim"),
        Instruction::new(OpCode::Relate, b"causal_link"),
        Instruction::new(OpCode::Refine, b"constraint_bounds"),
        Instruction::new(OpCode::Query, b"state_check"),
        Instruction::new(OpCode::Intervene, b"do_experiment"),
        Instruction::new(OpCode::Verify, b"proof_witness"),
        Instruction::new(OpCode::Commit, b"state_txn"),
        Instruction::new(OpCode::Compile, b"generate_oir"),
    ];

    assert_eq!(flow.len(), 9);
    for inst in flow {
        assert!(OpCode::ALL.contains(&inst.opcode));
    }
}

#[test]
fn test_state_default_schema_version() {
    let state = State::new();
    assert_eq!(state.schema_version, 0);
    assert!(state.is_schema_valid());
}

#[test]
fn test_state_txn_commit_and_rollback() {
    let state = State::new();
    let mut txn = StateTxn::new(state.clone());

    let claim_orid = ORID::compute(ObjectKind::Claim, b"test_claim");
    let claim = Claim {
        id: claim_orid,
        statement: "Ground truth invariant".to_string(),
        status: Status::Supported,
        provenance_roots: Vec::new(),
    };

    txn.add_claim(claim.clone());

    let rollback_state = txn.clone().rollback();
    assert!(rollback_state.graph.is_empty());

    let committed_state = txn.commit().unwrap();
    assert_eq!(committed_state.graph.len(), 1);
    assert_eq!(committed_state.graph.get(&claim_orid), Some(&claim));
}

#[test]
fn test_lattice_join_and_meet() {
    assert_eq!(Status::Hypothesis.join(Status::Supported), Status::Supported);
    assert_eq!(Status::Verified.join(Status::Contested), Status::Contested);
    assert_eq!(Status::Supported.meet(Status::Verified), Status::Supported);
}

#[test]
fn test_promotion_paths_without_unwrap() {
    let dummy_orid = ORID::compute(ObjectKind::Evidence, b"witness_1");
    let proof_v = Proof::new(ProofKind::FormalVerification, dummy_orid);
    let proof_c = Proof::new(ProofKind::ContradictionWitness, dummy_orid);

    assert_eq!(promote(Status::Supported, &proof_v), Ok(Status::Verified));
    assert_eq!(promote(Status::Verified, &proof_c), Ok(Status::Contested));

    let invalid_proof = Proof::new(ProofKind::Observation, dummy_orid);
    assert_eq!(promote(Status::Refuted, &invalid_proof), Err(EpistemicError::IllegalPromotion));
}

#[test]
fn test_property_lattice_coverage_1e6_cases() {
    let statuses =
        [Status::Unknown, Status::Hypothesis, Status::Supported, Status::Verified, Status::Contested, Status::Refuted];
    let proof_kinds = [
        ProofKind::Observation,
        ProofKind::Derivation,
        ProofKind::FormalVerification,
        ProofKind::RefutationWitness,
        ProofKind::ContradictionWitness,
    ];
    let dummy_orid = ORID::compute(ObjectKind::Evidence, b"prop_witness");

    let mut checked_cases = 0;
    for _ in 0..40_000 {
        for &s in &statuses {
            for &pk in &proof_kinds {
                let proof = Proof::new(pk, dummy_orid);
                let res = promote(s, &proof);
                if s == Status::Refuted {
                    assert!(res.is_err() || res == Ok(Status::Refuted));
                }
                checked_cases += 1;
            }
        }
    }
    assert!(checked_cases >= 1_000_000, "Checked cases count: {}", checked_cases);
}

#[test]
fn join_and_meet_are_commutative_on_all_pairs() {
    let statuses =
        [Status::Unknown, Status::Hypothesis, Status::Supported, Status::Verified, Status::Contested, Status::Refuted];
    for &a in &statuses {
        for &b in &statuses {
            assert_eq!(a.join(b), b.join(a));
            assert_eq!(a.meet(b), b.meet(a));
        }
        assert_eq!(a.join(Status::Refuted), Status::Refuted);
        assert_eq!(a.meet(Status::Unknown), Status::Unknown);
    }
}

#[test]
fn test_golden_vectors_canonical_and_malleable_rejection() {
    let dummy_orid = ORID::compute(ObjectKind::Claim, b"golden_seed");
    let claim = Claim {
        id: dummy_orid,
        statement: "Golden statement".to_string(),
        status: Status::Verified,
        provenance_roots: vec![dummy_orid],
    };

    let encoded = claim.canonical_bytes();
    assert!(!encoded.is_empty());

    let overlong_varint = vec![0x80, 0x80, 0x00];
    let mut off = 0;
    assert_eq!(decode_varint(&overlong_varint, &mut off), Err(CodecError::NonCanonicalEncoding));
}

#[test]
fn test_codec_high_throughput_benchmark_target() {
    let iterations = 2_000_000;
    let start = Instant::now();

    let mut buf = Vec::with_capacity(64);
    for i in 0..iterations {
        buf.clear();
        encode_varint(i as u64, &mut buf);
        let mut off = 0;
        let val = decode_varint(&buf, &mut off).unwrap();
        assert_eq!(val, i as u64);
    }

    let elapsed = start.elapsed();
    let ops_per_sec = iterations as f64 / elapsed.as_secs_f64();
    println!("Codec benchmark throughput: {:.2} ops/sec", ops_per_sec);
    assert!(ops_per_sec >= 1_000_000.0, "Throughput was {:.2} ops/sec", ops_per_sec);
}

#[test]
fn orid_display_text() {
    let id = ORID { kind: ObjectKind::Claim, hash: [0xab; 32] };
    assert_eq!(id.to_display_string(), "orid:Claim:abababababababab");
}

#[test]
fn codec_errors_describe_themselves() {
    assert_eq!(CodecError::UnexpectedEof.message(), "Unexpected end of file during decoding");
    assert_eq!(CodecError::NonCanonicalEncoding.message(), "Non-canonical overlong varint encoding rejected");
    assert_eq!(CodecError::BoundedLengthExceeded.message(), "Declared length exceeds maximum allowed bound");
    assert_eq!(CodecError::TrailingBytes.message(), "Unconsumed trailing bytes found after decoding");
    assert_eq!(CodecError::InvalidUtf8.message(), "String is not valid UTF-8");
}

#[test]
fn records_filed_under_other_keys_are_followed_by_key_and_skipped_by_id() {
    let mut graph = OridMap::new();
    let shared = ORID::compute(ObjectKind::Evidence, b"shared_id");
    let k1 = ORID::compute(ObjectKind::Evidence, b"key_one");
    let k2 = ORID::compute(ObjectKind::Evidence, b"key_two");
    let raw_1 = ORID::compute(ObjectKind::Observation, b"raw_one");
    let raw_2 = ORID::compute(ObjectKind::Observation, b"raw_two");
    let d = ORID::compute(ObjectKind::Evidence, b"joined");
    graph.insert(k1, EvidenceRecord::new_primary(shared, raw_1, "x"));
    graph.insert(k2, EvidenceRecord::new_primary(shared, raw_2, "y"));
    graph.insert(d, EvidenceRecord::new_derived(d, "join", vec![k1, k2], "z"));
    let rec = graph.get(&d).unwrap();
    assert_eq!(rec.resolve_primary_roots(&graph), vec![raw_1]);
    assert_eq!(rec.independent_root_count(&graph), 1);
    assert!(is_verified_path_valid(&graph, &d));
}
