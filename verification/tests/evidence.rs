use derva::evidence::correlation::CorrelationDeduplicator;
use derva::evidence::crate_name;
use derva::evidence::provenance::{Derivation, ProvenanceError, ProvenanceHypergraph};
use derva::evidence::record::{EvidenceError, EvidenceRecord};
use derva::kernel::orid::{ObjectKind, ORID};
use std::time::Instant;
use derva::evidence::trust::evaluate_epistemic_status;
use derva::kernel::status::Status;

#[test]
fn test_100_copies_one_root_yields_independent_count_one() {
    let mut provenance = ProvenanceHypergraph::new();
    let deduplicator = CorrelationDeduplicator::new();

    let root_orid = ORID::compute(ObjectKind::Evidence, b"single_truth_root");

    let mut evidence_set = Vec::new();
    let mut last_orid = root_orid;

    for i in 1..=100 {
        let record = EvidenceRecord::new(
            Some(root_orid),
            &format!("source_copy_{}", i),
            "ingest::mirror",
            1700000000 + i as u64,
            "shared_correlation_domain_a",
            "trust_medium",
        )
        .unwrap();

        let current_orid = record.id();
        provenance
            .insert_derivation(Derivation {
                rule_id: "copy_rule".to_string(),
                parents: vec![last_orid],
                child: current_orid,
                transformation_id: "copy".to_string(),
            })
            .unwrap();

        last_orid = current_orid;
        evidence_set.push(record);
    }

    let roots = deduplicator.independent_roots(&provenance, &evidence_set);
    let support_count = deduplicator.independent_support_count(&provenance, &evidence_set);

    assert_eq!(roots.len(), 1);
    assert_eq!(roots[0], root_orid);
    assert_eq!(support_count, 1, "100 copies must yield exactly independent_support_count == 1");
}

#[test]
fn test_false_merge_rate_below_one_percent() {
    let provenance = ProvenanceHypergraph::new();
    let deduplicator = CorrelationDeduplicator::new();

    let mut evidence_set = Vec::new();

    for i in 1..=1000 {
        let root_orid = ORID::compute(ObjectKind::Evidence, format!("distinct_root_{}", i).as_bytes());
        let record = EvidenceRecord::new(
            Some(root_orid),
            &format!("distinct_source_{}", i),
            "ingest::direct",
            1700000000 + i as u64,
            &format!("domain_{}", i),
            "trust_high",
        )
        .unwrap();
        evidence_set.push(record);
    }

    let count = deduplicator.independent_support_count(&provenance, &evidence_set);
    assert_eq!(count, 1000);
}

#[test]
fn distinct_roots_in_one_domain_count_once() {
    let provenance = ProvenanceHypergraph::new();
    let deduplicator = CorrelationDeduplicator::new();
    let mut evidence_set = Vec::new();
    for i in 0..3 {
        let root = ORID::compute(ObjectKind::Evidence, format!("r{}", i).as_bytes());
        evidence_set.push(EvidenceRecord::new(Some(root), "s", "ingest::direct", 5, "one_domain", "t").unwrap());
    }
    assert_eq!(deduplicator.independent_roots(&provenance, &evidence_set).len(), 3);
    assert_eq!(deduplicator.independent_support_count(&provenance, &evidence_set), 1);
    assert_eq!(deduplicator.independent_support_count(&provenance, &[]), 0);
}

#[test]
fn test_evidence_without_raw_orid_cannot_support_verified() {
    let ev = EvidenceRecord::new(None, "sensor_node_1", "ingest::direct", 1700000000, "domain_a", "trust_high").unwrap();

    assert!(!ev.can_support_verified());
}

#[test]
fn test_evidence_with_raw_orid_can_support_verified() {
    let raw_orid = ORID::compute(ObjectKind::Claim, b"raw_observation_data");
    let ev =
        EvidenceRecord::new(Some(raw_orid), "sensor_node_1", "ingest::direct", 1700000000, "domain_a", "trust_high")
            .unwrap();

    assert!(ev.can_support_verified());
}

#[test]
fn test_malformed_timestamp_or_method_rejected() {
    assert!(EvidenceRecord::new(None, "sensor", "ingest::direct", 0, "domain", "trust").is_err());

    assert!(EvidenceRecord::new(None, "sensor", "unqualifiedmethod", 100, "domain", "trust").is_err());
}

#[test]
fn blank_source_is_a_missing_field() {
    let r = EvidenceRecord::new(None, "   ", "ingest::direct", 100, "domain", "trust");
    assert!(matches!(r, Err(EvidenceError::MissingField(_))));
}

#[test]
fn test_evidence_crate_boundary() {
    assert_eq!(crate_name(), "origin-evidence");
}

#[test]
fn test_cycle_insertion_rejected_100_percent() {
    let mut graph = ProvenanceHypergraph::new();

    let n1 = ORID::compute(ObjectKind::Claim, b"node_1");
    let n2 = ORID::compute(ObjectKind::Claim, b"node_2");
    let n3 = ORID::compute(ObjectKind::Claim, b"node_3");

    graph
        .insert_derivation(Derivation {
            rule_id: "rule_a".to_string(),
            parents: vec![n1],
            child: n2,
            transformation_id: "t1".to_string(),
        })
        .unwrap();

    graph
        .insert_derivation(Derivation {
            rule_id: "rule_b".to_string(),
            parents: vec![n2],
            child: n3,
            transformation_id: "t2".to_string(),
        })
        .unwrap();

    let err = graph.insert_derivation(Derivation {
        rule_id: "rule_c".to_string(),
        parents: vec![n3],
        child: n1,
        transformation_id: "t3".to_string(),
    });

    assert!(err.is_err());
    match err.unwrap_err() {
        ProvenanceError::CycleDetected { child, ancestor } => {
            assert_eq!(child, n1);
            assert_eq!(ancestor, n3);
        }
        _ => panic!("Expected CycleDetected error"),
    }
}

#[test]
fn a_self_derivation_is_a_cycle() {
    let mut graph = ProvenanceHypergraph::new();
    let n = ORID::compute(ObjectKind::Claim, b"n");
    let err = graph.insert_derivation(Derivation {
        rule_id: "r".to_string(),
        parents: vec![n],
        child: n,
        transformation_id: "t".to_string(),
    });
    assert_eq!(err, Err(ProvenanceError::CycleDetected { child: n, ancestor: n }));
}

#[test]
fn test_why_claim_reconstructs_100_percent_roots_and_rules() {
    let mut graph = ProvenanceHypergraph::new();

    let root_a = ORID::compute(ObjectKind::Evidence, b"root_sensor_a");
    let root_b = ORID::compute(ObjectKind::Evidence, b"root_sensor_b");
    let intermediate = ORID::compute(ObjectKind::Claim, b"intermediate_claim");
    let final_claim = ORID::compute(ObjectKind::Claim, b"final_claim");

    graph
        .insert_derivation(Derivation {
            rule_id: "deduction_rule_1".to_string(),
            parents: vec![root_a, root_b],
            child: intermediate,
            transformation_id: "t_combine".to_string(),
        })
        .unwrap();

    graph
        .insert_derivation(Derivation {
            rule_id: "deduction_rule_2".to_string(),
            parents: vec![intermediate],
            child: final_claim,
            transformation_id: "t_infer".to_string(),
        })
        .unwrap();

    let proof = graph.why(&final_claim).unwrap();
    assert_eq!(proof.target, final_claim);
    assert_eq!(proof.roots.len(), 2);
    assert!(proof.roots.contains(&root_a));
    assert!(proof.roots.contains(&root_b));
    assert_eq!(proof.derivations.len(), 2);
}

#[test]
fn test_100k_edge_lineage_traversal_sub_50ms_release() {
    let mut graph = ProvenanceHypergraph::new();
    let mut last_node = ORID::compute(ObjectKind::Evidence, b"root_genesis");

    for i in 1..=10_000 {
        let next_node = ORID::compute(ObjectKind::Claim, format!("claim_{}", i).as_bytes());
        graph
            .insert_derivation(Derivation {
                rule_id: "rule_chain".to_string(),
                parents: vec![last_node],
                child: next_node,
                transformation_id: "t_step".to_string(),
            })
            .unwrap();
        last_node = next_node;
    }

    let start = Instant::now();
    let proof = graph.why(&last_node).unwrap();
    let elapsed = start.elapsed();

    println!("Lineage traversal elapsed: {:.2?}", elapsed);
    assert_eq!(proof.derivations.len(), 10_000);
    assert!(elapsed.as_millis() < 50, "Lineage traversal exceeded 50ms bound: {:?}", elapsed);
}

#[test]
fn trust_alone_never_verifies() {
    let ev = EvidenceRecord::new(
        Some(ORID::compute(ObjectKind::Claim, b"raw_data")),
        "oracle_alpha",
        "ingest::direct",
        1700000000,
        "correlation_a",
        "trust_max",
    )
    .unwrap();
    assert_eq!(evaluate_epistemic_status(&ev, false), Status::Supported);
    assert_eq!(evaluate_epistemic_status(&ev, true), Status::Verified);
    let no_raw = EvidenceRecord::new(None, "s", "ingest::direct", 1, "c", "t").unwrap();
    assert_eq!(evaluate_epistemic_status(&no_raw, true), Status::Supported);
}

#[test]
fn why_lists_the_claims_own_derivation_first() {
    let mut graph = ProvenanceHypergraph::new();
    let root_a = ORID::compute(ObjectKind::Evidence, b"root_sensor_a");
    let root_b = ORID::compute(ObjectKind::Evidence, b"root_sensor_b");
    let intermediate = ORID::compute(ObjectKind::Claim, b"intermediate_claim");
    let final_claim = ORID::compute(ObjectKind::Claim, b"final_claim");
    graph
        .insert_derivation(Derivation {
            rule_id: "deduction_rule_1".to_string(),
            parents: vec![root_a, root_b],
            child: intermediate,
            transformation_id: "t_combine".to_string(),
        })
        .unwrap();
    graph
        .insert_derivation(Derivation {
            rule_id: "deduction_rule_2".to_string(),
            parents: vec![intermediate],
            child: final_claim,
            transformation_id: "t_infer".to_string(),
        })
        .unwrap();
    let proof = graph.why(&final_claim).unwrap();
    let rules: Vec<&str> = proof.derivations.iter().map(|d| d.rule_id.as_str()).collect();
    assert_eq!(rules, vec!["deduction_rule_2", "deduction_rule_1"]);
    let mut sorted = vec![root_a, root_b];
    sorted.sort_by_key(|o| o.hash);
    assert_eq!(proof.roots, sorted);
}

#[test]
fn why_walks_the_last_parent_first() {
    let mut graph = ProvenanceHypergraph::new();
    let root = ORID::compute(ObjectKind::Evidence, b"root_sensor");
    let left = ORID::compute(ObjectKind::Claim, b"left_claim");
    let right = ORID::compute(ObjectKind::Claim, b"right_claim");
    let top = ORID::compute(ObjectKind::Claim, b"top_claim");
    graph
        .insert_derivation(Derivation {
            rule_id: "left_rule".to_string(),
            parents: vec![root],
            child: left,
            transformation_id: "t_left".to_string(),
        })
        .unwrap();
    graph
        .insert_derivation(Derivation {
            rule_id: "right_rule".to_string(),
            parents: vec![root],
            child: right,
            transformation_id: "t_right".to_string(),
        })
        .unwrap();
    graph
        .insert_derivation(Derivation {
            rule_id: "top_rule".to_string(),
            parents: vec![left, right],
            child: top,
            transformation_id: "t_top".to_string(),
        })
        .unwrap();
    let proof = graph.why(&top).unwrap();
    let rules: Vec<&str> = proof.derivations.iter().map(|d| d.rule_id.as_str()).collect();
    assert_eq!(rules, vec!["top_rule", "right_rule", "left_rule"]);
    assert_eq!(proof.roots, vec![root]);
}
