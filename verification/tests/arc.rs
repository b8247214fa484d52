use derva::arc::action::{ArcAction, ArcActionSpace, SelectedAction};
use derva::arc::baseline::BaselineTracker;
use derva::arc::bridge::{
    BlockingCause, EventCategory, FeasibilityWitness, HypothesisStatus, PredictionOutcome, PredictionReceipt,
    ProspectiveVector, RetrodictionVector, StrategyState, TransitionHypothesis, UninformativeReason,
};
use derva::arc::engine::labels::{make_induced_id, make_receipt_label};
use derva::arc::engine::ArcBridgeEngine;
use derva::arc::observation::{CanonicalObservation, GenericObject, GridEvent, TemporalDiff};
use derva::kernel::orid::{ObjectKind, ORID};

fn object(id: u32, bbox: [u8; 4], centroid: [u8; 2], pixel_count: u32) -> GenericObject {
    GenericObject { id, color: 1, bbox, centroid, pixel_count }
}

fn frame(width: u8, height: u8, objects: Vec<GenericObject>) -> CanonicalObservation {
    CanonicalObservation {
        step: 0,
        frame_width: width,
        frame_height: height,
        objects,
        diff: TemporalDiff {
            objects_appeared: vec![],
            objects_disappeared: vec![],
            objects_moved: vec![],
            color_changes: vec![],
            events: vec![],
        },
    }
}

fn hypothesis(id: &str, action_id: u8, event: GridEvent, requires_feasibility: bool) -> TransitionHypothesis {
    TransitionHypothesis {
        id: id.to_string(),
        derived_from: None,
        action_id,
        target_object_id: None,
        predicted_event: event,
        requires_feasibility,
        status: HypothesisStatus::Unverified,
        support_count: 1,
        refutation_count: 0,
        retrodiction: RetrodictionVector::default(),
        prospective: ProspectiveVector::default(),
    }
}

fn witness(bounds_feasible: bool) -> FeasibilityWitness {
    FeasibilityWitness {
        object_id: 1,
        bbox: [2, 2, 3, 3],
        predicted_delta: [3, 0],
        predicted_target_bbox: [5, 2, 6, 3],
        frame_width: 10,
        frame_height: 10,
        bounds_feasible,
        blocking_cause: if bounds_feasible { None } else { Some(BlockingCause::Boundary) },
    }
}

fn receipt(primary: &str, expected: GridEvent, bounds_feasible: bool) -> PredictionReceipt {
    PredictionReceipt {
        receipt_id: "P1".to_string(),
        primary_hyp_id: primary.to_string(),
        secondary_hyp_id: None,
        step: 1,
        action_id: 4,
        target_coords: None,
        expected_event: expected,
        state_root: String::new(),
        precondition_witness: true,
        contextual_feasibility: bounds_feasible,
        feasibility_witness: witness(bounds_feasible),
    }
}

fn moved(id: u32, dx: i8, dy: i8) -> GridEvent {
    GridEvent::ObjectMoved { id, dx, dy }
}

fn simple(id: u8) -> ArcAction {
    ArcAction::Simple { id }
}

fn spatial(id: u8) -> ArcAction {
    ArcAction::Spatial { id, x_min: 0, x_max: 20, y_min: 0, y_max: 20 }
}

#[test]
fn engine_starts_from_the_initial_root() {
    let e = ArcBridgeEngine::new();
    assert_eq!(
        e.current_commit_root.to_display_string(),
        ORID::compute(ObjectKind::Commit, b"arc3_initial_root").to_display_string()
    );
    assert_eq!(e.step_counter, 0);
    assert_eq!(e.strategy_state, StrategyState::Active);
    assert!(e.active_hypotheses.is_empty());
    assert!(e.pending_prediction.is_none());
    assert!(!e.is_frozen);
}

#[test]
fn induced_ids_carry_the_debug_text_of_the_event() {
    let events = vec![
        moved(1, 2, 0),
        moved(7, -3, 127),
        GridEvent::ObjectAppeared { id: 4, color: 9, centroid: [3, 250] },
        GridEvent::ObjectDisappeared { id: 4294967295 },
        GridEvent::ColorChanged { id: 2, old_color: 0, new_color: 5 },
        GridEvent::GridRestructured { pixel_delta: 12 },
    ];
    assert_eq!(make_induced_id(3, &events[0]), "H_trans_act3_evObjectMoved { id: 1, dx: 2, dy: 0 }");
    for (a, ev) in [(0u8, &events[0]), (255, &events[1]), (12, &events[2]), (1, &events[3]), (4, &events[4]), (5, &events[5])] {
        assert_eq!(make_induced_id(a, ev), format!("H_trans_act{}_ev{:?}", a, ev));
    }
    assert_eq!(make_receipt_label(42), "P42");
}

#[test]
fn induction_proposes_each_new_event_once_with_its_retrodiction() {
    let mut e = ArcBridgeEngine::new();
    e.step_counter = 1;
    e.last_action = Some(SelectedAction { action_id: 3, x: None, y: None, hypothesis_id: "x".to_string() });
    let events = vec![moved(1, -3, 0)];
    e.record_transition(&events);
    assert_eq!(e.history_trace.len(), 1);
    assert_eq!(e.history_trace[0].step, 0);
    assert_eq!(e.history_trace[0].action_id, 3);
    assert_eq!(e.history_trace[0].state_root, e.current_commit_root.to_display_string());

    e.induce_hypotheses(3, &events);
    assert_eq!(e.active_hypotheses.len(), 1);
    let h = &e.active_hypotheses[0];
    assert_eq!(h.id, "H_trans_act3_evObjectMoved { id: 1, dx: -3, dy: 0 }");
    assert_eq!(h.target_object_id, Some(1));
    assert_eq!(h.status, HypothesisStatus::Unverified);
    assert_eq!(h.support_count, 1);
    assert!(!h.requires_feasibility);
    assert_eq!((h.retrodiction.applicable, h.retrodiction.correct), (1, 1));

    e.induce_hypotheses(3, &events);
    assert_eq!(e.active_hypotheses.len(), 1);

    e.induce_hypotheses(4, &[moved(1, 3, 0), GridEvent::GridRestructured { pixel_delta: 2 }]);
    assert_eq!(e.active_hypotheses.len(), 3);
    assert_eq!(e.active_hypotheses[2].target_object_id, None);
    // action 4 was never taken before, so nothing applies
    assert_eq!(e.active_hypotheses[1].retrodiction.applicable, 0);

    e.is_frozen = true;
    e.induce_hypotheses(5, &events);
    assert_eq!(e.active_hypotheses.len(), 3);
}

#[test]
fn retrodiction_counts_correct_contradicted_and_ambiguous_steps() {
    let mut e = ArcBridgeEngine::new();
    e.step_counter = 1;
    e.last_action = Some(SelectedAction { action_id: 2, x: Some(1), y: Some(2), hypothesis_id: "x".to_string() });
    e.record_transition(&[moved(1, 0, 3)]);
    e.record_transition(&[moved(1, 0, 1)]);
    e.record_transition(&[]);
    assert_eq!(e.history_trace[0].target_coords, Some([1, 2]));
    let r = e.retrodict(2, &moved(1, 0, 3));
    assert_eq!((r.applicable, r.correct, r.contradicted, r.ambiguous), (3, 1, 1, 1));
    let r = e.retrodict(1, &moved(1, 0, 3));
    assert_eq!(r.applicable, 0);
}

#[test]
fn a_second_contradiction_refutes() {
    let mut e = ArcBridgeEngine::new();
    e.active_hypotheses.push(hypothesis("h", 4, moved(1, 3, 0), false));
    assert_eq!(e.apply_outcome(&"h".to_string(), PredictionOutcome::Contradiction), Some(0));
    assert_eq!(e.active_hypotheses[0].status, HypothesisStatus::Contested);
    assert_eq!(e.refuted_hypotheses, 0);
    assert_eq!(e.apply_outcome(&"h".to_string(), PredictionOutcome::Contradiction), Some(0));
    let h = &e.active_hypotheses[0];
    assert_eq!(h.status, HypothesisStatus::Refuted);
    assert_eq!(h.refutation_count, 2);
    assert_eq!(h.prospective.issued, 2);
    assert_eq!(h.prospective.contradictions, 2);
    assert_eq!(h.retrodiction.contradicted, 2);
    assert_eq!(e.refuted_hypotheses, 1);
}

#[test]
fn an_exact_match_supports() {
    let mut e = ArcBridgeEngine::new();
    e.active_hypotheses.push(hypothesis("a", 4, moved(1, 3, 0), false));
    e.active_hypotheses.push(hypothesis("b", 4, moved(1, 3, 0), false));
    assert_eq!(e.apply_outcome(&"b".to_string(), PredictionOutcome::ExactMatch), Some(1));
    let h = &e.active_hypotheses[1];
    assert_eq!(h.status, HypothesisStatus::Supported);
    assert_eq!(h.support_count, 2);
    assert_eq!((h.retrodiction.correct, h.retrodiction.applicable), (1, 1));
    assert_eq!(h.prospective.exact_matches, 1);
    assert_eq!(e.supported_hypotheses, 1);
    assert_eq!(e.active_hypotheses[0].status, HypothesisStatus::Unverified);
    assert_eq!(e.apply_outcome(&"b".to_string(), PredictionOutcome::PartialMatch), Some(1));
    assert_eq!(e.active_hypotheses[1].prospective.partial_matches, 1);
    assert_eq!(e.active_hypotheses[1].support_count, 3);
    assert_eq!(e.supported_hypotheses, 1);
    assert_eq!(e.apply_outcome(&"c".to_string(), PredictionOutcome::ExactMatch), None);
    assert_eq!(e.supported_hypotheses, 1);
}

#[test]
fn a_move_blocked_at_the_border_is_refined_once() {
    let mut e = ArcBridgeEngine::new();
    e.active_hypotheses.push(hypothesis("h", 4, moved(1, 3, 0), false));
    let blocked = PredictionOutcome::Uninformative(UninformativeReason::EffectBlocked(BlockingCause::Boundary));
    assert_eq!(e.apply_outcome(&"h".to_string(), blocked), Some(0));
    assert_eq!(e.active_hypotheses.len(), 2);
    let r = &e.active_hypotheses[1];
    assert_eq!(r.id, "Refine_h_IF_feasible");
    assert_eq!(r.derived_from, Some("h".to_string()));
    assert!(r.requires_feasibility);
    assert_eq!(r.status, HypothesisStatus::Supported);
    assert_eq!(r.prospective.issued, 1);
    assert_eq!(e.active_hypotheses[0].status, HypothesisStatus::Unverified);
    assert_eq!(e.target_object_idx, 1);

    e.apply_outcome(&"h".to_string(), blocked);
    assert_eq!(e.active_hypotheses.len(), 2);
    assert_eq!(e.target_object_idx, 2);

    let other = PredictionOutcome::Uninformative(UninformativeReason::TargetUnavailable);
    e.apply_outcome(&"h".to_string(), other);
    assert_eq!(e.active_hypotheses.len(), 2);
    assert_eq!(e.target_object_idx, 3);

    let mut f = ArcBridgeEngine::new();
    f.is_frozen = true;
    f.active_hypotheses.push(hypothesis("h", 4, moved(1, 3, 0), false));
    f.apply_outcome(&"h".to_string(), blocked);
    assert_eq!(f.active_hypotheses.len(), 1);
}

#[test]
fn receipts_resolve_by_the_dual_context() {
    let mut e = ArcBridgeEngine::new();
    let obs = frame(10, 10, vec![object(1, [2, 2, 3, 3], [2, 2], 4)]);
    e.active_hypotheses.push(hypothesis("h", 4, moved(1, 3, 0), false));

    let free = receipt("h", moved(1, 3, 0), true);
    let (exp, act, out) = e.resolve_prediction(&free, &obs, &[moved(1, 3, 0)]);
    assert_eq!((exp, act, out), (EventCategory::Moved, EventCategory::Moved, PredictionOutcome::ExactMatch));
    let (_, _, out) = e.resolve_prediction(&free, &obs, &[moved(1, 1, 0)]);
    assert_eq!(out, PredictionOutcome::PartialMatch);
    let (_, act, out) = e.resolve_prediction(&free, &obs, &[]);
    assert_eq!((act, out), (EventCategory::NoChange, PredictionOutcome::Contradiction));
    let (_, act, out) =
        e.resolve_prediction(&free, &obs, &[GridEvent::ColorChanged { id: 1, old_color: 1, new_color: 2 }]);
    assert_eq!((act, out), (EventCategory::ColorChanged, PredictionOutcome::Contradiction));

    let blocked = receipt("h", moved(1, 3, 0), false);
    let (exp, _, out) = e.resolve_prediction(&blocked, &obs, &[]);
    assert_eq!((exp, out), (EventCategory::NoChange, PredictionOutcome::ExactMatch));
    let (_, _, out) = e.resolve_prediction(&blocked, &obs, &[moved(1, 3, 0)]);
    assert_eq!(out, PredictionOutcome::Contradiction);

    // at the border the hypothesis can no longer be tested
    let edge = frame(10, 10, vec![object(1, [8, 2, 9, 3], [8, 2], 4)]);
    let (_, _, out) = e.resolve_prediction(&free, &edge, &[moved(1, 3, 0)]);
    assert_eq!(out, PredictionOutcome::Uninformative(UninformativeReason::EffectBlocked(BlockingCause::Boundary)));
    // a receipt on an unknown hypothesis is judged on the events alone
    let unknown = receipt("gone", moved(1, 3, 0), true);
    let (_, _, out) = e.resolve_prediction(&unknown, &edge, &[moved(1, 3, 0)]);
    assert_eq!(out, PredictionOutcome::ExactMatch);
}

#[test]
fn six_stagnant_steps_deprioritize_the_strategy() {
    let mut e = ArcBridgeEngine::new();
    for _ in 0..5 {
        e.note_progress(false);
    }
    assert_eq!(e.stagnation_counter, 5);
    assert!(!e.revise_strategy());
    assert_eq!(e.recent_state_roots.len(), 1);
    e.current_commit_root = ORID::compute(ObjectKind::Commit, b"next");
    e.note_progress(false);
    assert!(e.revise_strategy());
    assert_eq!(e.strategy_state, StrategyState::Deprioritized);
    assert_eq!(e.target_object_idx, 3);
    assert_eq!(e.stagnation_counter, 0);
    // the same root again is a loop; the strategy was already deprioritized
    assert!(!e.revise_strategy());
    assert_eq!(e.target_object_idx, 6);
    e.note_progress(true);
    assert_eq!(e.strategy_state, StrategyState::Active);
    assert_eq!(e.stagnation_counter, 0);
    for k in 0..10u8 {
        e.current_commit_root = ORID::compute(ObjectKind::Commit, &[k]);
        e.revise_strategy();
    }
    assert_eq!(e.recent_state_roots.len(), 8);
    assert_eq!(e.recent_state_roots[7], ORID::compute(ObjectKind::Commit, &[9]).to_display_string());
    assert_eq!(e.recent_state_roots[0], ORID::compute(ObjectKind::Commit, &[2]).to_display_string());
}

#[test]
fn committing_hashes_the_root_with_the_action() {
    let mut e = ArcBridgeEngine::new();
    let before = e.current_commit_root.to_display_string();
    let selected = SelectedAction { action_id: 6, x: Some(12), y: Some(44), hypothesis_id: "s".to_string() };
    e.commit_step(frame(4, 4, vec![]), &selected);
    let mut bytes = before.clone().into_bytes();
    bytes.push(6);
    bytes.extend_from_slice(&(12u32).to_le_bytes());
    bytes.extend_from_slice(&(44u32).to_le_bytes());
    assert_eq!(e.current_commit_root.to_display_string(), ORID::compute(ObjectKind::Commit, &bytes).to_display_string());
    assert_ne!(e.current_commit_root.to_display_string(), before);
    assert_eq!(e.last_action.as_ref().map(|a| a.action_id), Some(6));
    assert_eq!(e.last_observation.as_ref().map(|o| o.frame_width), Some(4));

    let mut f = ArcBridgeEngine::new();
    f.commit_step(frame(4, 4, vec![]), &SelectedAction { action_id: 1, x: None, y: None, hypothesis_id: String::new() });
    let mut bytes = before.into_bytes();
    bytes.push(1);
    assert_eq!(f.current_commit_root.to_display_string(), ORID::compute(ObjectKind::Commit, &bytes).to_display_string());
}

#[test]
fn exploration_without_hypotheses() {
    let obs = frame(10, 10, vec![object(5, [1, 1, 2, 2], [1, 2], 4), object(6, [6, 6, 7, 7], [6, 7], 4)]);
    let space = ArcActionSpace { actions: vec![simple(1), spatial(6)] };

    let mut e = ArcBridgeEngine::new();
    e.step_counter = 1;
    e.target_object_idx = 3;
    let s = e.select_action(&obs, &space);
    assert_eq!((s.action_id, s.x, s.y), (6, Some(6), Some(7)));
    assert_eq!(s.hypothesis_id, "Select_obj_6_x6_y7");
    assert!(e.pending_prediction.is_none());

    e.step_counter = 2;
    let s = e.select_action(&obs, &space);
    assert_eq!((s.action_id, s.x, s.y), (3, None, None));
    assert_eq!(s.hypothesis_id, "Probe_dir_action_3");

    e.strategy_state = StrategyState::Deprioritized;
    e.step_counter = 15;
    let s = e.select_action(&obs, &space);
    assert_eq!((s.action_id, s.x, s.y), (6, Some(4), Some(1)));
    assert_eq!(s.hypothesis_id, "ExplorationSweep_x4_y1");

    let wide = frame(200, 200, vec![]);
    e.strategy_state = StrategyState::Active;
    e.step_counter = 50;
    let s = e.select_action(&wide, &space);
    assert_eq!(s.hypothesis_id, "ExplorationSweep_x7_y2");

    let plain = ArcActionSpace { actions: vec![simple(1), simple(2), simple(7)] };
    e.step_counter = 5;
    let s = e.select_action(&obs, &plain);
    assert_eq!((s.action_id, s.x, s.y), (7, None, None));
    assert_eq!(s.hypothesis_id, "SimpleExplore_7");

    let none = ArcActionSpace { actions: vec![] };
    let s = e.select_action(&obs, &none);
    assert_eq!((s.action_id, s.x, s.y), (1, None, None));
    assert_eq!(s.hypothesis_id, "H_fallback");
}

#[test]
fn a_lone_testable_hypothesis_is_probed() {
    let obs = frame(10, 10, vec![object(1, [2, 2, 3, 3], [2, 2], 4)]);
    let space = ArcActionSpace { actions: vec![simple(4)] };
    let mut e = ArcBridgeEngine::new();
    e.step_counter = 7;
    let mut refuted = hypothesis("r", 1, moved(1, 0, -3), false);
    refuted.status = HypothesisStatus::Refuted;
    e.active_hypotheses.push(refuted);
    // blocked at the border: not informative
    e.active_hypotheses.push(hypothesis("edge", 3, moved(1, -5, 0), false));
    e.active_hypotheses.push(hypothesis("h", 4, moved(1, 3, 0), false));
    let s = e.select_action(&obs, &space);
    assert_eq!((s.action_id, s.x, s.y), (4, None, None));
    assert_eq!(s.hypothesis_id, "Probe_h|Receipt:P7");
    let r = e.pending_prediction.as_ref().unwrap();
    assert_eq!(r.receipt_id, "P7");
    assert_eq!(r.primary_hyp_id, "h");
    assert_eq!(r.secondary_hyp_id, None);
    assert_eq!(r.step, 7);
    assert_eq!(r.expected_event, moved(1, 3, 0));
    assert_eq!(r.state_root, e.current_commit_root.to_display_string());
    assert!(r.feasibility_witness.bounds_feasible);
    assert_eq!(r.feasibility_witness.predicted_target_bbox, [5, 2, 6, 3]);
}

#[test]
fn two_hypotheses_predicting_apart_are_discriminated() {
    let obs = frame(10, 10, vec![object(1, [2, 2, 3, 3], [2, 2], 4), object(2, [5, 5, 5, 5], [5, 5], 1)]);
    let space = ArcActionSpace { actions: vec![spatial(6)] };
    let mut e = ArcBridgeEngine::new();
    e.step_counter = 3;
    e.target_object_idx = 1;
    e.active_hypotheses.push(hypothesis("a", 4, moved(1, 3, 0), false));
    e.active_hypotheses.push(hypothesis("b", 4, moved(1, 3, 0), false));
    e.active_hypotheses.push(hypothesis("c", 2, moved(1, 0, 3), false));
    let s = e.select_action(&obs, &space);
    assert_eq!((s.action_id, s.x, s.y), (4, Some(5), Some(5)));
    assert_eq!(s.hypothesis_id, "Discriminate_a_vs_c|Receipt:P3");
    let r = e.pending_prediction.as_ref().unwrap();
    assert_eq!(r.secondary_hyp_id, Some("c".to_string()));
    assert_eq!(r.target_coords, Some([5, 5]));

    // a refined hypothesis goes first, paired with the first of another id
    let mut f = ArcBridgeEngine::new();
    f.step_counter = 4;
    f.active_hypotheses.push(hypothesis("a", 4, moved(1, 3, 0), false));
    f.active_hypotheses.push(hypothesis("Refine_a_IF_feasible", 4, moved(1, 3, 0), true));
    let s = f.select_action(&obs, &ArcActionSpace { actions: vec![] });
    assert_eq!(s.hypothesis_id, "Discriminate_Refine_a_IF_feasible_vs_a|Receipt:P4");
    assert_eq!((s.x, s.y), (None, None));
}

#[test]
fn test_footprint_feasibility_exhaustive_property() {
    let mut mismatches = 0;
    let engine = ArcBridgeEngine::new();

    for grid_w in 2..=10u8 {
        for grid_h in 2..=10u8 {
            for min_x in 0..grid_w {
                for max_x in min_x..grid_w {
                    for min_y in 0..grid_h {
                        for max_y in min_y..grid_h {
                            for dx in -10..=10i8 {
                                for dy in -10..=10i8 {
                                    let new_min_x = min_x as i16 + dx as i16;
                                    let new_max_x = max_x as i16 + dx as i16;
                                    let new_min_y = min_y as i16 + dy as i16;
                                    let new_max_y = max_y as i16 + dy as i16;

                                    let is_in_grid = new_min_x >= 0
                                        && new_max_x < grid_w as i16
                                        && new_min_y >= 0
                                        && new_max_y < grid_h as i16;

                                    let dummy_obj = GenericObject {
                                        id: 1,
                                        color: 1,
                                        bbox: [min_x, min_y, max_x, max_y],
                                        centroid: [(min_x + max_x) / 2, (min_y + max_y) / 2],
                                        pixel_count: 1,
                                    };
                                    let hyp = TransitionHypothesis {
                                        id: "test".to_string(),
                                        derived_from: None,
                                        action_id: 3,
                                        target_object_id: Some(1),
                                        predicted_event: GridEvent::ObjectMoved { id: 1, dx, dy },
                                        requires_feasibility: false,
                                        status: HypothesisStatus::Supported,
                                        support_count: 1,
                                        refutation_count: 0,
                                        retrodiction: RetrodictionVector::default(),
                                        prospective: ProspectiveVector::default(),
                                    };
                                    let obs = CanonicalObservation {
                                        step: 1,
                                        frame_width: grid_w,
                                        frame_height: grid_h,
                                        objects: vec![dummy_obj],
                                        diff: TemporalDiff {
                                            objects_appeared: vec![],
                                            objects_disappeared: vec![],
                                            objects_moved: vec![],
                                            color_changes: vec![],
                                            events: vec![],
                                        },
                                    };

                                    let witness = engine.evaluate_transition_feasibility(&hyp, &obs);
                                    if witness.bounds_feasible != is_in_grid {
                                        mismatches += 1;
                                    }
                                }
                            }
                        }
                    }
                }
            }
        }
    }
    assert_eq!(mismatches, 0, "Exhaustive footprint feasibility property test failed with mismatches!");
}

#[test]
fn baseline_tallies_an_informative_receipt() {
    let mut t = BaselineTracker::new();
    assert_eq!(t.b0_seed, 0xCAFEF00D);
    t.record_prediction(EventCategory::Moved, EventCategory::Moved, PredictionOutcome::ExactMatch, true);
    assert_eq!((t.issued_receipts, t.valid_at_issue_receipts, t.informative_receipts), (1, 1, 1));
    assert_eq!(t.derva_confusions[1].true_positives, 1);
    // the no-change baseline missed a move
    assert_eq!(t.b1_no_change_confusions[1].false_negatives, 1);
    assert_eq!(t.b1_no_change_confusions[0].false_positives, 1);
    // the last-effect and majority baselines start from no change
    assert_eq!(t.b2_last_effect_confusions[0].false_positives, 1);
    assert_eq!(t.b3_freq_majority_confusions[0].false_positives, 1);
    // the random baseline draws from the seeded generator
    let seed = 0xCAFEF00Du64.wrapping_mul(6364136223846793005).wrapping_add(1442695040888963407);
    assert_eq!(t.b0_seed, seed);
    let drawn = ((seed >> 32) % 5) as usize;
    let b0 = &t.b0_random_confusions;
    if drawn == 1 {
        assert_eq!(b0[1].true_positives, 1);
    } else {
        assert_eq!((b0[1].false_negatives, b0[drawn].false_positives), (1, 1));
    }
    assert_eq!(t.category_counts, vec![0, 1, 0, 0, 0]);
    assert_eq!(t.last_effect, EventCategory::Moved);
    assert_eq!((t.exact_event_matches, t.exact_event_total), (1, 1));
    assert_eq!((t.current_bucket_hits, t.current_bucket_total), (1, 1));
    assert_eq!(t.category_support(), vec![(EventCategory::Moved, 1)]);

    // now the majority is Moved, and last effect is Moved
    t.record_prediction(EventCategory::Moved, EventCategory::NoChange, PredictionOutcome::Contradiction, false);
    assert_eq!(t.b3_freq_majority_confusions[0].false_negatives, 1);
    assert_eq!(t.b3_freq_majority_confusions[1].false_positives, 1);
    assert_eq!(t.b2_last_effect_confusions[1].false_positives, 1);
    assert_eq!(t.derva_confusions[0].false_negatives, 1);
    assert_eq!(t.valid_at_issue_receipts, 1);
    assert_eq!((t.exact_event_matches, t.exact_event_total), (1, 2));
}

#[test]
fn baseline_counts_uninformative_receipts_by_reason_only() {
    let mut t = BaselineTracker::new();
    let blocked = UninformativeReason::EffectBlocked(BlockingCause::Boundary);
    t.record_prediction(EventCategory::Moved, EventCategory::NoChange, PredictionOutcome::Uninformative(blocked), true);
    t.record_prediction(EventCategory::Moved, EventCategory::NoChange, PredictionOutcome::Uninformative(blocked), true);
    t.record_prediction(
        EventCategory::Moved,
        EventCategory::NoChange,
        PredictionOutcome::Uninformative(UninformativeReason::TargetUnavailable),
        false,
    );
    assert_eq!(t.uninformative_breakdown, vec![(blocked, 2), (UninformativeReason::TargetUnavailable, 1)]);
    assert_eq!((t.issued_receipts, t.valid_at_issue_receipts, t.informative_receipts), (3, 2, 0));
    assert_eq!(t.b0_seed, 0xCAFEF00D);
    assert_eq!(t.category_counts, vec![0; 5]);
    assert_eq!(t.exact_event_total, 0);
}

#[test]
fn baseline_closes_a_block_every_five_informative_receipts() {
    let mut t = BaselineTracker::new();
    let hits = [true, false, true, true, false, true];
    for h in hits {
        let pred = if h { EventCategory::Moved } else { EventCategory::Appeared };
        t.record_prediction(pred, EventCategory::Moved, PredictionOutcome::PartialMatch, true);
    }
    assert_eq!(t.window_hits, vec![3]);
    assert_eq!((t.current_bucket_hits, t.current_bucket_total), (1, 1));
    assert_eq!(t.exact_event_matches, 0);
    assert_eq!(t.category_counts[1], 6);
}

#[test]
fn majority_ties_go_to_the_earliest_category() {
    let mut t = BaselineTracker::new();
    t.record_prediction(EventCategory::Moved, EventCategory::Appeared, PredictionOutcome::Contradiction, true);
    t.record_prediction(EventCategory::Moved, EventCategory::Moved, PredictionOutcome::ExactMatch, true);
    // Moved and Appeared are tied at one; Moved comes first
    t.record_prediction(EventCategory::Moved, EventCategory::Disappeared, PredictionOutcome::Contradiction, true);
    assert_eq!(t.b3_freq_majority_confusions[1].false_positives, 1);
    assert_eq!(t.b3_freq_majority_confusions[4].false_negatives, 1);
}

#[test]
fn baseline_sums_stay_balanced() {
    let mut t = BaselineTracker::new();
    let cats = [EventCategory::NoChange, EventCategory::Moved, EventCategory::ColorChanged, EventCategory::Appeared];
    for k in 0..23usize {
        let pred = cats[k % 4];
        let actual = cats[(k * 3 + 1) % 4];
        let outcome = match k % 5 {
            0 => PredictionOutcome::ExactMatch,
            1 => PredictionOutcome::Uninformative(UninformativeReason::AmbiguousMatching),
            2 => PredictionOutcome::Contradiction,
            3 => PredictionOutcome::Uninformative(UninformativeReason::TargetUnavailable),
            _ => PredictionOutcome::PartialMatch,
        };
        t.record_prediction(pred, actual, outcome, k % 2 == 0);
    }
    let uninformative: u64 = t.uninformative_breakdown.iter().map(|(_, c)| *c).sum();
    assert_eq!(t.issued_receipts, 23);
    assert_eq!(t.issued_receipts, t.informative_receipts + uninformative);
    assert_eq!(t.exact_event_total, t.informative_receipts);
    assert_eq!(t.category_counts.iter().sum::<u64>(), t.informative_receipts);
    for table in [&t.derva_confusions, &t.b0_random_confusions, &t.b1_no_change_confusions, &t.b2_last_effect_confusions, &t.b3_freq_majority_confusions] {
        let actual: u64 = table.iter().map(|c| c.true_positives + c.false_negatives).sum();
        assert_eq!(actual, t.informative_receipts);
    }
    assert_eq!(t.window_hits.len() as u64 * 5 + t.current_bucket_total, t.informative_receipts);
}
