//! The bridge engine: the state the bridge keeps from one game step to the
//! next, and the decisions it takes at each step.

pub mod labels;
pub mod select;

use vstd::prelude::*;
use crate::arc::action::SelectedAction;
use crate::arc::baseline::BaselineTracker;
use crate::arc::bridge::{
    category_of, count_generalized_schemas, event_category, predicted_delta, event_target, schema_of, target_index,
    transition_feasibility, transition_preconditions, is_feasibility, BlockingCause, EventCategory,
    FeasibilityWitness, HistoricalTransition, HypothesisStatus, PredictionOutcome, PredictionReceipt,
    ProspectiveVector, RetrodictionVector, StrategyState, TransitionHypothesis, UninformativeReason,
};
use crate::arc::engine::labels::{induced_id, make_induced_id};
use crate::kernel::text::{ascii_chars, lemma_ascii_utf8, lemma_encode_concat, push_text, string_of_utf8};
use vstd::utf8::encode_utf8;
use crate::arc::observation::{CanonicalObservation, GridEvent};
use crate::kernel::orid::{orid_display, sha256_digest, spec_domain_prefix, ObjectKind, ORID};

verus! {

/// The bytes the initial commit root is computed from.
pub open spec fn initial_root_bytes() -> Seq<u8> {
    seq![97u8, 114u8, 99u8, 51u8, 95u8, 105u8, 110u8, 105u8, 116u8, 105u8, 97u8, 108u8, 95u8, 114u8, 111u8, 111u8, 116u8]
}

/// Whether the predicted move of `h` keeps its object's box inside the frame
/// of `obs` (false when the frame has no object to move).
pub open spec fn bounds_ok(h: TransitionHypothesis, obs: CanonicalObservation) -> bool {
    let t = event_target(h.predicted_event);
    let d = predicted_delta(h);
    match target_index(obs.objects@, t.0) {
        Some(i) => {
            let o = obs.objects@[i];
            &&& o.bbox[0] + d.0 >= 0
            &&& o.bbox[2] + d.0 < obs.frame_width
            &&& o.bbox[1] + d.1 >= 0
            &&& o.bbox[3] + d.1 < obs.frame_height
        },
        None => false,
    }
}

/// Whether an experiment on `h` in frame `obs` can be informative.
pub open spec fn hyp_valid(h: TransitionHypothesis, obs: CanonicalObservation) -> bool {
    h.requires_feasibility || bounds_ok(h, obs)
}

/// The first hypothesis from index `k` on with the given id.
pub open spec fn first_hyp(hyps: Seq<TransitionHypothesis>, id: Seq<char>, k: int) -> Option<int>
    decreases hyps.len() - k,
{
    if k < 0 || k >= hyps.len() {
        None
    } else if hyps[k].id@ == id {
        Some(k)
    } else {
        first_hyp(hyps, id, k + 1)
    }
}

/// The category of what was observed: that of the first event, or no change.
pub open spec fn observed_category(events: Seq<GridEvent>) -> EventCategory {
    if events.len() == 0 {
        EventCategory::NoChange
    } else {
        event_category(events[0])
    }
}

/// The category a receipt predicts: its event's where the move was free when
/// issued, no change where it was blocked.
pub open spec fn expected_category(r: PredictionReceipt) -> EventCategory {
    if r.feasibility_witness.bounds_feasible {
        event_category(r.expected_event)
    } else {
        EventCategory::NoChange
    }
}

/// `e` moves object `id` in a direction that the offset `(dx, dy)` shares on some axis.
pub open spec fn moved_alike(e: GridEvent, id: u32, dx: i8, dy: i8) -> bool {
    match e {
        GridEvent::ObjectMoved { id: i, dx: x, dy: y } => i == id && ((x > 0 && dx > 0) || (x < 0 && dx < 0) || (y > 0
            && dy > 0) || (y < 0 && dy < 0)),
        _ => false,
    }
}

/// How a receipt is resolved against the events observed: uninformative when
/// its hypothesis can no longer be tested; an exact match when a blocked move
/// showed no change or a free one showed the expected event; a partial match
/// when a free move moved the object in a shared direction; a contradiction
/// when anything else happened.
pub open spec fn receipt_outcome(valid: bool, free: bool, expected: GridEvent, events: Seq<GridEvent>) -> PredictionOutcome {
    if !valid {
        PredictionOutcome::Uninformative(UninformativeReason::EffectBlocked(BlockingCause::Boundary))
    } else if !free && observed_category(events) == EventCategory::NoChange {
        PredictionOutcome::ExactMatch
    } else if free && events.contains(expected) {
        PredictionOutcome::ExactMatch
    } else if free {
        match expected {
            GridEvent::ObjectMoved { id, dx, dy } => if exists|k: int| 0 <= k < events.len() && moved_alike(#[trigger] events[k], id, dx, dy) {
                PredictionOutcome::PartialMatch
            } else {
                PredictionOutcome::Contradiction
            },
            _ => PredictionOutcome::Contradiction,
        }
    } else if events.len() > 0 {
        PredictionOutcome::Contradiction
    } else {
        PredictionOutcome::Uninformative(UninformativeReason::EffectBlocked(BlockingCause::Boundary))
    }
}

/// Whether the receipt's hypothesis can still be tested in `obs`: it can when
/// it is no longer among `hyps`.
pub open spec fn receipt_valid(hyps: Seq<TransitionHypothesis>, r: PredictionReceipt, obs: CanonicalObservation) -> bool {
    match first_hyp(hyps, r.primary_hyp_id@, 0) {
        Some(i) => hyp_valid(hyps[i], obs),
        None => true,
    }
}

/// The first hypothesis with an id lies in range and has that id.
pub proof fn lemma_first_hyp(hyps: Seq<TransitionHypothesis>, id: Seq<char>, k: int)
    requires
        0 <= k,
    ensures
        first_hyp(hyps, id, k) matches Some(i) ==> k <= i < hyps.len() && hyps[i].id@ == id,
        first_hyp(hyps, id, k) is None ==> forall|j: int| k <= j < hyps.len() ==> (#[trigger] hyps[j]).id@ != id,
    decreases hyps.len() - k,
{
    if k < hyps.len() {
        lemma_first_hyp(hyps, id, k + 1);
    }
}

/// A feasibility witness records whether the move stays inside the frame.
pub proof fn lemma_witness_bounds(w: FeasibilityWitness, h: TransitionHypothesis, obs: CanonicalObservation)
    requires
        is_feasibility(w, h, obs),
    ensures
        w.bounds_feasible == bounds_ok(h, obs),
{
}

/// Room in every counter of `h` for one more resolved receipt.
pub open spec fn counters_have_room(h: TransitionHypothesis) -> bool {
    &&& h.support_count < u32::MAX
    &&& h.refutation_count < u32::MAX
    &&& h.retrodiction.applicable < u32::MAX
    &&& h.retrodiction.correct < u32::MAX
    &&& h.retrodiction.contradicted < u32::MAX
    &&& h.prospective.issued < u32::MAX
    &&& h.prospective.exact_matches < u32::MAX
    &&& h.prospective.partial_matches < u32::MAX
    &&& h.prospective.contradictions < u32::MAX
}

/// Hypothesis `h` once a receipt on it resolved with outcome `o`: one more
/// receipt issued; an exact match supports it, a partial match adds support,
/// a contradiction contests it and the second one refutes it.
pub open spec fn after_outcome(h: TransitionHypothesis, o: PredictionOutcome) -> TransitionHypothesis {
    let r = h.retrodiction;
    let p = ProspectiveVector { issued: (h.prospective.issued + 1) as u32, ..h.prospective };
    match o {
        PredictionOutcome::ExactMatch => TransitionHypothesis {
            support_count: (h.support_count + 1) as u32,
            status: HypothesisStatus::Supported,
            retrodiction: RetrodictionVector {
                correct: (r.correct + 1) as u32,
                applicable: (r.applicable + 1) as u32,
                ..r
            },
            prospective: ProspectiveVector { exact_matches: (p.exact_matches + 1) as u32, ..p },
            ..h
        },
        PredictionOutcome::PartialMatch => TransitionHypothesis {
            support_count: (h.support_count + 1) as u32,
            retrodiction: RetrodictionVector { applicable: (r.applicable + 1) as u32, ..r },
            prospective: ProspectiveVector { partial_matches: (p.partial_matches + 1) as u32, ..p },
            ..h
        },
        PredictionOutcome::Contradiction => TransitionHypothesis {
            refutation_count: (h.refutation_count + 1) as u32,
            status: if h.refutation_count + 1 >= 2 {
                HypothesisStatus::Refuted
            } else {
                HypothesisStatus::Contested
            },
            retrodiction: RetrodictionVector {
                contradicted: (r.contradicted + 1) as u32,
                applicable: (r.applicable + 1) as u32,
                ..r
            },
            prospective: ProspectiveVector { contradictions: (p.contradictions + 1) as u32, ..p },
            ..h
        },
        PredictionOutcome::Uninformative(_) => TransitionHypothesis { prospective: p, ..h },
    }
}

/// The id of the refinement of hypothesis `id`: `Refine_<id>_IF_feasible`.
pub open spec fn refined_id(id: Seq<char>) -> Seq<char> {
    ascii_chars(seq![82u8, 101u8, 102u8, 105u8, 110u8, 101u8, 95u8]) + id + ascii_chars(
        seq![95u8, 73u8, 70u8, 95u8, 102u8, 101u8, 97u8, 115u8, 105u8, 98u8, 108u8, 101u8],
    )
}

/// `r` refines `h`: the same prediction, now required to be feasible,
/// supported, derived from `h`, keeping its support and its record.
pub open spec fn is_refinement_of(r: TransitionHypothesis, h: TransitionHypothesis) -> bool {
    &&& r.id@ == refined_id(h.id@)
    &&& r.derived_from matches Some(d) && d@ == h.id@
    &&& r.action_id == h.action_id
    &&& r.target_object_id == h.target_object_id
    &&& r.predicted_event == h.predicted_event
    &&& r.requires_feasibility
    &&& r.status == HypothesisStatus::Supported
    &&& r.support_count == h.support_count
    &&& r.refutation_count == 0
    &&& r.retrodiction == h.retrodiction
    &&& r.prospective == h.prospective
}

/// Whether resolving a receipt on hypothesis `i` with `o` creates its
/// refinement: the effect was blocked at the border, the hypothesis does not
/// require feasibility yet, the model is not frozen and no refinement exists.
pub open spec fn creates_refinement(
    hyps: Seq<TransitionHypothesis>,
    i: int,
    o: PredictionOutcome,
    frozen: bool,
) -> bool {
    &&& o == PredictionOutcome::Uninformative(UninformativeReason::EffectBlocked(BlockingCause::Boundary))
    &&& !hyps[i].requires_feasibility
    &&& !frozen
    &&& forall|j: int| 0 <= j < hyps.len() ==> (#[trigger] hyps[j]).id@ != refined_id(hyps[i].id@)
}

pub(crate) fn copy_event(e: &GridEvent) -> (c: GridEvent)
    ensures
        c == *e,
{
    match e {
        GridEvent::ObjectMoved { id, dx, dy } => GridEvent::ObjectMoved { id: *id, dx: *dx, dy: *dy },
        GridEvent::ObjectAppeared { id, color, centroid } => GridEvent::ObjectAppeared {
            id: *id,
            color: *color,
            centroid: *centroid,
        },
        GridEvent::ObjectDisappeared { id } => GridEvent::ObjectDisappeared { id: *id },
        GridEvent::ColorChanged { id, old_color, new_color } => GridEvent::ColorChanged {
            id: *id,
            old_color: *old_color,
            new_color: *new_color,
        },
        GridEvent::GridRestructured { pixel_delta } => GridEvent::GridRestructured { pixel_delta: *pixel_delta },
    }
}

fn copy_retro(r: &RetrodictionVector) -> (c: RetrodictionVector)
    ensures
        c == *r,
{
    RetrodictionVector { applicable: r.applicable, correct: r.correct, contradicted: r.contradicted, ambiguous: r.ambiguous }
}

fn copy_prosp(p: &ProspectiveVector) -> (c: ProspectiveVector)
    ensures
        c == *p,
{
    ProspectiveVector {
        issued: p.issued,
        exact_matches: p.exact_matches,
        partial_matches: p.partial_matches,
        contradictions: p.contradictions,
    }
}

/// The id of the refinement of a hypothesis.
fn make_refined_id(id: &String) -> (s: String)
    ensures
        s@ == refined_id(id@),
{
    let pre: [u8; 7] = [82, 101, 102, 105, 110, 101, 95];
    let post: [u8; 12] = [95, 73, 70, 95, 102, 101, 97, 115, 105, 98, 108, 101];
    let mut b: Vec<u8> = Vec::new();
    b.extend_from_slice(&pre);
    push_text(id, &mut b);
    b.extend_from_slice(&post);
    proof {
        let a = ascii_chars(pre@);
        let c = ascii_chars(post@);
        assert(crate::kernel::text::is_ascii_bytes(pre@));
        assert(crate::kernel::text::is_ascii_bytes(post@));
        lemma_ascii_utf8(pre@);
        lemma_ascii_utf8(post@);
        lemma_encode_concat(a, id@);
        lemma_encode_concat(a + id@, c);
        assert(pre@ =~= seq![82u8, 101u8, 102u8, 105u8, 110u8, 101u8, 95u8]);
        assert(post@ =~= seq![95u8, 73u8, 70u8, 95u8, 102u8, 101u8, 97u8, 115u8, 105u8, 98u8, 108u8, 101u8]);
        assert(b@ =~= encode_utf8(refined_id(id@)));
    }
    string_of_utf8(b, Ghost(refined_id(id@)))
}

/// The object an induced hypothesis is about: that of a move, a colour
/// change or a disappearance.
pub open spec fn event_object(e: GridEvent) -> Option<u32> {
    match e {
        GridEvent::ObjectMoved { id, .. } => Some(id),
        GridEvent::ColorChanged { id, .. } => Some(id),
        GridEvent::ObjectDisappeared { id } => Some(id),
        _ => None,
    }
}

/// The record of the first `n` past transitions for the prediction that
/// action `a` causes event `e`: each transition of that action is applicable,
/// and correct when it showed `e`, contradicting when it showed other events,
/// ambiguous when it showed none.
pub open spec fn retro_upto(hist: Seq<HistoricalTransition>, a: u8, e: GridEvent, n: int) -> RetrodictionVector
    decreases n,
{
    if n <= 0 {
        RetrodictionVector { applicable: 0, correct: 0, contradicted: 0, ambiguous: 0 }
    } else {
        let r = retro_upto(hist, a, e, n - 1);
        let t = hist[n - 1];
        if t.action_id != a {
            r
        } else if t.events_observed@.contains(e) {
            RetrodictionVector { applicable: (r.applicable + 1) as u32, correct: (r.correct + 1) as u32, ..r }
        } else if t.events_observed@.len() > 0 {
            RetrodictionVector {
                applicable: (r.applicable + 1) as u32,
                contradicted: (r.contradicted + 1) as u32,
                ..r
            }
        } else {
            RetrodictionVector { applicable: (r.applicable + 1) as u32, ambiguous: (r.ambiguous + 1) as u32, ..r }
        }
    }
}

/// Some hypothesis of `hyps` has the id.
pub open spec fn has_id(hyps: Seq<TransitionHypothesis>, id: Seq<char>) -> bool {
    exists|j: int| 0 <= j < hyps.len() && (#[trigger] hyps[j]).id@ == id
}

/// The events among the first `k` for which action `a` induces a new
/// hypothesis: those whose id no hypothesis of `hyps`, and no earlier such
/// event, has.
pub open spec fn fresh_upto(hyps: Seq<TransitionHypothesis>, a: u8, events: Seq<GridEvent>, k: int) -> Seq<GridEvent>
    decreases k,
{
    if k <= 0 {
        Seq::empty()
    } else {
        let prev = fresh_upto(hyps, a, events, k - 1);
        let id = induced_id(a, events[k - 1]);
        if has_id(hyps, id) || (exists|j: int| 0 <= j < prev.len() && induced_id(a, #[trigger] prev[j]) == id) {
            prev
        } else {
            prev.push(events[k - 1])
        }
    }
}

/// `h` is the hypothesis induced for event `e` after action `a`, given the
/// past transitions `hist`: unverified, supported once, with the record of
/// the past.
pub open spec fn is_induced(h: TransitionHypothesis, a: u8, e: GridEvent, hist: Seq<HistoricalTransition>) -> bool {
    &&& h.id@ == induced_id(a, e)
    &&& h.derived_from is None
    &&& h.action_id == a
    &&& h.target_object_id == event_object(e)
    &&& h.predicted_event == e
    &&& !h.requires_feasibility
    &&& h.status == HypothesisStatus::Unverified
    &&& h.support_count == 1
    &&& h.refutation_count == 0
    &&& h.retrodiction == retro_upto(hist, a, e, hist.len() as int)
    &&& h.prospective == (ProspectiveVector { issued: 0, exact_matches: 0, partial_matches: 0, contradictions: 0 })
}

proof fn lemma_retro_bound(hist: Seq<HistoricalTransition>, a: u8, e: GridEvent, n: int)
    requires
        0 <= n <= hist.len(),
    ensures
        retro_upto(hist, a, e, n).applicable <= n,
        retro_upto(hist, a, e, n).correct <= n,
        retro_upto(hist, a, e, n).contradicted <= n,
        retro_upto(hist, a, e, n).ambiguous <= n,
    decreases n,
{
    if n > 0 {
        lemma_retro_bound(hist, a, e, n - 1);
    }
}

/// `i` moved on by `k`, wrapping around at the end of `usize`.
pub open spec fn wrap_add(i: usize, k: usize) -> usize {
    if i + k > usize::MAX {
        (i + k - usize::MAX - 1) as usize
    } else {
        (i + k) as usize
    }
}

/// The display text of a commit root.
pub open spec fn root_text(o: ORID) -> Seq<char> {
    ascii_chars(orid_display(o))
}

/// The recent roots once `root` is added: the oldest is dropped when eight are kept.
pub open spec fn roots_after(recent: Seq<Seq<char>>, root: Seq<char>) -> Seq<Seq<char>> {
    (if recent.len() >= 8 {
        recent.drop_first()
    } else {
        recent
    }).push(root)
}

/// The texts of a list of strings.
pub open spec fn texts(v: Seq<String>) -> Seq<Seq<char>> {
    v.map_values(|s: String| s@)
}

/// The bytes the next commit root is computed from: the display text of the
/// current root, the action, and each coordinate given as four little-endian bytes.
pub open spec fn commit_bytes(root: ORID, a: SelectedAction) -> Seq<u8> {
    orid_display(root) + seq![a.action_id] + (match a.x {
        Some(x) => seq![x, 0u8, 0u8, 0u8],
        None => Seq::empty(),
    }) + (match a.y {
        Some(y) => seq![y, 0u8, 0u8, 0u8],
        None => Seq::empty(),
    })
}

fn copy_events(events: &[GridEvent]) -> (v: Vec<GridEvent>)
    ensures
        v@ == events@,
{
    let mut v: Vec<GridEvent> = Vec::new();
    let mut k: usize = 0;
    while k < events.len()
        invariant
            k <= events@.len(),
            v@ == events@.take(k as int),
        decreases events@.len() - k,
    {
        v.push(copy_event(&events[k]));
        k = k + 1;
        assert(v@ =~= events@.take(k as int));
    }
    assert(events@.take(k as int) =~= events@);
    v
}

fn copy_action(a: &SelectedAction) -> (c: SelectedAction)
    ensures
        c == *a,
{
    SelectedAction { action_id: a.action_id, x: a.x, y: a.y, hypothesis_id: a.hypothesis_id.clone() }
}

/// Whether two events are the same event.
pub(crate) fn same_event(a: &GridEvent, b: &GridEvent) -> (r: bool)
    ensures
        r == (*a == *b),
{
    broadcast use vstd::array::group_array_axioms;
    match (a, b) {
        (GridEvent::ObjectMoved { id: i1, dx: x1, dy: y1 }, GridEvent::ObjectMoved { id: i2, dx: x2, dy: y2 }) => {
            *i1 == *i2 && *x1 == *x2 && *y1 == *y2
        },
        (
            GridEvent::ObjectAppeared { id: i1, color: c1, centroid: p1 },
            GridEvent::ObjectAppeared { id: i2, color: c2, centroid: p2 },
        ) => {
            let r = *i1 == *i2 && *c1 == *c2 && p1[0] == p2[0] && p1[1] == p2[1];
            proof {
                if r {
                    assert(p1@ =~= p2@);
                    assert(*p1 =~= *p2);
                }
            }
            r
        },
        (GridEvent::ObjectDisappeared { id: i1 }, GridEvent::ObjectDisappeared { id: i2 }) => *i1 == *i2,
        (
            GridEvent::ColorChanged { id: i1, old_color: o1, new_color: n1 },
            GridEvent::ColorChanged { id: i2, old_color: o2, new_color: n2 },
        ) => *i1 == *i2 && *o1 == *o2 && *n1 == *n2,
        (GridEvent::GridRestructured { pixel_delta: p1 }, GridEvent::GridRestructured { pixel_delta: p2 }) => *p1 == *p2,
        _ => false,
    }
}

pub struct ArcBridgeEngine {
    pub current_commit_root: ORID,
    pub last_observation: Option<CanonicalObservation>,
    pub last_action: Option<SelectedAction>,
    pub step_counter: u64,
    pub history_trace: Vec<HistoricalTransition>,
    pub strategy_state: StrategyState,
    pub active_hypotheses: Vec<TransitionHypothesis>,
    pub pending_prediction: Option<PredictionReceipt>,
    pub supported_hypotheses: u64,
    pub refuted_hypotheses: u64,
    pub target_object_idx: usize,
    pub recent_state_roots: Vec<String>,
    pub stagnation_counter: u32,
    pub baseline_tracker: BaselineTracker,
    pub is_frozen: bool,
}

impl ArcBridgeEngine {
    pub fn new() -> (e: ArcBridgeEngine)
        ensures
            e.current_commit_root.kind == ObjectKind::Commit,
            e.current_commit_root.hash@ == sha256_digest(spec_domain_prefix(ObjectKind::Commit) + initial_root_bytes()),
            e.last_observation is None,
            e.last_action is None,
            e.step_counter == 0,
            e.history_trace@.len() == 0,
            e.strategy_state == StrategyState::Active,
            e.active_hypotheses@.len() == 0,
            e.pending_prediction is None,
            e.supported_hypotheses == 0,
            e.refuted_hypotheses == 0,
            e.target_object_idx == 0,
            e.recent_state_roots@.len() == 0,
            e.stagnation_counter == 0,
            e.baseline_tracker.is_fresh(),
            !e.is_frozen,
    {
        let seed: [u8; 17] = [97, 114, 99, 51, 95, 105, 110, 105, 116, 105, 97, 108, 95, 114, 111, 111, 116];
        assert(seed@ =~= initial_root_bytes());
        ArcBridgeEngine {
            current_commit_root: ORID::compute(ObjectKind::Commit, &seed),
            last_observation: None,
            last_action: None,
            step_counter: 0,
            history_trace: Vec::new(),
            strategy_state: StrategyState::Active,
            active_hypotheses: Vec::new(),
            pending_prediction: None,
            supported_hypotheses: 0,
            refuted_hypotheses: 0,
            target_object_idx: 0,
            recent_state_roots: Vec::new(),
            stagnation_counter: 0,
            baseline_tracker: BaselineTracker::new(),
            is_frozen: false,
        }
    }

    /// The number of distinct schemas (action, category of event, whether
    /// feasibility is required) among the active hypotheses.
    pub fn count_generalized_schemas(&self) -> (n: usize)
        ensures
            n == self.active_hypotheses@.map_values(|h: TransitionHypothesis| schema_of(h)).to_set().len(),
    {
        count_generalized_schemas(self.active_hypotheses.as_slice())
    }

    /// Whether the hypothesis' predicted move keeps the whole bounding box of
    /// its object inside the frame, with the witness of that check.
    pub fn evaluate_transition_feasibility(&self, hyp: &TransitionHypothesis, obs: &CanonicalObservation) -> (w:
        FeasibilityWitness)
        ensures
            is_feasibility(w, *hyp, *obs),
    {
        transition_feasibility(hyp, obs)
    }

    /// Whether an experiment on the hypothesis can be informative: one that
    /// requires feasibility is always run; another is uninformative when its
    /// effect is blocked at the frame's border.
    pub fn evaluate_preconditions(&self, hyp: &TransitionHypothesis, obs: &CanonicalObservation) -> (r: (
        bool,
        Option<UninformativeReason>,
        FeasibilityWitness,
    ))
        ensures
            is_feasibility(r.2, *hyp, *obs),
            r.0 == (hyp.requires_feasibility || r.2.bounds_feasible),
            r.1 == (if r.0 {
                None
            } else {
                Some(
                    UninformativeReason::EffectBlocked(
                        match r.2.blocking_cause {
                            Some(c) => c,
                            None => BlockingCause::Boundary,
                        },
                    ),
                )
            }),
    {
        transition_preconditions(hyp, obs)
    }

    /// The hypothesis of this engine with the given id, if any.
    pub fn find_hypothesis(&self, id: &String) -> (r: Option<usize>)
        ensures
            match r {
                Some(i) => first_hyp(self.active_hypotheses@, id@, 0) == Some(i as int),
                None => first_hyp(self.active_hypotheses@, id@, 0) is None,
            },
    {
        let mut k: usize = 0;
        while k < self.active_hypotheses.len()
            invariant
                k <= self.active_hypotheses@.len(),
                first_hyp(self.active_hypotheses@, id@, 0) == first_hyp(self.active_hypotheses@, id@, k as int),
            decreases self.active_hypotheses@.len() - k,
        {
            if self.active_hypotheses[k].id == *id {
                return Some(k);
            }
            k = k + 1;
        }
        None
    }

    /// Resolves a pending receipt against the frame and the events observed:
    /// the category it expected, the category observed, and the outcome.
    pub fn resolve_prediction(&self, receipt: &PredictionReceipt, obs: &CanonicalObservation, events: &[GridEvent]) -> (r: (
        EventCategory,
        EventCategory,
        PredictionOutcome,
    ))
        ensures
            r.0 == expected_category(*receipt),
            r.1 == observed_category(events@),
            r.2 == receipt_outcome(
                receipt_valid(self.active_hypotheses@, *receipt, *obs),
                receipt.feasibility_witness.bounds_feasible,
                receipt.expected_event,
                events@,
            ),
    {
        let actual = if events.len() == 0 {
            EventCategory::NoChange
        } else {
            category_of(&events[0])
        };
        proof {
            lemma_first_hyp(self.active_hypotheses@, receipt.primary_hyp_id@, 0);
        }
        let valid = match self.find_hypothesis(&receipt.primary_hyp_id) {
            Some(i) => {
                let (v, _, w) = self.evaluate_preconditions(&self.active_hypotheses[i], obs);
                proof {
                    lemma_witness_bounds(w, self.active_hypotheses@[i as int], *obs);
                    let idx = first_hyp(self.active_hypotheses@, receipt.primary_hyp_id@, 0);
                    assert(idx == Some(i as int));
                    assert(v == hyp_valid(self.active_hypotheses@[i as int], *obs));
                }
                v
            },
            None => true,
        };
        assert(valid == receipt_valid(self.active_hypotheses@, *receipt, *obs));
        let free = receipt.feasibility_witness.bounds_feasible;
        let expected = if free {
            category_of(&receipt.expected_event)
        } else {
            EventCategory::NoChange
        };
        let mut seen = false;
        let mut alike = false;
        let mut k: usize = 0;
        while k < events.len()
            invariant
                k <= events@.len(),
                seen == (exists|j: int| 0 <= j < k && events@[j] == receipt.expected_event),
                alike == (match receipt.expected_event {
                    GridEvent::ObjectMoved { id, dx, dy } => exists|j: int|
                        0 <= j < k && moved_alike(#[trigger] events@[j], id, dx, dy),
                    _ => false,
                }),
            decreases events@.len() - k,
        {
            if same_event(&events[k], &receipt.expected_event) {
                seen = true;
            }
            if let GridEvent::ObjectMoved { id: pid, dx: pdx, dy: pdy } = &receipt.expected_event {
                if let GridEvent::ObjectMoved { id, dx, dy } = &events[k] {
                    if *id == *pid && ((*dx > 0 && *pdx > 0) || (*dx < 0 && *pdx < 0) || (*dy > 0 && *pdy > 0) || (*dy < 0
                        && *pdy < 0)) {
                        alike = true;
                    }
                }
            }
            k = k + 1;
        }
        assert(seen == events@.contains(receipt.expected_event));
        let outcome = if !valid {
            PredictionOutcome::Uninformative(UninformativeReason::EffectBlocked(BlockingCause::Boundary))
        } else if !free && actual == EventCategory::NoChange {
            PredictionOutcome::ExactMatch
        } else if free && seen {
            PredictionOutcome::ExactMatch
        } else if free {
            if alike {
                PredictionOutcome::PartialMatch
            } else {
                PredictionOutcome::Contradiction
            }
        } else if events.len() > 0 {
            PredictionOutcome::Contradiction
        } else {
            PredictionOutcome::Uninformative(UninformativeReason::EffectBlocked(BlockingCause::Boundary))
        };
        (expected, actual, outcome)
    }

    /// Records how a receipt on hypothesis `primary_hyp_id` resolved: the
    /// hypothesis is updated by the outcome, an exact match counts as a
    /// supported hypothesis and a second contradiction as a refuted one; an
    /// uninformative outcome moves the object of interest on, and refines the
    /// hypothesis when its effect was blocked at the border. Returns the
    /// position of the hypothesis, if it is still held.
    pub fn apply_outcome(&mut self, primary_hyp_id: &String, outcome: PredictionOutcome) -> (r: Option<usize>)
        requires
            first_hyp(old(self).active_hypotheses@, primary_hyp_id@, 0) matches Some(i) ==> counters_have_room(
                old(self).active_hypotheses@[i],
            ),
            old(self).supported_hypotheses < u64::MAX,
            old(self).refuted_hypotheses < u64::MAX,
        ensures
            match first_hyp(old(self).active_hypotheses@, primary_hyp_id@, 0) {
                None => {
                    &&& r is None
                    &&& final(self).active_hypotheses@ == old(self).active_hypotheses@
                    &&& final(self).supported_hypotheses == old(self).supported_hypotheses
                    &&& final(self).refuted_hypotheses == old(self).refuted_hypotheses
                    &&& final(self).target_object_idx == old(self).target_object_idx
                },
                Some(i) => {
                    let h2 = after_outcome(old(self).active_hypotheses@[i], outcome);
                    let upd = old(self).active_hypotheses@.update(i, h2);
                    &&& r == Some(i as usize)
                    &&& if creates_refinement(old(self).active_hypotheses@, i, outcome, old(self).is_frozen) {
                        &&& final(self).active_hypotheses@.len() == upd.len() + 1
                        &&& final(self).active_hypotheses@.take(upd.len() as int) == upd
                        &&& is_refinement_of(final(self).active_hypotheses@.last(), h2)
                    } else {
                        final(self).active_hypotheses@ == upd
                    }
                    &&& final(self).supported_hypotheses == old(self).supported_hypotheses + (if outcome
                        == PredictionOutcome::ExactMatch {
                        1int
                    } else {
                        0int
                    })
                    &&& final(self).refuted_hypotheses == old(self).refuted_hypotheses + (if outcome
                        == PredictionOutcome::Contradiction && old(self).active_hypotheses@[i].refutation_count + 1 >= 2 {
                        1int
                    } else {
                        0int
                    })
                    &&& final(self).target_object_idx == (if outcome is Uninformative {
                        if old(self).target_object_idx == usize::MAX {
                            0
                        } else {
                            old(self).target_object_idx + 1
                        }
                    } else {
                        old(self).target_object_idx as int
                    })
                },
            },
            final(self).current_commit_root == old(self).current_commit_root,
            final(self).last_observation == old(self).last_observation,
            final(self).last_action == old(self).last_action,
            final(self).step_counter == old(self).step_counter,
            final(self).history_trace == old(self).history_trace,
            final(self).strategy_state == old(self).strategy_state,
            final(self).pending_prediction == old(self).pending_prediction,
            final(self).recent_state_roots == old(self).recent_state_roots,
            final(self).stagnation_counter == old(self).stagnation_counter,
            final(self).baseline_tracker == old(self).baseline_tracker,
            final(self).is_frozen == old(self).is_frozen,
    {
        proof {
            lemma_first_hyp(self.active_hypotheses@, primary_hyp_id@, 0);
        }
        let found = self.find_hypothesis(primary_hyp_id);
        let i = match found {
            None => {
                return None;
            },
            Some(i) => i,
        };
        let ghost hyps0 = self.active_hypotheses@;
        let mut h = self.active_hypotheses.remove(i);
        h.prospective.issued = h.prospective.issued + 1;
        match outcome {
            PredictionOutcome::ExactMatch => {
                h.support_count = h.support_count + 1;
                h.status = HypothesisStatus::Supported;
                h.retrodiction.correct = h.retrodiction.correct + 1;
                h.retrodiction.applicable = h.retrodiction.applicable + 1;
                h.prospective.exact_matches = h.prospective.exact_matches + 1;
                self.supported_hypotheses = self.supported_hypotheses + 1;
            },
            PredictionOutcome::PartialMatch => {
                h.support_count = h.support_count + 1;
                h.retrodiction.applicable = h.retrodiction.applicable + 1;
                h.prospective.partial_matches = h.prospective.partial_matches + 1;
            },
            PredictionOutcome::Contradiction => {
                h.refutation_count = h.refutation_count + 1;
                h.retrodiction.contradicted = h.retrodiction.contradicted + 1;
                h.retrodiction.applicable = h.retrodiction.applicable + 1;
                h.prospective.contradictions = h.prospective.contradictions + 1;
                if h.refutation_count >= 2 {
                    h.status = HypothesisStatus::Refuted;
                    self.refuted_hypotheses = self.refuted_hypotheses + 1;
                } else {
                    h.status = HypothesisStatus::Contested;
                }
            },
            PredictionOutcome::Uninformative(_) => {},
        }
        assert(h == after_outcome(hyps0[i as int], outcome));
        let requires_feasibility = h.requires_feasibility;
        self.active_hypotheses.insert(i, h);
        assert(self.active_hypotheses@ =~= hyps0.update(i as int, after_outcome(hyps0[i as int], outcome)));
        if let PredictionOutcome::Uninformative(reason) = outcome {
            if reason == UninformativeReason::EffectBlocked(BlockingCause::Boundary) && !requires_feasibility
                && !self.is_frozen {
                let rid = make_refined_id(&self.active_hypotheses[i].id);
                let mut exists = false;
                let mut k: usize = 0;
                while k < self.active_hypotheses.len()
                    invariant
                        k <= self.active_hypotheses@.len(),
                        exists == (exists|j: int| 0 <= j < k && (#[trigger] self.active_hypotheses@[j]).id@ == rid@),
                    decreases self.active_hypotheses@.len() - k,
                {
                    if self.active_hypotheses[k].id == rid {
                        exists = true;
                    }
                    k = k + 1;
                }
                proof {
                    assert forall|j: int| 0 <= j < hyps0.len() implies (#[trigger] hyps0[j]).id@ == self.active_hypotheses@[j].id@ by {}
                }
                if !exists {
                    let base = &self.active_hypotheses[i];
                    let refined = TransitionHypothesis {
                        id: rid,
                        derived_from: Some(base.id.clone()),
                        action_id: base.action_id,
                        target_object_id: base.target_object_id,
                        predicted_event: copy_event(&base.predicted_event),
                        requires_feasibility: true,
                        status: HypothesisStatus::Supported,
                        support_count: base.support_count,
                        refutation_count: 0,
                        retrodiction: copy_retro(&base.retrodiction),
                        prospective: copy_prosp(&base.prospective),
                    };
                    let ghost upd = self.active_hypotheses@;
                    self.active_hypotheses.push(refined);
                    assert(self.active_hypotheses@.take(upd.len() as int) =~= upd);
                }
            }
            self.target_object_idx = self.target_object_idx.wrapping_add(1);
        }
        Some(i)
    }

    /// The record of the past transitions for the prediction that action `a` causes event `e`.
    pub fn retrodict(&self, a: u8, e: &GridEvent) -> (r: RetrodictionVector)
        requires
            self.history_trace@.len() < u32::MAX,
        ensures
            r == retro_upto(self.history_trace@, a, *e, self.history_trace@.len() as int),
    {
        let mut r = RetrodictionVector { applicable: 0, correct: 0, contradicted: 0, ambiguous: 0 };
        let mut t: usize = 0;
        while t < self.history_trace.len()
            invariant
                t <= self.history_trace@.len() < u32::MAX,
                r == retro_upto(self.history_trace@, a, *e, t as int),
            decreases self.history_trace@.len() - t,
        {
            proof {
                lemma_retro_bound(self.history_trace@, a, *e, t as int);
            }
            let past = &self.history_trace[t];
            if past.action_id == a {
                let mut seen = false;
                let mut k: usize = 0;
                while k < past.events_observed.len()
                    invariant
                        k <= past.events_observed@.len(),
                        seen == (exists|j: int| 0 <= j < k && past.events_observed@[j] == *e),
                    decreases past.events_observed@.len() - k,
                {
                    if same_event(&past.events_observed[k], e) {
                        seen = true;
                    }
                    k = k + 1;
                }
                assert(seen == past.events_observed@.contains(*e));
                if seen {
                    r.applicable = r.applicable + 1;
                    r.correct = r.correct + 1;
                } else if past.events_observed.len() > 0 {
                    r.applicable = r.applicable + 1;
                    r.contradicted = r.contradicted + 1;
                } else {
                    r.applicable = r.applicable + 1;
                    r.ambiguous = r.ambiguous + 1;
                }
            }
            t = t + 1;
        }
        r
    }

    /// Induces a hypothesis for each observed event after action `a` whose id
    /// is new, unless the model is frozen.
    pub fn induce_hypotheses(&mut self, a: u8, events: &[GridEvent])
        requires
            old(self).history_trace@.len() < u32::MAX,
        ensures
            old(self).is_frozen ==> final(self).active_hypotheses@ == old(self).active_hypotheses@,
            !old(self).is_frozen ==> {
                let f = fresh_upto(old(self).active_hypotheses@, a, events@, events@.len() as int);
                let n0 = old(self).active_hypotheses@.len();
                &&& final(self).active_hypotheses@.len() == n0 + f.len()
                &&& final(self).active_hypotheses@.take(n0 as int) == old(self).active_hypotheses@
                &&& forall|j: int|
                    0 <= j < f.len() ==> is_induced(
                        #[trigger] final(self).active_hypotheses@[n0 + j],
                        a,
                        f[j],
                        old(self).history_trace@,
                    )
            },
            final(self).current_commit_root == old(self).current_commit_root,
            final(self).last_observation == old(self).last_observation,
            final(self).last_action == old(self).last_action,
            final(self).step_counter == old(self).step_counter,
            final(self).history_trace == old(self).history_trace,
            final(self).strategy_state == old(self).strategy_state,
            final(self).pending_prediction == old(self).pending_prediction,
            final(self).supported_hypotheses == old(self).supported_hypotheses,
            final(self).refuted_hypotheses == old(self).refuted_hypotheses,
            final(self).target_object_idx == old(self).target_object_idx,
            final(self).recent_state_roots == old(self).recent_state_roots,
            final(self).stagnation_counter == old(self).stagnation_counter,
            final(self).baseline_tracker == old(self).baseline_tracker,
            final(self).is_frozen == old(self).is_frozen,
    {
        if self.is_frozen {
            return;
        }
        let ghost hyps0 = self.active_hypotheses@;
        let ghost n0 = hyps0.len();
        let mut k: usize = 0;
        while k < events.len()
            invariant
                k <= events@.len(),
                !self.is_frozen,
                self.history_trace@.len() < u32::MAX,
                self.active_hypotheses@.len() == n0 + fresh_upto(hyps0, a, events@, k as int).len(),
                self.active_hypotheses@.take(n0 as int) == hyps0,
                forall|j: int|
                    0 <= j < fresh_upto(hyps0, a, events@, k as int).len() ==> is_induced(
                        #[trigger] self.active_hypotheses@[n0 + j],
                        a,
                        fresh_upto(hyps0, a, events@, k as int)[j],
                        self.history_trace@,
                    ),
                self.current_commit_root == old(self).current_commit_root,
                self.last_observation == old(self).last_observation,
                self.last_action == old(self).last_action,
                self.step_counter == old(self).step_counter,
                self.history_trace == old(self).history_trace,
                self.strategy_state == old(self).strategy_state,
                self.pending_prediction == old(self).pending_prediction,
                self.supported_hypotheses == old(self).supported_hypotheses,
                self.refuted_hypotheses == old(self).refuted_hypotheses,
                self.target_object_idx == old(self).target_object_idx,
                self.recent_state_roots == old(self).recent_state_roots,
                self.stagnation_counter == old(self).stagnation_counter,
                self.baseline_tracker == old(self).baseline_tracker,
                self.is_frozen == old(self).is_frozen,
            decreases events@.len() - k,
        {
            let ghost prev = fresh_upto(hyps0, a, events@, k as int);
            let id = make_induced_id(a, &events[k]);
            let mut present = false;
            let mut j: usize = 0;
            while j < self.active_hypotheses.len()
                invariant
                    j <= self.active_hypotheses@.len(),
                    present == (exists|t: int| 0 <= t < j && (#[trigger] self.active_hypotheses@[t]).id@ == id@),
                decreases self.active_hypotheses@.len() - j,
            {
                if self.active_hypotheses[j].id == id {
                    present = true;
                }
                j = j + 1;
            }
            proof {
                let cur = self.active_hypotheses@;
                if has_id(hyps0, id@) {
                    let t = choose|t: int| 0 <= t < hyps0.len() && (#[trigger] hyps0[t]).id@ == id@;
                    assert(cur.take(n0 as int)[t] == hyps0[t]);
                    assert(cur[t].id@ == id@);
                }
                if exists|t: int| 0 <= t < prev.len() && induced_id(a, #[trigger] prev[t]) == id@ {
                    let t = choose|t: int| 0 <= t < prev.len() && induced_id(a, #[trigger] prev[t]) == id@;
                    assert(is_induced(cur[n0 + t], a, prev[t], self.history_trace@));
                }
                if present {
                    let t = choose|t: int| 0 <= t < cur.len() && (#[trigger] cur[t]).id@ == id@;
                    if t < n0 {
                        assert(cur.take(n0 as int)[t] == hyps0[t]);
                        assert(has_id(hyps0, id@));
                    } else {
                        assert(is_induced(cur[n0 + (t - n0)], a, prev[t - n0], self.history_trace@));
                    }
                }
            }
            if !present {
                let r = self.retrodict(a, &events[k]);
                let ev = copy_event(&events[k]);
                let target = match &events[k] {
                    GridEvent::ObjectMoved { id, .. } => Some(*id),
                    GridEvent::ColorChanged { id, .. } => Some(*id),
                    GridEvent::ObjectDisappeared { id } => Some(*id),
                    _ => None,
                };
                let h = TransitionHypothesis {
                    id,
                    derived_from: None,
                    action_id: a,
                    target_object_id: target,
                    predicted_event: ev,
                    requires_feasibility: false,
                    status: HypothesisStatus::Unverified,
                    support_count: 1,
                    refutation_count: 0,
                    retrodiction: r,
                    prospective: ProspectiveVector { issued: 0, exact_matches: 0, partial_matches: 0, contradictions: 0 },
                };
                let ghost before = self.active_hypotheses@;
                self.active_hypotheses.push(h);
                proof {
                    assert(fresh_upto(hyps0, a, events@, k + 1) == prev.push(events@[k as int]));
                    assert(self.active_hypotheses@.take(n0 as int) =~= before.take(n0 as int));
                    assert forall|j: int| 0 <= j < prev.len() + 1 implies is_induced(
                        #[trigger] self.active_hypotheses@[n0 + j],
                        a,
                        prev.push(events@[k as int])[j],
                        self.history_trace@,
                    ) by {
                        if j < prev.len() {
                            assert(self.active_hypotheses@[n0 + j] == before[n0 + j]);
                        }
                    }
                }
            } else {
                proof {
                    assert(fresh_upto(hyps0, a, events@, k + 1) == prev);
                }
            }
            k = k + 1;
        }
    }

    /// Records the transition the last action led to, with the events
    /// observed, under the previous step and the current root.
    pub fn record_transition(&mut self, events: &[GridEvent])
        requires
            old(self).last_action is Some,
            old(self).step_counter >= 1,
        ensures
            ({
                let a = old(self).last_action->Some_0;
                let t = final(self).history_trace@.last();
                &&& final(self).history_trace@.len() == old(self).history_trace@.len() + 1
                &&& final(self).history_trace@.drop_last() == old(self).history_trace@
                &&& t.step == old(self).step_counter - 1
                &&& t.action_id == a.action_id
                &&& t.target_coords == (match (a.x, a.y) {
                    (Some(x), Some(y)) => Some([x, y]),
                    _ => None,
                })
                &&& t.events_observed@ == events@
                &&& t.state_root@ == root_text(old(self).current_commit_root)
            }),
            final(self).current_commit_root == old(self).current_commit_root,
            final(self).last_observation == old(self).last_observation,
            final(self).last_action == old(self).last_action,
            final(self).step_counter == old(self).step_counter,
            final(self).active_hypotheses == old(self).active_hypotheses,
            final(self).strategy_state == old(self).strategy_state,
            final(self).pending_prediction == old(self).pending_prediction,
            final(self).supported_hypotheses == old(self).supported_hypotheses,
            final(self).refuted_hypotheses == old(self).refuted_hypotheses,
            final(self).target_object_idx == old(self).target_object_idx,
            final(self).recent_state_roots == old(self).recent_state_roots,
            final(self).stagnation_counter == old(self).stagnation_counter,
            final(self).baseline_tracker == old(self).baseline_tracker,
            final(self).is_frozen == old(self).is_frozen,
    {
        let (action_id, coords) = match &self.last_action {
            Some(a) => (
                a.action_id,
                match (a.x, a.y) {
                    (Some(x), Some(y)) => Some([x, y]),
                    _ => None,
                },
            ),
            None => (0, None),
        };
        let t = HistoricalTransition {
            step: self.step_counter - 1,
            action_id,
            target_coords: coords,
            events_observed: copy_events(events),
            state_root: self.current_commit_root.to_display_string(),
        };
        let ghost h0 = self.history_trace@;
        self.history_trace.push(t);
        assert(self.history_trace@.drop_last() =~= h0);
    }

    /// Counts a step without events towards stagnation; a step with events
    /// ends it and makes the strategy active again.
    pub fn note_progress(&mut self, events_seen: bool)
        requires
            old(self).stagnation_counter < u32::MAX,
        ensures
            final(self).stagnation_counter == (if events_seen {
                0
            } else {
                old(self).stagnation_counter + 1
            }),
            final(self).strategy_state == (if events_seen {
                StrategyState::Active
            } else {
                old(self).strategy_state
            }),
            final(self).current_commit_root == old(self).current_commit_root,
            final(self).last_observation == old(self).last_observation,
            final(self).last_action == old(self).last_action,
            final(self).step_counter == old(self).step_counter,
            final(self).history_trace == old(self).history_trace,
            final(self).active_hypotheses == old(self).active_hypotheses,
            final(self).pending_prediction == old(self).pending_prediction,
            final(self).supported_hypotheses == old(self).supported_hypotheses,
            final(self).refuted_hypotheses == old(self).refuted_hypotheses,
            final(self).target_object_idx == old(self).target_object_idx,
            final(self).recent_state_roots == old(self).recent_state_roots,
            final(self).baseline_tracker == old(self).baseline_tracker,
            final(self).is_frozen == old(self).is_frozen,
    {
        if events_seen {
            self.stagnation_counter = 0;
            self.strategy_state = StrategyState::Active;
        } else {
            self.stagnation_counter = self.stagnation_counter + 1;
        }
    }

    /// Deprioritizes the strategy when the current root was seen among the
    /// recent ones or after six steps without events, moving the object of
    /// interest on by three; then remembers the current root among the last
    /// eight. Returns whether the strategy was deprioritized just now.
    pub fn revise_strategy(&mut self) -> (switched: bool)
        ensures
            ({
                let root = root_text(old(self).current_commit_root);
                let hit = texts(old(self).recent_state_roots@).contains(root) || old(self).stagnation_counter >= 6;
                &&& final(self).strategy_state == (if hit {
                    StrategyState::Deprioritized
                } else {
                    old(self).strategy_state
                })
                &&& final(self).target_object_idx == (if hit {
                    wrap_add(old(self).target_object_idx, 3)
                } else {
                    old(self).target_object_idx
                })
                &&& final(self).stagnation_counter == (if hit {
                    0
                } else {
                    old(self).stagnation_counter
                })
                &&& texts(final(self).recent_state_roots@) == roots_after(texts(old(self).recent_state_roots@), root)
                &&& switched == (hit && old(self).strategy_state != StrategyState::Deprioritized)
            }),
            final(self).current_commit_root == old(self).current_commit_root,
            final(self).last_observation == old(self).last_observation,
            final(self).last_action == old(self).last_action,
            final(self).step_counter == old(self).step_counter,
            final(self).history_trace == old(self).history_trace,
            final(self).active_hypotheses == old(self).active_hypotheses,
            final(self).pending_prediction == old(self).pending_prediction,
            final(self).supported_hypotheses == old(self).supported_hypotheses,
            final(self).refuted_hypotheses == old(self).refuted_hypotheses,
            final(self).baseline_tracker == old(self).baseline_tracker,
            final(self).is_frozen == old(self).is_frozen,
    {
        let root = self.current_commit_root.to_display_string();
        let ghost recent0 = texts(self.recent_state_roots@);
        let mut seen = false;
        let mut k: usize = 0;
        while k < self.recent_state_roots.len()
            invariant
                k <= self.recent_state_roots@.len(),
                recent0 == texts(self.recent_state_roots@),
                seen == (exists|j: int| 0 <= j < k && recent0[j] == root@),
            decreases self.recent_state_roots@.len() - k,
        {
            assert(recent0[k as int] == self.recent_state_roots@[k as int]@);
            if self.recent_state_roots[k] == root {
                seen = true;
            }
            k = k + 1;
        }
        assert(seen == recent0.contains(root@));
        let mut switched = false;
        if seen || self.stagnation_counter >= 6 {
            switched = self.strategy_state != StrategyState::Deprioritized;
            self.strategy_state = StrategyState::Deprioritized;
            self.target_object_idx = self.target_object_idx.wrapping_add(3);
            self.stagnation_counter = 0;
        }
        if self.recent_state_roots.len() >= 8 {
            self.recent_state_roots.remove(0);
        }
        self.recent_state_roots.push(root);
        assert(texts(self.recent_state_roots@) =~= roots_after(recent0, root@));
        switched
    }

    /// Remembers the frame and the action chosen, and moves the commit root on
    /// to the ORID of the commit made of the current root and the action.
    pub fn commit_step(&mut self, obs: CanonicalObservation, selected: &SelectedAction)
        ensures
            final(self).last_observation == Some(obs),
            final(self).last_action == Some(*selected),
            final(self).current_commit_root.kind == ObjectKind::Commit,
            final(self).current_commit_root.hash@ == sha256_digest(
                spec_domain_prefix(ObjectKind::Commit) + commit_bytes(old(self).current_commit_root, *selected),
            ),
            final(self).step_counter == old(self).step_counter,
            final(self).history_trace == old(self).history_trace,
            final(self).strategy_state == old(self).strategy_state,
            final(self).active_hypotheses == old(self).active_hypotheses,
            final(self).pending_prediction == old(self).pending_prediction,
            final(self).supported_hypotheses == old(self).supported_hypotheses,
            final(self).refuted_hypotheses == old(self).refuted_hypotheses,
            final(self).target_object_idx == old(self).target_object_idx,
            final(self).recent_state_roots == old(self).recent_state_roots,
            final(self).stagnation_counter == old(self).stagnation_counter,
            final(self).baseline_tracker == old(self).baseline_tracker,
            final(self).is_frozen == old(self).is_frozen,
    {
        self.last_observation = Some(obs);
        self.last_action = Some(copy_action(selected));
        let mut bytes: Vec<u8> = Vec::new();
        self.current_commit_root.push_display(&mut bytes);
        bytes.push(selected.action_id);
        if let Some(x) = selected.x {
            bytes.extend_from_slice(&[x, 0, 0, 0]);
        }
        if let Some(y) = selected.y {
            bytes.extend_from_slice(&[y, 0, 0, 0]);
        }
        assert(bytes@ =~= commit_bytes(self.current_commit_root, *selected));
        self.current_commit_root = ORID::compute(ObjectKind::Commit, bytes.as_slice());
    }
}


/// Event `e` moves the object that `expected` moves, along a direction that
/// `expected` moves it in.
pub open spec fn moves_predicted_object(expected: GridEvent, e: GridEvent) -> bool {
    match (expected, e) {
        (GridEvent::ObjectMoved { id: eid, dx: edx, dy: edy }, GridEvent::ObjectMoved { id, dx, dy }) => id == eid && ((edx
            > 0 && dx > 0) || (edx < 0 && dx < 0) || (edy > 0 && dy > 0) || (edy < 0 && dy < 0)),
        _ => false,
    }
}

/// A partial match is awarded only to a tested free move after which some
/// observed event moved the predicted object itself along a predicted
/// direction; a move of any other object never counts. Conversely, such an
/// event earns at least a partial match.
pub proof fn law_partial_match_needs_the_predicted_object(
    valid: bool,
    free: bool,
    expected: GridEvent,
    events: Seq<GridEvent>,
)
    ensures
        receipt_outcome(valid, free, expected, events) == PredictionOutcome::PartialMatch ==> valid && free && exists|k: int|
            0 <= k < events.len() && moves_predicted_object(expected, #[trigger] events[k]),
        valid && free && (exists|k: int| 0 <= k < events.len() && moves_predicted_object(expected, #[trigger] events[k]))
            ==> receipt_outcome(valid, free, expected, events) == PredictionOutcome::PartialMatch || receipt_outcome(
            valid,
            free,
            expected,
            events,
        ) == PredictionOutcome::ExactMatch,
{
    if let GridEvent::ObjectMoved { id, dx, dy } = expected {
        if receipt_outcome(valid, free, expected, events) == PredictionOutcome::PartialMatch {
            let k = choose|k: int| 0 <= k < events.len() && moved_alike(#[trigger] events[k], id, dx, dy);
            assert(moves_predicted_object(expected, events[k]));
        }
        if valid && free && (exists|k: int| 0 <= k < events.len() && moves_predicted_object(expected, #[trigger] events[k])) {
            let k = choose|k: int| 0 <= k < events.len() && moves_predicted_object(expected, #[trigger] events[k]);
            assert(moved_alike(events[k], id, dx, dy));
        }
    }
}


/// A receipt whose hypothesis can no longer be tested is uninformative,
/// whatever happened; a tested free move that showed the predicted event is an
/// exact match; and an exact match needs a tested receipt that either showed
/// the predicted event after a free move or no change after a blocked one.
pub proof fn law_exact_and_uninformative_outcomes(valid: bool, free: bool, expected: GridEvent, events: Seq<GridEvent>)
    ensures
        !valid ==> receipt_outcome(valid, free, expected, events) is Uninformative,
        valid && free && events.contains(expected) ==> receipt_outcome(valid, free, expected, events)
            == PredictionOutcome::ExactMatch,
        receipt_outcome(valid, free, expected, events) == PredictionOutcome::ExactMatch ==> valid && ((free
            && events.contains(expected)) || (!free && (events.len() == 0 || event_category(events[0])
            == EventCategory::NoChange))),
        valid && !free && events.len() > 0 && event_category(events[0]) != EventCategory::NoChange ==> receipt_outcome(
            valid,
            free,
            expected,
            events,
        ) == PredictionOutcome::Contradiction,
{
}

} // verus!
