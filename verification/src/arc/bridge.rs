//! The records the bridge keeps about hypotheses and predictions, and the
//! spatial feasibility of a predicted transition: whether moving an object's
//! whole bounding box by the predicted offset keeps it inside the frame.

use vstd::prelude::*;
use crate::arc::action::{ArcActionSpace, SelectedAction};
use crate::arc::observation::{CanonicalObservation, GenericObject, GridEvent};

verus! {

#[derive(Debug, Clone)]
pub struct StepRequest {
    pub step: u64,
    pub observation: CanonicalObservation,
    pub action_space: ArcActionSpace,
}

#[derive(Debug, Clone)]
pub struct StepResponse {
    pub step: u64,
    pub action: SelectedAction,
    pub state_root: String,
    pub telemetry: Option<String>,
}

#[derive(Debug, Clone, Copy, PartialEq, Eq, Structural)]
pub enum StrategyState {
    Active,
    Stagnant,
    Deprioritized,
    Failed,
}

#[derive(Debug, Clone, Copy, PartialEq, Eq, Structural)]
pub enum HypothesisStatus {
    Unverified,
    Supported,
    Contested,
    Refuted,
    Verified,
}

#[derive(Debug, Clone, Copy, PartialEq, Eq, Hash, Structural)]
pub enum EventCategory {
    NoChange,
    Moved,
    ColorChanged,
    Appeared,
    Disappeared,
}

#[derive(Debug, Clone, Copy, PartialEq, Eq, Structural)]
pub enum PredictionOutcome {
    ExactMatch,
    PartialMatch,
    Contradiction,
    Uninformative(UninformativeReason),
}

#[derive(Debug, Clone, Copy, PartialEq, Eq, Hash, Structural)]
pub enum BlockingCause {
    Boundary,
    Occupancy,
    Unknown,
}

#[derive(Debug, Clone, Copy, PartialEq, Eq, Hash, Structural)]
pub enum UninformativeReason {
    EffectBlocked(BlockingCause),
    PreconditionsNotSatisfied,
    PredictionObservationallyEquivalent,
    TargetUnavailable,
    AmbiguousMatching,
    InsufficientObservation,
}

#[derive(Debug, Default, Clone)]
pub struct RetrodictionVector {
    pub applicable: u32,
    pub correct: u32,
    pub contradicted: u32,
    pub ambiguous: u32,
}

#[derive(Debug, Default, Clone)]
pub struct ProspectiveVector {
    pub issued: u32,
    pub exact_matches: u32,
    pub partial_matches: u32,
    pub contradictions: u32,
}

#[derive(Debug, Clone)]
pub struct TransitionHypothesis {
    pub id: String,
    pub derived_from: Option<String>,
    pub action_id: u8,
    pub target_object_id: Option<u32>,
    pub predicted_event: GridEvent,
    pub requires_feasibility: bool,
    pub status: HypothesisStatus,
    pub support_count: u32,
    pub refutation_count: u32,
    pub retrodiction: RetrodictionVector,
    pub prospective: ProspectiveVector,
}

#[derive(Debug, Clone, PartialEq, Eq)]
pub struct FeasibilityWitness {
    pub object_id: u32,
    /// `[min_x, min_y, max_x, max_y]`
    pub bbox: [u8; 4],
    /// `[dx, dy]`
    pub predicted_delta: [i8; 2],
    /// The bounding box after the move.
    pub predicted_target_bbox: [i16; 4],
    pub frame_width: u8,
    pub frame_height: u8,
    pub bounds_feasible: bool,
    pub blocking_cause: Option<BlockingCause>,
}

#[derive(Debug, Clone)]
pub struct PredictionReceipt {
    pub receipt_id: String,
    pub primary_hyp_id: String,
    pub secondary_hyp_id: Option<String>,
    pub step: u64,
    pub action_id: u8,
    pub target_coords: Option<[u8; 2]>,
    pub expected_event: GridEvent,
    pub state_root: String,
    pub precondition_witness: bool,
    pub contextual_feasibility: bool,
    pub feasibility_witness: FeasibilityWitness,
}

#[derive(Debug, Clone)]
pub struct HistoricalTransition {
    pub step: u64,
    pub action_id: u8,
    pub target_coords: Option<[u8; 2]>,
    pub events_observed: Vec<GridEvent>,
    pub state_root: String,
}

#[derive(Debug, Default, Clone, Copy, PartialEq, Eq, Structural)]
pub struct CategoryConfusion {
    pub true_positives: u64,
    pub false_positives: u64,
    pub false_negatives: u64,
}

/// The object a predicted event is about (0 for a restructured grid), and
/// whether the event itself carries the offset.
pub open spec fn event_target(e: GridEvent) -> (u32, bool, i8, i8) {
    match e {
        GridEvent::ObjectMoved { id, dx, dy } => (id, true, dx, dy),
        GridEvent::ColorChanged { id, .. } => (id, false, 0, 0),
        GridEvent::ObjectDisappeared { id } => (id, false, 0, 0),
        GridEvent::ObjectAppeared { id, .. } => (id, false, 0, 0),
        GridEvent::GridRestructured { .. } => (0, false, 0, 0),
    }
}

/// The offset a hypothesis predicts: the event's own, else the one of its
/// action (1 up, 2 down, 3 left, 4 right, by three cells; none otherwise).
pub open spec fn predicted_delta(h: TransitionHypothesis) -> (i8, i8) {
    let t = event_target(h.predicted_event);
    if t.1 {
        (t.2, t.3)
    } else if h.action_id == 1 {
        (0i8, -3i8)
    } else if h.action_id == 2 {
        (0i8, 3i8)
    } else if h.action_id == 3 {
        (-3i8, 0i8)
    } else if h.action_id == 4 {
        (3i8, 0i8)
    } else {
        (0i8, 0i8)
    }
}

/// The first object from index `k` on with the given id.
pub open spec fn first_with_id(objs: Seq<GenericObject>, id: u32, k: int) -> Option<int>
    decreases objs.len() - k,
{
    if k < 0 || k >= objs.len() {
        None
    } else if objs[k].id == id {
        Some(k)
    } else {
        first_with_id(objs, id, k + 1)
    }
}

/// The first object from index `k` on with fewer than 100 pixels.
pub open spec fn first_small(objs: Seq<GenericObject>, k: int) -> Option<int>
    decreases objs.len() - k,
{
    if k < 0 || k >= objs.len() {
        None
    } else if objs[k].pixel_count < 100 {
        Some(k)
    } else {
        first_small(objs, k + 1)
    }
}

/// The first object with the fewest pixels among `best` and those from `k` on.
pub open spec fn first_fewest(objs: Seq<GenericObject>, k: int, best: int) -> int
    decreases objs.len() - k,
{
    if k < 0 || k >= objs.len() {
        best
    } else if objs[k].pixel_count < objs[best].pixel_count {
        first_fewest(objs, k + 1, k)
    } else {
        first_fewest(objs, k + 1, best)
    }
}

/// The object a feasibility check looks at: the event's object, else the
/// first small one, else the first of the fewest pixels; none in an empty frame.
pub open spec fn target_index(objs: Seq<GenericObject>, id: u32) -> Option<int> {
    if first_with_id(objs, id, 0) is Some {
        first_with_id(objs, id, 0)
    } else if first_small(objs, 0) is Some {
        first_small(objs, 0)
    } else if objs.len() > 0 {
        Some(first_fewest(objs, 1, 0))
    } else {
        None
    }
}

/// `w` is the feasibility witness of hypothesis `h` in frame `obs`: the
/// target object's box moved by the predicted offset, and whether the moved
/// box lies inside the frame (a missing object is blocked at the border).
pub open spec fn is_feasibility(w: FeasibilityWitness, h: TransitionHypothesis, obs: CanonicalObservation) -> bool {
    let t = event_target(h.predicted_event);
    let d = predicted_delta(h);
    &&& w.predicted_delta[0] == d.0
    &&& w.predicted_delta[1] == d.1
    &&& w.frame_width == obs.frame_width
    &&& w.frame_height == obs.frame_height
    &&& match target_index(obs.objects@, t.0) {
        Some(i) => {
            let o = obs.objects@[i];
            let nminx = o.bbox[0] + d.0;
            let nminy = o.bbox[1] + d.1;
            let nmaxx = o.bbox[2] + d.0;
            let nmaxy = o.bbox[3] + d.1;
            let ok = nminx >= 0 && nmaxx < obs.frame_width && nminy >= 0 && nmaxy < obs.frame_height;
            &&& w.object_id == o.id
            &&& w.bbox == o.bbox
            &&& w.predicted_target_bbox[0] == nminx
            &&& w.predicted_target_bbox[1] == nminy
            &&& w.predicted_target_bbox[2] == nmaxx
            &&& w.predicted_target_bbox[3] == nmaxy
            &&& w.bounds_feasible == ok
            &&& w.blocking_cause == (if ok {
                None
            } else {
                Some(BlockingCause::Boundary)
            })
        },
        None => {
            &&& w.object_id == t.0
            &&& forall|k: int| 0 <= k < 4 ==> w.bbox[k] == 0 && w.predicted_target_bbox[k] == 0
            &&& !w.bounds_feasible
            &&& w.blocking_cause == Some(BlockingCause::Boundary)
        },
    }
}

proof fn lemma_target_in_range(objs: Seq<GenericObject>, id: u32, k: int, best: int)
    requires
        0 <= k,
        0 <= best < objs.len(),
    ensures
        first_with_id(objs, id, k) matches Some(i) ==> k <= i < objs.len(),
        first_small(objs, k) matches Some(i) ==> k <= i < objs.len(),
        0 <= first_fewest(objs, k, best) < objs.len(),
    decreases objs.len() - k,
{
    if k < objs.len() {
        lemma_target_in_range(objs, id, k + 1, best);
        lemma_target_in_range(objs, id, k + 1, k);
    }
}

fn find_target(objs: &Vec<GenericObject>, id: u32) -> (r: Option<usize>)
    ensures
        r matches Some(i) ==> i < objs@.len(),
        match r {
            Some(i) => target_index(objs@, id) == Some(i as int),
            None => target_index(objs@, id) is None,
        },
{
    let n = objs.len();
    let mut k: usize = 0;
    while k < n
        invariant
            n == objs@.len(),
            k <= n,
            first_with_id(objs@, id, 0) == first_with_id(objs@, id, k as int),
        decreases n - k,
    {
        if objs[k].id == id {
            return Some(k);
        }
        k = k + 1;
    }
    let mut k: usize = 0;
    while k < n
        invariant
            n == objs@.len(),
            k <= n,
            first_with_id(objs@, id, 0) is None,
            first_small(objs@, 0) == first_small(objs@, k as int),
        decreases n - k,
    {
        if objs[k].pixel_count < 100 {
            return Some(k);
        }
        k = k + 1;
    }
    if n == 0 {
        return None;
    }
    let mut best: usize = 0;
    let mut k: usize = 1;
    while k < n
        invariant
            n == objs@.len(),
            1 <= k <= n,
            best < n,
            first_fewest(objs@, 1, 0) == first_fewest(objs@, k as int, best as int),
        decreases n - k,
    {
        if objs[k].pixel_count < objs[best].pixel_count {
            best = k;
        }
        k = k + 1;
    }
    Some(best)
}

/// Whether the hypothesis' predicted move keeps the whole bounding box of its
/// object inside the frame, with the witness of that check.
pub(crate) fn transition_feasibility(hyp: &TransitionHypothesis, obs: &CanonicalObservation) -> (w: FeasibilityWitness)
    ensures
        is_feasibility(w, *hyp, *obs),
{
    let (target_id, has_delta, event_dx, event_dy): (u32, bool, i8, i8) = match &hyp.predicted_event {
        GridEvent::ObjectMoved { id, dx, dy } => (*id, true, *dx, *dy),
        GridEvent::ColorChanged { id, .. } => (*id, false, 0, 0),
        GridEvent::ObjectDisappeared { id } => (*id, false, 0, 0),
        GridEvent::ObjectAppeared { id, .. } => (*id, false, 0, 0),
        GridEvent::GridRestructured { .. } => (0, false, 0, 0),
    };
    let (dx, dy): (i8, i8) = if has_delta {
        (event_dx, event_dy)
    } else if hyp.action_id == 1 {
        (0, -3)
    } else if hyp.action_id == 2 {
        (0, 3)
    } else if hyp.action_id == 3 {
        (-3, 0)
    } else if hyp.action_id == 4 {
        (3, 0)
    } else {
        (0, 0)
    };
    proof {
        if obs.objects@.len() > 0 {
            lemma_target_in_range(obs.objects@, target_id, 0, 0);
            lemma_target_in_range(obs.objects@, target_id, 1, 0);
        }
    }
    match find_target(&obs.objects, target_id) {
        Some(i) => {
            let obj = &obs.objects[i];
            let new_min_x: i16 = obj.bbox[0] as i16 + dx as i16;
            let new_min_y: i16 = obj.bbox[1] as i16 + dy as i16;
            let new_max_x: i16 = obj.bbox[2] as i16 + dx as i16;
            let new_max_y: i16 = obj.bbox[3] as i16 + dy as i16;
            let bounds_feasible = new_min_x >= 0 && new_max_x < obs.frame_width as i16 && new_min_y >= 0 && new_max_y
                < obs.frame_height as i16;
            let blocking_cause = if bounds_feasible {
                None
            } else {
                Some(BlockingCause::Boundary)
            };
            let delta = [dx, dy];
            let target_bbox = [new_min_x, new_min_y, new_max_x, new_max_y];
            let w = FeasibilityWitness {
                object_id: obj.id,
                bbox: obj.bbox,
                predicted_delta: delta,
                predicted_target_bbox: target_bbox,
                frame_width: obs.frame_width,
                frame_height: obs.frame_height,
                bounds_feasible,
                blocking_cause,
            };
            proof {
                assert(dx == predicted_delta(*hyp).0);
                assert(dy == predicted_delta(*hyp).1);
                assert(target_id == event_target(hyp.predicted_event).0);
                assert(target_index(obs.objects@, target_id) == Some(i as int));
                assert(w.bbox == obs.objects@[i as int].bbox);
                assert(w.predicted_delta[0] == dx);
                assert(w.predicted_delta[1] == dy);
                assert(w.predicted_target_bbox[0] == new_min_x);
                assert(w.predicted_target_bbox[1] == new_min_y);
                assert(w.predicted_target_bbox[2] == new_max_x);
                assert(w.predicted_target_bbox[3] == new_max_y);
            }
            w
        },
        None => {
            let w = FeasibilityWitness {
                object_id: target_id,
                bbox: [0, 0, 0, 0],
                predicted_delta: [dx, dy],
                predicted_target_bbox: [0, 0, 0, 0],
                frame_width: obs.frame_width,
                frame_height: obs.frame_height,
                bounds_feasible: false,
                blocking_cause: Some(BlockingCause::Boundary),
            };
            proof {
                assert(w.predicted_delta[0] == dx);
                assert(w.predicted_delta[1] == dy);
                assert forall|k: int| 0 <= k < 4 implies w.bbox[k] == 0 && w.predicted_target_bbox[k] == 0 by {
                    assert(w.bbox[0] == 0 && w.bbox[1] == 0 && w.bbox[2] == 0 && w.bbox[3] == 0);
                    assert(w.predicted_target_bbox[0] == 0 && w.predicted_target_bbox[1] == 0);
                    assert(w.predicted_target_bbox[2] == 0 && w.predicted_target_bbox[3] == 0);
                }
            }
            w
        },
    }
}

/// Whether an experiment on the hypothesis can be informative: one that
/// requires feasibility is always run; another is uninformative when its
/// effect is blocked at the frame's border.
pub(crate) fn transition_preconditions(hyp: &TransitionHypothesis, obs: &CanonicalObservation) -> (r: (
    bool,
    Option<UninformativeReason>,
    FeasibilityWitness,
))
    ensures
        is_feasibility(r.2, *hyp, *obs),
        r.0 == (hyp.requires_feasibility || r.2.bounds_feasible),
        r.1 == (if r.0 {
            None
        } else {
            Some(
                UninformativeReason::EffectBlocked(
                    match r.2.blocking_cause {
                        Some(c) => c,
                        None => BlockingCause::Boundary,
                    },
                ),
            )
        }),
{
    let witness = transition_feasibility(hyp, obs);
    if hyp.requires_feasibility {
        (true, None, witness)
    } else if !witness.bounds_feasible {
        let cause = match witness.blocking_cause {
            Some(c) => c,
            None => BlockingCause::Boundary,
        };
        (false, Some(UninformativeReason::EffectBlocked(cause)), witness)
    } else {
        (true, None, witness)
    }
}

/// The category of event a hypothesis predicts; a restructured grid counts as no change.
pub open spec fn event_category(e: GridEvent) -> EventCategory {
    match e {
        GridEvent::ObjectMoved { .. } => EventCategory::Moved,
        GridEvent::ColorChanged { .. } => EventCategory::ColorChanged,
        GridEvent::ObjectAppeared { .. } => EventCategory::Appeared,
        GridEvent::ObjectDisappeared { .. } => EventCategory::Disappeared,
        GridEvent::GridRestructured { .. } => EventCategory::NoChange,
    }
}

/// The schema of a hypothesis: its action, the category of its event, and
/// whether it requires feasibility.
pub open spec fn schema_of(h: TransitionHypothesis) -> (u8, EventCategory, bool) {
    (h.action_id, event_category(h.predicted_event), h.requires_feasibility)
}

pub(crate) fn category_of(e: &GridEvent) -> (c: EventCategory)
    ensures
        c == event_category(*e),
{
    match e {
        GridEvent::ObjectMoved { .. } => EventCategory::Moved,
        GridEvent::ColorChanged { .. } => EventCategory::ColorChanged,
        GridEvent::ObjectAppeared { .. } => EventCategory::Appeared,
        GridEvent::ObjectDisappeared { .. } => EventCategory::Disappeared,
        GridEvent::GridRestructured { .. } => EventCategory::NoChange,
    }
}

/// The number of distinct schemas among the hypotheses.
pub(crate) fn count_generalized_schemas(hyps: &[TransitionHypothesis]) -> (n: usize)
    ensures
        n == hyps@.map_values(|h: TransitionHypothesis| schema_of(h)).to_set().len(),
{
    let ghost all = hyps@.map_values(|h: TransitionHypothesis| schema_of(h));
    let mut seen: Vec<(u8, EventCategory, bool)> = Vec::new();
    let mut i: usize = 0;
    while i < hyps.len()
        invariant
            i <= hyps@.len(),
            all == hyps@.map_values(|h: TransitionHypothesis| schema_of(h)),
            seen@.no_duplicates(),
            seen@.to_set() == all.take(i as int).to_set(),
        decreases hyps@.len() - i,
    {
        let s = (hyps[i].action_id, category_of(&hyps[i].predicted_event), hyps[i].requires_feasibility);
        assert(s == all[i as int]);
        let mut j: usize = 0;
        let mut present = false;
        while j < seen.len()
            invariant
                j <= seen@.len(),
                present == (exists|t: int| 0 <= t < j && seen@[t] == s),
            decreases seen@.len() - j,
        {
            if seen[j].0 == s.0 && seen[j].1 == s.1 && seen[j].2 == s.2 {
                present = true;
            }
            j = j + 1;
        }
        proof {
            assert(all.take(i + 1) =~= all.take(i as int).push(s));
            all.take(i as int).lemma_push_to_set_commute(s);
        }
        if !present {
            let ghost old_seen = seen@;
            seen.push(s);
            proof {
                old_seen.lemma_push_to_set_commute(s);
                assert forall|a: int, b: int| 0 <= a < b < seen@.len() implies seen@[a] != seen@[b] by {
                    if b == old_seen.len() {
                        assert(seen@[a] == old_seen[a]);
                    }
                }
            }
        } else {
            proof {
                let t = choose|t: int| 0 <= t < seen@.len() && seen@[t] == s;
                assert(seen@.to_set().contains(s));
                assert(seen@.to_set().insert(s) =~= seen@.to_set());
            }
        }
        i = i + 1;
    }
    proof {
        assert(all.take(i as int) =~= all);
        seen@.unique_seq_to_set();
    }
    seen.len()
}

} // verus!
