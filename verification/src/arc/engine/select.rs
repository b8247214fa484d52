//! How the bridge engine chooses its next action: an experiment that tells two
//! testable hypotheses apart, else a probe of one, else exploration.

use vstd::prelude::*;
use crate::arc::action::{ArcAction, ArcActionSpace, SelectedAction};
use crate::arc::bridge::{is_feasibility, FeasibilityWitness, HypothesisStatus, PredictionReceipt, StrategyState, TransitionHypothesis};
use crate::arc::engine::labels::{
    discriminate_label, fallback_label, make_discriminate_label, make_fallback_label, make_probe_dir_label,
    make_probe_label, make_receipt_label, make_select_label, make_simple_label, make_spatial_label, make_sweep_label,
    probe_dir_label, probe_label, receipt_label, select_label, simple_label, spatial_label, sweep_label,
};
use crate::arc::engine::{copy_event, hyp_valid, lemma_witness_bounds, root_text, same_event, ArcBridgeEngine};
use crate::arc::observation::CanonicalObservation;

verus! {

/// Hypothesis `h` may be tested in frame `obs`: it is supported or
/// unverified, and an experiment on it is informative there.
pub open spec fn testable(h: TransitionHypothesis, obs: CanonicalObservation) -> bool {
    (h.status == HypothesisStatus::Supported || h.status == HypothesisStatus::Unverified) && hyp_valid(h, obs)
}

/// The positions of the testable hypotheses among the first `n`, in order.
pub open spec fn testable_upto(hyps: Seq<TransitionHypothesis>, obs: CanonicalObservation, n: int) -> Seq<int>
    decreases n,
{
    if n <= 0 {
        Seq::empty()
    } else {
        let p = testable_upto(hyps, obs, n - 1);
        if testable(hyps[n - 1], obs) {
            p.push(n - 1)
        } else {
            p
        }
    }
}

/// The first entry of `a` from `k` on whose hypothesis requires feasibility.
pub open spec fn first_refined(hyps: Seq<TransitionHypothesis>, a: Seq<int>, k: int) -> Option<int>
    decreases a.len() - k,
{
    if k < 0 || k >= a.len() {
        None
    } else if hyps[a[k]].requires_feasibility {
        Some(k)
    } else {
        first_refined(hyps, a, k + 1)
    }
}

/// The first entry of `a` from `k` on whose hypothesis has an id other than `id`.
pub open spec fn first_other(hyps: Seq<TransitionHypothesis>, a: Seq<int>, id: Seq<char>, k: int) -> Option<int>
    decreases a.len() - k,
{
    if k < 0 || k >= a.len() {
        None
    } else if hyps[a[k]].id@ != id {
        Some(k)
    } else {
        first_other(hyps, a, id, k + 1)
    }
}

/// The first entry of `a` from `j` on whose hypothesis predicts another event
/// than that of entry `i`.
pub open spec fn first_partner(hyps: Seq<TransitionHypothesis>, a: Seq<int>, i: int, j: int) -> Option<int>
    decreases a.len() - j,
{
    if j < 0 || j >= a.len() {
        None
    } else if hyps[a[i]].predicted_event != hyps[a[j]].predicted_event {
        Some(j)
    } else {
        first_partner(hyps, a, i, j + 1)
    }
}

/// The first pair of entries of `a`, from entry `i` on and in order, whose
/// hypotheses predict different events.
pub open spec fn first_differing(hyps: Seq<TransitionHypothesis>, a: Seq<int>, i: int) -> Option<(int, int)>
    decreases a.len() - i,
{
    if i < 0 || i >= a.len() {
        None
    } else {
        match first_partner(hyps, a, i, i + 1) {
            Some(j) => Some((i, j)),
            None => first_differing(hyps, a, i + 1),
        }
    }
}

/// The two entries of `a` an experiment discriminates between: a hypothesis
/// requiring feasibility with the first one of another id, else the first two
/// predicting different events; none with fewer than two.
pub open spec fn discriminating(hyps: Seq<TransitionHypothesis>, a: Seq<int>) -> Option<(int, int)> {
    if a.len() < 2 {
        None
    } else {
        match first_refined(hyps, a, 0) {
            Some(r) => match first_other(hyps, a, hyps[a[r]].id@, 0) {
                Some(o) => Some((r, o)),
                None => first_differing(hyps, a, 0),
            },
            None => first_differing(hyps, a, 0),
        }
    }
}

/// The id of the first spatial action from position `k` on.
pub open spec fn first_spatial(acts: Seq<ArcAction>, k: int) -> Option<u8>
    decreases acts.len() - k,
{
    if k < 0 || k >= acts.len() {
        None
    } else {
        match acts[k] {
            ArcAction::Spatial { id, .. } => Some(id),
            _ => first_spatial(acts, k + 1),
        }
    }
}

/// The coordinates of an experiment: none without a spatial action; else the
/// centroid of the object of interest, or the middle of a frame without objects.
pub open spec fn experiment_coords(spatial: bool, obs: CanonicalObservation, target: usize) -> (Option<u8>, Option<u8>) {
    if !spatial {
        (None, None)
    } else if obs.objects@.len() > 0 {
        let o = obs.objects@[target as int % obs.objects@.len() as int];
        (Some(o.centroid[0]), Some(o.centroid[1]))
    } else {
        (Some(15u8), Some(15u8))
    }
}

/// `r` is the receipt of an experiment on hypothesis `h` (against `other`,
/// if any) issued at step `step` with root text `root`, at coordinates `c`.
pub open spec fn is_receipt(
    r: PredictionReceipt,
    h: TransitionHypothesis,
    other: Option<Seq<char>>,
    step: u64,
    root: Seq<char>,
    c: (Option<u8>, Option<u8>),
    obs: CanonicalObservation,
) -> bool {
    &&& r.receipt_id@ == receipt_label(step)
    &&& r.primary_hyp_id@ == h.id@
    &&& (match other {
        Some(o) => r.secondary_hyp_id matches Some(s) && s@ == o,
        None => r.secondary_hyp_id is None,
    })
    &&& r.step == step
    &&& r.action_id == h.action_id
    &&& r.target_coords == (match c {
        (Some(x), Some(y)) => Some([x, y]),
        _ => None,
    })
    &&& r.expected_event == h.predicted_event
    &&& r.state_root@ == root
    &&& r.precondition_witness
    &&& is_feasibility(r.feasibility_witness, h, obs)
    &&& r.contextual_feasibility == r.feasibility_witness.bounds_feasible
}

/// The frame coordinate an exploration sweep visits: `step - 1` in row order
/// over a grid of at most 21 by 21 cells.
pub open spec fn clamp_side(v: u8) -> int {
    if v > 21 {
        21
    } else if v < 1 {
        1
    } else {
        v as int
    }
}

/// Whether every spatial action's ranges can be halved without overflow.
pub open spec fn ranges_fit(acts: Seq<ArcAction>) -> bool {
    forall|k: int|
        0 <= k < acts.len() ==> match #[trigger] acts[k] {
            ArcAction::Spatial { x_min, x_max, y_min, y_max, .. } => x_min + x_max <= 255 && y_min + y_max <= 255,
            _ => true,
        }
}

/// The action chosen when no hypothesis can be tested.
pub open spec fn explored(e: ArcBridgeEngine, obs: CanonicalObservation, acts: Seq<ArcAction>, s: SelectedAction) -> bool {
    let step = e.step_counter;
    match first_spatial(acts, 0) {
        Some(sp) => if obs.objects@.len() > 0 && e.strategy_state == StrategyState::Active {
            let o = obs.objects@[e.target_object_idx as int % obs.objects@.len() as int];
            if step % 2 == 1 {
                s.action_id == sp && s.x == Some(o.centroid[0]) && s.y == Some(o.centroid[1]) && s.hypothesis_id@
                    == select_label(o.id, o.centroid[0], o.centroid[1])
            } else {
                let d = (step % 4 + 1) as u8;
                s.action_id == d && s.x is None && s.y is None && s.hypothesis_id@ == probe_dir_label(d)
            }
        } else {
            let gw = clamp_side(obs.frame_width);
            let gh = clamp_side(obs.frame_height);
            let tx = ((step - 1) % gw) as u8;
            let ty = (((step - 1) / gw) % gh) as u8;
            s.action_id == sp && s.x == Some(tx) && s.y == Some(ty) && s.hypothesis_id@ == sweep_label(tx, ty)
        },
        None => if acts.len() > 0 {
            match acts[step as int % acts.len() as int] {
                ArcAction::Simple { id } => s.action_id == id && s.x is None && s.y is None && s.hypothesis_id@
                    == simple_label(id),
                ArcAction::Spatial { id, x_min, x_max, y_min, y_max } => s.action_id == id && s.x == Some(
                    ((x_min + x_max) / 2) as u8,
                ) && s.y == Some(((y_min + y_max) / 2) as u8) && s.hypothesis_id@ == spatial_label(id),
            }
        } else {
            s.action_id == 1 && s.x is None && s.y is None && s.hypothesis_id@ == fallback_label()
        },
    }
}


fn copy_witness(w: &FeasibilityWitness) -> (c: FeasibilityWitness)
    ensures
        c == *w,
{
    FeasibilityWitness {
        object_id: w.object_id,
        bbox: w.bbox,
        predicted_delta: w.predicted_delta,
        predicted_target_bbox: w.predicted_target_bbox,
        frame_width: w.frame_width,
        frame_height: w.frame_height,
        bounds_feasible: w.bounds_feasible,
        blocking_cause: w.blocking_cause,
    }
}

/// The testable positions are increasing positions of testable hypotheses.
proof fn lemma_testable_upto(hyps: Seq<TransitionHypothesis>, obs: CanonicalObservation, n: int)
    requires
        0 <= n <= hyps.len(),
    ensures
        forall|t: int|
            0 <= t < testable_upto(hyps, obs, n).len() ==> 0 <= #[trigger] testable_upto(hyps, obs, n)[t] < n
                && testable(hyps[testable_upto(hyps, obs, n)[t]], obs),
        testable_upto(hyps, obs, n).len() <= n,
    decreases n,
{
    if n > 0 {
        lemma_testable_upto(hyps, obs, n - 1);
    }
}

proof fn lemma_first_refined(hyps: Seq<TransitionHypothesis>, a: Seq<int>, k: int)
    requires
        0 <= k,
    ensures
        first_refined(hyps, a, k) matches Some(r) ==> k <= r < a.len(),
    decreases a.len() - k,
{
    if k < a.len() {
        lemma_first_refined(hyps, a, k + 1);
    }
}

proof fn lemma_first_other(hyps: Seq<TransitionHypothesis>, a: Seq<int>, id: Seq<char>, k: int)
    requires
        0 <= k,
    ensures
        first_other(hyps, a, id, k) matches Some(r) ==> k <= r < a.len(),
    decreases a.len() - k,
{
    if k < a.len() {
        lemma_first_other(hyps, a, id, k + 1);
    }
}

proof fn lemma_first_partner(hyps: Seq<TransitionHypothesis>, a: Seq<int>, i: int, j: int)
    requires
        0 <= j,
    ensures
        first_partner(hyps, a, i, j) matches Some(r) ==> j <= r < a.len(),
    decreases a.len() - j,
{
    if j < a.len() {
        lemma_first_partner(hyps, a, i, j + 1);
    }
}

proof fn lemma_first_differing(hyps: Seq<TransitionHypothesis>, a: Seq<int>, i: int)
    requires
        0 <= i,
    ensures
        first_differing(hyps, a, i) matches Some(p) ==> i <= p.0 < p.1 < a.len(),
    decreases a.len() - i,
{
    if i < a.len() {
        lemma_first_partner(hyps, a, i, i + 1);
        lemma_first_differing(hyps, a, i + 1);
    }
}

/// The entries an experiment discriminates between are entries of `a`.
proof fn lemma_discriminating(hyps: Seq<TransitionHypothesis>, a: Seq<int>)
    ensures
        discriminating(hyps, a) matches Some(p) ==> 0 <= p.0 < a.len() && 0 <= p.1 < a.len(),
{
    lemma_first_refined(hyps, a, 0);
    lemma_first_differing(hyps, a, 0);
    if let Some(r) = first_refined(hyps, a, 0) {
        lemma_first_other(hyps, a, hyps[a[r]].id@, 0);
    }
}

impl ArcBridgeEngine {
    /// The id of the first spatial action, if any.
    fn spatial_action(space: &ArcActionSpace) -> (r: Option<u8>)
        ensures
            r == first_spatial(space.actions@, 0),
    {
        let mut k: usize = 0;
        while k < space.actions.len()
            invariant
                k <= space.actions@.len(),
                first_spatial(space.actions@, 0) == first_spatial(space.actions@, k as int),
            decreases space.actions@.len() - k,
        {
            if let ArcAction::Spatial { id, .. } = &space.actions[k] {
                return Some(*id);
            }
            k = k + 1;
        }
        None
    }

    /// The positions of the testable hypotheses, with the feasibility witness
    /// of each in the frame.
    fn testable_hypotheses(&self, obs: &CanonicalObservation) -> (r: (Vec<usize>, Vec<FeasibilityWitness>))
        ensures
            r.0@.len() == testable_upto(self.active_hypotheses@, *obs, self.active_hypotheses@.len() as int).len(),
            r.1@.len() == r.0@.len(),
            forall|t: int|
                0 <= t < r.0@.len() ==> #[trigger] r.0@[t] as int == testable_upto(
                    self.active_hypotheses@,
                    *obs,
                    self.active_hypotheses@.len() as int,
                )[t],
            forall|t: int|
                0 <= t < r.0@.len() ==> is_feasibility(
                    #[trigger] r.1@[t],
                    self.active_hypotheses@[r.0@[t] as int],
                    *obs,
                ),
    {
        let ghost hyps = self.active_hypotheses@;
        let mut act: Vec<usize> = Vec::new();
        let mut wits: Vec<FeasibilityWitness> = Vec::new();
        let mut k: usize = 0;
        while k < self.active_hypotheses.len()
            invariant
                k <= hyps.len(),
                hyps == self.active_hypotheses@,
                act@.len() == testable_upto(hyps, *obs, k as int).len(),
                wits@.len() == act@.len(),
                forall|t: int| 0 <= t < act@.len() ==> #[trigger] act@[t] as int == testable_upto(hyps, *obs, k as int)[t],
                forall|t: int| 0 <= t < act@.len() ==> is_feasibility(#[trigger] wits@[t], hyps[act@[t] as int], *obs),
            decreases hyps.len() - k,
        {
            let h = &self.active_hypotheses[k];
            if h.status == HypothesisStatus::Supported || h.status == HypothesisStatus::Unverified {
                let (valid, _, w) = self.evaluate_preconditions(h, obs);
                proof {
                    lemma_witness_bounds(w, hyps[k as int], *obs);
                }
                if valid && (h.requires_feasibility || w.bounds_feasible) {
                    act.push(k);
                    wits.push(w);
                }
            }
            k = k + 1;
        }
        (act, wits)
    }

    /// The pair of testable entries an experiment discriminates between.
    fn discriminating_pair(&self, act: &Vec<usize>, Ghost(a): Ghost<Seq<int>>) -> (r: Option<(usize, usize)>)
        requires
            act@.len() == a.len(),
            forall|t: int| 0 <= t < act@.len() ==> #[trigger] act@[t] as int == a[t],
            forall|t: int| 0 <= t < a.len() ==> 0 <= #[trigger] a[t] < self.active_hypotheses@.len(),
        ensures
            match r {
                Some((i, j)) => discriminating(self.active_hypotheses@, a) == Some((i as int, j as int)),
                None => discriminating(self.active_hypotheses@, a) is None,
            },
    {
        let ghost hyps = self.active_hypotheses@;
        let n = act.len();
        if n < 2 {
            return None;
        }
        let mut refined: Option<usize> = None;
        let mut k: usize = 0;
        while k < n
            invariant
                n == act@.len() == a.len(),
                k <= n,
                forall|t: int| 0 <= t < act@.len() ==> #[trigger] act@[t] as int == a[t],
                forall|t: int| 0 <= t < a.len() ==> 0 <= #[trigger] a[t] < hyps.len(),
                hyps == self.active_hypotheses@,
                refined matches Some(r) ==> (r < n && first_refined(hyps, a, 0) == Some(r as int)),
                refined is Some ==> k == n,
                refined is None ==> first_refined(hyps, a, 0) == first_refined(hyps, a, k as int),
            decreases n - k,
        {
            if self.active_hypotheses[act[k]].requires_feasibility {
                assert(act@[k as int] as int == a[k as int]);
                assert(first_refined(hyps, a, k as int) == Some(k as int));
                refined = Some(k);
                k = n;
            } else {
                k = k + 1;
            }
        }
        assert(refined is None ==> first_refined(hyps, a, 0) is None);
        if let Some(r) = refined {
            let rid = &self.active_hypotheses[act[r]].id;
            let mut o: usize = 0;
            while o < n
                invariant
                    n == act@.len() == a.len(),
                    o <= n,
                    r < n,
                    forall|t: int| 0 <= t < act@.len() ==> #[trigger] act@[t] as int == a[t],
                    forall|t: int| 0 <= t < a.len() ==> 0 <= #[trigger] a[t] < hyps.len(),
                    hyps == self.active_hypotheses@,
                    *rid == hyps[a[r as int]].id,
                    first_other(hyps, a, rid@, 0) == first_other(hyps, a, rid@, o as int),
                    n >= 2,
                    first_refined(hyps, a, 0) == Some(r as int),
                decreases n - o,
            {
                if self.active_hypotheses[act[o]].id != *rid {
                    assert(first_other(hyps, a, rid@, o as int) == Some(o as int));
                    return Some((r, o));
                }
                o = o + 1;
            }
            assert(first_other(hyps, a, rid@, 0) is None);
        }
        assert(discriminating(hyps, a) == first_differing(hyps, a, 0));
        let mut i: usize = 0;
        while i < n
            invariant
                n == act@.len() == a.len(),
                i <= n,
                discriminating(hyps, a) == first_differing(hyps, a, 0),
                forall|t: int| 0 <= t < act@.len() ==> #[trigger] act@[t] as int == a[t],
                forall|t: int| 0 <= t < a.len() ==> 0 <= #[trigger] a[t] < hyps.len(),
                hyps == self.active_hypotheses@,
                first_differing(hyps, a, 0) == first_differing(hyps, a, i as int),
            decreases n - i,
        {
            let mut j: usize = i + 1;
            while j < n
                invariant
                    n == act@.len() == a.len(),
                    i < n,
                    i + 1 <= j <= n,
                    forall|t: int| 0 <= t < act@.len() ==> #[trigger] act@[t] as int == a[t],
                    forall|t: int| 0 <= t < a.len() ==> 0 <= #[trigger] a[t] < hyps.len(),
                    hyps == self.active_hypotheses@,
                    first_partner(hyps, a, i as int, i + 1) == first_partner(hyps, a, i as int, j as int),
                    discriminating(hyps, a) == first_differing(hyps, a, 0),
                    first_differing(hyps, a, 0) == first_differing(hyps, a, i as int),
                decreases n - j,
            {
                if !same_event(&self.active_hypotheses[act[i]].predicted_event, &self.active_hypotheses[act[j]].predicted_event) {
                    assert(first_partner(hyps, a, i as int, j as int) == Some(j as int));
                    assert(first_differing(hyps, a, i as int) == Some((i as int, j as int)));
                    return Some((i, j));
                }
                j = j + 1;
            }
            assert(first_partner(hyps, a, i as int, i + 1) is None);
            assert(first_differing(hyps, a, i as int) == first_differing(hyps, a, i + 1));
            i = i + 1;
        }
        assert(first_differing(hyps, a, 0) is None);
        None
    }

    /// Chooses the next action. With two testable hypotheses that an experiment
    /// can tell apart, it runs that experiment on the first; with one testable
    /// hypothesis, it probes it; either way a receipt of the prediction is kept
    /// pending. Otherwise it explores: with a spatial action, the object of
    /// interest (or, with no object or an inactive strategy, a sweep of the
    /// frame); else the action of the step in turn; else action 1.
    pub fn select_action(&mut self, obs: &CanonicalObservation, space: &ArcActionSpace) -> (s: SelectedAction)
        requires
            old(self).step_counter >= 1,
            ranges_fit(space.actions@),
        ensures
            ({
                let e = *old(self);
                let hyps = e.active_hypotheses@;
                let a = testable_upto(hyps, *obs, hyps.len() as int);
                let c = experiment_coords(first_spatial(space.actions@, 0) is Some, *obs, e.target_object_idx);
                let root = root_text(e.current_commit_root);
                match discriminating(hyps, a) {
                    Some((i, j)) => {
                        &&& final(self).pending_prediction matches Some(r) && is_receipt(
                            r,
                            hyps[a[i]],
                            Some(hyps[a[j]].id@),
                            e.step_counter,
                            root,
                            c,
                            *obs,
                        )
                        &&& s.action_id == hyps[a[i]].action_id
                        &&& s.x == c.0
                        &&& s.y == c.1
                        &&& s.hypothesis_id@ == discriminate_label(
                            hyps[a[i]].id@,
                            hyps[a[j]].id@,
                            receipt_label(e.step_counter),
                        )
                    },
                    None => if a.len() > 0 {
                        &&& final(self).pending_prediction matches Some(r) && is_receipt(
                            r,
                            hyps[a[0]],
                            None,
                            e.step_counter,
                            root,
                            c,
                            *obs,
                        )
                        &&& s.action_id == hyps[a[0]].action_id
                        &&& s.x == c.0
                        &&& s.y == c.1
                        &&& s.hypothesis_id@ == probe_label(hyps[a[0]].id@, receipt_label(e.step_counter))
                    } else {
                        &&& final(self).pending_prediction == e.pending_prediction
                        &&& explored(e, *obs, space.actions@, s)
                    },
                }
            }),
            final(self).current_commit_root == old(self).current_commit_root,
            final(self).last_observation == old(self).last_observation,
            final(self).last_action == old(self).last_action,
            final(self).step_counter == old(self).step_counter,
            final(self).history_trace == old(self).history_trace,
            final(self).strategy_state == old(self).strategy_state,
            final(self).active_hypotheses == old(self).active_hypotheses,
            final(self).supported_hypotheses == old(self).supported_hypotheses,
            final(self).refuted_hypotheses == old(self).refuted_hypotheses,
            final(self).target_object_idx == old(self).target_object_idx,
            final(self).recent_state_roots == old(self).recent_state_roots,
            final(self).stagnation_counter == old(self).stagnation_counter,
            final(self).baseline_tracker == old(self).baseline_tracker,
            final(self).is_frozen == old(self).is_frozen,
    {
        let sp = Self::spatial_action(space);
        let (act, wits) = self.testable_hypotheses(obs);
        let ghost hyps = self.active_hypotheses@;
        let ghost a = testable_upto(hyps, *obs, hyps.len() as int);
        proof {
            lemma_testable_upto(hyps, *obs, hyps.len() as int);
            lemma_discriminating(hyps, a);
        }
        let pair = self.discriminating_pair(&act, Ghost(a));
        let (tx, ty): (Option<u8>, Option<u8>) = if sp.is_some() {
            if obs.objects.len() > 0 {
                let o = &obs.objects[self.target_object_idx % obs.objects.len()];
                (Some(o.centroid[0]), Some(o.centroid[1]))
            } else {
                (Some(15u8), Some(15u8))
            }
        } else {
            (None, None)
        };
        let coords = match (tx, ty) {
            (Some(x), Some(y)) => Some([x, y]),
            _ => None,
        };
        match pair {
            Some((i, j)) => {
                let rid = make_receipt_label(self.step_counter);
                let h1 = &self.active_hypotheses[act[i]];
                let h2 = &self.active_hypotheses[act[j]];
                let label = make_discriminate_label(&h1.id, &h2.id, &rid);
                let receipt = PredictionReceipt {
                    receipt_id: rid,
                    primary_hyp_id: h1.id.clone(),
                    secondary_hyp_id: Some(h2.id.clone()),
                    step: self.step_counter,
                    action_id: h1.action_id,
                    target_coords: coords,
                    expected_event: copy_event(&h1.predicted_event),
                    state_root: self.current_commit_root.to_display_string(),
                    precondition_witness: true,
                    contextual_feasibility: wits[i].bounds_feasible,
                    feasibility_witness: copy_witness(&wits[i]),
                };
                let action = h1.action_id;
                self.pending_prediction = Some(receipt);
                SelectedAction { action_id: action, x: tx, y: ty, hypothesis_id: label }
            },
            None => {
                if act.len() > 0 {
                    let rid = make_receipt_label(self.step_counter);
                    let h = &self.active_hypotheses[act[0]];
                    let label = make_probe_label(&h.id, &rid);
                    let receipt = PredictionReceipt {
                        receipt_id: rid,
                        primary_hyp_id: h.id.clone(),
                        secondary_hyp_id: None,
                        step: self.step_counter,
                        action_id: h.action_id,
                        target_coords: coords,
                        expected_event: copy_event(&h.predicted_event),
                        state_root: self.current_commit_root.to_display_string(),
                        precondition_witness: true,
                        contextual_feasibility: wits[0].bounds_feasible,
                        feasibility_witness: copy_witness(&wits[0]),
                    };
                    let action = h.action_id;
                    self.pending_prediction = Some(receipt);
                    SelectedAction { action_id: action, x: tx, y: ty, hypothesis_id: label }
                } else {
                    match sp {
                        Some(sp_id) => {
                            let n = obs.objects.len();
                            if n > 0 && self.strategy_state == StrategyState::Active {
                                let o = &obs.objects[self.target_object_idx % n];
                                if self.step_counter % 2 == 1 {
                                    SelectedAction {
                                        action_id: sp_id,
                                        x: Some(o.centroid[0]),
                                        y: Some(o.centroid[1]),
                                        hypothesis_id: make_select_label(o.id, o.centroid[0], o.centroid[1]),
                                    }
                                } else {
                                    let d = (self.step_counter % 4) as u8 + 1;
                                    SelectedAction { action_id: d, x: None, y: None, hypothesis_id: make_probe_dir_label(d) }
                                }
                            } else {
                                let gw: u64 = if obs.frame_width > 21 {
                                    21
                                } else if obs.frame_width < 1 {
                                    1
                                } else {
                                    obs.frame_width as u64
                                };
                                let gh: u64 = if obs.frame_height > 21 {
                                    21
                                } else if obs.frame_height < 1 {
                                    1
                                } else {
                                    obs.frame_height as u64
                                };
                                let sweep = self.step_counter - 1;
                                let x = (sweep % gw) as u8;
                                let y = ((sweep / gw) % gh) as u8;
                                SelectedAction { action_id: sp_id, x: Some(x), y: Some(y), hypothesis_id: make_sweep_label(x, y) }
                            }
                        },
                        None => {
                            let n = space.actions.len();
                            if n > 0 {
                                let k = (self.step_counter % (n as u64)) as usize;
                                match &space.actions[k] {
                                    ArcAction::Simple { id } => SelectedAction {
                                        action_id: *id,
                                        x: None,
                                        y: None,
                                        hypothesis_id: make_simple_label(*id),
                                    },
                                    ArcAction::Spatial { id, x_min, x_max, y_min, y_max } => {
                                        assert(*x_min + *x_max <= 255 && *y_min + *y_max <= 255) by {
                                            assert(ranges_fit(space.actions@));
                                            assert(space.actions@[k as int] == space.actions[k as int]);
                                        }
                                        SelectedAction {
                                            action_id: *id,
                                            x: Some((*x_min + *x_max) / 2),
                                            y: Some((*y_min + *y_max) / 2),
                                            hypothesis_id: make_spatial_label(*id),
                                        }
                                    },
                                }
                            } else {
                                SelectedAction { action_id: 1, x: None, y: None, hypothesis_id: make_fallback_label() }
                            }
                        },
                    }
                }
            },
        }
    }
}

} // verus!
