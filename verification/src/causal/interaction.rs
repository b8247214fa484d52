//! Order-interaction diagnostics: compares the states reached by applying two
//! operators in both orders. The result is a diagnostic only; it never
//! changes a causal status.

use vstd::prelude::*;
use crate::causal::counterfactual::{same_shape, CounterfactualFork};
use crate::kernel::object::{claim_view, Claim, Evidence, Operator};
use crate::kernel::omap::OridMap;
use crate::kernel::orid::{is_orid_of, orid_display, ObjectKind, ORID};
use crate::kernel::state::{Budget, State};
use crate::kernel::text::{dec_digits, push_decimal};

verus! {

#[derive(Debug, Clone, PartialEq, Eq)]
pub struct StateDelta {
    pub graph_diff_count: usize,
    pub evidence_diff_count: usize,
    pub operator_diff_count: usize,
    pub total_differences: usize,
}

impl StateDelta {
    pub fn is_zero(&self) -> (b: bool)
        ensures
            b == (self.total_differences == 0),
    {
        self.total_differences == 0
    }
}

#[derive(Debug, Clone, PartialEq, Eq, Structural)]
pub enum DiagnosticTag {
    OrderInteraction,
}

#[derive(Debug, Clone, PartialEq)]
pub struct OrderInteractionDiagnostic {
    pub diagnostic_id: ORID,
    pub tag: DiagnosticTag,
    pub operator_a_id: ORID,
    pub operator_b_id: ORID,
    pub is_commutative: bool,
    pub delta: StateDelta,
    pub evaluated_steps: usize,
    pub budget_exhausted: bool,
}

#[derive(Debug, Clone, Default)]
pub struct InteractionDiagnosticChecker;

pub open spec fn evidence_view(e: Evidence) -> (ORID, ORID, Seq<char>, u64) {
    (e.id, e.raw_orid, e.source_id@, e.observed_at_timestamp)
}

pub open spec fn operator_view(o: Operator) -> (ORID, Seq<char>, Seq<char>, crate::kernel::causal_status::CausalStatus, u64) {
    (o.id, o.name@, o.domain_schema@, o.status, o.cost)
}

fn same_roots(a: &Vec<ORID>, b: &Vec<ORID>) -> (r: bool)
    ensures
        r == (a@ == b@),
{
    if a.len() != b.len() {
        return false;
    }
    let mut i: usize = 0;
    while i < a.len()
        invariant
            a@.len() == b@.len(),
            i <= a@.len(),
            forall|k: int| 0 <= k < i ==> a@[k] == b@[k],
        decreases a@.len() - i,
    {
        if a[i] != b[i] {
            return false;
        }
        i = i + 1;
    }
    assert(a@ =~= b@);
    true
}

fn same_claim(a: &Claim, b: &Claim) -> (r: bool)
    ensures
        r == (claim_view(*a) == claim_view(*b)),
{
    a.id == b.id && a.statement == b.statement && a.status == b.status && same_roots(&a.provenance_roots, &b.provenance_roots)
}

fn same_evidence(a: &Evidence, b: &Evidence) -> (r: bool)
    ensures
        r == (evidence_view(*a) == evidence_view(*b)),
{
    a.id == b.id && a.raw_orid == b.raw_orid && a.source_id == b.source_id && a.observed_at_timestamp == b.observed_at_timestamp
}

fn same_operator(a: &Operator, b: &Operator) -> (r: bool)
    ensures
        r == (operator_view(*a) == operator_view(*b)),
{
    a.id == b.id && a.name == b.name && a.domain_schema == b.domain_schema && a.status == b.status && a.cost == b.cost
}

/// Two evidence maps hold the same keys with the same evidence.
pub open spec fn same_evidence_maps(a: Map<ORID, Evidence>, b: Map<ORID, Evidence>) -> bool {
    a.dom() == b.dom() && forall|k: ORID| #[trigger] a.contains_key(k) ==> evidence_view(a[k]) == evidence_view(b[k])
}

/// Two operator maps hold the same keys with the same operators.
pub open spec fn same_operator_maps(a: Map<ORID, Operator>, b: Map<ORID, Operator>) -> bool {
    a.dom() == b.dom() && forall|k: ORID| #[trigger] a.contains_key(k) ==> operator_view(a[k]) == operator_view(b[k])
}

fn evidence_maps_equal(a: &OridMap<Evidence>, b: &OridMap<Evidence>) -> (r: bool)
    ensures
        r == same_evidence_maps(a@, b@),
{
    proof {
        use_type_invariant(a);
        use_type_invariant(b);
        a.lemma_domain();
        b.lemma_domain();
    }
    if a.len() != b.len() {
        proof {
            if same_evidence_maps(a@, b@) {
                assert(a@.dom() == b@.dom());
            }
        }
        return false;
    }
    let n = a.len();
    let mut i: usize = 0;
    while i < n
        invariant
            n == a.entry_seq().len(),
            a@.len() == b@.len(),
            a.wf(),
            i <= n,
            forall|t: int|
                0 <= t < i ==> b@.contains_key(#[trigger] a.key_seq()[t]) && evidence_view(a@[a.key_seq()[t]]) == evidence_view(
                    b@[a.key_seq()[t]],
                ),
        decreases n - i,
    {
        let (k, v) = a.entry_at(i);
        proof {
            a.lemma_entry_lookup(i as int);
        }
        match b.get(k) {
            Some(w) => {
                if !same_evidence(v, w) {
                    return false;
                }
            },
            None => {
                return false;
            },
        }
        i = i + 1;
    }
    proof {
        a.lemma_domain();
        b.lemma_domain();
        assert forall|k: ORID| #[trigger] a@.contains_key(k) implies b@.contains_key(k) && evidence_view(a@[k]) == evidence_view(b@[k]) by {
            let t = a.key_seq().index_of(k);
            assert(a.key_seq()[t] == k);
        }
        assert(a@.dom().subset_of(b@.dom()));
        vstd::set_lib::lemma_subset_equality(a@.dom(), b@.dom());
    }
    true
}

fn operator_maps_equal(a: &OridMap<Operator>, b: &OridMap<Operator>) -> (r: bool)
    ensures
        r == same_operator_maps(a@, b@),
{
    proof {
        use_type_invariant(a);
        use_type_invariant(b);
        a.lemma_domain();
        b.lemma_domain();
    }
    if a.len() != b.len() {
        proof {
            if same_operator_maps(a@, b@) {
                assert(a@.dom() == b@.dom());
            }
        }
        return false;
    }
    let n = a.len();
    let mut i: usize = 0;
    while i < n
        invariant
            n == a.entry_seq().len(),
            a@.len() == b@.len(),
            a.wf(),
            i <= n,
            forall|t: int|
                0 <= t < i ==> b@.contains_key(#[trigger] a.key_seq()[t]) && operator_view(a@[a.key_seq()[t]]) == operator_view(
                    b@[a.key_seq()[t]],
                ),
        decreases n - i,
    {
        let (k, v) = a.entry_at(i);
        proof {
            a.lemma_entry_lookup(i as int);
        }
        match b.get(k) {
            Some(w) => {
                if !same_operator(v, w) {
                    return false;
                }
            },
            None => {
                return false;
            },
        }
        i = i + 1;
    }
    proof {
        a.lemma_domain();
        b.lemma_domain();
        assert forall|k: ORID| #[trigger] a@.contains_key(k) implies b@.contains_key(k) && operator_view(a@[k]) == operator_view(b@[k]) by {
            let t = a.key_seq().index_of(k);
            assert(a.key_seq()[t] == k);
        }
        assert(a@.dom().subset_of(b@.dom()));
        vstd::set_lib::lemma_subset_equality(a@.dom(), b@.dom());
    }
    true
}

/// `k`, a key of `ab`, holds a different claim in `ba` or none at all.
pub open spec fn claim_differs(ab: Map<ORID, Claim>, ba: Map<ORID, Claim>, k: ORID) -> bool {
    !ba.contains_key(k) || claim_view(ab[k]) != claim_view(ba[k])
}

/// How many of the first `m` keys in `keys` hold a claim of `ab` that differs in `ba`.
pub open spec fn changed_claims(keys: Seq<ORID>, ab: Map<ORID, Claim>, ba: Map<ORID, Claim>, m: int) -> nat
    decreases m,
{
    if m <= 0 {
        0
    } else {
        changed_claims(keys, ab, ba, m - 1) + if claim_differs(ab, ba, keys[m - 1]) {
            1nat
        } else {
            0nat
        }
    }
}

/// How many of the first `m` keys in `keys` are absent from `other`.
pub open spec fn missing_claims(keys: Seq<ORID>, other: Map<ORID, Claim>, m: int) -> nat
    decreases m,
{
    if m <= 0 {
        0
    } else {
        missing_claims(keys, other, m - 1) + if other.contains_key(keys[m - 1]) {
            0nat
        } else {
            1nat
        }
    }
}

/// The number of graph entries a budget allows to compare: its CPU steps, at least one.
pub open spec fn step_cap(budget: Budget) -> int {
    (if budget.cpu_steps_remaining > 1 {
        budget.cpu_steps_remaining
    } else {
        1u64
    }) as usize as int
}

/// The bytes a diagnostic is identified by: both operators' display text and the
/// number of differences, separated by `:`.
pub open spec fn interaction_seed(a: ORID, b: ORID, total: nat) -> Seq<u8> {
    orid_display(a) + seq![58u8] + orid_display(b) + seq![58u8] + dec_digits(total)
}

impl InteractionDiagnosticChecker {
    pub fn new() -> (c: Self)
        ensures
            c == InteractionDiagnosticChecker,
    {
        InteractionDiagnosticChecker
    }

    /// Compares the state reached by `a` then `b` with the state reached by
    /// `b` then `a`. The graph comparison walks the claims of the first state in
    /// key order and stops once the budget's steps are spent; the keys of the
    /// second state missing from the first are always counted. Evidence and
    /// operators count one difference each when their maps differ.
    pub fn evaluate_order_interaction(
        &self,
        op_a_id: ORID,
        op_b_id: ORID,
        fork_a_then_b: &CounterfactualFork,
        fork_b_then_a: &CounterfactualFork,
        budget: &Budget,
    ) -> (d: OrderInteractionDiagnostic)
        requires
            fork_a_then_b.fork_state.graph@.len() + fork_b_then_a.fork_state.graph@.len() + 2 <= usize::MAX,
        ensures
            ({
                let ab = fork_a_then_b.fork_state;
                let ba = fork_b_then_a.fork_state;
                let n = ab.graph.key_seq().len() as int;
                let cap = step_cap(*budget);
                let m = if n <= cap { n } else { cap };
                &&& d.tag == DiagnosticTag::OrderInteraction
                &&& d.operator_a_id == op_a_id
                &&& d.operator_b_id == op_b_id
                &&& d.evaluated_steps == m
                &&& d.budget_exhausted == (n > cap)
                &&& d.delta.graph_diff_count == changed_claims(ab.graph.key_seq(), ab.graph@, ba.graph@, m)
                    + missing_claims(ba.graph.key_seq(), ab.graph@, ba.graph.key_seq().len() as int)
                &&& d.delta.evidence_diff_count == (if same_evidence_maps(ab.evidence@, ba.evidence@) { 0int } else { 1int })
                &&& d.delta.operator_diff_count == (if same_operator_maps(ab.operators@, ba.operators@) { 0int } else { 1int })
                &&& d.delta.total_differences == d.delta.graph_diff_count + d.delta.evidence_diff_count
                    + d.delta.operator_diff_count
                &&& d.is_commutative == (d.delta.total_differences == 0)
                &&& is_orid_of(d.diagnostic_id, ObjectKind::Artifact, interaction_seed(op_a_id, op_b_id, d.delta.total_differences as nat))
            }),
    {
        let ab = &fork_a_then_b.fork_state.graph;
        let ba = &fork_b_then_a.fork_state.graph;
        proof {
            use_type_invariant(ab);
            use_type_invariant(ba);
            ab.lemma_domain();
            ba.lemma_domain();
        }
        let raw_cap: u64 = if budget.cpu_steps_remaining > 1 {
            budget.cpu_steps_remaining
        } else {
            1
        };
        let max_steps: usize = raw_cap as usize;
        let n = ab.len();
        let mut graph_diff: usize = 0;
        let mut steps_used: usize = 0;
        while steps_used < n && steps_used < max_steps
            invariant
                n == ab.key_seq().len(),
                n == ab.entry_seq().len(),
                ab.wf(),
                ba.wf(),
                steps_used <= n,
                steps_used <= max_steps,
                graph_diff == changed_claims(ab.key_seq(), ab@, ba@, steps_used as int),
                graph_diff <= steps_used,
            decreases n - steps_used,
        {
            let (k, v) = ab.entry_at(steps_used);
            proof {
                ab.lemma_entry_lookup(steps_used as int);
            }
            let differs = match ba.get(k) {
                Some(w) => !same_claim(v, w),
                None => true,
            };
            if differs {
                graph_diff = graph_diff + 1;
            }
            steps_used = steps_used + 1;
        }
        let budget_exhausted = steps_used < n;
        let ghost counted = graph_diff;
        let nb = ba.len();
        let mut i: usize = 0;
        while i < nb
            invariant
                nb == ba.key_seq().len(),
                nb == ba.entry_seq().len(),
                n + nb + 2 <= usize::MAX,
                ab.wf(),
                ba.wf(),
                i <= nb,
                counted <= steps_used <= n,
                graph_diff == counted + missing_claims(ba.key_seq(), ab@, i as int),
                graph_diff <= counted + i,
            decreases nb - i,
        {
            let (k, _) = ba.entry_at(i);
            proof {
                ba.lemma_entry_lookup(i as int);
            }
            if !ab.contains_key(k) {
                graph_diff = graph_diff + 1;
            }
            i = i + 1;
        }
        let state_ab = &fork_a_then_b.fork_state;
        let state_ba = &fork_b_then_a.fork_state;
        let evidence_diff: usize = if evidence_maps_equal(&state_ab.evidence, &state_ba.evidence) {
            0
        } else {
            1
        };
        let operator_diff: usize = if operator_maps_equal(&state_ab.operators, &state_ba.operators) {
            0
        } else {
            1
        };
        let total_diffs = graph_diff + evidence_diff + operator_diff;
        let delta = StateDelta {
            graph_diff_count: graph_diff,
            evidence_diff_count: evidence_diff,
            operator_diff_count: operator_diff,
            total_differences: total_diffs,
        };
        let is_commutative = delta.is_zero();
        let mut seed: Vec<u8> = Vec::new();
        op_a_id.push_display(&mut seed);
        seed.push(58u8);
        op_b_id.push_display(&mut seed);
        seed.push(58u8);
        push_decimal(total_diffs as u64, &mut seed);
        proof {
            assert(seed@ =~= interaction_seed(op_a_id, op_b_id, total_diffs as nat));
        }
        let diagnostic_id = ORID::compute(ObjectKind::Artifact, seed.as_slice());
        OrderInteractionDiagnostic {
            diagnostic_id,
            tag: DiagnosticTag::OrderInteraction,
            operator_a_id: op_a_id,
            operator_b_id: op_b_id,
            is_commutative,
            delta,
            evaluated_steps: steps_used,
            budget_exhausted,
        }
    }
}

proof fn lemma_no_changed_claims(keys: Seq<ORID>, ab: Map<ORID, Claim>, ba: Map<ORID, Claim>, m: int)
    requires
        0 <= m <= keys.len(),
        forall|t: int| 0 <= t < m ==> !claim_differs(ab, ba, #[trigger] keys[t]),
    ensures
        changed_claims(keys, ab, ba, m) == 0,
    decreases m,
{
    if m > 0 {
        lemma_no_changed_claims(keys, ab, ba, m - 1);
        assert(!claim_differs(ab, ba, keys[m - 1]));
    }
}

proof fn lemma_no_missing_claims(keys: Seq<ORID>, other: Map<ORID, Claim>, m: int)
    requires
        0 <= m <= keys.len(),
        forall|t: int| 0 <= t < m ==> other.contains_key(#[trigger] keys[t]),
    ensures
        missing_claims(keys, other, m) == 0,
    decreases m,
{
    if m > 0 {
        lemma_no_missing_claims(keys, other, m - 1);
        assert(other.contains_key(keys[m - 1]));
    }
}

/// Two copies of one state show no order interaction: however far the
/// comparison of claims goes, no claim differs, no key is missing on either
/// side, and the evidence and the operators agree. Compared by
/// `evaluate_order_interaction`, such forks count zero differences and are
/// reported commutative.
pub proof fn law_copies_of_one_state_commute(ab: State, ba: State, base: State)
    requires
        same_shape(ab, base),
        same_shape(ba, base),
        base.graph@.dom() == base.graph.key_seq().to_set(),
    ensures
        forall|m: int|
            0 <= m <= ab.graph.key_seq().len() ==> #[trigger] changed_claims(ab.graph.key_seq(), ab.graph@, ba.graph@, m)
                == 0,
        missing_claims(ba.graph.key_seq(), ab.graph@, ba.graph.key_seq().len() as int) == 0,
        same_evidence_maps(ab.evidence@, ba.evidence@),
        same_operator_maps(ab.operators@, ba.operators@),
{
    let keys = base.graph.key_seq();
    assert forall|t: int| 0 <= t < keys.len() implies !claim_differs(ab.graph@, ba.graph@, #[trigger] keys[t]) by {
        assert(keys.to_set().contains(keys[t]));
        assert(ab.graph@.contains_key(keys[t]));
        assert(ba.graph@.contains_key(keys[t]));
    }
    assert forall|m: int| 0 <= m <= ab.graph.key_seq().len() implies #[trigger] changed_claims(
        ab.graph.key_seq(),
        ab.graph@,
        ba.graph@,
        m,
    ) == 0 by {
        lemma_no_changed_claims(keys, ab.graph@, ba.graph@, m);
    }
    assert forall|t: int| 0 <= t < keys.len() implies ab.graph@.contains_key(#[trigger] keys[t]) by {
        assert(keys.to_set().contains(keys[t]));
    }
    lemma_no_missing_claims(keys, ab.graph@, keys.len() as int);
}

} // verus!
