//! The authoritative state S = (G, C, E, U, O, B, Z) and its transactions.
//!
//! A transaction collects pending objects on top of a base state; committing
//! applies them in order (a later object with the same id replaces an earlier
//! one), rolling back returns the base state untouched.

use vstd::prelude::*;
use crate::kernel::object::{claim_view, obligation_view, Claim, Evidence, Obligation, Operator};
use crate::kernel::omap::OridMap;
use crate::kernel::orid::ORID;

verus! {

pub const CURRENT_SCHEMA_VERSION: u32 = 0;

#[derive(Debug, Clone, Default, PartialEq, Eq)]
pub struct Budget {
    pub cpu_steps_remaining: u64,
    pub wall_time_ms_limit: u64,
    pub max_allocations: u64,
}

#[derive(Debug)]
pub struct State {
    pub schema_version: u32,
    pub graph: OridMap<Claim>,
    pub constraints: Vec<u8>,
    pub evidence: OridMap<Evidence>,
    pub operators: OridMap<Operator>,
    pub obligations: OridMap<Obligation>,
    pub budget: Budget,
    pub artifacts: OridMap<Vec<u8>>,
}

impl State {
    pub fn new() -> (s: State)
        ensures
            s.schema_version == CURRENT_SCHEMA_VERSION,
            s.graph@ == Map::<ORID, Claim>::empty(),
            s.graph.key_seq().len() == 0,
            s.constraints@.len() == 0,
            s.evidence@ == Map::<ORID, Evidence>::empty(),
            s.operators@ == Map::<ORID, Operator>::empty(),
            s.obligations@ == Map::<ORID, Obligation>::empty(),
            s.budget == (Budget { cpu_steps_remaining: 0, wall_time_ms_limit: 0, max_allocations: 0 }),
            s.artifacts@ == Map::<ORID, Vec<u8>>::empty(),
    {
        State {
            schema_version: CURRENT_SCHEMA_VERSION,
            graph: OridMap::new(),
            constraints: Vec::new(),
            evidence: OridMap::new(),
            operators: OridMap::new(),
            obligations: OridMap::new(),
            budget: Budget { cpu_steps_remaining: 0, wall_time_ms_limit: 0, max_allocations: 0 },
            artifacts: OridMap::new(),
        }
    }

    pub fn is_schema_valid(&self) -> (b: bool)
        ensures
            b == (self.schema_version == CURRENT_SCHEMA_VERSION),
    {
        self.schema_version == CURRENT_SCHEMA_VERSION
    }
}

impl Clone for State {
    /// A copy holding the same scalars, the same constraint bytes, and maps with
    /// the same keys in the same order; claims, evidence and operators are copied
    /// exactly.
    fn clone(&self) -> (c: Self)
        ensures
            forall|k: ORID| #[trigger] c.graph@.contains_key(k) ==> claim_view(c.graph@[k]) == claim_view(self.graph@[k]),
            c.evidence@ == self.evidence@,
            c.operators@ == self.operators@,
            c.schema_version == self.schema_version,
            c.constraints@ == self.constraints@,
            c.budget == self.budget,
            c.graph.key_seq() == self.graph.key_seq(),
            c.graph@.dom() == self.graph@.dom(),
            c.evidence.key_seq() == self.evidence.key_seq(),
            c.evidence@.dom() == self.evidence@.dom(),
            c.operators.key_seq() == self.operators.key_seq(),
            c.operators@.dom() == self.operators@.dom(),
            c.obligations.key_seq() == self.obligations.key_seq(),
            c.obligations@.dom() == self.obligations@.dom(),
            forall|k: ORID| #[trigger] c.obligations@.contains_key(k) ==> obligation_view(c.obligations@[k]) == obligation_view(
                self.obligations@[k],
            ),
            c.artifacts.key_seq() == self.artifacts.key_seq(),
            c.artifacts@.dom() == self.artifacts@.dom(),
            forall|k: ORID| #[trigger] c.artifacts@.contains_key(k) ==> c.artifacts@[k]@ == self.artifacts@[k]@,
    {
        let c = State {
            schema_version: self.schema_version,
            graph: self.graph.clone(),
            constraints: self.constraints.clone(),
            evidence: self.evidence.clone(),
            operators: self.operators.clone(),
            obligations: self.obligations.clone(),
            budget: Budget {
                cpu_steps_remaining: self.budget.cpu_steps_remaining,
                wall_time_ms_limit: self.budget.wall_time_ms_limit,
                max_allocations: self.budget.max_allocations,
            },
            artifacts: self.artifacts.clone(),
        };
        assert(c.evidence@ =~= self.evidence@);
        assert(c.operators@ =~= self.operators@);
        assert forall|k: ORID| #[trigger] c.artifacts@.contains_key(k) implies c.artifacts@[k]@ == self.artifacts@[k]@ by {
            assert(cloned::<Vec<u8>>(self.artifacts@[k], c.artifacts@[k]));
            assert(c.artifacts@[k]@ =~= self.artifacts@[k]@);
        }
        c
    }
}

impl Default for State {
    fn default() -> (s: State)
        ensures
            s.schema_version == CURRENT_SCHEMA_VERSION,
            s.graph@ == Map::<ORID, Claim>::empty(),
    {
        State::new()
    }
}

/// `m` with each item inserted in order under the key `key` gives it.
pub open spec fn insert_all<V>(m: Map<ORID, V>, items: Seq<V>, key: spec_fn(V) -> ORID) -> Map<ORID, V>
    decreases items.len(),
{
    if items.len() == 0 {
        m
    } else {
        insert_all(m, items.drop_last(), key).insert(key(items.last()), items.last())
    }
}

/// `m` with each (key, value) pair inserted in order.
pub open spec fn insert_pairs<V>(m: Map<ORID, V>, items: Seq<(ORID, V)>) -> Map<ORID, V>
    decreases items.len(),
{
    if items.len() == 0 {
        m
    } else {
        insert_pairs(m, items.drop_last()).insert(items.last().0, items.last().1)
    }
}

pub open spec fn claim_key(c: Claim) -> ORID {
    c.id
}

pub open spec fn evidence_key(e: Evidence) -> ORID {
    e.id
}

pub open spec fn operator_key(o: Operator) -> ORID {
    o.id
}

pub open spec fn obligation_key(o: Obligation) -> ORID {
    o.id
}

#[derive(Debug, Clone)]
pub struct StateTxn {
    pub base_state: State,
    pub pending_claims: Vec<Claim>,
    pub pending_evidence: Vec<Evidence>,
    pub pending_operators: Vec<Operator>,
    pub pending_obligations: Vec<Obligation>,
    pub pending_artifacts: Vec<(ORID, Vec<u8>)>,
}

#[derive(Debug, Clone, PartialEq, Eq, Structural)]
pub enum TxnError {
    SchemaVersionMismatch { expected: u32, found: u32 },
    BudgetExhausted,
}

/// What committing `txn` yields: the base state with every pending object
/// inserted in order, or a schema mismatch when the base state's schema is not current.
pub open spec fn commits_to(txn: StateTxn, s: State) -> bool {
    &&& s.schema_version == txn.base_state.schema_version
    &&& s.constraints == txn.base_state.constraints
    &&& s.budget == txn.base_state.budget
    &&& s.graph@ == insert_all(txn.base_state.graph@, txn.pending_claims@, |c: Claim| claim_key(c))
    &&& s.evidence@ == insert_all(txn.base_state.evidence@, txn.pending_evidence@, |e: Evidence| evidence_key(e))
    &&& s.operators@ == insert_all(txn.base_state.operators@, txn.pending_operators@, |o: Operator| operator_key(o))
    &&& s.obligations@ == insert_all(txn.base_state.obligations@, txn.pending_obligations@, |o: Obligation| obligation_key(o))
    &&& s.artifacts@ == insert_pairs(txn.base_state.artifacts@, txn.pending_artifacts@)
}

fn insert_claims(m: &mut OridMap<Claim>, items: Vec<Claim>)
    ensures
        final(m)@ == insert_all(old(m)@, items@, |c: Claim| claim_key(c)),
{
    let ghost all = items@;
    let ghost start = m@;
    for c in it: items.into_iter()
        invariant
            all == it.seq(),
            m@ == insert_all(start, it.seq().take(it.index()), |c: Claim| claim_key(c)),
    {
        let ghost i = it.index();
        assert(it.seq().take(i + 1).drop_last() =~= it.seq().take(i));
        let k = c.id;
        m.insert(k, c);
    }
    assert(all.take(all.len() as int) =~= all);
}

fn insert_evidence(m: &mut OridMap<Evidence>, items: Vec<Evidence>)
    ensures
        final(m)@ == insert_all(old(m)@, items@, |e: Evidence| evidence_key(e)),
{
    let ghost all = items@;
    let ghost start = m@;
    for e in it: items.into_iter()
        invariant
            all == it.seq(),
            m@ == insert_all(start, it.seq().take(it.index()), |e: Evidence| evidence_key(e)),
    {
        let ghost i = it.index();
        assert(it.seq().take(i + 1).drop_last() =~= it.seq().take(i));
        let k = e.id;
        m.insert(k, e);
    }
    assert(all.take(all.len() as int) =~= all);
}

fn insert_operators(m: &mut OridMap<Operator>, items: Vec<Operator>)
    ensures
        final(m)@ == insert_all(old(m)@, items@, |o: Operator| operator_key(o)),
{
    let ghost all = items@;
    let ghost start = m@;
    for o in it: items.into_iter()
        invariant
            all == it.seq(),
            m@ == insert_all(start, it.seq().take(it.index()), |o: Operator| operator_key(o)),
    {
        let ghost i = it.index();
        assert(it.seq().take(i + 1).drop_last() =~= it.seq().take(i));
        let k = o.id;
        m.insert(k, o);
    }
    assert(all.take(all.len() as int) =~= all);
}

fn insert_obligations(m: &mut OridMap<Obligation>, items: Vec<Obligation>)
    ensures
        final(m)@ == insert_all(old(m)@, items@, |o: Obligation| obligation_key(o)),
{
    let ghost all = items@;
    let ghost start = m@;
    for o in it: items.into_iter()
        invariant
            all == it.seq(),
            m@ == insert_all(start, it.seq().take(it.index()), |o: Obligation| obligation_key(o)),
    {
        let ghost i = it.index();
        assert(it.seq().take(i + 1).drop_last() =~= it.seq().take(i));
        let k = o.id;
        m.insert(k, o);
    }
    assert(all.take(all.len() as int) =~= all);
}

fn insert_artifacts(m: &mut OridMap<Vec<u8>>, items: Vec<(ORID, Vec<u8>)>)
    ensures
        final(m)@ == insert_pairs(old(m)@, items@),
{
    let ghost all = items@;
    let ghost start = m@;
    for p in it: items.into_iter()
        invariant
            all == it.seq(),
            m@ == insert_pairs(start, it.seq().take(it.index())),
    {
        let ghost i = it.index();
        assert(it.seq().take(i + 1).drop_last() =~= it.seq().take(i));
        let (k, v) = p;
        m.insert(k, v);
    }
    assert(all.take(all.len() as int) =~= all);
}

impl StateTxn {
    pub fn new(base: State) -> (t: StateTxn)
        ensures
            t.base_state == base,
            t.pending_claims@.len() == 0,
            t.pending_evidence@.len() == 0,
            t.pending_operators@.len() == 0,
            t.pending_obligations@.len() == 0,
            t.pending_artifacts@.len() == 0,
    {
        StateTxn {
            base_state: base,
            pending_claims: Vec::new(),
            pending_evidence: Vec::new(),
            pending_operators: Vec::new(),
            pending_obligations: Vec::new(),
            pending_artifacts: Vec::new(),
        }
    }

    pub fn add_claim(&mut self, claim: Claim)
        ensures
            final(self).pending_claims@ == old(self).pending_claims@.push(claim),
            final(self).base_state == old(self).base_state,
            final(self).pending_evidence == old(self).pending_evidence,
            final(self).pending_operators == old(self).pending_operators,
            final(self).pending_obligations == old(self).pending_obligations,
            final(self).pending_artifacts == old(self).pending_artifacts,
    {
        self.pending_claims.push(claim);
    }

    pub fn add_evidence(&mut self, evidence: Evidence)
        ensures
            final(self).pending_evidence@ == old(self).pending_evidence@.push(evidence),
            final(self).base_state == old(self).base_state,
            final(self).pending_claims == old(self).pending_claims,
            final(self).pending_operators == old(self).pending_operators,
            final(self).pending_obligations == old(self).pending_obligations,
            final(self).pending_artifacts == old(self).pending_artifacts,
    {
        self.pending_evidence.push(evidence);
    }

    pub fn add_operator(&mut self, operator: Operator)
        ensures
            final(self).pending_operators@ == old(self).pending_operators@.push(operator),
            final(self).base_state == old(self).base_state,
            final(self).pending_claims == old(self).pending_claims,
            final(self).pending_evidence == old(self).pending_evidence,
            final(self).pending_obligations == old(self).pending_obligations,
            final(self).pending_artifacts == old(self).pending_artifacts,
    {
        self.pending_operators.push(operator);
    }

    pub fn add_obligation(&mut self, obligation: Obligation)
        ensures
            final(self).pending_obligations@ == old(self).pending_obligations@.push(obligation),
            final(self).base_state == old(self).base_state,
            final(self).pending_claims == old(self).pending_claims,
            final(self).pending_evidence == old(self).pending_evidence,
            final(self).pending_operators == old(self).pending_operators,
            final(self).pending_artifacts == old(self).pending_artifacts,
    {
        self.pending_obligations.push(obligation);
    }

    pub fn add_artifact(&mut self, id: ORID, data: Vec<u8>)
        ensures
            final(self).pending_artifacts@ == old(self).pending_artifacts@.push((id, data)),
            final(self).base_state == old(self).base_state,
            final(self).pending_claims == old(self).pending_claims,
            final(self).pending_evidence == old(self).pending_evidence,
            final(self).pending_operators == old(self).pending_operators,
            final(self).pending_obligations == old(self).pending_obligations,
    {
        self.pending_artifacts.push((id, data));
    }

    /// Applies the pending objects to the base state, unless its schema version is not current.
    pub fn commit(self) -> (res: Result<State, TxnError>)
        ensures
            self.base_state.schema_version != CURRENT_SCHEMA_VERSION ==> res == Err::<State, TxnError>(
                TxnError::SchemaVersionMismatch {
                    expected: CURRENT_SCHEMA_VERSION,
                    found: self.base_state.schema_version,
                },
            ),
            self.base_state.schema_version == CURRENT_SCHEMA_VERSION ==> (res matches Ok(s) && commits_to(self, s)),
    {
        if !self.base_state.is_schema_valid() {
            return Err(
                TxnError::SchemaVersionMismatch {
                    expected: CURRENT_SCHEMA_VERSION,
                    found: self.base_state.schema_version,
                },
            );
        }
        let ghost txn = self;
        let StateTxn {
            base_state,
            pending_claims,
            pending_evidence,
            pending_operators,
            pending_obligations,
            pending_artifacts,
        } = self;
        let mut state = base_state;
        insert_claims(&mut state.graph, pending_claims);
        insert_evidence(&mut state.evidence, pending_evidence);
        insert_operators(&mut state.operators, pending_operators);
        insert_obligations(&mut state.obligations, pending_obligations);
        insert_artifacts(&mut state.artifacts, pending_artifacts);
        Ok(state)
    }

    /// Discards the pending objects and returns the base state unchanged.
    pub fn rollback(self) -> (s: State)
        ensures
            s == self.base_state,
    {
        self.base_state
    }
}

/// Rolling back discards whatever was added: along any run of a transaction
/// in which each step keeps the base state, as every `add_*` call does, the
/// state that `rollback` returns at the end is the base it began with.
pub proof fn law_rollback_discards_pending(run: Seq<StateTxn>, base: State)
    requires
        run.len() >= 1,
        run[0].base_state == base,
        forall|i: int| 0 <= i < run.len() - 1 ==> (#[trigger] run[i + 1]).base_state == run[i].base_state,
    ensures
        run.last().base_state == base,
    decreases run.len(),
{
    if run.len() > 1 {
        let d = run.drop_last();
        assert forall|i: int| 0 <= i < d.len() - 1 implies (#[trigger] d[i + 1]).base_state == d[i].base_state by {
            assert(d[i + 1] == run[i + 1]);
        }
        law_rollback_discards_pending(d, base);
        let i = run.len() - 2;
        assert(run[i + 1].base_state == run[i].base_state);
    }
}

/// Committing a transaction with nothing pending yields the base state's contents.
pub proof fn law_empty_commit_is_identity(txn: StateTxn, s: State)
    requires
        txn.pending_claims@.len() == 0,
        txn.pending_evidence@.len() == 0,
        txn.pending_operators@.len() == 0,
        txn.pending_obligations@.len() == 0,
        txn.pending_artifacts@.len() == 0,
        commits_to(txn, s),
    ensures
        s.graph@ == txn.base_state.graph@,
        s.evidence@ == txn.base_state.evidence@,
        s.operators@ == txn.base_state.operators@,
        s.obligations@ == txn.base_state.obligations@,
        s.artifacts@ == txn.base_state.artifacts@,
{
}

/// After a commit, every pending claim's id is present, and it maps to the last
/// pending claim with that id.
pub proof fn law_commit_read_back(base: Map<ORID, Claim>, items: Seq<Claim>, i: int)
    requires
        0 <= i < items.len(),
        forall|j: int| i < j < items.len() ==> #[trigger] items[j].id != items[i].id,
    ensures
        insert_all(base, items, |c: Claim| claim_key(c)).contains_key(items[i].id),
        insert_all(base, items, |c: Claim| claim_key(c))[items[i].id] == items[i],
    decreases items.len(),
{
    if i < items.len() - 1 {
        let shorter = items.drop_last();
        assert forall|j: int| i < j < shorter.len() implies #[trigger] shorter[j].id != shorter[i].id by {
            assert(shorter[j] == items[j]);
        }
        law_commit_read_back(base, shorter, i);
        assert(items.last() == items[items.len() - 1]);
    }
}

} // verus!
