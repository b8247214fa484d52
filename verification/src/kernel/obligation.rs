//! Verification obligations: explicit typed contracts that a claim can never
//! discharge by pointing at itself.

use vstd::prelude::*;
use crate::kernel::omap::OridMap;
use crate::kernel::orid::ORID;
use crate::kernel::reach::{adj_edge, has_cycle, lemma_cycle_iff, reached_from, reaches, reaches_any};

verus! {

#[derive(Debug, Clone, Copy, PartialEq, Eq, Hash, Structural)]
pub enum ObligationKind {
    SourceRequired,
    IndependentSource,
    Execution,
    Proof,
    Intervention,
    Freshness,
    HumanApproval,
}

#[derive(Debug, Clone, PartialEq, Eq, Structural)]
pub enum ObligationError {
    SelfSatisfactionProhibited,
    Expired,
    UnresolvedDependencies,
}

#[derive(Debug, Clone, PartialEq, Eq)]
pub struct TypedObligation {
    pub id: ORID,
    pub target_claim: ORID,
    pub kind: ObligationKind,
    pub expires_at: u64,
    pub is_resolved: bool,
    pub discharge_witness: Option<ORID>,
}

/// An expiry of zero means the obligation never expires.
pub open spec fn is_expired(expires_at: u64, now: u64) -> bool {
    expires_at > 0 && now > expires_at
}

/// What a discharge attempt with `witness` at time `now` answers.
pub open spec fn discharge_outcome(ob: TypedObligation, witness: ORID, now: u64) -> Result<(), ObligationError> {
    if witness == ob.target_claim {
        Err(ObligationError::SelfSatisfactionProhibited)
    } else if is_expired(ob.expires_at, now) {
        Err(ObligationError::Expired)
    } else {
        Ok(())
    }
}

/// The obligation after a successful discharge with `witness`.
pub open spec fn discharged(ob: TypedObligation, witness: ORID) -> TypedObligation {
    TypedObligation { is_resolved: true, discharge_witness: Some(witness), ..ob }
}

/// Resolved and not expired at `now`.
pub open spec fn fresh(ob: TypedObligation, now: u64) -> bool {
    ob.is_resolved && !is_expired(ob.expires_at, now)
}

impl TypedObligation {
    pub fn new(id: ORID, target_claim: ORID, kind: ObligationKind, expires_at: u64) -> (ob: Self)
        ensures
            ob == (TypedObligation { id, target_claim, kind, expires_at, is_resolved: false, discharge_witness: None }),
    {
        TypedObligation { id, target_claim, kind, expires_at, is_resolved: false, discharge_witness: None }
    }

    /// Discharges the obligation with an explicit witness. The claim itself is
    /// never accepted as its own witness, and an expired obligation cannot be
    /// discharged; a refused attempt leaves the obligation as it was.
    pub fn discharge(&mut self, witness_orid: ORID, current_time: u64) -> (r: Result<(), ObligationError>)
        ensures
            r == discharge_outcome(*old(self), witness_orid, current_time),
            r is Ok ==> *final(self) == discharged(*old(self), witness_orid),
            r is Err ==> *final(self) == *old(self),
    {
        if witness_orid == self.target_claim {
            return Err(ObligationError::SelfSatisfactionProhibited);
        }
        if self.expires_at > 0 && current_time > self.expires_at {
            return Err(ObligationError::Expired);
        }
        self.is_resolved = true;
        self.discharge_witness = Some(witness_orid);
        Ok(())
    }

    /// Whether the obligation is resolved and not expired at `current_time`.
    pub fn is_valid_and_fresh(&self, current_time: u64) -> (b: bool)
        ensures
            b == fresh(*self, current_time),
    {
        if !self.is_resolved {
            return false;
        }
        if self.expires_at > 0 && current_time > self.expires_at {
            return false;
        }
        true
    }
}

/// A successful discharge leaves the obligation valid at the time of discharge,
/// resolved by a witness other than its own claim.
pub proof fn law_discharge_resolves_with_external_witness(ob: TypedObligation, witness: ORID, now: u64)
    requires
        discharge_outcome(ob, witness, now) is Ok,
    ensures
        fresh(discharged(ob, witness), now),
        discharged(ob, witness).discharge_witness != Some(ob.target_claim),
{
}

/// Naming the target claim as witness is refused whatever the time and state.
pub proof fn law_self_satisfaction_always_refused(ob: TypedObligation, now: u64)
    ensures
        discharge_outcome(ob, ob.target_claim, now) == Err::<(), ObligationError>(
            ObligationError::SelfSatisfactionProhibited,
        ),
{
}

/// An obligation that is fresh at some time is not fresh after its expiry.
pub proof fn law_expiry_invalidates(ob: TypedObligation, now: u64, later: u64)
    requires
        ob.expires_at > 0,
        later > ob.expires_at,
    ensures
        !fresh(ob, later),
{
}

/// Whether the dependency graph between obligations has a cycle.
pub fn detect_obligation_cycles(dependencies: &OridMap<Vec<ORID>>) -> (b: bool)
    ensures
        b == has_cycle(dependencies@),
{
    let ghost g = dependencies@;
    proof {
        use_type_invariant(dependencies);
        dependencies.lemma_domain();
        lemma_cycle_iff(g);
    }
    let keys = dependencies.keys();
    let mut i: usize = 0;
    while i < keys.len()
        invariant
            g == dependencies@,
            keys@ == dependencies.key_seq(),
            g.dom() == keys@.to_set(),
            i <= keys@.len(),
            forall|t: int| 0 <= t < i ==> !reached_from(g, g[#[trigger] keys@[t]]@, keys@[t]),
        decreases keys@.len() - i,
    {
        let k = keys[i];
        proof {
            assert(keys@.to_set().contains(k));
        }
        let succ = dependencies.get(&k).unwrap();
        if reaches_any(dependencies, succ.as_slice(), &k) {
            proof {
                assert(reached_from(g, succ@, k));
                let n = choose|n: ORID| #[trigger] succ@.contains(n) && reaches(g, n, k);
                assert(adj_edge(g, k, n));
                assert(adj_edge(g, k, n) && reaches(g, n, k));
                lemma_cycle_iff(g);
            }
            return true;
        }
        i = i + 1;
    }
    proof {
        assert forall|k: ORID, n: ORID| #[trigger] adj_edge(g, k, n) implies !reaches(g, n, k) by {
            assert(keys@.to_set().contains(k));
            let t = choose|t: int| 0 <= t < keys@.len() && keys@[t] == k;
            assert(!reached_from(g, g[keys@[t]]@, keys@[t]));
            assert(g[k]@.contains(n));
        }
    }
    false
}

} // verus!
