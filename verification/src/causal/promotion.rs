//! Causal status promotion with witnesses: each promotion follows one of a few
//! allowed steps under a witness of the matching kind, and retracting an
//! assumption reverts the promotion that rested on it.

use vstd::prelude::*;
use crate::causal::operator::CausalOperator;
use crate::kernel::causal_status::{CausalError, CausalStatus, CausalWitness, CausalWitnessKind};
use crate::kernel::omap::OridMap;
use crate::kernel::orid::ORID;

verus! {

#[derive(Debug, Clone, PartialEq, Eq)]
pub struct PromotionRecord {
    pub operator_id: ORID,
    pub previous_status: CausalStatus,
    pub current_status: CausalStatus,
    pub witness: CausalWitness,
    pub active_assumptions: Vec<String>,
}

#[derive(Debug, Clone)]
pub struct CausalPromotionValidator {
    pub records: OridMap<PromotionRecord>,
}

/// The allowed promotion steps, each under a witness of one kind and with provenance.
pub open spec fn transition_supported(from: CausalStatus, to: CausalStatus, w: CausalWitness) -> bool {
    &&& w.provenance_roots@.len() > 0
    &&& match (from, to, w.kind) {
        (CausalStatus::Observational, CausalStatus::AssumedCausal, CausalWitnessKind::Assumption) => w.assumptions@.len() > 0,
        (CausalStatus::Observational, CausalStatus::Interventional, CausalWitnessKind::Intervention) => true,
        (CausalStatus::AssumedCausal, CausalStatus::Mechanistic, CausalWitnessKind::MechanisticDerivation) => true,
        (CausalStatus::Interventional, CausalStatus::VerifiedCausal, CausalWitnessKind::MechanisticDerivation) => true,
        (CausalStatus::Mechanistic, CausalStatus::VerifiedCausal, CausalWitnessKind::Intervention) => true,
        _ => false,
    }
}

/// The outcome of a promotion request from `current` to `target` under `w`.
pub open spec fn promotion_outcome(current: CausalStatus, target: CausalStatus, w: CausalWitness) -> Result<CausalStatus, CausalError> {
    if w.provenance_roots@.len() == 0 {
        Err(CausalError::MissingProvenance)
    } else if target == CausalStatus::VerifiedCausal && w.kind != CausalWitnessKind::Intervention && w.kind
        != CausalWitnessKind::MechanisticDerivation {
        Err(CausalError::IllegalPromotion)
    } else if !transition_supported(current, target, w) {
        Err(CausalError::IllegalPromotion)
    } else {
        Ok(target)
    }
}

/// The names of a list of strings.
pub open spec fn names(s: Seq<String>) -> Seq<Seq<char>> {
    s.map_values(|x: String| x@)
}

impl Default for CausalPromotionValidator {
    fn default() -> (v: Self)
        ensures
            v.records@ == Map::<ORID, PromotionRecord>::empty(),
    {
        CausalPromotionValidator { records: OridMap::new() }
    }
}

impl CausalPromotionValidator {
    pub fn new() -> (v: CausalPromotionValidator)
        ensures
            v.records@ == Map::<ORID, PromotionRecord>::empty(),
    {
        CausalPromotionValidator { records: OridMap::new() }
    }

    /// Whether the witness supports the step from `from` to `to`.
    pub fn supports_transition(&self, from: CausalStatus, to: CausalStatus, witness: &CausalWitness) -> (b: bool)
        ensures
            b == transition_supported(from, to, *witness),
    {
        if witness.provenance_roots.len() == 0 {
            return false;
        }
        match (from, to, witness.kind) {
            (CausalStatus::Observational, CausalStatus::AssumedCausal, CausalWitnessKind::Assumption) => witness.assumptions.len()
                > 0,
            (CausalStatus::Observational, CausalStatus::Interventional, CausalWitnessKind::Intervention) => true,
            (CausalStatus::AssumedCausal, CausalStatus::Mechanistic, CausalWitnessKind::MechanisticDerivation) => true,
            (CausalStatus::Interventional, CausalStatus::VerifiedCausal, CausalWitnessKind::MechanisticDerivation) => true,
            (CausalStatus::Mechanistic, CausalStatus::VerifiedCausal, CausalWitnessKind::Intervention) => true,
            _ => false,
        }
    }

    /// Promotes the operator to `target_status` when the witness allows the step,
    /// recording the previous status and the assumptions the promotion rests on.
    pub fn validate_and_promote(
        &mut self,
        operator: &mut CausalOperator,
        target_status: CausalStatus,
        witness: CausalWitness,
    ) -> (res: Result<CausalStatus, CausalError>)
        ensures
            res == promotion_outcome(old(operator).status, target_status, witness),
            res is Err ==> *final(operator) == *old(operator) && final(self).records@ == old(self).records@,
            res is Ok ==> {
                &&& *final(operator) == (CausalOperator { status: target_status, ..*old(operator) })
                &&& final(self).records@.dom() == old(self).records@.dom().insert(old(operator).id)
                &&& forall|k: ORID| k != old(operator).id && #[trigger] old(self).records@.contains_key(k) ==> final(self).records@[k]
                    == old(self).records@[k]
                &&& ({
                    let r = final(self).records@[old(operator).id];
                    &&& r.operator_id == old(operator).id
                    &&& r.previous_status == old(operator).status
                    &&& r.current_status == target_status
                    &&& r.witness == witness
                    &&& names(r.active_assumptions@).no_duplicates()
                    &&& names(r.active_assumptions@).to_set() == names(witness.assumptions@).to_set()
                })
            },
    {
        if witness.provenance_roots.len() == 0 {
            return Err(CausalError::MissingProvenance);
        }
        let current = operator.status;
        if target_status == CausalStatus::VerifiedCausal && witness.kind != CausalWitnessKind::Intervention && witness.kind
            != CausalWitnessKind::MechanisticDerivation {
            return Err(CausalError::IllegalPromotion);
        }
        if !self.supports_transition(current, target_status, &witness) {
            return Err(CausalError::IllegalPromotion);
        }
        let mut assumptions: Vec<String> = Vec::new();
        let mut i: usize = 0;
        while i < witness.assumptions.len()
            invariant
                i <= witness.assumptions@.len(),
                names(assumptions@).no_duplicates(),
                names(assumptions@).to_set() == names(witness.assumptions@.subrange(0, i as int)).to_set(),
            decreases witness.assumptions@.len() - i,
        {
            let a = &witness.assumptions[i];
            let mut seen = false;
            let mut k: usize = 0;
            while k < assumptions.len()
                invariant
                    k <= assumptions@.len(),
                    seen == exists|j: int| 0 <= j < k && (#[trigger] assumptions@[j])@ == a@,
                decreases assumptions@.len() - k,
            {
                if assumptions[k] == *a {
                    seen = true;
                }
                k = k + 1;
            }
            let ghost n0 = names(assumptions@);
            if !seen {
                assumptions.push(a.clone());
            }
            proof {
                let pre = witness.assumptions@.subrange(0, i as int);
                let post = witness.assumptions@.subrange(0, i + 1);
                assert(names(post) =~= names(pre).push(a@));
                lemma_push_set(names(pre), a@);
                let n1 = names(assumptions@);
                if seen {
                    let j = choose|j: int| 0 <= j < k && (#[trigger] assumptions@[j])@ == a@;
                    assert(n0[j] == a@);
                    assert(n0.contains(a@));
                    assert(n1.to_set() =~= n0.to_set().insert(a@));
                } else {
                    assert(n1 =~= n0.push(a@));
                    lemma_push_set(n0, a@);
                    assert forall|x: int, y: int| 0 <= x < y < n1.len() implies n1[x] != n1[y] by {
                        if y == n1.len() - 1 {
                            assert(n1[x] == n0[x]);
                            assert(assumptions@[x]@ == n0[x]);
                        } else {
                            assert(n1[x] == n0[x] && n1[y] == n0[y]);
                        }
                    }
                }
            }
            i = i + 1;
        }
        proof {
            assert(witness.assumptions@.subrange(0, i as int) =~= witness.assumptions@);
        }
        let id = operator.id;
        let record = PromotionRecord {
            operator_id: id,
            previous_status: current,
            current_status: target_status,
            witness,
            active_assumptions: assumptions,
        };
        self.records.insert(id, record);
        operator.status = target_status;
        proof {
            assert(self.records@.dom() =~= old(self).records@.dom().insert(id));
        }
        Ok(target_status)
    }

    /// Retracts an assumption: when the operator's recorded promotion rests on
    /// it, the record is removed and the operator returns to its previous status.
    pub fn retract_assumption(&mut self, assumption: &str, operator: &mut CausalOperator) -> (b: bool)
        ensures
            b == (old(self).records@.contains_key(old(operator).id) && names(
                old(self).records@[old(operator).id].active_assumptions@,
            ).contains(assumption@)),
            b ==> final(self).records@ == old(self).records@.remove(old(operator).id) && *final(operator) == (CausalOperator {
                status: old(self).records@[old(operator).id].previous_status,
                ..*old(operator)
            }),
            !b ==> final(self).records@ == old(self).records@ && *final(operator) == *old(operator),
    {
        let mut invalidated = false;
        let target = assumption.to_owned();
        match self.records.get(&operator.id) {
            Some(record) => {
                let mut k: usize = 0;
                while k < record.active_assumptions.len()
                    invariant
                        k <= record.active_assumptions@.len(),
                        target@ == assumption@,
                        invalidated == exists|j: int| 0 <= j < k && (#[trigger] record.active_assumptions@[j])@ == assumption@,
                    decreases record.active_assumptions@.len() - k,
                {
                    if record.active_assumptions[k] == target {
                        invalidated = true;
                    }
                    k = k + 1;
                }
                proof {
                    let n = names(record.active_assumptions@);
                    if invalidated {
                        let j = choose|j: int| 0 <= j < k && (#[trigger] record.active_assumptions@[j])@ == assumption@;
                        assert(n[j] == assumption@);
                    }
                    if n.contains(assumption@) {
                        let j = choose|j: int| 0 <= j < n.len() && n[j] == assumption@;
                        assert(record.active_assumptions@[j]@ == assumption@);
                    }
                }
            },
            None => {},
        }
        if invalidated {
            match self.records.remove(&operator.id) {
                Some(record) => {
                    operator.status = record.previous_status;
                },
                None => {
                    operator.status = CausalStatus::Observational;
                },
            }
        }
        invalidated
    }
}

proof fn lemma_push_set(s: Seq<Seq<char>>, x: Seq<char>)
    ensures
        s.push(x).to_set() == s.to_set().insert(x),
{
    assert forall|y: Seq<char>| #[trigger] s.push(x).to_set().contains(y) <==> s.to_set().insert(x).contains(y) by {
        if s.push(x).contains(y) && y != x {
            let t = choose|t: int| 0 <= t < s.push(x).len() && s.push(x)[t] == y;
            assert(s[t] == y);
        }
        if s.contains(y) {
            let t = choose|t: int| 0 <= t < s.len() && s[t] == y;
            assert(s.push(x)[t] == y);
        }
        if y == x {
            assert(s.push(x)[s.len() as int] == x);
        }
    }
    assert(s.push(x).to_set() =~= s.to_set().insert(x));
}

/// No single supported step reaches a verified causal status from an
/// observational or merely assumed one.
pub proof fn law_no_shortcut_to_verified(from: CausalStatus, w: CausalWitness)
    requires
        from == CausalStatus::Observational || from == CausalStatus::AssumedCausal,
    ensures
        !transition_supported(from, CausalStatus::VerifiedCausal, w),
{
}

/// A promotion to a verified causal status always rests on an intervention or
/// mechanistic witness with provenance.
pub proof fn law_verified_needs_witness(current: CausalStatus, w: CausalWitness)
    requires
        promotion_outcome(current, CausalStatus::VerifiedCausal, w) is Ok,
    ensures
        w.kind == CausalWitnessKind::Intervention || w.kind == CausalWitnessKind::MechanisticDerivation,
        w.provenance_roots@.len() > 0,
{
}


/// Every allowed step is taken whenever its witness has provenance: an
/// intervention lifts Observational to Interventional and Mechanistic to
/// VerifiedCausal; a mechanistic derivation lifts AssumedCausal to Mechanistic
/// and Interventional to VerifiedCausal; an assumption naming at least one
/// assumption lifts Observational to AssumedCausal. Each such request succeeds
/// with its target.
pub proof fn law_allowed_steps_succeed(w: CausalWitness)
    requires
        w.provenance_roots@.len() > 0,
    ensures
        w.kind == CausalWitnessKind::Intervention ==> {
            &&& transition_supported(CausalStatus::Observational, CausalStatus::Interventional, w)
            &&& transition_supported(CausalStatus::Mechanistic, CausalStatus::VerifiedCausal, w)
            &&& promotion_outcome(CausalStatus::Observational, CausalStatus::Interventional, w) == Ok::<
                CausalStatus,
                CausalError,
            >(CausalStatus::Interventional)
            &&& promotion_outcome(CausalStatus::Mechanistic, CausalStatus::VerifiedCausal, w) == Ok::<
                CausalStatus,
                CausalError,
            >(CausalStatus::VerifiedCausal)
        },
        w.kind == CausalWitnessKind::MechanisticDerivation ==> {
            &&& transition_supported(CausalStatus::AssumedCausal, CausalStatus::Mechanistic, w)
            &&& transition_supported(CausalStatus::Interventional, CausalStatus::VerifiedCausal, w)
            &&& promotion_outcome(CausalStatus::AssumedCausal, CausalStatus::Mechanistic, w) == Ok::<
                CausalStatus,
                CausalError,
            >(CausalStatus::Mechanistic)
            &&& promotion_outcome(CausalStatus::Interventional, CausalStatus::VerifiedCausal, w) == Ok::<
                CausalStatus,
                CausalError,
            >(CausalStatus::VerifiedCausal)
        },
        w.kind == CausalWitnessKind::Assumption && w.assumptions@.len() > 0 ==> {
            &&& transition_supported(CausalStatus::Observational, CausalStatus::AssumedCausal, w)
            &&& promotion_outcome(CausalStatus::Observational, CausalStatus::AssumedCausal, w) == Ok::<
                CausalStatus,
                CausalError,
            >(CausalStatus::AssumedCausal)
        },
{
}


/// The allowed promotion steps: from a status, to a status, under a witness of a kind.
pub open spec fn causal_steps() -> Seq<(CausalStatus, CausalStatus, CausalWitnessKind)> {
    seq![
        (CausalStatus::Observational, CausalStatus::AssumedCausal, CausalWitnessKind::Assumption),
        (CausalStatus::Observational, CausalStatus::Interventional, CausalWitnessKind::Intervention),
        (CausalStatus::AssumedCausal, CausalStatus::Mechanistic, CausalWitnessKind::MechanisticDerivation),
        (CausalStatus::Interventional, CausalStatus::VerifiedCausal, CausalWitnessKind::MechanisticDerivation),
        (CausalStatus::Mechanistic, CausalStatus::VerifiedCausal, CausalWitnessKind::Intervention),
    ]
}

/// A witness supports a step exactly when it has provenance, the step is one
/// of the allowed steps for its kind, and an assumption names at least one
/// assumption; a supported request succeeds with its target, a request whose
/// witness has no provenance fails for that, and any other request is illegal.
pub proof fn law_supported_steps_are_the_allowed_ones(from: CausalStatus, to: CausalStatus, w: CausalWitness)
    ensures
        transition_supported(from, to, w) <==> w.provenance_roots@.len() > 0 && causal_steps().contains((from, to, w.kind))
            && (w.kind == CausalWitnessKind::Assumption ==> w.assumptions@.len() > 0),
        transition_supported(from, to, w) ==> promotion_outcome(from, to, w) == Ok::<CausalStatus, CausalError>(to),
        w.provenance_roots@.len() == 0 ==> promotion_outcome(from, to, w) == Err::<CausalStatus, CausalError>(
            CausalError::MissingProvenance,
        ),
        w.provenance_roots@.len() > 0 && !transition_supported(from, to, w) ==> promotion_outcome(from, to, w) == Err::<
            CausalStatus,
            CausalError,
        >(CausalError::IllegalPromotion),
{
    let st = causal_steps();
    assert(st[0] == (CausalStatus::Observational, CausalStatus::AssumedCausal, CausalWitnessKind::Assumption));
    assert(st[1] == (CausalStatus::Observational, CausalStatus::Interventional, CausalWitnessKind::Intervention));
    assert(st[2] == (CausalStatus::AssumedCausal, CausalStatus::Mechanistic, CausalWitnessKind::MechanisticDerivation));
    assert(st[3] == (CausalStatus::Interventional, CausalStatus::VerifiedCausal, CausalWitnessKind::MechanisticDerivation));
    assert(st[4] == (CausalStatus::Mechanistic, CausalStatus::VerifiedCausal, CausalWitnessKind::Intervention));
    if st.contains((from, to, w.kind)) {
        let t = choose|t: int| 0 <= t < st.len() && st[t] == (from, to, w.kind);
    }
    if transition_supported(from, to, w) {
        assert(st.contains((from, to, w.kind)));
    }
}

} // verus!
