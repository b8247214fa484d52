//! Causal status algebra: no promotion to a verified causal status without an
//! intervention or mechanistic witness, and never without provenance.

use vstd::prelude::*;
use crate::kernel::orid::ORID;

verus! {

#[derive(Debug, Clone, Copy, PartialEq, Eq, Hash, Structural)]
pub enum CausalStatus {
    Observational,
    AssumedCausal,
    Interventional,
    Mechanistic,
    VerifiedCausal,
}

#[derive(Debug, Clone, Copy, PartialEq, Eq, Hash, Structural)]
pub enum CausalWitnessKind {
    Assumption,
    Intervention,
    MechanisticDerivation,
}

#[derive(Debug, Clone, PartialEq, Eq)]
pub struct CausalWitness {
    pub kind: CausalWitnessKind,
    pub witness_orid: ORID,
    pub provenance_roots: Vec<ORID>,
    pub assumptions: Vec<String>,
}

impl CausalWitness {
    pub fn new(
        kind: CausalWitnessKind,
        witness_orid: ORID,
        provenance_roots: Vec<ORID>,
        assumptions: Vec<String>,
    ) -> (w: CausalWitness)
        ensures
            w.kind == kind,
            w.witness_orid == witness_orid,
            w.provenance_roots == provenance_roots,
            w.assumptions == assumptions,
    {
        CausalWitness { kind, witness_orid, provenance_roots, assumptions }
    }
}

#[derive(Debug, Clone, PartialEq, Eq, Structural)]
pub enum CausalError {
    IllegalPromotion,
    MissingWitness,
    MissingProvenance,
    EmptyAssumptions,
}

/// Numeric code of a causal status (its position in the declaration order).
pub open spec fn causal_code(s: CausalStatus) -> u8 {
    match s {
        CausalStatus::Observational => 0,
        CausalStatus::AssumedCausal => 1,
        CausalStatus::Interventional => 2,
        CausalStatus::Mechanistic => 3,
        CausalStatus::VerifiedCausal => 4,
    }
}

impl CausalStatus {
    pub fn code(self) -> (c: u8)
        ensures
            c == causal_code(self),
    {
        match self {
            CausalStatus::Observational => 0,
            CausalStatus::AssumedCausal => 1,
            CausalStatus::Interventional => 2,
            CausalStatus::Mechanistic => 3,
            CausalStatus::VerifiedCausal => 4,
        }
    }
}

/// The one-step causal transition allowed for a witness kind, if any.
pub open spec fn causal_step(current: CausalStatus, kind: CausalWitnessKind) -> Option<CausalStatus> {
    match (current, kind) {
        (CausalStatus::Observational, CausalWitnessKind::Assumption) => Some(CausalStatus::AssumedCausal),
        (CausalStatus::Observational, CausalWitnessKind::Intervention) => Some(CausalStatus::Interventional),
        (CausalStatus::AssumedCausal, CausalWitnessKind::MechanisticDerivation) => Some(CausalStatus::Mechanistic),
        (CausalStatus::Interventional, CausalWitnessKind::MechanisticDerivation) => Some(CausalStatus::VerifiedCausal),
        (CausalStatus::Mechanistic, CausalWitnessKind::Intervention) => Some(CausalStatus::VerifiedCausal),
        _ => None,
    }
}

/// Promotes `current` with `witness`: missing provenance is rejected first, an
/// assumption witness must carry assumptions, and otherwise exactly the steps
/// of `causal_step` succeed.
pub fn causal_promote(current: CausalStatus, witness: &CausalWitness) -> (res: Result<CausalStatus, CausalError>)
    ensures
        witness.provenance_roots@.len() == 0 ==> res == Err::<CausalStatus, CausalError>(CausalError::MissingProvenance),
        witness.provenance_roots@.len() > 0 ==> match causal_step(current, witness.kind) {
            Some(next) => if witness.kind == CausalWitnessKind::Assumption && witness.assumptions@.len() == 0 {
                res == Err::<CausalStatus, CausalError>(CausalError::EmptyAssumptions)
            } else {
                res == Ok::<CausalStatus, CausalError>(next)
            },
            None => res == Err::<CausalStatus, CausalError>(CausalError::IllegalPromotion),
        },
{
    if witness.provenance_roots.is_empty() {
        return Err(CausalError::MissingProvenance);
    }
    match (current, witness.kind) {
        (CausalStatus::Observational, CausalWitnessKind::Assumption) => {
            if witness.assumptions.is_empty() {
                return Err(CausalError::EmptyAssumptions);
            }
            Ok(CausalStatus::AssumedCausal)
        },
        (CausalStatus::Observational, CausalWitnessKind::Intervention) => Ok(CausalStatus::Interventional),
        (CausalStatus::AssumedCausal, CausalWitnessKind::MechanisticDerivation) => Ok(CausalStatus::Mechanistic),
        (CausalStatus::Interventional, CausalWitnessKind::MechanisticDerivation) => Ok(CausalStatus::VerifiedCausal),
        (CausalStatus::Mechanistic, CausalWitnessKind::Intervention) => Ok(CausalStatus::VerifiedCausal),
        _ => Err(CausalError::IllegalPromotion),
    }
}

/// No single witness lifts an observational status to verified causal: the
/// chain must pass through an interventional or mechanistic status.
pub proof fn law_no_direct_verified_causal(kind: CausalWitnessKind)
    ensures
        causal_step(CausalStatus::Observational, kind) != Some(CausalStatus::VerifiedCausal),
        causal_step(CausalStatus::AssumedCausal, kind) != Some(CausalStatus::VerifiedCausal),
{
}

/// A verified causal status is reached only by an intervention or a mechanistic derivation.
pub proof fn law_verified_causal_requires_intervention_or_mechanism(current: CausalStatus, kind: CausalWitnessKind)
    ensures
        causal_step(current, kind) == Some(CausalStatus::VerifiedCausal) ==> kind
            == CausalWitnessKind::Intervention || kind == CausalWitnessKind::MechanisticDerivation,
{
}

/// VerifiedCausal is terminal for promotion.
pub proof fn law_verified_causal_is_terminal(kind: CausalWitnessKind)
    ensures
        causal_step(CausalStatus::VerifiedCausal, kind) is None,
{
}

} // verus!
