//! Epistemic status lattice and the validated promotion function.
//!
//! Status cannot be promoted arbitrarily: every accepted transition is listed
//! in `promotion_target`, and `Refuted` is terminal.

use vstd::prelude::*;
use crate::kernel::orid::ORID;

verus! {

#[derive(Debug, Clone, Copy, PartialEq, Eq, Hash, Structural)]
pub enum Status {
    Unknown,
    Hypothesis,
    Supported,
    Verified,
    Contested,
    Refuted,
}

#[derive(Debug, Clone, Copy, PartialEq, Eq, Hash, Structural)]
pub enum ProofKind {
    Observation,
    Derivation,
    FormalVerification,
    RefutationWitness,
    ContradictionWitness,
}

#[derive(Debug, Clone, PartialEq, Eq)]
pub struct Proof {
    pub kind: ProofKind,
    pub witness_orid: ORID,
}

impl Proof {
    pub fn new(kind: ProofKind, witness_orid: ORID) -> (p: Proof)
        ensures
            p.kind == kind,
            p.witness_orid == witness_orid,
    {
        Proof { kind, witness_orid }
    }
}

#[derive(Debug, Clone, PartialEq, Eq, Structural)]
pub enum EpistemicError {
    IllegalPromotion,
    MissingWitness,
    ContradictionDetected,
}

/// Numeric code of a status (its position in the declaration order).
pub open spec fn status_code(s: Status) -> u8 {
    match s {
        Status::Unknown => 0,
        Status::Hypothesis => 1,
        Status::Supported => 2,
        Status::Verified => 3,
        Status::Contested => 4,
        Status::Refuted => 5,
    }
}

/// Precedence of a status under `join`: the higher one wins.
pub open spec fn join_rank(s: Status) -> int {
    status_code(s) as int
}

/// Precedence of a status under `meet`: Unknown < Hypothesis < Supported, and
/// the three upper statuses share the top rank.
pub open spec fn meet_rank(s: Status) -> int {
    match s {
        Status::Unknown => 0,
        Status::Hypothesis => 1,
        Status::Supported => 2,
        _ => 3,
    }
}

pub open spec fn spec_join(a: Status, b: Status) -> Status {
    if join_rank(a) >= join_rank(b) { a } else { b }
}

pub open spec fn spec_meet(a: Status, b: Status) -> Status {
    if a == b {
        a
    } else if meet_rank(a) < meet_rank(b) {
        a
    } else if meet_rank(b) < meet_rank(a) {
        b
    } else {
        Status::Contested
    }
}

/// The status that a proof of the given kind promotes `current` to, if any.
pub open spec fn promotion_target(current: Status, kind: ProofKind) -> Option<Status> {
    match (current, kind) {
        (Status::Unknown, ProofKind::Observation) => Some(Status::Hypothesis),
        (Status::Hypothesis, ProofKind::Derivation) => Some(Status::Supported),
        (Status::Supported, ProofKind::FormalVerification) => Some(Status::Verified),
        (Status::Supported, ProofKind::ContradictionWitness) => Some(Status::Contested),
        (Status::Verified, ProofKind::ContradictionWitness) => Some(Status::Contested),
        (Status::Contested, ProofKind::Derivation) => Some(Status::Supported),
        (Status::Contested, ProofKind::FormalVerification) => Some(Status::Verified),
        (_, ProofKind::RefutationWitness) => Some(Status::Refuted),
        _ => None,
    }
}

impl Status {
    pub fn code(self) -> (c: u8)
        ensures
            c == status_code(self),
    {
        match self {
            Status::Unknown => 0,
            Status::Hypothesis => 1,
            Status::Supported => 2,
            Status::Verified => 3,
            Status::Contested => 4,
            Status::Refuted => 5,
        }
    }

    /// True exactly for `Verified`; a contested status does not count as verified.
    pub fn is_verified(self) -> (b: bool)
        ensures
            b == (self == Status::Verified),
    {
        matches!(self, Status::Verified)
    }

    /// True exactly for the terminal, non-promotable status `Refuted`.
    pub fn is_terminal(self) -> (b: bool)
        ensures
            b == (self == Status::Refuted),
    {
        matches!(self, Status::Refuted)
    }

    /// Least upper bound: Refuted > Contested > Verified > Supported > Hypothesis > Unknown.
    pub fn join(self, other: Status) -> (r: Status)
        ensures
            r == spec_join(self, other),
    {
        if self == other {
            return self;
        }
        match (self, other) {
            (Status::Refuted, _) | (_, Status::Refuted) => Status::Refuted,
            (Status::Contested, _) | (_, Status::Contested) => Status::Contested,
            (Status::Verified, _) | (_, Status::Verified) => Status::Verified,
            (Status::Supported, _) | (_, Status::Supported) => Status::Supported,
            (Status::Hypothesis, _) | (_, Status::Hypothesis) => Status::Hypothesis,
            _ => Status::Unknown,
        }
    }

    /// Greatest lower bound: distinct upper statuses meet at `Contested`.
    pub fn meet(self, other: Status) -> (r: Status)
        ensures
            r == spec_meet(self, other),
    {
        if self == other {
            return self;
        }
        match (self, other) {
            (Status::Unknown, _) | (_, Status::Unknown) => Status::Unknown,
            (Status::Hypothesis, _) | (_, Status::Hypothesis) => Status::Hypothesis,
            (Status::Supported, _) | (_, Status::Supported) => Status::Supported,
            _ => Status::Contested,
        }
    }
}

/// Validated promotion: succeeds exactly on the transitions of `promotion_target`.
pub fn promote(current: Status, proof: &Proof) -> (res: Result<Status, EpistemicError>)
    ensures
        match promotion_target(current, proof.kind) {
            Some(next) => res == Ok::<Status, EpistemicError>(next),
            None => res == Err::<Status, EpistemicError>(EpistemicError::IllegalPromotion),
        },
{
    match (current, proof.kind) {
        (Status::Unknown, ProofKind::Observation) => Ok(Status::Hypothesis),
        (Status::Hypothesis, ProofKind::Derivation) => Ok(Status::Supported),
        (Status::Supported, ProofKind::FormalVerification) => Ok(Status::Verified),
        (Status::Supported, ProofKind::ContradictionWitness) => Ok(Status::Contested),
        (Status::Verified, ProofKind::ContradictionWitness) => Ok(Status::Contested),
        (Status::Contested, ProofKind::Derivation) => Ok(Status::Supported),
        (Status::Contested, ProofKind::FormalVerification) => Ok(Status::Verified),
        (_, ProofKind::RefutationWitness) => Ok(Status::Refuted),
        _ => Err(EpistemicError::IllegalPromotion),
    }
}

/// `join` is commutative, associative and idempotent.
pub proof fn law_join_semilattice(a: Status, b: Status, c: Status)
    ensures
        spec_join(a, b) == spec_join(b, a),
        spec_join(spec_join(a, b), c) == spec_join(a, spec_join(b, c)),
        spec_join(a, a) == a,
{
}

/// `meet` is commutative, associative and idempotent.
pub proof fn law_meet_semilattice(a: Status, b: Status, c: Status)
    ensures
        spec_meet(a, b) == spec_meet(b, a),
        spec_meet(spec_meet(a, b), c) == spec_meet(a, spec_meet(b, c)),
        spec_meet(a, a) == a,
{
}

/// Refuted absorbs every status under `join`, and Unknown absorbs every status under `meet`.
pub proof fn law_lattice_extremes(a: Status)
    ensures
        spec_join(Status::Refuted, a) == Status::Refuted,
        spec_join(Status::Unknown, a) == a,
        spec_meet(Status::Unknown, a) == Status::Unknown,
{
}

/// Refuted is terminal: from Refuted no proof leads anywhere but Refuted.
pub proof fn law_refuted_is_terminal(kind: ProofKind)
    ensures
        promotion_target(Status::Refuted, kind) is None
            || promotion_target(Status::Refuted, kind) == Some(Status::Refuted),
{
}

/// Verified is reached only by a formal verification of a Supported or Contested status,
/// so no single proof lifts Unknown or Hypothesis to Verified.
pub proof fn law_verified_requires_formal_verification(current: Status, kind: ProofKind)
    ensures
        promotion_target(current, kind) == Some(Status::Verified) ==> kind
            == ProofKind::FormalVerification && (current == Status::Supported || current
            == Status::Contested),
{
}

/// Contested is reached only through a contradiction witness.
pub proof fn law_contested_requires_contradiction(current: Status, kind: ProofKind)
    ensures
        promotion_target(current, kind) == Some(Status::Contested) ==> kind
            == ProofKind::ContradictionWitness,
{
}


/// The statuses from the weakest to the strongest.
pub open spec fn status_chain() -> Seq<Status> {
    seq![Status::Unknown, Status::Hypothesis, Status::Supported, Status::Verified, Status::Contested, Status::Refuted]
}

/// Every status lies on the chain, once.
pub proof fn law_status_chain_lists_every_status(s: Status)
    ensures
        exists|i: int| 0 <= i < 6 && #[trigger] status_chain()[i] == s,
        status_chain().len() == 6,
        status_chain().no_duplicates(),
{
    let c = status_chain();
    match s {
        Status::Unknown => assert(c[0] == s),
        Status::Hypothesis => assert(c[1] == s),
        Status::Supported => assert(c[2] == s),
        Status::Verified => assert(c[3] == s),
        Status::Contested => assert(c[4] == s),
        Status::Refuted => assert(c[5] == s),
    }
}

/// `join` is the least upper bound along the chain: of two statuses it gives
/// the one further up, whichever order they come in (so Supported joined with
/// Verified is Verified).
pub proof fn law_join_is_chain_maximum(i: int, j: int)
    requires
        0 <= i <= j < 6,
    ensures
        spec_join(status_chain()[i], status_chain()[j]) == status_chain()[j],
        spec_join(status_chain()[j], status_chain()[i]) == status_chain()[j],
{
}


/// `meet` is the greatest lower bound: below Verified it gives the status
/// further down the chain, in either order; two distinct statuses from
/// Verified up meet at Contested.
pub proof fn law_meet_is_chain_minimum(i: int, j: int)
    requires
        0 <= i <= j < 6,
    ensures
        i < 3 ==> spec_meet(status_chain()[i], status_chain()[j]) == status_chain()[i] && spec_meet(
            status_chain()[j],
            status_chain()[i],
        ) == status_chain()[i],
        3 <= i < j ==> spec_meet(status_chain()[i], status_chain()[j]) == Status::Contested && spec_meet(
            status_chain()[j],
            status_chain()[i],
        ) == Status::Contested,
        spec_meet(status_chain()[i], status_chain()[i]) == status_chain()[i],
{
}

/// The promotion steps other than refutation: from a status, under a proof
/// kind, to a status.
pub open spec fn promotion_steps() -> Seq<(Status, ProofKind, Status)> {
    seq![
        (Status::Unknown, ProofKind::Observation, Status::Hypothesis),
        (Status::Hypothesis, ProofKind::Derivation, Status::Supported),
        (Status::Supported, ProofKind::FormalVerification, Status::Verified),
        (Status::Supported, ProofKind::ContradictionWitness, Status::Contested),
        (Status::Verified, ProofKind::ContradictionWitness, Status::Contested),
        (Status::Contested, ProofKind::Derivation, Status::Supported),
        (Status::Contested, ProofKind::FormalVerification, Status::Verified),
    ]
}

/// A proof promotes a status exactly along the listed steps, and a refutation
/// witness refutes any status; every other request is refused.
pub proof fn law_promotion_follows_the_steps(current: Status, kind: ProofKind, next: Status)
    ensures
        promotion_target(current, kind) == Some(next) <==> (kind == ProofKind::RefutationWitness && next == Status::Refuted)
            || promotion_steps().contains((current, kind, next)),
        promotion_target(current, kind) is None <==> kind != ProofKind::RefutationWitness && forall|n: Status|
            !promotion_steps().contains((current, kind, n)),
{
    let st = promotion_steps();
    assert(st[0] == (Status::Unknown, ProofKind::Observation, Status::Hypothesis));
    assert(st[1] == (Status::Hypothesis, ProofKind::Derivation, Status::Supported));
    assert(st[2] == (Status::Supported, ProofKind::FormalVerification, Status::Verified));
    assert(st[3] == (Status::Supported, ProofKind::ContradictionWitness, Status::Contested));
    assert(st[4] == (Status::Verified, ProofKind::ContradictionWitness, Status::Contested));
    assert(st[5] == (Status::Contested, ProofKind::Derivation, Status::Supported));
    assert(st[6] == (Status::Contested, ProofKind::FormalVerification, Status::Verified));
    if let Some(n) = promotion_target(current, kind) {
        if kind != ProofKind::RefutationWitness {
            assert(st.contains((current, kind, n)));
        }
    }
    assert forall|n: Status| #[trigger] st.contains((current, kind, n)) implies promotion_target(current, kind) == Some(n) by {
        let t = choose|t: int| 0 <= t < st.len() && st[t] == (current, kind, n);
    }
}

} // verus!
