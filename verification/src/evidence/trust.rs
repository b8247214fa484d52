//! What trust may and may not do: a trust policy ranks evidence for scheduling,
//! but the epistemic status of evidence depends on its record and derivation
//! alone, never on how much its source is trusted.

use vstd::prelude::*;
use crate::evidence::record::{record_valid, EvidenceRecord};
use crate::kernel::status::Status;

verus! {

/// The status evidence can reach: verified with a formal derivation and a raw
/// object behind a valid record; supported when the record is valid; unknown otherwise.
pub open spec fn reachable_status(evidence: EvidenceRecord, has_formal_derivation: bool) -> Status {
    if has_formal_derivation && evidence.raw_object_orid is Some && record_valid(evidence) {
        Status::Verified
    } else if record_valid(evidence) {
        Status::Supported
    } else {
        Status::Unknown
    }
}

/// The epistemic status of `evidence`, whatever the trust in its source.
pub fn evaluate_epistemic_status(evidence: &EvidenceRecord, has_formal_derivation: bool) -> (s: Status)
    ensures
        s == reachable_status(*evidence, has_formal_derivation),
{
    if has_formal_derivation && evidence.can_support_verified() {
        Status::Verified
    } else if evidence.validate().is_ok() {
        Status::Supported
    } else {
        Status::Unknown
    }
}

/// Without a formal derivation, no evidence is verified.
pub proof fn law_trust_never_verifies_without_derivation(evidence: EvidenceRecord)
    ensures
        reachable_status(evidence, false) != Status::Verified,
{
}

} // verus!
