//! Runtime evidence: evidence records with their mandatory fields, the
//! provenance hypergraph of derivations, and deduplication of correlated support.

pub mod record;
pub mod provenance;
pub mod correlation;
pub mod trust;

use vstd::prelude::*;

verus! {

pub fn crate_name() -> (s: &'static str)
    ensures
        s@ == "origin-evidence"@,
{
    "origin-evidence"
}

} // verus!
