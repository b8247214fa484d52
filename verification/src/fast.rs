//! Fast operations: bitsets, population counts, batch hashing and packed scans,
//! each with a plain reference implementation it provably agrees with.

pub mod dispatch;
pub mod bitset;
pub mod cardinality;
pub mod hash;
pub mod scan;

use vstd::prelude::*;

verus! {

pub fn crate_name() -> (s: &'static str)
    ensures
        s@ == "origin-fast"@,
{
    "origin-fast"
}

} // verus!
