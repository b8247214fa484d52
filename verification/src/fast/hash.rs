//! Batch computation of ORIDs, with exactly the digests of single computation.

use vstd::prelude::*;
use crate::kernel::orid::{is_orid_of, ObjectKind, ORID};

verus! {

pub struct FastOridHasher;

impl FastOridHasher {
    /// The ORID of one object: the same identifier as `ORID::compute`.
    pub fn compute(kind: ObjectKind, canonical_bytes: &[u8]) -> (id: ORID)
        ensures
            is_orid_of(id, kind, canonical_bytes@),
    {
        ORID::compute(kind, canonical_bytes)
    }

    /// The ORID of one object, hashed as the domain prefix followed by the bytes.
    pub fn compute_fast(kind: ObjectKind, canonical_bytes: &[u8]) -> (id: ORID)
        ensures
            is_orid_of(id, kind, canonical_bytes@),
    {
        ORID::compute(kind, canonical_bytes)
    }

    /// Replaces the contents of `results` with the ORID of each item, in order.
    pub fn compute_batch(items: &[(ObjectKind, &[u8])], results: &mut Vec<ORID>)
        ensures
            final(results)@.len() == items@.len(),
            forall|i: int| 0 <= i < items@.len() ==> is_orid_of(#[trigger] final(results)@[i], items@[i].0, items@[i].1@),
    {
        results.clear();
        results.reserve(items.len());
        let mut i: usize = 0;
        while i < items.len()
            invariant
                i <= items@.len(),
                results@.len() == i,
                forall|k: int| 0 <= k < i ==> is_orid_of(#[trigger] results@[k], items@[k].0, items@[k].1@),
            decreases items@.len() - i,
        {
            let (kind, bytes) = items[i];
            results.push(ORID::compute(kind, bytes));
            i = i + 1;
        }
    }
}

} // verus!
