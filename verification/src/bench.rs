//! Facts the benchmarks report about the reasoning engine.

use vstd::prelude::*;

verus! {

/// The engine learns nothing from data: it has no trainable parameters.
pub fn trainable_parameter_count() -> (n: usize)
    ensures
        n == 0,
{
    0
}

} // verus!
