//! Causal operators, counterfactual forks, order-interaction diagnostics,
//! intervention journals and causal status promotion.

pub mod operator;
pub mod compose;
pub mod counterfactual;
pub mod interaction;
pub mod journal;
pub mod promotion;

use vstd::prelude::*;

verus! {

pub fn crate_name() -> (s: &'static str)
    ensures
        s@ == "origin-causal"@,
{
    "origin-causal"
}

} // verus!
