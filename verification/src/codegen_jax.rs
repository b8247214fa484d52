//! Lowering of operator programs to JAX; the lowering itself runs outside this library.

use vstd::prelude::*;

verus! {

pub fn crate_name() -> (s: &'static str)
    ensures
        s@ == "origin-codegen-jax"@,
{
    "origin-codegen-jax"
}

} // verus!
