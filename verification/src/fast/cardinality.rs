//! Cardinality of bit masks, with a bit-by-bit reference count.

use vstd::prelude::*;
use crate::fast::dispatch::{count_bits_fast, count_bits_naive, popcount_words};

verus! {

pub struct CardinalityEngine;

impl CardinalityEngine {
    /// Counts the one bits bit by bit.
    pub fn count_naive_scalar(data: &[u64]) -> (n: u64)
        requires
            data@.len() * 64 <= u64::MAX,
        ensures
            n == popcount_words(data@),
    {
        count_bits_naive(data)
    }

    /// Counts the one bits with the processor's population count.
    pub fn count_portable(data: &[u64]) -> (n: u64)
        requires
            data@.len() * 64 <= u64::MAX,
        ensures
            n == popcount_words(data@),
    {
        count_bits_fast(data)
    }

    /// The cardinality entry point; every tier counts with `count_portable`.
    pub fn count_ones(data: &[u64]) -> (n: u64)
        requires
            data@.len() * 64 <= u64::MAX,
        ensures
            n == popcount_words(data@),
    {
        Self::count_portable(data)
    }
}

} // verus!
