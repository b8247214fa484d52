//! Packed bitsets: word-wise intersection and union into a destination buffer.

use vstd::prelude::*;

verus! {

#[derive(Debug, Clone, PartialEq, Eq)]
pub struct PackedBitset {
    pub words: Vec<u64>,
}

/// The number of words an operation touches: the shortest of the three buffers.
pub open spec fn span(a: Seq<u64>, b: Seq<u64>, d: Seq<u64>) -> int {
    let m = if a.len() < b.len() { a.len() } else { b.len() };
    if m < d.len() { m as int } else { d.len() as int }
}

/// `d` after writing `f(a[i], b[i])` into each touched word, the rest unchanged.
pub open spec fn wordwise(a: Seq<u64>, b: Seq<u64>, d_old: Seq<u64>, d_new: Seq<u64>, and: bool) -> bool {
    &&& d_new.len() == d_old.len()
    &&& forall|i: int|
        0 <= i < d_new.len() ==> #[trigger] d_new[i] == if i < span(a, b, d_old) {
            if and { a[i] & b[i] } else { a[i] | b[i] }
        } else {
            d_old[i]
        }
}

impl PackedBitset {
    pub fn new(words: Vec<u64>) -> (b: PackedBitset)
        ensures
            b.words@ == words@,
    {
        PackedBitset { words }
    }

    pub fn words(&self) -> (w: &[u64])
        ensures
            w@ == self.words@,
    {
        self.words.as_slice()
    }

    fn combine(&self, other: &PackedBitset, dst: &mut [u64], and: bool)
        ensures
            wordwise(self.words@, other.words@, old(dst)@, final(dst)@, and),
    {
        let mut len = self.words.len();
        if other.words.len() < len {
            len = other.words.len();
        }
        if dst.len() < len {
            len = dst.len();
        }
        let ghost d0 = dst@;
        let mut i: usize = 0;
        while i < len
            invariant
                len == span(self.words@, other.words@, d0),
                i <= len,
                dst@.len() == d0.len(),
                forall|k: int|
                    0 <= k < dst@.len() ==> #[trigger] dst@[k] == if k < i {
                        if and { self.words@[k] & other.words@[k] } else { self.words@[k] | other.words@[k] }
                    } else {
                        d0[k]
                    },
            decreases len - i,
        {
            let v = if and { self.words[i] & other.words[i] } else { self.words[i] | other.words[i] };
            dst[i] = v;
            i = i + 1;
        }
    }

    /// Writes the word-wise intersection into `dst`, over the shortest of the three buffers.
    pub fn intersect_scalar(&self, other: &Self, dst: &mut [u64])
        ensures
            wordwise(self.words@, other.words@, old(dst)@, final(dst)@, true),
    {
        self.combine(other, dst, true)
    }

    /// Writes the word-wise union into `dst`, over the shortest of the three buffers.
    pub fn union_scalar(&self, other: &Self, dst: &mut [u64])
        ensures
            wordwise(self.words@, other.words@, old(dst)@, final(dst)@, false),
    {
        self.combine(other, dst, false)
    }

    /// The intersection entry point; it writes exactly what `intersect_scalar` writes.
    pub fn intersect(&self, other: &Self, dst: &mut [u64])
        ensures
            wordwise(self.words@, other.words@, old(dst)@, final(dst)@, true),
    {
        self.combine(other, dst, true)
    }
}

} // verus!
