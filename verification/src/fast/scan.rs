//! A structure-of-arrays edge index, derived from and rebuildable out of the
//! authoritative edge tuples, and its scan against an array-of-structures baseline.

use vstd::prelude::*;

verus! {

broadcast use vstd::layout::layout_of_primitives;

/// Array-of-structures edge record, the baseline layout.
#[derive(Debug, Clone)]
pub struct AoSEdge {
    pub kind: u8,
    pub src: u32,
    pub dst: u32,
    pub status: u8,
    pub weight: u16,
    pub flags: u8,
    pub _padding: [u8; 11],
}

/// Structure-of-arrays edge index: one column per field.
#[derive(Debug, Clone, Default)]
pub struct PackedIndex {
    pub kinds: Vec<u8>,
    pub src: Vec<u32>,
    pub dst: Vec<u32>,
    pub status: Vec<u8>,
    pub weights: Vec<u16>,
    pub flags: Vec<u8>,
}

/// The positions below `n` whose kind and status both match, in increasing order.
pub open spec fn matching_indices(kinds: Seq<u8>, status: Seq<u8>, tk: u8, ts: u8, n: nat) -> Seq<usize>
    decreases n,
{
    if n == 0 {
        Seq::empty()
    } else {
        let p = matching_indices(kinds, status, tk, ts, (n - 1) as nat);
        if kinds[n - 1] == tk && status[n - 1] == ts {
            p.push((n - 1) as usize)
        } else {
            p
        }
    }
}

/// The kind column of a sequence of records.
pub open spec fn aos_kinds(e: Seq<AoSEdge>) -> Seq<u8> {
    e.map_values(|x: AoSEdge| x.kind)
}

/// The status column of a sequence of records.
pub open spec fn aos_status(e: Seq<AoSEdge>) -> Seq<u8> {
    e.map_values(|x: AoSEdge| x.status)
}

/// The index holds the tuples column by column, in order.
pub open spec fn holds_tuples(ix: PackedIndex, t: Seq<(u8, u32, u32, u8, u16, u8)>) -> bool {
    &&& ix.kinds@.len() == t.len()
    &&& ix.src@.len() == t.len()
    &&& ix.dst@.len() == t.len()
    &&& ix.status@.len() == t.len()
    &&& ix.weights@.len() == t.len()
    &&& ix.flags@.len() == t.len()
    &&& forall|i: int|
        0 <= i < t.len() ==> {
            &&& ix.kinds@[i] == (#[trigger] t[i]).0
            &&& ix.src@[i] == t[i].1
            &&& ix.dst@[i] == t[i].2
            &&& ix.status@[i] == t[i].3
            &&& ix.weights@[i] == t[i].4
            &&& ix.flags@[i] == t[i].5
        }
}

impl PackedIndex {
    pub fn new() -> (ix: PackedIndex)
        ensures
            holds_tuples(ix, Seq::empty()),
    {
        PackedIndex {
            kinds: Vec::new(),
            src: Vec::new(),
            dst: Vec::new(),
            status: Vec::new(),
            weights: Vec::new(),
            flags: Vec::new(),
        }
    }

    pub fn with_capacity(capacity: usize) -> (ix: PackedIndex)
        ensures
            holds_tuples(ix, Seq::empty()),
    {
        PackedIndex {
            kinds: Vec::with_capacity(capacity),
            src: Vec::with_capacity(capacity),
            dst: Vec::with_capacity(capacity),
            status: Vec::with_capacity(capacity),
            weights: Vec::with_capacity(capacity),
            flags: Vec::with_capacity(capacity),
        }
    }

    /// Appends one edge to every column.
    pub fn push(&mut self, kind: u8, src: u32, dst: u32, status: u8, weight: u16, flags: u8)
        ensures
            final(self).kinds@ == old(self).kinds@.push(kind),
            final(self).src@ == old(self).src@.push(src),
            final(self).dst@ == old(self).dst@.push(dst),
            final(self).status@ == old(self).status@.push(status),
            final(self).weights@ == old(self).weights@.push(weight),
            final(self).flags@ == old(self).flags@.push(flags),
    {
        self.kinds.push(kind);
        self.src.push(src);
        self.dst.push(dst);
        self.status.push(status);
        self.weights.push(weight);
        self.flags.push(flags);
    }

    pub fn len(&self) -> (n: usize)
        ensures
            n == self.kinds@.len(),
    {
        self.kinds.len()
    }

    pub fn is_empty(&self) -> (b: bool)
        ensures
            b == (self.kinds@.len() == 0),
    {
        self.kinds.len() == 0
    }

    /// Bytes per edge in the packed layout: the sizes of the six column types.
    pub fn bytes_per_edge(&self) -> (n: usize)
        ensures
            n == 13,
    {
        std::mem::size_of::<u8>() + std::mem::size_of::<u32>() + std::mem::size_of::<u32>()
            + std::mem::size_of::<u8>() + std::mem::size_of::<u16>() + std::mem::size_of::<u8>()
    }

    /// Replaces `matches` by the positions whose kind and status match, in increasing order.
    pub fn scan_matching(&self, target_kind: u8, target_status: u8, matches: &mut Vec<usize>)
        requires
            self.status@.len() >= self.kinds@.len(),
        ensures
            final(matches)@ == matching_indices(self.kinds@, self.status@, target_kind, target_status, self.kinds@.len()),
    {
        matches.clear();
        let kinds = self.kinds.as_slice();
        let status = self.status.as_slice();
        let len = if status.len() < kinds.len() {
            status.len()
        } else {
            kinds.len()
        };
        // Blocks of 64 are first tested as a whole, without pushing, so the
        // common case of a block with no match is a branch-free pass.
        let mut base: usize = 0;
        while base < len
            invariant
                len == self.kinds@.len(),
                kinds@ == self.kinds@,
                status@ == self.status@,
                self.status@.len() >= len,
                base <= len,
                matches@ == matching_indices(self.kinds@, self.status@, target_kind, target_status, base as nat),
            decreases len - base,
        {
            let end = if len - base > 64 {
                base + 64
            } else {
                len
            };
            // `least` is the least of the differences seen in the block, and
            // a difference is zero exactly at a match.
            let kb = &kinds[base..end];
            let sb = &status[base..end];
            let n = kb.len();
            // `least` is the least of the differences seen in the block, and
            // a difference is zero exactly at a match.
            let mut least: u8 = 1;
            let mut t: usize = 0;
            while t < n
                invariant
                    t <= n == kb@.len() == sb@.len(),
                    least > 0 ==> forall|j: int| 0 <= j < t ==> !(#[trigger] kb@[j] == target_kind && sb@[j] == target_status),
                decreases n - t,
            {
                let a = kb[t];
                let b = sb[t];
                let d: u8 = (a ^ target_kind) | (b ^ target_status);
                assert(d == 0 <==> (a == target_kind && b == target_status)) by (bit_vector)
                    requires
                        d == (a ^ target_kind) | (b ^ target_status),
                ;
                if d < least {
                    least = d;
                }
                t = t + 1;
            }
            assert(least > 0 ==> forall|j: int|
                base <= j < end ==> !(#[trigger] self.kinds@[j] == target_kind && self.status@[j] == target_status)) by {
                if least > 0 {
                    assert forall|j: int| base <= j < end implies !(#[trigger] self.kinds@[j] == target_kind
                        && self.status@[j] == target_status) by {
                        assert(kb@[j - base] == self.kinds@[j]);
                        assert(sb@[j - base] == self.status@[j]);
                    }
                }
            }
            if least == 0 {
                let mut i: usize = base;
                while i < end
                    invariant
                        base <= i <= end <= len,
                        len == self.kinds@.len(),
                        kinds@ == self.kinds@,
                        status@ == self.status@,
                        self.status@.len() >= len,
                        matches@ == matching_indices(self.kinds@, self.status@, target_kind, target_status, i as nat),
                    decreases end - i,
                {
                    if kinds[i] == target_kind && status[i] == target_status {
                        matches.push(i);
                    }
                    i = i + 1;
                }
            } else {
                proof {
                    lemma_no_match_block(self.kinds@, self.status@, target_kind, target_status, base as nat, end as nat);
                }
            }
            base = end;
        }
    }

    /// Builds the index from the authoritative edge tuples, in order.
    pub fn rebuild_from_tuples(tuples: &[(u8, u32, u32, u8, u16, u8)]) -> (ix: PackedIndex)
        ensures
            holds_tuples(ix, tuples@),
    {
        let mut index = Self::with_capacity(tuples.len());
        let mut i: usize = 0;
        while i < tuples.len()
            invariant
                i <= tuples@.len(),
                holds_tuples(index, tuples@.subrange(0, i as int)),
            decreases tuples@.len() - i,
        {
            let (k, s, d, st, w, f) = tuples[i];
            index.push(k, s, d, st, w, f);
            i = i + 1;
            assert forall|j: int| 0 <= j < i implies #[trigger] tuples@.subrange(0, i as int)[j] == tuples@[j] by {}
        }
        assert(tuples@.subrange(0, i as int) =~= tuples@);
        index
    }
}

/// Replaces `matches` by the positions of the records whose kind and status match, in increasing order.
pub fn scan_aos_baseline(edges: &[AoSEdge], target_kind: u8, target_status: u8, matches: &mut Vec<usize>)
    ensures
        final(matches)@ == matching_indices(aos_kinds(edges@), aos_status(edges@), target_kind, target_status, edges@.len()),
{
    matches.clear();
    let mut i: usize = 0;
    while i < edges.len()
        invariant
            i <= edges@.len(),
            matches@ == matching_indices(aos_kinds(edges@), aos_status(edges@), target_kind, target_status, i as nat),
        decreases edges@.len() - i,
    {
        if edges[i].kind == target_kind && edges[i].status == target_status {
            matches.push(i);
        }
        i = i + 1;
    }
}

proof fn lemma_matching_congruent(k1: Seq<u8>, s1: Seq<u8>, k2: Seq<u8>, s2: Seq<u8>, tk: u8, ts: u8, n: nat)
    requires
        n <= k1.len(),
        n <= s1.len(),
        n <= k2.len(),
        n <= s2.len(),
        forall|i: int| 0 <= i < n ==> k1[i] == k2[i] && s1[i] == s2[i],
    ensures
        matching_indices(k1, s1, tk, ts, n) == matching_indices(k2, s2, tk, ts, n),
    decreases n,
{
    if n > 0 {
        lemma_matching_congruent(k1, s1, k2, s2, tk, ts, (n - 1) as nat);
    }
}

/// A block of positions with no match adds nothing to the matching positions.
proof fn lemma_no_match_block(kinds: Seq<u8>, status: Seq<u8>, tk: u8, ts: u8, lo: nat, hi: nat)
    requires
        lo <= hi,
        forall|j: int| lo <= j < hi ==> !(#[trigger] kinds[j] == tk && status[j] == ts),
    ensures
        matching_indices(kinds, status, tk, ts, hi) == matching_indices(kinds, status, tk, ts, lo),
    decreases hi - lo,
{
    if hi > lo {
        assert(!(kinds[hi - 1] == tk && status[hi - 1] == ts));
        lemma_no_match_block(kinds, status, tk, ts, lo, (hi - 1) as nat);
    }
}

/// An index rebuilt from the tuples scans exactly as the records built from the same tuples.
pub proof fn law_packed_scan_matches_records(
    ix: PackedIndex,
    edges: Seq<AoSEdge>,
    tuples: Seq<(u8, u32, u32, u8, u16, u8)>,
    tk: u8,
    ts: u8,
)
    requires
        holds_tuples(ix, tuples),
        edges.len() == tuples.len(),
        forall|i: int| 0 <= i < tuples.len() ==> (#[trigger] edges[i]).kind == tuples[i].0 && edges[i].status == tuples[i].3,
    ensures
        matching_indices(ix.kinds@, ix.status@, tk, ts, ix.kinds@.len()) == matching_indices(
            aos_kinds(edges),
            aos_status(edges),
            tk,
            ts,
            edges.len(),
        ),
{
    assert forall|i: int| 0 <= i < tuples.len() implies ix.kinds@[i] == aos_kinds(edges)[i] && ix.status@[i] == aos_status(edges)[i] by {
        assert(ix.kinds@[i] == tuples[i].0);
        assert(edges[i].kind == tuples[i].0);
    }
    lemma_matching_congruent(ix.kinds@, ix.status@, aos_kinds(edges), aos_status(edges), tk, ts, edges.len());
}

} // verus!
