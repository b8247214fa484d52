//! The provenance hypergraph: N-ary derivations of children from parents.
//! Insertions that would close a cycle are refused, so the graph stays acyclic,
//! and the lineage of a claim is reconstructed down to its roots.

use vstd::prelude::*;
use crate::kernel::omap::OridMap;
use crate::kernel::orid::{sort_by_hash, sorted_by_hash, ORID};
use crate::kernel::reach::{adj_edge, has_cycle, is_walk, reached_from, reaches, reaches_any};

verus! {

#[derive(Debug, PartialEq, Eq)]
pub struct Derivation {
    pub rule_id: String,
    pub parents: Vec<ORID>,
    pub child: ORID,
    pub transformation_id: String,
}

/// What a derivation says: rule, parents, child and transformation.
pub open spec fn dv(d: Derivation) -> (Seq<char>, Seq<ORID>, ORID, Seq<char>) {
    (d.rule_id@, d.parents@, d.child, d.transformation_id@)
}

/// What a sequence of derivations says.
pub open spec fn dvs(s: Seq<Derivation>) -> Seq<(Seq<char>, Seq<ORID>, ORID, Seq<char>)> {
    s.map_values(|d: Derivation| dv(d))
}

impl Clone for Derivation {
    fn clone(&self) -> (c: Self)
        ensures
            dv(c) == dv(*self),
    {
        Derivation {
            rule_id: self.rule_id.clone(),
            parents: self.parents.clone(),
            child: self.child,
            transformation_id: self.transformation_id.clone(),
        }
    }
}

#[derive(Debug, Clone, PartialEq, Eq)]
pub struct LineageProof {
    pub target: ORID,
    pub roots: Vec<ORID>,
    pub derivations: Vec<Derivation>,
}

#[derive(Debug, Clone, PartialEq, Eq)]
pub enum ProvenanceError {
    CycleDetected { child: ORID, ancestor: ORID },
    NodeNotFound(ORID),
}

pub struct ProvenanceHypergraph {
    child_to_derivations: OridMap<Vec<Derivation>>,
    parent_to_children: OridMap<Vec<ORID>>,
}

/// The first parent, from position `i` on, that is the child itself or is
/// reached from the child: linking it to the child would close a cycle.
pub open spec fn first_cycle_parent(g: Map<ORID, Vec<ORID>>, parents: Seq<ORID>, child: ORID, i: int) -> Option<ORID>
    decreases parents.len() - i,
{
    if i < 0 || i >= parents.len() {
        None
    } else if parents[i] == child || reaches(g, child, parents[i]) {
        Some(parents[i])
    } else {
        first_cycle_parent(g, parents, child, i + 1)
    }
}

proof fn lemma_first_cycle_parent_none(g: Map<ORID, Vec<ORID>>, parents: Seq<ORID>, child: ORID, i: int)
    requires
        0 <= i <= parents.len(),
        first_cycle_parent(g, parents, child, i) is None,
    ensures
        forall|k: int| i <= k < parents.len() ==> #[trigger] parents[k] != child && !reaches(g, child, parents[k]),
    decreases parents.len() - i,
{
    if i < parents.len() {
        lemma_first_cycle_parent_none(g, parents, child, i + 1);
    }
}

/// The edges after linking each of `parents` to `child`.
pub open spec fn linked(old: Map<ORID, Vec<ORID>>, new: Map<ORID, Vec<ORID>>, parents: Seq<ORID>, child: ORID) -> bool {
    forall|a: ORID, b: ORID| #[trigger] adj_edge(new, a, b) <==> adj_edge(old, a, b) || (b == child && parents.contains(a))
}

/// A walk that ends at `child` and passes through `child` only at its end uses no new edge.
proof fn lemma_walk_avoiding_child(
    old: Map<ORID, Vec<ORID>>,
    new: Map<ORID, Vec<ORID>>,
    parents: Seq<ORID>,
    child: ORID,
    w: Seq<ORID>,
)
    requires
        linked(old, new, parents, child),
        is_walk(new, w),
        forall|k: int| 1 <= k < w.len() ==> #[trigger] w[k] != child,
    ensures
        is_walk(old, w),
{
    assert forall|j: int| 0 <= j < w.len() - 1 implies adj_edge(old, #[trigger] w[j], w[j + 1]) by {
        assert(adj_edge(new, w[j], w[j + 1]));
        assert(w[j + 1] != child);
    }
}

/// The last position up to `hi` that holds `x`, when the first one does.
proof fn lemma_last_index(s: Seq<ORID>, x: ORID, hi: int) -> (t: int)
    requires
        0 <= hi < s.len(),
        s[0] == x,
    ensures
        0 <= t <= hi,
        s[t] == x,
        forall|u: int| t < u <= hi ==> #[trigger] s[u] != x,
    decreases hi,
{
    if s[hi] == x {
        hi
    } else {
        lemma_last_index(s, x, hi - 1)
    }
}

/// A cycle read from position `k` on, round to position `k` again.
proof fn lemma_rotate(g: Map<ORID, Vec<ORID>>, w: Seq<ORID>, k: int) -> (rot: Seq<ORID>)
    requires
        is_walk(g, w),
        w.len() >= 2,
        w[0] == w.last(),
        0 <= k < w.len(),
    ensures
        is_walk(g, rot),
        rot.len() == w.len(),
        rot[0] == w[k],
        rot.last() == w[k],
{
    let rot = w.subrange(k, w.len() as int) + w.subrange(1, k + 1);
    assert forall|j: int| 0 <= j < rot.len() - 1 implies adj_edge(g, #[trigger] rot[j], rot[j + 1]) by {
        if j < w.len() - k - 1 {
            assert(rot[j] == w[k + j] && rot[j + 1] == w[k + j + 1]);
        } else if j == w.len() - k - 1 {
            assert(rot[j] == w[w.len() - 1]);
            assert(rot[j + 1] == w[1]);
            assert(adj_edge(g, w[0], w[1]));
        } else {
            let m = j - (w.len() - k - 1);
            assert(rot[j] == w[m] && rot[j + 1] == w[m + 1]);
        }
    }
    if k == 0 {
        assert(rot.last() == w[0]);
    } else {
        assert(rot.last() == w[k]);
    }
    rot
}

/// A cycle through the child, after the insertion, contains an old walk from
/// the child to a parent linked to it, or an old cycle.
#[verifier::spinoff_prover]
#[verifier::rlimit(40)]
proof fn lemma_cycle_through_child(old: Map<ORID, Vec<ORID>>, new: Map<ORID, Vec<ORID>>, parents: Seq<ORID>, child: ORID, rot: Seq<ORID>)
    requires
        linked(old, new, parents, child),
        is_walk(new, rot),
        rot.len() >= 2,
        rot[0] == child,
        rot.last() == child,
    ensures
        has_cycle(old) || exists|p: ORID| parents.contains(p) && reaches(old, child, p),
{
    let n = rot.len() as int;
    let last = lemma_last_index(rot, child, n - 2);
    let seg = rot.subrange(last, n - 1);
    assert forall|j: int| 0 <= j < seg.len() - 1 implies adj_edge(new, #[trigger] seg[j], seg[j + 1]) by {
        assert(seg[j] == rot[last + j] && seg[j + 1] == rot[last + j + 1]);
    }
    assert forall|u: int| 1 <= u < seg.len() implies #[trigger] seg[u] != child by {
        assert(seg[u] == rot[last + u]);
    }
    lemma_walk_avoiding_child(old, new, parents, child, seg);
    let p = rot[n - 2];
    assert(seg.last() == p);
    assert(adj_edge(new, rot[n - 2], rot[n - 1]));
    if !adj_edge(old, p, child) {
        assert(reaches(old, child, p));
    } else {
        let c = seg.push(child);
        assert forall|j: int| 0 <= j < c.len() - 1 implies adj_edge(old, #[trigger] c[j], c[j + 1]) by {
            if j < seg.len() - 1 {
                assert(c[j] == seg[j] && c[j + 1] == seg[j + 1]);
            }
        }
        assert(is_walk(old, c) && c.len() >= 2 && c[0] == c.last());
    }
}

/// Linking parents that are neither the child nor reached from it keeps the graph acyclic.
pub proof fn law_insertion_keeps_acyclic(old: Map<ORID, Vec<ORID>>, new: Map<ORID, Vec<ORID>>, parents: Seq<ORID>, child: ORID)
    requires
        !has_cycle(old),
        linked(old, new, parents, child),
        forall|k: int| 0 <= k < parents.len() ==> #[trigger] parents[k] != child && !reaches(old, child, parents[k]),
    ensures
        !has_cycle(new),
{
    if has_cycle(new) {
        let w = choose|w: Seq<ORID>| #[trigger] is_walk(new, w) && w.len() >= 2 && w[0] == w.last();
        if exists|k: int| 0 <= k < w.len() && #[trigger] w[k] == child {
            let k = choose|k: int| 0 <= k < w.len() && #[trigger] w[k] == child;
            let rot = lemma_rotate(new, w, k);
            lemma_cycle_through_child(old, new, parents, child, rot);
            if exists|p: ORID| parents.contains(p) && reaches(old, child, p) {
                let p = choose|p: ORID| parents.contains(p) && reaches(old, child, p);
                let q = choose|q: int| 0 <= q < parents.len() && parents[q] == p;
                assert(!reaches(old, child, parents[q]));
            }
        } else {
            assert forall|u: int| 1 <= u < w.len() implies #[trigger] w[u] != child by {}
            lemma_walk_avoiding_child(old, new, parents, child, w);
        }
    }
}


/// How often `x` occurs in `s`.
pub open spec fn occurrences(s: Seq<ORID>, x: ORID) -> nat
    decreases s.len(),
{
    if s.len() == 0 {
        0
    } else {
        occurrences(s.drop_last(), x) + (if s.last() == x { 1nat } else { 0nat })
    }
}

/// The children listed under `p` once each parent of `parents` is linked to `child`.
pub open spec fn children_after(old: Map<ORID, Vec<ORID>>, parents: Seq<ORID>, child: ORID, p: ORID) -> Seq<ORID> {
    (if old.contains_key(p) { old[p]@ } else { Seq::empty() }) + Seq::new(occurrences(parents, p), |i: int| child)
}

/// An edge of the lineage: `b` is a parent in one of the derivations of `a`.
pub open spec fn lin_edge(c2d: Map<ORID, Vec<Derivation>>, a: ORID, b: ORID) -> bool {
    c2d.contains_key(a) && exists|i: int| 0 <= i < c2d[a]@.len() && (#[trigger] c2d[a]@[i]).parents@.contains(b)
}

pub open spec fn lin_walk(c2d: Map<ORID, Vec<Derivation>>, w: Seq<ORID>) -> bool {
    &&& w.len() >= 1
    &&& forall|j: int| 0 <= j < w.len() - 1 ==> lin_edge(c2d, #[trigger] w[j], w[j + 1])
}

/// `x` is `claim` or one of its ancestors through derivations.
pub open spec fn in_lineage(c2d: Map<ORID, Vec<Derivation>>, claim: ORID, x: ORID) -> bool {
    exists|w: Seq<ORID>| #[trigger] lin_walk(c2d, w) && w[0] == claim && w.last() == x
}

/// The members of the lineage of `claim` that have no derivation.
pub open spec fn lineage_roots(c2d: Map<ORID, Vec<Derivation>>, claim: ORID) -> Set<ORID> {
    Set::new(|x: ORID| in_lineage(c2d, claim, x) && !c2d.contains_key(x))
}

/// The derivations recorded for each node of `order`, node after node.
pub open spec fn derivations_along(c2d: Map<ORID, Vec<Derivation>>, order: Seq<ORID>) -> Seq<(Seq<char>, Seq<ORID>, ORID, Seq<char>)>
    decreases order.len(),
{
    if order.len() == 0 {
        Seq::empty()
    } else {
        derivations_along(c2d, order.drop_last()) + (if c2d.contains_key(order.last()) {
            dvs(c2d[order.last()]@)
        } else {
            Seq::empty()
        })
    }
}

proof fn lemma_lineage_step(c2d: Map<ORID, Vec<Derivation>>, claim: ORID, a: ORID, b: ORID)
    requires
        in_lineage(c2d, claim, a),
        lin_edge(c2d, a, b),
    ensures
        in_lineage(c2d, claim, b),
{
    let w = choose|w: Seq<ORID>| #[trigger] lin_walk(c2d, w) && w[0] == claim && w.last() == a;
    let w2 = w.push(b);
    assert forall|j: int| 0 <= j < w2.len() - 1 implies lin_edge(c2d, #[trigger] w2[j], w2[j + 1]) by {
        if j < w.len() - 1 {
            assert(w2[j] == w[j] && w2[j + 1] == w[j + 1]);
        } else {
            assert(w2[j] == w.last());
        }
    }
    assert(lin_walk(c2d, w2));
}

proof fn lemma_lineage_closed(c2d: Map<ORID, Vec<Derivation>>, s: Set<ORID>, w: Seq<ORID>)
    requires
        lin_walk(c2d, w),
        s.contains(w[0]),
        forall|a: ORID, b: ORID| #[trigger] s.contains(a) && lin_edge(c2d, a, b) ==> #[trigger] s.contains(b),
    ensures
        s.contains(w.last()),
    decreases w.len(),
{
    if w.len() > 1 {
        let p = w.drop_last();
        assert forall|j: int| 0 <= j < p.len() - 1 implies lin_edge(c2d, #[trigger] p[j], p[j + 1]) by {
            assert(p[j] == w[j] && p[j + 1] == w[j + 1]);
        }
        lemma_lineage_closed(c2d, s, p);
        assert(lin_edge(c2d, w[w.len() - 2], w[w.len() - 1]));
    }
}

impl ProvenanceHypergraph {
    /// Derivation links from parents to children never form a cycle.
    #[verifier::type_invariant]
    pub closed spec fn acyclic(&self) -> bool {
        !has_cycle(self.parent_to_children@)
    }

    /// The children derived from each parent.
    pub closed spec fn p2c(&self) -> Map<ORID, Vec<ORID>> {
        self.parent_to_children@
    }

    /// The derivations recorded for each child.
    pub closed spec fn c2d(&self) -> Map<ORID, Vec<Derivation>> {
        self.child_to_derivations@
    }

    pub fn new() -> (g: ProvenanceHypergraph)
        ensures
            !has_cycle(g.p2c()),
            g.p2c() == Map::<ORID, Vec<ORID>>::empty(),
            g.c2d() == Map::<ORID, Vec<Derivation>>::empty(),
    {
        let g = ProvenanceHypergraph { child_to_derivations: OridMap::new(), parent_to_children: OridMap::new() };
        proof {
            if has_cycle(g.parent_to_children@) {
                let w = choose|w: Seq<ORID>| #[trigger] is_walk(g.parent_to_children@, w) && w.len() >= 2 && w[0] == w.last();
                assert(adj_edge(g.parent_to_children@, w[0], w[1]));
            }
        }
        g
    }

    /// Whether `target` is reached from `start` along derivation links (zero or more).
    fn is_reachable(&self, start: ORID, target: ORID) -> (b: bool)
        ensures
            b == reaches(self.p2c(), start, target),
    {
        let srcs = [start];
        let b = reaches_any(&self.parent_to_children, srcs.as_slice(), &target);
        proof {
            assert(srcs@ =~= seq![start]);
            if reaches(self.p2c(), start, target) {
                assert(srcs@.contains(start));
            }
        }
        b
    }

    /// Records a derivation, unless one of its parents is the child or is
    /// derived from the child, which would close a cycle: then the first such
    /// parent is reported and nothing changes.
    pub fn insert_derivation(&mut self, derivation: Derivation) -> (res: Result<(), ProvenanceError>)
        ensures
            !has_cycle(final(self).p2c()),
            match first_cycle_parent(old(self).p2c(), derivation.parents@, derivation.child, 0) {
                Some(p) => {
                    &&& res == Err::<(), ProvenanceError>(
                        ProvenanceError::CycleDetected { child: derivation.child, ancestor: p },
                    )
                    &&& final(self).p2c() == old(self).p2c()
                    &&& final(self).c2d() == old(self).c2d()
                },
                None => {
                    &&& res is Ok
                    &&& linked(old(self).p2c(), final(self).p2c(), derivation.parents@, derivation.child)
                    &&& final(self).p2c().dom() == old(self).p2c().dom() + derivation.parents@.to_set()
                    &&& forall|p: ORID| #[trigger] final(self).p2c().contains_key(p) ==> final(self).p2c()[p]@ == children_after(
                        old(self).p2c(),
                        derivation.parents@,
                        derivation.child,
                        p,
                    )
                    &&& final(self).c2d().dom() == old(self).c2d().dom().insert(derivation.child)
                    &&& dvs(final(self).c2d()[derivation.child]@) == (if old(self).c2d().contains_key(derivation.child) {
                        dvs(old(self).c2d()[derivation.child]@)
                    } else {
                        Seq::empty()
                    }).push(dv(derivation))
                    &&& forall|k: ORID|
                        k != derivation.child && #[trigger] old(self).c2d().contains_key(k) ==> final(self).c2d()[k]
                            == old(self).c2d()[k]
                },
            },
    {
        proof {
            use_type_invariant(&*self);
        }
        let child = derivation.child;
        let mut i: usize = 0;
        while i < derivation.parents.len()
            invariant
                i <= derivation.parents@.len(),
                first_cycle_parent(self.p2c(), derivation.parents@, child, 0) == first_cycle_parent(
                    self.p2c(),
                    derivation.parents@,
                    child,
                    i as int,
                ),
                child == derivation.child,
                !has_cycle(self.p2c()),
                self.p2c() == old(self).p2c(),
                self.c2d() == old(self).c2d(),
            decreases derivation.parents@.len() - i,
        {
            let parent = derivation.parents[i];
            if parent == child || self.is_reachable(child, parent) {
                return Err(ProvenanceError::CycleDetected { child, ancestor: parent });
            }
            i = i + 1;
        }
        let ghost old_p2c = self.p2c();
        proof {
            lemma_first_cycle_parent_none(old_p2c, derivation.parents@, child, 0);
        }
        let mut links: OridMap<Vec<ORID>> = OridMap::new();
        std::mem::swap(&mut links, &mut self.parent_to_children);
        let mut j: usize = 0;
        while j < derivation.parents.len()
            invariant
                j <= derivation.parents@.len(),
                !has_cycle(old_p2c),
                child == derivation.child,
                forall|k: int| 0 <= k < derivation.parents@.len() ==> #[trigger] derivation.parents@[k] != child && !reaches(
                    old_p2c,
                    child,
                    derivation.parents@[k],
                ),
                links@.dom() == old_p2c.dom() + derivation.parents@.subrange(0, j as int).to_set(),
                forall|p: ORID| #[trigger] links@.contains_key(p) ==> links@[p]@ == children_after(
                    old_p2c,
                    derivation.parents@.subrange(0, j as int),
                    child,
                    p,
                ),
            decreases derivation.parents@.len() - j,
        {
            let parent = derivation.parents[j];
            let ghost l0 = links@;
            links.push_to(parent, child);
            proof {
                let pre = derivation.parents@.subrange(0, j as int);
                let post = derivation.parents@.subrange(0, j + 1);
                assert(post.drop_last() =~= pre);
                assert(post.last() == parent);
                assert(post.to_set() =~= pre.to_set().insert(parent));
                assert(links@.dom() =~= old_p2c.dom() + post.to_set());
                assert forall|p: ORID| #[trigger] links@.contains_key(p) implies links@[p]@ == children_after(old_p2c, post, child, p) by {
                    if p == parent {
                        assert(Seq::new(occurrences(post, p), |i: int| child) =~= Seq::new(occurrences(pre, p), |i: int| child).push(child));
                        if l0.contains_key(p) {
                        } else {
                            assert(!old_p2c.contains_key(p));
                            assert(occurrences(pre, p) == 0) by {
                                lemma_occurrences_absent(pre, p);
                            }
                        }
                    } else {
                        assert(occurrences(post, p) == occurrences(pre, p));
                    }
                }
            }
            j = j + 1;
        }
        proof {
            assert(derivation.parents@.subrange(0, j as int) =~= derivation.parents@);
            assert forall|a: ORID, b: ORID| #[trigger] adj_edge(links@, a, b) <==> adj_edge(old_p2c, a, b) || (b == child
                && derivation.parents@.contains(a)) by {
                lemma_children_after_edges(old_p2c, derivation.parents@, child, a, b);
                if links@.contains_key(a) {
                    assert(links@[a]@ == children_after(old_p2c, derivation.parents@, child, a));
                } else {
                    assert(!old_p2c.contains_key(a));
                    if derivation.parents@.contains(a) {
                        assert(derivation.parents@.to_set().contains(a));
                    }
                }
            }
            law_insertion_keeps_acyclic(old_p2c, links@, derivation.parents@, child);
        }
        self.parent_to_children = links;
        let mut records: OridMap<Vec<Derivation>> = OridMap::new();
        std::mem::swap(&mut records, &mut self.child_to_derivations);
        records.push_to(child, derivation);
        self.child_to_derivations = records;
        proof {
            let l = self.child_to_derivations@[child]@;
            let o = if old(self).c2d().contains_key(child) { old(self).c2d()[child]@ } else { Seq::empty() };
            assert(dvs(l) =~= dvs(o).push(dv(derivation)));
        }
        Ok(())
    }
}

proof fn lemma_occurrences_absent(s: Seq<ORID>, x: ORID)
    requires
        !s.contains(x),
    ensures
        occurrences(s, x) == 0,
    decreases s.len(),
{
    if s.len() > 0 {
        assert(!s.drop_last().contains(x)) by {
            if s.drop_last().contains(x) {
                let t = choose|t: int| 0 <= t < s.drop_last().len() && s.drop_last()[t] == x;
                assert(s[t] == x);
            }
        }
        lemma_occurrences_absent(s.drop_last(), x);
        assert(s.last() != x) by {
            assert(s[s.len() - 1] == s.last());
        }
    }
}

proof fn lemma_occurrences_present(s: Seq<ORID>, x: ORID)
    requires
        s.contains(x),
    ensures
        occurrences(s, x) > 0,
    decreases s.len(),
{
    if s.last() != x {
        let t = choose|t: int| 0 <= t < s.len() && s[t] == x;
        assert(s.drop_last()[t] == x);
        lemma_occurrences_present(s.drop_last(), x);
    }
}

/// The edges out of `a` after linking: the old ones, and the child when `a` is a parent.
proof fn lemma_children_after_edges(old: Map<ORID, Vec<ORID>>, parents: Seq<ORID>, child: ORID, a: ORID, b: ORID)
    ensures
        children_after(old, parents, child, a).contains(b) <==> (old.contains_key(a) && old[a]@.contains(b)) || (b == child
            && parents.contains(a)),
{
    let base = if old.contains_key(a) { old[a]@ } else { Seq::empty() };
    let extra = Seq::new(occurrences(parents, a), |i: int| child);
    let all = base + extra;
    if parents.contains(a) {
        lemma_occurrences_present(parents, a);
        if b == child {
            assert(all[base.len() as int] == child);
        }
    } else {
        lemma_occurrences_absent(parents, a);
        assert(extra.len() == 0);
        assert(all =~= base);
    }
    if all.contains(b) {
        let t = choose|t: int| 0 <= t < all.len() && all[t] == b;
        if t < base.len() {
            assert(base[t] == b);
        } else {
            assert(extra[t - base.len()] == child);
            if !parents.contains(a) {
                assert(false);
            }
        }
    }
    if old.contains_key(a) && old[a]@.contains(b) {
        let t = choose|t: int| 0 <= t < base.len() && base[t] == b;
        assert(all[t] == b);
    }
}

/// The state of the lineage search from `claim`: everything visited or pending
/// is in the lineage, the claim is visited or pending, and the parents of
/// visited nodes are visited or pending.
pub open spec fn why_inv(c2d: Map<ORID, Vec<Derivation>>, claim: ORID, vis: Set<ORID>, stack: Seq<ORID>) -> bool {
    &&& forall|t: int| 0 <= t < stack.len() ==> in_lineage(c2d, claim, #[trigger] stack[t])
    &&& forall|x: ORID| #[trigger] vis.contains(x) ==> in_lineage(c2d, claim, x)
    &&& vis.contains(claim) || stack.contains(claim)
    &&& forall|a: ORID, b: ORID|
        #![trigger vis.contains(a), lin_edge(c2d, a, b)]
        vis.contains(a) && lin_edge(c2d, a, b) ==> vis.contains(b) || stack.contains(b)
}

/// The ids of `ps` that are not in `vis`, in order.
pub open spec fn unvisited(ps: Seq<ORID>, vis: Set<ORID>) -> Seq<ORID>
    decreases ps.len(),
{
    if ps.len() == 0 {
        Seq::empty()
    } else {
        unvisited(ps.drop_last(), vis) + (if vis.contains(ps.last()) {
            Seq::empty()
        } else {
            seq![ps.last()]
        })
    }
}

/// The parents of the derivations `ds` that are not in `vis`, derivation
/// after derivation.
pub open spec fn pushes(ds: Seq<Derivation>, vis: Set<ORID>) -> Seq<ORID>
    decreases ds.len(),
{
    if ds.len() == 0 {
        Seq::empty()
    } else {
        pushes(ds.drop_last(), vis) + unvisited(ds.last().parents@, vis)
    }
}

/// The order in which a depth-first walk visits the ids: it takes the last id
/// of `stack`, skips it when it is in `vis`, and otherwise visits it and puts
/// on the stack the parents of its derivations that are not visited yet.
pub open spec fn dfs_from(c2d: Map<ORID, Vec<Derivation>>, stack: Seq<ORID>, vis: Set<ORID>) -> Seq<ORID>
    decreases c2d.dom().difference(vis).len(), stack.len(),
    when c2d.dom().finite()
{
    if stack.len() == 0 {
        Seq::empty()
    } else {
        let curr = stack.last();
        if vis.contains(curr) {
            dfs_from(c2d, stack.drop_last(), vis)
        } else {
            let v2 = vis.insert(curr);
            proof {
                if c2d.contains_key(curr) {
                    assert(c2d.dom().difference(v2) =~= c2d.dom().difference(vis).remove(curr));
                    assert(c2d.dom().difference(vis).contains(curr));
                } else {
                    assert(c2d.dom().difference(v2) =~= c2d.dom().difference(vis));
                }
            }
            seq![curr] + dfs_from(
                c2d,
                stack.drop_last() + (if c2d.contains_key(curr) {
                    pushes(c2d[curr]@, v2)
                } else {
                    Seq::empty()
                }),
                v2,
            )
        }
    }
}

impl Default for ProvenanceHypergraph {
    fn default() -> (g: Self)
        ensures
            g.p2c() == Map::<ORID, Vec<ORID>>::empty(),
            g.c2d() == Map::<ORID, Vec<Derivation>>::empty(),
    {
        ProvenanceHypergraph::new()
    }
}

impl ProvenanceHypergraph {
    /// The lineage of `claim`: its roots, the members of its lineage without a
    /// derivation, listed once each by digest; and every derivation of every
    /// member of its lineage, member after member.
    pub fn why(&self, claim: &ORID) -> (res: Result<LineageProof, ProvenanceError>)
        ensures
            res matches Ok(proof) && {
                &&& proof.target == *claim
                &&& proof.roots@.to_set() == lineage_roots(self.c2d(), *claim)
                &&& proof.roots@.no_duplicates()
                &&& sorted_by_hash(proof.roots@)
                &&& exists|order: Seq<ORID>|
                    #![trigger derivations_along(self.c2d(), order)]
                    {
                        &&& order.no_duplicates()
                        &&& order.to_set() == Set::new(|x: ORID| in_lineage(self.c2d(), *claim, x))
                        &&& dvs(proof.derivations@) == derivations_along(self.c2d(), order)
                        &&& order.len() > 0 && order[0] == *claim
                    }
                &&& dvs(proof.derivations@) == derivations_along(self.c2d(), dfs_from(self.c2d(), seq![*claim], Set::empty()))
            },
    {
        let ghost c2d = self.c2d();
        let mut visited: OridMap<()> = OridMap::new();
        let mut roots: OridMap<()> = OridMap::new();
        let mut collected: Vec<Derivation> = Vec::new();
        let mut stack: Vec<ORID> = Vec::new();
        stack.push(*claim);
        proof {
            use_type_invariant(&self.child_to_derivations);
            self.child_to_derivations.lemma_domain();
            let w = seq![*claim];
            assert(lin_walk(c2d, w));
            assert(stack@[0] == *claim);
            assert(visited@.dom() =~= Set::empty());
            assert(visited.key_seq() =~= Seq::<ORID>::empty());
            assert(dvs(collected@) =~= derivations_along(c2d, visited.key_seq()));
        }
        loop
            invariant
                c2d == self.c2d(),
                c2d.dom().finite(),
                why_inv(c2d, *claim, visited@.dom(), stack@),
                forall|x: ORID| #[trigger] roots@.contains_key(x) <==> visited@.contains_key(x) && !c2d.contains_key(x),
                dvs(collected@) == derivations_along(c2d, visited.key_seq()),
                visited.key_seq().len() == 0 ==> stack@ == seq![*claim] && visited@.dom() == Set::<ORID>::empty(),
                visited.key_seq().len() > 0 ==> visited.key_seq()[0] == *claim,
                visited.key_seq() + dfs_from(c2d, stack@, visited@.dom()) == dfs_from(c2d, seq![*claim], Set::empty()),
            ensures
                stack@.len() == 0,
            decreases c2d.dom().difference(visited@.dom()).len(), stack@.len(),
        {
            let ghost st0 = stack@;
            let ghost vis0 = visited@.dom();
            let ghost keys0 = visited.key_seq();
            let curr = match stack.pop() {
                Some(c) => c,
                None => {
                    proof {
                        assert(dfs_from(c2d, stack@, visited@.dom()) =~= Seq::<ORID>::empty());
                        assert(visited.key_seq() + Seq::<ORID>::empty() =~= visited.key_seq());
                    }
                    break;
                },
            };
            proof {
                assert(st0 == stack@.push(curr));
                assert(st0.drop_last() =~= stack@);
                assert(st0[st0.len() - 1] == curr);
                assert forall|b: ORID| #[trigger] st0.contains(b) && b != curr implies stack@.contains(b) by {
                    let t = choose|t: int| 0 <= t < st0.len() && st0[t] == b;
                    assert(stack@[t] == b);
                }
                assert forall|t: int| 0 <= t < stack@.len() implies in_lineage(c2d, *claim, #[trigger] stack@[t]) by {
                    assert(stack@[t] == st0[t]);
                }
                use_type_invariant(&visited);
                visited.lemma_domain();
            }
            if visited.contains_key(&curr) {
                proof {
                    assert(dfs_from(c2d, st0, vis0) == dfs_from(c2d, stack@, vis0));
                }
                continue;
            }
            visited.insert(curr, ());
            let ghost vis1 = visited@.dom();
            proof {
                assert(visited@.dom() =~= vis0.insert(curr));
                if c2d.contains_key(curr) {
                    assert(c2d.dom().difference(visited@.dom()) =~= c2d.dom().difference(vis0).remove(curr));
                } else {
                    assert(c2d.dom().difference(visited@.dom()) =~= c2d.dom().difference(vis0));
                }
                assert(in_lineage(c2d, *claim, curr));
                assert(visited.key_seq() == keys0.push(curr));
                assert(visited.key_seq().drop_last() =~= keys0);
            }
            let ghost base = stack@;
            match self.child_to_derivations.get(&curr) {
                Some(derivs) => {
                    let mut d: usize = 0;
                    let ghost col0 = dvs(collected@);
                    proof {
                        assert(stack@ =~= base + pushes(derivs@.subrange(0, 0), vis1));
                    }
                    while d < derivs.len()
                        invariant
                            c2d == self.c2d(),
                            c2d.contains_key(curr),
                            *derivs == c2d[curr],
                            in_lineage(c2d, *claim, curr),
                            visited@.contains_key(curr),
                            visited@.dom() == vis1,
                            stack@ == base + pushes(derivs@.subrange(0, d as int), vis1),
                            d <= derivs@.len(),
                            dvs(collected@) == col0 + dvs(derivs@.subrange(0, d as int)),
                            stack@.len() >= base.len(),
                            stack@.subrange(0, base.len() as int) == base,
                            forall|t: int| 0 <= t < stack@.len() ==> in_lineage(c2d, *claim, #[trigger] stack@[t]),
                            forall|e: int, q: int|
                                0 <= e < d && 0 <= q < derivs@[e].parents@.len() ==> visited@.contains_key(
                                    #[trigger] derivs@[e].parents@[q],
                                ) || stack@.contains(derivs@[e].parents@[q]),
                        decreases derivs@.len() - d,
                    {
                        let deriv = &derivs[d];
                        let ghost co0 = collected@;
                        collected.push(deriv.clone());
                        proof {
                            assert(derivs@.subrange(0, d + 1) =~= derivs@.subrange(0, d as int).push(*deriv));
                            assert(dvs(collected@) =~= dvs(co0).push(dv(*deriv)));
                            assert(dvs(derivs@.subrange(0, d + 1)) =~= dvs(derivs@.subrange(0, d as int)).push(dv(*deriv)));
                            assert(dvs(collected@) =~= col0 + dvs(derivs@.subrange(0, d + 1)));
                        }
                        let mut q: usize = 0;
                        proof {
                            assert(stack@ =~= base + pushes(derivs@.subrange(0, d as int), vis1) + unvisited(
                                deriv.parents@.subrange(0, 0),
                                vis1,
                            ));
                        }
                        while q < deriv.parents.len()
                            invariant
                                c2d == self.c2d(),
                                c2d.contains_key(curr),
                                *derivs == c2d[curr],
                                d < derivs@.len(),
                                *deriv == derivs@[d as int],
                                in_lineage(c2d, *claim, curr),
                                q <= deriv.parents@.len(),
                                visited@.dom() == vis1,
                                stack@ == base + pushes(derivs@.subrange(0, d as int), vis1) + unvisited(
                                    deriv.parents@.subrange(0, q as int),
                                    vis1,
                                ),
                                stack@.len() >= base.len(),
                                stack@.subrange(0, base.len() as int) == base,
                                forall|t: int| 0 <= t < stack@.len() ==> in_lineage(c2d, *claim, #[trigger] stack@[t]),
                                forall|e: int, r: int|
                                    0 <= e < d && 0 <= r < derivs@[e].parents@.len() ==> visited@.contains_key(
                                        #[trigger] derivs@[e].parents@[r],
                                    ) || stack@.contains(derivs@[e].parents@[r]),
                                forall|r: int|
                                    0 <= r < q ==> visited@.contains_key(#[trigger] deriv.parents@[r]) || stack@.contains(
                                        deriv.parents@[r],
                                    ),
                            decreases deriv.parents@.len() - q,
                        {
                            let parent = deriv.parents[q];
                            proof {
                                let ps = deriv.parents@.subrange(0, q + 1);
                                assert(ps.drop_last() =~= deriv.parents@.subrange(0, q as int));
                                assert(ps.last() == parent);
                                use_type_invariant(&visited);
                                visited.lemma_domain();
                            }
                            if !visited.contains_key(&parent) {
                                let ghost s0 = stack@;
                                stack.push(parent);
                                proof {
                                    assert(stack@.subrange(0, base.len() as int) =~= base);
                                    assert(lin_edge(c2d, curr, parent)) by {
                                        assert(c2d[curr]@[d as int].parents@.contains(parent));
                                    }
                                    lemma_lineage_step(c2d, *claim, curr, parent);
                                    assert forall|t: int| 0 <= t < stack@.len() implies in_lineage(c2d, *claim, #[trigger] stack@[t]) by {
                                        if t < s0.len() {
                                            assert(stack@[t] == s0[t]);
                                        }
                                    }
                                    assert forall|b: ORID| #[trigger] s0.contains(b) implies stack@.contains(b) by {
                                        let t = choose|t: int| 0 <= t < s0.len() && s0[t] == b;
                                        assert(stack@[t] == b);
                                    }
                                    assert(stack@[stack@.len() - 1] == parent);
                                }
                            }
                            proof {
                                assert(stack@ =~= base + pushes(derivs@.subrange(0, d as int), vis1) + unvisited(
                                    deriv.parents@.subrange(0, q + 1),
                                    vis1,
                                ));
                            }
                            q = q + 1;
                        }
                        proof {
                            let ds = derivs@.subrange(0, d + 1);
                            assert(ds.drop_last() =~= derivs@.subrange(0, d as int));
                            assert(ds.last() == *deriv);
                            assert(deriv.parents@.subrange(0, q as int) =~= deriv.parents@);
                            assert(stack@ =~= base + pushes(derivs@.subrange(0, d + 1), vis1));
                        }
                        d = d + 1;
                    }
                    proof {
                        assert(derivs@.subrange(0, d as int) =~= derivs@);
                        assert(dvs(collected@) =~= derivations_along(c2d, visited.key_seq()));
                    }
                },
                None => {
                    roots.insert(curr, ());
                    proof {
                        assert(dvs(collected@) =~= derivations_along(c2d, visited.key_seq()));
                    }
                },
            }
            proof {
                let tail = if c2d.contains_key(curr) {
                    pushes(c2d[curr]@, vis1)
                } else {
                    Seq::empty()
                };
                assert(stack@ =~= base + tail);
                assert(vis1 =~= vis0.insert(curr));
                assert(dfs_from(c2d, st0, vis0) == seq![curr] + dfs_from(c2d, base + tail, vis1));
                assert(visited.key_seq() + dfs_from(c2d, stack@, visited@.dom()) =~= keys0 + dfs_from(c2d, st0, vis0));
                assert forall|b: ORID| #[trigger] base.contains(b) implies stack@.contains(b) by {
                    let t = choose|t: int| 0 <= t < base.len() && base[t] == b;
                    assert(stack@.subrange(0, base.len() as int)[t] == b);
                    assert(stack@[t] == b);
                }
                assert forall|a: ORID, b: ORID|
                    #![trigger visited@.dom().contains(a), lin_edge(c2d, a, b)]
                    visited@.dom().contains(a) && lin_edge(c2d, a, b) implies visited@.dom().contains(b) || stack@.contains(b) by {
                    if a == curr {
                        let e = choose|e: int| 0 <= e < c2d[a]@.len() && (#[trigger] c2d[a]@[e]).parents@.contains(b);
                        let r = choose|r: int| 0 <= r < c2d[a]@[e].parents@.len() && c2d[a]@[e].parents@[r] == b;
                        assert(c2d[a]@[e].parents@[r] == b);
                    } else {
                        assert(vis0.contains(a));
                        if !vis0.contains(b) {
                            assert(st0.contains(b));
                            if b != curr {
                                assert(base.contains(b));
                            }
                        }
                    }
                }
                assert(visited@.dom().contains(*claim) || stack@.contains(*claim)) by {
                    if !vis0.contains(*claim) && *claim != curr {
                        assert(base.contains(*claim));
                    }
                }
            }
        }
        proof {
            use_type_invariant(&visited);
            visited.lemma_domain();
            use_type_invariant(&roots);
            roots.lemma_domain();
            let lin = Set::new(|x: ORID| in_lineage(c2d, *claim, x));
            assert(!Seq::<ORID>::empty().contains(*claim));
            assert forall|a: ORID, b: ORID| #[trigger] visited@.dom().contains(a) && lin_edge(c2d, a, b) implies #[trigger] visited@.dom().contains(b) by {
                assert(!Seq::<ORID>::empty().contains(b));
            }
            assert forall|x: ORID| #[trigger] lin.contains(x) implies visited@.dom().contains(x) by {
                let w = choose|w: Seq<ORID>| #[trigger] lin_walk(c2d, w) && w[0] == *claim && w.last() == x;
                lemma_lineage_closed(c2d, visited@.dom(), w);
            }
            assert(visited.key_seq().to_set() =~= lin);
            assert(roots@.dom() =~= lineage_roots(c2d, *claim));
        }
        let root_keys = roots.keys();
        let sorted = sort_by_hash(root_keys);
        proof {
            broadcast use vstd::seq_lib::group_to_multiset_ensures;
            assert forall|x: ORID| #[trigger] sorted@.to_set().contains(x) <==> root_keys@.to_set().contains(x) by {
                assert(sorted@.contains(x) <==> sorted@.to_multiset().count(x) > 0);
                assert(root_keys@.contains(x) <==> root_keys@.to_multiset().count(x) > 0);
            }
            assert(sorted@.to_set() =~= root_keys@.to_set());
            assert(sorted@.no_duplicates()) by {
                assert forall|i: int, j: int| 0 <= i < sorted@.len() && 0 <= j < sorted@.len() && i != j implies sorted@[i] != sorted@[j] by {
                    if sorted@[i] == sorted@[j] {
                        lemma_two_copies(sorted@, i, j);
                        assert(root_keys@.to_multiset().count(sorted@[i]) >= 2);
                        root_keys@.lemma_multiset_has_no_duplicates();
                    }
                }
            }
        }
        Ok(LineageProof { target: *claim, roots: sorted, derivations: collected })
    }
}

/// A value at two positions counts at least twice.
proof fn lemma_two_copies(s: Seq<ORID>, i: int, j: int)
    requires
        0 <= i < s.len(),
        0 <= j < s.len(),
        i != j,
        s[i] == s[j],
    ensures
        s.to_multiset().count(s[i]) >= 2,
{
    broadcast use vstd::seq_lib::group_to_multiset_ensures;
    let x = s[i];
    let (a, b) = if i < j { (i, j) } else { (j, i) };
    let r = s.remove(b);
    assert(r[a] == x);
    assert(r.to_multiset().count(x) >= 1);
    assert(s.to_multiset().remove(x).count(x) >= 1);
}

} // verus!
