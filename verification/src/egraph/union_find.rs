//! Union-find over dense ids with path compression.
//!
//! A ghost rank that strictly grows along parent links proves that every id
//! reaches a root; the contracts speak of the root of each id.

use vstd::prelude::*;

verus! {

/// Parent links with ranks that grow strictly towards the roots and stay below `bound`.
pub open spec fn links_wf(p: Seq<u32>, rank: Seq<nat>, bound: nat) -> bool {
    &&& p.len() == rank.len()
    &&& p.len() <= u32::MAX
    &&& forall|i: int| 0 <= i < p.len() ==> (#[trigger] p[i]) < p.len()
    &&& forall|i: int| 0 <= i < p.len() && p[i] != i ==> #[trigger] rank[i] < rank[p[i] as int]
    &&& forall|i: int| 0 <= i < p.len() ==> #[trigger] rank[i] < bound
}

/// The root reached from `i` by following parent links.
pub open spec fn root_of(p: Seq<u32>, rank: Seq<nat>, bound: nat, i: int) -> int
    decreases bound - rank[i],
    when links_wf(p, rank, bound) && 0 <= i < p.len()
{
    if p[i] == i {
        i
    } else {
        root_of(p, rank, bound, p[i] as int)
    }
}

/// The root of every id is a root below the length, at least as high in rank.
pub proof fn lemma_root_props(p: Seq<u32>, rank: Seq<nat>, bound: nat, i: int)
    requires
        links_wf(p, rank, bound),
        0 <= i < p.len(),
    ensures
        0 <= root_of(p, rank, bound, i) < p.len(),
        p[root_of(p, rank, bound, i)] == root_of(p, rank, bound, i),
        root_of(p, rank, bound, i) == i || rank[i] < rank[root_of(p, rank, bound, i)],
    decreases bound - rank[i],
{
    if p[i] != i {
        lemma_root_props(p, rank, bound, p[i] as int);
    }
}

/// Pointing `c` straight at its root keeps every root.
proof fn lemma_compress(p: Seq<u32>, rank: Seq<nat>, bound: nat, c: int, x: int)
    requires
        links_wf(p, rank, bound),
        0 <= c < p.len(),
        0 <= x < p.len(),
        links_wf(p.update(c, root_of(p, rank, bound, c) as u32), rank, bound),
    ensures
        root_of(p.update(c, root_of(p, rank, bound, c) as u32), rank, bound, x) == root_of(p, rank, bound, x),
    decreases bound - rank[x],
{
    let r = root_of(p, rank, bound, c);
    lemma_root_props(p, rank, bound, c);
    assert((r as u32) as int == r);
    let q = p.update(c, r as u32);
    if x == c {
        if r != c {
            assert(q[r] == p[r]);
            assert(root_of(q, rank, bound, r) == r);
            assert(root_of(q, rank, bound, c) == root_of(q, rank, bound, r));
        }
    } else if p[x] != x {
        lemma_compress(p, rank, bound, c, p[x] as int);
    }
}

/// Pointing `c` straight at its root keeps the links well formed and every root.
proof fn lemma_compress_all(p: Seq<u32>, rank: Seq<nat>, bound: nat, c: int)
    requires
        links_wf(p, rank, bound),
        0 <= c < p.len(),
    ensures
        links_wf(p.update(c, root_of(p, rank, bound, c) as u32), rank, bound),
        forall|x: int| 0 <= x < p.len() ==> #[trigger] root_of(p.update(c, root_of(p, rank, bound, c) as u32), rank, bound, x)
            == root_of(p, rank, bound, x),
{
    let r = root_of(p, rank, bound, c);
    lemma_root_props(p, rank, bound, c);
    assert((r as u32) as int == r);
    let q = p.update(c, r as u32);
    assert forall|i: int| 0 <= i < q.len() && q[i] != i implies #[trigger] rank[i] < rank[q[i] as int] by {
        if i != c {
            assert(q[i] == p[i]);
        }
    }
    assert forall|i: int| 0 <= i < q.len() implies (#[trigger] q[i]) < q.len() by {}
    assert(links_wf(q, rank, bound));
    assert forall|x: int| 0 <= x < p.len() implies #[trigger] root_of(q, rank, bound, x) == root_of(p, rank, bound, x) by {
        lemma_compress(p, rank, bound, c, x);
    }
}

/// Two link tables give every id the same root.
#[verifier::opaque]
pub open spec fn same_roots(p: Seq<u32>, q: Seq<u32>, rank: Seq<nat>, bound: nat) -> bool {
    &&& p.len() == q.len()
    &&& forall|x: int| 0 <= x < p.len() ==> #[trigger] root_of(p, rank, bound, x) == root_of(q, rank, bound, x)
}

proof fn lemma_same_roots_trans(p: Seq<u32>, q: Seq<u32>, t: Seq<u32>, rank: Seq<nat>, bound: nat)
    requires
        p.len() == q.len(),
        forall|x: int| 0 <= x < p.len() ==> #[trigger] root_of(p, rank, bound, x) == root_of(q, rank, bound, x),
        same_roots(q, t, rank, bound),
    ensures
        same_roots(p, t, rank, bound),
{
    reveal(same_roots);
}

/// Linking root `rj` under root `ri` moves exactly the ids of `rj` to `ri`.
proof fn lemma_link(p: Seq<u32>, rank: Seq<nat>, bound: nat, rank2: Seq<nat>, bound2: nat, ri: int, rj: int, x: int)
    requires
        links_wf(p, rank, bound),
        0 <= ri < p.len(),
        0 <= rj < p.len(),
        p[ri] == ri,
        p[rj] == rj,
        ri != rj,
        links_wf(p.update(rj, ri as u32), rank2, bound2),
        0 <= x < p.len(),
    ensures
        root_of(p.update(rj, ri as u32), rank2, bound2, x) == (if root_of(p, rank, bound, x) == rj {
            ri
        } else {
            root_of(p, rank, bound, x)
        }),
    decreases bound - rank[x],
{
    let q = p.update(rj, ri as u32);
    assert((ri as u32) as int == ri);
    if p[x] == x {
        if x == rj {
            assert(q[ri] == ri);
            assert(root_of(q, rank2, bound2, ri) == ri);
            assert(root_of(q, rank2, bound2, rj) == root_of(q, rank2, bound2, ri));
        }
    } else {
        lemma_link(p, rank, bound, rank2, bound2, ri, rj, p[x] as int);
    }
}

#[derive(Clone)]
pub struct UnionFind {
    parents: Vec<u32>,
    rank: Ghost<Seq<nat>>,
    bound: Ghost<nat>,
}

impl UnionFind {
    pub closed spec fn wf(&self) -> bool {
        links_wf(self.parents@, self.rank@, self.bound@)
    }

    /// The number of ids.
    pub closed spec fn size(&self) -> nat {
        self.parents@.len()
    }

    /// The root of the class of `i`.
    pub closed spec fn root(&self, i: int) -> int {
        root_of(self.parents@, self.rank@, self.bound@, i)
    }

    /// Every root is an id whose class it represents.
    pub proof fn lemma_root(&self, i: int)
        requires
            self.wf(),
            0 <= i < self.size(),
        ensures
            0 <= self.root(i) < self.size(),
            self.root(self.root(i)) == self.root(i),
    {
        lemma_root_props(self.parents@, self.rank@, self.bound@, i);
        let r = self.root(i);
        assert(self.parents@[r] == r);
    }

    /// The ids that are roots of their classes.
    pub closed spec fn roots(&self) -> Set<int> {
        Set::new(|x: int| 0 <= x < self.size() && self.root(x) == x)
    }

    /// There are finitely many roots, at most one per id.
    pub proof fn lemma_roots_finite(&self)
        ensures
            self.roots().finite(),
            self.roots().len() <= self.size(),
    {
        let r = vstd::set_lib::set_int_range(0, self.size() as int);
        assert(self.roots().subset_of(r));
        vstd::set_lib::lemma_int_range(0, self.size() as int);
        vstd::set_lib::lemma_len_subset(self.roots(), r);
    }

    /// The root of every id is among the roots.
    pub proof fn lemma_roots_contains(&self, x: int)
        requires
            self.wf(),
            0 <= x < self.size(),
        ensures
            self.roots().contains(self.root(x)),
    {
        self.lemma_root(x);
    }

    pub fn new() -> (uf: UnionFind)
        ensures
            uf.wf(),
            uf.size() == 0,
    {
        UnionFind { parents: Vec::new(), rank: Ghost(Seq::empty()), bound: Ghost(0) }
    }

    pub fn len(&self) -> (n: usize)
        ensures
            n == self.size(),
    {
        self.parents.len()
    }

    /// Adds a new singleton class; its id is the previous number of ids.
    pub fn make_set(&mut self) -> (id: u32)
        requires
            old(self).wf(),
            old(self).size() < u32::MAX,
        ensures
            final(self).wf(),
            id == old(self).size(),
            final(self).size() == old(self).size() + 1,
            final(self).root(id as int) == id,
            forall|x: int| 0 <= x < old(self).size() ==> #[trigger] final(self).root(x) == old(self).root(x),
    {
        let ghost p0 = self.parents@;
        let ghost r0 = self.rank@;
        let ghost b0 = self.bound@;
        let id = self.parents.len() as u32;
        self.parents.push(id);
        self.rank = Ghost(r0.push(0));
        self.bound = Ghost(b0 + 1);
        proof {
            let p1 = self.parents@;
            let r1 = self.rank@;
            let b1 = self.bound@;
            assert(links_wf(p1, r1, b1));
            assert forall|x: int| 0 <= x < p0.len() implies #[trigger] root_of(p1, r1, b1, x) == root_of(p0, r0, b0, x) by {
                lemma_extend(p0, r0, b0, x);
            }
            assert(p1[id as int] == id);
        }
        id
    }

    /// The root of `i`, without changing any link.
    pub fn find_immutable(&self, i: u32) -> (r: u32)
        requires
            self.wf(),
            i < self.size(),
        ensures
            r == self.root(i as int),
    {
        let mut root = i;
        while root != self.parents[root as usize]
            invariant
                self.wf(),
                root < self.size(),
                self.root(root as int) == self.root(i as int),
            decreases self.bound@ - self.rank@[root as int],
        {
            root = self.parents[root as usize];
        }
        root
    }

    /// The root of `i`; every link on the way is pointed straight at the root.
    pub fn find(&mut self, i: u32) -> (r: u32)
        requires
            old(self).wf(),
            i < old(self).size(),
        ensures
            final(self).wf(),
            r == old(self).root(i as int),
            final(self).size() == old(self).size(),
            forall|x: int| 0 <= x < old(self).size() ==> #[trigger] final(self).root(x) == old(self).root(x),
            final(self).roots() == old(self).roots(),
    {
        let root = self.find_immutable(i);
        let ghost p0 = self.parents@;
        let ghost rank = self.rank@;
        let ghost bound = self.bound@;
        let mut parents: Vec<u32> = Vec::new();
        std::mem::swap(&mut parents, &mut self.parents);
        let mut curr = i;
        proof {
            lemma_root_props(p0, rank, bound, i as int);
            reveal(same_roots);
        }
        while curr != root
            invariant
                links_wf(parents@, rank, bound),
                same_roots(parents@, p0, rank, bound),
                curr < parents@.len(),
                root_of(parents@, rank, bound, curr as int) == root,
                parents@[root as int] == root,
            decreases bound - rank[curr as int],
        {
            let next = parents[curr as usize];
            proof {
                lemma_root_props(parents@, rank, bound, curr as int);
                lemma_compress_all(parents@, rank, bound, curr as int);
                lemma_same_roots_trans(parents@.update(curr as int, root), parents@, p0, rank, bound);
                if next != curr {
                    lemma_root_props(parents@, rank, bound, next as int);
                }
            }
            parents.set(curr as usize, root);
            curr = next;
        }
        self.parents = parents;
        proof {
            reveal(same_roots);
            assert(self.roots() =~= old(self).roots());
        }
        root
    }

    /// Joins the classes of `i` and `j` under the root of `i`, which it returns.
    pub fn union(&mut self, i: u32, j: u32) -> (r: u32)
        requires
            old(self).wf(),
            i < old(self).size(),
            j < old(self).size(),
        ensures
            final(self).wf(),
            r == old(self).root(i as int),
            final(self).size() == old(self).size(),
            forall|x: int|
                0 <= x < old(self).size() ==> #[trigger] final(self).root(x) == (if old(self).root(x) == old(self).root(
                    j as int,
                ) {
                    old(self).root(i as int)
                } else {
                    old(self).root(x)
                }),
            old(self).root(i as int) == old(self).root(j as int) ==> final(self).roots() == old(self).roots(),
            old(self).root(i as int) != old(self).root(j as int) ==> final(self).roots() == old(self).roots().remove(
                old(self).root(j as int),
            ),
    {
        let ghost orig = *self;
        let root_i = self.find(i);
        let root_j = self.find(j);
        proof {
            assert(self.root(i as int) == root_i);
            lemma_root_props(self.parents@, self.rank@, self.bound@, i as int);
            lemma_root_props(self.parents@, self.rank@, self.bound@, j as int);
            assert(self.root(j as int) == root_j);
            assert(self.root(root_i as int) == root_i);
            assert(self.root(root_j as int) == root_j);
        }
        if root_i != root_j {
            let ghost mid = *self;
            self.link(root_i, root_j);
            proof {
                assert forall|x: int| #[trigger] self.roots().contains(x) <==> mid.roots().remove(root_j as int).contains(x) by {
                    if 0 <= x < self.size() {
                        if mid.root(x) == x && x != root_j {
                            assert(self.root(x) == x);
                        }
                        if self.root(x) == x {
                            if mid.root(x) == root_j {
                                assert(x == root_i);
                                assert(false);
                            }
                        }
                    }
                }
                assert(self.roots() =~= mid.roots().remove(root_j as int));
            }
        }
        root_i
    }

    /// Points root `rj` at root `ri`.
    fn link(&mut self, ri: u32, rj: u32)
        requires
            old(self).wf(),
            ri < old(self).size(),
            rj < old(self).size(),
            ri != rj,
            old(self).root(ri as int) == ri,
            old(self).root(rj as int) == rj,
        ensures
            final(self).wf(),
            final(self).size() == old(self).size(),
            forall|x: int|
                0 <= x < old(self).size() ==> #[trigger] final(self).root(x) == (if old(self).root(x) == rj {
                    ri as int
                } else {
                    old(self).root(x)
                }),
    {
        let ghost p0 = self.parents@;
        let ghost r0 = self.rank@;
        let ghost b0 = self.bound@;
        proof {
            lemma_root_props(p0, r0, b0, ri as int);
            lemma_root_props(p0, r0, b0, rj as int);
        }
        let ghost new_rank_i: nat = if r0[ri as int] > r0[rj as int] { r0[ri as int] } else { r0[rj as int] + 1 };
        let ghost r1 = r0.update(ri as int, new_rank_i);
        let ghost b1: nat = if b0 > new_rank_i + 1 { b0 } else { new_rank_i + 1 };
        self.parents.set(rj as usize, ri);
        self.rank = Ghost(r1);
        self.bound = Ghost(b1);
        proof {
            let p1 = self.parents@;
            assert forall|x: int| 0 <= x < p1.len() && p1[x] != x implies #[trigger] r1[x] < r1[p1[x] as int] by {
                if x == rj {
                } else {
                    assert(p1[x] == p0[x]);
                    if x == ri {
                        assert(false);
                    }
                }
            }
            assert(links_wf(p1, r1, b1));
            assert forall|x: int| 0 <= x < p0.len() implies #[trigger] root_of(p1, r1, b1, x) == (if root_of(
                p0,
                r0,
                b0,
                x,
            ) == rj {
                ri as int
            } else {
                root_of(p0, r0, b0, x)
            }) by {
                lemma_link(p0, r0, b0, r1, b1, ri as int, rj as int, x);
            }
        }
    }
}

/// Appending a fresh root keeps every existing root.
proof fn lemma_extend(p: Seq<u32>, rank: Seq<nat>, bound: nat, x: int)
    requires
        links_wf(p, rank, bound),
        links_wf(p.push(p.len() as u32), rank.push(0), bound + 1),
        0 <= x < p.len(),
    ensures
        root_of(p.push(p.len() as u32), rank.push(0), bound + 1, x) == root_of(p, rank, bound, x),
    decreases bound - rank[x],
{
    if p[x] != x {
        lemma_extend(p, rank, bound, p[x] as int);
    }
}

} // verus!
