//! E-graphs: hash-consed expression nodes grouped into typed equivalence classes.
//!
//! Every class has one type, and a union of classes of different types is
//! refused, so no class ever mixes types.

pub mod union_find;
pub mod rewrite;
pub mod closure;
pub mod sound;

use std::collections::HashMap;
use vstd::prelude::*;
pub use crate::egraph::union_find::UnionFind;

verus! {

broadcast use vstd::std_specs::hash::group_hash_axioms;

#[derive(Debug, Clone, Copy, PartialEq, Eq, Hash, PartialOrd, Ord, Structural)]
pub enum EType {
    Bool,
    Int,
    Float,
    Vector,
}

pub type Id = u32;

#[derive(Debug, PartialEq, Eq, Hash)]
pub struct ENode {
    pub op: String,
    pub children: Vec<Id>,
    pub ty: EType,
}

/// What a node is: its operator, its children and its type.
pub open spec fn nv(n: ENode) -> (Seq<char>, Seq<u32>, EType) {
    (n.op@, n.children@, n.ty)
}

impl Clone for ENode {
    fn clone(&self) -> (c: Self)
        ensures
            nv(c) == nv(*self),
    {
        ENode { op: self.op.clone(), children: self.children.clone(), ty: self.ty }
    }
}

impl ENode {
    pub fn new(op: &str, children: Vec<Id>, ty: EType) -> (n: ENode)
        ensures
            n.op@ == op@,
            n.children@ == children@,
            n.ty == ty,
    {
        ENode { op: op.to_owned(), children, ty }
    }
}

/// Whether two nodes are the same node.
pub fn same_node(a: &ENode, b: &ENode) -> (r: bool)
    ensures
        r == (nv(*a) == nv(*b)),
{
    if a.ty != b.ty || a.children.len() != b.children.len() {
        return false;
    }
    if a.op != b.op {
        return false;
    }
    let mut i: usize = 0;
    while i < a.children.len()
        invariant
            i <= a.children@.len(),
            a.children@.len() == b.children@.len(),
            a.children@.subrange(0, i as int) == b.children@.subrange(0, i as int),
        decreases a.children@.len() - i,
    {
        if a.children[i] != b.children[i] {
            assert(a.children@[i as int] != b.children@[i as int]);
            return false;
        }
        i = i + 1;
        assert(a.children@.subrange(0, i as int) =~= a.children@.subrange(0, i - 1).push(a.children@[i - 1]));
        assert(b.children@.subrange(0, i as int) =~= b.children@.subrange(0, i - 1).push(b.children@[i - 1]));
    }
    assert(a.children@.subrange(0, i as int) =~= a.children@);
    assert(b.children@.subrange(0, i as int) =~= b.children@);
    true
}

#[derive(Debug, Clone, PartialEq, Eq, Structural)]
pub enum EGraphError {
    TypeMismatch { a: Id, b: Id, ty_a: EType, ty_b: EType },
    InvalidId(Id),
}

#[derive(Clone)]
pub struct EGraph {
    pub uf: UnionFind,
    pub memo: Vec<(ENode, Id)>,
    pub classes: Vec<Vec<ENode>>,
    pub class_types: Vec<EType>,
    pub parents: HashMap<Id, Vec<(ENode, Id)>>,
    pub worklist: Vec<(Id, Id)>,
}

/// All children of a node are ids below `n`.
pub open spec fn children_below(c: Seq<u32>, n: nat) -> bool {
    forall|k: int| 0 <= k < c.len() ==> (#[trigger] c[k]) < n
}

/// The node recorded under `k`, if any.
pub open spec fn memo_get(m: Seq<(ENode, Id)>, k: (Seq<char>, Seq<u32>, EType)) -> Option<Id> {
    if exists|i: int| 0 <= i < m.len() && nv(#[trigger] m[i].0) == k {
        Some(m[choose|i: int| 0 <= i < m.len() && nv(#[trigger] m[i].0) == k].1)
    } else {
        None
    }
}

/// Entries `(node, class)` are typed by their class and refer to existing ids.
pub open spec fn entries_typed(e: Seq<(ENode, Id)>, types: Seq<EType>) -> bool {
    forall|i: int|
        0 <= i < e.len() ==> {
            &&& (#[trigger] e[i]).1 < types.len()
            &&& children_below(e[i].0.children@, types.len())
            &&& types[e[i].1 as int] == e[i].0.ty
        }
}

/// The first child that is not an id below `n`, looking from position `i` on.
pub open spec fn first_invalid(c: Seq<u32>, n: nat, i: int) -> Option<u32>
    decreases c.len() - i,
{
    if i < 0 || i >= c.len() {
        None
    } else if c[i] >= n {
        Some(c[i])
    } else {
        first_invalid(c, n, i + 1)
    }
}

proof fn lemma_first_invalid_none(c: Seq<u32>, n: nat, i: int)
    requires
        0 <= i <= c.len(),
        first_invalid(c, n, i) is None,
    ensures
        forall|k: int| i <= k < c.len() ==> #[trigger] c[k] < n,
    decreases c.len() - i,
{
    if i < c.len() {
        lemma_first_invalid_none(c, n, i + 1);
    }
}

/// The entries as nodes and classes.
pub open spec fn memo_views(m: Seq<(ENode, Id)>) -> Seq<((Seq<char>, Seq<u32>, EType), Id)> {
    m.map_values(|e: (ENode, Id)| (nv(e.0), e.1))
}

/// Node `n` is listed in a class of `g` with the same root as `c`.
pub open spec fn in_class(g: EGraph, c: int, n: ENode) -> bool {
    exists|d: int| 0 <= d < g.classes@.len() && g.root(d) == g.root(c) && #[trigger] g.classes@[d]@.contains(n)
}

/// Every node listed in a class of `g` is, in `h`, listed in a class with the
/// same root as that class.
pub open spec fn nodes_kept(g: EGraph, h: EGraph) -> bool {
    forall|c: int, e: int|
        #![trigger g.classes@[c]@[e]]
        0 <= c < g.classes@.len() && 0 <= e < g.classes@[c]@.len() ==> in_class(h, c, g.classes@[c]@[e])
}

/// A graph keeps its own nodes.
pub proof fn lemma_nodes_kept_refl(g: EGraph)
    ensures
        nodes_kept(g, g),
{
    assert forall|c: int, e: int| 0 <= c < g.classes@.len() && 0 <= e < g.classes@[c]@.len() implies in_class(
        g,
        c,
        #[trigger] g.classes@[c]@[e],
    ) by {
        assert(g.classes@[c]@[e] == g.classes@[c]@[e]);
        assert(g.classes@[c]@.contains(g.classes@[c]@[e]));
    }
}

/// Node keeping survives a step that changes neither the class lists nor the roots.
pub proof fn lemma_nodes_kept_same(g0: EGraph, pre: EGraph, post: EGraph)
    requires
        nodes_kept(g0, pre),
        post.classes == pre.classes,
        g0.classes@.len() <= pre.classes@.len(),
        pre.classes@.len() <= pre.size(),
        forall|x: int| 0 <= x < pre.size() ==> #[trigger] post.root(x) == pre.root(x),
    ensures
        nodes_kept(g0, post),
{
    assert forall|c: int, e: int| 0 <= c < g0.classes@.len() && 0 <= e < g0.classes@[c]@.len() implies in_class(
        post,
        c,
        #[trigger] g0.classes@[c]@[e],
    ) by {
        let n = g0.classes@[c]@[e];
        let d = choose|d: int| 0 <= d < pre.classes@.len() && pre.root(d) == pre.root(c) && #[trigger] pre.classes@[d]@.contains(n);
        assert(post.root(d) == pre.root(d));
        assert(post.root(c) == pre.root(c));
        assert(post.classes@[d]@.contains(n));
    }
}

/// Node keeping survives the merge of root `rb` into root `ra`, whose list
/// takes the nodes of `rb`'s.
pub proof fn lemma_nodes_kept_merge(g0: EGraph, pre: EGraph, post: EGraph, ra: int, rb: int)
    requires
        nodes_kept(g0, pre),
        g0.classes@.len() <= pre.classes@.len(),
        pre.classes@.len() == post.classes@.len() == pre.size(),
        0 <= ra < pre.size(),
        0 <= rb < pre.size(),
        ra != rb,
        pre.root(ra) == ra,
        pre.root(rb) == rb,
        post.classes@[ra]@ == pre.classes@[ra]@ + pre.classes@[rb]@,
        forall|d: int| 0 <= d < pre.classes@.len() && d != ra && d != rb ==> #[trigger] post.classes@[d] == pre.classes@[d],
        forall|x: int| 0 <= x < pre.size() ==> #[trigger] post.root(x) == (if pre.root(x) == rb { ra } else { pre.root(x) }),
    ensures
        nodes_kept(g0, post),
{
    assert forall|c: int, e: int| 0 <= c < g0.classes@.len() && 0 <= e < g0.classes@[c]@.len() implies in_class(
        post,
        c,
        #[trigger] g0.classes@[c]@[e],
    ) by {
        let n = g0.classes@[c]@[e];
        let d = choose|d: int| 0 <= d < pre.classes@.len() && pre.root(d) == pre.root(c) && #[trigger] pre.classes@[d]@.contains(n);
        let k = choose|k: int| 0 <= k < pre.classes@[d]@.len() && pre.classes@[d]@[k] == n;
        assert(post.root(c) == (if pre.root(c) == rb { ra } else { pre.root(c) }));
        assert(post.root(d) == (if pre.root(d) == rb { ra } else { pre.root(d) }));
        if d == rb {
            assert(post.root(ra) == ra);
            assert(post.classes@[ra]@[pre.classes@[ra]@.len() + k] == n);
            assert(post.classes@[ra]@.contains(n));
        } else if d == ra {
            assert(post.classes@[ra]@[k] == n);
            assert(post.classes@[ra]@.contains(n));
        } else {
            assert(post.classes@[d] == pre.classes@[d]);
            assert(post.classes@[d]@.contains(n));
        }
    }
}

impl EGraph {
    /// The number of classes created so far (merged ones included).
    pub open spec fn size(&self) -> nat {
        self.uf.size()
    }

    /// The root of the class of `x`.
    pub open spec fn root(&self, x: int) -> int {
        self.uf.root(x)
    }

    /// The node `n` with each child replaced by the root of its class.
    pub open spec fn canonical(&self, n: (Seq<char>, Seq<u32>, EType)) -> (Seq<char>, Seq<u32>, EType) {
        (n.0, n.1.map_values(|c: u32| self.root(c as int) as u32), n.2)
    }

    pub open spec fn wf(&self) -> bool {
        &&& self.uf.wf()
        &&& self.size() < u32::MAX
        &&& self.classes@.len() == self.size()
        &&& self.class_types@.len() == self.size()
        &&& entries_typed(self.memo@, self.class_types@)
        &&& forall|i: int, j: int|
            0 <= i < j < self.memo@.len() ==> nv(#[trigger] self.memo@[i].0) != nv(#[trigger] self.memo@[j].0)
        &&& forall|c: int, k: int|
            0 <= c < self.classes@.len() && 0 <= k < self.classes@[c]@.len() ==> {
                &&& children_below((#[trigger] self.classes@[c]@[k]).children@, self.size())
                &&& self.classes@[c]@[k].ty == self.class_types@[c]
            }
        &&& forall|w: int|
            0 <= w < self.worklist@.len() ==> {
                &&& (#[trigger] self.worklist@[w]).0 < self.size()
                &&& self.worklist@[w].1 < self.size()
                &&& self.class_types@[self.worklist@[w].0 as int] == self.class_types@[self.worklist@[w].1 as int]
            }
        &&& forall|x: int| 0 <= x < self.size() ==> self.class_types@[#[trigger] self.root(x)] == self.class_types@[x]
        &&& forall|k: Id| #[trigger] self.parents@.contains_key(k) ==> entries_typed(self.parents@[k]@, self.class_types@)
    }

    /// The pending unions, waiting for `rebuild`.
    pub open spec fn pending(&self) -> Seq<(Id, Id)> {
        self.worklist@
    }

    /// The root of an id is the root of its own class.
    pub proof fn lemma_root(&self, x: int)
        requires
            self.wf(),
            0 <= x < self.size(),
        ensures
            0 <= self.root(x) < self.size(),
            self.root(self.root(x)) == self.root(x),
    {
        self.uf.lemma_root(x);
    }

    /// Two graphs with the same union-find have the same roots.
    proof fn lemma_same_uf(&self, other: &EGraph)
        requires
            self.uf == other.uf,
        ensures
            forall|x: int| #[trigger] self.root(x) == other.root(x),
            self.size() == other.size(),
    {
    }

    pub fn new() -> (g: EGraph)
        ensures
            g.wf(),
            g.size() == 0,
            g.memo@.len() == 0,
            g.pending().len() == 0,
            g.closed(),
            sound::entries_sound(g),
    {
        let g = EGraph {
            uf: UnionFind::new(),
            memo: Vec::new(),
            classes: Vec::new(),
            class_types: Vec::new(),
            parents: HashMap::new(),
            worklist: Vec::new(),
        };
        proof {
            assert(g.parents@ =~= Map::<Id, Vec<(ENode, Id)>>::empty());
            crate::egraph::closure::lemma_closed_empty(g);
        }
        g
    }


    /// Finds the entry recorded for node `n`.
    fn memo_position(&self, n: &ENode) -> (r: Option<usize>)
        requires
            self.wf(),
        ensures
            match r {
                Some(i) => i < self.memo@.len() && nv(self.memo@[i as int].0) == nv(*n) && memo_get(self.memo@, nv(*n))
                    == Some(self.memo@[i as int].1),
                None => memo_get(self.memo@, nv(*n)) is None,
            },
    {
        let mut i: usize = 0;
        while i < self.memo.len()
            invariant
                self.wf(),
                i <= self.memo@.len(),
                forall|k: int| 0 <= k < i ==> nv(#[trigger] self.memo@[k].0) != nv(*n),
            decreases self.memo@.len() - i,
        {
            if same_node(&self.memo[i].0, n) {
                proof {
                    let j = choose|j: int| 0 <= j < self.memo@.len() && nv(#[trigger] self.memo@[j].0) == nv(*n);
                    if j != i {
                        if j < i {
                            assert(nv(self.memo@[j].0) != nv(self.memo@[i as int].0));
                        } else {
                            assert(nv(self.memo@[i as int].0) != nv(self.memo@[j].0));
                        }
                    }
                }
                return Some(i);
            }
            i = i + 1;
        }
        None
    }

    /// Adds a node, sharing an existing class when the node with its children
    /// replaced by their roots is already recorded.
    #[verifier::spinoff_prover]
    pub fn add(&mut self, node: ENode) -> (res: Result<Id, EGraphError>)
        requires
            old(self).wf(),
            old(self).size() + 1 < u32::MAX,
        ensures
            final(self).wf(),
            final(self).size() >= old(self).size(),
            forall|x: int| 0 <= x < old(self).size() ==> #[trigger] final(self).root(x) == old(self).root(x),
            final(self).pending() == old(self).pending(),
            forall|c: int| 0 <= c < old(self).size() ==> #[trigger] final(self).classes@[c] == old(self).classes@[c],
            old(self).closed() ==> final(self).closed(),
            forall|n: (Seq<char>, Seq<u32>, EType), cls: Id|
                #![trigger final(self).good(n, cls)]
                children_below(n.1, old(self).size()) && old(self).good(n, cls) ==> final(self).good(n, cls),
            old(self).closed() ==> (res matches Ok(id) ==> final(self).good(nv(node), id)),
            sound::entries_sound(*old(self)) ==> sound::entries_sound(*final(self)),
            match first_invalid(node.children@, old(self).size(), 0) {
                Some(c) => res == Err::<Id, EGraphError>(EGraphError::InvalidId(c)) && final(self).size() == old(self).size()
                    && final(self).memo == old(self).memo && final(self).class_types == old(self).class_types,
                None => match memo_get(old(self).memo@, old(self).canonical(nv(node))) {
                    Some(e) => res == Ok::<Id, EGraphError>(old(self).root(e as int) as Id) && final(self).size()
                        == old(self).size() && final(self).memo == old(self).memo && final(self).class_types == old(
                        self,
                    ).class_types,
                    None => {
                        &&& res == Ok::<Id, EGraphError>(old(self).size() as Id)
                        &&& final(self).size() == old(self).size() + 1
                        &&& final(self).root(old(self).size() as int) == old(self).size()
                        &&& memo_views(final(self).memo@) == memo_views(old(self).memo@).push(
                            (old(self).canonical(nv(node)), old(self).size() as Id),
                        )
                        &&& final(self).class_types@ == old(self).class_types@.push(node.ty)
                    },
                },
            },
    {
        let ghost g0 = *self;
        let ghost node0 = nv(node);
        let ghost kids = node.children@;
        let mut enode = node;
        let n = self.uf.len();
        let mut i: usize = 0;
        while i < enode.children.len()
            invariant
                self.wf(),
                g0 == *old(self),
                g0.wf(),
                n == g0.size(),
                self.size() == g0.size(),
                forall|x: int| 0 <= x < g0.size() ==> #[trigger] self.root(x) == g0.root(x),
                self.memo == g0.memo,
                self.classes == g0.classes,
                self.class_types == g0.class_types,
                self.parents == g0.parents,
                self.worklist@ == g0.worklist@,
                g0.closed() ==> self.closed(),
                forall|n: (Seq<char>, Seq<u32>, EType), cls: Id|
                    #![trigger self.good(n, cls)]
                    children_below(n.1, g0.size()) && g0.good(n, cls) ==> self.good(n, cls),
                i <= kids.len(),
                enode.children@.len() == kids.len(),
                enode.op@ == node0.0,
                enode.ty == node0.2,
                kids == node0.1,
                kids == node.children@,
                forall|k: int| 0 <= k < i ==> (#[trigger] enode.children@[k]) as int == g0.root(kids[k] as int),
                forall|k: int| i <= k < kids.len() ==> #[trigger] enode.children@[k] == kids[k],
                first_invalid(kids, g0.size(), 0) == first_invalid(kids, g0.size(), i as int),
            decreases kids.len() - i,
        {
            let c = enode.children[i];
            if c as usize >= n {
                proof {
                    assert(c == kids[i as int]);
                    assert(first_invalid(kids, g0.size(), i as int) == Some(c));
                    assert(first_invalid(kids, old(self).size(), 0) == Some(c));
                    assert(self.size() == old(self).size());
                    sound::lemma_shape_same(g0, g0, *self);
                }
                return Err(EGraphError::InvalidId(c));
            }
            proof {
                g0.lemma_root(c as int);
            }
            let r = self.find(c);
            let ghost before = enode.children@;
            enode.children.set(i, r);
            proof {
                assert(r as int == g0.root(c as int));
                assert(enode.children@[i as int] as int == g0.root(kids[i as int] as int));
                assert(c == kids[i as int]);
                assert forall|k: int| 0 <= k < i + 1 implies (#[trigger] enode.children@[k]) as int == g0.root(kids[k] as int) by {
                    if k < i {
                        assert(enode.children@[k] == before[k]);
                    }
                }
            }
            i = i + 1;
        }
        proof {
            lemma_first_invalid_none(kids, g0.size(), 0);
            assert forall|k: int| 0 <= k < kids.len() implies #[trigger] enode.children@[k] == g0.root(kids[k] as int) as u32 by {
                assert(enode.children@[k] as int == g0.root(kids[k] as int));
            }
            assert(enode.children@ =~= kids.map_values(|c: u32| g0.root(c as int) as u32));
            assert(nv(enode) == g0.canonical(node0));
            assert forall|k: int| 0 <= k < enode.children@.len() implies (#[trigger] enode.children@[k]) < g0.size() by {
                g0.lemma_root(kids[k] as int);
            }
        }
        match self.memo_position(&enode) {
            Some(p) => {
                let e = self.memo[p].1;
                let ghost before = *self;
                proof {
                    g0.lemma_root(e as int);
                }
                let r = self.find(e);
                proof {
                    if g0.closed() {
                        let x = p as int;
                        assert(self.memo@[x] == before.memo@[x]);
                        closure::lemma_closed_entry_good(*self, x);
                        closure::lemma_canonical_same(g0, *self, node0);
                        assert(self.root(e as int) == r as int);
                        assert(self.root(r as int) == r as int);
                        closure::lemma_linked_same_root(*self, e, r);
                        closure::lemma_good_reclass(*self, self.canonical(node0), e, r);
                        closure::lemma_good_of_canonical(*self, node0, r);
                    }
                    sound::lemma_shape_same(g0, g0, *self);
                }
                return Ok(r);
            },
            None => {},
        }
        let ghost g1 = *self;
        proof {
            sound::lemma_shape_same(g0, g0, g1);
        }
        let id = self.uf.make_set();
        self.memo.push((enode.clone(), id));
        let mut cls: Vec<ENode> = Vec::new();
        cls.push(enode.clone());
        let ghost cl = cls@[0];
        self.classes.push(cls);
        self.class_types.push(enode.ty);
        proof {
            assert(memo_views(self.memo@) =~= memo_views(g1.memo@).push((nv(enode), id)));
            assert forall|x: int| 0 <= x < self.size() implies self.class_types@[#[trigger] self.root(x)] == self.class_types@[x] by {
                if x < g1.size() {
                    assert(self.root(x) == g1.root(x));
                    g1.lemma_root(x);
                }
            }
            assert forall|a: int, b: int| 0 <= a < b < self.memo@.len() implies nv(#[trigger] self.memo@[a].0) != nv(#[trigger] self.memo@[b].0) by {
                if b == self.memo@.len() - 1 {
                    assert(self.memo@[a] == g1.memo@[a]);
                }
                else {
                    assert(self.memo@[a] == g1.memo@[a] && self.memo@[b] == g1.memo@[b]);
                }
            }
            assert forall|c: int, k: int| 0 <= c < self.classes@.len() && 0 <= k < self.classes@[c]@.len() implies {
                &&& children_below((#[trigger] self.classes@[c]@[k]).children@, self.size())
                &&& self.classes@[c]@[k].ty == self.class_types@[c]
            } by {
                if c < g1.classes@.len() {
                    assert(self.classes@[c] == g1.classes@[c]);
                }
            }
            assert(entries_typed(self.memo@, self.class_types@)) by {
                assert forall|j: int| 0 <= j < self.memo@.len() implies {
                    &&& (#[trigger] self.memo@[j]).1 < self.class_types@.len()
                    &&& children_below(self.memo@[j].0.children@, self.class_types@.len())
                    &&& self.class_types@[self.memo@[j].1 as int] == self.memo@[j].0.ty
                } by {
                    if j < g1.memo@.len() {
                        assert(self.memo@[j] == g1.memo@[j]);
                    }
                }
            }
            assert forall|k: Id| #[trigger] self.parents@.contains_key(k) implies entries_typed(self.parents@[k]@, self.class_types@) by {
                assert(entries_typed(g1.parents@[k]@, g1.class_types@));
            }
        }
        let ghost g2 = *self;
        let mut j: usize = 0;
        while j < enode.children.len()
            invariant
                g2.wf(),
                self.uf == g2.uf,
                self.memo == g2.memo,
                self.classes == g2.classes,
                self.class_types == g2.class_types,
                self.worklist == g2.worklist,
                forall|k: Id| #[trigger] self.parents@.contains_key(k) ==> entries_typed(self.parents@[k]@, self.class_types@),
                forall|x: int| 0 <= x < g2.size() ==> #[trigger] g2.root(x) == (if x < g1.size() { g1.root(x) } else { x }),
                self.size() == g1.size() + 1,
                self.class_types@.len() == self.size(),
                self.class_types@[id as int] == enode.ty,
                id < self.size(),
                children_below(enode.children@, self.size()),
                memo_views(self.memo@) == memo_views(g1.memo@).push((nv(enode), id)),
                self.class_types@ == g1.class_types@.push(enode.ty),
                j <= enode.children@.len(),
                forall|k: Id| #[trigger] g1.parents@.contains_key(k) ==> self.parents@.contains_key(k) && self.parents@[k]@.len()
                    >= g1.parents@[k]@.len(),
                forall|k: Id, i: int|
                    #![trigger self.parents@[k]@[i]]
                    g1.parents@.contains_key(k) && 0 <= i < g1.parents@[k]@.len() ==> self.parents@[k]@[i] == g1.parents@[k]@[i],
                forall|k: Id, i: int|
                    #![trigger self.parents@[k]@[i]]
                    self.parents@.contains_key(k) && 0 <= i < self.parents@[k]@.len() ==> (g1.parents@.contains_key(k) && i
                        < g1.parents@[k]@.len()) || (nv(self.parents@[k]@[i].0) == nv(enode) && self.parents@[k]@[i].1 == id
                        && nv(enode).1.contains(k)),
                forall|t: int|
                    0 <= t < j ==> self.parents@.contains_key(#[trigger] enode.children@[t]) && exists|i: int|
                        0 <= i < self.parents@[enode.children@[t]]@.len() && nv(#[trigger] self.parents@[enode.children@[t]]@[i].0)
                            == nv(enode) && self.parents@[enode.children@[t]]@[i].1 == id,
            decreases enode.children@.len() - j,
        {
            let c = enode.children[j];
            let ghost p0 = self.parents@;
            let mut list: Vec<(ENode, Id)> = match self.parents.remove(&c) {
                Some(l) => l,
                None => Vec::new(),
            };
            let ghost l0 = list@;
            proof {
                if p0.contains_key(c) {
                    assert(l0 == p0[c]@);
                } else {
                    assert(l0.len() == 0);
                }
            }
            list.push((enode.clone(), id));
            proof {
                assert(entries_typed(list@, self.class_types@)) by {
                    assert forall|t: int| 0 <= t < list@.len() implies {
                        &&& (#[trigger] list@[t]).1 < self.class_types@.len()
                        &&& children_below(list@[t].0.children@, self.class_types@.len())
                        &&& self.class_types@[list@[t].1 as int] == list@[t].0.ty
                    } by {
                        if t < l0.len() {
                            assert(list@[t] == l0[t]);
                        }
                    }
                }
            }
            self.parents.insert(c, list);
            proof {
                let pn = self.parents@;
                assert(pn == p0.insert(c, list));
                assert(pn[c]@.len() == l0.len() + 1);
                assert(nv(pn[c]@[l0.len() as int].0) == nv(enode));
                assert(enode.children@[j as int] == c);
                assert(nv(enode).1.contains(c));
                assert forall|t: int|
                    0 <= t < j + 1 implies self.parents@.contains_key(#[trigger] enode.children@[t]) && exists|i: int|
                        0 <= i < self.parents@[enode.children@[t]]@.len() && nv(#[trigger] self.parents@[enode.children@[t]]@[i].0)
                            == nv(enode) && self.parents@[enode.children@[t]]@[i].1 == id by {
                    let ct = enode.children@[t];
                    if t == j {
                        assert(nv(self.parents@[ct]@[l0.len() as int].0) == nv(enode));
                    } else if ct == c {
                        let i = choose|i: int|
                            0 <= i < p0[ct]@.len() && nv(#[trigger] p0[ct]@[i].0) == nv(enode) && p0[ct]@[i].1 == id;
                        assert(self.parents@[ct]@[i] == p0[ct]@[i]);
                    } else {
                        assert(self.parents@[ct] == p0[ct]);
                    }
                }
            }
            j = j + 1;
        }
        proof {
            assert forall|x: int| 0 <= x < self.size() implies #[trigger] self.root(x) == g2.root(x) by {}
            assert(self.wf());
            assert forall|x: int| 0 <= x < g1.size() implies #[trigger] self.root(x) == g1.root(x) by {}
            assert(forall|p: (Id, Id)| #[trigger] g1.worklist@.contains(p) ==> self.worklist@.contains(p));
            assert forall|jj: int| 0 <= jj < g1.memo@.len() implies #[trigger] self.memo@[jj] == g1.memo@[jj] by {
                assert(memo_views(self.memo@)[jj] == memo_views(g1.memo@)[jj]);
            }
            assert(closure::grows(g1, *self));
            closure::lemma_grows_kept(g1, *self);
            closure::lemma_good_all_kept(g1, *self);
            if g0.closed() {
                assert(g1.closed());
                assert forall|k: int| 0 <= k < nv(enode).1.len() implies #[trigger] nv(enode).1[k] < g1.size() && g1.root(
                    nv(enode).1[k] as int,
                ) == nv(enode).1[k] as int by {
                    g0.lemma_root(kids[k] as int);
                }
                crate::egraph::closure::lemma_closed_add(g1, *self, nv(enode), id);
                closure::lemma_canonical_same(g0, *self, node0);
                closure::lemma_good_of_canonical(*self, node0, id);
            }
            if sound::entries_sound(g0) {
                assert(self.classes@[id as int]@.contains(cl)) by {
                    assert(self.classes@[id as int]@[0] == cl);
                }
                assert forall|c: int| 0 <= c < g1.classes@.len() implies #[trigger] self.classes@[c] == g1.classes@[c] by {}
                assert forall|jj: int| 0 <= jj < self.memo@.len() implies sound::entry_sound(*self, #[trigger] self.memo@[jj]) by {
                    assert(memo_views(self.memo@)[jj] == memo_views(self.memo@)[jj]);
                    if jj < g1.memo@.len() {
                        assert(self.memo@[jj] == g1.memo@[jj]);
                        sound::lemma_entry_sound_grow(g1, *self, g1.memo@[jj]);
                    } else {
                        assert(memo_views(self.memo@)[jj] == (nv(enode), id));
                        sound::lemma_entry_sound_fresh(*self, self.memo@[jj], cl);
                    }
                }
                assert forall|k: Id| #[trigger] self.parents@.contains_key(k) implies sound::list_sound(*self, self.parents@[k]@) by {
                    assert forall|i: int| 0 <= i < self.parents@[k]@.len() implies sound::entry_sound(
                        *self,
                        #[trigger] self.parents@[k]@[i],
                    ) by {
                        if g1.parents@.contains_key(k) && i < g1.parents@[k]@.len() {
                            assert(self.parents@[k]@[i] == g1.parents@[k]@[i]);
                            assert(sound::list_sound(g1, g1.parents@[k]@));
                            sound::lemma_entry_sound_grow(g1, *self, g1.parents@[k]@[i]);
                        } else {
                            sound::lemma_entry_sound_fresh(*self, self.parents@[k]@[i], cl);
                        }
                    }
                }
            }
        }
        Ok(id)
    }

    /// Records that the classes of `a` and `b` are to be merged. Nothing is
    /// recorded when they are already one class, and the request is refused
    /// when the two classes have different types.
    pub fn union_typed(&mut self, a: Id, b: Id) -> (res: Result<bool, EGraphError>)
        requires
            old(self).wf(),
            a < old(self).size(),
            b < old(self).size(),
        ensures
            final(self).wf(),
            final(self).size() == old(self).size(),
            forall|x: int| 0 <= x < old(self).size() ==> #[trigger] final(self).root(x) == old(self).root(x),
            final(self).uf.roots() == old(self).uf.roots(),
            final(self).memo == old(self).memo,
            final(self).classes == old(self).classes,
            final(self).class_types == old(self).class_types,
            final(self).parents == old(self).parents,
            old(self).closed() ==> final(self).closed(),
            forall|n: (Seq<char>, Seq<u32>, EType), cls: Id|
                #![trigger final(self).good(n, cls)]
                children_below(n.1, old(self).size()) && old(self).good(n, cls) ==> final(self).good(n, cls),
            sound::entries_sound(*old(self)) ==> sound::entries_sound(*final(self)),
            ({
                let ra = old(self).root(a as int);
                let rb = old(self).root(b as int);
                let ta = old(self).class_types@[a as int];
                let tb = old(self).class_types@[b as int];
                if ra == rb {
                    res == Ok::<bool, EGraphError>(false) && final(self).pending() == old(self).pending()
                } else if ta != tb {
                    &&& res == Err::<bool, EGraphError>(
                        EGraphError::TypeMismatch { a: ra as Id, b: rb as Id, ty_a: ta, ty_b: tb },
                    )
                    &&& final(self).pending() == old(self).pending()
                } else {
                    res == Ok::<bool, EGraphError>(true) && final(self).pending() == old(self).pending().push(
                        (ra as Id, rb as Id),
                    )
                }
            }),
    {
        proof {
            old(self).lemma_root(a as int);
            old(self).lemma_root(b as int);
        }
        let root_a = self.find(a);
        let ghost mid = *self;
        let root_b = self.find(b);
        let ghost after = *self;
        proof {
            assert forall|x: int| 0 <= x < old(self).size() implies #[trigger] after.root(x) == old(self).root(x) by {
                assert(after.root(x) == mid.root(x));
            }
            sound::lemma_shape_same(*old(self), *old(self), after);
        }
        if root_a == root_b {
            return Ok(false);
        }
        let ty_a = self.class_types[root_a as usize];
        let ty_b = self.class_types[root_b as usize];
        if ty_a != ty_b {
            return Err(EGraphError::TypeMismatch { a: root_a, b: root_b, ty_a, ty_b });
        }
        self.worklist.push((root_a, root_b));
        proof {
            assert forall|x: int| 0 <= x < old(self).size() implies #[trigger] self.root(x) == old(self).root(x) by {
                assert(self.root(x) == after.root(x));
            }
            assert forall|x: int| 0 <= x < self.size() implies self.class_types@[#[trigger] self.root(x)] == self.class_types@[x] by {
                assert(self.root(x) == after.root(x));
            }
            assert forall|w: int| 0 <= w < self.worklist@.len() implies {
                &&& (#[trigger] self.worklist@[w]).0 < self.size()
                &&& self.worklist@[w].1 < self.size()
                &&& self.class_types@[self.worklist@[w].0 as int] == self.class_types@[self.worklist@[w].1 as int]
            } by {
                if w < after.worklist@.len() {
                    assert(self.worklist@[w] == after.worklist@[w]);
                }
            }
            assert forall|p: (Id, Id)| #[trigger] after.worklist@.contains(p) implies self.worklist@.contains(p) by {
                let t = choose|t: int| 0 <= t < after.worklist@.len() && after.worklist@[t] == p;
                assert(self.worklist@[t] == p);
            }
            assert(closure::grows(after, *self));
            closure::lemma_grows_kept(after, *self);
            closure::lemma_good_all_kept(after, *self);
            sound::lemma_shape_same(*old(self), after, *self);
            if old(self).closed() {
                assert forall|p: (Id, Id)| #[trigger] old(self).worklist@.contains(p) implies self.worklist@.contains(p) by {
                    let t = choose|t: int| 0 <= t < old(self).worklist@.len() && old(self).worklist@[t] == p;
                    assert(self.worklist@[t] == p);
                }
                assert(closure::grows(*old(self), *self));
                closure::lemma_closed_same_tables(*old(self), *self);
            }
        }
        Ok(true)
    }

    /// Removes the entry recorded for node `n`, if there is one.
    fn memo_remove(&mut self, n: &ENode)
        requires
            old(self).wf(),
        ensures
            final(self).wf(),
            final(self).uf == old(self).uf,
            final(self).classes == old(self).classes,
            final(self).class_types == old(self).class_types,
            final(self).parents == old(self).parents,
            final(self).worklist == old(self).worklist,
            final(self).memo@ == old(self).memo@ || exists|p: int|
                0 <= p < old(self).memo@.len() && nv(#[trigger] old(self).memo@[p].0) == nv(*n) && final(self).memo@
                    == old(self).memo@.remove(p),
            memo_get(old(self).memo@, nv(*n)) is None ==> final(self).memo@ == old(self).memo@,
            forall|p: int|
                0 <= p < old(self).memo@.len() && nv(#[trigger] old(self).memo@[p].0) == nv(*n) ==> final(self).memo@
                    == old(self).memo@.remove(p),
    {
        match self.memo_position(n) {
            Some(p) => {
                let ghost m0 = self.memo@;
                proof {
                    assert forall|q: int| 0 <= q < m0.len() && nv(#[trigger] m0[q].0) == nv(*n) implies q == p by {
                        if q < p {
                            assert(nv(m0[q].0) != nv(m0[p as int].0));
                        } else if q > p {
                            assert(nv(m0[p as int].0) != nv(m0[q].0));
                        }
                    }
                }
                self.memo.remove(p);
                proof {
                    self.lemma_same_uf(old(self));
                    assert forall|i: int| 0 <= i < self.memo@.len() implies #[trigger] self.memo@[i] == (if i < p {
                        m0[i]
                    } else {
                        m0[i + 1]
                    }) by {}
                    assert forall|i: int, j: int| 0 <= i < j < self.memo@.len() implies nv(#[trigger] self.memo@[i].0) != nv(
                        #[trigger] self.memo@[j].0,
                    ) by {
                        let i0 = if i < p { i } else { i + 1 };
                        let j0 = if j < p { j } else { j + 1 };
                        assert(self.memo@[i] == m0[i0] && self.memo@[j] == m0[j0]);
                    }
                    assert(entries_typed(self.memo@, self.class_types@)) by {
                        assert forall|i: int| 0 <= i < self.memo@.len() implies {
                            &&& (#[trigger] self.memo@[i]).1 < self.class_types@.len()
                            &&& children_below(self.memo@[i].0.children@, self.class_types@.len())
                            &&& self.class_types@[self.memo@[i].1 as int] == self.memo@[i].0.ty
                        } by {
                            let i0 = if i < p { i } else { i + 1 };
                            assert(self.memo@[i] == m0[i0]);
                        }
                    }
                }
            },
            None => {},
        }
    }

    /// Re-records the parent entries of a class that was merged away: each node
    /// is recorded again with its children replaced by their roots, and a node
    /// already recorded for another class schedules the merge of the two classes.
    fn absorb_parents(
        &mut self,
        Ghost(ra): Ghost<Id>,
        Ghost(rb): Ghost<Id>,
        old_parents: Vec<(ENode, Id)>,
        new_parents: &mut Vec<(ENode, Id)>,
    )
        requires
            old(self).wf(),
            entries_typed(old_parents@, old(self).class_types@),
            entries_typed(old(new_parents)@, old(self).class_types@),
        ensures
            final(self).wf(),
            final(self).uf.roots() == old(self).uf.roots(),
            final(self).size() == old(self).size(),
            forall|x: int| 0 <= x < old(self).size() ==> #[trigger] final(self).root(x) == old(self).root(x),
            final(self).classes == old(self).classes,
            final(self).class_types == old(self).class_types,
            final(self).parents == old(self).parents,
            final(self).pending().len() >= old(self).pending().len(),
            final(self).pending().subrange(0, old(self).pending().len() as int) == old(self).pending(),
            entries_typed(final(new_parents)@, old(self).class_types@),
            closure::absorbing(*old(self), ra, rb, old(new_parents)@, old_parents@) ==> closure::absorbing(
                *final(self),
                ra,
                rb,
                final(new_parents)@,
                Seq::<(ENode, Id)>::empty(),
            ),
            closure::absorbing(*old(self), ra, rb, old(new_parents)@, old_parents@) ==> forall|n: (Seq<char>, Seq<u32>, EType), cls: Id|
                #![trigger closure::placed(*final(self), ra, final(new_parents)@, Seq::<(ENode, Id)>::empty(), n, cls)]
                children_below(n.1, old(self).size()) && closure::placed(
                    *old(self),
                    ra,
                    old(new_parents)@,
                    old_parents@,
                    n,
                    cls,
                ) ==> closure::placed(*final(self), ra, final(new_parents)@, Seq::<(ENode, Id)>::empty(), n, cls),
            sound::list_sound(*old(self), old(self).memo@) && sound::list_sound(*old(self), old_parents@)
                && sound::list_sound(*old(self), old(new_parents)@) ==> {
                &&& sound::list_sound(*old(self), final(self).memo@)
                &&& sound::list_sound(*old(self), final(new_parents)@)
                &&& sound::pairs_congruent(*old(self), final(self).pending(), old(self).pending().len() as int)
            },
    {
        let ghost g0 = *self;
        let ghost snd = sound::list_sound(g0, g0.memo@) && sound::list_sound(g0, old_parents@) && sound::list_sound(
            g0,
            new_parents@,
        );
        let ghost all = old_parents@;
        let ghost on = closure::absorbing(g0, ra, rb, new_parents@, all);
        let ghost np00 = new_parents@;
        proof {
            assert(all.skip(0) =~= all);
        }
        for entry in it: old_parents.into_iter()
            invariant
                all == it.seq(),
                entries_typed(all, g0.class_types@),
                g0.wf(),
                self.wf(),
                self.uf.roots() == g0.uf.roots(),
                self.size() == g0.size(),
                forall|x: int| 0 <= x < g0.size() ==> #[trigger] self.root(x) == g0.root(x),
                self.classes == g0.classes,
                self.class_types == g0.class_types,
                self.parents == g0.parents,
                self.pending().len() >= g0.pending().len(),
                self.pending().subrange(0, g0.pending().len() as int) == g0.pending(),
                entries_typed(new_parents@, g0.class_types@),
                snd ==> sound::list_sound(g0, all),
                snd ==> sound::list_sound(g0, self.memo@),
                snd ==> sound::list_sound(g0, new_parents@),
                snd ==> sound::pairs_congruent(g0, self.pending(), g0.pending().len() as int),
                on ==> closure::absorbing(*self, ra, rb, new_parents@, all.skip(it.index() as int)),
                on ==> forall|n: (Seq<char>, Seq<u32>, EType), cls: Id|
                    #![trigger closure::placed(*self, ra, new_parents@, all.skip(it.index() as int), n, cls)]
                    children_below(n.1, g0.size()) && closure::placed(g0, ra, np00, all, n, cls) ==> closure::placed(
                        *self,
                        ra,
                        new_parents@,
                        all.skip(it.index() as int),
                        n,
                        cls,
                    ),
        {
            let ghost idx = it.index();
            let ghost rest = all.skip(idx as int);
            let ghost np0 = new_parents@;
            let (mut enode, class_id) = entry;
            proof {
                assert(all[idx] == (enode, class_id));
                assert(rest[0] == all[idx]);
                assert(rest.drop_first() =~= all.skip(idx + 1));
                assert(children_below(enode.children@, self.size()));
            }
            let ghost before_remove = *self;
            self.memo_remove(&enode);
            proof {
                self.lemma_same_uf(&before_remove);
                if on {
                    closure::lemma_absorbing_removed(before_remove, *self, ra, rb, np0, rest);
                }
                if snd {
                    assert forall|j: int| 0 <= j < self.memo@.len() implies sound::entry_sound(g0, #[trigger] self.memo@[j]) by {
                        if self.memo@ != before_remove.memo@ {
                            let p = choose|p: int|
                                0 <= p < before_remove.memo@.len() && nv(#[trigger] before_remove.memo@[p].0) == nv(enode)
                                    && self.memo@ == before_remove.memo@.remove(p);
                            if j < p {
                                assert(self.memo@[j] == before_remove.memo@[j]);
                            } else {
                                assert(self.memo@[j] == before_remove.memo@[j + 1]);
                            }
                        }
                    }
                    assert(sound::entry_sound(g0, all[idx]));
                }
            }
            let ghost g1 = *self;
            let ghost orig = enode.children@;
            let ghost op0 = enode.op@;
            let ghost ty = enode.ty;
            let mut i: usize = 0;
            while i < enode.children.len()
                invariant
                    self.wf(),
                    g0.wf(),
                    self.uf.roots() == g0.uf.roots(),
                    self.size() == g0.size(),
                    forall|x: int| 0 <= x < g0.size() ==> #[trigger] self.root(x) == g0.root(x),
                    forall|x: int| 0 <= x < g0.size() ==> #[trigger] g1.root(x) == g0.root(x),
                    self.classes == g0.classes,
                    self.class_types == g0.class_types,
                    self.parents == g0.parents,
                    self.memo == g1.memo,
                    self.parents == g1.parents,
                    self.worklist@ == g1.worklist@,
                    self.pending().len() >= g0.pending().len(),
                    self.pending().subrange(0, g0.pending().len() as int) == g0.pending(),
                    children_below(orig, g0.size()),
                    enode.children@.len() == orig.len(),
                    forall|k: int| 0 <= k < i ==> #[trigger] enode.children@[k] == g0.root(orig[k] as int) as u32,
                    forall|k: int| i <= k < orig.len() ==> #[trigger] enode.children@[k] == orig[k],
                    enode.op@ == op0,
                    enode.ty == ty,
                    i <= enode.children@.len(),
                decreases enode.children@.len() - i,
            {
                let c = enode.children[i];
                let r = self.find(c);
                proof {
                    g0.lemma_root(c as int);
                }
                enode.children.set(i, r);
                i = i + 1;
            }
            proof {
                g0.lemma_root(class_id as int);
                sound::lemma_canon_of_roots(g0, enode, rest[0].0);
                assert(nv(enode) == g1.canonical(nv(rest[0].0))) by {
                    assert(enode.children@ =~= g1.canonical(nv(rest[0].0)).1);
                }
                assert(children_below(enode.children@, self.size())) by {
                    assert forall|k: int| 0 <= k < enode.children@.len() implies (#[trigger] enode.children@[k]) < self.size() by {
                        g0.lemma_root(orig[k] as int);
                    }
                }
            }
            let canon_class = self.find(class_id);
            let ghost g2 = *self;
            proof {
                if on {
                    assert(closure::grows(g1, g2));
                    closure::lemma_grows_kept(g1, g2);
                    closure::lemma_absorbing_kept(g1, g2, ra, rb, np0, rest);
                    closure::lemma_canonical_same(g1, g2, nv(rest[0].0));
                }
            }
            match self.memo_position(&enode) {
                Some(p) => {
                    let existing = self.memo[p].1;
                    proof {
                        g0.lemma_root(existing as int);
                    }
                    let existing_canon = self.find(existing);
                    if existing_canon != canon_class {
                        let ghost w0 = self.worklist@;
                        let ghost before_push = *self;
                        self.worklist.push((canon_class, existing_canon));
                        proof {
                            self.lemma_same_uf(&before_push);
                            assert(self.worklist@.subrange(0, w0.len() as int) =~= w0);
                            assert(self.pending().subrange(0, g0.pending().len() as int) =~= w0.subrange(
                                0,
                                g0.pending().len() as int,
                            ));
                            assert forall|w: int| 0 <= w < self.worklist@.len() implies {
                                &&& (#[trigger] self.worklist@[w]).0 < self.size()
                                &&& self.worklist@[w].1 < self.size()
                                &&& self.class_types@[self.worklist@[w].0 as int] == self.class_types@[self.worklist@[w].1 as int]
                            } by {
                                if w < w0.len() {
                                    assert(self.worklist@[w] == w0[w]);
                                }
                            }
                            assert(self.worklist@[w0.len() as int] == (canon_class, existing_canon));
                            closure::lemma_linked_pending(*self, canon_class, existing_canon);
                            if snd {
                                assert(sound::entry_sound(g0, self.memo@[p as int]));
                                sound::lemma_found_congruent(
                                    g0,
                                    rest[0],
                                    enode,
                                    self.memo@[p as int],
                                    canon_class as int,
                                    existing_canon as int,
                                );
                                assert forall|w: int| g0.pending().len() <= w < self.pending().len() implies sound::congruent_pair(
                                    g0,
                                    (#[trigger] self.pending()[w]).0 as int,
                                    self.pending()[w].1 as int,
                                ) by {
                                    if w < w0.len() {
                                        assert(self.pending()[w] == w0[w]);
                                    }
                                }
                            }
                        }
                    }
                    proof {
                        if on {
                            assert forall|q: (Id, Id)| #[trigger] g2.worklist@.contains(q) implies self.worklist@.contains(q) by {
                                let t = choose|t: int| 0 <= t < g2.worklist@.len() && g2.worklist@[t] == q;
                                assert(self.worklist@[t] == q);
                            }
                            assert(closure::grows(g2, *self));
                            closure::lemma_grows_kept(g2, *self);
                            closure::lemma_absorbing_kept(g2, *self, ra, rb, np0, rest);
                            closure::lemma_canonical_same(g2, *self, nv(rest[0].0));
                            g0.lemma_root(canon_class as int);
                            g0.lemma_root(existing_canon as int);
                            closure::lemma_linked_same_root(*self, class_id, canon_class);
                            closure::lemma_linked_same_root(*self, existing_canon, existing);
                            if existing_canon == canon_class {
                                closure::lemma_linked_same_root(*self, canon_class, existing_canon);
                            }
                            closure::lemma_linked_trans(*self, class_id, canon_class, existing_canon);
                            closure::lemma_linked_trans(*self, class_id, existing_canon, existing);
                            closure::lemma_absorbing_found(*self, ra, rb, np0, rest, p as int);
                        }
                    }
                },
                None => {
                    let ghost m0 = self.memo@;
                    let ghost en = enode;
                    let ghost before_push = *self;
                    let copy = enode.clone();
                    let ghost ent = (copy, canon_class);
                    self.memo.push((copy, canon_class));
                    new_parents.push((enode, canon_class));
                    proof {
                        self.lemma_same_uf(&before_push);
                        assert forall|i: int, j: int| 0 <= i < j < self.memo@.len() implies nv(#[trigger] self.memo@[i].0) != nv(
                            #[trigger] self.memo@[j].0,
                        ) by {
                            if j < m0.len() {
                                assert(self.memo@[i] == m0[i] && self.memo@[j] == m0[j]);
                            } else {
                                assert(self.memo@[i] == m0[i]);
                            }
                        }
                        assert(entries_typed(self.memo@, self.class_types@)) by {
                            assert forall|i: int| 0 <= i < self.memo@.len() implies {
                                &&& (#[trigger] self.memo@[i]).1 < self.class_types@.len()
                                &&& children_below(self.memo@[i].0.children@, self.class_types@.len())
                                &&& self.class_types@[self.memo@[i].1 as int] == self.memo@[i].0.ty
                            } by {
                                if i < m0.len() {
                                    assert(self.memo@[i] == m0[i]);
                                }
                            }
                        }
                        assert(entries_typed(new_parents@, g0.class_types@)) by {
                            assert forall|i: int| 0 <= i < new_parents@.len() implies {
                                &&& (#[trigger] new_parents@[i]).1 < g0.class_types@.len()
                                &&& children_below(new_parents@[i].0.children@, g0.class_types@.len())
                                &&& g0.class_types@[new_parents@[i].1 as int] == new_parents@[i].0.ty
                            } by {
                                if i < np0.len() {
                                    assert(new_parents@[i] == np0[i]);
                                }
                            }
                        }
                        if snd {
                            sound::lemma_new_entry_sound(g0, rest[0], en, ent.0, canon_class);
                            sound::lemma_new_entry_sound(g0, rest[0], en, en, canon_class);
                            assert forall|j: int| 0 <= j < self.memo@.len() implies sound::entry_sound(g0, #[trigger] self.memo@[j]) by {
                                if j < m0.len() {
                                    assert(self.memo@[j] == m0[j]);
                                }
                            }
                            assert forall|j: int| 0 <= j < new_parents@.len() implies sound::entry_sound(g0, #[trigger] new_parents@[j]) by {
                                if j < np0.len() {
                                    assert(new_parents@[j] == np0[j]);
                                }
                            }
                        }
                        if on {
                            assert(self.memo@ =~= g2.memo@.push(ent));
                            assert(closure::grows(g2, *self)) by {
                                assert forall|j: int| 0 <= j < g2.memo@.len() implies #[trigger] self.memo@[j] == g2.memo@[j] by {}
                            }
                            closure::lemma_absorbing_new(g2, *self, ra, rb, np0, rest, ent, new_parents@.last());
                            assert(new_parents@ =~= np0.push(new_parents@.last()));
                        }
                    }
                },
            }
        }
        proof {
            if on {
                assert(all.skip(all.len() as int) =~= Seq::<(ENode, Id)>::empty());
            }
        }
    }

    /// Performs the pending merges, and the merges they entail by congruence,
    /// until nothing is pending. Returns the number of merges, which is the
    /// number of classes that disappeared. When every recorded entry stands
    /// for a listed node, as in every graph that `new`, `add`, `union_typed`,
    /// `find` and `rebuild` produce, two ids end in one class only when the
    /// least congruence generated by the classes and the pending unions
    /// relates them.
    pub fn rebuild(&mut self) -> (merges: usize)
        requires
            old(self).wf(),
        ensures
            final(self).wf(),
            final(self).pending().len() == 0,
            final(self).size() == old(self).size(),
            final(self).class_types == old(self).class_types,
            forall|x: int| 0 <= x < old(self).size() ==> #[trigger] final(self).root(x) == final(self).root(old(self).root(x)),
            forall|w: int|
                0 <= w < old(self).pending().len() ==> final(self).root((#[trigger] old(self).pending()[w]).0 as int)
                    == final(self).root(old(self).pending()[w].1 as int),
            merges + final(self).uf.roots().len() == old(self).uf.roots().len(),
            nodes_kept(*old(self), *final(self)),
            old(self).pending().len() == 0 ==> final(self).uf == old(self).uf && final(self).classes == old(
                self,
            ).classes && merges == 0,
            old(self).closed() ==> final(self).closed(),
            old(self).closed() ==> final(self).congruent(),
            old(self).closed() ==> forall|n: (Seq<char>, Seq<u32>, EType), cls: Id|
                #![trigger final(self).good(n, cls)]
                children_below(n.1, old(self).size()) && old(self).good(n, cls) ==> final(self).good(n, cls),
            sound::entries_sound(*old(self)) ==> sound::entries_sound(*final(self)),
            sound::entries_sound(*old(self)) ==> sound::merges_sound(*old(self), *final(self)),
            sound::nodes_from(*old(self), *final(self)),
    {
        let ghost g0 = *self;
        let ghost sound0 = sound::entries_sound(g0);
        let mut merges: usize = 0;
        proof {
            sound::lemma_start(g0);
            lemma_nodes_kept_refl(g0);
            self.uf.lemma_roots_finite();
            g0.uf.lemma_roots_finite();
            assert forall|x: int| 0 <= x < g0.size() implies #[trigger] self.root(x) == self.root(g0.root(x)) by {
                g0.lemma_root(x);
            }
            assert forall|w: int| 0 <= w < g0.pending().len() implies self.root((#[trigger] g0.pending()[w]).0 as int)
                == self.root(g0.pending()[w].1 as int) || self.worklist@.contains(g0.pending()[w]) by {
                assert(self.worklist@[w] == g0.pending()[w]);
            }
        }
        loop
            invariant
                self.wf(),
                g0.wf(),
                self.size() == g0.size(),
                self.class_types == g0.class_types,
                forall|x: int| 0 <= x < g0.size() ==> #[trigger] self.root(x) == self.root(g0.root(x)),
                forall|w: int|
                    0 <= w < g0.pending().len() ==> self.root((#[trigger] g0.pending()[w]).0 as int) == self.root(
                        g0.pending()[w].1 as int,
                    ) || self.worklist@.contains(g0.pending()[w]),
                self.uf.roots().finite(),
                g0.uf.roots().len() <= g0.size(),
                merges + self.uf.roots().len() == g0.uf.roots().len(),
                nodes_kept(g0, *self),
                g0.pending().len() == 0 ==> self.uf == g0.uf && self.classes == g0.classes && merges == 0
                    && self.worklist@.len() == 0,
                g0.closed() ==> self.closed(),
                g0.closed() ==> forall|n: (Seq<char>, Seq<u32>, EType), cls: Id|
                    #![trigger self.good(n, cls)]
                    children_below(n.1, g0.size()) && g0.good(n, cls) ==> self.good(n, cls),
                sound0 == sound::entries_sound(g0),
                sound::nodes_from(g0, *self),
                sound0 ==> sound::entries_sound(*self),
                sound0 ==> sound::merges_sound(g0, *self),
                sound0 ==> sound::pairs_related(g0, self.worklist@),
            ensures
                self.worklist@.len() == 0,
            decreases self.uf.roots().len(), self.worklist@.len(),
        {
            let ghost st = *self;
            let (a, b) = match self.worklist.pop() {
                Some(pair) => pair,
                None => {
                    proof {
                        self.lemma_same_uf(&st);
                        assert(self.worklist@ == st.worklist@);
                        if st.closed() {
                            closure::lemma_closed_same(st, *self);
                        }
                        sound::lemma_shape_same(g0, st, *self);
                    }
                    break;
                },
            };
            proof {
                self.lemma_same_uf(&st);
                assert(st.worklist@ == self.worklist@.push((a, b)));
                assert(st.worklist@[st.worklist@.len() - 1] == (a, b));
                assert forall|w: int| 0 <= w < g0.pending().len() && st.worklist@.contains(#[trigger] g0.pending()[w])
                    && g0.pending()[w] != (a, b) implies self.worklist@.contains(g0.pending()[w]) by {
                    let t = choose|t: int| 0 <= t < st.worklist@.len() && st.worklist@[t] == g0.pending()[w];
                    assert(self.worklist@[t] == g0.pending()[w]);
                }
                st.lemma_root(a as int);
                st.lemma_root(b as int);
                if sound0 {
                    assert(sound::related(g0, a as int, b as int)) by {
                        assert(st.worklist@[st.worklist@.len() - 1] == (a, b));
                    }
                    assert forall|w: int| 0 <= w < self.worklist@.len() implies sound::related(
                        g0,
                        (#[trigger] self.worklist@[w]).0 as int,
                        self.worklist@[w].1 as int,
                    ) by {
                        assert(self.worklist@[w] == st.worklist@[w]);
                    }
                }
            }
            let ghost popped = *self;
            let root_a = self.find(a);
            let root_b = self.find(b);
            proof {
                assert forall|x: int| 0 <= x < g0.size() implies #[trigger] self.root(x) == popped.root(x) by {}
                assert(self.worklist@ == popped.worklist@);
            }
            if root_a == root_b {
                proof {
                    assert forall|w: int| 0 <= w < g0.pending().len() implies self.root((#[trigger] g0.pending()[w]).0 as int)
                        == self.root(g0.pending()[w].1 as int) || self.worklist@.contains(g0.pending()[w]) by {
                        let pw = g0.pending()[w];
                        assert(self.root(pw.0 as int) == st.root(pw.0 as int));
                        assert(self.root(pw.1 as int) == st.root(pw.1 as int));
                    }
                    assert forall|x: int| 0 <= x < g0.size() implies #[trigger] self.root(x) == self.root(g0.root(x)) by {
                        g0.lemma_root(x);
                        assert(self.root(g0.root(x)) == st.root(g0.root(x)));
                        assert(self.root(x) == st.root(x));
                    }
                    if st.closed() {
                        assert forall|x: int| 0 <= x < st.size() implies #[trigger] self.root(x) == st.root(x) by {}
                        closure::lemma_closed_popped(st, *self, a, b);
                    }
                    assert forall|x: int| 0 <= x < st.size() implies #[trigger] self.root(x) == st.root(x) by {
                        assert(self.root(x) == popped.root(x));
                    }
                    lemma_nodes_kept_same(g0, st, *self);
                    sound::lemma_shape_same(g0, st, *self);
                }
                continue;
            }
            let ghost pre = *self;
            let new_root = self.uf.union(root_a, root_b);
            let old_root = root_b;
            proof {
                pre.lemma_root(root_a as int);
                pre.lemma_root(root_b as int);
                assert(pre.root(b as int) == root_b as int);
                pre.uf.lemma_roots_contains(b as int);
                assert(pre.uf.roots().contains(root_b as int));
                pre.uf.lemma_roots_finite();
                assert(pre.uf.roots().len() >= 1);
                self.uf.lemma_roots_finite();
                assert forall|x: int| 0 <= x < self.size() implies self.class_types@[#[trigger] self.root(x)] == self.class_types@[x] by {
                    pre.lemma_root(x);
                }
            }
            let ghost united = *self;
            let mut old_cls: Vec<ENode> = Vec::new();
            std::mem::swap(&mut old_cls, &mut self.classes[old_root as usize]);
            let ghost cls0 = self.classes@[new_root as int]@;
            self.classes[new_root as usize].append(&mut old_cls);
            proof {
                assert forall|c: int, k: int| 0 <= c < self.classes@.len() && 0 <= k < self.classes@[c]@.len() implies {
                    &&& children_below((#[trigger] self.classes@[c]@[k]).children@, self.size())
                    &&& self.classes@[c]@[k].ty == self.class_types@[c]
                } by {
                    if c == new_root {
                        if k >= cls0.len() {
                            assert(self.classes@[c]@[k] == pre.classes@[old_root as int]@[k - cls0.len()]);
                        } else {
                            assert(self.classes@[c]@[k] == pre.classes@[c]@[k]);
                        }
                    } else if c != old_root {
                        assert(self.classes@[c] == pre.classes@[c]);
                    }
                }
            }
            let old_parents = match self.parents.remove(&old_root) {
                Some(l) => l,
                None => Vec::new(),
            };
            let mut new_parents = match self.parents.remove(&new_root) {
                Some(l) => l,
                None => Vec::new(),
            };
            proof {
                assert(entries_typed(old_parents@, self.class_types@));
                assert(entries_typed(new_parents@, self.class_types@));
                self.lemma_same_uf(&united);
                assert forall|x: int| 0 <= x < self.size() implies self.class_types@[#[trigger] self.root(x)] == self.class_types@[x] by {
                    assert(self.root(x) == united.root(x));
                }
                assert forall|k: Id| #[trigger] self.parents@.contains_key(k) implies entries_typed(self.parents@[k]@, self.class_types@) by {
                    assert(united.parents@.contains_key(k));
                }
                assert(self.wf());
            }
            let ghost before_absorb = *self;
            proof {
                assert forall|x: int| 0 <= x < pre.size() implies #[trigger] pre.root(x) == st.root(x) by {}
                sound::lemma_shape_same(g0, st, pre);
                {
                    pre.lemma_root(root_a as int);
                    pre.lemma_root(root_b as int);
                    assert(pre.root(a as int) == root_a as int);
                    assert(pre.root(b as int) == root_b as int);
                    assert forall|z: int| 0 <= z < pre.size() implies #[trigger] before_absorb.root(z) == (if pre.root(z)
                        == root_b as int {
                        root_a as int
                    } else {
                        pre.root(z)
                    }) by {
                        assert(before_absorb.root(z) == united.root(z));
                    }
                    assert(before_absorb.classes@[root_a as int]@ =~= pre.classes@[root_a as int]@ + pre.classes@[root_b as int]@);
                    assert(before_absorb.classes@[root_b as int]@.len() == 0);
                    assert forall|d: int| 0 <= d < pre.classes@.len() && d != root_a && d != root_b implies #[trigger] before_absorb.classes@[d]
                        == pre.classes@[d] by {}
                    sound::lemma_merge_nodes_from(g0, pre, before_absorb, root_a as int, root_b as int);
                }
                if sound0 {
                    sound::lemma_merge_sound(g0, pre, before_absorb, root_a as int, root_b as int, a as int, b as int);
                    lemma_nodes_kept_refl(pre);
                    lemma_nodes_kept_merge(pre, pre, before_absorb, root_a as int, root_b as int);
                    assert forall|x: int| 0 <= x < pre.size() implies #[trigger] before_absorb.root(x) == before_absorb.root(pre.root(x)) by {
                        pre.lemma_root(x);
                    }
                    sound::lemma_list_sound_kept(pre, before_absorb, pre.memo@);
                    assert(pre.parents@.contains_key(old_root) ==> old_parents == pre.parents@[old_root]);
                    assert(!pre.parents@.contains_key(old_root) ==> old_parents@.len() == 0);
                    assert(pre.parents@.contains_key(new_root) ==> new_parents == pre.parents@[new_root]);
                    assert(!pre.parents@.contains_key(new_root) ==> new_parents@.len() == 0);
                    if pre.parents@.contains_key(old_root) {
                        sound::lemma_list_sound_kept(pre, before_absorb, old_parents@);
                    }
                    if pre.parents@.contains_key(new_root) {
                        sound::lemma_list_sound_kept(pre, before_absorb, new_parents@);
                    }
                    assert forall|k: Id| #[trigger] before_absorb.parents@.contains_key(k) implies sound::list_sound(
                        before_absorb,
                        before_absorb.parents@[k]@,
                    ) by {
                        assert(pre.parents@.contains_key(k));
                        assert(before_absorb.parents@[k] == pre.parents@[k]);
                        sound::lemma_list_sound_kept(pre, before_absorb, pre.parents@[k]@);
                    }
                }
                if st.closed() {
                    assert(new_root == root_a);
                    st.lemma_root(a as int);
                    st.lemma_root(b as int);
                    assert forall|z: int| 0 <= z < st.size() implies #[trigger] before_absorb.root(z) == (if st.root(z)
                        == root_b as int {
                        root_a as int
                    } else {
                        st.root(z)
                    }) by {
                        assert(before_absorb.root(z) == united.root(z));
                        assert(pre.root(z) == st.root(z));
                    }
                    assert(before_absorb.root(a as int) == root_a as int);
                    assert(before_absorb.root(b as int) == root_a as int);
                    closure::lemma_absorbing_start(
                        st,
                        before_absorb,
                        root_a,
                        root_b,
                        a,
                        b,
                        new_parents@,
                        old_parents@,
                    );
                }
            }
            self.absorb_parents(Ghost(new_root), Ghost(old_root), old_parents, &mut new_parents);
            let ghost after_absorb = *self;
            let ghost v = new_parents;
            self.parents.insert(new_root, new_parents);
            merges = merges + 1;
            proof {
                if st.closed() {
                    closure::lemma_absorbing_finish(after_absorb, *self, new_root, old_root, v@, v);
                }
                assert forall|x: int| 0 <= x < before_absorb.size() implies #[trigger] self.root(x) == before_absorb.root(x) by {
                    assert(self.root(x) == after_absorb.root(x));
                }
                sound::lemma_shape_same(g0, before_absorb, *self);
                if sound0 {
                    sound::lemma_list_sound_same(before_absorb, *self, self.memo@);
                    sound::lemma_list_sound_same(before_absorb, *self, v@);
                    assert forall|k: Id| #[trigger] self.parents@.contains_key(k) implies sound::list_sound(
                        *self,
                        self.parents@[k]@,
                    ) by {
                        if k != new_root {
                            assert(before_absorb.parents@.contains_key(k));
                            sound::lemma_list_sound_same(before_absorb, *self, before_absorb.parents@[k]@);
                        }
                    }
                    assert forall|w: int| 0 <= w < self.worklist@.len() implies sound::related(
                        g0,
                        (#[trigger] self.worklist@[w]).0 as int,
                        self.worklist@[w].1 as int,
                    ) by {
                        let pw = self.worklist@[w];
                        if w < before_absorb.pending().len() {
                            assert(after_absorb.pending().subrange(0, before_absorb.pending().len() as int) == before_absorb.pending());
                            assert(pw == after_absorb.pending().subrange(0, before_absorb.pending().len() as int)[w]);
                            assert(pw == before_absorb.worklist@[w]);
                        } else {
                            assert(pw == after_absorb.pending()[w]);
                            sound::lemma_congruent_related(g0, before_absorb, pw.0 as int, pw.1 as int);
                        }
                    }
                }
                self.lemma_same_uf(&after_absorb);
                // roots after the merge: the class of `root_b` joined the class of `root_a`
                assert forall|x: int| 0 <= x < g0.size() implies #[trigger] self.root(x) == (if pre.root(x) == root_b {
                    root_a as int
                } else {
                    pre.root(x)
                }) by {
                    assert(self.root(x) == after_absorb.root(x));
                    assert(after_absorb.root(x) == before_absorb.root(x));
                }
                assert(self.classes == before_absorb.classes);
                assert(self.classes@[root_a as int]@ =~= pre.classes@[root_a as int]@ + pre.classes@[root_b as int]@);
                assert forall|d: int| 0 <= d < pre.classes@.len() && d != root_a && d != root_b implies #[trigger] self.classes@[d]
                    == pre.classes@[d] by {}
                pre.lemma_root(root_a as int);
                pre.lemma_root(root_b as int);
                assert forall|x: int| 0 <= x < pre.size() implies #[trigger] self.root(x) == (if pre.root(x) == root_b {
                    root_a as int
                } else {
                    pre.root(x)
                }) by {
                    assert(self.root(x) == after_absorb.root(x));
                    assert(after_absorb.root(x) == before_absorb.root(x));
                }
                assert forall|x: int| 0 <= x < pre.size() implies #[trigger] pre.root(x) == st.root(x) by {}
                lemma_nodes_kept_same(g0, st, pre);
                lemma_nodes_kept_merge(g0, pre, *self, root_a as int, root_b as int);
                assert forall|x: int| 0 <= x < self.size() implies self.class_types@[#[trigger] self.root(x)] == self.class_types@[x] by {
                    assert(self.root(x) == before_absorb.root(x));
                }
                assert forall|k: Id| #[trigger] self.parents@.contains_key(k) implies entries_typed(self.parents@[k]@, self.class_types@) by {
                    if k != new_root {
                        assert(after_absorb.parents@.contains_key(k));
                    }
                }
                assert(self.wf());
                assert forall|x: int| 0 <= x < g0.size() implies #[trigger] self.root(x) == self.root(g0.root(x)) by {
                    g0.lemma_root(x);
                    let y = g0.root(x);
                    assert(pre.root(x) == st.root(x));
                    assert(pre.root(y) == st.root(y));
                    assert(st.root(x) == st.root(y));
                }
                assert forall|w: int| 0 <= w < g0.pending().len() implies self.root((#[trigger] g0.pending()[w]).0 as int)
                    == self.root(g0.pending()[w].1 as int) || self.worklist@.contains(g0.pending()[w]) by {
                    let pw = g0.pending()[w];
                    assert(pre.root(pw.0 as int) == st.root(pw.0 as int));
                    assert(pre.root(pw.1 as int) == st.root(pw.1 as int));
                    if pw == (a, b) {
                        assert(pre.root(a as int) == root_a);
                        assert(pre.root(b as int) == root_b);
                    } else if st.root(pw.0 as int) != st.root(pw.1 as int) {
                        assert(popped.worklist@.contains(pw));
                        let t = choose|t: int| 0 <= t < popped.worklist@.len() && popped.worklist@[t] == pw;
                        assert(before_absorb.worklist@ == popped.worklist@);
                        assert(after_absorb.pending().subrange(0, before_absorb.pending().len() as int) == before_absorb.pending());
                        assert(self.worklist@[t] == after_absorb.worklist@.subrange(0, before_absorb.pending().len() as int)[t]);
                    }
                }
                self.uf.lemma_roots_finite();
            }
        }
        proof {
            if g0.closed() {
                closure::law_congruence_closure(*self);
            }
        }
        merges
    }

    pub fn find_immutable(&self, id: Id) -> (r: Id)
        requires
            self.wf(),
            id < self.size(),
        ensures
            r == self.root(id as int),
    {
        self.uf.find_immutable(id)
    }

    pub fn find(&mut self, id: Id) -> (r: Id)
        requires
            old(self).wf(),
            id < old(self).size(),
        ensures
            final(self).wf(),
            r == old(self).root(id as int),
            final(self).size() == old(self).size(),
            forall|x: int| 0 <= x < old(self).size() ==> #[trigger] final(self).root(x) == old(self).root(x),
            final(self).memo == old(self).memo,
            final(self).classes == old(self).classes,
            final(self).class_types == old(self).class_types,
            final(self).parents == old(self).parents,
            final(self).pending() == old(self).pending(),
            final(self).uf.roots() == old(self).uf.roots(),
            old(self).closed() ==> final(self).closed(),
            forall|n: (Seq<char>, Seq<u32>, EType), cls: Id|
                #![trigger final(self).good(n, cls)]
                children_below(n.1, old(self).size()) && old(self).good(n, cls) ==> final(self).good(n, cls),
            sound::entries_sound(*old(self)) ==> sound::entries_sound(*final(self)),
    {
        let r = self.uf.find(id);
        proof {
            sound::lemma_shape_same(*old(self), *old(self), *self);
            assert(closure::grows(*old(self), *self));
            closure::lemma_grows_kept(*old(self), *self);
            closure::lemma_good_all_kept(*old(self), *self);
            if old(self).closed() {
                closure::lemma_closed_same_tables(*old(self), *self);
            }
            assert forall|x: int| 0 <= x < self.size() implies self.class_types@[#[trigger] self.root(x)]
                == self.class_types@[x] by {
                assert(self.root(x) == old(self).root(x));
            }
        }
        r
    }
}

/// The name of the package this component was published as.
pub fn crate_name() -> (s: &'static str)
    ensures
        s@ == "origin-egraph"@,
{
    "origin-egraph"
}

} // verus!
