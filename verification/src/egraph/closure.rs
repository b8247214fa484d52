//! Congruence closure of an e-graph: nodes whose children lie in the same
//! classes are themselves in one class once the graph is rebuilt.
//!
//! The invariant behind it speaks of entries: a node with the class it was
//! recorded for, whether in the hash-consing table or in a parent list. An
//! entry is covered when, for each child, the parent list of the child's class
//! holds an entry with the same canonical node in a linked class; it is
//! represented when the table holds its canonical node for a linked class.
//! Two classes are linked when they are one class or a chain of pending
//! unions joins them.

use vstd::prelude::*;
use crate::egraph::{children_below, entries_typed, nv, EGraph, ENode, Id};

verus! {

/// A node as the invariant sees it: operator, children and type.
pub type NodeView = (Seq<char>, Seq<u32>, crate::egraph::EType);

impl EGraph {
    /// One step of a chain: the same class, or a pending union either way.
    pub closed spec fn step(&self, x: Id, y: Id) -> bool {
        &&& x < self.size()
        &&& y < self.size()
        &&& {
            ||| self.root(x as int) == self.root(y as int)
            ||| self.worklist@.contains((x, y))
            ||| self.worklist@.contains((y, x))
        }
    }

    /// Consecutive ids of `p` are one step apart.
    pub closed spec fn is_chain(&self, p: Seq<Id>) -> bool {
        forall|i: int| 0 <= i < p.len() - 1 ==> #[trigger] self.step(p[i], p[i + 1])
    }

    /// The classes of `x` and `y` are one class once the pending unions are done.
    pub closed spec fn linked(&self, x: Id, y: Id) -> bool {
        exists|p: Seq<Id>| #[trigger] self.is_chain(p) && p.len() >= 1 && p[0] == x && p.last() == y
    }

    /// The parent list of the class of child `c` holds an entry with the same
    /// canonical node as `n`, for a class linked to `cls`.
    pub closed spec fn covered(&self, n: NodeView, cls: Id, c: u32) -> bool {
        let r = self.root(c as int) as Id;
        self.parents@.contains_key(r) && listed(*self, self.parents@[r]@, n, cls)
    }

    /// The table holds the canonical node of `n` for a class linked to `cls`.
    pub closed spec fn represented(&self, n: NodeView, cls: Id) -> bool {
        exists|j: int|
            0 <= j < self.memo@.len() && nv(#[trigger] self.memo@[j].0) == self.canonical(n) && self.linked(
                self.memo@[j].1,
                cls,
            )
    }

    /// Every child of `n` is covered, and `n` is represented.
    pub closed spec fn good(&self, n: NodeView, cls: Id) -> bool {
        &&& forall|k: int| 0 <= k < n.1.len() ==> #[trigger] self.covered(n, cls, n.1[k])
        &&& self.represented(n, cls)
    }

    /// Every entry of the table and of the parent lists is good, and each
    /// parent list holds nodes that have its class as a child.
    pub closed spec fn closed(&self) -> bool {
        &&& forall|j: int| 0 <= j < self.memo@.len() ==> self.good(nv(#[trigger] self.memo@[j].0), self.memo@[j].1)
        &&& forall|k: Id, i: int|
            #![trigger self.parents@[k]@[i]]
            self.parents@.contains_key(k) && 0 <= i < self.parents@[k]@.len() ==> self.good(
                nv(self.parents@[k]@[i].0),
                self.parents@[k]@[i].1,
            ) && self.parents@[k]@[i].0.children@.contains(k)
    }

    /// Nodes whose children lie in the same classes lie in one class.
    pub open spec fn congruent(&self) -> bool {
        forall|i: int, j: int|
            0 <= i < self.memo@.len() && 0 <= j < self.memo@.len() && self.canonical(nv(#[trigger] self.memo@[i].0))
                == self.canonical(nv(#[trigger] self.memo@[j].0)) ==> self.root(self.memo@[i].1 as int) == self.root(
                self.memo@[j].1 as int,
            )
    }
}

/// Some entry of `list` has the canonical node of `n`, for a class linked to `cls`.
pub closed spec fn listed(g: EGraph, list: Seq<(ENode, Id)>, n: NodeView, cls: Id) -> bool {
    exists|i: int|
        0 <= i < list.len() && g.canonical(nv(#[trigger] list[i].0)) == g.canonical(n) && g.linked(list[i].1, cls)
}

/// A class is linked to itself.
pub proof fn lemma_linked_refl(g: EGraph, x: Id)
    ensures
        g.linked(x, x),
{
    let p = seq![x];
    assert(g.is_chain(p));
}

/// Linked classes are linked both ways.
pub proof fn lemma_linked_sym(g: EGraph, x: Id, y: Id)
    requires
        g.linked(x, y),
    ensures
        g.linked(y, x),
{
    let p = choose|p: Seq<Id>| #[trigger] g.is_chain(p) && p.len() >= 1 && p[0] == x && p.last() == y;
    let q = p.reverse();
    assert forall|i: int| 0 <= i < q.len() - 1 implies #[trigger] g.step(q[i], q[i + 1]) by {
        let a = p.len() - 2 - i;
        assert(g.step(p[a], p[a + 1]));
        assert(q[i] == p[a + 1] && q[i + 1] == p[a]);
    }
    assert(g.is_chain(q));
}

/// Links compose.
pub proof fn lemma_linked_trans(g: EGraph, x: Id, y: Id, z: Id)
    requires
        g.linked(x, y),
        g.linked(y, z),
    ensures
        g.linked(x, z),
{
    let p = choose|p: Seq<Id>| #[trigger] g.is_chain(p) && p.len() >= 1 && p[0] == x && p.last() == y;
    let q = choose|q: Seq<Id>| #[trigger] g.is_chain(q) && q.len() >= 1 && q[0] == y && q.last() == z;
    let r = p + q.drop_first();
    assert forall|i: int| 0 <= i < r.len() - 1 implies #[trigger] g.step(r[i], r[i + 1]) by {
        if i < p.len() - 1 {
            assert(g.step(p[i], p[i + 1]));
        } else if i == p.len() - 1 {
            assert(r[i] == y);
            let z: int = 0;
            assert(g.step(q[z], q[z + 1]));
        } else {
            let t = i - p.len() + 1;
            assert(r[i] == q[t] && r[i + 1] == q[t + 1]);
            assert(g.step(q[t], q[t + 1]));
        }
    }
    assert(g.is_chain(r));
    if q.len() == 1 {
        assert(r =~= p);
    } else {
        assert(r.last() == q.last());
    }
}

/// Classes in one class are linked.
pub proof fn lemma_linked_same_root(g: EGraph, x: Id, y: Id)
    requires
        x < g.size(),
        y < g.size(),
        g.root(x as int) == g.root(y as int),
    ensures
        g.linked(x, y),
{
    let p = seq![x, y];
    assert(g.step(p[0], p[1]));
    assert(g.is_chain(p));
}

/// Links that hold in `g` hold in `h` when each step of `g` is a link of `h`.
pub proof fn lemma_linked_mono(g: EGraph, h: EGraph, x: Id, y: Id)
    requires
        g.linked(x, y),
        forall|a: Id, b: Id| #[trigger] g.step(a, b) ==> h.linked(a, b),
    ensures
        h.linked(x, y),
{
    let p = choose|p: Seq<Id>| #[trigger] g.is_chain(p) && p.len() >= 1 && p[0] == x && p.last() == y;
    lemma_chain_mono(g, h, p);
}

proof fn lemma_chain_mono(g: EGraph, h: EGraph, p: Seq<Id>)
    requires
        g.is_chain(p),
        p.len() >= 1,
        forall|a: Id, b: Id| #[trigger] g.step(a, b) ==> h.linked(a, b),
    ensures
        h.linked(p[0], p.last()),
    decreases p.len(),
{
    if p.len() == 1 {
        lemma_linked_refl(h, p[0]);
    } else {
        let q = p.drop_last();
        assert forall|i: int| 0 <= i < q.len() - 1 implies #[trigger] g.step(q[i], q[i + 1]) by {
            assert(g.step(p[i], p[i + 1]));
        }
        lemma_chain_mono(g, h, q);
        let m = p.len() - 2;
        let a = p[m];
        assert(g.step(p[m], p[m + 1]));
        assert(h.linked(a, p.last()));
        lemma_linked_trans(h, p[0], a, p.last());
    }
}

/// With nothing pending, linked classes are one class.
pub proof fn lemma_linked_quiescent(g: EGraph, x: Id, y: Id)
    requires
        g.worklist@.len() == 0,
        g.linked(x, y),
    ensures
        g.root(x as int) == g.root(y as int),
{
    let p = choose|p: Seq<Id>| #[trigger] g.is_chain(p) && p.len() >= 1 && p[0] == x && p.last() == y;
    lemma_chain_quiescent(g, p);
}

proof fn lemma_chain_quiescent(g: EGraph, p: Seq<Id>)
    requires
        g.worklist@.len() == 0,
        g.is_chain(p),
        p.len() >= 1,
    ensures
        g.root(p[0] as int) == g.root(p.last() as int),
    decreases p.len(),
{
    if p.len() > 1 {
        let q = p.drop_last();
        assert forall|i: int| 0 <= i < q.len() - 1 implies #[trigger] g.step(q[i], q[i + 1]) by {
            assert(g.step(p[i], p[i + 1]));
        }
        lemma_chain_quiescent(g, q);
        let m = p.len() - 2;
        assert(g.step(p[m], p[m + 1]));
        assert(!g.worklist@.contains((p[m], p[m + 1])));
        assert(!g.worklist@.contains((p[m + 1], p[m])));
    }
}

/// A closed graph with nothing pending is congruent: nodes whose children lie
/// in the same classes lie in one class.
pub proof fn law_congruence_closure(g: EGraph)
    requires
        g.wf(),
        g.closed(),
        g.pending().len() == 0,
    ensures
        g.congruent(),
{
    assert forall|i: int, j: int|
        0 <= i < g.memo@.len() && 0 <= j < g.memo@.len() && g.canonical(nv(#[trigger] g.memo@[i].0)) == g.canonical(
            nv(#[trigger] g.memo@[j].0),
        ) implies g.root(g.memo@[i].1 as int) == g.root(g.memo@[j].1 as int) by {
        assert(g.good(nv(g.memo@[i].0), g.memo@[i].1));
        assert(g.good(nv(g.memo@[j].0), g.memo@[j].1));
        let a = choose|a: int|
            0 <= a < g.memo@.len() && nv(#[trigger] g.memo@[a].0) == g.canonical(nv(g.memo@[i].0)) && g.linked(
                g.memo@[a].1,
                g.memo@[i].1,
            );
        let b = choose|b: int|
            0 <= b < g.memo@.len() && nv(#[trigger] g.memo@[b].0) == g.canonical(nv(g.memo@[j].0)) && g.linked(
                g.memo@[b].1,
                g.memo@[j].1,
            );
        if a != b {
            if a < b {
                assert(nv(g.memo@[a].0) != nv(g.memo@[b].0));
            } else {
                assert(nv(g.memo@[b].0) != nv(g.memo@[a].0));
            }
        }
        lemma_linked_quiescent(g, g.memo@[a].1, g.memo@[i].1);
        lemma_linked_quiescent(g, g.memo@[b].1, g.memo@[j].1);
    }
}

/// Nodes that are good, with nothing pending, lie in one class when their
/// children lie in the same classes: congruence, for every node that the graph
/// keeps good.
pub proof fn law_good_nodes_congruent(g: EGraph, n1: NodeView, c1: Id, n2: NodeView, c2: Id)
    requires
        g.wf(),
        g.pending().len() == 0,
        g.good(n1, c1),
        g.good(n2, c2),
        g.canonical(n1) == g.canonical(n2),
    ensures
        g.root(c1 as int) == g.root(c2 as int),
{
    let a = choose|a: int|
        0 <= a < g.memo@.len() && nv(#[trigger] g.memo@[a].0) == g.canonical(n1) && g.linked(g.memo@[a].1, c1);
    let b = choose|b: int|
        0 <= b < g.memo@.len() && nv(#[trigger] g.memo@[b].0) == g.canonical(n2) && g.linked(g.memo@[b].1, c2);
    if a != b {
        if a < b {
            assert(nv(g.memo@[a].0) != nv(g.memo@[b].0));
        } else {
            assert(nv(g.memo@[b].0) != nv(g.memo@[a].0));
        }
    }
    lemma_linked_quiescent(g, g.memo@[a].1, c1);
    lemma_linked_quiescent(g, g.memo@[a].1, c2);
}

/// Every entry of the table of a closed graph is good.
pub proof fn lemma_closed_entry_good(g: EGraph, j: int)
    requires
        g.closed(),
        0 <= j < g.memo@.len(),
    ensures
        g.good(nv(g.memo@[j].0), g.memo@[j].1),
{
}

/// A node is good when its canonical node is.
pub proof fn lemma_good_of_canonical(g: EGraph, n: NodeView, cls: Id)
    requires
        g.wf(),
        children_below(n.1, g.size()),
        g.good(g.canonical(n), cls),
    ensures
        g.good(n, cls),
{
    let m = g.canonical(n);
    lemma_canonical_idem(g, n);
    assert forall|k: int| 0 <= k < n.1.len() implies #[trigger] g.covered(n, cls, n.1[k]) by {
        let c = n.1[k];
        g.lemma_root(c as int);
        assert(m.1[k] as int == g.root(c as int));
        assert(g.covered(m, cls, m.1[k]));
        let r = g.root(c as int) as Id;
        let list = g.parents@[r]@;
        let i = choose|i: int|
            0 <= i < list.len() && g.canonical(nv(#[trigger] list[i].0)) == g.canonical(m) && g.linked(list[i].1, cls);
        assert(g.canonical(nv(list[i].0)) == g.canonical(n) && g.linked(list[i].1, cls));
    }
}

/// A good node stays good for any class linked to its own.
pub proof fn lemma_good_reclass(g: EGraph, n: NodeView, c1: Id, c2: Id)
    requires
        g.good(n, c1),
        g.linked(c1, c2),
    ensures
        g.good(n, c2),
{
    assert forall|k: int| 0 <= k < n.1.len() implies #[trigger] g.covered(n, c2, n.1[k]) by {
        assert(g.covered(n, c1, n.1[k]));
        let r = g.root(n.1[k] as int) as Id;
        let list = g.parents@[r]@;
        let i = choose|i: int|
            0 <= i < list.len() && g.canonical(nv(#[trigger] list[i].0)) == g.canonical(n) && g.linked(list[i].1, c1);
        lemma_linked_trans(g, list[i].1, c1, c2);
        assert(g.canonical(nv(list[i].0)) == g.canonical(n) && g.linked(list[i].1, c2));
    }
    let j = choose|j: int|
        0 <= j < g.memo@.len() && nv(#[trigger] g.memo@[j].0) == g.canonical(n) && g.linked(g.memo@[j].1, c1);
    lemma_linked_trans(g, g.memo@[j].1, c1, c2);
}

/// `h` keeps the ids, roots, pending unions, table entries and parent entries
/// of `g`, and may add to them.
pub open spec fn grows(g: EGraph, h: EGraph) -> bool {
    &&& h.size() >= g.size()
    &&& forall|x: int| 0 <= x < g.size() ==> #[trigger] h.root(x) == g.root(x)
    &&& forall|p: (Id, Id)| #[trigger] g.worklist@.contains(p) ==> h.worklist@.contains(p)
    &&& h.memo@.len() >= g.memo@.len()
    &&& forall|j: int| 0 <= j < g.memo@.len() ==> #[trigger] h.memo@[j] == g.memo@[j]
    &&& forall|k: Id| #[trigger] g.parents@.contains_key(k) ==> h.parents@.contains_key(k) && h.parents@[k]@.len()
        >= g.parents@[k]@.len()
    &&& forall|k: Id, i: int|
        #![trigger h.parents@[k]@[i]]
        g.parents@.contains_key(k) && 0 <= i < g.parents@[k]@.len() ==> h.parents@[k]@[i] == g.parents@[k]@[i]
}

/// `h` keeps the ids and roots of `g` and every link of `g`.
pub open spec fn relinked(g: EGraph, h: EGraph) -> bool {
    &&& h.size() >= g.size()
    &&& forall|x: int| 0 <= x < g.size() ==> #[trigger] h.root(x) == g.root(x)
    &&& forall|a: Id, b: Id| #[trigger] g.step(a, b) ==> h.linked(a, b)
}

/// `h` keeps the ids and roots of `g`, every link of `g`, and the table
/// entries and parent entries of `g`, and may add to them.
pub open spec fn kept(g: EGraph, h: EGraph) -> bool {
    &&& relinked(g, h)
    &&& h.memo@.len() >= g.memo@.len()
    &&& forall|j: int| 0 <= j < g.memo@.len() ==> #[trigger] h.memo@[j] == g.memo@[j]
    &&& forall|k: Id| #[trigger] g.parents@.contains_key(k) ==> h.parents@.contains_key(k) && h.parents@[k]@.len()
        >= g.parents@[k]@.len()
    &&& forall|k: Id, i: int|
        #![trigger h.parents@[k]@[i]]
        g.parents@.contains_key(k) && 0 <= i < g.parents@[k]@.len() ==> h.parents@[k]@[i] == g.parents@[k]@[i]
}

/// The canonical node of `n` depends on the roots of its children only.
pub proof fn lemma_canonical_same(g: EGraph, h: EGraph, n: NodeView)
    requires
        crate::egraph::children_below(n.1, g.size()),
        forall|x: int| 0 <= x < g.size() ==> #[trigger] h.root(x) == g.root(x),
    ensures
        h.canonical(n) == g.canonical(n),
{
    assert(h.canonical(n).1 =~= g.canonical(n).1) by {
        assert forall|k: int| 0 <= k < n.1.len() implies h.canonical(n).1[k] == g.canonical(n).1[k] by {
            assert(n.1[k] < g.size());
        }
    }
}

/// Growth keeps every link.
pub proof fn lemma_grows_kept(g: EGraph, h: EGraph)
    requires
        grows(g, h),
    ensures
        kept(g, h),
{
    assert forall|a: Id, b: Id| #[trigger] g.step(a, b) implies h.linked(a, b) by {
        if g.root(a as int) == g.root(b as int) {
            lemma_linked_same_root(h, a, b);
        } else {
            let p = seq![a, b];
            assert(h.step(p[0], p[1]));
            assert(h.is_chain(p));
        }
    }
}

/// A listing survives in a graph that keeps the links and roots.
proof fn lemma_listed_kept(g: EGraph, h: EGraph, list: Seq<(ENode, Id)>, n: NodeView, cls: Id)
    requires
        g.wf(),
        relinked(g, h),
        crate::egraph::entries_typed(list, g.class_types@),
        crate::egraph::children_below(n.1, g.size()),
        listed(g, list, n, cls),
    ensures
        listed(h, list, n, cls),
{
    let i = choose|i: int|
        0 <= i < list.len() && g.canonical(nv(#[trigger] list[i].0)) == g.canonical(n) && g.linked(list[i].1, cls);
    lemma_canonical_same(g, h, n);
    assert(crate::egraph::children_below(list[i].0.children@, g.class_types@.len()));
    lemma_canonical_same(g, h, nv(list[i].0));
    lemma_linked_mono(g, h, list[i].1, cls);
    assert(h.canonical(nv(list[i].0)) == h.canonical(n));
}

/// A listing in a list is a listing in any list that begins with it.
proof fn lemma_listed_prefix(g: EGraph, a: Seq<(ENode, Id)>, b: Seq<(ENode, Id)>, n: NodeView, cls: Id)
    requires
        listed(g, a, n, cls),
        b.len() >= a.len(),
        forall|i: int| 0 <= i < a.len() ==> #[trigger] b[i] == a[i],
    ensures
        listed(g, b, n, cls),
{
    let i = choose|i: int| 0 <= i < a.len() && g.canonical(nv(#[trigger] a[i].0)) == g.canonical(n) && g.linked(a[i].1, cls);
    assert(b[i] == a[i]);
}

/// A covered child stays covered in a graph that keeps the links and tables.
proof fn lemma_covered_kept(g: EGraph, h: EGraph, n: NodeView, cls: Id, c: u32)
    requires
        g.wf(),
        kept(g, h),
        crate::egraph::children_below(n.1, g.size()),
        c < g.size(),
        g.covered(n, cls, c),
    ensures
        h.covered(n, cls, c),
{
    let r = g.root(c as int) as Id;
    assert(h.root(c as int) == g.root(c as int));
    assert(crate::egraph::entries_typed(g.parents@[r]@, g.class_types@));
    lemma_listed_kept(g, h, g.parents@[r]@, n, cls);
    assert forall|i: int| 0 <= i < g.parents@[r]@.len() implies #[trigger] h.parents@[r]@[i] == g.parents@[r]@[i] by {}
    lemma_listed_prefix(h, g.parents@[r]@, h.parents@[r]@, n, cls);
}

/// A represented entry stays represented in a graph that keeps the links and tables.
proof fn lemma_represented_kept(g: EGraph, h: EGraph, n: NodeView, cls: Id)
    requires
        g.wf(),
        kept(g, h),
        crate::egraph::children_below(n.1, g.size()),
        g.represented(n, cls),
    ensures
        h.represented(n, cls),
{
    lemma_canonical_same(g, h, n);
    let j = choose|j: int|
        0 <= j < g.memo@.len() && nv(#[trigger] g.memo@[j].0) == g.canonical(n) && g.linked(g.memo@[j].1, cls);
    assert(h.memo@[j] == g.memo@[j]);
    lemma_linked_mono(g, h, g.memo@[j].1, cls);
}

/// A good entry of a graph stays good in a graph that keeps its links and tables.
pub proof fn lemma_good_kept(g: EGraph, h: EGraph, n: NodeView, cls: Id)
    requires
        g.wf(),
        kept(g, h),
        g.good(n, cls),
        crate::egraph::children_below(n.1, g.size()),
    ensures
        h.good(n, cls),
{
    assert forall|k: int| 0 <= k < n.1.len() implies #[trigger] h.covered(n, cls, n.1[k]) by {
        assert(g.covered(n, cls, n.1[k]));
        lemma_covered_kept(g, h, n, cls, n.1[k]);
    }
    lemma_represented_kept(g, h, n, cls);
}

/// Every good node of a graph stays good in a graph that keeps its links and tables.
pub proof fn lemma_good_all_kept(g: EGraph, h: EGraph)
    requires
        g.wf(),
        kept(g, h),
    ensures
        forall|n: NodeView, cls: Id|
            #![trigger h.good(n, cls)]
            children_below(n.1, g.size()) && g.good(n, cls) ==> h.good(n, cls),
{
    assert forall|n: NodeView, cls: Id| children_below(n.1, g.size()) && g.good(n, cls) implies #[trigger] h.good(n, cls) by {
        lemma_good_kept(g, h, n, cls);
    }
}

/// A node whose children are roots is its own canonical node.
pub proof fn lemma_canonical_of_roots(g: EGraph, n: NodeView)
    requires
        g.wf(),
        forall|k: int| 0 <= k < n.1.len() ==> #[trigger] n.1[k] < g.size() && g.root(n.1[k] as int) == n.1[k] as int,
    ensures
        g.canonical(n) == n,
{
    assert(g.canonical(n).1 =~= n.1);
}

/// A graph that keeps the links and tables of a closed graph keeps the
/// closure of every entry that was there before.
pub proof fn lemma_closed_kept(g: EGraph, h: EGraph)
    requires
        g.wf(),
        g.closed(),
        kept(g, h),
    ensures
        forall|j: int| 0 <= j < g.memo@.len() ==> h.good(nv(#[trigger] g.memo@[j].0), g.memo@[j].1),
        forall|k: Id, i: int|
            #![trigger g.parents@[k]@[i]]
            g.parents@.contains_key(k) && 0 <= i < g.parents@[k]@.len() ==> h.good(
                nv(g.parents@[k]@[i].0),
                g.parents@[k]@[i].1,
            ),
{
    assert forall|j: int| 0 <= j < g.memo@.len() implies h.good(nv(#[trigger] g.memo@[j].0), g.memo@[j].1) by {
        assert(crate::egraph::children_below(g.memo@[j].0.children@, g.class_types@.len()));
        lemma_good_kept(g, h, nv(g.memo@[j].0), g.memo@[j].1);
    }
    assert forall|k: Id, i: int|
        #![trigger g.parents@[k]@[i]]
        g.parents@.contains_key(k) && 0 <= i < g.parents@[k]@.len() implies h.good(
            nv(g.parents@[k]@[i].0),
            g.parents@[k]@[i].1,
        ) by {
        assert(crate::egraph::entries_typed(g.parents@[k]@, g.class_types@));
        assert(crate::egraph::children_below(g.parents@[k]@[i].0.children@, g.class_types@.len()));
        lemma_good_kept(g, h, nv(g.parents@[k]@[i].0), g.parents@[k]@[i].1);
    }
}

/// A graph that keeps the links of a closed graph, with the same tables, is closed.
pub proof fn lemma_closed_relinked(g: EGraph, h: EGraph)
    requires
        g.wf(),
        g.closed(),
        kept(g, h),
        h.memo@ == g.memo@,
        h.parents@ == g.parents@,
    ensures
        h.closed(),
        forall|n: NodeView, cls: Id|
            #![trigger h.good(n, cls)]
            children_below(n.1, g.size()) && g.good(n, cls) ==> h.good(n, cls),
{
    lemma_closed_kept(g, h);
    lemma_good_all_kept(g, h);
}

/// A graph with the same union-find, pending unions and tables as a closed
/// graph is closed.
pub proof fn lemma_closed_same(g: EGraph, h: EGraph)
    requires
        g.wf(),
        g.closed(),
        h.uf == g.uf,
        h.worklist@ == g.worklist@,
        h.memo@ == g.memo@,
        h.parents@ == g.parents@,
    ensures
        h.closed(),
        forall|n: NodeView, cls: Id|
            #![trigger h.good(n, cls)]
            children_below(n.1, g.size()) && g.good(n, cls) ==> h.good(n, cls),
{
    lemma_relinked_same(g, h);
    lemma_closed_kept(g, h);
    lemma_good_all_kept(g, h);
}

/// A pending union links its ends.
pub proof fn lemma_linked_pending(g: EGraph, x: Id, y: Id)
    requires
        x < g.size(),
        y < g.size(),
        g.worklist@.contains((x, y)),
    ensures
        g.linked(x, y),
{
    let p = seq![x, y];
    assert(g.step(p[0], p[1]));
    assert(g.is_chain(p));
}

/// A graph that grows without new entries stays closed.
pub proof fn lemma_closed_same_tables(g: EGraph, h: EGraph)
    requires
        g.wf(),
        g.closed(),
        grows(g, h),
        h.memo == g.memo,
        h.parents == g.parents,
    ensures
        h.closed(),
        forall|n: NodeView, cls: Id|
            #![trigger h.good(n, cls)]
            children_below(n.1, g.size()) && g.good(n, cls) ==> h.good(n, cls),
{
    lemma_grows_kept(g, h);
    lemma_closed_kept(g, h);
    lemma_good_all_kept(g, h);
}
/// A graph without entries is closed.
pub proof fn lemma_closed_empty(g: EGraph)
    requires
        g.memo@.len() == 0,
        g.parents@ == Map::<Id, Vec<(ENode, Id)>>::empty(),
    ensures
        g.closed(),
{
}

/// Adding a node whose children are roots, as a new class recorded in the
/// table and in the parent list of each child, keeps a graph closed.
pub proof fn lemma_closed_add(g: EGraph, h: EGraph, n: NodeView, id: Id)
    requires
        g.wf(),
        h.wf(),
        g.closed(),
        grows(g, h),
        id == g.size(),
        h.size() == g.size() + 1,
        forall|k: int| 0 <= k < n.1.len() ==> #[trigger] n.1[k] < g.size() && g.root(n.1[k] as int) == n.1[k] as int,
        h.memo@.len() == g.memo@.len() + 1,
        nv(h.memo@[g.memo@.len() as int].0) == n,
        h.memo@[g.memo@.len() as int].1 == id,
        forall|k: Id, i: int|
            #![trigger h.parents@[k]@[i]]
            h.parents@.contains_key(k) && 0 <= i < h.parents@[k]@.len() ==> (g.parents@.contains_key(k) && i
                < g.parents@[k]@.len()) || (nv(h.parents@[k]@[i].0) == n && h.parents@[k]@[i].1 == id
                && n.1.contains(k)),
        forall|t: int|
            0 <= t < n.1.len() ==> h.parents@.contains_key(#[trigger] n.1[t]) && exists|i: int|
                0 <= i < h.parents@[n.1[t]]@.len() && nv(#[trigger] h.parents@[n.1[t]]@[i].0) == n
                    && h.parents@[n.1[t]]@[i].1 == id,
    ensures
        h.closed(),
        h.good(n, id),
        forall|m: NodeView, cls: Id|
            #![trigger h.good(m, cls)]
            children_below(m.1, g.size()) && g.good(m, cls) ==> h.good(m, cls),
{
    lemma_grows_kept(g, h);
    lemma_closed_kept(g, h);
    lemma_good_all_kept(g, h);
    assert forall|k: int| 0 <= k < n.1.len() implies #[trigger] n.1[k] < h.size() && h.root(n.1[k] as int) == n.1[k] as int by {
        assert(h.root(n.1[k] as int) == g.root(n.1[k] as int));
    }
    lemma_canonical_of_roots(h, n);
    lemma_linked_refl(h, id);
    assert(h.good(n, id)) by {
        assert forall|k: int| 0 <= k < n.1.len() implies #[trigger] h.covered(n, id, n.1[k]) by {
            let c = n.1[k];
            assert(h.root(c as int) == c as int);
            assert(h.parents@.contains_key(c));
            let i = choose|i: int|
                0 <= i < h.parents@[c]@.len() && nv(#[trigger] h.parents@[c]@[i].0) == n && h.parents@[c]@[i].1 == id;
            assert(h.canonical(nv(h.parents@[c]@[i].0)) == h.canonical(n));
            assert(listed(h, h.parents@[c]@, n, id));
        }
        let j = g.memo@.len() as int;
        assert(nv(h.memo@[j].0) == h.canonical(n));
    }
    assert forall|j: int| 0 <= j < h.memo@.len() implies h.good(nv(#[trigger] h.memo@[j].0), h.memo@[j].1) by {
        if j < g.memo@.len() {
            assert(h.memo@[j] == g.memo@[j]);
        }
    }
    assert forall|k: Id, i: int|
        #![trigger h.parents@[k]@[i]]
        h.parents@.contains_key(k) && 0 <= i < h.parents@[k]@.len() implies h.good(
            nv(h.parents@[k]@[i].0),
            h.parents@[k]@[i].1,
        ) && h.parents@[k]@[i].0.children@.contains(k) by {
        if g.parents@.contains_key(k) && i < g.parents@[k]@.len() {
            assert(h.parents@[k]@[i] == g.parents@[k]@[i]);
        }
    }
}


/// While the parent entries of class `rb`, merged into class `ra`, are being
/// absorbed into those of `ra` (`np` so far, `rest` still to come): a child of
/// `n` in the class of `ra` is listed in `np`, or, unless it is `ra` itself,
/// in `rest`; any other child is covered.
pub closed spec fn child_placed(
    g: EGraph,
    ra: Id,
    np: Seq<(ENode, Id)>,
    rest: Seq<(ENode, Id)>,
    n: NodeView,
    cls: Id,
    c: u32,
) -> bool {
    if g.root(c as int) == ra as int {
        listed(g, np, n, cls) || (c != ra && listed(g, rest, n, cls))
    } else {
        g.covered(n, cls, c)
    }
}

/// Every child of `n` is placed, and `n` is represented or listed in `rest`.
pub closed spec fn placed(
    g: EGraph,
    ra: Id,
    np: Seq<(ENode, Id)>,
    rest: Seq<(ENode, Id)>,
    n: NodeView,
    cls: Id,
) -> bool {
    &&& forall|k: int| 0 <= k < n.1.len() ==> #[trigger] child_placed(g, ra, np, rest, n, cls, n.1[k])
    &&& g.represented(n, cls) || listed(g, rest, n, cls)
}

/// The graph while the parent entries of `rb`, merged into `ra`, are absorbed:
/// neither class has a parent list in the graph, every entry (of the table,
/// of the parent lists, of `np` and of `rest`) is placed, and each entry of a
/// list has the class of the list as a child.
pub closed spec fn absorbing(g: EGraph, ra: Id, rb: Id, np: Seq<(ENode, Id)>, rest: Seq<(ENode, Id)>) -> bool {
    &&& ra != rb
    &&& ra < g.size()
    &&& rb < g.size()
    &&& g.root(ra as int) == ra as int
    &&& g.root(rb as int) == ra as int
    &&& !g.parents@.contains_key(ra)
    &&& !g.parents@.contains_key(rb)
    &&& entries_typed(np, g.class_types@)
    &&& entries_typed(rest, g.class_types@)
    &&& forall|j: int| 0 <= j < g.memo@.len() ==> placed(g, ra, np, rest, nv(#[trigger] g.memo@[j].0), g.memo@[j].1)
    &&& forall|k: Id, i: int|
        #![trigger g.parents@[k]@[i]]
        g.parents@.contains_key(k) && 0 <= i < g.parents@[k]@.len() ==> placed(
            g,
            ra,
            np,
            rest,
            nv(g.parents@[k]@[i].0),
            g.parents@[k]@[i].1,
        ) && g.parents@[k]@[i].0.children@.contains(k)
    &&& forall|i: int| 0 <= i < np.len() ==> placed(g, ra, np, rest, nv(#[trigger] np[i].0), np[i].1) && np[i].0.children@.contains(ra)
    &&& forall|i: int| 0 <= i < rest.len() ==> placed(g, ra, np, rest, nv(#[trigger] rest[i].0), rest[i].1) && rest[i].0.children@.contains(rb)
}

/// The canonical node of a canonical node is itself.
proof fn lemma_canonical_idem(g: EGraph, n: NodeView)
    requires
        g.wf(),
        children_below(n.1, g.size()),
    ensures
        g.canonical(g.canonical(n)) == g.canonical(n),
        children_below(g.canonical(n).1, g.size()),
{
    let m = g.canonical(n);
    assert forall|k: int| 0 <= k < m.1.len() implies #[trigger] m.1[k] < g.size() && g.root(m.1[k] as int) == m.1[k] as int by {
        g.lemma_root(n.1[k] as int);
    }
    lemma_canonical_of_roots(g, m);
}

/// A canonical node has only roots as children.
proof fn lemma_canonical_avoids(g: EGraph, n: NodeView, rb: Id)
    requires
        g.wf(),
        children_below(n.1, g.size()),
        g.root(rb as int) != rb as int,
    ensures
        !g.canonical(n).1.contains(rb),
{
    if g.canonical(n).1.contains(rb) {
        let k = choose|k: int| 0 <= k < g.canonical(n).1.len() && g.canonical(n).1[k] == rb;
        g.lemma_root(n.1[k] as int);
    }
}

/// A node with child `rb` has the root of `rb` as a child of its canonical node.
proof fn lemma_canonical_has(g: EGraph, n: NodeView, rb: Id, ra: Id)
    requires
        g.wf(),
        children_below(n.1, g.size()),
        n.1.contains(rb),
        g.root(rb as int) == ra as int,
    ensures
        g.canonical(n).1.contains(ra),
{
    let k = choose|k: int| 0 <= k < n.1.len() && n.1[k] == rb;
    assert(g.canonical(n).1[k] == ra);
}

/// A graph with the same union-find and pending unions has the same links.
proof fn lemma_relinked_same(g: EGraph, h: EGraph)
    requires
        h.uf == g.uf,
        h.worklist@ == g.worklist@,
    ensures
        relinked(g, h),
{
    assert forall|a: Id, b: Id| #[trigger] g.step(a, b) implies h.linked(a, b) by {
        let p = seq![a, b];
        assert(h.step(p[0], p[1]));
        assert(h.is_chain(p));
    }
}

/// Placement survives in a graph that keeps the links and tables.
proof fn lemma_placed_kept(
    g: EGraph,
    h: EGraph,
    ra: Id,
    np: Seq<(ENode, Id)>,
    rest: Seq<(ENode, Id)>,
    n: NodeView,
    cls: Id,
)
    requires
        g.wf(),
        kept(g, h),
        entries_typed(np, g.class_types@),
        entries_typed(rest, g.class_types@),
        children_below(n.1, g.size()),
        placed(g, ra, np, rest, n, cls),
    ensures
        placed(h, ra, np, rest, n, cls),
{
    assert forall|k: int| 0 <= k < n.1.len() implies #[trigger] child_placed(h, ra, np, rest, n, cls, n.1[k]) by {
        let c = n.1[k];
        assert(child_placed(g, ra, np, rest, n, cls, c));
        assert(h.root(c as int) == g.root(c as int));
        if g.root(c as int) == ra as int {
            if listed(g, np, n, cls) {
                lemma_listed_kept(g, h, np, n, cls);
            } else {
                lemma_listed_kept(g, h, rest, n, cls);
            }
        } else {
            lemma_covered_kept(g, h, n, cls, c);
        }
    }
    if g.represented(n, cls) {
        lemma_represented_kept(g, h, n, cls);
    } else {
        lemma_listed_kept(g, h, rest, n, cls);
    }
}

/// Placement survives the removal of table entries that have `rb` as a child,
/// once `rb` is no longer a root.
proof fn lemma_placed_removed(
    g: EGraph,
    h: EGraph,
    ra: Id,
    rb: Id,
    np: Seq<(ENode, Id)>,
    rest: Seq<(ENode, Id)>,
    n: NodeView,
    cls: Id,
)
    requires
        g.wf(),
        h.uf == g.uf,
        h.worklist == g.worklist,
        h.parents == g.parents,
        g.root(rb as int) != rb as int,
        entries_typed(np, g.class_types@),
        entries_typed(rest, g.class_types@),
        children_below(n.1, g.size()),
        forall|j: int|
            0 <= j < g.memo@.len() && !nv(#[trigger] g.memo@[j].0).1.contains(rb) ==> exists|i: int|
                0 <= i < h.memo@.len() && h.memo@[i] == g.memo@[j],
        placed(g, ra, np, rest, n, cls),
    ensures
        placed(h, ra, np, rest, n, cls),
{
    lemma_relinked_same(g, h);
    lemma_canonical_same(g, h, n);
    assert forall|k: int| 0 <= k < n.1.len() implies #[trigger] child_placed(h, ra, np, rest, n, cls, n.1[k]) by {
        let c = n.1[k];
        assert(child_placed(g, ra, np, rest, n, cls, c));
        if g.root(c as int) == ra as int {
            if listed(g, np, n, cls) {
                lemma_listed_kept(g, h, np, n, cls);
            } else {
                lemma_listed_kept(g, h, rest, n, cls);
            }
        } else {
            let r = g.root(c as int) as Id;
            assert(entries_typed(g.parents@[r]@, g.class_types@));
            lemma_listed_kept(g, h, g.parents@[r]@, n, cls);
        }
    }
    if g.represented(n, cls) {
        let j = choose|j: int|
            0 <= j < g.memo@.len() && nv(#[trigger] g.memo@[j].0) == g.canonical(n) && g.linked(g.memo@[j].1, cls);
        lemma_canonical_avoids(g, n, rb);
        assert(!nv(g.memo@[j].0).1.contains(rb));
        let i = choose|i: int| 0 <= i < h.memo@.len() && h.memo@[i] == g.memo@[j];
        lemma_linked_mono(g, h, g.memo@[j].1, cls);
        assert(nv(h.memo@[i].0) == h.canonical(n));
    } else {
        lemma_listed_kept(g, h, rest, n, cls);
    }
}

/// A listing in `rest` moves to `np2`, or to the tail of `rest`, once the
/// first entry of `rest` is listed in `np2`.
proof fn lemma_listed_shift(g: EGraph, np2: Seq<(ENode, Id)>, rest: Seq<(ENode, Id)>, n: NodeView, cls: Id)
    requires
        rest.len() > 0,
        listed(g, np2, nv(rest[0].0), rest[0].1),
        listed(g, rest, n, cls),
    ensures
        listed(g, np2, n, cls) || listed(g, rest.drop_first(), n, cls),
{
    let i = choose|i: int|
        0 <= i < rest.len() && g.canonical(nv(#[trigger] rest[i].0)) == g.canonical(n) && g.linked(rest[i].1, cls);
    if i == 0 {
        let y = choose|y: int|
            0 <= y < np2.len() && g.canonical(nv(#[trigger] np2[y].0)) == g.canonical(nv(rest[0].0)) && g.linked(
                np2[y].1,
                rest[0].1,
            );
        lemma_linked_trans(g, np2[y].1, rest[0].1, cls);
        assert(g.canonical(nv(np2[y].0)) == g.canonical(n) && g.linked(np2[y].1, cls));
    } else {
        let t = rest.drop_first();
        assert(t[i - 1] == rest[i]);
        assert(g.canonical(nv(t[i - 1].0)) == g.canonical(n) && g.linked(t[i - 1].1, cls));
    }
}

/// A listing in `rest` becomes a representation, or a listing in the tail of
/// `rest`, once the first entry of `rest` is represented.
proof fn lemma_represented_shift(g: EGraph, rest: Seq<(ENode, Id)>, n: NodeView, cls: Id)
    requires
        rest.len() > 0,
        g.represented(nv(rest[0].0), rest[0].1),
        listed(g, rest, n, cls),
    ensures
        g.represented(n, cls) || listed(g, rest.drop_first(), n, cls),
{
    let i = choose|i: int|
        0 <= i < rest.len() && g.canonical(nv(#[trigger] rest[i].0)) == g.canonical(n) && g.linked(rest[i].1, cls);
    if i == 0 {
        let j = choose|j: int|
            0 <= j < g.memo@.len() && nv(#[trigger] g.memo@[j].0) == g.canonical(nv(rest[0].0)) && g.linked(
                g.memo@[j].1,
                rest[0].1,
            );
        lemma_linked_trans(g, g.memo@[j].1, rest[0].1, cls);
        assert(nv(g.memo@[j].0) == g.canonical(n) && g.linked(g.memo@[j].1, cls));
    } else {
        let t = rest.drop_first();
        assert(t[i - 1] == rest[i]);
        assert(g.canonical(nv(t[i - 1].0)) == g.canonical(n) && g.linked(t[i - 1].1, cls));
    }
}

/// Placement moves on past the first entry of `rest` once that entry is
/// represented and listed in `np2`, which begins with `np`.
proof fn lemma_placed_shift(
    g: EGraph,
    ra: Id,
    np: Seq<(ENode, Id)>,
    np2: Seq<(ENode, Id)>,
    rest: Seq<(ENode, Id)>,
    n: NodeView,
    cls: Id,
)
    requires
        rest.len() > 0,
        np2.len() >= np.len(),
        forall|i: int| 0 <= i < np.len() ==> #[trigger] np2[i] == np[i],
        listed(g, np2, nv(rest[0].0), rest[0].1),
        g.represented(nv(rest[0].0), rest[0].1),
        placed(g, ra, np, rest, n, cls),
    ensures
        placed(g, ra, np2, rest.drop_first(), n, cls),
{
    assert forall|k: int| 0 <= k < n.1.len() implies #[trigger] child_placed(
        g,
        ra,
        np2,
        rest.drop_first(),
        n,
        cls,
        n.1[k],
    ) by {
        let c = n.1[k];
        assert(child_placed(g, ra, np, rest, n, cls, c));
        if g.root(c as int) == ra as int {
            if listed(g, np, n, cls) {
                lemma_listed_prefix(g, np, np2, n, cls);
            } else {
                lemma_listed_shift(g, np2, rest, n, cls);
            }
        }
    }
    if !g.represented(n, cls) {
        lemma_represented_shift(g, rest, n, cls);
    }
}


/// The absorption survives in a graph that keeps the links, with the same tables.
pub proof fn lemma_absorbing_kept(g: EGraph, h: EGraph, ra: Id, rb: Id, np: Seq<(ENode, Id)>, rest: Seq<(ENode, Id)>)
    requires
        g.wf(),
        absorbing(g, ra, rb, np, rest),
        kept(g, h),
        h.size() == g.size(),
        h.memo == g.memo,
        h.parents == g.parents,
        h.class_types == g.class_types,
    ensures
        absorbing(h, ra, rb, np, rest),
        forall|n: NodeView, cls: Id|
            #![trigger placed(h, ra, np, rest, n, cls)]
            children_below(n.1, g.size()) && placed(g, ra, np, rest, n, cls) ==> placed(h, ra, np, rest, n, cls),
{
    assert forall|n: NodeView, cls: Id| children_below(n.1, g.size()) && placed(g, ra, np, rest, n, cls) implies #[trigger] placed(
        h,
        ra,
        np,
        rest,
        n,
        cls,
    ) by {
        lemma_placed_kept(g, h, ra, np, rest, n, cls);
    }
    assert forall|j: int| 0 <= j < h.memo@.len() implies placed(h, ra, np, rest, nv(#[trigger] h.memo@[j].0), h.memo@[j].1) by {
        assert(children_below(g.memo@[j].0.children@, g.class_types@.len()));
        lemma_placed_kept(g, h, ra, np, rest, nv(g.memo@[j].0), g.memo@[j].1);
    }
    assert forall|k: Id, i: int|
        #![trigger h.parents@[k]@[i]]
        h.parents@.contains_key(k) && 0 <= i < h.parents@[k]@.len() implies placed(
            h,
            ra,
            np,
            rest,
            nv(h.parents@[k]@[i].0),
            h.parents@[k]@[i].1,
        ) && h.parents@[k]@[i].0.children@.contains(k) by {
        assert(entries_typed(g.parents@[k]@, g.class_types@));
        assert(children_below(g.parents@[k]@[i].0.children@, g.class_types@.len()));
        lemma_placed_kept(g, h, ra, np, rest, nv(g.parents@[k]@[i].0), g.parents@[k]@[i].1);
    }
    assert forall|i: int| 0 <= i < np.len() implies placed(h, ra, np, rest, nv(#[trigger] np[i].0), np[i].1) by {
        assert(children_below(np[i].0.children@, g.class_types@.len()));
        lemma_placed_kept(g, h, ra, np, rest, nv(np[i].0), np[i].1);
    }
    assert forall|i: int| 0 <= i < rest.len() implies placed(h, ra, np, rest, nv(#[trigger] rest[i].0), rest[i].1) by {
        assert(children_below(rest[i].0.children@, g.class_types@.len()));
        lemma_placed_kept(g, h, ra, np, rest, nv(rest[i].0), rest[i].1);
    }
}

/// The absorption survives the removal from the table of the node of the
/// first entry of `rest`.
#[verifier::spinoff_prover]
#[verifier::rlimit(50)]
pub proof fn lemma_absorbing_removed(
    g: EGraph,
    h: EGraph,
    ra: Id,
    rb: Id,
    np: Seq<(ENode, Id)>,
    rest: Seq<(ENode, Id)>,
)
    requires
        g.wf(),
        absorbing(g, ra, rb, np, rest),
        rest.len() > 0,
        h.uf == g.uf,
        h.worklist == g.worklist,
        h.parents == g.parents,
        h.class_types == g.class_types,
        h.memo@ == g.memo@ || exists|p: int|
            0 <= p < g.memo@.len() && nv(#[trigger] g.memo@[p].0) == nv(rest[0].0) && h.memo@ == g.memo@.remove(p),
    ensures
        absorbing(h, ra, rb, np, rest),
        forall|n: NodeView, cls: Id|
            #![trigger placed(h, ra, np, rest, n, cls)]
            children_below(n.1, g.size()) && placed(g, ra, np, rest, n, cls) ==> placed(h, ra, np, rest, n, cls),
{
    let z: int = 0;
    assert(rest[z].0.children@.contains(rb));
    assert forall|j: int|
        0 <= j < g.memo@.len() && !nv(#[trigger] g.memo@[j].0).1.contains(rb) implies exists|i: int|
            0 <= i < h.memo@.len() && h.memo@[i] == g.memo@[j] by {
        if h.memo@ == g.memo@ {
            assert(h.memo@[j] == g.memo@[j]);
        } else {
            let p = choose|p: int|
                0 <= p < g.memo@.len() && nv(#[trigger] g.memo@[p].0) == nv(rest[0].0) && h.memo@ == g.memo@.remove(p);
            assert(j != p);
            if j < p {
                assert(h.memo@[j] == g.memo@[j]);
            } else {
                assert(h.memo@[j - 1] == g.memo@[j]);
            }
        }
    }
    assert forall|n: NodeView, cls: Id| children_below(n.1, g.size()) && placed(g, ra, np, rest, n, cls) implies #[trigger] placed(
        h,
        ra,
        np,
        rest,
        n,
        cls,
    ) by {
        lemma_placed_removed(g, h, ra, rb, np, rest, n, cls);
    }
    assert forall|i: int| 0 <= i < h.memo@.len() implies placed(h, ra, np, rest, nv(#[trigger] h.memo@[i].0), h.memo@[i].1) by {
        let j = if h.memo@ == g.memo@ {
            i
        } else {
            let p = choose|p: int|
                0 <= p < g.memo@.len() && nv(#[trigger] g.memo@[p].0) == nv(rest[0].0) && h.memo@ == g.memo@.remove(p);
            if i < p {
                i
            } else {
                i + 1
            }
        };
        assert(h.memo@[i] == g.memo@[j]);
        assert(children_below(g.memo@[j].0.children@, g.class_types@.len()));
        lemma_placed_removed(g, h, ra, rb, np, rest, nv(g.memo@[j].0), g.memo@[j].1);
    }
    assert forall|k: Id, i: int|
        #![trigger h.parents@[k]@[i]]
        h.parents@.contains_key(k) && 0 <= i < h.parents@[k]@.len() implies placed(
            h,
            ra,
            np,
            rest,
            nv(h.parents@[k]@[i].0),
            h.parents@[k]@[i].1,
        ) && h.parents@[k]@[i].0.children@.contains(k) by {
        assert(entries_typed(g.parents@[k]@, g.class_types@));
        assert(children_below(g.parents@[k]@[i].0.children@, g.class_types@.len()));
        lemma_placed_removed(g, h, ra, rb, np, rest, nv(g.parents@[k]@[i].0), g.parents@[k]@[i].1);
    }
    assert forall|i: int| 0 <= i < np.len() implies placed(h, ra, np, rest, nv(#[trigger] np[i].0), np[i].1) by {
        assert(children_below(np[i].0.children@, g.class_types@.len()));
        lemma_placed_removed(g, h, ra, rb, np, rest, nv(np[i].0), np[i].1);
    }
    assert forall|i: int| 0 <= i < rest.len() implies placed(h, ra, np, rest, nv(#[trigger] rest[i].0), rest[i].1) by {
        assert(children_below(rest[i].0.children@, g.class_types@.len()));
        lemma_placed_removed(g, h, ra, rb, np, rest, nv(rest[i].0), rest[i].1);
    }
}

/// Every placed entry moves on past the first entry of `rest`, given that
/// entry represented and listed in `np2`; table entries may be placed for the
/// tail of `rest` already, and so are the entries of `np2` beyond `np`.
proof fn lemma_absorbing_shift(
    g: EGraph,
    ra: Id,
    rb: Id,
    np: Seq<(ENode, Id)>,
    np2: Seq<(ENode, Id)>,
    rest: Seq<(ENode, Id)>,
)
    requires
        ra != rb,
        ra < g.size(),
        rb < g.size(),
        g.root(ra as int) == ra as int,
        g.root(rb as int) == ra as int,
        !g.parents@.contains_key(ra),
        !g.parents@.contains_key(rb),
        entries_typed(np2, g.class_types@),
        entries_typed(rest, g.class_types@),
        forall|j: int|
            0 <= j < g.memo@.len() ==> placed(g, ra, np, rest, nv(#[trigger] g.memo@[j].0), g.memo@[j].1) || placed(
                g,
                ra,
                np2,
                rest.drop_first(),
                nv(g.memo@[j].0),
                g.memo@[j].1,
            ),
        forall|k: Id, i: int|
            #![trigger g.parents@[k]@[i]]
            g.parents@.contains_key(k) && 0 <= i < g.parents@[k]@.len() ==> placed(
                g,
                ra,
                np,
                rest,
                nv(g.parents@[k]@[i].0),
                g.parents@[k]@[i].1,
            ) && g.parents@[k]@[i].0.children@.contains(k),
        forall|i: int| 0 <= i < np.len() ==> placed(g, ra, np, rest, nv(#[trigger] np[i].0), np[i].1),
        forall|i: int| 0 <= i < rest.len() ==> placed(g, ra, np, rest, nv(#[trigger] rest[i].0), rest[i].1) && rest[i].0.children@.contains(rb),
        rest.len() > 0,
        np2.len() >= np.len(),
        forall|i: int| 0 <= i < np.len() ==> #[trigger] np2[i] == np[i],
        forall|i: int| 0 <= i < np2.len() ==> (#[trigger] np2[i]).0.children@.contains(ra),
        forall|i: int|
            np.len() <= i < np2.len() ==> placed(g, ra, np2, rest.drop_first(), nv(#[trigger] np2[i].0), np2[i].1),
        listed(g, np2, nv(rest[0].0), rest[0].1),
        g.represented(nv(rest[0].0), rest[0].1),
    ensures
        absorbing(g, ra, rb, np2, rest.drop_first()),
{
    let t = rest.drop_first();
    assert forall|j: int| 0 <= j < g.memo@.len() implies placed(g, ra, np2, t, nv(#[trigger] g.memo@[j].0), g.memo@[j].1) by {
        if placed(g, ra, np, rest, nv(g.memo@[j].0), g.memo@[j].1) {
            lemma_placed_shift(g, ra, np, np2, rest, nv(g.memo@[j].0), g.memo@[j].1);
        }
    }
    assert forall|k: Id, i: int|
        #![trigger g.parents@[k]@[i]]
        g.parents@.contains_key(k) && 0 <= i < g.parents@[k]@.len() implies placed(
            g,
            ra,
            np2,
            t,
            nv(g.parents@[k]@[i].0),
            g.parents@[k]@[i].1,
        ) && g.parents@[k]@[i].0.children@.contains(k) by {
        lemma_placed_shift(g, ra, np, np2, rest, nv(g.parents@[k]@[i].0), g.parents@[k]@[i].1);
    }
    assert forall|i: int| 0 <= i < np2.len() implies placed(g, ra, np2, t, nv(#[trigger] np2[i].0), np2[i].1)
        && np2[i].0.children@.contains(ra) by {
        if i < np.len() {
            assert(np2[i] == np[i]);
            lemma_placed_shift(g, ra, np, np2, rest, nv(np[i].0), np[i].1);
        }
    }
    assert forall|i: int| 0 <= i < t.len() implies placed(g, ra, np2, t, nv(#[trigger] t[i].0), t[i].1)
        && t[i].0.children@.contains(rb) by {
        assert(t[i] == rest[i + 1]);
        lemma_placed_shift(g, ra, np, np2, rest, nv(rest[i + 1].0), rest[i + 1].1);
    }
    assert(entries_typed(t, g.class_types@)) by {
        assert forall|i: int| 0 <= i < t.len() implies #[trigger] t[i] == rest[i + 1] by {}
    }
}


/// The absorption moves past the first entry of `rest` when the table holds
/// its canonical node for a linked class.
pub proof fn lemma_absorbing_found(g: EGraph, ra: Id, rb: Id, np: Seq<(ENode, Id)>, rest: Seq<(ENode, Id)>, x: int)
    requires
        g.wf(),
        absorbing(g, ra, rb, np, rest),
        rest.len() > 0,
        0 <= x < g.memo@.len(),
        nv(g.memo@[x].0) == g.canonical(nv(rest[0].0)),
        g.linked(rest[0].1, g.memo@[x].1),
    ensures
        absorbing(g, ra, rb, np, rest.drop_first()),
        forall|n: NodeView, cls: Id|
            #![trigger placed(g, ra, np, rest.drop_first(), n, cls)]
            placed(g, ra, np, rest, n, cls) ==> placed(g, ra, np, rest.drop_first(), n, cls),
{
    let e = rest[0];
    let z: int = 0;
    assert(rest[z].0.children@.contains(rb));
    assert(children_below(e.0.children@, g.class_types@.len()));
    lemma_canonical_has(g, nv(e.0), rb, ra);
    let n1 = g.canonical(nv(e.0));
    let k = choose|k: int| 0 <= k < n1.1.len() && n1.1[k] == ra;
    assert(placed(g, ra, np, rest, nv(g.memo@[x].0), g.memo@[x].1));
    assert(child_placed(g, ra, np, rest, n1, g.memo@[x].1, n1.1[k]));
    assert(listed(g, np, n1, g.memo@[x].1));
    lemma_canonical_idem(g, nv(e.0));
    let y = choose|y: int|
        0 <= y < np.len() && g.canonical(nv(#[trigger] np[y].0)) == g.canonical(n1) && g.linked(np[y].1, g.memo@[x].1);
    lemma_linked_sym(g, rest[0].1, g.memo@[x].1);
    lemma_linked_trans(g, np[y].1, g.memo@[x].1, rest[0].1);
    assert(g.canonical(nv(np[y].0)) == g.canonical(nv(rest[0].0)) && g.linked(np[y].1, rest[0].1));
    assert(listed(g, np, nv(rest[0].0), rest[0].1));
    assert(nv(g.memo@[x].0) == g.canonical(nv(rest[0].0)) && g.linked(g.memo@[x].1, rest[0].1));
    assert(g.represented(nv(rest[0].0), rest[0].1));
    assert forall|i: int| 0 <= i < np.len() implies #[trigger] np[i] == np[i] by {}
    lemma_absorbing_shift(g, ra, rb, np, np, rest);
    assert forall|n: NodeView, cls: Id| placed(g, ra, np, rest, n, cls) implies #[trigger] placed(
        g,
        ra,
        np,
        rest.drop_first(),
        n,
        cls,
    ) by {
        lemma_placed_shift(g, ra, np, np, rest, n, cls);
    }
}


/// The entry recorded afresh for the first entry of `rest` is placed.
proof fn lemma_placed_fresh(
    g: EGraph,
    h: EGraph,
    ra: Id,
    rb: Id,
    np: Seq<(ENode, Id)>,
    rest: Seq<(ENode, Id)>,
    ent: (ENode, Id),
    ent2: (ENode, Id),
)
    requires
        g.wf(),
        absorbing(g, ra, rb, np, rest),
        rest.len() > 0,
        nv(ent2.0) == nv(ent.0),
        ent2.1 == ent.1,
        kept(g, h),
        h.size() == g.size(),
        h.parents == g.parents,
        h.memo@ == g.memo@.push(ent),
        nv(ent.0) == g.canonical(nv(rest[0].0)),
        ent.1 as int == g.root(rest[0].1 as int),
    ensures
        placed(h, ra, np.push(ent2), rest.drop_first(), nv(ent.0), ent.1),
{
    let e = rest[0];
    let n1 = nv(ent.0);
    let cls1 = ent.1;
    let np2 = np.push(ent2);
    let t = rest.drop_first();
    assert(children_below(e.0.children@, g.class_types@.len()));
    lemma_canonical_idem(g, nv(e.0));
    lemma_canonical_same(g, h, n1);
    g.lemma_root(e.1 as int);
    assert(cls1 < g.size());
    lemma_linked_refl(h, cls1);
    let last = np.len() as int;
    assert(np2[last] == ent2);
    assert(h.canonical(nv(np2[last].0)) == h.canonical(n1) && h.linked(np2[last].1, cls1));
    assert(listed(h, np2, n1, cls1));
    assert forall|k: int| 0 <= k < n1.1.len() implies #[trigger] child_placed(h, ra, np2, t, n1, cls1, n1.1[k]) by {
        let c = n1.1[k];
        let c0 = e.0.children@[k];
        g.lemma_root(c0 as int);
        assert(c as int == g.root(c0 as int));
        assert(h.root(c as int) == g.root(c as int));
        if g.root(c as int) != ra as int {
            let z: int = 0;
            assert(placed(g, ra, np, rest, nv(rest[z].0), rest[z].1));
            assert(child_placed(g, ra, np, rest, nv(e.0), e.1, c0));
            assert(g.covered(nv(e.0), e.1, c0));
            let r = g.root(c0 as int) as Id;
            assert(r == c);
            let list = g.parents@[r]@;
            let y = choose|y: int|
                0 <= y < list.len() && g.canonical(nv(#[trigger] list[y].0)) == g.canonical(nv(e.0)) && g.linked(
                    list[y].1,
                    e.1,
                );
            lemma_linked_same_root(g, e.1, cls1);
            lemma_linked_trans(g, list[y].1, e.1, cls1);
            assert(g.canonical(nv(list[y].0)) == g.canonical(n1) && g.linked(list[y].1, cls1));
            assert(listed(g, list, n1, cls1));
            assert(entries_typed(list, g.class_types@));
            lemma_listed_kept(g, h, list, n1, cls1);
            assert(h.covered(n1, cls1, c));
        }
    }
    let m = g.memo@.len() as int;
    assert(h.memo@[m] == ent);
    assert(nv(h.memo@[m].0) == h.canonical(n1) && h.linked(h.memo@[m].1, cls1));
    assert(h.represented(n1, cls1));
}

/// The absorption moves past the first entry of `rest` when its canonical
/// node, absent from the table, is recorded for the root of its class in the
/// table and in `np`.
pub proof fn lemma_absorbing_new(
    g: EGraph,
    h: EGraph,
    ra: Id,
    rb: Id,
    np: Seq<(ENode, Id)>,
    rest: Seq<(ENode, Id)>,
    ent: (ENode, Id),
    ent2: (ENode, Id),
)
    requires
        g.wf(),
        h.wf(),
        absorbing(g, ra, rb, np, rest),
        rest.len() > 0,
        nv(ent2.0) == nv(ent.0),
        ent2.1 == ent.1,
        grows(g, h),
        h.size() == g.size(),
        h.parents == g.parents,
        h.class_types == g.class_types,
        h.memo@ == g.memo@.push(ent),
        nv(ent.0) == g.canonical(nv(rest[0].0)),
        ent.1 as int == g.root(rest[0].1 as int),
    ensures
        absorbing(h, ra, rb, np.push(ent2), rest.drop_first()),
        forall|n: NodeView, cls: Id|
            #![trigger placed(h, ra, np.push(ent2), rest.drop_first(), n, cls)]
            children_below(n.1, g.size()) && placed(g, ra, np, rest, n, cls) ==> placed(
                h,
                ra,
                np.push(ent2),
                rest.drop_first(),
                n,
                cls,
            ),
{
    lemma_grows_kept(g, h);
    let e = rest[0];
    let np2 = np.push(ent2);
    let t = rest.drop_first();
    let z: int = 0;
    assert(rest[z].0.children@.contains(rb));
    assert(children_below(e.0.children@, g.class_types@.len()));
    lemma_canonical_idem(g, nv(e.0));
    lemma_canonical_same(g, h, nv(ent.0));
    lemma_canonical_same(g, h, nv(e.0));
    lemma_canonical_has(g, nv(e.0), rb, ra);
    g.lemma_root(e.1 as int);
    lemma_linked_same_root(h, ent.1, e.1);
    let last = np.len() as int;
    assert(np2[last] == ent2);
    assert(h.canonical(nv(np2[last].0)) == h.canonical(nv(e.0)) && h.linked(np2[last].1, e.1));
    assert(listed(h, np2, nv(rest[0].0), rest[0].1));
    let m = g.memo@.len() as int;
    assert(h.memo@[m] == ent);
    assert(nv(h.memo@[m].0) == h.canonical(nv(e.0)) && h.linked(h.memo@[m].1, e.1));
    assert(h.represented(nv(rest[0].0), rest[0].1));
    lemma_placed_fresh(g, h, ra, rb, np, rest, ent, ent2);
    assert forall|j: int| 0 <= j < h.memo@.len() implies placed(h, ra, np, rest, nv(#[trigger] h.memo@[j].0), h.memo@[j].1)
        || placed(h, ra, np2, t, nv(h.memo@[j].0), h.memo@[j].1) by {
        if j < m {
            assert(h.memo@[j] == g.memo@[j]);
            assert(children_below(g.memo@[j].0.children@, g.class_types@.len()));
            lemma_placed_kept(g, h, ra, np, rest, nv(g.memo@[j].0), g.memo@[j].1);
        }
    }
    assert forall|k: Id, i: int|
        #![trigger h.parents@[k]@[i]]
        h.parents@.contains_key(k) && 0 <= i < h.parents@[k]@.len() implies placed(
            h,
            ra,
            np,
            rest,
            nv(h.parents@[k]@[i].0),
            h.parents@[k]@[i].1,
        ) && h.parents@[k]@[i].0.children@.contains(k) by {
        assert(entries_typed(g.parents@[k]@, g.class_types@));
        assert(children_below(g.parents@[k]@[i].0.children@, g.class_types@.len()));
        lemma_placed_kept(g, h, ra, np, rest, nv(g.parents@[k]@[i].0), g.parents@[k]@[i].1);
    }
    assert forall|i: int| 0 <= i < np.len() implies placed(h, ra, np, rest, nv(#[trigger] np[i].0), np[i].1) by {
        assert(children_below(np[i].0.children@, g.class_types@.len()));
        lemma_placed_kept(g, h, ra, np, rest, nv(np[i].0), np[i].1);
    }
    assert forall|i: int| 0 <= i < rest.len() implies placed(h, ra, np, rest, nv(#[trigger] rest[i].0), rest[i].1)
        && rest[i].0.children@.contains(rb) by {
        assert(children_below(rest[i].0.children@, g.class_types@.len()));
        lemma_placed_kept(g, h, ra, np, rest, nv(rest[i].0), rest[i].1);
    }
    assert(entries_typed(np2, h.class_types@)) by {
        assert forall|i: int| 0 <= i < np2.len() implies {
            &&& (#[trigger] np2[i]).1 < h.class_types@.len()
            &&& children_below(np2[i].0.children@, h.class_types@.len())
            &&& h.class_types@[np2[i].1 as int] == np2[i].0.ty
        } by {
            if i < np.len() {
                assert(np2[i] == np[i]);
            } else {
                assert(np2[i] == ent2);
                assert(h.memo@[m] == ent);
            }
        }
    }
    assert forall|i: int| 0 <= i < np2.len() implies (#[trigger] np2[i]).0.children@.contains(ra) by {
        if i < np.len() {
            assert(np2[i] == np[i]);
        }
    }
    assert forall|i: int| 0 <= i < np.len() implies #[trigger] np2[i] == np[i] by {}
    lemma_absorbing_shift(h, ra, rb, np, np2, rest);
    assert forall|n: NodeView, cls: Id| children_below(n.1, g.size()) && placed(g, ra, np, rest, n, cls) implies #[trigger] placed(
        h,
        ra,
        np2,
        t,
        n,
        cls,
    ) by {
        lemma_placed_kept(g, h, ra, np, rest, n, cls);
        lemma_placed_shift(h, ra, np, np2, rest, n, cls);
    }
}


/// Every step of `st` is a link of `g`, when `g` merges the class of `rb` into
/// that of `ra` and drops the pending union `(a, b)`, whose ends it joins.
proof fn lemma_steps_coarsen(st: EGraph, g: EGraph, ra: Id, rb: Id, a: Id, b: Id)
    requires
        g.size() == st.size(),
        forall|x: int|
            0 <= x < st.size() ==> #[trigger] g.root(x) == (if st.root(x) == rb as int {
                ra as int
            } else {
                st.root(x)
            }),
        st.worklist@ == g.worklist@.push((a, b)),
        a < st.size(),
        b < st.size(),
        g.root(a as int) == g.root(b as int),
    ensures
        forall|x: Id, y: Id| #[trigger] st.step(x, y) ==> g.linked(x, y),
{
    assert forall|x: Id, y: Id| #[trigger] st.step(x, y) implies g.linked(x, y) by {
        if st.root(x as int) == st.root(y as int) {
            assert(g.root(x as int) == g.root(y as int));
            lemma_linked_same_root(g, x, y);
        } else if (x == a && y == b) || (x == b && y == a) {
            lemma_linked_same_root(g, x, y);
        } else {
            if st.worklist@.contains((x, y)) {
                let t = choose|t: int| 0 <= t < st.worklist@.len() && st.worklist@[t] == (x, y);
                assert(t < g.worklist@.len());
                assert(g.worklist@[t] == (x, y));
            } else {
                let t = choose|t: int| 0 <= t < st.worklist@.len() && st.worklist@[t] == (y, x);
                assert(t < g.worklist@.len());
                assert(g.worklist@[t] == (y, x));
            }
            let p = seq![x, y];
            assert(g.step(p[0], p[1]));
            assert(g.is_chain(p));
        }
    }
}

/// A closed graph stays closed when a pending union whose ends are already
/// one class is dropped.
pub proof fn lemma_closed_popped(st: EGraph, h: EGraph, a: Id, b: Id)
    requires
        st.wf(),
        st.closed(),
        h.size() == st.size(),
        forall|x: int| 0 <= x < st.size() ==> #[trigger] h.root(x) == st.root(x),
        st.worklist@ == h.worklist@.push((a, b)),
        a < st.size(),
        b < st.size(),
        h.root(a as int) == h.root(b as int),
        h.memo == st.memo,
        h.parents == st.parents,
    ensures
        h.closed(),
        forall|n: NodeView, cls: Id|
            #![trigger h.good(n, cls)]
            children_below(n.1, st.size()) && st.good(n, cls) ==> h.good(n, cls),
{
    lemma_steps_coarsen(st, h, a, a, a, b);
    lemma_closed_relinked(st, h);
}

/// Canonical nodes equal before the classes of `rb` and `ra` merge stay equal.
proof fn lemma_canonical_coarsen(st: EGraph, g: EGraph, ra: Id, rb: Id, x: NodeView, y: NodeView)
    requires
        st.wf(),
        g.size() == st.size(),
        forall|z: int|
            0 <= z < st.size() ==> #[trigger] g.root(z) == (if st.root(z) == rb as int {
                ra as int
            } else {
                st.root(z)
            }),
        children_below(x.1, st.size()),
        children_below(y.1, st.size()),
        st.canonical(x) == st.canonical(y),
    ensures
        g.canonical(x) == g.canonical(y),
{
    assert(x.1.len() == st.canonical(x).1.len());
    assert(y.1.len() == st.canonical(y).1.len());
    assert forall|k: int| 0 <= k < x.1.len() implies g.canonical(x).1[k] == g.canonical(y).1[k] by {
        st.lemma_root(x.1[k] as int);
        st.lemma_root(y.1[k] as int);
        let u = st.root(x.1[k] as int);
        let v = st.root(y.1[k] as int);
        assert(st.canonical(x).1[k] == st.canonical(y).1[k]);
        assert(st.canonical(x).1[k] == u as u32);
        assert(st.canonical(y).1[k] == v as u32);
        assert((u as u32) as int == u);
        assert((v as u32) as int == v);
        assert(u == v);
        assert(g.root(x.1[k] as int) == g.root(y.1[k] as int));
    }
    assert(g.canonical(x).1 =~= g.canonical(y).1);
}

/// Listings survive the merge of the class of `rb` into that of `ra`.
proof fn lemma_listed_coarsen(
    st: EGraph,
    g: EGraph,
    ra: Id,
    rb: Id,
    list: Seq<(ENode, Id)>,
    n: NodeView,
    cls: Id,
)
    requires
        st.wf(),
        g.size() == st.size(),
        forall|z: int|
            0 <= z < st.size() ==> #[trigger] g.root(z) == (if st.root(z) == rb as int {
                ra as int
            } else {
                st.root(z)
            }),
        forall|x: Id, y: Id| #[trigger] st.step(x, y) ==> g.linked(x, y),
        entries_typed(list, st.class_types@),
        children_below(n.1, st.size()),
        listed(st, list, n, cls),
    ensures
        listed(g, list, n, cls),
{
    let i = choose|i: int|
        0 <= i < list.len() && st.canonical(nv(#[trigger] list[i].0)) == st.canonical(n) && st.linked(list[i].1, cls);
    assert(children_below(list[i].0.children@, st.class_types@.len()));
    lemma_canonical_coarsen(st, g, ra, rb, nv(list[i].0), n);
    lemma_linked_mono(st, g, list[i].1, cls);
    assert(g.canonical(nv(list[i].0)) == g.canonical(n) && g.linked(list[i].1, cls));
}

/// A good entry of the closed graph `st` is placed once the class of `rb`
/// merges into that of `ra` and their parent lists are taken out as `np` and
/// `rest`.
#[verifier::spinoff_prover]
#[verifier::rlimit(50)]
proof fn lemma_placed_start(
    st: EGraph,
    g: EGraph,
    ra: Id,
    rb: Id,
    np: Seq<(ENode, Id)>,
    rest: Seq<(ENode, Id)>,
    n: NodeView,
    cls: Id,
)
    requires
        st.wf(),
        st.closed(),
        g.size() == st.size(),
        ra != rb,
        ra < st.size(),
        rb < st.size(),
        st.root(ra as int) == ra as int,
        st.root(rb as int) == rb as int,
        forall|z: int|
            0 <= z < st.size() ==> #[trigger] g.root(z) == (if st.root(z) == rb as int {
                ra as int
            } else {
                st.root(z)
            }),
        forall|x: Id, y: Id| #[trigger] st.step(x, y) ==> g.linked(x, y),
        g.memo == st.memo,
        g.parents@ == st.parents@.remove(rb).remove(ra),
        np == (if st.parents@.contains_key(ra) {
            st.parents@[ra]@
        } else {
            Seq::<(ENode, Id)>::empty()
        }),
        rest == (if st.parents@.contains_key(rb) {
            st.parents@[rb]@
        } else {
            Seq::<(ENode, Id)>::empty()
        }),
        children_below(n.1, st.size()),
        st.good(n, cls),
    ensures
        placed(g, ra, np, rest, n, cls),
{
    assert forall|k: int| 0 <= k < n.1.len() implies #[trigger] child_placed(g, ra, np, rest, n, cls, n.1[k]) by {
        let c = n.1[k];
        assert(st.covered(n, cls, c));
        st.lemma_root(c as int);
        let r = st.root(c as int) as Id;
        assert(st.parents@.contains_key(r));
        assert(entries_typed(st.parents@[r]@, st.class_types@));
        if r == ra {
            lemma_listed_coarsen(st, g, ra, rb, np, n, cls);
        } else if r == rb {
            lemma_listed_coarsen(st, g, ra, rb, rest, n, cls);
        } else {
            assert(g.root(c as int) == st.root(c as int));
            assert(g.parents@.contains_key(r));
            assert(g.parents@[r] == st.parents@[r]);
            lemma_listed_coarsen(st, g, ra, rb, st.parents@[r]@, n, cls);
        }
    }
    let j = choose|j: int|
        0 <= j < st.memo@.len() && nv(#[trigger] st.memo@[j].0) == st.canonical(n) && st.linked(st.memo@[j].1, cls);
    lemma_linked_mono(st, g, st.memo@[j].1, cls);
    if forall|k: int| 0 <= k < n.1.len() ==> st.root((#[trigger] n.1[k]) as int) != rb as int {
        assert(g.canonical(n).1 =~= st.canonical(n).1);
        assert(g.memo@[j] == st.memo@[j]);
        assert(nv(g.memo@[j].0) == g.canonical(n) && g.linked(g.memo@[j].1, cls));
    } else {
        let k = choose|k: int| 0 <= k < n.1.len() && st.root((#[trigger] n.1[k]) as int) == rb as int;
        let m = st.canonical(n);
        assert(m.1[k] == rb);
        assert(st.good(nv(st.memo@[j].0), st.memo@[j].1));
        assert(st.covered(m, st.memo@[j].1, m.1[k]));
        lemma_canonical_idem(st, n);
        let list = st.parents@[rb]@;
        let y = choose|y: int|
            0 <= y < list.len() && st.canonical(nv(#[trigger] list[y].0)) == st.canonical(m) && st.linked(
                list[y].1,
                st.memo@[j].1,
            );
        lemma_linked_trans(st, list[y].1, st.memo@[j].1, cls);
        assert(st.canonical(nv(list[y].0)) == st.canonical(n) && st.linked(list[y].1, cls));
        assert(listed(st, rest, n, cls));
        assert(entries_typed(list, st.class_types@));
        lemma_listed_coarsen(st, g, ra, rb, rest, n, cls);
    }
}


/// A closed graph `st` whose class of `rb` has merged into that of `ra`,
/// through the pending union `(a, b)`, with both parent lists taken out as
/// `np` and `rest`, is absorbing them.
pub proof fn lemma_absorbing_start(
    st: EGraph,
    g: EGraph,
    ra: Id,
    rb: Id,
    a: Id,
    b: Id,
    np: Seq<(ENode, Id)>,
    rest: Seq<(ENode, Id)>,
)
    requires
        st.wf(),
        st.closed(),
        g.size() == st.size(),
        ra != rb,
        ra < st.size(),
        rb < st.size(),
        st.root(ra as int) == ra as int,
        st.root(rb as int) == rb as int,
        forall|z: int|
            0 <= z < st.size() ==> #[trigger] g.root(z) == (if st.root(z) == rb as int {
                ra as int
            } else {
                st.root(z)
            }),
        st.worklist@ == g.worklist@.push((a, b)),
        a < st.size(),
        b < st.size(),
        g.root(a as int) == g.root(b as int),
        g.memo == st.memo,
        g.class_types == st.class_types,
        g.parents@ == st.parents@.remove(rb).remove(ra),
        np == (if st.parents@.contains_key(ra) {
            st.parents@[ra]@
        } else {
            Seq::<(ENode, Id)>::empty()
        }),
        rest == (if st.parents@.contains_key(rb) {
            st.parents@[rb]@
        } else {
            Seq::<(ENode, Id)>::empty()
        }),
    ensures
        absorbing(g, ra, rb, np, rest),
        forall|n: NodeView, cls: Id|
            #![trigger placed(g, ra, np, rest, n, cls)]
            children_below(n.1, st.size()) && st.good(n, cls) ==> placed(g, ra, np, rest, n, cls),
{
    lemma_steps_coarsen(st, g, ra, rb, a, b);
    assert forall|n: NodeView, cls: Id| children_below(n.1, st.size()) && st.good(n, cls) implies #[trigger] placed(
        g,
        ra,
        np,
        rest,
        n,
        cls,
    ) by {
        lemma_placed_start(st, g, ra, rb, np, rest, n, cls);
    }
    assert(g.root(ra as int) == ra as int);
    assert(g.root(rb as int) == ra as int);
    if st.parents@.contains_key(ra) {
        assert(entries_typed(st.parents@[ra]@, st.class_types@));
    }
    if st.parents@.contains_key(rb) {
        assert(entries_typed(st.parents@[rb]@, st.class_types@));
    }
    assert forall|j: int| 0 <= j < g.memo@.len() implies placed(g, ra, np, rest, nv(#[trigger] g.memo@[j].0), g.memo@[j].1) by {
        assert(st.good(nv(st.memo@[j].0), st.memo@[j].1));
        assert(children_below(st.memo@[j].0.children@, st.class_types@.len()));
        lemma_placed_start(st, g, ra, rb, np, rest, nv(st.memo@[j].0), st.memo@[j].1);
    }
    assert forall|k: Id, i: int|
        #![trigger g.parents@[k]@[i]]
        g.parents@.contains_key(k) && 0 <= i < g.parents@[k]@.len() implies placed(
            g,
            ra,
            np,
            rest,
            nv(g.parents@[k]@[i].0),
            g.parents@[k]@[i].1,
        ) && g.parents@[k]@[i].0.children@.contains(k) by {
        assert(st.parents@.contains_key(k));
        assert(g.parents@[k] == st.parents@[k]);
        assert(st.good(nv(st.parents@[k]@[i].0), st.parents@[k]@[i].1));
        assert(entries_typed(st.parents@[k]@, st.class_types@));
        assert(children_below(st.parents@[k]@[i].0.children@, st.class_types@.len()));
        lemma_placed_start(st, g, ra, rb, np, rest, nv(st.parents@[k]@[i].0), st.parents@[k]@[i].1);
    }
    assert forall|i: int| 0 <= i < np.len() implies placed(g, ra, np, rest, nv(#[trigger] np[i].0), np[i].1)
        && np[i].0.children@.contains(ra) by {
        assert(st.parents@.contains_key(ra));
        assert(np[i] == st.parents@[ra]@[i]);
        assert(st.good(nv(st.parents@[ra]@[i].0), st.parents@[ra]@[i].1));
        assert(children_below(np[i].0.children@, st.class_types@.len()));
        lemma_placed_start(st, g, ra, rb, np, rest, nv(np[i].0), np[i].1);
    }
    assert forall|i: int| 0 <= i < rest.len() implies placed(g, ra, np, rest, nv(#[trigger] rest[i].0), rest[i].1)
        && rest[i].0.children@.contains(rb) by {
        assert(st.parents@.contains_key(rb));
        assert(rest[i] == st.parents@[rb]@[i]);
        assert(st.good(nv(st.parents@[rb]@[i].0), st.parents@[rb]@[i].1));
        assert(children_below(rest[i].0.children@, st.class_types@.len()));
        lemma_placed_start(st, g, ra, rb, np, rest, nv(rest[i].0), rest[i].1);
    }
}

/// A placed entry is good once `rest` is empty and `np` is the parent list of `ra`.
proof fn lemma_good_finish(
    g: EGraph,
    h: EGraph,
    ra: Id,
    rb: Id,
    np: Seq<(ENode, Id)>,
    v: Vec<(ENode, Id)>,
    n: NodeView,
    cls: Id,
)
    requires
        g.wf(),
        absorbing(g, ra, rb, np, Seq::<(ENode, Id)>::empty()),
        h.uf == g.uf,
        h.worklist == g.worklist,
        h.memo == g.memo,
        h.parents@ == g.parents@.insert(ra, v),
        v@ == np,
        children_below(n.1, g.size()),
        placed(g, ra, np, Seq::<(ENode, Id)>::empty(), n, cls),
    ensures
        h.good(n, cls),
{
    let e = Seq::<(ENode, Id)>::empty();
    lemma_relinked_same(g, h);
    lemma_canonical_same(g, h, n);
    assert(!listed(g, e, n, cls));
    assert forall|k: int| 0 <= k < n.1.len() implies #[trigger] h.covered(n, cls, n.1[k]) by {
        let c = n.1[k];
        assert(child_placed(g, ra, np, e, n, cls, c));
        g.lemma_root(c as int);
        if g.root(c as int) == ra as int {
            lemma_listed_kept(g, h, np, n, cls);
        } else {
            let r = g.root(c as int) as Id;
            assert(r != ra);
            assert(entries_typed(g.parents@[r]@, g.class_types@));
            lemma_listed_kept(g, h, g.parents@[r]@, n, cls);
            assert(h.parents@[r] == g.parents@[r]);
        }
    }
    let j = choose|j: int|
        0 <= j < g.memo@.len() && nv(#[trigger] g.memo@[j].0) == g.canonical(n) && g.linked(g.memo@[j].1, cls);
    lemma_linked_mono(g, h, g.memo@[j].1, cls);
    assert(nv(h.memo@[j].0) == h.canonical(n) && h.linked(h.memo@[j].1, cls));
}

/// Once `rest` is exhausted, recording `np` as the parent list of `ra` closes
/// the graph.
pub proof fn lemma_absorbing_finish(g: EGraph, h: EGraph, ra: Id, rb: Id, np: Seq<(ENode, Id)>, v: Vec<(ENode, Id)>)
    requires
        g.wf(),
        absorbing(g, ra, rb, np, Seq::<(ENode, Id)>::empty()),
        h.uf == g.uf,
        h.worklist == g.worklist,
        h.memo == g.memo,
        h.parents@ == g.parents@.insert(ra, v),
        v@ == np,
    ensures
        h.closed(),
        forall|n: NodeView, cls: Id|
            #![trigger h.good(n, cls)]
            children_below(n.1, g.size()) && placed(g, ra, np, Seq::<(ENode, Id)>::empty(), n, cls) ==> h.good(n, cls),
{
    let e = Seq::<(ENode, Id)>::empty();
    assert forall|n: NodeView, cls: Id|
        children_below(n.1, g.size()) && placed(g, ra, np, e, n, cls) implies #[trigger] h.good(n, cls) by {
        lemma_good_finish(g, h, ra, rb, np, v, n, cls);
    }
    assert forall|j: int| 0 <= j < h.memo@.len() implies h.good(nv(#[trigger] h.memo@[j].0), h.memo@[j].1) by {
        assert(children_below(g.memo@[j].0.children@, g.class_types@.len()));
        lemma_good_finish(g, h, ra, rb, np, v, nv(g.memo@[j].0), g.memo@[j].1);
    }
    assert forall|k: Id, i: int|
        #![trigger h.parents@[k]@[i]]
        h.parents@.contains_key(k) && 0 <= i < h.parents@[k]@.len() implies h.good(
            nv(h.parents@[k]@[i].0),
            h.parents@[k]@[i].1,
        ) && h.parents@[k]@[i].0.children@.contains(k) by {
        if k == ra {
            assert(h.parents@[k]@[i] == np[i]);
            assert(children_below(np[i].0.children@, g.class_types@.len()));
            lemma_good_finish(g, h, ra, rb, np, v, nv(np[i].0), np[i].1);
        } else {
            assert(h.parents@[k] == g.parents@[k]);
            assert(entries_typed(g.parents@[k]@, g.class_types@));
            assert(children_below(g.parents@[k]@[i].0.children@, g.class_types@.len()));
            lemma_good_finish(g, h, ra, rb, np, v, nv(g.parents@[k]@[i].0), g.parents@[k]@[i].1);
        }
    }
}

} // verus!
