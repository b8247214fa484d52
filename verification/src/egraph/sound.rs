//! Soundness of the merges: two classes end up together only when the least
//! congruence generated by the classes as they were and the pending unions
//! relates them.

use vstd::prelude::*;
use crate::egraph::{children_below, entries_typed, in_class, nodes_kept, nv, EGraph, ENode, Id};

verus! {

/// Nodes `a` and `b` have the same operator, type and arity, and their
/// children lie pairwise in the same classes of `g`.
pub open spec fn canon_eq(g: EGraph, a: ENode, b: ENode) -> bool {
    &&& a.op@ == b.op@
    &&& a.ty == b.ty
    &&& a.children@.len() == b.children@.len()
    &&& forall|i: int| 0 <= i < a.children@.len() ==> g.root(#[trigger] a.children@[i] as int) == g.root(b.children@[i] as int)
}

/// A recorded entry `(node, class)` stands for a node listed in that class.
pub open spec fn entry_sound(g: EGraph, e: (ENode, Id)) -> bool {
    exists|n: ENode| #[trigger] in_class(g, e.1 as int, n) && canon_eq(g, e.0, n)
}

/// Every entry of the list stands for a listed node.
pub open spec fn list_sound(g: EGraph, l: Seq<(ENode, Id)>) -> bool {
    forall|j: int| 0 <= j < l.len() ==> entry_sound(g, #[trigger] l[j])
}

/// Every entry of the memo and of the parent lists stands for a listed node.
pub open spec fn entries_sound(g: EGraph) -> bool {
    &&& list_sound(g, g.memo@)
    &&& forall|k: Id| #[trigger] g.parents@.contains_key(k) ==> list_sound(g, g.parents@[k]@)
}

/// Every pending union from position `from` on joins classes holding agreeing nodes.
pub open spec fn pairs_congruent(g: EGraph, wl: Seq<(Id, Id)>, from: int) -> bool {
    forall|w: int| from <= w < wl.len() ==> congruent_pair(g, (#[trigger] wl[w]).0 as int, wl[w].1 as int)
}

/// Every pending union joins ids related in the congruence of `g0`.
pub open spec fn pairs_related(g0: EGraph, wl: Seq<(Id, Id)>) -> bool {
    forall|w: int| 0 <= w < wl.len() ==> related(g0, (#[trigger] wl[w]).0 as int, wl[w].1 as int)
}

/// Classes `x` and `y` hold nodes that agree up to the classes of their children.
pub open spec fn congruent_pair(g: EGraph, x: int, y: int) -> bool {
    exists|n1: ENode, n2: ENode| #[trigger] in_class(g, x, n1) && #[trigger] in_class(g, y, n2) && canon_eq(g, n1, n2)
}

/// Relation `r` over ids contains the classes of `g0` and its pending unions,
/// and is symmetric, transitive and a congruence: two ids holding nodes with
/// the same operator, type and arity whose children it relates pairwise are
/// related.
pub open spec fn closed(g0: EGraph, r: spec_fn(int, int) -> bool) -> bool {
    &&& forall|x: int, y: int| 0 <= x < g0.size() && 0 <= y < g0.size() && g0.root(x) == g0.root(y) ==> #[trigger] r(x, y)
    &&& forall|w: int| 0 <= w < g0.pending().len() ==> r((#[trigger] g0.pending()[w]).0 as int, g0.pending()[w].1 as int)
    &&& forall|x: int, y: int| #[trigger] r(x, y) ==> r(y, x)
    &&& forall|x: int, y: int, z: int| #[trigger] r(x, y) && #[trigger] r(y, z) ==> r(x, z)
    &&& forall|x: int, y: int, n1: ENode, n2: ENode|
        0 <= x < g0.size() && 0 <= y < g0.size() && #[trigger] in_class(g0, x, n1) && #[trigger] in_class(g0, y, n2)
            && n1.op@ == n2.op@ && n1.ty == n2.ty
            && n1.children@.len() == n2.children@.len() && (forall|i: int|
            0 <= i < n1.children@.len() ==> r(#[trigger] n1.children@[i] as int, n2.children@[i] as int)) ==> r(x, y)
}

/// Node `n`, listed in class `d` of `g`, is listed in `g0` in a class with
/// the same root in `g`.
pub open spec fn from_g0(g0: EGraph, g: EGraph, d: int, n: ENode) -> bool {
    exists|f: int| 0 <= f < g0.classes@.len() && g.root(f) == g.root(d) && #[trigger] g0.classes@[f]@.contains(n)
}

/// Every node listed in `g` comes from `g0`.
#[verifier::opaque]
pub open spec fn nodes_from(g0: EGraph, g: EGraph) -> bool {
    forall|d: int, e: int|
        #![trigger g.classes@[d]@[e]]
        0 <= d < g.classes@.len() && 0 <= e < g.classes@[d]@.len() ==> from_g0(g0, g, d, g.classes@[d]@[e])
}

/// Ids `x` and `y` lie in the least congruence generated by the classes of
/// `g0` and its pending unions: every closed relation relates them.
pub open spec fn related(g0: EGraph, x: int, y: int) -> bool {
    forall|r: spec_fn(int, int) -> bool| closed(g0, r) ==> #[trigger] r(x, y)
}

/// Every two ids of `g` that share a root are related in the congruence of `g0`.
pub open spec fn merges_sound(g0: EGraph, g: EGraph) -> bool {
    forall|x: int, y: int|
        0 <= x < g0.size() && 0 <= y < g0.size() && #[trigger] g.root(x) == #[trigger] g.root(y) ==> related(g0, x, y)
}


/// Nodes with the same operator, children and type agree.
pub proof fn lemma_canon_of_nv(g: EGraph, a: ENode, b: ENode)
    requires
        nv(a) == nv(b),
    ensures
        canon_eq(g, a, b),
{
    assert(a.children@ == b.children@);
}

/// Agreement is transitive.
pub proof fn lemma_canon_trans(g: EGraph, a: ENode, b: ENode, c: ENode)
    requires
        canon_eq(g, a, b),
        canon_eq(g, b, c),
    ensures
        canon_eq(g, a, c),
{
    assert forall|i: int| 0 <= i < a.children@.len() implies g.root(#[trigger] a.children@[i] as int) == g.root(c.children@[i] as int) by {
        assert(g.root(a.children@[i] as int) == g.root(b.children@[i] as int));
    }
}

/// Agreement is symmetric.
pub proof fn lemma_canon_sym(g: EGraph, a: ENode, b: ENode)
    requires
        canon_eq(g, a, b),
    ensures
        canon_eq(g, b, a),
{
    assert forall|i: int| 0 <= i < b.children@.len() implies g.root(#[trigger] b.children@[i] as int) == g.root(a.children@[i] as int) by {
        assert(g.root(a.children@[i] as int) == g.root(b.children@[i] as int));
    }
}

/// Agreement survives a coarsening of the classes.
pub proof fn lemma_canon_coarsen(g: EGraph, h: EGraph, a: ENode, b: ENode)
    requires
        canon_eq(g, a, b),
        children_below(a.children@, g.size()),
        children_below(b.children@, g.size()),
        forall|x: int| 0 <= x < g.size() ==> #[trigger] h.root(x) == h.root(g.root(x)),
    ensures
        canon_eq(h, a, b),
{
    assert forall|i: int| 0 <= i < a.children@.len() implies h.root(#[trigger] a.children@[i] as int) == h.root(b.children@[i] as int) by {
        assert(g.root(a.children@[i] as int) == g.root(b.children@[i] as int));
        assert(h.root(a.children@[i] as int) == h.root(g.root(a.children@[i] as int)));
        assert(h.root(b.children@[i] as int) == h.root(g.root(b.children@[i] as int)));
    }
}

/// A node in a class stays in it in a graph that keeps the nodes and coarsens the classes.
pub proof fn lemma_in_class_kept(g: EGraph, h: EGraph, c: int, n: ENode)
    requires
        in_class(g, c, n),
        nodes_kept(g, h),
        0 <= c < g.size(),
        g.classes@.len() <= g.size(),
        forall|x: int| 0 <= x < g.size() ==> #[trigger] h.root(x) == h.root(g.root(x)),
    ensures
        in_class(h, c, n),
{
    let d = choose|d: int| 0 <= d < g.classes@.len() && g.root(d) == g.root(c) && #[trigger] g.classes@[d]@.contains(n);
    let e = choose|e: int| 0 <= e < g.classes@[d]@.len() && g.classes@[d]@[e] == n;
    assert(in_class(h, d, g.classes@[d]@[e]));
    let d2 = choose|d2: int| 0 <= d2 < h.classes@.len() && h.root(d2) == h.root(d) && #[trigger] h.classes@[d2]@.contains(n);
    assert(h.root(d) == h.root(g.root(d)));
    assert(h.root(c) == h.root(g.root(c)));
}

/// A sound entry stays sound in a graph that keeps the nodes and coarsens the classes.
pub proof fn lemma_entry_sound_kept(g: EGraph, h: EGraph, e: (ENode, Id))
    requires
        g.wf(),
        entry_sound(g, e),
        e.1 < g.size(),
        children_below(e.0.children@, g.size()),
        nodes_kept(g, h),
        forall|x: int| 0 <= x < g.size() ==> #[trigger] h.root(x) == h.root(g.root(x)),
    ensures
        entry_sound(h, e),
{
    let n = choose|n: ENode| #[trigger] in_class(g, e.1 as int, n) && canon_eq(g, e.0, n);
    lemma_in_class_kept(g, h, e.1 as int, n);
    let d = choose|d: int| 0 <= d < g.classes@.len() && g.root(d) == g.root(e.1 as int) && #[trigger] g.classes@[d]@.contains(n);
    let k = choose|k: int| 0 <= k < g.classes@[d]@.len() && g.classes@[d]@[k] == n;
    assert(children_below(g.classes@[d]@[k].children@, g.size()));
    lemma_canon_coarsen(g, h, e.0, n);
}

/// Classes holding agreeing nodes are related, when every node comes from
/// `g0` and the shared roots of `g` are related.
pub proof fn lemma_congruent_related(g0: EGraph, g: EGraph, x: int, y: int)
    requires
        g.wf(),
        g0.size() == g.size(),
        g0.classes@.len() == g0.size(),
        0 <= x < g.size(),
        0 <= y < g.size(),
        congruent_pair(g, x, y),
        nodes_from(g0, g),
        merges_sound(g0, g),
    ensures
        related(g0, x, y),
{
    reveal(nodes_from);
    let (n1, n2) = choose|n1: ENode, n2: ENode| #[trigger] in_class(g, x, n1) && #[trigger] in_class(g, y, n2) && canon_eq(g, n1, n2);
    let d1 = choose|d: int| 0 <= d < g.classes@.len() && g.root(d) == g.root(x) && #[trigger] g.classes@[d]@.contains(n1);
    let e1 = choose|e: int| 0 <= e < g.classes@[d1]@.len() && g.classes@[d1]@[e] == n1;
    let d2 = choose|d: int| 0 <= d < g.classes@.len() && g.root(d) == g.root(y) && #[trigger] g.classes@[d]@.contains(n2);
    let e2 = choose|e: int| 0 <= e < g.classes@[d2]@.len() && g.classes@[d2]@[e] == n2;
    assert(from_g0(g0, g, d1, g.classes@[d1]@[e1]));
    assert(from_g0(g0, g, d2, g.classes@[d2]@[e2]));
    let f1 = choose|f: int| 0 <= f < g0.classes@.len() && g.root(f) == g.root(d1) && #[trigger] g0.classes@[f]@.contains(n1);
    let f2 = choose|f: int| 0 <= f < g0.classes@.len() && g.root(f) == g.root(d2) && #[trigger] g0.classes@[f]@.contains(n2);
    assert(in_class(g0, f1, n1));
    assert(in_class(g0, f2, n2));
    assert(children_below(g.classes@[d1]@[e1].children@, g.size()));
    assert(children_below(g.classes@[d2]@[e2].children@, g.size()));
    assert forall|i: int| 0 <= i < n1.children@.len() implies related(g0, #[trigger] n1.children@[i] as int, n2.children@[i] as int) by {
        assert(g.root(n1.children@[i] as int) == g.root(n2.children@[i] as int));
    }
    assert(related(g0, x, f1));
    assert(related(g0, f2, y));
    assert forall|r: spec_fn(int, int) -> bool| closed(g0, r) implies #[trigger] r(x, y) by {
        assert forall|i: int| 0 <= i < n1.children@.len() implies r(#[trigger] n1.children@[i] as int, n2.children@[i] as int) by {
            assert(related(g0, n1.children@[i] as int, n2.children@[i] as int));
        }
        assert(r(f1, f2));
        assert(r(x, f1));
        assert(r(f2, y));
        assert(r(x, f2));
    }
}

/// Relatedness is symmetric.
pub proof fn lemma_related_sym(g0: EGraph, x: int, y: int)
    requires
        related(g0, x, y),
    ensures
        related(g0, y, x),
{
    assert forall|r: spec_fn(int, int) -> bool| closed(g0, r) implies #[trigger] r(y, x) by {
        assert(r(x, y));
    }
}

/// Relatedness is transitive.
pub proof fn lemma_related_trans(g0: EGraph, x: int, y: int, z: int)
    requires
        related(g0, x, y),
        related(g0, y, z),
    ensures
        related(g0, x, z),
{
    assert forall|r: spec_fn(int, int) -> bool| closed(g0, r) implies #[trigger] r(x, z) by {
        assert(r(x, y));
        assert(r(y, z));
    }
}

/// Ids of one class of `g0` are related.
pub proof fn lemma_related_root(g0: EGraph, x: int, y: int)
    requires
        0 <= x < g0.size(),
        0 <= y < g0.size(),
        g0.root(x) == g0.root(y),
    ensures
        related(g0, x, y),
{
    assert forall|r: spec_fn(int, int) -> bool| closed(g0, r) implies #[trigger] r(x, y) by {}
}

/// At the start, the graph is sound with respect to itself.
pub proof fn lemma_start(g0: EGraph)
    requires
        g0.wf(),
    ensures
        merges_sound(g0, g0),
        nodes_from(g0, g0),
        pairs_related(g0, g0.pending()),
{
    reveal(nodes_from);
    assert forall|x: int, y: int|
        0 <= x < g0.size() && 0 <= y < g0.size() && #[trigger] g0.root(x) == #[trigger] g0.root(y) implies related(g0, x, y) by {
        lemma_related_root(g0, x, y);
    }
    assert forall|d: int, e: int|
        0 <= d < g0.classes@.len() && 0 <= e < g0.classes@[d]@.len() implies from_g0(g0, g0, d, #[trigger] g0.classes@[d]@[e]) by {
        assert(g0.classes@[d]@.contains(g0.classes@[d]@[e]));
    }
    assert forall|w: int| 0 <= w < g0.pending().len() implies related(g0, (#[trigger] g0.pending()[w]).0 as int, g0.pending()[w].1 as int) by {
        assert forall|r: spec_fn(int, int) -> bool| closed(g0, r) implies #[trigger] r(g0.pending()[w].0 as int, g0.pending()[w].1 as int) by {}
    }
}

/// An entry stays sound in a graph with the same classes and roots.
pub proof fn lemma_entry_sound_same(g: EGraph, h: EGraph, e: (ENode, Id))
    requires
        g.wf(),
        entry_sound(g, e),
        e.1 < g.size(),
        children_below(e.0.children@, g.size()),
        h.classes == g.classes,
        forall|x: int| 0 <= x < g.size() ==> #[trigger] h.root(x) == g.root(x),
    ensures
        entry_sound(h, e),
{
    let n = choose|n: ENode| #[trigger] in_class(g, e.1 as int, n) && canon_eq(g, e.0, n);
    let d = choose|d: int| 0 <= d < g.classes@.len() && g.root(d) == g.root(e.1 as int) && #[trigger] g.classes@[d]@.contains(n);
    let k = choose|k: int| 0 <= k < g.classes@[d]@.len() && g.classes@[d]@[k] == n;
    assert(children_below(g.classes@[d]@[k].children@, g.size()));
    assert(in_class(h, e.1 as int, n)) by {
        assert(h.root(d) == g.root(d));
        assert(h.classes@[d]@.contains(n));
    }
    assert forall|i: int| 0 <= i < e.0.children@.len() implies h.root(#[trigger] e.0.children@[i] as int) == h.root(n.children@[i] as int) by {
        assert(g.root(e.0.children@[i] as int) == g.root(n.children@[i] as int));
    }
}

/// A list stays sound in a graph with the same classes and roots.
pub proof fn lemma_list_sound_same(g: EGraph, h: EGraph, l: Seq<(ENode, Id)>)
    requires
        g.wf(),
        list_sound(g, l),
        entries_typed(l, g.class_types@),
        h.classes == g.classes,
        forall|x: int| 0 <= x < g.size() ==> #[trigger] h.root(x) == g.root(x),
    ensures
        list_sound(h, l),
{
    assert forall|j: int| 0 <= j < l.len() implies entry_sound(h, #[trigger] l[j]) by {
        lemma_entry_sound_same(g, h, l[j]);
    }
}

/// Soundness survives a step that changes neither the classes nor the roots.
pub proof fn lemma_shape_same(g0: EGraph, g: EGraph, h: EGraph)
    requires
        g.wf(),
        g0.size() == g.size(),
        g0.classes@.len() == g0.size(),
        h.size() == g.size(),
        h.classes == g.classes,
        forall|x: int| 0 <= x < g.size() ==> #[trigger] h.root(x) == g.root(x),
    ensures
        nodes_from(g0, g) ==> nodes_from(g0, h),
        merges_sound(g0, g) ==> merges_sound(g0, h),
        h.memo == g.memo && h.parents == g.parents && entries_sound(g) ==> entries_sound(h),
{
    reveal(nodes_from);
    if nodes_from(g0, g) {
        assert forall|d: int, e: int|
            0 <= d < h.classes@.len() && 0 <= e < h.classes@[d]@.len() implies from_g0(g0, h, d, #[trigger] h.classes@[d]@[e]) by {
            assert(from_g0(g0, g, d, g.classes@[d]@[e]));
            let f = choose|f: int| 0 <= f < g0.classes@.len() && g.root(f) == g.root(d) && #[trigger] g0.classes@[f]@.contains(g.classes@[d]@[e]);
            assert(h.root(f) == g.root(f));
        }
    }
    if merges_sound(g0, g) {
        assert forall|x: int, y: int|
            0 <= x < g0.size() && 0 <= y < g0.size() && #[trigger] h.root(x) == #[trigger] h.root(y) implies related(g0, x, y) by {
            assert(g.root(x) == h.root(x));
            assert(g.root(y) == h.root(y));
        }
    }
    if h.memo == g.memo && h.parents == g.parents && entries_sound(g) {
        lemma_list_sound_same(g, h, g.memo@);
        assert forall|k: Id| #[trigger] h.parents@.contains_key(k) implies list_sound(h, h.parents@[k]@) by {
            lemma_list_sound_same(g, h, g.parents@[k]@);
        }
    }
}

/// Merging root `rb` into root `ra`, where `a` and `b` are related ids in
/// those classes, keeps the merges sound.
pub proof fn lemma_merge_sound(g0: EGraph, pre: EGraph, post: EGraph, ra: int, rb: int, a: int, b: int)
    requires
        pre.wf(),
        g0.size() == pre.size(),
        g0.classes@.len() == g0.size(),
        post.size() == pre.size(),
        merges_sound(g0, pre),
        related(g0, a, b),
        0 <= a < pre.size(),
        0 <= b < pre.size(),
        pre.root(a) == ra,
        pre.root(b) == rb,
        ra != rb,
        pre.classes@.len() == post.classes@.len(),
        post.classes@[ra]@ == pre.classes@[ra]@ + pre.classes@[rb]@,
        post.classes@[rb]@.len() == 0,
        forall|d: int| 0 <= d < pre.classes@.len() && d != ra && d != rb ==> #[trigger] post.classes@[d] == pre.classes@[d],
        forall|x: int| 0 <= x < pre.size() ==> #[trigger] post.root(x) == (if pre.root(x) == rb { ra } else { pre.root(x) }),
    ensures
        merges_sound(g0, post),
{
    pre.lemma_root(a);
    pre.lemma_root(b);
    assert forall|x: int, y: int|
        0 <= x < g0.size() && 0 <= y < g0.size() && #[trigger] post.root(x) == #[trigger] post.root(y) implies related(g0, x, y) by {
        pre.lemma_root(x);
        pre.lemma_root(y);
        if pre.root(x) == pre.root(y) {
        } else if pre.root(x) == rb {
            assert(pre.root(y) == ra);
            assert(related(g0, x, b));
            lemma_related_sym(g0, a, b);
            lemma_related_trans(g0, x, b, a);
            assert(related(g0, a, y));
            lemma_related_trans(g0, x, a, y);
        } else {
            assert(pre.root(x) == ra);
            assert(pre.root(y) == rb);
            assert(related(g0, x, a));
            assert(related(g0, b, y));
            lemma_related_trans(g0, x, a, b);
            lemma_related_trans(g0, x, b, y);
        }
    }
}

/// Merging root `rb` into root `ra` keeps the nodes coming from `g0`.
pub proof fn lemma_merge_nodes_from(g0: EGraph, pre: EGraph, post: EGraph, ra: int, rb: int)
    requires
        pre.wf(),
        g0.size() == pre.size(),
        g0.classes@.len() == g0.size(),
        post.size() == pre.size(),
        nodes_from(g0, pre),
        0 <= ra < pre.size(),
        0 <= rb < pre.size(),
        pre.root(ra) == ra,
        pre.root(rb) == rb,
        ra != rb,
        pre.classes@.len() == post.classes@.len(),
        post.classes@[ra]@ == pre.classes@[ra]@ + pre.classes@[rb]@,
        post.classes@[rb]@.len() == 0,
        forall|d: int| 0 <= d < pre.classes@.len() && d != ra && d != rb ==> #[trigger] post.classes@[d] == pre.classes@[d],
        forall|x: int| 0 <= x < pre.size() ==> #[trigger] post.root(x) == (if pre.root(x) == rb { ra } else { pre.root(x) }),
    ensures
        nodes_from(g0, post),
{
    reveal(nodes_from);
    assert(post.root(ra) == ra);
    assert forall|d: int, e: int|
        0 <= d < post.classes@.len() && 0 <= e < post.classes@[d]@.len() implies from_g0(g0, post, d, #[trigger] post.classes@[d]@[e]) by {
        let n = post.classes@[d]@[e];
        let (d0, e0) = if d == ra && e >= pre.classes@[ra]@.len() {
            (rb, e - pre.classes@[ra]@.len())
        } else {
            (d, e)
        };
        assert(pre.classes@[d0]@[e0] == n);
        assert(from_g0(g0, pre, d0, pre.classes@[d0]@[e0]));
        let f = choose|f: int| 0 <= f < g0.classes@.len() && pre.root(f) == pre.root(d0) && #[trigger] g0.classes@[f]@.contains(n);
        pre.lemma_root(f);
        pre.lemma_root(d0);
        pre.lemma_root(d);
        assert(post.root(f) == post.root(d0));
        if d0 == rb {
            assert(post.root(rb) == ra);
        }
    }
}

/// A node whose children are the roots of another's children agrees with it.
pub proof fn lemma_canon_of_roots(g: EGraph, a: ENode, b: ENode)
    requires
        g.wf(),
        a.op@ == b.op@,
        a.ty == b.ty,
        a.children@.len() == b.children@.len(),
        children_below(b.children@, g.size()),
        forall|k: int| 0 <= k < b.children@.len() ==> #[trigger] a.children@[k] == g.root(b.children@[k] as int) as u32,
    ensures
        canon_eq(g, a, b),
{
    assert forall|i: int| 0 <= i < a.children@.len() implies g.root(#[trigger] a.children@[i] as int) == g.root(b.children@[i] as int) by {
        g.lemma_root(b.children@[i] as int);
        assert(a.children@[i] == g.root(b.children@[i] as int) as u32);
    }
}

/// A node agreeing with a sound entry, recorded under an id of the same
/// class, gives a sound entry.
pub proof fn lemma_new_entry_sound(g: EGraph, e: (ENode, Id), enode: ENode, copy: ENode, c: Id)
    requires
        entry_sound(g, e),
        canon_eq(g, enode, e.0),
        nv(copy) == nv(enode),
        g.root(c as int) == g.root(e.1 as int),
    ensures
        entry_sound(g, (copy, c)),
{
    let n = choose|n: ENode| #[trigger] in_class(g, e.1 as int, n) && canon_eq(g, e.0, n);
    let d = choose|d: int| 0 <= d < g.classes@.len() && g.root(d) == g.root(e.1 as int) && #[trigger] g.classes@[d]@.contains(n);
    assert(in_class(g, c as int, n));
    lemma_canon_of_nv(g, copy, enode);
    lemma_canon_trans(g, copy, enode, e.0);
    lemma_canon_trans(g, copy, e.0, n);
    let ne: (ENode, Id) = (copy, c);
    assert(in_class(g, ne.1 as int, n) && canon_eq(g, ne.0, n));
}

/// A node agreeing with a sound entry and recorded under a sound memo entry
/// joins two classes holding agreeing nodes.
pub proof fn lemma_found_congruent(g: EGraph, e: (ENode, Id), enode: ENode, m: (ENode, Id), x: int, y: int)
    requires
        entry_sound(g, e),
        entry_sound(g, m),
        canon_eq(g, enode, e.0),
        nv(m.0) == nv(enode),
        g.root(x) == g.root(e.1 as int),
        g.root(y) == g.root(m.1 as int),
    ensures
        congruent_pair(g, x, y),
{
    let n1 = choose|n: ENode| #[trigger] in_class(g, e.1 as int, n) && canon_eq(g, e.0, n);
    let n2 = choose|n: ENode| #[trigger] in_class(g, m.1 as int, n) && canon_eq(g, m.0, n);
    let d1 = choose|d: int| 0 <= d < g.classes@.len() && g.root(d) == g.root(e.1 as int) && #[trigger] g.classes@[d]@.contains(n1);
    let d2 = choose|d: int| 0 <= d < g.classes@.len() && g.root(d) == g.root(m.1 as int) && #[trigger] g.classes@[d]@.contains(n2);
    assert(in_class(g, x, n1));
    assert(in_class(g, y, n2));
    lemma_canon_sym(g, e.0, n1);
    lemma_canon_sym(g, enode, e.0);
    lemma_canon_of_nv(g, enode, m.0);
    lemma_canon_trans(g, n1, e.0, enode);
    lemma_canon_trans(g, n1, enode, m.0);
    lemma_canon_trans(g, n1, m.0, n2);
}

/// A list stays sound in a graph that keeps the nodes and coarsens the classes.
pub proof fn lemma_list_sound_kept(g: EGraph, h: EGraph, l: Seq<(ENode, Id)>)
    requires
        g.wf(),
        list_sound(g, l),
        entries_typed(l, g.class_types@),
        nodes_kept(g, h),
        forall|x: int| 0 <= x < g.size() ==> #[trigger] h.root(x) == h.root(g.root(x)),
    ensures
        list_sound(h, l),
{
    assert forall|j: int| 0 <= j < l.len() implies entry_sound(h, #[trigger] l[j]) by {
        lemma_entry_sound_kept(g, h, l[j]);
    }
}

/// An entry stays sound when classes are added and the old ones and their
/// roots are kept.
pub proof fn lemma_entry_sound_grow(g: EGraph, h: EGraph, e: (ENode, Id))
    requires
        g.wf(),
        entry_sound(g, e),
        e.1 < g.size(),
        children_below(e.0.children@, g.size()),
        g.classes@.len() <= h.classes@.len(),
        forall|c: int| 0 <= c < g.classes@.len() ==> #[trigger] h.classes@[c] == g.classes@[c],
        forall|x: int| 0 <= x < g.size() ==> #[trigger] h.root(x) == g.root(x),
    ensures
        entry_sound(h, e),
{
    let n = choose|n: ENode| #[trigger] in_class(g, e.1 as int, n) && canon_eq(g, e.0, n);
    let d = choose|d: int| 0 <= d < g.classes@.len() && g.root(d) == g.root(e.1 as int) && #[trigger] g.classes@[d]@.contains(n);
    let k = choose|k: int| 0 <= k < g.classes@[d]@.len() && g.classes@[d]@[k] == n;
    assert(children_below(g.classes@[d]@[k].children@, g.size()));
    assert(in_class(h, e.1 as int, n)) by {
        assert(h.root(d) == g.root(d));
        assert(h.classes@[d] == g.classes@[d]);
        assert(h.classes@[d]@.contains(n));
    }
    assert forall|i: int| 0 <= i < e.0.children@.len() implies h.root(#[trigger] e.0.children@[i] as int) == h.root(n.children@[i] as int) by {
        assert(g.root(e.0.children@[i] as int) == g.root(n.children@[i] as int));
    }
}

/// An entry for a node listed in the class it names is sound.
pub proof fn lemma_entry_sound_fresh(h: EGraph, e: (ENode, Id), cl: ENode)
    requires
        e.1 < h.classes@.len(),
        h.classes@[e.1 as int]@.contains(cl),
        nv(e.0) == nv(cl),
    ensures
        entry_sound(h, e),
{
    reveal(merges_sound_with);
    reveal(pending_related_with);
    assert(in_class(h, e.1 as int, cl));
    lemma_canon_of_nv(h, e.0, cl);
}

/// Relation `r` is closed for `g0` and also relates the pairs of `extra`.
pub open spec fn closed_with(g0: EGraph, extra: Seq<(Id, Id)>, r: spec_fn(int, int) -> bool) -> bool {
    &&& closed(g0, r)
    &&& forall|w: int| 0 <= w < extra.len() ==> r((#[trigger] extra[w]).0 as int, extra[w].1 as int)
}

/// Ids `x` and `y` lie in the least congruence generated by the classes of
/// `g0`, its pending unions and the pairs of `extra`.
pub open spec fn related_with(g0: EGraph, extra: Seq<(Id, Id)>, x: int, y: int) -> bool {
    forall|r: spec_fn(int, int) -> bool| closed_with(g0, extra, r) ==> #[trigger] r(x, y)
}

/// Every two ids of `g` that share a root are related by `g0` and `extra`.
#[verifier::opaque]
pub open spec fn merges_sound_with(g0: EGraph, extra: Seq<(Id, Id)>, g: EGraph) -> bool {
    forall|x: int, y: int|
        0 <= x < g0.size() && 0 <= y < g0.size() && #[trigger] g.root(x) == #[trigger] g.root(y) ==> related_with(g0, extra, x, y)
}

/// Every pending union of `g` joins ids related by `g0` and `extra`.
#[verifier::opaque]
pub open spec fn pending_related_with(g0: EGraph, extra: Seq<(Id, Id)>, g: EGraph) -> bool {
    forall|w: int|
        0 <= w < g.pending().len() ==> related_with(g0, extra, (#[trigger] g.pending()[w]).0 as int, g.pending()[w].1 as int)
}

/// With no further pairs, the graph is sound with respect to itself.
pub proof fn lemma_with_start(g0: EGraph)
    requires
        g0.wf(),
    ensures
        merges_sound_with(g0, Seq::<(Id, Id)>::empty(), g0),
        pending_related_with(g0, Seq::<(Id, Id)>::empty(), g0),
{
    reveal(merges_sound_with);
    reveal(pending_related_with);
    assert forall|x: int, y: int|
        0 <= x < g0.size() && 0 <= y < g0.size() && #[trigger] g0.root(x) == #[trigger] g0.root(y) implies related_with(
        g0,
        Seq::<(Id, Id)>::empty(),
        x,
        y,
    ) by {
        assert forall|r: spec_fn(int, int) -> bool| closed_with(g0, Seq::<(Id, Id)>::empty(), r) implies #[trigger] r(x, y) by {}
    }
    assert forall|w: int| 0 <= w < g0.pending().len() implies related_with(
        g0,
        Seq::<(Id, Id)>::empty(),
        (#[trigger] g0.pending()[w]).0 as int,
        g0.pending()[w].1 as int,
    ) by {
        assert forall|r: spec_fn(int, int) -> bool| closed_with(g0, Seq::<(Id, Id)>::empty(), r) implies #[trigger] r(
            g0.pending()[w].0 as int,
            g0.pending()[w].1 as int,
        ) by {}
    }
}

/// A further pair keeps every relation.
pub proof fn lemma_with_push(g0: EGraph, extra: Seq<(Id, Id)>, p: (Id, Id), g: EGraph)
    requires
        merges_sound_with(g0, extra, g),
        pending_related_with(g0, extra, g),
    ensures
        merges_sound_with(g0, extra.push(p), g),
        pending_related_with(g0, extra.push(p), g),
        related_with(g0, extra.push(p), p.0 as int, p.1 as int),
{
    reveal(merges_sound_with);
    reveal(pending_related_with);
    assert forall|r: spec_fn(int, int) -> bool| closed_with(g0, extra.push(p), r) implies closed_with(g0, extra, r) by {
        assert forall|w: int| 0 <= w < extra.len() implies r((#[trigger] extra[w]).0 as int, extra[w].1 as int) by {
            assert(extra.push(p)[w] == extra[w]);
        }
    }
    assert forall|x: int, y: int|
        0 <= x < g0.size() && 0 <= y < g0.size() && #[trigger] g.root(x) == #[trigger] g.root(y) implies related_with(
        g0,
        extra.push(p),
        x,
        y,
    ) by {
        assert(related_with(g0, extra, x, y));
    }
    assert forall|w: int| 0 <= w < g.pending().len() implies related_with(
        g0,
        extra.push(p),
        (#[trigger] g.pending()[w]).0 as int,
        g.pending()[w].1 as int,
    ) by {
        assert(related_with(g0, extra, g.pending()[w].0 as int, g.pending()[w].1 as int));
    }
    assert forall|r: spec_fn(int, int) -> bool| closed_with(g0, extra.push(p), r) implies #[trigger] r(p.0 as int, p.1 as int) by {
        assert(extra.push(p)[extra.len() as int] == p);
    }
}

/// The roots of two ids related by `g0` and `extra` in a sound graph are related.
pub proof fn lemma_with_roots(g0: EGraph, extra: Seq<(Id, Id)>, g: EGraph, a: int, b: int)
    requires
        g.wf(),
        g0.size() == g.size(),
        merges_sound_with(g0, extra, g),
        related_with(g0, extra, a, b),
        0 <= a < g.size(),
        0 <= b < g.size(),
    ensures
        related_with(g0, extra, g.root(a), g.root(b)),
{
    reveal(merges_sound_with);
    g.lemma_root(a);
    g.lemma_root(b);
    assert(related_with(g0, extra, g.root(a), a));
    assert(related_with(g0, extra, b, g.root(b)));
    assert forall|r: spec_fn(int, int) -> bool| closed_with(g0, extra, r) implies #[trigger] r(g.root(a), g.root(b)) by {
        assert(r(g.root(a), a));
        assert(r(a, b));
        assert(r(b, g.root(b)));
        assert(r(g.root(a), b));
    }
}

/// Soundness with further pairs survives a step that keeps the roots.
pub proof fn lemma_with_same_roots(g0: EGraph, extra: Seq<(Id, Id)>, g: EGraph, h: EGraph)
    requires
        g0.size() == g.size(),
        merges_sound_with(g0, extra, g),
        forall|x: int| 0 <= x < g.size() ==> #[trigger] h.root(x) == g.root(x),
    ensures
        merges_sound_with(g0, extra, h),
{
    reveal(merges_sound_with);
    assert forall|x: int, y: int|
        0 <= x < g0.size() && 0 <= y < g0.size() && #[trigger] h.root(x) == #[trigger] h.root(y) implies related_with(
        g0,
        extra,
        x,
        y,
    ) by {
        assert(g.root(x) == h.root(x));
        assert(g.root(y) == h.root(y));
    }
}

/// Nodes coming from `g0` into `g`, and from `g` into a coarsening `h`, come from `g0` into `h`.
pub proof fn lemma_nodes_from_trans(g0: EGraph, g: EGraph, h: EGraph)
    requires
        g.wf(),
        nodes_from(g0, g),
        nodes_from(g, h),
        g0.classes@.len() <= g.size(),
        forall|x: int| 0 <= x < g.size() ==> #[trigger] h.root(x) == h.root(g.root(x)),
    ensures
        nodes_from(g0, h),
{
    reveal(nodes_from);
    assert forall|d: int, e: int|
        0 <= d < h.classes@.len() && 0 <= e < h.classes@[d]@.len() implies from_g0(g0, h, d, #[trigger] h.classes@[d]@[e]) by {
        let n = h.classes@[d]@[e];
        assert(from_g0(g, h, d, n));
        let f = choose|f: int| 0 <= f < g.classes@.len() && h.root(f) == h.root(d) && #[trigger] g.classes@[f]@.contains(n);
        let k = choose|k: int| 0 <= k < g.classes@[f]@.len() && g.classes@[f]@[k] == n;
        assert(from_g0(g0, g, f, g.classes@[f]@[k]));
        let f2 = choose|f2: int| 0 <= f2 < g0.classes@.len() && g.root(f2) == g.root(f) && #[trigger] g0.classes@[f2]@.contains(n);
        assert(h.root(f2) == h.root(g.root(f2)));
        assert(h.root(f) == h.root(g.root(f)));
    }
}

/// Merges sound for `g` into `h`, where `g` is sound with respect to `g0`
/// and `extra`, are sound with respect to `g0` and `extra`.
pub proof fn lemma_with_compose(g0: EGraph, extra: Seq<(Id, Id)>, g: EGraph, h: EGraph)
    requires
        g0.wf(),
        g.wf(),
        g0.size() == g.size(),
        merges_sound_with(g0, extra, g),
        pending_related_with(g0, extra, g),
        nodes_from(g0, g),
        merges_sound(g, h),
    ensures
        merges_sound_with(g0, extra, h),
{
    reveal(nodes_from);
    reveal(merges_sound_with);
    reveal(pending_related_with);
    assert forall|x: int, y: int|
        0 <= x < g0.size() && 0 <= y < g0.size() && #[trigger] h.root(x) == #[trigger] h.root(y) implies related_with(
        g0,
        extra,
        x,
        y,
    ) by {
        assert(related(g, x, y));
        assert forall|r: spec_fn(int, int) -> bool| closed_with(g0, extra, r) implies #[trigger] r(x, y) by {
            assert forall|u: int, v: int|
                0 <= u < g.size() && 0 <= v < g.size() && g.root(u) == g.root(v) implies #[trigger] r(u, v) by {
                assert(related_with(g0, extra, u, v));
            }
            assert forall|w: int| 0 <= w < g.pending().len() implies r((#[trigger] g.pending()[w]).0 as int, g.pending()[w].1 as int) by {
                assert(related_with(g0, extra, g.pending()[w].0 as int, g.pending()[w].1 as int));
            }
            assert forall|u: int, v: int, n1: ENode, n2: ENode|
                0 <= u < g.size() && 0 <= v < g.size() && #[trigger] in_class(g, u, n1) && #[trigger] in_class(g, v, n2)
                    && n1.op@ == n2.op@ && n1.ty == n2.ty && n1.children@.len() == n2.children@.len() && (forall|i: int|
                    0 <= i < n1.children@.len() ==> r(#[trigger] n1.children@[i] as int, n2.children@[i] as int)) implies r(u, v) by {
                let d1 = choose|d: int| 0 <= d < g.classes@.len() && g.root(d) == g.root(u) && #[trigger] g.classes@[d]@.contains(n1);
                let e1 = choose|e: int| 0 <= e < g.classes@[d1]@.len() && g.classes@[d1]@[e] == n1;
                let d2 = choose|d: int| 0 <= d < g.classes@.len() && g.root(d) == g.root(v) && #[trigger] g.classes@[d]@.contains(n2);
                let e2 = choose|e: int| 0 <= e < g.classes@[d2]@.len() && g.classes@[d2]@[e] == n2;
                assert(from_g0(g0, g, d1, g.classes@[d1]@[e1]));
                assert(from_g0(g0, g, d2, g.classes@[d2]@[e2]));
                let f1 = choose|f: int| 0 <= f < g0.classes@.len() && g.root(f) == g.root(d1) && #[trigger] g0.classes@[f]@.contains(n1);
                let f2 = choose|f: int| 0 <= f < g0.classes@.len() && g.root(f) == g.root(d2) && #[trigger] g0.classes@[f]@.contains(n2);
                assert(in_class(g0, f1, n1));
                assert(in_class(g0, f2, n2));
                assert(r(f1, f2));
                assert(r(u, f1));
                assert(r(f2, v));
                assert(r(u, f2));
            }
            assert(closed(g, r));
        }
    }
}

/// A union request for two related ids keeps the soundness with that pair added.
pub proof fn lemma_with_union(g0: EGraph, extra: Seq<(Id, Id)>, p: (Id, Id), g: EGraph, h: EGraph)
    requires
        g.wf(),
        g0.size() == g.size(),
        merges_sound_with(g0, extra, g),
        pending_related_with(g0, extra, g),
        p.0 < g.size(),
        p.1 < g.size(),
        forall|x: int| 0 <= x < g.size() ==> #[trigger] h.root(x) == g.root(x),
        h.pending() == g.pending().push((g.root(p.0 as int) as Id, g.root(p.1 as int) as Id)),
    ensures
        merges_sound_with(g0, extra.push(p), h),
        pending_related_with(g0, extra.push(p), h),
{
    lemma_with_push(g0, extra, p, g);
    lemma_with_roots(g0, extra.push(p), g, p.0 as int, p.1 as int);
    lemma_with_same_roots(g0, extra.push(p), g, h);
    g.lemma_root(p.0 as int);
    g.lemma_root(p.1 as int);
    reveal(pending_related_with);
    assert forall|w: int| 0 <= w < h.pending().len() implies related_with(
        g0,
        extra.push(p),
        (#[trigger] h.pending()[w]).0 as int,
        h.pending()[w].1 as int,
    ) by {
        if w < g.pending().len() {
            assert(h.pending()[w] == g.pending()[w]);
        }
    }
}

/// A step that keeps the roots and the pending unions keeps the soundness.
pub proof fn lemma_with_same(g0: EGraph, extra: Seq<(Id, Id)>, g: EGraph, h: EGraph)
    requires
        g0.size() == g.size(),
        merges_sound_with(g0, extra, g),
        pending_related_with(g0, extra, g),
        forall|x: int| 0 <= x < g.size() ==> #[trigger] h.root(x) == g.root(x),
        h.pending() == g.pending(),
    ensures
        merges_sound_with(g0, extra, h),
        pending_related_with(g0, extra, h),
{
    lemma_with_same_roots(g0, extra, g, h);
    reveal(pending_related_with);
}

/// A graph with nothing pending has its pending unions related.
pub proof fn lemma_with_none_pending(g0: EGraph, extra: Seq<(Id, Id)>, g: EGraph)
    requires
        g.pending().len() == 0,
    ensures
        pending_related_with(g0, extra, g),
{
    reveal(pending_related_with);
}

} // verus!
