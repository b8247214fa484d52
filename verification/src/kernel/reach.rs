//! Reachability in directed graphs given as adjacency lists keyed by ORID.

use vstd::prelude::*;
use crate::kernel::omap::OridMap;
use crate::kernel::orid::ORID;

verus! {

/// An edge `a -> b`: `b` is listed among the successors of `a`.
pub open spec fn adj_edge(g: Map<ORID, Vec<ORID>>, a: ORID, b: ORID) -> bool {
    g.contains_key(a) && g[a]@.contains(b)
}

/// A walk: a non-empty sequence of nodes, each linked to the next by an edge.
pub open spec fn is_walk(g: Map<ORID, Vec<ORID>>, w: Seq<ORID>) -> bool {
    &&& w.len() >= 1
    &&& forall|j: int| 0 <= j < w.len() - 1 ==> adj_edge(g, #[trigger] w[j], w[j + 1])
}

/// `b` is reached from `a` by following zero or more edges.
pub open spec fn reaches(g: Map<ORID, Vec<ORID>>, a: ORID, b: ORID) -> bool {
    exists|w: Seq<ORID>| #[trigger] is_walk(g, w) && w[0] == a && w.last() == b
}

/// `x` is reached from one of `sources`.
pub open spec fn reached_from(g: Map<ORID, Vec<ORID>>, sources: Seq<ORID>, x: ORID) -> bool {
    exists|s: ORID| #[trigger] sources.contains(s) && reaches(g, s, x)
}

/// The graph has a cycle: a walk of at least one edge that ends where it starts.
pub open spec fn has_cycle(g: Map<ORID, Vec<ORID>>) -> bool {
    exists|w: Seq<ORID>| #[trigger] is_walk(g, w) && w.len() >= 2 && w[0] == w.last()
}

pub proof fn lemma_reaches_refl(g: Map<ORID, Vec<ORID>>, a: ORID)
    ensures
        reaches(g, a, a),
{
    assert(is_walk(g, seq![a]));
}

pub proof fn lemma_reaches_step(g: Map<ORID, Vec<ORID>>, a: ORID, b: ORID, c: ORID)
    requires
        reaches(g, a, b),
        adj_edge(g, b, c),
    ensures
        reaches(g, a, c),
{
    let w = choose|w: Seq<ORID>| #[trigger] is_walk(g, w) && w[0] == a && w.last() == b;
    let w2 = w.push(c);
    assert forall|j: int| 0 <= j < w2.len() - 1 implies adj_edge(g, #[trigger] w2[j], w2[j + 1]) by {
        if j < w.len() - 1 {
            assert(w2[j] == w[j] && w2[j + 1] == w[j + 1]);
        } else {
            assert(w2[j] == w.last());
        }
    }
    assert(is_walk(g, w2));
}

/// A walk that starts inside a set closed under edges stays inside it.
pub proof fn lemma_closed_walk(g: Map<ORID, Vec<ORID>>, s: Set<ORID>, w: Seq<ORID>)
    requires
        is_walk(g, w),
        s.contains(w[0]),
        forall|a: ORID, b: ORID| #[trigger] s.contains(a) && adj_edge(g, a, b) ==> #[trigger] s.contains(b),
    ensures
        s.contains(w.last()),
    decreases w.len(),
{
    if w.len() > 1 {
        let p = w.drop_last();
        assert forall|j: int| 0 <= j < p.len() - 1 implies adj_edge(g, #[trigger] p[j], p[j + 1]) by {
            assert(p[j] == w[j] && p[j + 1] == w[j + 1]);
        }
        lemma_closed_walk(g, s, p);
        assert(adj_edge(g, w[w.len() - 2], w[w.len() - 1]));
    }
}

/// A cycle passes through a node with a successor from which the node is reached again, and conversely.
pub proof fn lemma_cycle_iff(g: Map<ORID, Vec<ORID>>)
    ensures
        has_cycle(g) <==> exists|k: ORID, n: ORID| #[trigger] adj_edge(g, k, n) && reaches(g, n, k),
{
    if has_cycle(g) {
        let w = choose|w: Seq<ORID>| #[trigger] is_walk(g, w) && w.len() >= 2 && w[0] == w.last();
        let t = w.subrange(1, w.len() as int);
        assert forall|j: int| 0 <= j < t.len() - 1 implies adj_edge(g, #[trigger] t[j], t[j + 1]) by {
            assert(t[j] == w[j + 1] && t[j + 1] == w[j + 2]);
            assert(adj_edge(g, w[j + 1], w[j + 2]));
        }
        assert(is_walk(g, t));
        assert(t.last() == w[0]);
        assert(adj_edge(g, w[0], w[1]));
        assert(reaches(g, w[1], w[0]));
    }
    if exists|k: ORID, n: ORID| #[trigger] adj_edge(g, k, n) && reaches(g, n, k) {
        let (k, n) = choose|k: ORID, n: ORID| #[trigger] adj_edge(g, k, n) && reaches(g, n, k);
        let w = choose|w: Seq<ORID>| #[trigger] is_walk(g, w) && w[0] == n && w.last() == k;
        let c = seq![k] + w;
        assert forall|j: int| 0 <= j < c.len() - 1 implies adj_edge(g, #[trigger] c[j], c[j + 1]) by {
            if j == 0 {
                assert(c[0] == k && c[1] == w[0]);
            } else {
                assert(c[j] == w[j - 1] && c[j + 1] == w[j]);
            }
        }
        assert(is_walk(g, c));
        assert(c.last() == w.last());
    }
}

/// The successors of `x` (none when `x` has no adjacency list).
pub open spec fn successors(g: Map<ORID, Vec<ORID>>, x: ORID) -> Seq<ORID> {
    if g.contains_key(x) { g[x]@ } else { Seq::empty() }
}

/// The state of a search for `target` from `src`: everything visited or pending is
/// reached, the target has not been visited, every source is visited or pending,
/// and the successors of visited nodes are visited or pending.
pub open spec fn search_inv(
    g: Map<ORID, Vec<ORID>>,
    src: Seq<ORID>,
    target: ORID,
    vis: Set<ORID>,
    stack: Seq<ORID>,
) -> bool {
    &&& forall|t: int| 0 <= t < stack.len() ==> reached_from(g, src, #[trigger] stack[t])
    &&& forall|x: ORID| #[trigger] vis.contains(x) ==> reached_from(g, src, x)
    &&& !vis.contains(target)
    &&& forall|a: ORID, b: ORID|
        #![trigger vis.contains(a), adj_edge(g, a, b)]
        vis.contains(a) && adj_edge(g, a, b) ==> vis.contains(b) || stack.contains(b)
    &&& forall|s: ORID| #[trigger] src.contains(s) ==> vis.contains(s) || stack.contains(s)
}

proof fn lemma_search_init(g: Map<ORID, Vec<ORID>>, src: Seq<ORID>, target: ORID)
    ensures
        search_inv(g, src, target, Set::empty(), src),
{
    assert forall|t: int| 0 <= t < src.len() implies reached_from(g, src, #[trigger] src[t]) by {
        lemma_reaches_refl(g, src[t]);
        assert(src.contains(src[t]));
    }
}

proof fn lemma_search_skip(g: Map<ORID, Vec<ORID>>, src: Seq<ORID>, target: ORID, vis: Set<ORID>, stack: Seq<ORID>)
    requires
        search_inv(g, src, target, vis, stack),
        stack.len() >= 1,
        vis.contains(stack.last()),
    ensures
        search_inv(g, src, target, vis, stack.drop_last()),
{
    let x = stack.last();
    let s2 = stack.drop_last();
    assert forall|b: ORID| #[trigger] stack.contains(b) && b != x implies s2.contains(b) by {
        let t = choose|t: int| 0 <= t < stack.len() && stack[t] == b;
        assert(s2[t] == b);
    }
    assert forall|t: int| 0 <= t < s2.len() implies reached_from(g, src, #[trigger] s2[t]) by {
        assert(s2[t] == stack[t]);
    }
}

proof fn lemma_search_visit(
    g: Map<ORID, Vec<ORID>>,
    src: Seq<ORID>,
    target: ORID,
    vis: Set<ORID>,
    stack: Seq<ORID>,
    new_stack: Seq<ORID>,
)
    requires
        search_inv(g, src, target, vis, stack),
        stack.len() >= 1,
        !vis.contains(stack.last()),
        stack.last() != target,
        new_stack == stack.drop_last() + successors(g, stack.last()),
    ensures
        search_inv(g, src, target, vis.insert(stack.last()), new_stack),
{
    let x = stack.last();
    let base = stack.drop_last();
    let succ = successors(g, x);
    assert(stack[stack.len() - 1] == x);
    assert(reached_from(g, src, x));
    assert forall|b: ORID| #[trigger] stack.contains(b) && b != x implies new_stack.contains(b) by {
        let t = choose|t: int| 0 <= t < stack.len() && stack[t] == b;
        assert(new_stack[t] == b);
    }
    assert forall|t: int| 0 <= t < new_stack.len() implies reached_from(g, src, #[trigger] new_stack[t]) by {
        if t < base.len() {
            assert(new_stack[t] == stack[t]);
        } else {
            let y = new_stack[t];
            assert(y == succ[t - base.len()]);
            assert(adj_edge(g, x, y));
            let s = choose|s: ORID| #[trigger] src.contains(s) && reaches(g, s, x);
            lemma_reaches_step(g, s, x, y);
        }
    }
    assert forall|b: ORID| adj_edge(g, x, b) implies #[trigger] new_stack.contains(b) by {
        let t = choose|t: int| 0 <= t < succ.len() && succ[t] == b;
        assert(new_stack[base.len() + t] == b);
    }
}

proof fn lemma_search_done(g: Map<ORID, Vec<ORID>>, src: Seq<ORID>, target: ORID, vis: Set<ORID>)
    requires
        search_inv(g, src, target, vis, Seq::empty()),
    ensures
        !reached_from(g, src, target),
{
    if reached_from(g, src, target) {
        let s = choose|s: ORID| #[trigger] src.contains(s) && reaches(g, s, target);
        let w = choose|w: Seq<ORID>| #[trigger] is_walk(g, w) && w[0] == s && w.last() == target;
        assert forall|a: ORID, b: ORID| #[trigger] vis.contains(a) && adj_edge(g, a, b) implies #[trigger] vis.contains(b) by {
            assert(!Seq::<ORID>::empty().contains(b));
        }
        assert(!Seq::<ORID>::empty().contains(s));
        lemma_closed_walk(g, vis, w);
    }
}

/// Whether `target` is reached from any of `sources` (by zero or more edges).
pub fn reaches_any(g: &OridMap<Vec<ORID>>, sources: &[ORID], target: &ORID) -> (b: bool)
    ensures
        b == reached_from(g@, sources@, *target),
{
    let ghost gv = g@;
    let ghost src = sources@;
    proof {
        use_type_invariant(g);
        g.lemma_domain();
    }
    let mut visited: OridMap<()> = OridMap::new();
    let mut stack: Vec<ORID> = Vec::new();
    let mut i: usize = 0;
    while i < sources.len()
        invariant
            i <= sources@.len(),
            src == sources@,
            stack@ == sources@.subrange(0, i as int),
        decreases sources@.len() - i,
    {
        stack.push(sources[i]);
        i = i + 1;
        assert(stack@ =~= sources@.subrange(0, i as int));
    }
    proof {
        assert(stack@ =~= src);
        assert(visited@.dom() =~= Set::empty());
        lemma_search_init(gv, src, *target);
    }
    loop
        invariant
            gv == g@,
            gv.dom().finite(),
            visited@.dom().finite(),
            src == sources@,
            search_inv(gv, src, *target, visited@.dom(), stack@),
        ensures
            stack@.len() == 0,
        decreases gv.dom().difference(visited@.dom()).len(), stack@.len(),
    {
        let ghost st0 = stack@;
        let ghost vis0 = visited@.dom();
        let x = match stack.pop() {
            Some(x) => x,
            None => break,
        };
        proof {
            assert(st0.drop_last() == stack@);
            assert(st0.last() == x);
        }
        if x == *target {
            proof {
                assert(st0[st0.len() - 1] == x);
            }
            return true;
        }
        if visited.contains_key(&x) {
            proof {
                lemma_search_skip(gv, src, *target, vis0, st0);
            }
            continue;
        }
        visited.insert(x, ());
        proof {
            assert(visited@.dom() =~= vis0.insert(x));
            if gv.contains_key(x) {
                assert(gv.dom().difference(visited@.dom()) =~= gv.dom().difference(vis0).remove(x));
            } else {
                assert(gv.dom().difference(visited@.dom()) =~= gv.dom().difference(vis0));
            }
        }
        let ghost base = stack@;
        match g.get(&x) {
            Some(succ) => {
                let mut j: usize = 0;
                while j < succ.len()
                    invariant
                        j <= succ@.len(),
                        stack@ == base + succ@.subrange(0, j as int),
                    decreases succ@.len() - j,
                {
                    stack.push(succ[j]);
                    j = j + 1;
                    assert(stack@ =~= base + succ@.subrange(0, j as int));
                }
                proof {
                    assert(stack@ =~= base + succ@);
                }
            },
            None => {
                proof {
                    assert(stack@ =~= base + Seq::<ORID>::empty());
                }
            },
        }
        proof {
            lemma_search_visit(gv, src, *target, vis0, st0, stack@);
        }
    }
    proof {
        lemma_search_done(gv, src, *target, visited@.dom());
    }
    false
}

} // verus!
