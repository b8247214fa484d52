//! Primary observations versus derived information, and the anti-amplification
//! rule: the independent support of a record is the set of distinct primary
//! roots of its lineage, however many derived copies lead to them.

use vstd::prelude::*;
use crate::kernel::omap::OridMap;
use crate::kernel::orid::ORID;

verus! {

#[derive(Debug, Clone, PartialEq, Eq)]
pub enum SupportKind {
    Primary { raw_orid: ORID },
    Derived { rule_id: String, parents: Vec<ORID> },
}

#[derive(Debug, Clone, PartialEq, Eq)]
pub struct EvidenceRecord {
    pub id: ORID,
    pub support: SupportKind,
    pub source_domain: String,
}

/// The parents a record is derived from (none for a primary record).
pub open spec fn parents_of(r: EvidenceRecord) -> Seq<ORID> {
    match r.support {
        SupportKind::Primary { .. } => Seq::empty(),
        SupportKind::Derived { parents, .. } => parents@,
    }
}

/// Every record in the graph is stored under its own id.
pub open spec fn graph_consistent(g: Map<ORID, EvidenceRecord>) -> bool {
    forall|k: ORID| #[trigger] g.contains_key(k) ==> g[k].id == k
}

/// The record that an id stands for when tracing the lineage of `start`.
pub open spec fn node(start: EvidenceRecord, g: Map<ORID, EvidenceRecord>, i: ORID) -> EvidenceRecord {
    if i == start.id { start } else { g[i] }
}

/// One lineage step: `b` is a recorded parent of the record that `a` stands for.
pub open spec fn lineage_step(start: EvidenceRecord, g: Map<ORID, EvidenceRecord>, a: ORID, b: ORID) -> bool {
    parents_of(node(start, g, a)).contains(b) && g.contains_key(b)
}

pub open spec fn is_lineage_walk(start: EvidenceRecord, g: Map<ORID, EvidenceRecord>, w: Seq<ORID>) -> bool {
    &&& w.len() >= 1
    &&& w[0] == start.id
    &&& forall|j: int| 0 <= j < w.len() - 1 ==> lineage_step(start, g, #[trigger] w[j], w[j + 1])
}

/// `x` is reached from `start` by following parent links through the graph.
pub open spec fn in_lineage(start: EvidenceRecord, g: Map<ORID, EvidenceRecord>, x: ORID) -> bool {
    exists|w: Seq<ORID>| #[trigger] is_lineage_walk(start, g, w) && w.last() == x
}

/// The raw identifiers of the primary records in the lineage of `start`.
pub open spec fn lineage_roots(start: EvidenceRecord, g: Map<ORID, EvidenceRecord>) -> Set<ORID> {
    Set::new(
        |r: ORID|
            exists|i: ORID|
                #![trigger in_lineage(start, g, i)]
                in_lineage(start, g, i) && node(start, g, i).support == (SupportKind::Primary { raw_orid: r }),
    )
}

proof fn lemma_walk_extend(start: EvidenceRecord, g: Map<ORID, EvidenceRecord>, w: Seq<ORID>, b: ORID)
    requires
        is_lineage_walk(start, g, w),
        lineage_step(start, g, w.last(), b),
    ensures
        is_lineage_walk(start, g, w.push(b)),
        w.push(b).last() == b,
{
    let w2 = w.push(b);
    assert forall|j: int| 0 <= j < w2.len() - 1 implies lineage_step(start, g, #[trigger] w2[j], w2[j + 1]) by {
        if j < w.len() - 1 {
            assert(w2[j] == w[j] && w2[j + 1] == w[j + 1]);
        } else {
            assert(w2[j] == w.last());
        }
    }
}

/// A set that holds `start` and is closed under lineage steps holds the whole lineage.
proof fn lemma_closed_holds_lineage(start: EvidenceRecord, g: Map<ORID, EvidenceRecord>, s: Set<ORID>, w: Seq<ORID>)
    requires
        s.contains(start.id),
        forall|a: ORID, b: ORID| #[trigger] s.contains(a) && lineage_step(start, g, a, b) ==> #[trigger] s.contains(b),
        is_lineage_walk(start, g, w),
    ensures
        s.contains(w.last()),
    decreases w.len(),
{
    if w.len() > 1 {
        let p = w.drop_last();
        assert forall|j: int| 0 <= j < p.len() - 1 implies lineage_step(start, g, #[trigger] p[j], p[j + 1]) by {
            assert(p[j] == w[j] && p[j + 1] == w[j + 1]);
        }
        lemma_closed_holds_lineage(start, g, s, p);
        assert(lineage_step(start, g, w[w.len() - 2], w[w.len() - 1]));
        assert(p.last() == w[w.len() - 2]);
    }
}

/// The ids of a sequence of records.
pub open spec fn record_ids(s: Seq<EvidenceRecord>) -> Seq<ORID> {
    s.map_values(|r: EvidenceRecord| r.id)
}

/// The records that the ids `ps` name in `g`, from the last id to the first;
/// ids that `g` lacks give nothing.
pub open spec fn named_records(g: Map<ORID, EvidenceRecord>, ps: Seq<ORID>) -> Seq<EvidenceRecord>
    decreases ps.len(),
{
    if ps.len() == 0 {
        Seq::empty()
    } else {
        named_records(g, ps.drop_first()) + (if g.contains_key(ps[0]) {
            seq![g[ps[0]]]
        } else {
            Seq::empty()
        })
    }
}

/// The primary roots that a depth-first walk of `g` collects: it takes the
/// last record of `stack`, skips it when its id is in `vis` (or outside the
/// ids `ids` that the walk can meet), and otherwise marks its id, collects its
/// raw observation if it is primary, and puts the records that its parent ids
/// name in `g` on the stack, the first parent on top.
pub open spec fn walk_roots(g: Map<ORID, EvidenceRecord>, stack: Seq<EvidenceRecord>, vis: Set<ORID>, ids: Set<ORID>) -> Set<ORID>
    decreases ids.difference(vis).len(), stack.len(),
    when ids.finite()
{
    if stack.len() == 0 {
        Set::empty()
    } else {
        let r = stack.last();
        if vis.contains(r.id) || !ids.contains(r.id) {
            walk_roots(g, stack.drop_last(), vis, ids)
        } else {
            let v2 = vis.insert(r.id);
            proof {
                assert(ids.difference(v2) =~= ids.difference(vis).remove(r.id));
                assert(ids.difference(vis).contains(r.id));
            }
            match r.support {
                SupportKind::Primary { raw_orid } => walk_roots(g, stack.drop_last(), v2, ids).insert(raw_orid),
                SupportKind::Derived { parents, .. } => walk_roots(
                    g,
                    stack.drop_last() + named_records(g, parents@),
                    v2,
                    ids,
                ),
            }
        }
    }
}

/// The ids that a walk from `start` through `g` can meet.
pub open spec fn walk_ids(start: EvidenceRecord, g: Map<ORID, EvidenceRecord>) -> Set<ORID> {
    g.values().map(|r: EvidenceRecord| r.id).insert(start.id)
}

/// The records behind a sequence of references.
pub open spec fn deref_all(s: Seq<&EvidenceRecord>) -> Seq<EvidenceRecord> {
    s.map_values(|r: &EvidenceRecord| *r)
}

/// The worklist state of a lineage traversal of a consistent graph: what is visited
/// or pending lies in the lineage, visited records have their parents visited
/// or pending, and the roots found are those of the visited primary records.
pub open spec fn lineage_inv(
    start: EvidenceRecord,
    g: Map<ORID, EvidenceRecord>,
    visited: Set<ORID>,
    roots: Set<ORID>,
    stack: Seq<EvidenceRecord>,
) -> bool {
    &&& visited.contains(start.id) || stack == seq![start]
    &&& forall|t: int|
        0 <= t < stack.len() ==> {
            let r = #[trigger] stack[t];
            &&& in_lineage(start, g, r.id)
            &&& r == node(start, g, r.id) || visited.contains(r.id)
        }
    &&& forall|i: ORID| #[trigger] visited.contains(i) ==> in_lineage(start, g, i)
    &&& forall|a: ORID, b: ORID|
        #![trigger visited.contains(a), lineage_step(start, g, a, b)]
        visited.contains(a) && lineage_step(start, g, a, b) ==> visited.contains(b)
            || record_ids(stack).contains(b)
    &&& forall|r: ORID|
        #[trigger] roots.contains(r) <==> exists|i: ORID|
            #![trigger visited.contains(i)]
            visited.contains(i) && node(start, g, i).support == (SupportKind::Primary { raw_orid: r })
}

proof fn lemma_lineage_start(start: EvidenceRecord, g: Map<ORID, EvidenceRecord>)
    ensures
        in_lineage(start, g, start.id),
{
    let w = seq![start.id];
    assert(is_lineage_walk(start, g, w));
}

proof fn lemma_inv_init(start: EvidenceRecord, g: Map<ORID, EvidenceRecord>)
    ensures
        lineage_inv(start, g, Set::empty(), Set::empty(), seq![start]),
{
    lemma_lineage_start(start, g);
}

proof fn lemma_inv_skip(
    start: EvidenceRecord,
    g: Map<ORID, EvidenceRecord>,
    visited: Set<ORID>,
    roots: Set<ORID>,
    stack: Seq<EvidenceRecord>,
)
    requires
        lineage_inv(start, g, visited, roots, stack),
        stack.len() >= 1,
        visited.contains(stack.last().id),
    ensures
        lineage_inv(start, g, visited, roots, stack.drop_last()),
{
    let s2 = stack.drop_last();
    assert forall|a: ORID, b: ORID|
        #![trigger visited.contains(a), lineage_step(start, g, a, b)]
        visited.contains(a) && lineage_step(start, g, a, b) implies visited.contains(b)
            || record_ids(s2).contains(b) by {
        if !visited.contains(b) {
            let ids = record_ids(stack);
            let t = choose|t: int| 0 <= t < ids.len() && ids[t] == b;
            assert(t != stack.len() - 1);
            assert(record_ids(s2)[t] == b);
        }
    }
}

proof fn lemma_inv_visit(
    start: EvidenceRecord,
    g: Map<ORID, EvidenceRecord>,
    visited: Set<ORID>,
    roots: Set<ORID>,
    stack: Seq<EvidenceRecord>,
    new_roots: Set<ORID>,
    new_stack: Seq<EvidenceRecord>,
)
    requires
        graph_consistent(g),
        lineage_inv(start, g, visited, roots, stack),
        stack.len() >= 1,
        !visited.contains(stack.last().id),
        new_roots == (match stack.last().support {
            SupportKind::Primary { raw_orid } => roots.insert(raw_orid),
            SupportKind::Derived { .. } => roots,
        }),
        new_stack.len() >= stack.len() - 1,
        new_stack.subrange(0, stack.len() - 1) == stack.drop_last(),
        forall|t: int|
            stack.len() - 1 <= t < new_stack.len() ==> {
                let x = #[trigger] new_stack[t];
                parents_of(stack.last()).contains(x.id) && g.contains_key(x.id) && x == g[x.id]
            },
        forall|p: ORID| parents_of(stack.last()).contains(p) && g.contains_key(p) ==> #[trigger] record_ids(new_stack).contains(p),
    ensures
        lineage_inv(start, g, visited.insert(stack.last().id), new_roots, new_stack),
{
    let r = stack.last();
    let v2 = visited.insert(r.id);
    let t0 = stack.len() - 1;
    assert(stack[t0] == r);
    assert(in_lineage(start, g, r.id));
    assert(r == node(start, g, r.id));
    assert(v2.contains(start.id)) by {
        if !visited.contains(start.id) {
            assert(stack == seq![start]);
        }
    }
    let w = choose|w: Seq<ORID>| #[trigger] is_lineage_walk(start, g, w) && w.last() == r.id;
    assert forall|t: int| 0 <= t < new_stack.len() implies {
        let x = #[trigger] new_stack[t];
        &&& in_lineage(start, g, x.id)
        &&& x == node(start, g, x.id) || v2.contains(x.id)
    } by {
        if t < t0 {
            assert(new_stack[t] == stack.drop_last()[t]);
            assert(new_stack[t] == stack[t]);
        } else {
            let p = new_stack[t].id;
            assert(lineage_step(start, g, r.id, p));
            lemma_walk_extend(start, g, w, p);
            assert(in_lineage(start, g, p));
        }
    }
    assert forall|i: ORID| #[trigger] v2.contains(i) implies in_lineage(start, g, i) by {
    }
    let ids2 = record_ids(new_stack);
    assert forall|a: ORID, b: ORID|
        #![trigger v2.contains(a), lineage_step(start, g, a, b)]
        v2.contains(a) && lineage_step(start, g, a, b) implies v2.contains(b) || ids2.contains(b) by {
        if a == r.id {
            assert(node(start, g, a) == r);
            assert(ids2.contains(b));
        } else if !v2.contains(b) {
            let ids = record_ids(stack);
            assert(ids.contains(b));
            let t = choose|t: int| 0 <= t < ids.len() && ids[t] == b;
            assert(t != t0);
            assert(new_stack[t] == stack.drop_last()[t]);
            assert(ids2[t] == b);
        }
    }
    assert forall|x: ORID| #[trigger] new_roots.contains(x) <==> exists|i: ORID|
        #![trigger v2.contains(i)]
        v2.contains(i) && node(start, g, i).support == (SupportKind::Primary { raw_orid: x }) by {
        if new_roots.contains(x) {
            if roots.contains(x) {
                let i = choose|i: ORID|
                    #![trigger visited.contains(i)]
                    visited.contains(i) && node(start, g, i).support == (SupportKind::Primary { raw_orid: x });
                assert(v2.contains(i));
            } else {
                assert(v2.contains(r.id) && node(start, g, r.id).support == (SupportKind::Primary { raw_orid: x }));
            }
        }
        if exists|i: ORID|
            #![trigger v2.contains(i)]
            v2.contains(i) && node(start, g, i).support == (SupportKind::Primary { raw_orid: x }) {
            let i = choose|i: ORID|
                #![trigger v2.contains(i)]
                v2.contains(i) && node(start, g, i).support == (SupportKind::Primary { raw_orid: x });
            if i != r.id {
                assert(visited.contains(i));
                assert(roots.contains(x));
            }
            assert(new_roots.contains(x));
        }
    }
}

/// When nothing is pending, the visited set holds the whole lineage and the roots are exactly the lineage roots.
proof fn lemma_inv_done(
    start: EvidenceRecord,
    g: Map<ORID, EvidenceRecord>,
    visited: Set<ORID>,
    roots: Set<ORID>,
)
    requires
        lineage_inv(start, g, visited, roots, Seq::empty()),
    ensures
        roots == lineage_roots(start, g),
{
    assert(seq![start].len() == 1);
    assert forall|a: ORID, b: ORID| #[trigger] visited.contains(a) && lineage_step(start, g, a, b) implies #[trigger] visited.contains(b) by {
        assert(record_ids(Seq::<EvidenceRecord>::empty()) =~= Seq::<ORID>::empty());
    }
    assert forall|x: ORID| #[trigger] roots.contains(x) <==> lineage_roots(start, g).contains(x) by {
        if lineage_roots(start, g).contains(x) {
            let i = choose|i: ORID|
                #![trigger in_lineage(start, g, i)]
                in_lineage(start, g, i) && node(start, g, i).support == (SupportKind::Primary { raw_orid: x });
            let w = choose|w: Seq<ORID>| #[trigger] is_lineage_walk(start, g, w) && w.last() == i;
            lemma_closed_holds_lineage(start, g, visited, w);
        }
    }
    assert(roots =~= lineage_roots(start, g));
}

impl EvidenceRecord {
    pub fn new_primary(id: ORID, raw_orid: ORID, source_domain: &str) -> (r: EvidenceRecord)
        ensures
            r.id == id,
            r.support == (SupportKind::Primary { raw_orid }),
            r.source_domain@ == source_domain@,
    {
        EvidenceRecord { id, support: SupportKind::Primary { raw_orid }, source_domain: source_domain.to_owned() }
    }

    pub fn new_derived(id: ORID, rule_id: &str, parents: Vec<ORID>, source_domain: &str) -> (r: EvidenceRecord)
        ensures
            r.id == id,
            r.support matches SupportKind::Derived { rule_id: ru, parents: ps } && ru@ == rule_id@ && ps == parents,
            r.source_domain@ == source_domain@,
    {
        EvidenceRecord {
            id,
            support: SupportKind::Derived { rule_id: rule_id.to_owned(), parents },
            source_domain: source_domain.to_owned(),
        }
    }

    /// The distinct primary roots of this record's lineage, each listed once.
    /// On a graph that stores each record under its own id they are exactly
    /// `lineage_roots`; on any graph each one is the raw id of a primary record
    /// of the graph or of this record.
    pub fn resolve_primary_roots(&self, graph: &OridMap<EvidenceRecord>) -> (roots: Vec<ORID>)
        ensures
            roots@.no_duplicates(),
            graph_consistent(graph@) ==> roots@.to_set() == lineage_roots(*self, graph@),
            roots@.to_set() == walk_roots(graph@, seq![*self], Set::empty(), walk_ids(*self, graph@)),
            forall|r: ORID| #[trigger] roots@.contains(r) ==> (self.support == (SupportKind::Primary { raw_orid: r })
                || exists|k: ORID| graph@.contains_key(k) && graph@[k].support == (SupportKind::Primary { raw_orid: r })),
    {
        let ghost g = graph@;
        let ghost start = *self;
        let ghost universe = g.values().map(|r: EvidenceRecord| r.id).insert(self.id);
        proof {
            use_type_invariant(graph);
            graph.lemma_domain();
            vstd::map_lib::lemma_values_finite(g);
            g.values().lemma_map_finite(|r: EvidenceRecord| r.id);
            lemma_inv_init(start, g);
        }
        let mut visited: OridMap<()> = OridMap::new();
        let mut roots: OridMap<()> = OridMap::new();
        let mut stack: Vec<&EvidenceRecord> = Vec::new();
        stack.push(self);
        proof {
            assert(deref_all(stack@) =~= seq![start]);
            assert(visited@.dom() =~= Set::empty());
            assert(roots@.dom() =~= Set::empty());
        }
        loop
            invariant
                g == graph@,
                start == *self,
                universe == g.values().map(|r: EvidenceRecord| r.id).insert(self.id),
                universe.finite(),
                visited@.dom().subset_of(universe),
                forall|t: int| 0 <= t < stack@.len() ==> (*#[trigger] stack@[t] == start || g.values().contains(*stack@[t])),
                forall|r: ORID| #[trigger] roots@.contains_key(r) ==> (start.support == (SupportKind::Primary { raw_orid: r })
                    || exists|k: ORID| g.contains_key(k) && g[k].support == (SupportKind::Primary { raw_orid: r })),
                graph_consistent(g) ==> lineage_inv(start, g, visited@.dom(), roots@.dom(), deref_all(stack@)),
                universe == walk_ids(start, g),
                roots@.dom().union(walk_roots(g, deref_all(stack@), visited@.dom(), universe)) == walk_roots(
                    g,
                    seq![start],
                    Set::empty(),
                    universe,
                ),
            ensures
                stack@.len() == 0,
            decreases universe.difference(visited@.dom()).len(), stack@.len(),
        {
            let ghost vis_before = visited@.dom();
            let ghost roots_before = roots@.dom();
            let ghost st_before = deref_all(stack@);
            let r = match stack.pop() {
                Some(r) => r,
                None => {
                    proof {
                        assert(deref_all(stack@) =~= Seq::<EvidenceRecord>::empty());
                        assert(roots@.dom().union(Set::empty()) =~= roots@.dom());
                    }
                    break;
                },
            };
            proof {
                assert(deref_all(stack@) =~= st_before.drop_last());
                assert(st_before.last() == *r);
            }
            if visited.contains_key(&r.id) {
                proof {
                    use_type_invariant(&visited);
                    visited.lemma_domain();
                    assert(walk_roots(g, st_before, vis_before, universe) == walk_roots(g, deref_all(stack@), vis_before, universe));
                    if graph_consistent(g) {
                        lemma_inv_skip(start, g, vis_before, roots_before, st_before);
                    }
                }
                continue;
            }
            visited.insert(r.id, ());
            proof {
                assert(universe.contains(r.id)) by {
                    if *r != start {
                        assert(g.values().contains(*r));
                        assert(g.values().map(|x: EvidenceRecord| x.id).contains(r.id));
                    }
                }
                assert(visited@.dom() =~= vis_before.insert(r.id));
                vstd::set_lib::lemma_set_difference_len(universe, vis_before);
                assert(universe.difference(visited@.dom()) =~= universe.difference(vis_before).remove(r.id));
            }
            let ghost base = stack@;
            match &r.support {
                SupportKind::Primary { raw_orid } => {
                    roots.insert(*raw_orid, ());
                    proof {
                        assert(walk_roots(g, st_before, vis_before, universe) == walk_roots(
                            g,
                            deref_all(stack@),
                            visited@.dom(),
                            universe,
                        ).insert(*raw_orid));
                        assert(roots@.dom().union(walk_roots(g, deref_all(stack@), visited@.dom(), universe)) =~= roots_before.union(
                            walk_roots(g, st_before, vis_before, universe),
                        ));
                        assert(roots@.dom() =~= roots_before.insert(*raw_orid));
                        assert(deref_all(stack@).subrange(0, st_before.len() - 1) =~= st_before.drop_last());
                        if graph_consistent(g) {
                            lemma_inv_visit(start, g, vis_before, roots_before, st_before, roots@.dom(), deref_all(stack@));
                        }
                    }
                },
                SupportKind::Derived { parents, .. } => {
                    let mut j: usize = parents.len();
                    proof {
                        assert(parents@.subrange(parents@.len() as int, parents@.len() as int) =~= Seq::<ORID>::empty());
                        assert(deref_all(stack@) =~= deref_all(base) + named_records(
                            g,
                            parents@.subrange(j as int, parents@.len() as int),
                        ));
                    }
                    while j > 0
                        invariant
                            g == graph@,
                            j <= parents@.len(),
                            deref_all(stack@) == deref_all(base) + named_records(g, parents@.subrange(j as int, parents@.len() as int)),
                            stack@.len() >= base.len(),
                            stack@.subrange(0, base.len() as int) == base,
                            forall|t: int| 0 <= t < stack@.len() ==> (*#[trigger] stack@[t] == start || g.values().contains(*stack@[t])),
                            graph_consistent(g) ==> forall|t: int|
                                base.len() <= t < stack@.len() ==> {
                                    let x = *#[trigger] stack@[t];
                                    parents@.contains(x.id) && g.contains_key(x.id) && x == g[x.id]
                                },
                            graph_consistent(g) ==> forall|q: int| j <= q < parents@.len() && g.contains_key(#[trigger] parents@[q]) ==> record_ids(deref_all(stack@)).contains(parents@[q]),
                        decreases j,
                    {
                        j = j - 1;
                        let ghost before = stack@;
                        proof {
                            let ps = parents@.subrange(j as int, parents@.len() as int);
                            assert(ps.drop_first() =~= parents@.subrange(j + 1, parents@.len() as int));
                            assert(ps[0] == parents@[j as int]);
                        }
                        match graph.get(&parents[j]) {
                            Some(pr) => {
                                stack.push(pr);
                                proof {
                                    assert(g.values().contains(*pr));
                                    assert(stack@.subrange(0, base.len() as int) =~= base);
                                    let ids = record_ids(deref_all(stack@));
                                    let ids0 = record_ids(deref_all(before));
                                    if graph_consistent(g) {
                                        assert forall|q: int| j <= q < parents@.len() && g.contains_key(#[trigger] parents@[q]) implies ids.contains(parents@[q]) by {
                                            if q == j {
                                                assert(ids[ids.len() - 1] == pr.id);
                                            } else {
                                                let t = choose|t: int| 0 <= t < ids0.len() && ids0[t] == parents@[q];
                                                assert(ids[t] == parents@[q]);
                                            }
                                        }
                                    }
                                    if graph_consistent(g) {
                                        assert forall|t: int| base.len() <= t < stack@.len() implies {
                                            let x = *#[trigger] stack@[t];
                                            parents@.contains(x.id) && g.contains_key(x.id) && x == g[x.id]
                                        } by {
                                            if t == stack@.len() - 1 {
                                                assert(parents@.contains(parents@[j as int]));
                                                assert(g.contains_key(parents@[j as int]));
                                                assert(*stack@[t] == g[parents@[j as int]]);
                                            } else {
                                                assert(stack@[t] == before[t]);
                                            }
                                        }
                                    }
                                }
                            },
                            None => {},
                        }
                        proof {
                            let ps = parents@.subrange(j as int, parents@.len() as int);
                            let prev = named_records(g, parents@.subrange(j + 1, parents@.len() as int));
                            assert(ps.drop_first() =~= parents@.subrange(j + 1, parents@.len() as int));
                            assert(named_records(g, ps) == prev + (if g.contains_key(ps[0]) {
                                seq![g[ps[0]]]
                            } else {
                                Seq::empty()
                            }));
                            if g.contains_key(parents@[j as int]) {
                                assert(deref_all(stack@) =~= deref_all(before).push(g[parents@[j as int]]));
                                assert(deref_all(stack@) =~= deref_all(base) + prev + seq![g[parents@[j as int]]]);
                            } else {
                                assert(deref_all(stack@) =~= deref_all(before));
                                assert(deref_all(stack@) =~= deref_all(base) + prev + Seq::<EvidenceRecord>::empty());
                            }
                            assert(deref_all(stack@) =~= deref_all(base) + named_records(g, ps));
                        }
                    }
                    proof {
                        let ns = deref_all(stack@);
                        assert(ns.subrange(0, st_before.len() - 1) =~= st_before.drop_last());
                        assert(parents_of(*r) == parents@);
                        if graph_consistent(g) {
                            assert forall|t: int| st_before.len() - 1 <= t < ns.len() implies {
                                let x = #[trigger] ns[t];
                                parents_of(st_before.last()).contains(x.id) && g.contains_key(x.id) && x == g[x.id]
                            } by {
                                assert(ns[t] == *stack@[t]);
                            }
                            assert forall|p: ORID| parents_of(st_before.last()).contains(p) && g.contains_key(p) implies #[trigger] record_ids(ns).contains(p) by {
                                let q = choose|q: int| 0 <= q < parents@.len() && parents@[q] == p;
                                let ids = record_ids(deref_all(stack@));
                                let t = choose|t: int| 0 <= t < ids.len() && ids[t] == p;
                                assert(record_ids(ns)[t] == p);
                            }
                            assert(roots@.dom() =~= roots_before);
                            lemma_inv_visit(start, g, vis_before, roots_before, st_before, roots@.dom(), ns);
                        }
                        assert(parents@.subrange(0, parents@.len() as int) =~= parents@);
                        assert(deref_all(base) =~= st_before.drop_last());
                        assert(roots@.dom() =~= roots_before);
                        assert(walk_roots(g, st_before, vis_before, universe) == walk_roots(
                            g,
                            st_before.drop_last() + named_records(g, parents@),
                            visited@.dom(),
                            universe,
                        ));
                    }
                },
            }
        }
        proof {
            use_type_invariant(&roots);
            roots.lemma_domain();
            assert(deref_all(stack@) =~= Seq::<EvidenceRecord>::empty());
            if graph_consistent(g) {
                lemma_inv_done(start, g, visited@.dom(), roots@.dom());
            }
        }
        let out = roots.keys();
        proof {
            assert forall|r: ORID| #[trigger] out@.contains(r) implies roots@.contains_key(r) by {
                assert(out@.to_set().contains(r));
            }
            assert(out@.to_set() =~= roots@.dom());
        }
        out
    }

    /// The number of independent primary roots: derived copies of one
    /// observation count once, however many of them there are.
    pub fn independent_root_count(&self, graph: &OridMap<EvidenceRecord>) -> (n: usize)
        ensures
            graph_consistent(graph@) ==> n == lineage_roots(*self, graph@).len(),
            n == walk_roots(graph@, seq![*self], Set::empty(), walk_ids(*self, graph@)).len(),
    {
        let roots = self.resolve_primary_roots(graph);
        proof {
            roots@.unique_seq_to_set();
        }
        roots.len()
    }
}

/// Whether the record stored under `target_id` reaches at least one primary root.
pub fn is_verified_path_valid(graph: &OridMap<EvidenceRecord>, target_id: &ORID) -> (b: bool)
    ensures
        !graph@.contains_key(*target_id) ==> !b,
        graph_consistent(graph@) && graph@.contains_key(*target_id) ==> (b <==> !lineage_roots(
            graph@[*target_id],
            graph@,
        ).is_empty()),
        graph@.contains_key(*target_id) ==> (b <==> !walk_roots(
            graph@,
            seq![graph@[*target_id]],
            Set::empty(),
            walk_ids(graph@[*target_id], graph@),
        ).is_empty()),
{
    match graph.get(target_id) {
        Some(target) => {
            let roots = target.resolve_primary_roots(graph);
            proof {
                if roots@.len() == 0 {
                    assert(roots@.to_set() =~= Set::<ORID>::empty());
                } else {
                    assert(roots@.to_set().contains(roots@[0]));
                }
            }
            roots.len() > 0
        },
        None => false,
    }
}

} // verus!
