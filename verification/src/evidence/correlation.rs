//! Deduplication of correlated evidence: many copies derived from one root
//! count as one independent root.

use vstd::prelude::*;
use crate::evidence::provenance::{lineage_roots, ProvenanceHypergraph};
use crate::evidence::record::{record_bytes, EvidenceRecord};
use crate::kernel::omap::OridMap;
use crate::kernel::orid::{is_orid_of, lemma_orid_unique, sort_by_hash, sorted_by_hash, ObjectKind, ORID};

verus! {

#[derive(Debug, Default, Clone)]
pub struct CorrelationDeduplicator;

/// The roots of the lineages of the records' identifiers.
pub open spec fn evidence_roots(c2d: Map<ORID, Vec<crate::evidence::provenance::Derivation>>, evs: Seq<EvidenceRecord>) -> Set<ORID> {
    Set::new(
        |x: ORID|
            exists|i: int, id: ORID|
                0 <= i < evs.len() && #[trigger] is_orid_of(id, ObjectKind::Evidence, record_bytes(evs[i]))
                    && lineage_roots(c2d, id).contains(x),
    )
}

/// The distinct correlation domains of the records.
pub open spec fn domains(evs: Seq<EvidenceRecord>) -> Set<Seq<char>> {
    evs.map_values(|e: EvidenceRecord| e.correlation_domain@).to_set()
}

proof fn lemma_push_to_set<A>(s: Seq<A>, x: A)
    ensures
        s.push(x).to_set() == s.to_set().insert(x),
{
    assert forall|y: A| #[trigger] s.push(x).to_set().contains(y) <==> s.to_set().insert(x).contains(y) by {
        if s.push(x).contains(y) && y != x {
            let t = choose|t: int| 0 <= t < s.push(x).len() && s.push(x)[t] == y;
            assert(s[t] == y);
        }
        if s.contains(y) {
            let t = choose|t: int| 0 <= t < s.len() && s[t] == y;
            assert(s.push(x)[t] == y);
        }
        if y == x {
            assert(s.push(x)[s.len() as int] == x);
        }
    }
    assert(s.push(x).to_set() =~= s.to_set().insert(x));
}

impl CorrelationDeduplicator {
    pub fn new() -> (d: CorrelationDeduplicator) {
        CorrelationDeduplicator
    }

    /// The distinct roots behind the records, listed once each by digest.
    pub fn independent_roots(&self, provenance: &ProvenanceHypergraph, evidence_set: &[EvidenceRecord]) -> (out: Vec<ORID>)
        ensures
            out@.to_set() == evidence_roots(provenance.c2d(), evidence_set@),
            out@.no_duplicates(),
            sorted_by_hash(out@),
    {
        let ghost c2d = provenance.c2d();
        let ghost evs = evidence_set@;
        let mut found: OridMap<()> = OridMap::new();
        let mut i: usize = 0;
        proof {
            assert(found@.dom() =~= Set::empty());
        }
        while i < evidence_set.len()
            invariant
                i <= evs.len(),
                evs == evidence_set@,
                c2d == provenance.c2d(),
                found@.dom() == evidence_roots(c2d, evs.subrange(0, i as int)),
            decreases evs.len() - i,
        {
            let ev = &evidence_set[i];
            let id = ev.id();
            let roots: Vec<ORID> = match provenance.why(&id) {
                Ok(proof) => proof.roots,
                Err(_) => {
                    let mut v: Vec<ORID> = Vec::new();
                    v.push(id);
                    v
                },
            };
            let ghost d0 = found@.dom();
            let mut k: usize = 0;
            while k < roots.len()
                invariant
                    k <= roots@.len(),
                    found@.dom() == d0 + roots@.subrange(0, k as int).to_set(),
                decreases roots@.len() - k,
            {
                found.insert(roots[k], ());
                k = k + 1;
                proof {
                    assert(roots@.subrange(0, k as int) =~= roots@.subrange(0, k - 1).push(roots@[k - 1]));
                    lemma_push_to_set(roots@.subrange(0, k - 1), roots@[k - 1]);
                }
            }
            proof {
                assert(roots@.subrange(0, k as int) =~= roots@);
                assert(roots@.to_set() == lineage_roots(c2d, id));
                let pre = evs.subrange(0, i as int);
                let post = evs.subrange(0, i + 1);
                assert forall|x: ORID| #[trigger] found@.dom().contains(x) <==> evidence_roots(c2d, post).contains(x) by {
                    if found@.dom().contains(x) {
                        if d0.contains(x) {
                            let (j, jd) = choose|j: int, jd: ORID|
                                0 <= j < pre.len() && #[trigger] is_orid_of(jd, ObjectKind::Evidence, record_bytes(pre[j]))
                                    && lineage_roots(c2d, jd).contains(x);
                            assert(post[j] == pre[j]);
                            assert(is_orid_of(jd, ObjectKind::Evidence, record_bytes(post[j])));
                        } else {
                            assert(post[i as int] == *ev);
                            assert(is_orid_of(id, ObjectKind::Evidence, record_bytes(post[i as int])));
                        }
                    }
                    if evidence_roots(c2d, post).contains(x) {
                        let (j, jd) = choose|j: int, jd: ORID|
                            0 <= j < post.len() && #[trigger] is_orid_of(jd, ObjectKind::Evidence, record_bytes(post[j]))
                                && lineage_roots(c2d, jd).contains(x);
                        if j < i {
                            assert(pre[j] == post[j]);
                            assert(is_orid_of(jd, ObjectKind::Evidence, record_bytes(pre[j])));
                            assert(d0.contains(x));
                        } else {
                            assert(post[j] == *ev);
                            lemma_orid_unique(id, jd, ObjectKind::Evidence, record_bytes(*ev));
                        }
                    }
                }
                assert(found@.dom() =~= evidence_roots(c2d, post));
            }
            i = i + 1;
        }
        proof {
            assert(evs.subrange(0, i as int) =~= evs);
            use_type_invariant(&found);
            found.lemma_domain();
        }
        let keys = found.keys();
        let sorted = sort_by_hash(keys);
        proof {
            broadcast use vstd::seq_lib::group_to_multiset_ensures;
            assert forall|x: ORID| #[trigger] sorted@.to_set().contains(x) <==> keys@.to_set().contains(x) by {
                assert(sorted@.contains(x) <==> sorted@.to_multiset().count(x) > 0);
                assert(keys@.contains(x) <==> keys@.to_multiset().count(x) > 0);
            }
            assert(sorted@.to_set() =~= keys@.to_set());
            keys@.lemma_multiset_has_no_duplicates();
            sorted@.lemma_multiset_has_no_duplicates_conv();
        }
        sorted
    }

    /// The number of independent supports: the number of distinct roots, but
    /// never more than the number of distinct correlation domains (at least one).
    pub fn independent_support_count(&self, provenance: &ProvenanceHypergraph, evidence_set: &[EvidenceRecord]) -> (n: usize)
        ensures
            ({
                let r = evidence_roots(provenance.c2d(), evidence_set@).len();
                let d = if domains(evidence_set@).len() > 1 { domains(evidence_set@).len() } else { 1 };
                n == if r < d { r } else { d }
            }),
    {
        let roots = self.independent_roots(provenance, evidence_set);
        let mut distinct: Vec<&String> = Vec::new();
        let mut i: usize = 0;
        while i < evidence_set.len()
            invariant
                i <= evidence_set@.len(),
                distinct@.map_values(|s: &String| s@).no_duplicates(),
                distinct@.map_values(|s: &String| s@).to_set() == domains(evidence_set@.subrange(0, i as int)),
            decreases evidence_set@.len() - i,
        {
            let dom = &evidence_set[i].correlation_domain;
            let mut seen = false;
            let mut k: usize = 0;
            while k < distinct.len()
                invariant
                    k <= distinct@.len(),
                    seen == exists|j: int| 0 <= j < k && (#[trigger] distinct@[j])@ == dom@,
                decreases distinct@.len() - k,
            {
                if *distinct[k] == *dom {
                    seen = true;
                }
                k = k + 1;
            }
            let ghost dv0 = distinct@.map_values(|s: &String| s@);
            if !seen {
                distinct.push(dom);
            }
            proof {
                let pre = evidence_set@.subrange(0, i as int);
                let post = evidence_set@.subrange(0, i + 1);
                assert(post.map_values(|e: EvidenceRecord| e.correlation_domain@) =~= pre.map_values(
                    |e: EvidenceRecord| e.correlation_domain@,
                ).push(dom@));
                let dv1 = distinct@.map_values(|s: &String| s@);
                if seen {
                    let j = choose|j: int| 0 <= j < k && (#[trigger] distinct@[j])@ == dom@;
                    assert(dv0[j] == dom@);
                    assert(dv1 == dv0);
                    assert(dv0.contains(dom@));
                    assert(dv1.to_set() =~= dv0.to_set().insert(dom@));
                } else {
                    assert(dv1 =~= dv0.push(dom@));
                    lemma_push_to_set(dv0, dom@);
                    assert forall|a: int, b: int| 0 <= a < b < dv1.len() implies dv1[a] != dv1[b] by {
                        if b == dv1.len() - 1 {
                            assert(dv1[a] == dv0[a]);
                            assert(distinct@[a]@ == dv0[a]);
                        } else {
                            assert(dv1[a] == dv0[a] && dv1[b] == dv0[b]);
                        }
                    }
                }
                lemma_push_to_set(pre.map_values(|e: EvidenceRecord| e.correlation_domain@), dom@);
                assert(domains(post) =~= domains(pre).insert(dom@));
            }
            i = i + 1;
        }
        proof {
            assert(evidence_set@.subrange(0, i as int) =~= evidence_set@);
            let dvs = distinct@.map_values(|s: &String| s@);
            dvs.unique_seq_to_set();
            roots@.unique_seq_to_set();
        }
        let d = if distinct.len() > 1 { distinct.len() } else { 1 };
        if roots.len() < d { roots.len() } else { d }
    }
}

} // verus!
