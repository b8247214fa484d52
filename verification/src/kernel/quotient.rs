//! Active quotients: observed states grouped into classes of states that no
//! relevant distinction tells apart, without enumerating any unobserved state.

use vstd::prelude::*;
use crate::kernel::distinction::{are_equivalent_under_distinctions, equivalent_under, law_equivalence_relation, Distinction};

verus! {

#[derive(Debug, PartialEq, Eq, Hash)]
pub struct WorldSig {
    pub bytes: Vec<u8>,
}

impl Clone for WorldSig {
    fn clone(&self) -> (c: Self)
        ensures
            c.bytes@ == self.bytes@,
    {
        WorldSig { bytes: self.bytes.clone() }
    }
}

impl WorldSig {
    pub fn new(bytes: Vec<u8>) -> (s: WorldSig)
        ensures
            s.bytes@ == bytes@,
    {
        WorldSig { bytes }
    }
}

#[derive(Debug, Clone, Default)]
pub struct RelevantSet {
    pub distinctions: Vec<Distinction>,
}

impl RelevantSet {
    pub fn new(distinctions: Vec<Distinction>) -> (r: RelevantSet)
        ensures
            r.distinctions@ == distinctions@,
    {
        RelevantSet { distinctions }
    }

    /// Whether no relevant distinction tells the two states apart.
    pub fn are_equivalent(&self, state_a: &WorldSig, state_b: &WorldSig) -> (b: bool)
        ensures
            b == equivalent_under(self.distinctions@, state_a.bytes@, state_b.bytes@),
    {
        are_equivalent_under_distinctions(state_a.bytes.as_slice(), state_b.bytes.as_slice(), self.distinctions.as_slice())
    }
}

pub fn equivalent(a: &WorldSig, b: &WorldSig, r: &RelevantSet) -> (e: bool)
    ensures
        e == equivalent_under(r.distinctions@, a.bytes@, b.bytes@),
{
    r.are_equivalent(a, b)
}

/// The byte strings of a sequence of states.
pub open spec fn sig_views(s: Seq<WorldSig>) -> Seq<Seq<u8>> {
    s.map_values(|w: WorldSig| w.bytes@)
}

/// The byte strings of each class.
pub open spec fn class_views(cs: Seq<Vec<WorldSig>>) -> Seq<Seq<Seq<u8>>> {
    cs.map_values(|c: Vec<WorldSig>| sig_views(c@))
}

/// The members of `v` equivalent to `rep`, in order.
pub open spec fn class_of(ds: Seq<Distinction>, rep: Seq<u8>, v: Seq<Seq<u8>>) -> Seq<Seq<u8>> {
    v.filter(|x: Seq<u8>| equivalent_under(ds, rep, x))
}

/// The members of `v` that are equivalent to no earlier member, in order.
pub open spec fn class_reps(ds: Seq<Distinction>, v: Seq<Seq<u8>>) -> Seq<Seq<u8>>
    decreases v.len(),
{
    if v.len() == 0 {
        Seq::empty()
    } else {
        let p = class_reps(ds, v.drop_last());
        if exists|m: int| 0 <= m < v.len() - 1 && equivalent_under(ds, #[trigger] v[m], v.last()) {
            p
        } else {
            p.push(v.last())
        }
    }
}

/// The first member of each class.
pub open spec fn firsts(c: Seq<Seq<Seq<u8>>>) -> Seq<Seq<u8>> {
    c.map_values(|x: Seq<Seq<u8>>| x[0])
}

proof fn lemma_class_of_push(ds: Seq<Distinction>, rep: Seq<u8>, v: Seq<Seq<u8>>, s: Seq<u8>)
    ensures
        class_of(ds, rep, v.push(s)) == (if equivalent_under(ds, rep, s) {
            class_of(ds, rep, v).push(s)
        } else {
            class_of(ds, rep, v)
        }),
{
    assert(v.push(s).drop_last() =~= v);
    reveal_with_fuel(Seq::filter, 1);
}

/// The members of a class are members of the sequence, equivalent to the representative.
proof fn lemma_class_of_members(ds: Seq<Distinction>, rep: Seq<u8>, v: Seq<Seq<u8>>)
    ensures
        forall|i: int| 0 <= i < class_of(ds, rep, v).len() ==> v.contains(#[trigger] class_of(ds, rep, v)[i])
            && equivalent_under(ds, rep, class_of(ds, rep, v)[i]),
    decreases v.len(),
{
    if v.len() > 0 {
        let p = v.drop_last();
        lemma_class_of_members(ds, rep, p);
        assert(p.push(v.last()) =~= v);
        lemma_class_of_push(ds, rep, p, v.last());
        let c = class_of(ds, rep, v);
        let cp = class_of(ds, rep, p);
        assert forall|i: int| 0 <= i < c.len() implies v.contains(#[trigger] c[i]) && equivalent_under(ds, rep, c[i]) by {
            if i < cp.len() {
                assert(c[i] == cp[i]);
                let t = choose|t: int| 0 <= t < p.len() && p[t] == cp[i];
                assert(v[t] == p[t]);
            } else {
                assert(c[i] == v.last());
                assert(v[v.len() - 1] == v.last());
            }
        }
    }
}

proof fn lemma_class_reps_push(ds: Seq<Distinction>, v: Seq<Seq<u8>>, s: Seq<u8>)
    ensures
        class_reps(ds, v.push(s)) == (if exists|m: int| 0 <= m < v.len() && equivalent_under(ds, #[trigger] v[m], s) {
            class_reps(ds, v)
        } else {
            class_reps(ds, v).push(s)
        }),
{
    let w = v.push(s);
    assert(w.drop_last() =~= v);
    assert(w.last() == s);
    assert forall|m: int| 0 <= m < v.len() implies #[trigger] w[m] == v[m] by {}
    if exists|m: int| 0 <= m < v.len() && equivalent_under(ds, #[trigger] v[m], s) {
        let m = choose|m: int| 0 <= m < v.len() && equivalent_under(ds, #[trigger] v[m], s);
        assert(equivalent_under(ds, w[m], w.last()));
    }
}

/// The state of the partition after the first `n` states: each class is the
/// set of seen states equivalent to its first member, the first members are
/// the class representatives in order of appearance, and every seen state
/// belongs to a class.
pub open spec fn partition_inv(ds: Seq<Distinction>, seen: Seq<Seq<u8>>, c: Seq<Seq<Seq<u8>>>) -> bool {
    &&& forall|i: int| 0 <= i < c.len() ==> (#[trigger] c[i]).len() >= 1 && c[i] == class_of(ds, c[i][0], seen)
    &&& firsts(c) == class_reps(ds, seen)
    &&& forall|i: int, j: int| 0 <= i < j < c.len() ==> !equivalent_under(ds, #[trigger] c[i][0], #[trigger] c[j][0])
    &&& forall|m: int| 0 <= m < seen.len() ==> exists|i: int| 0 <= i < c.len() && equivalent_under(ds, #[trigger] c[i][0], #[trigger] seen[m])
}

proof fn lemma_partition_join(
    ds: Seq<Distinction>,
    seen: Seq<Seq<u8>>,
    c: Seq<Seq<Seq<u8>>>,
    s: Seq<u8>,
    k: int,
)
    requires
        partition_inv(ds, seen, c),
        0 <= k < c.len(),
        equivalent_under(ds, c[k][0], s),
        forall|i: int| 0 <= i < k ==> !equivalent_under(ds, #[trigger] c[i][0], s),
    ensures
        partition_inv(ds, seen.push(s), c.update(k, c[k].push(s))),
{
    let c2 = c.update(k, c[k].push(s));
    let seen2 = seen.push(s);
    assert forall|i: int| 0 <= i < c.len() implies c2[i][0] == #[trigger] c[i][0] by {}
    assert forall|i: int| 0 <= i < c.len() && i != k implies !equivalent_under(ds, #[trigger] c[i][0], s) by {
        if i > k && equivalent_under(ds, c[i][0], s) {
            law_equivalence_relation(ds, c[k][0], s, c[i][0]);
            law_equivalence_relation(ds, c[i][0], s, c[k][0]);
        }
    }
    assert forall|i: int| 0 <= i < c2.len() implies (#[trigger] c2[i]).len() >= 1 && c2[i] == class_of(ds, c2[i][0], seen2) by {
        lemma_class_of_push(ds, c[i][0], seen, s);
    }
    // the representative of class k was seen before, so `s` is no new representative
    let ck = c[k];
    lemma_class_of_members(ds, ck[0], seen);
    assert(ck[0] == class_of(ds, ck[0], seen)[0]);
    assert(seen.contains(ck[0]));
    let m = choose|m: int| 0 <= m < seen.len() && seen[m] == ck[0];
    lemma_class_reps_push(ds, seen, s);
    assert(equivalent_under(ds, seen[m], s));
    assert(firsts(c2) =~= firsts(c));
    assert forall|m2: int| 0 <= m2 < seen2.len() implies exists|i: int| 0 <= i < c2.len() && equivalent_under(ds, #[trigger] c2[i][0], #[trigger] seen2[m2]) by {
        if m2 < seen.len() {
            assert(seen2[m2] == seen[m2]);
            let i = choose|i: int| 0 <= i < c.len() && equivalent_under(ds, #[trigger] c[i][0], #[trigger] seen[m2]);
            assert(c2[i][0] == c[i][0]);
        } else {
            assert(c2[k][0] == c[k][0]);
        }
    }
}

proof fn lemma_partition_new(ds: Seq<Distinction>, seen: Seq<Seq<u8>>, c: Seq<Seq<Seq<u8>>>, s: Seq<u8>)
    requires
        partition_inv(ds, seen, c),
        forall|i: int| 0 <= i < c.len() ==> !equivalent_under(ds, #[trigger] c[i][0], s),
    ensures
        partition_inv(ds, seen.push(s), c.push(seq![s])),
{
    let c2 = c.push(seq![s]);
    let seen2 = seen.push(s);
    law_equivalence_relation(ds, s, s, s);
    // no seen state is equivalent to `s`
    assert forall|m: int| 0 <= m < seen.len() implies !equivalent_under(ds, #[trigger] seen[m], s) by {
        let i = choose|i: int| 0 <= i < c.len() && equivalent_under(ds, #[trigger] c[i][0], #[trigger] seen[m]);
        if equivalent_under(ds, seen[m], s) {
            law_equivalence_relation(ds, c[i][0], seen[m], s);
        }
    }
    assert forall|m: int| 0 <= m < seen.len() implies !equivalent_under(ds, s, #[trigger] seen[m]) by {
        law_equivalence_relation(ds, s, seen[m], s);
    }
    assert(class_of(ds, s, seen).len() == 0) by {
        lemma_class_of_members(ds, s, seen);
        if class_of(ds, s, seen).len() > 0 {
            let x = class_of(ds, s, seen)[0];
            assert(seen.contains(x));
        }
    }
    assert forall|i: int| 0 <= i < c2.len() implies (#[trigger] c2[i]).len() >= 1 && c2[i] == class_of(ds, c2[i][0], seen2) by {
        if i < c.len() {
            lemma_class_of_push(ds, c[i][0], seen, s);
        } else {
            lemma_class_of_push(ds, s, seen, s);
            assert(c2[i] =~= class_of(ds, s, seen).push(s));
        }
    }
    lemma_class_reps_push(ds, seen, s);
    assert(firsts(c2) =~= firsts(c).push(s));
    assert forall|i: int, j: int| 0 <= i < j < c2.len() implies !equivalent_under(ds, #[trigger] c2[i][0], #[trigger] c2[j][0]) by {
        if j == c.len() {
            assert(c2[j][0] == s);
            assert(c2[i][0] == c[i][0]);
        } else {
            assert(c2[i][0] == c[i][0] && c2[j][0] == c[j][0]);
        }
    }
    assert forall|m2: int| 0 <= m2 < seen2.len() implies exists|i: int| 0 <= i < c2.len() && equivalent_under(ds, #[trigger] c2[i][0], #[trigger] seen2[m2]) by {
        if m2 < seen.len() {
            assert(seen2[m2] == seen[m2]);
            let i = choose|i: int| 0 <= i < c.len() && equivalent_under(ds, #[trigger] c[i][0], #[trigger] seen[m2]);
            assert(c2[i][0] == c[i][0]);
        } else {
            assert(c2[c.len() as int][0] == s);
        }
    }
}

/// Splits the observed states into classes of mutually equivalent states. Each
/// class lists, in order, the states equivalent to its first member; classes
/// come in the order in which their first member appears.
pub fn partition_active_quotient(states: &[WorldSig], r: &RelevantSet) -> (classes: Vec<Vec<WorldSig>>)
    ensures
        ({
            let c = class_views(classes@);
            let v = sig_views(states@);
            let ds = r.distinctions@;
            &&& forall|i: int| 0 <= i < c.len() ==> (#[trigger] c[i]).len() >= 1 && c[i] == class_of(ds, c[i][0], v)
            &&& firsts(c) == class_reps(ds, v)
        }),
{
    let ghost ds = r.distinctions@;
    let mut classes: Vec<Vec<WorldSig>> = Vec::new();
    let mut n: usize = 0;
    proof {
        assert(class_views(classes@) =~= Seq::<Seq<Seq<u8>>>::empty());
        assert(sig_views(states@).subrange(0, 0) =~= Seq::<Seq<u8>>::empty());
        assert(firsts(class_views(classes@)) =~= Seq::<Seq<u8>>::empty());
    }
    while n < states.len()
        invariant
            n <= states@.len(),
            ds == r.distinctions@,
            partition_inv(ds, sig_views(states@).subrange(0, n as int), class_views(classes@)),
        decreases states@.len() - n,
    {
        let s = &states[n];
        let ghost seen = sig_views(states@).subrange(0, n as int);
        let ghost cv = class_views(classes@);
        proof {
            assert(sig_views(states@).subrange(0, n + 1) =~= seen.push(s.bytes@));
        }
        let mut k: usize = 0;
        let mut found = false;
        while k < classes.len()
            invariant_except_break
                !found,
            invariant
                k <= classes@.len(),
                cv == class_views(classes@),
                partition_inv(ds, seen, cv),
                ds == r.distinctions@,
                forall|i: int| 0 <= i < k ==> !equivalent_under(ds, #[trigger] cv[i][0], s.bytes@),
                found ==> k < classes@.len() && equivalent_under(ds, cv[k as int][0], s.bytes@),
            ensures
                found ==> k < classes@.len() && equivalent_under(ds, cv[k as int][0], s.bytes@),
                !found ==> forall|i: int| 0 <= i < classes@.len() ==> !equivalent_under(ds, #[trigger] cv[i][0], s.bytes@),
            decreases classes@.len() - k,
        {
            proof {
                assert(cv[k as int].len() >= 1);
                assert(cv[k as int] == sig_views(classes@[k as int]@));
            }
            if equivalent(&classes[k][0], s, r) {
                found = true;
                break;
            }
            k = k + 1;
        }
        if found {
            let mut cls = classes.remove(k);
            let ghost old_cls = cls@;
            cls.push(s.clone());
            proof {
                assert(sig_views(cls@) =~= sig_views(old_cls).push(s.bytes@));
            }
            classes.insert(k, cls);
            proof {
                lemma_partition_join(ds, seen, cv, s.bytes@, k as int);
                assert(class_views(classes@) =~= cv.update(k as int, cv[k as int].push(s.bytes@)));
            }
        } else {
            let mut cls: Vec<WorldSig> = Vec::new();
            cls.push(s.clone());
            proof {
                assert(sig_views(cls@) =~= seq![s.bytes@]);
            }
            classes.push(cls);
            proof {
                lemma_partition_new(ds, seen, cv, s.bytes@);
                assert(class_views(classes@) =~= cv.push(seq![s.bytes@]));
            }
        }
        n = n + 1;
    }
    proof {
        assert(sig_views(states@).subrange(0, n as int) =~= sig_views(states@));
    }
    classes
}

/// Every member of a class of the partition is equivalent to the class's first
/// member, and first members of different classes are not equivalent.
pub proof fn law_partition_preserves_decisions(ds: Seq<Distinction>, v: Seq<Seq<u8>>, c: Seq<Seq<Seq<u8>>>, i: int, j: int)
    requires
        forall|k: int| 0 <= k < c.len() ==> (#[trigger] c[k]).len() >= 1 && c[k] == class_of(ds, c[k][0], v),
        0 <= i < c.len(),
        0 <= j < c[i].len(),
    ensures
        equivalent_under(ds, c[i][0], c[i][j]),
{
    let ci = c[i];
    lemma_class_of_members(ds, ci[0], v);
    assert(ci == class_of(ds, ci[0], v));
}

} // verus!
