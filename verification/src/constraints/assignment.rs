//! Assignments of integer values to named variables, kept in the order in
//! which the names were first bound.

use vstd::prelude::*;
use vstd::utf8::encode_utf8_decode_utf8;

verus! {

/// The map described by a list of bindings; a later binding of a name wins.
pub open spec fn bindings_map(ps: Seq<(Seq<char>, i64)>) -> Map<Seq<char>, i64>
    decreases ps.len(),
{
    if ps.len() == 0 {
        Map::empty()
    } else {
        bindings_map(ps.drop_last()).insert(ps.last().0, ps.last().1)
    }
}

/// No name is bound twice.
pub open spec fn distinct_names(ps: Seq<(Seq<char>, i64)>) -> bool {
    forall|i: int, j: int| 0 <= i < j < ps.len() ==> #[trigger] ps[i].0 != #[trigger] ps[j].0
}

/// With distinct names, the map holds exactly the bound names, each with its value.
pub proof fn lemma_bindings_map(ps: Seq<(Seq<char>, i64)>)
    requires
        distinct_names(ps),
    ensures
        forall|i: int|
            0 <= i < ps.len() ==> #[trigger] bindings_map(ps).contains_key(ps[i].0) && bindings_map(ps)[ps[i].0]
                == ps[i].1,
        forall|k: Seq<char>|
            #[trigger] bindings_map(ps).contains_key(k) ==> exists|i: int| 0 <= i < ps.len() && ps[i].0 == k,
    decreases ps.len(),
{
    if ps.len() > 0 {
        let q = ps.drop_last();
        assert(distinct_names(q)) by {
            assert forall|i: int, j: int| 0 <= i < j < q.len() implies #[trigger] q[i].0 != #[trigger] q[j].0 by {
                assert(ps[i].0 != ps[j].0);
            }
        }
        lemma_bindings_map(q);
        let last = ps.last();
        assert forall|i: int| 0 <= i < ps.len() implies #[trigger] bindings_map(ps).contains_key(ps[i].0)
            && bindings_map(ps)[ps[i].0] == ps[i].1 by {
            if i < ps.len() - 1 {
                assert(q[i] == ps[i]);
                assert(bindings_map(q).contains_key(q[i].0));
                assert(ps[i].0 != ps[ps.len() - 1].0);
            }
        }
        assert forall|k: Seq<char>| #[trigger] bindings_map(ps).contains_key(k) implies exists|i: int|
            0 <= i < ps.len() && ps[i].0 == k by {
            if k == last.0 {
                assert(ps[ps.len() - 1].0 == k);
            } else {
                assert(bindings_map(q).contains_key(k));
                let i = choose|i: int| 0 <= i < q.len() && q[i].0 == k;
                assert(ps[i].0 == k);
            }
        }
    }
}

/// Two texts are equal exactly when their UTF-8 bytes are.
pub fn same_text(a: &str, b: &str) -> (r: bool)
    ensures
        r == (a@ == b@),
{
    let x = a.as_bytes();
    let y = b.as_bytes();
    proof {
        encode_utf8_decode_utf8(a@);
        encode_utf8_decode_utf8(b@);
    }
    if x.len() != y.len() {
        proof {
            if a@ == b@ {
                assert(x@ == y@);
            }
        }
        return false;
    }
    let mut i: usize = 0;
    while i < x.len()
        invariant
            x@.len() == y@.len(),
            i <= x@.len(),
            a@ == b@ ==> x@ == y@,
            forall|j: int| 0 <= j < i ==> x@[j] == y@[j],
        decreases x@.len() - i,
    {
        if x[i] != y[i] {
            proof {
                if a@ == b@ {
                    assert(x@ == y@);
                }
            }
            return false;
        }
        i = i + 1;
    }
    assert(x@ =~= y@);
    true
}

/// Values bound to variable names.
#[derive(Debug, PartialEq, Eq)]
pub struct Assignment {
    entries: Vec<(String, i64)>,
}

impl Assignment {
    /// The bindings, in the order in which their names were first bound.
    pub closed spec fn pairs(&self) -> Seq<(Seq<char>, i64)> {
        self.entries@.map_values(|e: (String, i64)| (e.0@, e.1))
    }

    #[verifier::type_invariant]
    closed spec fn wf(&self) -> bool {
        distinct_names(self.pairs())
    }

    pub fn new() -> (a: Assignment)
        ensures
            a.pairs() == Seq::<(Seq<char>, i64)>::empty(),
            a@ == Map::<Seq<char>, i64>::empty(),
    {
        let a = Assignment { entries: Vec::new() };
        assert(a.pairs() =~= Seq::<(Seq<char>, i64)>::empty());
        a
    }

    /// The number of bound names.
    pub fn len(&self) -> (n: usize)
        ensures
            n == self.pairs().len(),
    {
        self.entries.len()
    }

    /// The name and value of the binding at position `i`.
    pub fn binding_at(&self, i: usize) -> (r: (&String, i64))
        requires
            i < self.pairs().len(),
        ensures
            r.0@ == self.pairs()[i as int].0,
            r.1 == self.pairs()[i as int].1,
    {
        (&self.entries[i].0, self.entries[i].1)
    }

    fn position(&self, name: &str) -> (r: Option<usize>)
        ensures
            match r {
                Some(i) => i < self.pairs().len() && self.pairs()[i as int].0 == name@,
                None => forall|i: int| 0 <= i < self.pairs().len() ==> #[trigger] self.pairs()[i].0 != name@,
            },
    {
        let mut i: usize = 0;
        while i < self.entries.len()
            invariant
                i <= self.entries@.len(),
                forall|j: int| 0 <= j < i ==> #[trigger] self.pairs()[j].0 != name@,
            decreases self.entries@.len() - i,
        {
            if same_text(self.entries[i].0.as_str(), name) {
                return Some(i);
            }
            i = i + 1;
        }
        None
    }

    /// The value bound to `name`, if any.
    pub fn get(&self, name: &str) -> (r: Option<&i64>)
        ensures
            match r {
                Some(v) => self@.contains_key(name@) && *v == self@[name@],
                None => !self@.contains_key(name@),
            },
    {
        proof {
            use_type_invariant(self);
            lemma_bindings_map(self.pairs());
        }
        match self.position(name) {
            Some(i) => {
                proof {
                    assert(bindings_map(self.pairs()).contains_key(self.pairs()[i as int].0));
                }
                Some(&self.entries[i].1)
            },
            None => None,
        }
    }

    /// Binds `name` to `value`; a new name goes to the end of the order.
    pub fn insert(&mut self, name: String, value: i64)
        ensures
            final(self)@ == old(self)@.insert(name@, value),
            !old(self)@.contains_key(name@) ==> final(self).pairs() == old(self).pairs().push((name@, value)),
    {
        proof {
            use_type_invariant(&*self);
            lemma_bindings_map(self.pairs());
        }
        let mut entries: Vec<(String, i64)> = Vec::new();
        std::mem::swap(&mut entries, &mut self.entries);
        let ghost old_pairs = old(self).pairs();
        assert(entries@.map_values(|e: (String, i64)| (e.0@, e.1)) == old_pairs);
        let mut i: usize = 0;
        while i < entries.len() && !same_text(entries[i].0.as_str(), name.as_str())
            invariant
                i <= entries@.len(),
                forall|j: int| 0 <= j < i ==> #[trigger] entries@[j].0@ != name@,
            decreases entries@.len() - i,
        {
            i = i + 1;
        }
        if i < entries.len() {
            let ghost nm = name@;
            entries.set(i, (name, value));
            proof {
                assert(bindings_map(old_pairs).contains_key(old_pairs[i as int].0));
                let np = entries@.map_values(|e: (String, i64)| (e.0@, e.1));
                assert(np =~= old_pairs.update(i as int, (name@, value)));
                assert(distinct_names(np)) by {
                    assert forall|a: int, b: int| 0 <= a < b < np.len() implies #[trigger] np[a].0 != #[trigger] np[b].0 by {
                        assert(np[a].0 == old_pairs[a].0);
                        assert(np[b].0 == old_pairs[b].0);
                    }
                }
                lemma_bindings_map(np);
                assert(bindings_map(np) =~= bindings_map(old_pairs).insert(name@, value)) by {
                    assert forall|k: Seq<char>| #[trigger] bindings_map(np).contains_key(k) implies bindings_map(
                        old_pairs,
                    ).insert(name@, value).contains_key(k) by {
                        let t = choose|t: int| 0 <= t < np.len() && np[t].0 == k;
                        assert(np[t].0 == old_pairs[t].0);
                    }
                    assert forall|k: Seq<char>| #[trigger] bindings_map(old_pairs).insert(name@, value).contains_key(k)
                        implies bindings_map(np).contains_key(k) && bindings_map(np)[k] == bindings_map(old_pairs).insert(
                        name@,
                        value,
                    )[k] by {
                        if k == name@ {
                            assert(np[i as int].0 == k);
                            assert(bindings_map(np).contains_key(np[i as int].0));
                        } else {
                            let t = choose|t: int| 0 <= t < old_pairs.len() && old_pairs[t].0 == k;
                            assert(np[t] == old_pairs[t]);
                            assert(bindings_map(np).contains_key(np[t].0));
                            assert(bindings_map(old_pairs).contains_key(old_pairs[t].0));
                        }
                    }
                }
            }
        } else {
            let ghost nm = name@;
            entries.push((name, value));
            proof {
                let np = entries@.map_values(|e: (String, i64)| (e.0@, e.1));
                assert(np =~= old_pairs.push((nm, value)));
                assert(np.drop_last() =~= old_pairs);
                assert forall|t: int| 0 <= t < old_pairs.len() implies #[trigger] old_pairs[t].0 != nm by {
                    assert(entries@[t].0@ != nm);
                }
                if bindings_map(old_pairs).contains_key(nm) {
                    let t = choose|t: int| 0 <= t < old_pairs.len() && old_pairs[t].0 == nm;
                    assert(old_pairs[t].0 != nm);
                }
            }
        }
        self.entries = entries;
    }

    /// Removes the binding of `name`, keeping the order of the others.
    pub fn remove(&mut self, name: &str)
        ensures
            final(self)@ == old(self)@.remove(name@),
            old(self).pairs().len() > 0 && old(self).pairs().last().0 == name@ ==> final(self).pairs()
                == old(self).pairs().drop_last(),
    {
        proof {
            use_type_invariant(&*self);
            lemma_bindings_map(self.pairs());
        }
        let ghost old_pairs = self.pairs();
        match self.position(name) {
            None => {
                proof {
                    assert(!self@.contains_key(name@)) by {
                        if self@.contains_key(name@) {
                            let t = choose|t: int| 0 <= t < old_pairs.len() && old_pairs[t].0 == name@;
                            assert(old_pairs[t].0 != name@);
                        }
                    }
                    assert(self@.remove(name@) =~= self@);
                }
            },
            Some(i) => {
                let mut entries: Vec<(String, i64)> = Vec::new();
                std::mem::swap(&mut entries, &mut self.entries);
                let ghost before = entries@;
                entries.remove(i);
                proof {
                    let np = entries@.map_values(|e: (String, i64)| (e.0@, e.1));
                    assert(np =~= old_pairs.remove(i as int));
                    assert forall|a: int| 0 <= a < np.len() implies #[trigger] np[a] == (if a < i {
                        old_pairs[a]
                    } else {
                        old_pairs[a + 1]
                    }) by {}
                    assert(distinct_names(np)) by {
                        assert forall|a: int, b: int| 0 <= a < b < np.len() implies #[trigger] np[a].0 != #[trigger] np[b].0 by {
                            let a2 = if a < i { a } else { a + 1 };
                            let b2 = if b < i { b } else { b + 1 };
                            assert(np[a] == old_pairs[a2]);
                            assert(np[b] == old_pairs[b2]);
                        }
                    }
                    lemma_bindings_map(np);
                    let want = bindings_map(old_pairs).remove(name@);
                    assert forall|k: Seq<char>| #[trigger] bindings_map(np).contains_key(k) implies want.contains_key(k)
                        && bindings_map(np)[k] == want[k] by {
                        let t = choose|t: int| 0 <= t < np.len() && np[t].0 == k;
                        let t2 = if t < i { t } else { t + 1 };
                        assert(np[t] == old_pairs[t2]);
                        assert(t2 != i);
                        assert(old_pairs[t2].0 != old_pairs[i as int].0);
                    }
                    assert forall|k: Seq<char>| #[trigger] want.contains_key(k) implies bindings_map(np).contains_key(k) by {
                        let t = choose|t: int| 0 <= t < old_pairs.len() && old_pairs[t].0 == k;
                        assert(t != i);
                        let t2 = if t < i { t } else { t - 1 };
                        assert(np[t2] == old_pairs[t]);
                    }
                    assert(bindings_map(np) =~= want);
                    if old_pairs.len() > 0 && old_pairs.last().0 == name@ {
                        if i < old_pairs.len() - 1 {
                            assert(old_pairs[i as int].0 != old_pairs[old_pairs.len() - 1].0);
                        }
                        assert(np =~= old_pairs.drop_last());
                    }
                }
                self.entries = entries;
            },
        }
    }

    /// A copy of this assignment, with the same bindings in the same order.
    pub fn copy(&self) -> (c: Assignment)
        ensures
            c.pairs() == self.pairs(),
            c@ == self@,
    {
        proof {
            use_type_invariant(self);
        }
        let mut entries: Vec<(String, i64)> = Vec::new();
        let mut i: usize = 0;
        while i < self.entries.len()
            invariant
                i <= self.entries@.len(),
                entries@.len() == i,
                forall|j: int| 0 <= j < i ==> #[trigger] entries@[j] == self.entries@[j],
            decreases self.entries@.len() - i,
        {
            let name = self.entries[i].0.clone();
            entries.push((name, self.entries[i].1));
            i = i + 1;
        }
        assert(entries@ =~= self.entries@);
        Assignment { entries }
    }
}

impl View for Assignment {
    type V = Map<Seq<char>, i64>;

    open spec fn view(&self) -> Map<Seq<char>, i64> {
        bindings_map(self.pairs())
    }
}

} // verus!
