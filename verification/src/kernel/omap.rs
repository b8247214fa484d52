//! Maps and sets keyed by ORID.
//!
//! Entries are kept in insertion order (so iteration is deterministic) and
//! indexed by a 64-bit bucket taken from the digest, so that lookups do not
//! scan the whole map.

use std::collections::HashMap;
use vstd::prelude::*;
use crate::kernel::orid::ORID;

verus! {

broadcast use vstd::std_specs::hash::group_hash_axioms;

/// The bucket of a key: its first eight digest bytes read little-endian.
pub open spec fn bucket_of(k: ORID) -> u64 {
    (k.hash[0] as u64) | ((k.hash[1] as u64) << 8u64) | ((k.hash[2] as u64) << 16u64) | ((
    k.hash[3] as u64) << 24u64) | ((k.hash[4] as u64) << 32u64) | ((k.hash[5] as u64) << 40u64)
        | ((k.hash[6] as u64) << 48u64) | ((k.hash[7] as u64) << 56u64)
}

fn bucket(k: &ORID) -> (b: u64)
    ensures
        b == bucket_of(*k),
{
    (k.hash[0] as u64) | ((k.hash[1] as u64) << 8u64) | ((k.hash[2] as u64) << 16u64) | ((
    k.hash[3] as u64) << 24u64) | ((k.hash[4] as u64) << 32u64) | ((k.hash[5] as u64) << 40u64)
        | ((k.hash[6] as u64) << 48u64) | ((k.hash[7] as u64) << 56u64)
}

/// A finite map from ORIDs to values that remembers the order in which keys were first inserted.
#[derive(Debug)]
pub struct OridMap<V> {
    entries: Vec<(ORID, V)>,
    index: HashMap<u64, Vec<usize>>,
}

impl<V> OridMap<V> {
    /// The keys in the order of their first insertion.
    pub closed spec fn key_seq(&self) -> Seq<ORID> {
        self.entries@.map_values(|e: (ORID, V)| e.0)
    }

    /// The entries in the order of their first insertion.
    pub closed spec fn entry_seq(&self) -> Seq<(ORID, V)> {
        self.entries@
    }

    /// Internal consistency: keys are unique and the bucket index matches the entries.
    #[verifier::type_invariant]
    pub closed spec fn wf(&self) -> bool {
        &&& forall|i: int, j: int|
            0 <= i < j < self.entries@.len() ==> #[trigger] self.entries@[i].0 != #[trigger] self.entries@[j].0
        &&& forall|i: int|
            0 <= i < self.entries@.len() ==> {
                let b = bucket_of(#[trigger] self.entries@[i].0);
                &&& self.index@.contains_key(b)
                &&& self.index@[b]@.contains(i as usize)
            }
        &&& forall|b: u64, p: usize|
            #![trigger self.index@[b]@.contains(p)]
            self.index@.contains_key(b) && self.index@[b]@.contains(p) ==> p < self.entries@.len()
                && bucket_of(self.entries@[p as int].0) == b
    }

    pub closed spec fn view(&self) -> Map<ORID, V> {
        Map::new(
            |k: ORID| self.key_seq().contains(k),
            |k: ORID| self.entries@[self.key_seq().index_of(k)].1,
        )
    }

    proof fn lemma_unique(&self)
        requires
            self.wf(),
        ensures
            self.key_seq().no_duplicates(),
            self.key_seq().len() == self.entries@.len(),
            forall|i: int| 0 <= i < self.entries@.len() ==> #[trigger] self.key_seq()[i] == self.entries@[i].0,
    {
        assert forall|i: int, j: int|
            0 <= i < self.key_seq().len() && 0 <= j < self.key_seq().len() && i != j implies self.key_seq()[i]
            != self.key_seq()[j] by {
            if i < j {
                assert(self.entries@[i].0 != self.entries@[j].0);
            } else {
                assert(self.entries@[j].0 != self.entries@[i].0);
            }
        }
    }

    /// The value of the entry at position `i` is what the map holds for its key.
    pub proof fn lemma_entry_lookup(&self, i: int)
        requires
            self.wf(),
            0 <= i < self.entry_seq().len(),
        ensures
            self@.contains_key(self.entry_seq()[i].0),
            self@[self.entry_seq()[i].0] == self.entry_seq()[i].1,
            self.key_seq()[i] == self.entry_seq()[i].0,
    {
        self.lemma_unique();
        let k = self.entries@[i].0;
        assert(self.key_seq()[i] == k);
        assert(self.key_seq().contains(k));
        let j = self.key_seq().index_of(k);
        assert(self.key_seq()[j] == k);
        assert(i == j);
    }

    /// The map's domain is exactly the set of keys in insertion order, without repetition.
    pub proof fn lemma_domain(&self)
        requires
            self.wf(),
        ensures
            self@.dom() == self.key_seq().to_set(),
            self.key_seq().no_duplicates(),
            self.key_seq().len() == self.entry_seq().len(),
            self@.dom().finite(),
            self@.len() == self.key_seq().len(),
            forall|i: int| 0 <= i < self.entry_seq().len() ==> #[trigger] self.key_seq()[i] == self.entry_seq()[i].0,
    {
        self.lemma_unique();
        assert(self@.dom() =~= self.key_seq().to_set());
        self.key_seq().unique_seq_to_set();
        vstd::seq_lib::seq_to_set_is_finite(self.key_seq());
    }

    pub fn new() -> (m: Self)
        ensures
            m@ == Map::<ORID, V>::empty(),
            m.key_seq() == Seq::<ORID>::empty(),
            m.entry_seq() == Seq::<(ORID, V)>::empty(),
    {
        let m = OridMap { entries: Vec::new(), index: HashMap::new() };
        assert(m@ =~= Map::<ORID, V>::empty());
        assert(m.key_seq() =~= Seq::<ORID>::empty());
        m
    }

    pub fn len(&self) -> (n: usize)
        ensures
            n == self@.len(),
            n == self.entry_seq().len(),
    {
        proof {
            use_type_invariant(self);
            self.lemma_domain();
        }
        self.entries.len()
    }

    pub fn is_empty(&self) -> (b: bool)
        ensures
            b == (self@.len() == 0),
            b == (self.entry_seq().len() == 0),
    {
        proof {
            use_type_invariant(self);
            self.lemma_domain();
        }
        self.entries.len() == 0
    }

    /// Position of `k` among the entries, if present.
    fn position(&self, k: &ORID) -> (r: Option<usize>)
        ensures
            match r {
                Some(i) => i < self.entries@.len() && self.entries@[i as int].0 == *k,
                None => !self.key_seq().contains(*k),
            },
    {
        proof {
            use_type_invariant(self);
            self.lemma_unique();
        }
        let b = bucket(k);
        match self.index.get(&b) {
            None => {
                proof {
                    if self.key_seq().contains(*k) {
                        let i = self.key_seq().index_of(*k);
                        assert(self.entries@[i].0 == *k);
                        assert(bucket_of(self.entries@[i].0) == b);
                    }
                }
                None
            },
            Some(ps) => {
                let mut j: usize = 0;
                while j < ps.len()
                    invariant
                        self.index@.contains_key(b),
                        ps@ == self.index@[b]@,
                        b == bucket_of(*k),
                        j <= ps.len(),
                        forall|t: int| 0 <= t < j ==> self.entries@[ps@[t] as int].0 != *k,
                    decreases ps.len() - j,
                {
                    proof {
                        use_type_invariant(self);
                    }
                    let p = ps[j];
                    assert(self.index@[b]@.contains(p));
                    if self.entries[p].0 == *k {
                        return Some(p);
                    }
                    j = j + 1;
                }
                proof {
                    use_type_invariant(self);
                    if self.key_seq().contains(*k) {
                        let i = self.key_seq().index_of(*k);
                        assert(self.entries.len() == self.entries@.len());
                        assert(self.entries@[i].0 == *k);
                        assert(self.index@[b]@.contains(i as usize));
                        let t = choose|t: int| 0 <= t < ps@.len() && ps@[t] == i as usize;
                        assert(self.entries@[ps@[t] as int].0 != *k);
                    }
                }
                None
            },
        }
    }

    pub fn contains_key(&self, k: &ORID) -> (b: bool)
        ensures
            b == self@.contains_key(*k),
    {
        proof {
            use_type_invariant(self);
            self.lemma_domain();
        }
        match self.position(k) {
            Some(i) => {
                proof {
                    assert(self.key_seq()[i as int] == *k);
                }
                true
            },
            None => false,
        }
    }

    pub fn get(&self, k: &ORID) -> (r: Option<&V>)
        ensures
            match r {
                Some(v) => self@.contains_key(*k) && *v == self@[*k],
                None => !self@.contains_key(*k),
            },
    {
        match self.position(k) {
            Some(i) => {
                proof {
                    use_type_invariant(self);
                    self.lemma_entry_lookup(i as int);
                }
                Some(&self.entries[i].1)
            },
            None => None,
        }
    }

    /// Inserts or replaces the value under `k`; a new key goes to the end of the key order.
    pub fn insert(&mut self, k: ORID, v: V) -> (old_present: bool)
        ensures
            final(self)@ == old(self)@.insert(k, v),
            old_present == old(self)@.contains_key(k),
            old_present ==> final(self).key_seq() == old(self).key_seq(),
            !old_present ==> final(self).key_seq() == old(self).key_seq().push(k),
    {
        proof {
            use_type_invariant(&*self);
            self.lemma_unique();
        }
        let ghost old_entries = self.entries@;
        let ghost old_view = self@;
        let ghost old_keys = self.key_seq();
        match self.position(&k) {
            Some(i) => {
                let mut taken = OridMap { entries: Vec::new(), index: HashMap::new() };
                std::mem::swap(self, &mut taken);
                proof {
                    use_type_invariant(&taken);
                }
                let OridMap { entries: mut entries, index } = taken;
                entries.set(i, (k, v));
                let ghost new_entries = entries@;
                assert(new_entries.map_values(|e: (ORID, V)| e.0) =~= old_keys);
                *self = OridMap { entries, index };
                proof {
                    assert(self.key_seq() =~= old_keys);
                    assert(self@ =~= old_view.insert(k, v)) by {
                        assert forall|x: ORID| #[trigger] self@.contains_key(x) implies self@[x] == old_view.insert(k, v)[x] by {
                            let j = self.key_seq().index_of(x);
                            if x == k {
                                assert(self.key_seq()[i as int] == k);
                                assert(j == i);
                            } else {
                                assert(old_keys[j] == x);
                                assert(old_keys.index_of(x) == j);
                            }
                        }
                    }
                }
                true
            },
            None => {
                let b = bucket(&k);
                let mut taken = OridMap { entries: Vec::new(), index: HashMap::new() };
                std::mem::swap(self, &mut taken);
                proof {
                    use_type_invariant(&taken);
                }
                let ghost t_entries = taken.entries@;
                let ghost t_index = taken.index@;
                assert(t_entries == old_entries);
                let OridMap { entries: mut entries, index: mut index } = taken;
                let pos = entries.len();
                let mut ps = match index.remove(&b) {
                    Some(ps) => ps,
                    None => Vec::new(),
                };
                let ghost old_ps = ps@;
                let ghost old_index = index@;
                assert(t_index.contains_key(b) ==> old_ps == t_index[b]@);
                assert(!t_index.contains_key(b) ==> old_ps.len() == 0);
                ps.push(pos);
                index.insert(b, ps);
                entries.push((k, v));
                let ghost new_entries = entries@;
                let ghost new_index = index@;
                assert(new_entries.map_values(|e: (ORID, V)| e.0) =~= old_keys.push(k));
                proof {
                    assert forall|i2: int, j2: int|
                        0 <= i2 < j2 < new_entries.len() implies #[trigger] new_entries[i2].0 != #[trigger] new_entries[j2].0 by {
                        if j2 == pos {
                            assert(old_keys[i2] == old_entries[i2].0);
                        }
                    }
                    assert forall|i2: int| 0 <= i2 < new_entries.len() implies {
                        let bb = bucket_of(#[trigger] new_entries[i2].0);
                        &&& new_index.contains_key(bb)
                        &&& new_index[bb]@.contains(i2 as usize)
                    } by {
                        if i2 == pos {
                            assert(new_index[b]@[old_ps.len() as int] == pos);
                        } else {
                            let bb = bucket_of(old_entries[i2].0);
                            assert(t_index.contains_key(bb) && t_index[bb]@.contains(i2 as usize));
                            if bb == b {
                                let t = choose|t: int| 0 <= t < old_ps.len() && old_ps[t] == i2 as usize;
                                assert(new_index[b]@[t] == i2 as usize);
                            }
                        }
                    }
                    assert forall|bb: u64, p: usize|
                        #![trigger new_index[bb]@.contains(p)]
                        new_index.contains_key(bb) && new_index[bb]@.contains(p) implies p < new_entries.len()
                            && bucket_of(new_entries[p as int].0) == bb by {
                        if bb == b {
                            let t = choose|t: int| 0 <= t < new_index[b]@.len() && new_index[b]@[t] == p;
                            if t < old_ps.len() {
                                assert(old_ps[t] == p);
                                assert(t_index[b]@.contains(p));
                            }
                        } else {
                            assert(old_index.contains_key(bb));
                            assert(new_index[bb] == t_index[bb]);
                            assert(t_index[bb]@.contains(p));
                        }
                    }
                }
                *self = OridMap { entries, index };
                proof {
                    assert(self.key_seq() =~= old_keys.push(k));
                    assert(self@ =~= old_view.insert(k, v)) by {
                        assert forall|x: ORID| #[trigger] self@.contains_key(x) implies self@[x] == old_view.insert(k, v)[x] by {
                            let j = self.key_seq().index_of(x);
                            if x == k {
                                assert(self.key_seq()[pos as int] == k);
                                self.lemma_unique();
                                assert(j == pos);
                            } else {
                                assert(j < pos);
                                assert(old_keys[j] == x);
                                assert(old_keys.contains(x));
                                let j0 = old_keys.index_of(x);
                                assert(old_keys[j0] == x);
                                self.lemma_unique();
                                assert(self.key_seq()[j0] == x);
                                assert(j0 == j);
                            }
                        }
                        assert forall|x: ORID| old_view.insert(k, v).contains_key(x) implies #[trigger] self@.contains_key(x) by {
                            if x != k {
                                let j0 = old_keys.index_of(x);
                                assert(self.key_seq()[j0] == x);
                            } else {
                                assert(self.key_seq()[pos as int] == k);
                            }
                        }
                    }
                }
                false
            },
        }
    }


    /// Removes the entry of `k`, returning its value; the other keys keep their order.
    pub fn remove(&mut self, k: &ORID) -> (r: Option<V>)
        ensures
            final(self)@ == old(self)@.remove(*k),
            match r {
                Some(v) => old(self)@.contains_key(*k) && v == old(self)@[*k],
                None => !old(self)@.contains_key(*k),
            },
    {
        proof {
            use_type_invariant(&*self);
            self.lemma_unique();
            self.lemma_domain();
        }
        let ghost old_view = self@;
        let ghost old_keys = self.key_seq();
        match self.position(k) {
            None => {
                proof {
                    assert(old_view.remove(*k) =~= old_view);
                }
                None
            },
            Some(i) => {
                proof {
                    self.lemma_entry_lookup(i as int);
                }
                let mut taken = OridMap { entries: Vec::new(), index: HashMap::new() };
                std::mem::swap(self, &mut taken);
                proof {
                    use_type_invariant(&taken);
                }
                let OridMap { entries: mut entries, index: _ } = taken;
                let ghost e0 = entries@;
                let (_, v) = entries.remove(i);
                let ghost rest = entries@;
                let mut rebuilt: OridMap<V> = OridMap::new();
                proof {
                    assert(rebuilt@ =~= Map::<ORID, V>::empty());
                }
                let ghost all = entries@;
                for e in it: entries.into_iter()
                    invariant
                        all == it.seq(),
                        all == rest,
                        rest.len() + 1 == e0.len(),
                        forall|a: int| 0 <= a < rest.len() ==> #[trigger] rest[a] == (if a < i { e0[a] } else { e0[a + 1] }),
                        forall|a: int, b: int| 0 <= a < b < e0.len() ==> #[trigger] e0[a].0 != #[trigger] e0[b].0,
                        rebuilt.key_seq() == rest.take(it.index()).map_values(|e: (ORID, V)| e.0),
                        forall|x: ORID| #[trigger] rebuilt@.contains_key(x) <==> exists|a: int| 0 <= a < it.index() && rest[a].0 == x,
                        forall|a: int| 0 <= a < it.index() ==> #[trigger] rebuilt@[rest[a].0] == rest[a].1,
                {
                    let ghost idx = it.index();
                    let (key, val) = e;
                    proof {
                        assert(rest[idx] == (key, val));
                        if rebuilt@.contains_key(key) {
                            let a = choose|a: int| 0 <= a < idx && rest[a].0 == key;
                            let a0 = if a < i { a } else { a + 1 };
                            let b0 = if idx < i { idx } else { idx + 1 };
                            assert(e0[a0].0 == e0[b0].0);
                            assert(a0 < b0);
                        }
                    }
                    rebuilt.insert(key, val);
                    proof {
                        assert(rest.take(idx + 1).map_values(|e: (ORID, V)| e.0) =~= rest.take(idx).map_values(|e: (ORID, V)| e.0).push(key));
                        assert forall|a: int| 0 <= a < idx + 1 implies #[trigger] rebuilt@[rest[a].0] == rest[a].1 by {
                            if a < idx {
                                let a0 = if a < i { a } else { a + 1 };
                                let b0 = if idx < i { idx } else { idx + 1 };
                                assert(e0[a0].0 != e0[b0].0);
                            }
                        }
                    }
                }
                *self = rebuilt;
                proof {
                    assert forall|x: ORID| #[trigger] self@.contains_key(x) <==> old_view.remove(*k).contains_key(x) by {
                        if self@.contains_key(x) {
                            let a = choose|a: int| 0 <= a < rest.len() && rest[a].0 == x;
                            let a0 = if a < i { a } else { a + 1 };
                            assert(old_keys[a0] == x);
                            assert(old_keys.contains(x));
                            assert(a0 != i);
                            assert(e0[i as int].0 == *k);
                        }
                        if old_view.remove(*k).contains_key(x) {
                            let a0 = old_keys.index_of(x);
                            assert(old_keys[a0] == x);
                            assert(a0 != i);
                            let a = if a0 < i { a0 } else { a0 - 1 };
                            assert(rest[a].0 == x);
                        }
                    }
                    assert forall|x: ORID| #[trigger] self@.contains_key(x) implies self@[x] == old_view.remove(*k)[x] by {
                        let a = choose|a: int| 0 <= a < rest.len() && rest[a].0 == x;
                        let a0 = if a < i { a } else { a + 1 };
                        assert(e0[a0] == rest[a]);
                        old(self).lemma_entry_lookup(a0);
                    }
                    assert(self@ =~= old_view.remove(*k));
                }
                Some(v)
            },
        }
    }

    /// The keys, in the order of their first insertion.
    pub fn keys(&self) -> (ks: Vec<ORID>)
        ensures
            ks@ == self.key_seq(),
    {
        let mut ks: Vec<ORID> = Vec::new();
        let mut i: usize = 0;
        while i < self.entries.len()
            invariant
                i <= self.entries@.len(),
                ks@ == self.key_seq().subrange(0, i as int),
            decreases self.entries@.len() - i,
        {
            ks.push(self.entries[i].0);
            i = i + 1;
            assert(ks@ =~= self.key_seq().subrange(0, i as int));
        }
        assert(ks@ =~= self.key_seq());
        ks
    }

    /// The key and value of the entry at position `i` in insertion order.
    pub fn entry_at(&self, i: usize) -> (r: (&ORID, &V))
        requires
            i < self.entry_seq().len(),
        ensures
            *r.0 == self.entry_seq()[i as int].0,
            *r.1 == self.entry_seq()[i as int].1,
    {
        (&self.entries[i].0, &self.entries[i].1)
    }
}


impl<T> OridMap<Vec<T>> {
    /// Appends `item` to the list held under `k`, starting a new list when `k` is absent.
    pub fn push_to(&mut self, k: ORID, item: T)
        ensures
            final(self)@.dom() == old(self)@.dom().insert(k),
            final(self)@[k]@ == (if old(self)@.contains_key(k) { old(self)@[k]@ } else { Seq::empty() }).push(item),
            forall|x: ORID| x != k && #[trigger] old(self)@.contains_key(x) ==> final(self)@[x] == old(self)@[x],
            old(self)@.contains_key(k) ==> final(self).key_seq() == old(self).key_seq(),
            !old(self)@.contains_key(k) ==> final(self).key_seq() == old(self).key_seq().push(k),
    {
        proof {
            use_type_invariant(&*self);
            self.lemma_unique();
        }
        let ghost old_view = self@;
        let ghost old_keys = self.key_seq();
        match self.position(&k) {
            Some(i) => {
                proof {
                    self.lemma_entry_lookup(i as int);
                }
                let mut taken = OridMap { entries: Vec::new(), index: HashMap::new() };
                std::mem::swap(self, &mut taken);
                proof {
                    use_type_invariant(&taken);
                }
                let OridMap { entries: mut entries, index } = taken;
                let ghost e0 = entries@;
                entries[i].1.push(item);
                proof {
                    assert(entries@.map_values(|e: (ORID, Vec<T>)| e.0) =~= old_keys);
                }
                *self = OridMap { entries, index };
                proof {
                    assert(self.key_seq() =~= old_keys);
                    assert(self@.dom() =~= old_view.dom());
                    assert forall|x: ORID| x != k && #[trigger] old_view.contains_key(x) implies self@[x] == old_view[x] by {
                        let j = old_keys.index_of(x);
                        assert(old_keys[j] == x);
                        assert(j != i);
                    }
                    let j = old_keys.index_of(k);
                    assert(old_keys[j] == k);
                    assert(old_keys[i as int] == k);
                    assert(j == i);
                }
            },
            None => {
                let mut v: Vec<T> = Vec::new();
                v.push(item);
                self.insert(k, v);
                proof {
                    assert(self@.dom() =~= old_view.dom().insert(k));
                }
            },
        }
    }
}

impl<V: Clone> Clone for OridMap<V> {
    /// Copies the map entry by entry; the keys and their order are preserved exactly.
    fn clone(&self) -> (c: Self)
        ensures
            c.key_seq() == self.key_seq(),
            c@.dom() == self@.dom(),
            forall|k: ORID| #[trigger] c@.contains_key(k) ==> cloned::<V>(self@[k], c@[k]),
    {
        let mut c: OridMap<V> = OridMap::new();
        let mut i: usize = 0;
        proof {
            use_type_invariant(self);
            self.lemma_domain();
        }
        while i < self.entries.len()
            invariant
                self.wf(),
                i <= self.entries@.len(),
                self.key_seq().no_duplicates(),
                forall|t: int| 0 <= t < self.entries@.len() ==> #[trigger] self.key_seq()[t] == self.entries@[t].0,
                c.key_seq() == self.key_seq().subrange(0, i as int),
                forall|k: ORID| #[trigger] c@.contains_key(k) ==> cloned::<V>(self@[k], c@[k]),
            decreases self.entries@.len() - i,
        {
            let k = self.entries[i].0;
            let v = self.entries[i].1.clone();
            proof {
                self.lemma_entry_lookup(i as int);
                use_type_invariant(&c);
                c.lemma_domain();
                if c@.contains_key(k) {
                    let t = choose|t: int| 0 <= t < c.key_seq().len() && c.key_seq()[t] == k;
                    assert(self.key_seq()[t] == k);
                    assert(self.key_seq()[i as int] == k);
                }
            }
            c.insert(k, v);
            i = i + 1;
            assert(c.key_seq() =~= self.key_seq().subrange(0, i as int));
        }
        assert(c.key_seq() =~= self.key_seq());
        proof {
            use_type_invariant(&c);
            c.lemma_domain();
        }
        c
    }
}

} // verus!
