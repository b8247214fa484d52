//! Constraints over integer variables, with witnesses for satisfiable sets,
//! proofs for unsatisfiable ones and a stop record when the budget runs out.

pub mod assignment;
pub mod reference;
pub mod render;

use vstd::prelude::*;
use crate::constraints::assignment::{same_text, Assignment};
use crate::kernel::orid::ORID;

verus! {

/// A condition on named integer variables.
#[derive(Debug, PartialEq, Eq)]
pub enum Constraint {
    VarEquals(String, i64),
    VarLessThan(String, i64),
    VarGreaterThan(String, i64),
    NotEquals(String, i64),
    /// The weighted sum of the variables is at least the bound.
    LinearGe(Vec<(i64, String)>, i64),
}

/// The weighted sum of the terms under `env`.
pub open spec fn lin_sum(terms: Seq<(i64, String)>, env: Map<Seq<char>, i64>) -> int
    decreases terms.len(),
{
    if terms.len() == 0 {
        0
    } else {
        lin_sum(terms.drop_last(), env) + terms.last().0 * env[terms.last().1@]
    }
}

/// Every variable of the terms has a value in `env`.
pub open spec fn all_bound(terms: Seq<(i64, String)>, env: Map<Seq<char>, i64>) -> bool {
    forall|i: int| 0 <= i < terms.len() ==> env.contains_key(#[trigger] terms[i].1@)
}

pub open spec fn fits_i64(x: int) -> bool {
    i64::MIN <= x <= i64::MAX
}

/// Each product and each running sum of the terms, up to the first variable
/// without a value, fits in an `i64`.
pub open spec fn lin_fits(terms: Seq<(i64, String)>, env: Map<Seq<char>, i64>) -> bool {
    forall|k: int|
        0 <= k < terms.len() && all_bound(#[trigger] terms.take(k + 1), env) ==> fits_i64(
            terms[k].0 * env[terms[k].1@],
        ) && fits_i64(lin_sum(terms.take(k + 1), env))
}

impl Constraint {
    /// The names of the variables the constraint mentions.
    pub open spec fn variables(&self) -> Set<Seq<char>> {
        match self {
            Constraint::VarEquals(v, _) => set![v@],
            Constraint::VarLessThan(v, _) => set![v@],
            Constraint::VarGreaterThan(v, _) => set![v@],
            Constraint::NotEquals(v, _) => set![v@],
            Constraint::LinearGe(terms, _) => terms@.map_values(|t: (i64, String)| t.1@).to_set(),
        }
    }

    /// Whether the constraint holds under a possibly partial assignment: a
    /// constraint with a variable that has no value is not violated yet.
    pub open spec fn holds(&self, env: Map<Seq<char>, i64>) -> bool {
        match self {
            Constraint::VarEquals(v, t) => env.contains_key(v@) ==> env[v@] == *t,
            Constraint::VarLessThan(v, t) => env.contains_key(v@) ==> env[v@] < *t,
            Constraint::VarGreaterThan(v, t) => env.contains_key(v@) ==> env[v@] > *t,
            Constraint::NotEquals(v, t) => env.contains_key(v@) ==> env[v@] != *t,
            Constraint::LinearGe(terms, rhs) => all_bound(terms@, env) ==> lin_sum(terms@, env) >= *rhs,
        }
    }

    /// Evaluating the constraint under `env` stays within `i64`.
    pub open spec fn evaluable(&self, env: Map<Seq<char>, i64>) -> bool {
        match self {
            Constraint::LinearGe(terms, _) => lin_fits(terms@, env),
            _ => true,
        }
    }

    /// Adds the constraint's variables to `vars`. A list in strictly increasing
    /// byte order stays so, and gains no name twice.
    pub fn collect_variables(&self, vars: &mut Vec<String>)
        ensures
            names_of(final(vars)@).to_set() == names_of(old(vars)@).to_set().union(self.variables()),
            sorted_names(names_of(old(vars)@)) ==> sorted_names(names_of(final(vars)@)),
    {
        match self {
            Constraint::VarEquals(v, _) | Constraint::VarLessThan(v, _) | Constraint::VarGreaterThan(v, _)
            | Constraint::NotEquals(v, _) => {
                insert_name(vars, v);
                proof {
                    assert(names_of(old(vars)@).to_set().insert(v@) =~= names_of(old(vars)@).to_set().union(set![v@]));
                }
            },
            Constraint::LinearGe(terms, _) => {
                let ghost start = names_of(vars@).to_set();
                let ghost all = terms@.map_values(|t: (i64, String)| t.1@);
                let mut i: usize = 0;
                while i < terms.len()
                    invariant
                        i <= terms@.len(),
                        all == terms@.map_values(|t: (i64, String)| t.1@),
                        names_of(vars@).to_set() == start.union(all.take(i as int).to_set()),
                        sorted_names(names_of(old(vars)@)) ==> sorted_names(names_of(vars@)),
                        start == names_of(old(vars)@).to_set(),
                    decreases terms@.len() - i,
                {
                    insert_name(vars, &terms[i].1);
                    proof {
                        assert(all.take(i + 1) =~= all.take(i as int).push(terms@[i as int].1@));
                        all.take(i as int).lemma_push_to_set_commute(terms@[i as int].1@);
                        assert(start.union(all.take(i as int).to_set()).insert(terms@[i as int].1@) =~= start.union(
                            all.take(i + 1).to_set(),
                        ));
                    }
                    i = i + 1;
                }
                proof {
                    assert(all.take(i as int) =~= all);
                }
            },
        }
    }

    /// Whether the constraint holds under `env`; a variable without a value
    /// leaves the constraint satisfied.
    pub fn evaluate(&self, env: &Assignment) -> (b: bool)
        requires
            self.evaluable(env@),
        ensures
            b == self.holds(env@),
    {
        match self {
            Constraint::VarEquals(v, target) => match env.get(v.as_str()) {
                Some(val) => *val == *target,
                None => true,
            },
            Constraint::VarLessThan(v, bound) => match env.get(v.as_str()) {
                Some(val) => *val < *bound,
                None => true,
            },
            Constraint::VarGreaterThan(v, bound) => match env.get(v.as_str()) {
                Some(val) => *val > *bound,
                None => true,
            },
            Constraint::NotEquals(v, target) => match env.get(v.as_str()) {
                Some(val) => *val != *target,
                None => true,
            },
            Constraint::LinearGe(terms, rhs) => {
                let mut sum: i64 = 0;
                let mut i: usize = 0;
                let ghost verdict = self.holds(env@);
                assert(verdict == (all_bound(terms@, env@) ==> lin_sum(terms@, env@) >= *rhs));
                while i < terms.len()
                    invariant
                        verdict == self.holds(env@),
                        verdict == (all_bound(terms@, env@) ==> lin_sum(terms@, env@) >= *rhs),
                        i <= terms@.len(),
                        lin_fits(terms@, env@),
                        all_bound(terms@.take(i as int), env@),
                        sum == lin_sum(terms@.take(i as int), env@),
                    decreases terms@.len() - i,
                {
                    let coeff = terms[i].0;
                    match env.get(terms[i].1.as_str()) {
                        Some(val) => {
                            let ghost t = terms@.take(i + 1);
                            proof {
                                assert(t.drop_last() =~= terms@.take(i as int));
                                assert(all_bound(t, env@)) by {
                                    assert forall|j: int| 0 <= j < t.len() implies env@.contains_key(#[trigger] t[j].1@) by {
                                        if j < i {
                                            assert(t[j] == terms@.take(i as int)[j]);
                                        }
                                    }
                                }
                                assert(fits_i64(terms@[i as int].0 * env@[terms@[i as int].1@]));
                                assert(fits_i64(lin_sum(t, env@)));
                            }
                            sum = sum + coeff * *val;
                        },
                        None => {
                            proof {
                                assert(!env@.contains_key(terms@[i as int].1@));
                                assert(!all_bound(terms@, env@));
                            }
                            return true;
                        },
                    }
                    i = i + 1;
                }
                proof {
                    assert(terms@.take(i as int) =~= terms@);
                }
                sum >= *rhs
            },
        }
    }
}

/// The names of a list of variables, as character sequences.
pub open spec fn names_of(vars: Seq<String>) -> Seq<Seq<char>> {
    vars.map_values(|s: String| s@)
}

/// Byte strings in lexicographic order: `a` comes strictly before `b`.
pub open spec fn bytes_lt(a: Seq<u8>, b: Seq<u8>) -> bool
    decreases a.len(),
{
    if b.len() == 0 {
        false
    } else if a.len() == 0 {
        true
    } else if a[0] != b[0] {
        a[0] < b[0]
    } else {
        bytes_lt(a.drop_first(), b.drop_first())
    }
}

/// Names in the order of their UTF-8 bytes, as strings are ordered.
pub open spec fn name_lt(a: Seq<char>, b: Seq<char>) -> bool {
    bytes_lt(vstd::utf8::encode_utf8(a), vstd::utf8::encode_utf8(b))
}

/// Strictly increasing names; hence no name occurs twice.
pub open spec fn sorted_names(s: Seq<Seq<char>>) -> bool {
    forall|i: int, j: int| 0 <= i < j < s.len() ==> name_lt(#[trigger] s[i], #[trigger] s[j])
}

proof fn lemma_bytes_lt_irreflexive(a: Seq<u8>)
    ensures
        !bytes_lt(a, a),
    decreases a.len(),
{
    if a.len() > 0 {
        lemma_bytes_lt_irreflexive(a.drop_first());
    }
}

proof fn lemma_bytes_lt_trans(a: Seq<u8>, b: Seq<u8>, c: Seq<u8>)
    requires
        bytes_lt(a, b),
        bytes_lt(b, c),
    ensures
        bytes_lt(a, c),
    decreases a.len(),
{
    if a.len() > 0 && a[0] == b[0] && b[0] == c[0] {
        lemma_bytes_lt_trans(a.drop_first(), b.drop_first(), c.drop_first());
    }
}

proof fn lemma_bytes_lt_total(a: Seq<u8>, b: Seq<u8>)
    requires
        a != b,
    ensures
        bytes_lt(a, b) || bytes_lt(b, a),
    decreases a.len(),
{
    if a.len() > 0 && b.len() > 0 && a[0] == b[0] {
        if a.drop_first() == b.drop_first() {
            assert(a =~= seq![a[0]] + a.drop_first());
            assert(b =~= seq![b[0]] + b.drop_first());
        }
        lemma_bytes_lt_total(a.drop_first(), b.drop_first());
    } else if a.len() == 0 && b.len() == 0 {
        assert(a =~= b);
    }
}

/// The order of names is a strict total order.
pub proof fn lemma_name_order(a: Seq<char>, b: Seq<char>, c: Seq<char>)
    ensures
        !name_lt(a, a),
        name_lt(a, b) && name_lt(b, c) ==> name_lt(a, c),
        a != b ==> name_lt(a, b) || name_lt(b, a),
        name_lt(a, b) ==> !name_lt(b, a),
{
    let ea = vstd::utf8::encode_utf8(a);
    let eb = vstd::utf8::encode_utf8(b);
    let ec = vstd::utf8::encode_utf8(c);
    lemma_bytes_lt_irreflexive(ea);
    if name_lt(a, b) && name_lt(b, c) {
        lemma_bytes_lt_trans(ea, eb, ec);
    }
    if a != b {
        encode_utf8_decode_utf8_pair(a, b);
        lemma_bytes_lt_total(ea, eb);
    }
    if name_lt(a, b) && name_lt(b, a) {
        lemma_bytes_lt_trans(ea, eb, ea);
    }
}

proof fn encode_utf8_decode_utf8_pair(a: Seq<char>, b: Seq<char>)
    requires
        a != b,
    ensures
        vstd::utf8::encode_utf8(a) != vstd::utf8::encode_utf8(b),
{
    vstd::utf8::encode_utf8_decode_utf8(a);
    vstd::utf8::encode_utf8_decode_utf8(b);
}

/// Whether `a` comes strictly before `b` in byte order.
fn text_lt(a: &str, b: &str) -> (r: bool)
    ensures
        r == name_lt(a@, b@),
{
    let x = a.as_bytes();
    let y = b.as_bytes();
    let ghost ex = x@;
    let ghost ey = y@;
    let mut i: usize = 0;
    assert(ex.skip(0) =~= ex);
    assert(ey.skip(0) =~= ey);
    while i < x.len() && i < y.len() && x[i] == y[i]
        invariant
            i <= x@.len(),
            i <= y@.len(),
            ex == x@,
            ey == y@,
            bytes_lt(ex, ey) == bytes_lt(ex.skip(i as int), ey.skip(i as int)),
        decreases x@.len() - i,
    {
        proof {
            let sx = ex.skip(i as int);
            let sy = ey.skip(i as int);
            assert(sx.drop_first() =~= ex.skip(i + 1));
            assert(sy.drop_first() =~= ey.skip(i + 1));
        }
        i = i + 1;
    }
    if i == y.len() {
        false
    } else if i == x.len() {
        true
    } else {
        x[i] < y[i]
    }
}

/// Adds `name` to `vars` unless it is there; a sorted list stays sorted.
fn insert_name(vars: &mut Vec<String>, name: &String)
    ensures
        names_of(final(vars)@).to_set() == names_of(old(vars)@).to_set().insert(name@),
        sorted_names(names_of(old(vars)@)) ==> sorted_names(names_of(final(vars)@)),
{
    let ghost old_names = names_of(vars@);
    let mut p: usize = 0;
    while p < vars.len() && text_lt(vars[p].as_str(), name.as_str())
        invariant
            p <= vars@.len(),
            vars@ == old(vars)@,
            old_names == names_of(vars@),
            forall|j: int| 0 <= j < p ==> name_lt(#[trigger] old_names[j], name@),
        decreases vars@.len() - p,
    {
        p = p + 1;
    }
    if p < vars.len() && same_text(vars[p].as_str(), name.as_str()) {
        proof {
            assert(old_names[p as int] == name@);
            assert(old_names.to_set().insert(name@) =~= old_names.to_set());
        }
        return;
    }
    let ghost nm = name@;
    vars.insert(p, name.clone());
    proof {
        let nn = names_of(vars@);
        assert(nn =~= old_names.insert(p as int, nm));
        assert(nn.to_set() =~= old_names.to_set().insert(nm)) by {
            assert forall|x: Seq<char>| nn.to_set().contains(x) implies old_names.to_set().insert(nm).contains(x) by {
                let t = choose|t: int| 0 <= t < nn.len() && nn[t] == x;
                if t < p {
                    assert(old_names[t] == x);
                } else if t > p {
                    assert(old_names[t - 1] == x);
                }
            }
            assert forall|x: Seq<char>| old_names.to_set().insert(nm).contains(x) implies nn.to_set().contains(x) by {
                if x == nm {
                    assert(nn[p as int] == x);
                } else {
                    let t = choose|t: int| 0 <= t < old_names.len() && old_names[t] == x;
                    if t < p {
                        assert(nn[t] == x);
                    } else {
                        assert(nn[t + 1] == x);
                    }
                }
            }
        }
        if sorted_names(old_names) {
            if p < old_names.len() {
                lemma_name_order(old_names[p as int], nm, nm);
                lemma_name_order(nm, old_names[p as int], nm);
                assert(name_lt(nm, old_names[p as int]));
            }
            assert forall|i: int, j: int| 0 <= i < j < nn.len() implies name_lt(#[trigger] nn[i], #[trigger] nn[j]) by {
                if j < p {
                    assert(nn[i] == old_names[i] && nn[j] == old_names[j]);
                } else if j == p {
                    assert(nn[i] == old_names[i]);
                } else if i == p {
                    assert(nn[j] == old_names[j - 1]);
                    if j - 1 > p {
                        assert(name_lt(old_names[p as int], old_names[j - 1]));
                        lemma_name_order(nm, old_names[p as int], old_names[j - 1]);
                    }
                } else if i < p {
                    assert(nn[i] == old_names[i] && nn[j] == old_names[j - 1]);
                } else {
                    assert(nn[i] == old_names[i - 1] && nn[j] == old_names[j - 1]);
                }
            }
        }
    }
}

/// The values of a satisfying assignment and its identifier.
#[derive(Debug, PartialEq, Eq)]
pub struct Witness {
    pub assignments: Assignment,
    pub witness_id: ORID,
}

/// The constraints found unsatisfiable and the identifier of that finding.
#[derive(Debug, PartialEq, Eq)]
pub struct Proof {
    pub unsat_core: Vec<Constraint>,
    pub proof_id: ORID,
}

/// Why and after how many steps a search stopped without an answer.
#[derive(Debug, Clone, PartialEq, Eq)]
pub struct BudgetStop {
    pub reason: String,
    pub steps_taken: u64,
}

#[derive(Debug, PartialEq, Eq)]
pub enum SolveResult<W> {
    Sat(W),
    Unsat(Proof),
    Unknown(BudgetStop),
}

pub fn crate_name() -> (s: &'static str)
    ensures
        s@ == "origin-constraints"@,
{
    "origin-constraints"
}

} // verus!
