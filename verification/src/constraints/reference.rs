//! The reference solver: a depth-first search over the values -100 to 100 of
//! each variable, in byte order of the variable names, bounded by a budget of
//! steps. A search that runs out of steps reports that it stopped; it never
//! reports the constraints unsatisfiable.

use vstd::prelude::*;
use crate::constraints::assignment::{bindings_map, distinct_names, lemma_bindings_map, Assignment};
use crate::constraints::{names_of, sorted_names, lemma_name_order, BudgetStop, Constraint, Proof, SolveResult, Witness};
use crate::constraints::render::{constraints_text, push_constraints_text};
use crate::kernel::orid::{is_orid_of, ObjectKind, ORID};
use crate::kernel::text::{ascii_string, dec_digits, is_ascii_bytes, push_decimal, ascii_chars, lemma_dec_digits_ascii};

verus! {

/// The names bound, in order, to the values of a partial assignment.
pub open spec fn bind(names: Seq<Seq<char>>, p: Seq<i64>) -> Seq<(Seq<char>, i64)> {
    Seq::new(p.len(), |i: int| (names[i], p[i]))
}

/// The assignment giving the first variables the values in `p`.
pub open spec fn env_of(names: Seq<Seq<char>>, p: Seq<i64>) -> Map<Seq<char>, i64> {
    bindings_map(bind(names, p))
}

/// Every constraint holds under `env`.
pub open spec fn sat_all(cs: Seq<Constraint>, env: Map<Seq<char>, i64>) -> bool {
    forall|i: int| 0 <= i < cs.len() ==> #[trigger] cs[i].holds(env)
}

/// Every value lies in the search domain, -100 to 100.
pub open spec fn in_domain(p: Seq<i64>) -> bool {
    forall|i: int| 0 <= i < p.len() ==> -100 <= #[trigger] p[i] <= 100
}

/// Every value of the assignment lies in the search domain.
pub open spec fn domain_env(env: Map<Seq<char>, i64>) -> bool {
    forall|k: Seq<char>| #[trigger] env.contains_key(k) ==> -100 <= env[k] <= 100
}

/// Evaluating the constraints under any assignment of domain values stays within `i64`.
pub open spec fn range_safe(cs: Seq<Constraint>) -> bool {
    forall|env: Map<Seq<char>, i64>|
        #[trigger] domain_env(env) ==> forall|i: int| 0 <= i < cs.len() ==> #[trigger] cs[i].evaluable(env)
}

/// The names of all variables the constraints mention.
pub open spec fn all_variables(cs: Seq<Constraint>) -> Set<Seq<char>>
    decreases cs.len(),
{
    if cs.len() == 0 {
        Set::empty()
    } else {
        all_variables(cs.drop_last()).union(cs.last().variables())
    }
}

/// The search below the partial assignment `p`, begun after `steps` steps:
/// the complete satisfying assignment it finds, the steps it has then taken,
/// and whether it stopped for want of steps.
pub open spec fn explore(cs: Seq<Constraint>, names: Seq<Seq<char>>, p: Seq<i64>, steps: nat, budget: nat) -> (
    Option<Seq<i64>>,
    nat,
    bool,
)
    decreases names.len() - p.len(), 1int, 0int,
{
    if p.len() >= names.len() {
        if sat_all(cs, env_of(names, p)) {
            (Some(p), steps, false)
        } else {
            (None, steps, false)
        }
    } else {
        try_values(cs, names, p, -100, steps, budget)
    }
}

/// The search that gives the next variable after `p` the values from `v` to 100
/// in turn. Each value tried costs a step; a value that leaves a constraint
/// violated is not searched below.
pub open spec fn try_values(
    cs: Seq<Constraint>,
    names: Seq<Seq<char>>,
    p: Seq<i64>,
    v: int,
    steps: nat,
    budget: nat,
) -> (Option<Seq<i64>>, nat, bool)
    decreases names.len() - p.len(), 0int, 101 - v,
{
    if v > 100 || p.len() >= names.len() {
        (None, steps, false)
    } else if steps >= budget {
        (None, steps, true)
    } else {
        let q = p.push(v as i64);
        if sat_all(cs, env_of(names, q)) {
            let r = explore(cs, names, q, steps + 1, budget);
            if r.0 is Some || r.2 {
                r
            } else {
                try_values(cs, names, p, v + 1, r.1, budget)
            }
        } else {
            try_values(cs, names, p, v + 1, steps + 1, budget)
        }
    }
}

/// The eight big-endian bytes of the two's-complement form of `x`.
pub open spec fn be_bytes(x: i64) -> Seq<u8> {
    let u = x as u64;
    seq![
        (u >> 56u64) as u8,
        (u >> 48u64) as u8,
        (u >> 40u64) as u8,
        (u >> 32u64) as u8,
        (u >> 24u64) as u8,
        (u >> 16u64) as u8,
        (u >> 8u64) as u8,
        u as u8,
    ]
}

/// The bytes a witness is identified by: each name's UTF-8 bytes followed by
/// its value's big-endian bytes, in the order of the bindings.
pub open spec fn witness_bytes(ps: Seq<(Seq<char>, i64)>) -> Seq<u8>
    decreases ps.len(),
{
    if ps.len() == 0 {
        seq![]
    } else {
        witness_bytes(ps.drop_last()) + vstd::utf8::encode_utf8(ps.last().0) + be_bytes(ps.last().1)
    }
}

/// `Budget step limit exceeded (steps >= N)` for a budget of N steps.
pub open spec fn budget_reason(budget: u64) -> Seq<u8> {
    seq![66u8, 117u8, 100u8, 103u8, 101u8, 116u8, 32u8, 115u8, 116u8, 101u8, 112u8, 32u8, 108u8, 105u8, 109u8, 105u8, 116u8, 32u8,
        101u8, 120u8, 99u8, 101u8, 101u8, 100u8, 101u8, 100u8, 32u8, 40u8, 115u8, 116u8, 101u8, 112u8, 115u8, 32u8, 62u8, 61u8,
        32u8] + dec_digits(budget as nat) + seq![41u8]
}

/// Two constraints that say the same of the same variables.
pub open spec fn same_constraint(a: Constraint, b: Constraint) -> bool {
    match (a, b) {
        (Constraint::VarEquals(v, t), Constraint::VarEquals(w, s)) => v@ == w@ && t == s,
        (Constraint::VarLessThan(v, t), Constraint::VarLessThan(w, s)) => v@ == w@ && t == s,
        (Constraint::VarGreaterThan(v, t), Constraint::VarGreaterThan(w, s)) => v@ == w@ && t == s,
        (Constraint::NotEquals(v, t), Constraint::NotEquals(w, s)) => v@ == w@ && t == s,
        (Constraint::LinearGe(ts, r), Constraint::LinearGe(us, s)) => ts@ == us@ && r == s,
        _ => false,
    }
}

/// What `solve` returns for a search over `names` in this order.
pub open spec fn outcome_matches(cs: Seq<Constraint>, names: Seq<Seq<char>>, budget: u64, r: SolveResult<Witness>) -> bool {
    let o = explore(cs, names, seq![], 0, budget as nat);
    match r {
        SolveResult::Sat(w) => {
            &&& o.0 is Some
            &&& w.assignments.pairs() == bind(names, o.0->0)
            &&& is_orid_of(w.witness_id, ObjectKind::Artifact, witness_bytes(w.assignments.pairs()))
        },
        SolveResult::Unsat(pf) => {
            &&& o.0 is None
            &&& !o.2
            &&& pf.unsat_core@.len() == cs.len()
            &&& forall|i: int| 0 <= i < cs.len() ==> same_constraint(#[trigger] pf.unsat_core@[i], cs[i])
            &&& pf.proof_id.kind == ObjectKind::Artifact
            &&& is_orid_of(pf.proof_id, ObjectKind::Artifact, unsat_seed(cs))
        },
        SolveResult::Unknown(stop) => {
            &&& o.0 is None
            &&& o.2
            &&& stop.steps_taken == o.1
            &&& stop.reason@ == ascii_chars(budget_reason(budget))
        },
    }
}

/// The bytes the proof of an unsatisfiable set is identified by: `unsat_core_`
/// and the `Debug` text of the constraints.
pub open spec fn unsat_seed(cs: Seq<Constraint>) -> Seq<u8> {
    seq![117u8, 110u8, 115u8, 97u8, 116u8, 95u8, 99u8, 111u8, 114u8, 101u8, 95u8] + constraints_text(cs)
}

fn copy_constraint(c: &Constraint) -> (d: Constraint)
    ensures
        same_constraint(d, *c),
{
    match c {
        Constraint::VarEquals(v, t) => Constraint::VarEquals(v.clone(), *t),
        Constraint::VarLessThan(v, t) => Constraint::VarLessThan(v.clone(), *t),
        Constraint::VarGreaterThan(v, t) => Constraint::VarGreaterThan(v.clone(), *t),
        Constraint::NotEquals(v, t) => Constraint::NotEquals(v.clone(), *t),
        Constraint::LinearGe(terms, rhs) => {
            let mut out: Vec<(i64, String)> = Vec::new();
            let mut i: usize = 0;
            while i < terms.len()
                invariant
                    i <= terms@.len(),
                    out@ =~= terms@.take(i as int),
                decreases terms@.len() - i,
            {
                out.push((terms[i].0, terms[i].1.clone()));
                i = i + 1;
                assert(out@ =~= terms@.take(i as int));
            }
            assert(terms@.take(i as int) =~= terms@);
            Constraint::LinearGe(out, *rhs)
        },
    }
}

fn check_all(cs: &[Constraint], env: &Assignment) -> (b: bool)
    requires
        forall|i: int| 0 <= i < cs@.len() ==> #[trigger] cs@[i].evaluable(env@),
    ensures
        b == sat_all(cs@, env@),
{
    let mut i: usize = 0;
    while i < cs.len()
        invariant
            i <= cs@.len(),
            forall|j: int| 0 <= j < cs@.len() ==> #[trigger] cs@[j].evaluable(env@),
            forall|j: int| 0 <= j < i ==> #[trigger] cs@[j].holds(env@),
        decreases cs@.len() - i,
    {
        if !cs[i].evaluate(env) {
            return false;
        }
        i = i + 1;
    }
    true
}

/// The bindings of the names to a partial assignment are distinct, and map
/// into the domain when the values lie in it.
proof fn lemma_env_of(names: Seq<Seq<char>>, p: Seq<i64>)
    requires
        sorted_names(names),
        p.len() <= names.len(),
    ensures
        distinct_names(bind(names, p)),
        in_domain(p) ==> domain_env(env_of(names, p)),
{
    let b = bind(names, p);
    assert forall|i: int, j: int| 0 <= i < j < b.len() implies #[trigger] b[i].0 != #[trigger] b[j].0 by {
        lemma_name_order(names[i], names[j], names[j]);
    }
    lemma_bindings_map(b);
    if in_domain(p) {
        assert forall|k: Seq<char>| #[trigger] env_of(names, p).contains_key(k) implies -100 <= env_of(names, p)[k] <= 100 by {
            let i = choose|i: int| 0 <= i < b.len() && b[i].0 == k;
            assert(bindings_map(b).contains_key(b[i].0));
            assert(p[i] == b[i].1);
        }
    }
}

fn search(
    cs: &[Constraint],
    vars: &Vec<String>,
    env: &mut Assignment,
    steps: &mut u64,
    budget: u64,
    Ghost(p): Ghost<Seq<i64>>,
) -> (r: (Option<Assignment>, bool))
    requires
        p.len() <= vars@.len(),
        sorted_names(names_of(vars@)),
        old(env).pairs() == bind(names_of(vars@), p),
        in_domain(p),
        *old(steps) <= budget,
        range_safe(cs@),
    ensures
        ({
            let o = explore(cs@, names_of(vars@), p, *old(steps) as nat, budget as nat);
            &&& (r.0 is Some <==> o.0 is Some)
            &&& (r.0 matches Some(a) ==> a.pairs() == bind(names_of(vars@), o.0->0))
            &&& *final(steps) == o.1
            &&& r.1 == o.2
            &&& (o.0 is None && !o.2 ==> final(env).pairs() == old(env).pairs())
        }),
    decreases vars@.len() - p.len(),
{
    let ghost names = names_of(vars@);
    proof {
        lemma_env_of(names, p);
    }
    let idx = env.len();
    if idx == vars.len() {
        if check_all(cs, env) {
            return (Some(env.copy()), false);
        } else {
            return (None, false);
        }
    }
    let ghost s0 = *steps as nat;
    let name = &vars[idx];
    assert(name@ == names[idx as int]);
    let mut val: i64 = -100;
    while val <= 100
        invariant
            -100 <= val <= 101,
            idx == p.len(),
            idx < vars@.len(),
            names == names_of(vars@),
            name@ == names[idx as int],
            sorted_names(names),
            in_domain(p),
            range_safe(cs@),
            env.pairs() == bind(names, p),
            env.pairs() == old(env).pairs(),
            *steps <= budget,
            s0 == *old(steps) as nat,
            explore(cs@, names, p, s0, budget as nat) == try_values(cs@, names, p, val as int, *steps as nat, budget as nat),
        decreases 101 - val,
    {
        if *steps >= budget {
            return (None, true);
        }
        *steps = *steps + 1;
        let ghost q = p.push(val);
        proof {
            lemma_env_of(names, p);
            lemma_env_of(names, q);
            lemma_bindings_map(bind(names, p));
            if env@.contains_key(name@) {
                let i = choose|i: int| 0 <= i < bind(names, p).len() && bind(names, p)[i].0 == name@;
                lemma_name_order(names[i], names[idx as int], names[idx as int]);
            }
        }
        env.insert(name.clone(), val);
        proof {
            assert(env.pairs() =~= bind(names, q));
            assert(in_domain(q));
            assert(domain_env(env@));
        }
        if check_all(cs, env) {
            let ghost before = *steps as nat;
            proof {
                lemma_explore_budget(cs@, names, q, before, budget as nat);
            }
            let r = search(cs, vars, env, steps, budget, Ghost(q));
            if r.0.is_some() || r.1 {
                return r;
            }
        }
        env.remove(name.as_str());
        proof {
            assert(bind(names, q).drop_last() =~= bind(names, p));
        }
        val = val + 1;
    }
    (None, false)
}

/// The search takes no fewer steps than it began with and no more than its
/// budget, and it stops for want of steps only with the budget spent.
proof fn lemma_explore_budget(cs: Seq<Constraint>, names: Seq<Seq<char>>, p: Seq<i64>, steps: nat, budget: nat)
    requires
        steps <= budget,
    ensures
        ({
            let o = explore(cs, names, p, steps, budget);
            steps <= o.1 <= budget && (o.2 ==> o.1 == budget)
        }),
    decreases names.len() - p.len(), 1int, 0int,
{
    if p.len() < names.len() {
        lemma_try_values_budget(cs, names, p, -100, steps, budget);
    }
}

proof fn lemma_try_values_budget(
    cs: Seq<Constraint>,
    names: Seq<Seq<char>>,
    p: Seq<i64>,
    v: int,
    steps: nat,
    budget: nat,
)
    requires
        steps <= budget,
    ensures
        ({
            let o = try_values(cs, names, p, v, steps, budget);
            steps <= o.1 <= budget && (o.2 ==> o.1 == budget)
        }),
    decreases names.len() - p.len(), 0int, 101 - v,
{
    if v > 100 || p.len() >= names.len() {
    } else if steps >= budget {
    } else {
        let q = p.push(v as i64);
        if sat_all(cs, env_of(names, q)) {
            lemma_explore_budget(cs, names, q, steps + 1, budget);
            let r = explore(cs, names, q, steps + 1, budget);
            if !(r.0 is Some || r.2) {
                lemma_try_values_budget(cs, names, p, v + 1, r.1, budget);
            }
        } else {
            lemma_try_values_budget(cs, names, p, v + 1, steps + 1, budget);
        }
    }
}

/// A weighted sum whose variables all have values in `small` is the same
/// under any assignment that extends `small`.
proof fn lemma_lin_sum_submap(terms: Seq<(i64, String)>, small: Map<Seq<char>, i64>, big: Map<Seq<char>, i64>)
    requires
        crate::constraints::all_bound(terms, small),
        small.submap_of(big),
    ensures
        crate::constraints::all_bound(terms, big),
        crate::constraints::lin_sum(terms, small) == crate::constraints::lin_sum(terms, big),
    decreases terms.len(),
{
    if terms.len() > 0 {
        let t = terms.drop_last();
        assert(crate::constraints::all_bound(t, small)) by {
            assert forall|i: int| 0 <= i < t.len() implies small.contains_key(#[trigger] t[i].1@) by {
                assert(t[i] == terms[i]);
            }
        }
        lemma_lin_sum_submap(t, small, big);
        assert(small.contains_key(terms[terms.len() - 1].1@));
        assert forall|i: int| 0 <= i < terms.len() implies big.contains_key(#[trigger] terms[i].1@) by {
            assert(small.contains_key(terms[i].1@));
        }
    }
}

/// A constraint that holds under an assignment holds under every part of it.
proof fn lemma_holds_submap(c: Constraint, small: Map<Seq<char>, i64>, big: Map<Seq<char>, i64>)
    requires
        small.submap_of(big),
        c.holds(big),
    ensures
        c.holds(small),
{
    match c {
        Constraint::LinearGe(terms, _) => {
            if crate::constraints::all_bound(terms@, small) {
                lemma_lin_sum_submap(terms@, small, big);
            }
        },
        _ => {},
    }
}

/// The assignment of a prefix of the values is part of the assignment of all of them.
proof fn lemma_prefix_env(names: Seq<Seq<char>>, w: Seq<i64>, k: int)
    requires
        sorted_names(names),
        w.len() <= names.len(),
        0 <= k <= w.len(),
    ensures
        env_of(names, w.take(k)).submap_of(env_of(names, w)),
{
    let small = bind(names, w.take(k));
    let big = bind(names, w);
    lemma_env_of(names, w.take(k));
    lemma_env_of(names, w);
    lemma_bindings_map(small);
    lemma_bindings_map(big);
    assert forall|key: Seq<char>| #[trigger] bindings_map(small).contains_key(key) implies bindings_map(big).contains_key(key)
        && bindings_map(small)[key] == bindings_map(big)[key] by {
        let i = choose|i: int| 0 <= i < small.len() && small[i].0 == key;
        assert(small[i] == big[i]);
        assert(bindings_map(small).contains_key(small[i].0));
        assert(bindings_map(big).contains_key(big[i].0));
    }
}

/// The keys of the assignment of `w` are the first `w.len()` names.
proof fn lemma_env_keys(names: Seq<Seq<char>>, w: Seq<i64>)
    requires
        sorted_names(names),
        w.len() == names.len(),
    ensures
        env_of(names, w).dom() == names.to_set(),
        forall|i: int| 0 <= i < names.len() ==> #[trigger] env_of(names, w)[names[i]] == w[i],
{
    let b = bind(names, w);
    lemma_env_of(names, w);
    lemma_bindings_map(b);
    assert forall|key: Seq<char>| env_of(names, w).dom().contains(key) implies names.to_set().contains(key) by {
        assert(bindings_map(b).contains_key(key));
        let i = choose|i: int| 0 <= i < b.len() && b[i].0 == key;
        assert(names[i] == key);
    }
    assert forall|key: Seq<char>| names.to_set().contains(key) implies env_of(names, w).dom().contains(key) by {
        let i = choose|i: int| 0 <= i < names.len() && names[i] == key;
        assert(bindings_map(b).contains_key(b[i].0));
    }
    assert(env_of(names, w).dom() =~= names.to_set());
    assert forall|i: int| 0 <= i < names.len() implies #[trigger] env_of(names, w)[names[i]] == w[i] by {
        assert(bindings_map(b).contains_key(b[i].0));
    }
}

/// A complete assignment the search finds lies in the domain and satisfies
/// every constraint.
proof fn lemma_explore_sound(cs: Seq<Constraint>, names: Seq<Seq<char>>, p: Seq<i64>, steps: nat, budget: nat)
    requires
        p.len() <= names.len(),
        in_domain(p),
    ensures
        explore(cs, names, p, steps, budget).0 matches Some(w) ==> w.len() == names.len() && in_domain(w) && sat_all(
            cs,
            env_of(names, w),
        ),
    decreases names.len() - p.len(), 1int, 0int,
{
    if p.len() < names.len() {
        lemma_try_values_sound(cs, names, p, -100, steps, budget);
    }
}

proof fn lemma_try_values_sound(
    cs: Seq<Constraint>,
    names: Seq<Seq<char>>,
    p: Seq<i64>,
    v: int,
    steps: nat,
    budget: nat,
)
    requires
        p.len() < names.len(),
        in_domain(p),
        v >= -100,
    ensures
        try_values(cs, names, p, v, steps, budget).0 matches Some(w) ==> w.len() == names.len() && in_domain(w)
            && sat_all(cs, env_of(names, w)),
    decreases names.len() - p.len(), 0int, 101 - v,
{
    if v > 100 || steps >= budget {
    } else {
        let q = p.push(v as i64);
        assert(in_domain(q));
        if sat_all(cs, env_of(names, q)) {
            lemma_explore_sound(cs, names, q, steps + 1, budget);
            let r = explore(cs, names, q, steps + 1, budget);
            if !(r.0 is Some || r.2) {
                lemma_try_values_sound(cs, names, p, v + 1, r.1, budget);
            }
        } else {
            lemma_try_values_sound(cs, names, p, v + 1, steps + 1, budget);
        }
    }
}

/// A search below `p` that ends without an answer and without running out of
/// steps has ruled out every complete assignment of domain values that extends `p`.
proof fn lemma_explore_complete(cs: Seq<Constraint>, names: Seq<Seq<char>>, p: Seq<i64>, steps: nat, budget: nat)
    requires
        sorted_names(names),
        p.len() <= names.len(),
    ensures
        ({
            let o = explore(cs, names, p, steps, budget);
            o.0 is None && !o.2 ==> forall|w: Seq<i64>|
                w.len() == names.len() && in_domain(w) && #[trigger] w.take(p.len() as int) == p ==> !sat_all(
                    cs,
                    env_of(names, w),
                )
        }),
    decreases names.len() - p.len(), 1int, 0int,
{
    if p.len() < names.len() {
        lemma_try_values_complete(cs, names, p, -100, steps, budget);
        let o = explore(cs, names, p, steps, budget);
        if o.0 is None && !o.2 {
            assert forall|w: Seq<i64>|
                w.len() == names.len() && in_domain(w) && #[trigger] w.take(p.len() as int) == p implies !sat_all(
                cs,
                env_of(names, w),
            ) by {
                assert(w[p.len() as int] >= -100);
            }
        }
    } else if !sat_all(cs, env_of(names, p)) {
        assert forall|w: Seq<i64>|
            w.len() == names.len() && in_domain(w) && #[trigger] w.take(p.len() as int) == p implies !sat_all(
            cs,
            env_of(names, w),
        ) by {
            assert(w =~= w.take(p.len() as int));
        }
    }
}

proof fn lemma_try_values_complete(
    cs: Seq<Constraint>,
    names: Seq<Seq<char>>,
    p: Seq<i64>,
    v: int,
    steps: nat,
    budget: nat,
)
    requires
        sorted_names(names),
        p.len() < names.len(),
    ensures
        ({
            let o = try_values(cs, names, p, v, steps, budget);
            o.0 is None && !o.2 ==> forall|w: Seq<i64>|
                w.len() == names.len() && in_domain(w) && #[trigger] w.take(p.len() as int) == p && w[p.len() as int]
                    >= v ==> !sat_all(cs, env_of(names, w))
        }),
    decreases names.len() - p.len(), 0int, 101 - v,
{
    let o = try_values(cs, names, p, v, steps, budget);
    if v > 100 || steps >= budget {
    } else {
        let q = p.push(v as i64);
        let k = p.len() as int;
        if sat_all(cs, env_of(names, q)) {
            lemma_explore_complete(cs, names, q, steps + 1, budget);
            let r = explore(cs, names, q, steps + 1, budget);
            if !(r.0 is Some || r.2) {
                lemma_try_values_complete(cs, names, p, v + 1, r.1, budget);
                if o.0 is None && !o.2 {
                    assert forall|w: Seq<i64>|
                        w.len() == names.len() && in_domain(w) && #[trigger] w.take(k) == p && w[k] >= v implies !sat_all(
                        cs,
                        env_of(names, w),
                    ) by {
                        if w[k] == v {
                            assert(w.take(k + 1) =~= q);
                            assert(w.take(q.len() as int) == q);
                        }
                    }
                }
            }
        } else {
            lemma_try_values_complete(cs, names, p, v + 1, steps + 1, budget);
            if o.0 is None && !o.2 {
                assert forall|w: Seq<i64>|
                    w.len() == names.len() && in_domain(w) && #[trigger] w.take(k) == p && w[k] >= v implies !sat_all(
                    cs,
                    env_of(names, w),
                ) by {
                    if w[k] == v && sat_all(cs, env_of(names, w)) {
                        assert(w.take(k + 1) =~= q);
                        lemma_prefix_env(names, w, k + 1);
                        assert forall|i: int| 0 <= i < cs.len() implies #[trigger] cs[i].holds(env_of(names, q)) by {
                            lemma_holds_submap(cs[i], env_of(names, q), env_of(names, w));
                        }
                    }
                }
            }
        }
    }
}

fn push_be_bytes(x: i64, out: &mut Vec<u8>)
    ensures
        final(out)@ == old(out)@ + be_bytes(x),
{
    let u = x as u64;
    out.push((u >> 56u64) as u8);
    out.push((u >> 48u64) as u8);
    out.push((u >> 40u64) as u8);
    out.push((u >> 32u64) as u8);
    out.push((u >> 24u64) as u8);
    out.push((u >> 16u64) as u8);
    out.push((u >> 8u64) as u8);
    out.push(u as u8);
    assert(out@ =~= old(out)@ + be_bytes(x));
}

fn witness_id_of(a: &Assignment) -> (id: ORID)
    ensures
        is_orid_of(id, ObjectKind::Artifact, witness_bytes(a.pairs())),
{
    let mut buf: Vec<u8> = Vec::new();
    let mut i: usize = 0;
    while i < a.len()
        invariant
            i <= a.pairs().len(),
            buf@ == witness_bytes(a.pairs().take(i as int)),
        decreases a.pairs().len() - i,
    {
        let (name, value) = a.binding_at(i);
        let bytes = name.as_str().as_bytes();
        buf.extend_from_slice(bytes);
        push_be_bytes(value, &mut buf);
        proof {
            let t = a.pairs().take(i + 1);
            assert(t.drop_last() =~= a.pairs().take(i as int));
        }
        i = i + 1;
    }
    proof {
        assert(a.pairs().take(i as int) =~= a.pairs());
    }
    ORID::compute(ObjectKind::Artifact, buf.as_slice())
}

#[derive(Debug, Default, Clone)]
pub struct ReferenceSolver;

impl ReferenceSolver {
    pub fn new() -> (s: Self)
        ensures
            s == ReferenceSolver,
    {
        ReferenceSolver
    }

    /// Searches the values -100 to 100 of every variable, taking the variables
    /// in byte order of their names, and stops after `budget_steps` values tried.
    pub fn solve(&self, constraints: &[Constraint], budget_steps: u64) -> (r: SolveResult<Witness>)
        requires
            range_safe(constraints@),
        ensures
            exists|names: Seq<Seq<char>>|
                #![trigger sorted_names(names)]
                {
                    &&& sorted_names(names)
                    &&& names.to_set() == all_variables(constraints@)
                    &&& outcome_matches(constraints@, names, budget_steps, r)
                },
            r matches SolveResult::Sat(w) ==> {
                &&& w.assignments@.dom() == all_variables(constraints@)
                &&& domain_env(w.assignments@)
                &&& sat_all(constraints@, w.assignments@)
            },
            r is Unsat ==> forall|env: Map<Seq<char>, i64>|
                env.dom() == all_variables(constraints@) && domain_env(env) ==> !#[trigger] sat_all(constraints@, env),
            r matches SolveResult::Unknown(stop) ==> stop.steps_taken == budget_steps,
    {
        let mut vars: Vec<String> = Vec::new();
        let mut i: usize = 0;
        while i < constraints.len()
            invariant
                i <= constraints@.len(),
                sorted_names(names_of(vars@)),
                names_of(vars@).to_set() == all_variables(constraints@.take(i as int)),
            decreases constraints@.len() - i,
        {
            constraints[i].collect_variables(&mut vars);
            proof {
                let t = constraints@.take(i + 1);
                assert(t.drop_last() =~= constraints@.take(i as int));
            }
            i = i + 1;
        }
        proof {
            assert(constraints@.take(i as int) =~= constraints@);
        }
        let ghost names = names_of(vars@);
        let mut env = Assignment::new();
        let mut steps: u64 = 0;
        proof {
            assert(bind(names, seq![]) =~= Seq::<(Seq<char>, i64)>::empty());
        }
        let (found, exceeded) = search(constraints, &vars, &mut env, &mut steps, budget_steps, Ghost(Seq::<i64>::empty()));
        let r = match found {
            Some(a) => {
                let witness_id = witness_id_of(&a);
                SolveResult::Sat(Witness { assignments: a, witness_id })
            },
            None => {
                if exceeded {
                    let mut text: Vec<u8> = Vec::new();
                    text.extend_from_slice(
                        &[66u8, 117u8, 100u8, 103u8, 101u8, 116u8, 32u8, 115u8, 116u8, 101u8, 112u8, 32u8, 108u8, 105u8, 109u8,
                            105u8, 116u8, 32u8, 101u8, 120u8, 99u8, 101u8, 101u8, 100u8, 101u8, 100u8, 32u8, 40u8, 115u8, 116u8,
                            101u8, 112u8, 115u8, 32u8, 62u8, 61u8, 32u8],
                    );
                    push_decimal(budget_steps, &mut text);
                    text.push(41u8);
                    proof {
                        assert(text@ =~= budget_reason(budget_steps));
                        lemma_dec_digits_ascii(budget_steps as nat);
                        assert(is_ascii_bytes(text@));
                    }
                    let reason = ascii_string(text);
                    SolveResult::Unknown(BudgetStop { reason, steps_taken: steps })
                } else {
                    let mut seed: Vec<u8> = Vec::new();
                    seed.extend_from_slice(&[117u8, 110u8, 115u8, 97u8, 116u8, 95u8, 99u8, 111u8, 114u8, 101u8, 95u8]);
                    push_constraints_text(constraints, &mut seed);
                    assert(seed@ =~= unsat_seed(constraints@));
                    let proof_id = ORID::compute(ObjectKind::Artifact, seed.as_slice());
                    let mut core: Vec<Constraint> = Vec::new();
                    let mut k: usize = 0;
                    while k < constraints.len()
                        invariant
                            k <= constraints@.len(),
                            core@.len() == k,
                            forall|j: int| 0 <= j < k ==> same_constraint(#[trigger] core@[j], constraints@[j]),
                        decreases constraints@.len() - k,
                    {
                        core.push(copy_constraint(&constraints[k]));
                        k = k + 1;
                    }
                    SolveResult::Unsat(Proof { unsat_core: core, proof_id })
                }
            },
        };
        proof {
            assert(outcome_matches(constraints@, names, budget_steps, r));
            assert(sorted_names(names));
            let o = explore(constraints@, names, Seq::<i64>::empty(), 0, budget_steps as nat);
            lemma_explore_budget(constraints@, names, Seq::<i64>::empty(), 0, budget_steps as nat);
            lemma_explore_sound(constraints@, names, Seq::<i64>::empty(), 0, budget_steps as nat);
            lemma_explore_complete(constraints@, names, Seq::<i64>::empty(), 0, budget_steps as nat);
            if let Some(w) = o.0 {
                lemma_env_keys(names, w);
                lemma_env_of(names, w);
            }
            if r is Unsat {
                assert forall|env: Map<Seq<char>, i64>|
                    env.dom() == all_variables(constraints@) && domain_env(env) implies !#[trigger] sat_all(constraints@, env) by {
                    let w = Seq::new(names.len(), |i: int| env[names[i]]);
                    assert forall|i: int| 0 <= i < w.len() implies -100 <= #[trigger] w[i] <= 100 by {
                        assert(names.to_set().contains(names[i]));
                        assert(env.contains_key(names[i]));
                    }
                    lemma_env_keys(names, w);
                    assert(env_of(names, w) =~= env) by {
                        assert forall|key: Seq<char>| #[trigger] env.contains_key(key) implies env_of(names, w)[key] == env[key] by {
                            assert(names.to_set().contains(key));
                            let i = choose|i: int| 0 <= i < names.len() && names[i] == key;
                            assert(env_of(names, w)[names[i]] == w[i]);
                        }
                    }
                    assert(w.take(0) =~= Seq::<i64>::empty());
                }
            }
        }
        r
    }
}

} // verus!
