//! Equality saturation under budgets, with every applied rewrite carrying the
//! proof identifier of its rule, and extraction of a cheapest equivalent node.

use vstd::prelude::*;
use crate::egraph::{children_below, in_class, lemma_nodes_kept_same, nodes_kept, EGraph, ENode, EType, Id};
use crate::egraph::sound;
use crate::kernel::orid::ORID;

verus! {

#[derive(Debug, Clone, PartialEq, Eq)]
pub struct RewriteRule {
    pub name: String,
    pub search_op: String,
    pub search_const_child: Option<String>,
    pub replace_op: Option<String>,
    pub proof_id: ORID,
}

impl RewriteRule {
    pub fn new(
        name: &str,
        search_op: &str,
        search_const_child: Option<String>,
        replace_op: Option<String>,
        proof_id: ORID,
    ) -> (r: RewriteRule)
        ensures
            r.name@ == name@,
            r.search_op@ == search_op@,
            r.search_const_child == search_const_child,
            r.replace_op == replace_op,
            r.proof_id == proof_id,
    {
        RewriteRule { name: name.to_owned(), search_op: search_op.to_owned(), search_const_child, replace_op, proof_id }
    }
}

#[derive(Debug, Clone, PartialEq, Eq)]
pub struct AppliedRewrite {
    pub rule_name: String,
    pub proof_id: ORID,
    pub class_a: Id,
    pub class_b: Id,
}

#[derive(Debug, Clone, PartialEq, Eq)]
pub struct SaturationBudget {
    pub max_iterations: usize,
    pub max_nodes: usize,
}

impl Default for SaturationBudget {
    fn default() -> (b: Self)
        ensures
            b.max_iterations == 30,
            b.max_nodes == 100_000,
    {
        SaturationBudget { max_iterations: 30, max_nodes: 100_000 }
    }
}

#[derive(Debug, Clone, PartialEq, Eq, Structural)]
pub enum SaturationStopReason {
    Saturated,
    IterationLimit,
    NodeLimit,
}

#[derive(Debug, Clone, PartialEq, Eq)]
pub struct SaturationReport {
    pub iterations: usize,
    pub nodes_count: usize,
    pub applied_rewrites: Vec<AppliedRewrite>,
    pub stop_reason: SaturationStopReason,
}

/// A proof identifier made of zero bytes only, which no rule may carry.
pub open spec fn is_zero_hash(h: [u8; 32]) -> bool {
    forall|i: int| 0 <= i < 32 ==> h@[i] == 0
}

/// The rewrite was applied by a rule of `rules`: same name and same proof identifier.
pub open spec fn provenanced(a: AppliedRewrite, rules: Seq<RewriteRule>) -> bool {
    exists|k: int| 0 <= k < rules.len() && (#[trigger] rules[k]).name@ == a.rule_name@ && rules[k].proof_id == a.proof_id
}

/// Whether the class of `c` holds a node with operator `op`.
pub open spec fn class_has(g: EGraph, c: Id, op: Seq<char>) -> bool {
    exists|k: int|
        0 <= k < g.classes@[g.root(c as int)]@.len() && (#[trigger] g.classes@[g.root(c as int)]@[k]).op@ == op
}

/// The root of the first child, from position `k` on, whose class holds no
/// node with operator `op`.
pub open spec fn first_plain(g: EGraph, ch: Seq<Id>, op: Seq<char>, k: int) -> Option<Id>
    decreases ch.len() - k,
{
    if k < 0 || k >= ch.len() {
        None
    } else if !class_has(g, ch[k], op) {
        Some(g.root(ch[k] as int) as Id)
    } else {
        first_plain(g, ch, op, k + 1)
    }
}

/// The class that a rule merges with the class of node `n`, if `n` matches the
/// rule: its operator is the rule's, and, for a rule with a constant child, a
/// child's class holds the constant; the target is then the first child whose
/// class does not hold it, or else the first child.
pub open spec fn rule_target(g: EGraph, rule: RewriteRule, n: ENode) -> Option<Id> {
    if n.op@ != rule.search_op@ {
        None
    } else {
        match rule.search_const_child {
            Some(t) => if exists|k: int| 0 <= k < n.children@.len() && class_has(g, #[trigger] n.children@[k], t@) {
                first_plain(g, n.children@, t@, 0)
            } else {
                None
            },
            None => if n.children@.len() > 0 {
                Some(n.children@[0])
            } else {
                None
            },
        }
    }
}

/// The class of `c` in `g` holds a node with operator `op`.
pub open spec fn has_op(g: EGraph, c: int, op: Seq<char>) -> bool {
    exists|d: int, e: int|
        #![trigger g.classes@[d]@[e]]
        0 <= d < g.classes@.len() && g.root(d) == g.root(c) && 0 <= e < g.classes@[d]@.len() && g.classes@[d]@[e].op@ == op
}

/// Node `n` matches rule `rule` in `g` with target class `b`: it has the rule's
/// operator, `b` is in the class of one of its children, and, for a rule with
/// a constant child, the class of one of its children holds the constant.
pub open spec fn node_matches(g: EGraph, rule: RewriteRule, n: ENode, b: int) -> bool {
    &&& n.op@ == rule.search_op@
    &&& exists|k: int| 0 <= k < n.children@.len() && g.root(b) == g.root(#[trigger] n.children@[k] as int)
    &&& (rule.search_const_child matches Some(t) ==> exists|j: int|
        0 <= j < n.children@.len() && has_op(g, #[trigger] n.children@[j] as int, t@))
}

/// The pairs of classes that the applied rewrites joined.
pub open spec fn rewrite_pairs(s: Seq<AppliedRewrite>) -> Seq<(Id, Id)> {
    s.map_values(|a: AppliedRewrite| (a.class_a, a.class_b))
}

/// Applied rewrite `a` is justified in `g` by one of `rules`: that rule has its
/// name and proof id, and a node of the class of `a.class_a` matches it with
/// target `a.class_b`.
pub open spec fn justified(g: EGraph, rules: Seq<RewriteRule>, a: AppliedRewrite) -> bool {
    exists|r: int, n: ENode|
        #![trigger rules[r], in_class(g, a.class_a as int, n)]
        0 <= r < rules.len() && rules[r].name@ == a.rule_name@ && rules[r].proof_id == a.proof_id && in_class(
            g,
            a.class_a as int,
            n,
        ) && node_matches(g, rules[r], n, a.class_b as int)
}

/// The target that `first_plain` picks is the root of one of the children.
proof fn lemma_first_plain_child(g: EGraph, ch: Seq<Id>, op: Seq<char>, k: int)
    requires
        0 <= k,
        g.wf(),
        forall|j: int| 0 <= j < ch.len() ==> (#[trigger] ch[j]) < g.size(),
    ensures
        first_plain(g, ch, op, k) matches Some(t) ==> exists|j: int| 0 <= j < ch.len() && t as int == g.root(#[trigger] ch[j] as int),
    decreases ch.len() - k,
{
    if 0 <= k < ch.len() {
        if class_has(g, ch[k], op) {
            lemma_first_plain_child(g, ch, op, k + 1);
        } else {
            g.lemma_root(ch[k] as int);
            assert(first_plain(g, ch, op, k) == Some(g.root(ch[k] as int) as Id));
            assert(g.root(ch[k] as int) as Id as int == g.root(ch[k] as int));
        }
    }
}

/// A node with a rule target matches the rule with that target.
proof fn lemma_target_matches(g: EGraph, rule: RewriteRule, n: ENode, t: Id)
    requires
        g.wf(),
        forall|j: int| 0 <= j < n.children@.len() ==> (#[trigger] n.children@[j]) < g.size(),
        rule_target(g, rule, n) == Some(t),
    ensures
        node_matches(g, rule, n, t as int),
{
    match rule.search_const_child {
        Some(c) => {
            lemma_first_plain_child(g, n.children@, c@, 0);
            let j = choose|j: int| 0 <= j < n.children@.len() && t as int == g.root(#[trigger] n.children@[j] as int);
            g.lemma_root(n.children@[j] as int);
            assert(g.root(t as int) == g.root(n.children@[j] as int));
            let i = choose|i: int| 0 <= i < n.children@.len() && class_has(g, #[trigger] n.children@[i], c@);
            let ch = n.children@[i];
            g.lemma_root(ch as int);
            let e = choose|e: int|
                0 <= e < g.classes@[g.root(ch as int)]@.len() && (#[trigger] g.classes@[g.root(ch as int)]@[e]).op@ == c@;
            assert(g.classes@[g.root(ch as int)]@[e].op@ == c@);
            assert(has_op(g, ch as int, c@));
        },
        None => {
            assert(g.root(t as int) == g.root(n.children@[0] as int));
        },
    }
}

/// A justified rewrite stays justified in a graph that keeps the nodes and coarsens the roots.
proof fn lemma_justified_kept(g: EGraph, h: EGraph, rules: Seq<RewriteRule>, a: AppliedRewrite)
    requires
        g.wf(),
        h.wf(),
        h.size() == g.size(),
        a.class_a < g.size(),
        a.class_b < g.size(),
        justified(g, rules, a),
        nodes_kept(g, h),
        forall|x: int| 0 <= x < g.size() ==> #[trigger] h.root(x) == h.root(g.root(x)),
    ensures
        justified(h, rules, a),
{
    let (r, n) = choose|r: int, n: ENode|
        #![trigger rules[r], in_class(g, a.class_a as int, n)]
        0 <= r < rules.len() && rules[r].name@ == a.rule_name@ && rules[r].proof_id == a.proof_id && in_class(
            g,
            a.class_a as int,
            n,
        ) && node_matches(g, rules[r], n, a.class_b as int);
    let d = choose|d: int| 0 <= d < g.classes@.len() && g.root(d) == g.root(a.class_a as int) && #[trigger] g.classes@[d]@.contains(n);
    let e = choose|e: int| 0 <= e < g.classes@[d]@.len() && g.classes@[d]@[e] == n;
    assert(in_class(h, d, g.classes@[d]@[e]));
    assert(children_below(n.children@, g.size()));
    let d2 = choose|d2: int| 0 <= d2 < h.classes@.len() && h.root(d2) == h.root(d) && #[trigger] h.classes@[d2]@.contains(n);
    assert(h.root(d) == h.root(g.root(d)));
    assert(h.root(a.class_a as int) == h.root(g.root(a.class_a as int)));
    assert(in_class(h, a.class_a as int, n));
    let k = choose|k: int| 0 <= k < n.children@.len() && g.root(a.class_b as int) == g.root(#[trigger] n.children@[k] as int);
    assert(h.root(a.class_b as int) == h.root(g.root(a.class_b as int)));
    assert(h.root(n.children@[k] as int) == h.root(g.root(n.children@[k] as int)));
    assert(h.root(a.class_b as int) == h.root(n.children@[k] as int));
    if let Some(t) = rules[r].search_const_child {
        let j = choose|j: int| 0 <= j < n.children@.len() && has_op(g, #[trigger] n.children@[j] as int, t@);
        let cj = n.children@[j] as int;
        let (d3, e3) = choose|d3: int, e3: int|
            #![trigger g.classes@[d3]@[e3]]
            0 <= d3 < g.classes@.len() && g.root(d3) == g.root(cj) && 0 <= e3 < g.classes@[d3]@.len() && g.classes@[d3]@[e3].op@
                == t@;
        assert(in_class(h, d3, g.classes@[d3]@[e3]));
        let d4 = choose|d4: int|
            0 <= d4 < h.classes@.len() && h.root(d4) == h.root(d3) && #[trigger] h.classes@[d4]@.contains(g.classes@[d3]@[e3]);
        let e4 = choose|e4: int| 0 <= e4 < h.classes@[d4]@.len() && h.classes@[d4]@[e4] == g.classes@[d3]@[e3];
        assert(h.root(d3) == h.root(g.root(d3)));
        assert(h.root(cj) == h.root(g.root(cj)));
        assert(h.classes@[d4]@[e4].op@ == t@);
        assert(has_op(h, cj, t@));
    }
    assert(node_matches(h, rules[r], n, a.class_b as int));
}

/// Union `x = (rule, class, target)` is the target of the rule at a node of the class.
pub open spec fn found_at(g: EGraph, rules: Seq<RewriteRule>, x: (usize, Id, Id)) -> bool {
    exists|e: int|
        0 <= e < g.classes@[x.1 as int]@.len() && #[trigger] rule_target(g, rules[x.0 as int], g.classes@[x.1 as int]@[e]) == Some(
            x.2,
        )
}

/// Every listed union is the target of its rule at a node of its class.
pub open spec fn found_sound(g: EGraph, rules: Seq<RewriteRule>, found: Seq<(usize, Id, Id)>) -> bool {
    forall|u: int| 0 <= u < found.len() ==> found_at(g, rules, #[trigger] found[u])
}

/// Listing a rule's target at a node of a class keeps the listing sound.
proof fn lemma_found_push(g: EGraph, rules: Seq<RewriteRule>, found: Seq<(usize, Id, Id)>, r: usize, c: Id, e: int, t: Id)
    requires
        found_sound(g, rules, found),
        r < rules.len(),
        c < g.classes@.len(),
        0 <= e < g.classes@[c as int]@.len(),
        rule_target(g, rules[r as int], g.classes@[c as int]@[e]) == Some(t),
    ensures
        found_sound(g, rules, found.push((r, c, t))),
{
    let f = found.push((r, c, t));
    assert(found_at(g, rules, (r, c, t)));
    assert forall|u: int| 0 <= u < f.len() implies found_at(g, rules, #[trigger] f[u]) by {
        if u < found.len() {
            assert(f[u] == found[u]);
        }
    }
}

/// A listed union, applied under its rule's name and proof id, is justified.
proof fn lemma_found_justified(g: EGraph, rules: Seq<RewriteRule>, x: (usize, Id, Id), a: AppliedRewrite)
    requires
        g.wf(),
        found_at(g, rules, x),
        x.0 < rules.len(),
        x.1 < g.size(),
        a.rule_name@ == rules[x.0 as int].name@,
        a.proof_id == rules[x.0 as int].proof_id,
        a.class_a == x.1,
        a.class_b == x.2,
    ensures
        justified(g, rules, a),
{
    let e = choose|e: int|
        0 <= e < g.classes@[x.1 as int]@.len() && #[trigger] rule_target(g, rules[x.0 as int], g.classes@[x.1 as int]@[e]) == Some(
            x.2,
        );
    let n = g.classes@[x.1 as int]@[e];
    assert(children_below(n.children@, g.size()));
    lemma_target_matches(g, rules[x.0 as int], n, x.2);
    assert(g.classes@[x.1 as int]@.contains(n));
    assert(in_class(g, a.class_a as int, n));
    let r = x.0 as int;
    assert(rules[r].name@ == a.rule_name@);
}

/// No rule would merge anything: the target of every match of every rule, at
/// every node of every class, lies in the class of the node already, or in a
/// class of another type.
pub open spec fn saturated(g: EGraph, rules: Seq<RewriteRule>) -> bool {
    forall|r: int, c: int, e: int|
        #![trigger rule_target(g, rules[r], g.classes@[c]@[e])]
        0 <= r < rules.len() && 0 <= c < g.classes@.len() && 0 <= e < g.classes@[c]@.len() ==> match rule_target(
            g,
            rules[r],
            g.classes@[c]@[e],
        ) {
            Some(t) => g.root(c) == g.root(t as int) || g.class_types@[c] != g.class_types@[t as int],
            None => true,
        }
}

/// A first plain child is a class of the graph.
proof fn lemma_first_plain_bound(g: EGraph, ch: Seq<Id>, op: Seq<char>, k: int)
    requires
        g.wf(),
        forall|j: int| 0 <= j < ch.len() ==> (#[trigger] ch[j]) < g.size(),
    ensures
        first_plain(g, ch, op, k) matches Some(t) ==> t < g.size(),
    decreases ch.len() - k,
{
    if 0 <= k < ch.len() {
        g.lemma_root(ch[k] as int);
        lemma_first_plain_bound(g, ch, op, k + 1);
    }
}

/// The target of a rule is a class of the graph.
pub proof fn lemma_rule_target_bound(g: EGraph, rule: RewriteRule, n: ENode)
    requires
        g.wf(),
        forall|j: int| 0 <= j < n.children@.len() ==> (#[trigger] n.children@[j]) < g.size(),
    ensures
        rule_target(g, rule, n) matches Some(t) ==> t < g.size(),
{
    match rule.search_const_child {
        Some(t) => {
            lemma_first_plain_bound(g, n.children@, t@, 0);
        },
        None => {},
    }
}

/// Graphs with the same classes and the same roots find the same first plain child.
proof fn lemma_first_plain_same(g: EGraph, h: EGraph, ch: Seq<Id>, op: Seq<char>, k: int)
    requires
        h.classes == g.classes,
        forall|x: int| 0 <= x < g.size() ==> #[trigger] h.root(x) == g.root(x),
        forall|j: int| 0 <= j < ch.len() ==> (#[trigger] ch[j]) < g.size(),
    ensures
        first_plain(h, ch, op, k) == first_plain(g, ch, op, k),
    decreases ch.len() - k,
{
    if 0 <= k < ch.len() {
        assert(h.root(ch[k] as int) == g.root(ch[k] as int));
        assert(class_has(h, ch[k], op) == class_has(g, ch[k], op));
        lemma_first_plain_same(g, h, ch, op, k + 1);
    }
}

/// Graphs with the same classes and the same roots give a rule the same target.
pub proof fn lemma_rule_target_same(g: EGraph, h: EGraph, rule: RewriteRule, n: ENode)
    requires
        h.classes == g.classes,
        forall|x: int| 0 <= x < g.size() ==> #[trigger] h.root(x) == g.root(x),
        forall|j: int| 0 <= j < n.children@.len() ==> (#[trigger] n.children@[j]) < g.size(),
    ensures
        rule_target(h, rule, n) == rule_target(g, rule, n),
{
    match rule.search_const_child {
        Some(t) => {
            assert forall|k: int| 0 <= k < n.children@.len() implies class_has(h, #[trigger] n.children@[k], t@)
                == class_has(g, n.children@[k], t@) by {
                assert(h.root(n.children@[k] as int) == g.root(n.children@[k] as int));
            }
            lemma_first_plain_same(g, h, n.children@, t@, 0);
        },
        None => {},
    }
}

/// Every match of a rule before `ri`, of rule `ri` at a class before `c0`, or
/// of rule `ri` at class `c0` at a node before `e0`, is listed in `found` as
/// rule, class and target.
pub open spec fn matches_listed(
    g: EGraph,
    rules: Seq<RewriteRule>,
    found: Seq<(usize, Id, Id)>,
    ri: int,
    c0: int,
    e0: int,
) -> bool {
    forall|r: int, c: int, e: int|
        #![trigger rule_target(g, rules[r], g.classes@[c]@[e])]
        0 <= r < rules.len() && 0 <= c < g.classes@.len() && 0 <= e < g.classes@[c]@.len() && (r < ri || (r == ri && (c
            < c0 || (c == c0 && e < e0)))) ==> (rule_target(g, rules[r], g.classes@[c]@[e]) matches Some(t) ==> exists|u: int|
            0 <= u < found.len() && #[trigger] found[u] == (r as usize, c as Id, t))
}

/// Listing the match of rule `ri` at node `e0` of class `c0` moves the listing on by one node.
proof fn lemma_listed_node(
    g: EGraph,
    rules: Seq<RewriteRule>,
    found: Seq<(usize, Id, Id)>,
    found2: Seq<(usize, Id, Id)>,
    ri: int,
    c0: int,
    e0: int,
)
    requires
        matches_listed(g, rules, found, ri, c0, e0),
        0 <= ri < rules.len(),
        0 <= c0 < g.classes@.len(),
        0 <= e0 < g.classes@[c0]@.len(),
        found2 == (match rule_target(g, rules[ri], g.classes@[c0]@[e0]) {
            Some(t) => found.push((ri as usize, c0 as Id, t)),
            None => found,
        }),
    ensures
        matches_listed(g, rules, found2, ri, c0, e0 + 1),
{
    assert forall|r: int, c: int, e: int|
        0 <= r < rules.len() && 0 <= c < g.classes@.len() && 0 <= e < g.classes@[c]@.len() && (r < ri || (r == ri && (c
            < c0 || (c == c0 && e < e0 + 1)))) implies (#[trigger] rule_target(g, rules[r], g.classes@[c]@[e]) matches Some(
        t,
    ) ==> exists|u: int| 0 <= u < found2.len() && #[trigger] found2[u] == (r as usize, c as Id, t)) by {
        if r == ri && c == c0 && e == e0 {
            if let Some(t) = rule_target(g, rules[r], g.classes@[c]@[e]) {
                assert(found2[found.len() as int] == (r as usize, c as Id, t));
            }
        } else {
            if let Some(t) = rule_target(g, rules[r], g.classes@[c]@[e]) {
                let u = choose|u: int| 0 <= u < found.len() && #[trigger] found[u] == (r as usize, c as Id, t);
                assert(found2[u] == found[u]);
            }
        }
    }
}

/// Past the last node of class `c0`, the listing moves on to the next class.
proof fn lemma_listed_class(g: EGraph, rules: Seq<RewriteRule>, found: Seq<(usize, Id, Id)>, ri: int, c0: int)
    requires
        0 <= c0 < g.classes@.len(),
        matches_listed(g, rules, found, ri, c0, g.classes@[c0]@.len() as int),
    ensures
        matches_listed(g, rules, found, ri, c0 + 1, 0),
{
}

/// Past the last class, the listing moves on to the next rule.
proof fn lemma_listed_rule(g: EGraph, rules: Seq<RewriteRule>, found: Seq<(usize, Id, Id)>, ri: int)
    requires
        matches_listed(g, rules, found, ri, g.classes@.len() as int, 0),
    ensures
        matches_listed(g, rules, found, ri + 1, 0, 0),
{
}

/// A graph is saturated when every listed match already lies in the class of
/// its target, or in a class of another type, and the classes and roots are
/// those the matches were found in.
proof fn lemma_saturated_from(g: EGraph, h: EGraph, rules: Seq<RewriteRule>, found: Seq<(usize, Id, Id)>)
    requires
        g.wf(),
        matches_listed(g, rules, found, rules.len() as int, 0, 0),
        forall|u: int|
            0 <= u < found.len() ==> g.root((#[trigger] found[u]).1 as int) == g.root(found[u].2 as int)
                || g.class_types@[found[u].1 as int] != g.class_types@[found[u].2 as int],
        h.classes == g.classes,
        h.class_types == g.class_types,
        h.size() == g.size(),
        forall|x: int| 0 <= x < g.size() ==> #[trigger] h.root(x) == g.root(x),
    ensures
        saturated(h, rules),
{
    assert forall|r: int, c: int, e: int|
        #![trigger rule_target(h, rules[r], h.classes@[c]@[e])]
        0 <= r < rules.len() && 0 <= c < h.classes@.len() && 0 <= e < h.classes@[c]@.len() implies match rule_target(
            h,
            rules[r],
            h.classes@[c]@[e],
        ) {
            Some(t) => h.root(c) == h.root(t as int) || h.class_types@[c] != h.class_types@[t as int],
            None => true,
        } by {
        let n = g.classes@[c]@[e];
        assert(children_below(n.children@, g.size()));
        assert forall|j: int| 0 <= j < n.children@.len() implies (#[trigger] n.children@[j]) < g.size() by {}
        lemma_rule_target_same(g, h, rules[r], n);
        lemma_rule_target_bound(g, rules[r], n);
        if let Some(t) = rule_target(g, rules[r], n) {
            assert(rule_target(g, rules[r], g.classes@[c]@[e]) == Some(t));
            let u = choose|u: int| 0 <= u < found.len() && #[trigger] found[u] == (r as usize, c as Id, t);
            assert(found[u].1 as int == c);
            assert(h.root(c) == g.root(c));
            assert(h.root(t as int) == g.root(t as int));
        }
    }
}

/// Whether the class of `c` holds a node with operator `op`.
fn class_has_op(egraph: &EGraph, c: Id, op: &String) -> (b: bool)
    requires
        egraph.wf(),
        c < egraph.size(),
    ensures
        b == class_has(*egraph, c, op@),
{
    let r = egraph.find_immutable(c);
    proof {
        egraph.lemma_root(c as int);
    }
    let cls = &egraph.classes[r as usize];
    let mut k: usize = 0;
    while k < cls.len()
        invariant
            k <= cls@.len(),
            *cls == egraph.classes@[egraph.root(c as int)],
            forall|j: int| 0 <= j < k ==> (#[trigger] cls@[j]).op@ != op@,
        decreases cls@.len() - k,
    {
        if cls[k].op == *op {
            proof {
                assert(egraph.classes@[egraph.root(c as int)]@[k as int].op@ == op@);
            }
            return true;
        }
        k = k + 1;
    }
    false
}

/// The class a rule merges with the class of a matched node.
fn match_target(egraph: &EGraph, rule: &RewriteRule, enode: &ENode) -> (t: Option<Id>)
    requires
        egraph.wf(),
        forall|k: int| 0 <= k < enode.children@.len() ==> (#[trigger] enode.children@[k]) < egraph.size(),
    ensures
        t == rule_target(*egraph, *rule, *enode),
        t matches Some(c) ==> c < egraph.size(),
{
    if enode.op != rule.search_op {
        return None;
    }
    match &rule.search_const_child {
        Some(target_const) => {
            let mut found_const = false;
            let mut k: usize = 0;
            while k < enode.children.len()
                invariant
                    egraph.wf(),
                    k <= enode.children@.len(),
                    forall|j: int| 0 <= j < enode.children@.len() ==> (#[trigger] enode.children@[j]) < egraph.size(),
                    found_const == exists|j: int| 0 <= j < k && class_has(*egraph, #[trigger] enode.children@[j], target_const@),
                decreases enode.children@.len() - k,
            {
                if class_has_op(egraph, enode.children[k], target_const) {
                    found_const = true;
                }
                k = k + 1;
            }
            if !found_const {
                return None;
            }
            let mut k: usize = 0;
            while k < enode.children.len()
                invariant
                    egraph.wf(),
                    k <= enode.children@.len(),
                    forall|j: int| 0 <= j < enode.children@.len() ==> (#[trigger] enode.children@[j]) < egraph.size(),
                    first_plain(*egraph, enode.children@, target_const@, 0) == first_plain(
                        *egraph,
                        enode.children@,
                        target_const@,
                        k as int,
                    ),
                    enode.op@ == rule.search_op@,
                    rule.search_const_child == Some(*target_const),
                    exists|j: int| 0 <= j < enode.children@.len() && class_has(*egraph, #[trigger] enode.children@[j], target_const@),
                decreases enode.children@.len() - k,
            {
                let c = enode.children[k];
                if !class_has_op(egraph, c, target_const) {
                    proof {
                        egraph.lemma_root(c as int);
                    }
                    return Some(egraph.find_immutable(c));
                }
                k = k + 1;
            }
            None
        },
        None => {
            if enode.children.len() > 0 {
                Some(enode.children[0])
            } else {
                None
            }
        },
    }
}

#[derive(Debug, Clone, Default)]
pub struct EqualitySaturator;

impl EqualitySaturator {
    pub fn new() -> (s: EqualitySaturator) {
        EqualitySaturator
    }

    /// Applies the rules round after round: each round matches every rule
    /// against every node, requests the unions found, and rebuilds. It stops
    /// when a round merges nothing, when the graph holds `max_nodes` nodes, or
    /// after `max_iterations` rounds. When every recorded entry of the graph
    /// stands for a listed node, two ids end in one class only when the least
    /// congruence generated by the classes, the pending unions and the pairs
    /// of the applied rewrites relates them.
    #[verifier::rlimit(60)]
    #[verifier::spinoff_prover]
    pub fn saturate(&self, egraph: &mut EGraph, rules: &[RewriteRule], budget: &SaturationBudget) -> (report:
        SaturationReport)
        requires
            old(egraph).wf(),
            budget.max_iterations > 0 && old(egraph).memo@.len() < budget.max_nodes ==> forall|k: int|
                0 <= k < rules@.len() ==> !is_zero_hash(#[trigger] rules@[k].proof_id.hash),
        ensures
            final(egraph).wf(),
            final(egraph).size() == old(egraph).size(),
            forall|x: int| 0 <= x < old(egraph).size() ==> #[trigger] final(egraph).root(x) == final(egraph).root(
                old(egraph).root(x),
            ),
            report.iterations <= budget.max_iterations,
            report.stop_reason == SaturationStopReason::IterationLimit <==> report.iterations == budget.max_iterations,
            report.stop_reason == SaturationStopReason::NodeLimit ==> report.nodes_count >= budget.max_nodes,
            report.nodes_count == final(egraph).memo@.len(),
            report.applied_rewrites@.len() >= report.iterations,
            forall|i: int|
                0 <= i < report.applied_rewrites@.len() ==> justified(*final(egraph), rules@, #[trigger] report.applied_rewrites@[i]),
            report.stop_reason == SaturationStopReason::Saturated && report.iterations == 0 ==> saturated(*old(egraph), rules@),
            forall|i: int|
                0 <= i < report.applied_rewrites@.len() ==> {
                    let a = #[trigger] report.applied_rewrites@[i];
                    &&& provenanced(a, rules@)
                    &&& !is_zero_hash(a.proof_id.hash)
                    &&& a.class_a < final(egraph).size()
                    &&& a.class_b < final(egraph).size()
                    &&& final(egraph).root(a.class_a as int) == final(egraph).root(a.class_b as int)
                },
            old(egraph).closed() ==> final(egraph).closed(),
            old(egraph).closed() && old(egraph).pending().len() == 0 ==> final(egraph).congruent(),
            report.stop_reason == SaturationStopReason::Saturated && (old(egraph).pending().len() == 0 || report.iterations
                > 0) ==> saturated(*final(egraph), rules@),
            old(egraph).closed() ==> forall|n: (Seq<char>, Seq<u32>, EType), cls: Id|
                #![trigger final(egraph).good(n, cls)]
                children_below(n.1, old(egraph).size()) && old(egraph).good(n, cls) ==> final(egraph).good(n, cls),
            sound::entries_sound(*old(egraph)) ==> sound::merges_sound_with(
                *old(egraph),
                rewrite_pairs(report.applied_rewrites@),
                *final(egraph),
            ),
    {
        let ghost g0 = *egraph;
        let ghost sound0 = sound::entries_sound(g0);
        proof {
            sound::lemma_start(g0);
            sound::lemma_with_start(g0);
            assert(rewrite_pairs(Seq::<AppliedRewrite>::empty()) =~= Seq::<(Id, Id)>::empty());
        }
        let mut iterations: usize = 0;
        let mut applied_rewrites: Vec<AppliedRewrite> = Vec::new();
        let mut stop_reason = SaturationStopReason::Saturated;
        proof {
            assert forall|x: int| 0 <= x < g0.size() implies #[trigger] egraph.root(x) == egraph.root(g0.root(x)) by {
                g0.lemma_root(x);
            }
        }
        while iterations < budget.max_iterations
            invariant_except_break
                stop_reason == SaturationStopReason::Saturated,
                iterations == 0 ==> egraph.memo@.len() == g0.memo@.len(),
                iterations == 0 ==> *egraph == g0,
            invariant
                egraph.wf(),
                g0.wf(),
                egraph.size() == g0.size(),
                iterations <= budget.max_iterations,
                applied_rewrites@.len() >= iterations,
                g0.closed() ==> egraph.closed(),
                forall|i: int| 0 <= i < applied_rewrites@.len() ==> justified(*egraph, rules@, #[trigger] applied_rewrites@[i]),
                g0.pending().len() == 0 || iterations > 0 ==> egraph.pending().len() == 0,
                g0.closed() ==> forall|n: (Seq<char>, Seq<u32>, EType), cls: Id|
                    #![trigger egraph.good(n, cls)]
                    children_below(n.1, g0.size()) && g0.good(n, cls) ==> egraph.good(n, cls),
                iterations > 0 ==> forall|k: int| 0 <= k < rules@.len() ==> !is_zero_hash(#[trigger] rules@[k].proof_id.hash),
                budget.max_iterations > 0 && g0.memo@.len() < budget.max_nodes ==> forall|k: int|
                    0 <= k < rules@.len() ==> !is_zero_hash(#[trigger] rules@[k].proof_id.hash),
                forall|x: int| 0 <= x < g0.size() ==> #[trigger] egraph.root(x) == egraph.root(g0.root(x)),
                forall|i: int|
                    0 <= i < applied_rewrites@.len() ==> {
                        let a = #[trigger] applied_rewrites@[i];
                        &&& provenanced(a, rules@)
                        &&& !is_zero_hash(a.proof_id.hash)
                        &&& a.class_a < egraph.size()
                        &&& a.class_b < egraph.size()
                        &&& egraph.root(a.class_a as int) == egraph.root(a.class_b as int)
                    },
                sound0 == sound::entries_sound(g0),
                sound::nodes_from(g0, *egraph),
                sound0 ==> sound::entries_sound(*egraph),
                sound0 ==> sound::merges_sound_with(g0, rewrite_pairs(applied_rewrites@), *egraph),
                sound0 ==> sound::pending_related_with(g0, rewrite_pairs(applied_rewrites@), *egraph),
            ensures
                sound0 ==> sound::merges_sound_with(g0, rewrite_pairs(applied_rewrites@), *egraph),
                iterations <= budget.max_iterations,
                applied_rewrites@.len() >= iterations,
                forall|i: int| 0 <= i < applied_rewrites@.len() ==> justified(*egraph, rules@, #[trigger] applied_rewrites@[i]),
                stop_reason == SaturationStopReason::Saturated && iterations == 0 && iterations < budget.max_iterations ==> saturated(
                    g0,
                    rules@,
                ),
                stop_reason == SaturationStopReason::NodeLimit ==> egraph.memo@.len() >= budget.max_nodes,
                stop_reason == SaturationStopReason::Saturated && iterations < budget.max_iterations && (g0.pending().len()
                    == 0 || iterations > 0) ==> saturated(*egraph, rules@),
                stop_reason != SaturationStopReason::IterationLimit,
                egraph.wf(),
                egraph.size() == g0.size(),
                g0.closed() ==> egraph.closed(),
                g0.pending().len() == 0 || iterations > 0 ==> egraph.pending().len() == 0,
                g0.closed() ==> forall|n: (Seq<char>, Seq<u32>, EType), cls: Id|
                    #![trigger egraph.good(n, cls)]
                    children_below(n.1, g0.size()) && g0.good(n, cls) ==> egraph.good(n, cls),
                forall|x: int| 0 <= x < g0.size() ==> #[trigger] egraph.root(x) == egraph.root(g0.root(x)),
                forall|i: int|
                    0 <= i < applied_rewrites@.len() ==> {
                        let a = #[trigger] applied_rewrites@[i];
                        &&& provenanced(a, rules@)
                        &&& !is_zero_hash(a.proof_id.hash)
                        &&& a.class_a < egraph.size()
                        &&& a.class_b < egraph.size()
                        &&& egraph.root(a.class_a as int) == egraph.root(a.class_b as int)
                    },
            decreases budget.max_iterations - iterations,
        {
            if egraph.memo.len() >= budget.max_nodes {
                stop_reason = SaturationStopReason::NodeLimit;
                break;
            }
            proof {
                assert(forall|k: int| 0 <= k < rules@.len() ==> !is_zero_hash(#[trigger] rules@[k].proof_id.hash));
            }
            let mut iteration_unions: Vec<(usize, Id, Id)> = Vec::new();
            let mut ri: usize = 0;
            while ri < rules.len()
                invariant
                    egraph.wf(),
                    ri <= rules@.len(),
                    matches_listed(*egraph, rules@, iteration_unions@, ri as int, 0, 0),
                    found_sound(*egraph, rules@, iteration_unions@),
                    forall|t: int|
                        0 <= t < iteration_unions@.len() ==> (#[trigger] iteration_unions@[t]).0 < rules@.len()
                            && iteration_unions@[t].1 < egraph.size() && iteration_unions@[t].2 < egraph.size(),
                decreases rules@.len() - ri,
            {
                let rule = &rules[ri];
                let mut class_id: usize = 0;
                while class_id < egraph.classes.len()
                    invariant
                        egraph.wf(),
                        ri < rules@.len(),
                        *rule == rules@[ri as int],
                        class_id <= egraph.classes@.len(),
                        matches_listed(*egraph, rules@, iteration_unions@, ri as int, class_id as int, 0),
                        found_sound(*egraph, rules@, iteration_unions@),
                        forall|t: int|
                            0 <= t < iteration_unions@.len() ==> (#[trigger] iteration_unions@[t]).0 < rules@.len()
                                && iteration_unions@[t].1 < egraph.size() && iteration_unions@[t].2 < egraph.size(),
                    decreases egraph.classes@.len() - class_id,
                {
                    let class_enodes = &egraph.classes[class_id];
                    let mut e: usize = 0;
                    while e < class_enodes.len()
                        invariant
                            egraph.wf(),
                            ri < rules@.len(),
                            class_id < egraph.classes@.len(),
                            *class_enodes == egraph.classes@[class_id as int],
                            e <= class_enodes@.len(),
                            *rule == rules@[ri as int],
                            matches_listed(*egraph, rules@, iteration_unions@, ri as int, class_id as int, e as int),
                            found_sound(*egraph, rules@, iteration_unions@),
                            forall|t: int|
                                0 <= t < iteration_unions@.len() ==> (#[trigger] iteration_unions@[t]).0 < rules@.len()
                                    && iteration_unions@[t].1 < egraph.size() && iteration_unions@[t].2 < egraph.size(),
                        decreases class_enodes@.len() - e,
                    {
                        let enode = &class_enodes[e];
                        proof {
                            assert(enode == egraph.classes@[class_id as int]@[e as int]);
                        }
                        let ghost found0 = iteration_unions@;
                        match match_target(egraph, rule, enode) {
                            Some(target_child) => {
                                iteration_unions.push((ri, class_id as Id, target_child));
                                proof {
                                    lemma_found_push(*egraph, rules@, found0, ri, class_id as Id, e as int, target_child);
                                }
                            },
                            None => {
                                assert(iteration_unions@ == found0);
                                assert(found_sound(*egraph, rules@, iteration_unions@));
                            },
                        }
                        proof {
                            lemma_listed_node(
                                *egraph,
                                rules@,
                                found0,
                                iteration_unions@,
                                ri as int,
                                class_id as int,
                                e as int,
                            );
                        }
                        e = e + 1;
                    }
                    proof {
                        lemma_listed_class(*egraph, rules@, iteration_unions@, ri as int, class_id as int);
                    }
                    class_id = class_id + 1;
                }
                proof {
                    lemma_listed_rule(*egraph, rules@, iteration_unions@, ri as int);
                }
                ri = ri + 1;
            }
            if iteration_unions.len() == 0 {
                stop_reason = SaturationStopReason::Saturated;
                proof {
                    lemma_saturated_from(*egraph, *egraph, rules@, iteration_unions@);
                }
                break;
            }
            let ghost before_unions = *egraph;
            let ghost applied0 = applied_rewrites@;
            let mut merged_any = false;
            let mut u: usize = 0;
            while u < iteration_unions.len()
                invariant
                    egraph.wf(),
                    g0.wf(),
                    egraph.size() == g0.size(),
                    g0.closed() ==> egraph.closed(),
                    g0.closed() ==> forall|n: (Seq<char>, Seq<u32>, EType), cls: Id|
                        #![trigger egraph.good(n, cls)]
                        children_below(n.1, g0.size()) && g0.good(n, cls) ==> egraph.good(n, cls),
                    u <= iteration_unions@.len(),
                    before_unions.wf(),
                    egraph.classes == before_unions.classes,
                    egraph.class_types == before_unions.class_types,
                    before_unions.size() == g0.size(),
                    forall|x: int| 0 <= x < g0.size() ==> #[trigger] egraph.root(x) == before_unions.root(x),
                    !merged_any ==> egraph.pending() == before_unions.pending(),
                    !merged_any ==> forall|v: int|
                        0 <= v < u ==> before_unions.root((#[trigger] iteration_unions@[v]).1 as int) == before_unions.root(
                            iteration_unions@[v].2 as int,
                        ) || before_unions.class_types@[iteration_unions@[v].1 as int]
                            != before_unions.class_types@[iteration_unions@[v].2 as int],
                    matches_listed(before_unions, rules@, iteration_unions@, rules@.len() as int, 0, 0),
                    (g0.pending().len() == 0 || iterations > 0) ==> before_unions.pending().len() == 0,
                    forall|t: int|
                        0 <= t < iteration_unions@.len() ==> (#[trigger] iteration_unions@[t]).0 < rules@.len()
                            && iteration_unions@[t].1 < egraph.size() && iteration_unions@[t].2 < egraph.size(),
                    forall|k: int| 0 <= k < rules@.len() ==> !is_zero_hash(#[trigger] rules@[k].proof_id.hash),
                    forall|x: int| 0 <= x < g0.size() ==> #[trigger] egraph.root(x) == egraph.root(g0.root(x)),
                    applied_rewrites@.len() >= applied0.len(),
                    found_sound(before_unions, rules@, iteration_unions@),
                    forall|i: int| 0 <= i < applied_rewrites@.len() ==> justified(before_unions, rules@, #[trigger] applied_rewrites@[i]),
                    merged_any ==> applied_rewrites@.len() > applied0.len(),
                    applied0.len() >= iterations,
                    forall|i: int|
                        0 <= i < applied_rewrites@.len() ==> {
                            let a = #[trigger] applied_rewrites@[i];
                            &&& provenanced(a, rules@)
                            &&& !is_zero_hash(a.proof_id.hash)
                            &&& a.class_a < egraph.size()
                            &&& a.class_b < egraph.size()
                            &&& (i < applied0.len() ==> egraph.root(a.class_a as int) == egraph.root(a.class_b as int))
                            &&& (i >= applied0.len() ==> egraph.root(a.class_a as int) == egraph.root(a.class_b as int)
                                || egraph.pending().contains((egraph.root(a.class_a as int) as Id, egraph.root(a.class_b as int) as Id)))
                        },
                    sound0 == sound::entries_sound(g0),
                    sound::nodes_from(g0, *egraph),
                    sound0 ==> sound::entries_sound(*egraph),
                    sound0 ==> sound::merges_sound_with(g0, rewrite_pairs(applied_rewrites@), *egraph),
                    sound0 ==> sound::pending_related_with(g0, rewrite_pairs(applied_rewrites@), *egraph),
                decreases iteration_unions@.len() - u,
            {
                let (rule_index, class_a, class_b) = iteration_unions[u];
                let ghost before = *egraph;
                let ghost ap_before = applied_rewrites@;
                let res = egraph.union_typed(class_a, class_b);
                proof {
                    assert forall|x: int| 0 <= x < g0.size() implies #[trigger] egraph.root(x) == egraph.root(g0.root(x)) by {
                        g0.lemma_root(x);
                        assert(egraph.root(g0.root(x)) == before.root(g0.root(x)));
                    }
                    assert forall|p: (Id, Id)| before.pending().contains(p) implies #[trigger] egraph.pending().contains(p) by {
                        let t = choose|t: int| 0 <= t < before.pending().len() && before.pending()[t] == p;
                        assert(egraph.pending()[t] == p);
                    }
                }
                match res {
                    Ok(merged) => {
                        if merged {
                            merged_any = true;
                            let rule = &rules[rule_index];
                            applied_rewrites.push(
                                AppliedRewrite { rule_name: rule.name.clone(), proof_id: rule.proof_id, class_a, class_b },
                            );
                            proof {
                                let a = applied_rewrites@[applied_rewrites@.len() - 1];
                                assert(rules@[rule_index as int].name@ == a.rule_name@);
                                assert(provenanced(a, rules@));
                                assert(iteration_unions@[u as int] == (rule_index, class_a, class_b));
                                lemma_found_justified(before_unions, rules@, iteration_unions@[u as int], a);
                                before.lemma_root(class_a as int);
                                before.lemma_root(class_b as int);
                                assert(egraph.pending()[egraph.pending().len() - 1] == (
                                    egraph.root(a.class_a as int) as Id,
                                    egraph.root(a.class_b as int) as Id,
                                ));
                            }
                        }
                    },
                    Err(_) => {},
                }
                proof {
                    assert forall|i: int| 0 <= i < ap_before.len() implies #[trigger] applied_rewrites@[i] == ap_before[i] by {}
                    assert forall|x: int| 0 <= x < g0.size() implies #[trigger] egraph.root(x) == before_unions.root(x) by {
                        assert(egraph.root(x) == before.root(x));
                    }
                    assert forall|x: int| 0 <= x < before.size() implies #[trigger] egraph.root(x) == before.root(x) by {}
                    sound::lemma_shape_same(g0, before, *egraph);
                    if sound0 {
                        let ex = rewrite_pairs(ap_before);
                        if applied_rewrites@.len() > ap_before.len() {
                            let p = (class_a, class_b);
                            assert(rewrite_pairs(applied_rewrites@) =~= ex.push(p)) by {
                                assert(applied_rewrites@ =~= ap_before.push(applied_rewrites@.last()));
                            }
                            sound::lemma_with_union(g0, ex, p, before, *egraph);
                        } else {
                            assert(applied_rewrites@ =~= ap_before);
                            sound::lemma_with_same(g0, ex, before, *egraph);
                        }
                    }
                    if !merged_any {
                        assert(iteration_unions@[u as int] == (rule_index, class_a, class_b));
                        assert(before.root(class_a as int) == before_unions.root(class_a as int));
                        assert(before.root(class_b as int) == before_unions.root(class_b as int));
                    }
                }
                u = u + 1;
            }
            let ghost pre_rebuild = *egraph;
            let ghost ap_now = applied_rewrites@;
            egraph.rebuild();
            proof {
                if sound0 {
                    sound::lemma_with_compose(g0, rewrite_pairs(applied_rewrites@), pre_rebuild, *egraph);
                    sound::lemma_with_none_pending(g0, rewrite_pairs(applied_rewrites@), *egraph);
                }
                assert forall|x: int| 0 <= x < pre_rebuild.size() implies #[trigger] egraph.root(x) == egraph.root(
                    pre_rebuild.root(x),
                ) by {}
                sound::lemma_nodes_from_trans(g0, pre_rebuild, *egraph);
                assert(nodes_kept(before_unions, *egraph)) by {
                    assert(pre_rebuild.classes == before_unions.classes);
                }
                assert forall|x: int| 0 <= x < before_unions.size() implies #[trigger] egraph.root(x) == egraph.root(
                    before_unions.root(x),
                ) by {
                    before_unions.lemma_root(x);
                    assert(egraph.root(x) == egraph.root(pre_rebuild.root(x)));
                    assert(pre_rebuild.root(x) == before_unions.root(x));
                    assert(egraph.root(before_unions.root(x)) == egraph.root(pre_rebuild.root(before_unions.root(x))));
                    assert(pre_rebuild.root(before_unions.root(x)) == before_unions.root(before_unions.root(x)));
                }
                assert forall|i: int| 0 <= i < applied_rewrites@.len() implies justified(
                    *egraph,
                    rules@,
                    #[trigger] applied_rewrites@[i],
                ) by {
                    lemma_justified_kept(before_unions, *egraph, rules@, applied_rewrites@[i]);
                }
                assert forall|x: int| 0 <= x < g0.size() implies #[trigger] egraph.root(x) == egraph.root(g0.root(x)) by {
                    g0.lemma_root(x);
                    let y = g0.root(x);
                    assert(egraph.root(x) == egraph.root(pre_rebuild.root(x)));
                    assert(egraph.root(y) == egraph.root(pre_rebuild.root(y)));
                    assert(pre_rebuild.root(x) == pre_rebuild.root(y));
                }
                assert forall|i: int| 0 <= i < applied_rewrites@.len() implies {
                    let a = #[trigger] applied_rewrites@[i];
                    &&& provenanced(a, rules@)
                    &&& !is_zero_hash(a.proof_id.hash)
                    &&& a.class_a < egraph.size()
                    &&& a.class_b < egraph.size()
                    &&& egraph.root(a.class_a as int) == egraph.root(a.class_b as int)
                } by {
                    let a = applied_rewrites@[i];
                    assert(egraph.root(a.class_a as int) == egraph.root(pre_rebuild.root(a.class_a as int)));
                    assert(egraph.root(a.class_b as int) == egraph.root(pre_rebuild.root(a.class_b as int)));
                    if pre_rebuild.root(a.class_a as int) != pre_rebuild.root(a.class_b as int) {
                        let p = (pre_rebuild.root(a.class_a as int) as Id, pre_rebuild.root(a.class_b as int) as Id);
                        assert(pre_rebuild.pending().contains(p));
                        let w = choose|w: int| 0 <= w < pre_rebuild.pending().len() && pre_rebuild.pending()[w] == p;
                        pre_rebuild.lemma_root(a.class_a as int);
                        pre_rebuild.lemma_root(a.class_b as int);
                        assert(egraph.root(pre_rebuild.pending()[w].0 as int) == egraph.root(pre_rebuild.pending()[w].1 as int));
                    }
                }
            }
            if !merged_any {
                stop_reason = SaturationStopReason::Saturated;
                proof {
                    if g0.pending().len() == 0 || iterations > 0 {
                        assert forall|x: int| 0 <= x < g0.size() implies #[trigger] egraph.root(x) == before_unions.root(x) by {
                            assert(egraph.root(x) == pre_rebuild.root(x));
                        }
                        lemma_saturated_from(before_unions, *egraph, rules@, iteration_unions@);
                    }
                    if iterations == 0 {
                        lemma_saturated_from(before_unions, before_unions, rules@, iteration_unions@);
                        assert(before_unions == g0);
                    }
                }
                break;
            }
            iterations = iterations + 1;
        }
        if iterations >= budget.max_iterations {
            stop_reason = SaturationStopReason::IterationLimit;
        }
        proof {
            if g0.closed() && g0.pending().len() == 0 {
                crate::egraph::closure::law_congruence_closure(*egraph);
            }
        }
        SaturationReport { iterations, nodes_count: egraph.memo.len(), applied_rewrites, stop_reason }
    }
}

pub struct Extractor;

/// The cost of a node: one for itself and one per child.
pub open spec fn node_cost(n: ENode) -> int {
    1 + n.children@.len() as int
}

impl Extractor {
    /// The operator and cost of the cheapest node in the class of `root_id`,
    /// the first one among equally cheap nodes; an empty class gives an empty
    /// operator and the largest cost.
    pub fn extract_best(egraph: &mut EGraph, root_id: Id) -> (r: (String, usize))
        requires
            old(egraph).wf(),
            root_id < old(egraph).size(),
            forall|c: int, k: int|
                0 <= c < old(egraph).classes@.len() && 0 <= k < old(egraph).classes@[c]@.len() ==> (#[trigger] old(
                    egraph,
                ).classes@[c]@[k]).children@.len() + 1 < usize::MAX,
        ensures
            final(egraph).wf(),
            forall|x: int| 0 <= x < old(egraph).size() ==> #[trigger] final(egraph).root(x) == old(egraph).root(x),
            final(egraph).classes == old(egraph).classes,
            old(egraph).closed() ==> final(egraph).closed(),
            forall|n: (Seq<char>, Seq<u32>, EType), cls: Id|
                #![trigger final(egraph).good(n, cls)]
                children_below(n.1, old(egraph).size()) && old(egraph).good(n, cls) ==> final(egraph).good(n, cls),
            ({
                let cls = old(egraph).classes@[old(egraph).root(root_id as int)]@;
                &&& cls.len() == 0 ==> r.0@ == Seq::<char>::empty() && r.1 == usize::MAX
                &&& cls.len() > 0 ==> exists|k: int|
                    0 <= k < cls.len() && r.0@ == (#[trigger] cls[k]).op@ && r.1 == node_cost(cls[k]) && (forall|j: int|
                        0 <= j < k ==> node_cost(#[trigger] cls[j]) > r.1) && (forall|j: int|
                        0 <= j < cls.len() ==> node_cost(#[trigger] cls[j]) >= r.1)
            }),
    {
        proof {
            old(egraph).lemma_root(root_id as int);
        }
        let canon_root = egraph.find(root_id);
        let enodes = &egraph.classes[canon_root as usize];
        proof {
            assert(enodes@ == old(egraph).classes@[old(egraph).root(root_id as int)]@);
            assert forall|j: int| 0 <= j < enodes@.len() implies (#[trigger] enodes@[j]).children@.len() + 1 < usize::MAX by {
                assert(enodes@[j] == old(egraph).classes@[canon_root as int]@[j]);
            }
        }
        let mut best_expr = String::new();
        let mut best_cost: usize = usize::MAX;
        let ghost mut best_k: int = -1;
        let mut k: usize = 0;
        while k < enodes.len()
            invariant
                k <= enodes@.len(),
                enodes@ == old(egraph).classes@[old(egraph).root(root_id as int)]@,
                forall|j: int| 0 <= j < enodes@.len() ==> (#[trigger] enodes@[j]).children@.len() + 1 < usize::MAX,
                best_k == -1 ==> best_expr@ == Seq::<char>::empty() && best_cost == usize::MAX,
                best_k == -1 ==> forall|j: int| 0 <= j < k ==> node_cost(#[trigger] enodes@[j]) >= usize::MAX,
                best_k != -1 ==> 0 <= best_k < k && best_expr@ == enodes@[best_k].op@ && best_cost == node_cost(enodes@[best_k]),
                best_k != -1 ==> forall|j: int| 0 <= j < best_k ==> node_cost(#[trigger] enodes@[j]) > best_cost,
                forall|j: int| 0 <= j < k ==> node_cost(#[trigger] enodes@[j]) >= best_cost,
            decreases enodes@.len() - k,
        {
            let cost = 1 + enodes[k].children.len();
            if cost < best_cost {
                best_cost = cost;
                best_expr = enodes[k].op.clone();
                proof {
                    best_k = k as int;
                }
            }
            k = k + 1;
        }
        proof {
            if enodes@.len() > 0 && best_k == -1 {
                assert(node_cost(enodes@[0]) >= usize::MAX);
                assert(enodes@[0].children@.len() + 1 < usize::MAX);
            }
            if enodes@.len() > 0 {
                assert(0 <= best_k < enodes@.len() && best_expr@ == enodes@[best_k].op@);
            }
        }
        (best_expr, best_cost)
    }
}

} // verus!
