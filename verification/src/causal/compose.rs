//! Composition of operators: the checks a composition must pass, the status
//! of the composite, and the proof identifier every accepted composition
//! carries, computed from the chain it composes.

use vstd::prelude::*;
use vstd::utf8::encode_utf8;
use crate::causal::operator::{CausalOperator, Cost, EffectId, PredicateId, Risk, SchemaId};
use crate::kernel::causal_status::CausalStatus;
use crate::kernel::object::{hash_concat, push_hashes};
use crate::kernel::orid::{is_orid_of, ObjectKind, ORID};
use crate::kernel::text::{lemma_encode_empty, push_str_utf8, push_string_utf8, string_of_utf8};

verus! {

#[derive(Debug, Clone, PartialEq, Eq)]
pub struct CompositionProof {
    pub proof_id: ORID,
    pub step_operators: Vec<ORID>,
    pub domain: SchemaId,
    pub codomain: SchemaId,
    pub is_associative: bool,
}

/// The bytes a composition proof is identified by: the domain and codomain
/// names, the digests of the composed operators, and an associativity flag.
pub open spec fn proof_seed(operators: Seq<ORID>, domain: Seq<char>, codomain: Seq<char>, is_associative: bool) -> Seq<u8> {
    encode_utf8(domain) + encode_utf8(codomain) + hash_concat(operators) + seq![if is_associative { 1u8 } else { 0u8 }]
}

impl CompositionProof {
    pub fn compute(operators: &[ORID], domain: &SchemaId, codomain: &SchemaId, is_associative: bool) -> (p: CompositionProof)
        ensures
            is_orid_of(p.proof_id, ObjectKind::Evidence, proof_seed(operators@, domain.0@, codomain.0@, is_associative)),
            p.step_operators@ == operators@,
            p.domain.0@ == domain.0@,
            p.codomain.0@ == codomain.0@,
            p.is_associative == is_associative,
    {
        let mut seed: Vec<u8> = Vec::new();
        seed.extend_from_slice(domain.0.as_str().as_bytes());
        seed.extend_from_slice(codomain.0.as_str().as_bytes());
        push_hashes(operators, &mut seed);
        seed.push(if is_associative { 1u8 } else { 0u8 });
        proof {
            assert(seed@ =~= proof_seed(operators@, domain.0@, codomain.0@, is_associative));
        }
        let proof_id = ORID::compute(ObjectKind::Evidence, seed.as_slice());
        let mut steps: Vec<ORID> = Vec::new();
        steps.extend_from_slice(operators);
        CompositionProof {
            proof_id,
            step_operators: steps,
            domain: domain.clone(),
            codomain: codomain.clone(),
            is_associative,
        }
    }
}

#[derive(Debug, Clone, Default)]
pub struct OperatorCompositionChecker;

impl OperatorCompositionChecker {
    pub fn new() -> (c: OperatorCompositionChecker) {
        OperatorCompositionChecker
    }
}

/// Why the checks of a composition refuse it.
#[derive(Debug, Clone, PartialEq, Eq)]
pub enum CompositionCheckError {
    CodomainDomainMismatch { codomain_a: SchemaId, domain_b: SchemaId },
    UnsatisfiedPrecondition(PredicateId),
    PolicyViolationCost { total: u64, max: u64 },
    PolicyViolationDisallowedEffect(EffectId),
}

/// A precondition `p` of the second operator holds after the first: it is the
/// first operator's effect or one of its preconditions.
pub open spec fn precondition_met(a: CausalOperator, p: Seq<char>) -> bool {
    p == a.effect.0@ || exists|j: int| 0 <= j < a.preconditions@.len() && #[trigger] a.preconditions@[j].0@ == p
}

/// The first precondition of `b`, from index `k` on, that `a` leaves unmet.
pub open spec fn first_unmet(a: CausalOperator, b: CausalOperator, k: int) -> Option<int>
    decreases b.preconditions@.len() - k,
{
    if k < 0 || k >= b.preconditions@.len() {
        None
    } else if !precondition_met(a, b.preconditions@[k].0@) {
        Some(k)
    } else {
        first_unmet(a, b, k + 1)
    }
}

/// The effect named `e` is among the disallowed ones.
pub open spec fn disallowed(effects: Seq<EffectId>, e: Seq<char>) -> bool {
    exists|j: int| 0 <= j < effects.len() && #[trigger] effects[j].0@ == e
}

/// The cost of an operator, zero when it declares none.
pub open spec fn op_cost(o: CausalOperator) -> int {
    match o.cost {
        Some(c) => c.value as int,
        None => 0,
    }
}

fn same_text(a: &String, b: &String) -> (r: bool)
    ensures
        r == (a@ == b@),
{
    *a == *b
}

fn has_precondition(list: &Vec<PredicateId>, p: &PredicateId) -> (r: bool)
    ensures
        r == exists|j: int| 0 <= j < list@.len() && #[trigger] list@[j].0@ == p.0@,
{
    let mut j: usize = 0;
    while j < list.len()
        invariant
            j <= list@.len(),
            forall|t: int| 0 <= t < j ==> #[trigger] list@[t].0@ != p.0@,
        decreases list@.len() - j,
    {
        if same_text(&list[j].0, &p.0) {
            return true;
        }
        j = j + 1;
    }
    false
}

fn has_effect(list: &[EffectId], e: &EffectId) -> (r: bool)
    ensures
        r == disallowed(list@, e.0@),
{
    let mut j: usize = 0;
    while j < list.len()
        invariant
            j <= list@.len(),
            forall|t: int| 0 <= t < j ==> #[trigger] list@[t].0@ != e.0@,
        decreases list@.len() - j,
    {
        if same_text(&list[j].0, &e.0) {
            assert(list@[j as int].0@ == e.0@);
            return true;
        }
        j = j + 1;
    }
    false
}

/// Composing `op_a` then `op_b` passes the checks before the cost: the
/// schemas meet, every precondition of the second is met after the first, and
/// neither effect is disallowed.
pub open spec fn structure_ok(op_a: CausalOperator, op_b: CausalOperator, dis: Seq<EffectId>) -> bool {
    &&& op_a.codomain.0@ == op_b.domain.0@
    &&& first_unmet(op_a, op_b, 0) is None
    &&& !disallowed(dis, op_a.effect.0@)
    &&& !disallowed(dis, op_b.effect.0@)
}

/// The checks before the cost, in order: the first's codomain is the second's
/// domain; every precondition of the second is met after the first; neither
/// effect is disallowed.
pub fn check_structure(op_a: &CausalOperator, op_b: &CausalOperator, disallowed_effects: &[EffectId]) -> (r: Result<
    (),
    CompositionCheckError,
>)
    ensures
        r is Ok <==> structure_ok(*op_a, *op_b, disallowed_effects@),
        op_a.codomain.0@ != op_b.domain.0@ ==> (r matches Err(CompositionCheckError::CodomainDomainMismatch {
            codomain_a,
            domain_b,
        }) && codomain_a.0@ == op_a.codomain.0@ && domain_b.0@ == op_b.domain.0@),
        op_a.codomain.0@ == op_b.domain.0@ && first_unmet(*op_a, *op_b, 0) is Some ==> (r matches Err(
            CompositionCheckError::UnsatisfiedPrecondition(p),
        ) && p.0@ == op_b.preconditions@[first_unmet(*op_a, *op_b, 0)->0].0@),
        op_a.codomain.0@ == op_b.domain.0@ && first_unmet(*op_a, *op_b, 0) is None && disallowed(
            disallowed_effects@,
            op_a.effect.0@,
        ) ==> (r matches Err(CompositionCheckError::PolicyViolationDisallowedEffect(e)) && e.0@ == op_a.effect.0@),
        op_a.codomain.0@ == op_b.domain.0@ && first_unmet(*op_a, *op_b, 0) is None && !disallowed(
            disallowed_effects@,
            op_a.effect.0@,
        ) && disallowed(disallowed_effects@, op_b.effect.0@) ==> (r matches Err(
            CompositionCheckError::PolicyViolationDisallowedEffect(e),
        ) && e.0@ == op_b.effect.0@),
{
    if !same_text(&op_a.codomain.0, &op_b.domain.0) {
        return Err(
            CompositionCheckError::CodomainDomainMismatch { codomain_a: op_a.codomain.clone(), domain_b: op_b.domain.clone() },
        );
    }
    let n = op_b.preconditions.len();
    let mut k: usize = 0;
    while k < n
        invariant
            n == op_b.preconditions@.len(),
            k <= n,
            op_a.codomain.0@ == op_b.domain.0@,
            first_unmet(*op_a, *op_b, 0) == first_unmet(*op_a, *op_b, k as int),
        decreases n - k,
    {
        let pre = &op_b.preconditions[k];
        let met = same_text(&pre.0, &op_a.effect.0) || has_precondition(&op_a.preconditions, pre);
        if !met {
            return Err(CompositionCheckError::UnsatisfiedPrecondition(pre.clone()));
        }
        k = k + 1;
    }
    if has_effect(disallowed_effects, &op_a.effect) {
        return Err(CompositionCheckError::PolicyViolationDisallowedEffect(op_a.effect.clone()));
    }
    if has_effect(disallowed_effects, &op_b.effect) {
        return Err(CompositionCheckError::PolicyViolationDisallowedEffect(op_b.effect.clone()));
    }
    Ok(())
}

/// The checks that composing `op_a` then `op_b` must pass, in order: those of
/// `check_structure`, then the summed cost stays within the policy's ceiling.
/// Returns the summed cost. The sum is taken only once the structure passed,
/// so only there must it fit in 64 bits.
pub fn check_composition(
    op_a: &CausalOperator,
    op_b: &CausalOperator,
    disallowed_effects: &[EffectId],
    max_aggregate_cost: Option<u64>,
) -> (r: Result<u64, CompositionCheckError>)
    requires
        structure_ok(*op_a, *op_b, disallowed_effects@) ==> op_cost(*op_a) + op_cost(*op_b) <= u64::MAX,
    ensures
        op_a.codomain.0@ != op_b.domain.0@ ==> (r matches Err(CompositionCheckError::CodomainDomainMismatch {
            codomain_a,
            domain_b,
        }) && codomain_a.0@ == op_a.codomain.0@ && domain_b.0@ == op_b.domain.0@),
        op_a.codomain.0@ == op_b.domain.0@ && first_unmet(*op_a, *op_b, 0) is Some ==> (r matches Err(
            CompositionCheckError::UnsatisfiedPrecondition(p),
        ) && p.0@ == op_b.preconditions@[first_unmet(*op_a, *op_b, 0)->0].0@),
        op_a.codomain.0@ == op_b.domain.0@ && first_unmet(*op_a, *op_b, 0) is None && disallowed(
            disallowed_effects@,
            op_a.effect.0@,
        ) ==> (r matches Err(CompositionCheckError::PolicyViolationDisallowedEffect(e)) && e.0@ == op_a.effect.0@),
        op_a.codomain.0@ == op_b.domain.0@ && first_unmet(*op_a, *op_b, 0) is None && !disallowed(
            disallowed_effects@,
            op_a.effect.0@,
        ) && disallowed(disallowed_effects@, op_b.effect.0@) ==> (r matches Err(
            CompositionCheckError::PolicyViolationDisallowedEffect(e),
        ) && e.0@ == op_b.effect.0@),
        op_a.codomain.0@ == op_b.domain.0@ && first_unmet(*op_a, *op_b, 0) is None && !disallowed(
            disallowed_effects@,
            op_a.effect.0@,
        ) && !disallowed(disallowed_effects@, op_b.effect.0@) ==> match max_aggregate_cost {
            Some(m) => if op_cost(*op_a) + op_cost(*op_b) > m {
                r == Err::<u64, CompositionCheckError>(
                    CompositionCheckError::PolicyViolationCost {
                        total: (op_cost(*op_a) + op_cost(*op_b)) as u64,
                        max: m,
                    },
                )
            } else {
                r == Ok::<u64, CompositionCheckError>((op_cost(*op_a) + op_cost(*op_b)) as u64)
            },
            None => r == Ok::<u64, CompositionCheckError>((op_cost(*op_a) + op_cost(*op_b)) as u64),
        },
{
    match check_structure(op_a, op_b, disallowed_effects) {
        Err(e) => {
            return Err(e);
        },
        Ok(()) => {},
    }
    let cost_a: u64 = match &op_a.cost {
        Some(c) => c.value,
        None => 0,
    };
    let cost_b: u64 = match &op_b.cost {
        Some(c) => c.value,
        None => 0,
    };
    let total_cost = cost_a + cost_b;
    match max_aggregate_cost {
        Some(max_cost) => {
            if total_cost > max_cost {
                return Err(CompositionCheckError::PolicyViolationCost { total: total_cost, max: max_cost });
            }
        },
        None => {},
    }
    Ok(total_cost)
}

/// The status of a composite: the strongest of its parts, where an
/// intervention outranks verification, then mechanism, then assumption.
pub open spec fn composite_status(a: CausalStatus, b: CausalStatus) -> CausalStatus {
    if a == CausalStatus::Interventional || b == CausalStatus::Interventional {
        CausalStatus::Interventional
    } else if a == CausalStatus::VerifiedCausal || b == CausalStatus::VerifiedCausal {
        CausalStatus::VerifiedCausal
    } else if a == CausalStatus::Mechanistic || b == CausalStatus::Mechanistic {
        CausalStatus::Mechanistic
    } else if a == CausalStatus::AssumedCausal || b == CausalStatus::AssumedCausal {
        CausalStatus::AssumedCausal
    } else {
        CausalStatus::Observational
    }
}

pub fn combined_status(a: CausalStatus, b: CausalStatus) -> (s: CausalStatus)
    ensures
        s == composite_status(a, b),
{
    if a == CausalStatus::Interventional || b == CausalStatus::Interventional {
        CausalStatus::Interventional
    } else if a == CausalStatus::VerifiedCausal || b == CausalStatus::VerifiedCausal {
        CausalStatus::VerifiedCausal
    } else if a == CausalStatus::Mechanistic || b == CausalStatus::Mechanistic {
        CausalStatus::Mechanistic
    } else if a == CausalStatus::AssumedCausal || b == CausalStatus::AssumedCausal {
        CausalStatus::AssumedCausal
    } else {
        CausalStatus::Observational
    }
}

/// The composite status does not depend on the order of the parts, and
/// composing with an observational operator keeps the other's status.
pub proof fn law_composite_status_symmetric(a: CausalStatus, b: CausalStatus)
    ensures
        composite_status(a, b) == composite_status(b, a),
        composite_status(a, CausalStatus::Observational) == a,
{
}


/// An accepted composition: the composed operator and the proof of the chain.
#[derive(Debug)]
pub struct ComposedOperator {
    pub operator: CausalOperator,
    pub proof: CompositionProof,
}

/// The name of `a` then `b`: `(a) >> (b)`.
pub open spec fn composed_name(a: Seq<char>, b: Seq<char>) -> Seq<char> {
    "("@ + a + ") >> ("@ + b + ")"@
}

/// The effect of `a` then `b`: `a+b`.
pub open spec fn composed_effect(a: Seq<char>, b: Seq<char>) -> Seq<char> {
    a + "+"@ + b
}

/// The names of a list of predicates.
pub open spec fn predicate_names(p: Seq<PredicateId>) -> Seq<Seq<char>> {
    p.map_values(|x: PredicateId| x.0@)
}

fn copy_predicates(p: &Vec<PredicateId>) -> (c: Vec<PredicateId>)
    ensures
        predicate_names(c@) == predicate_names(p@),
{
    let mut c: Vec<PredicateId> = Vec::new();
    let mut i: usize = 0;
    while i < p.len()
        invariant
            i <= p@.len(),
            c@.len() == i,
            forall|j: int| 0 <= j < i ==> (#[trigger] c@[j]).0@ == p@[j].0@,
        decreases p@.len() - i,
    {
        c.push(p[i].clone());
        i = i + 1;
    }
    assert(predicate_names(c@) =~= predicate_names(p@));
    c
}

/// The operator `op_a` then `op_b` with the cost and risk of the whole chain:
/// named `(a) >> (b)` and identified by that name, from the domain of `op_a`
/// to the codomain of `op_b`, under the preconditions of `op_a`, with the
/// effect `a+b`, the evidence of both in order, the composite status, and the
/// proof of the two-step chain.
pub fn build_composed(op_a: &CausalOperator, op_b: &CausalOperator, total_cost: u64, risk: Risk) -> (r: ComposedOperator)
    ensures
        r.operator.name@ == composed_name(op_a.name@, op_b.name@),
        is_orid_of(r.operator.id, ObjectKind::Operator, encode_utf8(composed_name(op_a.name@, op_b.name@))),
        r.operator.domain.0@ == op_a.domain.0@,
        r.operator.codomain.0@ == op_b.codomain.0@,
        predicate_names(r.operator.preconditions@) == predicate_names(op_a.preconditions@),
        r.operator.effect.0@ == composed_effect(op_a.effect.0@, op_b.effect.0@),
        r.operator.evidence@ == op_a.evidence@ + op_b.evidence@,
        r.operator.status == composite_status(op_a.status, op_b.status),
        r.operator.cost matches Some(c) && c.value == total_cost && c.currency_or_unit@ == "cost_units"@,
        r.operator.risk == Some(risk),
        is_orid_of(r.proof.proof_id, ObjectKind::Evidence, proof_seed(seq![op_a.id, op_b.id], op_a.domain.0@, op_b.codomain.0@, true)),
        r.proof.step_operators@ == seq![op_a.id, op_b.id],
        r.proof.domain.0@ == op_a.domain.0@,
        r.proof.codomain.0@ == op_b.codomain.0@,
        r.proof.is_associative,
{
    let mut nb: Vec<u8> = Vec::new();
    proof {
        lemma_encode_empty();
    }
    push_str_utf8(&mut nb, "(", Ghost(Seq::empty()));
    let ghost n1 = Seq::<char>::empty() + "("@;
    push_string_utf8(&mut nb, &op_a.name, Ghost(n1));
    let ghost n2 = n1 + op_a.name@;
    push_str_utf8(&mut nb, ") >> (", Ghost(n2));
    let ghost n3 = n2 + ") >> ("@;
    push_string_utf8(&mut nb, &op_b.name, Ghost(n3));
    let ghost n4 = n3 + op_b.name@;
    push_str_utf8(&mut nb, ")", Ghost(n4));
    assert(n4 + ")"@ =~= composed_name(op_a.name@, op_b.name@));
    let name = string_of_utf8(nb, Ghost(composed_name(op_a.name@, op_b.name@)));

    let mut eb: Vec<u8> = Vec::new();
    push_string_utf8(&mut eb, &op_a.effect.0, Ghost(Seq::empty()));
    let ghost e1 = Seq::<char>::empty() + op_a.effect.0@;
    push_str_utf8(&mut eb, "+", Ghost(e1));
    let ghost e2 = e1 + "+"@;
    push_string_utf8(&mut eb, &op_b.effect.0, Ghost(e2));
    assert(e2 + op_b.effect.0@ =~= composed_effect(op_a.effect.0@, op_b.effect.0@));
    let effect = EffectId(string_of_utf8(eb, Ghost(composed_effect(op_a.effect.0@, op_b.effect.0@))));

    let mut evidence: Vec<ORID> = Vec::new();
    let mut i: usize = 0;
    while i < op_a.evidence.len()
        invariant
            i <= op_a.evidence@.len(),
            evidence@ == op_a.evidence@.subrange(0, i as int),
        decreases op_a.evidence@.len() - i,
    {
        evidence.push(op_a.evidence[i]);
        i = i + 1;
        assert(evidence@ =~= op_a.evidence@.subrange(0, i as int));
    }
    let mut j: usize = 0;
    while j < op_b.evidence.len()
        invariant
            j <= op_b.evidence@.len(),
            evidence@ == op_a.evidence@ + op_b.evidence@.subrange(0, j as int),
        decreases op_b.evidence@.len() - j,
    {
        evidence.push(op_b.evidence[j]);
        j = j + 1;
        assert(evidence@ =~= op_a.evidence@ + op_b.evidence@.subrange(0, j as int));
    }
    assert(op_b.evidence@.subrange(0, j as int) =~= op_b.evidence@);
    assert(op_a.evidence@.subrange(0, op_a.evidence@.len() as int) =~= op_a.evidence@);

    let id = ORID::compute(ObjectKind::Operator, name.as_str().as_bytes());
    let operator = CausalOperator {
        id,
        name,
        domain: op_a.domain.clone(),
        codomain: op_b.codomain.clone(),
        preconditions: copy_predicates(&op_a.preconditions),
        effect,
        evidence,
        status: combined_status(op_a.status, op_b.status),
        cost: Some(Cost::new(total_cost, "cost_units")),
        risk: Some(risk),
    };
    let steps = [op_a.id, op_b.id];
    assert(steps@ =~= seq![op_a.id, op_b.id]);
    let proof = CompositionProof::compute(&steps, &op_a.domain, &op_b.codomain, true);
    ComposedOperator { operator, proof }
}


/// The causal statuses from the weakest requirement to the strongest.
pub open spec fn causal_precedence() -> Seq<CausalStatus> {
    seq![
        CausalStatus::Observational,
        CausalStatus::AssumedCausal,
        CausalStatus::Mechanistic,
        CausalStatus::VerifiedCausal,
        CausalStatus::Interventional,
    ]
}

/// Every causal status lies on the precedence, once.
pub proof fn law_causal_precedence_lists_every_status(s: CausalStatus)
    ensures
        exists|i: int| 0 <= i < 5 && #[trigger] causal_precedence()[i] == s,
        causal_precedence().len() == 5,
        causal_precedence().no_duplicates(),
{
    let c = causal_precedence();
    match s {
        CausalStatus::Observational => assert(c[0] == s),
        CausalStatus::AssumedCausal => assert(c[1] == s),
        CausalStatus::Mechanistic => assert(c[2] == s),
        CausalStatus::VerifiedCausal => assert(c[3] == s),
        CausalStatus::Interventional => assert(c[4] == s),
    }
}

/// A composite carries the strongest status of its two parts along the
/// precedence, in either order (so AssumedCausal with Mechanistic gives
/// Mechanistic).
pub proof fn law_composite_status_is_strongest(i: int, j: int)
    requires
        0 <= i <= j < 5,
    ensures
        composite_status(causal_precedence()[i], causal_precedence()[j]) == causal_precedence()[j],
        composite_status(causal_precedence()[j], causal_precedence()[i]) == causal_precedence()[j],
{
}

} // verus!
