//! Causal operators: typed by their domain and codomain schemas, guarded by
//! preconditions, and carrying cost and risk whenever they intervene.

use vstd::prelude::*;
use crate::kernel::causal_status::CausalStatus;
use crate::kernel::orid::{is_orid_of, ObjectKind, ORID};
use vstd::utf8::encode_utf8;

verus! {

#[derive(Debug, PartialEq, Eq, Hash)]
pub struct SchemaId(pub String);

#[derive(Debug, PartialEq, Eq, Hash)]
pub struct PredicateId(pub String);

#[derive(Debug, PartialEq, Eq, Hash)]
pub struct EffectId(pub String);

impl Clone for SchemaId {
    fn clone(&self) -> (c: Self)
        ensures
            c.0@ == self.0@,
    {
        SchemaId(self.0.clone())
    }
}

impl Clone for PredicateId {
    fn clone(&self) -> (c: Self)
        ensures
            c.0@ == self.0@,
    {
        PredicateId(self.0.clone())
    }
}

impl Clone for EffectId {
    fn clone(&self) -> (c: Self)
        ensures
            c.0@ == self.0@,
    {
        EffectId(self.0.clone())
    }
}

impl SchemaId {
    pub fn new(id: &str) -> (s: SchemaId)
        ensures
            s.0@ == id@,
    {
        SchemaId(id.to_owned())
    }
}

impl PredicateId {
    pub fn new(id: &str) -> (p: PredicateId)
        ensures
            p.0@ == id@,
    {
        PredicateId(id.to_owned())
    }
}

impl EffectId {
    pub fn new(id: &str) -> (e: EffectId)
        ensures
            e.0@ == id@,
    {
        EffectId(id.to_owned())
    }
}

#[derive(Debug, Clone, PartialEq, Eq)]
pub struct Cost {
    pub value: u64,
    pub currency_or_unit: String,
}

impl Cost {
    pub fn new(value: u64, unit: &str) -> (c: Cost)
        ensures
            c.value == value,
            c.currency_or_unit@ == unit@,
    {
        Cost { value, currency_or_unit: unit.to_owned() }
    }

    /// No cost, counted in steps.
    pub fn zero() -> (c: Cost)
        ensures
            c.value == 0,
            c.currency_or_unit@ == "step"@,
    {
        Cost { value: 0, currency_or_unit: "step".to_owned() }
    }
}

/// A risk: its score, from 0 (safe) to 1 (critical), kept as the bit pattern
/// of the IEEE 754 double, and its description.
#[derive(Debug, Clone, PartialEq, Eq)]
pub struct Risk {
    pub score_bits: u64,
    pub description: String,
}

impl Risk {
    /// No risk: a score of zero.
    pub fn zero() -> (r: Risk)
        ensures
            r.score_bits == 0,
            r.description@ == "none"@,
    {
        Risk { score_bits: 0, description: "none".to_owned() }
    }
}

#[derive(Debug, Clone, PartialEq, Eq)]
pub enum OperatorError {
    SchemaMismatch { expected: SchemaId, actual: SchemaId },
    UnsatisfiedPrecondition(PredicateId),
    MissingCostOrRiskForIntervention,
    EmptyEvidence,
}

#[derive(Debug, Clone, PartialEq)]
pub struct CausalOperator {
    pub id: ORID,
    pub name: String,
    pub domain: SchemaId,
    pub codomain: SchemaId,
    pub preconditions: Vec<PredicateId>,
    pub effect: EffectId,
    pub evidence: Vec<ORID>,
    pub status: CausalStatus,
    pub cost: Option<Cost>,
    pub risk: Option<Risk>,
}

/// An intervening operator must declare both its cost and its risk.
pub open spec fn cost_and_risk_ok(status: CausalStatus, has_cost: bool, has_risk: bool) -> bool {
    status == CausalStatus::Interventional ==> has_cost && has_risk
}

/// `p` is among the active facts.
pub open spec fn fact_holds(facts: Seq<PredicateId>, p: PredicateId) -> bool {
    exists|i: int| 0 <= i < facts.len() && (#[trigger] facts[i]).0@ == p.0@
}

/// The first precondition, from position `i` on, that no active fact satisfies.
pub open spec fn first_unsatisfied(pre: Seq<PredicateId>, facts: Seq<PredicateId>, i: int) -> Option<PredicateId>
    decreases pre.len() - i,
{
    if i < 0 || i >= pre.len() {
        None
    } else if !fact_holds(facts, pre[i]) {
        Some(pre[i])
    } else {
        first_unsatisfied(pre, facts, i + 1)
    }
}

fn holds(facts: &[PredicateId], p: &PredicateId) -> (b: bool)
    ensures
        b == fact_holds(facts@, *p),
{
    let mut i: usize = 0;
    while i < facts.len()
        invariant
            i <= facts@.len(),
            forall|j: int| 0 <= j < i ==> (#[trigger] facts@[j]).0@ != p.0@,
        decreases facts@.len() - i,
    {
        if facts[i].0 == p.0 {
            return true;
        }
        i = i + 1;
    }
    false
}

impl CausalOperator {
    /// An operator named `name`, identified by the ORID of its name; an
    /// intervening operator without cost or risk is refused.
    pub fn new(
        name: &str,
        domain: SchemaId,
        codomain: SchemaId,
        preconditions: Vec<PredicateId>,
        effect: EffectId,
        evidence: Vec<ORID>,
        status: CausalStatus,
        cost: Option<Cost>,
        risk: Option<Risk>,
    ) -> (res: Result<CausalOperator, OperatorError>)
        ensures
            !cost_and_risk_ok(status, cost is Some, risk is Some) ==> res == Err::<CausalOperator, OperatorError>(
                OperatorError::MissingCostOrRiskForIntervention,
            ),
            cost_and_risk_ok(status, cost is Some, risk is Some) ==> (res matches Ok(op) && {
                &&& is_orid_of(op.id, ObjectKind::Operator, encode_utf8(name@))
                &&& op.name@ == name@
                &&& op.domain == domain
                &&& op.codomain == codomain
                &&& op.preconditions == preconditions
                &&& op.effect == effect
                &&& op.evidence == evidence
                &&& op.status == status
                &&& op.cost == cost
                &&& op.risk == risk
            }),
    {
        let id = ORID::compute(ObjectKind::Operator, name.as_bytes());
        if status == CausalStatus::Interventional && (cost.is_none() || risk.is_none()) {
            return Err(OperatorError::MissingCostOrRiskForIntervention);
        }
        Ok(
            CausalOperator {
                id,
                name: name.to_owned(),
                domain,
                codomain,
                preconditions,
                effect,
                evidence,
                status,
                cost,
                risk,
            },
        )
    }

    /// Checks the input schema against the domain, then the output schema against the codomain.
    pub fn type_check(&self, input_schema: &SchemaId, output_schema: &SchemaId) -> (res: Result<(), OperatorError>)
        ensures
            self.domain.0@ != input_schema.0@ ==> (res matches Err(OperatorError::SchemaMismatch { expected, actual })
                && expected.0@ == self.domain.0@ && actual.0@ == input_schema.0@),
            self.domain.0@ == input_schema.0@ && self.codomain.0@ != output_schema.0@ ==> (res matches Err(
                OperatorError::SchemaMismatch { expected, actual },
            ) && expected.0@ == self.codomain.0@ && actual.0@ == output_schema.0@),
            self.domain.0@ == input_schema.0@ && self.codomain.0@ == output_schema.0@ ==> res is Ok,
    {
        if self.domain.0 != input_schema.0 {
            return Err(OperatorError::SchemaMismatch { expected: self.domain.clone(), actual: input_schema.clone() });
        }
        if self.codomain.0 != output_schema.0 {
            return Err(
                OperatorError::SchemaMismatch { expected: self.codomain.clone(), actual: output_schema.clone() },
            );
        }
        Ok(())
    }

    /// Whether every precondition is among the active facts.
    pub fn is_executable(&self, active_facts: &[PredicateId]) -> (b: bool)
        ensures
            b == (first_unsatisfied(self.preconditions@, active_facts@, 0) is None),
    {
        let mut i: usize = 0;
        while i < self.preconditions.len()
            invariant
                i <= self.preconditions@.len(),
                first_unsatisfied(self.preconditions@, active_facts@, 0) == first_unsatisfied(
                    self.preconditions@,
                    active_facts@,
                    i as int,
                ),
            decreases self.preconditions@.len() - i,
        {
            if !holds(active_facts, &self.preconditions[i]) {
                return false;
            }
            i = i + 1;
        }
        true
    }

    /// Reports the first precondition that no active fact satisfies.
    pub fn validate_execution(&self, active_facts: &[PredicateId]) -> (res: Result<(), OperatorError>)
        ensures
            match first_unsatisfied(self.preconditions@, active_facts@, 0) {
                Some(p) => res matches Err(OperatorError::UnsatisfiedPrecondition(q)) && q.0@ == p.0@,
                None => res is Ok,
            },
    {
        let mut i: usize = 0;
        while i < self.preconditions.len()
            invariant
                i <= self.preconditions@.len(),
                first_unsatisfied(self.preconditions@, active_facts@, 0) == first_unsatisfied(
                    self.preconditions@,
                    active_facts@,
                    i as int,
                ),
            decreases self.preconditions@.len() - i,
        {
            if !holds(active_facts, &self.preconditions[i]) {
                return Err(OperatorError::UnsatisfiedPrecondition(self.preconditions[i].clone()));
            }
            i = i + 1;
        }
        Ok(())
    }
}

/// An operator that intervenes always declares its cost and its risk.
pub proof fn law_intervention_needs_cost_and_risk(status: CausalStatus, has_cost: bool, has_risk: bool)
    requires
        status == CausalStatus::Interventional,
        cost_and_risk_ok(status, has_cost, has_risk),
    ensures
        has_cost && has_risk,
{
}

} // verus!
