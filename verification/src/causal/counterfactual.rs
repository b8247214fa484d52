//! Counterfactual forks: hypothetical branches of a state that can read and
//! simulate but hold no capability for real-world effects.

use vstd::prelude::*;
use crate::kernel::object::{claim_view, obligation_view};
use crate::kernel::orid::{is_orid_of, orid_display, ObjectKind, ORID};
use crate::kernel::state::{commits_to, State, StateTxn, CURRENT_SCHEMA_VERSION};
use crate::kernel::text::{dec_digits, push_decimal};

verus! {

#[derive(Debug, Clone, Copy, PartialEq, Eq, Hash, Structural)]
pub enum Capability {
    ReadState,
    SimulateHypothesis,
    RealWorldEffect,
}

#[derive(Debug, Clone, PartialEq, Eq, Structural)]
pub enum CounterfactualError {
    CapabilityViolation(Capability),
    BaseStateMutated,
}

#[derive(Debug, Clone)]
pub struct CounterfactualFork {
    pub fork_id: ORID,
    pub parent_commit: ORID,
    pub base_state_root: ORID,
    pub fork_state: State,
    pub capabilities: Vec<Capability>,
}

/// The bytes a fork is identified by: `fork:`, the parent commit, `:`, the base root.
pub open spec fn fork_seed(parent: ORID, base_root: ORID) -> Seq<u8> {
    seq![102u8, 111u8, 114u8, 107u8, 58u8] + orid_display(parent) + seq![58u8] + orid_display(base_root)
}

/// `c` is a copy of `s`: the same scalars, the same keys in the same order,
/// the same claims, evidence, operators, obligations and artifacts.
pub open spec fn same_shape(c: State, s: State) -> bool {
    &&& c.schema_version == s.schema_version
    &&& c.constraints@ == s.constraints@
    &&& c.budget == s.budget
    &&& c.graph.key_seq() == s.graph.key_seq()
    &&& c.graph@.dom() == s.graph@.dom()
    &&& forall|k: ORID| #[trigger] c.graph@.contains_key(k) ==> claim_view(c.graph@[k]) == claim_view(s.graph@[k])
    &&& c.evidence.key_seq() == s.evidence.key_seq()
    &&& c.evidence@ == s.evidence@
    &&& c.operators.key_seq() == s.operators.key_seq()
    &&& c.operators@ == s.operators@
    &&& c.obligations.key_seq() == s.obligations.key_seq()
    &&& c.obligations@.dom() == s.obligations@.dom()
    &&& forall|k: ORID| #[trigger] c.obligations@.contains_key(k) ==> obligation_view(c.obligations@[k]) == obligation_view(
        s.obligations@[k],
    )
    &&& c.artifacts.key_seq() == s.artifacts.key_seq()
    &&& c.artifacts@.dom() == s.artifacts@.dom()
    &&& forall|k: ORID| #[trigger] c.artifacts@.contains_key(k) ==> c.artifacts@[k]@ == s.artifacts@[k]@
}

impl CounterfactualFork {
    /// A fork of `base_state`: a copy of the state that may read and simulate,
    /// identified from its parent commit and the state's schema version.
    pub fn create_fork(parent_commit: ORID, base_state: &State) -> (res: Result<CounterfactualFork, CounterfactualError>)
        ensures
            res matches Ok(f) && {
                &&& f.parent_commit == parent_commit
                &&& is_orid_of(f.base_state_root, ObjectKind::Commit, dec_digits(base_state.schema_version as nat))
                &&& is_orid_of(f.fork_id, ObjectKind::Commit, fork_seed(parent_commit, f.base_state_root))
                &&& same_shape(f.fork_state, *base_state)
                &&& f.capabilities@ == seq![Capability::ReadState, Capability::SimulateHypothesis]
            },
    {
        let mut version_text: Vec<u8> = Vec::new();
        push_decimal(base_state.schema_version as u64, &mut version_text);
        let base_root = ORID::compute(ObjectKind::Commit, version_text.as_slice());
        let mut seed: Vec<u8> = Vec::new();
        seed.extend_from_slice(&[102u8, 111u8, 114u8, 107u8, 58u8]);
        parent_commit.push_display(&mut seed);
        seed.push(58u8);
        base_root.push_display(&mut seed);
        proof {
            assert(seed@ =~= fork_seed(parent_commit, base_root));
        }
        let fork_id = ORID::compute(ObjectKind::Commit, seed.as_slice());
        let fork_state = base_state.clone();
        let mut capabilities: Vec<Capability> = Vec::new();
        capabilities.push(Capability::ReadState);
        capabilities.push(Capability::SimulateHypothesis);
        Ok(CounterfactualFork { fork_id, parent_commit, base_state_root: base_root, fork_state, capabilities })
    }

    pub fn capabilities(&self) -> (c: &Vec<Capability>)
        ensures
            c@ == self.capabilities@,
    {
        &self.capabilities
    }

    /// Allows an action only when the fork holds the capability it requires.
    pub fn verify_capability(&self, required: Capability) -> (res: Result<(), CounterfactualError>)
        ensures
            self.capabilities@.contains(required) ==> res is Ok,
            !self.capabilities@.contains(required) ==> res == Err::<(), CounterfactualError>(
                CounterfactualError::CapabilityViolation(required),
            ),
    {
        let mut i: usize = 0;
        while i < self.capabilities.len()
            invariant
                i <= self.capabilities@.len(),
                forall|j: int| 0 <= j < i ==> self.capabilities@[j] != required,
            decreases self.capabilities@.len() - i,
        {
            if self.capabilities[i] == required {
                return Ok(());
            }
            i = i + 1;
        }
        Err(CounterfactualError::CapabilityViolation(required))
    }

    /// Commits a hypothetical transaction within the fork and returns the
    /// resulting state, which the fork keeps a copy of; the base state is not touched.
    pub fn apply_hypothetical_txn(&mut self, txn: StateTxn) -> (res: Result<State, CounterfactualError>)
        ensures
            !old(self).capabilities@.contains(Capability::SimulateHypothesis) ==> res == Err::<State, CounterfactualError>(
                CounterfactualError::CapabilityViolation(Capability::SimulateHypothesis),
            ) && final(self).fork_state == old(self).fork_state,
            old(self).capabilities@.contains(Capability::SimulateHypothesis) && txn.base_state.schema_version
                != CURRENT_SCHEMA_VERSION ==> res == Err::<State, CounterfactualError>(CounterfactualError::BaseStateMutated)
                && final(self).fork_state == old(self).fork_state,
            old(self).capabilities@.contains(Capability::SimulateHypothesis) && txn.base_state.schema_version
                == CURRENT_SCHEMA_VERSION ==> (res matches Ok(s) && commits_to(txn, s) && same_shape(final(self).fork_state, s)),
            final(self).fork_id == old(self).fork_id,
            final(self).parent_commit == old(self).parent_commit,
            final(self).base_state_root == old(self).base_state_root,
            final(self).capabilities == old(self).capabilities,
    {
        self.verify_capability(Capability::SimulateHypothesis)?;
        let new_state = match txn.commit() {
            Ok(s) => s,
            Err(_) => return Err(CounterfactualError::BaseStateMutated),
        };
        self.fork_state = new_state.clone();
        Ok(new_state)
    }
}

/// A fork never holds the capability of real-world effects.
pub proof fn law_no_real_world_effect(caps: Seq<Capability>)
    requires
        caps == seq![Capability::ReadState, Capability::SimulateHypothesis],
    ensures
        !caps.contains(Capability::RealWorldEffect),
{
    assert(caps[0] != Capability::RealWorldEffect && caps[1] != Capability::RealWorldEffect);
}

} // verus!
