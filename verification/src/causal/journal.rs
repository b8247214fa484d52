//! The intervention journal: every real intervention leaves a receipt and an
//! entry, an intervention without an after-observation is never a success,
//! and an entry is appended together with its state commit or not at all.

use vstd::prelude::*;
use vstd::utf8::encode_utf8;
use crate::kernel::orid::{is_orid_of, orid_display, ObjectKind, ORID};
use crate::kernel::state::{commits_to, State, StateTxn, TxnError, CURRENT_SCHEMA_VERSION};
use crate::kernel::text::{ascii_chars, ascii_string, dec_digits, lemma_dec_digits_ascii, push_decimal, push_signed_decimal, signed_dec};

verus! {

#[derive(Debug, Clone, PartialEq, Eq)]
pub enum InterventionOutcome {
    Success,
    Unknown,
    Failed(String),
}

#[derive(Debug, Clone, PartialEq, Eq)]
pub struct EnvironmentReceipt {
    pub receipt_id: ORID,
    pub execution_node: String,
    pub return_code: i32,
    pub stderr_digest: ORID,
}

/// The bytes a receipt is identified by: node, return code and stderr digest, separated by `:`.
pub open spec fn receipt_seed(node: Seq<char>, return_code: i32, stderr_digest: ORID) -> Seq<u8> {
    encode_utf8(node) + seq![58u8] + signed_dec(return_code as int) + seq![58u8] + orid_display(stderr_digest)
}

impl EnvironmentReceipt {
    pub fn new(execution_node: &str, return_code: i32, stderr_bytes: &[u8]) -> (r: EnvironmentReceipt)
        ensures
            r.execution_node@ == execution_node@,
            r.return_code == return_code,
            is_orid_of(r.stderr_digest, ObjectKind::Artifact, stderr_bytes@),
            is_orid_of(r.receipt_id, ObjectKind::Evidence, receipt_seed(execution_node@, return_code, r.stderr_digest)),
    {
        let stderr_digest = ORID::compute(ObjectKind::Artifact, stderr_bytes);
        let mut seed: Vec<u8> = Vec::new();
        seed.extend_from_slice(execution_node.as_bytes());
        seed.push(58u8);
        push_signed_decimal(return_code as i64, &mut seed);
        seed.push(58u8);
        stderr_digest.push_display(&mut seed);
        proof {
            assert(seed@ =~= receipt_seed(execution_node@, return_code, stderr_digest));
        }
        let receipt_id = ORID::compute(ObjectKind::Evidence, seed.as_slice());
        EnvironmentReceipt { receipt_id, execution_node: execution_node.to_owned(), return_code, stderr_digest }
    }
}

#[derive(Debug, Clone, PartialEq, Eq)]
pub struct InterventionRecord {
    pub id: ORID,
    pub before_state_root: ORID,
    pub action_orid: ORID,
    pub capability: String,
    pub environment_receipt: EnvironmentReceipt,
    pub after_observation_root: Option<ORID>,
    pub outcome: InterventionOutcome,
    pub timestamp_start_ns: u64,
    pub timestamp_end_ns: u64,
}

/// The bytes a record is identified by: before-state root, action and capability, separated by `:`.
pub open spec fn record_seed(before: ORID, action: ORID, capability: Seq<char>) -> Seq<u8> {
    orid_display(before) + seq![58u8] + orid_display(action) + seq![58u8] + encode_utf8(capability)
}

/// The outcome an intervention is recorded with: unknown without an after-observation.
pub open spec fn recorded_outcome(after: Option<ORID>, requested: InterventionOutcome) -> InterventionOutcome {
    if after is None { InterventionOutcome::Unknown } else { requested }
}

impl InterventionRecord {
    pub fn new(
        before_state_root: ORID,
        action_orid: ORID,
        capability: &str,
        environment_receipt: EnvironmentReceipt,
        after_observation_root: Option<ORID>,
        requested_outcome: InterventionOutcome,
        timestamp_start_ns: u64,
        timestamp_end_ns: u64,
    ) -> (r: InterventionRecord)
        ensures
            is_orid_of(r.id, ObjectKind::Artifact, record_seed(before_state_root, action_orid, capability@)),
            r.before_state_root == before_state_root,
            r.action_orid == action_orid,
            r.capability@ == capability@,
            r.environment_receipt == environment_receipt,
            r.after_observation_root == after_observation_root,
            r.outcome == recorded_outcome(after_observation_root, requested_outcome),
            r.timestamp_start_ns == timestamp_start_ns,
            r.timestamp_end_ns == timestamp_end_ns,
    {
        let mut seed: Vec<u8> = Vec::new();
        before_state_root.push_display(&mut seed);
        seed.push(58u8);
        action_orid.push_display(&mut seed);
        seed.push(58u8);
        seed.extend_from_slice(capability.as_bytes());
        proof {
            assert(seed@ =~= record_seed(before_state_root, action_orid, capability@));
        }
        let id = ORID::compute(ObjectKind::Artifact, seed.as_slice());
        let outcome = if after_observation_root.is_none() {
            InterventionOutcome::Unknown
        } else {
            requested_outcome
        };
        InterventionRecord {
            id,
            before_state_root,
            action_orid,
            capability: capability.to_owned(),
            environment_receipt,
            after_observation_root,
            outcome,
            timestamp_start_ns,
            timestamp_end_ns,
        }
    }
}

#[derive(Debug, Clone, PartialEq, Eq)]
pub enum JournalError {
    TxnCommitFailed(String),
    MissingEnvironmentReceipt,
}

#[derive(Debug, Clone, Default)]
pub struct InterventionJournal {
    pub entries: Vec<InterventionRecord>,
}

/// The record as the journal keeps it: unknown outcome without an after-observation.
pub open spec fn as_journaled(r: InterventionRecord) -> InterventionRecord {
    InterventionRecord { outcome: recorded_outcome(r.after_observation_root, r.outcome), ..r }
}

/// The debug text of a transaction error.
pub open spec fn txn_error_text(e: TxnError) -> Seq<u8> {
    match e {
        TxnError::SchemaVersionMismatch { expected, found } => seq![83u8, 99u8, 104u8, 101u8, 109u8, 97u8, 86u8, 101u8, 114u8, 115u8, 105u8, 111u8, 110u8, 77u8, 105u8, 115u8, 109u8, 97u8, 116u8, 99u8, 104u8, 32u8, 123u8, 32u8, 101u8, 120u8, 112u8, 101u8, 99u8, 116u8, 101u8, 100u8, 58u8, 32u8] + dec_digits(expected as nat)
            + seq![44u8, 32u8, 102u8, 111u8, 117u8, 110u8, 100u8, 58u8, 32u8] + dec_digits(found as nat) + seq![32u8, 125u8],
        TxnError::BudgetExhausted => seq![66u8, 117u8, 100u8, 103u8, 101u8, 116u8, 69u8, 120u8, 104u8, 97u8, 117u8, 115u8, 116u8, 101u8, 100u8],
    }
}

/// The debug text of a transaction error, as a string.
fn txn_error_message(e: &TxnError) -> (m: String)
    ensures
        m@ == ascii_chars(txn_error_text(*e)),
{
    let mut out: Vec<u8> = Vec::new();
    match e {
        TxnError::SchemaVersionMismatch { expected, found } => {
            out.extend_from_slice(&[83u8, 99u8, 104u8, 101u8, 109u8, 97u8, 86u8, 101u8, 114u8, 115u8, 105u8, 111u8, 110u8, 77u8, 105u8, 115u8, 109u8, 97u8, 116u8, 99u8, 104u8, 32u8, 123u8, 32u8, 101u8, 120u8, 112u8, 101u8, 99u8, 116u8, 101u8, 100u8, 58u8, 32u8]);
            push_decimal(*expected as u64, &mut out);
            out.extend_from_slice(&[44u8, 32u8, 102u8, 111u8, 117u8, 110u8, 100u8, 58u8, 32u8]);
            push_decimal(*found as u64, &mut out);
            out.extend_from_slice(&[32u8, 125u8]);
            proof {
                lemma_dec_digits_ascii(*expected as nat);
                lemma_dec_digits_ascii(*found as nat);
                assert(out@ =~= txn_error_text(*e));
                assert forall|i: int| 0 <= i < out@.len() implies #[trigger] out@[i] < 128 by {
                    let a = seq![83u8, 99u8, 104u8, 101u8, 109u8, 97u8, 86u8, 101u8, 114u8, 115u8, 105u8, 111u8, 110u8, 77u8, 105u8, 115u8, 109u8, 97u8, 116u8, 99u8, 104u8, 32u8, 123u8, 32u8, 101u8, 120u8, 112u8, 101u8, 99u8, 116u8, 101u8, 100u8, 58u8, 32u8];
                    let d1 = dec_digits(*expected as nat);
                    let bb = seq![44u8, 32u8, 102u8, 111u8, 117u8, 110u8, 100u8, 58u8, 32u8];
                    let d2 = dec_digits(*found as nat);
                    if i < a.len() {
                    } else if i < a.len() + d1.len() {
                        assert(out@[i] == d1[i - a.len()]);
                    } else if i < a.len() + d1.len() + bb.len() {
                    } else if i < a.len() + d1.len() + bb.len() + d2.len() {
                        assert(out@[i] == d2[i - a.len() - d1.len() - bb.len()]);
                    }
                }
            }
        },
        TxnError::BudgetExhausted => {
            out.extend_from_slice(&[66u8, 117u8, 100u8, 103u8, 101u8, 116u8, 69u8, 120u8, 104u8, 97u8, 117u8, 115u8, 116u8, 101u8, 100u8]);
            proof {
                assert(out@ =~= txn_error_text(*e));
            }
        },
    }
    ascii_string(out)
}

impl InterventionJournal {
    pub fn new() -> (j: InterventionJournal)
        ensures
            j.entries@.len() == 0,
    {
        InterventionJournal { entries: Vec::new() }
    }

    /// Appends the record, with an unknown outcome when it has no after-observation.
    pub fn append(&mut self, record: InterventionRecord) -> (res: Result<ORID, JournalError>)
        ensures
            res == Ok::<ORID, JournalError>(record.id),
            final(self).entries@ == old(self).entries@.push(as_journaled(record)),
    {
        let mut record = record;
        if record.after_observation_root.is_none() {
            record.outcome = InterventionOutcome::Unknown;
        }
        let record_id = record.id;
        self.entries.push(record);
        Ok(record_id)
    }

    /// Commits the transaction and, only when the commit succeeds, appends the
    /// record (with an unknown outcome when it has no after-observation).
    pub fn append_atomic(&mut self, txn: StateTxn, record: InterventionRecord) -> (res: Result<(State, ORID), JournalError>)
        ensures
            txn.base_state.schema_version != CURRENT_SCHEMA_VERSION ==> (res matches Err(JournalError::TxnCommitFailed(m))
                && m@ == ascii_chars(
                txn_error_text(
                    TxnError::SchemaVersionMismatch { expected: CURRENT_SCHEMA_VERSION, found: txn.base_state.schema_version },
                ),
            )) && final(self).entries == old(self).entries,
            txn.base_state.schema_version == CURRENT_SCHEMA_VERSION ==> (res matches Ok((s, id)) && commits_to(txn, s)
                && id == record.id) && final(self).entries@ == old(self).entries@.push(as_journaled(record)),
    {
        let mut record = record;
        if record.after_observation_root.is_none() {
            record.outcome = InterventionOutcome::Unknown;
        }
        let record_id = record.id;
        let committed = match txn.commit() {
            Ok(s) => s,
            Err(e) => {
                let msg = txn_error_message(&e);
                return Err(JournalError::TxnCommitFailed(msg));
            },
        };
        self.entries.push(record);
        Ok((committed, record_id))
    }

    pub fn len(&self) -> (n: usize)
        ensures
            n == self.entries@.len(),
    {
        self.entries.len()
    }

    pub fn is_empty(&self) -> (b: bool)
        ensures
            b == (self.entries@.len() == 0),
    {
        self.entries.len() == 0
    }
}

} // verus!
