//! Compiled artifacts: an artifact runs only while the dependencies and the
//! schema it was compiled against are still current.

use vstd::prelude::*;
use crate::kernel::orid::ORID;

verus! {

#[derive(Debug, Clone, PartialEq, Eq)]
pub enum ArtifactError {
    StaleDependencyRoot { expected: ORID, actual: ORID },
    SchemaHashMismatch { expected_schema_hash: u64, actual_schema_hash: u64 },
    DomainGuardRejected,
}

/// Checks an artifact compiled against `artifact_dep_root` and
/// `artifact_schema_hash` against the current ones: a changed dependency root
/// is reported first, then a changed schema.
pub fn check_artifact_freshness(
    artifact_dep_root: ORID,
    artifact_schema_hash: u64,
    current_dep_root: ORID,
    current_schema_hash: u64,
) -> (r: Result<(), ArtifactError>)
    ensures
        artifact_dep_root != current_dep_root ==> r == Err::<(), ArtifactError>(
            ArtifactError::StaleDependencyRoot { expected: current_dep_root, actual: artifact_dep_root },
        ),
        artifact_dep_root == current_dep_root && artifact_schema_hash != current_schema_hash ==> r == Err::<
            (),
            ArtifactError,
        >(
            ArtifactError::SchemaHashMismatch {
                expected_schema_hash: current_schema_hash,
                actual_schema_hash: artifact_schema_hash,
            },
        ),
        artifact_dep_root == current_dep_root && artifact_schema_hash == current_schema_hash ==> r == Ok::<
            (),
            ArtifactError,
        >(()),
{
    if artifact_dep_root != current_dep_root {
        return Err(ArtifactError::StaleDependencyRoot { expected: current_dep_root, actual: artifact_dep_root });
    }
    if artifact_schema_hash != current_schema_hash {
        return Err(
            ArtifactError::SchemaHashMismatch {
                expected_schema_hash: current_schema_hash,
                actual_schema_hash: artifact_schema_hash,
            },
        );
    }
    Ok(())
}

pub fn crate_name() -> (s: &'static str)
    ensures
        s@ == "origin-compiler"@,
{
    "origin-compiler"
}

} // verus!
