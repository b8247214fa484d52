//! Crash and power-loss fault injection: which faults exist, where they strike,
//! and what each does to a file on disk.

use vstd::prelude::*;

verus! {

#[derive(Debug, Clone, Copy, PartialEq, Eq, Structural)]
pub enum FaultType {
    KillImmediate,
    WriteTruncation,
    ByteCorruption,
    FsyncLoss,
}

#[derive(Debug, Clone, Copy, PartialEq, Eq, Structural)]
pub enum CrashInjectionPoint {
    WalHeaderAppend,
    WalPayloadAppend,
    WalFsync,
    ObjectStoreWrite,
    CommitDagPublication,
    RootPointerUpdate,
}

/// What a fault does to the file it strikes.
#[derive(Debug, Clone, Copy, PartialEq, Eq, Structural)]
pub enum DiskFaultAction {
    /// The file stays as it is.
    LeaveUntouched,
    /// The file is cut to this many bytes.
    TruncateTo(u64),
    /// The file's last byte is overwritten with `0xFF`.
    CorruptLastByte,
}

/// Counts the crash points it has been asked to strike.
pub struct FaultInjector {
    pub crash_point_counter: u64,
}

/// The effect of `fault` on a file of `file_len` bytes (`None`: no such file).
/// A killed process or a lost fsync writes nothing; a truncation halves a file
/// longer than five bytes; a corruption overwrites the last byte of a
/// non-empty file.
pub open spec fn fault_effect(fault: FaultType, file_len: Option<u64>) -> DiskFaultAction {
    match fault {
        FaultType::WriteTruncation => match file_len {
            Some(len) => if len > 5 {
                DiskFaultAction::TruncateTo(len / 2)
            } else {
                DiskFaultAction::LeaveUntouched
            },
            None => DiskFaultAction::LeaveUntouched,
        },
        FaultType::ByteCorruption => match file_len {
            Some(len) => if len > 0 {
                DiskFaultAction::CorruptLastByte
            } else {
                DiskFaultAction::LeaveUntouched
            },
            None => DiskFaultAction::LeaveUntouched,
        },
        _ => DiskFaultAction::LeaveUntouched,
    }
}

impl FaultInjector {
    pub fn new() -> (f: Self)
        ensures
            f.crash_point_counter == 0,
    {
        FaultInjector { crash_point_counter: 0 }
    }

    /// Counts one more crash point and says what `fault` does to the file at
    /// `_target`, given the file's length (`None` when there is no file).
    pub fn plan_disk_fault(&mut self, fault: FaultType, _target: CrashInjectionPoint, file_len: Option<u64>) -> (a:
        DiskFaultAction)
        requires
            old(self).crash_point_counter < u64::MAX,
        ensures
            final(self).crash_point_counter == old(self).crash_point_counter + 1,
            a == fault_effect(fault, file_len),
    {
        self.crash_point_counter = self.crash_point_counter + 1;
        match fault {
            FaultType::WriteTruncation => match file_len {
                Some(len) => if len > 5 {
                    DiskFaultAction::TruncateTo(len / 2)
                } else {
                    DiskFaultAction::LeaveUntouched
                },
                None => DiskFaultAction::LeaveUntouched,
            },
            FaultType::ByteCorruption => match file_len {
                Some(len) => if len > 0 {
                    DiskFaultAction::CorruptLastByte
                } else {
                    DiskFaultAction::LeaveUntouched
                },
                None => DiskFaultAction::LeaveUntouched,
            },
            _ => DiskFaultAction::LeaveUntouched,
        }
    }
}

/// A fault never grows a file: a truncation keeps at most half of it.
pub proof fn law_faults_never_grow_files(fault: FaultType, len: u64)
    ensures
        fault_effect(fault, Some(len)) matches DiskFaultAction::TruncateTo(n) ==> n <= len / 2 && n < len,
{
}

/// The fault a crash campaign injects at step `i`: none on every third step
/// (counting from 0), else the point `i mod 6` and the fault `i mod 4` in
/// declaration order.
pub open spec fn campaign_fault(i: u64) -> Option<(FaultType, CrashInjectionPoint)> {
    if i % 3 == 0 {
        None
    } else {
        let target = if i % 6 == 0 {
            CrashInjectionPoint::WalHeaderAppend
        } else if i % 6 == 1 {
            CrashInjectionPoint::WalPayloadAppend
        } else if i % 6 == 2 {
            CrashInjectionPoint::WalFsync
        } else if i % 6 == 3 {
            CrashInjectionPoint::ObjectStoreWrite
        } else if i % 6 == 4 {
            CrashInjectionPoint::CommitDagPublication
        } else {
            CrashInjectionPoint::RootPointerUpdate
        };
        let fault = if i % 4 == 0 {
            FaultType::KillImmediate
        } else if i % 4 == 1 {
            FaultType::WriteTruncation
        } else if i % 4 == 2 {
            FaultType::ByteCorruption
        } else {
            FaultType::FsyncLoss
        };
        Some((fault, target))
    }
}

/// The fault and crash point of step `i` of a campaign, if it injects one.
pub fn campaign_fault_for_step(i: u64) -> (r: Option<(FaultType, CrashInjectionPoint)>)
    ensures
        r == campaign_fault(i),
{
    if i % 3 == 0 {
        return None;
    }
    let targets = [
        CrashInjectionPoint::WalHeaderAppend,
        CrashInjectionPoint::WalPayloadAppend,
        CrashInjectionPoint::WalFsync,
        CrashInjectionPoint::ObjectStoreWrite,
        CrashInjectionPoint::CommitDagPublication,
        CrashInjectionPoint::RootPointerUpdate,
    ];
    let faults = [FaultType::KillImmediate, FaultType::WriteTruncation, FaultType::ByteCorruption, FaultType::FsyncLoss];
    let t = (i % 6) as usize;
    let f = (i % 4) as usize;
    Some((faults[f], targets[t]))
}

#[derive(Debug, Clone)]
pub struct CampaignConfig {
    pub name: String,
    pub target_crash_points: u64,
    pub seed: u64,
}

#[derive(Debug, Clone)]
pub struct InjectionTargetsConfig {
    pub wal_header_append: bool,
    pub wal_payload_append: bool,
    pub wal_fsync: bool,
    pub object_store_write: bool,
    pub commit_dag_publication: bool,
    pub root_pointer_update: bool,
}

pub fn crate_name() -> (s: &'static str)
    ensures
        s@ == "origin-chaos"@,
{
    "origin-chaos"
}

} // verus!
