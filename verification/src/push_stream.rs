//! A transfer from Studio to disk that was given up, and which services a
//! snapshot holds.
use vstd::prelude::*;

use crate::disk_index;
use crate::text;
use crate::text::{owned, same};

verus! {

/// How far the worker that installs a service has come.
#[derive(Debug)]
pub struct StreamCommitControl {
    pub cancelled: bool,
    pub committed: bool,
    pub retained_backup: Option<String>,
    pub partial_failure: bool,
}

/// Tells the worker of a service that is dropped to stop, unless it is done.
pub fn drop_service_stream(control: &mut StreamCommitControl)
    ensures
        *final(control) == (StreamCommitControl {
            cancelled: old(control).cancelled || !old(control).committed,
            ..*old(control)
        }),
{
    if !control.committed {
        control.cancelled = true;
    }
}

/// What a worker had done when its transfer was given up.
#[derive(Debug)]
pub struct AbandonedCommit {
    pub committed: bool,
    pub partial_failure: bool,
    pub retained_backup: Option<String>,
}

/// Tells the worker of a transfer that is given up to stop, unless it changed
/// the disk, and says what it had done. Without a worker nothing was done.
pub fn abandon_commit(control: &mut Option<StreamCommitControl>) -> (r: AbandonedCommit)
    ensures
        match *old(control) {
            None => {
                &&& *final(control) is None
                &&& !r.committed && !r.partial_failure && r.retained_backup is None
            },
            Some(c) => {
                &&& *final(control) == Some(
                    StreamCommitControl {
                        cancelled: c.cancelled || (!c.committed && !c.partial_failure),
                        ..c
                    },
                )
                &&& r.committed == c.committed
                &&& r.partial_failure == c.partial_failure
                &&& text::option_text(r.retained_backup) == text::option_text(c.retained_backup)
            },
        },
{
    match control.take() {
        None => AbandonedCommit { committed: false, partial_failure: false, retained_backup: None },
        Some(worker) => {
            let mut c = worker;
            if !c.committed && !c.partial_failure {
                c.cancelled = true;
            }
            let retained_backup = match &c.retained_backup {
                Some(path) => Some(owned(path.as_str())),
                None => None,
            };
            let r = AbandonedCommit {
                committed: c.committed,
                partial_failure: c.partial_failure,
                retained_backup,
            };
            *control = Some(c);
            r
        },
    }
}

/// Whether the receipt of the worker is still to be taken.
pub fn awaits_receipt(abandoned: &AbandonedCommit) -> (r: bool)
    ensures
        r == (abandoned.committed || abandoned.partial_failure),
{
    abandoned.committed || abandoned.partial_failure
}

/// Adds the backup that a worker left, unless it is known.
pub fn keep_backup(backups: &mut Vec<String>, retained: Option<&str>)
    ensures
        disk_index::texts(final(backups)@) == (match retained {
            Some(path) => if disk_index::texts(old(backups)@).contains(path@) {
                disk_index::texts(old(backups)@)
            } else {
                disk_index::texts(old(backups)@).push(path@)
            },
            None => disk_index::texts(old(backups)@),
        }),
{
    let path = match retained {
        None => return,
        Some(path) => path,
    };
    let ghost known = disk_index::texts(backups@);
    let mut k: usize = 0;
    while k < backups.len()
        invariant
            k <= backups@.len(),
            backups@ == old(backups)@,
            retained == Some(path),
            known == disk_index::texts(backups@),
            known.len() == backups@.len(),
            forall|i: int| 0 <= i < k ==> #[trigger] known[i] != path@,
        decreases backups@.len() - k,
    {
        if same(backups[k].as_str(), path) {
            assert(known[k as int] == path@);
            return;
        }
        assert(known[k as int] != path@);
        k += 1;
    }
    backups.push(owned(path));
    proof {
        assert(disk_index::texts(backups@) =~= known.push(path@));
    }
}

/// Whether the user must look after what a transfer that was given up left
/// behind.
pub fn recovery_required(
    abandoned: &AbandonedCommit,
    committed_services: usize,
    rollback_errors: usize,
) -> (r: bool)
    ensures
        r == (abandoned.partial_failure || abandoned.retained_backup is Some || committed_services
            > 0 || rollback_errors > 0),
{
    abandoned.partial_failure || abandoned.retained_backup.is_some() || committed_services > 0
        || rollback_errors > 0
}

/// Which services a snapshot holds.
#[derive(Debug, Clone, Copy, PartialEq, Eq, Structural)]
pub enum SnapshotScope {
    /// The one that was asked for.
    One,
    /// All of them, also those that are not on disk.
    Every,
    /// Those that are on disk.
    Existing,
}

/// The services that a snapshot is of.
pub open spec fn scope_of(service_given: bool, strict: bool, force_prune: bool) -> SnapshotScope {
    if service_given {
        SnapshotScope::One
    } else if strict && force_prune {
        SnapshotScope::Every
    } else {
        SnapshotScope::Existing
    }
}

pub fn snapshot_scope(service_given: bool, strict: bool, force_prune: bool) -> (r: SnapshotScope)
    ensures
        r == scope_of(service_given, strict, force_prune),
{
    if service_given {
        SnapshotScope::One
    } else if strict && force_prune {
        SnapshotScope::Every
    } else {
        SnapshotScope::Existing
    }
}

/// Whether a snapshot says that nothing is on disk yet.
pub fn snapshot_is_bootstrap(service_given: bool, strict: bool, services: usize) -> (r: bool)
    ensures
        r == (!service_given && !strict && services == 0),
{
    !service_given && !strict && services == 0
}

} // verus!
