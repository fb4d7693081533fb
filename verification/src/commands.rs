//! What the commands decide, apart from what they read and print.

use crate::error::TodoTrackError;
use crate::storage::Snapshot;
use vstd::prelude::*;

pub mod check;
pub mod list;
pub mod scan;
pub mod trend;

verus! {

/// The latest snapshot, for a command that cannot do without one: where
/// there is none yet, that is [`TodoTrackError::NoSnapshots`].
pub fn require_snapshot(latest: Option<Snapshot>) -> (r: Result<Snapshot, TodoTrackError>)
    ensures
        match r {
            Ok(s) => latest == Some(s),
            Err(e) => latest is None && e is NoSnapshots,
        },
{
    match latest {
        Some(s) => Ok(s),
        None => Err(TodoTrackError::NoSnapshots),
    }
}

} // verus!
