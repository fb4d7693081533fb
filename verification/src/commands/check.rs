//! Whether the latest count of markers is within a limit.

use crate::error::TodoTrackError;
use vstd::prelude::*;

verus! {

/// How the latest count compares with the limit.
#[derive(Debug, Clone, Copy, PartialEq, Eq)]
pub enum CheckOutcome {
    /// The count is within the limit.
    Pass { count: i64 },
    /// The count is over the limit, by `excess`.
    Fail { count: i64, excess: i64 },
}

/// How a count of `count` compares with a limit of `max`.
pub open spec fn outcome_of(count: i64, max: usize) -> CheckOutcome {
    if count > max {
        CheckOutcome::Fail { count, excess: (count - max) as i64 }
    } else {
        CheckOutcome::Pass { count }
    }
}

/// Compares the count of the latest snapshot with the limit `max`. Where
/// there is no snapshot yet, that is [`TodoTrackError::NoSnapshots`].
pub fn check_limit(latest_count: Option<i64>, max: usize) -> (r: Result<
    CheckOutcome,
    TodoTrackError,
>)
    ensures
        match r {
            Ok(outcome) => latest_count matches Some(count) && outcome == outcome_of(count, max),
            Err(e) => latest_count is None && e is NoSnapshots,
        },
{
    match latest_count {
        None => Err(TodoTrackError::NoSnapshots),
        Some(count) => {
            if count > 0 && count as u64 > max as u64 {
                Ok(CheckOutcome::Fail { count, excess: (count as u64 - max as u64) as i64 })
            } else {
                Ok(CheckOutcome::Pass { count })
            }
        },
    }
}

/// The exit status that tells the outcome: 0 within the limit, 1 over it.
pub fn exit_status(outcome: &CheckOutcome) -> (status: i32)
    ensures
        status == (if outcome is Pass {
            0i32
        } else {
            1i32
        }),
{
    match outcome {
        CheckOutcome::Pass { .. } => 0,
        CheckOutcome::Fail { .. } => 1,
    }
}

} // verus!
