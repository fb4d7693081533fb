//! The trend of the marker count from snapshot to snapshot.

use crate::error::TodoTrackError;
use crate::storage::{snapshot_views, Snapshot, SnapshotView};
use vstd::prelude::*;

verus! {

/// How the count of a snapshot differs from that of the snapshot before it.
#[derive(Debug, Clone, Copy, PartialEq, Eq)]
pub enum Change {
    /// The first snapshot: there is nothing to compare it with.
    NoHistory,
    /// The count is the same as before.
    NoChange,
    /// The count moved by `diff`, which is `percent` hundredths of the count
    /// before, rounded. No percentage is defined where the count before was
    /// zero.
    Changed { diff: i128, percent: Option<i128> },
}

/// `num / den`, rounded to the nearest integer, a half away from zero.
pub open spec fn rounded_ratio(num: int, den: int) -> int {
    let n = if num < 0 {
        -num
    } else {
        num
    };
    let d = if den < 0 {
        -den
    } else {
        den
    };
    let q = (2 * n + d) / (2 * d);
    if (num < 0) == (den < 0) {
        q
    } else {
        -q
    }
}

/// The change from a count of `prev` to a count of `cur`.
pub open spec fn change_between(prev: i64, cur: i64) -> Change {
    if cur == prev {
        Change::NoChange
    } else {
        Change::Changed {
            diff: (cur - prev) as i128,
            percent: if prev == 0 {
                None
            } else {
                Some(rounded_ratio(100 * (cur - prev), prev as int) as i128)
            },
        }
    }
}

/// The change at each count of `counts`: none to speak of at the first, and
/// at every other the change from the count before it.
pub open spec fn changes_of(counts: Seq<i64>) -> Seq<Change> {
    Seq::new(
        counts.len(),
        |i: int|
            if i == 0 {
                Change::NoHistory
            } else {
                change_between(counts[i - 1], counts[i])
            },
    )
}

/// The marker counts of `snapshots`, in order.
pub open spec fn counts_of(snapshots: Seq<SnapshotView>) -> Seq<i64> {
    snapshots.map_values(|s: SnapshotView| s.todo_count)
}

/// The rounded ratio is the integer nearest to the exact one: it is off by
/// half at most.
pub proof fn lemma_rounded_ratio_is_nearest(num: int, den: int)
    requires
        den != 0,
    ensures
        2 * (rounded_ratio(num, den) * den - num) <= (if den < 0 {
            -den
        } else {
            den
        }),
        2 * (num - rounded_ratio(num, den) * den) <= (if den < 0 {
            -den
        } else {
            den
        }),
{
    let n = if num < 0 {
        -num
    } else {
        num
    };
    let d = if den < 0 {
        -den
    } else {
        den
    };
    let q = (2 * n + d) / (2 * d);
    vstd::arithmetic::div_mod::lemma_fundamental_div_mod(2 * n + d, 2 * d);
    vstd::arithmetic::div_mod::lemma_mod_bound(2 * n + d, 2 * d);
    assert(2 * n + d == (2 * d) * q + (2 * n + d) % (2 * d));
    assert((2 * d) * q == 2 * (q * d)) by (nonlinear_arith);
    assert(-d <= 2 * (n - q * d) < d);
    assert(q * (-d) == -(q * d)) by (nonlinear_arith);
    assert((-q) * (-d) == q * d) by (nonlinear_arith);
    assert((-q) * d == -(q * d)) by (nonlinear_arith);
}

/// The change from a count of `prev` to a count of `cur`.
pub fn change(prev: i64, cur: i64) -> (c: Change)
    ensures
        c == change_between(prev, cur),
{
    if cur == prev {
        return Change::NoChange;
    }
    let diff: i128 = cur as i128 - prev as i128;
    if prev == 0 {
        return Change::Changed { diff, percent: None };
    }
    let num: i128 = 100 * diff;
    let n: i128 = if num < 0 {
        -num
    } else {
        num
    };
    let d: i128 = if prev < 0 {
        -(prev as i128)
    } else {
        prev as i128
    };
    let q: i128 = (2 * n + d) / (2 * d);
    let percent: i128 = if (num < 0) == (prev < 0) {
        q
    } else {
        -q
    };
    proof {
        assert(0 <= q <= 2 * n + d) by (nonlinear_arith)
            requires
                q == (2 * n + d) / (2 * d),
                n >= 0,
                d >= 1,
        ;
    }
    Change::Changed { diff, percent: Some(percent) }
}

/// The change at each snapshot of a history, oldest first. An empty history
/// is [`TodoTrackError::NoSnapshots`].
pub fn trend(snapshots: &[Snapshot]) -> (r: Result<Vec<Change>, TodoTrackError>)
    ensures
        match r {
            Ok(changes) => snapshots@.len() > 0 && changes@ == changes_of(
                counts_of(snapshot_views(snapshots@)),
            ),
            Err(e) => snapshots@.len() == 0 && e is NoSnapshots,
        },
{
    if snapshots.len() == 0 {
        return Err(TodoTrackError::NoSnapshots);
    }
    let ghost counts = counts_of(snapshot_views(snapshots@));
    let mut changes: Vec<Change> = Vec::new();
    changes.push(Change::NoHistory);
    let mut i: usize = 1;
    while i < snapshots.len()
        invariant
            1 <= i <= snapshots.len(),
            counts == counts_of(snapshot_views(snapshots@)),
            changes@.len() == i,
            forall|k: int| 0 <= k < i ==> #[trigger] changes@[k] == changes_of(counts)[k],
        decreases snapshots.len() - i,
    {
        let c = change(snapshots[i - 1].todo_count, snapshots[i].todo_count);
        proof {
            assert(counts[i - 1] == snapshots@[i - 1].todo_count);
            assert(counts[i as int] == snapshots@[i as int].todo_count);
        }
        changes.push(c);
        i += 1;
    }
    proof {
        assert(changes@ =~= changes_of(counts));
    }
    Ok(changes)
}

/// How a count of markers is to be looked at.
#[derive(Debug, Clone, Copy, PartialEq, Eq)]
pub enum CountLevel {
    /// No marker at all.
    Clean,
    /// Ten at most.
    Few,
    /// More than ten.
    Many,
}

/// The level of a count.
pub open spec fn level_of(count: int) -> CountLevel {
    if count == 0 {
        CountLevel::Clean
    } else if count <= 10 {
        CountLevel::Few
    } else {
        CountLevel::Many
    }
}

/// The level of the count of a snapshot.
pub fn count_level(count: i64) -> (level: CountLevel)
    ensures
        level == level_of(count as int),
{
    if count == 0 {
        CountLevel::Clean
    } else if count <= 10 {
        CountLevel::Few
    } else {
        CountLevel::Many
    }
}

} // verus!
