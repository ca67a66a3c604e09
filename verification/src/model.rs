//! An earlier, simpler shape of the statistics: per-command counts and
//! millisecond durations, without the success/failure split.

use vstd::prelude::*;

use crate::strmap::{spec_upsert, StrMap};

verus! {

/// One command run: its text and when it started, in milliseconds.
#[derive(Debug)]
pub struct CommandRunInfo {
    pub command: String,
    pub start_time_ms: u128,
}

/// The running aggregate of one command: how often it ran and for how
/// long, in milliseconds.
#[derive(Debug, Clone, Copy, PartialEq, Eq, Structural)]
pub struct CommandStats {
    pub count: u64,
    pub total_duration_ms: u128,
    pub latest_duration_ms: u128,
}

/// The statistics database: command text to its running aggregate.
pub type StatsDB = StrMap<CommandStats>;

/// One run folded into an aggregate: the count goes up by one and the
/// duration is added, both saturating; the duration becomes the latest.
pub open spec fn spec_fold_ms(prev: Option<CommandStats>, duration_ms: u128) -> CommandStats {
    let s = match prev {
        Some(s) => s,
        None => CommandStats { count: 0, total_duration_ms: 0, latest_duration_ms: 0 },
    };
    CommandStats {
        count: if s.count < u64::MAX {
            (s.count + 1) as u64
        } else {
            s.count
        },
        total_duration_ms: if s.total_duration_ms + duration_ms <= u128::MAX {
            (s.total_duration_ms + duration_ms) as u128
        } else {
            u128::MAX
        },
        latest_duration_ms: duration_ms,
    }
}

/// Folds one run of `command`, which took `duration_ms`, into the
/// database.
pub fn update_stats_db(db: &mut StatsDB, command: String, duration_ms: u128)
    ensures
        final(db)@ == spec_upsert(
            old(db)@,
            command@,
            spec_fold_ms(crate::strmap::spec_get(old(db)@, command@), duration_ms),
        ),
{
    let prev = match db.get(command.as_str()) {
        Some(s) => *s,
        None => CommandStats { count: 0, total_duration_ms: 0, latest_duration_ms: 0 },
    };
    let next = CommandStats {
        count: if prev.count < u64::MAX {
            prev.count + 1
        } else {
            prev.count
        },
        total_duration_ms: prev.total_duration_ms.saturating_add(duration_ms),
        latest_duration_ms: duration_ms,
    };
    db.insert(command, next);
}

} // verus!
