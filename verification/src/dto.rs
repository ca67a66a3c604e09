//! The running aggregate for one distinct command text.
//!
//! Durations are held as nanoseconds. The invariant `count ==
//! success_count + fail_count` holds for every aggregate the ledger ever
//! produces; once `count` would exceed its type, the three counters freeze
//! together so the invariant survives.

use vstd::prelude::*;

verus! {

/// The running statistics of one command: how often it ran, for how long
/// in total, how long the latest run took, and how many runs exited with
/// zero or nonzero status. All durations are in nanoseconds.
#[derive(Debug, Clone, Copy, PartialEq, Eq, Structural)]
pub struct CommandStats {
    pub count: u64,
    pub total_duration: u64,
    pub last_run_duration: u64,
    pub success_count: u64,
    pub fail_count: u64,
}

/// The aggregate invariant: every run counted is a success or a failure.
pub open spec fn stats_wf(s: CommandStats) -> bool {
    s.count == s.success_count + s.fail_count
}

/// The aggregate of a command that never ran.
pub open spec fn spec_stats_zero() -> CommandStats {
    CommandStats { count: 0, total_duration: 0, last_run_duration: 0, success_count: 0, fail_count: 0 }
}

/// One finished run folded into an aggregate: the matching counters go up
/// by one (frozen once `count` is saturated), the elapsed time is added to
/// the total (saturating), and becomes the latest duration.
pub open spec fn spec_fold_run(s: CommandStats, elapsed: u64, success: bool) -> CommandStats {
    CommandStats {
        count: if s.count < u64::MAX {
            (s.count + 1) as u64
        } else {
            s.count
        },
        total_duration: if s.total_duration + elapsed <= u64::MAX {
            (s.total_duration + elapsed) as u64
        } else {
            u64::MAX
        },
        last_run_duration: elapsed,
        success_count: if s.count < u64::MAX && success {
            (s.success_count + 1) as u64
        } else {
            s.success_count
        },
        fail_count: if s.count < u64::MAX && !success {
            (s.fail_count + 1) as u64
        } else {
            s.fail_count
        },
    }
}

/// Folding a run preserves the aggregate invariant.
pub proof fn lemma_fold_run_wf(s: CommandStats, elapsed: u64, success: bool)
    requires
        stats_wf(s),
    ensures
        stats_wf(spec_fold_run(s, elapsed, success)),
{
}

impl CommandStats {
    /// The aggregate of a command that never ran.
    pub fn zero() -> (s: CommandStats)
        ensures
            s == spec_stats_zero(),
            stats_wf(s),
    {
        CommandStats {
            count: 0,
            total_duration: 0,
            last_run_duration: 0,
            success_count: 0,
            fail_count: 0,
        }
    }

    /// Folds one finished run of this command into the aggregate.
    pub fn record_run(&mut self, elapsed: u64, success: bool)
        requires
            stats_wf(*old(self)),
        ensures
            *final(self) == spec_fold_run(*old(self), elapsed, success),
            stats_wf(*final(self)),
    {
        if self.count < u64::MAX {
            self.count = self.count + 1;
            if success {
                self.success_count = self.success_count + 1;
            } else {
                self.fail_count = self.fail_count + 1;
            }
        }
        self.total_duration = self.total_duration.saturating_add(elapsed);
        self.last_run_duration = elapsed;
    }

    /// The mean duration of one run in nanoseconds: the total divided by
    /// the number of runs counted as success or failure, zero when none
    /// were.
    pub fn mean_duration_nanos(&self) -> (r: u64)
        ensures
            r as int == spec_mean_nanos(*self),
    {
        let runs = self.success_count as u128 + self.fail_count as u128;
        if runs == 0 {
            0
        } else {
            let m = self.total_duration as u128 / runs;
            proof {
                assert(m <= self.total_duration) by (nonlinear_arith)
                    requires
                        m == self.total_duration as u128 / runs,
                        runs >= 1,
                ;
            }
            m as u64
        }
    }
}

/// The mean duration of one run: the total divided by the number of runs
/// counted, zero when none were.
pub open spec fn spec_mean_nanos(s: CommandStats) -> int {
    if s.success_count + s.fail_count > 0 {
        s.total_duration as int / (s.success_count + s.fail_count)
    } else {
        0
    }
}

} // verus!
