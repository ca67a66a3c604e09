//! The statistics ledger: in-flight commands keyed by process id, running
//! aggregates keyed by command text.
//!
//! Both maps live for one daemon run; the aggregates are also loaded from
//! and saved to disk. Every operation keeps the ledger well formed:
//! aggregate keys stay unique and every aggregate counts each finished run
//! as exactly one success or failure.

use std::collections::HashMap;

use vstd::prelude::*;

use crate::dto::{spec_fold_run, spec_stats_zero, stats_wf, CommandStats};
use crate::strmap::{
    entries_wf, lemma_get_present, lemma_upsert_entries, lemma_upsert_props, spec_get,
    spec_upsert, StrMap,
};

verus! {

broadcast use vstd::std_specs::hash::group_hash_axioms;

/// One currently executing command: when it started, on the daemon's
/// clock in nanoseconds, and its literal text.
#[derive(Debug)]
pub struct InFlightCommand {
    pub start_time: u64,
    pub command_text: String,
}

/// The daemon's shared mutable state.
#[derive(Debug)]
pub struct DaemonState {
    pub in_flight: HashMap<u32, InFlightCommand>,
    pub aggregated_stats: StrMap<CommandStats>,
}

/// The ledger invariant: aggregate keys are unique and every aggregate
/// counts each run as a success or a failure.
pub open spec fn ledger_wf(stats: Seq<(Seq<char>, CommandStats)>) -> bool {
    &&& entries_wf(stats)
    &&& forall|i: int| 0 <= i < stats.len() ==> stats_wf((#[trigger] stats[i]).1)
}

/// The aggregate stored for `k`, or the zero aggregate when none is.
pub open spec fn stats_or_zero(stats: Seq<(Seq<char>, CommandStats)>, k: Seq<char>) -> CommandStats {
    match spec_get(stats, k) {
        Some(s) => s,
        None => spec_stats_zero(),
    }
}

/// The elapsed time from `start` to `now`, zero when the clock went
/// backwards.
pub open spec fn spec_elapsed(start: u64, now: u64) -> u64 {
    if now >= start {
        (now - start) as u64
    } else {
        0
    }
}

/// What ending the command of `pid` at time `now` does to the ledger: the
/// in-flight entry is removed, and exactly when one was present, its
/// elapsed time is folded into the aggregate of its command text and
/// returned.
pub open spec fn end_transition(
    pre: DaemonState,
    post: DaemonState,
    pid: u32,
    exit_code: i32,
    now: u64,
    r: Option<u64>,
) -> bool {
    &&& post.in_flight@ == pre.in_flight@.remove(pid)
    &&& (r is Some <==> pre.in_flight@.contains_key(pid))
    &&& match r {
        None => post.aggregated_stats@ == pre.aggregated_stats@,
        Some(elapsed) => {
            let cmd = pre.in_flight@[pid];
            &&& elapsed == spec_elapsed(cmd.start_time, now)
            &&& post.aggregated_stats@ == spec_upsert(
                pre.aggregated_stats@,
                cmd.command_text@,
                spec_fold_run(
                    stats_or_zero(pre.aggregated_stats@, cmd.command_text@),
                    elapsed,
                    exit_code == 0,
                ),
            )
        },
    }
}

/// Relies on `std::time::SystemTime::now`: the wall-clock reading,
/// converted to nanoseconds since the Unix epoch and saturated into a
/// `u64`. Nothing is promised of the value; the wall clock may move
/// arbitrarily. The daemon's request loop does not use it: it reads its
/// own monotonic clock and hands the reading to the `*_at` operations,
/// which are verified for every value of it.
#[verifier::external_body]
pub(crate) fn now_nanos() -> u64 {
    let elapsed = std::time::SystemTime::now()
        .duration_since(std::time::UNIX_EPOCH)
        .unwrap_or(std::time::Duration::ZERO)
        .as_nanos();
    if elapsed > u64::MAX as u128 {
        u64::MAX
    } else {
        elapsed as u64
    }
}

impl DaemonState {
    /// The ledger invariant; see `ledger_wf`.
    pub open spec fn wf(&self) -> bool {
        ledger_wf(self.aggregated_stats@)
    }

    /// A ledger with nothing in flight and no aggregates.
    pub fn new() -> (s: DaemonState)
        ensures
            s.in_flight@ == Map::<u32, InFlightCommand>::empty(),
            s.aggregated_stats@ == Seq::<(Seq<char>, CommandStats)>::empty(),
            s.wf(),
    {
        DaemonState { in_flight: HashMap::new(), aggregated_stats: StrMap::new() }
    }

    /// An executable check of the ledger invariant, for callers outside
    /// the proof: key uniqueness and the counter invariant of every
    /// aggregate.
    #[verifier::loop_isolation(false)]
    pub fn check_wf(&self) -> (r: bool)
        ensures
            r == self.wf(),
    {
        let n = self.aggregated_stats.len();
        let mut i: usize = 0;
        while i < n
            invariant
                n == self.aggregated_stats@.len(),
                0 <= i <= n,
                forall|a: int, b: int|
                    0 <= a < b < n && a < i ==> (#[trigger] self.aggregated_stats@[a]).0 != (
                    #[trigger] self.aggregated_stats@[b]).0,
                forall|a: int| 0 <= a < i ==> stats_wf((#[trigger] self.aggregated_stats@[a]).1),
            decreases n - i,
        {
            let s = self.aggregated_stats.val_at(i);
            if !(s.count as u128 == s.success_count as u128 + s.fail_count as u128) {
                return false;
            }
            let mut j: usize = i + 1;
            while j < n
                invariant
                    n == self.aggregated_stats@.len(),
                    0 <= i < j <= n,
                    forall|b: int|
                        i < b < j ==> (#[trigger] self.aggregated_stats@[b]).0
                            != self.aggregated_stats@[i as int].0,
                decreases n - j,
            {
                if crate::text::str_eq(
                    self.aggregated_stats.key_at(i).as_str(),
                    self.aggregated_stats.key_at(j).as_str(),
                ) {
                    return false;
                }
                j += 1;
            }
            i += 1;
        }
        true
    }

    /// A ledger that starts from aggregates loaded earlier, with nothing
    /// in flight.
    pub fn with_stats(stats: StrMap<CommandStats>) -> (s: DaemonState)
        ensures
            s.in_flight@ == Map::<u32, InFlightCommand>::empty(),
            s.aggregated_stats == stats,
    {
        DaemonState { in_flight: HashMap::new(), aggregated_stats: stats }
    }

    /// Notes that `pid` began running `command_text` at time `now`,
    /// overwriting any in-flight entry for the same pid. Aggregates are
    /// untouched.
    pub fn handle_start_at(&mut self, pid: u32, command_text: String, now: u64)
        ensures
            final(self).in_flight@ == old(self).in_flight@.insert(
                pid,
                (InFlightCommand { start_time: now, command_text }),
            ),
            final(self).aggregated_stats == old(self).aggregated_stats,
    {
        let command = InFlightCommand { start_time: now, command_text };
        self.in_flight.insert(pid, command);
    }

    /// Notes that `pid` began running `command_text` now, on the daemon's
    /// clock.
    pub fn handle_start(&mut self, pid: u32, command_text: String)
        ensures
            exists|t: u64|
                final(self).in_flight@ == old(self).in_flight@.insert(
                    pid,
                    (InFlightCommand { start_time: t, command_text }),
                ),
            final(self).aggregated_stats == old(self).aggregated_stats,
    {
        let now = now_nanos();
        self.handle_start_at(pid, command_text, now);
    }

    /// Notes that the command of `pid` ended at time `now` with
    /// `exit_code`, folding its elapsed time into the aggregates. When no
    /// command of `pid` is in flight, nothing changes and nothing is
    /// returned.
    pub fn handle_end_at(&mut self, pid: u32, exit_code: i32, now: u64) -> (r: Option<u64>)
        requires
            old(self).wf(),
        ensures
            final(self).wf(),
            end_transition(*old(self), *final(self), pid, exit_code, now, r),
    {
        match self.in_flight.remove(&pid) {
            None => None,
            Some(cmd) => {
                let elapsed = now.saturating_sub(cmd.start_time);
                let success = exit_code == 0;
                let mut stats = match self.aggregated_stats.get(cmd.command_text.as_str()) {
                    Some(s) => {
                        proof {
                            lemma_get_present(self.aggregated_stats@, cmd.command_text@);
                        }
                        *s
                    },
                    None => CommandStats::zero(),
                };
                stats.record_run(elapsed, success);
                proof {
                    lemma_upsert_props(self.aggregated_stats@, cmd.command_text@, stats);
                    assert forall|i: int|
                        0 <= i < spec_upsert(
                            self.aggregated_stats@,
                            cmd.command_text@,
                            stats,
                        ).len() implies stats_wf(
                        (#[trigger] spec_upsert(self.aggregated_stats@, cmd.command_text@, stats)[i]).1,
                    ) by {
                        lemma_upsert_entries(self.aggregated_stats@, cmd.command_text@, stats, i);
                    }
                }
                self.aggregated_stats.insert(cmd.command_text, stats);
                Some(elapsed)
            },
        }
    }

    /// Notes that the command of `pid` ended now, on the daemon's clock,
    /// with `exit_code`.
    pub fn handle_end(&mut self, pid: u32, exit_code: i32) -> (r: Option<u64>)
        requires
            old(self).wf(),
        ensures
            final(self).wf(),
            exists|now: u64| end_transition(*old(self), *final(self), pid, exit_code, now, r),
    {
        let now = now_nanos();
        self.handle_end_at(pid, exit_code, now)
    }
}

impl Default for DaemonState {
    /// A ledger with nothing in flight and no aggregates.
    fn default() -> (s: DaemonState)
        ensures
            s.in_flight@ == Map::<u32, InFlightCommand>::empty(),
            s.aggregated_stats@ == Seq::<(Seq<char>, CommandStats)>::empty(),
            s.wf(),
    {
        DaemonState::new()
    }
}

/// An end with no matching begin returns nothing and leaves both maps
/// unchanged.
pub proof fn lemma_end_without_begin(
    pre: DaemonState,
    post: DaemonState,
    pid: u32,
    exit_code: i32,
    now: u64,
    r: Option<u64>,
)
    requires
        end_transition(pre, post, pid, exit_code, now, r),
        !pre.in_flight@.contains_key(pid),
    ensures
        r is None,
        post.in_flight@ =~= pre.in_flight@,
        post.aggregated_stats@ == pre.aggregated_stats@,
{
}

/// A begin followed by the matching end updates exactly the aggregate of
/// that command text, and the elapsed time it returns is nonnegative.
pub proof fn lemma_begin_then_end(
    s0: DaemonState,
    s1: DaemonState,
    s2: DaemonState,
    pid: u32,
    command_text: String,
    t0: u64,
    t1: u64,
    exit_code: i32,
    r: Option<u64>,
)
    requires
        s1.in_flight@ == s0.in_flight@.insert(
            pid,
            (InFlightCommand { start_time: t0, command_text }),
        ),
        s1.aggregated_stats@ == s0.aggregated_stats@,
        end_transition(s1, s2, pid, exit_code, t1, r),
    ensures
        r == Some(spec_elapsed(t0, t1)),
        spec_elapsed(t0, t1) >= 0,
        spec_get(s2.aggregated_stats@, command_text@) == Some(
            spec_fold_run(
                stats_or_zero(s0.aggregated_stats@, command_text@),
                spec_elapsed(t0, t1),
                exit_code == 0,
            ),
        ),
        forall|k: Seq<char>|
            k != command_text@ ==> #[trigger] spec_get(s2.aggregated_stats@, k) == spec_get(
                s0.aggregated_stats@,
                k,
            ),
{
    let folded = spec_fold_run(
        stats_or_zero(s0.aggregated_stats@, command_text@),
        spec_elapsed(t0, t1),
        exit_code == 0,
    );
    lemma_upsert_props(s0.aggregated_stats@, command_text@, folded);
}

/// A second begin for the same pid overwrites the first: the end that
/// follows aggregates against the second command text alone, and any other
/// key is untouched.
pub proof fn lemma_begin_overwrites(
    s0: DaemonState,
    s1: DaemonState,
    s2: DaemonState,
    s3: DaemonState,
    pid: u32,
    text1: String,
    text2: String,
    t0: u64,
    t1: u64,
    t2: u64,
    exit_code: i32,
    r: Option<u64>,
)
    requires
        s1.in_flight@ == s0.in_flight@.insert(
            pid,
            (InFlightCommand { start_time: t0, command_text: text1 }),
        ),
        s1.aggregated_stats@ == s0.aggregated_stats@,
        s2.in_flight@ == s1.in_flight@.insert(
            pid,
            (InFlightCommand { start_time: t1, command_text: text2 }),
        ),
        s2.aggregated_stats@ == s1.aggregated_stats@,
        end_transition(s2, s3, pid, exit_code, t2, r),
    ensures
        r == Some(spec_elapsed(t1, t2)),
        spec_get(s3.aggregated_stats@, text2@) == Some(
            spec_fold_run(
                stats_or_zero(s0.aggregated_stats@, text2@),
                spec_elapsed(t1, t2),
                exit_code == 0,
            ),
        ),
        forall|k: Seq<char>|
            k != text2@ ==> #[trigger] spec_get(s3.aggregated_stats@, k) == spec_get(
                s0.aggregated_stats@,
                k,
            ),
{
    lemma_begin_then_end(s1, s2, s3, pid, text2, t1, t2, exit_code, r);
}

/// In a well-formed ledger every aggregate satisfies `count ==
/// success_count + fail_count`, whatever sequence of begin and end
/// operations produced it.
pub proof fn lemma_wf_counts(s: DaemonState, k: Seq<char>)
    requires
        s.wf(),
        spec_get(s.aggregated_stats@, k) is Some,
    ensures
        (spec_get(s.aggregated_stats@, k)->Some_0).count == (spec_get(
            s.aggregated_stats@,
            k,
        )->Some_0).success_count + (spec_get(s.aggregated_stats@, k)->Some_0).fail_count,
{
    lemma_get_present(s.aggregated_stats@, k);
}

} // verus!
