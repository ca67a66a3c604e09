//! Dispatching one request line against the ledger.
//!
//! The surrounding process reads one line per connection and hands it
//! here; the outcome says what to write back, whether to persist the
//! aggregates, and whether to shut down. Malformed lines do nothing, with
//! one exception: the legacy liveness probe `PING` is answered with
//! `PONG` on a line of its own.

use vstd::prelude::*;
use vstd::string::*;

use crate::daemon::state::{end_transition, spec_elapsed, DaemonState, InFlightCommand};
use crate::daemon::storage::{enc_doc, encode_stats_json};
use crate::protocol::{spec_parse, Request, RequestView};
use crate::text::{spec_trim, str_eq, trim};

verus! {

/// What the handler of one connection does next: write the response, if
/// any, or shut the daemon down.
#[derive(Debug, PartialEq)]
pub enum HandlerResult {
    Response(Option<String>),
    Shutdown,
}

/// The outcome of one request: the handler's next step, and whether the
/// aggregates are to be persisted now.
#[derive(Debug)]
pub struct RequestOutcome {
    pub result: HandlerResult,
    pub persist: bool,
}

/// What one request line, arriving at time `now`, does to the ledger and
/// what it answers.
pub open spec fn request_transition(
    pre: DaemonState,
    post: DaemonState,
    line: Seq<char>,
    now: u64,
    o: RequestOutcome,
) -> bool {
    match spec_parse(line) {
        Some(RequestView::Stop) => {
            &&& o.result == HandlerResult::Shutdown
            &&& !o.persist
            &&& post.in_flight@ == pre.in_flight@
            &&& post.aggregated_stats@ == pre.aggregated_stats@
        },
        Some(RequestView::HealthCheck) => {
            &&& o.result == HandlerResult::Response(None::<String>)
            &&& !o.persist
            &&& post.in_flight@ == pre.in_flight@
            &&& post.aggregated_stats@ == pre.aggregated_stats@
        },
        Some(RequestView::GetStats) => {
            &&& match o.result {
                HandlerResult::Response(Some(body)) => body@ == enc_doc(pre.aggregated_stats@),
                _ => false,
            }
            &&& o.persist
            &&& post.in_flight@ == pre.in_flight@
            &&& post.aggregated_stats@ == pre.aggregated_stats@
        },
        Some(RequestView::CommandBegin { pid, command }) => {
            &&& o.result == HandlerResult::Response(None::<String>)
            &&& !o.persist
            &&& post.in_flight@.contains_key(pid)
            &&& post.in_flight@ == pre.in_flight@.insert(pid, post.in_flight@[pid])
            &&& post.in_flight@[pid].start_time == now
            &&& post.in_flight@[pid].command_text@ == command
            &&& post.aggregated_stats@ == pre.aggregated_stats@
        },
        Some(RequestView::CommandEnd { pid, exit_code }) => {
            &&& o.result == HandlerResult::Response(None::<String>)
            &&& !o.persist
            &&& end_transition(
                pre,
                post,
                pid,
                exit_code,
                now,
                if pre.in_flight@.contains_key(pid) {
                    Some(spec_elapsed(pre.in_flight@[pid].start_time, now))
                } else {
                    None
                },
            )
        },
        None => {
            &&& (if spec_trim(line) == "PING"@ {
                match o.result {
                    HandlerResult::Response(Some(body)) => body@ == "PONG\n"@,
                    _ => false,
                }
            } else {
                o.result == HandlerResult::Response(None::<String>)
            })
            &&& !o.persist
            &&& post.in_flight@ == pre.in_flight@
            &&& post.aggregated_stats@ == pre.aggregated_stats@
        },
    }
}

/// Handles one request line against the ledger, with the end-time of any
/// finished command taken to be `now`.
pub fn process_request_at(line: &str, state: &mut DaemonState, now: u64) -> (o: RequestOutcome)
    requires
        old(state).wf(),
    ensures
        final(state).wf(),
        request_transition(*old(state), *final(state), line@, now, o),
{
    let ghost pre = *old(state);
    match Request::from_str(line) {
        Ok(Request::Stop) => {
            let o = RequestOutcome { result: HandlerResult::Shutdown, persist: false };
            proof {
                assert(request_transition(pre, *state, line@, now, o));
            }
            o
        },
        Ok(Request::HealthCheck) => {
            let o = RequestOutcome { result: HandlerResult::Response(None), persist: false };
            proof {
                assert(request_transition(pre, *state, line@, now, o));
            }
            o
        },
        Ok(Request::GetStats) => {
            let body = encode_stats_json(&state.aggregated_stats);
            let o = RequestOutcome { result: HandlerResult::Response(Some(body)), persist: true };
            proof {
                assert(request_transition(pre, *state, line@, now, o));
            }
            o
        },
        Ok(Request::CommandBegin { pid, command }) => {
            let ghost c0 = command;
            state.handle_start_at(pid, command, now);
            let o = RequestOutcome { result: HandlerResult::Response(None), persist: false };
            proof {
                assert(state.in_flight@ == pre.in_flight@.insert(
                    pid,
                    (InFlightCommand { start_time: now, command_text: c0 }),
                ));
                assert(request_transition(pre, *state, line@, now, o));
            }
            o
        },
        Ok(Request::CommandEnd { pid, exit_code }) => {
            let elapsed = state.handle_end_at(pid, exit_code, now);
            let o = RequestOutcome { result: HandlerResult::Response(None), persist: false };
            proof {
                assert(end_transition(pre, *state, pid, exit_code, now, elapsed));
                assert(request_transition(pre, *state, line@, now, o));
            }
            o
        },
        Err(_) => {
            let t = trim(line);
            if str_eq(t, "PING") {
                let body = "PONG\n".to_owned();
                let o = RequestOutcome {
                    result: HandlerResult::Response(Some(body)),
                    persist: false,
                };
                proof {
                    assert(request_transition(pre, *state, line@, now, o));
                }
                o
            } else {
                let o = RequestOutcome { result: HandlerResult::Response(None), persist: false };
                proof {
                    assert(request_transition(pre, *state, line@, now, o));
                }
                o
            }
        },
    }
}

/// Handles one request line against the ledger, on the daemon's clock.
pub fn process_request(line: &str, state: &mut DaemonState) -> (o: RequestOutcome)
    requires
        old(state).wf(),
    ensures
        final(state).wf(),
        exists|now: u64| request_transition(*old(state), *final(state), line@, now, o),
{
    let ghost pre = *state;
    let now = crate::daemon::state::now_nanos();
    let o = process_request_at(line, state, now);
    proof {
        assert(request_transition(pre, *state, line@, now, o));
    }
    o
}

} // verus!
