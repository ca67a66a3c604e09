use t_trace::daemon::process::{process_request, process_request_at, HandlerResult};
use t_trace::daemon::state::DaemonState;
use t_trace::daemon::storage::decode_stats_json;

#[test]
fn process_request_ping_responds_with_pong() {
    let mut state = DaemonState::default();
    let outcome = process_request("PING\n", &mut state);
    assert_eq!(
        outcome.result,
        HandlerResult::Response(Some("PONG\n".to_string()))
    );
    assert!(!outcome.persist);
}

#[test]
fn process_request_stop_signals_shutdown() {
    let mut state = DaemonState::default();
    let outcome = process_request("STOP\n", &mut state);
    assert_eq!(outcome.result, HandlerResult::Shutdown);
}

#[test]
fn process_request_start_modifies_state() {
    let mut state = DaemonState::default();
    let outcome = process_request("COMMAND_BEGIN 1234 ls -l", &mut state);

    assert_eq!(outcome.result, HandlerResult::Response(None));
    assert_eq!(state.in_flight.len(), 1);
    let cmd = state.in_flight.get(&1234).unwrap();
    assert_eq!(cmd.command_text, "ls -l");
}

#[test]
fn process_request_end_moves_command_to_aggregated() {
    let mut state = DaemonState::default();
    let cmd_text = "git status".to_string();
    state.handle_start(5678, cmd_text.clone());
    let outcome = process_request("COMMAND_END 5678 0", &mut state);

    assert_eq!(outcome.result, HandlerResult::Response(None));
    assert!(state.in_flight.is_empty());
    assert_eq!(state.aggregated_stats.len(), 1);
    assert!(state.aggregated_stats.contains_key(&cmd_text));
}

#[test]
fn process_request_get_stats_returns_json_response() {
    let mut state = DaemonState::default();
    state.aggregated_stats.insert(
        "cmd1".to_string(),
        t_trace::dto::CommandStats {
            count: 5,
            total_duration: 10_000_000_000,
            last_run_duration: 2_000_000_000,
            success_count: 5,
            fail_count: 0,
        },
    );

    let outcome = process_request("GET_STATS", &mut state);
    assert!(outcome.persist);
    match outcome.result {
        HandlerResult::Response(Some(json)) => {
            let stats = decode_stats_json(&json).expect("Response should be valid JSON");
            assert_eq!(stats.len(), 1);
            assert_eq!(stats.get("cmd1").unwrap().success_count, 5);
        }
        _ => panic!("Expected a response with JSON data"),
    }
}

#[test]
fn process_request_get_stats_on_empty_state_is_ok() {
    let mut state = DaemonState::default();
    let outcome = process_request("GET_STATS", &mut state);

    match outcome.result {
        HandlerResult::Response(Some(json)) => {
            assert_eq!(json, "{}");
            let stats = decode_stats_json(&json).unwrap();
            assert_eq!(stats.len(), 0);
        }
        _ => panic!("Expected a response with empty JSON data"),
    }
}

#[test]
fn process_request_invalid_input_is_handled_gracefully() {
    let mut state = DaemonState::default();
    let outcome = process_request("GARBAGE_COMMAND_DOES_NOT_EXIST", &mut state);

    assert_eq!(outcome.result, HandlerResult::Response(None));
    assert!(state.in_flight.is_empty());
    assert!(state.aggregated_stats.is_empty());
}

#[test]
fn begin_wait_end_then_stats_reports_the_run() {
    let mut state = DaemonState::default();
    process_request_at("COMMAND_BEGIN 42 git status", &mut state, 0);
    process_request_at("COMMAND_END 42 0", &mut state, 50_000_000);
    let outcome = process_request_at("GET_STATS", &mut state, 60_000_000);

    match outcome.result {
        HandlerResult::Response(Some(json)) => {
            let stats = decode_stats_json(&json).unwrap();
            let s = stats.get("git status").unwrap();
            assert_eq!(s.count, 1);
            assert_eq!(s.success_count, 1);
            assert_eq!(s.fail_count, 0);
            assert!(s.last_run_duration >= 50_000_000);
        }
        _ => panic!("Expected a JSON response"),
    }
}

#[test]
fn end_without_begin_leaves_stats_empty() {
    let mut state = DaemonState::default();
    let outcome = process_request_at("COMMAND_END 999 1", &mut state, 0);
    assert_eq!(outcome.result, HandlerResult::Response(None));
    assert!(state.in_flight.is_empty());
    assert!(state.aggregated_stats.is_empty());

    let outcome = process_request_at("GET_STATS", &mut state, 1);
    match outcome.result {
        HandlerResult::Response(Some(json)) => assert_eq!(json, "{}"),
        _ => panic!("Expected a JSON response"),
    }
}

#[test]
fn overwriting_begin_aggregates_against_the_second_command() {
    let mut state = DaemonState::default();
    process_request_at("COMMAND_BEGIN 100 sleep 1", &mut state, 0);
    process_request_at("COMMAND_BEGIN 100 sleep 2", &mut state, 1_000);
    process_request_at("COMMAND_END 100 0", &mut state, 2_000);

    assert!(state.aggregated_stats.get("sleep 1").is_none());
    let s = state.aggregated_stats.get("sleep 2").unwrap();
    assert_eq!(s.count, 1);
    assert_eq!(s.success_count, 1);
    assert_eq!(s.fail_count, 0);
}

#[test]
fn health_check_gets_no_response() {
    let mut state = DaemonState::default();
    let outcome = process_request("HEALTH_CHECK\n", &mut state);
    assert_eq!(outcome.result, HandlerResult::Response(None));
    assert!(!outcome.persist);
}
