use t_trace::daemon::state::{DaemonState, InFlightCommand};
use t_trace::dto::CommandStats;

#[test]
fn handle_start_adds_command_to_in_flight() {
    let mut state = DaemonState::default();
    let pid = 1234;
    let cmd_text = "sleep 5".to_string();

    state.handle_start(pid, cmd_text.clone());

    assert_eq!(
        state.in_flight.len(),
        1,
        "Should have one in-flight command"
    );
    assert!(
        state.aggregated_stats.is_empty(),
        "Aggregated stats should not be touched"
    );

    let in_flight_cmd = state.in_flight.get(&pid).unwrap();
    assert_eq!(in_flight_cmd.command_text, cmd_text);
}

#[test]
fn handle_end_does_nothing_for_unknown_pid() {
    let mut state = DaemonState::default();
    let unknown_pid = 999;

    let result = state.handle_end(unknown_pid, 0);

    assert!(result.is_none(), "Should return None for an unknown PID");
    assert!(
        state.in_flight.is_empty(),
        "In-flight map should remain empty"
    );
    assert!(
        state.aggregated_stats.is_empty(),
        "Aggregated stats should remain empty"
    );
}

#[test]
fn handle_end_updates_stats_for_known_pid() {
    let mut state = DaemonState::default();
    let pid = 1234;
    let cmd_text = "echo 'hello'".to_string();

    state.in_flight.insert(
        pid,
        InFlightCommand {
            start_time: 0,
            command_text: cmd_text.clone(),
        },
    );

    let result = state.handle_end_at(pid, 0, 10_000_000);

    assert!(result.is_some(), "Should return the duration");
    assert!(
        !state.aggregated_stats.is_empty(),
        "Stats should now be populated"
    );

    let stats = state.aggregated_stats.get(&cmd_text).unwrap();
    assert_eq!(stats.count, 1);
    assert_eq!(stats.success_count, 1);
    assert_eq!(stats.fail_count, 0);
    assert!(stats.total_duration >= 10_000_000);
}

#[test]
fn single_command_lifecycle() {
    let mut state = DaemonState::default();
    let cmd_text = "ls -l".to_string();
    let pid = 1234;

    state.handle_start_at(pid, cmd_text.clone(), 1_000_000);
    let duration_opt = state.handle_end_at(pid, 0, 51_000_000);

    assert!(duration_opt.is_some());
    assert!(state.in_flight.is_empty());

    let stats = state.aggregated_stats.get(&cmd_text).unwrap();
    assert_eq!(stats.count, 1);
    assert_eq!(stats.success_count, 1);
}

#[test]
fn multiple_commands_are_aggregated_correctly() {
    let mut state = DaemonState::default();
    let cmd_text = "git status".to_string();
    let pid1 = 1001;
    let pid2 = 1002;

    state.handle_start_at(pid1, cmd_text.clone(), 0);
    let duration1 = state.handle_end_at(pid1, 0, 20_000_000).unwrap();

    state.handle_start_at(pid2, cmd_text.clone(), 100_000_000);
    let duration2 = state.handle_end_at(pid2, 1, 130_000_000).unwrap();

    let stats = state.aggregated_stats.get(&cmd_text).unwrap();
    assert_eq!(stats.count, 2);
    assert_eq!(stats.success_count, 1);
    assert_eq!(stats.fail_count, 1);
    assert_eq!(stats.total_duration, duration1 + duration2);
    assert_eq!(stats.last_run_duration, duration2);
}

#[test]
fn begin_then_end_returns_exact_elapsed_time() {
    let mut state = DaemonState::default();
    state.handle_start_at(7, "make".to_string(), 5_000);
    let elapsed = state.handle_end_at(7, 0, 12_345).unwrap();
    assert_eq!(elapsed, 7_345);
}

#[test]
fn second_begin_for_same_pid_overwrites_first() {
    let mut state = DaemonState::default();
    state.handle_start_at(100, "sleep 1".to_string(), 0);
    state.handle_start_at(100, "sleep 2".to_string(), 1_000);
    assert_eq!(state.in_flight.len(), 1);

    let elapsed = state.handle_end_at(100, 0, 2_000).unwrap();
    assert_eq!(elapsed, 1_000);
    assert!(state.aggregated_stats.get("sleep 1").is_none());
    let stats = state.aggregated_stats.get("sleep 2").unwrap();
    assert_eq!(stats.count, 1);
    assert_eq!(stats.success_count, 1);
}

#[test]
fn counters_always_split_into_success_and_fail() {
    let mut state = DaemonState::default();
    let commands = ["a", "b", "a", "c", "a", "b"];
    for (i, c) in commands.iter().enumerate() {
        let pid = i as u32;
        state.handle_start_at(pid, c.to_string(), (i as u64) * 10);
        state.handle_end_at(pid, (i % 2) as i32, (i as u64) * 10 + 5);
    }
    assert!(state.check_wf());
    for key in ["a", "b", "c"] {
        let s: &CommandStats = state.aggregated_stats.get(key).unwrap();
        assert_eq!(s.count, s.success_count + s.fail_count);
    }
}

#[test]
fn clock_going_backwards_yields_zero_elapsed() {
    let mut state = DaemonState::default();
    state.handle_start_at(1, "date".to_string(), 1_000_000);
    let elapsed = state.handle_end_at(1, 0, 500).unwrap();
    assert_eq!(elapsed, 0);
}

#[test]
fn mean_duration_is_total_over_runs() {
    let s = CommandStats {
        count: 4,
        total_duration: 1_000,
        last_run_duration: 100,
        success_count: 3,
        fail_count: 1,
    };
    assert_eq!(s.mean_duration_nanos(), 250);
    let z = CommandStats::zero();
    assert_eq!(z.mean_duration_nanos(), 0);
}
