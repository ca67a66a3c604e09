use t_trace::dto::CommandStats;
use t_trace::handlers::filter_stats;

fn dummy_command_stats(count: u64) -> CommandStats {
    CommandStats {
        count: count + count,
        total_duration: 1_000_000_000,
        last_run_duration: 1_000_000_000,
        success_count: count,
        fail_count: count,
    }
}

#[test]
fn filter_stats_with_no_filter() {
    let stats = vec![
        ("git status".to_string(), dummy_command_stats(10)),
        ("ls -l".to_string(), dummy_command_stats(5)),
    ];
    let filtered = filter_stats(stats, &None);
    assert_eq!(filtered.len(), 2);
}

#[test]
fn filter_stats_with_matching_filter() {
    let stats = vec![
        ("git status".to_string(), dummy_command_stats(10)),
        ("git push".to_string(), dummy_command_stats(8)),
        ("ls -l".to_string(), dummy_command_stats(5)),
    ];
    let filtered = filter_stats(stats, &Some("git".to_string()));
    assert_eq!(filtered.len(), 2);
    assert!(filtered.iter().all(|(cmd, _)| cmd.starts_with("git")));
}

#[test]
fn filter_stats_is_case_insensitive() {
    let stats = vec![
        ("git status".to_string(), dummy_command_stats(10)),
        ("ls -l".to_string(), dummy_command_stats(5)),
    ];
    let filtered = filter_stats(stats, &Some("GIT".to_string()));
    assert_eq!(filtered.len(), 1);
    assert!(filtered.iter().all(|(cmd, _)| cmd.starts_with("git")));
}

#[test]
fn filter_stats_with_no_matches() {
    let stats = vec![
        ("git status".to_string(), dummy_command_stats(10)),
        ("ls -l".to_string(), dummy_command_stats(5)),
    ];
    let filtered = filter_stats(stats, &Some("cargo".to_string()));
    assert!(filtered.is_empty());
}

#[test]
fn sort_orders_by_total_duration() {
    let mk = |total: u64| t_trace::dto::CommandStats {
        count: 1,
        total_duration: total,
        last_run_duration: total,
        success_count: 1,
        fail_count: 0,
    };
    let stats = vec![
        ("slow".to_string(), mk(500)),
        ("fast".to_string(), mk(10)),
        ("mid".to_string(), mk(90)),
    ];
    let sorted = t_trace::handlers::sort_stats_by_total(stats);
    assert_eq!(sorted.len(), 3);
    assert_eq!(sorted[0].0, "fast");
    assert_eq!(sorted[1].0, "mid");
    assert_eq!(sorted[2].0, "slow");
}

#[test]
fn filter_keeps_order_and_values() {
    let stats = vec![
        ("cargo build".to_string(), dummy_command_stats(1)),
        ("ls".to_string(), dummy_command_stats(2)),
        ("cargo test".to_string(), dummy_command_stats(3)),
    ];
    let filtered = filter_stats(stats, &Some("cargo".to_string()));
    assert_eq!(filtered.len(), 2);
    assert_eq!(filtered[0].0, "cargo build");
    assert_eq!(filtered[1].0, "cargo test");
    assert_eq!(filtered[1].1.success_count, 3);
}
