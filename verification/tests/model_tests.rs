use t_trace::model::{CommandStats, StatsDB};
use t_trace::utils::format_duration;

#[test]
fn test_update_new_command() {
    let mut db = StatsDB::new();
    let command = "ls -l".to_string();
    t_trace::model::update_stats_db(&mut db, command.clone(), 150);
    let stats = db.get(&command).unwrap();
    assert_eq!(stats.count, 1);
    assert_eq!(stats.total_duration_ms, 150);
    assert_eq!(stats.latest_duration_ms, 150);
}

#[test]
fn test_update_existing_command() {
    let mut db = StatsDB::new();
    let command = "git status".to_string();
    db.insert(
        command.clone(),
        CommandStats {
            count: 5,
            total_duration_ms: 1000,
            latest_duration_ms: 100,
        },
    );
    t_trace::model::update_stats_db(&mut db, command.clone(), 250);
    let stats = db.get(&command).unwrap();
    assert_eq!(stats.count, 6);
    assert_eq!(stats.total_duration_ms, 1250);
    assert_eq!(stats.latest_duration_ms, 250);
}

#[test]
fn test_format_duration_milliseconds() {
    assert_eq!(format_duration(0), "0ms");
    assert_eq!(format_duration(999), "999ms");
}

#[test]
fn test_format_duration_seconds() {
    assert_eq!(format_duration(1000), "1.00s");
    assert_eq!(format_duration(1520), "1.52s");
}

#[test]
fn test_format_duration_minutes_and_seconds() {
    assert_eq!(format_duration(60_000), "1m 0s");
    assert_eq!(format_duration(135_000), "2m 15s");
}

#[test]
fn format_duration_rounds_to_the_nearest_hundredth() {
    assert_eq!(format_duration(1994), "1.99s");
    assert_eq!(format_duration(1995), "2.00s");
    assert_eq!(format_duration(1996), "2.00s");
    assert_eq!(format_duration(59_999), "60.00s");
    assert_eq!(format_duration(1001), "1.00s");
    assert_eq!(format_duration(61_000), "1m 1s");
}

#[test]
fn config_paths_sit_under_the_home_directory() {
    let config = t_trace::config::AppConfig::new("/home/someone");
    assert_eq!(config.stats_path, "/home/someone/.t_trace/stats.json");
    assert_eq!(config.temp_path, "/home/someone/.t_trace/.temp_entry");
}

#[test]
fn socket_path_embeds_the_uid() {
    assert_eq!(
        t_trace::socket::socket_path_for_uid(1000),
        "/tmp/t_trace.1000.sock"
    );
    assert_eq!(t_trace::socket::socket_path_for_uid(0), "/tmp/t_trace.0.sock");
}
