use t_trace::daemon::storage::{decode_stats_json, encode_stats_json, load_stats, LoadError};
use t_trace::dto::CommandStats;
use t_trace::strmap::StrMap;

fn stats(count: u64, total: u64, last: u64, succ: u64, fail: u64) -> CommandStats {
    CommandStats {
        count,
        total_duration: total,
        last_run_duration: last,
        success_count: succ,
        fail_count: fail,
    }
}

#[test]
fn command_stats_serialization_deserialization() {
    let original_stats = stats(5, 1_234_000_000, 150_000_000, 4, 1);
    let mut m = StrMap::new();
    m.insert("cmd".to_string(), original_stats);

    let json_string = encode_stats_json(&m);
    let decoded = decode_stats_json(&json_string).unwrap();
    let deserialized_stats = decoded.get("cmd").unwrap();
    assert_eq!(original_stats, *deserialized_stats);
}

#[test]
fn test_serialization_and_deserialization() {
    let mut db = StrMap::new();
    db.insert("cmd1".to_string(), stats(1, 10, 10, 1, 0));
    let serialized_json = encode_stats_json(&db);
    let deserialized_db = decode_stats_json(&serialized_json).unwrap();
    assert_eq!(deserialized_db.len(), 1);
    assert_eq!(*deserialized_db.get("cmd1").unwrap(), stats(1, 10, 10, 1, 0));
}

#[test]
fn empty_map_encodes_to_empty_object() {
    let m: StrMap<CommandStats> = StrMap::new();
    assert_eq!(encode_stats_json(&m), "{}");
    let decoded = decode_stats_json("{}").unwrap();
    assert_eq!(decoded.len(), 0);
}

#[test]
fn round_trip_keeps_every_entry_and_their_order() {
    let mut m = StrMap::new();
    m.insert("git status".to_string(), stats(2, 300, 100, 1, 1));
    m.insert("ls -l".to_string(), stats(1, 50, 50, 1, 0));
    m.insert("make -j8".to_string(), stats(7, 7_000, 900, 5, 2));

    let text = encode_stats_json(&m);
    let back = decode_stats_json(&text).unwrap();
    assert_eq!(back.len(), 3);
    assert_eq!(*back.key_at(0), "git status");
    assert_eq!(*back.key_at(1), "ls -l");
    assert_eq!(*back.key_at(2), "make -j8");
    assert_eq!(*back.get("make -j8").unwrap(), stats(7, 7_000, 900, 5, 2));
}

#[test]
fn round_trip_escapes_special_characters_in_keys() {
    let mut m = StrMap::new();
    let weird = "echo \"a\\b\"\tand a\u{1}control".to_string();
    m.insert(weird.clone(), stats(1, 1, 1, 0, 1));
    let text = encode_stats_json(&m);
    let back = decode_stats_json(&text).unwrap();
    assert!(back.get(&weird).is_some());
}

#[test]
fn encoded_document_is_pretty_printed() {
    let mut m = StrMap::new();
    m.insert("ls".to_string(), stats(1, 20, 20, 1, 0));
    let text = encode_stats_json(&m);
    let expected = "{\n  \"ls\": {\n    \"count\": 1,\n    \"total_duration\": 20,\n    \"last_run_duration\": 20,\n    \"success_count\": 1,\n    \"fail_count\": 0\n  }\n}";
    assert_eq!(text, expected);
}

#[test]
fn corrupt_documents_are_rejected() {
    assert!(decode_stats_json("").is_none());
    assert!(decode_stats_json("{").is_none());
    assert!(decode_stats_json("not json at all").is_none());
    // trailing garbage after a complete document
    let mut m = StrMap::new();
    m.insert("x".to_string(), stats(1, 1, 1, 1, 0));
    let mut text = encode_stats_json(&m);
    text.push(' ');
    assert!(decode_stats_json(&text).is_none());
}

#[test]
fn documents_violating_the_counter_invariant_are_rejected() {
    let text = "{\n  \"x\": {\n    \"count\": 5,\n    \"total_duration\": 1,\n    \"last_run_duration\": 1,\n    \"success_count\": 1,\n    \"fail_count\": 1\n  }\n}";
    assert!(decode_stats_json(text).is_none());
}

#[test]
fn loading_without_a_file_is_a_cold_start() {
    let loaded = load_stats(None).unwrap();
    assert_eq!(loaded.len(), 0);
}

#[test]
fn loading_a_saved_document_gives_the_saved_map() {
    let mut m = StrMap::new();
    m.insert("cargo check".to_string(), stats(3, 900, 250, 2, 1));
    let text = encode_stats_json(&m);
    let loaded = load_stats(Some(&text)).unwrap();
    assert_eq!(*loaded.get("cargo check").unwrap(), stats(3, 900, 250, 2, 1));
}

#[test]
fn loading_a_corrupt_document_is_fatal() {
    assert_eq!(
        load_stats(Some("half a document {")).unwrap_err(),
        LoadError::CorruptDocument
    );
    assert_eq!(load_stats(Some("")).unwrap_err(), LoadError::CorruptDocument);
}

#[test]
fn documents_with_repeated_keys_are_rejected() {
    let one = "  \"x\": {\n    \"count\": 1,\n    \"total_duration\": 1,\n    \"last_run_duration\": 1,\n    \"success_count\": 1,\n    \"fail_count\": 0\n  }";
    let text = format!("{{\n{},\n{}\n}}", one, one);
    assert!(decode_stats_json(&text).is_none());
}
