use json_reordering::paths::{generate_output_path, log_file_location, output_path_for, LogPathError};

#[test]
fn output_path_strips_extensions_and_adds_suffix() {
    assert_eq!(generate_output_path("data/events.jsonl.zst", "sorted"), "data/events_sorted.jsonl.zst");
    assert_eq!(generate_output_path("/tmp/run.log.zst", "original"), "/tmp/run.log_original.jsonl.zst");
    assert_eq!(generate_output_path("archive.jsonl", "sorted"), "archive_sorted.jsonl.zst");
}

#[test]
fn output_path_strips_only_zst_and_jsonl() {
    assert_eq!(generate_output_path("dir/data.gz", "sorted"), "dir/data.gz_sorted.jsonl.zst");
    assert_eq!(generate_output_path("dir/data.json.zst", "random"), "dir/data.json_random.jsonl.zst");
    assert_eq!(generate_output_path("dir/.zst", "sorted"), "dir/_sorted.jsonl.zst");
}

#[test]
fn output_paths_differ_by_suffix() {
    let names: Vec<String> = ["original", "sorted", "random"]
        .iter()
        .map(|s| generate_output_path("in/x.jsonl.zst", s))
        .collect();
    assert_ne!(names[0], names[1]);
    assert_ne!(names[1], names[2]);
    assert_ne!(names[0], names[2]);
}

#[test]
fn output_path_without_directory() {
    assert_eq!(generate_output_path("events.zst", "random"), "events_random.jsonl.zst");
}

#[test]
fn output_path_needs_a_file_name() {
    assert_eq!(output_path_for("", "sorted"), None);
    assert_eq!(output_path_for("/", "sorted"), None);
    assert_eq!(output_path_for("a/..", "sorted"), None);
    assert_eq!(output_path_for("a/b.jsonl.zst", "sorted"), Some("a/b_sorted.jsonl.zst".to_string()));
}

#[test]
fn log_location_splits_directory_and_name() {
    assert_eq!(
        log_file_location("/tmp/agent-edr.log"),
        Ok(("/tmp".to_string(), "agent-edr.log".to_string()))
    );
    assert_eq!(log_file_location("agent.log"), Ok(("".to_string(), "agent.log".to_string())));
}

#[test]
fn log_location_rejects_path_without_name() {
    assert_eq!(log_file_location("/"), Err(LogPathError::InvalidLogFilePath));
    assert_eq!(log_file_location("logs/.."), Err(LogPathError::InvalidLogFilePath));
}
