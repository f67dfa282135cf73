use kvs::engine::files::{empty_logs, is_log_file, log_ids_of};
use kvs::{construct_file, log_file_name, parse_log_id, FileEntry};

fn entry(name: &str, is_file: bool, len: u64) -> FileEntry {
    FileEntry { name: name.to_string(), is_file, len }
}

#[test]
fn log_names_print_and_parse() {
    assert_eq!(log_file_name(0), "0.log");
    assert_eq!(log_file_name(42), "42.log");
    assert_eq!(parse_log_id("42.log"), Some(42));
    assert_eq!(parse_log_id("0.log"), Some(0));
    assert_eq!(parse_log_id("18446744073709551615.log"), Some(u64::MAX));
    assert_eq!(parse_log_id("18446744073709551616.log"), None);
    assert_eq!(parse_log_id("042.log"), None);
    assert_eq!(parse_log_id("+4.log"), None);
    assert_eq!(parse_log_id("a.log"), None);
    assert_eq!(parse_log_id(".log"), None);
    assert_eq!(parse_log_id("config.log"), None);
    assert_eq!(parse_log_id("7.txt"), None);
}

#[test]
fn log_extension() {
    assert!(is_log_file("1.log"));
    assert!(is_log_file("config.log"));
    assert!(!is_log_file(".log"));
    assert!(!is_log_file("1.lo"));
}

#[test]
fn empty_logs_are_swept() {
    let es = vec![entry("1.log", true, 0), entry("2.log", true, 10), entry("x.log", true, 0), entry("d.log", false, 0), entry("3.txt", true, 0)];
    assert_eq!(empty_logs(&es), vec!["1.log".to_string(), "x.log".to_string()]);
}

#[test]
fn log_ids_are_sorted() {
    let es = vec![entry("10.log", true, 5), entry("2.log", true, 5), entry("config.log", true, 3), entry("7.log", false, 0), entry("3.log", true, 1)];
    assert_eq!(log_ids_of(&es), vec![2, 3, 10]);
}

#[test]
fn log_path_in_dir() {
    assert_eq!(construct_file(5, &"/data/store".to_string()), "/data/store/5.log");
    assert_eq!(construct_file(0, &"d".to_string()), "d/0.log");
}
