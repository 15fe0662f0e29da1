use zerogit::log::{parse_date, LogOptions};

#[test]
fn test_parse_date() {
    assert_eq!(parse_date("1704067200"), 1704067200);

    let ts = parse_date("2024-01-01");
    assert!(ts > 1_700_000_000 && ts < 1_710_000_000);

    assert_eq!(parse_date("invalid"), 0);
}

#[test]
fn test_log_options_builder() {
    let options = LogOptions::new()
        .path("src/")
        .path("tests/")
        .max_count(10)
        .author("Alice")
        .first_parent(true);

    assert!(options.has_path_filter());
    assert_eq!(options.get_paths().len(), 2);
}
