use zerogit::config::{parse_bool, parse_int, Config};

#[test]
fn test_config_new() {
    let config = Config::new();
    assert!(config.sections().is_empty());
}

#[test]
fn test_config_set_and_get() {
    let mut config = Config::new();
    config.set("user", "", "name", "John Doe");
    config.set("user", "", "email", "john@example.com");

    assert_eq!(config.get("user", "name"), Some("John Doe"));
    assert_eq!(config.get("user", "email"), Some("john@example.com"));
    assert_eq!(config.get("user", "nonexistent"), None);
}

#[test]
fn test_config_case_insensitive_section_and_key() {
    let mut config = Config::new();
    config.set("User", "", "Name", "John Doe");

    // Section and key lookups should be case-insensitive
    assert_eq!(config.get("user", "name"), Some("John Doe"));
    assert_eq!(config.get("USER", "NAME"), Some("John Doe"));
    assert_eq!(config.get("User", "Name"), Some("John Doe"));
}

#[test]
fn test_config_subsection() {
    let mut config = Config::new();
    config.set("remote", "origin", "url", "https://github.com/test/repo");
    config.set("remote", "upstream", "url", "https://github.com/upstream/repo");

    assert_eq!(
        config.get_subsection("remote", "origin", "url"),
        Some("https://github.com/test/repo")
    );
    assert_eq!(
        config.get_subsection("remote", "upstream", "url"),
        Some("https://github.com/upstream/repo")
    );
    // Subsection names are case-sensitive
    assert_eq!(config.get_subsection("remote", "Origin", "url"), None);
}

#[test]
fn test_parse_bool() {
    assert_eq!(parse_bool("true").unwrap(), true);
    assert_eq!(parse_bool("True").unwrap(), true);
    assert_eq!(parse_bool("TRUE").unwrap(), true);
    assert_eq!(parse_bool("yes").unwrap(), true);
    assert_eq!(parse_bool("on").unwrap(), true);
    assert_eq!(parse_bool("1").unwrap(), true);

    assert_eq!(parse_bool("false").unwrap(), false);
    assert_eq!(parse_bool("False").unwrap(), false);
    assert_eq!(parse_bool("no").unwrap(), false);
    assert_eq!(parse_bool("off").unwrap(), false);
    assert_eq!(parse_bool("0").unwrap(), false);
    assert_eq!(parse_bool("").unwrap(), false);

    assert!(parse_bool("invalid").is_err());
}

#[test]
fn test_parse_int() {
    assert_eq!(parse_int("42").unwrap(), 42);
    assert_eq!(parse_int("-10").unwrap(), -10);
    assert_eq!(parse_int("0").unwrap(), 0);
    assert_eq!(parse_int("").unwrap(), 0);

    // With suffixes
    assert_eq!(parse_int("1k").unwrap(), 1024);
    assert_eq!(parse_int("2K").unwrap(), 2048);
    assert_eq!(parse_int("1m").unwrap(), 1024 * 1024);
    assert_eq!(parse_int("1M").unwrap(), 1024 * 1024);
    assert_eq!(parse_int("1g").unwrap(), 1024 * 1024 * 1024);
    assert_eq!(parse_int("1G").unwrap(), 1024 * 1024 * 1024);

    assert!(parse_int("abc").is_err());
}

#[test]
fn test_config_get_bool() {
    let mut config = Config::new();
    config.set("core", "", "autocrlf", "true");
    config.set("core", "", "bare", "false");

    assert_eq!(config.get_bool("core", "autocrlf").unwrap(), true);
    assert_eq!(config.get_bool("core", "bare").unwrap(), false);
    // Non-existent key returns false
    assert_eq!(config.get_bool("core", "nonexistent").unwrap(), false);
}

#[test]
fn test_config_get_int() {
    let mut config = Config::new();
    config.set("http", "", "postBuffer", "100m");

    assert_eq!(config.get_int("http", "postBuffer").unwrap(), 100 * 1024 * 1024);
    // Non-existent key returns 0
    assert_eq!(config.get_int("http", "nonexistent").unwrap(), 0);
}

#[test]
fn test_config_sections() {
    let mut config = Config::new();
    config.set("core", "", "bare", "false");
    config.set("user", "", "name", "John");
    config.set("remote", "origin", "url", "https://example.com");

    let sections = config.sections();
    assert!(sections.contains(&"core".to_string()));
    assert!(sections.contains(&"user".to_string()));
    assert!(sections.contains(&"remote".to_string()));
}

#[test]
fn test_config_subsections() {
    let mut config = Config::new();
    config.set("remote", "origin", "url", "https://example.com");
    config.set("remote", "upstream", "url", "https://upstream.com");
    config.set("remote", "", "default", "origin");

    let subsections = config.subsections("remote");
    assert!(subsections.contains(&"origin".to_string()));
    assert!(subsections.contains(&"upstream".to_string()));
    // Empty subsection is excluded
    assert!(!subsections.contains(&"".to_string()));
}

#[test]
fn test_config_keys() {
    let mut config = Config::new();
    config.set("user", "", "name", "John");
    config.set("user", "", "email", "john@example.com");

    let keys = config.keys("user");
    assert!(keys.contains(&"name".to_string()));
    assert!(keys.contains(&"email".to_string()));
}

#[test]
fn test_config_merge() {
    let mut config1 = Config::new();
    config1.set("user", "", "name", "John");
    config1.set("core", "", "bare", "false");

    let mut config2 = Config::new();
    config2.set("user", "", "name", "Jane"); // Override
    config2.set("user", "", "email", "jane@example.com"); // New

    config1.merge(&config2);

    assert_eq!(config1.get("user", "name"), Some("Jane"));
    assert_eq!(config1.get("user", "email"), Some("jane@example.com"));
    assert_eq!(config1.get("core", "bare"), Some("false"));
}
