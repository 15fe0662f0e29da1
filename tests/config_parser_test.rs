use zerogit::config::parser::{parse, parse_key_value, parse_section_header};

#[test]
fn test_parse_simple_section() {
    let (section, subsection) = parse_section_header("[core]").unwrap();
    assert_eq!(section, "core");
    assert_eq!(subsection, "");
}

#[test]
fn test_parse_section_with_subsection() {
    let (section, subsection) = parse_section_header("[remote \"origin\"]").unwrap();
    assert_eq!(section, "remote");
    assert_eq!(subsection, "origin");
}

#[test]
fn test_parse_section_with_escaped_subsection() {
    let (section, subsection) = parse_section_header("[section \"sub\\\"section\"]").unwrap();
    assert_eq!(section, "section");
    assert_eq!(subsection, "sub\"section");
}

#[test]
fn test_parse_key_value_simple() {
    let (key, value) = parse_key_value("name = John Doe").unwrap();
    assert_eq!(key, "name");
    assert_eq!(value, "John Doe");
}

#[test]
fn test_parse_key_value_no_spaces() {
    let (key, value) = parse_key_value("bare=true").unwrap();
    assert_eq!(key, "bare");
    assert_eq!(value, "true");
}

#[test]
fn test_parse_key_value_quoted() {
    let (key, value) = parse_key_value("name = \"John Doe\"").unwrap();
    assert_eq!(key, "name");
    assert_eq!(value, "John Doe");
}

#[test]
fn test_parse_key_value_with_comment() {
    let (key, value) = parse_key_value("name = John # this is a comment").unwrap();
    assert_eq!(key, "name");
    assert_eq!(value, "John");
}

#[test]
fn test_parse_key_value_with_semicolon_comment() {
    let (key, value) = parse_key_value("name = John ; this is a comment").unwrap();
    assert_eq!(key, "name");
    assert_eq!(value, "John");
}

#[test]
fn test_parse_key_value_escaped() {
    let (key, value) = parse_key_value("message = Hello\\nWorld").unwrap();
    assert_eq!(key, "message");
    assert_eq!(value, "Hello\nWorld");
}

#[test]
fn test_parse_full_config() {
    let content = r#"
[core]
bare = false
repositoryformatversion = 0

[user]
name = John Doe
email = john@example.com

[remote "origin"]
url = https://github.com/user/repo.git
fetch = +refs/heads/*:refs/remotes/origin/*

[branch "main"]
remote = origin
merge = refs/heads/main
"#;

    let config = parse(content).unwrap();

    assert_eq!(config.get("core", "bare"), Some("false"));
    assert_eq!(config.get("core", "repositoryformatversion"), Some("0"));
    assert_eq!(config.get("user", "name"), Some("John Doe"));
    assert_eq!(config.get("user", "email"), Some("john@example.com"));
    assert_eq!(
        config.get_subsection("remote", "origin", "url"),
        Some("https://github.com/user/repo.git")
    );
    assert_eq!(
        config.get_subsection("remote", "origin", "fetch"),
        Some("+refs/heads/*:refs/remotes/origin/*")
    );
    assert_eq!(
        config.get_subsection("branch", "main", "remote"),
        Some("origin")
    );
    assert_eq!(
        config.get_subsection("branch", "main", "merge"),
        Some("refs/heads/main")
    );
}

#[test]
fn test_parse_comments() {
    let content = r#"
# This is a comment
; This is also a comment
[core]
# Comment in section
bare = false ; inline comment
"#;

    let config = parse(content).unwrap();
    assert_eq!(config.get("core", "bare"), Some("false"));
}

#[test]
fn test_parse_empty_value() {
    let content = r#"
[section]
key =
"#;

    let config = parse(content).unwrap();
    assert_eq!(config.get("section", "key"), Some(""));
}

#[test]
fn test_parse_value_with_equals() {
    let content = r#"
[alias]
st = status --short
"#;

    let config = parse(content).unwrap();
    assert_eq!(config.get("alias", "st"), Some("status --short"));
}

#[test]
fn test_parse_case_sensitivity() {
    let content = r#"
[CORE]
BARE = false
"#;

    let config = parse(content).unwrap();
    // Section and key are case-insensitive
    assert_eq!(config.get("core", "bare"), Some("false"));
    assert_eq!(config.get("CORE", "BARE"), Some("false"));
}

#[test]
fn test_parse_subsection_case_sensitivity() {
    let content = r#"
[remote "Origin"]
url = https://example.com
"#;

    let config = parse(content).unwrap();
    // Subsection names are case-sensitive
    assert_eq!(
        config.get_subsection("remote", "Origin", "url"),
        Some("https://example.com")
    );
    assert_eq!(config.get_subsection("remote", "origin", "url"), None);
}
