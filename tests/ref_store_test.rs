use zerogit::error::Error;
use zerogit::refs::{RefStore, RefValue};
use zerogit::refs::resolver::parse_ref_content;

const A: &str = "da39a3ee5e6b4b0d3255bfef95601890afd80709";
const B: &str = "0123456789abcdef0123456789abcdef01234567";

fn store() -> RefStore {
    let mut s = RefStore::new("/repo/.git");
    s.insert("HEAD".to_string(), "ref: refs/heads/main\n".to_string());
    s.insert("refs/heads/main".to_string(), format!("{}\n", A));
    s.insert("refs/heads/feature/x".to_string(), format!("{}\n", B));
    s.insert("refs/tags/v1".to_string(), format!("{}\n", B));
    s.insert("refs/tags/alias".to_string(), "ref: refs/tags/v1\n".to_string());
    s.insert("refs/remotes/origin/main".to_string(), format!("{}\n", A));
    s
}

#[test]
fn ref_file_contents() {
    assert!(matches!(parse_ref_content(&format!("  {}  \n", A)), Ok(RefValue::Direct(_))));
    match parse_ref_content("ref: refs/heads/main\n").unwrap() {
        RefValue::Symbolic(t) => assert_eq!(t, "refs/heads/main"),
        RefValue::Direct(_) => panic!("expected a symbolic reference"),
    }
    assert!(matches!(parse_ref_content("garbage"), Err(Error::InvalidOid(_))));
}

#[test]
fn head_resolves_through_branch() {
    let s = store();
    let head = s.head().unwrap();
    assert_eq!(head.name, "refs/heads/main");
    assert_eq!(head.oid.to_hex(), A);
    assert_eq!(s.current_branch().unwrap(), Some("main".to_string()));
}

#[test]
fn detached_head_has_no_branch() {
    let mut s = RefStore::new("/repo/.git");
    s.insert("HEAD".to_string(), format!("{}\n", B));
    assert_eq!(s.current_branch().unwrap(), None);
    assert_eq!(s.head().unwrap().oid.to_hex(), B);
}

#[test]
fn listing_is_sorted() {
    let s = store();
    assert_eq!(s.branches(), vec!["feature/x".to_string(), "main".to_string()]);
    assert_eq!(s.tags(), vec!["alias".to_string(), "v1".to_string()]);
    assert_eq!(s.names_under("refs/remotes/"), vec!["origin/main".to_string()]);
}

#[test]
fn short_names_resolve_as_branch_then_tag() {
    let s = store();
    assert_eq!(s.resolve("main").unwrap().name, "refs/heads/main");
    assert_eq!(s.resolve("alias").unwrap().name, "refs/tags/v1");
    assert_eq!(s.resolve("refs/tags/v1").unwrap().oid.to_hex(), B);
    assert!(matches!(s.resolve("nothing"), Err(Error::RefNotFound(_))));
}

#[test]
fn missing_and_cyclic_references() {
    let mut s = RefStore::new("/repo/.git");
    s.insert("refs/heads/a".to_string(), "ref: refs/heads/b".to_string());
    s.insert("refs/heads/b".to_string(), "ref: refs/heads/a".to_string());
    assert!(matches!(s.resolve_recursive("refs/heads/a"), Err(Error::InvalidRefName(_))));
    assert!(matches!(s.read_ref_file("refs/heads/zzz"), Err(Error::RefNotFound(_))));
    let mut chain = RefStore::new("/repo/.git");
    for i in 0..9 {
        chain.insert(format!("r{}", i), format!("ref: r{}", i + 1));
    }
    chain.insert("r9".to_string(), A.to_string());
    assert_eq!(chain.resolve_recursive("r0").unwrap().name, "r9");
    chain.insert("s".to_string(), "ref: r0".to_string());
    assert_eq!(chain.resolve_recursive("s").unwrap().name, "r9");
    chain.insert("t".to_string(), "ref: s".to_string());
    assert!(matches!(chain.resolve_recursive("t"), Err(Error::InvalidRefName(_))));
    match s.resolve_recursive("refs/heads/zzz") {
        Err(Error::RefNotFound(n)) => assert_eq!(n, "refs/heads/zzz"),
        _ => panic!("expected a missing reference"),
    }
}
