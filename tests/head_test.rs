use zerogit::objects::Oid;
use zerogit::refs::Head;

const TEST_OID: &str = "da39a3ee5e6b4b0d3255bfef95601890afd80709";

fn test_oid() -> Oid {
    Oid::from_hex(TEST_OID).unwrap()
}

// H-001: Head::branch creates branch state
#[test]
fn test_head_branch() {
    let head = Head::branch("main", test_oid());

    assert!(head.is_branch());
    assert!(!head.is_detached());
    assert_eq!(head.branch_name(), Some("main"));
    assert_eq!(head.oid().to_hex(), TEST_OID);
}

// H-002: Head::detached creates detached state
#[test]
fn test_head_detached() {
    let head = Head::detached(test_oid());

    assert!(head.is_detached());
    assert!(!head.is_branch());
    assert_eq!(head.branch_name(), None);
    assert_eq!(head.oid().to_hex(), TEST_OID);
}

// H-003: oid() returns correct OID for both states
#[test]
fn test_head_oid() {
    let branch_head = Head::branch("main", test_oid());
    let detached_head = Head::detached(test_oid());

    assert_eq!(branch_head.oid(), detached_head.oid());
}

// H-004: reference_name returns correct format
#[test]
fn head_test_reference_name() {
    let branch_head = Head::branch("main", test_oid());
    let detached_head = Head::detached(test_oid());

    assert_eq!(branch_head.reference_name(), "refs/heads/main");
    assert_eq!(detached_head.reference_name(), TEST_OID);
}

// H-005: Head with nested branch name
#[test]
fn test_nested_branch_name() {
    let head = Head::branch("feature/my-feature", test_oid());

    assert_eq!(head.branch_name(), Some("feature/my-feature"));
    assert_eq!(head.reference_name(), "refs/heads/feature/my-feature");
}

// Additional: Head implements Clone and PartialEq
#[test]
fn test_head_traits() {
    let head1 = Head::branch("main", test_oid());
    let head2 = head1.clone();

    assert_eq!(head1, head2);
}
