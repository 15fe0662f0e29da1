use zerogit::objects::Oid;
use zerogit::refs::{Branch, BranchList};

const TEST_OID: &str = "da39a3ee5e6b4b0d3255bfef95601890afd80709";
const TEST_OID2: &str = "0123456789abcdef0123456789abcdef01234567";

fn test_oid() -> Oid {
    Oid::from_hex(TEST_OID).unwrap()
}

fn test_oid2() -> Oid {
    Oid::from_hex(TEST_OID2).unwrap()
}

// BR-001: Branch::new creates non-current branch
#[test]
fn test_branch_new() {
    let branch = Branch::new("main", test_oid());

    assert_eq!(branch.name(), "main");
    assert_eq!(branch.oid().to_hex(), TEST_OID);
    assert!(!branch.is_current());
}

// BR-002: Branch::current creates current branch
#[test]
fn test_branch_current() {
    let branch = Branch::current("main", test_oid());

    assert_eq!(branch.name(), "main");
    assert!(branch.is_current());
}

// BR-003: reference_name returns full ref path
#[test]
fn branch_test_reference_name() {
    let branch = Branch::new("main", test_oid());
    assert_eq!(branch.reference_name(), "refs/heads/main");

    let nested = Branch::new("feature/my-feature", test_oid());
    assert_eq!(nested.reference_name(), "refs/heads/feature/my-feature");
}

// BR-004: short_oid returns 7 character OID
#[test]
fn branch_test_short_oid() {
    let branch = Branch::new("main", test_oid());
    assert_eq!(branch.short_oid().len(), 7);
    assert_eq!(branch.short_oid(), "da39a3e");
}

// BR-005: Display shows branch with marker
#[test]
fn test_branch_display() {
    let current = Branch::current("main", test_oid());
    let other = Branch::new("develop", test_oid());

    assert_eq!(current.display(), "* main");
    assert_eq!(other.display(), "  develop");
}

// BR-006: BranchList operations
#[test]
fn test_branch_list() {
    let mut list = BranchList::new();

    list.push(Branch::new("develop", test_oid()));
    list.push(Branch::current("main", test_oid2()));
    list.push(Branch::new("feature", test_oid()));

    assert_eq!(list.len(), 3);
    assert!(!list.is_empty());

    let current = list.current().unwrap();
    assert_eq!(current.name(), "main");

    let found = list.find("develop").unwrap();
    assert_eq!(found.name(), "develop");

    assert!(list.find("nonexistent").is_none());
}

// BR-007: BranchList sorting
#[test]
fn test_branch_list_sort() {
    let mut list = BranchList::new();

    list.push(Branch::new("zebra", test_oid()));
    list.push(Branch::new("alpha", test_oid()));
    list.push(Branch::new("main", test_oid()));

    list.sort_by_name();

    let names: Vec<_> = list.iter().map(|b| b.name()).collect();
    assert_eq!(names, vec!["alpha", "main", "zebra"]);
}

// BR-008: BranchList iteration
#[test]
fn test_branch_list_iteration() {
    let mut list = BranchList::new();
    list.push(Branch::new("a", test_oid()));
    list.push(Branch::new("b", test_oid()));

    let names: Vec<_> = list.iter().map(|b| b.name()).collect();
    assert_eq!(names, vec!["a", "b"]);

    // IntoIterator for &BranchList
    let names: Vec<_> = list.as_slice().into_iter().map(|b| b.name()).collect();
    assert_eq!(names, vec!["a", "b"]);

    // IntoIterator for BranchList (consuming)
    let names: Vec<_> = list.branches.into_iter().map(|b| b.name().to_string()).collect();
    assert_eq!(names, vec!["a", "b"]);
}

// BR-009: set_current modifies branch
#[test]
fn test_set_current() {
    let mut branch = Branch::new("main", test_oid());
    assert!(!branch.is_current());

    branch.set_current(true);
    assert!(branch.is_current());

    branch.set_current(false);
    assert!(!branch.is_current());
}

// Additional: Branch implements Clone and PartialEq
#[test]
fn test_branch_traits() {
    let branch1 = Branch::new("main", test_oid());
    let branch2 = branch1.clone();

    assert_eq!(branch1, branch2);
}
