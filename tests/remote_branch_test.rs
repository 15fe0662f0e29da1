use zerogit::objects::Oid;
use zerogit::refs::RemoteBranch;

const TEST_OID: &str = "da39a3ee5e6b4b0d3255bfef95601890afd80709";

fn test_oid() -> Oid {
    Oid::from_hex(TEST_OID).unwrap()
}

#[test]
fn test_remote_branch_new() {
    let rb = RemoteBranch::new("origin", "main", test_oid());

    assert_eq!(rb.remote(), "origin");
    assert_eq!(rb.name(), "main");
    assert_eq!(rb.oid().to_hex(), TEST_OID);
}

#[test]
fn test_full_name() {
    let rb = RemoteBranch::new("origin", "main", test_oid());
    assert_eq!(rb.full_name(), "origin/main");

    let rb2 = RemoteBranch::new("upstream", "feature/xyz", test_oid());
    assert_eq!(rb2.full_name(), "upstream/feature/xyz");
}

#[test]
fn remote_branch_test_reference_name() {
    let rb = RemoteBranch::new("origin", "main", test_oid());
    assert_eq!(rb.reference_name(), "refs/remotes/origin/main");

    let rb2 = RemoteBranch::new("origin", "feature/xyz", test_oid());
    assert_eq!(rb2.reference_name(), "refs/remotes/origin/feature/xyz");
}

#[test]
fn remote_branch_test_short_oid() {
    let rb = RemoteBranch::new("origin", "main", test_oid());
    assert_eq!(rb.short_oid().len(), 7);
    assert_eq!(rb.short_oid(), "da39a3e");
}

#[test]
fn remote_branch_test_display() {
    let rb = RemoteBranch::new("origin", "develop", test_oid());
    assert_eq!(rb.full_name(), "origin/develop");
}

#[test]
fn test_clone_and_eq() {
    let rb1 = RemoteBranch::new("origin", "main", test_oid());
    let rb2 = rb1.clone();
    assert_eq!(rb1, rb2);
}
