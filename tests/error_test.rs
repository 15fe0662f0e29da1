use zerogit::error::Error;

#[test]
fn test_error_display() {
    let error = Error::NotARepository("/tmp/not-a-repo".to_string());
    assert_eq!(error.message(), "not a git repository: /tmp/not-a-repo");

    let error = Error::ObjectNotFound("abc123".to_string());
    assert_eq!(error.message(), "object not found: abc123");

    let error = Error::InvalidOid("not-a-sha".to_string());
    assert_eq!(error.message(), "invalid object id: not-a-sha");
}

#[test]
fn test_all_error_variants() {
    let errors: Vec<Error> = vec![
        Error::Io("test".to_string()),
        Error::NotARepository("/test".to_string()),
        Error::ObjectNotFound("abc".to_string()),
        Error::RefNotFound("refs/heads/main".to_string()),
        Error::PathNotFound("/test/path".to_string()),
        Error::InvalidOid("xyz".to_string()),
        Error::InvalidRefName("bad ref".to_string()),
        Error::InvalidObject {
            oid: "abc".to_string(),
            reason: "corrupted".to_string(),
        },
        Error::InvalidIndex {
            version: 2,
            reason: "bad header".to_string(),
        },
        Error::TypeMismatch {
            expected: "commit",
            actual: "blob",
        },
        Error::InvalidUtf8,
        Error::DecompressionFailed,
        Error::RefAlreadyExists("refs/heads/main".to_string()),
        Error::CannotDeleteCurrentBranch,
        Error::EmptyCommit,
        Error::DirtyWorkingTree,
        Error::ConfigNotFound("user.name".to_string()),
        Error::AlreadyARepository("/test/repo".to_string()),
    ];

    for error in &errors {
        let _ = error.message();
        let _ = format!("{:?}", error);
    }
}
