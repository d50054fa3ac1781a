use kyde::git::{push_rejected, valid_ref, GitError};

#[test]
fn push_rejected_matches_only_non_fast_forward() {
    // Real git rejection text → should trigger the rebase-and-retry recovery.
    assert!(push_rejected(
        "git [\"push\"] failed: ! [rejected]   main -> main (fetch first)\n\
         error: failed to push some refs\nhint: Updates were rejected because the remote \
         contains work that you do not have locally."
    ));
    assert!(push_rejected("Updates were rejected (non-fast-forward)"));
    // Auth/network failures must NOT auto-rebase.
    assert!(!push_rejected(
        "fatal: Authentication failed for 'https://github.com/x/y.git'"
    ));
    assert!(!push_rejected(
        "fatal: unable to access: Could not resolve host"
    ));
}

#[test]
fn valid_ref_rejects_flags_and_empty() {
    assert!(valid_ref("-f").is_err());
    assert!(valid_ref("--track").is_err());
    assert!(valid_ref("   ").is_err());
    assert!(valid_ref("").is_err());
    assert_eq!(valid_ref("feature/x").unwrap(), "feature/x");
    assert_eq!(valid_ref("  main  ").unwrap(), "main"); // trims
}

#[test]
fn messages_of_refused_names() {
    assert_eq!(valid_ref(" ").unwrap_err().message(), "empty branch name");
    assert_eq!(
        valid_ref(" -f ").unwrap_err().message(),
        "invalid branch name: \"-f\""
    );
    assert_eq!(
        GitError::Conflict("x".to_string()).message(),
        "remote has changes that conflict with yours — pull and resolve them manually (x)"
    );
}
