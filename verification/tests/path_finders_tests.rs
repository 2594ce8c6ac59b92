use tre::path_finders::needs_repo_check;

#[test]
fn test_needs_repo_check() {
    // Absolute paths should need checking
    assert!(needs_repo_check("/absolute/path"));
    assert!(needs_repo_check("/tmp"));

    // Paths with .. should need checking
    assert!(needs_repo_check("../parent"));
    assert!(needs_repo_check("foo/../bar"));

    // Simple relative paths should not need checking
    assert!(!needs_repo_check("relative/path"));
    assert!(!needs_repo_check("./current"));
    assert!(!needs_repo_check("."));
    assert!(!needs_repo_check("src"));
}
