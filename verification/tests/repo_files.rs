use dgit::files::{commit_path, credentials_path, repo_dir, repo_exists, stage_path};

#[test]
fn repository_files_sit_under_dot_dgit() {
    assert_eq!(repo_dir("/home/me/project"), "/home/me/project/.dgit");
    assert_eq!(credentials_path("/home/me/project"), "/home/me/project/.dgit/credentials");
    assert_eq!(stage_path("/home/me/project"), "/home/me/project/.dgit/stage");
    assert_eq!(commit_path("/home/me/project"), "/home/me/project/.dgit/commit");
    assert_eq!(repo_dir(""), "/.dgit");
}

#[test]
fn no_repository_in_a_missing_directory() {
    assert!(!repo_exists("/no/such/directory/for/dgit/tests"));
}
