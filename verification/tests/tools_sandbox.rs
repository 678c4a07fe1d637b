use cki::tools::sandbox::{PathFacts, SandboxPolicy, SandboxViolation};

fn no_facts() -> PathFacts {
    PathFacts { canon_target: None, canon_target_dir: None, canon_root: None, canon_allowed_read: vec![], canon_allowed_write: vec![] }
}

#[test]
fn test_sandbox_denied_patterns() {
    let policy = SandboxPolicy::new(".".into());
    assert!(policy.check_read_path(".git/config", &no_facts()).is_err());
    assert!(policy.check_write_path("sub/.env", &no_facts()).is_err());
}

#[test]
fn test_sandbox_command_filter() {
    let policy = SandboxPolicy::new(".".into());
    assert!(policy.check_command("rm -rf /").is_err());
    assert!(policy.check_command("cargo check").is_ok());
}

#[test]
fn test_sandbox_path_traversal() {
    let policy = SandboxPolicy::new("/tmp/ws".into());
    // The path cannot be resolved, and lexically it climbs above the root.
    let res = policy.check_read_path("../../../../windows/system32", &no_facts());
    assert!(matches!(res, Err(SandboxViolation::PathTraversal(_))));
    // A resolved path inside the canonical root is given back canonical.
    let facts = PathFacts { canon_target: Some("/tmp/ws/sub/file.txt".into()), canon_root: Some("/tmp/ws".into()), ..no_facts() };
    assert_eq!(policy.check_read_path("sub/file.txt", &facts), Ok("/tmp/ws/sub/file.txt".to_string()));
}

#[test]
fn sandbox_messages_and_details() {
    let policy = SandboxPolicy::new("/w".into());
    assert_eq!(
        policy.check_read_path("a/.SSH/key", &no_facts()),
        Err(SandboxViolation::PathDenied(".ssh".into()))
    );
    assert_eq!(policy.check_read_path("x.txt", &no_facts()), Err(SandboxViolation::OutOfWorkspace("/w/x.txt".into())));
    let outside = PathFacts { canon_target: Some("/etc/x".into()), canon_root: Some("/w".into()), canon_allowed_read: vec![None, Some("/etc".into())], ..no_facts() };
    assert_eq!(policy.check_read_path("/etc/x", &outside), Ok("/etc/x".to_string()));
    // Writing: a missing directory for a relative path without `..` is joined again.
    let rel = SandboxPolicy::new("ws".into());
    assert_eq!(rel.check_write_path("new/file", &no_facts()), Ok("ws/ws/new/file".to_string()));
    let dir_in = PathFacts { canon_target_dir: Some("/w/new".into()), canon_root: Some("/w".into()), ..no_facts() };
    assert_eq!(policy.check_write_path("new/file", &dir_in), Ok("/w/new/file".to_string()));
    assert_eq!(policy.write_dir_of("/w/new/file"), "/w/new");
    let msg = SandboxViolation::CommandDenied("x".into()).message();
    assert_eq!(msg, "Command execution blocked by policy: x");
    let insecure = SandboxPolicy::new("/w".into()).with_insecure_mode(true);
    assert_eq!(insecure.check_read_path("../etc", &no_facts()), Ok("/w/../etc".to_string()));
    assert!(insecure.check_command("rm -rf /").is_ok());
    let mut offline = SandboxPolicy::new("/w".into());
    offline.allow_network = false;
    assert_eq!(offline.check_network("http://x"), Err(SandboxViolation::NetworkDenied("http://x".into())));
    assert!(policy.check_network("http://x").is_ok());
    let mut listed = SandboxPolicy::new("/w".into());
    listed.allowed_commands = vec!["cargo".into()];
    assert!(listed.check_command("cargo.exe.exe build").is_ok());
    assert_eq!(
        listed.check_command("git status"),
        Err(SandboxViolation::CommandDenied("Command 'git' is not in allowed_commands".into()))
    );
    assert!(!policy.keeps_env_var("openai_api_key"));
    assert!(!policy.keeps_env_var("AWS_REGION"));
    assert!(policy.keeps_env_var("PATH"));
}
