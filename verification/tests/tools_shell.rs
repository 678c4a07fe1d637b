use cki::tools::shell::{
    command_refusal, escape_candidates, escapes_workspace, is_allowed, outside_workspace, parse_command, timeout_note, tokenize,
    CommandOutput, ShellConfig,
};

fn config() -> ShellConfig {
    ShellConfig {
        workspace_dir: "/work/space".into(),
        path_allowlist: vec!["/opt/shared".into()],
        block_workspace_escape: true,
        blocked_commands: vec!["sudo".into(), "rm -rf /".into()],
        allowed_commands: vec![],
        command_timeout_secs: 5,
    }
}

#[test]
fn combined_joins_stdout_stderr_and_exit_code() {
    let out = CommandOutput { code: Some(2), stdout: "one".into(), stderr: "boom".into(), timed_out: false };
    let c = out.combined();
    assert!(c.contains("one"));
    assert!(c.contains("STDERR:"));
    assert!(c.contains("boom"));
    assert!(c.contains("exit code: 2"));
}

#[test]
fn combined_falls_back_to_no_output_label() {
    let out = CommandOutput { code: Some(0), stdout: String::new(), stderr: String::new(), timed_out: false };
    assert_eq!(out.combined(), "(no output)");
}

#[test]
fn combined_exact_texts() {
    let out = CommandOutput { code: Some(-3), stdout: "a".into(), stderr: "e".into(), timed_out: false };
    assert_eq!(out.combined(), "a\nSTDERR:\ne\nexit code: -3");
    let out = CommandOutput { code: None, stdout: String::new(), stderr: "e".into(), timed_out: false };
    assert_eq!(out.combined(), "STDERR:\ne");
    let out = CommandOutput { code: Some(1), stdout: String::new(), stderr: String::new(), timed_out: true };
    assert_eq!(out.combined(), "exit code: 1");
    let out = CommandOutput { code: Some(0), stdout: "  \n".into(), stderr: String::new(), timed_out: false };
    assert_eq!(out.combined(), "(no output)");
}

#[test]
fn lists_decide() {
    let cfg = config();
    assert!(!is_allowed("", &cfg, false));
    assert!(!is_allowed("   ", &cfg, false));
    assert!(!is_allowed("sudo whoami", &cfg, false));
    assert!(!is_allowed("/usr/bin/SUDO.exe x", &cfg, false));
    assert!(!is_allowed("echo hi && RM -RF / now", &cfg, false));
    assert!(is_allowed("cargo check", &cfg, false));
    assert!(!is_allowed("cargo check", &cfg, true));
    let mut cfg = config();
    cfg.allowed_commands = vec!["git".into()];
    assert!(is_allowed("\"/usr/bin/git\" status", &cfg, false));
    assert!(!is_allowed("cargo build", &cfg, false));
    cfg.allowed_commands.push("*".into());
    assert!(is_allowed("cargo build", &cfg, false));
}

#[test]
fn tokens_honor_quotes() {
    assert_eq!(tokenize(" rm  'a b' \"c'd\" e"), vec!["rm", "a b", "c'd", "e"]);
    assert_eq!(tokenize(""), Vec::<String>::new());
    assert_eq!(tokenize("x\"\""), vec!["x"]);
}

#[test]
fn gate_picks_absolute_arguments_of_writers() {
    let cfg = config();
    assert_eq!(escape_candidates("rm -f /etc/passwd rel '/tmp/x'", &cfg), vec!["/etc/passwd", "/tmp/x"]);
    assert_eq!(escape_candidates("/bin/MKDIR /a", &cfg), vec!["/a"]);
    assert!(escape_candidates("git status /etc", &cfg).is_empty());
    let mut off = config();
    off.block_workspace_escape = false;
    assert!(escape_candidates("rm /etc", &off).is_empty());
    assert!(outside_workspace("/etc/passwd", &cfg));
    assert!(!outside_workspace("/work/space/sub", &cfg));
    assert!(!outside_workspace("/opt/shared/x", &cfg));
    assert!(outside_workspace("/work/spaces", &cfg));
}

#[test]
fn plain_commands_split() {
    assert_eq!(parse_command("  ls -la  "), Some(("ls".to_string(), vec!["-la".to_string()])));
    assert_eq!(parse_command("ls; rm x"), None);
    assert_eq!(parse_command("   "), None);
}

#[test]
fn refusals_and_timeouts() {
    assert_eq!(
        command_refusal("sudo x", false, false, false),
        Some("Command not in allowed list or contains blocked operation: sudo x".to_string())
    );
    assert_eq!(
        command_refusal("c", true, true, false),
        Some("Command forbidden by persistent execution policy: c".to_string())
    );
    assert!(command_refusal("c", false, true, true).unwrap().starts_with("Command rejected"));
    assert_eq!(command_refusal("c", false, false, true), None);
    assert_eq!(timeout_note("", 3), "command timed out after 3 second(s)");
    assert_eq!(timeout_note("err", 0), "err\ncommand timed out after 0 second(s)");
    assert_eq!(timeout_note("err\n", 1), "err\ncommand timed out after 1 second(s)");
}

#[test]
fn escapes_workspace_when_any_resolved_candidate_is_outside() {
    let cfg = config();
    assert!(escapes_workspace(&vec!["/work/space/a".to_string(), "/etc/passwd".to_string()], &cfg));
    assert!(!escapes_workspace(&vec!["/work/space/a".to_string(), "/opt/shared/x".to_string()], &cfg));
    assert!(!escapes_workspace(&Vec::new(), &cfg));
}
