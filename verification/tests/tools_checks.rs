use cki::tools::shell::CommandOutput;
use cki::tools::test::verification_result;
use cki::tools::test::{
    cargo_command, extract_diagnostics, format_scoped_repair_prompt, node_command, python_command, test_command_for,
    verification_status, CompilerDiagnostic, VerificationResult, VerificationStatus,
};

#[test]
fn cargo_request_is_not_misused_as_a_test_name_filter() {
    assert_eq!(cargo_command("cargo test"), "cargo test");
    assert_eq!(cargo_command("duration"), "cargo test duration");
    assert_eq!(cargo_command("cargo check"), "cargo check");
}

#[test]
fn extracts_rustc_diagnostics_correctly() {
    let stderr = r#"
error[E0499]: cannot borrow `*self` as mutable more than once at a time
  --> src/storage.rs:28:81
   |
28 |         if let (Some(from_account), Some(to_account)) = (self.get_mut(from_id), self.get_mut(to_id)) {
   |                                                         ------------------------^^^^----------------
   |                                                         ||                      |
   |                                                         ||                      second mutable borrow occurs here
help: try adding a local storing this
        "#;

    let diags = extract_diagnostics(stderr);
    assert_eq!(diags.len(), 1);
    assert_eq!(diags[0].code.as_deref(), Some("E0499"));
    assert_eq!(diags[0].file.as_deref(), Some("src/storage.rs"));
    assert_eq!(diags[0].line, Some(28));
    assert!(diags[0].message.contains("cannot borrow"));
    assert_eq!(diags[0].hints.len(), 1);
    assert!(diags[0].hints[0].contains("help: try adding a local"));

    let prompt = format_scoped_repair_prompt(&diags, Some("src/storage.rs"), stderr);
    assert!(prompt.contains("Compiler constraints to resolve in `src/storage.rs`"));
    assert!(prompt.contains("Error [E0499] in `src/storage.rs:28`"));
    assert!(prompt.contains("cannot borrow"));
    assert!(prompt.contains("help: try adding a local"));
}

#[test]
fn extracts_short_message_diagnostics_correctly() {
    let stderr = "src\\service.rs:34:9: error[E0594]: cannot assign to `from_account.balance`\nhelp: consider specifying this binding";
    let diags = extract_diagnostics(stderr);
    assert_eq!(diags.len(), 1);
    assert_eq!(diags[0].code.as_deref(), Some("E0594"));
    assert_eq!(diags[0].file.as_deref(), Some("src/service.rs"));
    assert_eq!(diags[0].line, Some(34));
}

#[test]
fn diagnostics_keep_order_and_columns() {
    let out = "error: first problem\n --> a.rs:1:2\nnote: see here\nwarning: ignored\nb.rs:7: error: second\n";
    let diags = extract_diagnostics(out);
    assert_eq!(diags.len(), 2);
    assert_eq!(diags[0].message, "first problem");
    assert_eq!(diags[0].file.as_deref(), Some("a.rs"));
    assert_eq!(diags[0].column, Some(2));
    assert_eq!(diags[0].hints, vec!["note: see here".to_string()]);
    assert_eq!(diags[1].file.as_deref(), Some("b.rs"));
    assert_eq!(diags[1].line, Some(7));
    assert_eq!(diags[1].column, None);
    assert_eq!(diags[1].code, None);
    assert!(extract_diagnostics("all good\n").is_empty());
}

#[test]
fn repair_prompt_falls_back_to_raw_output() {
    let p = format_scoped_repair_prompt(&[], None, "  boom \n");
    assert_eq!(p, "Compiler check failed:\nboom");
    let d = CompilerDiagnostic { line: Some(3), message: "bad".to_string(), ..CompilerDiagnostic::default() };
    let p = format_scoped_repair_prompt(&[d], None, "");
    assert_eq!(
        p,
        "Compiler constraints to resolve in `workspace`:\n• Error at line 3: bad\n\nOperational Constraints:\n1. Resolve these constraints using `edit_file` on the affected files.\n2. Preserve existing struct and method signatures.\n3. Do not invent non-existent root modules.\n"
    );
}

#[test]
fn runner_commands_follow_the_request() {
    assert_eq!(python_command(""), "python -m pytest -v");
    assert_eq!(python_command("tests/test_a.py"), "python -m pytest tests/test_a.py -v");
    assert_eq!(python_command("pytest -k x"), "pytest -k x");
    assert_eq!(node_command(""), "npm test");
    assert_eq!(node_command("unit"), "npm test unit");
    assert_eq!(test_command_for("  ", true, true, true), Some("cargo test".to_string()));
    assert_eq!(test_command_for("x", false, false, true), Some("npm test x".to_string()));
    assert_eq!(test_command_for("x", false, false, false), None);
    assert_eq!(verification_status(Some(0), false), VerificationStatus::Passed);
    assert_eq!(verification_status(Some(0), true), VerificationStatus::Failed);
    assert_eq!(verification_status(None, false), VerificationStatus::Failed);
    let u = VerificationResult::unavailable("none");
    assert!(!u.passed() && !u.failed());
    assert_eq!(u.output, "none");
}

#[test]
fn verification_result_is_built_from_the_command_output() {
    let ok = CommandOutput { code: Some(0), stdout: "ok".into(), stderr: String::new(), timed_out: false };
    let r = verification_result("cargo test", &ok);
    assert!(r.status == VerificationStatus::Passed);
    assert_eq!(r.command.as_deref(), Some("cargo test"));
    assert_eq!(r.exit_code, Some(0));
    assert_eq!(r.output, "ok");
    let bad = CommandOutput { code: Some(1), stdout: "ok".into(), stderr: "boom".into(), timed_out: false };
    let r = verification_result("cargo test", &bad);
    assert!(r.status == VerificationStatus::Failed);
    assert_eq!(r.output, "ok\nSTDERR:\nboom\nexit code: 1");
    let slow = CommandOutput { code: Some(0), stdout: String::new(), stderr: String::new(), timed_out: true };
    let r = verification_result("cargo test", &slow);
    assert!(r.status == VerificationStatus::Failed);
    assert!(r.timed_out);
    assert_eq!(r.output, "(no output)");
}
