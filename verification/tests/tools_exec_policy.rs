use cki::tools::exec_policy::{Decision, ExecPolicy, ExecRule};

fn rule(command: &str, decision: Decision, scope: Option<&str>) -> ExecRule {
    ExecRule { command: command.into(), decision, scope: scope.map(String::from), justification: None }
}

#[test]
fn most_restrictive_matching_rule_wins() {
    let policy = ExecPolicy { rules: vec![
        ExecRule { command: "cargo *".into(), decision: Decision::Allow, scope: None, justification: None },
        ExecRule { command: "cargo test".into(), decision: Decision::Forbidden, scope: None, justification: None },
    ]};
    assert_eq!(policy.check(&["cargo".into(), "test".into()], None).0, Decision::Forbidden);
}

#[test]
fn text_round_trip_keeps_rules() {
    let policy = ExecPolicy { rules: vec![
        ExecRule {
            command: "git push".into(),
            decision: Decision::Forbidden,
            scope: Some("workspace:main".into()),
            justification: Some("No direct push to main".into()),
        },
        ExecRule { command: "cargo check".into(), decision: Decision::Allow, scope: None, justification: None },
    ]};
    let text = policy.to_text();
    assert_eq!(
        text,
        "[[rules]]\ncommand = \"git push\"\ndecision = \"forbidden\"\nscope = \"workspace:main\"\njustification = \"No direct push to main\"\n\n[[rules]]\ncommand = \"cargo check\"\ndecision = \"allow\"\n\n"
    );
    let loaded = ExecPolicy::parse(&text);
    assert_eq!(loaded.rules.len(), 2);
    assert_eq!(loaded.rules[0].command, "git push");
    assert_eq!(loaded.rules[0].decision, Decision::Forbidden);
    assert_eq!(loaded.rules[0].scope.as_deref(), Some("workspace:main"));
    assert_eq!(loaded.rules[0].justification.as_deref(), Some("No direct push to main"));
    assert_eq!(loaded.rules[1].command, "cargo check");
    assert_eq!(loaded.rules[1].decision, Decision::Allow);
    assert_eq!(loaded.rules[1].scope, None);
}

#[test]
fn parse_skips_comments_and_empty_rules() {
    let text = "# header\ncommand = \"ignored\"\n[[rules]]\ndecision = 'allow'\n[[rules]]\n  command =  'ls' \ndecision = \"FORBIDDEN\"\nother = x\n[[rules]]\ncommand = rm\ndecision = maybe\n";
    let p = ExecPolicy::parse(text);
    assert_eq!(p.rules.len(), 2);
    assert_eq!(p.rules[0].command, "ls");
    assert_eq!(p.rules[0].decision, Decision::Forbidden);
    assert_eq!(p.rules[1].command, "rm");
    assert_eq!(p.rules[1].decision, Decision::Prompt);
}

#[test]
fn check_patterns_and_ties() {
    let policy = ExecPolicy { rules: vec![
        rule("* --force", Decision::Prompt, None),
        rule("git", Decision::Allow, None),
        rule("  git push --force  ", Decision::Prompt, None),
    ]};
    let cmd: Vec<String> = vec!["git".into(), "push".into(), "--force".into()];
    let (d, r) = policy.check(&cmd, None);
    assert_eq!(d, Decision::Prompt);
    // The last of the most restrictive rules is reported.
    assert_eq!(r.unwrap().command, "  git push --force  ");
    let (d, r) = policy.check(&["ls".into()], None);
    assert_eq!(d, Decision::Prompt);
    assert!(r.is_none());
}

#[test]
fn workspace_scope_limits_rules() {
    let policy = ExecPolicy { rules: vec![rule("*", Decision::Forbidden, Some("workspace:/srv/app"))] };
    assert_eq!(policy.check(&["ls".into()], Some("/srv/app/sub")).0, Decision::Forbidden);
    assert_eq!(policy.check(&["ls".into()], Some("/srv/apple")).0, Decision::Prompt);
    assert_eq!(policy.check(&["ls".into()], None).0, Decision::Prompt);
    assert!(policy.forbids("  ls  -la ", "/srv/app"));
    assert!(!policy.forbids("ls", "/tmp"));
}
