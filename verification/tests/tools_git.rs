use cki::tools::git::{git_failure, git_reply, GitCommand};

#[test]
fn git_arguments() {
    assert_eq!(GitCommand::Log(5).args(), vec!["log", "--oneline", "-5"]);
    assert_eq!(GitCommand::Stash(String::new()).args(), vec!["stash"]);
    assert_eq!(GitCommand::Stash("wip".into()).args(), vec!["stash", "push", "-m", "wip"]);
    assert_eq!(GitCommand::Branch("b".into()).args(), vec!["checkout", "-b", "b"]);
    assert_eq!(GitCommand::ListBranches.args(), vec!["branch", "-a"]);
}

#[test]
fn git_replies() {
    assert_eq!(git_reply(b"  ok\n", b"err"), "ok");
    assert_eq!(git_reply(b" \n", b" fatal: x \n"), "fatal: x");
    assert_eq!(git_failure("not found"), "Git error: not found");
}
