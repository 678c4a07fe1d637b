//! Git commands: the arguments each tool runs git with, and what its reply is.
use vstd::prelude::*;
use crate::text::{owned, push_str, dec, push_decimal};
use crate::textops::{trim_ws, trim_str};
use crate::repo::context::texts;
use crate::repo::spec::{utf8_lossy, lossy_text};

verus! {

/// A git operation of the tools.
#[derive(Debug, Clone, PartialEq, Eq)]
pub enum GitCommand {
    Init,
    Add(String),
    Branch(String),
    Commit(String),
    Diff(String),
    Restore(String),
    Status,
    Log(usize),
    Stash(String),
    StashPop,
    Checkout(String),
    ListBranches,
}

/// The arguments git is run with for an operation.
pub open spec fn git_args(c: GitCommand) -> Seq<Seq<char>> {
    match c {
        GitCommand::Init => seq!["init"@],
        GitCommand::Add(p) => seq!["add"@, p@],
        GitCommand::Branch(n) => seq!["checkout"@, "-b"@, n@],
        GitCommand::Commit(m) => seq!["commit"@, "-m"@, m@],
        GitCommand::Diff(t) => seq!["diff"@, t@],
        GitCommand::Restore(p) => seq!["restore"@, p@],
        GitCommand::Status => seq!["status"@],
        GitCommand::Log(n) => seq!["log"@, "--oneline"@, "-"@ + dec(n as nat)],
        GitCommand::Stash(m) => if m@.len() == 0 { seq!["stash"@] } else { seq!["stash"@, "push"@, "-m"@, m@] },
        GitCommand::StashPop => seq!["stash"@, "pop"@],
        GitCommand::Checkout(n) => seq!["checkout"@, n@],
        GitCommand::ListBranches => seq!["branch"@, "-a"@],
    }
}

impl GitCommand {
    /// The arguments git is run with (see `git_args`).
    pub fn args(&self) -> (r: Vec<String>)
        ensures
            texts(r@) == git_args(*self),
    {
        let r = match self {
            GitCommand::Init => vec![owned("init")],
            GitCommand::Add(p) => vec![owned("add"), owned(p.as_str())],
            GitCommand::Branch(n) => vec![owned("checkout"), owned("-b"), owned(n.as_str())],
            GitCommand::Commit(m) => vec![owned("commit"), owned("-m"), owned(m.as_str())],
            GitCommand::Diff(t) => vec![owned("diff"), owned(t.as_str())],
            GitCommand::Restore(p) => vec![owned("restore"), owned(p.as_str())],
            GitCommand::Status => vec![owned("status")],
            GitCommand::Log(n) => {
                let mut c = owned("-");
                push_decimal(&mut c, *n as u64);
                vec![owned("log"), owned("--oneline"), c]
            },
            GitCommand::Stash(m) => if m.as_str().unicode_len() == 0 {
                vec![owned("stash")]
            } else {
                vec![owned("stash"), owned("push"), owned("-m"), owned(m.as_str())]
            },
            GitCommand::StashPop => vec![owned("stash"), owned("pop")],
            GitCommand::Checkout(n) => vec![owned("checkout"), owned(n.as_str())],
            GitCommand::ListBranches => vec![owned("branch"), owned("-a")],
        };
        assert(texts(r@) =~= git_args(*self));
        r
    }
}

/// What a git run replies: its output trimmed, or its errors trimmed when
/// the output is blank (each decoded with invalid UTF-8 replaced).
pub open spec fn git_reply_text(stdout: Seq<u8>, stderr: Seq<u8>) -> Seq<char> {
    let s = trim_ws(utf8_lossy(stdout));
    if s.len() == 0 { trim_ws(utf8_lossy(stderr)) } else { s }
}

/// What a git run replies (see `git_reply_text`).
pub fn git_reply(stdout: &[u8], stderr: &[u8]) -> (r: String)
    ensures
        r@ == git_reply_text(stdout@, stderr@),
{
    let out = lossy_text(stdout);
    let s = trim_str(out.as_str());
    if s.as_str().unicode_len() == 0 {
        let err = lossy_text(stderr);
        trim_str(err.as_str())
    } else {
        s
    }
}

/// The reply when git cannot be run.
pub fn git_failure(error: &str) -> (r: String)
    ensures
        r@ == "Git error: "@ + error@,
{
    let mut r = owned("Git error: ");
    push_str(&mut r, error);
    r
}

} // verus!
