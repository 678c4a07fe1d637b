use cki::tools::transaction::{EntryKind, EntryStep};
use cki::tools::transaction::charge_snapshot;
use cki::tools::transaction::{
    fnv1a_64, is_skipped_dir, snapshot_in_order, sort_strings, GitIgnore, WorkspaceDiff, WorkspaceTransaction,
};

fn files(list: &[(&str, &str)]) -> Vec<(String, Vec<u8>)> {
    list.iter().map(|(p, c)| (p.to_string(), c.as_bytes().to_vec())).collect()
}

fn strings(list: &[&str]) -> Vec<String> {
    list.iter().map(|s| s.to_string()).collect()
}

#[test]
fn reports_added_modified_and_deleted_files() {
    let t = WorkspaceTransaction::from_snapshot("/w".into(), files(&[("keep.txt", "keep"), ("src/a.rs", "before")]), 1_000_000);
    let now = files(&[("new.txt", "new"), ("src/a.rs", "after")]);
    let diff = t.diff_with(&now);
    assert_eq!(diff.modified, vec!["src/a.rs"]);
    assert_eq!(diff.deleted, vec!["keep.txt"]);
    assert_eq!(diff.added, vec!["new.txt"]);
    assert!(!diff.is_empty());
    assert_eq!(diff.summary(), "added: new.txt; modified: src/a.rs; deleted: keep.txt");
}

#[test]
fn unchanged_snapshot_is_empty() {
    let t = WorkspaceTransaction::from_snapshot("/w".into(), files(&[("a", "1")]), 10);
    let diff = t.diff_with(&files(&[("a", "1")]));
    assert!(diff.is_empty());
    assert_eq!(diff.summary(), "no workspace changes");
}

#[test]
fn checksum_is_stable_and_content_agnostic_on_paths() {
    let d1 = WorkspaceDiff { added: strings(&["b", "a"]), modified: strings(&["m"]), deleted: vec![], diff_content: vec![] };
    let d2 = WorkspaceDiff { added: strings(&["a", "b"]), modified: strings(&["m"]), deleted: vec![], diff_content: vec!["x".into()] };
    let d3 = WorkspaceDiff { added: strings(&["a"]), modified: strings(&["m"]), deleted: vec![], diff_content: vec![] };
    assert_eq!(d1.checksum(), d2.checksum());
    assert_ne!(d1.checksum(), d3.checksum());
    assert_eq!(d1.checksum().len(), 16);
    assert_eq!(d1.paths(), strings(&["a", "b", "m"]));
}

#[test]
fn fnv_known_values() {
    assert_eq!(fnv1a_64(b""), 0xcbf29ce484222325);
    assert_eq!(fnv1a_64(b"a"), 0xaf63dc4c8601ec8c);
    assert_eq!(fnv1a_64(b"foobar"), 0x85944171f73967e8);
}

#[test]
fn baseline_digest_and_content_match() {
    let t = WorkspaceTransaction::from_snapshot("/w".into(), files(&[("a.txt", "foobar")]), 100);
    assert_eq!(t.baseline_content("a.txt"), Some(b"foobar".to_vec()));
    assert_eq!(t.baseline_digest("a.txt"), Some("85944171f73967e8".to_string()));
    assert_eq!(t.baseline_content("b.txt"), None);
    assert_eq!(t.baseline_digest("b.txt"), None);
    let u = WorkspaceTransaction::from_snapshot("/w".into(), files(&[("a.txt", "foo"), ("b", "bar")]), 100);
    assert_ne!(t.fingerprint(), u.fingerprint());
    assert_eq!(t.fingerprint(), WorkspaceTransaction::from_snapshot("/x".into(), files(&[("a.txt", "foobar")]), 5).fingerprint());
}

#[test]
fn whole_file_diffs() {
    assert_eq!(
        WorkspaceTransaction::new_file_diff("n.txt", "a\nb\n"),
        "--- a/n.txt\n+++ b/n.txt\n@@ -0,0 +1,2 @@\n+a\n+b\n"
    );
    assert_eq!(
        WorkspaceTransaction::removed_file_diff("o.txt", "x"),
        "--- a/o.txt\n+++ b/o.txt\n@@ -1,1 +0,0 @@\n-x\n"
    );
}

#[test]
fn gitignore_rules_match_paths() {
    let gi = GitIgnore::from_content("# comment\n\n/build/\n*.log\nsecret\n");
    assert_eq!(gi.patterns, strings(&["/build/", "*.log", "secret"]));
    assert!(gi.is_ignored("build", true));
    assert!(!gi.is_ignored("build", false));
    assert!(gi.is_ignored("a\\b\\x.log", false));
    assert!(gi.is_ignored("secret/inner.txt", false));
    assert!(gi.is_ignored("deep/secret", false));
    assert!(!gi.is_ignored("secretive", false));
    assert!(!gi.skips_file(".gitignore"));
    assert!(gi.skips_file("run.log"));
    assert!(is_skipped_dir("node_modules"));
    assert!(!is_skipped_dir("src"));
    assert_eq!(sort_strings(strings(&["b", "B", "a", "b"])), strings(&["B", "a", "b", "b"]));
}

#[test]
fn walked_entries_are_skipped_entered_or_read() {
    let gi = GitIgnore::from_content("/build/\n*.log\n");
    assert_eq!(gi.entry_step(EntryKind::Symlink, "src", "src"), EntryStep::Skip);
    assert_eq!(gi.entry_step(EntryKind::Other, "fifo", "fifo"), EntryStep::Skip);
    assert_eq!(gi.entry_step(EntryKind::Dir, "target", "target"), EntryStep::Skip);
    assert_eq!(gi.entry_step(EntryKind::Dir, "build", "build"), EntryStep::Skip);
    assert_eq!(gi.entry_step(EntryKind::Dir, "src", "src"), EntryStep::Descend);
    assert_eq!(gi.entry_step(EntryKind::File, "a.log", "src/a.log"), EntryStep::Skip);
    assert_eq!(gi.entry_step(EntryKind::File, "a.rs", "src/a.rs"), EntryStep::Read);
    assert_eq!(gi.entry_step(EntryKind::File, ".gitignore", ".gitignore"), EntryStep::Read);
}

#[test]
fn snapshot_budget_is_enforced() {
    assert_eq!(charge_snapshot(10, 5, 20), Ok(15));
    assert_eq!(charge_snapshot(10, 10, 20), Ok(20));
    assert_eq!(
        charge_snapshot(10, 11, 20),
        Err("workspace transaction snapshot exceeds 20 bytes".to_string())
    );
    assert!(charge_snapshot(usize::MAX, 1, usize::MAX).is_ok());
}

#[test]
fn snapshots_are_in_path_order() {
    // Paths order component by component: `src` comes before `src-old`.
    assert!(snapshot_in_order(&files(&[("src/a.rs", "1"), ("src-old/x", "2"), ("zeta", "3")])));
    assert!(!snapshot_in_order(&files(&[("src-old/x", "2"), ("src/a.rs", "1")])));
    assert!(!snapshot_in_order(&files(&[("a", "1"), ("a", "2")])));
    assert!(snapshot_in_order(&files(&[])));
}

#[test]
fn rollback_removes_new_files_and_rewrites_the_baseline() {
    let t = WorkspaceTransaction::from_snapshot("/w".into(), files(&[("keep.txt", "keep"), ("src/a.rs", "before")]), 100);
    let (remove, rewrite) = t.rollback_plan(&files(&[("new.txt", "new"), ("src/a.rs", "after")]));
    assert_eq!(remove, vec!["new.txt"]);
    assert_eq!(rewrite, files(&[("keep.txt", "keep"), ("src/a.rs", "before")]));
    let u = t.clone();
    assert_eq!(u.fingerprint(), t.fingerprint());
    assert_eq!(
        WorkspaceTransaction::modified_file_diff("src/a.rs", "@@ -1 +1 @@\n-before\n+after\n"),
        "--- a/src/a.rs\n+++ b/src/a.rs\n@@ -1 +1 @@\n-before\n+after\n"
    );
}
