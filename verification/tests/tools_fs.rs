use cki::tools::fs::{edit_text, multi_edit_text, normalize_denylist, read_range, render_tree, replace_exact_text, FileTools, MultiEdit};

fn edit(start: usize, end: usize, old: Option<&str>, new: &str) -> MultiEdit {
    MultiEdit { start_line: start, end_line: end, old_content: old.map(String::from), new_content: new.into() }
}

#[test]
fn replace_exact_changes_one_match() {
    assert_eq!(replace_exact_text("before unique after", "unique", "changed"), Ok("before changed after".to_string()));
}

#[test]
fn replace_exact_leaves_stale_or_ambiguous_files_untouched() {
    assert_eq!(
        replace_exact_text("same same", "missing", "x"),
        Err("expected exactly one match, found 0; file was not changed".to_string())
    );
    assert_eq!(
        replace_exact_text("same same", "same", "x"),
        Err("expected exactly one match, found 2; file was not changed".to_string())
    );
    assert_eq!(replace_exact_text("aaa", "", "x"), Err("old text must not be empty".to_string()));
    assert_eq!(replace_exact_text("aaa", "aa", "x"), Ok("xa".to_string()));
}

#[test]
fn ranged_read_is_bounded() {
    let range = read_range(Some("one\ntwo\nthree\n"), 2, 3).unwrap();
    assert!(range.contains("2  two"));
    assert!(!range.contains("one"));
    assert_eq!(range, "[lines 2-3 of 3]\n     2  two\n     3  three");
    assert_eq!(read_range(Some("a"), 2, 9), Ok("[lines 2-1 of 1]\n".to_string()));
    assert_eq!(read_range(Some("a"), 0, 9), Err("line range must be 1-based and end_line >= start_line".to_string()));
    assert_eq!(read_range(None, 1, 1), Err("file not found or path is outside workspace".to_string()));
}

#[test]
fn edit_file_replaces_line_range_surgically() {
    assert_eq!(
        edit_text("line 1\nline 2\nline 3\nline 4\n", Some(2), Some(3), Some("line 2\nline 3"), "NEW LINE 2AND3"),
        Ok("line 1\nNEW LINE 2AND3\nline 4\n".to_string())
    );
}

#[test]
fn edit_file_errors() {
    assert_eq!(
        edit_text("a\nb", Some(4), Some(4), None, "x"),
        Err("start_line 4 is out of bounds (file has 2 lines)".to_string())
    );
    assert_eq!(edit_text("a\nb", Some(2), Some(1), None, "x"), Err("end_line 1 must be >= start_line 2".to_string()));
    assert_eq!(
        edit_text("a\nb", Some(1), Some(1), Some("z"), "x"),
        Err("content mismatch at lines 1-1:\nExpected:\nz\n\nActual:\na".to_string())
    );
    assert_eq!(edit_text("a\nb", None, Some(1), None, "x"), Err("start_line/end_line or old_content must be provided".to_string()));
    assert_eq!(edit_text("a\nb", None, None, Some("b"), "c"), Ok("a\nc".to_string()));
    // Appending after the last line.
    assert_eq!(edit_text("a\n", Some(2), Some(5), None, "b"), Ok("a\nb\n".to_string()));
}

#[test]
fn multi_edit_file_applies_non_overlapping_edits() {
    let edits = vec![edit(1, 1, None, "A"), edit(3, 4, None, "C\nD2"), edit(6, 6, None, "F2")];
    assert_eq!(multi_edit_text("a\nb\nc\nd\ne\nf\n", &edits), Ok("A\nb\nC\nD2\ne\nF2\n".to_string()));
}

#[test]
fn multi_edit_file_rejects_overlapping_edits() {
    let edits = vec![edit(2, 3, None, "x"), edit(3, 4, None, "y")];
    assert_eq!(
        multi_edit_text("a\nb\nc\nd\n", &edits),
        Err("overlapping edits are not allowed: lines 2-3 overlaps lines 3-4".to_string())
    );
}

#[test]
fn multi_edit_file_validates_old_content() {
    let edits = vec![edit(1, 1, Some("wrong"), "ALPHA")];
    assert!(multi_edit_text("alpha\nbeta\n", &edits).is_err());
    assert_eq!(multi_edit_text("x", &[]), Err("edits must not be empty".to_string()));
}

#[test]
fn denylist_entries_normalized() {
    let entries = vec!["\\.git\\".to_string(), "/secrets/keys/".to_string(), "//".to_string()];
    assert_eq!(normalize_denylist(&entries), vec![".git".to_string(), "secrets/keys".to_string()]);
}

#[test]
fn denylist_blocks_workspace_relative_prefix() {
    let tools = FileTools::new_with_policy("/ws".into(), vec!["/opt/ok".into()], vec![".git".into(), "secrets/keys".into()]);
    assert_eq!(tools.workspace_root(), "/ws");
    assert!(tools.denylisted("/ws/.git/config"));
    assert!(tools.denylisted("/ws/secrets/keys/private.key"));
    assert!(!tools.denylisted("/ws/secrets/other.txt"));
    assert!(!tools.denylisted("/elsewhere/.git"));
    assert!(tools.contains_path("/ws/a"));
    assert!(!tools.contains_path("/wsx/a"));
    assert!(tools.allowed_outside("/opt/ok/file"));
    assert!(!tools.allowed_outside("/opt/other"));
}

#[test]
fn tree_listing_sorted_and_truncated() {
    let entries = vec!["src/".to_string(), "a.txt".to_string(), "src/lib.rs".to_string()];
    assert_eq!(render_tree(entries.clone(), 10), "a.txt\nsrc/\nsrc/lib.rs");
    assert_eq!(render_tree(entries, 3), "a.txt\nsrc/\nsrc/lib.rs\n...[truncated at 3 entries]");
}
