use cki::tools::patch::{affected_paths, apply_file_diff, hex16_text, parse_unified_diff, patch_result};

#[test]
fn test_apply_patch_simple() {
    let existing = "line1\nline2\nline3\n";
    let patch = r#"--- a/test.txt
+++ b/test.txt
@@ -1,3 +1,3 @@
 line1
-line2
+line2_modified
 line3
"#;
    let diffs = parse_unified_diff(patch);
    assert_eq!(diffs.len(), 1);
    let (new_content, added, removed) = apply_file_diff(Some(existing), &diffs[0]);
    let result = patch_result("test.txt".to_string(), Some(existing), &new_content, added, removed);
    assert_eq!(result.lines_added, 1);
    assert_eq!(result.lines_removed, 1);
    assert_eq!(new_content, "line1\nline2_modified\nline3\n");
}

#[test]
fn parses_paths_ranges_and_lines() {
    let patch = "--- a/src/x.rs\n+++ b/src/y.rs\n@@ -10,2 +11 @@ fn f()\n ctx\n-old\n+new\nnoise\n--- /dev/null\n+++ b/new.txt\n@@ -0,0 +1,2 @@\n+a\n+b\n";
    let d = parse_unified_diff(patch);
    assert_eq!(d.len(), 2);
    assert_eq!(d[0].old_file.as_deref(), Some("src/x.rs"));
    assert_eq!(d[0].new_file.as_deref(), Some("src/y.rs"));
    let h = &d[0].hunks[0];
    assert_eq!((h.old_start, h.old_count, h.new_start, h.new_count), (10, 2, 11, 1));
    assert_eq!(h.lines, vec![" ctx".to_string(), "-old".to_string(), "+new".to_string()]);
    assert_eq!(d[1].old_file, None);
    assert_eq!(d[1].new_file.as_deref(), Some("new.txt"));
    let (content, added, removed) = apply_file_diff(None, &d[1]);
    assert_eq!((content.as_str(), added, removed), ("a\nb\n", 2, 0));
}

#[test]
fn applies_hunks_in_place_and_keeps_missing_final_newline() {
    let existing = "a\nb\nc\nd";
    let patch = "--- a/f\n+++ b/f\n@@ -3,1 +3,1 @@\n-c\n+C\n";
    let d = parse_unified_diff(patch);
    let (content, added, removed) = apply_file_diff(Some(existing), &d[0]);
    assert_eq!(content, "a\nb\nC\nd");
    assert_eq!((added, removed), (1, 1));
}

#[test]
fn affected_paths_reports_each_target_or_an_error() {
    assert_eq!(affected_paths("--- a/x\n+++ b/y\n").unwrap(), vec!["y".to_string()]);
    assert_eq!(affected_paths("--- a/x\n+++ /dev/null\n").unwrap(), vec!["x".to_string()]);
    assert_eq!(affected_paths("--- /dev/null\n+++ /dev/null\n").unwrap_err(), "Diff missing target file path");
    assert_eq!(affected_paths("just text").unwrap_err(), "No valid file diffs found in patch");
}

#[test]
fn digests_are_sixteen_hex_digits() {
    assert_eq!(hex16_text(0xab), "00000000000000ab");
    assert_eq!(hex16_text(u64::MAX), "ffffffffffffffff");
    let r = patch_result("p".to_string(), None, "x", 0, 0);
    assert!(r.original_sha256.is_none());
    assert_eq!(r.new_sha256.len(), 16);
    assert!(r.new_sha256.chars().all(|c| c.is_ascii_hexdigit()));
}
