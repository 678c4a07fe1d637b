//! Unified diffs: parsing them into file diffs and hunks, and applying a
//! file diff to a file's text.
use vstd::prelude::*;
use crate::text::{chars_of, owned, push_str, push_char, string_of, has_prefix};
use crate::textops::{trim_ws, trim_bounds, parse_usize, parse_usize_range, index_of, index_of_char, lemma_index_of,
    starts_with_str, strip_prefixes, trim_end_char, trim_end_char_bound};
use crate::ui::engine::widgets::{split_lines, text_lines};
use crate::repo::context::{texts, join, push_joined};
use crate::repo::contract::{ot, words_from};
use crate::repo::spec::split_words;

verus! {

/// A hunk of a unified diff: its ranges and its lines.
#[derive(Debug, Clone)]
pub struct DiffHunk {
    pub old_start: usize,
    pub old_count: usize,
    pub new_start: usize,
    pub new_count: usize,
    pub lines: Vec<String>,
}

/// The diff of one file: its old and new paths and its hunks.
#[derive(Debug, Clone)]
pub struct FileDiff {
    pub old_file: Option<String>,
    pub new_file: Option<String>,
    pub hunks: Vec<DiffHunk>,
}

/// A hunk as old start, old count, new start, new count and lines.
pub type HunkView = (int, int, int, int, Seq<Seq<char>>);

/// A file diff as old path, new path and hunks.
pub type FileView = (Option<Seq<char>>, Option<Seq<char>>, Seq<HunkView>);

/// The view of a hunk.
pub open spec fn hunk_view(h: DiffHunk) -> HunkView {
    (h.old_start as int, h.old_count as int, h.new_start as int, h.new_count as int, texts(h.lines@))
}

/// The views of hunks.
pub open spec fn hunks_view(v: Seq<DiffHunk>) -> Seq<HunkView> {
    v.map_values(|h: DiffHunk| hunk_view(h))
}

/// The view of a file diff.
pub open spec fn file_view(f: FileDiff) -> FileView {
    (ot(f.old_file), ot(f.new_file), hunks_view(f.hunks@))
}

/// The views of file diffs.
pub open spec fn files_view(v: Seq<FileDiff>) -> Seq<FileView> {
    v.map_values(|f: FileDiff| file_view(f))
}

/// A header path: trimmed, without one leading `prefix`, and none for
/// `/dev/null`.
pub open spec fn header_path(rest: Seq<char>, prefix: Seq<char>) -> Option<Seq<char>> {
    let p = trim_ws(rest);
    let c = if has_prefix(p, prefix) { p.subrange(prefix.len() as int, p.len() as int) } else { p };
    if c == "/dev/null"@ { None } else { Some(c) }
}

/// A number of a hunk range, 1 when it does not read.
pub open spec fn range_number(s: Seq<char>) -> int {
    match parse_usize(s) {
        Some(n) => n as int,
        None => 1,
    }
}

/// A hunk range `start,count` (or `start`, counting 1).
pub open spec fn hunk_range(s: Seq<char>) -> (int, int) {
    let k = index_of(s, ',', 0);
    if k < s.len() {
        (range_number(s.subrange(0, k)), range_number(s.subrange(k + 1, s.len() as int)))
    } else {
        (range_number(s), 1)
    }
}

/// The text without leading `c`.
pub open spec fn trim_start_char(s: Seq<char>, c: char) -> Seq<char>
    decreases s.len(),
{
    if s.len() > 0 && s[0] == c { trim_start_char(s.drop_first(), c) } else { s }
}

/// A range word without its marker (`0` when the marker is missing).
pub open spec fn range_word(w: Seq<char>, marker: char) -> Seq<char> {
    if w.len() > 0 && w[0] == marker { w.drop_first() } else { "0"@ }
}

/// The hunk a `@@ -a,b +c,d @@` header opens, when it has two words.
pub open spec fn hunk_header(line: Seq<char>) -> Option<HunkView> {
    let header = trim_ws(trim_end_char(trim_start_char(line, '@'), '@'));
    let parts = words_from(header, 0);
    if parts.len() >= 2 {
        let o = hunk_range(range_word(parts[0], '-'));
        let n = hunk_range(range_word(parts[1], '+'));
        Some((o.0, o.1, n.0, n.1, Seq::empty()))
    } else {
        None
    }
}

/// The state of the diff reader: the file diffs done, the current file
/// diff and the current hunk.
pub struct DiffState {
    pub files: Seq<FileView>,
    pub cur: Option<FileView>,
    pub hunk: Option<HunkView>,
}

/// The current file diff with the current hunk (if any) added.
pub open spec fn with_hunk(cur: Option<FileView>, hunk: Option<HunkView>) -> Option<FileView> {
    match (cur, hunk) {
        (Some(f), Some(h)) => Some((f.0, f.1, f.2.push(h))),
        _ => cur,
    }
}

/// The files with an optional file diff added.
pub open spec fn with_file(files: Seq<FileView>, cur: Option<FileView>) -> Seq<FileView> {
    match cur {
        Some(f) => files.push(f),
        None => files,
    }
}

/// The reader's state after a line.
pub open spec fn diff_step(st: DiffState, line: Seq<char>) -> DiffState {
    if has_prefix(line, "--- "@) {
        DiffState {
            files: with_file(st.files, with_hunk(st.cur, st.hunk)),
            cur: Some((header_path(line.subrange(4, line.len() as int), "a/"@), None, Seq::empty())),
            hunk: None,
        }
    } else if has_prefix(line, "+++ "@) {
        DiffState {
            cur: match st.cur {
                Some(f) => Some((f.0, header_path(line.subrange(4, line.len() as int), "b/"@), f.2)),
                None => None,
            },
            ..st
        }
    } else if has_prefix(line, "@@ "@) {
        DiffState { files: st.files, cur: with_hunk(st.cur, st.hunk), hunk: hunk_header(line) }
    } else {
        match st.hunk {
            Some(h) => if line.len() == 0 || line[0] == '+' || line[0] == '-' || line[0] == ' ' {
                DiffState { hunk: Some((h.0, h.1, h.2, h.3, h.4.push(line))), ..st }
            } else {
                st
            },
            None => st,
        }
    }
}

/// The reader's state after the first `n` lines.
pub open spec fn diff_state(lines: Seq<Seq<char>>, n: int) -> DiffState
    decreases n,
{
    if n <= 0 {
        DiffState { files: Seq::empty(), cur: None, hunk: None }
    } else {
        diff_step(diff_state(lines, n - 1), lines[n - 1])
    }
}

/// The file diffs of a unified diff.
pub open spec fn unified_diff(text: Seq<char>) -> Seq<FileView> {
    let lines = text_lines(text);
    let st = diff_state(lines, lines.len() as int);
    with_file(st.files, with_hunk(st.cur, st.hunk))
}

fn header_path_exec(line: &[char], prefix: &str) -> (r: Option<String>)
    requires
        4 <= line@.len(),
        prefix@.len() == 2,
    ensures
        ot(r) == header_path(line@.subrange(4, line@.len() as int), prefix@),
{
    proof { reveal_strlit("/dev/null"); }
    let (a, b) = trim_bounds(line, 4, line.len());
    let p = crate::textops::sub_vec(line, a, b);
    let pv = chars_of(prefix);
    let k: usize = if p.len() >= 2 && p[0] == pv[0] && p[1] == pv[1] { 2 } else { 0 };
    proof {
        if has_prefix(p@, prefix@) {
            assert(p@.subrange(0, 2)[0] == p@[0] && p@.subrange(0, 2)[1] == p@[1]);
        } else if k == 2 {
            assert(p@.subrange(0, 2) =~= prefix@);
        }
        if k == 0 {
            assert(p@.subrange(0, p@.len() as int) =~= p@);
        }
    }
    let c = string_of(p.as_slice(), k, p.len());
    let cv = chars_of(c.as_str());
    let dn = chars_of("/dev/null");
    if cv.len() == dn.len() && crate::textops::ends_with(cv.as_slice(), dn.as_slice()) {
        assert(cv@.subrange(0, cv@.len() as int) =~= cv@);
        None
    } else {
        proof {
            if cv@ == dn@ {
                assert(cv@.subrange(0, cv@.len() as int) =~= cv@);
            }
        }
        Some(c)
    }
}

fn range_number_exec(v: &[char], from: usize, to: usize) -> (r: usize)
    requires
        from <= to <= v@.len(),
    ensures
        r == range_number(v@.subrange(from as int, to as int)),
{
    match parse_usize_range(v, from, to) {
        Some(n) => n,
        None => 1,
    }
}

fn hunk_range_exec(w: &[char], marker: char) -> (r: (usize, usize))
    ensures
        (r.0 as int, r.1 as int) == hunk_range(range_word(w@, marker)),
{
    proof { reveal_strlit("0"); }
    let zero = chars_of("0");
    let v: Vec<char> = if w.len() > 0 && w[0] == marker {
        crate::textops::sub_vec(w, 1, w.len())
    } else {
        zero
    };
    assert(w@.len() > 0 && w@[0] == marker ==> v@ =~= w@.drop_first());
    let k = index_of_char(v.as_slice(), ',', 0);
    proof { lemma_index_of(v@, ',', 0); }
    if k < v.len() {
        (range_number_exec(v.as_slice(), 0, k), range_number_exec(v.as_slice(), k + 1, v.len()))
    } else {
        assert(v@.subrange(0, v@.len() as int) =~= v@);
        (range_number_exec(v.as_slice(), 0, v.len()), 1)
    }
}

fn hunk_header_exec(line: &[char]) -> (r: Option<DiffHunk>)
    ensures
        match r {
            Some(h) => hunk_header(line@) == Some(hunk_view(h)),
            None => hunk_header(line@) is None,
        },
{
    let n = line.len();
    let mut a: usize = 0;
    assert(line@.subrange(0, n as int) =~= line@);
    while a < n && line[a] == '@'
        invariant
            a <= n == line@.len(),
            trim_start_char(line@.subrange(a as int, n as int), '@') == trim_start_char(line@, '@'),
        decreases n - a,
    {
        assert(line@.subrange(a as int, n as int).drop_first() =~= line@.subrange(a + 1, n as int));
        a += 1;
    }
    let e = trim_end_char_bound(line, a, n, '@');
    let (ha, hb) = trim_bounds(line, a, e);
    let header = crate::textops::sub_vec(line, ha, hb);
    let parts = split_words(header.as_slice());
    if parts.len() >= 2 {
        let w0 = chars_of(parts[0].as_str());
        let w1 = chars_of(parts[1].as_str());
        let (os, oc) = hunk_range_exec(w0.as_slice(), '-');
        let (ns, nc) = hunk_range_exec(w1.as_slice(), '+');
        let h = DiffHunk { old_start: os, old_count: oc, new_start: ns, new_count: nc, lines: Vec::new() };
        assert(texts(h.lines@) =~= Seq::<Seq<char>>::empty());
        Some(h)
    } else {
        None
    }
}

fn push_hunk(cur: &mut Option<FileDiff>, hunk: Option<DiffHunk>)
    ensures
        opt_file(*final(cur)) == with_hunk(opt_file(*old(cur)), opt_hunk(hunk)),
{
    match hunk {
        Some(h) => {
            match cur {
                Some(f) => {
                    let ghost before = hunks_view(f.hunks@);
                    let ghost hv = hunk_view(h);
                    f.hunks.push(h);
                    assert(hunks_view(f.hunks@) =~= before.push(hv));
                },
                None => {},
            }
        },
        None => {},
    }
}

fn push_file(files: &mut Vec<FileDiff>, cur: Option<FileDiff>)
    ensures
        files_view(final(files)@) == with_file(files_view(old(files)@), opt_file(cur)),
{
    match cur {
        Some(f) => {
            let ghost before = files_view(files@);
            let ghost fv = file_view(f);
            files.push(f);
            assert(files_view(files@) =~= before.push(fv));
        },
        None => {},
    }
}

/// The optional views of an optional file diff and hunk.
pub open spec fn opt_file(f: Option<FileDiff>) -> Option<FileView> {
    match f {
        Some(g) => Some(file_view(g)),
        None => None,
    }
}

/// The optional view of an optional hunk.
pub open spec fn opt_hunk(h: Option<DiffHunk>) -> Option<HunkView> {
    match h {
        Some(g) => Some(hunk_view(g)),
        None => None,
    }
}

/// The file diffs of a unified diff (see `unified_diff`).
pub fn parse_unified_diff(diff_text: &str) -> (r: Vec<FileDiff>)
    ensures
        files_view(r@) == unified_diff(diff_text@),
{
    let lines = split_lines(diff_text);
    let ghost ls = text_lines(diff_text@);
    let mut files: Vec<FileDiff> = Vec::new();
    let mut cur: Option<FileDiff> = None;
    let mut hunk: Option<DiffHunk> = None;
    let mut i: usize = 0;
    assert(files_view(files@) =~= Seq::<FileView>::empty());
    while i < lines.len()
        invariant
            i <= lines@.len(),
            lines@.len() == ls.len(),
            ls == text_lines(diff_text@),
            forall|k: int| 0 <= k < lines@.len() ==> (#[trigger] lines@[k])@ == ls[k],
            diff_state(ls, i as int) == (DiffState { files: files_view(files@), cur: opt_file(cur), hunk: opt_hunk(hunk) }),
        decreases lines@.len() - i,
    {
        let lv = chars_of(lines[i].as_str());
        assert(lv@ == ls[i as int]);
        if starts_with_str(lv.as_slice(), "--- ") {
            proof { reveal_strlit("--- "); reveal_strlit("a/"); }
            let h = hunk.take();
            push_hunk(&mut cur, h);
            let c = cur.take();
            push_file(&mut files, c);
            let old_file = header_path_exec(lv.as_slice(), "a/");
            let f = FileDiff { old_file, new_file: None, hunks: Vec::new() };
            assert(hunks_view(f.hunks@) =~= Seq::<HunkView>::empty());
            cur = Some(f);
        } else if starts_with_str(lv.as_slice(), "+++ ") {
            proof { reveal_strlit("+++ "); reveal_strlit("b/"); }
            let p = header_path_exec(lv.as_slice(), "b/");
            match &mut cur {
                Some(f) => {
                    f.new_file = p;
                },
                None => {},
            }
        } else if starts_with_str(lv.as_slice(), "@@ ") {
            let h = hunk.take();
            push_hunk(&mut cur, h);
            hunk = hunk_header_exec(lv.as_slice());
        } else {
            match &mut hunk {
                Some(h) => {
                    if lv.len() == 0 || lv[0] == '+' || lv[0] == '-' || lv[0] == ' ' {
                        let ghost before = texts(h.lines@);
                        h.lines.push(string_of(lv.as_slice(), 0, lv.len()));
                        assert(lv@.subrange(0, lv@.len() as int) =~= lv@);
                        assert(texts(h.lines@) =~= before.push(lv@));
                    }
                },
                None => {},
            }
        }
        i += 1;
    }
    let h = hunk.take();
    push_hunk(&mut cur, h);
    push_file(&mut files, cur);
    files
}

/// Applying hunks: the output lines, the index into the original lines,
/// and the counts of added and removed lines.
pub type ApplyState = (Seq<Seq<char>>, int, int, int);

/// Copies original lines up to index `target`.
pub open spec fn copy_until(orig: Seq<Seq<char>>, st: ApplyState, target: int) -> ApplyState
    decreases orig.len() - st.1,
{
    if 0 <= st.1 && st.1 < target && st.1 < orig.len() {
        copy_until(orig, (st.0.push(orig[st.1]), st.1 + 1, st.2, st.3), target)
    } else {
        st
    }
}

/// One hunk line: `+` adds its text, `-` skips an original line, ` ` (and
/// an empty line) keeps the next original line (` ` falls back to its own
/// text past the end).
pub open spec fn apply_line(orig: Seq<Seq<char>>, st: ApplyState, line: Seq<char>) -> ApplyState {
    let (out, idx, added, removed) = st;
    if line.len() > 0 && line[0] == '+' {
        (out.push(line.drop_first()), idx, added + 1, removed)
    } else if line.len() > 0 && line[0] == '-' {
        (out, idx + 1, added, removed + 1)
    } else if line.len() > 0 && line[0] == ' ' {
        if 0 <= idx < orig.len() { (out.push(orig[idx]), idx + 1, added, removed) } else { (out.push(line.drop_first()), idx, added, removed) }
    } else if line.len() == 0 && 0 <= idx < orig.len() {
        (out.push(orig[idx]), idx + 1, added, removed)
    } else {
        st
    }
}

/// The first `k` lines of a hunk applied.
pub open spec fn apply_lines(orig: Seq<Seq<char>>, st: ApplyState, lines: Seq<Seq<char>>, k: int) -> ApplyState
    decreases k,
{
    if k <= 0 || k > lines.len() { st } else { apply_line(orig, apply_lines(orig, st, lines, k - 1), lines[k - 1]) }
}

/// The first `n` hunks applied, each after copying the lines before it.
pub open spec fn apply_hunks(orig: Seq<Seq<char>>, hunks: Seq<HunkView>, n: int) -> ApplyState
    decreases n,
{
    if n <= 0 || n > hunks.len() {
        (Seq::empty(), 0, 0, 0)
    } else {
        let h = hunks[n - 1];
        let st = copy_until(orig, apply_hunks(orig, hunks, n - 1), if h.0 > 0 { h.0 - 1 } else { 0 });
        apply_lines(orig, st, h.4, h.4.len() as int)
    }
}

/// The lines of all hunks.
pub open spec fn hunk_line_total(hunks: Seq<HunkView>) -> int
    decreases hunks.len(),
{
    if hunks.len() == 0 { 0 } else { hunk_line_total(hunks.drop_last()) + hunks.last().4.len() }
}

/// A file's text after a file diff, with the added and removed counts:
/// the output lines joined with newlines, ending in a newline when not
/// empty and the file did (or did not exist).
pub open spec fn patched(existing: Option<Seq<char>>, f: FileView) -> (Seq<char>, int, int) {
    let orig = match existing { Some(c) => text_lines(c), None => Seq::empty() };
    let st = copy_until(orig, apply_hunks(orig, f.2, f.2.len() as int), orig.len() as int);
    let body = join(st.0, "\n"@);
    let nl = body.len() > 0 && match existing { Some(c) => c.len() > 0 && c.last() == '\n', None => true };
    (if nl { body + "\n"@ } else { body }, st.2, st.3)
}

proof fn lemma_copy_until(orig: Seq<Seq<char>>, st: ApplyState, target: int)
    requires
        0 <= st.1,
    ensures
        copy_until(orig, st, target).1 >= st.1,
        copy_until(orig, st, target).1 <= if st.1 < orig.len() { orig.len() as int } else { st.1 },
        copy_until(orig, st, target).2 == st.2,
        copy_until(orig, st, target).3 == st.3,
    decreases orig.len() - st.1,
{
    if 0 <= st.1 && st.1 < target && st.1 < orig.len() {
        lemma_copy_until(orig, (st.0.push(orig[st.1]), st.1 + 1, st.2, st.3), target);
    }
}

fn copy_until_exec(orig: &Vec<String>, out: &mut Vec<String>, idx: usize, target: usize) -> (r: usize)
    ensures
        (texts(final(out)@), r as int) == ({
            let st = copy_until(texts(orig@), (texts(old(out)@), idx as int, 0, 0), target as int);
            (st.0, st.1)
        }),
{
    let ghost o = texts(orig@);
    let mut i = idx;
    while i < target && i < orig.len()
        invariant
            o == texts(orig@),
            idx <= i,
            copy_until(o, (texts(out@), i as int, 0, 0), target as int)
                == copy_until(o, (texts(old(out)@), idx as int, 0, 0), target as int),
        decreases orig@.len() - i,
    {
        let ghost before = texts(out@);
        out.push(orig[i].clone());
        assert(texts(out@) =~= before.push(o[i as int]));
        i += 1;
    }
    i
}

/// A copy-until step does not depend on the counts it carries.
proof fn lemma_copy_counts(orig: Seq<Seq<char>>, out: Seq<Seq<char>>, idx: int, target: int, a: int, b: int)
    requires
        0 <= idx,
    ensures
        copy_until(orig, (out, idx, a, b), target) == ({
            let st = copy_until(orig, (out, idx, 0, 0), target);
            (st.0, st.1, a, b)
        }),
    decreases orig.len() - idx,
{
    if idx < target && idx < orig.len() {
        lemma_copy_counts(orig, out.push(orig[idx]), idx + 1, target, a, b);
    }
}

/// A file's text after a file diff, with the added and removed counts (see
/// `patched`). The lines involved must be countable.
pub fn apply_file_diff(existing: Option<&str>, fd: &FileDiff) -> (r: (String, usize, usize))
    requires
        (match existing { Some(c) => text_lines(c@).len(), None => 0 }) + hunk_line_total(hunks_view(fd.hunks@)) < usize::MAX,
    ensures
        (r.0@, r.1 as int, r.2 as int) == patched(match existing { Some(c) => Some(c@), None => None }, file_view(*fd)),
{
    let orig: Vec<String> = match existing {
        Some(c) => split_lines(c),
        None => Vec::new(),
    };
    let ghost o = texts(orig@);
    assert(o =~= match existing { Some(c) => text_lines(c@), None => Seq::<Seq<char>>::empty() }) by {
        match existing {
            Some(c) => {
                assert forall|k: int| 0 <= k < o.len() implies o[k] == text_lines(c@)[k] by {
                    assert(o[k] == orig@[k]@);
                }
            },
            None => {},
        }
    }
    let ghost hs = hunks_view(fd.hunks@);
    let ghost cap = o.len() + hunk_line_total(hs);
    let mut out: Vec<String> = Vec::new();
    let mut idx: usize = 0;
    let mut added: usize = 0;
    let mut removed: usize = 0;
    let mut hi: usize = 0;
    assert(texts(out@) =~= Seq::<Seq<char>>::empty());
    while hi < fd.hunks.len()
        invariant
            hi <= fd.hunks@.len(),
            o == texts(orig@),
            hs == hunks_view(fd.hunks@),
            cap == o.len() + hunk_line_total(hs),
            cap < usize::MAX,
            (texts(out@), idx as int, added as int, removed as int) == apply_hunks(o, hs, hi as int),
            idx <= o.len() + hunk_line_total(hs.subrange(0, hi as int)),
            added + removed <= hunk_line_total(hs.subrange(0, hi as int)),
        decreases fd.hunks@.len() - hi,
    {
        let h = &fd.hunks[hi];
        let ghost hv = hs[hi as int];
        assert(hv == hunk_view(*h));
        proof {
            assert(hs.subrange(0, hi + 1).drop_last() =~= hs.subrange(0, hi as int));
            lemma_total_prefix(hs, hi + 1);
        }
        let target = if h.old_start > 0 { h.old_start - 1 } else { 0 };
        let ghost before = texts(out@);
        let ghost idx0 = idx;
        idx = copy_until_exec(&orig, &mut out, idx, target);
        proof {
            lemma_copy_counts(o, before, idx0 as int, target as int, added as int, removed as int);
            lemma_copy_until(o, (before, idx0 as int, 0, 0), target as int);
        }
        let ghost st0 = (texts(out@), idx as int, added as int, removed as int);
        let ghost pre = hunk_line_total(hs.subrange(0, hi as int));
        assert(pre + hv.4.len() <= hunk_line_total(hs));
        let mut li: usize = 0;
        assert(texts(h.lines@).subrange(0, 0) =~= Seq::<Seq<char>>::empty());
        while li < h.lines.len()
            invariant
                li <= h.lines@.len(),
                o == texts(orig@),
                hv == hunk_view(*h),
                cap < usize::MAX,
                pre + hv.4.len() <= hunk_line_total(hs),
                hv.4.len() == h.lines@.len(),
                cap == o.len() + hunk_line_total(hs),
                idx <= o.len() + pre + li,
                added + removed <= pre + li,
                (texts(out@), idx as int, added as int, removed as int) == apply_lines(o, st0, hv.4, li as int),
            decreases h.lines@.len() - li,
        {
            let lv = chars_of(h.lines[li].as_str());
            assert(lv@ == hv.4[li as int]);
            let ghost before_out = texts(out@);
            if lv.len() > 0 && lv[0] == '+' {
                out.push(string_of(lv.as_slice(), 1, lv.len()));
                assert(lv@.drop_first() =~= lv@.subrange(1, lv@.len() as int));
                assert(texts(out@) =~= before_out.push(lv@.drop_first()));
                added += 1;
            } else if lv.len() > 0 && lv[0] == '-' {
                idx += 1;
                removed += 1;
            } else if lv.len() > 0 && lv[0] == ' ' {
                if idx < orig.len() {
                    out.push(orig[idx].clone());
                    assert(texts(out@) =~= before_out.push(o[idx as int]));
                    idx += 1;
                } else {
                    out.push(string_of(lv.as_slice(), 1, lv.len()));
                    assert(lv@.drop_first() =~= lv@.subrange(1, lv@.len() as int));
                    assert(texts(out@) =~= before_out.push(lv@.drop_first()));
                }
            } else if lv.len() == 0 && idx < orig.len() {
                out.push(orig[idx].clone());
                assert(texts(out@) =~= before_out.push(o[idx as int]));
                idx += 1;
            }
            li += 1;
        }
        hi += 1;
    }
    let ghost before = texts(out@);
    let ghost idx0 = idx;
    idx = copy_until_exec(&orig, &mut out, idx, orig.len());
    proof {
        lemma_copy_counts(o, before, idx0 as int, o.len() as int, added as int, removed as int);
    }
    let mut body = String::new();
    push_joined(&mut body, &out, "\n");
    let nl = body.as_str().unicode_len() > 0 && match existing {
        Some(c) => {
            let cv = chars_of(c);
            cv.len() > 0 && cv[cv.len() - 1] == '\n'
        },
        None => true,
    };
    if nl {
        push_str(&mut body, "\n");
    }
    (body, added, removed)
}

proof fn lemma_total_prefix(hs: Seq<HunkView>, n: int)
    requires
        0 <= n <= hs.len(),
    ensures
        hunk_line_total(hs.subrange(0, n)) <= hunk_line_total(hs),
        n > 0 ==> hunk_line_total(hs.subrange(0, n)) == hunk_line_total(hs.subrange(0, n - 1)) + hs[n - 1].4.len(),
    decreases hs.len() - n,
{
    if n > 0 {
        assert(hs.subrange(0, n).drop_last() =~= hs.subrange(0, n - 1));
    }
    if n < hs.len() {
        lemma_total_prefix(hs, n + 1);
        assert(hs.subrange(0, n + 1).drop_last() =~= hs.subrange(0, n));
    } else {
        assert(hs.subrange(0, n) =~= hs);
    }
}

/// The path a file diff targets: the new path, else the old one.
pub open spec fn target_of(f: FileView) -> Option<Seq<char>> {
    match f.1 {
        Some(p) => Some(p),
        None => f.0,
    }
}

/// The paths a patch touches, or why it names none.
pub open spec fn affected(files: Seq<FileView>) -> Result<Seq<Seq<char>>, Seq<char>> {
    if exists|i: int| 0 <= i < files.len() && target_of(#[trigger] files[i]) is None {
        Err("Diff missing target file path"@)
    } else if files.len() == 0 {
        Err("No valid file diffs found in patch"@)
    } else {
        Ok(files.map_values(|f: FileView| target_of(f)->0))
    }
}

/// The path a file diff targets (see `target_of`).
pub fn diff_target(fd: &FileDiff) -> (r: Option<String>)
    ensures
        ot(r) == target_of(file_view(*fd)),
{
    match &fd.new_file {
        Some(p) => Some(p.clone()),
        None => match &fd.old_file {
            Some(p) => Some(p.clone()),
            None => None,
        },
    }
}

/// The paths a unified diff touches (see `affected`).
pub fn affected_paths(patch_str: &str) -> (r: Result<Vec<String>, String>)
    ensures
        match r {
            Ok(v) => affected(unified_diff(patch_str@)) == Ok::<Seq<Seq<char>>, Seq<char>>(texts(v@)),
            Err(e) => affected(unified_diff(patch_str@)) == Err::<Seq<Seq<char>>, Seq<char>>(e@),
        },
{
    let files = parse_unified_diff(patch_str);
    let ghost fv = files_view(files@);
    let mut paths: Vec<String> = Vec::new();
    let mut i: usize = 0;
    while i < files.len()
        invariant
            i <= files@.len(),
            fv == files_view(files@),
            fv == unified_diff(patch_str@),
            texts(paths@) == fv.subrange(0, i as int).map_values(|f: FileView| target_of(f)->0),
            forall|k: int| 0 <= k < i ==> target_of(#[trigger] fv[k]) is Some,
        decreases files@.len() - i,
    {
        assert(fv[i as int] == file_view(files@[i as int]));
        match diff_target(&files[i]) {
            Some(p) => {
                let ghost before = texts(paths@);
                let ghost pv = p@;
                assert(pv == target_of(fv[i as int])->0);
                paths.push(p);
                assert(texts(paths@) =~= before.push(pv));
                assert(fv.subrange(0, i + 1).map_values(|f: FileView| target_of(f)->0)
                    =~= fv.subrange(0, i as int).map_values(|f: FileView| target_of(f)->0).push(target_of(fv[i as int])->0));
            },
            None => {
                assert(target_of(fv[i as int]) is None);
                return Err(owned("Diff missing target file path"));
            },
        }
        i += 1;
    }
    if paths.len() == 0 {
        return Err(owned("No valid file diffs found in patch"));
    }
    assert(fv.subrange(0, i as int) =~= fv);
    Ok(paths)
}

/// The outcome of one file of a patch.
#[derive(Debug, Clone)]
pub struct PatchResult {
    pub file_path: String,
    pub lines_added: usize,
    pub lines_removed: usize,
    pub original_sha256: Option<String>,
    pub new_sha256: String,
}

/// A hexadecimal digit.
pub open spec fn hex_digit(d: int) -> char {
    if d < 10 { ((d + 48) as u8) as char } else { ((d + 87) as u8) as char }
}

/// `{:016x}`: sixteen lowercase hexadecimal digits.
pub open spec fn hex16(h: u64) -> Seq<char> {
    Seq::new(16, |i: int| hex_digit(((h as int) / pow16(15 - i)) % 16))
}

/// `16^k`.
pub open spec fn pow16(k: int) -> int
    decreases k,
{
    if k <= 0 { 1 } else { 16 * pow16(k - 1) }
}

/// `Hash::hash` of the bytes into a fresh `DefaultHasher`, then `finish`.
/// Nothing is stated of the value: the algorithm is unspecified and the
/// slice's length is hashed at the platform's word size.
#[verifier::external_body]
fn default_hash(bytes: &[u8]) -> u64 {
    let mut hasher = std::collections::hash_map::DefaultHasher::new();
    std::hash::Hash::hash(bytes, &mut hasher);
    std::hash::Hasher::finish(&hasher)
}

/// `{:016x}` of a value (see `hex16`).
pub fn hex16_text(h: u64) -> (s: String)
    ensures
        s@ == hex16(h),
{
    let mut s = String::new();
    let mut i: usize = 0;
    let mut div: u64 = 0x1000_0000_0000_0000;
    proof { reveal_with_fuel(pow16, 16); }
    while i < 16
        invariant
            i <= 16,
            div as int == pow16(15 - i as int) || (i == 16 && div == 0),
            s@ == hex16(h).subrange(0, i as int),
        decreases 16 - i,
    {
        proof { lemma_pow16_fits(15 - i as int); }
        let d = (h / div) % 16;
        let c: char = if d < 10 { ((d + 48) as u8) as char } else { ((d + 87) as u8) as char };
        let ghost before = s@;
        crate::text::push_char(&mut s, c);
        assert(s@ =~= hex16(h).subrange(0, i + 1));
        div = div / 16;
        proof {
            if i < 15 {
                assert(pow16(15 - i as int) == 16 * pow16(14 - i as int));
            }
        }
        i += 1;
    }
    assert(hex16(h).subrange(0, 16) =~= hex16(h));
    s
}

proof fn lemma_pow16_fits(k: int)
    requires
        0 <= k <= 15,
    ensures
        1 <= pow16(k) <= 0x1000_0000_0000_0000,
    decreases 15 - k,
{
    lemma_pow16_pos(k);
    if k < 15 {
        lemma_pow16_fits(k + 1);
        assert(pow16(k + 1) == 16 * pow16(k));
    } else {
        reveal_with_fuel(pow16, 16);
    }
}

proof fn lemma_pow16_pos(k: int)
    ensures
        pow16(k) >= 1,
    decreases k,
{
    if k > 0 {
        lemma_pow16_pos(k - 1);
    }
}

/// The digest text of bytes: sixteen hexadecimal digits of their hash.
pub fn content_digest(bytes: &[u8]) -> (s: String)
    ensures
        exists|h: u64| s@ == hex16(h),
{
    hex16_text(default_hash(bytes))
}

/// The result for a patched file: its path and counts, and the digests of
/// its text before (if it existed) and after.
pub fn patch_result(file_path: String, existing: Option<&str>, new_content: &str, lines_added: usize, lines_removed: usize) -> (r: PatchResult)
    ensures
        r.file_path == file_path,
        r.lines_added == lines_added,
        r.lines_removed == lines_removed,
        r.original_sha256 is Some <==> existing is Some,
        r.original_sha256 matches Some(d) ==> exists|h: u64| d@ == hex16(h),
        exists|h: u64| r.new_sha256@ == hex16(h),
{
    let original_sha256 = match existing {
        Some(c) => Some(content_digest(c.as_bytes())),
        None => None,
    };
    PatchResult {
        file_path,
        lines_added,
        lines_removed,
        original_sha256,
        new_sha256: content_digest(new_content.as_bytes()),
    }
}

/// Whether a hunk line keeps an original line: a context line (` `) or an
/// empty line.
pub open spec fn keeps_line(l: Seq<char>) -> bool {
    l.len() == 0 || l[0] == ' '
}

/// Whether a hunk line removes an original line (`-`).
pub open spec fn removes_line(l: Seq<char>) -> bool {
    l.len() > 0 && l[0] == '-'
}

/// Whether a hunk line adds a line (`+`).
pub open spec fn adds_line(l: Seq<char>) -> bool {
    l.len() > 0 && l[0] == '+'
}

/// How many original lines a hunk's lines read: those kept and removed.
pub open spec fn lines_read(ls: Seq<Seq<char>>) -> int
    decreases ls.len(),
{
    if ls.len() == 0 {
        0
    } else {
        lines_read(ls.drop_last()) + if keeps_line(ls.last()) || removes_line(ls.last()) { 1int } else { 0int }
    }
}

/// How many of a hunk's lines add a line.
pub open spec fn adds_count(ls: Seq<Seq<char>>) -> int
    decreases ls.len(),
{
    if ls.len() == 0 { 0 } else { adds_count(ls.drop_last()) + if adds_line(ls.last()) { 1int } else { 0int } }
}

/// How many of a hunk's lines remove a line.
pub open spec fn removes_count(ls: Seq<Seq<char>>) -> int
    decreases ls.len(),
{
    if ls.len() == 0 { 0 } else { removes_count(ls.drop_last()) + if removes_line(ls.last()) { 1int } else { 0int } }
}

/// The lines a hunk yields when its first original line is `orig[at]`: an
/// added line's text, the original line a kept line reads, nothing for a
/// removed line (or any other line).
pub open spec fn hunk_output(orig: Seq<Seq<char>>, at: int, ls: Seq<Seq<char>>) -> Seq<Seq<char>>
    decreases ls.len(),
{
    if ls.len() == 0 {
        Seq::empty()
    } else {
        let prev = hunk_output(orig, at, ls.drop_last());
        let l = ls.last();
        if adds_line(l) {
            prev.push(l.drop_first())
        } else if keeps_line(l) {
            prev.push(orig[at + lines_read(ls.drop_last())])
        } else {
            prev
        }
    }
}

/// The first `n` hunks spliced into the original lines, each at its old
/// position: the original lines up to the hunk's old start, then what the
/// hunk yields there. The output so far, the next original line, and the
/// added and removed counts.
pub open spec fn spliced(orig: Seq<Seq<char>>, hs: Seq<HunkView>, n: int) -> (Seq<Seq<char>>, int, int, int)
    decreases n,
{
    if n <= 0 || n > hs.len() {
        (Seq::empty(), 0, 0, 0)
    } else {
        let prev = spliced(orig, hs, n - 1);
        let at = hs[n - 1].0 - 1;
        let ls = hs[n - 1].4;
        (prev.0 + orig.subrange(prev.1, at) + hunk_output(orig, at, ls), at + lines_read(ls),
            prev.2 + adds_count(ls), prev.3 + removes_count(ls))
    }
}

/// The first `n` hunks start at line 1 or later, come in order without
/// overlapping, and read only lines the original has.
pub open spec fn hunks_in_place(orig: Seq<Seq<char>>, hs: Seq<HunkView>, n: int) -> bool
    decreases n,
{
    if n <= 0 || n > hs.len() {
        n == 0
    } else {
        &&& hunks_in_place(orig, hs, n - 1)
        &&& 0 <= spliced(orig, hs, n - 1).1 <= hs[n - 1].0 - 1
        &&& hs[n - 1].0 - 1 + lines_read(hs[n - 1].4) <= orig.len()
    }
}

proof fn lemma_copy_range(orig: Seq<Seq<char>>, st: ApplyState, t: int)
    requires
        0 <= st.1 <= t <= orig.len(),
    ensures
        copy_until(orig, st, t) == (st.0 + orig.subrange(st.1, t), t, st.2, st.3),
    decreases t - st.1,
{
    if st.1 < t {
        let st2 = (st.0.push(orig[st.1]), st.1 + 1, st.2, st.3);
        lemma_copy_range(orig, st2, t);
        assert(st.0 + orig.subrange(st.1, t) =~= st2.0 + orig.subrange(st.1 + 1, t));
    } else {
        assert(st.0 + orig.subrange(st.1, t) =~= st.0);
    }
}

proof fn lemma_lines_read_nonneg(ls: Seq<Seq<char>>)
    ensures
        lines_read(ls) >= 0,
    decreases ls.len(),
{
    if ls.len() > 0 {
        lemma_lines_read_nonneg(ls.drop_last());
    }
}

proof fn lemma_hunk_lines(orig: Seq<Seq<char>>, st: ApplyState, ls: Seq<Seq<char>>, k: int)
    requires
        0 <= k <= ls.len(),
        0 <= st.1,
        st.1 + lines_read(ls.take(k)) <= orig.len(),
    ensures
        apply_lines(orig, st, ls, k) == (st.0 + hunk_output(orig, st.1, ls.take(k)), st.1 + lines_read(ls.take(k)),
            st.2 + adds_count(ls.take(k)), st.3 + removes_count(ls.take(k))),
    decreases k,
{
    if k == 0 {
        assert(ls.take(0) =~= Seq::<Seq<char>>::empty());
        assert(st.0 + hunk_output(orig, st.1, ls.take(0)) =~= st.0);
    } else {
        let t = ls.take(k);
        assert(t.drop_last() =~= ls.take(k - 1));
        assert(t.last() == ls[k - 1]);
        lemma_lines_read_nonneg(ls.take(k - 1));
        lemma_hunk_lines(orig, st, ls, k - 1);
        let prev = hunk_output(orig, st.1, ls.take(k - 1));
        let l = ls[k - 1];
        if adds_line(l) {
            assert(st.0 + hunk_output(orig, st.1, t) =~= (st.0 + prev).push(l.drop_first()));
        } else if keeps_line(l) {
            assert(st.0 + hunk_output(orig, st.1, t) =~= (st.0 + prev).push(orig[st.1 + lines_read(ls.take(k - 1))]));
        } else {
            assert(st.0 + hunk_output(orig, st.1, t) =~= st.0 + prev);
        }
    }
}

proof fn lemma_spliced_apply(orig: Seq<Seq<char>>, hs: Seq<HunkView>, n: int)
    requires
        0 <= n <= hs.len(),
        hunks_in_place(orig, hs, n),
    ensures
        apply_hunks(orig, hs, n) == spliced(orig, hs, n),
        0 <= spliced(orig, hs, n).1 <= orig.len(),
    decreases n,
{
    if n > 0 {
        lemma_spliced_apply(orig, hs, n - 1);
        let prev = spliced(orig, hs, n - 1);
        let h = hs[n - 1];
        let at = h.0 - 1;
        lemma_lines_read_nonneg(h.4);
        assert(if h.0 > 0 { h.0 - 1 } else { 0 } == at);
        lemma_copy_range(orig, prev, at);
        let st = (prev.0 + orig.subrange(prev.1, at), at, prev.2, prev.3);
        assert(h.4.take(h.4.len() as int) =~= h.4);
        lemma_hunk_lines(orig, st, h.4, h.4.len() as int);
        assert(st.0 + hunk_output(orig, at, h.4) =~= prev.0 + orig.subrange(prev.1, at) + hunk_output(orig, at, h.4));
    }
}

/// Law: each hunk is applied at its old-file position. For hunks in order
/// and inside the file, the patched text is the original lines up to each
/// hunk's old start, then what the hunk yields read from there (its added
/// lines, and the original lines its context lines keep, skipping those it
/// removes), then the rest of the original; the counts are the lines added
/// and removed.
pub proof fn lemma_hunks_apply_at_old_start(c: Seq<char>, f: FileView)
    requires
        hunks_in_place(text_lines(c), f.2, f.2.len() as int),
    ensures
        ({
            let orig = text_lines(c);
            let sp = spliced(orig, f.2, f.2.len() as int);
            let body = join(sp.0 + orig.subrange(sp.1, orig.len() as int), "\n"@);
            patched(Some(c), f) == (
                if body.len() > 0 && c.len() > 0 && c.last() == '\n' { body + "\n"@ } else { body },
                sp.2,
                sp.3,
            )
        }),
{
    let orig = text_lines(c);
    lemma_spliced_apply(orig, f.2, f.2.len() as int);
    let sp = spliced(orig, f.2, f.2.len() as int);
    lemma_copy_range(orig, sp, orig.len() as int);
}

} // verus!
