//! Skill packs: Markdown instruction documents with an optional frontmatter
//! naming and describing them, and the registry that indexes them.
use vstd::prelude::*;
use crate::text::{chars_of, owned, push_str, string_of, has_prefix, starts_with};
use crate::textops::{trim_ws, trim_bounds, trim_str, find_seq, find_from, lemma_find_seq, unicode_lowercase,
    to_lowercase, text_lt, text_less, sub_vec};
use crate::ui::engine::widgets::{text_lines, split_lines};
use crate::tools::exec_policy::trim_start_char;
use crate::tools::shell::trim_quotes;
use crate::tools::web::ascii_lower;

verus! {

/// One skill pack.
#[derive(Debug, Clone)]
pub struct Skill {
    pub name: String,
    pub description: String,
    pub body: String,
    pub source: String,
}

/// The frontmatter and body of a skill file: a `---` fence line opens the
/// frontmatter (after any byte-order marks); it ends at `\n---\n` (or
/// `\r\n---\r\n`), or failing both at the first `\n---`. Without an opening
/// fence, or without an end, there is no frontmatter and the body is all of
/// the text.
pub open spec fn frontmatter_split(raw: Seq<char>) -> (Seq<char>, Seq<char>) {
    let t = trim_start_char(raw, '\u{feff}');
    let rest_opt = if has_prefix(t, "---\n"@) {
        Some(t.subrange("---\n"@.len() as int, t.len() as int))
    } else if has_prefix(t, "---\r\n"@) {
        Some(t.subrange("---\r\n"@.len() as int, t.len() as int))
    } else {
        None
    };
    match rest_opt {
        None => (Seq::empty(), raw),
        Some(rest) => match after_fence(rest) {
            Some(x) => x,
            None => (Seq::empty(), raw),
        },
    }
}

fn strip_feff(v: &[char]) -> (a: usize)
    ensures
        a <= v@.len(),
        v@.subrange(a as int, v@.len() as int) == trim_start_char(v@, '\u{feff}'),
{
    let mut a: usize = 0;
    assert(v@.subrange(0, v@.len() as int) =~= v@);
    while a < v.len() && v[a] == '\u{feff}'
        invariant
            a <= v@.len(),
            trim_start_char(v@.subrange(a as int, v@.len() as int), '\u{feff}') == trim_start_char(v@, '\u{feff}'),
        decreases v@.len() - a,
    {
        assert(v@.subrange(a as int, v@.len() as int).subrange(1, (v@.len() - a) as int) =~= v@.subrange(a + 1, v@.len() as int));
        a += 1;
    }
    a
}

/// A body without one leading `\n` or `\r\n`.
pub open spec fn drop_newline(body: Seq<char>) -> Seq<char> {
    if has_prefix(body, "\n"@) {
        body.subrange(1, body.len() as int)
    } else if has_prefix(body, "\r\n"@) {
        body.subrange(2, body.len() as int)
    } else {
        body
    }
}

fn newline_skip(v: &Vec<char>, b: usize) -> (k: usize)
    requires
        b <= v@.len(),
    ensures
        b + k <= v@.len(),
        v@.subrange(b + k, v@.len() as int) == drop_newline(v@.subrange(b as int, v@.len() as int)),
{
    proof {
        reveal_strlit("\n");
        reveal_strlit("\r\n");
    }
    let m = v.len();
    let ghost body = v@.subrange(b as int, m as int);
    assert("\n"@ =~= seq!['\n']);
    assert("\r\n"@ =~= seq!['\r', '\n']);
    if b < m && v[b] == '\n' {
        assert(body.subrange(0, 1) =~= seq!['\n']);
        assert(body.subrange(1, body.len() as int) =~= v@.subrange(b + 1, m as int));
        1
    } else if b < m && m - b > 1 && v[b] == '\r' && v[b + 1] == '\n' {
        assert(body.subrange(0, 2) =~= seq!['\r', '\n']);
        assert(!has_prefix(body, "\n"@)) by {
            if has_prefix(body, "\n"@) {
                assert(body.subrange(0, 1)[0] == body[0]);
            }
        }
        assert(body.subrange(2, body.len() as int) =~= v@.subrange(b + 2, m as int));
        2
    } else {
        assert(!has_prefix(body, "\n"@)) by {
            if has_prefix(body, "\n"@) {
                assert(body.subrange(0, 1)[0] == body[0]);
            }
        }
        assert(!has_prefix(body, "\r\n"@)) by {
            if has_prefix(body, "\r\n"@) {
                assert(body.subrange(0, 2)[0] == body[0]);
                assert(body.subrange(0, 2)[1] == body[1]);
            }
        }
        0
    }
}

/// The frontmatter and body after an opening fence (see `frontmatter_split`);
/// `None` when the frontmatter has no end.
pub open spec fn after_fence(rest: Seq<char>) -> Option<(Seq<char>, Seq<char>)> {
    let end1 = match find_seq(rest, "\n---\n"@, 0) {
        Some(e) => Some(e),
        None => find_seq(rest, "\r\n---\r\n"@, 0),
    };
    match end1 {
        Some(end) => {
            let body_start = end + match find_seq(rest.subrange(end, rest.len() as int), "---\n"@, 0) {
                Some(i) => i + 4,
                None => 5,
            };
            Some((rest.subrange(0, end), rest.subrange(body_start, rest.len() as int)))
        },
        None => match find_seq(rest, "\n---"@, 0) {
            Some(end) => Some((rest.subrange(0, end), drop_newline(rest.subrange(end + 4, rest.len() as int)))),
            None => None,
        },
    }
}

fn after_fence_exec(rest: &Vec<char>) -> (r: Option<(String, String)>)
    ensures
        match (r, after_fence(rest@)) {
            (Some(x), Some(y)) => x.0@ == y.0 && x.1@ == y.1,
            (None, None) => true,
            _ => false,
        },
{
    proof {
        reveal_strlit("\n---\n");
        reveal_strlit("\r\n---\r\n");
        reveal_strlit("---\n");
        reveal_strlit("\n---");
    }
    let m = rest.len();
    let end_lf = chars_of("\n---\n");
    let end_crlf = chars_of("\r\n---\r\n");
    let fence = chars_of("---\n");
    proof {
        lemma_find_seq(rest@, end_lf@, 0);
        lemma_find_seq(rest@, end_crlf@, 0);
    }
    let end1 = match find_from(rest.as_slice(), end_lf.as_slice(), 0) {
        Some(e) => Some(e),
        None => find_from(rest.as_slice(), end_crlf.as_slice(), 0),
    };
    match end1 {
        Some(end) => {
            let tail = sub_vec(rest.as_slice(), end, m);
            proof { lemma_find_seq(tail@, fence@, 0); }
            let off = match find_from(tail.as_slice(), fence.as_slice(), 0) {
                Some(i) => i + 4,
                None => 5,
            };
            assert(end + off <= m);
            Some((string_of(rest.as_slice(), 0, end), string_of(rest.as_slice(), end + off, m)))
        },
        None => {
            let dash = chars_of("\n---");
            proof { lemma_find_seq(rest@, dash@, 0); }
            match find_from(rest.as_slice(), dash.as_slice(), 0) {
                Some(end) => {
                    let k = newline_skip(rest, end + 4);
                    Some((string_of(rest.as_slice(), 0, end), string_of(rest.as_slice(), end + 4 + k, m)))
                },
                None => None,
            }
        },
    }
}

/// Splits a skill file into frontmatter and body (see `frontmatter_split`).
pub fn split_frontmatter(raw: &str) -> (r: (String, String))
    ensures
        r.0@ == frontmatter_split(raw@).0,
        r.1@ == frontmatter_split(raw@).1,
{
    proof {
        reveal_strlit("---\n");
        reveal_strlit("---\r\n");
    }
    let v = chars_of(raw);
    let n = v.len();
    let a = strip_feff(v.as_slice());
    let t = sub_vec(v.as_slice(), a, n);
    let open_lf = chars_of("---\n");
    let open_crlf = chars_of("---\r\n");
    let start = if starts_with(t.as_slice(), open_lf.as_slice()) {
        4
    } else if starts_with(t.as_slice(), open_crlf.as_slice()) {
        5
    } else {
        return (String::new(), owned(raw));
    };
    let rest = sub_vec(t.as_slice(), start, t.len());
    match after_fence_exec(&rest) {
        Some(x) => x,
        None => (String::new(), owned(raw)),
    }
}


/// The name `Path::file_stem` gives to a path: its last component without
/// its extension.
pub uninterp spec fn file_stem_text(path: Seq<char>) -> Seq<char>;

/// `Path::file_stem` on a path given as text, or nothing when there is no
/// file name. Its result is named by `file_stem_text`.
#[verifier::external_body]
pub fn file_stem(path: &str) -> (r: String)
    ensures
        r@ == file_stem_text(path@),
{
    std::path::Path::new(path).file_stem().map(|s| s.to_string_lossy().to_string()).unwrap_or_default()
}

/// The name and description after one frontmatter line: `name:` sets the
/// name when its value (trimmed, quotes removed) is not empty, and
/// `description:` sets the description.
pub open spec fn meta_step(st: (Seq<char>, Seq<char>), raw: Seq<char>) -> (Seq<char>, Seq<char>) {
    let line = trim_ws(raw);
    if has_prefix(line, "name:"@) {
        let v = trim_quotes(trim_ws(line.subrange("name:"@.len() as int, line.len() as int)));
        if v.len() > 0 { (v, st.1) } else { st }
    } else if has_prefix(line, "description:"@) {
        (st.0, trim_quotes(trim_ws(line.subrange("description:"@.len() as int, line.len() as int))))
    } else {
        st
    }
}

/// The name and description after the first `n` frontmatter lines.
pub open spec fn meta_scan(lines: Seq<Seq<char>>, n: nat, default_name: Seq<char>) -> (Seq<char>, Seq<char>)
    decreases n,
{
    if n == 0 || n > lines.len() {
        (default_name, Seq::empty())
    } else {
        meta_step(meta_scan(lines, (n - 1) as nat, default_name), lines[n - 1])
    }
}

/// The skill a file holds: name and description from its frontmatter (the
/// name defaulting to the file's stem), and its body trimmed.
pub open spec fn skill_of(path: Seq<char>, raw: Seq<char>) -> (Seq<char>, Seq<char>, Seq<char>) {
    let split = frontmatter_split(raw);
    let lines = text_lines(split.0);
    let meta = meta_scan(lines, lines.len(), file_stem_text(path));
    (meta.0, meta.1, trim_ws(split.1))
}

fn value_after(v: &[char], a: usize, b: usize, k: usize) -> (r: String)
    requires
        a + k <= b <= v@.len(),
    ensures
        r@ == trim_quotes(trim_ws(v@.subrange(a + k, b as int))),
{
    let (c, d) = trim_bounds(v, a + k, b);
    let inner = sub_vec(v, c, d);
    crate::tools::shell::trim_quotes_exec(inner.as_slice())
}

impl Skill {
    /// Reads a skill file (see `skill_of`).
    pub fn parse(path: &str, raw: &str) -> (s: Skill)
        ensures
            s.name@ == skill_of(path@, raw@).0,
            s.description@ == skill_of(path@, raw@).1,
            s.body@ == skill_of(path@, raw@).2,
            s.source@ == path@,
    {
        proof {
            reveal_strlit("name:");
            reveal_strlit("description:");
        }
        let (frontmatter, body) = split_frontmatter(raw);
        let lines = split_lines(frontmatter.as_str());
        let mut name = file_stem(path);
        let mut description = String::new();
        let ghost ls = text_lines(frontmatter@);
        let name_key = chars_of("name:");
        let desc_key = chars_of("description:");
        let mut i: usize = 0;
        assert(description@ =~= Seq::<char>::empty());
        while i < lines.len()
            invariant
                i <= lines@.len() == ls.len(),
                ls == text_lines(frontmatter@),
                name_key@ == "name:"@,
                desc_key@ == "description:"@,
                name_key@.len() == 5,
                desc_key@.len() == 12,
                forall|j: int| 0 <= j < lines@.len() ==> (#[trigger] lines@[j])@ == ls[j],
                meta_scan(ls, i as nat, file_stem_text(path@)) == (name@, description@),
            decreases lines@.len() - i,
        {
            let v = chars_of(lines[i].as_str());
            let (a, b) = trim_bounds(v.as_slice(), 0, v.len());
            assert(v@.subrange(0, v@.len() as int) =~= v@);
            let t = sub_vec(v.as_slice(), a, b);
            if starts_with(t.as_slice(), name_key.as_slice()) {
                let val = value_after(v.as_slice(), a, b, 5);
                assert(t@.subrange(5, t@.len() as int) =~= v@.subrange(a + 5, b as int));
                if val.as_str().unicode_len() > 0 {
                    name = val;
                }
            } else if starts_with(t.as_slice(), desc_key.as_slice()) {
                let val = value_after(v.as_slice(), a, b, 12);
                assert(t@.subrange(12, t@.len() as int) =~= v@.subrange(a + 12, b as int));
                description = val;
            }
            i += 1;
        }
        let body = trim_str(body.as_str());
        Skill { name, description, body, source: owned(path) }
    }

    /// A one-line summary: the name, then ` - ` and the description when
    /// there is one.
    pub fn summary(&self) -> (r: String)
        ensures
            r@ == if self.description@.len() == 0 {
                self.name@
            } else {
                self.name@ + " - "@ + self.description@
            },
    {
        let mut r = owned(self.name.as_str());
        if self.description.as_str().unicode_len() > 0 {
            push_str(&mut r, " - ");
            push_str(&mut r, self.description.as_str());
        }
        r
    }
}


/// `str::eq_ignore_ascii_case`: equal once ASCII letters are lowercased.
pub open spec fn same_ignoring_ascii_case(a: Seq<char>, b: Seq<char>) -> bool {
    a.map_values(|c: char| ascii_lower(c)) == b.map_values(|c: char| ascii_lower(c))
}

/// `str::eq_ignore_ascii_case`.
pub fn eq_ignore_ascii_case(a: &str, b: &str) -> (r: bool)
    ensures
        r == same_ignoring_ascii_case(a@, b@),
{
    let av = chars_of(a);
    let bv = chars_of(b);
    if av.len() != bv.len() {
        assert(a@.map_values(|c: char| ascii_lower(c)).len() != b@.map_values(|c: char| ascii_lower(c)).len());
        return false;
    }
    let mut i: usize = 0;
    while i < av.len()
        invariant
            i <= av@.len() == bv@.len(),
            av@ == a@,
            bv@ == b@,
            forall|k: int| 0 <= k < i ==> ascii_lower(#[trigger] av@[k]) == ascii_lower(bv@[k]),
        decreases av@.len() - i,
    {
        if crate::tools::web::to_ascii_lower(av[i]) != crate::tools::web::to_ascii_lower(bv[i]) {
            assert(a@.map_values(|c: char| ascii_lower(c))[i as int] != b@.map_values(|c: char| ascii_lower(c))[i as int]);
            return false;
        }
        i += 1;
    }
    assert(a@.map_values(|c: char| ascii_lower(c)) =~= b@.map_values(|c: char| ascii_lower(c)));
    true
}

/// The key skills are sorted by: the name in lowercase.
pub open spec fn name_key(s: Skill) -> Seq<char> {
    unicode_lowercase(s.name@)
}

/// `x` placed into `sorted` after every skill whose key is not greater.
pub open spec fn insert_by_name(sorted: Seq<Skill>, x: Skill) -> Seq<Skill>
    decreases sorted.len(),
{
    if sorted.len() == 0 || !text_lt(name_key(x), name_key(sorted.last())) {
        sorted.push(x)
    } else {
        insert_by_name(sorted.drop_last(), x).push(sorted.last())
    }
}

/// Skills in a stable order of their lowercased names.
pub open spec fn sorted_by_name(s: Seq<Skill>) -> Seq<Skill>
    decreases s.len(),
{
    if s.len() == 0 { Seq::empty() } else { insert_by_name(sorted_by_name(s.drop_last()), s.last()) }
}

/// Skills with each run of names equal up to ASCII case reduced to its first.
pub open spec fn dedup_names(s: Seq<Skill>) -> Seq<Skill>
    decreases s.len(),
{
    if s.len() == 0 {
        Seq::empty()
    } else {
        let d = dedup_names(s.drop_last());
        if d.len() > 0 && same_ignoring_ascii_case(s.last().name@, d.last().name@) { d } else { d.push(s.last()) }
    }
}

proof fn lemma_dedup_len(s: Seq<Skill>)
    ensures
        s.len() > 0 ==> dedup_names(s).len() > 0,
    decreases s.len(),
{
    if s.len() > 0 {
        lemma_dedup_len(s.drop_last());
    }
}

/// The index of the first skill named `name` up to ASCII case, or the length.
pub open spec fn first_named(s: Seq<Skill>, name: Seq<char>, i: int) -> int
    decreases s.len() - i,
{
    if i < 0 || i >= s.len() {
        s.len() as int
    } else if same_ignoring_ascii_case(s[i].name@, name) {
        i
    } else {
        first_named(s, name, i + 1)
    }
}

/// The skills found, indexed by name.
#[derive(Debug, Clone)]
pub struct SkillRegistry {
    skills: Vec<Skill>,
}

fn insert_position(sorted: &Vec<Skill>, key: &Vec<char>, x: Ghost<Skill>) -> (p: usize)
    requires
        key@ == name_key(x@),
    ensures
        p <= sorted@.len(),
        insert_by_name(sorted@, x@) == sorted@.subrange(0, p as int).push(x@) + sorted@.subrange(p as int, sorted@.len() as int),
{
    let n = sorted.len();
    let mut p = n;
    assert(sorted@.subrange(0, n as int) =~= sorted@);
    assert(sorted@.subrange(n as int, n as int) =~= Seq::<Skill>::empty());
    loop
        invariant
            p <= n == sorted@.len(),
            key@ == name_key(x@),
            insert_by_name(sorted@, x@) == insert_by_name(sorted@.subrange(0, p as int), x@) + sorted@.subrange(p as int, n as int),
        decreases p,
    {
        if p == 0 {
            assert(sorted@.subrange(0, 0) =~= Seq::<Skill>::empty());
            assert(insert_by_name(sorted@.subrange(0, 0), x@) =~= Seq::<Skill>::empty().push(x@));
            return 0;
        }
        let k = to_lowercase(sorted[p - 1].name.as_str());
        let kv = chars_of(k.as_str());
        let ghost pre = sorted@.subrange(0, p as int);
        assert(pre.last() == sorted@[p - 1]);
        if !text_less(key.as_slice(), kv.as_slice()) {
            return p;
        }
        assert(pre.drop_last() =~= sorted@.subrange(0, p - 1));
        assert(sorted@.subrange(p - 1, n as int) =~= seq![sorted@[p - 1]] + sorted@.subrange(p as int, n as int));
        assert(insert_by_name(pre, x@) == insert_by_name(sorted@.subrange(0, p - 1), x@).push(sorted@[p - 1]));
        assert(insert_by_name(sorted@, x@) =~= insert_by_name(sorted@.subrange(0, p - 1), x@) + sorted@.subrange(p - 1, n as int));
        p -= 1;
    }
}

impl SkillRegistry {
    /// An empty registry.
    pub fn new() -> (r: SkillRegistry)
        ensures
            r.view_skills().len() == 0,
    {
        SkillRegistry { skills: Vec::new() }
    }

    /// The skills, ordered by lowercased name.
    pub closed spec fn view_skills(&self) -> Seq<Skill> {
        self.skills@
    }

    /// Replaces the skills with those found (directory by directory, earlier
    /// directories first): sorted stably by lowercased name, and of names
    /// equal up to ASCII case only the first is kept, so earlier directories
    /// win.
    pub fn load_skills(&mut self, found: Vec<Skill>)
        ensures
            final(self).view_skills() == dedup_names(sorted_by_name(found@)),
    {
        let mut found = found;
        let ghost all = found@;
        let mut sorted: Vec<Skill> = Vec::new();
        let mut taken: usize = 0;
        let total = found.len();
        while found.len() > 0
            invariant
                taken + found@.len() == total == all.len(),
                found@ == all.subrange(taken as int, total as int),
                sorted@ == sorted_by_name(all.subrange(0, taken as int)),
            decreases found@.len(),
        {
            let x = found.remove(0);
            assert(all[taken as int] == x);
            let key_s = to_lowercase(x.name.as_str());
            let key = chars_of(key_s.as_str());
            let p = insert_position(&sorted, &key, Ghost(x));
            let ghost before = sorted@;
            sorted.insert(p, x);
            assert(sorted@ =~= before.subrange(0, p as int).push(x) + before.subrange(p as int, before.len() as int));
            assert(all.subrange(0, taken + 1).drop_last() =~= all.subrange(0, taken as int));
            taken += 1;
            assert(found@ =~= all.subrange(taken as int, total as int));
        }
        assert(all.subrange(0, total as int) =~= all);
        let ghost ss = sorted@;
        let mut out: Vec<Skill> = Vec::new();
        let mut sorted = sorted;
        let mut done: usize = 0;
        let m = sorted.len();
        assert(ss.subrange(0, 0) =~= Seq::<Skill>::empty());
        while sorted.len() > 0
            invariant
                done + sorted@.len() == m == ss.len(),
                sorted@ == ss.subrange(done as int, m as int),
                out@ == dedup_names(ss.subrange(0, done as int)),
            decreases sorted@.len(),
        {
            let x = sorted.remove(0);
            assert(ss[done as int] == x);
            assert(ss.subrange(0, done + 1).drop_last() =~= ss.subrange(0, done as int));
            assert(ss.subrange(0, done + 1).last() == x);
            let keep = if out.len() == 0 {
                true
            } else {
                !eq_ignore_ascii_case(x.name.as_str(), out[out.len() - 1].name.as_str())
            };
            if keep {
                out.push(x);
            }
            done += 1;
            assert(sorted@ =~= ss.subrange(done as int, m as int));
        }
        assert(ss.subrange(0, m as int) =~= ss);
        self.skills = out;
    }

    /// The skills.
    pub fn list(&self) -> (r: &[Skill])
        ensures
            r@ == self.view_skills(),
    {
        self.skills.as_slice()
    }

    /// The first skill named `name`, up to ASCII case.
    pub fn get(&self, name: &str) -> (r: Option<&Skill>)
        ensures
            match r {
                Some(s) => {
                    let k = first_named(self.view_skills(), name@, 0);
                    k < self.view_skills().len() && *s == self.view_skills()[k]
                },
                None => first_named(self.view_skills(), name@, 0) == self.view_skills().len(),
            },
    {
        let mut i: usize = 0;
        while i < self.skills.len()
            invariant
                i <= self.skills@.len(),
                first_named(self.skills@, name@, i as int) == first_named(self.skills@, name@, 0),
            decreases self.skills@.len() - i,
        {
            if eq_ignore_ascii_case(self.skills[i].name.as_str(), name) {
                return Some(&self.skills[i]);
            }
            i += 1;
        }
        None
    }

    /// Whether no skill was found.
    pub fn is_empty(&self) -> (b: bool)
        ensures
            b == (self.view_skills().len() == 0),
    {
        self.skills.len() == 0
    }
}

} // verus!
