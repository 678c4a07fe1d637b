//! Background tasks: whether a command may start, how a running task's
//! state moves on as it is polled, and how tasks are reported.
use vstd::prelude::*;
use crate::text::{owned, push_str, push_char, dec};
use crate::textops::{trim_ws, trim_str};
use crate::tools::shell::int_text;
use crate::repo::contract::ot;
use crate::keyed::{strictly_sorted, pair_keys, string_keys, has_key, key_index, pairs_map, lemma_pairs_map_at,
    lemma_pairs_map_update, lemma_pairs_map_insert, sorted_insert};

verus! {

/// The state of a background task.
#[derive(Debug, Clone, PartialEq, Eq, Structural)]
pub enum TaskStatus {
    Running,
    Done { exit_code: Option<i32>, timed_out: bool },
}

/// Why a command may not start in the background, in the order the checks
/// are made: a blank command, then the workspace gate, then the lists.
pub open spec fn spawn_refusal_text(command: Seq<char>, escapes: bool, allowed: bool) -> Option<Seq<char>> {
    if trim_ws(command).len() == 0 {
        Some("empty command"@)
    } else if escapes {
        Some("command rejected: it mutates a path outside the workspace (and outside PATH_ALLOWLIST): "@ + command)
    } else if !allowed {
        Some("Command not in allowed list or contains blocked operation: "@ + command)
    } else {
        None
    }
}

/// Why a command may not start, given whether the workspace gate found an
/// escaping argument and whether the lists allow it (see `spawn_refusal_text`).
pub fn spawn_refusal(command: &str, escapes: bool, allowed: bool) -> (r: Option<String>)
    ensures
        ot(r) == spawn_refusal_text(command@, escapes, allowed),
{
    let t = trim_str(command);
    if t.as_str().unicode_len() == 0 {
        return Some(owned("empty command"));
    }
    let head = if escapes {
        "command rejected: it mutates a path outside the workspace (and outside PATH_ALLOWLIST): "
    } else if !allowed {
        "Command not in allowed list or contains blocked operation: "
    } else {
        return None;
    };
    let mut s = owned(head);
    push_str(&mut s, command);
    Some(s)
}

/// The id of the `n`-th task: `bg` and its number.
pub fn task_id(n: u64) -> (s: String)
    ensures
        s@ == "bg"@ + dec(n as nat),
{
    let mut s = owned("bg");
    crate::text::push_decimal(&mut s, n);
    s
}

/// What polling a running task saw of its process.
#[derive(Debug, Clone, Copy, PartialEq, Eq, Structural)]
pub enum WaitObservation {
    /// It has exited, with this code (none when killed by a signal).
    Exited(Option<i32>),
    /// It is still running.
    StillRunning,
    /// Waiting for it failed.
    Failed,
}

/// The next state of a running task, and whether its process must be
/// killed: an exit ends it with its code; a process still running past the
/// deadline is killed and ends timed out; a failed wait ends it with no code.
pub open spec fn next_status_of(seen: WaitObservation, past_deadline: bool) -> (TaskStatus, bool) {
    match seen {
        WaitObservation::Exited(code) => (TaskStatus::Done { exit_code: code, timed_out: false }, false),
        WaitObservation::StillRunning => if past_deadline {
            (TaskStatus::Done { exit_code: None, timed_out: true }, true)
        } else {
            (TaskStatus::Running, false)
        },
        WaitObservation::Failed => (TaskStatus::Done { exit_code: None, timed_out: false }, false),
    }
}

/// The next state of a running task (see `next_status_of`).
pub fn next_status(seen: WaitObservation, past_deadline: bool) -> (r: (TaskStatus, bool))
    ensures
        r == next_status_of(seen, past_deadline),
{
    match seen {
        WaitObservation::Exited(code) => (TaskStatus::Done { exit_code: code, timed_out: false }, false),
        WaitObservation::StillRunning => if past_deadline {
            (TaskStatus::Done { exit_code: None, timed_out: true }, true)
        } else {
            (TaskStatus::Running, false)
        },
        WaitObservation::Failed => (TaskStatus::Done { exit_code: None, timed_out: false }, false),
    }
}

/// How a task's state is listed: `running`, or `done` with its exit code,
/// or `done (timed out)`.
pub open spec fn status_label_text(s: TaskStatus) -> Seq<char> {
    match s {
        TaskStatus::Running => "running"@,
        TaskStatus::Done { exit_code, timed_out } => match exit_code {
            Some(code) => "done (exit "@ + int_text(code as int) + ")"@,
            None => if timed_out { "done (timed out)"@ } else { "done"@ },
        },
    }
}

/// How a task's state is listed (see `status_label_text`).
pub fn status_label(s: &TaskStatus) -> (r: String)
    ensures
        r@ == status_label_text(*s),
{
    match s {
        TaskStatus::Running => owned("running"),
        TaskStatus::Done { exit_code, timed_out } => match exit_code {
            Some(code) => {
                let mut r = owned("done (exit ");
                crate::text::push_signed_padded(&mut r, *code as i64, 1);
                proof {
                    crate::text::lemma_dec_len_bound(if *code >= 0 { *code as nat } else { (-*code) as nat });
                }
                assert(crate::text::signed_padded(*code as int, 1) == int_text(*code as int));
                push_str(&mut r, ")");
                r
            },
            None => if *timed_out { owned("done (timed out)") } else { owned("done") },
        },
    }
}

/// The output of a task as reported: its output, then `STDERR:` and its
/// errors when there are any; `(no output yet)` when that is blank.
pub open spec fn task_output_text(stdout: Seq<char>, stderr: Seq<char>) -> Seq<char> {
    let r = if stderr.len() > 0 {
        if stdout.len() > 0 { stdout + "\n"@ + "STDERR:\n"@ + stderr } else { "STDERR:\n"@ + stderr }
    } else {
        stdout
    };
    if trim_ws(r).len() == 0 { "(no output yet)"@ } else { r }
}

/// The output of a task as reported (see `task_output_text`).
pub fn render_output(stdout: &str, stderr: &str) -> (r: String)
    ensures
        r@ == task_output_text(stdout@, stderr@),
{
    let mut out = owned(stdout);
    if stderr.unicode_len() > 0 {
        if out.as_str().unicode_len() > 0 {
            push_str(&mut out, "\n");
        }
        push_str(&mut out, "STDERR:\n");
        push_str(&mut out, stderr);
    }
    let t = trim_str(out.as_str());
    if t.as_str().unicode_len() == 0 {
        owned("(no output yet)")
    } else {
        out
    }
}

/// A copy of a task state.
fn copy_status(s: &TaskStatus) -> (r: TaskStatus)
    ensures
        r == *s,
{
    match s {
        TaskStatus::Running => TaskStatus::Running,
        TaskStatus::Done { exit_code, timed_out } => TaskStatus::Done { exit_code: *exit_code, timed_out: *timed_out },
    }
}

/// What is kept of a background task: its command, its state, and what it
/// has printed so far.
#[derive(Debug)]
pub struct TaskRecord {
    pub command: String,
    pub status: TaskStatus,
    pub stdout: String,
    pub stderr: String,
}

/// A task as a value: command, state, output, errors.
pub type TaskView = (Seq<char>, TaskStatus, Seq<char>, Seq<char>);

/// The value of a task record.
pub open spec fn task_view(r: TaskRecord) -> TaskView {
    (r.command@, r.status, r.stdout@, r.stderr@)
}

/// The background tasks by id, kept in id order.
#[derive(Debug)]
pub struct TaskRegistry {
    tasks: Vec<(String, TaskRecord)>,
}

impl TaskRegistry {
    /// The ids, in increasing order.
    pub closed spec fn ids(&self) -> Seq<Seq<char>> {
        string_keys(self.tasks@)
    }

    /// The tasks in id order.
    pub closed spec fn pairs(&self) -> Seq<(Seq<char>, TaskView)> {
        self.tasks@.map_values(|e: (String, TaskRecord)| (e.0@, task_view(e.1)))
    }

    #[verifier::type_invariant]
    spec fn ids_sorted(&self) -> bool {
        strictly_sorted(self.ids())
    }
}

impl View for TaskRegistry {
    type V = Map<Seq<char>, TaskView>;

    closed spec fn view(&self) -> Map<Seq<char>, TaskView> {
        pairs_map(self.pairs())
    }
}

impl TaskRegistry {
    proof fn lemma_keys(&self)
        ensures
            pair_keys(self.pairs()) == self.ids(),
            self.pairs().len() == self.tasks@.len(),
    {
        assert(pair_keys(self.pairs()) =~= self.ids());
    }

    /// No tasks.
    pub fn new() -> (r: TaskRegistry)
        ensures
            r@ == Map::<Seq<char>, TaskView>::empty(),
            r.ids() == Seq::<Seq<char>>::empty(),
    {
        let r = TaskRegistry { tasks: Vec::new() };
        assert(r.ids() =~= Seq::<Seq<char>>::empty());
        assert(r@ =~= Map::<Seq<char>, TaskView>::empty());
        r
    }

    /// How many tasks there are.
    pub fn len(&self) -> (n: usize)
        ensures
            n == self.ids().len(),
    {
        self.tasks.len()
    }

    /// The index of the task `id`, if there is one.
    fn find(&self, id: &str) -> (r: Option<usize>)
        ensures
            match r {
                Some(i) => i < self.tasks@.len() && self.tasks@[i as int].0@ == id@
                    && self@.contains_key(id@) && self@[id@] == task_view(self.tasks@[i as int].1),
                None => !self@.contains_key(id@),
            },
    {
        proof {
            use_type_invariant(self);
            self.lemma_keys();
        }
        let key = owned(id);
        let mut i: usize = 0;
        while i < self.tasks.len()
            invariant
                i <= self.tasks@.len(),
                key@ == id@,
                strictly_sorted(pair_keys(self.pairs())),
                self.pairs().len() == self.tasks@.len(),
                forall|j: int| 0 <= j < i ==> self.tasks@[j].0@ != id@,
            decreases self.tasks@.len() - i,
        {
            if self.tasks[i].0 == key {
                proof {
                    assert(self.pairs()[i as int] == (self.tasks@[i as int].0@, task_view(self.tasks@[i as int].1)));
                    lemma_pairs_map_at(self.pairs(), i as int);
                }
                return Some(i);
            }
            i += 1;
        }
        proof {
            if self@.contains_key(id@) {
                let j = key_index(self.pairs(), id@);
                assert(self.pairs()[j].0 == self.tasks@[j].0@);
            }
        }
        None
    }

    /// Sets the record of `id`, keeping the ids in order.
    fn put(&mut self, id: String, record: TaskRecord)
        ensures
            final(self)@ == old(self)@.insert(id@, task_view(record)),
    {
        proof {
            use_type_invariant(&*self);
        }
        let ghost kv = id@;
        let ghost rv = task_view(record);
        let mut v: Vec<(String, TaskRecord)> = Vec::new();
        std::mem::swap(&mut v, &mut self.tasks);
        let ghost old_v = v@;
        assert(string_keys(old_v) =~= old(self).ids());
        let p = sorted_insert(&mut v, id, record);
        let ghost new_v = v@;
        self.tasks = v;
        proof {
            let s = old_v.map_values(|e: (String, TaskRecord)| (e.0@, task_view(e.1)));
            let s2 = self.pairs();
            assert(s == old(self).pairs());
            assert(pair_keys(s) =~= string_keys(old_v));
            if p < old_v.len() && old_v[p as int].0@ == kv && new_v == old_v.update(p as int, (new_v[p as int].0, new_v[p as int].1)) {
                assert(s2 =~= s.update(p as int, (kv, rv)));
                lemma_pairs_map_update(s, p as int, kv, rv);
            } else {
                assert(s2 =~= s.insert(p as int, (kv, rv)));
                assert(pair_keys(s2) =~= string_keys(new_v));
                lemma_pairs_map_insert(s, p as int, kv, rv);
            }
        }
    }

    /// Registers a new running task for `command`, with no output yet,
    /// under the id of the next number (see `task_id`); returns the id.
    pub fn register(&mut self, command: &str) -> (id: String)
        requires
            old(self).ids().len() < u64::MAX,
        ensures
            id@ == "bg"@ + dec((old(self).ids().len() + 1) as nat),
            final(self)@ == old(self)@.insert(id@, (command@, TaskStatus::Running, Seq::<char>::empty(), Seq::<char>::empty())),
    {
        let n = self.tasks.len() as u64 + 1;
        let id = task_id(n);
        let record = TaskRecord { command: owned(command), status: TaskStatus::Running, stdout: String::new(), stderr: String::new() };
        assert(record.stdout@ =~= Seq::<char>::empty());
        assert(record.stderr@ =~= Seq::<char>::empty());
        self.put(id.clone(), record);
        id
    }

    /// The state of task `id` and its output as reported (see
    /// `task_output_text`); `None` for an unknown id.
    pub fn status(&self, id: &str) -> (r: Option<(TaskStatus, String)>)
        ensures
            match r {
                Some(x) => self@.contains_key(id@) && x.0 == self@[id@].1
                    && x.1@ == task_output_text(self@[id@].2, self@[id@].3),
                None => !self@.contains_key(id@),
            },
    {
        match self.find(id) {
            Some(i) => {
                let t = &self.tasks[i].1;
                Some((copy_status(&t.status), render_output(t.stdout.as_str(), t.stderr.as_str())))
            },
            None => None,
        }
    }

    /// Every task in id order: its id, its command and its state as listed
    /// (see `status_label_text`).
    pub fn list(&self) -> (r: Vec<(String, String, String)>)
        ensures
            r@.len() == self.ids().len(),
            forall|i: int| 0 <= i < r@.len() ==> {
                &&& (#[trigger] r@[i]).0@ == self.ids()[i]
                &&& self@.contains_key(self.ids()[i])
                &&& r@[i].1@ == self@[self.ids()[i]].0
                &&& r@[i].2@ == status_label_text(self@[self.ids()[i]].1)
            },
    {
        proof {
            use_type_invariant(self);
            self.lemma_keys();
        }
        let mut r: Vec<(String, String, String)> = Vec::new();
        let mut i: usize = 0;
        while i < self.tasks.len()
            invariant
                i <= self.tasks@.len(),
                r@.len() == i,
                strictly_sorted(pair_keys(self.pairs())),
                self.pairs().len() == self.tasks@.len(),
                pair_keys(self.pairs()) == self.ids(),
                forall|k: int| 0 <= k < i ==> {
                    &&& (#[trigger] r@[k]).0@ == self.ids()[k]
                    &&& self@.contains_key(self.ids()[k])
                    &&& r@[k].1@ == self@[self.ids()[k]].0
                    &&& r@[k].2@ == status_label_text(self@[self.ids()[k]].1)
                },
            decreases self.tasks@.len() - i,
        {
            let e = &self.tasks[i];
            proof {
                assert(self.pairs()[i as int] == (self.tasks@[i as int].0@, task_view(self.tasks@[i as int].1)));
                assert(self.ids()[i as int] == self.tasks@[i as int].0@);
                lemma_pairs_map_at(self.pairs(), i as int);
            }
            let item = (e.0.clone(), e.1.command.clone(), status_label(&e.1.status));
            r.push(item);
            i += 1;
        }
        r
    }

    /// Sets the state of task `id`; `false` (and nothing changed) for an
    /// unknown id.
    pub fn set_status(&mut self, id: &str, status: TaskStatus) -> (found: bool)
        ensures
            found == old(self)@.contains_key(id@),
            found ==> final(self)@ == old(self)@.insert(id@,
                (old(self)@[id@].0, status, old(self)@[id@].2, old(self)@[id@].3)),
            !found ==> final(self)@ == old(self)@,
    {
        match self.find(id) {
            Some(i) => {
                let t = &self.tasks[i].1;
                let record = TaskRecord {
                    command: t.command.clone(),
                    status,
                    stdout: t.stdout.clone(),
                    stderr: t.stderr.clone(),
                };
                let key = self.tasks[i].0.clone();
                self.put(key, record);
                true
            },
            None => false,
        }
    }

    /// Sets what task `id` has printed; `false` (and nothing changed) for an
    /// unknown id.
    pub fn set_output(&mut self, id: &str, stdout: String, stderr: String) -> (found: bool)
        ensures
            found == old(self)@.contains_key(id@),
            found ==> final(self)@ == old(self)@.insert(id@,
                (old(self)@[id@].0, old(self)@[id@].1, stdout@, stderr@)),
            !found ==> final(self)@ == old(self)@,
    {
        match self.find(id) {
            Some(i) => {
                let t = &self.tasks[i].1;
                let record = TaskRecord { command: t.command.clone(), status: copy_status(&t.status), stdout, stderr };
                let key = self.tasks[i].0.clone();
                self.put(key, record);
                true
            },
            None => false,
        }
    }

    /// Marks task `id` done without an exit code (its process is stopped by
    /// the caller); `false` (and nothing changed) for an unknown id.
    pub fn kill(&mut self, id: &str) -> (found: bool)
        ensures
            found == old(self)@.contains_key(id@),
            found ==> final(self)@ == old(self)@.insert(id@,
                (old(self)@[id@].0, TaskStatus::Done { exit_code: None, timed_out: false }, old(self)@[id@].2, old(self)@[id@].3)),
            !found ==> final(self)@ == old(self)@,
    {
        self.set_status(id, TaskStatus::Done { exit_code: None, timed_out: false })
    }
}

} // verus!
