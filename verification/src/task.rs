//! A single task: a free-form description, a lifecycle state and two
//! timestamps, plus the parsing of state names out of filter text.

use vstd::prelude::*;

verus! {

/// The lifecycle state of a task. Any state is reachable from any other
/// by an explicit state change; there is no terminal state.
#[derive(Clone, Copy, Debug, PartialEq, Eq, Structural)]
pub enum TaskState {
    Todo,
    InProgress,
    Done,
}

impl TaskState {
    /// The numeric code under which a state is persisted.
    pub open spec fn spec_code(self) -> u8 {
        match self {
            TaskState::Todo => 0,
            TaskState::InProgress => 1,
            TaskState::Done => 2,
        }
    }

    /// The state persisted under a numeric code, for codes 0 through 2.
    pub open spec fn spec_from_code(code: u8) -> TaskState {
        if code == 0 {
            TaskState::Todo
        } else if code == 1 {
            TaskState::InProgress
        } else {
            TaskState::Done
        }
    }

    pub fn code(self) -> (c: u8)
        ensures
            c == self.spec_code(),
            c <= 2,
    {
        match self {
            TaskState::Todo => 0,
            TaskState::InProgress => 1,
            TaskState::Done => 2,
        }
    }

    pub fn from_code(code: u8) -> (s: TaskState)
        requires
            code <= 2,
        ensures
            s == TaskState::spec_from_code(code),
            s.spec_code() == code,
    {
        if code == 0 {
            TaskState::Todo
        } else if code == 1 {
            TaskState::InProgress
        } else {
            TaskState::Done
        }
    }

    /// What `parse` recognises: the text, taken letter by letter to upper
    /// case, must spell one of the fixed state names.
    pub open spec fn spec_parse(s: Seq<char>) -> Option<TaskState> {
        let u = upper_seq(s);
        if u == "TODO"@ {
            Some(TaskState::Todo)
        } else if u == "IN-PROGRESS"@ || u == "IN_PROGRESS"@ || u == "INPROGRESS"@ {
            Some(TaskState::InProgress)
        } else if u == "DONE"@ {
            Some(TaskState::Done)
        } else {
            None
        }
    }

    /// Reads a state name out of free-form text, case-insensitively:
    /// `todo`, `done`, and the three spellings of `in-progress`.
    /// Total: text that names no state yields `None`.
    pub fn parse(s: &str) -> (r: Option<TaskState>)
        ensures
            r == TaskState::spec_parse(s@),
    {
        let up = upper_of(s);
        if eq_chars(&up, "TODO") {
            Some(TaskState::Todo)
        } else if eq_chars(&up, "IN-PROGRESS") || eq_chars(&up, "IN_PROGRESS") || eq_chars(
            &up,
            "INPROGRESS",
        ) {
            Some(TaskState::InProgress)
        } else if eq_chars(&up, "DONE") {
            Some(TaskState::Done)
        } else {
            None
        }
    }
}

/// A lower-case ASCII letter mapped to its upper-case form; anything
/// else is left alone.
pub open spec fn upper_char(c: char) -> char {
    if 'a' <= c && c <= 'z' {
        (((c as u8) - 32) as char)
    } else {
        c
    }
}

/// `upper_char` applied to every character.
pub open spec fn upper_seq(s: Seq<char>) -> Seq<char> {
    s.map_values(|c: char| upper_char(c))
}

fn upper_of(s: &str) -> (r: Vec<char>)
    ensures
        r@ == upper_seq(s@),
{
    let n = s.unicode_len();
    let mut out: Vec<char> = Vec::new();
    let mut i: usize = 0;
    while i < n
        invariant
            n == s@.len(),
            i <= n,
            out@ == upper_seq(s@.take(i as int)),
        decreases n - i,
    {
        let c = s.get_char(i);
        let u: char = if 'a' <= c && c <= 'z' {
            (((c as u8) - 32) as char)
        } else {
            c
        };
        out.push(u);
        proof {
            assert(s@.take(i + 1 as int).drop_last() =~= s@.take(i as int));
            assert(out@ =~= upper_seq(s@.take(i + 1 as int)));
        }
        i = i + 1;
    }
    proof {
        assert(s@.take(n as int) =~= s@);
    }
    out
}

fn eq_chars(v: &Vec<char>, s: &str) -> (r: bool)
    ensures
        r == (v@ == s@),
{
    let n = s.unicode_len();
    if v.len() != n {
        proof {
            assert(v@.len() != s@.len());
        }
        return false;
    }
    let mut i: usize = 0;
    while i < n
        invariant
            n == s@.len(),
            v@.len() == n,
            i <= n,
            forall|j: int| 0 <= j < i ==> v@[j] == s@[j],
        decreases n - i,
    {
        if v[i] != s.get_char(i) {
            return false;
        }
        i = i + 1;
    }
    proof {
        assert(v@ =~= s@);
    }
    true
}

/// Milliseconds of wall-clock time since the Unix epoch, as the system
/// reports it now. Relies on std::time::SystemTime::now; nothing is
/// promised of the value, which depends on the clock.
#[verifier::external_body]
pub(crate) fn now_millis() -> u64 {
    std::time::SystemTime::now().duration_since(std::time::SystemTime::UNIX_EPOCH).map(
        |d| d.as_millis() as u64,
    ).unwrap_or(0)
}

/// One stored task: a description, a lifecycle state, the moment of
/// creation and the moment of the latest change, in milliseconds since
/// the Unix epoch.
#[derive(Debug, Clone)]
pub struct Task {
    pub desc: String,
    pub state: TaskState,
    pub created_at: u64,
    pub last_updated: u64,
}

impl Task {
    /// A task never records a change earlier than its creation.
    pub open spec fn wf(self) -> bool {
        self.created_at <= self.last_updated
    }

    /// A task as `new` returns it: the given description, the default
    /// `Todo` state, and both timestamps alike.
    pub open spec fn is_fresh(self, desc: Seq<char>) -> bool {
        &&& self.desc@ == desc
        &&& self.state == TaskState::Todo
        &&& self.created_at == self.last_updated
    }

    /// A fresh task: the given description, the default `Todo` state,
    /// and both timestamps set to the same present moment.
    pub fn new(desc: String) -> (t: Task)
        ensures
            t.is_fresh(desc@),
            t.desc@ == desc@,
            t.state == TaskState::Todo,
            t.created_at == t.last_updated,
            t.wf(),
    {
        let now = now_millis();
        Task { desc, state: TaskState::Todo, created_at: now, last_updated: now }
    }

    /// Replaces the description and bumps the update timestamp; the
    /// state and the creation timestamp are untouched.
    pub fn update(&mut self, desc: String)
        requires
            old(self).wf(),
        ensures
            final(self).desc@ == desc@,
            final(self).state == old(self).state,
            final(self).created_at == old(self).created_at,
            final(self).wf(),
    {
        self.last_updated = later_than(self.created_at);
        self.desc = desc;
    }

    pub fn desc(&self) -> (r: &str)
        ensures
            r@ == self.desc@,
    {
        self.desc.as_str()
    }

    pub fn is_state(&self, state: TaskState) -> (r: bool)
        ensures
            r == (self.state == state),
    {
        self.state == state
    }

    /// Sets the state persisted under `state_code` and bumps the update
    /// timestamp; the description and the creation timestamp are
    /// untouched. Codes above 2 name no state and are not accepted.
    pub fn change_state(&mut self, state_code: u8)
        requires
            old(self).wf(),
            state_code <= 2,
        ensures
            final(self).state == TaskState::spec_from_code(state_code),
            final(self).desc@ == old(self).desc@,
            final(self).created_at == old(self).created_at,
            final(self).wf(),
    {
        self.last_updated = later_than(self.created_at);
        self.state = TaskState::from_code(state_code);
    }
}

/// The present moment, held down to no earlier than `floor`, so that a
/// change never appears to precede the creation it follows even if the
/// clock has been set back meanwhile.
fn later_than(floor: u64) -> (t: u64)
    ensures
        t >= floor,
{
    let now = now_millis();
    if now >= floor {
        now
    } else {
        floor
    }
}

} // verus!
