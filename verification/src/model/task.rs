//! The task type and its workflow state.
use vstd::prelude::*;

use super::id::{ConceptId, TaskId};
use crate::text::{str_eq, string_from, chars_of};

verus! {

/// Workflow state of a task.
#[derive(Debug, Clone, Copy, PartialEq, Eq, Structural)]
pub enum TaskState {
    /// Not started (the default).
    Todo,
    /// Being worked on.
    InProgress,
    /// Finished.
    Done,
}

/// Former name of [`TaskState`].
pub type TaskStatus = TaskState;

/// The textual form of a state.
pub open spec fn state_text(s: TaskState) -> Seq<char> {
    match s {
        TaskState::Todo => "todo"@,
        TaskState::InProgress => "in_progress"@,
        TaskState::Done => "done"@,
    }
}

/// The state a text names, if any.
pub open spec fn parse_state_spec(s: Seq<char>) -> Option<TaskState> {
    if s == "todo"@ {
        Some(TaskState::Todo)
    } else if s == "in_progress"@ {
        Some(TaskState::InProgress)
    } else if s == "done"@ {
        Some(TaskState::Done)
    } else {
        None
    }
}

impl Default for TaskState {
    fn default() -> (s: TaskState)
        ensures
            s == TaskState::Todo,
    {
        TaskState::Todo
    }
}

impl TaskState {
    /// The textual form (`todo`, `in_progress`, `done`).
    pub fn as_str(&self) -> (s: &'static str)
        ensures
            s@ == state_text(*self),
    {
        match self {
            TaskState::Todo => "todo",
            TaskState::InProgress => "in_progress",
            TaskState::Done => "done",
        }
    }

    /// The textual form, owned.
    pub fn to_string(&self) -> (s: String)
        ensures
            s@ == state_text(*self),
    {
        let v = chars_of(self.as_str());
        string_from(v.as_slice())
    }

    /// Parses the textual form; the error names the three accepted values.
    pub fn parse_str(s: &str) -> (r: Result<TaskState, String>)
        ensures
            match parse_state_spec(s@) {
                Some(st) => r == Ok::<TaskState, String>(st),
                None => r matches Err(m) && m@ == "invalid status '"@ + s@
                    + "': expected 'todo', 'in_progress', or 'done'"@,
            },
    {
        if str_eq(s, "todo") {
            Ok(TaskState::Todo)
        } else if str_eq(s, "in_progress") {
            Ok(TaskState::InProgress)
        } else if str_eq(s, "done") {
            Ok(TaskState::Done)
        } else {
            let mut v: Vec<char> = Vec::new();
            crate::text::push_str(&mut v, "invalid status '");
            crate::text::push_str(&mut v, s);
            crate::text::push_str(&mut v, "': expected 'todo', 'in_progress', or 'done'");
            Err(string_from(v.as_slice()))
        }
    }
}

impl std::str::FromStr for TaskState {
    type Err = String;

    fn from_str(s: &str) -> (r: Result<TaskState, String>)
        ensures
            match parse_state_spec(s@) {
                Some(st) => r == Ok::<TaskState, String>(st),
                None => r matches Err(m) && m@ == "invalid status '"@ + s@
                    + "': expected 'todo', 'in_progress', or 'done'"@,
            },
    {
        TaskState::parse_str(s)
    }
}

/// Parsing the textual form of a state gives back that state.
pub proof fn lemma_state_roundtrip(s: TaskState)
    ensures
        parse_state_spec(state_text(s)) == Some(s),
{
    reveal_strlit("todo");
    reveal_strlit("in_progress");
    reveal_strlit("done");
    assert("todo"@.len() == 4 && "in_progress"@.len() == 11 && "done"@.len() == 4);
    assert("todo"@[0] == 't' && "done"@[0] == 'd');
    assert("todo"@ != "in_progress"@);
    assert("todo"@ != "done"@);
    assert("in_progress"@ != "done"@);
}

/// A unit of work, optionally linked to concepts and depending on other tasks.
#[derive(Debug, Clone)]
pub struct Task {
    /// Unique identifier.
    pub id: TaskId,
    /// Human-readable name.
    pub name: String,
    /// Optional longer description.
    pub description: Option<String>,
    /// Duration in days, as the IEEE-754 bit pattern of a non-negative finite `f64`.
    pub duration: Option<u64>,
    /// Workflow state.
    pub state: TaskState,
    /// Due date and time, as RFC 9557 text (`2025-03-15T14:00:00+01:00[Europe/Zurich]`).
    pub due: Option<String>,
    /// Tasks that must finish before this one.
    pub depends_on: Vec<TaskId>,
    /// Concepts the task is filed under.
    pub concepts: Vec<ConceptId>,
}

} // verus!
