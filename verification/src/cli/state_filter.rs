//! The `--state` filter shared by the task-listing commands.
use vstd::prelude::*;

use crate::model::id::{push_task_id};
use crate::model::task::{parse_state_spec, state_text, Task, TaskState};
use crate::text::{chars_of, decimal, join, push_all, push_str, str_eq, string_from, u64_decimal};

verus! {

/// Position of a state in display order (`todo`, `in_progress`, `done`).
pub open spec fn state_index(s: TaskState) -> nat {
    match s {
        TaskState::Todo => 0,
        TaskState::InProgress => 1,
        TaskState::Done => 2,
    }
}

/// Position of a state in display order.
pub fn index(state: TaskState) -> (r: usize)
    ensures
        r == state_index(state),
{
    match state {
        TaskState::Todo => 0,
        TaskState::InProgress => 1,
        TaskState::Done => 2,
    }
}

/// One `--state` value: a concrete state, or the `all` shorthand.
#[derive(Clone, Copy, Debug, PartialEq, Eq, Structural)]
pub enum StateArg {
    /// One state.
    State(TaskState),
    /// Every state.
    All,
}

impl StateArg {
    /// Parses `all` or a state name; the error names the four accepted values.
    pub fn parse_str(s: &str) -> (r: Result<StateArg, String>)
        ensures
            s@ == "all"@ ==> r == Ok::<StateArg, String>(StateArg::All),
            s@ != "all"@ ==> match parse_state_spec(s@) {
                Some(st) => r == Ok::<StateArg, String>(StateArg::State(st)),
                None => r matches Err(m) && m@ == "invalid state '"@ + s@
                    + "': expected 'todo', 'in_progress', 'done', or 'all'"@,
            },
    {
        if str_eq(s, "all") {
            return Ok(StateArg::All);
        }
        match TaskState::parse_str(s) {
            Ok(st) => Ok(StateArg::State(st)),
            Err(_) => {
                let mut v: Vec<char> = Vec::new();
                push_str(&mut v, "invalid state '");
                push_str(&mut v, s);
                push_str(&mut v, "': expected 'todo', 'in_progress', 'done', or 'all'");
                Err(string_from(v.as_slice()))
            },
        }
    }
}

impl std::str::FromStr for StateArg {
    type Err = String;

    fn from_str(s: &str) -> (r: Result<StateArg, String>)
        ensures
            s@ == "all"@ ==> r == Ok::<StateArg, String>(StateArg::All),
            s@ != "all"@ ==> match parse_state_spec(s@) {
                Some(st) => r == Ok::<StateArg, String>(StateArg::State(st)),
                None => r matches Err(m) && m@ == "invalid state '"@ + s@
                    + "': expected 'todo', 'in_progress', 'done', or 'all'"@,
            },
    {
        StateArg::parse_str(s)
    }
}

/// Whether the arguments select state `s`: `all` is among them, or `s` itself.
pub open spec fn selects(args: Seq<StateArg>, s: TaskState) -> bool {
    exists|i: int| 0 <= i < args.len() && (args[i] == StateArg::All || args[i] == StateArg::State(s))
}

/// The resolved set of states a listing shows.
#[derive(Clone, Copy, Debug)]
pub struct StateFilter {
    keep_todo: bool,
    keep_in_progress: bool,
    keep_done: bool,
}

impl StateFilter {
    /// Whether the filter shows state `s`.
    pub closed spec fn shows(&self, s: TaskState) -> bool {
        match s {
            TaskState::Todo => self.keep_todo,
            TaskState::InProgress => self.keep_in_progress,
            TaskState::Done => self.keep_done,
        }
    }

    /// The filter selecting exactly the states the arguments name (`all`: every state).
    pub fn new(args: &[StateArg]) -> (f: StateFilter)
        ensures
            forall|s: TaskState| #[trigger] f.shows(s) == selects(args@, s),
    {
        let mut f = StateFilter { keep_todo: false, keep_in_progress: false, keep_done: false };
        let mut i: usize = 0;
        while i < args.len()
            invariant
                i <= args@.len(),
                forall|s: TaskState| #[trigger] f.shows(s) == selects(args@.take(i as int), s),
            decreases args@.len() - i,
        {
            let ghost t = args@.take(i + 1);
            let ghost prev = args@.take(i as int);
            let ghost old_f = f;
            proof {
                assert forall|s: TaskState| selects(t, s) == (selects(prev, s) || t[i as int] == StateArg::All
                    || t[i as int] == StateArg::State(s)) by {
                    if selects(prev, s) {
                        let k = choose|k: int| 0 <= k < prev.len() && (prev[k] == StateArg::All || prev[k] == StateArg::State(s));
                        assert(t[k] == prev[k]);
                    }
                    if selects(t, s) {
                        let k = choose|k: int| 0 <= k < t.len() && (t[k] == StateArg::All || t[k] == StateArg::State(s));
                        if k < i {
                            assert(prev[k] == t[k]);
                        }
                    }
                }
                assert(t[i as int] == args@[i as int]);
            }
            match args[i] {
                StateArg::All => {
                    f = StateFilter { keep_todo: true, keep_in_progress: true, keep_done: true };
                },
                StateArg::State(s) => match s {
                    TaskState::Todo => f.keep_todo = true,
                    TaskState::InProgress => f.keep_in_progress = true,
                    TaskState::Done => f.keep_done = true,
                },
            }
            assert forall|s: TaskState| #[trigger] f.shows(s) == selects(t, s) by {
                assert(old_f.shows(s) == selects(prev, s));
            }
            i += 1;
        }
        assert(args@.take(i as int) =~= args@);
        f
    }

    /// Whether the filter shows tasks in `state`.
    pub fn keeps(&self, state: TaskState) -> (r: bool)
        ensures
            r == self.shows(state),
    {
        match state {
            TaskState::Todo => self.keep_todo,
            TaskState::InProgress => self.keep_in_progress,
            TaskState::Done => self.keep_done,
        }
    }
}

/// Number of tasks in `ts` whose state is `s`.
pub open spec fn count_state(ts: Seq<Task>, s: TaskState) -> nat
    decreases ts.len(),
{
    if ts.len() == 0 {
        0
    } else {
        count_state(ts.drop_last(), s) + if ts.last().state == s { 1nat } else { 0nat }
    }
}

/// The footer part for one state: `"<count> <state>"`, absent for a zero count.
pub open spec fn footer_part(ts: Seq<Task>, s: TaskState) -> Seq<Seq<char>> {
    if count_state(ts, s) > 0 {
        seq![decimal(count_state(ts, s)) + seq![' '] + state_text(s)]
    } else {
        Seq::empty()
    }
}

/// The footer text: `None` when nothing is hidden, else
/// `(hidden: <parts> — --state all to show)` with the non-zero counts in state order.
pub open spec fn footer_spec(ts: Seq<Task>) -> Option<Seq<char>> {
    let parts = footer_part(ts, TaskState::Todo) + footer_part(ts, TaskState::InProgress) + footer_part(
        ts,
        TaskState::Done,
    );
    if parts.len() == 0 {
        None
    } else {
        Some("(hidden: "@ + join(parts, seq![',', ' ']) + " — --state all to show)"@)
    }
}

/// The one-line footer accounting for the tasks a filter hid, e.g.
/// `(hidden: 2 done — --state all to show)`, or `None` when none was hidden.
pub fn hidden_footer(hidden: &[Task]) -> (r: Option<String>)
    ensures
        match footer_spec(hidden@) {
            Some(t) => r matches Some(x) && x@ == t,
            None => r is None,
        },
{
    let mut counts: [usize; 3] = [0, 0, 0];
    let mut i: usize = 0;
    while i < hidden.len()
        invariant
            i <= hidden@.len(),
            counts@[0] == count_state(hidden@.take(i as int), TaskState::Todo),
            counts@[1] == count_state(hidden@.take(i as int), TaskState::InProgress),
            counts@[2] == count_state(hidden@.take(i as int), TaskState::Done),
            counts@[0] <= i && counts@[1] <= i && counts@[2] <= i,
        decreases hidden@.len() - i,
    {
        let ghost t = hidden@.take(i + 1);
        assert(t.drop_last() =~= hidden@.take(i as int));
        let k = index(hidden[i].state);
        counts[k] = counts[k] + 1;
        i += 1;
    }
    assert(hidden@.take(i as int) =~= hidden@);
    let states: [TaskState; 3] = [TaskState::Todo, TaskState::InProgress, TaskState::Done];
    let mut parts: Vec<Vec<char>> = Vec::new();
    let mut k: usize = 0;
    let ghost ts = hidden@;
    while k < 3
        invariant
            k <= 3,
            ts == hidden@,
            states@ == seq![TaskState::Todo, TaskState::InProgress, TaskState::Done],
            counts@[0] == count_state(ts, TaskState::Todo),
            counts@[1] == count_state(ts, TaskState::InProgress),
            counts@[2] == count_state(ts, TaskState::Done),
            parts.deep_view() == if k == 0 {
                Seq::empty()
            } else if k == 1 {
                footer_part(ts, TaskState::Todo)
            } else if k == 2 {
                footer_part(ts, TaskState::Todo) + footer_part(ts, TaskState::InProgress)
            } else {
                footer_part(ts, TaskState::Todo) + footer_part(ts, TaskState::InProgress) + footer_part(ts, TaskState::Done)
            },
        decreases 3 - k,
    {
        let c = counts[k];
        let st = states[k];
        assert(c == count_state(ts, st));
        let ghost before = parts.deep_view();
        if c > 0 {
            let mut p: Vec<char> = u64_decimal(c as u64);
            p.push(' ');
            push_str(&mut p, st.as_str());
            let ghost pv = p@;
            assert(pv =~= decimal(count_state(ts, st)) + seq![' '] + state_text(st));
            assert(p.deep_view() =~= p@);
            parts.push(p);
            assert(parts.deep_view() =~= before.push(pv));
            assert(footer_part(ts, st) == seq![pv]);
            assert(parts.deep_view() =~= before + footer_part(ts, st));
        } else {
            assert(parts.deep_view() =~= before + footer_part(ts, st));
        }
        k += 1;
    }
    if parts.len() == 0 {
        return None;
    }
    let mut out: Vec<char> = Vec::new();
    push_str(&mut out, "(hidden: ");
    let mut q: usize = 0;
    let ghost pv = parts.deep_view();
    let ghost base = out@;
    while q < parts.len()
        invariant
            q <= parts@.len(),
            pv == parts.deep_view(),
            out@ == base + join(pv.take(q as int), seq![',', ' ']),
        decreases parts@.len() - q,
    {
        let ghost tk = pv.take(q + 1);
        assert(tk.drop_last() =~= pv.take(q as int));
        assert(pv[q as int] == parts[q as int]@) by {
            assert(parts[q as int].deep_view() =~= parts[q as int]@);
        }
        if q > 0 {
            out.push(',');
            out.push(' ');
        }
        push_all(&mut out, parts[q].as_slice());
        assert(out@ =~= base + join(tk, seq![',', ' '])) by {
            if q == 0 {
                assert(tk.len() == 1);
            }
        }
        q += 1;
    }
    assert(pv.take(q as int) =~= pv);
    push_str(&mut out, " — --state all to show)");
    Some(string_from(out.as_slice()))
}

} // verus!
