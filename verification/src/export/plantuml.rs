//! PlantUML diagram generation from project data.
//!
//! Names are user text and go straight into diagram syntax that has no escape
//! mechanism for its structural characters, so offending characters are
//! substituted with visually equivalent safe ones rather than escaped.
use vstd::prelude::*;

use crate::cli::render::line_words;
use crate::model::concept::Concept;
use crate::model::id::{id_text, push_task_id, ConceptId, TaskId};
use crate::model::project::contains_concept;
use crate::model::task::{Task, TaskState};
use crate::model::project::{children_spec, cids, concept_pos, contains_task, has_concept, lemma_concept_pos, lookup_concept, parent_of, roots_spec, tids, Project};
use crate::graph::tree::tree_valid;
use crate::seqs::lemma_distinct_bound;
use crate::model::project::lemma_filter_in;
use crate::text::{is_ws, lemma_join_spaces_only, lemma_split_pieces_clean, split_by, chars_of, concat, join, join_chars, lemma_concat_take, push_all, push_str, replace_char, replace_in, string_from, words};

verus! {

/// Placeholder for a name that sanitises to nothing.
pub const UNNAMED: &'static str = "(unnamed)";

/// Every whitespace run collapsed to one space and the ends trimmed; the
/// placeholder when nothing is left.
pub open spec fn one_line_spec(s: Seq<char>) -> Seq<char> {
    let joined = join(words(s), seq![' ']);
    if joined.len() == 0 {
        UNNAMED@
    } else {
        joined
    }
}

/// The label for a `"…"`-quoted position: double quotes become apostrophes.
pub open spec fn quoted_label_spec(s: Seq<char>) -> Seq<char> {
    replace_char(one_line_spec(s), '"', '\'')
}

/// The label for a `[…]`-delimited position: brackets become parentheses.
pub open spec fn bracket_label_spec(s: Seq<char>) -> Seq<char> {
    replace_char(replace_char(one_line_spec(s), '[', '('), ']', ')')
}

fn one_line_chars(s: &str) -> (r: Vec<char>)
    ensures
        r@ == one_line_spec(s@),
{
    let v = chars_of(s);
    let ws = line_words(v.as_slice());
    let joined = join_chars(&ws, ' ');
    if joined.len() == 0 {
        chars_of(UNNAMED)
    } else {
        joined
    }
}

/// Collapse every whitespace run (newlines and tabs included) to a single
/// space, and trim. PlantUML is line-oriented: an embedded newline would
/// split one declaration across two lines.
pub fn one_line(s: &str) -> (r: String)
    ensures
        r@ == one_line_spec(s@),
{
    let v = one_line_chars(s);
    string_from(v.as_slice())
}

/// Label for a `"…"`-quoted position (component names). A literal `"` would
/// close the string early, so it becomes an apostrophe.
pub fn quoted_label(s: &str) -> (r: String)
    ensures
        r@ == quoted_label_spec(s@),
{
    let mut v = one_line_chars(s);
    replace_in(&mut v, '"', '\'');
    string_from(v.as_slice())
}

/// Label for a `[…]`-delimited position (Gantt task names). Brackets would
/// unbalance the delimiter, so they become parentheses.
pub fn bracket_label(s: &str) -> (r: String)
    ensures
        r@ == bracket_label_spec(s@),
{
    let mut v = one_line_chars(s);
    replace_in(&mut v, '[', '(');
    replace_in(&mut v, ']', ')');
    string_from(v.as_slice())
}

/// `n` asterisks.
pub open spec fn stars(n: nat) -> Seq<char> {
    Seq::new(n, |i: int| '*')
}

/// One outline line: the depth marker, a space, the sanitised name.
pub open spec fn outline_line(depth: nat, name: Seq<char>) -> Seq<char> {
    stars(depth) + seq![' '] + one_line_spec(name) + seq!['\n']
}

fn push_outline_line(out: &mut Vec<char>, depth: usize, name: &str)
    ensures
        final(out)@ == old(out)@ + outline_line(depth as nat, name@),
{
    let mut i: usize = 0;
    while i < depth
        invariant
            i <= depth,
            out@ == old(out)@ + stars(i as nat),
        decreases depth - i,
    {
        out.push('*');
        assert(stars(i as nat).push('*') =~= stars((i + 1) as nat));
        i += 1;
    }
    out.push(' ');
    let l = one_line_chars(name);
    push_all(out, l.as_slice());
    out.push('\n');
    assert(out@ =~= old(out)@ + outline_line(depth as nat, name@));
}

/// A concept's mindmap node: its line, then its children's nodes one level
/// deeper, for at most `fuel` further levels.
pub open spec fn mindmap_node(cs: Seq<Concept>, c: Concept, depth: nat, fuel: nat) -> Seq<char>
    decreases fuel, 0nat, 0nat,
{
    outline_line(depth, c.name@) + if fuel == 0 {
        Seq::<char>::empty()
    } else {
        mindmap_nodes(cs, children_spec(cs, c.id), depth + 1, (fuel - 1) as nat)
    }
}

/// The nodes of several concepts at one depth, in order.
pub open spec fn mindmap_nodes(cs: Seq<Concept>, ks: Seq<Concept>, depth: nat, fuel: nat) -> Seq<char>
    decreases fuel, 1nat, ks.len(),
{
    if ks.len() == 0 {
        Seq::empty()
    } else {
        mindmap_nodes(cs, ks.drop_last(), depth, fuel) + mindmap_node(cs, ks.last(), depth, fuel)
    }
}

fn write_mindmap_nodes(out: &mut Vec<char>, project: &Project, ks: &Vec<&Concept>, depth: usize, fuel: usize)
    requires
        depth + fuel < usize::MAX,
    ensures
        final(out)@ == old(out)@ + mindmap_nodes(project.concepts@, ks@.map_values(|c: &Concept| *c), depth as nat, fuel as nat),
    decreases fuel, 1nat,
{
    let ghost kv = ks@.map_values(|c: &Concept| *c);
    let mut i: usize = 0;
    while i < ks.len()
        invariant
            i <= ks@.len(),
            depth + fuel < usize::MAX,
            kv == ks@.map_values(|c: &Concept| *c),
            out@ == old(out)@ + mindmap_nodes(project.concepts@, kv.take(i as int), depth as nat, fuel as nat),
        decreases ks@.len() - i,
    {
        assert(kv.take(i + 1).drop_last() =~= kv.take(i as int));
        write_mindmap_node(out, project, ks[i], depth, fuel);
        i += 1;
    }
    assert(kv.take(i as int) =~= kv);
}

fn write_mindmap_node(out: &mut Vec<char>, project: &Project, c: &Concept, depth: usize, fuel: usize)
    requires
        depth + fuel < usize::MAX,
    ensures
        final(out)@ == old(out)@ + mindmap_node(project.concepts@, *c, depth as nat, fuel as nat),
    decreases fuel, 0nat,
{
    let ghost before = out@;
    push_outline_line(out, depth, c.name.as_str());
    if fuel == 0 {
        assert(out@ =~= before + mindmap_node(project.concepts@, *c, depth as nat, fuel as nat));
    } else {
        let kids = project.children_of(c.id);
        write_mindmap_nodes(out, project, &kids, depth + 1, fuel - 1);
        assert(out@ =~= before + mindmap_node(project.concepts@, *c, depth as nat, fuel as nat));
    }
}

/// The mindmap text for the whole project or for the subtree of `root`.
pub open spec fn tree_spec(cs: Seq<Concept>, root: Option<ConceptId>) -> Seq<char> {
    let fuel = cs.len();
    let body = match root {
        Some(id) => mindmap_node(cs, lookup_concept(cs, id).unwrap(), 1, fuel),
        None => {
            let roots = roots_spec(cs);
            if roots.len() == 1 {
                mindmap_node(cs, roots[0], 1, fuel)
            } else {
                "* Project\n"@ + mindmap_nodes(cs, roots, 2, fuel)
            }
        },
    };
    "@startmindmap\n"@ + body + "@endmindmap\n"@
}

/// Generate a PlantUML mindmap of the concept tree.
///
/// If `root_id` is given, only the subtree rooted at that concept is rendered;
/// it must name an existing concept. Several roots are gathered under a
/// synthetic `Project` node.
pub fn tree(project: &Project, root_id: Option<ConceptId>) -> (r: String)
    requires
        project.concepts@.len() + 3 < usize::MAX,
        root_id matches Some(id) ==> has_concept(project.concepts@, id),
    ensures
        r@ == tree_spec(project.concepts@, root_id),
{
    let mut out: Vec<char> = Vec::new();
    push_str(&mut out, "@startmindmap\n");
    let fuel = project.concepts.len();
    match root_id {
        Some(id) => {
            proof {
                lemma_concept_pos(project.concepts@, id);
            }
            match project.get_concept(id) {
                Some(c) => write_mindmap_node(&mut out, project, c, 1, fuel),
                None => {},
            }
        },
        None => {
            let roots = project.roots();
            if roots.len() == 1 {
                write_mindmap_node(&mut out, project, roots[0], 1, fuel);
            } else {
                push_str(&mut out, "* Project\n");
                write_mindmap_nodes(&mut out, project, &roots, 2, fuel);
            }
        },
    }
    push_str(&mut out, "@endmindmap\n");
    string_from(out.as_slice())
}


/// Task `b` depends directly on `a` (some task with identifier `b` lists `a`).
pub open spec fn feeds(ts: Seq<Task>, a: TaskId, b: TaskId) -> bool {
    exists|i: int| 0 <= i < ts.len() && ts[i].id == b && (#[trigger] ts[i].depends_on@).contains(a)
}

/// `p` starts at `root` and each identifier depends directly on the one before.
pub open spec fn downstream_path(ts: Seq<Task>, root: TaskId, p: Seq<TaskId>) -> bool {
    &&& p.len() >= 1
    &&& p[0] == root
    &&& forall|i: int| 0 <= i < p.len() - 1 ==> feeds(ts, p[i], #[trigger] p[i + 1])
}

/// `x` is `root` or depends on it, directly or transitively.
pub open spec fn is_downstream(ts: Seq<Task>, root: TaskId, x: TaskId) -> bool {
    exists|p: Seq<TaskId>| #[trigger] downstream_path(ts, root, p) && p.last() == x
}

/// The tasks that are `root` or depend on it transitively, in project order.
pub open spec fn downstream_tasks(ts: Seq<Task>, root: TaskId) -> Seq<Task> {
    ts.filter(|t: Task| is_downstream(ts, root, t.id))
}

/// Every identifier that depends directly on a member of `vis` is a member.
pub open spec fn closed_under_feeds(ts: Seq<Task>, vis: Seq<TaskId>) -> bool {
    forall|a: TaskId, b: TaskId| vis.contains(a) && feeds(ts, a, b) ==> vis.contains(b)
}

/// A set closed under dependents that holds `root` holds every identifier downstream of it.
proof fn lemma_closed_holds_downstream(ts: Seq<Task>, vis: Seq<TaskId>, root: TaskId, p: Seq<TaskId>)
    requires
        vis.contains(root),
        closed_under_feeds(ts, vis),
        downstream_path(ts, root, p),
    ensures
        vis.contains(p.last()),
    decreases p.len(),
{
    if p.len() > 1 {
        let q = p.drop_last();
        assert(downstream_path(ts, root, q)) by {
            assert forall|i: int| 0 <= i < q.len() - 1 implies feeds(ts, q[i], #[trigger] q[i + 1]) by {
                assert(feeds(ts, p[i], p[i + 1]));
            }
        }
        lemma_closed_holds_downstream(ts, vis, root, q);
        let i = p.len() - 2;
        assert(feeds(ts, p[i], p[i + 1]));
    }
}

/// Collect a task and all tasks that transitively depend on it, in project order.
fn collect_downstream(project: &Project, root_id: TaskId) -> (r: Vec<&Task>)
    ensures
        r@.map_values(|t: &Task| *t) == downstream_tasks(project.tasks@, root_id),
{
    let ghost ts = project.tasks@;
    let mut visited: Vec<TaskId> = Vec::new();
    visited.push(root_id);
    proof {
        let p = seq![root_id];
        assert(downstream_path(ts, root_id, p));
        assert(is_downstream(ts, root_id, root_id));
    }
    let mut q: usize = 0;
    while q < visited.len()
        invariant
            ts == project.tasks@,
            q <= visited@.len(),
            visited@.len() >= 1,
            visited@[0] == root_id,
            visited@.no_duplicates(),
            visited@.len() <= ts.len() + 1,
            forall|k: int| 1 <= k < visited@.len() ==> tids(ts).contains(#[trigger] visited@[k]),
            forall|k: int| 0 <= k < visited@.len() ==> is_downstream(ts, root_id, #[trigger] visited@[k]),
            forall|k: int, b: TaskId| 0 <= k < q && #[trigger] feeds(ts, visited@[k], b) ==> visited@.contains(b),
        decreases ts.len() + 1 - q,
    {
        let v = visited[q];
        let mut i: usize = 0;
        while i < project.tasks.len()
            invariant
                ts == project.tasks@,
                q < visited@.len(),
                v == visited@[q as int],
                i <= ts.len(),
                visited@.len() >= 1,
                visited@[0] == root_id,
                visited@.no_duplicates(),
                visited@.len() <= ts.len() + 1,
                forall|k: int| 1 <= k < visited@.len() ==> tids(ts).contains(#[trigger] visited@[k]),
                forall|k: int| 0 <= k < visited@.len() ==> is_downstream(ts, root_id, #[trigger] visited@[k]),
                forall|k: int, b: TaskId| 0 <= k < q && #[trigger] feeds(ts, visited@[k], b) ==> visited@.contains(b),
                forall|i2: int| 0 <= i2 < i && (#[trigger] ts[i2].depends_on@).contains(v) ==> visited@.contains(ts[i2].id),
            decreases ts.len() - i,
        {
            let t = &project.tasks[i];
            if contains_task(&t.depends_on, v) && !contains_task(&visited, t.id) {
                proof {
                    let pv = choose|p: Seq<TaskId>| downstream_path(ts, root_id, p) && p.last() == v;
                    assert(downstream_path(ts, root_id, pv) && pv.last() == v) by {
                        assert(is_downstream(ts, root_id, visited@[q as int]));
                    }
                    assert(feeds(ts, v, t.id)) by {
                        assert(ts[i as int].depends_on@.contains(v));
                    }
                    let np = pv.push(t.id);
                    assert forall|k: int| 0 <= k < np.len() - 1 implies feeds(ts, np[k], #[trigger] np[k + 1]) by {
                        if k < pv.len() - 1 {
                            assert(np[k] == pv[k] && np[k + 1] == pv[k + 1]);
                        } else {
                            assert(np[k] == v && np[k + 1] == t.id);
                        }
                    }
                    assert(downstream_path(ts, root_id, np));
                    assert(is_downstream(ts, root_id, t.id));
                    assert(tids(ts)[i as int] == t.id);
                }
                let ghost old_vis = visited@;
                visited.push(t.id);
                proof {
                    assert(visited@.drop_first().no_duplicates()) by {
                        assert forall|a: int, b: int| 0 <= a < b < visited@.drop_first().len() implies visited@.drop_first()[a] != visited@.drop_first()[b] by {
                            assert(visited@.drop_first()[a] == visited@[a + 1]);
                            assert(visited@.drop_first()[b] == visited@[b + 1]);
                        }
                    }
                    assert forall|k: int| 0 <= k < visited@.drop_first().len() implies tids(ts).contains(#[trigger] visited@.drop_first()[k]) by {
                        assert(visited@.drop_first()[k] == visited@[k + 1]);
                    }
                    lemma_distinct_bound(visited@.drop_first(), tids(ts));
                    assert forall|k: int, b: TaskId| 0 <= k < q && #[trigger] feeds(ts, visited@[k], b) implies visited@.contains(b) by {
                        assert(visited@[k] == old_vis[k]);
                        assert(old_vis.contains(b));
                        let m = choose|m: int| 0 <= m < old_vis.len() && old_vis[m] == b;
                        assert(visited@[m] == b);
                    }
                    assert forall|i2: int| 0 <= i2 < i + 1 && (#[trigger] ts[i2].depends_on@).contains(v) implies visited@.contains(ts[i2].id) by {
                        if i2 < i {
                            assert(old_vis.contains(ts[i2].id));
                            let m = choose|m: int| 0 <= m < old_vis.len() && old_vis[m] == ts[i2].id;
                            assert(visited@[m] == ts[i2].id);
                        } else {
                            assert(visited@[visited@.len() - 1] == ts[i2].id);
                        }
                    }
                }
            }
            i += 1;
        }
        proof {
            assert forall|k: int, b: TaskId| 0 <= k < q + 1 && #[trigger] feeds(ts, visited@[k], b) implies visited@.contains(b) by {
                if k == q {
                    let i2 = choose|i2: int| 0 <= i2 < ts.len() && ts[i2].id == b && (#[trigger] ts[i2].depends_on@).contains(visited@[k]);
                    assert(ts[i2].depends_on@.contains(v));
                }
            }
        }
        q += 1;
    }
    proof {
        assert(closed_under_feeds(ts, visited@)) by {
            assert forall|a: TaskId, b: TaskId| visited@.contains(a) && feeds(ts, a, b) implies visited@.contains(b) by {
                let k = choose|k: int| 0 <= k < visited@.len() && visited@[k] == a;
                assert(feeds(ts, visited@[k], b));
            }
        }
        assert(visited@.contains(root_id)) by {
            assert(visited@[0] == root_id);
        }
    }
    let mut r: Vec<&Task> = Vec::new();
    let mut i: usize = 0;
    while i < project.tasks.len()
        invariant
            ts == project.tasks@,
            i <= ts.len(),
            visited@.contains(root_id),
            closed_under_feeds(ts, visited@),
            forall|k: int| 0 <= k < visited@.len() ==> is_downstream(ts, root_id, #[trigger] visited@[k]),
            r@.map_values(|t: &Task| *t) == ts.take(i as int).filter(|t: Task| is_downstream(ts, root_id, t.id)),
        decreases ts.len() - i,
    {
        let t = &project.tasks[i];
        let ghost tk = ts.take(i + 1);
        assert(tk.drop_last() =~= ts.take(i as int));
        reveal_with_fuel(Seq::filter, 2);
        let inside = contains_task(&visited, t.id);
        proof {
            if inside {
                let m = choose|m: int| 0 <= m < visited@.len() && visited@[m] == t.id;
                assert(is_downstream(ts, root_id, visited@[m]));
            } else if is_downstream(ts, root_id, t.id) {
                let p = choose|p: Seq<TaskId>| downstream_path(ts, root_id, p) && p.last() == t.id;
                lemma_closed_holds_downstream(ts, visited@, root_id, p);
            }
        }
        if inside {
            r.push(t);
        }
        assert(r@.map_values(|t: &Task| *t) =~= tk.filter(|t: Task| is_downstream(ts, root_id, t.id)));
        i += 1;
    }
    assert(ts.take(i as int) =~= ts);
    r
}

/// The stereotype marking a task's state in the component diagram.
pub open spec fn stereotype(s: TaskState) -> Seq<char> {
    match s {
        TaskState::Done => " <<done>>"@,
        TaskState::InProgress => " <<in_progress>>"@,
        TaskState::Todo => Seq::empty(),
    }
}

/// The declaration of one task as a component, aliased by its identifier.
pub open spec fn component_line(t: Task) -> Seq<char> {
    "component \""@ + quoted_label_spec(t.name@) + "\" as "@ + id_text('t', t.id.0) + stereotype(t.state) + seq!['\n']
}

/// The arrow from dependency `dep` to task `id`, when `dep` is among `shown`.
pub open spec fn edge_line(shown: Seq<TaskId>, dep: TaskId, id: TaskId) -> Seq<char> {
    if shown.contains(dep) {
        id_text('t', dep.0) + " --> "@ + id_text('t', id.0) + seq!['\n']
    } else {
        Seq::empty()
    }
}

/// The arrows into one task, in the order of its dependency list.
pub open spec fn task_arrows(shown: Seq<TaskId>, t: Task) -> Seq<char> {
    concat(t.depends_on@.map_values(|d: TaskId| edge_line(shown, d, t.id)))
}

/// The colour declarations that open a non-empty component diagram.
pub open spec fn dag_skin() -> Seq<char> {
    "skinparam component {\n  BackgroundColor<<done>> LightGreen\n  BackgroundColor<<in_progress>> Gold\n}\n\n"@
}

/// The component diagram of the tasks `sel`.
pub open spec fn dag_text(sel: Seq<Task>) -> Seq<char> {
    let shown = tids(sel);
    "@startuml\n"@
        + (if sel.len() > 0 { dag_skin() } else { Seq::empty() })
        + concat(sel.map_values(|t: Task| component_line(t)))
        + (if sel.len() > 0 { seq!['\n'] } else { Seq::empty() })
        + concat(sel.map_values(|t: Task| task_arrows(shown, t)))
        + "@enduml\n"@
}

/// The component diagram of the whole project, or of `root` and its downstream tasks.
pub open spec fn dag_spec(ts: Seq<Task>, root: Option<TaskId>) -> Seq<char> {
    match root {
        Some(id) => dag_text(downstream_tasks(ts, id)),
        None => dag_text(ts),
    }
}

fn push_component_line(out: &mut Vec<char>, t: &Task)
    ensures
        final(out)@ == old(out)@ + component_line(*t),
{
    push_str(out, "component \"");
    let mut l = one_line_chars(t.name.as_str());
    replace_in(&mut l, '"', '\'');
    push_all(out, l.as_slice());
    push_str(out, "\" as ");
    push_task_id(out, t.id);
    match t.state {
        TaskState::Done => push_str(out, " <<done>>"),
        TaskState::InProgress => push_str(out, " <<in_progress>>"),
        TaskState::Todo => {},
    }
    out.push('\n');
    assert(out@ =~= old(out)@ + component_line(*t));
}

fn push_task_arrows(out: &mut Vec<char>, shown: &Vec<TaskId>, t: &Task)
    ensures
        final(out)@ == old(out)@ + task_arrows(shown@, *t),
{
    let ghost parts = t.depends_on@.map_values(|d: TaskId| edge_line(shown@, d, t.id));
    let mut j: usize = 0;
    while j < t.depends_on.len()
        invariant
            j <= t.depends_on@.len(),
            parts == t.depends_on@.map_values(|d: TaskId| edge_line(shown@, d, t.id)),
            out@ == old(out)@ + concat(parts.take(j as int)),
        decreases t.depends_on@.len() - j,
    {
        proof {
            lemma_concat_take(parts, j as int);
        }
        let d = t.depends_on[j];
        let ghost before = out@;
        if contains_task(shown, d) {
            push_task_id(out, d);
            push_str(out, " --> ");
            push_task_id(out, t.id);
            out.push('\n');
        }
        assert(out@ =~= before + edge_line(shown@, d, t.id));
        j += 1;
    }
    assert(parts.take(j as int) =~= parts);
}

/// Generate a PlantUML component diagram of the task dependency DAG.
///
/// If `root_id` is given, only that task and all downstream dependents are
/// shown. Tasks are aliased `t<number>`; done and in-progress tasks carry a
/// colouring stereotype.
pub fn dag(project: &Project, root_id: Option<TaskId>) -> (r: String)
    ensures
        r@ == dag_spec(project.tasks@, root_id),
{
    let sel: Vec<&Task> = match root_id {
        Some(id) => collect_downstream(project, id),
        None => {
            let mut all: Vec<&Task> = Vec::new();
            let mut i: usize = 0;
            while i < project.tasks.len()
                invariant
                    i <= project.tasks@.len(),
                    all@.map_values(|t: &Task| *t) == project.tasks@.take(i as int),
                decreases project.tasks@.len() - i,
            {
                let t = &project.tasks[i];
                let ghost before = all@;
                all.push(t);
                assert(all@ == before.push(t));
                assert(*t == project.tasks@[i as int]);
                assert(all@.map_values(|t: &Task| *t) =~= before.map_values(|t: &Task| *t).push(*t));
                assert(project.tasks@.take(i + 1) =~= project.tasks@.take(i as int).push(project.tasks@[i as int]));
                assert(all@.map_values(|t: &Task| *t) =~= project.tasks@.take(i + 1));
                i += 1;
            }
            assert(project.tasks@.take(i as int) =~= project.tasks@);
            all
        },
    };
    let ghost sv = sel@.map_values(|t: &Task| *t);
    assert(sv =~= match root_id {
        Some(id) => downstream_tasks(project.tasks@, id),
        None => project.tasks@,
    });
    let mut shown: Vec<TaskId> = Vec::new();
    let mut i: usize = 0;
    while i < sel.len()
        invariant
            i <= sel@.len(),
            sv == sel@.map_values(|t: &Task| *t),
            shown@ == tids(sv.take(i as int)),
        decreases sel@.len() - i,
    {
        shown.push(sel[i].id);
        assert(shown@ =~= tids(sv.take(i + 1)));
        i += 1;
    }
    assert(sv.take(i as int) =~= sv);
    let mut out: Vec<char> = Vec::new();
    push_str(&mut out, "@startuml\n");
    if sel.len() > 0 {
        push_str(&mut out, "skinparam component {\n  BackgroundColor<<done>> LightGreen\n  BackgroundColor<<in_progress>> Gold\n}\n\n");
    }
    let ghost head = out@;
    let ghost comps = sv.map_values(|t: Task| component_line(t));
    let mut i: usize = 0;
    while i < sel.len()
        invariant
            i <= sel@.len(),
            sv == sel@.map_values(|t: &Task| *t),
            comps == sv.map_values(|t: Task| component_line(t)),
            out@ == head + concat(comps.take(i as int)),
        decreases sel@.len() - i,
    {
        proof {
            lemma_concat_take(comps, i as int);
        }
        push_component_line(&mut out, sel[i]);
        i += 1;
    }
    assert(comps.take(i as int) =~= comps);
    if sel.len() > 0 {
        out.push('\n');
    }
    let ghost mid = out@;
    let ghost arrows = sv.map_values(|t: Task| task_arrows(shown@, t));
    let mut i: usize = 0;
    while i < sel.len()
        invariant
            i <= sel@.len(),
            sv == sel@.map_values(|t: &Task| *t),
            arrows == sv.map_values(|t: Task| task_arrows(shown@, t)),
            out@ == mid + concat(arrows.take(i as int)),
        decreases sel@.len() - i,
    {
        proof {
            lemma_concat_take(arrows, i as int);
        }
        push_task_arrows(&mut out, &shown, sel[i]);
        i += 1;
    }
    assert(arrows.take(i as int) =~= arrows);
    push_str(&mut out, "@enduml\n");
    assert(out@ =~= dag_text(sv));
    string_from(out.as_slice())
}

/// `line` once for each occurrence of `cid` in `links`.
pub open spec fn repeat_per_link(links: Seq<ConceptId>, cid: ConceptId, line: Seq<char>) -> Seq<char>
    decreases links.len(),
{
    if links.len() == 0 {
        Seq::empty()
    } else {
        repeat_per_link(links.drop_last(), cid, line) + if links.last() == cid {
            line
        } else {
            Seq::<char>::empty()
        }
    }
}

/// One task's leaf lines under concept `cid`: a line for each time it lists `cid`.
pub open spec fn task_leaves(t: Task, cid: ConceptId, depth: nat) -> Seq<char> {
    repeat_per_link(t.concepts@, cid, outline_line(depth, t.name@))
}

/// The leaf lines of the tasks linked to `cid`, in project order.
pub open spec fn concept_leaves(ts: Seq<Task>, cid: ConceptId, depth: nat) -> Seq<char> {
    concat(ts.map_values(|t: Task| task_leaves(t, cid, depth)))
}

/// A concept's WBS node: its line, its linked tasks one level deeper, then its
/// children's nodes, for at most `fuel` further levels.
pub open spec fn wbs_node(cs: Seq<Concept>, ts: Seq<Task>, c: Concept, depth: nat, fuel: nat) -> Seq<char>
    decreases fuel, 0nat, 0nat,
{
    outline_line(depth, c.name@) + concept_leaves(ts, c.id, depth + 1) + if fuel == 0 {
        Seq::<char>::empty()
    } else {
        wbs_nodes(cs, ts, children_spec(cs, c.id), depth + 1, (fuel - 1) as nat)
    }
}

/// The WBS nodes of several concepts at one depth, in order.
pub open spec fn wbs_nodes(cs: Seq<Concept>, ts: Seq<Task>, ks: Seq<Concept>, depth: nat, fuel: nat) -> Seq<char>
    decreases fuel, 1nat, ks.len(),
{
    if ks.len() == 0 {
        Seq::empty()
    } else {
        wbs_nodes(cs, ts, ks.drop_last(), depth, fuel) + wbs_node(cs, ts, ks.last(), depth, fuel)
    }
}

/// Some task with identifier `id` is linked to a concept.
pub open spec fn is_linked(ts: Seq<Task>, id: TaskId) -> bool {
    exists|k: int| 0 <= k < ts.len() && ts[k].id == id && (#[trigger] ts[k].concepts@).len() > 0
}

/// The tasks linked to no concept, in project order.
pub open spec fn unlinked_tasks(ts: Seq<Task>) -> Seq<Task> {
    ts.filter(|t: Task| !is_linked(ts, t.id))
}

/// The WBS text for the whole project or for the subtree of `root`.
pub open spec fn wbs_spec(cs: Seq<Concept>, ts: Seq<Task>, root: Option<ConceptId>) -> Seq<char> {
    let fuel = cs.len();
    let body = match root {
        Some(id) => wbs_node(cs, ts, lookup_concept(cs, id).unwrap(), 1, fuel),
        None => {
            let roots = roots_spec(cs);
            let un = unlinked_tasks(ts);
            if roots.len() == 1 && un.len() == 0 {
                wbs_node(cs, ts, roots[0], 1, fuel)
            } else if roots.len() > 0 || un.len() > 0 {
                "* Project\n"@ + wbs_nodes(cs, ts, roots, 2, fuel) + if un.len() > 0 {
                    "** Unlinked\n"@ + concat(un.map_values(|t: Task| outline_line(3, t.name@)))
                } else {
                    Seq::<char>::empty()
                }
            } else {
                Seq::empty()
            }
        },
    };
    "@startwbs\n"@ + body + "@endwbs\n"@
}

fn push_concept_leaves(out: &mut Vec<char>, tasks: &Vec<Task>, cid: ConceptId, depth: usize)
    ensures
        final(out)@ == old(out)@ + concept_leaves(tasks@, cid, depth as nat),
{
    let ghost parts = tasks@.map_values(|t: Task| task_leaves(t, cid, depth as nat));
    let mut i: usize = 0;
    while i < tasks.len()
        invariant
            i <= tasks@.len(),
            parts == tasks@.map_values(|t: Task| task_leaves(t, cid, depth as nat)),
            out@ == old(out)@ + concat(parts.take(i as int)),
        decreases tasks@.len() - i,
    {
        proof {
            lemma_concat_take(parts, i as int);
        }
        let t = &tasks[i];
        let ghost line = outline_line(depth as nat, t.name@);
        let ghost start = out@;
        let mut j: usize = 0;
        while j < t.concepts.len()
            invariant
                j <= t.concepts@.len(),
                line == outline_line(depth as nat, t.name@),
                out@ == start + repeat_per_link(t.concepts@.take(j as int), cid, line),
            decreases t.concepts@.len() - j,
        {
            assert(t.concepts@.take(j + 1).drop_last() =~= t.concepts@.take(j as int));
            let ghost before = out@;
            if t.concepts[j] == cid {
                push_outline_line(out, depth, t.name.as_str());
            }
            assert(out@ =~= start + repeat_per_link(t.concepts@.take(j + 1), cid, line));
            j += 1;
        }
        assert(t.concepts@.take(j as int) =~= t.concepts@);
        i += 1;
    }
    assert(parts.take(i as int) =~= parts);
}

fn write_wbs_nodes(out: &mut Vec<char>, project: &Project, ks: &Vec<&Concept>, depth: usize, fuel: usize)
    requires
        depth + fuel + 1 < usize::MAX,
    ensures
        final(out)@ == old(out)@ + wbs_nodes(project.concepts@, project.tasks@, ks@.map_values(|c: &Concept| *c), depth as nat, fuel as nat),
    decreases fuel, 1nat,
{
    let ghost kv = ks@.map_values(|c: &Concept| *c);
    let mut i: usize = 0;
    while i < ks.len()
        invariant
            i <= ks@.len(),
            depth + fuel + 1 < usize::MAX,
            kv == ks@.map_values(|c: &Concept| *c),
            out@ == old(out)@ + wbs_nodes(project.concepts@, project.tasks@, kv.take(i as int), depth as nat, fuel as nat),
        decreases ks@.len() - i,
    {
        assert(kv.take(i + 1).drop_last() =~= kv.take(i as int));
        write_wbs_node(out, project, ks[i], depth, fuel);
        i += 1;
    }
    assert(kv.take(i as int) =~= kv);
}

fn write_wbs_node(out: &mut Vec<char>, project: &Project, c: &Concept, depth: usize, fuel: usize)
    requires
        depth + fuel + 1 < usize::MAX,
    ensures
        final(out)@ == old(out)@ + wbs_node(project.concepts@, project.tasks@, *c, depth as nat, fuel as nat),
    decreases fuel, 0nat,
{
    let ghost before = out@;
    push_outline_line(out, depth, c.name.as_str());
    push_concept_leaves(out, &project.tasks, c.id, depth + 1);
    if fuel == 0 {
        assert(out@ =~= before + wbs_node(project.concepts@, project.tasks@, *c, depth as nat, fuel as nat));
    } else {
        let kids = project.children_of(c.id);
        write_wbs_nodes(out, project, &kids, depth + 1, fuel - 1);
        assert(out@ =~= before + wbs_node(project.concepts@, project.tasks@, *c, depth as nat, fuel as nat));
    }
}

fn linked(tasks: &Vec<Task>, id: TaskId) -> (r: bool)
    ensures
        r == is_linked(tasks@, id),
{
    let mut k: usize = 0;
    while k < tasks.len()
        invariant
            k <= tasks@.len(),
            forall|m: int| 0 <= m < k ==> !(tasks@[m].id == id && (#[trigger] tasks@[m].concepts@).len() > 0),
        decreases tasks@.len() - k,
    {
        if tasks[k].id == id && tasks[k].concepts.len() > 0 {
            assert(tasks@[k as int].concepts@.len() > 0);
            return true;
        }
        k += 1;
    }
    false
}

/// Generate a PlantUML WBS diagram with concepts as structure and tasks as leaves.
///
/// Tasks linked to several concepts appear under each; unlinked tasks are
/// grouped under a separate `Unlinked` node. With `root_id`, which must name
/// an existing concept, only that subtree is rendered and the `Unlinked`
/// group is omitted.
pub fn wbs(project: &Project, root_id: Option<ConceptId>) -> (r: String)
    requires
        project.concepts@.len() + 4 < usize::MAX,
        root_id matches Some(id) ==> has_concept(project.concepts@, id),
    ensures
        r@ == wbs_spec(project.concepts@, project.tasks@, root_id),
{
    let ghost cs = project.concepts@;
    let ghost ts = project.tasks@;
    let mut out: Vec<char> = Vec::new();
    push_str(&mut out, "@startwbs\n");
    let fuel = project.concepts.len();
    match root_id {
        Some(id) => {
            proof {
                lemma_concept_pos(cs, id);
            }
            match project.get_concept(id) {
                Some(c) => write_wbs_node(&mut out, project, c, 1, fuel),
                None => {},
            }
        },
        None => {
            let roots = project.roots();
            let mut un: Vec<&Task> = Vec::new();
            let mut i: usize = 0;
            while i < project.tasks.len()
                invariant
                    ts == project.tasks@,
                    i <= ts.len(),
                    un@.map_values(|t: &Task| *t) == ts.take(i as int).filter(|t: Task| !is_linked(ts, t.id)),
                decreases ts.len() - i,
            {
                let t = &project.tasks[i];
                let ghost tk = ts.take(i + 1);
                assert(tk.drop_last() =~= ts.take(i as int));
                reveal_with_fuel(Seq::filter, 2);
                if !linked(&project.tasks, t.id) {
                    un.push(t);
                }
                assert(un@.map_values(|t: &Task| *t) =~= tk.filter(|t: Task| !is_linked(ts, t.id)));
                i += 1;
            }
            assert(ts.take(i as int) =~= ts);
            let ghost uv = un@.map_values(|t: &Task| *t);
            if roots.len() == 1 && un.len() == 0 {
                write_wbs_node(&mut out, project, roots[0], 1, fuel);
            } else if roots.len() > 0 || un.len() > 0 {
                push_str(&mut out, "* Project\n");
                write_wbs_nodes(&mut out, project, &roots, 2, fuel);
                if un.len() > 0 {
                    push_str(&mut out, "** Unlinked\n");
                    let ghost start = out@;
                    let ghost parts = uv.map_values(|t: Task| outline_line(3, t.name@));
                    let mut k: usize = 0;
                    while k < un.len()
                        invariant
                            k <= un@.len(),
                            uv == un@.map_values(|t: &Task| *t),
                            parts == uv.map_values(|t: Task| outline_line(3, t.name@)),
                            out@ == start + concat(parts.take(k as int)),
                        decreases un@.len() - k,
                    {
                        proof {
                            lemma_concat_take(parts, k as int);
                        }
                        push_outline_line(&mut out, 3, un[k].name.as_str());
                        k += 1;
                    }
                    assert(parts.take(k as int) =~= parts);
                }
            }
        },
    }
    push_str(&mut out, "@endwbs\n");
    string_from(out.as_slice())
}

/// The only whitespace in `s` is the plain space: no line break or tab.
pub open spec fn spaces_only(s: Seq<char>) -> bool {
    forall|k: int| 0 <= k < s.len() ==> #[trigger] s[k] == ' ' || !is_ws(s[k])
}

/// The sanitised labels are single-line: every whitespace run became one
/// plain space, so no label can split a diagram declaration; a quoted label
/// holds no `"` and a bracketed label no `[` or `]`.
pub proof fn lemma_labels_are_safe(s: Seq<char>)
    ensures
        spaces_only(one_line_spec(s)),
        spaces_only(quoted_label_spec(s)),
        spaces_only(bracket_label_spec(s)),
        !quoted_label_spec(s).contains('"'),
        !bracket_label_spec(s).contains('['),
        !bracket_label_spec(s).contains(']'),
{
    let ps = split_by(s, true);
    let f = |w: Seq<char>| w.len() > 0;
    lemma_split_pieces_clean(s, true);
    lemma_filter_in(ps, f);
    let ws = words(s);
    assert forall|i: int, j: int| 0 <= i < ws.len() && 0 <= j < ws[i].len() implies !is_ws(#[trigger] ws[i][j]) by {
        assert(ps.contains(ws[i]));
        let m = choose|m: int| 0 <= m < ps.len() && ps[m] == ws[i];
        assert(!crate::text::is_sep(true, ps[m][j]));
    }
    lemma_join_spaces_only(ws);
    reveal_strlit("(unnamed)");
    let o = one_line_spec(s);
    assert(spaces_only(o));
    let q = quoted_label_spec(s);
    assert forall|k: int| 0 <= k < q.len() implies #[trigger] q[k] == ' ' || !is_ws(q[k]) by {
        assert(o[k] == ' ' || !is_ws(o[k]));
    }
    assert(!q.contains('"')) by {
        if q.contains('"') {
            let k = choose|k: int| 0 <= k < q.len() && q[k] == '"';
            assert(q[k] == (if o[k] == '"' { '\'' } else { o[k] }));
        }
    }
    let b1 = replace_char(o, '[', '(');
    let b = bracket_label_spec(s);
    assert forall|k: int| 0 <= k < b.len() implies #[trigger] b[k] == ' ' || !is_ws(b[k]) by {
        assert(o[k] == ' ' || !is_ws(o[k]));
        assert(b1[k] == (if o[k] == '[' { '(' } else { o[k] }));
    }
    assert(!b.contains('[') && !b.contains(']')) by {
        if b.contains('[') {
            let k = choose|k: int| 0 <= k < b.len() && b[k] == '[';
            assert(b1[k] == (if o[k] == '[' { '(' } else { o[k] }));
        }
        if b.contains(']') {
            let k = choose|k: int| 0 <= k < b.len() && b[k] == ']';
            assert(b1[k] == (if o[k] == '[' { '(' } else { o[k] }));
        }
    }
}

/// The dependency diagram of a selection of tasks draws every dependency
/// between two selected tasks: for each selected task and each identifier
/// in its dependency list that is also selected, the text holds the line
/// `t<dep> --> t<task>`.
pub proof fn lemma_dag_text_draws_every_edge(sel: Seq<Task>, i: int, j: int)
    requires
        0 <= i < sel.len(),
        0 <= j < sel[i].depends_on@.len(),
        tids(sel).contains(sel[i].depends_on@[j]),
    ensures
        crate::text::contains_text(
            dag_text(sel),
            id_text('t', sel[i].depends_on@[j].0) + " --> "@ + id_text('t', sel[i].id.0) + seq!['\n'],
        ),
{
    let shown = tids(sel);
    let t = sel[i];
    let d = t.depends_on@[j];
    let line = id_text('t', d.0) + " --> "@ + id_text('t', t.id.0) + seq!['\n'];
    let parts = t.depends_on@.map_values(|x: TaskId| edge_line(shown, x, t.id));
    assert(parts[j] == line);
    crate::text::lemma_concat_has(parts, j);
    let all = sel.map_values(|x: Task| task_arrows(shown, x));
    assert(all[i] == task_arrows(shown, t));
    crate::text::lemma_concat_has(all, i);
    crate::text::lemma_contains_trans(concat(all), task_arrows(shown, t), line);
    let head = "@startuml\n"@
        + (if sel.len() > 0 { dag_skin() } else { Seq::empty() })
        + concat(sel.map_values(|x: Task| component_line(x)))
        + (if sel.len() > 0 { seq!['\n'] } else { Seq::empty() });
    crate::text::lemma_contains_right(head, concat(all), line);
    crate::text::lemma_contains_left(head + concat(all), "@enduml\n"@, line);
    assert(dag_text(sel) == head + concat(all) + "@enduml\n"@);
}

/// The dependency diagram of the project draws every dependency between
/// two tasks it shows: all tasks, or the task `root` and those downstream of
/// it.
pub proof fn lemma_dag_draws_every_edge(ts: Seq<Task>, root: Option<TaskId>, i: int, j: int)
    requires
        0 <= i < ts.len(),
        0 <= j < ts[i].depends_on@.len(),
        match root {
            None => true,
            Some(r) => is_downstream(ts, r, ts[i].id) && is_downstream(ts, r, ts[i].depends_on@[j]),
        },
        tids(ts).contains(ts[i].depends_on@[j]),
    ensures
        crate::text::contains_text(
            dag_spec(ts, root),
            id_text('t', ts[i].depends_on@[j].0) + " --> "@ + id_text('t', ts[i].id.0) + seq!['\n'],
        ),
{
    match root {
        None => lemma_dag_text_draws_every_edge(ts, i, j),
        Some(r) => {
            let f = |t: Task| is_downstream(ts, r, t.id);
            let sel = ts.filter(f);
            let d = ts[i].depends_on@[j];
            ts.lemma_filter_contains(f, i);
            let a = choose|a: int| 0 <= a < sel.len() && sel[a] == ts[i];
            let k = choose|k: int| 0 <= k < tids(ts).len() && tids(ts)[k] == d;
            assert(ts[k].id == d);
            ts.lemma_filter_contains(f, k);
            let b = choose|b: int| 0 <= b < sel.len() && sel[b] == ts[k];
            assert(tids(sel)[b] == d);
            lemma_dag_text_draws_every_edge(sel, a, j);
        },
    }
}

// --- The mindmap shows the whole subtree ----------------------------------------------

/// `w` occurs in `s` at the start of a line.
pub open spec fn line_at(s: Seq<char>, w: Seq<char>) -> bool {
    exists|i: int| 0 <= i && i + w.len() <= s.len() && #[trigger] s.subrange(i, i + w.len()) == w && (i == 0 || s[i - 1] == '\n')
}

proof fn lemma_line_at_left(a: Seq<char>, b: Seq<char>, w: Seq<char>)
    requires
        line_at(a, w),
    ensures
        line_at(a + b, w),
{
    let i = choose|i: int| 0 <= i && i + w.len() <= a.len() && #[trigger] a.subrange(i, i + w.len()) == w && (i == 0 || a[i - 1] == '\n');
    assert((a + b).subrange(i, i + w.len()) =~= a.subrange(i, i + w.len()));
    if i > 0 {
        assert((a + b)[i - 1] == a[i - 1]);
    }
}

proof fn lemma_line_at_right(a: Seq<char>, b: Seq<char>, w: Seq<char>)
    requires
        line_at(b, w),
        a.len() == 0 || a.last() == '\n',
    ensures
        line_at(a + b, w),
{
    let i = choose|i: int| 0 <= i && i + w.len() <= b.len() && #[trigger] b.subrange(i, i + w.len()) == w && (i == 0 || b[i - 1] == '\n');
    let j = a.len() + i;
    assert((a + b).subrange(j, j + w.len()) =~= b.subrange(i, i + w.len()));
    if i > 0 {
        assert((a + b)[j - 1] == b[i - 1]);
    } else if a.len() > 0 {
        assert((a + b)[j - 1] == a.last());
    }
}

/// Every node's text ends with a line break, so the nodes of a level are
/// empty or end with one.
proof fn lemma_nodes_end(cs: Seq<Concept>, ks: Seq<Concept>, depth: nat, fuel: nat)
    ensures
        mindmap_nodes(cs, ks, depth, fuel).len() == 0 || mindmap_nodes(cs, ks, depth, fuel).last() == '\n',
    decreases fuel, ks.len(),
{
    if ks.len() > 0 {
        let c = ks.last();
        let head = outline_line(depth, c.name@);
        assert(head.last() == '\n');
        if fuel > 0 {
            lemma_nodes_end(cs, children_spec(cs, c.id), depth + 1, (fuel - 1) as nat);
        }
        let node = mindmap_node(cs, c, depth, fuel);
        assert(node.len() > 0 && node.last() == '\n');
        assert(mindmap_nodes(cs, ks, depth, fuel) == mindmap_nodes(cs, ks.drop_last(), depth, fuel) + node);
    }
}

/// A line of one node's text is a line of its level's text.
proof fn lemma_nodes_has(cs: Seq<Concept>, ks: Seq<Concept>, depth: nat, fuel: nat, k: int, w: Seq<char>)
    requires
        0 <= k < ks.len(),
        line_at(mindmap_node(cs, ks[k], depth, fuel), w),
    ensures
        line_at(mindmap_nodes(cs, ks, depth, fuel), w),
    decreases ks.len(),
{
    let d = ks.drop_last();
    let left = mindmap_nodes(cs, d, depth, fuel);
    let node = mindmap_node(cs, ks.last(), depth, fuel);
    assert(mindmap_nodes(cs, ks, depth, fuel) == left + node);
    if k == ks.len() - 1 {
        lemma_nodes_end(cs, d, depth, fuel);
        lemma_line_at_right(left, node, w);
    } else {
        assert(d[k] == ks[k]);
        lemma_nodes_has(cs, d, depth, fuel, k, w);
        lemma_line_at_left(left, node, w);
    }
}

/// The node of a concept `c` shows, on a line of its own and `m` levels
/// deeper, every concept `m` parent steps below `c`, when the fuel allows.
proof fn lemma_node_has_line(cs: Seq<Concept>, c: Concept, depth: nat, fuel: nat, xi: int, m: nat)
    requires
        cids(cs).no_duplicates(),
        cs.contains(c),
        0 <= xi < cs.len(),
        m <= fuel,
        crate::graph::tree::ancestor_at(cs, cs[xi].id, m) == Some(c.id),
    ensures
        line_at(mindmap_node(cs, c, depth, fuel), outline_line(depth + m, cs[xi].name@)),
    decreases m,
{
    let x = cs[xi];
    if m == 0 {
        let ci = choose|ci: int| 0 <= ci < cs.len() && cs[ci] == c;
        assert(cids(cs)[ci] == cids(cs)[xi]);
        assert(ci == xi);
        let w = outline_line(depth, x.name@);
        let node = mindmap_node(cs, c, depth, fuel);
        let rest = if fuel == 0 {
            Seq::<char>::empty()
        } else {
            mindmap_nodes(cs, children_spec(cs, c.id), depth + 1, (fuel - 1) as nat)
        };
        assert(node == w + rest);
        let i: int = 0;
        assert(node.subrange(i, i + w.len()) =~= w);
    } else {
        let m1 = (m - 1) as nat;
        assert(crate::graph::tree::ancestor_at(cs, x.id, m1) is Some) by {
            if crate::graph::tree::ancestor_at(cs, x.id, m1) is None {
                crate::graph::tree::lemma_ancestor_none(cs, x.id, m1, m);
            }
        }
        let yid = crate::graph::tree::ancestor_at(cs, x.id, m1)->0;
        assert(parent_of(cs, yid) == Some(c.id));
        lemma_concept_pos(cs, yid);
        let q = concept_pos(cs, yid);
        let y = cs[q];
        assert(y.id == yid && y.parent == Some(c.id));
        let f = |k: Concept| k.parent == Some(c.id);
        cs.lemma_filter_contains(f, q);
        let kids = children_spec(cs, c.id);
        let k = choose|k: int| 0 <= k < kids.len() && kids[k] == y;
        assert(cs.contains(y));
        lemma_node_has_line(cs, y, depth + 1, (fuel - 1) as nat, xi, m1);
        let w = outline_line(depth + m, x.name@);
        assert(depth + 1 + m1 == depth + m);
        lemma_nodes_has(cs, kids, depth + 1, (fuel - 1) as nat, k, w);
        let head = outline_line(depth, c.name@);
        assert(head.last() == '\n');
        lemma_line_at_right(head, mindmap_nodes(cs, kids, depth + 1, (fuel - 1) as nat), w);
        assert(mindmap_node(cs, c, depth, fuel) == head + mindmap_nodes(cs, kids, depth + 1, (fuel - 1) as nat));
    }
}

/// A line found at the start of a line of the body is a whole line of the
/// mindmap text.
proof fn lemma_body_line(body: Seq<char>, w: Seq<char>)
    requires
        line_at(body, w),
    ensures
        crate::text::contains_text("@startmindmap\n"@ + body + "@endmindmap\n"@, seq!['\n'] + w),
{
    let head = "@startmindmap\n"@;
    reveal_strlit("@startmindmap\n");
    let i = choose|i: int| 0 <= i && i + w.len() <= body.len() && #[trigger] body.subrange(i, i + w.len()) == w && (i == 0 || body[i - 1] == '\n');
    let t = head + body + "@endmindmap\n"@;
    let j = head.len() + i - 1;
    let nw = seq!['\n'] + w;
    assert(t[j] == '\n') by {
        if i == 0 {
            assert(t[j] == head[head.len() - 1]);
        } else {
            assert(t[j] == body[i - 1]);
        }
    }
    assert forall|k: int| 0 <= k < nw.len() implies #[trigger] t.subrange(j, j + nw.len())[k] == nw[k] by {
        if k > 0 {
            assert(t[j + k] == body[i + k - 1]);
            assert(body.subrange(i, i + w.len())[k - 1] == w[k - 1]);
        }
    }
    assert(t.subrange(j, j + nw.len()) =~= nw);
}

/// The mindmap of a valid concept tree shows every concept of the rendered
/// tree, each on a line of its own whose stars count its depth: one more
/// than its distance below the rendered root, or, when several roots sit
/// under the synthetic `Project` node, two more.
pub proof fn lemma_mindmap_shows_subtree(cs: Seq<Concept>, root: Option<ConceptId>, r: ConceptId, xi: int, m: nat)
    requires
        tree_valid(cs),
        cids(cs).no_duplicates(),
        0 <= xi < cs.len(),
        crate::graph::tree::ancestor_at(cs, cs[xi].id, m) == Some(r),
        match root {
            Some(id) => r == id,
            None => parent_of(cs, r) is None,
        },
    ensures
        ({
            let depth: nat = match root {
                Some(_) => m + 1,
                None => if roots_spec(cs).len() == 1 { m + 1 } else { m + 2 },
            };
            crate::text::contains_text(tree_spec(cs, root), seq!['\n'] + outline_line(depth, cs[xi].name@))
        }),
{
    let x = cs[xi];
    assert(cids(cs)[xi] == x.id);
    crate::model::normalize::lemma_ancestor_distance(cs, x.id, m);
    crate::model::normalize::lemma_walk_inside(cs, x.id, m);
    assert(cids(cs).contains(r)) by {
        assert(crate::graph::tree::ancestor_at(cs, x.id, m) is Some);
    }
    lemma_concept_pos(cs, r);
    let q = concept_pos(cs, r);
    let w0 = choose|w0: int| 0 <= w0 < cids(cs).len() && cids(cs)[w0] == r;
    assert(cs[w0].id == r);
    let rc = cs[q];
    assert(rc.id == r);
    assert(cs.contains(rc));
    let fuel = cs.len();
    match root {
        Some(id) => {
            assert(lookup_concept(cs, id) == Some(rc));
            lemma_node_has_line(cs, rc, 1, fuel, xi, m);
            lemma_body_line(mindmap_node(cs, rc, 1, fuel), outline_line(m + 1, x.name@));
        },
        None => {
            let roots = roots_spec(cs);
            let g = |c: Concept| c.parent is None;
            assert(rc.parent is None);
            cs.lemma_filter_contains(g, q);
            let k = choose|k: int| 0 <= k < roots.len() && roots[k] == rc;
            if roots.len() == 1 {
                assert(roots[0] == rc);
                lemma_node_has_line(cs, rc, 1, fuel, xi, m);
                lemma_body_line(mindmap_node(cs, rc, 1, fuel), outline_line(m + 1, x.name@));
            } else {
                lemma_node_has_line(cs, rc, 2, fuel, xi, m);
                let w = outline_line(m + 2, x.name@);
                lemma_nodes_has(cs, roots, 2, fuel, k, w);
                reveal_strlit("* Project\n");
                lemma_line_at_right("* Project\n"@, mindmap_nodes(cs, roots, 2, fuel), w);
                lemma_body_line("* Project\n"@ + mindmap_nodes(cs, roots, 2, fuel), w);
            }
        },
    }
}

} // verus!
