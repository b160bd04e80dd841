//! What a concept report lists: the concept subtree, the tasks linked into it,
//! and the tasks those depend on, directly or transitively.
use vstd::prelude::*;

use crate::model::concept::Concept;
use crate::model::id::{ConceptId, TaskId};
use crate::model::project::{children_spec, lookup_concept, roots_spec, cids, contains_concept, contains_task, has_task, lemma_task_pos, task_pos, tids, Project};
use crate::model::task::Task;
use crate::seqs::lemma_distinct_bound;
use super::render::{desc_text, desc_text_spec, DescMode, MIN_WRAP_WIDTH};
use super::search::positions;
use super::state_filter::StateFilter;
use crate::model::id::{id_text, push_concept_id};
use crate::text::{chars_of, push_all, push_str, string_from};

verus! {

/// `p` starts where `start` allows and each step follows `link`.
pub open spec fn link_path<A>(link: spec_fn(A, A) -> bool, start: spec_fn(A) -> bool, p: Seq<A>) -> bool {
    &&& p.len() >= 1
    &&& start(p[0])
    &&& forall|i: int| 0 <= i < p.len() - 1 ==> #[trigger] link(p[i], p[i + 1])
}

/// `x` is reached from a start by following `link` zero or more times.
pub open spec fn reachable<A>(link: spec_fn(A, A) -> bool, start: spec_fn(A) -> bool, x: A) -> bool {
    exists|p: Seq<A>| #[trigger] link_path(link, start, p) && p.last() == x
}

/// A list that holds every start and is closed under `link` holds everything reachable.
proof fn lemma_closed_reach<A>(link: spec_fn(A, A) -> bool, start: spec_fn(A) -> bool, vis: Seq<A>, p: Seq<A>)
    requires
        forall|x: A| start(x) ==> vis.contains(x),
        forall|a: A, b: A| vis.contains(a) && #[trigger] link(a, b) ==> vis.contains(b),
        link_path(link, start, p),
    ensures
        vis.contains(p.last()),
    decreases p.len(),
{
    if p.len() > 1 {
        let q = p.drop_last();
        assert(link_path(link, start, q)) by {
            assert forall|i: int| 0 <= i < q.len() - 1 implies #[trigger] link(q[i], q[i + 1]) by {
                assert(link(p[i], p[i + 1]));
            }
        }
        lemma_closed_reach(link, start, vis, q);
        let i = p.len() - 2;
        assert(link(p[i], p[i + 1]));
    }
}

/// A path extended by one link is a path.
pub proof fn lemma_extend_path<A>(link: spec_fn(A, A) -> bool, start: spec_fn(A) -> bool, v: A, b: A)
    requires
        reachable(link, start, v),
        link(v, b),
    ensures
        reachable(link, start, b),
{
    let p = choose|p: Seq<A>| #[trigger] link_path(link, start, p) && p.last() == v;
    let np = p.push(b);
    assert forall|k: int| 0 <= k < np.len() - 1 implies #[trigger] link(np[k], np[k + 1]) by {
        if k < p.len() - 1 {
            assert(np[k] == p[k] && np[k + 1] == p[k + 1]);
            assert(link(p[k], p[k + 1]));
        } else {
            assert(np[k] == v && np[k + 1] == b);
        }
    }
    assert(link_path(link, start, np));
}

/// Concept `x` is a child of `y`.
pub open spec fn child_link(cs: Seq<Concept>, y: ConceptId, x: ConceptId) -> bool {
    exists|i: int| 0 <= i < cs.len() && cs[i].id == x && #[trigger] cs[i].parent == Some(y)
}

/// The child relation of a concept list.
pub open spec fn child_rel(cs: Seq<Concept>) -> spec_fn(ConceptId, ConceptId) -> bool {
    |y: ConceptId, z: ConceptId| child_link(cs, y, z)
}

/// The identifier `root` alone.
pub open spec fn is_id(root: ConceptId) -> spec_fn(ConceptId) -> bool {
    |z: ConceptId| z == root
}

/// Concept `x` is `root` or lies below it.
pub open spec fn in_subtree(cs: Seq<Concept>, root: ConceptId, x: ConceptId) -> bool {
    reachable(child_rel(cs), is_id(root), x)
}

/// Task `b` is a prerequisite of `a`: the task found under `a` lists `b`.
pub open spec fn dep_link(ts: Seq<Task>, a: TaskId, b: TaskId) -> bool {
    has_task(ts, a) && ts[task_pos(ts, a)].depends_on@.contains(b)
}

/// A task is linked to a concept of the subtree of `root`.
pub open spec fn linked_into(cs: Seq<Concept>, root: ConceptId, t: Task) -> bool {
    exists|j: int| 0 <= j < t.concepts@.len() && in_subtree(cs, root, #[trigger] t.concepts@[j])
}

/// Some task with identifier `x` is linked into the subtree of `root`.
pub open spec fn direct_id(cs: Seq<Concept>, ts: Seq<Task>, root: ConceptId, x: TaskId) -> bool {
    exists|i: int| 0 <= i < ts.len() && ts[i].id == x && #[trigger] linked_into(cs, root, ts[i])
}

/// The prerequisite relation of a task list.
pub open spec fn dep_rel(ts: Seq<Task>) -> spec_fn(TaskId, TaskId) -> bool {
    |a: TaskId, b: TaskId| dep_link(ts, a, b)
}

/// The identifiers of tasks linked into the subtree of `root`.
pub open spec fn direct_rel(cs: Seq<Concept>, ts: Seq<Task>, root: ConceptId) -> spec_fn(TaskId) -> bool {
    |a: TaskId| direct_id(cs, ts, root, a)
}

/// `x` is a directly linked identifier or a prerequisite of one, transitively.
pub open spec fn in_closure(cs: Seq<Concept>, ts: Seq<Task>, root: ConceptId, x: TaskId) -> bool {
    reachable(dep_rel(ts), direct_rel(cs, ts, root), x)
}

/// Collect all concept IDs in the subtree rooted at `root_id` (inclusive),
/// each once.
pub fn collect_subtree_ids(project: &Project, root_id: ConceptId) -> (r: Vec<ConceptId>)
    ensures
        r@.no_duplicates(),
        forall|x: ConceptId| r@.contains(x) <==> in_subtree(project.concepts@, root_id, x),
{
    let ghost cs = project.concepts@;
    let ghost link = child_rel(cs);
    let ghost start = is_id(root_id);
    let mut visited: Vec<ConceptId> = Vec::new();
    visited.push(root_id);
    proof {
        assert(link_path(link, start, seq![root_id]));
    }
    let mut q: usize = 0;
    while q < visited.len()
        invariant
            cs == project.concepts@,
            link == child_rel(cs),
            start == is_id(root_id),
            q <= visited@.len(),
            visited@.len() >= 1,
            visited@[0] == root_id,
            visited@.no_duplicates(),
            visited@.len() <= cs.len() + 1,
            forall|k: int| 1 <= k < visited@.len() ==> cids(cs).contains(#[trigger] visited@[k]),
            forall|k: int| 0 <= k < visited@.len() ==> reachable(link, start, #[trigger] visited@[k]),
            forall|k: int, b: ConceptId| 0 <= k < q && #[trigger] child_link(cs, visited@[k], b) ==> visited@.contains(b),
        decreases cs.len() + 1 - q,
    {
        let v = visited[q];
        let mut i: usize = 0;
        while i < project.concepts.len()
            invariant
                cs == project.concepts@,
                link == child_rel(cs),
                start == is_id(root_id),
                q < visited@.len(),
                v == visited@[q as int],
                i <= cs.len(),
                visited@.len() >= 1,
                visited@[0] == root_id,
                visited@.no_duplicates(),
                visited@.len() <= cs.len() + 1,
                forall|k: int| 1 <= k < visited@.len() ==> cids(cs).contains(#[trigger] visited@[k]),
                forall|k: int| 0 <= k < visited@.len() ==> reachable(link, start, #[trigger] visited@[k]),
                forall|k: int, b: ConceptId| 0 <= k < q && #[trigger] child_link(cs, visited@[k], b) ==> visited@.contains(b),
                forall|i2: int| 0 <= i2 < i && (#[trigger] cs[i2].parent) == Some(v) ==> visited@.contains(cs[i2].id),
            decreases cs.len() - i,
        {
            let c = &project.concepts[i];
            if c.parent == Some(v) && !contains_concept(&visited, c.id) {
                proof {
                    assert(child_link(cs, v, c.id)) by {
                        assert(cs[i as int].parent == Some(v));
                    }
                    assert(reachable(link, start, v)) by {
                        assert(reachable(link, start, visited@[q as int]));
                    }
                    assert(link(v, c.id));
                    lemma_extend_path(link, start, v, c.id);
                    assert(cids(cs)[i as int] == c.id);
                }
                let ghost old_vis = visited@;
                visited.push(c.id);
                proof {
                    let d = visited@.drop_first();
                    assert(d.no_duplicates()) by {
                        assert forall|a: int, b: int| 0 <= a < b < d.len() implies d[a] != d[b] by {
                            assert(d[a] == visited@[a + 1] && d[b] == visited@[b + 1]);
                        }
                    }
                    assert forall|k: int| 0 <= k < d.len() implies cids(cs).contains(#[trigger] d[k]) by {
                        assert(d[k] == visited@[k + 1]);
                    }
                    lemma_distinct_bound(d, cids(cs));
                    assert forall|k: int, b: ConceptId| 0 <= k < q && #[trigger] child_link(cs, visited@[k], b) implies visited@.contains(b) by {
                        assert(visited@[k] == old_vis[k]);
                        assert(old_vis.contains(b));
                        let m = choose|m: int| 0 <= m < old_vis.len() && old_vis[m] == b;
                        assert(visited@[m] == b);
                    }
                    assert forall|i2: int| 0 <= i2 < i + 1 && (#[trigger] cs[i2].parent) == Some(v) implies visited@.contains(cs[i2].id) by {
                        if i2 < i {
                            assert(old_vis.contains(cs[i2].id));
                            let m = choose|m: int| 0 <= m < old_vis.len() && old_vis[m] == cs[i2].id;
                            assert(visited@[m] == cs[i2].id);
                        } else {
                            assert(visited@[visited@.len() - 1] == cs[i2].id);
                        }
                    }
                }
            } else {
                proof {
                    if c.parent == Some(v) {
                        assert(cs[i as int] == *c);
                    }
                }
            }
            i += 1;
        }
        proof {
            assert forall|k: int, b: ConceptId| 0 <= k < q + 1 && #[trigger] child_link(cs, visited@[k], b) implies visited@.contains(b) by {
                if k == q {
                    let i2 = choose|i2: int| 0 <= i2 < cs.len() && cs[i2].id == b && #[trigger] cs[i2].parent == Some(visited@[k]);
                    assert(cs[i2].parent == Some(v));
                }
            }
        }
        q += 1;
    }
    proof {
        assert forall|x: ConceptId| visited@.contains(x) <==> in_subtree(cs, root_id, x) by {
            if visited@.contains(x) {
                let k = choose|k: int| 0 <= k < visited@.len() && visited@[k] == x;
                assert(reachable(link, start, visited@[k]));
            }
            if in_subtree(cs, root_id, x) {
                let p = choose|p: Seq<ConceptId>| #[trigger] link_path(link, start, p) && p.last() == x;
                assert forall|a: ConceptId, b: ConceptId| visited@.contains(a) && #[trigger] link(a, b) implies visited@.contains(b) by {
                    let k = choose|k: int| 0 <= k < visited@.len() && visited@[k] == a;
                    assert(child_link(cs, visited@[k], b));
                }
                assert(visited@[0] == root_id);
                lemma_closed_reach(link, start, visited@, p);
            }
        }
    }
    visited
}

/// Membership in `seed`.
pub open spec fn in_seq(seed: Seq<TaskId>) -> spec_fn(TaskId) -> bool {
    |a: TaskId| seed.contains(a)
}

/// Every dependency listed by any task, task by task.
pub open spec fn all_deps(ts: Seq<Task>) -> Seq<TaskId>
    decreases ts.len(),
{
    if ts.len() == 0 {
        Seq::empty()
    } else {
        all_deps(ts.drop_last()) + ts.last().depends_on@
    }
}

proof fn lemma_all_deps_contains(ts: Seq<Task>, i: int, d: TaskId)
    requires
        0 <= i < ts.len(),
        ts[i].depends_on@.contains(d),
    ensures
        all_deps(ts).contains(d),
    decreases ts.len(),
{
    let a = all_deps(ts.drop_last());
    let l = ts.last().depends_on@;
    if i == ts.len() - 1 {
        let j = choose|j: int| 0 <= j < l.len() && l[j] == d;
        assert((a + l)[a.len() + j] == d);
    } else {
        lemma_all_deps_contains(ts.drop_last(), i, d);
        let j = choose|j: int| 0 <= j < a.len() && a[j] == d;
        assert((a + l)[j] == d);
    }
}

/// Walk dependencies transitively from `seed` to find every upstream
/// prerequisite; the result holds the seed and all of them, each once.
pub fn collect_upstream_tasks(project: &Project, seed: &Vec<TaskId>) -> (r: Vec<TaskId>)
    requires
        seed@.no_duplicates(),
    ensures
        r@.no_duplicates(),
        forall|x: TaskId| r@.contains(x) <==> reachable(dep_rel(project.tasks@), in_seq(seed@), x),
{
    let ghost ts = project.tasks@;
    let ghost link = dep_rel(ts);
    let ghost start = in_seq(seed@);
    let ghost u = seed@ + all_deps(ts);
    let mut visited: Vec<TaskId> = Vec::new();
    let mut s: usize = 0;
    while s < seed.len()
        invariant
            s <= seed@.len(),
            seed@.no_duplicates(),
            visited@ == seed@.take(s as int),
            start == in_seq(seed@),
        decreases seed@.len() - s,
    {
        visited.push(seed[s]);
        assert(visited@ =~= seed@.take(s + 1));
        s += 1;
    }
    assert(visited@ =~= seed@);
    proof {
        assert forall|k: int| 0 <= k < visited@.len() implies reachable(link, start, #[trigger] visited@[k]) by {
            assert(link_path(link, start, seq![visited@[k]]));
        }
        assert forall|k: int| 0 <= k < visited@.len() implies u.contains(#[trigger] visited@[k]) by {
            assert(u[k] == visited@[k]);
        }
    }
    let mut q: usize = 0;
    while q < visited.len()
        invariant
            ts == project.tasks@,
            link == dep_rel(ts),
            start == in_seq(seed@),
            u == seed@ + all_deps(ts),
            q <= visited@.len(),
            visited@.no_duplicates(),
            visited@.len() <= u.len(),
            forall|x: TaskId| seed@.contains(x) ==> visited@.contains(x),
            forall|k: int| 0 <= k < visited@.len() ==> u.contains(#[trigger] visited@[k]),
            forall|k: int| 0 <= k < visited@.len() ==> reachable(link, start, #[trigger] visited@[k]),
            forall|k: int, b: TaskId| 0 <= k < q && #[trigger] dep_link(ts, visited@[k], b) ==> visited@.contains(b),
        decreases u.len() - q,
    {
        proof {
            lemma_distinct_bound(visited@, u);
        }
        let v = visited[q];
        proof {
            lemma_task_pos(ts, v);
        }
        match project.get_task(v) {
            Some(t) => {
                let mut j: usize = 0;
                while j < t.depends_on.len()
                    invariant
                        ts == project.tasks@,
                        link == dep_rel(ts),
                        start == in_seq(seed@),
                        u == seed@ + all_deps(ts),
                        q < visited@.len(),
                        v == visited@[q as int],
                        0 <= task_pos(ts, v) < ts.len(),
                        *t == ts[task_pos(ts, v)],
                        j <= t.depends_on@.len(),
                        visited@.no_duplicates(),
                        forall|x: TaskId| seed@.contains(x) ==> visited@.contains(x),
                        forall|k: int| 0 <= k < visited@.len() ==> u.contains(#[trigger] visited@[k]),
                        forall|k: int| 0 <= k < visited@.len() ==> reachable(link, start, #[trigger] visited@[k]),
                        forall|k: int, b: TaskId| 0 <= k < q && #[trigger] dep_link(ts, visited@[k], b) ==> visited@.contains(b),
                        forall|j2: int| 0 <= j2 < j ==> visited@.contains(#[trigger] t.depends_on@[j2]),
                    decreases t.depends_on@.len() - j,
                {
                    let d = t.depends_on[j];
                    if !contains_task(&visited, d) {
                        proof {
                            assert(t.depends_on@.contains(d)) by {
                                assert(t.depends_on@[j as int] == d);
                            }
                            assert(dep_link(ts, v, d));
                            assert(link(v, d));
                            assert(reachable(link, start, v)) by {
                                assert(reachable(link, start, visited@[q as int]));
                            }
                            lemma_extend_path(link, start, v, d);
                            lemma_all_deps_contains(ts, task_pos(ts, v), d);
                            let m = choose|m: int| 0 <= m < all_deps(ts).len() && all_deps(ts)[m] == d;
                            assert(u[seed@.len() + m] == d);
                        }
                        let ghost old_vis = visited@;
                        visited.push(d);
                        proof {
                            assert forall|x: TaskId| seed@.contains(x) implies visited@.contains(x) by {
                                assert(old_vis.contains(x));
                                let m = choose|m: int| 0 <= m < old_vis.len() && old_vis[m] == x;
                                assert(visited@[m] == x);
                            }
                            assert forall|k: int, b: TaskId| 0 <= k < q && #[trigger] dep_link(ts, visited@[k], b) implies visited@.contains(b) by {
                                assert(visited@[k] == old_vis[k]);
                                assert(old_vis.contains(b));
                                let m = choose|m: int| 0 <= m < old_vis.len() && old_vis[m] == b;
                                assert(visited@[m] == b);
                            }
                            assert forall|j2: int| 0 <= j2 < j + 1 implies visited@.contains(#[trigger] t.depends_on@[j2]) by {
                                if j2 < j {
                                    assert(old_vis.contains(t.depends_on@[j2]));
                                    let m = choose|m: int| 0 <= m < old_vis.len() && old_vis[m] == t.depends_on@[j2];
                                    assert(visited@[m] == t.depends_on@[j2]);
                                } else {
                                    assert(visited@[visited@.len() - 1] == d);
                                }
                            }
                        }
                    }
                    j += 1;
                }
                proof {
                    assert forall|k: int, b: TaskId| 0 <= k < q + 1 && #[trigger] dep_link(ts, visited@[k], b) implies visited@.contains(b) by {
                        if k == q {
                            let j2 = choose|j2: int| 0 <= j2 < t.depends_on@.len() && t.depends_on@[j2] == b;
                            assert(visited@.contains(t.depends_on@[j2]));
                        }
                    }
                }
            },
            None => {
                proof {
                    assert forall|k: int, b: TaskId| 0 <= k < q + 1 && #[trigger] dep_link(ts, visited@[k], b) implies visited@.contains(b) by {
                    }
                }
            },
        }
        proof {
            lemma_distinct_bound(visited@, u);
        }
        q += 1;
    }
    proof {
        assert forall|x: TaskId| visited@.contains(x) <==> reachable(link, start, x) by {
            if visited@.contains(x) {
                let k = choose|k: int| 0 <= k < visited@.len() && visited@[k] == x;
                assert(reachable(link, start, visited@[k]));
            }
            if reachable(link, start, x) {
                let p = choose|p: Seq<TaskId>| #[trigger] link_path(link, start, p) && p.last() == x;
                assert forall|a: TaskId, b: TaskId| visited@.contains(a) && #[trigger] link(a, b) implies visited@.contains(b) by {
                    let k = choose|k: int| 0 <= k < visited@.len() && visited@[k] == a;
                    assert(dep_link(ts, visited@[k], b));
                }
                assert forall|y: TaskId| start(y) implies visited@.contains(y) by {}
                lemma_closed_reach(link, start, visited@, p);
            }
        }
    }
    visited
}

/// The tasks a concept report lists, and the identifier sets it counts.
#[derive(Debug)]
pub struct ReportSelection {
    /// Identifiers of the tasks linked into the subtree, each once.
    pub direct_ids: Vec<TaskId>,
    /// Those identifiers and all their prerequisites, transitively, each once.
    pub all_ids: Vec<TaskId>,
    /// Positions of the listed tasks whose identifier is directly linked, in project order.
    pub direct_rows: Vec<usize>,
    /// Positions of the listed upstream-only tasks, in project order.
    pub upstream_rows: Vec<usize>,
}

fn linked_exec(t: &Task, subtree: &Vec<ConceptId>, Ghost(cs): Ghost<Seq<Concept>>, root: ConceptId) -> (r: bool)
    requires
        forall|x: ConceptId| subtree@.contains(x) <==> in_subtree(cs, root, x),
    ensures
        r == linked_into(cs, root, *t),
{
    let mut j: usize = 0;
    while j < t.concepts.len()
        invariant
            j <= t.concepts@.len(),
            forall|x: ConceptId| subtree@.contains(x) <==> in_subtree(cs, root, x),
            forall|j2: int| 0 <= j2 < j ==> !in_subtree(cs, root, #[trigger] t.concepts@[j2]),
        decreases t.concepts@.len() - j,
    {
        if contains_concept(subtree, t.concepts[j]) {
            assert(in_subtree(cs, root, t.concepts@[j as int]));
            return true;
        }
        j += 1;
    }
    false
}

/// What a report on concept `id` lists: the tasks linked to any concept of
/// its subtree, then the tasks those depend on (transitively) that are not
/// linked themselves, each group in project order.
pub fn report_selection(project: &Project, id: ConceptId) -> (r: ReportSelection)
    ensures
        r.direct_ids@.no_duplicates(),
        forall|x: TaskId| r.direct_ids@.contains(x) <==> direct_id(project.concepts@, project.tasks@, id, x),
        r.all_ids@.no_duplicates(),
        forall|x: TaskId| r.all_ids@.contains(x) <==> in_closure(project.concepts@, project.tasks@, id, x),
        r.direct_rows@ == positions(project.tasks@.len(), |k: int| direct_id(project.concepts@, project.tasks@, id, project.tasks@[k].id)),
        r.upstream_rows@ == positions(project.tasks@.len(), |k: int| in_closure(project.concepts@, project.tasks@, id, project.tasks@[k].id)
            && !direct_id(project.concepts@, project.tasks@, id, project.tasks@[k].id)),
{
    let ghost cs = project.concepts@;
    let ghost ts = project.tasks@;
    let subtree = collect_subtree_ids(project, id);
    let mut direct_ids: Vec<TaskId> = Vec::new();
    let mut i: usize = 0;
    while i < project.tasks.len()
        invariant
            cs == project.concepts@,
            ts == project.tasks@,
            i <= ts.len(),
            forall|x: ConceptId| subtree@.contains(x) <==> in_subtree(cs, id, x),
            direct_ids@.no_duplicates(),
            forall|x: TaskId| direct_ids@.contains(x) <==> exists|k: int| 0 <= k < i && ts[k].id == x && #[trigger] linked_into(cs, id, ts[k]),
        decreases ts.len() - i,
    {
        let t = &project.tasks[i];
        let l = linked_exec(t, &subtree, Ghost(cs), id);
        let ghost old_d = direct_ids@;
        if l && !contains_task(&direct_ids, t.id) {
            direct_ids.push(t.id);
        }
        proof {
            assert forall|x: TaskId| direct_ids@.contains(x) <==> exists|k: int| 0 <= k < i + 1 && ts[k].id == x && #[trigger] linked_into(cs, id, ts[k]) by {
                if direct_ids@.contains(x) {
                    let m = choose|m: int| 0 <= m < direct_ids@.len() && direct_ids@[m] == x;
                    if m < old_d.len() {
                        assert(old_d.contains(x));
                    } else {
                        assert(ts[i as int].id == x && linked_into(cs, id, ts[i as int]));
                    }
                }
                if exists|k: int| 0 <= k < i + 1 && ts[k].id == x && #[trigger] linked_into(cs, id, ts[k]) {
                    let k = choose|k: int| 0 <= k < i + 1 && ts[k].id == x && #[trigger] linked_into(cs, id, ts[k]);
                    if k < i {
                        assert(old_d.contains(x));
                        let m = choose|m: int| 0 <= m < old_d.len() && old_d[m] == x;
                        assert(direct_ids@[m] == x);
                    } else if old_d.contains(x) {
                        let m = choose|m: int| 0 <= m < old_d.len() && old_d[m] == x;
                        assert(direct_ids@[m] == x);
                    } else {
                        assert(direct_ids@[direct_ids@.len() - 1] == x);
                    }
                }
            }
        }
        i += 1;
    }
    proof {
        assert forall|x: TaskId| direct_ids@.contains(x) <==> direct_id(cs, ts, id, x) by {}
        assert(in_seq(direct_ids@) =~= direct_rel(cs, ts, id));
    }
    let all_ids = collect_upstream_tasks(project, &direct_ids);
    let ghost dk = |k: int| direct_id(cs, ts, id, ts[k].id);
    let ghost uk = |k: int| in_closure(cs, ts, id, ts[k].id) && !direct_id(cs, ts, id, ts[k].id);
    let mut direct_rows: Vec<usize> = Vec::new();
    let mut upstream_rows: Vec<usize> = Vec::new();
    let mut i: usize = 0;
    while i < project.tasks.len()
        invariant
            cs == project.concepts@,
            ts == project.tasks@,
            i <= ts.len(),
            forall|x: TaskId| direct_ids@.contains(x) <==> direct_id(cs, ts, id, x),
            forall|x: TaskId| all_ids@.contains(x) <==> in_closure(cs, ts, id, x),
            dk == (|k: int| direct_id(cs, ts, id, ts[k].id)),
            uk == (|k: int| in_closure(cs, ts, id, ts[k].id) && !direct_id(cs, ts, id, ts[k].id)),
            direct_rows@ == Seq::new(i as nat, |k: int| k as usize).filter(|k: usize| dk(k as int)),
            upstream_rows@ == Seq::new(i as nat, |k: int| k as usize).filter(|k: usize| uk(k as int)),
        decreases ts.len() - i,
    {
        assert(Seq::new((i + 1) as nat, |k: int| k as usize).drop_last() =~= Seq::new(i as nat, |k: int| k as usize));
        assert(Seq::new((i + 1) as nat, |k: int| k as usize).last() == i);
        reveal_with_fuel(Seq::filter, 2);
        let tid = project.tasks[i].id;
        let d = contains_task(&direct_ids, tid);
        let a = contains_task(&all_ids, tid);
        assert(dk(i as int) == d);
        assert(uk(i as int) == (a && !d));
        if d {
            direct_rows.push(i);
        } else if a {
            upstream_rows.push(i);
        }
        assert(direct_rows@ =~= Seq::new((i + 1) as nat, |k: int| k as usize).filter(|k: usize| dk(k as int)));
        assert(upstream_rows@ =~= Seq::new((i + 1) as nat, |k: int| k as usize).filter(|k: usize| uk(k as int)));
        i += 1;
    }
    ReportSelection { direct_ids, all_ids, direct_rows, upstream_rows }
}

/// Some task at a position with identifier `a` is linked into the subtree
/// of `root` and shown by the filter `f`.
pub open spec fn shown_seed(cs: Seq<Concept>, ts: Seq<Task>, root: ConceptId, f: StateFilter) -> spec_fn(TaskId) -> bool {
    |a: TaskId| exists|k: int| 0 <= k < ts.len() && ts[k].id == a && direct_id(cs, ts, root, a) && #[trigger] f.shows(ts[k].state)
}

/// Row `k` lists a directly linked task that the filter shows.
pub open spec fn shown_direct_row(cs: Seq<Concept>, ts: Seq<Task>, root: ConceptId, f: StateFilter, k: int) -> bool {
    direct_id(cs, ts, root, ts[k].id) && f.shows(ts[k].state)
}

/// Row `k` lists an upstream-only task that a shown direct task needs,
/// directly or transitively, and that the filter shows.
pub open spec fn shown_upstream_row(cs: Seq<Concept>, ts: Seq<Task>, root: ConceptId, f: StateFilter, k: int) -> bool {
    &&& !direct_id(cs, ts, root, ts[k].id)
    &&& reachable(dep_rel(ts), shown_seed(cs, ts, root, f), ts[k].id)
    &&& f.shows(ts[k].state)
}

/// Row `k` belongs to the unfiltered report but is not shown.
pub open spec fn hidden_row(cs: Seq<Concept>, ts: Seq<Task>, root: ConceptId, f: StateFilter, k: int) -> bool {
    in_closure(cs, ts, root, ts[k].id) && !shown_direct_row(cs, ts, root, f, k) && !shown_upstream_row(cs, ts, root, f, k)
}

/// The rows of a concept report under a state filter, by position in the
/// project's task list.
#[derive(Debug)]
pub struct ReportRows {
    /// Directly linked tasks the filter shows, in project order.
    pub shown_direct: Vec<usize>,
    /// Upstream-only tasks needed by a shown direct task, that the filter shows, in project order.
    pub shown_upstream: Vec<usize>,
    /// Tasks of the unfiltered report that are not shown, in project order.
    pub hidden: Vec<usize>,
}

/// The rows a report on concept `id` shows under `filter`: the shown
/// directly linked tasks, then the shown tasks those depend on. A hidden
/// direct task does not pull its prerequisites in; every task of the
/// unfiltered report that is not shown is listed as hidden.
pub fn report_rows(project: &Project, id: ConceptId, filter: &StateFilter) -> (r: ReportRows)
    ensures
        r.shown_direct@ == positions(project.tasks@.len(), |k: int| shown_direct_row(project.concepts@, project.tasks@, id, *filter, k)),
        r.shown_upstream@ == positions(project.tasks@.len(), |k: int| shown_upstream_row(project.concepts@, project.tasks@, id, *filter, k)),
        r.hidden@ == positions(project.tasks@.len(), |k: int| hidden_row(project.concepts@, project.tasks@, id, *filter, k)),
{
    let ghost cs = project.concepts@;
    let ghost ts = project.tasks@;
    let ghost f = *filter;
    let sel = report_selection(project, id);
    let mut seeds: Vec<TaskId> = Vec::new();
    let mut i: usize = 0;
    while i < project.tasks.len()
        invariant
            cs == project.concepts@,
            ts == project.tasks@,
            f == *filter,
            i <= ts.len(),
            forall|x: TaskId| sel.direct_ids@.contains(x) <==> direct_id(cs, ts, id, x),
            seeds@.no_duplicates(),
            forall|x: TaskId| seeds@.contains(x) <==> exists|k: int| 0 <= k < i && ts[k].id == x && direct_id(cs, ts, id, x) && #[trigger] f.shows(ts[k].state),
        decreases ts.len() - i,
    {
        let t = &project.tasks[i];
        let d = contains_task(&sel.direct_ids, t.id);
        let keep = filter.keeps(t.state);
        let ghost old_s = seeds@;
        if d && keep && !contains_task(&seeds, t.id) {
            seeds.push(t.id);
        }
        proof {
            assert forall|x: TaskId| seeds@.contains(x) <==> exists|k: int| 0 <= k < i + 1 && ts[k].id == x && direct_id(cs, ts, id, x) && #[trigger] f.shows(ts[k].state) by {
                if seeds@.contains(x) {
                    let m = choose|m: int| 0 <= m < seeds@.len() && seeds@[m] == x;
                    if m < old_s.len() {
                        assert(old_s[m] == x);
                        assert(old_s.contains(x));
                    } else {
                        assert(ts[i as int].id == x && f.shows(ts[i as int].state));
                    }
                }
                if exists|k: int| 0 <= k < i + 1 && ts[k].id == x && direct_id(cs, ts, id, x) && #[trigger] f.shows(ts[k].state) {
                    let k = choose|k: int| 0 <= k < i + 1 && ts[k].id == x && direct_id(cs, ts, id, x) && #[trigger] f.shows(ts[k].state);
                    if k < i {
                        assert(old_s.contains(x));
                        let m = choose|m: int| 0 <= m < old_s.len() && old_s[m] == x;
                        assert(seeds@[m] == x);
                    } else if old_s.contains(x) {
                        let m = choose|m: int| 0 <= m < old_s.len() && old_s[m] == x;
                        assert(seeds@[m] == x);
                    } else {
                        assert(seeds@.last() == x);
                    }
                }
            }
        }
        i += 1;
    }
    let reach = collect_upstream_tasks(project, &seeds);
    proof {
        assert(in_seq(seeds@) =~= shown_seed(cs, ts, id, f));
    }
    let ghost dk = |k: int| shown_direct_row(cs, ts, id, f, k);
    let ghost uk = |k: int| shown_upstream_row(cs, ts, id, f, k);
    let ghost hk = |k: int| hidden_row(cs, ts, id, f, k);
    let mut shown_direct: Vec<usize> = Vec::new();
    let mut shown_upstream: Vec<usize> = Vec::new();
    let mut hidden: Vec<usize> = Vec::new();
    let mut i: usize = 0;
    while i < project.tasks.len()
        invariant
            cs == project.concepts@,
            ts == project.tasks@,
            f == *filter,
            i <= ts.len(),
            forall|x: TaskId| sel.direct_ids@.contains(x) <==> direct_id(cs, ts, id, x),
            forall|x: TaskId| sel.all_ids@.contains(x) <==> in_closure(cs, ts, id, x),
            forall|x: TaskId| reach@.contains(x) <==> reachable(dep_rel(ts), shown_seed(cs, ts, id, f), x),
            dk == (|k: int| shown_direct_row(cs, ts, id, f, k)),
            uk == (|k: int| shown_upstream_row(cs, ts, id, f, k)),
            hk == (|k: int| hidden_row(cs, ts, id, f, k)),
            shown_direct@ == Seq::new(i as nat, |k: int| k as usize).filter(|k: usize| dk(k as int)),
            shown_upstream@ == Seq::new(i as nat, |k: int| k as usize).filter(|k: usize| uk(k as int)),
            hidden@ == Seq::new(i as nat, |k: int| k as usize).filter(|k: usize| hk(k as int)),
        decreases ts.len() - i,
    {
        assert(Seq::new((i + 1) as nat, |k: int| k as usize).drop_last() =~= Seq::new(i as nat, |k: int| k as usize));
        assert(Seq::new((i + 1) as nat, |k: int| k as usize).last() == i);
        reveal_with_fuel(Seq::filter, 2);
        let t = &project.tasks[i];
        let d = contains_task(&sel.direct_ids, t.id);
        let a = contains_task(&sel.all_ids, t.id);
        let u = contains_task(&reach, t.id);
        let keep = filter.keeps(t.state);
        assert(dk(i as int) == (d && keep));
        assert(uk(i as int) == (!d && u && keep));
        assert(hk(i as int) == (a && !(d && keep) && !(!d && u && keep)));
        if d && keep {
            shown_direct.push(i);
        } else if !d && u && keep {
            shown_upstream.push(i);
        } else if a {
            hidden.push(i);
        }
        assert(shown_direct@ =~= Seq::new((i + 1) as nat, |k: int| k as usize).filter(|k: usize| dk(k as int)));
        assert(shown_upstream@ =~= Seq::new((i + 1) as nat, |k: int| k as usize).filter(|k: usize| uk(k as int)));
        assert(hidden@ =~= Seq::new((i + 1) as nat, |k: int| k as usize).filter(|k: usize| hk(k as int)));
        i += 1;
    }
    ReportRows { shown_direct, shown_upstream, hidden }
}

/// Columns consumed by each level of tree-branch indentation.
pub const INDENT_PER_DEPTH: usize = 4;

/// What `tree_label` gives: `name {id}`, and, when the concept has a
/// description and `mode` shows descriptions, the bracketed description
/// below it as `desc_text` renders it (word-wrapped, or one elided line) for
/// the columns left after the branch indentation (at least `MIN_WRAP_WIDTH`).
pub open spec fn tree_label_spec(c: Concept, mode: DescMode, width: nat, depth: nat) -> Seq<char> {
    let head = c.name@ + " {"@ + id_text('c', c.id.0) + "}"@;
    let used = depth * 4;
    let rest: nat = if width >= used { (width - used) as nat } else { 0 };
    let avail: nat = if rest >= 8 { rest } else { 8 };
    match c.description {
        Some(d) => match desc_text_spec(d@, mode, avail) {
            Some(t) => head + seq!['\n'] + t,
            None => head,
        },
        None => head,
    }
}

/// The label of a concept in the printed concept tree at `depth`.
pub fn tree_label(c: &Concept, mode: DescMode, width: usize, depth: usize) -> (r: String)
    requires
        depth <= usize::MAX / 4,
    ensures
        r@ == tree_label_spec(*c, mode, width as nat, depth as nat),
{
    let mut v: Vec<char> = Vec::new();
    push_str(&mut v, c.name.as_str());
    push_str(&mut v, " {");
    push_concept_id(&mut v, c.id);
    push_str(&mut v, "}");
    match &c.description {
        Some(d) => {
            let used = depth * INDENT_PER_DEPTH;
            let rest = if width >= used { width - used } else { 0 };
            let avail = if rest >= MIN_WRAP_WIDTH { rest } else { MIN_WRAP_WIDTH };
            match desc_text(d.as_str(), mode, avail) {
                Some(t) => {
                    v.push('\n');
                    let w = chars_of(t.as_str());
                    push_all(&mut v, w.as_slice());
                },
                None => {},
            }
        },
        None => {},
    }
    string_from(v.as_slice())
}

/// One node of the printed concept tree: its label, whether the label spans
/// several lines, and the nodes of the concept's children, in order.
pub struct ConceptTree {
    pub label: String,
    pub multiline: bool,
    pub children: Vec<ConceptTree>,
}

/// The depth a label is laid out at: deeper levels are laid out as the
/// deepest one that the width arithmetic allows.
pub open spec fn clamp_depth(depth: nat) -> nat {
    if depth <= usize::MAX / 4 {
        depth
    } else {
        (usize::MAX / 4) as nat
    }
}

/// `t` is the tree of concept `c` at `depth`: its label, and below it the
/// trees of `c`'s children at the next depth, down to `fuel` levels (a
/// well-formed concept tree has fewer levels than concepts).
pub open spec fn concept_tree_spec(
    t: ConceptTree,
    cs: Seq<Concept>,
    c: Concept,
    mode: DescMode,
    width: nat,
    depth: nat,
    fuel: nat,
) -> bool
    decreases fuel,
{
    let kids = children_spec(cs, c.id);
    &&& t.label@ == tree_label_spec(c, mode, width, clamp_depth(depth))
    &&& t.multiline == (mode != DescMode::Omit && c.description is Some)
    &&& if fuel == 0 {
        t.children@.len() == 0
    } else {
        &&& t.children@.len() == kids.len()
        &&& forall|i: int|
            0 <= i < kids.len() ==> concept_tree_spec(
                #[trigger] t.children@[i],
                cs,
                kids[i],
                mode,
                width,
                clamp_depth(depth) + 1,
                (fuel - 1) as nat,
            )
    }
}

/// The printed tree of concept `c`.
fn build_concept_tree(project: &Project, c: &Concept, mode: DescMode, width: usize, depth: usize, fuel: usize) -> (t:
    ConceptTree)
    ensures
        concept_tree_spec(t, project.concepts@, *c, mode, width as nat, depth as nat, fuel as nat),
    decreases fuel,
{
    let d = if depth <= usize::MAX / INDENT_PER_DEPTH {
        depth
    } else {
        usize::MAX / INDENT_PER_DEPTH
    };
    let label = tree_label(c, mode, width, d);
    let multiline = match mode {
        DescMode::Omit => false,
        _ => c.description.is_some(),
    };
    let mut children: Vec<ConceptTree> = Vec::new();
    if fuel > 0 {
        let kids = project.children_of(c.id);
        let ghost ks = children_spec(project.concepts@, c.id);
        assert(kids@.len() == ks.len()) by {
            assert(kids@.map_values(|k: &Concept| *k).len() == kids@.len());
        }
        let mut i: usize = 0;
        while i < kids.len()
            invariant
                i <= kids@.len(),
                kids@.len() == ks.len(),
                kids@.map_values(|k: &Concept| *k) == ks,
                ks == children_spec(project.concepts@, c.id),
                d == clamp_depth(depth as nat),
                d <= usize::MAX / 4,
                fuel > 0,
                children@.len() == i,
                forall|j: int|
                    0 <= j < i ==> concept_tree_spec(
                        #[trigger] children@[j],
                        project.concepts@,
                        ks[j],
                        mode,
                        width as nat,
                        (d + 1) as nat,
                        (fuel - 1) as nat,
                    ),
            decreases kids@.len() - i,
        {
            assert(*kids@[i as int] == ks[i as int]) by {
                assert(kids@.map_values(|k: &Concept| *k)[i as int] == *kids@[i as int]);
            }
            let sub = build_concept_tree(project, kids[i], mode, width, d + 1, fuel - 1);
            children.push(sub);
            i += 1;
        }
    }
    ConceptTree { label, multiline, children }
}

/// The printed concept trees: the tree under concept `root` when one is
/// given (`None` when there is no such concept), else one tree per root
/// concept, in order. Each reaches as many levels as there are concepts.
pub fn concept_trees(project: &Project, root: Option<ConceptId>, mode: DescMode, width: usize) -> (r: Option<
    Vec<ConceptTree>,
>)
    ensures
        match root {
            Some(id) => match lookup_concept(project.concepts@, id) {
                Some(c) => r matches Some(v) && v@.len() == 1 && concept_tree_spec(
                    v@[0],
                    project.concepts@,
                    c,
                    mode,
                    width as nat,
                    0,
                    project.concepts@.len(),
                ),
                None => r is None,
            },
            None => r matches Some(v) && v@.len() == roots_spec(project.concepts@).len() && forall|i: int|
                0 <= i < v@.len() ==> concept_tree_spec(
                    #[trigger] v@[i],
                    project.concepts@,
                    roots_spec(project.concepts@)[i],
                    mode,
                    width as nat,
                    0,
                    project.concepts@.len(),
                ),
        },
{
    let fuel = project.concepts.len();
    match root {
        Some(id) => match project.get_concept(id) {
            Some(c) => {
                let mut v: Vec<ConceptTree> = Vec::new();
                v.push(build_concept_tree(project, c, mode, width, 0, fuel));
                Some(v)
            },
            None => None,
        },
        None => {
            let rs = project.roots();
            let ghost ks = roots_spec(project.concepts@);
            assert(rs@.len() == ks.len()) by {
                assert(rs@.map_values(|k: &Concept| *k).len() == rs@.len());
            }
            let mut v: Vec<ConceptTree> = Vec::new();
            let mut i: usize = 0;
            while i < rs.len()
                invariant
                    i <= rs@.len(),
                    rs@.len() == ks.len(),
                    rs@.map_values(|k: &Concept| *k) == ks,
                    ks == roots_spec(project.concepts@),
                    fuel == project.concepts@.len(),
                    v@.len() == i,
                    forall|j: int|
                        0 <= j < i ==> concept_tree_spec(
                            #[trigger] v@[j],
                            project.concepts@,
                            ks[j],
                            mode,
                            width as nat,
                            0,
                            fuel as nat,
                        ),
                decreases rs@.len() - i,
            {
                assert(*rs@[i as int] == ks[i as int]) by {
                    assert(rs@.map_values(|k: &Concept| *k)[i as int] == *rs@[i as int]);
                }
                v.push(build_concept_tree(project, rs[i], mode, width, 0, fuel));
                i += 1;
            }
            Some(v)
        },
    }
}

} // verus!
