//! Task dependency DAG: graph construction, cycle detection, topological
//! order, and project validation.
use vstd::prelude::*;

use crate::model::id::{id_text, push_concept_id, push_task_id, ConceptId, TaskId};
use crate::model::project::{cids, has_concept, has_task, lemma_concept_pos, lemma_task_pos, task_pos, tids, Project};
use crate::graph::tree::{ancestor_at, first_repeat, repeats_at, tree_error, tree_first_error, tree_node_ok, tree_valid, validate_tree};
use crate::model::task::Task;
use crate::seqs::{last_pos, lemma_last_pos};
use crate::text::{decimal, push_all, push_str, string_from, u64_decimal};

verus! {

/// `edges` holds the edge `a -> b`.
pub open spec fn has_edge(edges: Seq<(usize, usize)>, a: int, b: int) -> bool {
    exists|i: int| 0 <= i < edges.len() && edges[i].0 == a && edges[i].1 == b
}

/// `p` is a walk of at least one edge through `edges`.
pub open spec fn is_walk(edges: Seq<(usize, usize)>, p: Seq<int>) -> bool {
    p.len() >= 2 && forall|i: int| 0 <= i < p.len() - 1 ==> has_edge(edges, p[i], #[trigger] p[i + 1])
}

/// The directed graph given by `edges` contains a cycle (self-loops included).
pub open spec fn graph_has_cycle(edges: Seq<(usize, usize)>) -> bool {
    exists|p: Seq<int>| is_walk(edges, p) && p[0] == p.last()
}

/// Every edge of `edges` joins nodes below `n`.
pub open spec fn edges_within(n: nat, edges: Seq<(usize, usize)>) -> bool {
    forall|i: int| 0 <= i < edges.len() ==> (#[trigger] edges[i]).0 < n && edges[i].1 < n
}

/// `order` lists each node below `n` exactly once, every edge's source before its target.
pub open spec fn is_topological_order(n: nat, edges: Seq<(usize, usize)>, order: Seq<usize>) -> bool {
    &&& order.len() == n
    &&& order.no_duplicates()
    &&& forall|i: int| 0 <= i < order.len() ==> (#[trigger] order[i]) < n
    &&& forall|i: int, j: int|
        0 <= i < order.len() && 0 <= j < order.len() && has_edge(edges, #[trigger] order[j] as int, #[trigger] order[i] as int)
            ==> j < i
}

/// What `petgraph::algo::toposort` returns for the graph with nodes `0..n`
/// and the given edges: the node order, or `None` for a cyclic graph.
pub uninterp spec fn petgraph_toposort(n: nat, edges: Seq<(usize, usize)>) -> Option<Seq<usize>>;

/// Builds the `petgraph` graph with nodes `0..n` and the given edges, and runs
/// `petgraph::algo::is_cyclic_directed` on it. The crate documents the result
/// as whether the directed graph contains a cycle.
#[verifier::external_body]
fn petgraph_is_cyclic(n: usize, edges: &Vec<(usize, usize)>) -> (r: bool)
    requires
        edges_within(n as nat, edges@),
    ensures
        r == graph_has_cycle(edges@),
{
    let mut g = petgraph::graph::Graph::<(), (), petgraph::Directed, usize>::with_capacity(n, edges.len());
    for _ in 0..n {
        g.add_node(());
    }
    for &(a, b) in edges.iter() {
        g.add_edge(petgraph::graph::NodeIndex::new(a), petgraph::graph::NodeIndex::new(b), ());
    }
    petgraph::algo::is_cyclic_directed(&g)
}

/// Builds the `petgraph` graph with nodes `0..n` and the given edges, and runs
/// `petgraph::algo::toposort` on it, giving node indices. The crate documents
/// `Ok` as a list of the nodes in which each node comes before its successors,
/// returned exactly when the graph is acyclic; the particular order it picks
/// is named, not stated.
#[verifier::external_body]
fn petgraph_topo(n: usize, edges: &Vec<(usize, usize)>) -> (r: Option<Vec<usize>>)
    requires
        edges_within(n as nat, edges@),
    ensures
        match r {
            Some(v) => petgraph_toposort(n as nat, edges@) == Some(v@),
            None => petgraph_toposort(n as nat, edges@) is None,
        },
        r is None <==> graph_has_cycle(edges@),
        r matches Some(v) ==> is_topological_order(n as nat, edges@, v@),
{
    let mut g = petgraph::graph::Graph::<(), (), petgraph::Directed, usize>::with_capacity(n, edges.len());
    for _ in 0..n {
        g.add_node(());
    }
    for &(a, b) in edges.iter() {
        g.add_edge(petgraph::graph::NodeIndex::new(a), petgraph::graph::NodeIndex::new(b), ());
    }
    petgraph::algo::toposort(&g, None).ok().map(|v| v.into_iter().map(|x| x.index()).collect())
}

/// The dependency structure of a task list: each task's identifier and dependencies.
pub open spec fn deps_view(ts: Seq<Task>) -> Seq<(TaskId, Seq<TaskId>)> {
    ts.map_values(|t: Task| (t.id, t.depends_on@))
}

/// The identifiers of a dependency structure, in order.
pub open spec fn view_ids(v: Seq<(TaskId, Seq<TaskId>)>) -> Seq<TaskId> {
    v.map_values(|e: (TaskId, Seq<TaskId>)| e.0)
}

/// The graph node standing for identifier `id`: the last task holding it
/// (later tasks with a repeated identifier replace earlier ones), or `-1`.
pub open spec fn node_of(v: Seq<(TaskId, Seq<TaskId>)>, id: TaskId) -> int {
    last_pos(view_ids(v), id)
}

/// Edges `dependency -> target` for the dependencies `deps` of one task,
/// skipping dependencies that name no task.
pub open spec fn dep_edges(v: Seq<(TaskId, Seq<TaskId>)>, deps: Seq<TaskId>, target: int) -> Seq<(usize, usize)>
    decreases deps.len(),
{
    if deps.len() == 0 {
        Seq::empty()
    } else {
        let rest = dep_edges(v, deps.drop_last(), target);
        let k = node_of(v, deps.last());
        if k >= 0 {
            rest.push((k as usize, target as usize))
        } else {
            rest
        }
    }
}

/// The edges contributed by the first `i` tasks, in task then dependency order.
pub open spec fn edges_upto(v: Seq<(TaskId, Seq<TaskId>)>, i: int) -> Seq<(usize, usize)>
    decreases i,
{
    if i <= 0 {
        Seq::empty()
    } else {
        edges_upto(v, i - 1) + dep_edges(v, v[i - 1].1, node_of(v, v[i - 1].0))
    }
}

/// The dependency graph: one node per task, an edge from each dependency to its dependent.
pub open spec fn task_edges(v: Seq<(TaskId, Seq<TaskId>)>) -> Seq<(usize, usize)> {
    edges_upto(v, v.len() as int)
}

/// `dep_edges` stays inside the node range.
proof fn lemma_dep_edges_within(v: Seq<(TaskId, Seq<TaskId>)>, deps: Seq<TaskId>, target: int)
    requires
        0 <= target < v.len(),
    ensures
        edges_within(v.len(), dep_edges(v, deps, target)),
    decreases deps.len(),
{
    if deps.len() > 0 {
        lemma_dep_edges_within(v, deps.drop_last(), target);
        lemma_last_pos(view_ids(v), deps.last());
    }
}

/// `edges_upto` stays inside the node range.
proof fn lemma_edges_within(v: Seq<(TaskId, Seq<TaskId>)>, i: int)
    requires
        0 <= i <= v.len(),
    ensures
        edges_within(v.len(), edges_upto(v, i)),
    decreases i,
{
    if i > 0 {
        lemma_edges_within(v, i - 1);
        lemma_last_pos(view_ids(v), v[i - 1].0);
        assert(view_ids(v)[i - 1] == v[i - 1].0);
        lemma_dep_edges_within(v, v[i - 1].1, node_of(v, v[i - 1].0));
    }
}

/// An edge of one task's dependency edges runs from the node of one of the
/// dependencies to the target.
proof fn lemma_dep_edge_member(v: Seq<(TaskId, Seq<TaskId>)>, deps: Seq<TaskId>, target: int, a: int, b: int)
    requires
        0 <= target < v.len(),
        v.len() <= usize::MAX,
        has_edge(dep_edges(v, deps, target), a, b),
    ensures
        b == target,
        exists|d: TaskId| #[trigger] deps.contains(d) && node_of(v, d) == a,
    decreases deps.len(),
{
    let e = dep_edges(v, deps, target);
    let rest = dep_edges(v, deps.drop_last(), target);
    let k = node_of(v, deps.last());
    lemma_last_pos(view_ids(v), deps.last());
    let w = choose|w: int| 0 <= w < e.len() && e[w].0 == a && e[w].1 == b;
    if k >= 0 && w == rest.len() {
        assert(deps.contains(deps.last()));
    } else {
        assert(rest[w] == e[w]);
        lemma_dep_edge_member(v, deps.drop_last(), target, a, b);
        let d = choose|d: TaskId| #[trigger] deps.drop_last().contains(d) && node_of(v, d) == a;
        let j = choose|j: int| 0 <= j < deps.drop_last().len() && deps.drop_last()[j] == d;
        assert(deps[j] == d);
        assert(deps.contains(d));
    }
}

/// A dependency that names a task gives an edge from its node to the target.
proof fn lemma_dep_edge_present(v: Seq<(TaskId, Seq<TaskId>)>, deps: Seq<TaskId>, target: int, d: TaskId)
    requires
        0 <= target < v.len(),
        v.len() <= usize::MAX,
        deps.contains(d),
        node_of(v, d) >= 0,
    ensures
        has_edge(dep_edges(v, deps, target), node_of(v, d), target),
    decreases deps.len(),
{
    let e = dep_edges(v, deps, target);
    let rest = dep_edges(v, deps.drop_last(), target);
    lemma_last_pos(view_ids(v), d);
    lemma_last_pos(view_ids(v), deps.last());
    if deps.last() == d {
        assert(e[rest.len() as int] == (node_of(v, d) as usize, target as usize));
    } else {
        let j = choose|j: int| 0 <= j < deps.len() && deps[j] == d;
        assert(deps.drop_last()[j] == d);
        lemma_dep_edge_present(v, deps.drop_last(), target, d);
        let w = choose|w: int| 0 <= w < rest.len() && rest[w].0 == node_of(v, d) && rest[w].1 == target;
        assert(e[w] == rest[w]);
    }
}

/// An edge of the dependency graph runs from the node of a dependency of
/// some task to the node of that task's identifier.
proof fn lemma_edge_member(v: Seq<(TaskId, Seq<TaskId>)>, i: int, a: int, b: int)
    requires
        0 <= i <= v.len(),
        v.len() <= usize::MAX,
        has_edge(edges_upto(v, i), a, b),
    ensures
        exists|j: int, d: TaskId| 0 <= j < i && #[trigger] v[j].1.contains(d) && node_of(v, d) == a && node_of(v, v[j].0) == b,
    decreases i,
{
    let e = edges_upto(v, i);
    let prev = edges_upto(v, i - 1);
    let t = node_of(v, v[i - 1].0);
    lemma_last_pos(view_ids(v), v[i - 1].0);
    assert(view_ids(v)[i - 1] == v[i - 1].0);
    let last = dep_edges(v, v[i - 1].1, t);
    let w = choose|w: int| 0 <= w < e.len() && e[w].0 == a && e[w].1 == b;
    if w < prev.len() {
        assert(e[w] == prev[w]);
        lemma_edge_member(v, i - 1, a, b);
        let (j, d) = choose|j: int, d: TaskId| 0 <= j < i - 1 && #[trigger] v[j].1.contains(d) && node_of(v, d) == a && node_of(v, v[j].0) == b;
        assert(0 <= j < i && v[j].1.contains(d));
    } else {
        assert(last[w - prev.len()] == e[w]);
        lemma_dep_edge_member(v, v[i - 1].1, t, a, b);
        let d = choose|d: TaskId| #[trigger] v[i - 1].1.contains(d) && node_of(v, d) == a;
        assert(v[i - 1].1.contains(d));
    }
}

/// A dependency of task `j` that names a task gives an edge of the graph.
proof fn lemma_edge_present(v: Seq<(TaskId, Seq<TaskId>)>, i: int, j: int, d: TaskId)
    requires
        0 <= j < i <= v.len(),
        v.len() <= usize::MAX,
        v[j].1.contains(d),
        node_of(v, d) >= 0,
    ensures
        has_edge(edges_upto(v, i), node_of(v, d), node_of(v, v[j].0)),
    decreases i,
{
    let e = edges_upto(v, i);
    let prev = edges_upto(v, i - 1);
    if j < i - 1 {
        lemma_edge_present(v, i - 1, j, d);
        let w = choose|w: int| 0 <= w < prev.len() && prev[w].0 == node_of(v, d) && prev[w].1 == node_of(v, v[j].0);
        assert(e[w] == prev[w]);
    } else {
        let t = node_of(v, v[i - 1].0);
        lemma_last_pos(view_ids(v), v[i - 1].0);
        assert(view_ids(v)[i - 1] == v[i - 1].0);
        let last = dep_edges(v, v[i - 1].1, t);
        lemma_dep_edge_present(v, v[i - 1].1, t, d);
        let w = choose|w: int| 0 <= w < last.len() && last[w].0 == node_of(v, d) && last[w].1 == t;
        assert(e[prev.len() + w] == last[w]);
    }
}

/// A graph whose every edge is an edge of an acyclic graph has no cycle.
proof fn lemma_sub_acyclic(e1: Seq<(usize, usize)>, e2: Seq<(usize, usize)>)
    requires
        forall|a: int, b: int| #[trigger] has_edge(e1, a, b) ==> has_edge(e2, a, b),
        !graph_has_cycle(e2),
    ensures
        !graph_has_cycle(e1),
{
    if graph_has_cycle(e1) {
        let p = choose|p: Seq<int>| is_walk(e1, p) && p[0] == p.last();
        assert forall|i: int| 0 <= i < p.len() - 1 implies has_edge(e2, p[i], #[trigger] p[i + 1]) by {
            assert(has_edge(e1, p[i], p[i + 1]));
        }
        assert(is_walk(e2, p));
    }
}

/// Dropping dependencies keeps the dependency graph acyclic: when every
/// task keeps its identifier and lists no dependency it did not list before,
/// an acyclic graph stays acyclic.
pub proof fn lemma_fewer_deps_keep_dag(old: Seq<(TaskId, Seq<TaskId>)>, new: Seq<(TaskId, Seq<TaskId>)>)
    requires
        new.len() == old.len(),
        old.len() <= usize::MAX,
        forall|j: int| 0 <= j < old.len() ==> (#[trigger] new[j]).0 == old[j].0,
        forall|j: int, d: TaskId| 0 <= j < old.len() && (#[trigger] new[j].1.contains(d)) ==> old[j].1.contains(d),
        !graph_has_cycle(task_edges(old)),
    ensures
        !graph_has_cycle(task_edges(new)),
{
    assert(view_ids(new) =~= view_ids(old));
    assert forall|a: int, b: int| #[trigger] has_edge(task_edges(new), a, b) implies has_edge(task_edges(old), a, b) by {
        lemma_edge_member(new, new.len() as int, a, b);
        let (j, d) = choose|j: int, d: TaskId| 0 <= j < new.len() && #[trigger] new[j].1.contains(d) && node_of(new, d) == a && node_of(new, new[j].0) == b;
        assert(old[j].1.contains(d));
        lemma_last_pos(view_ids(new), d);
        lemma_edge_present(old, old.len() as int, j, d);
    }
    lemma_sub_acyclic(task_edges(new), task_edges(old));
}

/// Every task of `new` is a task of `old` (same identifier) listing no
/// dependency that task did not list.
pub open spec fn entries_within(old: Seq<(TaskId, Seq<TaskId>)>, new: Seq<(TaskId, Seq<TaskId>)>) -> bool {
    forall|j: int| 0 <= j < new.len() ==> exists|k: int| 0 <= k < old.len() && old[k].0 == (#[trigger] new[j]).0
        && forall|d: TaskId| new[j].1.contains(d) ==> old[k].1.contains(d)
}

/// Dropping tasks or dependencies keeps the dependency graph acyclic: when
/// every task of `new` is a task of `old` with no dependency added, an
/// acyclic `old` graph gives an acyclic `new` graph.
pub proof fn lemma_sub_entries_keep_dag(old: Seq<(TaskId, Seq<TaskId>)>, new: Seq<(TaskId, Seq<TaskId>)>)
    requires
        old.len() <= usize::MAX,
        new.len() <= usize::MAX,
        entries_within(old, new),
        !graph_has_cycle(task_edges(old)),
    ensures
        !graph_has_cycle(task_edges(new)),
{
    if graph_has_cycle(task_edges(new)) {
        let ni = view_ids(new);
        let oi = view_ids(old);
        let p = choose|p: Seq<int>| is_walk(task_edges(new), p) && p[0] == p.last();
        let q = p.map_values(|k: int| node_of(old, ni[k]));
        assert forall|i: int| 0 <= i < q.len() - 1 implies has_edge(task_edges(old), q[i], #[trigger] q[i + 1]) by {
            assert(has_edge(task_edges(new), p[i], p[i + 1]));
            lemma_edge_member(new, new.len() as int, p[i], p[i + 1]);
            let (j, d) = choose|j: int, d: TaskId| 0 <= j < new.len() && #[trigger] new[j].1.contains(d)
                && node_of(new, d) == p[i] && node_of(new, new[j].0) == p[i + 1];
            lemma_last_pos(ni, d);
            lemma_last_pos(ni, new[j].0);
            assert(ni[p[i]] == d);
            assert(ni[p[i + 1]] == new[j].0);
            let w = p[i];
            assert(new[w].0 == d);
            let kw = choose|k: int| 0 <= k < old.len() && old[k].0 == (#[trigger] new[w]).0
                && forall|d2: TaskId| new[w].1.contains(d2) ==> old[k].1.contains(d2);
            assert(oi[kw] == d);
            lemma_last_pos(oi, d);
            let k = choose|k: int| 0 <= k < old.len() && old[k].0 == (#[trigger] new[j]).0
                && forall|d2: TaskId| new[j].1.contains(d2) ==> old[k].1.contains(d2);
            assert(old[k].1.contains(d));
            lemma_edge_present(old, old.len() as int, k, d);
        }
        assert(q[0] == q.last());
        assert(is_walk(task_edges(old), q));
    }
}

/// Adding a task without dependencies under a fresh identifier keeps the
/// dependency graph acyclic: nothing leads into the new node.
pub proof fn lemma_add_node_keeps_dag(old: Seq<(TaskId, Seq<TaskId>)>, id: TaskId)
    requires
        old.len() + 1 <= usize::MAX,
        !view_ids(old).contains(id),
        !graph_has_cycle(task_edges(old)),
    ensures
        !graph_has_cycle(task_edges(old.push((id, Seq::empty())))),
{
    let new = old.push((id, Seq::empty()));
    let n = old.len() as int;
    let ni = view_ids(new);
    assert(ni =~= view_ids(old).push(id));
    assert forall|x: TaskId| x != id implies node_of(new, x) == node_of(old, x) by {
        assert(ni.drop_last() =~= view_ids(old));
    }
    lemma_last_pos(ni, id);
    assert(ni[n] == id);
    // Edges avoiding the new node are old edges; no edge leads into it.
    assert forall|a: int, b: int| #[trigger] has_edge(task_edges(new), a, b) implies b != n && (a != n ==> has_edge(task_edges(old), a, b)) by {
        lemma_edge_member(new, new.len() as int, a, b);
        let (j, d) = choose|j: int, d: TaskId| 0 <= j < new.len() && #[trigger] new[j].1.contains(d) && node_of(new, d) == a && node_of(new, new[j].0) == b;
        assert(j != n);
        assert(new[j] == old[j]);
        assert(view_ids(old)[j] == old[j].0);
        assert(old[j].0 != id);
        lemma_last_pos(view_ids(old), old[j].0);
        if a != n {
            if d == id {
                assert(node_of(new, d) == n);
            }
            lemma_last_pos(view_ids(old), d);
            lemma_edge_present(old, old.len() as int, j, d);
        }
    }
    if graph_has_cycle(task_edges(new)) {
        let p = choose|p: Seq<int>| is_walk(task_edges(new), p) && p[0] == p.last();
        if exists|i: int| 0 <= i < p.len() && p[i] == n {
            let i = choose|i: int| 0 <= i < p.len() && p[i] == n;
            if i > 0 {
                assert(has_edge(task_edges(new), p[i - 1], p[(i - 1) + 1]));
            } else {
                let l = p.len() - 2;
                assert(has_edge(task_edges(new), p[l], p[l + 1]));
            }
        } else {
            assert forall|i: int| 0 <= i < p.len() - 1 implies has_edge(task_edges(old), p[i], #[trigger] p[i + 1]) by {
                assert(has_edge(task_edges(new), p[i], p[i + 1]));
            }
            assert(is_walk(task_edges(old), p));
        }
    }
}

/// The graph node of identifier `id`: index of the last task holding it.
fn node_index(tasks: &[Task], id: TaskId) -> (r: Option<usize>)
    ensures
        match r {
            Some(k) => k as int == node_of(deps_view(tasks@), id),
            None => node_of(deps_view(tasks@), id) < 0,
        },
{
    let ghost ids = view_ids(deps_view(tasks@));
    let mut i: usize = tasks.len();
    assert(ids.take(i as int) =~= ids);
    while i > 0
        invariant
            i <= tasks@.len(),
            ids == view_ids(deps_view(tasks@)),
            last_pos(ids, id) == last_pos(ids.take(i as int), id),
        decreases i,
    {
        let ghost t = ids.take(i as int);
        assert(t.drop_last() =~= ids.take(i - 1));
        assert(t.last() == tasks@[i - 1].id);
        if tasks[i - 1].id == id {
            return Some(i - 1);
        }
        i -= 1;
    }
    assert(ids.take(0) =~= Seq::<TaskId>::empty());
    None
}

/// Builds the dependency graph's edges. When `extra` is `Some((i, d))`, the
/// task at index `i` is treated as also depending on `d`, after its own dependencies.
fn build_edges(tasks: &[Task], extra: Option<(usize, TaskId)>) -> (r: Vec<(usize, usize)>)
    requires
        extra matches Some(e) ==> e.0 < tasks@.len(),
    ensures
        r@ == task_edges(match extra {
            Some(e) => deps_view(tasks@).update(
                e.0 as int,
                (tasks@[e.0 as int].id, tasks@[e.0 as int].depends_on@.push(e.1)),
            ),
            None => deps_view(tasks@),
        }),
        edges_within(tasks@.len() as nat, r@),
{
    let ghost v = match extra {
        Some(e) => deps_view(tasks@).update(
            e.0 as int,
            (tasks@[e.0 as int].id, tasks@[e.0 as int].depends_on@.push(e.1)),
        ),
        None => deps_view(tasks@),
    };
    assert(view_ids(v) =~= view_ids(deps_view(tasks@)));
    let mut edges: Vec<(usize, usize)> = Vec::new();
    let mut i: usize = 0;
    while i < tasks.len()
        invariant
            i <= tasks@.len(),
            v.len() == tasks@.len(),
            view_ids(v) == view_ids(deps_view(tasks@)),
            forall|k: int| 0 <= k < tasks@.len() ==> (#[trigger] v[k]).0 == tasks@[k].id,
            forall|k: int| 0 <= k < tasks@.len() && !(extra matches Some(e) && e.0 == k) ==> (#[trigger] v[k]).1 == tasks@[k].depends_on@,
            extra matches Some(e) ==> e.0 < tasks@.len() && v[e.0 as int].1 == tasks@[e.0 as int].depends_on@.push(e.1),
            edges@ == edges_upto(v, i as int),
        decreases tasks@.len() - i,
    {
        let target = match node_index(tasks, tasks[i].id) {
            Some(k) => k,
            None => {
                proof {
                    lemma_last_pos(view_ids(v), tasks@[i as int].id);
                    assert(view_ids(v)[i as int] == tasks@[i as int].id);
                }
                0
            },
        };
        proof {
            lemma_last_pos(view_ids(v), tasks@[i as int].id);
            assert(view_ids(v)[i as int] == tasks@[i as int].id);
        }
        assert(target as int == node_of(v, v[i as int].0));
        let deps = &tasks[i].depends_on;
        let ghost base = edges@;
        let mut j: usize = 0;
        while j < deps.len()
            invariant
                j <= deps@.len(),
                deps@ == tasks@[i as int].depends_on@,
                view_ids(v) == view_ids(deps_view(tasks@)),
                edges@ == base + dep_edges(v, deps@.take(j as int), target as int),
            decreases deps@.len() - j,
        {
            assert(deps@.take(j + 1).drop_last() =~= deps@.take(j as int));
            match node_index(tasks, deps[j]) {
                Some(k) => {
                    edges.push((k, target));
                },
                None => {},
            }
            assert(edges@ =~= base + dep_edges(v, deps@.take(j + 1), target as int));
            j += 1;
        }
        assert(deps@.take(j as int) =~= deps@);
        match extra {
            Some((ei, d)) => {
                if ei == i {
                    let ghost before = edges@;
                    match node_index(tasks, d) {
                        Some(k) => {
                            edges.push((k, target));
                        },
                        None => {},
                    }
                    assert(v[i as int].1.drop_last() =~= deps@);
                    assert(edges@ =~= base + dep_edges(v, v[i as int].1, target as int));
                }
            },
            None => {},
        }
        assert(edges@ =~= edges_upto(v, i + 1));
        i += 1;
    }
    proof {
        lemma_edges_within(v, v.len() as int);
    }
    edges
}

/// The task dependency graph: node `i` stands for `ids[i]`, the identifier of
/// task `i`; each edge runs from a dependency to its dependent.
pub struct TaskGraph {
    /// Node weights: the identifier of each task, in task order.
    pub ids: Vec<TaskId>,
    /// Edges `dependency -> dependent` as node indices.
    pub edges: Vec<(usize, usize)>,
}

/// Build the dependency graph from the task list. A dependency naming no task
/// contributes no edge; a repeated task identifier maps to its last task.
pub fn build_task_graph(tasks: &[Task]) -> (g: TaskGraph)
    ensures
        g.ids@ == tids(tasks@),
        g.edges@ == task_edges(deps_view(tasks@)),
{
    let mut ids: Vec<TaskId> = Vec::new();
    let mut i: usize = 0;
    while i < tasks.len()
        invariant
            i <= tasks@.len(),
            ids@ == tids(tasks@.take(i as int)),
        decreases tasks@.len() - i,
    {
        ids.push(tasks[i].id);
        assert(ids@ =~= tids(tasks@.take(i + 1)));
        i += 1;
    }
    assert(tasks@.take(i as int) =~= tasks@);
    TaskGraph { ids, edges: build_edges(tasks, None) }
}

/// Whether the task dependency graph has a cycle.
pub fn has_cycle(tasks: &[Task]) -> (r: bool)
    ensures
        r == graph_has_cycle(task_edges(deps_view(tasks@))),
{
    let edges = build_edges(tasks, None);
    petgraph_is_cyclic(tasks.len(), &edges)
}

/// Whether the dependency graph would have a cycle if task `i` also depended on `d`.
pub fn has_cycle_with(tasks: &[Task], i: usize, d: TaskId) -> (r: bool)
    requires
        i < tasks@.len(),
    ensures
        r == graph_has_cycle(
            task_edges(
                deps_view(tasks@).update(
                    i as int,
                    (tasks@[i as int].id, tasks@[i as int].depends_on@.push(d)),
                ),
            ),
        ),
{
    let edges = build_edges(tasks, Some((i, d)));
    petgraph_is_cyclic(tasks.len(), &edges)
}

/// Tasks in topological order (dependencies first), as `petgraph` orders
/// them; an error when the dependencies contain a cycle.
pub fn topological_order(tasks: &[Task]) -> (r: Result<Vec<TaskId>, String>)
    ensures
        match petgraph_toposort(tasks@.len() as nat, task_edges(deps_view(tasks@))) {
            Some(order) => r matches Ok(v) && v@ == order.map_values(|k: usize| tasks@[k as int].id),
            None => r matches Err(m) && m@ == "task dependency graph contains a cycle"@,
        },
        r is Err <==> graph_has_cycle(task_edges(deps_view(tasks@))),
        r matches Ok(v) ==> v@.len() == tasks@.len(),
{
    let edges = build_edges(tasks, None);
    match petgraph_topo(tasks.len(), &edges) {
        Some(order) => {
            let mut out: Vec<TaskId> = Vec::new();
            let mut i: usize = 0;
            while i < order.len()
                invariant
                    i <= order@.len(),
                    forall|k: int| 0 <= k < order@.len() ==> (#[trigger] order@[k]) < tasks@.len(),
                    out@ == order@.take(i as int).map_values(|k: usize| tasks@[k as int].id),
                decreases order@.len() - i,
            {
                out.push(tasks[order[i]].id);
                assert(out@ =~= order@.take(i + 1).map_values(|k: usize| tasks@[k as int].id));
                i += 1;
            }
            assert(order@.take(i as int) =~= order@);
            Ok(out)
        },
        None => Err(string_from(crate::text::chars_of("task dependency graph contains a cycle").as_slice())),
    }
}

/// Dependency `j` of task `i` names an existing task.
pub open spec fn dep_ok(ts: Seq<Task>, i: int, j: int) -> bool {
    tids(ts).contains(ts[i].depends_on@[j])
}

/// Every dependency names an existing task.
pub open spec fn deps_resolved(ts: Seq<Task>) -> bool {
    forall|i: int, j: int|
        0 <= i < ts.len() && 0 <= j < ts[i].depends_on@.len() ==> #[trigger] dep_ok(ts, i, j)
}

/// `msg` is what `validate_dag` reports.
pub open spec fn dag_error(ts: Seq<Task>, msg: Seq<char>) -> bool {
    if deps_resolved(ts) {
        msg == "task dependency graph contains a cycle"@
    } else {
        exists|i: int, j: int|
            0 <= i < ts.len() && 0 <= j < ts[i].depends_on@.len() && !dep_ok(ts, i, j) && (forall|
                a: int,
                b: int,
            |
                0 <= a < i && 0 <= b < ts[a].depends_on@.len() ==> #[trigger] dep_ok(ts, a, b)) && (
            forall|b: int| 0 <= b < j ==> #[trigger] dep_ok(ts, i, b)) && msg == "task "@ + id_text(
                't',
                ts[i].id.0,
            ) + " depends on non-existent task "@ + id_text('t', ts[i].depends_on@[j].0)
    }
}

/// The checks of `validate_dag`.
fn check_dag(tasks: &[Task]) -> (r: Result<(), String>)
    ensures
        r is Ok <==> deps_resolved(tasks@) && !graph_has_cycle(task_edges(deps_view(tasks@))),
        r matches Err(msg) ==> dag_error(tasks@, msg@),
{
    let ghost ts = tasks@;
    let mut i: usize = 0;
    while i < tasks.len()
        invariant
            ts == tasks@,
            i <= ts.len(),
            forall|a: int, b: int|
                0 <= a < i && 0 <= b < ts[a].depends_on@.len() ==> #[trigger] dep_ok(ts, a, b),
        decreases ts.len() - i,
    {
        let deps = &tasks[i].depends_on;
        let mut j: usize = 0;
        while j < deps.len()
            invariant
                ts == tasks@,
                i < ts.len(),
                j <= deps@.len(),
                deps@ == ts[i as int].depends_on@,
                forall|a: int, b: int|
                    0 <= a < i && 0 <= b < ts[a].depends_on@.len() ==> #[trigger] dep_ok(ts, a, b),
                forall|b: int| 0 <= b < j ==> #[trigger] dep_ok(ts, i as int, b),
            decreases deps@.len() - j,
        {
            let d = deps[j];
            match node_index(tasks, d) {
                Some(_) => {
                    proof {
                        lemma_last_pos(view_ids(deps_view(ts)), d);
                        assert(view_ids(deps_view(ts)) =~= tids(ts));
                    }
                },
                None => {
                    proof {
                        lemma_last_pos(view_ids(deps_view(ts)), d);
                        assert(view_ids(deps_view(ts)) =~= tids(ts));
                        assert(!dep_ok(ts, i as int, j as int));
                    }
                    let mut v: Vec<char> = Vec::new();
                    push_str(&mut v, "task ");
                    push_task_id(&mut v, tasks[i].id);
                    push_str(&mut v, " depends on non-existent task ");
                    push_task_id(&mut v, d);
                    let msg = string_from(v.as_slice());
                    assert(msg@ =~= "task "@ + id_text('t', ts[i as int].id.0)
                        + " depends on non-existent task "@ + id_text('t', d.0));
                    return Err(msg);
                },
            }
            j += 1;
        }
        i += 1;
    }
    if has_cycle(tasks) {
        return Err(string_from(crate::text::chars_of("task dependency graph contains a cycle").as_slice()));
    }
    Ok(())
}

/// Position `j` of `s` repeats an earlier element.
pub open spec fn repeated_at<A>(s: Seq<A>, j: int) -> bool {
    s.take(j).contains(s[j])
}

/// The message for the repeated concept identifier at position `j`.
pub open spec fn dup_concept_msg(cs: Seq<crate::model::concept::Concept>, j: int) -> Seq<char> {
    "duplicate concept ID "@ + decimal(cs[j].id.0 as nat)
}

/// The message for the repeated task identifier at position `j`.
pub open spec fn dup_task_msg(ts: Seq<Task>, j: int) -> Seq<char> {
    "duplicate task ID "@ + decimal(ts[j].id.0 as nat)
}

/// `msg` is what `validate_unique_ids` reports.
pub open spec fn unique_error(cs: Seq<crate::model::concept::Concept>, ts: Seq<Task>, msg: Seq<char>) -> bool {
    if !cids(cs).no_duplicates() {
        exists|j: int|
            #![trigger repeated_at(cids(cs), j)]
            0 <= j < cs.len() && repeated_at(cids(cs), j) && (forall|k: int|
                0 <= k < j ==> !#[trigger] repeated_at(cids(cs), k)) && msg == dup_concept_msg(cs, j)
    } else {
        exists|j: int|
            #![trigger repeated_at(tids(ts), j)]
            0 <= j < ts.len() && repeated_at(tids(ts), j) && (forall|k: int|
                0 <= k < j ==> !#[trigger] repeated_at(tids(ts), k)) && msg == dup_task_msg(ts, j)
    }
}

/// No position repeats an earlier element exactly when there are no duplicates.
proof fn lemma_no_repeat_no_dup<A>(s: Seq<A>)
    requires
        forall|k: int| 0 <= k < s.len() ==> !#[trigger] repeated_at(s, k),
    ensures
        s.no_duplicates(),
{
    assert forall|a: int, b: int| 0 <= a < s.len() && 0 <= b < s.len() && a != b implies s[a] != s[b] by {
        if a < b {
            assert(!repeated_at(s, b));
            assert(s.take(b)[a] == s[a]);
        } else {
            assert(!repeated_at(s, a));
            assert(s.take(a)[b] == s[b]);
        }
    }
}

/// The checks of `validate_unique_ids`.
fn check_unique_ids(project: &Project) -> (r: Result<(), String>)
    ensures
        r is Ok <==> cids(project.concepts@).no_duplicates() && tids(project.tasks@).no_duplicates(),
        r matches Err(msg) ==> unique_error(project.concepts@, project.tasks@, msg@),
{
    let ghost cs = project.concepts@;
    let ghost ts = project.tasks@;
    let mut j: usize = 0;
    while j < project.concepts.len()
        invariant
            cs == project.concepts@,
            j <= cs.len(),
            forall|k: int| 0 <= k < j ==> !#[trigger] repeated_at(cids(cs), k),
        decreases cs.len() - j,
    {
        let id = project.concepts[j].id;
        let mut k: usize = 0;
        while k < j
            invariant
                cs == project.concepts@,
                j < cs.len(),
                k <= j,
                id == cs[j as int].id,
                forall|q: int| 0 <= q < k ==> cs[q].id != id,
                forall|q: int| 0 <= q < j ==> !#[trigger] repeated_at(cids(cs), q),
            decreases j - k,
        {
            if project.concepts[k].id == id {
                proof {
                    assert(cids(cs).take(j as int)[k as int] == id);
                    assert(repeated_at(cids(cs), j as int));
                    assert(!cids(cs).no_duplicates()) by {
                        assert(cids(cs)[k as int] == cids(cs)[j as int]);
                    }
                }
                let mut v: Vec<char> = Vec::new();
                push_str(&mut v, "duplicate concept ID ");
                let d = u64_decimal(id.0);
                push_all(&mut v, d.as_slice());
                let msg = string_from(v.as_slice());
                assert(msg@ =~= "duplicate concept ID "@ + decimal(id.0 as nat));
                assert(0 <= j < cs.len() && repeated_at(cids(cs), j as int) && (forall|q: int|
                    0 <= q < j ==> !#[trigger] repeated_at(cids(cs), q)) && msg@ == dup_concept_msg(cs, j as int));
                return Err(msg);
            }
            k += 1;
        }
        proof {
            assert(!repeated_at(cids(cs), j as int)) by {
                if cids(cs).take(j as int).contains(cids(cs)[j as int]) {
                    let q = choose|q: int| 0 <= q < j && cids(cs).take(j as int)[q] == cids(cs)[j as int];
                    assert(cs[q].id == id);
                }
            }
        }
        j += 1;
    }
    proof {
        lemma_no_repeat_no_dup(cids(cs));
    }
    let mut j: usize = 0;
    while j < project.tasks.len()
        invariant
            ts == project.tasks@,
            cids(cs).no_duplicates(),
            cs == project.concepts@,
            j <= ts.len(),
            forall|k: int| 0 <= k < j ==> !#[trigger] repeated_at(tids(ts), k),
        decreases ts.len() - j,
    {
        let id = project.tasks[j].id;
        let mut k: usize = 0;
        while k < j
            invariant
                ts == project.tasks@,
                j < ts.len(),
                k <= j,
                id == ts[j as int].id,
                forall|q: int| 0 <= q < k ==> ts[q].id != id,
                forall|q: int| 0 <= q < j ==> !#[trigger] repeated_at(tids(ts), q),
                cids(cs).no_duplicates(),
                cs == project.concepts@,
            decreases j - k,
        {
            if project.tasks[k].id == id {
                proof {
                    assert(tids(ts).take(j as int)[k as int] == id);
                    assert(repeated_at(tids(ts), j as int));
                    assert(!tids(ts).no_duplicates()) by {
                        assert(tids(ts)[k as int] == tids(ts)[j as int]);
                    }
                }
                let mut v: Vec<char> = Vec::new();
                push_str(&mut v, "duplicate task ID ");
                let d = u64_decimal(id.0);
                push_all(&mut v, d.as_slice());
                let msg = string_from(v.as_slice());
                assert(msg@ =~= "duplicate task ID "@ + decimal(id.0 as nat));
                assert(0 <= j < ts.len() && repeated_at(tids(ts), j as int) && (forall|q: int|
                    0 <= q < j ==> !#[trigger] repeated_at(tids(ts), q)) && msg@ == dup_task_msg(ts, j as int));
                return Err(msg);
            }
            k += 1;
        }
        proof {
            assert(!repeated_at(tids(ts), j as int)) by {
                if tids(ts).take(j as int).contains(tids(ts)[j as int]) {
                    let q = choose|q: int| 0 <= q < j && tids(ts).take(j as int)[q] == tids(ts)[j as int];
                    assert(ts[q].id == id);
                }
            }
        }
        j += 1;
    }
    proof {
        lemma_no_repeat_no_dup(tids(ts));
    }
    Ok(())
}

/// Concept link `j` of task `i` names an existing concept.
pub open spec fn link_ok(p: Project, i: int, j: int) -> bool {
    has_concept(p.concepts@, p.tasks@[i].concepts@[j])
}

/// Every task's concept links name existing concepts.
pub open spec fn links_resolved(p: Project) -> bool {
    forall|i: int, j: int|
        0 <= i < p.tasks@.len() && 0 <= j < p.tasks@[i].concepts@.len() ==> #[trigger] link_ok(p, i, j)
}

/// The whole project is well formed: unique IDs, a forest of concepts, a
/// dependency DAG over existing tasks, and links to existing concepts only.
pub open spec fn project_valid(p: Project) -> bool {
    &&& cids(p.concepts@).no_duplicates()
    &&& tids(p.tasks@).no_duplicates()
    &&& tree_valid(p.concepts@)
    &&& deps_resolved(p.tasks@)
    &&& !graph_has_cycle(task_edges(deps_view(p.tasks@)))
    &&& links_resolved(p)
}

/// `msg` is what `validate_project` reports: the error of the first failing stage.
pub open spec fn project_error(p: Project, msg: Seq<char>) -> bool {
    if !(cids(p.concepts@).no_duplicates() && tids(p.tasks@).no_duplicates()) {
        unique_error(p.concepts@, p.tasks@, msg)
    } else if !tree_valid(p.concepts@) {
        tree_first_error(p.concepts@, msg)
    } else if !(deps_resolved(p.tasks@) && !graph_has_cycle(task_edges(deps_view(p.tasks@)))) {
        dag_error(p.tasks@, msg)
    } else {
        exists|i: int, j: int|
            0 <= i < p.tasks@.len() && 0 <= j < p.tasks@[i].concepts@.len() && !link_ok(p, i, j)
                && (forall|a: int, b: int|
                0 <= a < i && 0 <= b < p.tasks@[a].concepts@.len() ==> #[trigger] link_ok(p, a, b))
                && (forall|b: int| 0 <= b < j ==> #[trigger] link_ok(p, i, b)) && msg == "task "@
                + id_text('t', p.tasks@[i].id.0) + " references non-existent concept "@ + id_text(
                'c',
                p.tasks@[i].concepts@[j].0,
            )
    }
}

/// The checks of `validate_project`.
fn check_project(project: &Project) -> (r: Result<(), String>)
    ensures
        r is Ok <==> project_valid(*project),
        r matches Err(msg) ==> project_error(*project, msg@),
{
    validate_unique_ids(project)?;
    validate_tree(project)?;
    validate_dag(project.tasks.as_slice())?;
    let ghost p = *project;
    let mut i: usize = 0;
    while i < project.tasks.len()
        invariant
            p == *project,
            cids(p.concepts@).no_duplicates() && tids(p.tasks@).no_duplicates(),
            tree_valid(p.concepts@),
            deps_resolved(p.tasks@) && !graph_has_cycle(task_edges(deps_view(p.tasks@))),
            i <= p.tasks@.len(),
            forall|a: int, b: int|
                0 <= a < i && 0 <= b < p.tasks@[a].concepts@.len() ==> #[trigger] link_ok(p, a, b),
        decreases p.tasks@.len() - i,
    {
        let links = &project.tasks[i].concepts;
        let mut j: usize = 0;
        while j < links.len()
            invariant
                p == *project,
                cids(p.concepts@).no_duplicates() && tids(p.tasks@).no_duplicates(),
                tree_valid(p.concepts@),
                deps_resolved(p.tasks@) && !graph_has_cycle(task_edges(deps_view(p.tasks@))),
                i < p.tasks@.len(),
                j <= links@.len(),
                links@ == p.tasks@[i as int].concepts@,
                forall|a: int, b: int|
                    0 <= a < i && 0 <= b < p.tasks@[a].concepts@.len() ==> #[trigger] link_ok(p, a, b),
                forall|b: int| 0 <= b < j ==> #[trigger] link_ok(p, i as int, b),
            decreases links@.len() - j,
        {
            let cid = links[j];
            if project.find_concept(cid).is_none() {
                let mut v: Vec<char> = Vec::new();
                push_str(&mut v, "task ");
                push_task_id(&mut v, project.tasks[i].id);
                push_str(&mut v, " references non-existent concept ");
                push_concept_id(&mut v, cid);
                let msg = string_from(v.as_slice());
                assert(msg@ =~= "task "@ + id_text('t', p.tasks@[i as int].id.0)
                    + " references non-existent concept "@ + id_text('c', cid.0));
                assert(!link_ok(p, i as int, j as int));
                assert(0 <= i < p.tasks@.len() && 0 <= j < p.tasks@[i as int].concepts@.len() && !link_ok(p, i as int, j as int)
                    && (forall|a: int, b: int|
                    0 <= a < i && 0 <= b < p.tasks@[a].concepts@.len() ==> #[trigger] link_ok(p, a, b))
                    && (forall|b: int| 0 <= b < j ==> #[trigger] link_ok(p, i as int, b)) && msg@ == "task "@
                    + id_text('t', p.tasks@[i as int].id.0) + " references non-existent concept "@ + id_text(
                    'c',
                    p.tasks@[i as int].concepts@[j as int].0,
                ));
                return Err(msg);
            }
            j += 1;
        }
        i += 1;
    }
    Ok(())
}


/// The message `validate_unique_ids` gives for these lists.
pub open spec fn unique_message(cs: Seq<crate::model::concept::Concept>, ts: Seq<Task>) -> Seq<char> {
    choose|m: Seq<char>| unique_error(cs, ts, m)
}

/// The message `validate_tree` gives for these concepts.
pub open spec fn tree_message(cs: Seq<crate::model::concept::Concept>) -> Seq<char> {
    choose|m: Seq<char>| tree_first_error(cs, m)
}

/// The message `validate_dag` gives for these tasks.
pub open spec fn dag_message(ts: Seq<Task>) -> Seq<char> {
    choose|m: Seq<char>| dag_error(ts, m)
}

proof fn lemma_unique_message(cs: Seq<crate::model::concept::Concept>, ts: Seq<Task>, m: Seq<char>)
    requires
        unique_error(cs, ts, m),
    ensures
        m == unique_message(cs, ts),
{
    assert(exists|x: Seq<char>| unique_error(cs, ts, x));
    lemma_unique_error_functional(cs, ts, m, unique_message(cs, ts));
}

pub(crate) proof fn lemma_tree_message(cs: Seq<crate::model::concept::Concept>, m: Seq<char>)
    requires
        tree_first_error(cs, m),
    ensures
        m == tree_message(cs),
{
    assert(exists|x: Seq<char>| tree_first_error(cs, x));
    lemma_tree_error_functional(cs, m, tree_message(cs));
}

proof fn lemma_dag_message(ts: Seq<Task>, m: Seq<char>)
    requires
        dag_error(ts, m),
    ensures
        m == dag_message(ts),
{
    assert(exists|x: Seq<char>| dag_error(ts, x));
    lemma_dag_error_functional(ts, m, dag_message(ts));
}

/// Validate the task DAG: every dependency names an existing task, and there
/// is no cycle. Reports the first dangling dependency, else the cycle.
pub fn validate_dag(tasks: &[Task]) -> (r: Result<(), String>)
    ensures
        r is Ok <==> deps_resolved(tasks@) && !graph_has_cycle(task_edges(deps_view(tasks@))),
        r matches Err(msg) ==> dag_error(tasks@, msg@) && msg@ == dag_message(tasks@),
{
    let r = check_dag(tasks);
    proof {
        match &r {
            Ok(_) => {},
            Err(m) => lemma_dag_message(tasks@, m@),
        }
    }
    r
}

/// Validate that all concept IDs and all task IDs are unique. Reports the
/// first repeated concept ID, else the first repeated task ID.
pub fn validate_unique_ids(project: &Project) -> (r: Result<(), String>)
    ensures
        r is Ok <==> cids(project.concepts@).no_duplicates() && tids(project.tasks@).no_duplicates(),
        r matches Err(msg) ==> unique_error(project.concepts@, project.tasks@, msg@) && msg@ == unique_message(
            project.concepts@,
            project.tasks@,
        ),
{
    let r = check_unique_ids(project);
    proof {
        match &r {
            Ok(_) => {},
            Err(m) => lemma_unique_message(project.concepts@, project.tasks@, m@),
        }
    }
    r
}

/// Full project validation: unique IDs, then the concept tree, then the task
/// DAG, then the tasks' concept links. The message is that of the first check
/// that fails: what `validate_unique_ids`, `validate_tree` or `validate_dag`
/// reports, or the first task link to a missing concept.
pub fn validate_project(project: &Project) -> (r: Result<(), String>)
    ensures
        r is Ok <==> project_valid(*project),
        r matches Err(msg) ==> project_error(*project, msg@),
        !(cids(project.concepts@).no_duplicates() && tids(project.tasks@).no_duplicates()) ==> (r matches Err(msg)
            && msg@ == unique_message(project.concepts@, project.tasks@)),
        cids(project.concepts@).no_duplicates() && tids(project.tasks@).no_duplicates() && !tree_valid(project.concepts@)
            ==> (r matches Err(msg) && msg@ == tree_message(project.concepts@)),
        cids(project.concepts@).no_duplicates() && tids(project.tasks@).no_duplicates() && tree_valid(project.concepts@)
            && !(deps_resolved(project.tasks@) && !graph_has_cycle(task_edges(deps_view(project.tasks@)))) ==> (r matches Err(
            msg,
        ) && msg@ == dag_message(project.tasks@)),
{
    let r = check_project(project);
    proof {
        let cs = project.concepts@;
        let ts = project.tasks@;
        match &r {
            Ok(_) => {},
            Err(m) => {
                if !(cids(cs).no_duplicates() && tids(ts).no_duplicates()) {
                    lemma_unique_message(cs, ts, m@);
                } else if !tree_valid(cs) {
                    lemma_tree_message(cs, m@);
                } else if !(deps_resolved(ts) && !graph_has_cycle(task_edges(deps_view(ts)))) {
                    lemma_dag_message(ts, m@);
                }
            },
        }
    }
    r
}

/// The duplicate-identifier message is determined by the lists.
proof fn lemma_unique_error_functional(
    cs: Seq<crate::model::concept::Concept>,
    ts: Seq<Task>,
    m1: Seq<char>,
    m2: Seq<char>,
)
    requires
        unique_error(cs, ts, m1),
        unique_error(cs, ts, m2),
    ensures
        m1 == m2,
{
    if !cids(cs).no_duplicates() {
        let j1 = choose|j: int|
            #![trigger repeated_at(cids(cs), j)]
            0 <= j < cs.len() && repeated_at(cids(cs), j) && (forall|k: int|
                0 <= k < j ==> !#[trigger] repeated_at(cids(cs), k)) && m1 == dup_concept_msg(cs, j);
        let j2 = choose|j: int|
            #![trigger repeated_at(cids(cs), j)]
            0 <= j < cs.len() && repeated_at(cids(cs), j) && (forall|k: int|
                0 <= k < j ==> !#[trigger] repeated_at(cids(cs), k)) && m2 == dup_concept_msg(cs, j);
        if j1 < j2 {
            assert(!repeated_at(cids(cs), j1));
        } else if j2 < j1 {
            assert(!repeated_at(cids(cs), j2));
        }
    } else {
        let j1 = choose|j: int|
            #![trigger repeated_at(tids(ts), j)]
            0 <= j < ts.len() && repeated_at(tids(ts), j) && (forall|k: int|
                0 <= k < j ==> !#[trigger] repeated_at(tids(ts), k)) && m1 == dup_task_msg(ts, j);
        let j2 = choose|j: int|
            #![trigger repeated_at(tids(ts), j)]
            0 <= j < ts.len() && repeated_at(tids(ts), j) && (forall|k: int|
                0 <= k < j ==> !#[trigger] repeated_at(tids(ts), k)) && m2 == dup_task_msg(ts, j);
        if j1 < j2 {
            assert(!repeated_at(tids(ts), j1));
        } else if j2 < j1 {
            assert(!repeated_at(tids(ts), j2));
        }
    }
}

/// The concept-tree message is determined by the concepts.
proof fn lemma_tree_error_functional(cs: Seq<crate::model::concept::Concept>, m1: Seq<char>, m2: Seq<char>)
    requires
        tree_first_error(cs, m1),
        tree_first_error(cs, m2),
    ensures
        m1 == m2,
{
    let i1 = choose|i: int|
        0 <= i < cs.len() && (forall|j: int| 0 <= j < i ==> tree_node_ok(cs, #[trigger] cs[j]))
            && !tree_node_ok(cs, cs[i]) && tree_error(cs, cs[i], m1);
    let i2 = choose|i: int|
        0 <= i < cs.len() && (forall|j: int| 0 <= j < i ==> tree_node_ok(cs, #[trigger] cs[j]))
            && !tree_node_ok(cs, cs[i]) && tree_error(cs, cs[i], m2);
    if i1 < i2 {
        assert(tree_node_ok(cs, cs[i1]));
    } else if i2 < i1 {
        assert(tree_node_ok(cs, cs[i2]));
    }
    let c = cs[i1];
    match c.parent {
        Some(p) if !has_concept(cs, p) => {},
        _ => {
            let (a1, x1) = choose|m: nat, x: ConceptId|
                first_repeat(cs, c.id, m) && ancestor_at(cs, c.id, m) == Some(x) && m1
                    == "cycle detected in concept tree involving "@ + id_text('c', x.0);
            let (a2, x2) = choose|m: nat, x: ConceptId|
                first_repeat(cs, c.id, m) && ancestor_at(cs, c.id, m) == Some(x) && m2
                    == "cycle detected in concept tree involving "@ + id_text('c', x.0);
            if a1 < a2 {
                assert(!repeats_at(cs, c.id, a1));
            } else if a2 < a1 {
                assert(!repeats_at(cs, c.id, a2));
            }
        },
    }
}

/// The dependency message is determined by the tasks.
proof fn lemma_dag_error_functional(ts: Seq<Task>, m1: Seq<char>, m2: Seq<char>)
    requires
        dag_error(ts, m1),
        dag_error(ts, m2),
    ensures
        m1 == m2,
{
    if !deps_resolved(ts) {
        let (i1, j1) = choose|i: int, j: int|
            0 <= i < ts.len() && 0 <= j < ts[i].depends_on@.len() && !dep_ok(ts, i, j) && (forall|a: int, b: int|
                0 <= a < i && 0 <= b < ts[a].depends_on@.len() ==> #[trigger] dep_ok(ts, a, b)) && (forall|b: int|
                0 <= b < j ==> #[trigger] dep_ok(ts, i, b)) && m1 == "task "@ + id_text('t', ts[i].id.0)
                + " depends on non-existent task "@ + id_text('t', ts[i].depends_on@[j].0);
        let (i2, j2) = choose|i: int, j: int|
            0 <= i < ts.len() && 0 <= j < ts[i].depends_on@.len() && !dep_ok(ts, i, j) && (forall|a: int, b: int|
                0 <= a < i && 0 <= b < ts[a].depends_on@.len() ==> #[trigger] dep_ok(ts, a, b)) && (forall|b: int|
                0 <= b < j ==> #[trigger] dep_ok(ts, i, b)) && m2 == "task "@ + id_text('t', ts[i].id.0)
                + " depends on non-existent task "@ + id_text('t', ts[i].depends_on@[j].0);
        if i1 < i2 {
            assert(dep_ok(ts, i1, j1));
        } else if i2 < i1 {
            assert(dep_ok(ts, i2, j2));
        } else if j1 < j2 {
            assert(dep_ok(ts, i1, j1));
        } else if j2 < j1 {
            assert(dep_ok(ts, i2, j2));
        }
    }
}

/// The message `validate_project` gives is determined by the project, and
/// it is the very message of the first stage that fails: when the
/// identifiers repeat it is what `validate_unique_ids` reports, else when the
/// tree is broken what `validate_tree` reports, else when the dependencies
/// are broken what `validate_dag` reports.
pub proof fn lemma_validation_reports_first_stage(p: Project, msg: Seq<char>, other: Seq<char>)
    requires
        project_error(p, msg),
    ensures
        project_error(p, other) ==> other == msg,
        !(cids(p.concepts@).no_duplicates() && tids(p.tasks@).no_duplicates())
            ==> (unique_error(p.concepts@, p.tasks@, other) ==> other == msg),
        cids(p.concepts@).no_duplicates() && tids(p.tasks@).no_duplicates() && !tree_valid(p.concepts@)
            ==> (tree_first_error(p.concepts@, other) ==> other == msg),
        cids(p.concepts@).no_duplicates() && tids(p.tasks@).no_duplicates() && tree_valid(p.concepts@)
            && !(deps_resolved(p.tasks@) && !graph_has_cycle(task_edges(deps_view(p.tasks@))))
            ==> (dag_error(p.tasks@, other) ==> other == msg),
{
    let cs = p.concepts@;
    let ts = p.tasks@;
    if !(cids(cs).no_duplicates() && tids(ts).no_duplicates()) {
        if unique_error(cs, ts, other) {
            lemma_unique_error_functional(cs, ts, msg, other);
        }
    } else if !tree_valid(cs) {
        if tree_first_error(cs, other) {
            lemma_tree_error_functional(cs, msg, other);
        }
    } else if !(deps_resolved(ts) && !graph_has_cycle(task_edges(deps_view(ts)))) {
        if dag_error(ts, other) {
            lemma_dag_error_functional(ts, msg, other);
        }
    } else if project_error(p, other) {
        let (i1, j1) = choose|i: int, j: int|
            0 <= i < p.tasks@.len() && 0 <= j < p.tasks@[i].concepts@.len() && !link_ok(p, i, j)
                && (forall|a: int, b: int|
                0 <= a < i && 0 <= b < p.tasks@[a].concepts@.len() ==> #[trigger] link_ok(p, a, b))
                && (forall|b: int| 0 <= b < j ==> #[trigger] link_ok(p, i, b)) && msg == "task "@
                + id_text('t', p.tasks@[i].id.0) + " references non-existent concept "@ + id_text(
                'c',
                p.tasks@[i].concepts@[j].0,
            );
        let (i2, j2) = choose|i: int, j: int|
            0 <= i < p.tasks@.len() && 0 <= j < p.tasks@[i].concepts@.len() && !link_ok(p, i, j)
                && (forall|a: int, b: int|
                0 <= a < i && 0 <= b < p.tasks@[a].concepts@.len() ==> #[trigger] link_ok(p, a, b))
                && (forall|b: int| 0 <= b < j ==> #[trigger] link_ok(p, i, b)) && other == "task "@
                + id_text('t', p.tasks@[i].id.0) + " references non-existent concept "@ + id_text(
                'c',
                p.tasks@[i].concepts@[j].0,
            );
        if i1 < i2 {
            assert(link_ok(p, i1, j1));
        } else if i2 < i1 {
            assert(link_ok(p, i2, j2));
        } else if j1 < j2 {
            assert(link_ok(p, i1, j1));
        } else if j2 < j1 {
            assert(link_ok(p, i2, j2));
        }
    }
    if project_error(p, other) {
        if !(cids(cs).no_duplicates() && tids(ts).no_duplicates()) {
            lemma_unique_error_functional(cs, ts, msg, other);
        } else if !tree_valid(cs) {
            lemma_tree_error_functional(cs, msg, other);
        } else if !(deps_resolved(ts) && !graph_has_cycle(task_edges(deps_view(ts)))) {
            lemma_dag_error_functional(ts, msg, other);
        }
    }
}

/// The message given for a project timezone that names no known zone.
pub open spec fn zone_error(tz: Seq<char>) -> Seq<char> {
    "invalid timezone '"@ + tz + "'"@
}

/// Project validation with the timezone checked first: `zone_known` says
/// whether the project's timezone names a zone of the time-zone database
/// (it is not read when the project has no timezone). An unknown zone is
/// reported before anything else; otherwise the result is that of
/// `validate_project`.
pub fn validate_project_with_zone(project: &Project, zone_known: bool) -> (r: Result<(), String>)
    ensures
        project.timezone is Some && !zone_known ==> (r matches Err(msg) && msg@ == zone_error(
            project.timezone->0@,
        )),
        !(project.timezone is Some && !zone_known) ==> {
            &&& (r is Ok <==> project_valid(*project))
            &&& (r matches Err(msg) ==> project_error(*project, msg@))
        },
{
    if !zone_known {
        match &project.timezone {
            Some(tz) => {
                let mut v: Vec<char> = Vec::new();
                push_str(&mut v, "invalid timezone '");
                push_str(&mut v, tz.as_str());
                push_str(&mut v, "'");
                let msg = string_from(v.as_slice());
                return Err(msg);
            },
            None => {},
        }
    }
    validate_project(project)
}

} // verus!
