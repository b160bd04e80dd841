//! The top-level project container and all mutation operations.
use vstd::prelude::*;

use super::concept::Concept;
use super::id::{ConceptId, TaskId};
use super::task::{Task, TaskState};
use crate::graph::tree::{is_ancestor, is_ancestor_spec, lemma_add_keeps_forest, lemma_same_links_tree, lemma_move_keeps_forest, lemma_positioned_keeps_forest, lemma_remove_keeps_forest, reparented, tree_node_ok, tree_valid};
use crate::graph::dag::{deps_view, graph_has_cycle, has_cycle_with, lemma_add_node_keeps_dag, lemma_fewer_deps_keep_dag, lemma_sub_entries_keep_dag, task_edges, view_ids};
use crate::seqs::{last_pos, lemma_last_pos, lemma_distinct_bound, first_pos, lemma_first_pos, lemma_first_pos_prefix, lemma_first_pos_step};

verus! {

/// Errors from project mutation operations.
#[derive(Debug)]
pub enum ProjectError {
    /// A concept ID was not found in the project.
    ConceptNotFound(ConceptId),
    /// A task ID was not found in the project.
    TaskNotFound(TaskId),
    /// Attempted to remove a concept that still has children.
    ConceptHasChildren(ConceptId),
    /// Attempted to remove a concept that is still referenced by tasks.
    ConceptReferencedByTasks(ConceptId, Vec<TaskId>),
    /// Moving a concept would create a cycle in the tree.
    ConceptCycleDetected {
        /// The concept being moved.
        id: ConceptId,
        /// The proposed new parent.
        new_parent: ConceptId,
    },
    /// Adding a dependency would create a cycle in the task DAG.
    DependencyCycle {
        /// The task that would gain the dependency.
        from: TaskId,
        /// The proposed dependency target.
        to: TaskId,
    },
    /// The dependency already exists.
    DuplicateDependency(TaskId, TaskId),
    /// Attempted to remove a dependency edge that does not exist.
    DependencyNotFound(TaskId, TaskId),
    /// A task cannot depend on itself.
    SelfDependency(TaskId),
    /// Attempted to unlink a concept that the task is not linked to.
    ConceptNotLinked(TaskId, ConceptId),
    /// Some concepts are unreachable from any root, so a canonical
    /// renumbering cannot cover them.
    UnreachableConcepts(usize),
    /// Attempted to position a concept relative to itself.
    SelfPlacement(ConceptId),
    /// A name is empty after trimming.
    EmptyName,
    /// A name contains a control character.
    ControlCharInName(char),
}

/// The identifiers of `cs`, in order.
pub open spec fn cids(cs: Seq<Concept>) -> Seq<ConceptId> {
    cs.map_values(|c: Concept| c.id)
}

/// The identifiers of `ts`, in order.
pub open spec fn tids(ts: Seq<Task>) -> Seq<TaskId> {
    ts.map_values(|t: Task| t.id)
}

/// Index of the first concept with identifier `id`, or `-1`.
pub open spec fn concept_pos(cs: Seq<Concept>, id: ConceptId) -> int {
    first_pos(cids(cs), id)
}

/// Index of the first task with identifier `id`, or `-1`.
pub open spec fn task_pos(ts: Seq<Task>, id: TaskId) -> int {
    first_pos(tids(ts), id)
}

/// Whether some concept has identifier `id`.
pub open spec fn has_concept(cs: Seq<Concept>, id: ConceptId) -> bool {
    concept_pos(cs, id) >= 0
}

/// Whether some task has identifier `id`.
pub open spec fn has_task(ts: Seq<Task>, id: TaskId) -> bool {
    task_pos(ts, id) >= 0
}

/// Facts about the first position of a concept.
pub proof fn lemma_concept_pos(cs: Seq<Concept>, id: ConceptId)
    ensures
        -1 <= concept_pos(cs, id) < cs.len(),
        concept_pos(cs, id) >= 0 ==> cs[concept_pos(cs, id)].id == id,
        forall|k: int|
            0 <= k < cs.len() && (concept_pos(cs, id) < 0 || k < concept_pos(cs, id)) ==> cs[k].id
                != id,
        concept_pos(cs, id) < 0 ==> forall|k: int| 0 <= k < cs.len() ==> cs[k].id != id,
{
    let s = cids(cs);
    lemma_first_pos(s, id);
    assert(s.len() == cs.len());
    assert forall|k: int|
        0 <= k < cs.len() && (concept_pos(cs, id) < 0 || k < concept_pos(cs, id)) implies cs[k].id
        != id by {
        assert(s[k] == cs[k].id);
    }
    if concept_pos(cs, id) >= 0 {
        assert(s[concept_pos(cs, id)] == cs[concept_pos(cs, id)].id);
    }
}

/// Facts about the first position of a task.
pub proof fn lemma_task_pos(ts: Seq<Task>, id: TaskId)
    ensures
        -1 <= task_pos(ts, id) < ts.len(),
        task_pos(ts, id) >= 0 ==> ts[task_pos(ts, id)].id == id,
        forall|k: int|
            0 <= k < ts.len() && (task_pos(ts, id) < 0 || k < task_pos(ts, id)) ==> ts[k].id != id,
        task_pos(ts, id) < 0 ==> forall|k: int| 0 <= k < ts.len() ==> ts[k].id != id,
{
    let s = tids(ts);
    lemma_first_pos(s, id);
    assert(s.len() == ts.len());
    assert forall|k: int|
        0 <= k < ts.len() && (task_pos(ts, id) < 0 || k < task_pos(ts, id)) implies ts[k].id
        != id by {
        assert(s[k] == ts[k].id);
    }
    if task_pos(ts, id) >= 0 {
        assert(s[task_pos(ts, id)] == ts[task_pos(ts, id)].id);
    }
}

/// A concept found by position, when present.
pub open spec fn lookup_concept(cs: Seq<Concept>, id: ConceptId) -> Option<Concept> {
    if concept_pos(cs, id) >= 0 {
        Some(cs[concept_pos(cs, id)])
    } else {
        None
    }
}

/// The parent of the concept `id`, when the concept exists and has one.
pub open spec fn parent_of(cs: Seq<Concept>, id: ConceptId) -> Option<ConceptId> {
    match lookup_concept(cs, id) {
        Some(c) => c.parent,
        None => None,
    }
}

/// Largest concept identifier number, or 0.
pub open spec fn max_concept_id(cs: Seq<Concept>) -> nat
    decreases cs.len(),
{
    if cs.len() == 0 {
        0
    } else {
        let m = max_concept_id(cs.drop_last());
        if cs.last().id.0 > m {
            cs.last().id.0 as nat
        } else {
            m
        }
    }
}

/// Largest task identifier number, or 0.
pub open spec fn max_task_id(ts: Seq<Task>) -> nat
    decreases ts.len(),
{
    if ts.len() == 0 {
        0
    } else {
        let m = max_task_id(ts.drop_last());
        if ts.last().id.0 > m {
            ts.last().id.0 as nat
        } else {
            m
        }
    }
}

/// `s` without every occurrence of `x`, order kept.
pub open spec fn without_task(s: Seq<TaskId>, x: TaskId) -> Seq<TaskId> {
    s.filter(|d: TaskId| d != x)
}

/// `without_task` on a one-longer prefix.
pub proof fn lemma_without_task_step(s: Seq<TaskId>, j: int, x: TaskId)
    requires
        0 <= j < s.len(),
    ensures
        without_task(s.take(j + 1), x) == if s[j] != x {
            without_task(s.take(j), x).push(s[j])
        } else {
            without_task(s.take(j), x)
        },
{
    let t = s.take(j + 1);
    assert(t.drop_last() =~= s.take(j));
    assert(t.last() == s[j]);
    reveal_with_fuel(Seq::filter, 2);
}

/// A task kept by `tasks_without` is a task of the list it was given.
pub proof fn lemma_tasks_without_sub(ts: Seq<Task>, id: TaskId, j: int)
    requires
        0 <= j < tasks_without(ts, id).len(),
    ensures
        exists|k: int| 0 <= k < ts.len() && ts[k] == tasks_without(ts, id)[j],
    decreases ts.len(),
{
    reveal_with_fuel(Seq::filter, 1);
    if ts.len() > 0 {
        let sub = tasks_without(ts.drop_last(), id);
        assert(tasks_without(ts, id) == if ts.last().id != id { sub.push(ts.last()) } else { sub });
        if j < sub.len() {
            lemma_tasks_without_sub(ts.drop_last(), id, j);
            let k = choose|k: int| 0 <= k < ts.drop_last().len() && ts.drop_last()[k] == sub[j];
            assert(ts[k] == tasks_without(ts, id)[j]);
        } else {
            assert(ts[ts.len() - 1] == tasks_without(ts, id)[j]);
        }
    } else {
        assert(tasks_without(ts, id) == ts);
    }
}

/// What `without_task` keeps is in the given list and is not `x`.
pub proof fn lemma_without_task_sub(s: Seq<TaskId>, x: TaskId, d: TaskId)
    requires
        without_task(s, x).contains(d),
    ensures
        s.contains(d),
        d != x,
    decreases s.len(),
{
    reveal_with_fuel(Seq::filter, 1);
    if s.len() > 0 {
        let sub = without_task(s.drop_last(), x);
        assert(without_task(s, x) == if s.last() != x { sub.push(s.last()) } else { sub });
        let w = choose|w: int| 0 <= w < without_task(s, x).len() && without_task(s, x)[w] == d;
        if w < sub.len() {
            assert(sub[w] == d);
            lemma_without_task_sub(s.drop_last(), x, d);
            let k = choose|k: int| 0 <= k < s.drop_last().len() && s.drop_last()[k] == d;
            assert(s[k] == d);
        } else {
            assert(s[s.len() - 1] == d);
        }
    } else {
        assert(without_task(s, x) == s);
    }
}

/// `v` without every occurrence of `x`, order kept.
pub fn retain_task_ne(v: &mut Vec<TaskId>, x: TaskId)
    ensures
        final(v)@ == without_task(old(v)@, x),
{
    let ghost o = old(v)@;
    let mut i: usize = 0;
    let mut j: usize = 0;
    assert(o.len() == v.len());
    while i < v.len()
        invariant
            j <= o.len(),
            o.len() <= usize::MAX,
            i <= v@.len(),
            v@ == without_task(o.take(j as int), x) + o.skip(j as int),
            i == without_task(o.take(j as int), x).len(),
        decreases v@.len() - i,
    {
        proof {
            lemma_without_task_step(o, j as int, x);
        }
        assert(v@.len() == i + (o.len() - j));
        assert(j < o.len());
        assert(v@[i as int] == o[j as int]);
        if v[i] == x {
            v.remove(i);
            assert(v@ =~= without_task(o.take(j + 1), x) + o.skip(j + 1));
        } else {
            i += 1;
            assert(v@ =~= without_task(o.take(j + 1), x) + o.skip(j + 1));
        }
        j += 1;
    }
    assert(j == o.len());
    assert(o.take(j as int) =~= o);
    assert(v@ =~= without_task(o, x));
}

/// `s` without every occurrence of `x`, order kept.
pub open spec fn without_concept(s: Seq<ConceptId>, x: ConceptId) -> Seq<ConceptId> {
    s.filter(|d: ConceptId| d != x)
}

/// `without_concept` on a one-longer prefix.
pub proof fn lemma_without_concept_step(s: Seq<ConceptId>, j: int, x: ConceptId)
    requires
        0 <= j < s.len(),
    ensures
        without_concept(s.take(j + 1), x) == if s[j] != x {
            without_concept(s.take(j), x).push(s[j])
        } else {
            without_concept(s.take(j), x)
        },
{
    let t = s.take(j + 1);
    assert(t.drop_last() =~= s.take(j));
    assert(t.last() == s[j]);
    reveal_with_fuel(Seq::filter, 2);
}

/// `v` without every occurrence of `x`, order kept.
pub fn retain_concept_ne(v: &mut Vec<ConceptId>, x: ConceptId)
    ensures
        final(v)@ == without_concept(old(v)@, x),
{
    let ghost o = old(v)@;
    let mut i: usize = 0;
    let mut j: usize = 0;
    assert(o.len() == v.len());
    while i < v.len()
        invariant
            j <= o.len(),
            o.len() <= usize::MAX,
            i <= v@.len(),
            v@ == without_concept(o.take(j as int), x) + o.skip(j as int),
            i == without_concept(o.take(j as int), x).len(),
        decreases v@.len() - i,
    {
        proof {
            lemma_without_concept_step(o, j as int, x);
        }
        assert(v@.len() == i + (o.len() - j));
        assert(j < o.len());
        assert(v@[i as int] == o[j as int]);
        if v[i] == x {
            v.remove(i);
            assert(v@ =~= without_concept(o.take(j + 1), x) + o.skip(j + 1));
        } else {
            i += 1;
            assert(v@ =~= without_concept(o.take(j + 1), x) + o.skip(j + 1));
        }
        j += 1;
    }
    assert(j == o.len());
    assert(o.take(j as int) =~= o);
    assert(v@ =~= without_concept(o, x));
}

/// Whether `v` holds `x`.
pub fn contains_task(v: &Vec<TaskId>, x: TaskId) -> (r: bool)
    ensures
        r == v@.contains(x),
{
    let mut i: usize = 0;
    while i < v.len()
        invariant
            i <= v@.len(),
            forall|k: int| 0 <= k < i ==> v@[k] != x,
        decreases v@.len() - i,
    {
        if v[i] == x {
            return true;
        }
        i += 1;
    }
    false
}

/// Whether `v` holds `x`.
pub fn contains_concept(v: &Vec<ConceptId>, x: ConceptId) -> (r: bool)
    ensures
        r == v@.contains(x),
{
    let mut i: usize = 0;
    while i < v.len()
        invariant
            i <= v@.len(),
            forall|k: int| 0 <= k < i ==> v@[k] != x,
        decreases v@.len() - i,
    {
        if v[i] == x {
            return true;
        }
        i += 1;
    }
    false
}

/// Where to place a concept among its target parent's children when moving
/// it. The target parent is the anchor sibling's parent.
#[derive(Debug, Clone, Copy)]
pub enum Placement {
    /// Immediately before the anchor sibling.
    Before(ConceptId),
    /// Immediately after the anchor sibling.
    After(ConceptId),
}

impl Placement {
    /// The anchor sibling the placement is relative to.
    pub fn anchor(&self) -> (a: ConceptId)
        ensures
            a == placement_anchor(*self),
    {
        match self {
            Placement::Before(a) => *a,
            Placement::After(a) => *a,
        }
    }
}

/// The anchor of a placement.
pub open spec fn placement_anchor(p: Placement) -> ConceptId {
    match p {
        Placement::Before(a) => a,
        Placement::After(a) => a,
    }
}

/// `cs` without every concept whose identifier is `id`, order kept.
pub open spec fn concepts_without(cs: Seq<Concept>, id: ConceptId) -> Seq<Concept> {
    cs.filter(|c: Concept| c.id != id)
}

/// `ts` without every task whose identifier is `id`, order kept.
pub open spec fn tasks_without(ts: Seq<Task>, id: TaskId) -> Seq<Task> {
    ts.filter(|t: Task| t.id != id)
}

/// The concepts whose parent is `id`, in array order.
pub open spec fn children_spec(cs: Seq<Concept>, id: ConceptId) -> Seq<Concept> {
    cs.filter(|c: Concept| c.parent == Some(id))
}

/// The concepts without a parent, in array order.
pub open spec fn roots_spec(cs: Seq<Concept>) -> Seq<Concept> {
    cs.filter(|c: Concept| c.parent is None)
}

/// The tasks linked to concept `id`, in array order.
pub open spec fn tasks_linked_to(ts: Seq<Task>, id: ConceptId) -> Seq<Task> {
    ts.filter(|t: Task| t.concepts@.contains(id))
}

/// `a` equals `b` except, possibly, for the dependency list.
pub open spec fn same_but_deps(a: Task, b: Task) -> bool {
    &&& a.id == b.id
    &&& a.name == b.name
    &&& a.description == b.description
    &&& a.duration == b.duration
    &&& a.state == b.state
    &&& a.due == b.due
    &&& a.concepts == b.concepts
}

/// `a` equals `b` except, possibly, for the concept links.
pub open spec fn same_but_links(a: Task, b: Task) -> bool {
    &&& a.id == b.id
    &&& a.name == b.name
    &&& a.description == b.description
    &&& a.duration == b.duration
    &&& a.state == b.state
    &&& a.due == b.due
    &&& a.depends_on == b.depends_on
}

/// `concepts_without` on a one-longer prefix.
proof fn lemma_concepts_without_step(s: Seq<Concept>, j: int, id: ConceptId)
    requires
        0 <= j < s.len(),
    ensures
        concepts_without(s.take(j + 1), id) == if s[j].id != id {
            concepts_without(s.take(j), id).push(s[j])
        } else {
            concepts_without(s.take(j), id)
        },
{
    let t = s.take(j + 1);
    assert(t.drop_last() =~= s.take(j));
    assert(t.last() == s[j]);
    reveal_with_fuel(Seq::filter, 2);
}

/// `tasks_without` on a one-longer prefix.
proof fn lemma_tasks_without_step(s: Seq<Task>, j: int, id: TaskId)
    requires
        0 <= j < s.len(),
    ensures
        tasks_without(s.take(j + 1), id) == if s[j].id != id {
            tasks_without(s.take(j), id).push(s[j])
        } else {
            tasks_without(s.take(j), id)
        },
{
    let t = s.take(j + 1);
    assert(t.drop_last() =~= s.take(j));
    assert(t.last() == s[j]);
    reveal_with_fuel(Seq::filter, 2);
}

/// Keeps only the concepts whose identifier is not `id`.
fn retain_concepts_not(v: &mut Vec<Concept>, id: ConceptId)
    ensures
        final(v)@ == concepts_without(old(v)@, id),
{
    let ghost o = old(v)@;
    let mut i: usize = 0;
    let mut j: usize = 0;
    assert(o.len() == v.len());
    while i < v.len()
        invariant
            j <= o.len(),
            o.len() <= usize::MAX,
            i <= v@.len(),
            v@ == concepts_without(o.take(j as int), id) + o.skip(j as int),
            i == concepts_without(o.take(j as int), id).len(),
        decreases v@.len() - i,
    {
        proof {
            lemma_concepts_without_step(o, j as int, id);
        }
        assert(v@.len() == i + (o.len() - j));
        assert(j < o.len());
        assert(v@[i as int] == o[j as int]);
        if v[i].id == id {
            v.remove(i);
            assert(v@ =~= concepts_without(o.take(j + 1), id) + o.skip(j + 1));
        } else {
            i += 1;
            assert(v@ =~= concepts_without(o.take(j + 1), id) + o.skip(j + 1));
        }
        j += 1;
    }
    assert(o.take(j as int) =~= o);
    assert(v@ =~= concepts_without(o, id));
}

/// Keeps only the tasks whose identifier is not `id`.
fn retain_tasks_not(v: &mut Vec<Task>, id: TaskId)
    ensures
        final(v)@ == tasks_without(old(v)@, id),
{
    let ghost o = old(v)@;
    let mut i: usize = 0;
    let mut j: usize = 0;
    assert(o.len() == v.len());
    while i < v.len()
        invariant
            j <= o.len(),
            o.len() <= usize::MAX,
            i <= v@.len(),
            v@ == tasks_without(o.take(j as int), id) + o.skip(j as int),
            i == tasks_without(o.take(j as int), id).len(),
        decreases v@.len() - i,
    {
        proof {
            lemma_tasks_without_step(o, j as int, id);
        }
        assert(v@.len() == i + (o.len() - j));
        assert(j < o.len());
        assert(v@[i as int] == o[j as int]);
        if v[i].id == id {
            v.remove(i);
            assert(v@ =~= tasks_without(o.take(j + 1), id) + o.skip(j + 1));
        } else {
            i += 1;
            assert(v@ =~= tasks_without(o.take(j + 1), id) + o.skip(j + 1));
        }
        j += 1;
    }
    assert(o.take(j as int) =~= o);
    assert(v@ =~= tasks_without(o, id));
}

/// Identifiers of the children of `id`, in array order.
pub open spec fn child_ids(cs: Seq<Concept>, id: ConceptId) -> Seq<ConceptId> {
    cids(children_spec(cs, id))
}

/// Identifiers of the roots, in array order.
pub open spec fn root_ids(cs: Seq<Concept>) -> Seq<ConceptId> {
    cids(roots_spec(cs))
}

/// One step of the pre-order walk: pop the top identifier; unless it was
/// already output, output it and push its children so they pop in array order.
pub open spec fn dfs_step(cs: Seq<Concept>, stack: Seq<ConceptId>, out: Seq<ConceptId>) -> (Seq<ConceptId>, Seq<ConceptId>) {
    let id = stack.last();
    let rest = stack.drop_last();
    if out.contains(id) {
        (rest, out)
    } else {
        (rest + child_ids(cs, id).reverse(), out.push(id))
    }
}

/// The pre-order walk run for at most `fuel` steps or until the stack empties.
pub open spec fn dfs_run(cs: Seq<Concept>, stack: Seq<ConceptId>, out: Seq<ConceptId>, fuel: nat) -> Seq<ConceptId>
    decreases fuel,
{
    if fuel == 0 || stack.len() == 0 {
        out
    } else {
        let (s2, o2) = dfs_step(cs, stack, out);
        dfs_run(cs, s2, o2, (fuel - 1) as nat)
    }
}

/// A step budget larger than any walk over `cs` needs.
pub open spec fn dfs_fuel(cs: Seq<Concept>) -> nat {
    ((cs.len() + 1) * (cs.len() + 1) + cs.len() + 1) as nat
}

/// Concept IDs in DFS pre-order: roots in array order, each followed by its
/// subtree (children in array order); an identifier is output only once.
pub open spec fn dfs_preorder_spec(cs: Seq<Concept>) -> Seq<ConceptId> {
    dfs_run(cs, root_ids(cs).reverse(), Seq::empty(), dfs_fuel(cs))
}

/// The walk's progress measure.
pub open spec fn dfs_measure(n: nat, stack: Seq<ConceptId>, out: Seq<ConceptId>) -> int {
    (n + 1 - out.len()) * (n + 1) + stack.len()
}

/// Running one step and then the rest is running the rest from the stepped state.
proof fn lemma_dfs_run_step(cs: Seq<Concept>, stack: Seq<ConceptId>, out: Seq<ConceptId>, fuel: nat)
    requires
        fuel > 0,
        stack.len() > 0,
    ensures
        dfs_run(cs, stack, out, fuel) == dfs_run(cs, dfs_step(cs, stack, out).0, dfs_step(cs, stack, out).1, (fuel - 1) as nat),
{
}

/// A filter result is a subsequence, hence no longer.
pub proof fn lemma_filter_len<A>(s: Seq<A>, f: spec_fn(A) -> bool)
    ensures
        s.filter(f).len() <= s.len(),
    decreases s.len(),
{
    reveal_with_fuel(Seq::filter, 1);
    if s.len() > 0 {
        lemma_filter_len(s.drop_last(), f);
    }
}

/// Every element of a filter result occurs in the filtered sequence.
pub proof fn lemma_filter_in<A>(s: Seq<A>, f: spec_fn(A) -> bool)
    ensures
        forall|i: int| 0 <= i < s.filter(f).len() ==> s.contains(#[trigger] s.filter(f)[i]) && f(s.filter(f)[i]),
    decreases s.len(),
{
    reveal_with_fuel(Seq::filter, 1);
    if s.len() > 0 {
        lemma_filter_in(s.drop_last(), f);
        let sub = s.drop_last().filter(f);
        assert forall|i: int| 0 <= i < s.filter(f).len() implies s.contains(#[trigger] s.filter(f)[i]) && f(s.filter(f)[i]) by {
            if i < sub.len() {
                assert(s.drop_last().contains(sub[i]));
                let k = choose|k: int| 0 <= k < s.drop_last().len() && s.drop_last()[k] == sub[i];
                assert(s[k] == sub[i]);
            } else {
                assert(s[s.len() - 1] == s.last());
            }
        }
    }
}

/// Children and root identifiers are identifiers of concepts in the list.
pub proof fn lemma_child_ids_in(cs: Seq<Concept>, id: ConceptId)
    ensures
        child_ids(cs, id).len() <= cs.len(),
        forall|i: int| 0 <= i < child_ids(cs, id).len() ==> cids(cs).contains(#[trigger] child_ids(cs, id)[i]),
        root_ids(cs).len() <= cs.len(),
        forall|i: int| 0 <= i < root_ids(cs).len() ==> cids(cs).contains(#[trigger] root_ids(cs)[i]),
{
    let f = |c: Concept| c.parent == Some(id);
    let g = |c: Concept| c.parent is None;
    lemma_filter_len(cs, f);
    lemma_filter_in(cs, f);
    lemma_filter_len(cs, g);
    lemma_filter_in(cs, g);
    assert forall|i: int| 0 <= i < child_ids(cs, id).len() implies cids(cs).contains(#[trigger] child_ids(cs, id)[i]) by {
        let c = children_spec(cs, id)[i];
        assert(cs.contains(c));
        let k = choose|k: int| 0 <= k < cs.len() && cs[k] == c;
        assert(cids(cs)[k] == c.id);
    }
    assert forall|i: int| 0 <= i < root_ids(cs).len() implies cids(cs).contains(#[trigger] root_ids(cs)[i]) by {
        let c = roots_spec(cs)[i];
        assert(cs.contains(c));
        let k = choose|k: int| 0 <= k < cs.len() && cs[k] == c;
        assert(cids(cs)[k] == c.id);
    }
}

/// A planned renumbering of concept IDs: `(old_id, new_id)` pairs ordered by
/// the new ID `1..=n`, i.e. DFS pre-order.
#[derive(Debug, Clone)]
pub struct Renumbering {
    /// `(old_id, new_id)` for every concept, in new-ID order.
    pub pairs: Vec<(ConceptId, ConceptId)>,
}

impl Renumbering {
    /// True when every concept already holds its canonical ID.
    pub fn is_identity(&self) -> (r: bool)
        ensures
            r == forall|i: int| 0 <= i < self.pairs@.len() ==> (#[trigger] self.pairs@[i]).0 == self.pairs@[i].1,
    {
        let mut i: usize = 0;
        while i < self.pairs.len()
            invariant
                i <= self.pairs@.len(),
                forall|k: int| 0 <= k < i ==> (#[trigger] self.pairs@[k]).0 == self.pairs@[k].1,
            decreases self.pairs@.len() - i,
        {
            if self.pairs[i].0 != self.pairs[i].1 {
                return false;
            }
            i += 1;
        }
        true
    }

    /// The pairs that give a concept a different identifier, in order.
    pub fn changed_pairs(&self) -> (r: Vec<(ConceptId, ConceptId)>)
        ensures
            r@ == moved_pairs(self.pairs@),
    {
        let mut out: Vec<(ConceptId, ConceptId)> = Vec::new();
        let mut i: usize = 0;
        while i < self.pairs.len()
            invariant
                i <= self.pairs@.len(),
                out@ == moved_pairs(self.pairs@.take(i as int)),
            decreases self.pairs@.len() - i,
        {
            assert(self.pairs@.take(i + 1).drop_last() =~= self.pairs@.take(i as int));
            assert(self.pairs@.take(i + 1).last() == self.pairs@[i as int]);
            let p = self.pairs[i];
            if p.0.0 != p.1.0 {
                out.push(p);
            }
            i += 1;
        }
        assert(self.pairs@.take(i as int) =~= self.pairs@);
        out
    }
}

/// The pairs of `ps` whose two identifiers differ, in order.
pub open spec fn moved_pairs(ps: Seq<(ConceptId, ConceptId)>) -> Seq<(ConceptId, ConceptId)>
    decreases ps.len(),
{
    if ps.len() == 0 {
        Seq::empty()
    } else if ps.last().0 != ps.last().1 {
        moved_pairs(ps.drop_last()).push(ps.last())
    } else {
        moved_pairs(ps.drop_last())
    }
}

/// The renumbering that gives the `k`-th identifier of `order` the number `k + 1`.
pub open spec fn renumber_pairs(order: Seq<ConceptId>) -> Seq<(ConceptId, ConceptId)> {
    Seq::new(order.len(), |k: int| (order[k], ConceptId((k + 1) as u64)))
}

/// The new identifier the renumbering gives `x`: the pair for `x` that comes
/// last, or `None` when no pair renames `x`.
pub open spec fn renamed(pairs: Seq<(ConceptId, ConceptId)>, x: ConceptId) -> Option<ConceptId> {
    let k = last_pos(pairs.map_values(|p: (ConceptId, ConceptId)| p.0), x);
    if k >= 0 {
        Some(pairs[k].1)
    } else {
        None
    }
}

/// `ns` is `cs` renumbered by `pairs`: the concept of each pair, in pair
/// order, with its new identifier and its parent renamed.
pub open spec fn renumbered(cs: Seq<Concept>, pairs: Seq<(ConceptId, ConceptId)>, ns: Seq<Concept>) -> bool {
    &&& ns.len() == pairs.len()
    &&& forall|k: int| 0 <= k < pairs.len() ==> {
        let c = cs[concept_pos(cs, pairs[k].0)];
        &&& (#[trigger] ns[k]).id == pairs[k].1
        &&& ns[k].parent == match c.parent {
            Some(pp) => renamed(pairs, pp),
            None => None,
        }
    }
}

/// `ns` is what applying `pairs` to `cs` gives: the concept of each pair,
/// in pair order, under its new identifier, with its name and description,
/// and with its parent renamed.
pub open spec fn applied_concepts(cs: Seq<Concept>, pairs: Seq<(ConceptId, ConceptId)>, ns: Seq<Concept>) -> bool {
    &&& ns.len() == pairs.len()
    &&& forall|k: int| 0 <= k < pairs.len() ==> {
        let c = cs[concept_pos(cs, pairs[k].0)];
        &&& (#[trigger] ns[k]).id == pairs[k].1
        &&& ns[k].name == c.name
        &&& ns[k].description == c.description
        &&& ns[k].parent == match c.parent {
            Some(pp) => renamed(pairs, pp),
            None => None,
        }
    }
}

/// A link `x` after renumbering: renamed when a pair renames it, else kept.
pub open spec fn relink(pairs: Seq<(ConceptId, ConceptId)>, x: ConceptId) -> ConceptId {
    match renamed(pairs, x) {
        Some(y) => y,
        None => x,
    }
}

/// The largest task number depends only on the identifiers.
proof fn lemma_max_task_id_ids(a: Seq<Task>, b: Seq<Task>)
    requires
        a.len() == b.len(),
        forall|i: int| 0 <= i < a.len() ==> (#[trigger] a[i]).id == b[i].id,
    ensures
        max_task_id(a) == max_task_id(b),
    decreases a.len(),
{
    if a.len() > 0 {
        lemma_max_task_id_ids(a.drop_last(), b.drop_last());
    }
}

/// The identifiers of `ids`, each once, in order of first occurrence.
pub open spec fn dedup_ids(ids: Seq<ConceptId>) -> Seq<ConceptId>
    decreases ids.len(),
{
    if ids.len() == 0 {
        Seq::empty()
    } else {
        let d = dedup_ids(ids.drop_last());
        if d.contains(ids.last()) {
            d
        } else {
            d.push(ids.last())
        }
    }
}

/// The first of `ids` that names no concept of `cs`, if any.
pub open spec fn first_missing(cs: Seq<Concept>, ids: Seq<ConceptId>) -> Option<ConceptId>
    decreases ids.len(),
{
    if ids.len() == 0 {
        None
    } else {
        match first_missing(cs, ids.drop_last()) {
            Some(x) => Some(x),
            None => if has_concept(cs, ids.last()) {
                None
            } else {
                Some(ids.last())
            },
        }
    }
}

/// Once a prefix holds a missing identifier, it is the first one of the whole list.
proof fn lemma_first_missing_prefix(cs: Seq<Concept>, ids: Seq<ConceptId>, j: int)
    requires
        0 <= j <= ids.len(),
        first_missing(cs, ids.take(j)) is Some,
    ensures
        first_missing(cs, ids) == first_missing(cs, ids.take(j)),
    decreases ids.len() - j,
{
    if j < ids.len() {
        assert(ids.take(j + 1).drop_last() =~= ids.take(j));
        lemma_first_missing_prefix(cs, ids, j + 1);
    } else {
        assert(ids.take(j) =~= ids);
    }
}

/// Root container holding all concepts, tasks, and project metadata.
///
/// The ID counters are not persisted; they are recomputed from the data by
/// `recompute_next_ids`.
#[derive(Debug, Clone)]
pub struct Project {
    /// Schema version number.
    pub version: u32,
    /// Default IANA timezone for due-date parsing.
    pub timezone: Option<String>,
    /// Column width used to wrap descriptions; `None` follows the terminal.
    pub wrap_width: Option<u32>,
    /// All concepts in the project.
    pub concepts: Vec<Concept>,
    /// All tasks in the project.
    pub tasks: Vec<Task>,
    /// Next available concept ID.
    pub next_concept_id: u64,
    /// Next available task ID.
    pub next_task_id: u64,
}

/// `b` has the format version, timezone and wrap width of `a`.
pub open spec fn keeps_settings(a: Project, b: Project) -> bool {
    &&& b.version == a.version
    &&& b.timezone == a.timezone
    &&& b.wrap_width == a.wrap_width
}

impl Project {
    /// Create an empty project with version 1.
    pub fn new() -> (p: Project)
        ensures
            p.version == 1,
            p.timezone is None,
            p.wrap_width is None,
            p.concepts@.len() == 0,
            p.tasks@.len() == 0,
            p.next_concept_id == 1,
            p.next_task_id == 1,
    {
        Project {
            version: 1,
            timezone: None,
            wrap_width: None,
            concepts: Vec::new(),
            tasks: Vec::new(),
            next_concept_id: 1,
            next_task_id: 1,
        }
    }

    /// The project timezone name, falling back to `UTC`.
    pub fn timezone_or_utc(&self) -> (s: &str)
        ensures
            s@ == match self.timezone {
                Some(t) => t@,
                None => "UTC"@,
            },
    {
        match &self.timezone {
            Some(t) => t.as_str(),
            None => "UTC",
        }
    }

    /// Recompute the next IDs from the existing concepts and tasks.
    pub fn recompute_next_ids(&mut self)
        requires
            forall|i: int| 0 <= i < old(self).concepts@.len() ==> old(self).concepts@[i].id.0 < u64::MAX,
            forall|i: int| 0 <= i < old(self).tasks@.len() ==> old(self).tasks@[i].id.0 < u64::MAX,
        ensures
            final(self).next_concept_id == max_concept_id(old(self).concepts@) + 1,
            final(self).next_task_id == max_task_id(old(self).tasks@) + 1,
            final(self).concepts == old(self).concepts,
            final(self).tasks == old(self).tasks,
            final(self).version == old(self).version,
            final(self).timezone == old(self).timezone,
            final(self).wrap_width == old(self).wrap_width,
    {
        let mut mc: u64 = 0;
        let mut i: usize = 0;
        while i < self.concepts.len()
            invariant
                i <= self.concepts@.len(),
                mc == max_concept_id(self.concepts@.take(i as int)),
                forall|k: int| 0 <= k < self.concepts@.len() ==> self.concepts@[k].id.0 < u64::MAX,
                mc < u64::MAX,
            decreases self.concepts@.len() - i,
        {
            assert(self.concepts@.take(i + 1).drop_last() =~= self.concepts@.take(i as int));
            if self.concepts[i].id.0 > mc {
                mc = self.concepts[i].id.0;
            }
            i += 1;
        }
        assert(self.concepts@.take(i as int) =~= self.concepts@);
        let mut mt: u64 = 0;
        let mut j: usize = 0;
        while j < self.tasks.len()
            invariant
                j <= self.tasks@.len(),
                mt == max_task_id(self.tasks@.take(j as int)),
                forall|k: int| 0 <= k < self.tasks@.len() ==> self.tasks@[k].id.0 < u64::MAX,
                mt < u64::MAX,
            decreases self.tasks@.len() - j,
        {
            assert(self.tasks@.take(j + 1).drop_last() =~= self.tasks@.take(j as int));
            if self.tasks[j].id.0 > mt {
                mt = self.tasks[j].id.0;
            }
            j += 1;
        }
        assert(self.tasks@.take(j as int) =~= self.tasks@);
        self.next_concept_id = mc + 1;
        self.next_task_id = mt + 1;
    }

    /// Allocate and return the next unused concept ID.
    pub fn allocate_concept_id(&mut self) -> (id: ConceptId)
        requires
            old(self).next_concept_id < u64::MAX,
        ensures
            id.0 == old(self).next_concept_id,
            final(self).next_concept_id == old(self).next_concept_id + 1,
            final(self).concepts == old(self).concepts,
            final(self).tasks == old(self).tasks,
            final(self).next_task_id == old(self).next_task_id,
            final(self).version == old(self).version,
            final(self).timezone == old(self).timezone,
            final(self).wrap_width == old(self).wrap_width,
    {
        let id = ConceptId(self.next_concept_id);
        self.next_concept_id = self.next_concept_id + 1;
        id
    }

    /// Allocate and return the next unused task ID.
    pub fn allocate_task_id(&mut self) -> (id: TaskId)
        requires
            old(self).next_task_id < u64::MAX,
        ensures
            id.0 == old(self).next_task_id,
            final(self).next_task_id == old(self).next_task_id + 1,
            final(self).concepts == old(self).concepts,
            final(self).tasks == old(self).tasks,
            final(self).next_concept_id == old(self).next_concept_id,
            final(self).version == old(self).version,
            final(self).timezone == old(self).timezone,
            final(self).wrap_width == old(self).wrap_width,
    {
        let id = TaskId(self.next_task_id);
        self.next_task_id = self.next_task_id + 1;
        id
    }

    /// Position of the first concept with identifier `id`.
    pub fn find_concept(&self, id: ConceptId) -> (r: Option<usize>)
        ensures
            match r {
                Some(i) => i == concept_pos(self.concepts@, id),
                None => concept_pos(self.concepts@, id) < 0,
            },
    {
        let mut i: usize = 0;
        while i < self.concepts.len()
            invariant
                i <= self.concepts@.len(),
                first_pos(cids(self.concepts@).take(i as int), id) < 0,
            decreases self.concepts@.len() - i,
        {
            proof {
                lemma_first_pos_step(cids(self.concepts@), i as int, id);
            }
            if self.concepts[i].id == id {
                proof {
                    lemma_first_pos_prefix(cids(self.concepts@), i + 1, id);
                }
                return Some(i);
            }
            i += 1;
        }
        assert(cids(self.concepts@).take(i as int) =~= cids(self.concepts@));
        None
    }

    /// Position of the first task with identifier `id`.
    pub fn find_task(&self, id: TaskId) -> (r: Option<usize>)
        ensures
            match r {
                Some(i) => i == task_pos(self.tasks@, id),
                None => task_pos(self.tasks@, id) < 0,
            },
    {
        let mut i: usize = 0;
        while i < self.tasks.len()
            invariant
                i <= self.tasks@.len(),
                first_pos(tids(self.tasks@).take(i as int), id) < 0,
            decreases self.tasks@.len() - i,
        {
            proof {
                lemma_first_pos_step(tids(self.tasks@), i as int, id);
            }
            if self.tasks[i].id == id {
                proof {
                    lemma_first_pos_prefix(tids(self.tasks@), i + 1, id);
                }
                return Some(i);
            }
            i += 1;
        }
        assert(tids(self.tasks@).take(i as int) =~= tids(self.tasks@));
        None
    }

    /// Look up a concept by ID (the first one holding it).
    pub fn get_concept(&self, id: ConceptId) -> (r: Option<&Concept>)
        ensures
            match r {
                Some(c) => lookup_concept(self.concepts@, id) == Some(*c),
                None => lookup_concept(self.concepts@, id) is None,
            },
    {
        proof {
            lemma_concept_pos(self.concepts@, id);
        }
        match self.find_concept(id) {
            Some(i) => Some(&self.concepts[i]),
            None => None,
        }
    }

    /// Look up a task by ID (the first one holding it).
    pub fn get_task(&self, id: TaskId) -> (r: Option<&Task>)
        ensures
            match r {
                Some(t) => task_pos(self.tasks@, id) >= 0 && *t == self.tasks@[task_pos(self.tasks@, id)],
                None => task_pos(self.tasks@, id) < 0,
            },
    {
        proof {
            lemma_task_pos(self.tasks@, id);
        }
        match self.find_task(id) {
            Some(i) => Some(&self.tasks[i]),
            None => None,
        }
    }

    /// Update a task's workflow state.
    pub fn set_task_state(&mut self, id: TaskId, state: TaskState) -> (r: Result<(), ProjectError>)
        ensures
            task_pos(old(self).tasks@, id) < 0 ==> (r matches Err(ProjectError::TaskNotFound(x))
                && x == id && *final(self) == *old(self)),
            task_pos(old(self).tasks@, id) >= 0 ==> r is Ok && final(self).tasks@ == old(self).tasks@.update(
                task_pos(old(self).tasks@, id),
                Task { state, ..old(self).tasks@[task_pos(old(self).tasks@, id)] },
            ) && final(self).concepts == old(self).concepts,
            deps_view(final(self).tasks@) == deps_view(old(self).tasks@),
            keeps_settings(*old(self), *final(self)),
            final(self).next_task_id == old(self).next_task_id,
            final(self).next_concept_id == old(self).next_concept_id,
    {
        proof {
            lemma_task_pos(self.tasks@, id);
        }
        match self.find_task(id) {
            Some(i) => {
                self.tasks[i].state = state;
                proof {
                    assert(deps_view(self.tasks@) =~= deps_view(old(self).tasks@));
                }
                Ok(())
            },
            None => Err(ProjectError::TaskNotFound(id)),
        }
    }
    /// Look up a task by ID for modification (the first one holding it).
    pub fn get_task_mut(&mut self, id: TaskId) -> (r: Option<&mut Task>)
        ensures
            match r {
                Some(t) => task_pos(old(self).tasks@, id) >= 0 && *t == old(self).tasks@[task_pos(
                    old(self).tasks@,
                    id,
                )] && final(self).tasks@ == old(self).tasks@.update(
                    task_pos(old(self).tasks@, id),
                    *final(t),
                ) && final(self).concepts == old(self).concepts && final(self).next_task_id == old(
                    self,
                ).next_task_id && final(self).next_concept_id == old(self).next_concept_id,
                None => task_pos(old(self).tasks@, id) < 0 && *final(self) == *old(self),
            },
            keeps_settings(*old(self), *final(self)),
            final(self).next_task_id == old(self).next_task_id,
            final(self).next_concept_id == old(self).next_concept_id,
    {
        proof {
            lemma_task_pos(self.tasks@, id);
        }
        match self.find_task(id) {
            Some(i) => Some(&mut self.tasks[i]),
            None => None,
        }
    }

    /// Update a task's due date (`None` clears it).
    pub fn set_task_due(&mut self, id: TaskId, due: Option<String>) -> (r: Result<(), ProjectError>)
        ensures
            task_pos(old(self).tasks@, id) < 0 ==> (r matches Err(ProjectError::TaskNotFound(x))
                && x == id && *final(self) == *old(self)),
            task_pos(old(self).tasks@, id) >= 0 ==> r is Ok && final(self).tasks@ == old(self).tasks@.update(
                task_pos(old(self).tasks@, id),
                Task { due, ..old(self).tasks@[task_pos(old(self).tasks@, id)] },
            ) && final(self).concepts == old(self).concepts,
            deps_view(final(self).tasks@) == deps_view(old(self).tasks@),
            keeps_settings(*old(self), *final(self)),
            final(self).next_task_id == old(self).next_task_id,
            final(self).next_concept_id == old(self).next_concept_id,
    {
        proof {
            lemma_task_pos(self.tasks@, id);
        }
        match self.find_task(id) {
            Some(i) => {
                self.tasks[i].due = due;
                proof {
                    assert(deps_view(self.tasks@) =~= deps_view(old(self).tasks@));
                }
                Ok(())
            },
            None => Err(ProjectError::TaskNotFound(id)),
        }
    }

    /// Edit a task's name, description and/or duration; `None` leaves a field as it is.
    pub fn edit_task(
        &mut self,
        id: TaskId,
        name: Option<String>,
        description: Option<Option<String>>,
        duration: Option<Option<u64>>,
    ) -> (r: Result<(), ProjectError>)
        ensures
            task_pos(old(self).tasks@, id) < 0 ==> (r matches Err(ProjectError::TaskNotFound(x))
                && x == id && *final(self) == *old(self)),
            task_pos(old(self).tasks@, id) >= 0 ==> ({
                let t = old(self).tasks@[task_pos(old(self).tasks@, id)];
                &&& r is Ok
                &&& final(self).tasks@ == old(self).tasks@.update(
                    task_pos(old(self).tasks@, id),
                    Task {
                        name: match name {
                            Some(n) => n,
                            None => t.name,
                        },
                        description: match description {
                            Some(d) => d,
                            None => t.description,
                        },
                        duration: match duration {
                            Some(d) => d,
                            None => t.duration,
                        },
                        ..t
                    },
                )
                &&& final(self).concepts == old(self).concepts
            }),
            deps_view(final(self).tasks@) == deps_view(old(self).tasks@),
            keeps_settings(*old(self), *final(self)),
            final(self).next_task_id == old(self).next_task_id,
            final(self).next_concept_id == old(self).next_concept_id,
    {
        proof {
            lemma_task_pos(self.tasks@, id);
        }
        match self.find_task(id) {
            Some(i) => {
                if let Some(n) = name {
                    self.tasks[i].name = n;
                }
                if let Some(d) = description {
                    self.tasks[i].description = d;
                }
                if let Some(d) = duration {
                    self.tasks[i].duration = d;
                }
                proof {
                    assert(deps_view(self.tasks@) =~= deps_view(old(self).tasks@));
                }
                Ok(())
            },
            None => Err(ProjectError::TaskNotFound(id)),
        }
    }

    /// Add a new task in state `Todo` with no dependencies or concepts.
    pub fn add_task(
        &mut self,
        name: String,
        description: Option<String>,
        duration: Option<u64>,
        due: Option<String>,
    ) -> (id: TaskId)
        requires
            old(self).next_task_id < u64::MAX,
        ensures
            id.0 == old(self).next_task_id,
            final(self).next_task_id == old(self).next_task_id + 1,
            final(self).tasks@.len() == old(self).tasks@.len() + 1,
            final(self).tasks@.drop_last() == old(self).tasks@,
            ({
                let t = final(self).tasks@.last();
                &&& t.id == id
                &&& t.name == name
                &&& t.description == description
                &&& t.duration == duration
                &&& t.state == TaskState::Todo
                &&& t.due == due
                &&& t.depends_on@.len() == 0
                &&& t.concepts@.len() == 0
            }),
            final(self).concepts == old(self).concepts,
            final(self).next_concept_id == old(self).next_concept_id,
            !has_task(old(self).tasks@, id) && !graph_has_cycle(task_edges(deps_view(old(self).tasks@))) ==> !graph_has_cycle(
                task_edges(deps_view(final(self).tasks@)),
            ),
            keeps_settings(*old(self), *final(self)),
            final(self).next_concept_id == old(self).next_concept_id,
    {
        let id = self.allocate_task_id();
        self.tasks.push(
            Task {
                id,
                name,
                description,
                duration,
                state: TaskState::Todo,
                due,
                depends_on: Vec::new(),
                concepts: Vec::new(),
            },
        );
        assert(self.tasks@.drop_last() =~= old(self).tasks@);
        proof {
            let ts = old(self).tasks@;
            if !has_task(ts, id) && !graph_has_cycle(task_edges(deps_view(ts))) {
                lemma_task_pos(ts, id);
                assert(view_ids(deps_view(ts)) =~= tids(ts));
                assert(!view_ids(deps_view(ts)).contains(id)) by {
                    if tids(ts).contains(id) {
                        let k = choose|k: int| 0 <= k < tids(ts).len() && tids(ts)[k] == id;
                        assert(ts[k].id == id);
                    }
                }
                assert(deps_view(self.tasks@) =~= deps_view(ts).push((id, Seq::<TaskId>::empty())));
                assert(self.tasks@.len() <= usize::MAX) by {
                    assert(self.tasks.len() == self.tasks@.len());
                }
                lemma_add_node_keeps_dag(deps_view(ts), id);
            }
        }
        id
    }

    /// Add a task linked to `concepts` (each once, in order). Every concept is
    /// checked first, so a missing one leaves the project unchanged.
    pub fn add_task_linked(
        &mut self,
        name: String,
        description: Option<String>,
        duration: Option<u64>,
        due: Option<String>,
        concepts: &[ConceptId],
    ) -> (r: Result<TaskId, ProjectError>)
        requires
            old(self).next_task_id < u64::MAX,
        ensures
            match first_missing(old(self).concepts@, concepts@) {
                Some(x) => r matches Err(ProjectError::ConceptNotFound(y)) && y == x && *final(self) == *old(self),
                None => r matches Ok(id) && {
                    let t = final(self).tasks@.last();
                    &&& id.0 == old(self).next_task_id
                    &&& final(self).next_task_id == old(self).next_task_id + 1
                    &&& final(self).tasks@.len() == old(self).tasks@.len() + 1
                    &&& final(self).tasks@.drop_last() == old(self).tasks@
                    &&& t.id == id
                    &&& t.name == name
                    &&& t.description == description
                    &&& t.duration == duration
                    &&& t.state == TaskState::Todo
                    &&& t.due == due
                    &&& t.depends_on@.len() == 0
                    &&& t.concepts@ == dedup_ids(concepts@)
                    &&& final(self).concepts == old(self).concepts
                    &&& final(self).next_concept_id == old(self).next_concept_id
                },
            },
            keeps_settings(*old(self), *final(self)),
            final(self).next_concept_id == old(self).next_concept_id,
    {
        let mut i: usize = 0;
        while i < concepts.len()
            invariant
                i <= concepts@.len(),
                first_missing(self.concepts@, concepts@.take(i as int)) is None,
            decreases concepts@.len() - i,
        {
            assert(concepts@.take(i + 1).drop_last() =~= concepts@.take(i as int));
            assert(concepts@.take(i + 1).last() == concepts@[i as int]);
            proof {
                lemma_concept_pos(self.concepts@, concepts@[i as int]);
            }
            if self.find_concept(concepts[i]).is_none() {
                proof {
                    lemma_first_missing_prefix(self.concepts@, concepts@, i + 1);
                }
                return Err(ProjectError::ConceptNotFound(concepts[i]));
            }
            i += 1;
        }
        assert(concepts@.take(i as int) =~= concepts@);
        let mut links: Vec<ConceptId> = Vec::new();
        let mut j: usize = 0;
        while j < concepts.len()
            invariant
                j <= concepts@.len(),
                links@ == dedup_ids(concepts@.take(j as int)),
            decreases concepts@.len() - j,
        {
            assert(concepts@.take(j + 1).drop_last() =~= concepts@.take(j as int));
            assert(concepts@.take(j + 1).last() == concepts@[j as int]);
            if !contains_concept(&links, concepts[j]) {
                links.push(concepts[j]);
            }
            j += 1;
        }
        assert(concepts@.take(j as int) =~= concepts@);
        let id = self.allocate_task_id();
        self.tasks.push(
            Task {
                id,
                name,
                description,
                duration,
                state: TaskState::Todo,
                due,
                depends_on: Vec::new(),
                concepts: links,
            },
        );
        assert(self.tasks@.drop_last() =~= old(self).tasks@);
        Ok(id)
    }

    /// Add a new concept. Fails when `parent` names no existing concept.
    pub fn add_concept(
        &mut self,
        name: String,
        parent: Option<ConceptId>,
        description: Option<String>,
    ) -> (r: Result<ConceptId, ProjectError>)
        requires
            old(self).next_concept_id < u64::MAX,
        ensures
            match parent {
                Some(pid) if !has_concept(old(self).concepts@, pid) => r matches Err(
                    ProjectError::ConceptNotFound(x),
                ) && x == pid && *final(self) == *old(self),
                _ => r matches Ok(id) && id.0 == old(self).next_concept_id
                    && final(self).next_concept_id == old(self).next_concept_id + 1
                    && final(self).concepts@ == old(self).concepts@.push(
                    Concept { id, name, description, parent },
                ) && final(self).tasks == old(self).tasks && final(self).next_task_id == old(
                    self,
                ).next_task_id,
            },
            r is Ok && tree_valid(old(self).concepts@) && !has_concept(old(self).concepts@, ConceptId(old(self).next_concept_id))
                ==> tree_valid(final(self).concepts@),
            keeps_settings(*old(self), *final(self)),
            final(self).next_task_id == old(self).next_task_id,
    {
        proof {
            if let Some(pid) = parent {
                lemma_concept_pos(self.concepts@, pid);
            }
        }
        if let Some(pid) = parent {
            if self.find_concept(pid).is_none() {
                return Err(ProjectError::ConceptNotFound(pid));
            }
        }
        let id = self.allocate_concept_id();
        let ghost before = self.concepts@;
        let c = Concept { id, name, description, parent };
        proof {
            if tree_valid(before) && !has_concept(before, id) {
                lemma_add_keeps_forest(before, c);
            }
        }
        self.concepts.push(c);
        Ok(id)
    }

    /// Edit a concept's name and/or description; `None` leaves a field as it is.
    pub fn edit_concept(
        &mut self,
        id: ConceptId,
        name: Option<String>,
        description: Option<Option<String>>,
    ) -> (r: Result<(), ProjectError>)
        ensures
            concept_pos(old(self).concepts@, id) < 0 ==> (r matches Err(
                ProjectError::ConceptNotFound(x),
            ) && x == id && *final(self) == *old(self)),
            concept_pos(old(self).concepts@, id) >= 0 ==> ({
                let c = old(self).concepts@[concept_pos(old(self).concepts@, id)];
                &&& r is Ok
                &&& final(self).concepts@ == old(self).concepts@.update(
                    concept_pos(old(self).concepts@, id),
                    Concept {
                        name: match name {
                            Some(n) => n,
                            None => c.name,
                        },
                        description: match description {
                            Some(d) => d,
                            None => c.description,
                        },
                        ..c
                    },
                )
                &&& final(self).tasks == old(self).tasks
            }),
            tree_valid(old(self).concepts@) ==> tree_valid(final(self).concepts@),
            keeps_settings(*old(self), *final(self)),
            final(self).next_task_id == old(self).next_task_id,
            final(self).next_concept_id == old(self).next_concept_id,
    {
        proof {
            lemma_concept_pos(self.concepts@, id);
        }
        match self.find_concept(id) {
            Some(i) => {
                if let Some(n) = name {
                    self.concepts[i].name = n;
                }
                if let Some(d) = description {
                    self.concepts[i].description = d;
                }
                proof {
                    let a = old(self).concepts@;
                    let b = self.concepts@;
                    assert forall|k: int| 0 <= k < a.len() implies (#[trigger] a[k]).parent == b[k].parent && a[k].id == b[k].id by {}
                    assert(cids(a) =~= cids(b));
                    lemma_same_links_tree(a, b);
                }
                Ok(())
            },
            None => Err(ProjectError::ConceptNotFound(id)),
        }
    }

    /// The direct children of concept `id`, in array order.
    pub fn children_of(&self, id: ConceptId) -> (r: Vec<&Concept>)
        ensures
            r@.map_values(|c: &Concept| *c) == children_spec(self.concepts@, id),
    {
        let mut r: Vec<&Concept> = Vec::new();
        let mut i: usize = 0;
        while i < self.concepts.len()
            invariant
                i <= self.concepts@.len(),
                r@.map_values(|c: &Concept| *c) == children_spec(self.concepts@.take(i as int), id),
            decreases self.concepts@.len() - i,
        {
            let ghost t = self.concepts@.take(i + 1);
            assert(t.drop_last() =~= self.concepts@.take(i as int));
            reveal_with_fuel(Seq::filter, 2);
            if self.concepts[i].parent == Some(id) {
                r.push(&self.concepts[i]);
            }
            assert(r@.map_values(|c: &Concept| *c) =~= children_spec(t, id));
            i += 1;
        }
        assert(self.concepts@.take(i as int) =~= self.concepts@);
        r
    }

    /// The concepts without a parent, in array order.
    pub fn roots(&self) -> (r: Vec<&Concept>)
        ensures
            r@.map_values(|c: &Concept| *c) == roots_spec(self.concepts@),
    {
        let mut r: Vec<&Concept> = Vec::new();
        let mut i: usize = 0;
        while i < self.concepts.len()
            invariant
                i <= self.concepts@.len(),
                r@.map_values(|c: &Concept| *c) == roots_spec(self.concepts@.take(i as int)),
            decreases self.concepts@.len() - i,
        {
            let ghost t = self.concepts@.take(i + 1);
            assert(t.drop_last() =~= self.concepts@.take(i as int));
            reveal_with_fuel(Seq::filter, 2);
            if self.concepts[i].parent.is_none() {
                r.push(&self.concepts[i]);
            }
            assert(r@.map_values(|c: &Concept| *c) =~= roots_spec(t));
            i += 1;
        }
        assert(self.concepts@.take(i as int) =~= self.concepts@);
        r
    }
    /// Remove a task and every reference to it in other tasks' dependency lists.
    pub fn remove_task(&mut self, id: TaskId) -> (r: Result<(), ProjectError>)
        ensures
            task_pos(old(self).tasks@, id) < 0 ==> (r matches Err(ProjectError::TaskNotFound(x))
                && x == id && *final(self) == *old(self)),
            task_pos(old(self).tasks@, id) >= 0 ==> ({
                let kept = tasks_without(old(self).tasks@, id);
                &&& r is Ok
                &&& final(self).tasks@.len() == kept.len()
                &&& forall|k: int|
                    0 <= k < kept.len() ==> same_but_deps(#[trigger] final(self).tasks@[k], kept[k])
                        && final(self).tasks@[k].depends_on@ == without_task(kept[k].depends_on@, id)
                &&& final(self).concepts == old(self).concepts
            }),
            !graph_has_cycle(task_edges(deps_view(old(self).tasks@))) ==> !graph_has_cycle(
                task_edges(deps_view(final(self).tasks@)),
            ),
            keeps_settings(*old(self), *final(self)),
            final(self).next_task_id == old(self).next_task_id,
            final(self).next_concept_id == old(self).next_concept_id,
    {
        if self.find_task(id).is_none() {
            return Err(ProjectError::TaskNotFound(id));
        }
        retain_tasks_not(&mut self.tasks, id);
        let ghost kept = self.tasks@;
        let mut k: usize = 0;
        while k < self.tasks.len()
            invariant
                k <= self.tasks@.len(),
                self.tasks@.len() == kept.len(),
                forall|q: int|
                    0 <= q < kept.len() ==> same_but_deps(#[trigger] self.tasks@[q], kept[q]),
                forall|q: int|
                    0 <= q < k ==> (#[trigger] self.tasks@[q]).depends_on@ == without_task(
                        kept[q].depends_on@,
                        id,
                    ),
                forall|q: int| k <= q < kept.len() ==> #[trigger] self.tasks@[q] == kept[q],
                self.concepts == old(self).concepts,
                self.version == old(self).version,
                self.timezone == old(self).timezone,
                self.wrap_width == old(self).wrap_width,
                self.next_task_id == old(self).next_task_id,
                self.next_concept_id == old(self).next_concept_id,
            decreases self.tasks@.len() - k,
        {
            retain_task_ne(&mut self.tasks[k].depends_on, id);
            k += 1;
        }
        proof {
            let vo = deps_view(old(self).tasks@);
            let vn = deps_view(self.tasks@);
            assert forall|j: int| 0 <= j < vn.len() implies exists|k2: int| 0 <= k2 < vo.len() && vo[k2].0 == (#[trigger] vn[j]).0
                && forall|d: TaskId| vn[j].1.contains(d) ==> vo[k2].1.contains(d) by {
                lemma_tasks_without_sub(old(self).tasks@, id, j);
                let k2 = choose|k2: int| 0 <= k2 < old(self).tasks@.len() && old(self).tasks@[k2] == kept[j];
                assert(kept == tasks_without(old(self).tasks@, id));
                assert(vn[j].0 == kept[j].id);
                assert(vn[j].1 == without_task(kept[j].depends_on@, id));
                assert(vo[k2] == (kept[j].id, kept[j].depends_on@));
                assert forall|d: TaskId| vn[j].1.contains(d) implies vo[k2].1.contains(d) by {
                    lemma_without_task_sub(kept[j].depends_on@, id, d);
                }
            }
            assert(old(self).tasks@.len() <= usize::MAX && self.tasks@.len() <= usize::MAX) by {
                assert(old(self).tasks.len() == old(self).tasks@.len());
                assert(self.tasks.len() == self.tasks@.len());
            }
            if !graph_has_cycle(task_edges(vo)) {
                lemma_sub_entries_keep_dag(vo, vn);
            }
        }
        Ok(())
    }

    /// Remove a dependency edge. Fails when the task or the edge does not exist.
    pub fn remove_dependency(&mut self, task_id: TaskId, depends_on_id: TaskId) -> (r: Result<(), ProjectError>)
        ensures
            task_pos(old(self).tasks@, task_id) < 0 ==> (r matches Err(ProjectError::TaskNotFound(x))
                && x == task_id && *final(self) == *old(self)),
            task_pos(old(self).tasks@, task_id) >= 0 ==> ({
                let i = task_pos(old(self).tasks@, task_id);
                let t = old(self).tasks@[i];
                if !t.depends_on@.contains(depends_on_id) {
                    r matches Err(ProjectError::DependencyNotFound(a, b)) && a == task_id && b
                        == depends_on_id && *final(self) == *old(self)
                } else {
                    &&& r is Ok
                    &&& final(self).tasks@.len() == old(self).tasks@.len()
                    &&& forall|k: int|
                        0 <= k < old(self).tasks@.len() && k != i ==> #[trigger] final(self).tasks@[k]
                            == old(self).tasks@[k]
                    &&& same_but_deps(final(self).tasks@[i], t)
                    &&& final(self).tasks@[i].depends_on@ == without_task(t.depends_on@, depends_on_id)
                    &&& final(self).concepts == old(self).concepts
                }
            }),
            !graph_has_cycle(task_edges(deps_view(old(self).tasks@))) ==> !graph_has_cycle(
                task_edges(deps_view(final(self).tasks@)),
            ),
            keeps_settings(*old(self), *final(self)),
            final(self).next_task_id == old(self).next_task_id,
            final(self).next_concept_id == old(self).next_concept_id,
    {
        proof {
            lemma_task_pos(self.tasks@, task_id);
        }
        match self.find_task(task_id) {
            None => Err(ProjectError::TaskNotFound(task_id)),
            Some(i) => {
                if !contains_task(&self.tasks[i].depends_on, depends_on_id) {
                    return Err(ProjectError::DependencyNotFound(task_id, depends_on_id));
                }
                let ghost before = self.tasks@;
                assert(before.len() <= usize::MAX) by {
                    assert(self.tasks.len() == before.len());
                }
                retain_task_ne(&mut self.tasks[i].depends_on, depends_on_id);
                proof {
                    let vo = deps_view(before);
                    let vn = deps_view(self.tasks@);
                    assert forall|j: int, d: TaskId| 0 <= j < vo.len() && (#[trigger] vn[j].1.contains(d)) implies vo[j].1.contains(d) by {
                        if j == i {
                            lemma_without_task_sub(before[j].depends_on@, depends_on_id, d);
                        } else {
                            assert(self.tasks@[j] == before[j]);
                        }
                    }
                    if !graph_has_cycle(task_edges(vo)) {
                        lemma_fewer_deps_keep_dag(vo, vn);
                    }
                }
                Ok(())
            },
        }
    }

    /// Tag a task with a concept. Idempotent: linking twice is not an error.
    pub fn link_concept(&mut self, task_id: TaskId, concept_id: ConceptId) -> (r: Result<(), ProjectError>)
        ensures
            !has_concept(old(self).concepts@, concept_id) ==> (r matches Err(
                ProjectError::ConceptNotFound(x),
            ) && x == concept_id && *final(self) == *old(self)),
            has_concept(old(self).concepts@, concept_id) && task_pos(old(self).tasks@, task_id) < 0
                ==> (r matches Err(ProjectError::TaskNotFound(x)) && x == task_id && *final(self)
                == *old(self)),
            has_concept(old(self).concepts@, concept_id) && task_pos(old(self).tasks@, task_id) >= 0
                ==> ({
                let i = task_pos(old(self).tasks@, task_id);
                let t = old(self).tasks@[i];
                &&& r is Ok
                &&& final(self).tasks@.len() == old(self).tasks@.len()
                &&& forall|k: int|
                    0 <= k < old(self).tasks@.len() && k != i ==> #[trigger] final(self).tasks@[k]
                        == old(self).tasks@[k]
                &&& same_but_links(final(self).tasks@[i], t)
                &&& final(self).tasks@[i].concepts@ == if t.concepts@.contains(concept_id) {
                    t.concepts@
                } else {
                    t.concepts@.push(concept_id)
                }
                &&& final(self).concepts == old(self).concepts
            }),
            deps_view(final(self).tasks@) == deps_view(old(self).tasks@),
            keeps_settings(*old(self), *final(self)),
            final(self).next_task_id == old(self).next_task_id,
            final(self).next_concept_id == old(self).next_concept_id,
    {
        proof {
            lemma_task_pos(self.tasks@, task_id);
        }
        if self.find_concept(concept_id).is_none() {
            return Err(ProjectError::ConceptNotFound(concept_id));
        }
        match self.find_task(task_id) {
            None => Err(ProjectError::TaskNotFound(task_id)),
            Some(i) => {
                if !contains_concept(&self.tasks[i].concepts, concept_id) {
                    self.tasks[i].concepts.push(concept_id);
                }
                proof {
                    assert(deps_view(self.tasks@) =~= deps_view(old(self).tasks@));
                }
                Ok(())
            },
        }
    }

    /// Remove a concept tag from a task. Fails when the task is not linked to it.
    pub fn unlink_concept(&mut self, task_id: TaskId, concept_id: ConceptId) -> (r: Result<(), ProjectError>)
        ensures
            task_pos(old(self).tasks@, task_id) < 0 ==> (r matches Err(ProjectError::TaskNotFound(x))
                && x == task_id && *final(self) == *old(self)),
            task_pos(old(self).tasks@, task_id) >= 0 ==> ({
                let i = task_pos(old(self).tasks@, task_id);
                let t = old(self).tasks@[i];
                if !t.concepts@.contains(concept_id) {
                    r matches Err(ProjectError::ConceptNotLinked(a, b)) && a == task_id && b
                        == concept_id && *final(self) == *old(self)
                } else {
                    &&& r is Ok
                    &&& final(self).tasks@.len() == old(self).tasks@.len()
                    &&& forall|k: int|
                        0 <= k < old(self).tasks@.len() && k != i ==> #[trigger] final(self).tasks@[k]
                            == old(self).tasks@[k]
                    &&& same_but_links(final(self).tasks@[i], t)
                    &&& final(self).tasks@[i].concepts@ == without_concept(t.concepts@, concept_id)
                    &&& final(self).concepts == old(self).concepts
                }
            }),
            deps_view(final(self).tasks@) == deps_view(old(self).tasks@),
            keeps_settings(*old(self), *final(self)),
            final(self).next_task_id == old(self).next_task_id,
            final(self).next_concept_id == old(self).next_concept_id,
    {
        proof {
            lemma_task_pos(self.tasks@, task_id);
        }
        match self.find_task(task_id) {
            None => Err(ProjectError::TaskNotFound(task_id)),
            Some(i) => {
                if !contains_concept(&self.tasks[i].concepts, concept_id) {
                    return Err(ProjectError::ConceptNotLinked(task_id, concept_id));
                }
                retain_concept_ne(&mut self.tasks[i].concepts, concept_id);
                proof {
                    assert(deps_view(self.tasks@) =~= deps_view(old(self).tasks@));
                }
                Ok(())
            },
        }
    }

    /// Remove a concept. Fails when it is missing, has children, or is linked from tasks.
    pub fn remove_concept(&mut self, id: ConceptId) -> (r: Result<(), ProjectError>)
        ensures
            !has_concept(old(self).concepts@, id) ==> (r matches Err(ProjectError::ConceptNotFound(x))
                && x == id && *final(self) == *old(self)),
            has_concept(old(self).concepts@, id) && children_spec(old(self).concepts@, id).len() > 0
                ==> (r matches Err(ProjectError::ConceptHasChildren(x)) && x == id && *final(self)
                == *old(self)),
            has_concept(old(self).concepts@, id) && children_spec(old(self).concepts@, id).len() == 0
                && tasks_linked_to(old(self).tasks@, id).len() > 0 ==> (r matches Err(
                ProjectError::ConceptReferencedByTasks(x, v),
            ) && x == id && v@ == tids(tasks_linked_to(old(self).tasks@, id)) && *final(self)
                == *old(self)),
            has_concept(old(self).concepts@, id) && children_spec(old(self).concepts@, id).len() == 0
                && tasks_linked_to(old(self).tasks@, id).len() == 0 ==> (r is Ok
                && final(self).concepts@ == concepts_without(old(self).concepts@, id)
                && final(self).tasks == old(self).tasks),
            r is Ok && tree_valid(old(self).concepts@) ==> tree_valid(final(self).concepts@),
            keeps_settings(*old(self), *final(self)),
            final(self).next_task_id == old(self).next_task_id,
            final(self).next_concept_id == old(self).next_concept_id,
    {
        proof {
            if tree_valid(self.concepts@) && children_spec(self.concepts@, id).len() == 0 {
                lemma_remove_keeps_forest(self.concepts@, id);
            }
        }
        if self.find_concept(id).is_none() {
            return Err(ProjectError::ConceptNotFound(id));
        }
        let children = self.children_of(id);
        if children.len() > 0 {
            return Err(ProjectError::ConceptHasChildren(id));
        }
        let mut refs: Vec<TaskId> = Vec::new();
        let mut i: usize = 0;
        while i < self.tasks.len()
            invariant
                i <= self.tasks@.len(),
                refs@ == tids(tasks_linked_to(self.tasks@.take(i as int), id)),
            decreases self.tasks@.len() - i,
        {
            let ghost t = self.tasks@.take(i + 1);
            assert(t.drop_last() =~= self.tasks@.take(i as int));
            reveal_with_fuel(Seq::filter, 2);
            if contains_concept(&self.tasks[i].concepts, id) {
                refs.push(self.tasks[i].id);
            }
            assert(refs@ =~= tids(tasks_linked_to(t, id)));
            i += 1;
        }
        assert(self.tasks@.take(i as int) =~= self.tasks@);
        if refs.len() > 0 {
            return Err(ProjectError::ConceptReferencedByTasks(id, refs));
        }
        retain_concepts_not(&mut self.concepts, id);
        Ok(())
    }
    /// Re-parent a concept. Fails when a concept is missing or the move would
    /// create a cycle (the new parent is the concept itself or lies below it).
    pub fn move_concept(&mut self, id: ConceptId, new_parent: Option<ConceptId>) -> (r: Result<(), ProjectError>)
        ensures
            !has_concept(old(self).concepts@, id) ==> (r matches Err(ProjectError::ConceptNotFound(x))
                && x == id && *final(self) == *old(self)),
            has_concept(old(self).concepts@, id) ==> match new_parent {
                Some(pid) if !has_concept(old(self).concepts@, pid) => r matches Err(
                    ProjectError::ConceptNotFound(x),
                ) && x == pid && *final(self) == *old(self),
                Some(pid) if pid == id || is_ancestor_spec(old(self).concepts@, id, pid) => r matches Err(
                    ProjectError::ConceptCycleDetected { id: a, new_parent: b },
                ) && a == id && b == pid && *final(self) == *old(self),
                _ => r is Ok && final(self).concepts@ == old(self).concepts@.update(
                    concept_pos(old(self).concepts@, id),
                    Concept { parent: new_parent, ..old(self).concepts@[concept_pos(old(self).concepts@, id)] },
                ) && final(self).tasks == old(self).tasks && final(self).next_concept_id == old(self).next_concept_id
                    && final(self).next_task_id == old(self).next_task_id,
            },
            r is Ok && tree_valid(old(self).concepts@) ==> tree_valid(final(self).concepts@),
            keeps_settings(*old(self), *final(self)),
            final(self).next_task_id == old(self).next_task_id,
            final(self).next_concept_id == old(self).next_concept_id,
    {
        proof {
            lemma_concept_pos(self.concepts@, id);
        }
        let idx = match self.find_concept(id) {
            Some(i) => i,
            None => return Err(ProjectError::ConceptNotFound(id)),
        };
        if let Some(pid) = new_parent {
            if self.find_concept(pid).is_none() {
                return Err(ProjectError::ConceptNotFound(pid));
            }
            if pid == id {
                return Err(ProjectError::ConceptCycleDetected { id, new_parent: pid });
            }
            if is_ancestor(self, id, pid) {
                return Err(ProjectError::ConceptCycleDetected { id, new_parent: pid });
            }
        }
        self.concepts[idx].parent = new_parent;
        proof {
            if tree_valid(old(self).concepts@) {
                lemma_move_keeps_forest(old(self).concepts@, id, new_parent);
                assert(self.concepts@ =~= reparented(old(self).concepts@, id, new_parent));
            }
        }
        Ok(())
    }

    /// Re-parent a concept and position it next to an anchor sibling, whose
    /// parent becomes the concept's parent. Sibling order is array order.
    pub fn move_concept_positioned(&mut self, id: ConceptId, placement: Placement) -> (r: Result<(), ProjectError>)
        ensures
            ({
                let cs = old(self).concepts@;
                let anchor = placement_anchor(placement);
                if !has_concept(cs, id) {
                    r matches Err(ProjectError::ConceptNotFound(x)) && x == id && *final(self) == *old(self)
                } else if anchor == id {
                    r matches Err(ProjectError::SelfPlacement(x)) && x == id && *final(self) == *old(self)
                } else if !has_concept(cs, anchor) {
                    r matches Err(ProjectError::ConceptNotFound(x)) && x == anchor && *final(self)
                        == *old(self)
                } else {
                    let np = cs[concept_pos(cs, anchor)].parent;
                    match np {
                        Some(pid) if pid == id || is_ancestor_spec(cs, id, pid) => r matches Err(
                            ProjectError::ConceptCycleDetected { id: a, new_parent: b },
                        ) && a == id && b == pid && *final(self) == *old(self),
                        _ => {
                            let idx = concept_pos(cs, id);
                            let rest = cs.remove(idx);
                            let at = concept_pos(rest, anchor);
                            let elem = Concept { parent: np, ..cs[idx] };
                            &&& r is Ok
                            &&& at >= 0
                            &&& final(self).concepts@ == match placement {
                                Placement::Before(_) => rest.insert(at, elem),
                                Placement::After(_) => rest.insert(at + 1, elem),
                            }
                            &&& final(self).tasks == old(self).tasks
                        },
                    }
                }
            }),
            r is Ok && tree_valid(old(self).concepts@) && cids(old(self).concepts@).no_duplicates() ==> tree_valid(
                final(self).concepts@,
            ),
            keeps_settings(*old(self), *final(self)),
            final(self).next_task_id == old(self).next_task_id,
            final(self).next_concept_id == old(self).next_concept_id,
    {
        let ghost cs = self.concepts@;
        let anchor = placement.anchor();
        proof {
            lemma_concept_pos(cs, id);
            lemma_concept_pos(cs, anchor);
        }
        let idx = match self.find_concept(id) {
            Some(i) => i,
            None => return Err(ProjectError::ConceptNotFound(id)),
        };
        if anchor == id {
            return Err(ProjectError::SelfPlacement(id));
        }
        let aidx = match self.find_concept(anchor) {
            Some(i) => i,
            None => return Err(ProjectError::ConceptNotFound(anchor)),
        };
        let new_parent = self.concepts[aidx].parent;
        if let Some(pid) = new_parent {
            if pid == id || is_ancestor(self, id, pid) {
                return Err(ProjectError::ConceptCycleDetected { id, new_parent: pid });
            }
        }
        let mut elem = self.concepts.remove(idx);
        elem.parent = new_parent;
        let ghost rest = self.concepts@;
        assert(rest =~= cs.remove(idx as int));
        proof {
            lemma_concept_pos(rest, anchor);
            let k = if aidx < idx { aidx as int } else { aidx - 1 };
            assert(rest[k].id == anchor);
            assert(cids(rest).contains(anchor)) by {
                assert(cids(rest)[k] == anchor);
            }
            crate::seqs::lemma_first_pos(cids(rest), anchor);
        }
        let at = match self.find_concept(anchor) {
            Some(i) => i,
            None => {
                assert(false);
                return Ok(());
            },
        };
        proof {
            if tree_valid(cs) && cids(cs).no_duplicates() {
                assert(tree_node_ok(cs, cs[aidx as int]));
                let kk = match placement {
                    Placement::Before(_) => at as int,
                    Placement::After(_) => at + 1,
                };
                lemma_positioned_keeps_forest(cs, id, new_parent, kk);
                assert(elem == Concept { parent: new_parent, ..cs[idx as int] });
            }
        }
        match placement {
            Placement::Before(_) => self.concepts.insert(at, elem),
            Placement::After(_) => self.concepts.insert(at + 1, elem),
        }
        Ok(())
    }
    /// Add a dependency edge: `task_id` depends on `depends_on_id`. Fails on a
    /// self-dependency, a missing task, a duplicate edge, or when the edge
    /// would close a cycle; on failure nothing changes.
    pub fn add_dependency(&mut self, task_id: TaskId, depends_on_id: TaskId) -> (r: Result<(), ProjectError>)
        ensures
            ({
                let ts = old(self).tasks@;
                if task_id == depends_on_id {
                    r matches Err(ProjectError::SelfDependency(x)) && x == task_id && *final(self) == *old(self)
                } else if !has_task(ts, task_id) {
                    r matches Err(ProjectError::TaskNotFound(x)) && x == task_id && *final(self) == *old(self)
                } else if !has_task(ts, depends_on_id) {
                    r matches Err(ProjectError::TaskNotFound(x)) && x == depends_on_id && *final(self)
                        == *old(self)
                } else {
                    let i = task_pos(ts, task_id);
                    let t = ts[i];
                    if t.depends_on@.contains(depends_on_id) {
                        r matches Err(ProjectError::DuplicateDependency(a, b)) && a == task_id && b
                            == depends_on_id && *final(self) == *old(self)
                    } else if graph_has_cycle(
                        task_edges(deps_view(ts).update(i, (t.id, t.depends_on@.push(depends_on_id)))),
                    ) {
                        r matches Err(ProjectError::DependencyCycle { from: a, to: b }) && a == task_id
                            && b == depends_on_id && *final(self) == *old(self)
                    } else {
                        &&& r is Ok
                        &&& final(self).tasks@.len() == ts.len()
                        &&& forall|k: int|
                            0 <= k < ts.len() && k != i ==> #[trigger] final(self).tasks@[k] == ts[k]
                        &&& same_but_deps(final(self).tasks@[i], t)
                        &&& final(self).tasks@[i].depends_on@ == t.depends_on@.push(depends_on_id)
                        &&& final(self).concepts == old(self).concepts
                    }
                }
            }),
            r is Ok ==> !graph_has_cycle(task_edges(deps_view(final(self).tasks@))),
            keeps_settings(*old(self), *final(self)),
            final(self).next_task_id == old(self).next_task_id,
            final(self).next_concept_id == old(self).next_concept_id,
    {
        proof {
            lemma_task_pos(self.tasks@, task_id);
            lemma_task_pos(self.tasks@, depends_on_id);
        }
        if task_id == depends_on_id {
            return Err(ProjectError::SelfDependency(task_id));
        }
        let i = match self.find_task(task_id) {
            Some(i) => i,
            None => return Err(ProjectError::TaskNotFound(task_id)),
        };
        if self.find_task(depends_on_id).is_none() {
            return Err(ProjectError::TaskNotFound(depends_on_id));
        }
        if contains_task(&self.tasks[i].depends_on, depends_on_id) {
            return Err(ProjectError::DuplicateDependency(task_id, depends_on_id));
        }
        if has_cycle_with(self.tasks.as_slice(), i, depends_on_id) {
            return Err(ProjectError::DependencyCycle { from: task_id, to: depends_on_id });
        }
        let ghost cand = deps_view(self.tasks@).update(
            i as int,
            (self.tasks@[i as int].id, self.tasks@[i as int].depends_on@.push(depends_on_id)),
        );
        self.tasks[i].depends_on.push(depends_on_id);
        assert(deps_view(self.tasks@) =~= cand);
        Ok(())
    }
    /// Identifiers of the children of `id`, in array order.
    fn child_id_list(&self, id: ConceptId) -> (r: Vec<ConceptId>)
        ensures
            r@ == child_ids(self.concepts@, id),
    {
        let mut r: Vec<ConceptId> = Vec::new();
        let mut i: usize = 0;
        while i < self.concepts.len()
            invariant
                i <= self.concepts@.len(),
                r@ == cids(children_spec(self.concepts@.take(i as int), id)),
            decreases self.concepts@.len() - i,
        {
            let ghost t = self.concepts@.take(i + 1);
            assert(t.drop_last() =~= self.concepts@.take(i as int));
            reveal_with_fuel(Seq::filter, 2);
            if self.concepts[i].parent == Some(id) {
                r.push(self.concepts[i].id);
            }
            assert(r@ =~= cids(children_spec(t, id)));
            i += 1;
        }
        assert(self.concepts@.take(i as int) =~= self.concepts@);
        r
    }

    /// Identifiers of the roots, in array order.
    fn root_id_list(&self) -> (r: Vec<ConceptId>)
        ensures
            r@ == root_ids(self.concepts@),
    {
        let mut r: Vec<ConceptId> = Vec::new();
        let mut i: usize = 0;
        while i < self.concepts.len()
            invariant
                i <= self.concepts@.len(),
                r@ == cids(roots_spec(self.concepts@.take(i as int))),
            decreases self.concepts@.len() - i,
        {
            let ghost t = self.concepts@.take(i + 1);
            assert(t.drop_last() =~= self.concepts@.take(i as int));
            reveal_with_fuel(Seq::filter, 2);
            if self.concepts[i].parent.is_none() {
                r.push(self.concepts[i].id);
            }
            assert(r@ =~= cids(roots_spec(t)));
            i += 1;
        }
        assert(self.concepts@.take(i as int) =~= self.concepts@);
        r
    }

    /// Concept IDs in DFS pre-order: roots in array order, each immediately
    /// followed by its subtree (children in array order), recursively. Each
    /// identifier is output once, so the walk ends even on cyclic data.
    pub fn dfs_preorder_ids(&self) -> (r: Vec<ConceptId>)
        ensures
            r@ == dfs_preorder_spec(self.concepts@),
            r@.no_duplicates(),
            r@.len() <= self.concepts@.len(),
            forall|i: int| 0 <= i < r@.len() ==> cids(self.concepts@).contains(#[trigger] r@[i]),
    {
        let ghost cs = self.concepts@;
        let ghost n = cs.len();
        let roots = self.root_id_list();
        let mut stack: Vec<ConceptId> = Vec::new();
        let mut k: usize = roots.len();
        while k > 0
            invariant
                k <= roots@.len(),
                stack@ == roots@.skip(k as int).reverse(),
            decreases k,
        {
            k -= 1;
            stack.push(roots[k]);
            assert(stack@ =~= roots@.skip(k as int).reverse());
        }
        assert(roots@.skip(0) =~= roots@);
        let mut out: Vec<ConceptId> = Vec::new();
        let ghost mut fuel: nat = dfs_fuel(cs);
        proof {
            lemma_child_ids_in(cs, ConceptId(0));
            assert(dfs_measure(n, stack@, out@) < fuel) by (nonlinear_arith)
                requires
                    stack@.len() <= n,
                    out@.len() == 0,
                    fuel == (n + 1) * (n + 1) + n + 1,
                    dfs_measure(n, stack@, out@) == (n + 1 - out@.len()) * (n + 1) + stack@.len(),
            ;
        }
        while stack.len() > 0
            invariant
                cs == self.concepts@,
                n == cs.len(),
                dfs_run(cs, stack@, out@, fuel) == dfs_preorder_spec(cs),
                dfs_measure(n, stack@, out@) < fuel,
                out@.no_duplicates(),
                forall|i: int| 0 <= i < out@.len() ==> cids(cs).contains(#[trigger] out@[i]),
                forall|i: int| 0 <= i < stack@.len() ==> cids(cs).contains(#[trigger] stack@[i]),
            decreases dfs_measure(n, stack@, out@),
        {
            proof {
                lemma_distinct_bound(out@, cids(cs));
                lemma_dfs_run_step(cs, stack@, out@, fuel);
            }
            let ghost (s2, o2) = dfs_step(cs, stack@, out@);
            let ghost old_stack = stack@;
            let ghost old_out = out@;
            let id = stack.pop().unwrap();
            assert(stack@ =~= old_stack.drop_last());
            let mut seen = false;
            let mut i: usize = 0;
            while i < out.len()
                invariant
                    i <= out@.len(),
                    !seen ==> forall|j: int| 0 <= j < i ==> out@[j] != id,
                    seen ==> out@.contains(id),
                decreases out@.len() - i,
            {
                if out[i] == id {
                    seen = true;
                }
                i += 1;
            }
            if !seen {
                out.push(id);
                let kids = self.child_id_list(id);
                proof {
                    lemma_child_ids_in(cs, id);
                    assert(cids(cs).contains(old_stack.last()));
                }
                let mut q: usize = kids.len();
                let ghost base = stack@;
                while q > 0
                    invariant
                        q <= kids@.len(),
                        stack@ == base + kids@.skip(q as int).reverse(),
                    decreases q,
                {
                    q -= 1;
                    stack.push(kids[q]);
                    assert(stack@ =~= base + kids@.skip(q as int).reverse());
                }
                assert(kids@.skip(0) =~= kids@);
                proof {
                    assert forall|x: int, y: int| 0 <= x < y < out@.len() implies out@[x] != out@[y] by {
                        if y < old_out.len() {
                            assert(old_out[x] != old_out[y]);
                        }
                    }
                    assert forall|j: int| 0 <= j < stack@.len() implies cids(cs).contains(#[trigger] stack@[j]) by {
                        if j < base.len() {
                            assert(stack@[j] == old_stack[j]);
                        } else {
                            assert(stack@[j] == kids@.reverse()[j - base.len()]);
                            assert(kids@.reverse()[j - base.len()] == kids@[kids@.len() - 1 - (j - base.len())]);
                        }
                    }
                    lemma_distinct_bound(out@, cids(cs));
                    assert(dfs_measure(n, stack@, out@) < dfs_measure(n, old_stack, old_out)) by (nonlinear_arith)
                        requires
                            out@.len() == old_out.len() + 1,
                            out@.len() <= n,
                            kids@.len() <= n,
                            stack@.len() == old_stack.len() - 1 + kids@.len(),
                            dfs_measure(n, stack@, out@) == (n + 1 - out@.len()) * (n + 1) + stack@.len(),
                            dfs_measure(n, old_stack, old_out) == (n + 1 - old_out.len()) * (n + 1) + old_stack.len(),
                    ;
                }
            } else {
                proof {
                    assert forall|j: int| 0 <= j < stack@.len() implies cids(cs).contains(#[trigger] stack@[j]) by {
                        assert(stack@[j] == old_stack[j]);
                    }
                }
            }
            assert(stack@ == s2 && out@ == o2);
            proof {
                fuel = (fuel - 1) as nat;
            }
        }
        proof {
            lemma_distinct_bound(out@, cids(cs));
        }
        out
    }
    /// Plan a canonical renumbering: IDs `1..=n` in DFS pre-order. Fails when
    /// some concepts are unreachable from any root (a cycle, an orphaned
    /// parent chain, or a repeated identifier).
    pub fn plan_normalization(&self) -> (r: Result<Renumbering, ProjectError>)
        ensures
            tree_valid(self.concepts@) && cids(self.concepts@).no_duplicates() ==> r is Ok,
            ({
                let order = dfs_preorder_spec(self.concepts@);
                if order.len() != self.concepts@.len() {
                    r matches Err(ProjectError::UnreachableConcepts(k)) && k == self.concepts@.len() - order.len()
                } else {
                    r matches Ok(plan) && plan.pairs@ == renumber_pairs(order)
                }
            }),
    {
        proof {
            if tree_valid(self.concepts@) && cids(self.concepts@).no_duplicates() {
                crate::model::normalize::lemma_valid_tree_reached(self.concepts@);
            }
        }
        let order = self.dfs_preorder_ids();
        if order.len() != self.concepts.len() {
            return Err(ProjectError::UnreachableConcepts(self.concepts.len() - order.len()));
        }
        let mut pairs: Vec<(ConceptId, ConceptId)> = Vec::new();
        let mut i: usize = 0;
        while i < order.len()
            invariant
                i <= order@.len(),
                order@.len() == self.concepts@.len(),
                pairs@ == renumber_pairs(order@).take(i as int),
            decreases order@.len() - i,
        {
            assert(i < usize::MAX);
            pairs.push((order[i], ConceptId(i as u64 + 1)));
            assert(pairs@ =~= renumber_pairs(order@).take(i + 1));
            i += 1;
        }
        assert(renumber_pairs(order@).take(i as int) =~= renumber_pairs(order@));
        Ok(Renumbering { pairs })
    }

    /// Renumber the concepts into tree order: plan the renumbering and apply
    /// it. Fails, changing nothing, when some concept is not reached from a
    /// root; otherwise returns the plan that was applied.
    pub fn normalize(&mut self) -> (r: Result<Renumbering, ProjectError>)
        requires
            old(self).concepts@.len() < u64::MAX,
            forall|i: int| 0 <= i < old(self).tasks@.len() ==> old(self).tasks@[i].id.0 < u64::MAX,
        ensures
            tree_valid(old(self).concepts@) && cids(old(self).concepts@).no_duplicates() ==> r is Ok,
            ({
                let order = dfs_preorder_spec(old(self).concepts@);
                if order.len() != old(self).concepts@.len() {
                    (r matches Err(ProjectError::UnreachableConcepts(k)) && k == old(self).concepts@.len() - order.len())
                        && *final(self) == *old(self)
                } else {
                    r matches Ok(plan) && {
                        let pairs = renumber_pairs(order);
                        &&& plan.pairs@ == pairs
                        &&& applied_concepts(old(self).concepts@, pairs, final(self).concepts@)
                        &&& final(self).tasks@.len() == old(self).tasks@.len()
                        &&& forall|i: int| 0 <= i < old(self).tasks@.len() ==> same_but_links(#[trigger] final(self).tasks@[i], old(self).tasks@[i])
                            && final(self).tasks@[i].concepts@ == old(self).tasks@[i].concepts@.map_values(|x: ConceptId| relink(pairs, x))
                        &&& final(self).next_concept_id == max_concept_id(final(self).concepts@) + 1
                        &&& final(self).next_task_id == max_task_id(old(self).tasks@) + 1
                        &&& keeps_settings(*old(self), *final(self))
                    }
                }
            }),
    {
        let plan = match self.plan_normalization() {
            Ok(p) => p,
            Err(e) => return Err(e),
        };
        proof {
            crate::model::normalize::lemma_plan_applies(self.concepts@);
        }
        self.apply_normalization(&plan);
        Ok(plan)
    }

    /// Apply a renumbering: the concepts become the plan's concepts in plan
    /// order, relabelled with their new IDs, parents renamed; every task link
    /// that a pair renames is renamed. Task dependencies are untouched; the ID
    /// counters are recomputed.
    pub fn apply_normalization(&mut self, plan: &Renumbering)
        requires
            forall|k: int| 0 <= k < plan.pairs@.len() ==> has_concept(old(self).concepts@, (#[trigger] plan.pairs@[k]).0),
            forall|k: int| 0 <= k < plan.pairs@.len() ==> (#[trigger] plan.pairs@[k]).1.0 < u64::MAX,
            forall|k: int| 0 <= k < plan.pairs@.len() ==> match (#[trigger] lookup_concept(old(self).concepts@, plan.pairs@[k].0)) {
                Some(c) => match c.parent {
                    Some(pp) => renamed(plan.pairs@, pp) is Some,
                    None => true,
                },
                None => true,
            },
            forall|i: int| 0 <= i < old(self).tasks@.len() ==> old(self).tasks@[i].id.0 < u64::MAX,
        ensures
            renumbered(old(self).concepts@, plan.pairs@, final(self).concepts@),
            final(self).concepts@.len() == plan.pairs@.len(),
            applied_concepts(old(self).concepts@, plan.pairs@, final(self).concepts@),
            forall|k: int| 0 <= k < plan.pairs@.len() ==> {
                let c = old(self).concepts@[concept_pos(old(self).concepts@, plan.pairs@[k].0)];
                &&& (#[trigger] final(self).concepts@[k]).id == plan.pairs@[k].1
                &&& final(self).concepts@[k].name == c.name
                &&& final(self).concepts@[k].description == c.description
                &&& final(self).concepts@[k].parent == match c.parent {
                    Some(pp) => renamed(plan.pairs@, pp),
                    None => None,
                }
            },
            final(self).tasks@.len() == old(self).tasks@.len(),
            forall|i: int| 0 <= i < old(self).tasks@.len() ==> same_but_links(#[trigger] final(self).tasks@[i], old(self).tasks@[i])
                && final(self).tasks@[i].concepts@ == old(self).tasks@[i].concepts@.map_values(|x: ConceptId| relink(plan.pairs@, x)),
            final(self).next_concept_id == max_concept_id(final(self).concepts@) + 1,
            final(self).next_task_id == max_task_id(old(self).tasks@) + 1,
            final(self).version == old(self).version,
            final(self).timezone == old(self).timezone,
            final(self).wrap_width == old(self).wrap_width,
    {
        let mut i: usize = 0;
        while i < self.tasks.len()
            invariant
                i <= self.tasks@.len(),
                self.tasks@.len() == old(self).tasks@.len(),
                forall|q: int| 0 <= q < old(self).tasks@.len() ==> same_but_links(#[trigger] self.tasks@[q], old(self).tasks@[q]),
                forall|q: int| 0 <= q < i ==> (#[trigger] self.tasks@[q]).concepts@ == old(self).tasks@[q].concepts@.map_values(|x: ConceptId| relink(plan.pairs@, x)),
                forall|q: int| i <= q < old(self).tasks@.len() ==> #[trigger] self.tasks@[q] == old(self).tasks@[q],
                self.concepts == old(self).concepts,
                self.version == old(self).version,
                self.timezone == old(self).timezone,
                self.wrap_width == old(self).wrap_width,
            decreases self.tasks@.len() - i,
        {
            relink_all(&mut self.tasks[i].concepts, &plan.pairs);
            i += 1;
        }
        let ghost cs = self.concepts@;
        let ghost olds = plan.pairs@.map_values(|p: (ConceptId, ConceptId)| p.0);
        let mut concepts: Vec<Concept> = Vec::new();
        let mut k: usize = 0;
        while k < plan.pairs.len()
            invariant
                cs == self.concepts@,
                olds == plan.pairs@.map_values(|p: (ConceptId, ConceptId)| p.0),
                k <= plan.pairs@.len(),
                concepts@.len() == k,
                forall|k: int| 0 <= k < plan.pairs@.len() ==> has_concept(cs, (#[trigger] plan.pairs@[k]).0),
                forall|k: int| 0 <= k < plan.pairs@.len() ==> (#[trigger] plan.pairs@[k]).1.0 < u64::MAX,
                self.version == old(self).version,
                self.timezone == old(self).timezone,
                self.wrap_width == old(self).wrap_width,
                self.tasks@.len() == old(self).tasks@.len(),
                forall|q: int| 0 <= q < old(self).tasks@.len() ==> same_but_links(#[trigger] self.tasks@[q], old(self).tasks@[q]),
                forall|q: int| 0 <= q < old(self).tasks@.len() ==> (#[trigger] self.tasks@[q]).concepts@ == old(self).tasks@[q].concepts@.map_values(|x: ConceptId| relink(plan.pairs@, x)),
                forall|k: int| 0 <= k < plan.pairs@.len() ==> match (#[trigger] lookup_concept(cs, plan.pairs@[k].0)) {
                    Some(c) => match c.parent {
                        Some(pp) => renamed(plan.pairs@, pp) is Some,
                        None => true,
                    },
                    None => true,
                },
                forall|q: int| 0 <= q < k ==> {
                    let c = cs[concept_pos(cs, plan.pairs@[q].0)];
                    &&& (#[trigger] concepts@[q]).id == plan.pairs@[q].1
                    &&& concepts@[q].name == c.name
                    &&& concepts@[q].description == c.description
                    &&& concepts@[q].parent == match c.parent {
                        Some(pp) => renamed(plan.pairs@, pp),
                        None => None,
                    }
                },
            decreases plan.pairs@.len() - k,
        {
            let (old_id, new_id) = plan.pairs[k];
            proof {
                lemma_concept_pos(cs, old_id);
                assert(has_concept(cs, plan.pairs@[k as int].0));
                assert(lookup_concept(cs, plan.pairs@[k as int].0) == Some(cs[concept_pos(cs, old_id)]));
            }
            let idx = self.find_concept(old_id).unwrap();
            let c = &self.concepts[idx];
            let parent = match c.parent {
                Some(pp) => match rename_lookup(&plan.pairs, pp) {
                    Some(y) => Some(y),
                    None => {
                        assert(false);
                        None
                    },
                },
                None => None,
            };
            let description = match &c.description {
                Some(d) => Some(d.clone()),
                None => None,
            };
            concepts.push(Concept { id: new_id, name: c.name.clone(), description, parent });
            k += 1;
        }
        self.concepts = concepts;
        proof {
            lemma_max_task_id_ids(self.tasks@, old(self).tasks@);
        }
        self.recompute_next_ids();
    }
}

/// The new identifier `pairs` gives `x` (the last pair renaming it).
fn rename_lookup(pairs: &Vec<(ConceptId, ConceptId)>, x: ConceptId) -> (r: Option<ConceptId>)
    ensures
        r == renamed(pairs@, x),
{
    let ghost olds = pairs@.map_values(|p: (ConceptId, ConceptId)| p.0);
    let mut i: usize = pairs.len();
    assert(olds.take(i as int) =~= olds);
    while i > 0
        invariant
            i <= pairs@.len(),
            olds == pairs@.map_values(|p: (ConceptId, ConceptId)| p.0),
            last_pos(olds, x) == last_pos(olds.take(i as int), x),
        decreases i,
    {
        let ghost t = olds.take(i as int);
        assert(t.drop_last() =~= olds.take(i - 1));
        assert(t.last() == pairs@[i - 1].0);
        if pairs[i - 1].0 == x {
            return Some(pairs[i - 1].1);
        }
        i -= 1;
    }
    assert(olds.take(0) =~= Seq::<ConceptId>::empty());
    None
}

/// Renames every link of `v` that `pairs` renames.
fn relink_all(v: &mut Vec<ConceptId>, pairs: &Vec<(ConceptId, ConceptId)>)
    ensures
        final(v)@ == old(v)@.map_values(|x: ConceptId| relink(pairs@, x)),
{
    let ghost o = old(v)@;
    let mut i: usize = 0;
    while i < v.len()
        invariant
            i <= v@.len(),
            v@.len() == o.len(),
            forall|q: int| 0 <= q < i ==> v@[q] == relink(pairs@, o[q]),
            forall|q: int| i <= q < o.len() ==> v@[q] == o[q],
        decreases v@.len() - i,
    {
        match rename_lookup(pairs, v[i]) {
            Some(y) => {
                v.set(i, y);
            },
            None => {},
        }
        i += 1;
    }
    assert(v@ =~= o.map_values(|x: ConceptId| relink(pairs@, x)));
}

} // verus!
