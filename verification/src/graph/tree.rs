//! Concept tree operations: ancestry checks and structural validation.
use vstd::prelude::*;

use crate::model::concept::Concept;
use crate::model::id::{id_text, push_concept_id, ConceptId};
use crate::model::project::{
    children_spec, cids, concept_pos, concepts_without, has_concept, lemma_concept_pos, lookup_concept, parent_of, Project,
};
use crate::seqs::lemma_distinct_bound;
use crate::text::{push_all, push_str, string_from, u64_decimal, decimal};

verus! {

/// The concept reached from `d` after following `k` parent links, if the
/// chain is that long (a link ends at a missing concept or at a root).
pub open spec fn ancestor_at(cs: Seq<Concept>, d: ConceptId, k: nat) -> Option<ConceptId>
    decreases k,
{
    if k == 0 {
        Some(d)
    } else {
        match ancestor_at(cs, d, (k - 1) as nat) {
            Some(x) => parent_of(cs, x),
            None => None,
        }
    }
}

/// Step `m` of the parent walk from `d` revisits an identifier seen earlier.
pub open spec fn repeats_at(cs: Seq<Concept>, d: ConceptId, m: nat) -> bool {
    ancestor_at(cs, d, m) is Some && exists|j: nat|
        j < m && ancestor_at(cs, d, j) == #[trigger] ancestor_at(cs, d, m)
}

/// The parent walk from `d` never ends: it revisits an identifier.
pub open spec fn walk_cycles(cs: Seq<Concept>, d: ConceptId) -> bool {
    exists|m: nat| repeats_at(cs, d, m)
}

/// `m` is the first step at which the walk from `d` revisits an identifier.
pub open spec fn first_repeat(cs: Seq<Concept>, d: ConceptId, m: nat) -> bool {
    repeats_at(cs, d, m) && forall|k: nat| k < m ==> !repeats_at(cs, d, k)
}

/// `a` is reached from `d` by following one or more parent links before the
/// walk revisits an identifier.
pub open spec fn is_ancestor_spec(cs: Seq<Concept>, a: ConceptId, d: ConceptId) -> bool {
    exists|k: nat|
        k >= 1 && #[trigger] ancestor_at(cs, d, k) == Some(a) && forall|m: nat|
            m < k ==> !repeats_at(cs, d, m)
}

/// Concept `c` is well placed: its parent exists and the walk up from it ends.
pub open spec fn tree_node_ok(cs: Seq<Concept>, c: Concept) -> bool {
    &&& match c.parent {
        Some(p) => has_concept(cs, p),
        None => true,
    }
    &&& !walk_cycles(cs, c.id)
}

/// The concept list forms a forest: every parent exists and no parent chain cycles.
pub open spec fn tree_valid(cs: Seq<Concept>) -> bool {
    forall|i: int| 0 <= i < cs.len() ==> tree_node_ok(cs, #[trigger] cs[i])
}

/// Once the walk ends it stays ended.
pub proof fn lemma_ancestor_none(cs: Seq<Concept>, d: ConceptId, k: nat, m: nat)
    requires
        ancestor_at(cs, d, k) is None,
        k <= m,
    ensures
        ancestor_at(cs, d, m) is None,
    decreases m - k,
{
    if k < m {
        lemma_ancestor_none(cs, d, k, (m - 1) as nat);
    }
}

/// The result of walking up from `d`: the identifiers visited, and the first
/// revisited identifier when the walk cycles.
fn walk_up(p: &Project, d: ConceptId, target: Option<ConceptId>) -> (r: (Option<ConceptId>, bool))
    ensures
        target is None ==> !r.1,
        r.1 ==> (target matches Some(a) && is_ancestor_spec(p.concepts@, a, d)),
        !r.1 ==> (target matches Some(a) ==> !is_ancestor_spec(p.concepts@, a, d)),
        !r.1 ==> match r.0 {
            Some(x) => exists|m: nat| first_repeat(p.concepts@, d, m) && ancestor_at(p.concepts@, d, m) == Some(x),
            None => !walk_cycles(p.concepts@, d),
        },
{
    let ghost cs = p.concepts@;
    let mut visited: Vec<ConceptId> = Vec::new();
    let mut current = d;
    let ghost mut k: nat = 0;
    loop
        invariant
            cs == p.concepts@,
            visited@.len() == k,
            forall|j: int| 0 <= j < k ==> ancestor_at(cs, d, j as nat) == Some(#[trigger] visited@[j]),
            visited@.no_duplicates(),
            forall|j: int| 1 <= j < k ==> cids(cs).contains(#[trigger] visited@[j]),
            ancestor_at(cs, d, k) == Some(current),
            forall|m: nat| m < k ==> !repeats_at(cs, d, m),
            forall|j: nat| 1 <= j <= k ==> target != #[trigger] ancestor_at(cs, d, j),
        decreases cs.len() + 2 - visited@.len(),
    {
        proof {
            if k >= 1 {
                lemma_distinct_bound(visited@.drop_first(), cids(cs));
            }
        }
        let mut seen = false;
        let mut i: usize = 0;
        while i < visited.len()
            invariant
                i <= visited@.len(),
                !seen ==> forall|j: int| 0 <= j < i ==> visited@[j] != current,
                seen ==> exists|j: int| 0 <= j < visited@.len() && visited@[j] == current,
            decreases visited@.len() - i,
        {
            if visited[i] == current {
                seen = true;
            }
            i += 1;
        }
        if seen {
            proof {
                let j = choose|j: int| 0 <= j < visited@.len() && visited@[j] == current;
                assert(ancestor_at(cs, d, j as nat) == ancestor_at(cs, d, k));
                assert(repeats_at(cs, d, k));
                assert(first_repeat(cs, d, k));
                if let Some(a) = target {
                    assert forall|kk: nat|
                        kk >= 1 && #[trigger] ancestor_at(cs, d, kk) == Some(a) implies !(forall|m: nat|
                        m < kk ==> !repeats_at(cs, d, m)) by {
                        if kk <= k {
                        } else {
                            assert(k < kk && repeats_at(cs, d, k));
                        }
                    }
                }
            }
            return (Some(current), false);
        }
        proof {
            assert(!repeats_at(cs, d, k)) by {
                if repeats_at(cs, d, k) {
                    let j = choose|j: nat| j < k && ancestor_at(cs, d, j) == #[trigger] ancestor_at(cs, d, k);
                    assert(visited@[j as int] == current);
                }
            }
        }
        let ghost old_visited = visited@;
        visited.push(current);
        proof {
            assert forall|x: int, y: int| 0 <= x < y < visited@.len() implies visited@[x] != visited@[y] by {
                if y < old_visited.len() {
                    assert(old_visited[x] != old_visited[y]);
                }
            }
        }
        proof {
            lemma_concept_pos(cs, current);
        }
        let next = match p.get_concept(current) {
            Some(c) => c.parent,
            None => None,
        };
        assert(ancestor_at(cs, d, k + 1) == next);
        match next {
            None => {
                proof {
                    assert forall|m: nat| !repeats_at(cs, d, m) by {
                        if m > k {
                            lemma_ancestor_none(cs, d, k + 1, m);
                        }
                    }
                    if let Some(a) = target {
                        assert forall|kk: nat| kk >= 1 && #[trigger] ancestor_at(cs, d, kk) == Some(a) implies false by {
                            if kk > k {
                                lemma_ancestor_none(cs, d, k + 1, kk);
                            }
                        }
                    }
                }
                return (None, false);
            },
            Some(par) => {
                if let Some(a) = target {
                    if par == a {
                        proof {
                            assert(ancestor_at(cs, d, k + 1) == Some(a));
                            assert(forall|m: nat| m < k + 1 ==> !repeats_at(cs, d, m));
                        }
                        return (None, true);
                    }
                }
                proof {
                    assert(has_concept(cs, current));
                    assert(cids(cs)[concept_pos(cs, current)] == current);
                    k = k + 1;
                }
                current = par;
            },
        }
    }
}

/// Whether `ancestor_id` is reached from `descendant_id` by following parent
/// links. Returns `false` when the walk revisits a concept first (a cycle).
pub fn is_ancestor(project: &Project, ancestor_id: ConceptId, descendant_id: ConceptId) -> (r: bool)
    ensures
        r == is_ancestor_spec(project.concepts@, ancestor_id, descendant_id),
{
    let (_, found) = walk_up(project, descendant_id, Some(ancestor_id));
    found
}

/// The message `validate_tree` reports for a misplaced concept `c`.
pub open spec fn tree_error(cs: Seq<Concept>, c: Concept, msg: Seq<char>) -> bool {
    match c.parent {
        Some(p) if !has_concept(cs, p) => msg == "concept "@ + id_text('c', c.id.0)
            + " references non-existent parent "@ + id_text('c', p.0),
        _ => exists|m: nat, x: ConceptId|
            first_repeat(cs, c.id, m) && ancestor_at(cs, c.id, m) == Some(x) && msg
                == "cycle detected in concept tree involving "@ + id_text('c', x.0),
    }
}

/// `msg` is what `validate_tree` reports: the error of the first misplaced concept.
pub open spec fn tree_first_error(cs: Seq<Concept>, msg: Seq<char>) -> bool {
    exists|i: int|
        0 <= i < cs.len() && (forall|j: int| 0 <= j < i ==> tree_node_ok(cs, #[trigger] cs[j]))
            && !tree_node_ok(cs, cs[i]) && tree_error(cs, cs[i], msg)
}

/// Validate that the concepts form a forest: every parent reference points to
/// an existing concept and no parent chain cycles. Reports the first misplaced
/// concept in array order.
pub fn validate_tree(project: &Project) -> (r: Result<(), String>)
    ensures
        r is Ok <==> tree_valid(project.concepts@),
        r matches Err(msg) ==> tree_first_error(project.concepts@, msg@) && msg@ == crate::graph::dag::tree_message(
            project.concepts@,
        ),
{
    let r = check_tree(project);
    proof {
        match &r {
            Ok(_) => {},
            Err(m) => crate::graph::dag::lemma_tree_message(project.concepts@, m@),
        }
    }
    r
}

/// The checks of `validate_tree`.
fn check_tree(project: &Project) -> (r: Result<(), String>)
    ensures
        r is Ok <==> tree_valid(project.concepts@),
        r matches Err(msg) ==> tree_first_error(project.concepts@, msg@),
{
    let ghost cs = project.concepts@;
    let mut i: usize = 0;
    while i < project.concepts.len()
        invariant
            cs == project.concepts@,
            i <= cs.len(),
            forall|j: int| 0 <= j < i ==> tree_node_ok(cs, #[trigger] cs[j]),
        decreases cs.len() - i,
    {
        let c = &project.concepts[i];
        if let Some(pid) = c.parent {
            if project.find_concept(pid).is_none() {
                let mut v: Vec<char> = Vec::new();
                push_str(&mut v, "concept ");
                push_concept_id(&mut v, c.id);
                push_str(&mut v, " references non-existent parent ");
                push_concept_id(&mut v, pid);
                let msg = string_from(v.as_slice());
                assert(msg@ =~= "concept "@ + id_text('c', c.id.0)
                    + " references non-existent parent "@ + id_text('c', pid.0));
                return Err(msg);
            }
        }
        let (rep, _) = walk_up(project, c.id, None);
        if let Some(x) = rep {
            let mut v: Vec<char> = Vec::new();
            push_str(&mut v, "cycle detected in concept tree involving ");
            push_concept_id(&mut v, x);
            let msg = string_from(v.as_slice());
            proof {
                let m = choose|m: nat| first_repeat(cs, c.id, m) && ancestor_at(cs, c.id, m) == Some(x);
                assert(walk_cycles(cs, c.id));
                assert(msg@ =~= "cycle detected in concept tree involving "@ + id_text('c', x.0));
            }
            return Err(msg);
        }
        i += 1;
    }
    Ok(())
}

// --- Moves keep the forest a forest ---------------------------------------------------

/// `cs` with the concept `id` given the parent `np`.
pub open spec fn reparented(cs: Seq<Concept>, id: ConceptId, np: Option<ConceptId>) -> Seq<Concept> {
    let k = concept_pos(cs, id);
    cs.update(k, Concept { parent: np, ..cs[k] })
}

/// Walking `a` steps and then `b` more is walking `a + b` steps.
pub proof fn lemma_walk_compose(cs: Seq<Concept>, x: ConceptId, a: nat, b: nat)
    ensures
        ancestor_at(cs, x, a + b) == match ancestor_at(cs, x, a) {
            Some(y) => ancestor_at(cs, y, b),
            None => None,
        },
    decreases b,
{
    if b > 0 {
        lemma_walk_compose(cs, x, a, (b - 1) as nat);
        assert((a + b - 1) as nat == a + (b - 1) as nat);
    }
}

proof fn lemma_reparented_parent(cs: Seq<Concept>, id: ConceptId, np: Option<ConceptId>, x: ConceptId)
    requires
        has_concept(cs, id),
    ensures
        parent_of(reparented(cs, id, np), x) == if x == id { np } else { parent_of(cs, x) },
        cids(reparented(cs, id, np)) == cids(cs),
{
    let n = reparented(cs, id, np);
    lemma_concept_pos(cs, id);
    assert(cids(n) =~= cids(cs)) by {
        assert forall|i: int| 0 <= i < cs.len() implies #[trigger] n[i].id == cs[i].id by {}
    }
    lemma_concept_pos(cs, x);
    lemma_concept_pos(n, x);
}

/// Walks that have not met `id` yet are the same before and after the move.
proof fn lemma_walk_same_until(cs: Seq<Concept>, id: ConceptId, np: Option<ConceptId>, x: ConceptId, k: nat)
    requires
        has_concept(cs, id),
        forall|j: nat| j < k ==> ancestor_at(cs, x, j) != Some(id),
    ensures
        ancestor_at(reparented(cs, id, np), x, k) == ancestor_at(cs, x, k),
    decreases k,
{
    if k > 0 {
        lemma_walk_same_until(cs, id, np, x, (k - 1) as nat);
        match ancestor_at(cs, x, (k - 1) as nat) {
            Some(z) => {
                lemma_reparented_parent(cs, id, np, z);
            },
            None => {},
        }
    }
}

/// The first step, up to `n`, at which the walk from `d` meets `id`.
pub open spec fn first_hit(cs: Seq<Concept>, d: ConceptId, id: ConceptId, n: nat) -> Option<nat>
    decreases n,
{
    let here = if ancestor_at(cs, d, n) == Some(id) {
        Some(n)
    } else {
        None
    };
    if n == 0 {
        here
    } else {
        match first_hit(cs, d, id, (n - 1) as nat) {
            Some(k) => Some(k),
            None => here,
        }
    }
}

proof fn lemma_first_hit(cs: Seq<Concept>, d: ConceptId, id: ConceptId, n: nat)
    ensures
        match first_hit(cs, d, id, n) {
            Some(k) => k <= n && ancestor_at(cs, d, k) == Some(id) && forall|j: nat| j < k ==> ancestor_at(cs, d, j) != Some(id),
            None => forall|j: nat| j <= n ==> ancestor_at(cs, d, j) != Some(id),
        },
    decreases n,
{
    if n > 0 {
        lemma_first_hit(cs, d, id, (n - 1) as nat);
    }
}

/// Every identifier of a valid forest starts a walk that never cycles.
proof fn lemma_valid_no_cycle(cs: Seq<Concept>, x: ConceptId)
    requires
        tree_valid(cs),
        has_concept(cs, x),
    ensures
        !walk_cycles(cs, x),
{
    lemma_concept_pos(cs, x);
    assert(tree_node_ok(cs, cs[concept_pos(cs, x)]));
}

/// In a valid forest, a walk from `x` that meets `id` after one or more steps
/// makes `id` an ancestor of `x`.
proof fn lemma_hit_is_ancestor(cs: Seq<Concept>, id: ConceptId, x: ConceptId, k: nat)
    requires
        tree_valid(cs),
        has_concept(cs, x),
        k >= 1,
        ancestor_at(cs, x, k) == Some(id),
    ensures
        is_ancestor_spec(cs, id, x),
{
    lemma_valid_no_cycle(cs, x);
    assert(forall|m: nat| m < k ==> !repeats_at(cs, x, m));
}

/// Re-parenting a concept under an existing concept that is neither itself
/// nor one of its descendants, or making it a root, keeps a valid forest
/// valid: every parent still exists and no parent chain cycles.
pub proof fn lemma_move_keeps_forest(cs: Seq<Concept>, id: ConceptId, np: Option<ConceptId>)
    requires
        tree_valid(cs),
        has_concept(cs, id),
        np matches Some(pid) ==> has_concept(cs, pid) && pid != id && !is_ancestor_spec(cs, id, pid),
    ensures
        tree_valid(reparented(cs, id, np)),
{
    let n = reparented(cs, id, np);
    lemma_concept_pos(cs, id);
    assert forall|i: int| 0 <= i < n.len() implies tree_node_ok(n, #[trigger] n[i]) by {
        let d = n[i].id;
        assert(d == cs[i].id);
        lemma_reparented_parent(cs, id, np, d);
        assert(tree_node_ok(cs, cs[i]));
        // The parent exists.
        match n[i].parent {
            Some(p) => {
                lemma_concept_pos(cs, p);
                lemma_concept_pos(n, p);
                if i == concept_pos(cs, id) {
                    assert(np == Some(p));
                } else {
                    assert(n[i].parent == cs[i].parent);
                }
            },
            None => {},
        }
        // The walk up from `d` does not cycle.
        lemma_concept_pos(cs, d);
        lemma_valid_no_cycle(cs, d);
        assert forall|m: nat| !repeats_at(n, d, m) by {
            if repeats_at(n, d, m) {
                let j = choose|j: nat| j < m && ancestor_at(n, d, j) == #[trigger] ancestor_at(n, d, m);
                lemma_first_hit(cs, d, id, m);
                match first_hit(cs, d, id, m) {
                    None => {
                        lemma_walk_same_until(cs, id, np, d, m);
                        lemma_walk_same_until(cs, id, np, d, j);
                        assert(repeats_at(cs, d, m));
                    },
                    Some(k0) => {
                        lemma_walk_same_until(cs, id, np, d, k0);
                        if m <= k0 {
                            lemma_walk_same_until(cs, id, np, d, m);
                            lemma_walk_same_until(cs, id, np, d, j);
                            assert(repeats_at(cs, d, m));
                        } else {
                            lemma_walk_compose(n, d, k0, 1);
                            lemma_reparented_parent(cs, id, np, id);
                            let t = (m - k0 - 1) as nat;
                            lemma_walk_compose(n, d, k0 + 1, t);
                            assert(m == k0 + 1 + t);
                            match np {
                                None => {
                                    assert(ancestor_at(n, d, m) is None);
                                },
                                Some(pid) => {
                                    lemma_valid_no_cycle(cs, pid);
                                    assert forall|q: nat| #[trigger] ancestor_at(cs, pid, q) != Some(id) by {
                                        if ancestor_at(cs, pid, q) == Some(id) {
                                            if q == 0 {
                                                assert(pid == id);
                                            } else {
                                                lemma_hit_is_ancestor(cs, id, pid, q);
                                            }
                                        }
                                    }
                                    lemma_walk_same_until(cs, id, np, pid, t);
                                    assert(ancestor_at(n, d, m) == ancestor_at(cs, pid, t));
                                    if j > k0 {
                                        let tj = (j - k0 - 1) as nat;
                                        lemma_walk_compose(n, d, k0 + 1, tj);
                                        assert(j == k0 + 1 + tj);
                                        lemma_walk_same_until(cs, id, np, pid, tj);
                                        assert(ancestor_at(cs, pid, tj) == ancestor_at(cs, pid, t));
                                        assert(repeats_at(cs, pid, t));
                                    } else if j == k0 {
                                        assert(ancestor_at(cs, pid, t) == Some(id));
                                    } else {
                                        lemma_walk_same_until(cs, id, np, d, j);
                                        let x = ancestor_at(cs, d, j).unwrap();
                                        assert(ancestor_at(cs, pid, t) == Some(x));
                                        lemma_walk_compose(cs, d, j, (k0 - j) as nat);
                                        assert(k0 == j + (k0 - j) as nat);
                                        lemma_walk_compose(cs, pid, t, (k0 - j) as nat);
                                        assert(ancestor_at(cs, pid, t + (k0 - j) as nat) == Some(id));
                                    }
                                },
                            }
                        }
                    },
                }
            }
        }
    }
}

// --- Additions and removals keep the forest a forest --------------------------------

/// Looking up in a list with one more concept at the end.
proof fn lemma_lookup_push(cs: Seq<Concept>, c: Concept, x: ConceptId)
    ensures
        lookup_concept(cs.push(c), x) == match lookup_concept(cs, x) {
            Some(y) => Some(y),
            None => if c.id == x {
                Some(c)
            } else {
                None
            },
        },
{
    let n = cs.push(c);
    assert(cids(n) =~= cids(cs).push(c.id));
    assert(cids(n).drop_last() =~= cids(cs));
    lemma_concept_pos(cs, x);
    lemma_concept_pos(n, x);
}

/// In a valid forest every step of a walk from an existing concept is an existing concept.
proof fn lemma_walk_stays_inside(cs: Seq<Concept>, d: ConceptId, k: nat)
    requires
        tree_valid(cs),
        has_concept(cs, d),
    ensures
        ancestor_at(cs, d, k) matches Some(z) ==> has_concept(cs, z),
    decreases k,
{
    if k > 0 {
        lemma_walk_stays_inside(cs, d, (k - 1) as nat);
        match ancestor_at(cs, d, (k - 1) as nat) {
            Some(z) => {
                lemma_concept_pos(cs, z);
                assert(tree_node_ok(cs, cs[concept_pos(cs, z)]));
            },
            None => {},
        }
    }
}

/// Two lists whose lookups agree on every identifier have the same walks.
proof fn lemma_walk_agree(a: Seq<Concept>, b: Seq<Concept>, d: ConceptId, k: nat)
    requires
        forall|j: nat, z: ConceptId|
            #![trigger ancestor_at(a, d, j), parent_of(a, z)]
            j < k && ancestor_at(a, d, j) == Some(z) ==> parent_of(a, z) == parent_of(b, z),
    ensures
        ancestor_at(a, d, k) == ancestor_at(b, d, k),
    decreases k,
{
    if k > 0 {
        lemma_walk_agree(a, b, d, (k - 1) as nat);
    }
}

/// Adding a concept with a fresh identifier whose parent exists (or that is
/// a root) keeps a valid forest valid.
pub proof fn lemma_add_keeps_forest(cs: Seq<Concept>, c: Concept)
    requires
        tree_valid(cs),
        !has_concept(cs, c.id),
        c.parent matches Some(p) ==> has_concept(cs, p),
    ensures
        tree_valid(cs.push(c)),
{
    let n = cs.push(c);
    assert forall|x: ConceptId| has_concept(cs, x) implies parent_of(n, x) == parent_of(cs, x) && has_concept(n, x) by {
        lemma_lookup_push(cs, c, x);
        lemma_concept_pos(cs, x);
        lemma_concept_pos(n, x);
    }
    lemma_lookup_push(cs, c, c.id);
    lemma_concept_pos(cs, c.id);
    lemma_concept_pos(n, c.id);
    assert(parent_of(n, c.id) == c.parent);
    // Walks from existing concepts are unchanged.
    assert forall|d: ConceptId, k: nat| has_concept(cs, d) implies #[trigger] ancestor_at(n, d, k) == ancestor_at(cs, d, k) by {
        assert forall|j: nat, z: ConceptId| j < k && ancestor_at(cs, d, j) == Some(z) implies parent_of(cs, z) == parent_of(n, z) by {
            lemma_walk_stays_inside(cs, d, j);
        }
        lemma_walk_agree(cs, n, d, k);
    }
    assert forall|i: int| 0 <= i < n.len() implies tree_node_ok(n, #[trigger] n[i]) by {
        let e = n[i];
        match e.parent {
            Some(p) => {
                if i < cs.len() {
                    assert(e == cs[i]);
                    assert(tree_node_ok(cs, cs[i]));
                } else {
                    assert(e == c);
                }
                assert(has_concept(n, p));
            },
            None => {},
        }
        if i < cs.len() {
            assert(e == cs[i]);
            assert(tree_node_ok(cs, cs[i]));
            lemma_concept_pos(cs, e.id);
            assert(has_concept(cs, e.id));
            assert forall|m: nat| !repeats_at(n, e.id, m) by {
                if repeats_at(n, e.id, m) {
                    let j = choose|j: nat| j < m && ancestor_at(n, e.id, j) == #[trigger] ancestor_at(n, e.id, m);
                    assert(ancestor_at(n, e.id, j) == ancestor_at(cs, e.id, j));
                    assert(ancestor_at(n, e.id, m) == ancestor_at(cs, e.id, m));
                    assert(repeats_at(cs, e.id, m));
                }
            }
        } else {
            assert(e == c);
            assert forall|m: nat| !repeats_at(n, c.id, m) by {
                if repeats_at(n, c.id, m) {
                    let j = choose|j: nat| j < m && ancestor_at(n, c.id, j) == #[trigger] ancestor_at(n, c.id, m);
                    lemma_walk_compose(n, c.id, 1, (m - 1) as nat);
                    assert(m == 1 + (m - 1) as nat);
                    assert(ancestor_at(n, c.id, 0) == Some(c.id));
                    assert(ancestor_at(n, c.id, 1) == parent_of(n, c.id));
                    assert(parent_of(n, c.id) == c.parent);
                    match c.parent {
                        None => {
                            assert(ancestor_at(n, c.id, 1) is None);
                        },
                        Some(p) => {
                            assert(ancestor_at(n, c.id, m) == ancestor_at(n, p, (m - 1) as nat));
                            assert(ancestor_at(n, p, (m - 1) as nat) == ancestor_at(cs, p, (m - 1) as nat));
                            lemma_walk_stays_inside(cs, p, (m - 1) as nat);
                            lemma_concept_pos(cs, p);
                            assert(tree_node_ok(cs, cs[concept_pos(cs, p)]));
                            if j == 0 {
                                assert(ancestor_at(cs, p, (m - 1) as nat) == Some(c.id));
                            } else {
                                lemma_walk_compose(n, c.id, 1, (j - 1) as nat);
                                assert(j == 1 + (j - 1) as nat);
                                assert(ancestor_at(n, p, (j - 1) as nat) == ancestor_at(cs, p, (j - 1) as nat));
                                assert(repeats_at(cs, p, (m - 1) as nat));
                            }
                        },
                    }
                }
            }
        }
    }
}

/// Lookups in a list without the concepts `id` are the old lookups for any
/// other identifier.
proof fn lemma_lookup_without(cs: Seq<Concept>, id: ConceptId, x: ConceptId)
    requires
        x != id,
    ensures
        lookup_concept(concepts_without(cs, id), x) == lookup_concept(cs, x),
    decreases cs.len(),
{
    if cs.len() == 0 {
        assert(concepts_without(cs, id) =~= Seq::<Concept>::empty());
        lemma_concept_pos(cs, x);
        lemma_concept_pos(concepts_without(cs, id), x);
    } else {
        let d = cs.drop_last();
        lemma_lookup_without(d, id, x);
        reveal_with_fuel(Seq::filter, 1);
        assert(cs == d.push(cs.last()));
        lemma_lookup_push(d, cs.last(), x);
        if cs.last().id != id {
            assert(concepts_without(cs, id) == concepts_without(d, id).push(cs.last()));
            lemma_lookup_push(concepts_without(d, id), cs.last(), x);
        } else {
            assert(concepts_without(cs, id) == concepts_without(d, id));
        }
    }
}

/// Removing a concept that has no children keeps a valid forest valid.
pub proof fn lemma_remove_keeps_forest(cs: Seq<Concept>, id: ConceptId)
    requires
        tree_valid(cs),
        children_spec(cs, id).len() == 0,
    ensures
        tree_valid(concepts_without(cs, id)),
{
    let n = concepts_without(cs, id);
    let f = |c: Concept| c.id != id;
    crate::model::project::lemma_filter_in(cs, f);
    // Nobody has `id` as parent.
    assert forall|i: int| 0 <= i < cs.len() implies cs[i].parent != Some(id) by {
        if cs[i].parent == Some(id) {
            let g = |c: Concept| c.parent == Some(id);
            crate::model::project::lemma_filter_len(cs, g);
            lemma_filter_has(cs, g, i);
        }
    }
    assert forall|x: ConceptId| x != id implies parent_of(n, x) == parent_of(cs, x) by {
        lemma_lookup_without(cs, id, x);
    }
    assert forall|d: ConceptId, k: nat| d != id && has_concept(cs, d) implies #[trigger] ancestor_at(n, d, k) == ancestor_at(cs, d, k) by {
        assert forall|j: nat, z: ConceptId| j < k && ancestor_at(cs, d, j) == Some(z) implies parent_of(cs, z) == parent_of(n, z) by {
            if z == id {
                if j == 0 {
                } else {
                    lemma_walk_compose(cs, d, (j - 1) as nat, 1);
                    assert(j == (j - 1) as nat + 1);
                    lemma_walk_stays_inside(cs, d, (j - 1) as nat);
                    let y = ancestor_at(cs, d, (j - 1) as nat).unwrap();
                    lemma_concept_pos(cs, y);
                    assert(parent_of(cs, y) == Some(id));
                    assert(cs[concept_pos(cs, y)].parent != Some(id));
                }
            }
        }
        lemma_walk_agree(cs, n, d, k);
    }
    assert forall|i: int| 0 <= i < n.len() implies tree_node_ok(n, #[trigger] n[i]) by {
        let e = n[i];
        assert(cs.contains(e) && e.id != id);
        let k = choose|k: int| 0 <= k < cs.len() && cs[k] == e;
        assert(tree_node_ok(cs, cs[k]));
        lemma_concept_pos(cs, e.id);
        match e.parent {
            Some(p) => {
                assert(p != id);
                lemma_lookup_without(cs, id, p);
                lemma_concept_pos(cs, p);
                lemma_concept_pos(n, p);
            },
            None => {},
        }
        assert forall|m: nat| !repeats_at(n, e.id, m) by {
            if repeats_at(n, e.id, m) {
                let j = choose|j: nat| j < m && ancestor_at(n, e.id, j) == #[trigger] ancestor_at(n, e.id, m);
                assert(ancestor_at(n, e.id, j) == ancestor_at(cs, e.id, j));
                assert(ancestor_at(n, e.id, m) == ancestor_at(cs, e.id, m));
                assert(repeats_at(cs, e.id, m));
            }
        }
    }
}

/// A position that satisfies a filter's predicate puts an element in the result.
proof fn lemma_filter_has<A>(s: Seq<A>, f: spec_fn(A) -> bool, i: int)
    requires
        0 <= i < s.len(),
        f(s[i]),
    ensures
        s.filter(f).len() > 0,
    decreases s.len(),
{
    reveal_with_fuel(Seq::filter, 1);
    if i < s.len() - 1 {
        lemma_filter_has(s.drop_last(), f, i);
        crate::model::project::lemma_filter_len(s.drop_last(), f);
    }
}

// --- Positioned moves keep the forest a forest ------------------------------------------

/// With unique identifiers, a lookup finds the one concept holding the identifier.
proof fn lemma_unique_lookup(s: Seq<Concept>, x: ConceptId)
    requires
        cids(s).no_duplicates(),
    ensures
        forall|k: int| 0 <= k < s.len() && s[k].id == x ==> lookup_concept(s, x) == Some(s[k]),
        (forall|k: int| 0 <= k < s.len() ==> s[k].id != x) ==> lookup_concept(s, x) is None,
{
    lemma_concept_pos(s, x);
    assert forall|k: int| 0 <= k < s.len() && s[k].id == x implies lookup_concept(s, x) == Some(s[k]) by {
        let p = concept_pos(s, x);
        assert(p >= 0);
        assert(cids(s)[p] == cids(s)[k]);
    }
}

/// The index in the re-parented list of the element at `a` of the
/// re-positioned list (`k` is where the moved concept was re-inserted).
pub open spec fn source_index(idx: int, k: int, a: int) -> int {
    if a == k {
        idx
    } else {
        let t = if a < k { a } else { a - 1 };
        if t < idx { t } else { t + 1 }
    }
}

/// Moving a concept to another position among the concepts, under a new
/// parent that is neither itself nor one of its descendants (or to the top
/// level), keeps a valid forest with unique identifiers valid.
pub proof fn lemma_positioned_keeps_forest(cs: Seq<Concept>, id: ConceptId, np: Option<ConceptId>, k: int)
    requires
        tree_valid(cs),
        cids(cs).no_duplicates(),
        has_concept(cs, id),
        np matches Some(pid) ==> has_concept(cs, pid) && pid != id && !is_ancestor_spec(cs, id, pid),
        0 <= k <= cs.len() - 1,
    ensures
        ({
            let idx = concept_pos(cs, id);
            tree_valid(cs.remove(idx).insert(k, Concept { parent: np, ..cs[idx] }))
        }),
{
    lemma_concept_pos(cs, id);
    let idx = concept_pos(cs, id);
    let elem = Concept { parent: np, ..cs[idx] };
    let f = cs.remove(idx).insert(k, elem);
    let r = reparented(cs, id, np);
    lemma_move_keeps_forest(cs, id, np);
    lemma_reparented_parent(cs, id, np, id);
    assert(r.len() == cs.len() && f.len() == cs.len());
    assert forall|a: int| 0 <= a < f.len() implies #[trigger] f[a] == r[source_index(idx, k, a)] by {
        if a == k {
        } else if a < k {
            if a < idx {
            } else {
            }
        } else {
        }
    }
    assert forall|a: int| 0 <= a < f.len() implies 0 <= #[trigger] source_index(idx, k, a) < r.len() by {}
    // Every re-parented position has a source.
    assert forall|b: int| #![trigger r[b]] 0 <= b < r.len() implies exists|a: int| 0 <= a < f.len() && #[trigger] source_index(idx, k, a) == b by {
        if b == idx {
            assert(source_index(idx, k, k) == b);
        } else {
            let t = if b < idx { b } else { b - 1 };
            let a = if t < k { t } else { t + 1 };
            assert(source_index(idx, k, a) == b);
        }
    }
    // Identifiers stay unique.
    assert(cids(r) == cids(cs));
    assert(cids(f).no_duplicates()) by {
        assert forall|a1: int, a2: int| 0 <= a1 < cids(f).len() && 0 <= a2 < cids(f).len() && a1 != a2 implies cids(f)[a1] != cids(f)[a2] by {
            let b1 = source_index(idx, k, a1);
            let b2 = source_index(idx, k, a2);
            assert(f[a1] == r[b1] && f[a2] == r[b2]);
            assert(b1 != b2);
            assert(cids(r)[b1] != cids(r)[b2]);
        }
    }
    // Lookups agree.
    assert forall|x: ConceptId| #[trigger] lookup_concept(f, x) == lookup_concept(r, x) by {
        lemma_unique_lookup(f, x);
        lemma_unique_lookup(r, x);
        if exists|a: int| 0 <= a < f.len() && f[a].id == x {
            let a = choose|a: int| 0 <= a < f.len() && f[a].id == x;
            assert(f[a] == r[source_index(idx, k, a)]);
        } else if exists|b: int| 0 <= b < r.len() && r[b].id == x {
            let b = choose|b: int| 0 <= b < r.len() && r[b].id == x;
            let a = choose|a: int| 0 <= a < f.len() && #[trigger] source_index(idx, k, a) == b;
            assert(f[a] == r[b]);
        }
    }
    assert forall|x: ConceptId| parent_of(f, x) == parent_of(r, x) && has_concept(f, x) == has_concept(r, x) by {
        assert(lookup_concept(f, x) == lookup_concept(r, x));
        lemma_concept_pos(f, x);
        lemma_concept_pos(r, x);
    }
    assert forall|d: ConceptId, m: nat| #[trigger] ancestor_at(f, d, m) == ancestor_at(r, d, m) by {
        assert forall|j: nat, z: ConceptId| j < m && ancestor_at(f, d, j) == Some(z) implies parent_of(f, z) == parent_of(r, z) by {}
        lemma_walk_agree(f, r, d, m);
    }
    assert forall|a: int| 0 <= a < f.len() implies tree_node_ok(f, #[trigger] f[a]) by {
        let b = source_index(idx, k, a);
        assert(f[a] == r[b]);
        assert(tree_node_ok(r, r[b]));
        let e = f[a];
        match e.parent {
            Some(p) => {
                assert(has_concept(r, p));
            },
            None => {},
        }
        assert forall|m: nat| !repeats_at(f, e.id, m) by {
            if repeats_at(f, e.id, m) {
                let j = choose|j: nat| j < m && ancestor_at(f, e.id, j) == #[trigger] ancestor_at(f, e.id, m);
                assert(ancestor_at(f, e.id, j) == ancestor_at(r, e.id, j));
                assert(repeats_at(r, e.id, m));
            }
        }
    }
}

/// Walks up from `d` agree on lists with the same identifiers and parents.
pub proof fn lemma_same_links_ancestor(a: Seq<Concept>, b: Seq<Concept>, d: ConceptId, k: nat)
    requires
        cids(a) == cids(b),
        a.len() == b.len(),
        forall|i: int| 0 <= i < a.len() ==> (#[trigger] a[i]).parent == b[i].parent,
    ensures
        ancestor_at(a, d, k) == ancestor_at(b, d, k),
    decreases k,
{
    if k > 0 {
        lemma_same_links_ancestor(a, b, d, (k - 1) as nat);
        match ancestor_at(a, d, (k - 1) as nat) {
            Some(x) => {
                lemma_concept_pos(a, x);
                lemma_concept_pos(b, x);
            },
            None => {},
        }
    }
}

/// Ancestry depends only on identifiers and parents.
pub proof fn lemma_same_links(a: Seq<Concept>, b: Seq<Concept>, x: ConceptId, y: ConceptId)
    requires
        cids(a) == cids(b),
        a.len() == b.len(),
        forall|i: int| 0 <= i < a.len() ==> (#[trigger] a[i]).parent == b[i].parent,
    ensures
        is_ancestor_spec(a, x, y) == is_ancestor_spec(b, x, y),
        has_concept(a, x) == has_concept(b, x),
        concept_pos(a, x) == concept_pos(b, x),
        parent_of(a, x) == parent_of(b, x),
{
    assert forall|m: nat| #![trigger repeats_at(a, y, m)] #![trigger repeats_at(b, y, m)] repeats_at(a, y, m) == repeats_at(b, y, m) by {
        lemma_same_links_ancestor(a, b, y, m);
        if repeats_at(a, y, m) {
            let j = choose|j: nat| j < m && ancestor_at(a, y, j) == #[trigger] ancestor_at(a, y, m);
            lemma_same_links_ancestor(a, b, y, j);
            assert(ancestor_at(b, y, j) == ancestor_at(b, y, m));
        }
        if repeats_at(b, y, m) {
            let j = choose|j: nat| j < m && ancestor_at(b, y, j) == #[trigger] ancestor_at(b, y, m);
            lemma_same_links_ancestor(a, b, y, j);
            assert(ancestor_at(a, y, j) == ancestor_at(a, y, m));
        }
    }
    if is_ancestor_spec(a, x, y) {
        let k = choose|k: nat| k >= 1 && #[trigger] ancestor_at(a, y, k) == Some(x) && forall|m: nat| m < k ==> !repeats_at(a, y, m);
        lemma_same_links_ancestor(a, b, y, k);
        assert(forall|m: nat| m < k ==> !repeats_at(b, y, m));
    }
    if is_ancestor_spec(b, x, y) {
        let k = choose|k: nat| k >= 1 && #[trigger] ancestor_at(b, y, k) == Some(x) && forall|m: nat| m < k ==> !repeats_at(b, y, m);
        lemma_same_links_ancestor(a, b, y, k);
        assert(forall|m: nat| m < k ==> !repeats_at(a, y, m));
    }
    lemma_concept_pos(a, x);
    lemma_concept_pos(b, x);
}

/// Lists with the same identifiers and parents are valid trees together.
pub proof fn lemma_same_links_tree(a: Seq<Concept>, b: Seq<Concept>)
    requires
        cids(a) == cids(b),
        a.len() == b.len(),
        forall|i: int| 0 <= i < a.len() ==> (#[trigger] a[i]).parent == b[i].parent,
    ensures
        tree_valid(a) == tree_valid(b),
{
    assert forall|d: ConceptId| walk_cycles(a, d) == walk_cycles(b, d) by {
        assert forall|m: nat| #![trigger repeats_at(a, d, m)] #![trigger repeats_at(b, d, m)] repeats_at(a, d, m) == repeats_at(b, d, m) by {
            lemma_same_links_ancestor(a, b, d, m);
            if repeats_at(a, d, m) {
                let j = choose|j: nat| j < m && ancestor_at(a, d, j) == #[trigger] ancestor_at(a, d, m);
                lemma_same_links_ancestor(a, b, d, j);
            }
            if repeats_at(b, d, m) {
                let j = choose|j: nat| j < m && ancestor_at(b, d, j) == #[trigger] ancestor_at(b, d, m);
                lemma_same_links_ancestor(a, b, d, j);
            }
        }
        if walk_cycles(a, d) {
            let m = choose|m: nat| repeats_at(a, d, m);
            assert(repeats_at(b, d, m));
        }
        if walk_cycles(b, d) {
            let m = choose|m: nat| repeats_at(b, d, m);
            assert(repeats_at(a, d, m));
        }
    }
    assert forall|i: int| 0 <= i < a.len() implies tree_node_ok(a, #[trigger] a[i]) == tree_node_ok(b, b[i]) by {
        assert(cids(a)[i] == cids(b)[i]);
        assert(cids(a)[i] == a[i].id);
        assert(cids(b)[i] == b[i].id);
        assert(a[i].id == b[i].id);
        assert(walk_cycles(a, a[i].id) == walk_cycles(b, a[i].id));
        match a[i].parent {
            Some(p) => {
                lemma_same_links(a, b, p, p);
                assert(has_concept(a, p) == has_concept(b, p));
            },
            None => {},
        }
    }
    if tree_valid(a) {
        assert forall|i: int| 0 <= i < b.len() implies tree_node_ok(b, #[trigger] b[i]) by {
            assert(tree_node_ok(a, a[i]));
        }
    }
    if tree_valid(b) {
        assert forall|i: int| 0 <= i < a.len() implies tree_node_ok(a, #[trigger] a[i]) by {
            assert(tree_node_ok(b, b[i]));
        }
    }
}

} // verus!
