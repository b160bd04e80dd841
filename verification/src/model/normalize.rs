//! Normalizing twice renames nothing the second time: after a planned
//! renumbering is applied, the pre-order walk over the renumbered concepts
//! meets them in array order, so the next plan renames every concept to
//! itself.
use vstd::prelude::*;

use super::concept::Concept;
use super::id::ConceptId;
use super::project::{
    child_ids, children_spec, cids, concept_pos, dfs_fuel, dfs_preorder_spec, dfs_run, dfs_step, lemma_child_ids_in,
    dfs_measure, lemma_concept_pos, lemma_filter_in, parent_of, relink, renamed, renumber_pairs, renumbered, root_ids, roots_spec,
    applied_concepts, has_concept, lookup_concept,
};
use crate::graph::tree::{ancestor_at, lemma_walk_compose, repeats_at, tree_node_ok, tree_valid, walk_cycles};
use crate::seqs::{first_pos, last_pos, lemma_distinct_bound, lemma_first_pos, lemma_full_distinct, lemma_last_pos};

verus! {

/// No two concepts of `cs` share an identifier.
pub open spec fn ids_unique(cs: Seq<Concept>) -> bool {
    cids(cs).no_duplicates()
}

/// A state of the pre-order walk over `cs`: nothing is output twice or both
/// output and pending, every output or pending identifier names a concept,
/// and its parent, if any, is already output.
pub open spec fn walk_ok(cs: Seq<Concept>, stack: Seq<ConceptId>, out: Seq<ConceptId>) -> bool {
    &&& out.no_duplicates()
    &&& stack.no_duplicates()
    &&& forall|i: int, j: int| 0 <= i < out.len() && 0 <= j < stack.len() ==> out[i] != stack[j]
    &&& forall|i: int| 0 <= i < out.len() ==> cids(cs).contains(#[trigger] out[i])
    &&& forall|i: int| 0 <= i < stack.len() ==> cids(cs).contains(#[trigger] stack[i])
    &&& forall|i: int| 0 <= i < out.len() ==> match parent_of(cs, #[trigger] out[i]) {
        Some(p) => out.contains(p),
        None => true,
    }
    &&& forall|i: int| 0 <= i < stack.len() ==> match parent_of(cs, #[trigger] stack[i]) {
        Some(p) => out.contains(p),
        None => true,
    }
    &&& forall|i: int| 0 <= i < out.len() ==> match parent_of(cs, #[trigger] out[i]) {
        Some(p) => out.take(i).contains(p),
        None => true,
    }
}

/// In a list without repeats, the first position of an element is where it is.
pub proof fn lemma_pos_unique<A>(s: Seq<A>, p: int)
    requires
        s.no_duplicates(),
        0 <= p < s.len(),
    ensures
        first_pos(s, s[p]) == p,
{
    lemma_first_pos(s, s[p]);
    assert(s.contains(s[p]));
}

/// With unique identifiers, the concept found under a child's identifier is
/// that child, whose parent is `x`.
pub proof fn lemma_child_parent(cs: Seq<Concept>, x: ConceptId, j: int)
    requires
        ids_unique(cs),
        0 <= j < child_ids(cs, x).len(),
    ensures
        parent_of(cs, child_ids(cs, x)[j]) == Some(x),
        cids(cs).contains(child_ids(cs, x)[j]),
{
    let f = |c: Concept| c.parent == Some(x);
    lemma_filter_in(cs, f);
    let c = children_spec(cs, x)[j];
    assert(cs.contains(c));
    let k = choose|k: int| 0 <= k < cs.len() && cs[k] == c;
    assert(cids(cs)[k] == c.id);
    lemma_pos_unique(cids(cs), k);
    lemma_concept_pos(cs, c.id);
    assert(concept_pos(cs, c.id) == k);
}

/// Filtering a list with unique identifiers keeps them unique.
pub proof fn lemma_filter_ids_unique(cs: Seq<Concept>, f: spec_fn(Concept) -> bool)
    requires
        ids_unique(cs),
    ensures
        ids_unique(cs.filter(f)),
    decreases cs.len(),
{
    reveal_with_fuel(Seq::filter, 1);
    if cs.len() > 0 {
        let d = cs.drop_last();
        assert forall|a: int, b: int| 0 <= a < cids(d).len() && 0 <= b < cids(d).len() && a != b implies cids(d)[a] != cids(d)[b] by {
            assert(cids(d)[a] == cids(cs)[a] && cids(d)[b] == cids(cs)[b]);
        }
        lemma_filter_ids_unique(d, f);
        let sub = d.filter(f);
        if f(cs.last()) {
            lemma_filter_in(d, f);
            let out = sub.push(cs.last());
            assert(cs.filter(f) == out);
            assert forall|a: int, b: int| 0 <= a < cids(out).len() && 0 <= b < cids(out).len() && a != b implies cids(out)[a] != cids(out)[b] by {
                if a < sub.len() && b < sub.len() {
                    assert(cids(out)[a] == cids(sub)[a] && cids(out)[b] == cids(sub)[b]);
                } else if a < sub.len() {
                    assert(d.contains(sub[a]));
                    let k = choose|k: int| 0 <= k < d.len() && d[k] == sub[a];
                    assert(cids(cs)[k] == sub[a].id);
                    assert(cids(cs)[cs.len() - 1] == cs.last().id);
                } else if b < sub.len() {
                    assert(d.contains(sub[b]));
                    let k = choose|k: int| 0 <= k < d.len() && d[k] == sub[b];
                    assert(cids(cs)[k] == sub[b].id);
                    assert(cids(cs)[cs.len() - 1] == cs.last().id);
                }
            }
        } else {
            assert(cs.filter(f) == sub);
        }
    }
}

/// With unique identifiers, the children of `x` are listed once each.
proof fn lemma_children_unique(cs: Seq<Concept>, x: ConceptId)
    requires
        ids_unique(cs),
    ensures
        child_ids(cs, x).no_duplicates(),
{
    lemma_filter_ids_unique(cs, |c: Concept| c.parent == Some(x));
}

/// One step of the walk from a good state outputs the top identifier and
/// pushes its children; the new state is good.
proof fn lemma_walk_step(cs: Seq<Concept>, stack: Seq<ConceptId>, out: Seq<ConceptId>)
    requires
        ids_unique(cs),
        walk_ok(cs, stack, out),
        stack.len() > 0,
    ensures
        !out.contains(stack.last()),
        dfs_step(cs, stack, out) == (stack.drop_last() + child_ids(cs, stack.last()).reverse(), out.push(stack.last())),
        walk_ok(cs, stack.drop_last() + child_ids(cs, stack.last()).reverse(), out.push(stack.last())),
{
    let x = stack.last();
    let top = stack.len() - 1;
    assert(stack[top] == x);
    if out.contains(x) {
        let i = choose|i: int| 0 <= i < out.len() && out[i] == x;
        assert(out[i] != stack[top]);
    }
    let kids = child_ids(cs, x);
    let rk = kids.reverse();
    let s2 = stack.drop_last() + rk;
    let o2 = out.push(x);
    lemma_children_unique(cs, x);
    assert forall|a: int| 0 <= a < kids.len() implies parent_of(cs, #[trigger] kids[a]) == Some(x) && cids(cs).contains(kids[a]) by {
        lemma_child_parent(cs, x, a);
    }
    // A child is neither output nor pending: its parent `x` is not output.
    assert forall|a: int| 0 <= a < kids.len() implies !out.contains(#[trigger] kids[a]) && !stack.contains(kids[a]) by {
        if out.contains(kids[a]) {
            let i = choose|i: int| 0 <= i < out.len() && out[i] == kids[a];
            assert(parent_of(cs, out[i]) == Some(x));
        }
        if stack.contains(kids[a]) {
            let i = choose|i: int| 0 <= i < stack.len() && stack[i] == kids[a];
            assert(parent_of(cs, stack[i]) == Some(x));
        }
    }
    assert forall|a: int| 0 <= a < rk.len() implies #[trigger] rk[a] == kids[kids.len() - 1 - a] by {}
    // The new stack has no repeats.
    assert forall|a: int, b: int| 0 <= a < s2.len() && 0 <= b < s2.len() && a != b implies s2[a] != s2[b] by {
        if a < top && b < top {
            assert(s2[a] == stack[a] && s2[b] == stack[b]);
        } else if a < top {
            assert(s2[a] == stack[a]);
            assert(s2[b] == kids[kids.len() - 1 - (b - top)]);
            assert(stack.contains(stack[a]));
        } else if b < top {
            assert(s2[b] == stack[b]);
            assert(s2[a] == kids[kids.len() - 1 - (a - top)]);
            assert(stack.contains(stack[b]));
        } else {
            assert(s2[a] == kids[kids.len() - 1 - (a - top)]);
            assert(s2[b] == kids[kids.len() - 1 - (b - top)]);
        }
    }
    assert forall|i: int, j: int| 0 <= i < o2.len() && 0 <= j < s2.len() implies o2[i] != s2[j] by {
        if j < top {
            assert(s2[j] == stack[j]);
            if i < out.len() {
                assert(o2[i] == out[i]);
            } else {
                assert(o2[i] == stack[top]);
            }
        } else {
            let a = kids.len() - 1 - (j - top);
            assert(s2[j] == kids[a]);
            if i < out.len() {
                assert(o2[i] == out[i]);
                assert(out.contains(out[i]));
            } else {
                assert(o2[i] == x);
                if kids[a] == x {
                    assert(parent_of(cs, kids[a]) == Some(x));
                    assert(parent_of(cs, stack[top]) == Some(x));
                    assert(out.contains(x));
                }
            }
        }
    }
    assert forall|i: int| 0 <= i < o2.len() implies cids(cs).contains(#[trigger] o2[i]) by {
        if i < out.len() {
            assert(o2[i] == out[i]);
        } else {
            assert(o2[i] == stack[top]);
        }
    }
    assert forall|j: int| 0 <= j < s2.len() implies cids(cs).contains(#[trigger] s2[j]) by {
        if j < top {
            assert(s2[j] == stack[j]);
        } else {
            assert(s2[j] == kids[kids.len() - 1 - (j - top)]);
        }
    }
    assert forall|i: int| 0 <= i < o2.len() implies match parent_of(cs, #[trigger] o2[i]) {
        Some(p) => o2.contains(p),
        None => true,
    } by {
        if i < out.len() {
            assert(o2[i] == out[i]);
            if let Some(p) = parent_of(cs, out[i]) {
                let k = choose|k: int| 0 <= k < out.len() && out[k] == p;
                assert(o2[k] == p);
            }
        } else {
            assert(o2[i] == stack[top]);
            if let Some(p) = parent_of(cs, stack[top]) {
                let k = choose|k: int| 0 <= k < out.len() && out[k] == p;
                assert(o2[k] == p);
            }
        }
    }
    assert forall|j: int| 0 <= j < s2.len() implies match parent_of(cs, #[trigger] s2[j]) {
        Some(p) => o2.contains(p),
        None => true,
    } by {
        if j < top {
            assert(s2[j] == stack[j]);
            if let Some(p) = parent_of(cs, stack[j]) {
                let k = choose|k: int| 0 <= k < out.len() && out[k] == p;
                assert(o2[k] == p);
            }
        } else {
            assert(s2[j] == kids[kids.len() - 1 - (j - top)]);
            assert(o2[out.len() as int] == x);
        }
    }
    assert forall|i: int| 0 <= i < o2.len() implies match parent_of(cs, #[trigger] o2[i]) {
        Some(p) => o2.take(i).contains(p),
        None => true,
    } by {
        if i < out.len() {
            assert(o2[i] == out[i]);
            assert(o2.take(i) =~= out.take(i));
        } else {
            assert(o2[i] == stack[top]);
            assert(o2.take(i) =~= out);
        }
    }
}

/// The identifiers `ks` all appear in `r`, in the order of `ks`.
pub open spec fn in_order(r: Seq<ConceptId>, ks: Seq<ConceptId>) -> bool {
    &&& forall|a: int| 0 <= a < ks.len() ==> r.contains(#[trigger] ks[a])
    &&& forall|a: int, b: int| 0 <= a < b < ks.len() ==> first_pos(r, #[trigger] ks[a]) < first_pos(r, #[trigger] ks[b])
}

/// The walk from a good state with enough steps outputs every pending
/// identifier after what was already output, the higher ones on the stack
/// first, and the children of every identifier it outputs in array order.
proof fn lemma_walk_run(cs: Seq<Concept>, stack: Seq<ConceptId>, out: Seq<ConceptId>, fuel: nat)
    requires
        ids_unique(cs),
        walk_ok(cs, stack, out),
        fuel + out.len() >= cs.len(),
    ensures
        ({
            let r = dfs_run(cs, stack, out, fuel);
            &&& walk_ok(cs, Seq::empty(), r)
            &&& r.len() >= out.len()
            &&& r.take(out.len() as int) == out
            &&& forall|i: int| 0 <= i < stack.len() ==> r.contains(#[trigger] stack[i]) && first_pos(r, stack[i]) >= out.len()
            &&& forall|i: int, j: int| 0 <= i < j < stack.len() ==> first_pos(r, #[trigger] stack[j]) < first_pos(r, #[trigger] stack[i])
            &&& forall|y: ConceptId| r.contains(y) && !out.contains(y) ==> in_order(r, #[trigger] child_ids(cs, y))
        }),
    decreases fuel,
{
    let r = dfs_run(cs, stack, out, fuel);
    if stack.len() == 0 {
        assert(r == out);
        assert(out.take(out.len() as int) =~= out);
    } else {
        lemma_walk_step(cs, stack, out);
        let x = stack.last();
        let top = stack.len() - 1;
        let kids = child_ids(cs, x);
        let s2 = stack.drop_last() + kids.reverse();
        let o2 = out.push(x);
        lemma_distinct_bound(o2, cids(cs));
        assert(fuel > 0);
        assert(r == dfs_run(cs, s2, o2, (fuel - 1) as nat));
        lemma_walk_run(cs, s2, o2, (fuel - 1) as nat);
        assert(r.take(out.len() as int) =~= r.take(o2.len() as int).take(out.len() as int));
        assert(o2.take(out.len() as int) =~= out);
        assert(r[out.len() as int] == r.take(o2.len() as int)[out.len() as int]);
        assert(r[out.len() as int] == x);
        lemma_pos_unique(r, out.len() as int);
        assert(first_pos(r, x) == out.len());
        assert forall|i: int| 0 <= i < top implies #[trigger] s2[i] == stack[i] by {}
        assert forall|a: int| 0 <= a < kids.len() implies #[trigger] s2[top + (kids.len() - 1 - a)] == kids[a] by {
            assert(kids.reverse()[kids.len() - 1 - a] == kids[a]);
        }
        assert forall|i: int| 0 <= i < stack.len() implies r.contains(#[trigger] stack[i]) && first_pos(r, stack[i]) >= out.len() by {
            if i < top {
                assert(s2[i] == stack[i]);
            } else {
                assert(stack[i] == x);
                assert(r.contains(r[out.len() as int]));
            }
        }
        assert forall|i: int, j: int| 0 <= i < j < stack.len() implies first_pos(r, #[trigger] stack[j]) < first_pos(r, #[trigger] stack[i]) by {
            if j == top {
                assert(s2[i] == stack[i]);
                assert(first_pos(r, s2[i]) >= o2.len());
            } else {
                assert(s2[i] == stack[i] && s2[j] == stack[j]);
            }
        }
        assert forall|y: ConceptId| r.contains(y) && !out.contains(y) implies in_order(r, #[trigger] child_ids(cs, y)) by {
            if y == x {
                assert forall|a: int| 0 <= a < kids.len() implies r.contains(#[trigger] kids[a]) by {
                    assert(s2[top + (kids.len() - 1 - a)] == kids[a]);
                }
                assert forall|a: int, b: int| 0 <= a < b < kids.len() implies first_pos(r, #[trigger] kids[a]) < first_pos(r, #[trigger] kids[b]) by {
                    let ia = top + (kids.len() - 1 - a);
                    let ib = top + (kids.len() - 1 - b);
                    assert(s2[ia] == kids[a] && s2[ib] == kids[b]);
                    assert(ib < ia);
                }
            } else {
                assert(!o2.contains(y)) by {
                    if o2.contains(y) {
                        let k = choose|k: int| 0 <= k < o2.len() && o2[k] == y;
                        if k < out.len() {
                            assert(out[k] == y);
                        }
                    }
                }
            }
        }
    }
}

/// The walk outputs each identifier at most once, and only identifiers of
/// concepts, when it starts from such a state.
proof fn lemma_walk_basic(cs: Seq<Concept>, stack: Seq<ConceptId>, out: Seq<ConceptId>, fuel: nat)
    requires
        out.no_duplicates(),
        forall|i: int| 0 <= i < out.len() ==> cids(cs).contains(#[trigger] out[i]),
        forall|i: int| 0 <= i < stack.len() ==> cids(cs).contains(#[trigger] stack[i]),
    ensures
        dfs_run(cs, stack, out, fuel).no_duplicates(),
        forall|i: int| 0 <= i < dfs_run(cs, stack, out, fuel).len() ==> cids(cs).contains(#[trigger] dfs_run(cs, stack, out, fuel)[i]),
    decreases fuel,
{
    if fuel > 0 && stack.len() > 0 {
        let x = stack.last();
        let rest = stack.drop_last();
        assert(stack[stack.len() - 1] == x);
        if out.contains(x) {
            assert(dfs_step(cs, stack, out) == (rest, out));
            lemma_walk_basic(cs, rest, out, (fuel - 1) as nat);
        } else {
            let kids = child_ids(cs, x);
            lemma_child_ids_in(cs, x);
            let s2 = rest + kids.reverse();
            let o2 = out.push(x);
            assert forall|i: int| 0 <= i < s2.len() implies cids(cs).contains(#[trigger] s2[i]) by {
                if i < rest.len() {
                    assert(s2[i] == stack[i]);
                } else {
                    assert(s2[i] == kids[kids.len() - 1 - (i - rest.len())]);
                }
            }
            assert forall|i: int| 0 <= i < o2.len() implies cids(cs).contains(#[trigger] o2[i]) by {
                if i < out.len() {
                    assert(o2[i] == out[i]);
                }
            }
            assert forall|a: int, b: int| 0 <= a < o2.len() && 0 <= b < o2.len() && a != b implies o2[a] != o2[b] by {
                if a < out.len() && b < out.len() {
                } else if a < out.len() {
                    assert(out.contains(out[a]));
                } else if b < out.len() {
                    assert(out.contains(out[b]));
                }
            }
            lemma_walk_basic(cs, s2, o2, (fuel - 1) as nat);
        }
    }
}

/// When the walk over `cs` outputs every concept, identifiers are unique.
proof fn lemma_full_walk_unique(cs: Seq<Concept>)
    requires
        dfs_preorder_spec(cs).len() == cs.len(),
    ensures
        ids_unique(cs),
{
    lemma_child_ids_in(cs, ConceptId(0));
    let roots = root_ids(cs);
    assert forall|i: int| 0 <= i < roots.reverse().len() implies cids(cs).contains(#[trigger] roots.reverse()[i]) by {
        assert(roots.reverse()[i] == roots[roots.len() - 1 - i]);
    }
    lemma_walk_basic(cs, roots.reverse(), Seq::empty(), dfs_fuel(cs));
    lemma_full_distinct(dfs_preorder_spec(cs), cids(cs));
}

/// With unique identifiers, a root's identifier names a concept without a parent.
proof fn lemma_root_parent(cs: Seq<Concept>, j: int)
    requires
        ids_unique(cs),
        0 <= j < root_ids(cs).len(),
    ensures
        parent_of(cs, root_ids(cs)[j]) is None,
        cids(cs).contains(root_ids(cs)[j]),
{
    let f = |c: Concept| c.parent is None;
    lemma_filter_in(cs, f);
    let c = roots_spec(cs)[j];
    assert(cs.contains(c));
    let k = choose|k: int| 0 <= k < cs.len() && cs[k] == c;
    assert(cids(cs)[k] == c.id);
    lemma_pos_unique(cids(cs), k);
    lemma_concept_pos(cs, c.id);
    assert(concept_pos(cs, c.id) == k);
}

/// The walk over all of `cs`, when it reaches every concept: identifiers are
/// unique, every parent is output before its children, roots come in array
/// order and so do the children of every concept.
proof fn lemma_full_walk(cs: Seq<Concept>)
    requires
        dfs_preorder_spec(cs).len() == cs.len(),
    ensures
        ids_unique(cs),
        walk_ok(cs, Seq::empty(), dfs_preorder_spec(cs)),
        in_order(dfs_preorder_spec(cs), root_ids(cs)),
        forall|y: ConceptId| dfs_preorder_spec(cs).contains(y) ==> in_order(dfs_preorder_spec(cs), #[trigger] child_ids(cs, y)),
{
    lemma_full_walk_unique(cs);
    let roots = root_ids(cs);
    let st = roots.reverse();
    lemma_filter_ids_unique(cs, |c: Concept| c.parent is None);
    assert forall|i: int| 0 <= i < st.len() implies #[trigger] st[i] == roots[roots.len() - 1 - i] by {}
    assert forall|i: int| 0 <= i < st.len() implies cids(cs).contains(#[trigger] st[i]) && parent_of(cs, st[i]) is None by {
        lemma_root_parent(cs, roots.len() - 1 - i);
    }
    assert(st.no_duplicates()) by {
        assert forall|a: int, b: int| 0 <= a < st.len() && 0 <= b < st.len() && a != b implies st[a] != st[b] by {
            assert(st[a] == roots[roots.len() - 1 - a] && st[b] == roots[roots.len() - 1 - b]);
        }
    }
    assert(walk_ok(cs, st, Seq::empty()));
    assert(dfs_fuel(cs) >= cs.len()) by (nonlinear_arith)
        requires
            dfs_fuel(cs) == (cs.len() + 1) * (cs.len() + 1) + cs.len() + 1,
    ;
    lemma_walk_run(cs, st, Seq::empty(), dfs_fuel(cs));
    let r = dfs_preorder_spec(cs);
    assert forall|a: int| 0 <= a < roots.len() implies r.contains(#[trigger] roots[a]) by {
        assert(st[roots.len() - 1 - a] == roots[a]);
    }
    assert forall|a: int, b: int| 0 <= a < b < roots.len() implies first_pos(r, #[trigger] roots[a]) < first_pos(r, #[trigger] roots[b]) by {
        assert(st[roots.len() - 1 - a] == roots[a]);
        assert(st[roots.len() - 1 - b] == roots[b]);
    }
}

/// `s` lists identifiers with strictly increasing numbers.
pub open spec fn sorted_ids(s: Seq<ConceptId>) -> bool {
    forall|i: int, j: int| 0 <= i < j < s.len() ==> (#[trigger] s[i]).0 < (#[trigger] s[j]).0
}

/// Two lists with strictly increasing numbers and the same members are equal.
proof fn lemma_sorted_eq(s: Seq<ConceptId>, t: Seq<ConceptId>)
    requires
        sorted_ids(s),
        sorted_ids(t),
        forall|z: ConceptId| s.contains(z) <==> t.contains(z),
    ensures
        s == t,
    decreases s.len(),
{
    if s.len() == 0 {
        if t.len() > 0 {
            assert(t.contains(t[0]));
        }
        assert(s =~= t);
    } else {
        assert(s.contains(s[0]));
        let j = choose|j: int| 0 <= j < t.len() && t[j] == s[0];
        assert(t.contains(t[0]));
        let i = choose|i: int| 0 <= i < s.len() && s[i] == t[0];
        if j > 0 {
            if i > 0 {
                assert(s[0].0 < s[i].0);
            }
            assert(t[0].0 < t[j].0);
        }
        let s1 = s.drop_first();
        let t1 = t.drop_first();
        assert forall|z: ConceptId| s1.contains(z) <==> t1.contains(z) by {
            if s1.contains(z) {
                let a = choose|a: int| 0 <= a < s1.len() && s1[a] == z;
                assert(s[a + 1] == z);
                assert(s.contains(z));
                let b = choose|b: int| 0 <= b < t.len() && t[b] == z;
                if b == 0 {
                    assert(s[0].0 < s[a + 1].0);
                }
                assert(t1[b - 1] == z);
            }
            if t1.contains(z) {
                let a = choose|a: int| 0 <= a < t1.len() && t1[a] == z;
                assert(t[a + 1] == z);
                assert(t.contains(z));
                let b = choose|b: int| 0 <= b < s.len() && s[b] == z;
                if b == 0 {
                    assert(t[0].0 < t[a + 1].0);
                }
                assert(s1[b - 1] == z);
            }
        }
        assert forall|a: int, b: int| 0 <= a < b < s1.len() implies (#[trigger] s1[a]).0 < (#[trigger] s1[b]).0 by {
            assert(s1[a] == s[a + 1] && s1[b] == s[b + 1]);
        }
        assert forall|a: int, b: int| 0 <= a < b < t1.len() implies (#[trigger] t1[a]).0 < (#[trigger] t1[b]).0 by {
            assert(t1[a] == t[a + 1] && t1[b] == t[b + 1]);
        }
        lemma_sorted_eq(s1, t1);
        assert(s =~= seq![s[0]] + s1);
        assert(t =~= seq![t[0]] + t1);
    }
}

/// Filtering a list whose numbers increase keeps them increasing.
proof fn lemma_filter_sorted(cs: Seq<Concept>, f: spec_fn(Concept) -> bool)
    requires
        sorted_ids(cids(cs)),
    ensures
        sorted_ids(cids(cs.filter(f))),
    decreases cs.len(),
{
    reveal_with_fuel(Seq::filter, 1);
    if cs.len() > 0 {
        let d = cs.drop_last();
        assert forall|a: int, b: int| 0 <= a < b < cids(d).len() implies (#[trigger] cids(d)[a]).0 < (#[trigger] cids(d)[b]).0 by {
            assert(cids(d)[a] == cids(cs)[a] && cids(d)[b] == cids(cs)[b]);
        }
        lemma_filter_sorted(d, f);
        let sub = d.filter(f);
        if f(cs.last()) {
            lemma_filter_in(d, f);
            let out = sub.push(cs.last());
            assert(cs.filter(f) == out);
            assert forall|a: int, b: int| 0 <= a < b < cids(out).len() implies (#[trigger] cids(out)[a]).0 < (#[trigger] cids(out)[b]).0 by {
                if b < sub.len() {
                    assert(cids(out)[a] == cids(sub)[a] && cids(out)[b] == cids(sub)[b]);
                } else {
                    assert(d.contains(sub[a]));
                    let k = choose|k: int| 0 <= k < d.len() && d[k] == sub[a];
                    assert(cids(cs)[k] == sub[a].id);
                    assert(cids(cs)[cs.len() - 1] == cs.last().id);
                }
            }
        } else {
            assert(cs.filter(f) == sub);
        }
    }
}

/// The children of `x` are the identifiers of the concepts whose parent is `x`.
pub proof fn lemma_child_member(cs: Seq<Concept>, x: ConceptId, z: ConceptId)
    ensures
        child_ids(cs, x).contains(z) <==> exists|k: int| 0 <= k < cs.len() && (#[trigger] cs[k]).id == z && cs[k].parent == Some(x),
{
    let f = |c: Concept| c.parent == Some(x);
    lemma_filter_in(cs, f);
    let ch = children_spec(cs, x);
    if child_ids(cs, x).contains(z) {
        let a = choose|a: int| 0 <= a < ch.len() && cids(ch)[a] == z;
        assert(cs.contains(ch[a]));
        let k = choose|k: int| 0 <= k < cs.len() && cs[k] == ch[a];
        assert(cs[k].id == z);
    }
    if exists|k: int| 0 <= k < cs.len() && (#[trigger] cs[k]).id == z && cs[k].parent == Some(x) {
        let k = choose|k: int| 0 <= k < cs.len() && (#[trigger] cs[k]).id == z && cs[k].parent == Some(x);
        cs.lemma_filter_contains(f, k);
        let a = choose|a: int| 0 <= a < ch.len() && ch[a] == cs[k];
        assert(cids(ch)[a] == z);
    }
}

/// The roots are the identifiers of the concepts without a parent.
proof fn lemma_root_member(cs: Seq<Concept>, z: ConceptId)
    ensures
        root_ids(cs).contains(z) <==> exists|k: int| 0 <= k < cs.len() && (#[trigger] cs[k]).id == z && cs[k].parent is None,
{
    let f = |c: Concept| c.parent is None;
    lemma_filter_in(cs, f);
    let ch = roots_spec(cs);
    if root_ids(cs).contains(z) {
        let a = choose|a: int| 0 <= a < ch.len() && cids(ch)[a] == z;
        assert(cs.contains(ch[a]));
        let k = choose|k: int| 0 <= k < cs.len() && cs[k] == ch[a];
        assert(cs[k].id == z);
    }
    if exists|k: int| 0 <= k < cs.len() && (#[trigger] cs[k]).id == z && cs[k].parent is None {
        let k = choose|k: int| 0 <= k < cs.len() && (#[trigger] cs[k]).id == z && cs[k].parent is None;
        cs.lemma_filter_contains(f, k);
        let a = choose|a: int| 0 <= a < ch.len() && ch[a] == cs[k];
        assert(cids(ch)[a] == z);
    }
}

/// The identifier the renumbering along `order` gives `x`.
pub open spec fn new_id(order: Seq<ConceptId>, x: ConceptId) -> ConceptId {
    ConceptId((first_pos(order, x) + 1) as u64)
}

/// Along an order without repeats, the renumbering renames exactly the
/// members, each to its position plus one.
proof fn lemma_renamed(order: Seq<ConceptId>, x: ConceptId)
    requires
        order.no_duplicates(),
    ensures
        renamed(renumber_pairs(order), x) == if order.contains(x) {
            Some(new_id(order, x))
        } else {
            None
        },
{
    let pairs = renumber_pairs(order);
    let firsts = pairs.map_values(|p: (ConceptId, ConceptId)| p.0);
    assert(firsts =~= order);
    lemma_last_pos(order, x);
    lemma_first_pos(order, x);
    if order.contains(x) {
        let k = last_pos(order, x);
        lemma_pos_unique(order, k);
    }
}

/// Every identifier of `s` renumbered along `order`.
pub open spec fn rename_all(order: Seq<ConceptId>, s: Seq<ConceptId>) -> Seq<ConceptId> {
    s.map_values(|c: ConceptId| new_id(order, c))
}

/// What the walk over `cs` establishes, used by the renumbering lemmas.
pub open spec fn full_walk_facts(cs: Seq<Concept>, order: Seq<ConceptId>) -> bool {
    &&& order == dfs_preorder_spec(cs)
    &&& order.len() == cs.len()
    &&& cs.len() < u64::MAX
    &&& ids_unique(cs)
    &&& walk_ok(cs, Seq::empty(), order)
    &&& forall|y: ConceptId| cids(cs).contains(y) ==> order.contains(y)
    &&& forall|y: ConceptId| order.contains(y) ==> in_order(order, #[trigger] child_ids(cs, y))
    &&& in_order(order, root_ids(cs))
}

/// The concept of `cs` under the `k`-th identifier of the walk, seen from the
/// renumbered list: same position, identifier `k + 1`, parent renumbered.
proof fn lemma_renumbered_at(cs: Seq<Concept>, order: Seq<ConceptId>, ns: Seq<Concept>, k: int)
    requires
        full_walk_facts(cs, order),
        renumbered(cs, renumber_pairs(order), ns),
        0 <= k < order.len(),
    ensures
        ns[k].id == new_id(order, order[k]),
        ns[k].id.0 == k + 1,
        cs[concept_pos(cs, order[k])].id == order[k],
        0 <= concept_pos(cs, order[k]) < cs.len(),
        ns[k].parent == match cs[concept_pos(cs, order[k])].parent {
            Some(pp) => Some(new_id(order, pp)),
            None => None,
        },
        match cs[concept_pos(cs, order[k])].parent {
            Some(pp) => order.contains(pp),
            None => true,
        },
{
    let pairs = renumber_pairs(order);
    assert(pairs[k] == (order[k], ConceptId((k + 1) as u64)));
    lemma_pos_unique(order, k);
    assert(cids(cs).contains(order[k]));
    lemma_concept_pos(cs, order[k]);
    let c = cs[concept_pos(cs, order[k])];
    assert(parent_of(cs, order[k]) == c.parent);
    assert(ns[k].id == pairs[k].1);
    match c.parent {
        Some(pp) => {
            assert(order.contains(pp));
            lemma_renamed(order, pp);
        },
        None => {},
    }
}

/// `new_id` tells members of the walk apart.
proof fn lemma_new_id_injective(order: Seq<ConceptId>, a: ConceptId, b: ConceptId)
    requires
        order.no_duplicates(),
        order.len() < u64::MAX,
        order.contains(a),
        order.contains(b),
        new_id(order, a) == new_id(order, b),
    ensures
        a == b,
{
    lemma_first_pos(order, a);
    lemma_first_pos(order, b);
}

/// After renumbering along the walk, the children of `x`'s new identifier
/// are the new identifiers of `x`'s children, in the same order.
proof fn lemma_children_renamed(cs: Seq<Concept>, order: Seq<ConceptId>, ns: Seq<Concept>, x: ConceptId)
    requires
        full_walk_facts(cs, order),
        renumbered(cs, renumber_pairs(order), ns),
        order.contains(x),
    ensures
        child_ids(ns, new_id(order, x)) == rename_all(order, child_ids(cs, x)),
{
    let n = order.len();
    let kids = child_ids(cs, x);
    let lhs = child_ids(ns, new_id(order, x));
    let rhs = rename_all(order, kids);
    assert forall|i: int, j: int| 0 <= i < j < cids(ns).len() implies (#[trigger] cids(ns)[i]).0 < (#[trigger] cids(ns)[j]).0 by {
        lemma_renumbered_at(cs, order, ns, i);
        lemma_renumbered_at(cs, order, ns, j);
    }
    lemma_filter_sorted(ns, |c: Concept| c.parent == Some(new_id(order, x)));
    assert(in_order(order, kids));
    assert forall|a: int, b: int| 0 <= a < b < rhs.len() implies (#[trigger] rhs[a]).0 < (#[trigger] rhs[b]).0 by {
        lemma_first_pos(order, kids[a]);
        lemma_first_pos(order, kids[b]);
        assert(first_pos(order, kids[a]) < first_pos(order, kids[b]));
    }
    assert forall|z: ConceptId| lhs.contains(z) <==> rhs.contains(z) by {
        lemma_child_member(ns, new_id(order, x), z);
        if lhs.contains(z) {
            let k = choose|k: int| 0 <= k < ns.len() && (#[trigger] ns[k]).id == z && ns[k].parent == Some(new_id(order, x));
            lemma_renumbered_at(cs, order, ns, k);
            let i = concept_pos(cs, order[k]);
            let c = cs[i];
            let pp = c.parent->0;
            lemma_new_id_injective(order, pp, x);
            lemma_child_member(cs, x, order[k]);
            let a = choose|a: int| 0 <= a < kids.len() && kids[a] == order[k];
            lemma_pos_unique(order, k);
            assert(rhs[a] == z);
        }
        if rhs.contains(z) {
            let a = choose|a: int| 0 <= a < rhs.len() && rhs[a] == z;
            assert(kids.contains(kids[a]));
            lemma_child_member(cs, x, kids[a]);
            let i = choose|i: int| 0 <= i < cs.len() && (#[trigger] cs[i]).id == kids[a] && cs[i].parent == Some(x);
            assert(cids(cs)[i] == kids[a]);
            assert(order.contains(kids[a]));
            let k = first_pos(order, kids[a]);
            lemma_first_pos(order, kids[a]);
            lemma_renumbered_at(cs, order, ns, k);
            lemma_pos_unique(cids(cs), i);
            assert(concept_pos(cs, order[k]) == i);
            assert(ns[k].id == z);
        }
    }
    lemma_sorted_eq(lhs, rhs);
}

/// After renumbering along the walk, the roots are the new identifiers of
/// the roots, in the same order.
proof fn lemma_roots_renamed(cs: Seq<Concept>, order: Seq<ConceptId>, ns: Seq<Concept>)
    requires
        full_walk_facts(cs, order),
        renumbered(cs, renumber_pairs(order), ns),
    ensures
        root_ids(ns) == rename_all(order, root_ids(cs)),
{
    let roots = root_ids(cs);
    let lhs = root_ids(ns);
    let rhs = rename_all(order, roots);
    assert forall|i: int, j: int| 0 <= i < j < cids(ns).len() implies (#[trigger] cids(ns)[i]).0 < (#[trigger] cids(ns)[j]).0 by {
        lemma_renumbered_at(cs, order, ns, i);
        lemma_renumbered_at(cs, order, ns, j);
    }
    lemma_filter_sorted(ns, |c: Concept| c.parent is None);
    assert forall|a: int, b: int| 0 <= a < b < rhs.len() implies (#[trigger] rhs[a]).0 < (#[trigger] rhs[b]).0 by {
        lemma_first_pos(order, roots[a]);
        lemma_first_pos(order, roots[b]);
        assert(first_pos(order, roots[a]) < first_pos(order, roots[b]));
    }
    assert forall|z: ConceptId| lhs.contains(z) <==> rhs.contains(z) by {
        lemma_root_member(ns, z);
        if lhs.contains(z) {
            let k = choose|k: int| 0 <= k < ns.len() && (#[trigger] ns[k]).id == z && ns[k].parent is None;
            lemma_renumbered_at(cs, order, ns, k);
            lemma_root_member(cs, order[k]);
            let a = choose|a: int| 0 <= a < roots.len() && roots[a] == order[k];
            lemma_pos_unique(order, k);
            assert(rhs[a] == z);
        }
        if rhs.contains(z) {
            let a = choose|a: int| 0 <= a < rhs.len() && rhs[a] == z;
            assert(roots.contains(roots[a]));
            lemma_root_member(cs, roots[a]);
            let i = choose|i: int| 0 <= i < cs.len() && (#[trigger] cs[i]).id == roots[a] && cs[i].parent is None;
            assert(cids(cs)[i] == roots[a]);
            assert(order.contains(roots[a]));
            let k = first_pos(order, roots[a]);
            lemma_first_pos(order, roots[a]);
            lemma_renumbered_at(cs, order, ns, k);
            lemma_pos_unique(cids(cs), i);
            assert(concept_pos(cs, order[k]) == i);
            assert(ns[k].id == z);
        }
    }
    lemma_sorted_eq(lhs, rhs);
}

/// The walk over the renumbered list is the renumbered walk over `cs`.
proof fn lemma_walk_renamed(cs: Seq<Concept>, order: Seq<ConceptId>, ns: Seq<Concept>, stack: Seq<ConceptId>, out: Seq<ConceptId>, fuel: nat)
    requires
        full_walk_facts(cs, order),
        renumbered(cs, renumber_pairs(order), ns),
        forall|i: int| 0 <= i < stack.len() ==> order.contains(#[trigger] stack[i]),
        forall|i: int| 0 <= i < out.len() ==> order.contains(#[trigger] out[i]),
    ensures
        dfs_run(ns, rename_all(order, stack), rename_all(order, out), fuel) == rename_all(order, dfs_run(cs, stack, out, fuel)),
    decreases fuel,
{
    if fuel > 0 && stack.len() > 0 {
        let x = stack.last();
        let rest = stack.drop_last();
        assert(stack[stack.len() - 1] == x);
        let rs = rename_all(order, stack);
        let ro = rename_all(order, out);
        assert(rs.last() == new_id(order, x));
        assert(rs.drop_last() =~= rename_all(order, rest));
        assert(ro.contains(new_id(order, x)) <==> out.contains(x)) by {
            if ro.contains(new_id(order, x)) {
                let i = choose|i: int| 0 <= i < ro.len() && ro[i] == new_id(order, x);
                lemma_new_id_injective(order, out[i], x);
            }
            if out.contains(x) {
                let i = choose|i: int| 0 <= i < out.len() && out[i] == x;
                assert(ro[i] == new_id(order, x));
            }
        }
        assert forall|i: int| 0 <= i < rest.len() implies order.contains(#[trigger] rest[i]) by {
            assert(rest[i] == stack[i]);
        }
        if out.contains(x) {
            lemma_walk_renamed(cs, order, ns, rest, out, (fuel - 1) as nat);
        } else {
            let kids = child_ids(cs, x);
            lemma_children_renamed(cs, order, ns, x);
            lemma_child_ids_in(cs, x);
            let s2 = rest + kids.reverse();
            let o2 = out.push(x);
            assert(rename_all(order, rest) + child_ids(ns, new_id(order, x)).reverse() =~= rename_all(order, s2));
            assert(ro.push(new_id(order, x)) =~= rename_all(order, o2));
            assert forall|i: int| 0 <= i < s2.len() implies order.contains(#[trigger] s2[i]) by {
                if i < rest.len() {
                    assert(s2[i] == rest[i]);
                } else {
                    assert(s2[i] == kids[kids.len() - 1 - (i - rest.len())]);
                    assert(cids(cs).contains(s2[i]));
                }
            }
            assert forall|i: int| 0 <= i < o2.len() implies order.contains(#[trigger] o2[i]) by {
                if i < out.len() {
                    assert(o2[i] == out[i]);
                }
            }
            lemma_walk_renamed(cs, order, ns, s2, o2, (fuel - 1) as nat);
        }
    }
}

/// Normalizing twice renames nothing the second time: when a renumbering is
/// planned for `cs` (every concept is reached from a root) and applied,
/// giving `ns`, planning again succeeds and renames every concept to itself.
pub proof fn lemma_normalize_idempotent(cs: Seq<Concept>, ns: Seq<Concept>)
    requires
        cs.len() < u64::MAX,
        dfs_preorder_spec(cs).len() == cs.len(),
        renumbered(cs, renumber_pairs(dfs_preorder_spec(cs)), ns),
    ensures
        dfs_preorder_spec(ns).len() == ns.len(),
        forall|k: int| 0 <= k < ns.len() ==> (#[trigger] renumber_pairs(dfs_preorder_spec(ns))[k]).0 == renumber_pairs(dfs_preorder_spec(ns))[k].1,
{
    let order = dfs_preorder_spec(cs);
    lemma_full_walk(cs);
    assert forall|y: ConceptId| cids(cs).contains(y) implies order.contains(y) by {
        order.unique_seq_to_set();
        cids(cs).unique_seq_to_set();
        assert(order.to_set().subset_of(cids(cs).to_set())) by {
            assert forall|z: ConceptId| order.to_set().contains(z) implies cids(cs).to_set().contains(z) by {
                let i = choose|i: int| 0 <= i < order.len() && order[i] == z;
                assert(cids(cs).contains(order[i]));
            }
        }
        vstd::set_lib::lemma_subset_equality(order.to_set(), cids(cs).to_set());
        assert(cids(cs).to_set().contains(y));
        assert(order.to_set().contains(y));
    }
    assert(full_walk_facts(cs, order));
    lemma_roots_renamed(cs, order, ns);
    let st = root_ids(cs).reverse();
    lemma_child_ids_in(cs, ConceptId(0));
    assert forall|i: int| 0 <= i < st.len() implies order.contains(#[trigger] st[i]) by {
        assert(st[i] == root_ids(cs)[root_ids(cs).len() - 1 - i]);
        assert(cids(cs).contains(st[i]));
    }
    assert(root_ids(ns).reverse() =~= rename_all(order, st));
    assert(rename_all(order, Seq::empty()) =~= Seq::<ConceptId>::empty());
    assert(dfs_fuel(ns) == dfs_fuel(cs));
    lemma_walk_renamed(cs, order, ns, st, Seq::empty(), dfs_fuel(cs));
    let r = dfs_preorder_spec(ns);
    assert(r == rename_all(order, order));
    assert forall|k: int| 0 <= k < ns.len() implies (#[trigger] renumber_pairs(r)[k]).0 == renumber_pairs(r)[k].1 by {
        lemma_pos_unique(order, k);
        assert(r[k] == new_id(order, order[k]));
    }
}

/// The plan made from a tree order that reaches every concept can be
/// applied: every renamed concept exists, every new number is below the
/// largest `u64`, and the parent of every renamed concept is renamed too.
pub proof fn lemma_plan_applies(cs: Seq<Concept>)
    requires
        dfs_preorder_spec(cs).len() == cs.len(),
        cs.len() < u64::MAX,
    ensures
        ({
            let pairs = renumber_pairs(dfs_preorder_spec(cs));
            &&& forall|k: int| 0 <= k < pairs.len() ==> has_concept(cs, (#[trigger] pairs[k]).0)
            &&& forall|k: int| 0 <= k < pairs.len() ==> (#[trigger] pairs[k]).1.0 < u64::MAX
            &&& forall|k: int| 0 <= k < pairs.len() ==> match (#[trigger] lookup_concept(cs, pairs[k].0)) {
                Some(c) => match c.parent {
                    Some(pp) => renamed(pairs, pp) is Some,
                    None => true,
                },
                None => true,
            }
        }),
{
    let order = dfs_preorder_spec(cs);
    let pairs = renumber_pairs(order);
    let firsts = pairs.map_values(|p: (ConceptId, ConceptId)| p.0);
    lemma_full_walk(cs);
    assert forall|k: int| 0 <= k < pairs.len() implies has_concept(cs, (#[trigger] pairs[k]).0) by {
        assert(pairs[k].0 == order[k]);
        assert(cids(cs).contains(order[k]));
        let j = choose|j: int| 0 <= j < cids(cs).len() && cids(cs)[j] == order[k];
        lemma_concept_pos(cs, order[k]);
        assert(cs[j].id == order[k]);
    }
    assert forall|k: int| 0 <= k < pairs.len() implies match (#[trigger] lookup_concept(cs, pairs[k].0)) {
        Some(c) => match c.parent {
            Some(pp) => renamed(pairs, pp) is Some,
            None => true,
        },
        None => true,
    } by {
        assert(pairs[k].0 == order[k]);
        match parent_of(cs, order[k]) {
            Some(pp) => {
                assert(order.contains(pp));
                let j = choose|j: int| 0 <= j < order.len() && order[j] == pp;
                assert(firsts[j] == pp);
                lemma_last_pos(firsts, pp);
            },
            None => {},
        }
    }
}

/// When the tree order reaches every concept, it is a permutation of the
/// concept identifiers: each identifier occurs in it exactly once.
pub proof fn lemma_normalize_order_permutation(cs: Seq<Concept>)
    requires
        dfs_preorder_spec(cs).len() == cs.len(),
    ensures
        dfs_preorder_spec(cs).no_duplicates(),
        dfs_preorder_spec(cs).len() == cids(cs).len(),
        forall|y: ConceptId| #[trigger] dfs_preorder_spec(cs).contains(y) <==> cids(cs).contains(y),
{
    let order = dfs_preorder_spec(cs);
    lemma_child_ids_in(cs, ConceptId(0));
    let roots = root_ids(cs);
    assert forall|i: int| 0 <= i < roots.reverse().len() implies cids(cs).contains(#[trigger] roots.reverse()[i]) by {
        assert(roots.reverse()[i] == roots[roots.len() - 1 - i]);
    }
    lemma_walk_basic(cs, roots.reverse(), Seq::empty(), dfs_fuel(cs));
    lemma_full_walk(cs);
    assert forall|y: ConceptId| #[trigger] order.contains(y) <==> cids(cs).contains(y) by {
        if order.contains(y) {
            let i = choose|i: int| 0 <= i < order.len() && order[i] == y;
            assert(cids(cs).contains(order[i]));
        }
        if cids(cs).contains(y) {
            order.unique_seq_to_set();
            cids(cs).unique_seq_to_set();
            assert(order.to_set().subset_of(cids(cs).to_set())) by {
                assert forall|z: ConceptId| order.to_set().contains(z) implies cids(cs).to_set().contains(z) by {
                    let i = choose|i: int| 0 <= i < order.len() && order[i] == z;
                    assert(cids(cs).contains(order[i]));
                }
            }
            vstd::set_lib::lemma_subset_equality(order.to_set(), cids(cs).to_set());
            assert(cids(cs).to_set().contains(y));
            assert(order.to_set().contains(y));
        }
    }
}

/// A pair list that renames every concept to itself leaves every link alone.
pub proof fn lemma_identity_relink(pairs: Seq<(ConceptId, ConceptId)>, x: ConceptId)
    requires
        forall|k: int| 0 <= k < pairs.len() ==> (#[trigger] pairs[k]).0 == pairs[k].1,
    ensures
        relink(pairs, x) == x,
        renamed(pairs, x) matches Some(y) ==> y == x,
{
    let firsts = pairs.map_values(|p: (ConceptId, ConceptId)| p.0);
    lemma_last_pos(firsts, x);
    let m = last_pos(firsts, x);
    if m >= 0 {
        assert(firsts[m] == pairs[m].0);
    }
}

/// Normalizing a normalized project changes nothing: when `ns` is `cs`
/// renumbered by its plan and `fin` is what applying the plan of `ns` to
/// `ns` gives, `fin` is `ns`, and every task link is kept as it is.
pub proof fn lemma_normalize_twice_keeps(cs: Seq<Concept>, ns: Seq<Concept>, fin: Seq<Concept>, x: ConceptId)
    requires
        cs.len() < u64::MAX,
        dfs_preorder_spec(cs).len() == cs.len(),
        renumbered(cs, renumber_pairs(dfs_preorder_spec(cs)), ns),
        applied_concepts(ns, renumber_pairs(dfs_preorder_spec(ns)), fin),
    ensures
        fin == ns,
        relink(renumber_pairs(dfs_preorder_spec(ns)), x) == x,
{
    lemma_normalize_idempotent(cs, ns);
    let p1 = renumber_pairs(dfs_preorder_spec(cs));
    let p2 = renumber_pairs(dfs_preorder_spec(ns));
    let f1 = p1.map_values(|p: (ConceptId, ConceptId)| p.0);
    let f2 = p2.map_values(|p: (ConceptId, ConceptId)| p.0);
    lemma_identity_relink(p2, x);
    assert forall|k: int| 0 <= k < ns.len() implies #[trigger] fin[k] == ns[k] by {
        let id = ConceptId((k + 1) as u64);
        assert(p2[k].1 == id);
        assert(ns[k].id == p1[k].1);
        lemma_concept_pos(ns, id);
        let q = concept_pos(ns, id);
        if q >= 0 {
            assert(ns[q].id == p1[q].1);
        }
        assert(q == k);
        match ns[k].parent {
            Some(pp) => {
                let c = cs[concept_pos(cs, p1[k].0)];
                let op = c.parent->0;
                lemma_last_pos(f1, op);
                let m = last_pos(f1, op);
                assert(m >= 0);
                assert(pp == p1[m].1);
                assert(f2[m] == p2[m].0);
                assert(f2[m] == pp);
                lemma_last_pos(f2, pp);
                lemma_identity_relink(p2, pp);
            },
            None => {},
        }
    }
    assert(fin =~= ns);
}

/// Every parent is a concept with a smaller number than its child.
pub open spec fn parents_smaller(cs: Seq<Concept>) -> bool {
    forall|k: int| 0 <= k < cs.len() ==> match (#[trigger] cs[k]).parent {
        Some(q) => cids(cs).contains(q) && q.0 < cs[k].id.0,
        None => true,
    }
}

/// Walking up from a concept of such a list, every step lowers the number.
proof fn lemma_ancestors_decrease(cs: Seq<Concept>, y: ConceptId, m: nat)
    requires
        ids_unique(cs),
        parents_smaller(cs),
        cids(cs).contains(y),
    ensures
        ancestor_at(cs, y, m) matches Some(z) ==> cids(cs).contains(z) && z.0 + m <= y.0,
    decreases m,
{
    if m > 0 {
        lemma_ancestors_decrease(cs, y, (m - 1) as nat);
        match ancestor_at(cs, y, (m - 1) as nat) {
            Some(x) => {
                lemma_concept_pos(cs, x);
                lemma_first_pos(cids(cs), x);
                let k = concept_pos(cs, x);
                assert(parent_of(cs, x) == cs[k].parent);
                assert(cs[k].id == x);
            },
            None => {},
        }
    }
}

/// A list with unique identifiers whose parents all carry smaller numbers
/// than their children is a valid tree.
pub proof fn lemma_parents_smaller_tree(cs: Seq<Concept>)
    requires
        ids_unique(cs),
        parents_smaller(cs),
    ensures
        tree_valid(cs),
{
    assert forall|i: int| 0 <= i < cs.len() implies tree_node_ok(cs, #[trigger] cs[i]) by {
        let d = cs[i].id;
        assert(cids(cs)[i] == d);
        match cs[i].parent {
            Some(q) => {
                lemma_concept_pos(cs, q);
                lemma_first_pos(cids(cs), q);
            },
            None => {},
        }
        if walk_cycles(cs, d) {
            let m = choose|m: nat| repeats_at(cs, d, m);
            let j = choose|j: nat| j < m && ancestor_at(cs, d, j) == #[trigger] ancestor_at(cs, d, m);
            lemma_ancestors_decrease(cs, d, j);
            let z = ancestor_at(cs, d, j)->0;
            lemma_walk_compose(cs, d, j, (m - j) as nat);
            assert((j + (m - j)) as nat == m);
            lemma_ancestors_decrease(cs, z, (m - j) as nat);
        }
    }
}

/// Normalizing keeps the concept list a valid tree with unique identifiers:
/// when a renumbering is planned for `cs` (every concept is reached from a
/// root) and applied, each parent in the result carries a smaller number
/// than its child.
pub proof fn lemma_normalize_keeps_tree(cs: Seq<Concept>, ns: Seq<Concept>)
    requires
        cs.len() < u64::MAX,
        dfs_preorder_spec(cs).len() == cs.len(),
        renumbered(cs, renumber_pairs(dfs_preorder_spec(cs)), ns),
    ensures
        tree_valid(ns),
        ids_unique(ns),
{
    let order = dfs_preorder_spec(cs);
    lemma_full_walk(cs);
    assert forall|y: ConceptId| cids(cs).contains(y) implies order.contains(y) by {
        order.unique_seq_to_set();
        cids(cs).unique_seq_to_set();
        assert(order.to_set().subset_of(cids(cs).to_set())) by {
            assert forall|z: ConceptId| order.to_set().contains(z) implies cids(cs).to_set().contains(z) by {
                let i = choose|i: int| 0 <= i < order.len() && order[i] == z;
                assert(cids(cs).contains(order[i]));
            }
        }
        vstd::set_lib::lemma_subset_equality(order.to_set(), cids(cs).to_set());
        assert(cids(cs).to_set().contains(y));
        assert(order.to_set().contains(y));
    }
    assert(full_walk_facts(cs, order));
    assert forall|a: int, b: int| 0 <= a < cids(ns).len() && 0 <= b < cids(ns).len() && a != b implies cids(ns)[a] != cids(ns)[b] by {
        lemma_renumbered_at(cs, order, ns, a);
        lemma_renumbered_at(cs, order, ns, b);
    }
    assert forall|k: int| 0 <= k < ns.len() implies match (#[trigger] ns[k]).parent {
        Some(q) => cids(ns).contains(q) && q.0 < ns[k].id.0,
        None => true,
    } by {
        lemma_renumbered_at(cs, order, ns, k);
        let c = cs[concept_pos(cs, order[k])];
        match c.parent {
            Some(pp) => {
                assert(parent_of(cs, order[k]) == Some(pp));
                assert(order.take(k).contains(pp));
                let w = choose|w: int| 0 <= w < order.take(k).len() && order.take(k)[w] == pp;
                assert(order[w] == pp);
                lemma_pos_unique(order, w);
                lemma_renumbered_at(cs, order, ns, w);
                assert(cids(ns)[w] == ns[w].id);
            },
            None => {},
        }
    }
    lemma_parents_smaller_tree(ns);
}

// --- A valid tree is reached entirely -------------------------------------------------

/// The walk's state keeps its promises: nothing is output twice, everything
/// output or waiting is a concept, and every child of an output concept is
/// output or waiting.
pub open spec fn closed_walk(cs: Seq<Concept>, stack: Seq<ConceptId>, out: Seq<ConceptId>) -> bool {
    &&& out.no_duplicates()
    &&& forall|i: int| 0 <= i < out.len() ==> cids(cs).contains(#[trigger] out[i])
    &&& forall|i: int| 0 <= i < stack.len() ==> cids(cs).contains(#[trigger] stack[i])
    &&& forall|y: ConceptId, z: ConceptId|
        #![trigger out.contains(y), child_ids(cs, y).contains(z)]
        out.contains(y) && child_ids(cs, y).contains(z) ==> out.contains(z) || stack.contains(z)
}

/// With enough steps the walk empties its stack: what it outputs holds every
/// identifier that was output or waiting, and every child of what it outputs.
proof fn lemma_closed_run(cs: Seq<Concept>, stack: Seq<ConceptId>, out: Seq<ConceptId>, fuel: nat)
    requires
        closed_walk(cs, stack, out),
        fuel >= dfs_measure(cs.len(), stack, out),
    ensures
        ({
            let r = dfs_run(cs, stack, out, fuel);
            &&& forall|x: ConceptId| out.contains(x) || stack.contains(x) ==> #[trigger] r.contains(x)
            &&& forall|y: ConceptId, z: ConceptId|
                #![trigger r.contains(y), child_ids(cs, y).contains(z)]
                r.contains(y) && child_ids(cs, y).contains(z) ==> r.contains(z)
        }),
    decreases fuel,
{
    let n = cs.len();
    lemma_distinct_bound(out, cids(cs));
    assert(cids(cs).len() == n);
    let o = out.len();
    assert((n + 1 - o) * (n + 1) >= 0) by (nonlinear_arith)
        requires
            o <= n,
    ;
    if stack.len() == 0 {
        assert forall|y: ConceptId, z: ConceptId|
            #![trigger out.contains(y), child_ids(cs, y).contains(z)]
            out.contains(y) && child_ids(cs, y).contains(z) implies out.contains(z) by {
            if stack.contains(z) {
                let i = choose|i: int| 0 <= i < stack.len() && stack[i] == z;
            }
        }
        assert forall|x: ConceptId| out.contains(x) || stack.contains(x) implies #[trigger] out.contains(x) by {
            if stack.contains(x) {
                let i = choose|i: int| 0 <= i < stack.len() && stack[i] == x;
            }
        }
    } else {
        assert(fuel > 0);
        let x = stack.last();
        let rest = stack.drop_last();
        let (s2, o2) = dfs_step(cs, stack, out);
        assert(stack =~= rest.push(x));
        assert forall|z: ConceptId| stack.contains(z) implies rest.contains(z) || z == x by {
            let i = choose|i: int| 0 <= i < stack.len() && stack[i] == z;
            if i < stack.len() - 1 {
                assert(rest[i] == z);
            }
        }
        assert(cids(cs).contains(x)) by {
            assert(cids(cs).contains(stack[stack.len() - 1]));
        }
        if out.contains(x) {
            assert(s2 == rest && o2 == out);
            assert forall|i: int| 0 <= i < rest.len() implies cids(cs).contains(#[trigger] rest[i]) by {
                assert(rest[i] == stack[i]);
            }
            assert forall|y: ConceptId, z: ConceptId|
                #![trigger out.contains(y), child_ids(cs, y).contains(z)]
                out.contains(y) && child_ids(cs, y).contains(z) implies out.contains(z) || rest.contains(z) by {}
            assert(closed_walk(cs, rest, out));
            assert(dfs_measure(n, rest, out) == dfs_measure(n, stack, out) - 1);
            assert(dfs_run(cs, stack, out, fuel) == dfs_run(cs, s2, o2, (fuel - 1) as nat));
            lemma_closed_run(cs, rest, out, (fuel - 1) as nat);
            assert forall|z: ConceptId| out.contains(z) || stack.contains(z) implies #[trigger] dfs_run(cs, stack, out, fuel).contains(z) by {
                if stack.contains(z) && !rest.contains(z) {
                    assert(z == x);
                }
            }
        } else {
            let kids = child_ids(cs, x);
            lemma_child_ids_in(cs, x);
            assert(s2 == rest + kids.reverse() && o2 == out.push(x));
            assert(o2.no_duplicates()) by {
                assert forall|a: int, b: int| 0 <= a < o2.len() && 0 <= b < o2.len() && a != b implies o2[a] != o2[b] by {
                    if a == out.len() as int {
                        assert(out[b] == o2[b]);
                    } else if b == out.len() as int {
                        assert(out[a] == o2[a]);
                    }
                }
            }
            assert forall|i: int| 0 <= i < o2.len() implies cids(cs).contains(#[trigger] o2[i]) by {
                if i < out.len() {
                    assert(o2[i] == out[i]);
                }
            }
            assert forall|i: int| 0 <= i < s2.len() implies cids(cs).contains(#[trigger] s2[i]) by {
                if i < rest.len() {
                    assert(s2[i] == stack[i]);
                } else {
                    assert(s2[i] == kids.reverse()[i - rest.len()]);
                    assert(kids.reverse()[i - rest.len()] == kids[kids.len() - 1 - (i - rest.len())]);
                }
            }
            assert forall|z: ConceptId| kids.contains(z) implies s2.contains(z) by {
                let j = choose|j: int| 0 <= j < kids.len() && kids[j] == z;
                let q = rest.len() + (kids.len() - 1 - j);
                assert(s2[q] == kids.reverse()[kids.len() - 1 - j]);
            }
            assert forall|z: ConceptId| rest.contains(z) implies s2.contains(z) by {
                let j = choose|j: int| 0 <= j < rest.len() && rest[j] == z;
                assert(s2[j] == z);
            }
            assert forall|z: ConceptId| o2.contains(z) <==> out.contains(z) || z == x by {
                if o2.contains(z) {
                    let j = choose|j: int| 0 <= j < o2.len() && o2[j] == z;
                    if j < out.len() {
                        assert(out[j] == z);
                    }
                }
                if out.contains(z) {
                    let j = choose|j: int| 0 <= j < out.len() && out[j] == z;
                    assert(o2[j] == z);
                }
                if z == x {
                    assert(o2[out.len() as int] == x);
                }
            }
            assert forall|y: ConceptId, z: ConceptId|
                #![trigger o2.contains(y), child_ids(cs, y).contains(z)]
                o2.contains(y) && child_ids(cs, y).contains(z) implies o2.contains(z) || s2.contains(z) by {
                if y == x {
                } else {
                    assert(out.contains(y));
                    if stack.contains(z) && !rest.contains(z) {
                        assert(z == x);
                    }
                }
            }
            assert(closed_walk(cs, s2, o2));
            lemma_distinct_bound(o2, cids(cs));
            assert(o + 1 <= n);
            assert(kids.reverse().len() == kids.len());
            assert((n + 1 - o) * (n + 1) == (n + 1 - (o + 1)) * (n + 1) + (n + 1)) by (nonlinear_arith);
            assert(dfs_measure(n, s2, o2) <= dfs_measure(n, stack, out) - 1);
            assert(dfs_run(cs, stack, out, fuel) == dfs_run(cs, s2, o2, (fuel - 1) as nat));
            lemma_closed_run(cs, s2, o2, (fuel - 1) as nat);
        }
    }
}

/// A parent walk that stays inside the concepts for more steps than there
/// are concepts revisits an identifier.
proof fn lemma_long_walk_cycles(cs: Seq<Concept>, d: ConceptId, m: nat)
    requires
        m >= cs.len(),
        forall|j: nat| j <= m ==> (#[trigger] ancestor_at(cs, d, j)) is Some && cids(cs).contains(ancestor_at(cs, d, j)->0),
    ensures
        crate::graph::tree::walk_cycles(cs, d),
{
    let v = Seq::new((m + 1) as nat, |i: int| ancestor_at(cs, d, i as nat)->0);
    if v.no_duplicates() {
        assert forall|i: int| 0 <= i < v.len() implies cids(cs).contains(#[trigger] v[i]) by {
            assert(ancestor_at(cs, d, i as nat) is Some);
        }
        lemma_distinct_bound(v, cids(cs));
        assert(cids(cs).len() == cs.len());
        assert(false);
    } else {
        let (a, b) = choose|a: int, b: int| 0 <= a < v.len() && 0 <= b < v.len() && a != b && v[a] == v[b];
        let (lo, hi) = if a < b { (a, b) } else { (b, a) };
        assert(ancestor_at(cs, d, lo as nat) is Some);
        assert(ancestor_at(cs, d, hi as nat) is Some);
        assert(ancestor_at(cs, d, lo as nat) == ancestor_at(cs, d, hi as nat));
        assert(crate::graph::tree::repeats_at(cs, d, hi as nat));
    }
}

/// In a valid forest the parent of a concept is a concept.
proof fn lemma_parent_in(cs: Seq<Concept>, x: ConceptId)
    requires
        tree_valid(cs),
        cids(cs).contains(x),
    ensures
        parent_of(cs, x) matches Some(p) ==> cids(cs).contains(p),
{
    lemma_concept_pos(cs, x);
    let j = choose|j: int| 0 <= j < cids(cs).len() && cids(cs)[j] == x;
    assert(cs[j].id == x);
    let q = concept_pos(cs, x);
    assert(tree_node_ok(cs, cs[q]));
    match parent_of(cs, x) {
        Some(p) => {
            assert(has_concept(cs, p));
            lemma_concept_pos(cs, p);
            assert(cids(cs)[concept_pos(cs, p)] == p);
        },
        None => {},
    }
}

/// Searching up the walk from step `j`: it meets a concept without a parent
/// at some step `k` no later than the number of concepts.
proof fn lemma_walk_search(cs: Seq<Concept>, d: ConceptId, j: nat) -> (k: nat)
    requires
        tree_valid(cs),
        !crate::graph::tree::walk_cycles(cs, d),
        forall|i: nat| i <= j ==> (#[trigger] ancestor_at(cs, d, i)) is Some && cids(cs).contains(ancestor_at(cs, d, i)->0),
    ensures
        j <= k <= cs.len(),
        forall|i: nat| i <= k ==> (#[trigger] ancestor_at(cs, d, i)) is Some && cids(cs).contains(ancestor_at(cs, d, i)->0),
        parent_of(cs, ancestor_at(cs, d, k)->0) is None,
    decreases cs.len() + 1 - j,
{
    if j >= cs.len() + 1 {
        lemma_long_walk_cycles(cs, d, j);
        assert(false);
        j
    } else {
        let x = ancestor_at(cs, d, j)->0;
        assert(ancestor_at(cs, d, j) is Some);
        if parent_of(cs, x) is None {
            if j > cs.len() {
                lemma_long_walk_cycles(cs, d, j);
            }
            j
        } else {
            lemma_parent_in(cs, x);
            assert(ancestor_at(cs, d, j + 1) == parent_of(cs, x));
            assert forall|i: nat| i <= j + 1 implies (#[trigger] ancestor_at(cs, d, i)) is Some && cids(cs).contains(ancestor_at(cs, d, i)->0) by {
                if i <= j {
                    assert(ancestor_at(cs, d, i) is Some);
                }
            }
            if j + 1 > cs.len() {
                lemma_long_walk_cycles(cs, d, j + 1);
            }
            lemma_walk_search(cs, d, j + 1)
        }
    }
}

/// Every step of the walk up from `d`, from step `j` to the root at step
/// `k`, is in a walk output that holds the roots and every child of what it
/// holds.
proof fn lemma_reach_down(cs: Seq<Concept>, r: Seq<ConceptId>, d: ConceptId, k: nat, j: nat)
    requires
        j <= k,
        forall|i: nat| i <= k ==> (#[trigger] ancestor_at(cs, d, i)) is Some && cids(cs).contains(ancestor_at(cs, d, i)->0),
        parent_of(cs, ancestor_at(cs, d, k)->0) is None,
        forall|z: ConceptId| #[trigger] root_ids(cs).contains(z) ==> r.contains(z),
        forall|y: ConceptId, z: ConceptId|
            #![trigger r.contains(y), child_ids(cs, y).contains(z)]
            r.contains(y) && child_ids(cs, y).contains(z) ==> r.contains(z),
    ensures
        r.contains(ancestor_at(cs, d, j)->0),
    decreases k - j,
{
    assert(ancestor_at(cs, d, j) is Some);
    let y = ancestor_at(cs, d, j)->0;
    lemma_concept_pos(cs, y);
    let w = choose|w: int| 0 <= w < cids(cs).len() && cids(cs)[w] == y;
    assert(cs[w].id == y);
    let q = concept_pos(cs, y);
    assert(cs[q].id == y);
    if j == k {
        lemma_root_member(cs, y);
        assert(cs[q].parent is None);
        assert(root_ids(cs).contains(y));
    } else {
        lemma_reach_down(cs, r, d, k, j + 1);
        assert(ancestor_at(cs, d, j + 1) is Some);
        let z = ancestor_at(cs, d, j + 1)->0;
        assert(parent_of(cs, y) == Some(z));
        assert(cs[q].parent == Some(z));
        lemma_child_member(cs, z, y);
        assert(child_ids(cs, z).contains(y));
        assert(r.contains(z));
    }
}

/// A valid forest with unique identifiers is reached entirely by the tree
/// order, so planning its renumbering succeeds: every concept is a root or
/// the child of a concept, and the walk up from it ends.
pub proof fn lemma_valid_tree_reached(cs: Seq<Concept>)
    requires
        tree_valid(cs),
        ids_unique(cs),
    ensures
        dfs_preorder_spec(cs).len() == cs.len(),
{
    let n = cs.len();
    let roots = root_ids(cs);
    let st = roots.reverse();
    let empty = Seq::<ConceptId>::empty();
    lemma_child_ids_in(cs, ConceptId(0));
    assert forall|i: int| 0 <= i < st.len() implies cids(cs).contains(#[trigger] st[i]) by {
        assert(st[i] == roots[roots.len() - 1 - i]);
    }
    assert(closed_walk(cs, st, empty));
    assert((n + 1) * (n + 1) >= 0) by (nonlinear_arith);
    assert(dfs_measure(n, st, empty) < dfs_fuel(cs));
    lemma_closed_run(cs, st, empty, dfs_fuel(cs));
    let r = dfs_preorder_spec(cs);
    assert forall|z: ConceptId| #[trigger] roots.contains(z) implies r.contains(z) by {
        let i = choose|i: int| 0 <= i < roots.len() && roots[i] == z;
        assert(st[roots.len() - 1 - i] == z);
        assert(st.contains(z));
    }
    assert forall|i: int| 0 <= i < cids(cs).len() implies r.contains(#[trigger] cids(cs)[i]) by {
        let d = cids(cs)[i];
        assert(cids(cs).contains(d));
        lemma_concept_pos(cs, d);
        let q = concept_pos(cs, d);
        assert(tree_node_ok(cs, cs[q]));
        assert(ancestor_at(cs, d, 0) == Some(d));
        assert forall|a: nat| a <= 0 implies (#[trigger] ancestor_at(cs, d, a)) is Some && cids(cs).contains(ancestor_at(cs, d, a)->0) by {}
        let k = lemma_walk_search(cs, d, 0);
        lemma_reach_down(cs, r, d, k, 0);
    }
    lemma_walk_basic(cs, st, empty, dfs_fuel(cs));
    lemma_distinct_bound(r, cids(cs));
    lemma_distinct_bound(cids(cs), r);
}

/// Normalizing a valid forest twice changes nothing the second time: when
/// `cs` is a valid forest with unique identifiers, `ns` is `cs` renumbered by
/// its plan and `fin` is what applying the plan of `ns` to `ns` gives, that
/// second plan renames every concept to itself, `fin` is `ns`, and every
/// task link is kept.
pub proof fn lemma_normalize_valid_twice(cs: Seq<Concept>, ns: Seq<Concept>, fin: Seq<Concept>, x: ConceptId)
    requires
        tree_valid(cs),
        ids_unique(cs),
        cs.len() < u64::MAX,
        renumbered(cs, renumber_pairs(dfs_preorder_spec(cs)), ns),
        applied_concepts(ns, renumber_pairs(dfs_preorder_spec(ns)), fin),
    ensures
        dfs_preorder_spec(ns).len() == ns.len(),
        forall|k: int| 0 <= k < ns.len() ==> (#[trigger] renumber_pairs(dfs_preorder_spec(ns))[k]).0 == renumber_pairs(dfs_preorder_spec(ns))[k].1,
        fin == ns,
        relink(renumber_pairs(dfs_preorder_spec(ns)), x) == x,
{
    lemma_valid_tree_reached(cs);
    lemma_normalize_idempotent(cs, ns);
    lemma_normalize_twice_keeps(cs, ns, fin, x);
}

/// In a valid forest, every step of a walk up from a concept is a concept.
pub proof fn lemma_walk_inside(cs: Seq<Concept>, d: ConceptId, m: nat)
    requires
        tree_valid(cs),
        cids(cs).contains(d),
        ancestor_at(cs, d, m) is Some,
    ensures
        forall|j: nat| j <= m ==> (#[trigger] ancestor_at(cs, d, j)) is Some && cids(cs).contains(ancestor_at(cs, d, j)->0),
    decreases m,
{
    if m > 0 {
        assert(ancestor_at(cs, d, (m - 1) as nat) is Some) by {
            if ancestor_at(cs, d, (m - 1) as nat) is None {
                crate::graph::tree::lemma_ancestor_none(cs, d, (m - 1) as nat, m);
            }
        }
        lemma_walk_inside(cs, d, (m - 1) as nat);
        let x = ancestor_at(cs, d, (m - 1) as nat)->0;
        lemma_parent_in(cs, x);
        assert forall|j: nat| j <= m implies (#[trigger] ancestor_at(cs, d, j)) is Some && cids(cs).contains(ancestor_at(cs, d, j)->0) by {
            if j < m {
                assert(j <= (m - 1) as nat);
            }
        }
    }
}

/// In a valid forest a concept's ancestors lie fewer steps up than there are
/// concepts.
pub proof fn lemma_ancestor_distance(cs: Seq<Concept>, d: ConceptId, m: nat)
    requires
        tree_valid(cs),
        cids(cs).contains(d),
        ancestor_at(cs, d, m) is Some,
    ensures
        m < cs.len(),
{
    lemma_walk_inside(cs, d, m);
    if m >= cs.len() {
        lemma_long_walk_cycles(cs, d, m);
        lemma_concept_pos(cs, d);
        let w = choose|w: int| 0 <= w < cids(cs).len() && cids(cs)[w] == d;
        assert(cs[w].id == d);
        assert(tree_node_ok(cs, cs[concept_pos(cs, d)]));
    }
}

} // verus!
