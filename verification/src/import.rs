//! Import a typed concept graph into the concept tree: project its `is-a`
//! relation onto a strict tree and merge it under a target concept.
//!
//! The input is a stream of nodes (name, document count, category) and typed
//! edges; only `is-a` edges carry hierarchy. The `is-a` slice is generally a
//! DAG (several parents) and may contain cycles; the projection makes it a
//! strict tree:
//!
//! 1. Several parents: keep the highest-weight parent edge (ties: the
//!    alphabetically first parent).
//! 2. Cycles: drop the lowest-weight edge in each cycle (ties: the
//!    alphabetically first child); that child becomes a root.
//! 3. Roots: concepts with no surviving parent group under an umbrella concept
//!    named after the top-level segment of their category; concepts without a
//!    category attach directly to the import target.
//!
//! Merging lets hand curation win: concepts are matched by name within the
//! target subtree. Missing ones are added (parents before children); existing
//! ones stay where they are, and a differing projected parent is only reported
//! as drift unless re-parenting is asked for. Nothing is deleted, and concepts
//! outside the target subtree are never touched.
use vstd::prelude::*;

use crate::model::validate::{trim, trim_chars};
use crate::graph::tree::{is_ancestor_spec, tree_node_ok, lemma_add_keeps_forest, lemma_move_keeps_forest, lemma_same_links, lemma_same_links_tree, reparented, tree_valid};
use crate::model::concept::Concept;
use crate::model::id::{ConceptId, TaskId};
use crate::cli::concept::{child_link, child_rel, in_subtree, is_id, lemma_extend_path, link_path, reachable};
use crate::model::normalize::{ids_unique, lemma_child_member, lemma_child_parent, lemma_filter_ids_unique, lemma_pos_unique};
use crate::seqs::lemma_distinct_bound;
use crate::model::project::{child_ids, children_spec, cids, concept_pos, has_concept, lemma_concept_pos, keeps_settings, lookup_concept, parent_of, Project};
use crate::seqs::{first_pos, last_pos, lemma_first_pos, lemma_last_pos};
use crate::text::{decimal, push_str, u64_decimal};
use crate::text::{chars_of, str_eq, string_from};

verus! {

// --- Name order ---------------------------------------------------------------

/// `a` sorts strictly before `b` (lexicographic by code point, as `str` orders).
pub open spec fn name_lt(a: Seq<char>, b: Seq<char>) -> bool
    decreases a.len(),
{
    if b.len() == 0 {
        false
    } else if a.len() == 0 {
        true
    } else if a[0] != b[0] {
        a[0] < b[0]
    } else {
        name_lt(a.drop_first(), b.drop_first())
    }
}

/// Whether `a` sorts strictly before `b`.
pub fn name_less(a: &str, b: &str) -> (r: bool)
    ensures
        r == name_lt(a@, b@),
{
    let x = chars_of(a);
    let y = chars_of(b);
    let mut i: usize = 0;
    assert(x@.skip(0) =~= x@);
    assert(y@.skip(0) =~= y@);
    while i < x.len() && i < y.len() && x[i] == y[i]
        invariant
            i <= x@.len(),
            i <= y@.len(),
            name_lt(a@, b@) == name_lt(x@.skip(i as int), y@.skip(i as int)),
            x@ == a@,
            y@ == b@,
        decreases x@.len() - i,
    {
        assert(x@.skip(i as int).drop_first() =~= x@.skip(i + 1));
        assert(y@.skip(i as int).drop_first() =~= y@.skip(i + 1));
        i += 1;
    }
    if i == y.len() {
        false
    } else if i == x.len() {
        true
    } else {
        assert(x@.skip(i as int)[0] == x@[i as int]);
        assert(y@.skip(i as int)[0] == y@[i as int]);
        x[i] < y[i]
    }
}

/// The position at which `x` belongs in the sorted `s`, searching from `k`:
/// the first element equal to or after `x`, or the end.
pub open spec fn slot_from(s: Seq<Seq<char>>, x: Seq<char>, k: int) -> int
    decreases s.len() - k,
{
    if k < 0 || k >= s.len() {
        s.len() as int
    } else if s[k] == x || name_lt(x, s[k]) {
        k
    } else {
        slot_from(s, x, k + 1)
    }
}

/// `x` added to the sorted list `s` unless already present.
pub open spec fn insert_name(s: Seq<Seq<char>>, x: Seq<char>) -> Seq<Seq<char>> {
    let k = slot_from(s, x, 0);
    if k < s.len() && s[k] == x {
        s
    } else {
        s.insert(k, x)
    }
}

/// The distinct names of `l` in sorted order.
pub open spec fn sort_names(l: Seq<Seq<char>>) -> Seq<Seq<char>> {
    l.fold_left(Seq::<Seq<char>>::empty(), |acc: Seq<Seq<char>>, x: Seq<char>| insert_name(acc, x))
}

/// The texts of a list of strings.
pub open spec fn texts(v: Seq<String>) -> Seq<Seq<char>> {
    v.map_values(|s: String| s@)
}

proof fn lemma_slot_from_bounds(s: Seq<Seq<char>>, x: Seq<char>, k: int)
    requires
        0 <= k <= s.len(),
    ensures
        k <= slot_from(s, x, k) <= s.len(),
    decreases s.len() - k,
{
    if k < s.len() && !(s[k] == x || name_lt(x, s[k])) {
        lemma_slot_from_bounds(s, x, k + 1);
    }
}

/// Adds `x` to the sorted list `v` unless already present.
pub fn insert_sorted(v: &mut Vec<String>, x: &str)
    ensures
        texts(final(v)@) == insert_name(texts(old(v)@), x@),
{
    let ghost s = texts(v@);
    let mut k: usize = 0;
    while k < v.len() && !str_eq(v[k].as_str(), x) && !name_less(x, v[k].as_str())
        invariant
            s == texts(v@),
            k <= v@.len(),
            slot_from(s, x@, 0) == slot_from(s, x@, k as int),
        decreases v@.len() - k,
    {
        assert(s[k as int] == v@[k as int]@);
        k += 1;
    }
    proof {
        if k < v@.len() {
            assert(s[k as int] == v@[k as int]@);
        }
    }
    assert(slot_from(s, x@, 0) == k);
    if k < v.len() && str_eq(v[k].as_str(), x) {
        assert(s[k as int] == x@);
        return;
    }
    let ghost before = v@;
    let xs = x.to_string();
    assert(xs@ == x@);
    v.insert(k, xs);
    assert(texts(v@) =~= s.insert(k as int, x@));
}

/// Sorts `v` by name, dropping repeats.
pub fn sorted_names(v: &Vec<String>) -> (r: Vec<String>)
    ensures
        texts(r@) == sort_names(texts(v@)),
{
    let ghost s = texts(v@);
    let mut r: Vec<String> = Vec::new();
    let mut i: usize = 0;
    while i < v.len()
        invariant
            s == texts(v@),
            i <= v@.len(),
            texts(r@) == sort_names(s.take(i as int)),
        decreases v@.len() - i,
    {
        assert(s.take(i + 1).drop_last() =~= s.take(i as int));
        assert(s.take(i + 1).last() == v@[i as int]@);
        insert_sorted(&mut r, v[i].as_str());
        i += 1;
    }
    assert(s.take(i as int) =~= s);
    r
}

/// A text, by view, when present.
pub open spec fn opt_view(s: Option<String>) -> Option<Seq<char>> {
    match s {
        Some(t) => Some(t@),
        None => None,
    }
}

// --- The parsed graph -------------------------------------------------------

/// A node as the import sees it: name, document count, top-level category.
pub type NodeView = (Seq<char>, nat, Option<Seq<char>>);

/// An `is-a` assertion `child -> parent` with its weight.
pub type EdgeView = (Seq<char>, Seq<char>, nat);

/// The views of stored edges.
pub open spec fn edge_views(v: Seq<(String, String, usize)>) -> Seq<EdgeView> {
    v.map_values(|e: (String, String, usize)| (e.0@, e.1@, e.2 as nat))
}

/// The views of stored nodes.
pub open spec fn node_views(v: Seq<(String, usize, Option<String>)>) -> Seq<NodeView> {
    v.map_values(|n: (String, usize, Option<String>)| (n.0@, n.1 as nat, opt_view(n.2)))
}

/// The names of some nodes.
pub open spec fn node_names(nodes: Seq<NodeView>) -> Seq<Seq<char>> {
    nodes.map_values(|n: NodeView| n.0)
}

/// What the import knows of a name: its document count and category, or
/// `(0, None)` for a name that was never declared as a node.
pub open spec fn node_info(nodes: Seq<NodeView>, name: Seq<char>) -> (nat, Option<Seq<char>>) {
    let k = first_pos(node_names(nodes), name);
    if k >= 0 {
        (nodes[k].1, nodes[k].2)
    } else {
        (0, None)
    }
}

/// The top-level segment of a category path (`finance/risk` gives
/// `finance`), trimmed; `None` when that leaves nothing.
pub open spec fn top_segment(category: Seq<char>) -> Option<Seq<char>> {
    let slash = first_pos(category, '/');
    let head = if slash >= 0 { category.take(slash) } else { category };
    let t = trim(head);
    if t.len() > 0 {
        Some(t)
    } else {
        None
    }
}

/// The parsed graph: nodes (unique names) and the raw `is-a` edges.
#[derive(Debug)]
pub struct GraphInput {
    nodes: Vec<(String, usize, Option<String>)>,
    is_a: Vec<(String, String, usize)>,
}

fn position_of_char(v: &Vec<char>, x: char) -> (r: Option<usize>)
    ensures
        match r {
            Some(k) => first_pos(v@, x) == k as int && k < v@.len(),
            None => first_pos(v@, x) < 0,
        },
{
    proof {
        lemma_first_pos(v@, x);
    }
    let mut k: usize = 0;
    while k < v.len()
        invariant
            k <= v@.len(),
            forall|m: int| 0 <= m < k ==> v@[m] != x,
            -1 <= first_pos(v@, x) < v@.len(),
            first_pos(v@, x) >= 0 ==> v@[first_pos(v@, x)] == x,
            forall|m: int| 0 <= m < v@.len() && (first_pos(v@, x) < 0 || m < first_pos(v@, x)) ==> v@[m] != x,
        decreases v@.len() - k,
    {
        if v[k] == x {
            return Some(k);
        }
        k += 1;
    }
    None
}

/// The top-level segment of a category, trimmed, when non-empty.
pub fn category_top(category: &str) -> (r: Option<String>)
    ensures
        opt_view(r) == top_segment(category@),
{
    let v = chars_of(category);
    let head: Vec<char> = match position_of_char(&v, '/') {
        Some(k) => {
            let mut h: Vec<char> = Vec::new();
            crate::text::push_range(&mut h, v.as_slice(), 0, k);
            assert(h@ =~= v@.take(k as int));
            h
        },
        None => v,
    };
    let t = trim_chars(head.as_slice());
    if t.len() > 0 {
        Some(string_from(t.as_slice()))
    } else {
        None
    }
}

/// What parsing one line of the stream gave.
pub enum ParsedLine {
    /// A node declaration.
    Node { id: String, docs: usize, category: Option<String> },
    /// An edge of any relation; its fields may be missing.
    Edge { from: Option<String>, to: Option<String>, rel: Option<String>, weight: usize },
    /// Valid JSON of a kind the stream does not define.
    Other,
    /// Text that is not JSON.
    Malformed,
}

/// The nodes after declaring `id`: a name declared again replaces its entry,
/// a new name is appended; only the category's top segment is kept.
pub open spec fn with_node(ns: Seq<NodeView>, id: Seq<char>, docs: nat, category: Option<Seq<char>>) -> Seq<NodeView> {
    let entry = (id, docs, match category {
        Some(c) => top_segment(c),
        None => None,
    });
    let k = first_pos(node_names(ns), id);
    if k >= 0 {
        ns.update(k, entry)
    } else {
        ns.push(entry)
    }
}

/// The `is-a` edges after reading an edge: kept only when it is complete and
/// its relation is `is-a`.
pub open spec fn with_edge(
    es: Seq<EdgeView>,
    from: Option<Seq<char>>,
    to: Option<Seq<char>>,
    rel: Option<Seq<char>>,
    weight: nat,
) -> Seq<EdgeView> {
    match (from, to, rel) {
        (Some(f), Some(t), Some(r)) => if r == "is-a"@ {
            es.push((f, t, weight))
        } else {
            es
        },
        _ => es,
    }
}

/// Whether `serde_json` reads `line` as some JSON value; it depends on the
/// line alone.
pub uninterp spec fn json_value_ok(line: Seq<char>) -> bool;

/// `serde_json::from_str::<serde_json::Value>`: whether the line is valid
/// JSON of any shape. Only the outcome is kept, named by `json_value_ok`.
#[verifier::external_body]
fn is_json_value(line: &str) -> (r: bool)
    ensures
        r == json_value_ok(line@),
{
    serde_json::from_str::<serde_json::Value>(line).is_ok()
}

/// What a line of the stream comes to: what the typed reading of the line
/// gave when it succeeded (`typed`); otherwise a line that is still valid
/// JSON is of a kind the stream does not define and is skipped, and any
/// other line is malformed.
pub fn classify_line(line: &str, typed: Option<ParsedLine>) -> (r: ParsedLine)
    ensures
        typed is Some ==> r == typed->0,
        typed is None ==> r == if json_value_ok(line@) {
            ParsedLine::Other
        } else {
            ParsedLine::Malformed
        },
{
    match typed {
        Some(p) => p,
        None => {
            let json = is_json_value(line);
            line_kind(None, json)
        },
    }
}

/// What a line comes to, given the typed reading (`typed`) and whether the
/// line is valid JSON (`json`): the typed reading when there is one, else a
/// skipped line when it is JSON, else a malformed line.
pub fn line_kind(typed: Option<ParsedLine>, json: bool) -> (r: ParsedLine)
    ensures
        typed is Some ==> r == typed->0,
        typed is None ==> r == if json {
            ParsedLine::Other
        } else {
            ParsedLine::Malformed
        },
{
    match typed {
        Some(p) => p,
        None => if json {
            ParsedLine::Other
        } else {
            ParsedLine::Malformed
        },
    }
}

/// Whether a line of the stream holds only whitespace (such lines are skipped).
pub fn is_blank(line: &str) -> (r: bool)
    ensures
        r == (trim(line@).len() == 0),
{
    let v = chars_of(line);
    let t = trim_chars(v.as_slice());
    t.len() == 0
}

impl GraphInput {
    /// The nodes, in first-declaration order.
    pub closed spec fn node_list(&self) -> Seq<NodeView> {
        node_views(self.nodes@)
    }

    /// The `is-a` edges, in stream order.
    pub closed spec fn edge_list(&self) -> Seq<EdgeView> {
        edge_views(self.is_a@)
    }

    /// An empty graph.
    pub fn new() -> (g: GraphInput)
        ensures
            g.node_list().len() == 0,
            g.edge_list().len() == 0,
    {
        GraphInput { nodes: Vec::new(), is_a: Vec::new() }
    }

    /// Records a node; a node declared again replaces the earlier declaration.
    /// Only the top-level segment of its category is kept.
    pub fn add_node(&mut self, id: String, docs: usize, category: Option<String>)
        ensures
            final(self).edge_list() == old(self).edge_list(),
            ({
                let entry = (id@, docs as nat, match category {
                    Some(c) => top_segment(c@),
                    None => None,
                });
                let k = first_pos(node_names(old(self).node_list()), id@);
                final(self).node_list() == if k >= 0 {
                    old(self).node_list().update(k, entry)
                } else {
                    old(self).node_list().push(entry)
                }
            }),
    {
        let top = match &category {
            Some(c) => category_top(c.as_str()),
            None => None,
        };
        let ghost names = node_names(node_views(self.nodes@));
        proof {
            lemma_first_pos(names, id@);
        }
        let mut k: usize = 0;
        while k < self.nodes.len() && !str_eq(self.nodes[k].0.as_str(), id.as_str())
            invariant
                k <= self.nodes@.len(),
                names == node_names(node_views(self.nodes@)),
                forall|m: int| 0 <= m < k ==> names[m] != id@,
            decreases self.nodes@.len() - k,
        {
            assert(names[k as int] == self.nodes@[k as int].0@);
            k += 1;
        }
        let ghost old_nodes = self.nodes@;
        if k < self.nodes.len() {
            assert(names[k as int] == id@);
            assert(first_pos(names, id@) == k) by {
                if first_pos(names, id@) < k {
                    assert(names[first_pos(names, id@)] == id@);
                }
            }
            self.nodes.set(k, (id, docs, top));
            assert(node_views(self.nodes@) =~= node_views(old_nodes).update(k as int, (id@, docs as nat, match category {
                Some(c) => top_segment(c@),
                None => None,
            })));
        } else {
            assert(first_pos(names, id@) < 0) by {
                if first_pos(names, id@) >= 0 {
                    assert(names[first_pos(names, id@)] == id@);
                }
            }
            self.nodes.push((id, docs, top));
            assert(node_views(self.nodes@) =~= node_views(old_nodes).push((id@, docs as nat, match category {
                Some(c) => top_segment(c@),
                None => None,
            })));
        }
    }

    /// Records an edge of the stream: kept only when it is a complete `is-a` edge.
    pub fn add_edge(&mut self, from: Option<String>, to: Option<String>, rel: Option<String>, weight: usize)
        ensures
            final(self).node_list() == old(self).node_list(),
            final(self).edge_list() == match (from, to, rel) {
                (Some(f), Some(t), Some(r)) => if r@ == "is-a"@ {
                    old(self).edge_list().push((f@, t@, weight as nat))
                } else {
                    old(self).edge_list()
                },
                _ => old(self).edge_list(),
            },
    {
        match (from, to, rel) {
            (Some(f), Some(t), Some(r)) => {
                if str_eq(r.as_str(), "is-a") {
                    let ghost before = self.is_a@;
                    self.is_a.push((f, t, weight));
                    assert(edge_views(self.is_a@) =~= edge_views(before).push((f@, t@, weight as nat)));
                }
            },
            _ => {},
        }
    }

    /// Takes one parsed line of the stream (its position `index`, counting
    /// from zero): a node or an edge is recorded, a line of another kind is
    /// skipped, and a malformed line stops the read with its line number.
    pub fn take_line(&mut self, parsed: ParsedLine, index: usize) -> (r: Result<(), usize>)
        requires
            index < usize::MAX,
        ensures
            match parsed {
                ParsedLine::Node { id, docs, category } => r is Ok && final(self).edge_list() == old(self).edge_list()
                    && final(self).node_list() == with_node(old(self).node_list(), id@, docs as nat, opt_view(category)),
                ParsedLine::Edge { from, to, rel, weight } => r is Ok && final(self).node_list() == old(self).node_list()
                    && final(self).edge_list() == with_edge(
                    old(self).edge_list(),
                    opt_view(from),
                    opt_view(to),
                    opt_view(rel),
                    weight as nat,
                ),
                ParsedLine::Other => r is Ok && *final(self) == *old(self),
                ParsedLine::Malformed => (r matches Err(n) && n == index + 1) && *final(self) == *old(self),
            },
    {
        match parsed {
            ParsedLine::Node { id, docs, category } => {
                self.add_node(id, docs, category);
                Ok(())
            },
            ParsedLine::Edge { from, to, rel, weight } => {
                self.add_edge(from, to, rel, weight);
                Ok(())
            },
            ParsedLine::Other => Ok(()),
            ParsedLine::Malformed => Err(index + 1),
        }
    }

    /// How many distinct nodes were declared.
    pub fn node_count(&self) -> (n: usize)
        ensures
            n == self.node_list().len(),
    {
        self.nodes.len()
    }

    /// How many `is-a` edges were kept.
    pub fn is_a_count(&self) -> (n: usize)
        ensures
            n == self.edge_list().len(),
    {
        self.is_a.len()
    }

    /// The document count and top-level category recorded for `name`.
    pub fn node(&self, name: &str) -> (r: Option<(usize, Option<String>)>)
        ensures
            match r {
                Some(x) => first_pos(node_names(self.node_list()), name@) >= 0 && (x.0 as nat, opt_view(x.1))
                    == node_info(self.node_list(), name@),
                None => first_pos(node_names(self.node_list()), name@) < 0,
            },
    {
        let ghost names = node_names(node_views(self.nodes@));
        proof {
            lemma_first_pos(names, name@);
        }
        let mut k: usize = 0;
        while k < self.nodes.len()
            invariant
                k <= self.nodes@.len(),
                names == node_names(node_views(self.nodes@)),
                forall|m: int| 0 <= m < k ==> names[m] != name@,
            decreases self.nodes@.len() - k,
        {
            assert(names[k as int] == self.nodes@[k as int].0@);
            if str_eq(self.nodes[k].0.as_str(), name) {
                proof {
                    lemma_first_pos(names, name@);
                }
                assert(first_pos(names, name@) == k) by {
                    if first_pos(names, name@) < k {
                        assert(names[first_pos(names, name@)] == name@);
                    }
                }
                return Some((self.nodes[k].1, self.nodes[k].2.clone()));
            }
            k += 1;
        }
        assert(first_pos(names, name@) < 0) by {
            if first_pos(names, name@) >= 0 {
                assert(names[first_pos(names, name@)] == name@);
            }
        }
        None
    }
}

// --- Step 1: one parent per child ---------------------------------------------

/// A pair of names, by view.
pub open spec fn pair_views(v: Seq<(String, String)>) -> Seq<(Seq<char>, Seq<char>)> {
    v.map_values(|p: (String, String)| (p.0@, p.1@))
}

/// The children of an edge list, in order.
pub open spec fn edge_children(v: Seq<EdgeView>) -> Seq<Seq<char>> {
    v.map_values(|e: EdgeView| e.0)
}

/// Index of the entry for `child` in an edge list keyed by child, or `-1`.
pub open spec fn entry_pos(v: Seq<EdgeView>, child: Seq<char>) -> int {
    first_pos(edge_children(v), child)
}

/// A name takes part when there is no document threshold (`min_docs <= 1`)
/// or it has at least `min_docs` documents.
pub open spec fn eligible(nodes: Seq<NodeView>, min_docs: nat, name: Seq<char>) -> bool {
    min_docs <= 1 || node_info(nodes, name).0 >= min_docs
}

/// One edge of the parent resolution: a self-edge or an edge touching a
/// pruned name is skipped; otherwise the child keeps the heavier parent
/// (ties: the alphabetically first), and the losing edge is recorded.
pub open spec fn resolve_step(
    nodes: Seq<NodeView>,
    min_docs: nat,
    st: (Seq<EdgeView>, Seq<(Seq<char>, Seq<char>)>),
    e: EdgeView,
) -> (Seq<EdgeView>, Seq<(Seq<char>, Seq<char>)>) {
    let (best, dropped) = st;
    let (c, p, w) = e;
    if c == p || !eligible(nodes, min_docs, c) || !eligible(nodes, min_docs, p) {
        st
    } else {
        let k = entry_pos(best, c);
        if k < 0 {
            (best.push(e), dropped)
        } else {
            let cp = best[k].1;
            let cw = best[k].2;
            if cw > w || (cw == w && !name_lt(p, cp)) {
                (best, dropped.push((c, p)))
            } else {
                (best.update(k, e), dropped.push((c, cp)))
            }
        }
    }
}

/// The surviving parent edge of every child (in order of first appearance)
/// and the edges dropped for a heavier or alphabetically earlier parent.
pub open spec fn resolve_parents(nodes: Seq<NodeView>, edges: Seq<EdgeView>, min_docs: nat) -> (
    Seq<EdgeView>,
    Seq<(Seq<char>, Seq<char>)>,
) {
    edges.fold_left(
        (Seq::<EdgeView>::empty(), Seq::<(Seq<char>, Seq<char>)>::empty()),
        |st: (Seq<EdgeView>, Seq<(Seq<char>, Seq<char>)>), e: EdgeView| resolve_step(nodes, min_docs, st, e),
    )
}

fn find_child(v: &Vec<(String, String, usize)>, c: &str) -> (r: Option<usize>)
    ensures
        match r {
            Some(k) => entry_pos(edge_views(v@), c@) == k as int && k < v@.len(),
            None => entry_pos(edge_views(v@), c@) < 0,
        },
{
    let ghost names = edge_children(edge_views(v@));
    let mut k: usize = 0;
    while k < v.len()
        invariant
            k <= v@.len(),
            names == edge_children(edge_views(v@)),
            forall|m: int| 0 <= m < k ==> names[m] != c@,
        decreases v@.len() - k,
    {
        assert(names[k as int] == v@[k as int].0@);
        if str_eq(v[k].0.as_str(), c) {
            proof {
                lemma_first_pos(names, c@);
                if first_pos(names, c@) < k {
                    assert(names[first_pos(names, c@)] == c@);
                }
            }
            return Some(k);
        }
        k += 1;
    }
    proof {
        lemma_first_pos(names, c@);
        if first_pos(names, c@) >= 0 {
            assert(names[first_pos(names, c@)] == c@);
        }
    }
    None
}

impl GraphInput {
    /// The document count and category known for `name` (`(0, None)` when undeclared).
    fn info_of(&self, name: &str) -> (r: (usize, Option<String>))
        ensures
            (r.0 as nat, opt_view(r.1)) == node_info(self.node_list(), name@),
    {
        match self.node(name) {
            Some(x) => x,
            None => (0, None),
        }
    }

    fn eligible_name(&self, min_docs: usize, name: &str) -> (r: bool)
        ensures
            r == eligible(self.node_list(), min_docs as nat, name@),
    {
        min_docs <= 1 || self.info_of(name).0 >= min_docs
    }

    /// Step 1 of the projection: one parent edge per child.
    fn resolve(&self, min_docs: usize) -> (r: (Vec<(String, String, usize)>, Vec<(String, String)>))
        ensures
            (edge_views(r.0@), pair_views(r.1@)) == resolve_parents(self.node_list(), self.edge_list(), min_docs as nat),
            r.0@.len() <= self.edge_list().len(),
    {
        let ghost edges = self.edge_list();
        let ghost nodes = self.node_list();
        let mut best: Vec<(String, String, usize)> = Vec::new();
        let mut dropped: Vec<(String, String)> = Vec::new();
        let mut i: usize = 0;
        while i < self.is_a.len()
            invariant
                edges == self.edge_list(),
                nodes == self.node_list(),
                edges == edge_views(self.is_a@),
                i <= self.is_a@.len(),
                (edge_views(best@), pair_views(dropped@)) == resolve_parents(nodes, edges.take(i as int), min_docs as nat),
                best@.len() <= i,
            decreases self.is_a@.len() - i,
        {
            assert(edges.take(i + 1).drop_last() =~= edges.take(i as int));
            let ghost e = edges[i as int];
            let ghost st = (edge_views(best@), pair_views(dropped@));
            assert(resolve_parents(nodes, edges.take(i + 1), min_docs as nat) == resolve_step(nodes, min_docs as nat, st, e));
            let c = &self.is_a[i].0;
            let p = &self.is_a[i].1;
            let w = self.is_a[i].2;
            assert(e == (c@, p@, w as nat));
            if !str_eq(c.as_str(), p.as_str()) && self.eligible_name(min_docs, c.as_str()) && self.eligible_name(min_docs, p.as_str()) {
                match find_child(&best, c.as_str()) {
                    None => {
                        let ghost before = best@;
                        best.push((c.clone(), p.clone(), w));
                        assert(edge_views(best@) =~= edge_views(before).push(e));
                    },
                    Some(k) => {
                        let cw = best[k].2;
                        assert(edge_views(best@)[k as int] == (best@[k as int].0@, best@[k as int].1@, cw as nat));
                        if cw > w || (cw == w && !name_less(p.as_str(), best[k].1.as_str())) {
                            let ghost before = dropped@;
                            dropped.push((c.clone(), p.clone()));
                            assert(pair_views(dropped@) =~= pair_views(before).push((c@, p@)));
                        } else {
                            let cp = best[k].1.clone();
                            let ghost bbefore = best@;
                            let ghost dbefore = dropped@;
                            dropped.push((c.clone(), cp));
                            best.set(k, (c.clone(), p.clone(), w));
                            assert(edge_views(best@) =~= edge_views(bbefore).update(k as int, e));
                            assert(pair_views(dropped@) =~= pair_views(dbefore).push((c@, bbefore[k as int].1@)));
                        }
                    },
                }
            }
            i += 1;
        }
        assert(edges.take(i as int) =~= edges);
        (best, dropped)
    }
}

// --- Step 2: breaking cycles ------------------------------------------------------

/// The weight of the surviving edge out of `name` (0 when it has none).
pub open spec fn weight_of(pm: Seq<EdgeView>, name: Seq<char>) -> nat {
    let k = entry_pos(pm, name);
    if k >= 0 {
        pm[k].2
    } else {
        0
    }
}

/// The edge out of `a` is weaker than the one out of `b`: lighter, or as
/// heavy with `a` alphabetically first.
pub open spec fn weaker(pm: Seq<EdgeView>, a: Seq<char>, b: Seq<char>) -> bool {
    weight_of(pm, a) < weight_of(pm, b) || (weight_of(pm, a) == weight_of(pm, b) && name_lt(a, b))
}

/// The member of `cyc` whose outgoing edge is weakest (the first such).
pub open spec fn weakest(pm: Seq<EdgeView>, cyc: Seq<Seq<char>>) -> Seq<char>
    decreases cyc.len(),
{
    if cyc.len() <= 1 {
        cyc[0]
    } else {
        let m = weakest(pm, cyc.drop_last());
        if weaker(pm, cyc.last(), m) {
            cyc.last()
        } else {
            m
        }
    }
}

/// Follows parent edges from `cur`, extending `path`, until the walk reaches a
/// name already handled, a name without a parent (which joins the path), or
/// a name already on the path, which closes a cycle: the cycle's weakest
/// member is returned as the victim. At most `fuel` steps are taken.
pub open spec fn walk(
    pm: Seq<EdgeView>,
    done: Seq<Seq<char>>,
    path: Seq<Seq<char>>,
    cur: Seq<char>,
    fuel: nat,
) -> (Seq<Seq<char>>, Option<Seq<char>>)
    decreases fuel,
{
    if fuel == 0 || done.contains(cur) {
        (path, None)
    } else if path.contains(cur) {
        (path, Some(weakest(pm, path.skip(first_pos(path, cur)))))
    } else {
        let k = entry_pos(pm, cur);
        if k >= 0 {
            walk(pm, done, path.push(cur), pm[k].1, (fuel - 1) as nat)
        } else {
            (path.push(cur), None)
        }
    }
}

/// One walk of the cycle breaking, from `start`, on the state
/// `(surviving edges, handled names, dropped edges)`.
pub open spec fn break_step(
    fuel: nat,
    st: (Seq<EdgeView>, Seq<Seq<char>>, Seq<(Seq<char>, Seq<char>)>),
    start: Seq<char>,
) -> (Seq<EdgeView>, Seq<Seq<char>>, Seq<(Seq<char>, Seq<char>)>) {
    let (pm, done, dropped) = st;
    if done.contains(start) {
        st
    } else {
        let (path, victim) = walk(pm, done, Seq::empty(), start, fuel);
        match victim {
            Some(v) => {
                let k = entry_pos(pm, v);
                (pm.remove(k), done + path, dropped.push((v, pm[k].1)))
            },
            None => (pm, done + path, dropped),
        }
    }
}

/// Step 2 of the projection: walks start from every child in name order; each
/// cycle found loses its weakest edge.
pub open spec fn break_cycles(pm: Seq<EdgeView>) -> (Seq<EdgeView>, Seq<Seq<char>>, Seq<(Seq<char>, Seq<char>)>) {
    break_walks(pm, sort_names(edge_children(pm)))
}

/// The cycle breaking state after walks from each of `starts` in turn.
pub open spec fn break_walks(pm: Seq<EdgeView>, starts: Seq<Seq<char>>) -> (
    Seq<EdgeView>,
    Seq<Seq<char>>,
    Seq<(Seq<char>, Seq<char>)>,
) {
    starts.fold_left(
        (pm, Seq::<Seq<char>>::empty(), Seq::<(Seq<char>, Seq<char>)>::empty()),
        |st: (Seq<EdgeView>, Seq<Seq<char>>, Seq<(Seq<char>, Seq<char>)>), start: Seq<char>|
            break_step((pm.len() + 2) as nat, st, start),
    )
}

/// The weakest member is a member.
proof fn lemma_weakest_member(pm: Seq<EdgeView>, cyc: Seq<Seq<char>>)
    requires
        cyc.len() >= 1,
    ensures
        cyc.contains(weakest(pm, cyc)),
    decreases cyc.len(),
{
    if cyc.len() > 1 {
        lemma_weakest_member(pm, cyc.drop_last());
        let m = weakest(pm, cyc.drop_last());
        let k = choose|k: int| 0 <= k < cyc.drop_last().len() && cyc.drop_last()[k] == m;
        assert(cyc[k] == m);
        assert(cyc[cyc.len() - 1] == cyc.last());
    } else {
        assert(cyc[0] == weakest(pm, cyc));
    }
}

/// Index of the first occurrence of `x` in `v`, by text.
pub fn position_of_name(v: &Vec<String>, x: &str) -> (r: Option<usize>)
    ensures
        match r {
            Some(k) => first_pos(texts(v@), x@) == k as int && k < v@.len(),
            None => first_pos(texts(v@), x@) < 0 && !texts(v@).contains(x@),
        },
{
    let ghost names = texts(v@);
    proof {
        lemma_first_pos(names, x@);
    }
    let mut k: usize = 0;
    while k < v.len()
        invariant
            k <= v@.len(),
            names == texts(v@),
            forall|m: int| 0 <= m < k ==> names[m] != x@,
            first_pos(names, x@) < 0 <==> !names.contains(x@),
        decreases v@.len() - k,
    {
        assert(names[k as int] == v@[k as int]@);
        if str_eq(v[k].as_str(), x) {
            proof {
                lemma_first_pos(names, x@);
                if first_pos(names, x@) < k {
                    assert(names[first_pos(names, x@)] == x@);
                }
            }
            return Some(k);
        }
        k += 1;
    }
    proof {
        if first_pos(names, x@) >= 0 {
            assert(names[first_pos(names, x@)] == x@);
        }
    }
    None
}

fn weight_exec(pm: &Vec<(String, String, usize)>, name: &str) -> (r: usize)
    ensures
        r as nat == weight_of(edge_views(pm@), name@),
{
    match find_child(pm, name) {
        Some(k) => {
            assert(edge_views(pm@)[k as int].2 == pm@[k as int].2 as nat);
            pm[k].2
        },
        None => 0,
    }
}

/// The weakest member of `path[from..]`.
fn weakest_exec(pm: &Vec<(String, String, usize)>, path: &Vec<String>, from: usize) -> (r: String)
    requires
        from < path@.len(),
    ensures
        r@ == weakest(edge_views(pm@), texts(path@).skip(from as int)),
{
    let ghost cyc = texts(path@).skip(from as int);
    let ghost pmv = edge_views(pm@);
    let n = path.len();
    let mut m = path[from].clone();
    assert(cyc.take(1) =~= seq![cyc[0]]);
    let mut i: usize = from + 1;
    while i < path.len()
        invariant
            from < i <= path@.len(),
            cyc == texts(path@).skip(from as int),
            pmv == edge_views(pm@),
            m@ == weakest(pmv, cyc.take(i - from)),
        decreases path@.len() - i,
    {
        let ghost t = cyc.take(i - from + 1);
        assert(t.drop_last() =~= cyc.take(i - from));
        assert(t.last() == path@[i as int]@);
        let wx = weight_exec(pm, path[i].as_str());
        let wm = weight_exec(pm, m.as_str());
        if wx < wm || (wx == wm && name_less(path[i].as_str(), m.as_str())) {
            m = path[i].clone();
        }
        i += 1;
    }
    assert(cyc.take(i - from) =~= cyc);
    m
}

/// Every name on a walk's path has a surviving parent edge, except possibly
/// the last one when the walk ended at a root.
pub open spec fn path_has_parents(pm: Seq<EdgeView>, path: Seq<Seq<char>>) -> bool {
    forall|k: int| 0 <= k < path.len() ==> entry_pos(pm, #[trigger] path[k]) >= 0
}

proof fn lemma_walk_victim(pm: Seq<EdgeView>, done: Seq<Seq<char>>, path: Seq<Seq<char>>, cur: Seq<char>, fuel: nat)
    requires
        path_has_parents(pm, path),
    ensures
        walk(pm, done, path, cur, fuel).1 matches Some(v) ==> entry_pos(pm, v) >= 0,
    decreases fuel,
{
    if fuel == 0 || done.contains(cur) {
    } else if path.contains(cur) {
        let cyc = path.skip(first_pos(path, cur));
        lemma_first_pos(path, cur);
        lemma_weakest_member(pm, cyc);
        let v = weakest(pm, cyc);
        let j = choose|j: int| 0 <= j < cyc.len() && cyc[j] == v;
        assert(path[first_pos(path, cur) + j] == v);
    } else {
        let k = entry_pos(pm, cur);
        if k >= 0 {
            let np = path.push(cur);
            assert(path_has_parents(pm, np)) by {
                assert forall|m: int| 0 <= m < np.len() implies entry_pos(pm, #[trigger] np[m]) >= 0 by {
                    if m < path.len() {
                        assert(np[m] == path[m]);
                    }
                }
            }
            lemma_walk_victim(pm, done, np, pm[k].1, (fuel - 1) as nat);
        }
    }
}

/// Runs `walk` from `start` with an empty path.
fn walk_exec(pm: &Vec<(String, String, usize)>, done: &Vec<String>, start: &String, fuel0: usize) -> (r: (Vec<String>, Option<String>))
    ensures
        (texts(r.0@), opt_view(r.1)) == walk(edge_views(pm@), texts(done@), Seq::empty(), start@, fuel0 as nat),
        r.1 matches Some(v) ==> entry_pos(edge_views(pm@), v@) >= 0,
{
    let ghost pmv = edge_views(pm@);
    let ghost dv = texts(done@);
    let mut path: Vec<String> = Vec::new();
    let mut cur: String = start.clone();
    let mut fuel = fuel0;
    assert(texts(path@) =~= Seq::<Seq<char>>::empty());
    proof {
        lemma_walk_victim(pmv, dv, Seq::empty(), start@, fuel0 as nat);
    }
    loop
        invariant
            pmv == edge_views(pm@),
            dv == texts(done@),
            walk(pmv, dv, Seq::empty(), start@, fuel0 as nat) == walk(pmv, dv, texts(path@), cur@, fuel as nat),
            walk(pmv, dv, Seq::empty(), start@, fuel0 as nat).1 matches Some(v) ==> entry_pos(pmv, v) >= 0,
        decreases fuel,
    {
        if fuel == 0 {
            return (path, None);
        }
        if position_of_name(done, cur.as_str()).is_some() {
            proof {
                lemma_first_pos(dv, cur@);
            }
            return (path, None);
        }
        match position_of_name(&path, cur.as_str()) {
            Some(pos) => {
                proof {
                    lemma_first_pos(texts(path@), cur@);
                }
                let v = weakest_exec(pm, &path, pos);
                return (path, Some(v));
            },
            None => {},
        }
        match find_child(pm, cur.as_str()) {
            Some(k) => {
                let next = pm[k].1.clone();
                assert(pmv[k as int].1 == next@);
                let ghost before = texts(path@);
                let ghost c = cur@;
                path.push(cur);
                assert(texts(path@) =~= before.push(c));
                cur = next;
                fuel -= 1;
            },
            None => {
                let ghost before = texts(path@);
                let ghost c = cur@;
                path.push(cur);
                assert(texts(path@) =~= before.push(c));
                return (path, None);
            },
        }
    }
}

/// The children (keys) of an edge list, in order.
fn children_of_edges(v: &Vec<(String, String, usize)>) -> (r: Vec<String>)
    ensures
        texts(r@) == edge_children(edge_views(v@)),
{
    let mut r: Vec<String> = Vec::new();
    let mut i: usize = 0;
    while i < v.len()
        invariant
            i <= v@.len(),
            texts(r@) == edge_children(edge_views(v@)).take(i as int),
        decreases v@.len() - i,
    {
        let c = v[i].0.clone();
        let ghost before = r@;
        assert(c@ == edge_children(edge_views(v@))[i as int]);
        r.push(c);
        assert(texts(r@) =~= texts(before).push(c@));
        assert(texts(r@) =~= edge_children(edge_views(v@)).take(i + 1));
        i += 1;
    }
    assert(edge_children(edge_views(v@)).take(i as int) =~= edge_children(edge_views(v@)));
    r
}

/// Step 2 of the projection on the edges kept by step 1.
fn break_cycles_exec(best: Vec<(String, String, usize)>) -> (r: (Vec<(String, String, usize)>, Vec<(String, String)>))
    requires
        best@.len() + 2 <= usize::MAX,
    ensures
        edge_views(r.0@) == break_cycles(edge_views(best@)).0,
        pair_views(r.1@) == break_cycles(edge_views(best@)).2,
{
    let ghost pm0 = edge_views(best@);
    let fuel = best.len() + 2;
    let keys = children_of_edges(&best);
    let children = sorted_names(&keys);
    let ghost order = texts(children@);
    let mut pm = best;
    let mut done: Vec<String> = Vec::new();
    let mut dropped: Vec<(String, String)> = Vec::new();
    let mut i: usize = 0;
    while i < children.len()
        invariant
            i <= children@.len(),
            order == texts(children@),
            order == sort_names(edge_children(pm0)),
            fuel == pm0.len() + 2,
            (edge_views(pm@), texts(done@), pair_views(dropped@)) == break_walks(pm0, order.take(i as int)),
        decreases children@.len() - i,
    {
        assert(order.take(i + 1).drop_last() =~= order.take(i as int));
        assert(order.take(i + 1).last() == children@[i as int]@);
        let start = &children[i];
        let ghost st = (edge_views(pm@), texts(done@), pair_views(dropped@));
        assert(break_walks(pm0, order.take(i + 1)) == break_step((pm0.len() + 2) as nat, st, start@));
        let seen = position_of_name(&done, start.as_str());
        proof {
            lemma_first_pos(texts(done@), start@);
        }
        if seen.is_none() {
            let (path, victim) = walk_exec(&pm, &done, start, fuel);
            let ghost w = walk(st.0, st.1, Seq::empty(), start@, (pm0.len() + 2) as nat);
            match victim {
                Some(v) => {
                    match find_child(&pm, v.as_str()) {
                        Some(k) => {
                            let vp = pm[k].1.clone();
                            let ghost pbefore = pm@;
                            let ghost dbefore = dropped@;
                            assert(edge_views(pbefore)[k as int].1 == vp@);
                            pm.remove(k);
                            assert(edge_views(pm@) =~= edge_views(pbefore).remove(k as int));
                            dropped.push((v, vp));
                            assert(pair_views(dropped@) =~= pair_views(dbefore).push((v@, vp@)));
                        },
                        None => {},
                    }
                },
                None => {},
            }
            let ghost dbefore = texts(done@);
            let mut j: usize = 0;
            while j < path.len()
                invariant
                    j <= path@.len(),
                    texts(done@) == dbefore + texts(path@).take(j as int),
                decreases path@.len() - j,
            {
                let c = path[j].clone();
                let ghost before = done@;
                assert(c@ == texts(path@)[j as int]);
                done.push(c);
                assert(texts(done@) =~= texts(before).push(c@));
                assert(texts(done@) =~= dbefore + texts(path@).take(j + 1));
                j += 1;
            }
            assert(texts(path@).take(j as int) =~= texts(path@));
            assert((edge_views(pm@), texts(done@), pair_views(dropped@)) == break_step((pm0.len() + 2) as nat, st, start@));
        }
        i += 1;
    }
    assert(order.take(i as int) =~= order);
    (pm, dropped)
}

// --- Steps 3 and 4: assembling the forest -------------------------------------------

/// One planned concept in parents-before-children order.
#[derive(Debug, Clone)]
pub struct PlannedConcept {
    /// Concept name (node name from the stream, or an umbrella category name).
    pub name: String,
    /// Projected parent name; `None` means directly under the import target.
    pub parent: Option<String>,
    /// Document count from the stream (0 for umbrella concepts).
    pub docs: usize,
    /// True for synthetic category umbrella concepts.
    pub umbrella: bool,
}

/// A planned concept: name, parent, document count, umbrella flag.
pub type PlannedView = (Seq<char>, Option<Seq<char>>, nat, bool);

/// The view of a planned concept.
pub open spec fn planned_view(pc: PlannedConcept) -> PlannedView {
    (pc.name@, opt_view(pc.parent), pc.docs as nat, pc.umbrella)
}

/// The views of planned concepts.
pub open spec fn planned_views(v: Seq<PlannedConcept>) -> Seq<PlannedView> {
    v.map_values(|pc: PlannedConcept| planned_view(pc))
}

/// The strict-tree projection of the `is-a` slice, plus what it cost.
#[derive(Debug)]
pub struct Projection {
    /// Concepts in insertion order (every parent precedes its children).
    pub concepts: Vec<PlannedConcept>,
    /// `(child, dropped parent)` edges removed by the one-parent rule.
    pub multi_parent_dropped: Vec<(String, String)>,
    /// `(child, parent)` edges removed to break cycles.
    pub cycle_dropped: Vec<(String, String)>,
}

impl Projection {
    /// An empty projection.
    pub fn new() -> (p: Projection)
        ensures
            p.concepts@.len() == 0,
            p.multi_parent_dropped@.len() == 0,
            p.cycle_dropped@.len() == 0,
    {
        Projection { concepts: Vec::new(), multi_parent_dropped: Vec::new(), cycle_dropped: Vec::new() }
    }
}

/// Both ends of every surviving edge, edge by edge.
pub open spec fn endpoints(pm: Seq<EdgeView>) -> Seq<Seq<char>>
    decreases pm.len(),
{
    if pm.len() == 0 {
        Seq::empty()
    } else {
        endpoints(pm.drop_last()).push(pm.last().0).push(pm.last().1)
    }
}

/// The planned parent of a name: its surviving parent, or else its category
/// (whose umbrella it will hang under), or none.
pub open spec fn planned_parent(nodes: Seq<NodeView>, pm: Seq<EdgeView>, name: Seq<char>) -> Option<Seq<char>> {
    let k = entry_pos(pm, name);
    if k >= 0 {
        Some(pm[k].1)
    } else {
        node_info(nodes, name).1
    }
}

/// The categories of the names without a surviving parent, in the order of `names`.
pub open spec fn root_categories(nodes: Seq<NodeView>, pm: Seq<EdgeView>, names: Seq<Seq<char>>) -> Seq<Seq<char>>
    decreases names.len(),
{
    if names.len() == 0 {
        Seq::empty()
    } else {
        let n = names.last();
        root_categories(nodes, pm, names.drop_last()) + if entry_pos(pm, n) < 0 && node_info(nodes, n).1 is Some {
            seq![node_info(nodes, n).1.unwrap()]
        } else {
            Seq::<Seq<char>>::empty()
        }
    }
}

/// The planned concept for a tree name.
pub open spec fn planned_of(nodes: Seq<NodeView>, pm: Seq<EdgeView>, name: Seq<char>) -> PlannedView {
    (name, planned_parent(nodes, pm, name), node_info(nodes, name).0, false)
}

/// The names among `names` whose planned parent is `p`, in order.
pub open spec fn children_in(nodes: Seq<NodeView>, pm: Seq<EdgeView>, names: Seq<Seq<char>>, p: Seq<char>) -> Seq<Seq<char>> {
    names.filter(|n: Seq<char>| planned_parent(nodes, pm, n) == Some(p))
}

/// The names among `names` whose planned parent is not itself among `names`.
pub open spec fn roots_in(nodes: Seq<NodeView>, pm: Seq<EdgeView>, names: Seq<Seq<char>>) -> Seq<Seq<char>> {
    names.filter(|n: Seq<char>| match planned_parent(nodes, pm, n) {
        Some(p) => !names.contains(p),
        None => true,
    })
}

/// The depth-first emission: pop a name, emit its planned concept, push its
/// children so they pop in name order; at most `fuel` names are emitted.
pub open spec fn emit(
    nodes: Seq<NodeView>,
    pm: Seq<EdgeView>,
    names: Seq<Seq<char>>,
    stack: Seq<Seq<char>>,
    out: Seq<PlannedView>,
    fuel: nat,
) -> Seq<PlannedView>
    decreases fuel,
{
    if fuel == 0 || stack.len() == 0 {
        out
    } else {
        let n = stack.last();
        emit(
            nodes,
            pm,
            names,
            stack.drop_last() + children_in(nodes, pm, names, n).reverse(),
            out.push(planned_of(nodes, pm, n)),
            (fuel - 1) as nat,
        )
    }
}

/// Steps 3 and 4: the umbrellas in name order, then the forest of the names
/// touched by a surviving edge, parents before children.
pub open spec fn assemble(nodes: Seq<NodeView>, pm: Seq<EdgeView>) -> Seq<PlannedView> {
    let names = sort_names(endpoints(pm));
    let umbrellas = sort_names(root_categories(nodes, pm, names));
    umbrellas.map_values(|u: Seq<char>| (u, None::<Seq<char>>, 0nat, true))
        + emit(nodes, pm, names, roots_in(nodes, pm, names).reverse(), Seq::empty(), names.len())
}

/// What `project_tree` gives: the planned concepts, the edges dropped by the
/// one-parent rule, and the edges dropped to break cycles.
pub open spec fn projection_spec(nodes: Seq<NodeView>, edges: Seq<EdgeView>, min_docs: nat) -> (
    Seq<PlannedView>,
    Seq<(Seq<char>, Seq<char>)>,
    Seq<(Seq<char>, Seq<char>)>,
) {
    let (best, multi) = resolve_parents(nodes, edges, min_docs);
    let (pm, done, cyc) = break_cycles(best);
    (assemble(nodes, pm), multi, cyc)
}

fn endpoints_exec(pm: &Vec<(String, String, usize)>) -> (r: Vec<String>)
    ensures
        texts(r@) == endpoints(edge_views(pm@)),
{
    let ghost pv = edge_views(pm@);
    let mut r: Vec<String> = Vec::new();
    let mut i: usize = 0;
    while i < pm.len()
        invariant
            i <= pm@.len(),
            pv == edge_views(pm@),
            texts(r@) == endpoints(pv.take(i as int)),
        decreases pm@.len() - i,
    {
        assert(pv.take(i + 1).drop_last() =~= pv.take(i as int));
        assert(pv.take(i + 1).last() == pv[i as int]);
        let a = pm[i].0.clone();
        let b = pm[i].1.clone();
        let ghost before = r@;
        r.push(a);
        r.push(b);
        assert(texts(r@) =~= texts(before).push(pv[i as int].0).push(pv[i as int].1));
        i += 1;
    }
    assert(pv.take(i as int) =~= pv);
    r
}

impl GraphInput {
    fn planned_parent_exec(&self, pm: &Vec<(String, String, usize)>, name: &str) -> (r: Option<String>)
        ensures
            opt_view(r) == planned_parent(self.node_list(), edge_views(pm@), name@),
    {
        match find_child(pm, name) {
            Some(k) => {
                assert(edge_views(pm@)[k as int].1 == pm@[k as int].1@);
                Some(pm[k].1.clone())
            },
            None => self.info_of(name).1,
        }
    }

    /// Steps 3 and 4 of the projection on the edges kept by step 2.
    fn assemble_exec(&self, pm: &Vec<(String, String, usize)>) -> (r: Vec<PlannedConcept>)
        ensures
            planned_views(r@) == assemble(self.node_list(), edge_views(pm@)),
    {
        let ghost nodes = self.node_list();
        let ghost pv = edge_views(pm@);
        let ends = endpoints_exec(pm);
        let names = sorted_names(&ends);
        let ghost nv = texts(names@);
        // Planned parent and document count of every tree name.
        let mut parents: Vec<Option<String>> = Vec::new();
        let mut docs: Vec<usize> = Vec::new();
        let mut cats: Vec<String> = Vec::new();
        let mut i: usize = 0;
        while i < names.len()
            invariant
                i <= names@.len(),
                nv == texts(names@),
                nodes == self.node_list(),
                pv == edge_views(pm@),
                parents@.len() == i,
                docs@.len() == i,
                forall|k: int| 0 <= k < i ==> opt_view(#[trigger] parents@[k]) == planned_parent(nodes, pv, nv[k]),
                forall|k: int| 0 <= k < i ==> #[trigger] docs@[k] as nat == node_info(nodes, nv[k]).0,
                texts(cats@) == root_categories(nodes, pv, nv.take(i as int)),
            decreases names@.len() - i,
        {
            let n = names[i].as_str();
            assert(nv[i as int] == n@);
            assert(nv.take(i + 1).drop_last() =~= nv.take(i as int));
            assert(nv.take(i + 1).last() == n@);
            parents.push(self.planned_parent_exec(pm, n));
            let info = self.info_of(n);
            docs.push(info.0);
            let ghost before = cats@;
            if find_child(pm, n).is_none() {
                match info.1 {
                    Some(c) => {
                        cats.push(c);
                        assert(texts(cats@) =~= texts(before).push(node_info(nodes, n@).1.unwrap()));
                    },
                    None => {},
                }
            }
            assert(texts(cats@) =~= root_categories(nodes, pv, nv.take(i + 1)));
            i += 1;
        }
        assert(nv.take(i as int) =~= nv);
        let umbrellas = sorted_names(&cats);
        let mut out: Vec<PlannedConcept> = Vec::new();
        let ghost uv = texts(umbrellas@);
        let mut i: usize = 0;
        while i < umbrellas.len()
            invariant
                i <= umbrellas@.len(),
                uv == texts(umbrellas@),
                planned_views(out@) == uv.take(i as int).map_values(|u: Seq<char>| (u, None::<Seq<char>>, 0nat, true)),
            decreases umbrellas@.len() - i,
        {
            let ghost before = out@;
            let nm = umbrellas[i].clone();
            assert(nm@ == uv[i as int]);
            let pc = PlannedConcept { name: nm, parent: None, docs: 0, umbrella: true };
            assert(planned_view(pc) == (uv[i as int], None::<Seq<char>>, 0nat, true));
            out.push(pc);
            assert(planned_views(out@) =~= planned_views(before).push(planned_view(pc)));
            assert(uv.take(i + 1).map_values(|u: Seq<char>| (u, None::<Seq<char>>, 0nat, true)) =~= uv.take(i as int).map_values(|u: Seq<char>| (u, None::<Seq<char>>, 0nat, true)).push((uv[i as int], None::<Seq<char>>, 0nat, true)));
            assert(planned_views(out@) =~= uv.take(i + 1).map_values(|u: Seq<char>| (u, None::<Seq<char>>, 0nat, true)));
            i += 1;
        }
        assert(uv.take(i as int) =~= uv);
        let ghost head = planned_views(out@);
        // Roots, pushed so that they pop in name order.
        let ghost is_root = |n: Seq<char>| match planned_parent(nodes, pv, n) {
            Some(p) => !nv.contains(p),
            None => true,
        };
        let mut roots: Vec<usize> = Vec::new();
        let mut j: usize = 0;
        while j < names.len()
            invariant
                j <= names@.len(),
                nv == texts(names@),
                parents@.len() == names@.len(),
                forall|k: int| 0 <= k < names@.len() ==> opt_view(#[trigger] parents@[k]) == planned_parent(nodes, pv, nv[k]),
                forall|k: int| 0 <= k < roots@.len() ==> #[trigger] roots@[k] < names@.len(),
                roots@.map_values(|k: usize| nv[k as int]) == nv.take(j as int).filter(is_root),
                is_root == (|n: Seq<char>| match planned_parent(nodes, pv, n) {
                    Some(p) => !nv.contains(p),
                    None => true,
                }),
            decreases names@.len() - j,
        {
            assert(nv.take(j + 1).drop_last() =~= nv.take(j as int));
            assert(nv.take(j + 1).last() == nv[j as int]);
            reveal_with_fuel(Seq::filter, 2);
            let keep = match &parents[j] {
                Some(p) => position_of_name(&names, p.as_str()).is_none(),
                None => true,
            };
            proof {
                if let Some(p) = parents@[j as int] {
                    lemma_first_pos(nv, p@);
                }
            }
            let ghost before = roots@;
            if keep {
                roots.push(j);
                assert(roots@.map_values(|k: usize| nv[k as int]) =~= before.map_values(|k: usize| nv[k as int]).push(nv[j as int]));
            }
            assert(roots@.map_values(|k: usize| nv[k as int]) =~= nv.take(j + 1).filter(is_root));
            j += 1;
        }
        assert(nv.take(j as int) =~= nv);
        assert(nv.filter(is_root) =~= roots_in(nodes, pv, nv));
        let mut stack: Vec<usize> = Vec::new();
        let mut k: usize = roots.len();
        while k > 0
            invariant
                k <= roots@.len(),
                forall|m: int| 0 <= m < roots@.len() ==> #[trigger] roots@[m] < names@.len(),
                forall|m: int| 0 <= m < stack@.len() ==> #[trigger] stack@[m] < names@.len(),
                stack@.map_values(|x: usize| nv[x as int]) == roots@.map_values(|x: usize| nv[x as int]).skip(k as int).reverse(),
            decreases k,
        {
            k -= 1;
            let ghost before = stack@;
            stack.push(roots[k]);
            let ghost rv = roots@.map_values(|x: usize| nv[x as int]);
            assert(stack@.map_values(|x: usize| nv[x as int]) =~= before.map_values(|x: usize| nv[x as int]).push(rv[k as int]));
            assert(rv.skip(k as int).reverse() =~= rv.skip(k + 1).reverse().push(rv[k as int]));
            assert(stack@.map_values(|x: usize| nv[x as int]) =~= roots@.map_values(|x: usize| nv[x as int]).skip(k as int).reverse());
        }
        assert(roots@.map_values(|x: usize| nv[x as int]).skip(0) =~= roots@.map_values(|x: usize| nv[x as int]));
        let ghost total = emit(nodes, pv, nv, roots_in(nodes, pv, nv).reverse(), Seq::empty(), nv.len());
        let mut fuel: usize = names.len();
        let ghost start = out@.len();
        assert(planned_views(out@).skip(start as int) =~= Seq::<PlannedView>::empty());
        assert(planned_views(out@).take(start as int) =~= head);
        assert(stack@.map_values(|x: usize| nv[x as int]) =~= roots_in(nodes, pv, nv).reverse());
        while fuel > 0 && stack.len() > 0
            invariant
                nv == texts(names@),
                nodes == self.node_list(),
                pv == edge_views(pm@),
                parents@.len() == names@.len(),
                docs@.len() == names@.len(),
                forall|m: int| 0 <= m < names@.len() ==> opt_view(#[trigger] parents@[m]) == planned_parent(nodes, pv, nv[m]),
                forall|m: int| 0 <= m < names@.len() ==> #[trigger] docs@[m] as nat == node_info(nodes, nv[m]).0,
                forall|m: int| 0 <= m < stack@.len() ==> #[trigger] stack@[m] < names@.len(),
                head.len() == start,
                planned_views(out@).take(start as int) == head,
                out@.len() >= start,
                total == emit(nodes, pv, nv, stack@.map_values(|x: usize| nv[x as int]), planned_views(out@).skip(start as int), fuel as nat),
            decreases fuel,
        {
            let ghost sv = stack@.map_values(|x: usize| nv[x as int]);
            let top = stack.pop().unwrap();
            assert(sv.last() == nv[top as int]);
            assert(sv.drop_last() =~= stack@.map_values(|x: usize| nv[x as int]));
            let ghost before = out@;
            out.push(PlannedConcept { name: names[top].clone(), parent: parents[top].clone(), docs: docs[top], umbrella: false });
            assert(planned_views(out@).skip(start as int) =~= planned_views(before).skip(start as int).push(planned_of(nodes, pv, nv[top as int])));
            assert(planned_views(out@).take(start as int) =~= planned_views(before).take(start as int));
            // Children of `top`, in name order, pushed in reverse.
            let ghost is_child = |n: Seq<char>| planned_parent(nodes, pv, n) == Some(nv[top as int]);
            let mut kids: Vec<usize> = Vec::new();
            let mut j: usize = 0;
            while j < names.len()
                invariant
                    j <= names@.len(),
                    top < names@.len(),
                    nv == texts(names@),
                    parents@.len() == names@.len(),
                    forall|m: int| 0 <= m < names@.len() ==> opt_view(#[trigger] parents@[m]) == planned_parent(nodes, pv, nv[m]),
                    forall|m: int| 0 <= m < kids@.len() ==> #[trigger] kids@[m] < names@.len(),
                    kids@.map_values(|x: usize| nv[x as int]) == nv.take(j as int).filter(is_child),
                    is_child == (|n: Seq<char>| planned_parent(nodes, pv, n) == Some(nv[top as int])),
                decreases names@.len() - j,
            {
                assert(nv.take(j + 1).drop_last() =~= nv.take(j as int));
                assert(nv.take(j + 1).last() == nv[j as int]);
                reveal_with_fuel(Seq::filter, 2);
                let is_kid = match &parents[j] {
                    Some(p) => str_eq(p.as_str(), names[top].as_str()),
                    None => false,
                };
                let ghost kb = kids@;
                if is_kid {
                    kids.push(j);
                    assert(kids@.map_values(|x: usize| nv[x as int]) =~= kb.map_values(|x: usize| nv[x as int]).push(nv[j as int]));
                }
                assert(kids@.map_values(|x: usize| nv[x as int]) =~= nv.take(j + 1).filter(is_child));
                j += 1;
            }
            assert(nv.take(j as int) =~= nv);
            assert(nv.filter(is_child) =~= children_in(nodes, pv, nv, nv[top as int]));
            let ghost sbefore = stack@;
            let mut m: usize = kids.len();
            while m > 0
                invariant
                    m <= kids@.len(),
                    forall|q: int| 0 <= q < kids@.len() ==> #[trigger] kids@[q] < names@.len(),
                    forall|q: int| 0 <= q < stack@.len() ==> #[trigger] stack@[q] < names@.len(),
                    stack@.map_values(|x: usize| nv[x as int]) == sbefore.map_values(|x: usize| nv[x as int])
                        + kids@.map_values(|x: usize| nv[x as int]).skip(m as int).reverse(),
                decreases m,
            {
                m -= 1;
                let ghost before = stack@;
                stack.push(kids[m]);
                let ghost kv = kids@.map_values(|x: usize| nv[x as int]);
                assert(stack@.map_values(|x: usize| nv[x as int]) =~= before.map_values(|x: usize| nv[x as int]).push(kv[m as int]));
                assert(kv.skip(m as int).reverse() =~= kv.skip(m + 1).reverse().push(kv[m as int]));
                assert(stack@.map_values(|x: usize| nv[x as int]) =~= sbefore.map_values(|x: usize| nv[x as int])
                    + kids@.map_values(|x: usize| nv[x as int]).skip(m as int).reverse());
            }
            assert(kids@.map_values(|x: usize| nv[x as int]).skip(0) =~= kids@.map_values(|x: usize| nv[x as int]));
            fuel -= 1;
        }
        assert(planned_views(out@) =~= head + planned_views(out@).skip(start as int));
        out
    }

    /// Project the `is-a` relation onto a strict forest. Only names touched by
    /// at least one surviving `is-a` edge are included (plus their category
    /// umbrellas); isolated nodes stay out. With `min_docs > 1`, names with
    /// fewer documents are pruned first.
    pub fn project_tree(&self, min_docs: usize) -> (r: Projection)
        requires
            self.edge_list().len() + 2 <= usize::MAX,
        ensures
            (planned_views(r.concepts@), pair_views(r.multi_parent_dropped@), pair_views(r.cycle_dropped@))
                == projection_spec(self.node_list(), self.edge_list(), min_docs as nat),
    {
        let (best, multi) = self.resolve(min_docs);
        let (pm, cyc) = break_cycles_exec(best);
        let concepts = self.assemble_exec(&pm);
        Projection { concepts, multi_parent_dropped: multi, cycle_dropped: cyc }
    }
}

// --- Merging into the concept tree ---------------------------------------------------

/// Errors from applying an import.
#[derive(Debug)]
pub enum ImportError {
    /// The target concept does not exist.
    TargetNotFound(ConceptId),
}

/// What `apply` did.
#[derive(Debug)]
pub struct ImportReport {
    /// Names added, in insertion order.
    pub added: Vec<String>,
    /// Names that already existed in the subtree and were left untouched.
    pub kept: Vec<String>,
    /// Existing concepts whose projected parent differs from their actual one:
    /// `(name, actual parent name, projected parent name)`.
    pub drift: Vec<(String, String, String)>,
    /// Names re-parented (only when re-parenting was asked for).
    pub reparented: Vec<String>,
}

/// The lists of a report, by view.
pub type ReportView = (Seq<Seq<char>>, Seq<Seq<char>>, Seq<(Seq<char>, Seq<char>, Seq<char>)>, Seq<Seq<char>>);

/// The view of a report.
pub open spec fn report_view(r: ImportReport) -> ReportView {
    (texts(r.added@), texts(r.kept@), r.drift@.map_values(|d: (String, String, String)| (d.0@, d.1@, d.2@)), texts(r.reparented@))
}

/// What `apply` reads and writes of a concept besides its description.
pub open spec fn shape(c: Concept) -> (ConceptId, Seq<char>, Option<ConceptId>) {
    (c.id, c.name@, c.parent)
}

/// The shapes of a concept list.
pub open spec fn shapes(cs: Seq<Concept>) -> Seq<(ConceptId, Seq<char>, Option<ConceptId>)> {
    cs.map_values(|c: Concept| shape(c))
}

/// The names recorded for the target subtree: walking a stack of concepts
/// (last first), every child of the popped concept is recorded and pushed.
/// At most `fuel` concepts are popped.
pub open spec fn subtree_walk(cs: Seq<Concept>, stack: Seq<ConceptId>, acc: Seq<(Seq<char>, ConceptId)>, fuel: nat) -> Seq<
    (Seq<char>, ConceptId),
>
    decreases fuel,
{
    if fuel == 0 || stack.len() == 0 {
        acc
    } else {
        let kids = children_spec(cs, stack.last());
        subtree_walk(
            cs,
            stack.drop_last() + cids(kids),
            acc + kids.map_values(|c: Concept| (c.name@, c.id)),
            (fuel - 1) as nat,
        )
    }
}

/// The concept recorded last under `name`, if any (later records win).
pub open spec fn lookup_name(by: Seq<(Seq<char>, ConceptId)>, name: Seq<char>) -> Option<ConceptId> {
    let k = last_pos(by.map_values(|e: (Seq<char>, ConceptId)| e.0), name);
    if k >= 0 {
        Some(by[k].1)
    } else {
        None
    }
}

/// The name of concept `id`, or empty when it does not exist.
pub open spec fn name_or_empty(cs: Seq<Concept>, id: ConceptId) -> Seq<char> {
    match lookup_concept(cs, id) {
        Some(c) => c.name@,
        None => Seq::empty(),
    }
}

/// The description given to an imported concept.
pub open spec fn import_description(pc: PlannedConcept) -> Seq<char> {
    if pc.umbrella {
        "pdfdex import: category umbrella"@
    } else {
        "pdfdex import: "@ + decimal(pc.docs as nat) + " docs"@
    }
}

/// The state of a merge: the concepts (descriptions of added ones are tracked
/// separately), the next concept number, the names recorded so far, the
/// descriptions of added concepts, and the report lists.
pub type MergeState = (Seq<Concept>, nat, Seq<(Seq<char>, ConceptId)>, Seq<Seq<char>>, ReportView);

/// One planned concept of the merge.
pub open spec fn merge_step(target: ConceptId, reparent: bool, st: MergeState, pc: PlannedConcept) -> MergeState {
    let (cs, next, by, descs, rep) = st;
    let (added, kept, drift, moved) = rep;
    let parent_id = match pc.parent {
        Some(p) => match lookup_name(by, p@) {
            Some(id) => id,
            None => target,
        },
        None => target,
    };
    match lookup_name(by, pc.name@) {
        Some(existing) => {
            let actual = match parent_of(cs, existing) {
                Some(a) => a,
                None => target,
            };
            if actual != parent_id {
                let can_move = has_concept(cs, existing) && has_concept(cs, parent_id) && parent_id != existing
                    && !is_ancestor_spec(cs, existing, parent_id);
                if reparent && can_move {
                    let k = concept_pos(cs, existing);
                    (
                        cs.update(k, Concept { parent: Some(parent_id), ..cs[k] }),
                        next,
                        by,
                        descs,
                        (added, kept, drift, moved.push(pc.name@)),
                    )
                } else {
                    (
                        cs,
                        next,
                        by,
                        descs,
                        (added, kept, drift.push((pc.name@, name_or_empty(cs, actual), name_or_empty(cs, parent_id))), moved),
                    )
                }
            } else {
                (cs, next, by, descs, (added, kept.push(pc.name@), drift, moved))
            }
        },
        None => {
            let id = ConceptId(next as u64);
            (
                cs.push(Concept { id, name: pc.name, description: None, parent: Some(parent_id) }),
                next + 1,
                by.push((pc.name@, id)),
                descs.push(import_description(pc)),
                (added.push(pc.name@), kept, drift, moved),
            )
        },
    }
}

/// The merge of the planned concepts `pcs`, in order, from state `st`.
pub open spec fn merge_all(target: ConceptId, reparent: bool, st: MergeState, pcs: Seq<PlannedConcept>) -> MergeState {
    pcs.fold_left(st, |s: MergeState, pc: PlannedConcept| merge_step(target, reparent, s, pc))
}

/// The merge of a projection into concepts `cs` under `target`, starting from
/// concept number `next`.
pub open spec fn merge_spec(cs: Seq<Concept>, next: nat, target: ConceptId, pcs: Seq<PlannedConcept>, reparent: bool) -> MergeState {
    let by = subtree_walk(cs, seq![target], Seq::empty(), (cs.len() + 1) as nat);
    merge_all(target, reparent, (cs, next, by, Seq::empty(), (Seq::empty(), Seq::empty(), Seq::empty(), Seq::empty())), pcs)
}

/// The concepts `st.0` begin with `cs`, field by field, except that parents
/// may differ when re-parenting.
pub open spec fn keeps_concepts(cs: Seq<Concept>, out: Seq<Concept>, reparent: bool) -> bool {
    &&& out.len() >= cs.len()
    &&& forall|k: int| 0 <= k < cs.len() ==> {
        &&& (#[trigger] out[k]).id == cs[k].id
        &&& out[k].name == cs[k].name
        &&& out[k].description == cs[k].description
        &&& !reparent ==> out[k].parent == cs[k].parent
    }
}

/// Importing never deletes or renames a concept: every concept present
/// before keeps its place, identifier, name and description, and the merge
/// only appends. Without re-parenting it is add-only: existing concepts also
/// keep their parents.
pub proof fn lemma_merge_keeps_concepts(cs: Seq<Concept>, next: nat, target: ConceptId, pcs: Seq<PlannedConcept>, reparent: bool)
    ensures
        keeps_concepts(cs, merge_spec(cs, next, target, pcs, reparent).0, reparent),
{
    let by = subtree_walk(cs, seq![target], Seq::empty(), (cs.len() + 1) as nat);
    let st0: MergeState = (cs, next, by, Seq::empty(), (Seq::empty(), Seq::empty(), Seq::empty(), Seq::empty()));
    lemma_merge_all_keeps(target, reparent, st0, pcs);
}

proof fn lemma_merge_all_keeps(target: ConceptId, reparent: bool, st: MergeState, pcs: Seq<PlannedConcept>)
    ensures
        keeps_concepts(st.0, merge_all(target, reparent, st, pcs).0, reparent),
    decreases pcs.len(),
{
    if pcs.len() > 0 {
        assert(merge_all(target, reparent, st, pcs) == merge_step(target, reparent, merge_all(target, reparent, st, pcs.drop_last()), pcs.last()));
        lemma_merge_all_keeps(target, reparent, st, pcs.drop_last());
        let mid = merge_all(target, reparent, st, pcs.drop_last());
        let out = merge_step(target, reparent, mid, pcs.last());
        match lookup_name(mid.2, pcs.last().name@) {
            Some(existing) => {
                lemma_concept_pos(mid.0, existing);
            },
            None => {},
        }
        assert forall|k: int| 0 <= k < mid.0.len() implies {
            &&& (#[trigger] out.0[k]).id == mid.0[k].id
            &&& out.0[k].name == mid.0[k].name
            &&& out.0[k].description == mid.0[k].description
            &&& !reparent ==> out.0[k].parent == mid.0[k].parent
        } by {
        }
        assert(out.0.len() >= mid.0.len());
    } else {
        assert(merge_all(target, reparent, st, pcs) == st);
    }
}

/// Every concept the subtree walk records lies in the subtree of `target`,
/// when the walk starts from such concepts.
proof fn lemma_walk_in_subtree(cs: Seq<Concept>, target: ConceptId, stack: Seq<ConceptId>, acc: Seq<(Seq<char>, ConceptId)>, fuel: nat)
    requires
        forall|i: int| 0 <= i < stack.len() ==> in_subtree(cs, target, #[trigger] stack[i]),
        forall|i: int| 0 <= i < acc.len() ==> in_subtree(cs, target, (#[trigger] acc[i]).1),
    ensures
        forall|i: int| 0 <= i < subtree_walk(cs, stack, acc, fuel).len() ==> in_subtree(cs, target, (#[trigger] subtree_walk(cs, stack, acc, fuel)[i]).1),
    decreases fuel,
{
    if fuel > 0 && stack.len() > 0 {
        let s = stack.last();
        let kids = children_spec(cs, s);
        let f = |c: Concept| c.parent == Some(s);
        crate::model::project::lemma_filter_in(cs, f);
        assert forall|j: int| 0 <= j < kids.len() implies in_subtree(cs, target, (#[trigger] kids[j]).id) by {
            assert(cs.contains(kids[j]));
            let w = choose|w: int| 0 <= w < cs.len() && cs[w] == kids[j];
            assert(child_link(cs, s, kids[j].id));
            assert(in_subtree(cs, target, stack[stack.len() - 1]));
            lemma_extend_path(child_rel(cs), is_id(target), s, kids[j].id);
        }
        let ns = stack.drop_last() + cids(kids);
        let na = acc + kids.map_values(|c: Concept| (c.name@, c.id));
        assert forall|i: int| 0 <= i < ns.len() implies in_subtree(cs, target, #[trigger] ns[i]) by {
            if i < stack.len() - 1 {
                assert(ns[i] == stack[i]);
            } else {
                assert(ns[i] == kids[i - (stack.len() - 1)].id);
            }
        }
        assert forall|i: int| 0 <= i < na.len() implies in_subtree(cs, target, (#[trigger] na[i]).1) by {
            if i < acc.len() {
                assert(na[i] == acc[i]);
            } else {
                assert(na[i].1 == kids[i - acc.len()].id);
            }
        }
        lemma_walk_in_subtree(cs, target, ns, na, (fuel - 1) as nat);
        assert(subtree_walk(cs, stack, acc, fuel) == subtree_walk(cs, ns, na, (fuel - 1) as nat));
    } else {
        assert(subtree_walk(cs, stack, acc, fuel) == acc);
    }
}

/// `y` lies strictly below `x`: it is reached from `x` by one or more child links.
pub open spec fn below(cs: Seq<Concept>, x: ConceptId, y: ConceptId) -> bool {
    exists|p: Seq<ConceptId>| #[trigger] link_path(child_rel(cs), is_id(x), p) && p.len() >= 2 && p.last() == y
}

/// The name of the concept found under identifier `y`.
pub open spec fn name_of(cs: Seq<Concept>, y: ConceptId) -> Seq<char> {
    cs[concept_pos(cs, y)].name@
}

/// A concept reached from the subtree of `x` by one more child link lies below `x`.
proof fn lemma_below_step(cs: Seq<Concept>, x: ConceptId, s: ConceptId, y: ConceptId)
    requires
        in_subtree(cs, x, s),
        child_link(cs, s, y),
    ensures
        below(cs, x, y),
{
    let p = choose|p: Seq<ConceptId>| #[trigger] link_path(child_rel(cs), is_id(x), p) && p.last() == s;
    let q = p.push(y);
    assert forall|i: int| 0 <= i < q.len() - 1 implies #[trigger] child_rel(cs)(q[i], q[i + 1]) by {
        if i < p.len() - 1 {
            assert(q[i] == p[i] && q[i + 1] == p[i + 1]);
        } else {
            assert(q[i] == s && q[i + 1] == y);
        }
    }
    assert(link_path(child_rel(cs), is_id(x), q));
}

/// A state of the subtree walk from `target`: popped and pending identifiers
/// are concepts of the subtree, each met once, each (but `target`) with its
/// parent popped; every concept below `target` is recorded already or lies
/// below a pending one.
pub open spec fn walk_cover_inv(cs: Seq<Concept>, target: ConceptId, stack: Seq<ConceptId>, acc: Seq<(Seq<char>, ConceptId)>, popped: Seq<ConceptId>) -> bool {
    &&& popped.no_duplicates()
    &&& stack.no_duplicates()
    &&& forall|i: int, j: int| 0 <= i < popped.len() && 0 <= j < stack.len() ==> popped[i] != stack[j]
    &&& forall|i: int| 0 <= i < popped.len() ==> cids(cs).contains(#[trigger] popped[i]) && in_subtree(cs, target, popped[i])
    &&& forall|i: int| 0 <= i < stack.len() ==> cids(cs).contains(#[trigger] stack[i]) && in_subtree(cs, target, stack[i])
    &&& forall|i: int| 0 <= i < popped.len() && popped[i] != target ==> match parent_of(cs, #[trigger] popped[i]) {
        Some(p) => popped.contains(p),
        None => false,
    }
    &&& forall|i: int| 0 <= i < stack.len() && stack[i] != target ==> match parent_of(cs, #[trigger] stack[i]) {
        Some(p) => popped.contains(p),
        None => false,
    }
    &&& forall|y: ConceptId| #[trigger] below(cs, target, y) ==> (exists|i: int| 0 <= i < acc.len() && #[trigger] acc[i] == (name_of(cs, y), y))
        || (exists|j: int| 0 <= j < stack.len() && below(cs, #[trigger] stack[j], y))
}

/// A concept below `s` is a child of `s` or lies below one.
proof fn lemma_first_link(cs: Seq<Concept>, s: ConceptId, y: ConceptId)
    requires
        below(cs, s, y),
    ensures
        exists|k: ConceptId| #[trigger] child_link(cs, s, k) && (k == y || below(cs, k, y)),
{
    let p = choose|p: Seq<ConceptId>| #[trigger] link_path(child_rel(cs), is_id(s), p) && p.len() >= 2 && p.last() == y;
    assert(0 <= 0 < p.len() - 1);
    assert(child_rel(cs)(p[0int], p[0int + 1]));
    let k = p[1];
    assert(child_link(cs, s, k));
    if p.len() > 2 {
        let q = p.drop_first();
        assert forall|i: int| 0 <= i < q.len() - 1 implies #[trigger] child_rel(cs)(q[i], q[i + 1]) by {
            assert(q[i] == p[i + 1] && q[i + 1] == p[(i + 1) + 1]);
            assert(child_rel(cs)(p[i + 1], p[(i + 1) + 1]));
        }
        assert(link_path(child_rel(cs), is_id(k), q));
        assert(below(cs, k, y));
    }
}

/// Popping `s` from the walk keeps every concept below `target` recorded or
/// below a pending concept.
proof fn lemma_cover_step(cs: Seq<Concept>, target: ConceptId, stack: Seq<ConceptId>, acc: Seq<(Seq<char>, ConceptId)>)
    requires
        ids_unique(cs),
        stack.len() > 0,
        forall|y: ConceptId| #[trigger] below(cs, target, y) ==> (exists|i: int| 0 <= i < acc.len() && #[trigger] acc[i] == (name_of(cs, y), y))
            || (exists|j: int| 0 <= j < stack.len() && below(cs, #[trigger] stack[j], y)),
    ensures
        ({
            let s = stack.last();
            let kids = children_spec(cs, s);
            let ns = stack.drop_last() + cids(kids);
            let na = acc + kids.map_values(|c: Concept| (c.name@, c.id));
            forall|y: ConceptId| #[trigger] below(cs, target, y) ==> (exists|i: int| 0 <= i < na.len() && #[trigger] na[i] == (name_of(cs, y), y))
                || (exists|j: int| 0 <= j < ns.len() && below(cs, #[trigger] ns[j], y))
        }),
{
    let s = stack.last();
    let top = stack.len() - 1;
    let kids = children_spec(cs, s);
    let kid_ids = cids(kids);
    let ns = stack.drop_last() + kid_ids;
    let na = acc + kids.map_values(|c: Concept| (c.name@, c.id));
    crate::model::project::lemma_filter_in(cs, |c: Concept| c.parent == Some(s));
    assert forall|y: ConceptId| #[trigger] below(cs, target, y) implies (exists|i: int| 0 <= i < na.len() && #[trigger] na[i] == (name_of(cs, y), y))
        || (exists|j: int| 0 <= j < ns.len() && below(cs, #[trigger] ns[j], y)) by {
        if exists|i: int| 0 <= i < acc.len() && #[trigger] acc[i] == (name_of(cs, y), y) {
            let i = choose|i: int| 0 <= i < acc.len() && #[trigger] acc[i] == (name_of(cs, y), y);
            assert(na[i] == acc[i]);
        } else {
            let j = choose|j: int| 0 <= j < stack.len() && below(cs, #[trigger] stack[j], y);
            if j < top {
                assert(ns[j] == stack[j]);
            } else {
                assert(stack[j] == s);
                lemma_first_link(cs, s, y);
                let k = choose|k: ConceptId| #[trigger] child_link(cs, s, k) && (k == y || below(cs, k, y));
                lemma_child_member(cs, s, k);
                assert(child_ids(cs, s) == kid_ids);
                let a = choose|a: int| 0 <= a < kid_ids.len() && kid_ids[a] == k;
                if k == y {
                    assert(cs.contains(kids[a]));
                    let m = choose|m: int| 0 <= m < cs.len() && cs[m] == kids[a];
                    assert(cids(cs)[m] == kids[a].id);
                    lemma_pos_unique(cids(cs), m);
                    lemma_concept_pos(cs, kids[a].id);
                    assert(name_of(cs, y) == kids[a].name@);
                    assert(na[acc.len() + a] == (name_of(cs, y), y));
                } else {
                    assert(ns[top + a] == k);
                }
            }
        }
    }
}

/// The subtree walk with enough steps records every concept below `target`,
/// under its name, when identifiers are unique and `target` is not below itself.
proof fn lemma_walk_covers(cs: Seq<Concept>, target: ConceptId, stack: Seq<ConceptId>, acc: Seq<(Seq<char>, ConceptId)>, popped: Seq<ConceptId>, fuel: nat)
    requires
        ids_unique(cs),
        !below(cs, target, target),
        walk_cover_inv(cs, target, stack, acc, popped),
        fuel + popped.len() >= cs.len(),
    ensures
        forall|y: ConceptId| #[trigger] below(cs, target, y) ==> exists|i: int| 0 <= i < subtree_walk(cs, stack, acc, fuel).len()
            && #[trigger] subtree_walk(cs, stack, acc, fuel)[i] == (name_of(cs, y), y),
    decreases fuel,
{
    if stack.len() == 0 {
        assert(subtree_walk(cs, stack, acc, fuel) == acc);
        return;
    }
    let s = stack.last();
    let top = stack.len() - 1;
    assert(stack[top] == s);
    let all = popped.push(s);
    assert(!popped.contains(s)) by {
        if popped.contains(s) {
            let i = choose|i: int| 0 <= i < popped.len() && popped[i] == s;
        }
    }
    assert forall|i: int| 0 <= i < all.len() implies cids(cs).contains(#[trigger] all[i]) by {
        if i < popped.len() {
            assert(all[i] == popped[i]);
        }
    }
    assert(all.no_duplicates());
    lemma_distinct_bound(all, cids(cs));
    assert(fuel > 0);
    let kids = children_spec(cs, s);
    let kid_ids = cids(kids);
    let ns = stack.drop_last() + kid_ids;
    let na = acc + kids.map_values(|c: Concept| (c.name@, c.id));
    assert(subtree_walk(cs, stack, acc, fuel) == subtree_walk(cs, ns, na, (fuel - 1) as nat));
    lemma_filter_ids_unique(cs, |c: Concept| c.parent == Some(s));
    crate::model::project::lemma_filter_in(cs, |c: Concept| c.parent == Some(s));
    assert(kid_ids == child_ids(cs, s));
    assert forall|a: int| 0 <= a < kids.len() implies {
        &&& parent_of(cs, #[trigger] kid_ids[a]) == Some(s)
        &&& cids(cs).contains(kid_ids[a])
        &&& child_link(cs, s, kid_ids[a])
        &&& name_of(cs, kid_ids[a]) == kids[a].name@
    } by {
        lemma_child_parent(cs, s, a);
        assert(cs.contains(kids[a]));
        let k = choose|k: int| 0 <= k < cs.len() && cs[k] == kids[a];
        assert(cids(cs)[k] == kids[a].id);
        lemma_pos_unique(cids(cs), k);
        lemma_concept_pos(cs, kids[a].id);
    }
    // No child is `target`, popped or pending.
    assert forall|a: int| 0 <= a < kids.len() implies #[trigger] kid_ids[a] != target && !popped.contains(kid_ids[a]) && !stack.contains(kid_ids[a]) by {
        let k = kid_ids[a];
        if k == target {
            lemma_below_step(cs, target, s, target);
        }
        if popped.contains(k) {
            let i = choose|i: int| 0 <= i < popped.len() && popped[i] == k;
            assert(parent_of(cs, popped[i]) == Some(s));
        }
        if stack.contains(k) {
            let i = choose|i: int| 0 <= i < stack.len() && stack[i] == k;
            assert(parent_of(cs, stack[i]) == Some(s));
        }
    }
    assert forall|a: int| 0 <= a < kids.len() implies in_subtree(cs, target, #[trigger] kid_ids[a]) by {
        lemma_extend_path(child_rel(cs), is_id(target), s, kid_ids[a]);
    }
    assert forall|j: int| 0 <= j < top implies #[trigger] ns[j] == stack[j] by {}
    assert forall|a: int| 0 <= a < kids.len() implies #[trigger] ns[top + a] == kid_ids[a] by {}
    assert forall|a: int| 0 <= a < kids.len() implies #[trigger] na[acc.len() + a] == (kids[a].name@, kid_ids[a]) by {}
    // The new state.
    assert forall|a: int, b: int| 0 <= a < ns.len() && 0 <= b < ns.len() && a != b implies ns[a] != ns[b] by {
        if a < top && b < top {
        } else if a < top {
            assert(ns[b] == kid_ids[b - top]);
            assert(stack.contains(stack[a]));
        } else if b < top {
            assert(ns[a] == kid_ids[a - top]);
            assert(stack.contains(stack[b]));
        } else {
            assert(ns[a] == kid_ids[a - top] && ns[b] == kid_ids[b - top]);
        }
    }
    assert forall|i: int, j: int| 0 <= i < all.len() && 0 <= j < ns.len() implies all[i] != ns[j] by {
        if j < top {
            if i < popped.len() {
                assert(all[i] == popped[i]);
            }
        } else {
            let a = j - top;
            assert(ns[j] == kid_ids[a]);
            if i < popped.len() {
                assert(all[i] == popped[i]);
                assert(popped.contains(popped[i]));
            } else {
                assert(all[i] == s);
                if kid_ids[a] == s {
                    assert(parent_of(cs, stack[top]) == Some(s));
                    if s == target {
                        lemma_below_step(cs, target, s, target);
                    }
                }
            }
        }
    }
    assert forall|i: int| 0 <= i < all.len() implies cids(cs).contains(#[trigger] all[i]) && in_subtree(cs, target, all[i]) by {
        if i < popped.len() {
            assert(all[i] == popped[i]);
        }
    }
    assert forall|j: int| 0 <= j < ns.len() implies cids(cs).contains(#[trigger] ns[j]) && in_subtree(cs, target, ns[j]) by {
        if j >= top {
            assert(ns[j] == kid_ids[j - top]);
        }
    }
    assert forall|i: int| 0 <= i < all.len() && all[i] != target implies match parent_of(cs, #[trigger] all[i]) {
        Some(p) => all.contains(p),
        None => false,
    } by {
        if i < popped.len() {
            assert(all[i] == popped[i]);
            if let Some(p) = parent_of(cs, popped[i]) {
                let k = choose|k: int| 0 <= k < popped.len() && popped[k] == p;
                assert(all[k] == p);
            }
        } else {
            assert(all[i] == stack[top]);
            if let Some(p) = parent_of(cs, stack[top]) {
                let k = choose|k: int| 0 <= k < popped.len() && popped[k] == p;
                assert(all[k] == p);
            }
        }
    }
    assert forall|j: int| 0 <= j < ns.len() && ns[j] != target implies match parent_of(cs, #[trigger] ns[j]) {
        Some(p) => all.contains(p),
        None => false,
    } by {
        if j < top {
            if let Some(p) = parent_of(cs, stack[j]) {
                let k = choose|k: int| 0 <= k < popped.len() && popped[k] == p;
                assert(all[k] == p);
            }
        } else {
            assert(ns[j] == kid_ids[j - top]);
            assert(all[popped.len() as int] == s);
        }
    }
    lemma_cover_step(cs, target, stack, acc);
    lemma_walk_covers(cs, target, ns, na, all, (fuel - 1) as nat);
}

/// The subtree walk from `target` records every concept below it, under its
/// name, when identifiers are unique and `target` is not below itself.
proof fn lemma_walk_complete(cs: Seq<Concept>, target: ConceptId)
    requires
        ids_unique(cs),
        cids(cs).contains(target),
        !below(cs, target, target),
    ensures
        forall|y: ConceptId| #[trigger] below(cs, target, y) ==> exists|i: int| 0 <= i < subtree_walk(cs, seq![target], Seq::empty(), (cs.len() + 1) as nat).len()
            && #[trigger] subtree_walk(cs, seq![target], Seq::empty(), (cs.len() + 1) as nat)[i] == (name_of(cs, y), y),
{
    let st = seq![target];
    assert(in_subtree(cs, target, target)) by {
        assert(link_path(child_rel(cs), is_id(target), seq![target]));
    }
    assert forall|y: ConceptId| #[trigger] below(cs, target, y) implies (exists|i: int| 0 <= i < Seq::<(Seq<char>, ConceptId)>::empty().len() && #[trigger] Seq::<(Seq<char>, ConceptId)>::empty()[i] == (name_of(cs, y), y))
        || (exists|j: int| 0 <= j < st.len() && below(cs, #[trigger] st[j], y)) by {
        assert(st[0] == target);
    }
    assert(walk_cover_inv(cs, target, st, Seq::empty(), Seq::empty()));
    lemma_walk_covers(cs, target, st, Seq::empty(), Seq::empty(), (cs.len() + 1) as nat);
}

/// Every entry the subtree walk records names a concept below `target`, under
/// that concept's name, when the walk starts from concepts of the subtree.
proof fn lemma_walk_entries(cs: Seq<Concept>, target: ConceptId, stack: Seq<ConceptId>, acc: Seq<(Seq<char>, ConceptId)>, fuel: nat)
    requires
        ids_unique(cs),
        forall|i: int| 0 <= i < stack.len() ==> in_subtree(cs, target, #[trigger] stack[i]),
        forall|i: int| 0 <= i < acc.len() ==> below(cs, target, (#[trigger] acc[i]).1) && name_of(cs, acc[i].1) == acc[i].0,
    ensures
        forall|i: int| 0 <= i < subtree_walk(cs, stack, acc, fuel).len() ==> below(cs, target, (#[trigger] subtree_walk(cs, stack, acc, fuel)[i]).1)
            && name_of(cs, subtree_walk(cs, stack, acc, fuel)[i].1) == subtree_walk(cs, stack, acc, fuel)[i].0,
    decreases fuel,
{
    if fuel > 0 && stack.len() > 0 {
        let s = stack.last();
        let kids = children_spec(cs, s);
        crate::model::project::lemma_filter_in(cs, |c: Concept| c.parent == Some(s));
        let ns = stack.drop_last() + cids(kids);
        let na = acc + kids.map_values(|c: Concept| (c.name@, c.id));
        assert(in_subtree(cs, target, stack[stack.len() - 1]));
        assert forall|a: int| 0 <= a < kids.len() implies below(cs, target, #[trigger] kids[a].id) && in_subtree(cs, target, kids[a].id)
            && name_of(cs, kids[a].id) == kids[a].name@ by {
            assert(cs.contains(kids[a]));
            let m = choose|m: int| 0 <= m < cs.len() && cs[m] == kids[a];
            assert(cids(cs)[m] == kids[a].id);
            assert(child_link(cs, s, kids[a].id));
            lemma_below_step(cs, target, s, kids[a].id);
            lemma_extend_path(child_rel(cs), is_id(target), s, kids[a].id);
            lemma_pos_unique(cids(cs), m);
            lemma_concept_pos(cs, kids[a].id);
        }
        assert forall|i: int| 0 <= i < ns.len() implies in_subtree(cs, target, #[trigger] ns[i]) by {
            if i < stack.len() - 1 {
                assert(ns[i] == stack[i]);
            } else {
                assert(ns[i] == kids[i - (stack.len() - 1)].id);
            }
        }
        assert forall|i: int| 0 <= i < na.len() implies below(cs, target, (#[trigger] na[i]).1) && name_of(cs, na[i].1) == na[i].0 by {
            if i < acc.len() {
                assert(na[i] == acc[i]);
            } else {
                assert(na[i] == (kids[i - acc.len()].name@, kids[i - acc.len()].id));
            }
        }
        lemma_walk_entries(cs, target, ns, na, (fuel - 1) as nat);
        assert(subtree_walk(cs, stack, acc, fuel) == subtree_walk(cs, ns, na, (fuel - 1) as nat));
    } else {
        assert(subtree_walk(cs, stack, acc, fuel) == acc);
    }
}

/// Child links of a list stay child links when concepts are appended.
proof fn lemma_link_append(cs: Seq<Concept>, more: Seq<Concept>, a: ConceptId, b: ConceptId)
    requires
        child_link(cs, a, b),
    ensures
        child_link(cs + more, a, b),
{
    let i = choose|i: int| 0 <= i < cs.len() && cs[i].id == b && #[trigger] cs[i].parent == Some(a);
    assert((cs + more)[i] == cs[i]);
}

/// Paths of child links survive appending concepts.
proof fn lemma_path_append(cs: Seq<Concept>, more: Seq<Concept>, x: ConceptId, p: Seq<ConceptId>)
    requires
        link_path(child_rel(cs), is_id(x), p),
    ensures
        link_path(child_rel(cs + more), is_id(x), p),
{
    assert forall|i: int| 0 <= i < p.len() - 1 implies #[trigger] child_rel(cs + more)(p[i], p[i + 1]) by {
        assert(child_rel(cs)(p[i], p[i + 1]));
        lemma_link_append(cs, more, p[i], p[i + 1]);
    }
}

/// Concepts below or within `x` stay so when concepts are appended.
proof fn lemma_below_append(cs: Seq<Concept>, more: Seq<Concept>, x: ConceptId, y: ConceptId)
    ensures
        below(cs, x, y) ==> below(cs + more, x, y),
        in_subtree(cs, x, y) ==> in_subtree(cs + more, x, y),
{
    if below(cs, x, y) {
        let p = choose|p: Seq<ConceptId>| #[trigger] link_path(child_rel(cs), is_id(x), p) && p.len() >= 2 && p.last() == y;
        lemma_path_append(cs, more, x, p);
    }
    if in_subtree(cs, x, y) {
        let p = choose|p: Seq<ConceptId>| #[trigger] link_path(child_rel(cs), is_id(x), p) && p.last() == y;
        lemma_path_append(cs, more, x, p);
    }
}

/// The name under an existing identifier does not change when concepts are appended.
proof fn lemma_name_append(cs: Seq<Concept>, more: Seq<Concept>, y: ConceptId)
    requires
        cids(cs).contains(y),
    ensures
        name_of(cs + more, y) == name_of(cs, y),
        concept_pos(cs + more, y) == concept_pos(cs, y),
{
    let all = cs + more;
    assert(cids(all).take(cs.len() as int) =~= cids(cs));
    lemma_first_pos(cids(cs), y);
    crate::seqs::lemma_first_pos_prefix(cids(all), cs.len() as int, y);
    lemma_first_pos(cids(all), y);
    assert(all[concept_pos(cs, y)] == cs[concept_pos(cs, y)]);
}

/// A name found stays found when an entry is recorded.
proof fn lemma_lookup_push(by: Seq<(Seq<char>, ConceptId)>, e: (Seq<char>, ConceptId), name: Seq<char>)
    ensures
        lookup_name(by, name) is Some ==> lookup_name(by.push(e), name) is Some,
        e.0 == name ==> lookup_name(by.push(e), name) is Some,
{
    let f = |x: (Seq<char>, ConceptId)| x.0;
    let ns = by.map_values(f);
    let ns2 = by.push(e).map_values(f);
    assert(ns2 =~= ns.push(e.0));
    lemma_last_pos(ns, name);
    lemma_last_pos(ns2, name);
    if lookup_name(by, name) is Some {
        let k = last_pos(ns, name);
        assert(ns2[k] == name);
    }
    if e.0 == name {
        assert(ns2[ns.len() as int] == name);
    }
}

/// An identifier below another names a concept of the list.
proof fn lemma_below_in(cs: Seq<Concept>, x: ConceptId, y: ConceptId)
    requires
        below(cs, x, y),
    ensures
        cids(cs).contains(y),
        in_subtree(cs, x, y),
{
    let p = choose|p: Seq<ConceptId>| #[trigger] link_path(child_rel(cs), is_id(x), p) && p.len() >= 2 && p.last() == y;
    let n = p.len() - 2;
    assert(child_rel(cs)(p[n], p[n + 1]));
    let i = choose|i: int| 0 <= i < cs.len() && cs[i].id == p[n + 1] && #[trigger] cs[i].parent == Some(p[n]);
    assert(cids(cs)[i] == y);
}

/// What a merge without re-parenting keeps while adding concepts under
/// `target` to `cs`: the concepts present before stay first and unchanged,
/// identifiers stay unique and below the next number, every recorded name
/// stands for a concept below `target` under that name, and every planned
/// concept merged so far is recorded.
pub open spec fn add_inv(cs: Seq<Concept>, next: nat, target: ConceptId, st: MergeState, done: Seq<PlannedConcept>) -> bool {
    &&& st.0.len() >= cs.len()
    &&& st.0.take(cs.len() as int) == cs
    &&& ids_unique(st.0)
    &&& forall|k: int| 0 <= k < st.0.len() ==> (#[trigger] st.0[k]).id.0 < st.1
    &&& next <= st.1 <= next + done.len()
    &&& cids(st.0).contains(target)
    &&& forall|i: int| 0 <= i < st.2.len() ==> below(st.0, target, (#[trigger] st.2[i]).1) && name_of(st.0, st.2[i].1) == st.2[i].0
    &&& forall|j: int| 0 <= j < done.len() ==> lookup_name(st.2, (#[trigger] done[j]).name@) is Some
}

proof fn lemma_add_all(cs: Seq<Concept>, next: nat, target: ConceptId, st: MergeState, pcs: Seq<PlannedConcept>)
    requires
        add_inv(cs, next, target, st, Seq::empty()),
        next + pcs.len() <= u64::MAX,
    ensures
        add_inv(cs, next, target, merge_all(target, false, st, pcs), pcs),
    decreases pcs.len(),
{
    if pcs.len() == 0 {
        assert(merge_all(target, false, st, pcs) == st);
        return;
    }
    assert(merge_all(target, false, st, pcs) == merge_step(target, false, merge_all(target, false, st, pcs.drop_last()), pcs.last()));
    lemma_add_all(cs, next, target, st, pcs.drop_last());
    let mid = merge_all(target, false, st, pcs.drop_last());
    let pc = pcs.last();
    let out = merge_step(target, false, mid, pc);
    let done = pcs.drop_last();
    assert forall|j: int| 0 <= j < done.len() implies #[trigger] pcs[j] == done[j] by {}
    match lookup_name(mid.2, pc.name@) {
        Some(existing) => {
            assert(out.0 == mid.0 && out.1 == mid.1 && out.2 == mid.2);
            assert forall|j: int| 0 <= j < pcs.len() implies lookup_name(out.2, (#[trigger] pcs[j]).name@) is Some by {
                if j < done.len() {
                    assert(lookup_name(mid.2, done[j].name@) is Some);
                }
            }
        },
        None => {
            let parent_id = match pc.parent {
                Some(p) => match lookup_name(mid.2, p@) {
                    Some(id) => id,
                    None => target,
                },
                None => target,
            };
            let id = ConceptId(mid.1 as u64);
            let nc = Concept { id, name: pc.name, description: None, parent: Some(parent_id) };
            assert(out.0 == mid.0.push(nc));
            assert(out.1 == mid.1 + 1);
            assert(out.2 == mid.2.push((pc.name@, id)));
            assert(id.0 == mid.1);
            let more = seq![nc];
            assert(out.0 == mid.0 + more);
            // The parent lies in the subtree of `target`.
            assert(in_subtree(mid.0, target, parent_id)) by {
                if parent_id == target {
                    assert(link_path(child_rel(mid.0), is_id(target), seq![target]));
                } else {
                    let names = mid.2.map_values(|e: (Seq<char>, ConceptId)| e.0);
                    let pn = pc.parent->0;
                    lemma_last_pos(names, pn@);
                    let w = last_pos(names, pn@);
                    assert(mid.2[w].1 == parent_id);
                    lemma_below_in(mid.0, target, mid.2[w].1);
                }
            }
            lemma_below_append(mid.0, more, target, parent_id);
            assert(out.0[mid.0.len() as int] == nc);
            assert(out.0[mid.0.len() as int].parent == Some(parent_id) && out.0[mid.0.len() as int].id == id);
            assert(child_link(out.0, parent_id, id));
            lemma_below_step(out.0, target, parent_id, id);
            // The new identifier is fresh.
            assert(!cids(mid.0).contains(id)) by {
                if cids(mid.0).contains(id) {
                    let k = choose|k: int| 0 <= k < cids(mid.0).len() && cids(mid.0)[k] == id;
                    assert(mid.0[k].id.0 < mid.1);
                }
            }
            assert(cids(out.0) =~= cids(mid.0).push(id));
            assert(ids_unique(out.0)) by {
                assert forall|a: int, b: int| 0 <= a < cids(out.0).len() && 0 <= b < cids(out.0).len() && a != b implies cids(out.0)[a] != cids(out.0)[b] by {
                    if a < mid.0.len() && b < mid.0.len() {
                    } else if a < mid.0.len() {
                        assert(cids(mid.0).contains(cids(mid.0)[a]));
                    } else if b < mid.0.len() {
                        assert(cids(mid.0).contains(cids(mid.0)[b]));
                    }
                }
            }
            lemma_first_pos(cids(out.0), id);
            lemma_pos_unique(cids(out.0), mid.0.len() as int);
            assert(name_of(out.0, id) == pc.name@);
            assert(out.0.take(cs.len() as int) =~= mid.0.take(cs.len() as int));
            assert forall|k: int| 0 <= k < out.0.len() implies (#[trigger] out.0[k]).id.0 < out.1 by {
                if k < mid.0.len() {
                    assert(out.0[k] == mid.0[k]);
                }
            }
            assert(cids(out.0).contains(target)) by {
                let k = choose|k: int| 0 <= k < cids(mid.0).len() && cids(mid.0)[k] == target;
                assert(cids(out.0)[k] == target);
            }
            assert forall|i: int| 0 <= i < out.2.len() implies below(out.0, target, (#[trigger] out.2[i]).1) && name_of(out.0, out.2[i].1) == out.2[i].0 by {
                if i < mid.2.len() {
                    assert(out.2[i] == mid.2[i]);
                    lemma_below_append(mid.0, more, target, mid.2[i].1);
                    lemma_below_in(mid.0, target, mid.2[i].1);
                    lemma_name_append(mid.0, more, mid.2[i].1);
                } else {
                    assert(out.2[i] == (pc.name@, id));
                }
            }
            assert forall|j: int| 0 <= j < pcs.len() implies lookup_name(out.2, (#[trigger] pcs[j]).name@) is Some by {
                lemma_lookup_push(mid.2, (pc.name@, id), pcs[j].name@);
                if j < done.len() {
                    assert(lookup_name(mid.2, done[j].name@) is Some);
                } else {
                    assert(pcs[j] == pc);
                }
            }
        },
    }
}

/// Paths that end at a concept of `cs` and run through a longer list that
/// begins with `cs` (with unique identifiers) are paths of `cs`, when every
/// parent in `cs` is a concept of `cs`.
proof fn lemma_path_old(cs: Seq<Concept>, all: Seq<Concept>, x: ConceptId, p: Seq<ConceptId>)
    requires
        all.len() >= cs.len(),
        all.take(cs.len() as int) == cs,
        ids_unique(all),
        forall|k: int| 0 <= k < cs.len() ==> match (#[trigger] cs[k]).parent {
            Some(q) => cids(cs).contains(q),
            None => true,
        },
        link_path(child_rel(all), is_id(x), p),
        cids(cs).contains(p.last()),
    ensures
        link_path(child_rel(cs), is_id(x), p),
    decreases p.len(),
{
    if p.len() >= 2 {
        let n = p.len() - 2;
        let a = p[n];
        let b = p[n + 1];
        assert(b == p.last());
        assert(child_rel(all)(p[n], p[n + 1]));
        let i = choose|i: int| 0 <= i < all.len() && all[i].id == b && #[trigger] all[i].parent == Some(a);
        let m = choose|m: int| 0 <= m < cids(cs).len() && cids(cs)[m] == b;
        assert(all[m] == all.take(cs.len() as int)[m]);
        assert(cids(all)[m] == b && cids(all)[i] == b);
        assert(i == m);
        assert(cs[m].parent == Some(a));
        assert(child_link(cs, a, b));
        let q = p.drop_last();
        assert forall|j: int| 0 <= j < q.len() - 1 implies #[trigger] child_rel(all)(q[j], q[j + 1]) by {
            assert(q[j] == p[j] && q[j + 1] == p[j + 1]);
        }
        assert(q.last() == a);
        lemma_path_old(cs, all, x, q);
        assert forall|j: int| 0 <= j < p.len() - 1 implies #[trigger] child_rel(cs)(p[j], p[j + 1]) by {
            if j < n {
                assert(q[j] == p[j] && q[j + 1] == p[j + 1]);
                assert(child_rel(cs)(q[j], q[j + 1]));
            }
        }
    }
}

/// Lists with the same identifiers, names and parents have the same links,
/// the same concepts below any concept, and the same names.
proof fn lemma_same_shapes(a: Seq<Concept>, b: Seq<Concept>)
    requires
        shapes(a) == shapes(b),
    ensures
        cids(a) == cids(b),
        child_rel(a) == child_rel(b),
        forall|x: ConceptId, y: ConceptId| #[trigger] below(a, x, y) == below(b, x, y),
        forall|y: ConceptId| cids(a).contains(y) ==> #[trigger] name_of(a, y) == name_of(b, y),
{
    assert(a.len() == shapes(a).len() && b.len() == shapes(b).len());
    assert forall|i: int| 0 <= i < a.len() implies #[trigger] a[i].id == b[i].id && a[i].name@ == b[i].name@ && a[i].parent == b[i].parent by {
        assert(shapes(a)[i] == shapes(b)[i]);
    }
    assert(cids(a) =~= cids(b));
    assert forall|x: ConceptId, y: ConceptId| child_link(a, x, y) == child_link(b, x, y) by {
        if child_link(a, x, y) {
            let i = choose|i: int| 0 <= i < a.len() && a[i].id == y && #[trigger] a[i].parent == Some(x);
            assert(a[i].id == b[i].id);
            assert(b[i].parent == Some(x));
        }
        if child_link(b, x, y) {
            let i = choose|i: int| 0 <= i < b.len() && b[i].id == y && #[trigger] b[i].parent == Some(x);
            assert(a[i].id == b[i].id);
            assert(a[i].parent == Some(x));
        }
    }
    assert(child_rel(a) =~= child_rel(b));
    assert forall|y: ConceptId| cids(a).contains(y) implies #[trigger] name_of(a, y) == name_of(b, y) by {
        lemma_concept_pos(a, y);
        lemma_first_pos(cids(a), y);
    }
}

/// Merging planned concepts whose names are all recorded adds nothing and,
/// without re-parenting, changes no concept.
proof fn lemma_noadd_all(target: ConceptId, st: MergeState, pcs: Seq<PlannedConcept>)
    requires
        forall|j: int| 0 <= j < pcs.len() ==> lookup_name(st.2, (#[trigger] pcs[j]).name@) is Some,
    ensures
        merge_all(target, false, st, pcs).0 == st.0,
        merge_all(target, false, st, pcs).1 == st.1,
        merge_all(target, false, st, pcs).2 == st.2,
        merge_all(target, false, st, pcs).4.0 == st.4.0,
    decreases pcs.len(),
{
    if pcs.len() == 0 {
        assert(merge_all(target, false, st, pcs) == st);
    } else {
        assert(merge_all(target, false, st, pcs) == merge_step(target, false, merge_all(target, false, st, pcs.drop_last()), pcs.last()));
        assert forall|j: int| 0 <= j < pcs.drop_last().len() implies lookup_name(st.2, (#[trigger] pcs.drop_last()[j]).name@) is Some by {
            assert(pcs.drop_last()[j] == pcs[j]);
        }
        lemma_noadd_all(target, st, pcs.drop_last());
        assert(lookup_name(st.2, pcs[pcs.len() - 1].name@) is Some);
    }
}

/// Importing the same projection again without re-parenting adds nothing and
/// changes no concept: after a first merge under `target`, every planned
/// name is found below `target`. This holds for any list with the first
/// merge's identifiers, names and parents (descriptions play no part), when
/// identifiers are unique, below the next number, every parent is a concept,
/// `target` exists and is not below itself, and the numbers handed out fit
/// in a `u64`.
pub proof fn lemma_reimport_adds_nothing(cs: Seq<Concept>, next: nat, target: ConceptId, pcs: Seq<PlannedConcept>, again: Seq<Concept>)
    requires
        ids_unique(cs),
        forall|k: int| 0 <= k < cs.len() ==> (#[trigger] cs[k]).id.0 < next,
        forall|k: int| 0 <= k < cs.len() ==> match (#[trigger] cs[k]).parent {
            Some(q) => cids(cs).contains(q),
            None => true,
        },
        cids(cs).contains(target),
        !below(cs, target, target),
        next + pcs.len() <= u64::MAX,
        shapes(again) == shapes(merge_spec(cs, next, target, pcs, false).0),
    ensures
        ({
            let first = merge_spec(cs, next, target, pcs, false);
            let second = merge_spec(again, first.1, target, pcs, false);
            &&& second.0 == again
            &&& second.1 == first.1
            &&& second.4.0.len() == 0
        }),
{
    let by0 = subtree_walk(cs, seq![target], Seq::empty(), (cs.len() + 1) as nat);
    let st0: MergeState = (cs, next, by0, Seq::empty(), (Seq::empty(), Seq::empty(), Seq::empty(), Seq::empty()));
    assert(in_subtree(cs, target, target)) by {
        assert(link_path(child_rel(cs), is_id(target), seq![target]));
    }
    lemma_walk_entries(cs, target, seq![target], Seq::empty(), (cs.len() + 1) as nat);
    assert(cs.take(cs.len() as int) =~= cs);
    assert(add_inv(cs, next, target, st0, Seq::empty()));
    lemma_add_all(cs, next, target, st0, pcs);
    let first = merge_spec(cs, next, target, pcs, false);
    let c1 = first.0;
    // `target` is not below itself in the merged list either.
    assert(!below(c1, target, target)) by {
        if below(c1, target, target) {
            let p = choose|p: Seq<ConceptId>| #[trigger] link_path(child_rel(c1), is_id(target), p) && p.len() >= 2 && p.last() == target;
            lemma_path_old(cs, c1, target, p);
        }
    }
    lemma_same_shapes(again, c1);
    assert(ids_unique(again));
    assert(cids(again).contains(target));
    assert(!below(again, target, target));
    lemma_walk_complete(again, target);
    let by2 = subtree_walk(again, seq![target], Seq::empty(), (again.len() + 1) as nat);
    assert forall|j: int| 0 <= j < pcs.len() implies lookup_name(by2, (#[trigger] pcs[j]).name@) is Some by {
        let names = first.2.map_values(|e: (Seq<char>, ConceptId)| e.0);
        lemma_last_pos(names, pcs[j].name@);
        let w = last_pos(names, pcs[j].name@);
        let e = first.2[w];
        assert(e.0 == pcs[j].name@);
        assert(below(c1, target, e.1) && name_of(c1, e.1) == e.0);
        lemma_below_in(c1, target, e.1);
        assert(below(again, target, e.1));
        assert(name_of(again, e.1) == e.0);
        let i = choose|i: int| 0 <= i < by2.len() && #[trigger] by2[i] == (name_of(again, e.1), e.1);
        let names2 = by2.map_values(|x: (Seq<char>, ConceptId)| x.0);
        assert(names2[i] == pcs[j].name@);
        lemma_last_pos(names2, pcs[j].name@);
    }
    let st2: MergeState = (again, first.1, by2, Seq::empty(), (Seq::empty(), Seq::empty(), Seq::empty(), Seq::empty()));
    lemma_noadd_all(target, st2, pcs);
}

/// Every entry the subtree walk records names a concept of the list.
proof fn lemma_walk_ids(cs: Seq<Concept>, stack: Seq<ConceptId>, acc: Seq<(Seq<char>, ConceptId)>, fuel: nat)
    requires
        forall|i: int| 0 <= i < acc.len() ==> cids(cs).contains((#[trigger] acc[i]).1),
    ensures
        forall|i: int| 0 <= i < subtree_walk(cs, stack, acc, fuel).len() ==> cids(cs).contains((#[trigger] subtree_walk(cs, stack, acc, fuel)[i]).1),
    decreases fuel,
{
    if fuel > 0 && stack.len() > 0 {
        let s = stack.last();
        let kids = children_spec(cs, s);
        crate::model::project::lemma_filter_in(cs, |c: Concept| c.parent == Some(s));
        let ns = stack.drop_last() + cids(kids);
        let na = acc + kids.map_values(|c: Concept| (c.name@, c.id));
        assert forall|i: int| 0 <= i < na.len() implies cids(cs).contains((#[trigger] na[i]).1) by {
            if i < acc.len() {
                assert(na[i] == acc[i]);
            } else {
                let c = kids[i - acc.len()];
                assert(na[i].1 == c.id);
                assert(cs.contains(c));
                let m = choose|m: int| 0 <= m < cs.len() && cs[m] == c;
                assert(cids(cs)[m] == c.id);
            }
        }
        lemma_walk_ids(cs, ns, na, (fuel - 1) as nat);
        assert(subtree_walk(cs, stack, acc, fuel) == subtree_walk(cs, ns, na, (fuel - 1) as nat));
    } else {
        assert(subtree_walk(cs, stack, acc, fuel) == acc);
    }
}

/// What a merge keeps of a valid tree: it stays valid, identifiers stay below
/// the next number, `target` and every recorded identifier name concepts.
pub open spec fn tree_inv(next: nat, target: ConceptId, st: MergeState, done: nat) -> bool {
    &&& tree_valid(st.0)
    &&& forall|k: int| 0 <= k < st.0.len() ==> (#[trigger] st.0[k]).id.0 < st.1
    &&& next <= st.1 <= next + done
    &&& cids(st.0).contains(target)
    &&& forall|i: int| 0 <= i < st.2.len() ==> cids(st.0).contains((#[trigger] st.2[i]).1)
}

proof fn lemma_merge_all_tree(next: nat, target: ConceptId, reparent: bool, st: MergeState, pcs: Seq<PlannedConcept>)
    requires
        tree_inv(next, target, st, 0),
        next + pcs.len() <= u64::MAX,
    ensures
        tree_inv(next, target, merge_all(target, reparent, st, pcs), pcs.len()),
    decreases pcs.len(),
{
    if pcs.len() == 0 {
        assert(merge_all(target, reparent, st, pcs) == st);
        return;
    }
    assert(merge_all(target, reparent, st, pcs) == merge_step(target, reparent, merge_all(target, reparent, st, pcs.drop_last()), pcs.last()));
    lemma_merge_all_tree(next, target, reparent, st, pcs.drop_last());
    let mid = merge_all(target, reparent, st, pcs.drop_last());
    let pc = pcs.last();
    let out = merge_step(target, reparent, mid, pc);
    let cs = mid.0;
    let parent_id = match pc.parent {
        Some(p) => match lookup_name(mid.2, p@) {
            Some(id) => id,
            None => target,
        },
        None => target,
    };
    assert(cids(cs).contains(parent_id)) by {
        if parent_id != target {
            let names = mid.2.map_values(|e: (Seq<char>, ConceptId)| e.0);
            let pn = pc.parent->0;
            lemma_last_pos(names, pn@);
            let w = last_pos(names, pn@);
            assert(mid.2[w].1 == parent_id);
        }
    }
    match lookup_name(mid.2, pc.name@) {
        Some(existing) => {
            let actual = match parent_of(cs, existing) {
                Some(a) => a,
                None => target,
            };
            let can_move = has_concept(cs, existing) && has_concept(cs, parent_id) && parent_id != existing
                && !is_ancestor_spec(cs, existing, parent_id);
            if actual != parent_id && reparent && can_move {
                let k = concept_pos(cs, existing);
                lemma_concept_pos(cs, existing);
                assert(out.0 == reparented(cs, existing, Some(parent_id)));
                lemma_move_keeps_forest(cs, existing, Some(parent_id));
                assert forall|i: int| 0 <= i < cs.len() implies #[trigger] out.0[i].id == cs[i].id by {}
                assert(cids(out.0) =~= cids(cs));
            } else {
                assert(out.0 == cs && out.2 == mid.2 && out.1 == mid.1);
            }
        },
        None => {
            let id = ConceptId(mid.1 as u64);
            let nc = Concept { id, name: pc.name, description: None, parent: Some(parent_id) };
            assert(out.0 == cs.push(nc));
            assert(out.2 == mid.2.push((pc.name@, id)));
            assert(id.0 == mid.1);
            lemma_concept_pos(cs, id);
            lemma_first_pos(cids(cs), id);
            assert(!has_concept(cs, id)) by {
                if has_concept(cs, id) {
                    let k = concept_pos(cs, id);
                    assert(cs[k].id == id);
                }
            }
            lemma_concept_pos(cs, parent_id);
            lemma_first_pos(cids(cs), parent_id);
            lemma_add_keeps_forest(cs, nc);
            assert(cids(out.0) =~= cids(cs).push(id));
            assert forall|k: int| 0 <= k < out.0.len() implies (#[trigger] out.0[k]).id.0 < out.1 by {
                if k < cs.len() {
                    assert(out.0[k] == cs[k]);
                }
            }
            assert(cids(out.0).contains(target)) by {
                let k = choose|k: int| 0 <= k < cids(cs).len() && cids(cs)[k] == target;
                assert(cids(out.0)[k] == target);
            }
            assert forall|i: int| 0 <= i < out.2.len() implies cids(out.0).contains((#[trigger] out.2[i]).1) by {
                if i < mid.2.len() {
                    assert(out.2[i] == mid.2[i]);
                    let k = choose|k: int| 0 <= k < cids(cs).len() && cids(cs)[k] == mid.2[i].1;
                    assert(cids(out.0)[k] == mid.2[i].1);
                } else {
                    assert(cids(out.0)[cs.len() as int] == id);
                }
            }
        },
    }
}

/// Importing keeps the concept list a valid tree (every parent exists, no
/// parent chain cycles), with or without re-parenting, when `target` exists,
/// the concept numbers handed out are fresh and fit in a `u64`.
pub proof fn lemma_merge_keeps_tree(cs: Seq<Concept>, next: nat, target: ConceptId, pcs: Seq<PlannedConcept>, reparent: bool)
    requires
        tree_valid(cs),
        forall|k: int| 0 <= k < cs.len() ==> (#[trigger] cs[k]).id.0 < next,
        next + pcs.len() <= u64::MAX,
        cids(cs).contains(target),
    ensures
        tree_valid(merge_spec(cs, next, target, pcs, reparent).0),
{
    let by = subtree_walk(cs, seq![target], Seq::empty(), (cs.len() + 1) as nat);
    lemma_walk_ids(cs, seq![target], Seq::empty(), (cs.len() + 1) as nat);
    let st0: MergeState = (cs, next, by, Seq::empty(), (Seq::empty(), Seq::empty(), Seq::empty(), Seq::empty()));
    lemma_merge_all_tree(next, target, reparent, st0, pcs);
}

/// What holds of a merge state while merging into `cs`: the pre-existing
/// concepts keep their identifiers, those outside the subtree of `target`
/// are unchanged, every recorded name stands for a subtree concept or a
/// concept numbered from `next` on, and at most `n` numbers were used.
pub open spec fn outside_inv(cs: Seq<Concept>, next: nat, target: ConceptId, st: MergeState, n: nat) -> bool {
    &&& st.0.len() >= cs.len()
    &&& forall|k: int| 0 <= k < cs.len() ==> (#[trigger] st.0[k]).id == cs[k].id
    &&& forall|k: int| 0 <= k < cs.len() && !in_subtree(cs, target, cs[k].id) ==> #[trigger] st.0[k] == cs[k]
    &&& forall|i: int| 0 <= i < st.2.len() ==> in_subtree(cs, target, (#[trigger] st.2[i]).1) || st.2[i].1.0 >= next
    &&& next <= st.1 <= next + n
}

proof fn lemma_merge_all_outside(cs: Seq<Concept>, next: nat, target: ConceptId, reparent: bool, st: MergeState, pcs: Seq<PlannedConcept>)
    requires
        outside_inv(cs, next, target, st, 0),
        forall|k: int| 0 <= k < cs.len() ==> (#[trigger] cs[k]).id.0 < next,
        next + pcs.len() <= u64::MAX,
    ensures
        outside_inv(cs, next, target, merge_all(target, reparent, st, pcs), pcs.len()),
    decreases pcs.len(),
{
    if pcs.len() > 0 {
        assert(merge_all(target, reparent, st, pcs) == merge_step(target, reparent, merge_all(target, reparent, st, pcs.drop_last()), pcs.last()));
        lemma_merge_all_outside(cs, next, target, reparent, st, pcs.drop_last());
        let mid = merge_all(target, reparent, st, pcs.drop_last());
        let pc = pcs.last();
        let out = merge_step(target, reparent, mid, pc);
        match lookup_name(mid.2, pc.name@) {
            Some(existing) => {
                let names = mid.2.map_values(|e: (Seq<char>, ConceptId)| e.0);
                lemma_last_pos(names, pc.name@);
                let w = last_pos(names, pc.name@);
                assert(mid.2[w].1 == existing);
                lemma_concept_pos(mid.0, existing);
                let p = concept_pos(mid.0, existing);
                assert forall|k: int| 0 <= k < cs.len() && !in_subtree(cs, target, cs[k].id) implies #[trigger] out.0[k] == cs[k] by {
                    assert(mid.0[k] == cs[k]);
                    if p == k {
                        assert(mid.0[p].id == existing);
                        assert(cs[k].id == existing);
                    }
                }
                assert forall|k: int| 0 <= k < cs.len() implies (#[trigger] out.0[k]).id == cs[k].id by {
                    assert(mid.0[k].id == cs[k].id);
                }
            },
            None => {
                assert forall|i: int| 0 <= i < out.2.len() implies in_subtree(cs, target, (#[trigger] out.2[i]).1) || out.2[i].1.0 >= next by {
                    if i < mid.2.len() {
                        assert(out.2[i] == mid.2[i]);
                    }
                }
                assert forall|k: int| 0 <= k < cs.len() && !in_subtree(cs, target, cs[k].id) implies #[trigger] out.0[k] == cs[k] by {
                    assert(mid.0[k] == cs[k]);
                }
                assert forall|k: int| 0 <= k < cs.len() implies (#[trigger] out.0[k]).id == cs[k].id by {
                    assert(mid.0[k].id == cs[k].id);
                }
            },
        }
    } else {
        assert(merge_all(target, reparent, st, pcs) == st);
    }
}

/// Importing leaves every concept outside the subtree of the target exactly
/// as it was, when the concept numbers handed out are fresh (above every
/// existing identifier) and fit in a `u64`.
pub proof fn lemma_merge_outside_untouched(cs: Seq<Concept>, next: nat, target: ConceptId, pcs: Seq<PlannedConcept>, reparent: bool)
    requires
        forall|k: int| 0 <= k < cs.len() ==> (#[trigger] cs[k]).id.0 < next,
        next + pcs.len() <= u64::MAX,
    ensures
        forall|k: int| 0 <= k < cs.len() && !in_subtree(cs, target, cs[k].id) ==> #[trigger] merge_spec(cs, next, target, pcs, reparent).0[k] == cs[k],
{
    let by = subtree_walk(cs, seq![target], Seq::empty(), (cs.len() + 1) as nat);
    assert(in_subtree(cs, target, target)) by {
        let p = seq![target];
        assert(link_path(child_rel(cs), is_id(target), p));
    }
    lemma_walk_in_subtree(cs, target, seq![target], Seq::empty(), (cs.len() + 1) as nat);
    let st0: MergeState = (cs, next, by, Seq::empty(), (Seq::empty(), Seq::empty(), Seq::empty(), Seq::empty()));
    lemma_merge_all_outside(cs, next, target, reparent, st0, pcs);
}

/// A description is present with text `t`.
pub open spec fn desc_is(d: Option<String>, t: Seq<char>) -> bool {
    match d {
        Some(s) => s@ == t,
        None => false,
    }
}

/// Recorded names, by view.
pub open spec fn by_views(v: Seq<(String, ConceptId)>) -> Seq<(Seq<char>, ConceptId)> {
    v.map_values(|e: (String, ConceptId)| (e.0@, e.1))
}

/// Equal shapes mean equal identifiers and parents.
proof fn lemma_shapes_links(a: Seq<Concept>, b: Seq<Concept>)
    requires
        shapes(a) == shapes(b),
    ensures
        a.len() == b.len(),
        cids(a) == cids(b),
        forall|i: int| 0 <= i < a.len() ==> (#[trigger] a[i]).parent == b[i].parent && a[i].id == b[i].id && a[i].name@ == b[i].name@,
{
    assert(shapes(a).len() == a.len() && shapes(b).len() == b.len());
    assert forall|i: int| 0 <= i < a.len() implies (#[trigger] a[i]).parent == b[i].parent && a[i].id == b[i].id && a[i].name@ == b[i].name@ by {
        assert(shapes(a)[i] == shapes(b)[i]);
    }
    assert(cids(a) =~= cids(b));
}

/// The names and identifiers in the subtree of `target`, as `subtree_walk` records them.
fn subtree_names(project: &Project, target: ConceptId) -> (r: Vec<(String, ConceptId)>)
    requires
        project.concepts@.len() < usize::MAX,
    ensures
        by_views(r@) == subtree_walk(project.concepts@, seq![target], Seq::empty(), (project.concepts@.len() + 1) as nat),
        forall|k: int| 0 <= k < r@.len() ==> cids(project.concepts@).contains(#[trigger] r@[k].1),
{
    let ghost cs = project.concepts@;
    let ghost total = subtree_walk(cs, seq![target], Seq::empty(), (cs.len() + 1) as nat);
    let mut by: Vec<(String, ConceptId)> = Vec::new();
    let mut stack: Vec<ConceptId> = Vec::new();
    stack.push(target);
    let mut fuel: usize = project.concepts.len() + 1;
    assert(by_views(by@) =~= Seq::<(Seq<char>, ConceptId)>::empty());
    assert(stack@ =~= seq![target]);
    while fuel > 0 && stack.len() > 0
        invariant
            cs == project.concepts@,
            total == subtree_walk(cs, stack@, by_views(by@), fuel as nat),
            forall|k: int| 0 <= k < by@.len() ==> cids(cs).contains(#[trigger] by@[k].1),
        decreases fuel,
    {
        let id = stack.pop().unwrap();
        let kids = project.children_of(id);
        let ghost kv = kids@.map_values(|c: &Concept| *c);
        let ghost bstart = by_views(by@);
        let ghost sstart = stack@;
        let mut j: usize = 0;
        while j < kids.len()
            invariant
                j <= kids@.len(),
                cs == project.concepts@,
                kv == kids@.map_values(|c: &Concept| *c),
                kv == children_spec(cs, id),
                by_views(by@) == bstart + kv.take(j as int).map_values(|c: Concept| (c.name@, c.id)),
                stack@ == sstart + cids(kv.take(j as int)),
                forall|k: int| 0 <= k < by@.len() ==> cids(cs).contains(#[trigger] by@[k].1),
            decreases kids@.len() - j,
        {
            let c = kids[j];
            assert(*c == kv[j as int]);
            let ghost bb = by@;
            let nm = c.name.clone();
            by.push((nm, c.id));
            assert(by_views(by@) =~= by_views(bb).push((c.name@, c.id)));
            assert(kv.take(j + 1).map_values(|c: Concept| (c.name@, c.id)) =~= kv.take(j as int).map_values(|c: Concept| (c.name@, c.id)).push((c.name@, c.id)));
            let ghost sb = stack@;
            stack.push(c.id);
            assert(cids(kv.take(j + 1)) =~= cids(kv.take(j as int)).push(c.id));
            proof {
                crate::model::project::lemma_child_ids_in(cs, id);
                assert(crate::model::project::child_ids(cs, id)[j as int] == c.id);
                assert(cids(cs).contains(c.id));
                assert forall|k: int| 0 <= k < by@.len() implies cids(cs).contains(#[trigger] by@[k].1) by {
                    if k < bb.len() {
                        assert(by@[k] == bb[k]);
                    }
                }
            }
            j += 1;
        }
        assert(kv.take(j as int) =~= kv);
        fuel -= 1;
    }
    by
}

/// The concept recorded last under `name`.
fn lookup_by(by: &Vec<(String, ConceptId)>, name: &str) -> (r: Option<ConceptId>)
    ensures
        r == lookup_name(by_views(by@), name@),
{
    let ghost names = by_views(by@).map_values(|e: (Seq<char>, ConceptId)| e.0);
    proof {
        lemma_last_pos(names, name@);
    }
    let mut k: usize = by.len();
    while k > 0
        invariant
            k <= by@.len(),
            names == by_views(by@).map_values(|e: (Seq<char>, ConceptId)| e.0),
            forall|m: int| k <= m < by@.len() ==> names[m] != name@,
            -1 <= last_pos(names, name@) < names.len(),
            last_pos(names, name@) >= 0 ==> names[last_pos(names, name@)] == name@,
            forall|m: int| 0 <= m < names.len() && m > last_pos(names, name@) ==> names[m] != name@,
        decreases k,
    {
        k -= 1;
        assert(names[k as int] == by@[k as int].0@);
        if str_eq(by[k].0.as_str(), name) {
            assert(last_pos(names, name@) == k);
            return Some(by[k].1);
        }
    }
    None
}

/// The name of concept `id`, or empty when it does not exist.
fn name_or_empty_exec(project: &Project, id: ConceptId) -> (r: String)
    ensures
        r@ == name_or_empty(project.concepts@, id),
{
    match project.get_concept(id) {
        Some(c) => c.name.clone(),
        None => String::new(),
    }
}

/// The description given to an imported concept.
fn import_description_exec(pc: &PlannedConcept) -> (r: String)
    ensures
        r@ == import_description(*pc),
{
    if pc.umbrella {
        "pdfdex import: category umbrella".to_string()
    } else {
        let mut v: Vec<char> = Vec::new();
        push_str(&mut v, "pdfdex import: ");
        let d = u64_decimal(pc.docs as u64);
        crate::text::push_all(&mut v, d.as_slice());
        push_str(&mut v, " docs");
        assert(v@ =~= import_description(*pc));
        string_from(v.as_slice())
    }
}

/// What holds between the concrete merge and its spec state `st`.
pub open spec fn merge_inv(
    p: Project,
    by: Seq<(String, ConceptId)>,
    report: ImportReport,
    st: MergeState,
    old_cs: Seq<Concept>,
    target: ConceptId,
) -> bool {
    &&& shapes(p.concepts@) == shapes(st.0)
    &&& p.next_concept_id == st.1
    &&& by_views(by) == st.2
    &&& report_view(report) == st.4
    &&& p.concepts@.len() == old_cs.len() + st.3.len()
    &&& forall|k: int| 0 <= k < old_cs.len() ==> (#[trigger] p.concepts@[k]).description == old_cs[k].description
    &&& forall|k: int| 0 <= k < st.3.len() ==> desc_is((#[trigger] p.concepts@[old_cs.len() + k]).description, st.3[k])
    &&& cids(st.0).contains(target)
    &&& forall|k: int| 0 <= k < by.len() ==> cids(st.0).contains(#[trigger] by[k].1)
}

/// The parent the merge gives a planned concept: its recorded parent, or the target.
fn projected_parent(by: &Vec<(String, ConceptId)>, pc: &PlannedConcept, target: ConceptId) -> (r: ConceptId)
    ensures
        r == match pc.parent {
            Some(p) => match lookup_name(by_views(by@), p@) {
                Some(id) => id,
                None => target,
            },
            None => target,
        },
        (r == target || exists|k: int| 0 <= k < by@.len() && by@[k].1 == r),
{
    match &pc.parent {
        Some(p) => match lookup_by(by, p.as_str()) {
            Some(id) => {
                proof {
                    let names = by_views(by@).map_values(|e: (Seq<char>, ConceptId)| e.0);
                    lemma_last_pos(names, p@);
                    let k = last_pos(names, p@);
                    assert(by@[k].1 == by_views(by@)[k].1);
                }
                id
            },
            None => target,
        },
        None => target,
    }
}

/// Merges a planned concept whose name is already recorded, as `existing`.
fn merge_existing(
    project: &mut Project,
    report: &mut ImportReport,
    by: &Vec<(String, ConceptId)>,
    target: ConceptId,
    reparent: bool,
    pc: &PlannedConcept,
    existing: ConceptId,
    parent_id: ConceptId,
    Ghost(st): Ghost<MergeState>,
    Ghost(old_cs): Ghost<Seq<Concept>>,
)
    requires
        merge_inv(*old(project), by@, *old(report), st, old_cs, target),
        lookup_name(st.2, pc.name@) == Some(existing),
        cids(st.0).contains(existing),
        cids(st.0).contains(parent_id),
        parent_id == match pc.parent {
            Some(p) => match lookup_name(st.2, p@) {
                Some(id) => id,
                None => target,
            },
            None => target,
        },
    ensures
        merge_inv(*final(project), by@, *final(report), merge_step(target, reparent, st, *pc), old_cs, target),
        final(project).tasks == old(project).tasks,
        keeps_settings(*old(project), *final(project)),
        final(project).next_task_id == old(project).next_task_id,
        merge_step(target, reparent, st, *pc).1 == st.1,
{
    proof {
        lemma_shapes_links(project.concepts@, st.0);
        lemma_same_links(project.concepts@, st.0, existing, parent_id);
        lemma_first_pos(cids(project.concepts@), existing);
        lemma_first_pos(cids(project.concepts@), parent_id);
        lemma_concept_pos(project.concepts@, existing);
    }
    let actual = match project.get_concept(existing) {
        Some(c) => match c.parent {
            Some(a) => a,
            None => target,
        },
        None => target,
    };
    if actual == parent_id {
        let ghost kb = report.kept@;
        report.kept.push(pc.name.clone());
        assert(texts(report.kept@) =~= texts(kb).push(pc.name@));
        return;
    }
    proof {
        lemma_same_links(project.concepts@, st.0, actual, parent_id);
        lemma_same_links(project.concepts@, st.0, parent_id, actual);
        lemma_concept_pos(project.concepts@, actual);
        lemma_concept_pos(st.0, actual);
        lemma_concept_pos(project.concepts@, parent_id);
        lemma_concept_pos(st.0, parent_id);
    }
    let actual_name = name_or_empty_exec(project, actual);
    let projected_name = name_or_empty_exec(project, parent_id);
    assert(actual_name@ == name_or_empty(st.0, actual));
    assert(projected_name@ == name_or_empty(st.0, parent_id));
    let ghost before = *project;
    let moved = if reparent {
        project.move_concept(existing, Some(parent_id)).is_ok()
    } else {
        false
    };
    if moved {
        proof {
            let kk = concept_pos(before.concepts@, existing);
            assert(shapes(project.concepts@) =~= shapes(st.0.update(kk, Concept { parent: Some(parent_id), ..st.0[kk] })));
            assert forall|k: int| 0 <= k < old_cs.len() implies (#[trigger] project.concepts@[k]).description == old_cs[k].description by {
                assert(project.concepts@[k].description == before.concepts@[k].description);
            }
            assert forall|k: int| 0 <= k < st.3.len() implies desc_is((#[trigger] project.concepts@[old_cs.len() + k]).description, st.3[k]) by {
                assert(project.concepts@[old_cs.len() + k].description == before.concepts@[old_cs.len() + k].description);
            }
            assert(cids(st.0.update(kk, Concept { parent: Some(parent_id), ..st.0[kk] })) =~= cids(st.0));
        }
        let ghost rb = report.reparented@;
        report.reparented.push(pc.name.clone());
        assert(texts(report.reparented@) =~= texts(rb).push(pc.name@));
        proof {
            let nst = merge_step(target, reparent, st, *pc);
            assert(reparent);
            assert(has_concept(st.0, existing) && has_concept(st.0, parent_id) && parent_id != existing && !is_ancestor_spec(st.0, existing, parent_id));
            assert(shapes(project.concepts@) == shapes(nst.0));
            assert(report_view(*report) == nst.4);
        }
    } else {
        let ghost db = report.drift@;
        report.drift.push((pc.name.clone(), actual_name, projected_name));
        assert(report.drift@.map_values(|d: (String, String, String)| (d.0@, d.1@, d.2@)) =~= db.map_values(
            |d: (String, String, String)| (d.0@, d.1@, d.2@),
        ).push((pc.name@, name_or_empty(st.0, actual), name_or_empty(st.0, parent_id))));
        proof {
            let nst = merge_step(target, reparent, st, *pc);
            assert(*project == before);
            assert(!(reparent && has_concept(st.0, existing) && has_concept(st.0, parent_id) && parent_id != existing && !is_ancestor_spec(st.0, existing, parent_id)));
            assert(report_view(*report) == nst.4);
        }
    }
}

/// Adds a planned concept whose name is not recorded yet.
fn merge_new(
    project: &mut Project,
    report: &mut ImportReport,
    by: &mut Vec<(String, ConceptId)>,
    target: ConceptId,
    reparent: bool,
    pc: &PlannedConcept,
    parent_id: ConceptId,
    Ghost(st): Ghost<MergeState>,
    Ghost(old_cs): Ghost<Seq<Concept>>,
)
    requires
        merge_inv(*old(project), old(by)@, *old(report), st, old_cs, target),
        old(project).next_concept_id < u64::MAX,
        lookup_name(st.2, pc.name@) is None,
        cids(st.0).contains(parent_id),
        parent_id == match pc.parent {
            Some(p) => match lookup_name(st.2, p@) {
                Some(id) => id,
                None => target,
            },
            None => target,
        },
    ensures
        merge_inv(*final(project), final(by)@, *final(report), merge_step(target, reparent, st, *pc), old_cs, target),
        final(project).tasks == old(project).tasks,
        keeps_settings(*old(project), *final(project)),
        final(project).next_task_id == old(project).next_task_id,
        merge_step(target, reparent, st, *pc).1 == st.1 + 1,
{
    proof {
        lemma_shapes_links(project.concepts@, st.0);
        lemma_first_pos(cids(project.concepts@), parent_id);
    }
    let desc = import_description_exec(pc);
    let ghost before = project.concepts@;
    let ghost bb = by@;
    match project.add_concept(pc.name.clone(), Some(parent_id), Some(desc)) {
        Ok(id) => {
            by.push((pc.name.clone(), id));
            assert(by_views(by@) =~= by_views(bb).push((pc.name@, id)));
            let ghost ab = report.added@;
            report.added.push(pc.name.clone());
            assert(texts(report.added@) =~= texts(ab).push(pc.name@));
            proof {
                let nst = merge_step(target, reparent, st, *pc);
                assert(shapes(project.concepts@) =~= shapes(before).push((id, pc.name@, Some(parent_id))));
                assert(shapes(nst.0) =~= shapes(st.0).push((id, pc.name@, Some(parent_id))));
                assert(cids(nst.0) =~= cids(st.0).push(id));
                assert forall|k: int| 0 <= k < old_cs.len() implies (#[trigger] project.concepts@[k]).description == old_cs[k].description by {
                    assert(project.concepts@[k] == before[k]);
                }
                assert forall|k: int| 0 <= k < nst.3.len() implies desc_is((#[trigger] project.concepts@[old_cs.len() + k]).description, nst.3[k]) by {
                    if k < st.3.len() {
                        assert(project.concepts@[old_cs.len() + k] == before[old_cs.len() + k]);
                    }
                }
                assert forall|k: int| 0 <= k < by@.len() implies cids(nst.0).contains(#[trigger] by@[k].1) by {
                    if k < bb.len() {
                        assert(by@[k] == bb[k]);
                        let m = choose|m: int| 0 <= m < cids(st.0).len() && cids(st.0)[m] == bb[k].1;
                        assert(cids(nst.0)[m] == bb[k].1);
                    } else {
                        assert(cids(nst.0)[cids(nst.0).len() - 1] == id);
                    }
                }
                let m = choose|m: int| 0 <= m < cids(st.0).len() && cids(st.0)[m] == target;
                assert(cids(nst.0)[m] == target);
            }
        },
        Err(_) => {
            proof {
                assert(false);
            }
        },
    }
}

/// Merge a projection into the tree under `target`. Matching is by name
/// within the target's subtree (the last concept met under a name wins);
/// missing concepts are added under their projected parent, existing ones
/// are kept where they are, and a differing projected parent is reported as
/// drift, or applied when `reparent` is set and the move is allowed.
pub fn apply(project: &mut Project, target: ConceptId, projection: &Projection, reparent: bool) -> (r: Result<
    ImportReport,
    ImportError,
>)
    requires
        old(project).concepts@.len() < usize::MAX,
        old(project).next_concept_id + projection.concepts@.len() < u64::MAX,
    ensures
        !has_concept(old(project).concepts@, target) ==> (r matches Err(ImportError::TargetNotFound(t)) && t == target
            && *final(project) == *old(project)),
        has_concept(old(project).concepts@, target) ==> (r matches Ok(rep) && ({
            let st = merge_spec(
                old(project).concepts@,
                old(project).next_concept_id as nat,
                target,
                projection.concepts@,
                reparent,
            );
            &&& report_view(rep) == st.4
            &&& shapes(final(project).concepts@) == shapes(st.0)
            &&& final(project).next_concept_id == st.1
            &&& final(project).concepts@.len() == old(project).concepts@.len() + st.3.len()
            &&& forall|k: int|
                0 <= k < old(project).concepts@.len() ==> (#[trigger] final(project).concepts@[k]).description
                    == old(project).concepts@[k].description
            &&& forall|k: int|
                0 <= k < st.3.len() ==> desc_is((#[trigger] final(project).concepts@[old(project).concepts@.len() + k]).description, st.3[k])
            &&& final(project).tasks == old(project).tasks
        })),
        tree_valid(old(project).concepts@) && (forall|k: int|
            0 <= k < old(project).concepts@.len() ==> (#[trigger] old(project).concepts@[k]).id.0 < old(project).next_concept_id)
            ==> tree_valid(final(project).concepts@),
        keeps_settings(*old(project), *final(project)),
        final(project).next_task_id == old(project).next_task_id,
{
    proof {
        lemma_concept_pos(project.concepts@, target);
        lemma_first_pos(cids(project.concepts@), target);
    }
    if project.get_concept(target).is_none() {
        return Err(ImportError::TargetNotFound(target));
    }
    let ghost old_cs = project.concepts@;
    let ghost pcs = projection.concepts@;
    let mut by = subtree_names(project, target);
    let ghost st0: MergeState = (
        old_cs,
        project.next_concept_id as nat,
        by_views(by@),
        Seq::<Seq<char>>::empty(),
        (Seq::<Seq<char>>::empty(), Seq::<Seq<char>>::empty(), Seq::<(Seq<char>, Seq<char>, Seq<char>)>::empty(), Seq::<Seq<char>>::empty()),
    );
    let ghost mut st = st0;
    let ghost next0 = project.next_concept_id;
    let ghost tasks0 = project.tasks;
    let mut report = ImportReport { added: Vec::new(), kept: Vec::new(), drift: Vec::new(), reparented: Vec::new() };
    assert(report_view(report) =~= st0.4);
    assert(merge_inv(*project, by@, report, st, old_cs, target));
    let mut i: usize = 0;
    while i < projection.concepts.len()
        invariant
            i <= pcs.len(),
            pcs == projection.concepts@,
            next0 + pcs.len() < u64::MAX,
            st == merge_all(target, reparent, st0, pcs.take(i as int)),
            merge_inv(*project, by@, report, st, old_cs, target),
            st.1 <= next0 + i,
            project.tasks == tasks0,
            keeps_settings(*old(project), *project),
            project.next_task_id == old(project).next_task_id,
        decreases pcs.len() - i,
    {
        let pc = &projection.concepts[i];
        assert(pcs.take(i + 1).drop_last() =~= pcs.take(i as int));
        assert(pcs.take(i + 1).last() == *pc);
        assert(merge_all(target, reparent, st0, pcs.take(i + 1)) == merge_step(target, reparent, st, *pc));
        let parent_id = projected_parent(&by, pc, target);
        assert(cids(st.0).contains(parent_id));
        match lookup_by(&by, pc.name.as_str()) {
            Some(existing) => {
                proof {
                    let names = by_views(by@).map_values(|e: (Seq<char>, ConceptId)| e.0);
                    lemma_last_pos(names, pc.name@);
                    let k = last_pos(names, pc.name@);
                    assert(by@[k].1 == by_views(by@)[k].1);
                }
                merge_existing(&mut *project, &mut report, &by, target, reparent, pc, existing, parent_id, Ghost(st), Ghost(old_cs));
            },
            None => {
                merge_new(&mut *project, &mut report, &mut by, target, reparent, pc, parent_id, Ghost(st), Ghost(old_cs));
            },
        }
        proof {
            st = merge_step(target, reparent, st, *pc);
        }
        i += 1;
    }
    assert(pcs.take(i as int) =~= pcs);
    proof {
        if tree_valid(old_cs) && forall|k: int| 0 <= k < old_cs.len() ==> (#[trigger] old_cs[k]).id.0 < next0 {
            lemma_merge_keeps_tree(old_cs, next0 as nat, target, pcs, reparent);
            let fin = project.concepts@;
            lemma_same_shapes(fin, st.0);
            assert forall|k: int| 0 <= k < fin.len() implies (#[trigger] fin[k]).parent == st.0[k].parent by {
                assert(shapes(fin)[k] == shapes(st.0)[k]);
            }
            lemma_same_links_tree(fin, st.0);
        }
    }
    Ok(report)
}

// --- Parents come before their children ------------------------------------------------

/// Every planned concept names as parent either nothing, one of `umbrellas`,
/// or a concept planned before it.
pub open spec fn parents_ok(cs: Seq<PlannedView>, umbrellas: Seq<Seq<char>>) -> bool {
    forall|i: int|
        #![trigger cs[i]]
        0 <= i < cs.len() ==> match cs[i].1 {
            Some(p) => umbrellas.contains(p) || exists|j: int| 0 <= j < i && cs[j].0 == p,
            None => true,
        }
}

/// Every planned concept names as parent nothing or a concept planned before it.
pub open spec fn parents_first(cs: Seq<PlannedView>) -> bool {
    forall|i: int|
        #![trigger cs[i]]
        0 <= i < cs.len() ==> match cs[i].1 {
            Some(p) => exists|j: int| 0 <= j < i && cs[j].0 == p,
            None => true,
        }
}

/// Adding a name to a sorted list adds exactly that name.
proof fn lemma_insert_name_contains(s: Seq<Seq<char>>, x: Seq<char>, y: Seq<char>)
    ensures
        insert_name(s, x).contains(y) == (s.contains(y) || y == x),
{
    let k = slot_from(s, x, 0);
    lemma_slot_from_bounds(s, x, 0);
    if k < s.len() && s[k] == x {
        if y == x {
            assert(s[k] == y);
        }
    } else {
        let n = s.insert(k, x);
        if s.contains(y) {
            let m = choose|m: int| 0 <= m < s.len() && s[m] == y;
            if m < k {
                assert(n[m] == y);
            } else {
                assert(n[m + 1] == y);
            }
        }
        if y == x {
            assert(n[k] == x);
        }
        if n.contains(y) {
            let m = choose|m: int| 0 <= m < n.len() && n[m] == y;
            if m < k {
                assert(s[m] == y);
            } else if m > k {
                assert(s[m - 1] == y);
            }
        }
    }
}

/// Sorting keeps exactly the names of the list.
proof fn lemma_sort_names_contains(l: Seq<Seq<char>>, y: Seq<char>)
    ensures
        sort_names(l).contains(y) == l.contains(y),
    decreases l.len(),
{
    if l.len() > 0 {
        let d = l.drop_last();
        lemma_sort_names_contains(d, y);
        assert(sort_names(l) == insert_name(sort_names(d), l.last()));
        lemma_insert_name_contains(sort_names(d), l.last(), y);
        if d.contains(y) {
            let m = choose|m: int| 0 <= m < d.len() && d[m] == y;
            assert(l[m] == y);
        }
        if l.contains(y) {
            let m = choose|m: int| 0 <= m < l.len() && l[m] == y;
            if m < l.len() - 1 {
                assert(d[m] == y);
            }
        }
    }
}

/// Both ends of every surviving edge are among the endpoints.
proof fn lemma_endpoints_contains(pm: Seq<EdgeView>, k: int)
    requires
        0 <= k < pm.len(),
    ensures
        endpoints(pm).contains(pm[k].0),
        endpoints(pm).contains(pm[k].1),
    decreases pm.len(),
{
    let e = endpoints(pm);
    let d = endpoints(pm.drop_last());
    if k == pm.len() - 1 {
        assert(e[d.len() as int] == pm[k].0);
        assert(e[d.len() as int + 1] == pm[k].1);
    } else {
        lemma_endpoints_contains(pm.drop_last(), k);
        let m = choose|m: int| 0 <= m < d.len() && d[m] == pm[k].0;
        assert(e[m] == pm[k].0);
        let m2 = choose|m2: int| 0 <= m2 < d.len() && d[m2] == pm[k].1;
        assert(e[m2] == pm[k].1);
    }
}

/// The category of a name without a surviving parent is among the root categories.
proof fn lemma_root_categories_contains(nodes: Seq<NodeView>, pm: Seq<EdgeView>, names: Seq<Seq<char>>, i: int)
    requires
        0 <= i < names.len(),
        entry_pos(pm, names[i]) < 0,
        node_info(nodes, names[i]).1 is Some,
    ensures
        root_categories(nodes, pm, names).contains(node_info(nodes, names[i]).1.unwrap()),
    decreases names.len(),
{
    let r = root_categories(nodes, pm, names);
    let d = root_categories(nodes, pm, names.drop_last());
    let c = node_info(nodes, names[i]).1.unwrap();
    if i == names.len() - 1 {
        assert(r[d.len() as int] == c);
    } else {
        lemma_root_categories_contains(nodes, pm, names.drop_last(), i);
        let m = choose|m: int| 0 <= m < d.len() && d[m] == c;
        assert(r[m] == c);
    }
}

/// The parent of a stacked name is nothing, an umbrella, or an emitted name.
pub open spec fn parent_placed(pp: Option<Seq<char>>, umbrellas: Seq<Seq<char>>, out: Seq<PlannedView>) -> bool {
    match pp {
        Some(p) => umbrellas.contains(p) || exists|j: int| 0 <= j < out.len() && out[j].0 == p,
        None => true,
    }
}

proof fn lemma_emit_parents(
    nodes: Seq<NodeView>,
    pm: Seq<EdgeView>,
    names: Seq<Seq<char>>,
    umbrellas: Seq<Seq<char>>,
    stack: Seq<Seq<char>>,
    out: Seq<PlannedView>,
    fuel: nat,
)
    requires
        parents_ok(out, umbrellas),
        forall|k: int| 0 <= k < stack.len() ==> parent_placed(planned_parent(nodes, pm, #[trigger] stack[k]), umbrellas, out),
    ensures
        parents_ok(emit(nodes, pm, names, stack, out, fuel), umbrellas),
    decreases fuel,
{
    if fuel > 0 && stack.len() > 0 {
        let n = stack.last();
        let kids = children_in(nodes, pm, names, n);
        let f = |x: Seq<char>| planned_parent(nodes, pm, x) == Some(n);
        crate::model::project::lemma_filter_in(names, f);
        let out2 = out.push(planned_of(nodes, pm, n));
        let stack2 = stack.drop_last() + kids.reverse();
        assert(parent_placed(planned_parent(nodes, pm, stack[stack.len() - 1]), umbrellas, out));
        assert(parents_ok(out2, umbrellas)) by {
            assert forall|i: int| #![trigger out2[i]] 0 <= i < out2.len() implies match out2[i].1 {
                Some(p) => umbrellas.contains(p) || exists|j: int| 0 <= j < i && out2[j].0 == p,
                None => true,
            } by {
                if i < out.len() {
                    assert(out2[i] == out[i]);
                    match out[i].1 {
                        Some(p) => {
                            if !umbrellas.contains(p) {
                                let j = choose|j: int| 0 <= j < i && out[j].0 == p;
                                assert(out2[j] == out[j]);
                            }
                        },
                        None => {},
                    }
                } else {
                    match planned_parent(nodes, pm, n) {
                        Some(p) => {
                            if !umbrellas.contains(p) {
                                let j = choose|j: int| 0 <= j < out.len() && out[j].0 == p;
                                assert(out2[j] == out[j]);
                            }
                        },
                        None => {},
                    }
                }
            }
        }
        assert forall|k: int| 0 <= k < stack2.len() implies parent_placed(planned_parent(nodes, pm, #[trigger] stack2[k]), umbrellas, out2) by {
            if k < stack.len() - 1 {
                assert(stack2[k] == stack[k]);
                assert(parent_placed(planned_parent(nodes, pm, stack[k]), umbrellas, out));
                match planned_parent(nodes, pm, stack[k]) {
                    Some(p) => {
                        if !umbrellas.contains(p) {
                            let j = choose|j: int| 0 <= j < out.len() && out[j].0 == p;
                            assert(out2[j] == out[j]);
                        }
                    },
                    None => {},
                }
            } else {
                let q = k - (stack.len() - 1);
                assert(stack2[k] == kids.reverse()[q]);
                assert(kids.reverse()[q] == kids[kids.len() - 1 - q]);
                assert(f(kids[kids.len() - 1 - q]));
                assert(out2[out.len() as int].0 == n);
            }
        }
        lemma_emit_parents(nodes, pm, names, umbrellas, stack2, out2, (fuel - 1) as nat);
    }
}

/// The import plan lists every concept after its parent: each planned
/// concept's parent is nothing (it goes directly under the import target) or
/// a concept planned before it, so adding them in order always finds the
/// parent already in place.
pub proof fn lemma_projection_parents_first(nodes: Seq<NodeView>, edges: Seq<EdgeView>, min_docs: nat)
    ensures
        parents_first(projection_spec(nodes, edges, min_docs).0),
{
    let pm = break_cycles(resolve_parents(nodes, edges, min_docs).0).0;
    let names = sort_names(endpoints(pm));
    let cats = root_categories(nodes, pm, names);
    let umbrellas = sort_names(cats);
    let roots = roots_in(nodes, pm, names);
    let g = |n: Seq<char>| match planned_parent(nodes, pm, n) {
        Some(p) => !names.contains(p),
        None => true,
    };
    crate::model::project::lemma_filter_in(names, g);
    let stack = roots.reverse();
    assert forall|k: int| 0 <= k < stack.len() implies parent_placed(planned_parent(nodes, pm, #[trigger] stack[k]), umbrellas, Seq::<PlannedView>::empty()) by {
        let x = stack[k];
        assert(x == roots[roots.len() - 1 - k]);
        assert(names.contains(x) && g(x));
        match planned_parent(nodes, pm, x) {
            Some(p) => {
                let e = entry_pos(pm, x);
                crate::seqs::lemma_first_pos(edge_children(pm), x);
                if e >= 0 {
                    lemma_endpoints_contains(pm, e);
                    lemma_sort_names_contains(endpoints(pm), p);
                } else {
                    let i = choose|i: int| 0 <= i < names.len() && names[i] == x;
                    lemma_root_categories_contains(nodes, pm, names, i);
                    lemma_sort_names_contains(cats, p);
                }
            },
            None => {},
        }
    }
    lemma_emit_parents(nodes, pm, names, umbrellas, stack, Seq::empty(), names.len());
    let e = emit(nodes, pm, names, stack, Seq::empty(), names.len());
    let us = umbrellas.map_values(|u: Seq<char>| (u, None::<Seq<char>>, 0nat, true));
    let c = us + e;
    assert(c == projection_spec(nodes, edges, min_docs).0);
    assert forall|i: int| #![trigger c[i]] 0 <= i < c.len() implies match c[i].1 {
        Some(p) => exists|j: int| 0 <= j < i && c[j].0 == p,
        None => true,
    } by {
        if i >= us.len() {
            let k = i - us.len();
            assert(c[i] == e[k]);
            match e[k].1 {
                Some(p) => {
                    if umbrellas.contains(p) {
                        let j = choose|j: int| 0 <= j < umbrellas.len() && umbrellas[j] == p;
                        assert(c[j] == us[j]);
                    } else {
                        let j = choose|j: int| 0 <= j < k && e[j].0 == p;
                        assert(c[us.len() + j] == e[j]);
                    }
                },
                None => {},
            }
        }
    }
}

// --- Imported concepts land inside the target ---------------------------------------

/// A concept is in its own subtree.
proof fn lemma_in_own_subtree(cs: Seq<Concept>, t: ConceptId)
    ensures
        in_subtree(cs, t, t),
{
    let p = seq![t];
    assert(link_path(child_rel(cs), is_id(t), p));
    assert(p.last() == t);
}

/// Appending a concept keeps every subtree member a member.
proof fn lemma_subtree_push(cs: Seq<Concept>, c: Concept, t: ConceptId, x: ConceptId)
    requires
        in_subtree(cs, t, x),
    ensures
        in_subtree(cs.push(c), t, x),
{
    let cs2 = cs.push(c);
    let p = choose|p: Seq<ConceptId>| #[trigger] link_path(child_rel(cs), is_id(t), p) && p.last() == x;
    assert forall|i: int| 0 <= i < p.len() - 1 implies #[trigger] child_rel(cs2)(p[i], p[i + 1]) by {
        assert(child_rel(cs)(p[i], p[i + 1]));
        assert(child_link(cs, p[i], p[i + 1]));
        let j = choose|j: int| 0 <= j < cs.len() && cs[j].id == p[i + 1] && #[trigger] cs[j].parent == Some(p[i]);
        assert(cs2[j] == cs[j]);
        assert(child_link(cs2, p[i], p[i + 1]));
    }
    assert(link_path(child_rel(cs2), is_id(t), p));
}

/// While merging without re-parenting, every recorded concept and every
/// added concept lies in the subtree of `target`.
pub open spec fn inside_inv(base: nat, target: ConceptId, st: MergeState) -> bool {
    &&& st.0.len() >= base
    &&& forall|i: int| 0 <= i < st.2.len() ==> in_subtree(st.0, target, (#[trigger] st.2[i]).1)
    &&& forall|k: int| base <= k < st.0.len() ==> in_subtree(st.0, target, (#[trigger] st.0[k]).id)
}

proof fn lemma_merge_all_inside(base: nat, target: ConceptId, st: MergeState, pcs: Seq<PlannedConcept>)
    requires
        inside_inv(base, target, st),
    ensures
        inside_inv(base, target, merge_all(target, false, st, pcs)),
    decreases pcs.len(),
{
    if pcs.len() == 0 {
        assert(merge_all(target, false, st, pcs) == st);
        return;
    }
    assert(merge_all(target, false, st, pcs) == merge_step(target, false, merge_all(target, false, st, pcs.drop_last()), pcs.last()));
    lemma_merge_all_inside(base, target, st, pcs.drop_last());
    let mid = merge_all(target, false, st, pcs.drop_last());
    let pc = pcs.last();
    let (cs, next, by, descs, rep) = mid;
    match lookup_name(by, pc.name@) {
        Some(existing) => {
            let after = merge_step(target, false, mid, pc);
            assert(after.0 == cs && after.2 == by);
        },
        None => {
            let parent_id = match pc.parent {
                Some(p) => match lookup_name(by, p@) {
                    Some(id) => id,
                    None => target,
                },
                None => target,
            };
            let id = ConceptId(next as u64);
            let c = Concept { id, name: pc.name, description: None, parent: Some(parent_id) };
            let cs2 = cs.push(c);
            let by2 = by.push((pc.name@, id));
            let after = merge_step(target, false, mid, pc);
            assert(after.0 == cs2 && after.2 == by2);
            assert(in_subtree(cs, target, parent_id)) by {
                if parent_id == target {
                    lemma_in_own_subtree(cs, target);
                } else {
                    let p = pc.parent->0;
                    let names = by.map_values(|e: (Seq<char>, ConceptId)| e.0);
                    lemma_last_pos(names, p@);
                    let k = last_pos(names, p@);
                    assert(by[k].1 == parent_id);
                }
            }
            lemma_subtree_push(cs, c, target, parent_id);
            assert(child_link(cs2, parent_id, id)) by {
                let j = cs.len() as int;
                assert(cs2[j] == c);
                assert(cs2[j].id == id);
                assert(cs2[j].parent == Some(parent_id));
                assert(0 <= j < cs2.len());
            }
            assert(child_rel(cs2)(parent_id, id));
            crate::cli::concept::lemma_extend_path(child_rel(cs2), is_id(target), parent_id, id);
            assert forall|i: int| 0 <= i < by2.len() implies in_subtree(cs2, target, (#[trigger] by2[i]).1) by {
                if i < by.len() {
                    assert(by2[i] == by[i]);
                    lemma_subtree_push(cs, c, target, by[i].1);
                }
            }
            assert forall|k: int| base <= k < cs2.len() implies in_subtree(cs2, target, (#[trigger] cs2[k]).id) by {
                if k < cs.len() {
                    assert(cs2[k] == cs[k]);
                    lemma_subtree_push(cs, c, target, cs[k].id);
                }
            }
        },
    }
}

/// Importing without re-parenting puts every added concept inside the
/// target's subtree: each hangs under the target, under a concept of its
/// subtree, or under a concept added before it.
pub proof fn lemma_import_adds_inside(cs: Seq<Concept>, next: nat, target: ConceptId, pcs: Seq<PlannedConcept>)
    requires
        cids(cs).no_duplicates(),
    ensures
        ({
            let fs = merge_spec(cs, next, target, pcs, false).0;
            forall|k: int| cs.len() <= k < fs.len() ==> in_subtree(fs, target, (#[trigger] fs[k]).id)
        }),
{
    let by = subtree_walk(cs, seq![target], Seq::empty(), (cs.len() + 1) as nat);
    lemma_in_own_subtree(cs, target);
    assert forall|i: int| 0 <= i < seq![target].len() implies in_subtree(cs, target, #[trigger] seq![target][i]) by {}
    lemma_walk_entries(cs, target, seq![target], Seq::empty(), (cs.len() + 1) as nat);
    assert forall|i: int| 0 <= i < by.len() implies in_subtree(cs, target, (#[trigger] by[i]).1) by {
        assert(below(cs, target, by[i].1));
        let p = choose|p: Seq<ConceptId>| #[trigger] link_path(child_rel(cs), is_id(target), p) && p.len() >= 2 && p.last() == by[i].1;
        assert(reachable(child_rel(cs), is_id(target), by[i].1));
    }
    let st0: MergeState = (cs, next, by, Seq::empty(), (Seq::empty(), Seq::empty(), Seq::empty(), Seq::empty()));
    assert(inside_inv(cs.len(), target, st0));
    lemma_merge_all_inside(cs.len(), target, st0, pcs);
}

/// With unique identifiers, a child link names the child's parent.
proof fn lemma_link_parent(cs: Seq<Concept>, y: ConceptId, x: ConceptId)
    requires
        cids(cs).no_duplicates(),
        child_link(cs, y, x),
    ensures
        parent_of(cs, x) == Some(y),
        has_concept(cs, x),
{
    let j = choose|j: int| 0 <= j < cs.len() && cs[j].id == x && #[trigger] cs[j].parent == Some(y);
    lemma_concept_pos(cs, x);
    let q = concept_pos(cs, x);
    assert(cids(cs)[j] == x);
    assert(q >= 0);
    if q != j {
        assert(cids(cs)[q] == cids(cs)[j]);
    }
}

/// Walking up from the end of a child-link path retraces the path.
proof fn lemma_path_up(cs: Seq<Concept>, p: Seq<ConceptId>, m: nat)
    requires
        cids(cs).no_duplicates(),
        p.len() >= 1,
        forall|i: int| 0 <= i < p.len() - 1 ==> #[trigger] child_rel(cs)(p[i], p[i + 1]),
        m < p.len(),
    ensures
        crate::graph::tree::ancestor_at(cs, p.last(), m) == Some(p[p.len() - 1 - m]),
    decreases m,
{
    if m > 0 {
        lemma_path_up(cs, p, (m - 1) as nat);
        let i = p.len() - 1 - m;
        assert(child_rel(cs)(p[i], p[i + 1]));
        lemma_link_parent(cs, p[i], p[i + 1]);
    }
}

/// In a valid forest with unique identifiers, the start of a child-link path
/// of two or more concepts is an ancestor of its end.
proof fn lemma_path_is_ancestor(cs: Seq<Concept>, p: Seq<ConceptId>)
    requires
        tree_valid(cs),
        cids(cs).no_duplicates(),
        p.len() >= 2,
        forall|i: int| 0 <= i < p.len() - 1 ==> #[trigger] child_rel(cs)(p[i], p[i + 1]),
    ensures
        is_ancestor_spec(cs, p[0], p.last()),
{
    let k = (p.len() - 1) as nat;
    lemma_path_up(cs, p, k);
    let i = p.len() - 2;
    assert(child_rel(cs)(p[i], p[i + 1]));
    lemma_link_parent(cs, p[i], p[i + 1]);
    let d = p.last();
    lemma_concept_pos(cs, d);
    assert(tree_node_ok(cs, cs[concept_pos(cs, d)]));
    assert(!crate::graph::tree::walk_cycles(cs, d));
    assert forall|m: nat| m < k implies !crate::graph::tree::repeats_at(cs, d, m) by {}
    assert(crate::graph::tree::ancestor_at(cs, d, k) == Some(p[0]));
}

/// The concepts after moving `e` under `pid`.
pub open spec fn moved(cs: Seq<Concept>, e: ConceptId, pid: ConceptId) -> Seq<Concept> {
    let k = concept_pos(cs, e);
    cs.update(k, Concept { parent: Some(pid), ..cs[k] })
}

/// A child link into any concept other than the moved one survives the move.
proof fn lemma_link_survives(cs: Seq<Concept>, e: ConceptId, pid: ConceptId, y: ConceptId, z: ConceptId)
    requires
        has_concept(cs, e),
        child_link(cs, y, z),
        z != e,
    ensures
        child_link(moved(cs, e, pid), y, z),
{
    let j = choose|j: int| 0 <= j < cs.len() && cs[j].id == z && #[trigger] cs[j].parent == Some(y);
    lemma_concept_pos(cs, e);
    let q = concept_pos(cs, e);
    assert(cs[q].id == e);
    assert(j != q);
    assert(moved(cs, e, pid)[j] == cs[j]);
}

/// A path from `t` that never enters `e` after its start survives the move.
proof fn lemma_path_survives(cs: Seq<Concept>, e: ConceptId, pid: ConceptId, t: ConceptId, p: Seq<ConceptId>)
    requires
        has_concept(cs, e),
        link_path(child_rel(cs), is_id(t), p),
        forall|i: int| 1 <= i < p.len() ==> p[i] != e,
    ensures
        link_path(child_rel(moved(cs, e, pid)), is_id(t), p),
{
    assert forall|i: int| 0 <= i < p.len() - 1 implies #[trigger] child_rel(moved(cs, e, pid))(p[i], p[i + 1]) by {
        assert(child_rel(cs)(p[i], p[i + 1]));
        assert(p[i + 1] != e);
        lemma_link_survives(cs, e, pid, p[i], p[i + 1]);
    }
}

/// Moving a concept `e` of the subtree of `t` under a concept `pid` of that
/// subtree that is not below `e` keeps every member of the subtree a member.
proof fn lemma_move_keeps_subtree(cs: Seq<Concept>, e: ConceptId, pid: ConceptId, t: ConceptId, x: ConceptId)
    requires
        tree_valid(cs),
        cids(cs).no_duplicates(),
        has_concept(cs, e),
        has_concept(cs, pid),
        pid != e,
        !is_ancestor_spec(cs, e, pid),
        in_subtree(cs, t, pid),
        in_subtree(cs, t, x),
    ensures
        in_subtree(moved(cs, e, pid), t, x),
{
    let ms = moved(cs, e, pid);
    let p = choose|p: Seq<ConceptId>| #[trigger] link_path(child_rel(cs), is_id(t), p) && p.last() == x;
    let pp = choose|p: Seq<ConceptId>| #[trigger] link_path(child_rel(cs), is_id(t), p) && p.last() == pid;
    // The path to `pid` never meets `e`: from there it would lead on to `pid`.
    assert forall|i: int| 0 <= i < pp.len() implies pp[i] != e by {
        if pp[i] == e {
            let sfx = pp.subrange(i, pp.len() as int);
            assert(sfx.len() >= 2) by {
                if sfx.len() == 1 {
                    assert(sfx[0] == pid);
                }
            }
            assert forall|j: int| 0 <= j < sfx.len() - 1 implies #[trigger] child_rel(cs)(sfx[j], sfx[j + 1]) by {
                assert(sfx[j] == pp[i + j] && sfx[j + 1] == pp[i + j + 1]);
            }
            lemma_path_is_ancestor(cs, sfx);
            assert(sfx[0] == e && sfx.last() == pid);
        }
    }
    lemma_path_survives(cs, e, pid, t, pp);
    lemma_last_pos(p, e);
    let l = last_pos(p, e);
    if l < 1 {
        assert forall|i: int| 1 <= i < p.len() implies p[i] != e by {}
        lemma_path_survives(cs, e, pid, t, p);
    } else {
        let tail = p.subrange(l + 1, p.len() as int);
        let np = pp.push(e) + tail;
        lemma_concept_pos(cs, e);
        let q = concept_pos(cs, e);
        assert(ms[q].id == e && ms[q].parent == Some(pid));
        assert(child_link(ms, pid, e));
        assert forall|j: int| 0 <= j < np.len() - 1 implies #[trigger] child_rel(ms)(np[j], np[j + 1]) by {
            if j < pp.len() - 1 {
                assert(np[j] == pp[j] && np[j + 1] == pp[j + 1]);
                assert(child_rel(ms)(pp[j], pp[j + 1]));
            } else if j == pp.len() - 1 {
                assert(np[j] == pid && np[j + 1] == e);
            } else {
                let a = l + (j - pp.len());
                assert(np[j] == p[a] && np[j + 1] == p[a + 1]);
                assert(child_rel(cs)(p[a], p[a + 1]));
                assert(p[a + 1] != e);
                lemma_link_survives(cs, e, pid, p[a], p[a + 1]);
            }
        }
        assert(np[0] == pp[0]);
        assert(link_path(child_rel(ms), is_id(t), np));
        assert(np.last() == x);
    }
}

proof fn lemma_merge_all_inside_any(
    base: nat,
    next: nat,
    target: ConceptId,
    reparent: bool,
    st: MergeState,
    pcs: Seq<PlannedConcept>,
)
    requires
        inside_inv(base, target, st),
        tree_inv(next, target, st, 0),
        cids(st.0).no_duplicates(),
        next + pcs.len() <= u64::MAX,
    ensures
        inside_inv(base, target, merge_all(target, reparent, st, pcs)),
        cids(merge_all(target, reparent, st, pcs).0).no_duplicates(),
    decreases pcs.len(),
{
    if pcs.len() == 0 {
        assert(merge_all(target, reparent, st, pcs) == st);
        return;
    }
    assert(merge_all(target, reparent, st, pcs) == merge_step(target, reparent, merge_all(target, reparent, st, pcs.drop_last()), pcs.last()));
    lemma_merge_all_inside_any(base, next, target, reparent, st, pcs.drop_last());
    lemma_merge_all_tree(next, target, reparent, st, pcs.drop_last());
    let mid = merge_all(target, reparent, st, pcs.drop_last());
    let pc = pcs.last();
    let (cs, nx, by, descs, rep) = mid;
    let parent_id = match pc.parent {
        Some(p) => match lookup_name(by, p@) {
            Some(id) => id,
            None => target,
        },
        None => target,
    };
    assert(in_subtree(cs, target, parent_id)) by {
        if parent_id == target {
            lemma_in_own_subtree(cs, target);
        } else {
            let p = pc.parent->0;
            let names = by.map_values(|e: (Seq<char>, ConceptId)| e.0);
            lemma_last_pos(names, p@);
            let k = last_pos(names, p@);
            assert(by[k].1 == parent_id);
        }
    }
    let after = merge_step(target, reparent, mid, pc);
    match lookup_name(by, pc.name@) {
        Some(existing) => {
            let actual = match parent_of(cs, existing) {
                Some(a) => a,
                None => target,
            };
            let can_move = has_concept(cs, existing) && has_concept(cs, parent_id) && parent_id != existing
                && !is_ancestor_spec(cs, existing, parent_id);
            if actual != parent_id && reparent && can_move {
                let ms = moved(cs, existing, parent_id);
                assert(after.0 == ms && after.2 == by);
                assert(cids(ms) =~= cids(cs)) by {
                    lemma_concept_pos(cs, existing);
                }
                assert forall|i: int| 0 <= i < by.len() implies in_subtree(ms, target, (#[trigger] by[i]).1) by {
                    lemma_move_keeps_subtree(cs, existing, parent_id, target, by[i].1);
                }
                assert forall|k: int| base <= k < ms.len() implies in_subtree(ms, target, (#[trigger] ms[k]).id) by {
                    lemma_concept_pos(cs, existing);
                    let q = concept_pos(cs, existing);
                    if k == q {
                        assert(ms[k] == Concept { parent: Some(parent_id), ..cs[q] });
                    } else {
                        assert(ms[k] == cs[k]);
                    }
                    assert(ms[k].id == cs[k].id);
                    lemma_move_keeps_subtree(cs, existing, parent_id, target, cs[k].id);
                }
            } else {
                assert(after.0 == cs && after.2 == by);
            }
        },
        None => {
            let id = ConceptId(nx as u64);
            let c = Concept { id, name: pc.name, description: None, parent: Some(parent_id) };
            let cs2 = cs.push(c);
            let by2 = by.push((pc.name@, id));
            assert(after.0 == cs2 && after.2 == by2);
            assert(!cids(cs).contains(id)) by {
                if cids(cs).contains(id) {
                    let j = choose|j: int| 0 <= j < cids(cs).len() && cids(cs)[j] == id;
                    assert(cs[j].id.0 < nx);
                }
            }
            assert(cids(cs2) =~= cids(cs).push(id));
            assert(cids(cs2).no_duplicates()) by {
                assert forall|a: int, b: int| 0 <= a < cids(cs2).len() && 0 <= b < cids(cs2).len() && a != b implies cids(cs2)[a] != cids(cs2)[b] by {
                    if a == cs.len() as int {
                        assert(cids(cs).contains(cids(cs2)[b]) || b == a);
                    } else if b == cs.len() as int {
                        assert(cids(cs).contains(cids(cs2)[a]));
                    }
                }
            }
            lemma_subtree_push(cs, c, target, parent_id);
            assert(child_link(cs2, parent_id, id)) by {
                let j = cs.len() as int;
                assert(cs2[j] == c);
                assert(cs2[j].id == id);
                assert(cs2[j].parent == Some(parent_id));
            }
            assert(child_rel(cs2)(parent_id, id));
            crate::cli::concept::lemma_extend_path(child_rel(cs2), is_id(target), parent_id, id);
            assert forall|i: int| 0 <= i < by2.len() implies in_subtree(cs2, target, (#[trigger] by2[i]).1) by {
                if i < by.len() {
                    assert(by2[i] == by[i]);
                    lemma_subtree_push(cs, c, target, by[i].1);
                }
            }
            assert forall|k: int| base <= k < cs2.len() implies in_subtree(cs2, target, (#[trigger] cs2[k]).id) by {
                if k < cs.len() {
                    assert(cs2[k] == cs[k]);
                    lemma_subtree_push(cs, c, target, cs[k].id);
                }
            }
        },
    }
}

/// Importing puts every added concept inside the target's subtree, also
/// when re-parenting: on a valid forest with unique identifiers below
/// `next`, moves stay inside the subtree and additions hang under it.
pub proof fn lemma_reparenting_import_adds_inside(
    cs: Seq<Concept>,
    next: nat,
    target: ConceptId,
    pcs: Seq<PlannedConcept>,
    reparent: bool,
)
    requires
        tree_valid(cs),
        cids(cs).no_duplicates(),
        forall|k: int| 0 <= k < cs.len() ==> (#[trigger] cs[k]).id.0 < next,
        next + pcs.len() <= u64::MAX,
        cids(cs).contains(target),
    ensures
        ({
            let fs = merge_spec(cs, next, target, pcs, reparent).0;
            forall|k: int| cs.len() <= k < fs.len() ==> in_subtree(fs, target, (#[trigger] fs[k]).id)
        }),
{
    let by = subtree_walk(cs, seq![target], Seq::empty(), (cs.len() + 1) as nat);
    lemma_walk_ids(cs, seq![target], Seq::empty(), (cs.len() + 1) as nat);
    lemma_in_own_subtree(cs, target);
    assert forall|i: int| 0 <= i < seq![target].len() implies in_subtree(cs, target, #[trigger] seq![target][i]) by {}
    lemma_walk_entries(cs, target, seq![target], Seq::empty(), (cs.len() + 1) as nat);
    assert forall|i: int| 0 <= i < by.len() implies in_subtree(cs, target, (#[trigger] by[i]).1) by {
        assert(below(cs, target, by[i].1));
        let p = choose|p: Seq<ConceptId>| #[trigger] link_path(child_rel(cs), is_id(target), p) && p.len() >= 2 && p.last() == by[i].1;
        assert(reachable(child_rel(cs), is_id(target), by[i].1));
    }
    let st0: MergeState = (cs, next, by, Seq::empty(), (Seq::empty(), Seq::empty(), Seq::empty(), Seq::empty()));
    assert(inside_inv(cs.len(), target, st0));
    assert(tree_inv(next, target, st0, 0));
    lemma_merge_all_inside_any(cs.len(), next, target, reparent, st0, pcs);
}

// --- Pruning by --min-docs ------------------------------------------------------------

/// Both ends of every edge of `pm` are seen in enough documents.
pub open spec fn edges_eligible(nodes: Seq<NodeView>, min_docs: nat, pm: Seq<EdgeView>) -> bool {
    forall|k: int| 0 <= k < pm.len() ==> eligible(nodes, min_docs, (#[trigger] pm[k]).0) && eligible(nodes, min_docs, pm[k].1)
}

proof fn lemma_resolve_eligible(nodes: Seq<NodeView>, edges: Seq<EdgeView>, min_docs: nat)
    ensures
        edges_eligible(nodes, min_docs, resolve_parents(nodes, edges, min_docs).0),
    decreases edges.len(),
{
    if edges.len() > 0 {
        lemma_resolve_eligible(nodes, edges.drop_last(), min_docs);
        assert(resolve_parents(nodes, edges, min_docs) == resolve_step(
            nodes,
            min_docs,
            resolve_parents(nodes, edges.drop_last(), min_docs),
            edges.last(),
        ));
        let prev = resolve_parents(nodes, edges.drop_last(), min_docs);
        let best = prev.0;
        let e = edges.last();
        let nb = resolve_parents(nodes, edges, min_docs).0;
        let (c, p, w) = e;
        if c == p || !eligible(nodes, min_docs, c) || !eligible(nodes, min_docs, p) {
            assert(nb == best);
        } else {
            let k = entry_pos(best, c);
            lemma_first_pos(edge_children(best), c);
            assert(edge_children(best).len() == best.len());
            if k < 0 {
                assert(nb == best.push(e));
                assert forall|j: int| 0 <= j < nb.len() implies eligible(nodes, min_docs, (#[trigger] nb[j]).0) && eligible(nodes, min_docs, nb[j].1) by {
                    if j < best.len() {
                        assert(nb[j] == best[j]);
                    }
                }
            } else {
                let cp = best[k].1;
                let cw = best[k].2;
                if cw > w || (cw == w && !name_lt(p, cp)) {
                    assert(nb == best);
                } else {
                    assert(nb == best.update(k, e));
                    assert forall|j: int| 0 <= j < nb.len() implies eligible(nodes, min_docs, (#[trigger] nb[j]).0) && eligible(nodes, min_docs, nb[j].1) by {
                        if j != k {
                            assert(nb[j] == best[j]);
                        }
                    }
                }
            }
        }
    }
}

/// Every edge left by cycle breaking was an edge before.
proof fn lemma_break_subset(pm: Seq<EdgeView>, starts: Seq<Seq<char>>)
    ensures
        forall|k: int| 0 <= k < break_walks(pm, starts).0.len() ==> pm.contains(#[trigger] break_walks(pm, starts).0[k]),
    decreases starts.len(),
{
    if starts.len() == 0 {
        assert(break_walks(pm, starts).0 == pm);
        assert forall|k: int| 0 <= k < pm.len() implies pm.contains(#[trigger] pm[k]) by {}
    } else {
        lemma_break_subset(pm, starts.drop_last());
        let prev = break_walks(pm, starts.drop_last());
        assert(break_walks(pm, starts) == break_step((pm.len() + 2) as nat, prev, starts.last()));
        let now = break_walks(pm, starts).0;
        assert forall|k: int| 0 <= k < now.len() implies pm.contains(#[trigger] now[k]) by {
            let (q, done, dropped) = prev;
            if !done.contains(starts.last()) {
                let (path, victim) = walk(q, done, Seq::empty(), starts.last(), (pm.len() + 2) as nat);
                lemma_walk_victim(q, done, Seq::empty(), starts.last(), (pm.len() + 2) as nat);
                match victim {
                    Some(v) => {
                        let r = entry_pos(q, v);
                        lemma_first_pos(edge_children(q), v);
                        assert(r >= 0);
                        if 0 <= r < q.len() {
                            if k < r {
                                assert(now[k] == q[k]);
                            } else {
                                assert(now[k] == q[k + 1]);
                            }
                        }
                    },
                    None => {},
                }
            }
        }
    }
}

/// A name among the endpoints is an end of some edge.
proof fn lemma_endpoints_from(pm: Seq<EdgeView>, x: Seq<char>)
    requires
        endpoints(pm).contains(x),
    ensures
        exists|k: int| 0 <= k < pm.len() && ((#[trigger] pm[k]).0 == x || pm[k].1 == x),
    decreases pm.len(),
{
    let d = endpoints(pm.drop_last());
    let e = endpoints(pm);
    let m = choose|m: int| 0 <= m < e.len() && e[m] == x;
    if m < d.len() {
        assert(d[m] == x);
        lemma_endpoints_from(pm.drop_last(), x);
        let k = choose|k: int| 0 <= k < pm.drop_last().len() && ((#[trigger] pm.drop_last()[k]).0 == x || pm.drop_last()[k].1 == x);
        assert(pm[k] == pm.drop_last()[k]);
    } else {
        assert(pm[pm.len() - 1] == pm.last());
    }
}

/// The depth-first emission emits only names among `names`, as planned
/// concepts that are not umbrellas.
proof fn lemma_emit_names(
    nodes: Seq<NodeView>,
    pm: Seq<EdgeView>,
    names: Seq<Seq<char>>,
    stack: Seq<Seq<char>>,
    out: Seq<PlannedView>,
    fuel: nat,
)
    requires
        forall|k: int| 0 <= k < stack.len() ==> names.contains(#[trigger] stack[k]),
        forall|k: int| 0 <= k < out.len() ==> names.contains((#[trigger] out[k]).0) && out[k] == planned_of(nodes, pm, out[k].0),
    ensures
        forall|k: int| 0 <= k < emit(nodes, pm, names, stack, out, fuel).len() ==> names.contains(
            (#[trigger] emit(nodes, pm, names, stack, out, fuel)[k]).0,
        ) && emit(nodes, pm, names, stack, out, fuel)[k] == planned_of(nodes, pm, emit(nodes, pm, names, stack, out, fuel)[k].0),
    decreases fuel,
{
    if fuel > 0 && stack.len() > 0 {
        let n = stack.last();
        let kids = children_in(nodes, pm, names, n);
        crate::model::project::lemma_filter_in(names, |m: Seq<char>| planned_parent(nodes, pm, m) == Some(n));
        let ns = stack.drop_last() + kids.reverse();
        let no = out.push(planned_of(nodes, pm, n));
        assert(names.contains(stack[stack.len() - 1]));
        assert forall|k: int| 0 <= k < ns.len() implies names.contains(#[trigger] ns[k]) by {
            if k < stack.len() - 1 {
                assert(ns[k] == stack[k]);
            } else {
                let j = k - (stack.len() - 1);
                assert(ns[k] == kids[kids.len() - 1 - j]);
            }
        }
        assert forall|k: int| 0 <= k < no.len() implies names.contains((#[trigger] no[k]).0) && no[k] == planned_of(nodes, pm, no[k].0) by {
            if k < out.len() {
                assert(no[k] == out[k]);
            }
        }
        lemma_emit_names(nodes, pm, names, ns, no, (fuel - 1) as nat);
        assert(emit(nodes, pm, names, stack, out, fuel) == emit(nodes, pm, names, ns, no, (fuel - 1) as nat));
    } else {
        assert(emit(nodes, pm, names, stack, out, fuel) == out);
    }
}

/// `--min-docs` prunes: when it is above one, every planned concept that is
/// not a category umbrella is a node seen in at least that many documents,
/// and records that count.
pub proof fn lemma_projection_respects_min_docs(nodes: Seq<NodeView>, edges: Seq<EdgeView>, min_docs: nat)
    requires
        min_docs > 1,
    ensures
        forall|i: int|
            0 <= i < projection_spec(nodes, edges, min_docs).0.len() && !(#[trigger] projection_spec(nodes, edges, min_docs).0[i]).3
                ==> node_info(nodes, projection_spec(nodes, edges, min_docs).0[i].0).0 >= min_docs
                && projection_spec(nodes, edges, min_docs).0[i].2 >= min_docs,
{
    let best = resolve_parents(nodes, edges, min_docs).0;
    lemma_resolve_eligible(nodes, edges, min_docs);
    let pm = break_cycles(best).0;
    lemma_break_subset(best, sort_names(edge_children(best)));
    let names = sort_names(endpoints(pm));
    let umbrellas = sort_names(root_categories(nodes, pm, names));
    let roots = roots_in(nodes, pm, names);
    crate::model::project::lemma_filter_in(names, |n: Seq<char>| match planned_parent(nodes, pm, n) {
        Some(p) => !names.contains(p),
        None => true,
    });
    let st = roots.reverse();
    assert forall|k: int| 0 <= k < st.len() implies names.contains(#[trigger] st[k]) by {
        assert(st[k] == roots[roots.len() - 1 - k]);
    }
    lemma_emit_names(nodes, pm, names, st, Seq::empty(), names.len());
    let em = emit(nodes, pm, names, st, Seq::empty(), names.len());
    let um = umbrellas.map_values(|u: Seq<char>| (u, None::<Seq<char>>, 0nat, true));
    let all = projection_spec(nodes, edges, min_docs).0;
    assert(all == um + em);
    assert forall|i: int| 0 <= i < all.len() && !(#[trigger] all[i]).3 implies node_info(nodes, all[i].0).0 >= min_docs
        && all[i].2 >= min_docs by {
        if i < um.len() {
            assert(all[i] == um[i]);
        } else {
            let j = i - um.len();
            assert(all[i] == em[j]);
            let x = em[j].0;
            assert(names.contains(x));
            lemma_sort_names_contains(endpoints(pm), x);
            lemma_endpoints_from(pm, x);
            let k = choose|k: int| 0 <= k < pm.len() && ((#[trigger] pm[k]).0 == x || pm[k].1 == x);
            assert(best.contains(pm[k]));
            let b = choose|b: int| 0 <= b < best.len() && best[b] == pm[k];
            assert(eligible(nodes, min_docs, best[b].0) && eligible(nodes, min_docs, best[b].1));
            assert(em[j] == planned_of(nodes, pm, x));
        }
    }
}

} // verus!
