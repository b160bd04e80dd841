//! The text of concept listings and of the detail views of concepts and
//! tasks: references print as `name {id}`, with `???` for a name that cannot
//! be found.
use vstd::prelude::*;

use crate::model::concept::Concept;
use crate::model::id::{id_text, push_concept_id, push_task_id, ConceptId, TaskId};
use crate::model::project::{children_spec, lookup_concept, task_pos, tasks_linked_to, Project};
use crate::cli::state_filter::StateFilter;
use crate::model::task::{state_text, Task};
use crate::text::{chars_of, join, push_range, push_str, string_from};
use crate::cli::render::{avail_spec, indent_lines, wrap_block, wrap_words_spec};

verus! {

/// The characters of each string.
pub open spec fn texts_of(v: Seq<String>) -> Seq<Seq<char>> {
    v.map_values(|s: String| s@)
}

/// `parts` joined by `sep`.
pub fn join_strings(parts: &Vec<String>, sep: &str) -> (r: String)
    ensures
        r@ == join(texts_of(parts@), sep@),
{
    let mut v: Vec<char> = Vec::new();
    let mut i: usize = 0;
    while i < parts.len()
        invariant
            i <= parts@.len(),
            v@ == join(texts_of(parts@).take(i as int), sep@),
        decreases parts@.len() - i,
    {
        let ghost t = texts_of(parts@).take(i + 1);
        assert(t.drop_last() =~= texts_of(parts@).take(i as int));
        assert(t.last() == parts@[i as int]@);
        if i > 0 {
            push_str(&mut v, sep);
        }
        push_str(&mut v, parts[i].as_str());
        proof {
            if i == 0 {
                assert(t.len() == 1);
                assert(v@ =~= t[0]);
            } else {
                assert(v@ =~= join(t.drop_last(), sep@) + sep@ + t.last());
            }
        }
        i += 1;
    }
    assert(texts_of(parts@).take(i as int) =~= texts_of(parts@));
    string_from(v.as_slice())
}

/// How concept `id` is referred to: its name and identifier.
pub open spec fn concept_ref_spec(cs: Seq<Concept>, id: ConceptId) -> Seq<char> {
    (match lookup_concept(cs, id) {
        Some(c) => c.name@,
        None => "???"@,
    }) + " {"@ + id_text('c', id.0) + "}"@
}

/// How task `id` is referred to: its name and identifier.
pub open spec fn task_ref_spec(ts: Seq<Task>, id: TaskId) -> Seq<char> {
    (if task_pos(ts, id) >= 0 {
        ts[task_pos(ts, id)].name@
    } else {
        "???"@
    }) + " {"@ + id_text('t', id.0) + "}"@
}

/// The reference to concept `id`.
pub fn concept_ref(project: &Project, id: ConceptId) -> (r: String)
    ensures
        r@ == concept_ref_spec(project.concepts@, id),
{
    proof {
        reveal_strlit("???");
    }
    let mut v: Vec<char> = Vec::new();
    match project.get_concept(id) {
        Some(c) => push_str(&mut v, c.name.as_str()),
        None => push_str(&mut v, "???"),
    }
    push_str(&mut v, " {");
    push_concept_id(&mut v, id);
    push_str(&mut v, "}");
    string_from(v.as_slice())
}

/// The reference to task `id`.
pub fn task_ref(project: &Project, id: TaskId) -> (r: String)
    ensures
        r@ == task_ref_spec(project.tasks@, id),
{
    let mut v: Vec<char> = Vec::new();
    match project.get_task(id) {
        Some(t) => push_str(&mut v, t.name.as_str()),
        None => push_str(&mut v, "???"),
    }
    push_str(&mut v, " {");
    push_task_id(&mut v, id);
    push_str(&mut v, "}");
    string_from(v.as_slice())
}

/// The parent column of a concept listing: the parent's reference, or `-`
/// for a root.
pub open spec fn parent_cell_spec(cs: Seq<Concept>, c: Concept) -> Seq<char> {
    match c.parent {
        Some(p) => concept_ref_spec(cs, p),
        None => "-"@,
    }
}

/// The rows of the concept listing, in array order: identifier, name, parent.
pub fn concept_rows(project: &Project) -> (r: Vec<Vec<String>>)
    ensures
        r@.len() == project.concepts@.len(),
        forall|k: int| 0 <= k < r@.len() ==> texts_of((#[trigger] r@[k])@) == seq![
            id_text('c', project.concepts@[k].id.0),
            project.concepts@[k].name@,
            parent_cell_spec(project.concepts@, project.concepts@[k]),
        ],
{
    let mut rows: Vec<Vec<String>> = Vec::new();
    let mut k: usize = 0;
    while k < project.concepts.len()
        invariant
            k <= project.concepts@.len(),
            rows@.len() == k,
            forall|j: int| 0 <= j < k ==> texts_of((#[trigger] rows@[j])@) == seq![
                id_text('c', project.concepts@[j].id.0),
                project.concepts@[j].name@,
                parent_cell_spec(project.concepts@, project.concepts@[j]),
            ],
        decreases project.concepts@.len() - k,
    {
        let c = &project.concepts[k];
        let id = c.id.to_string();
        let parent = match c.parent {
            Some(p) => concept_ref(project, p),
            None => {
                let mut v: Vec<char> = Vec::new();
                push_str(&mut v, "-");
                string_from(v.as_slice())
            },
        };
        let mut row: Vec<String> = Vec::new();
        row.push(id);
        row.push(c.name.clone());
        row.push(parent);
        assert(texts_of(row@) =~= seq![
            id_text('c', project.concepts@[k as int].id.0),
            project.concepts@[k as int].name@,
            parent_cell_spec(project.concepts@, project.concepts@[k as int]),
        ]);
        rows.push(row);
        k += 1;
    }
    rows
}

/// A labelled line listing references, joined by commas.
pub open spec fn refs_line(label: Seq<char>, refs: Seq<Seq<char>>) -> Seq<char> {
    label + join(refs, ", "@)
}

/// The reference to a concept held in hand.
pub open spec fn own_ref(name: Seq<char>, id: Seq<char>) -> Seq<char> {
    name + " {"@ + id + "}"@
}

/// The lines describing concept `c`: identifier, name, description when it
/// has one, parent (or `(root)`), children and linked tasks when there are any.
pub open spec fn concept_details_spec(cs: Seq<Concept>, ts: Seq<Task>, c: Concept) -> Seq<Seq<char>> {
    let kids = children_spec(cs, c.id);
    let linked = tasks_linked_to(ts, c.id);
    seq!["ID:          "@ + id_text('c', c.id.0), "Name:        "@ + c.name@] + (match c.description {
        Some(d) => seq!["Description: "@ + d@],
        None => Seq::empty(),
    }) + seq![
        match c.parent {
            Some(p) => "Parent:      "@ + concept_ref_spec(cs, p),
            None => "Parent:      (root)"@,
        },
    ] + (if kids.len() > 0 {
        seq![refs_line("Children:    "@, kids.map_values(|k: Concept| own_ref(k.name@, id_text('c', k.id.0))))]
    } else {
        Seq::empty()
    }) + (if linked.len() > 0 {
        seq![refs_line("Tasks:       "@, linked.map_values(|t: Task| own_ref(t.name@, id_text('t', t.id.0))))]
    } else {
        Seq::empty()
    })
}

/// A string made of `label` and `text`.
fn labelled(label: &str, text: &str) -> (r: String)
    ensures
        r@ == label@ + text@,
{
    let mut v: Vec<char> = Vec::new();
    push_str(&mut v, label);
    push_str(&mut v, text);
    string_from(v.as_slice())
}

/// The reference text `name {id}` of a concept held in hand.
fn own_concept_ref(c: &Concept) -> (r: String)
    ensures
        r@ == own_ref(c.name@, id_text('c', c.id.0)),
{
    let mut v: Vec<char> = Vec::new();
    push_str(&mut v, c.name.as_str());
    push_str(&mut v, " {");
    push_concept_id(&mut v, c.id);
    push_str(&mut v, "}");
    string_from(v.as_slice())
}

/// The reference text `name {id}` of a task held in hand.
fn own_task_ref(t: &Task) -> (r: String)
    ensures
        r@ == own_ref(t.name@, id_text('t', t.id.0)),
{
    let mut v: Vec<char> = Vec::new();
    push_str(&mut v, t.name.as_str());
    push_str(&mut v, " {");
    push_task_id(&mut v, t.id);
    push_str(&mut v, "}");
    string_from(v.as_slice())
}

/// The references `name {id}` of the concepts `ks`.
fn concept_refs(ks: &Vec<&Concept>) -> (r: Vec<String>)
    ensures
        texts_of(r@) == ks@.map_values(|k: &Concept| own_ref(k.name@, id_text('c', k.id.0))),
{
    let mut refs: Vec<String> = Vec::new();
    let mut i: usize = 0;
    while i < ks.len()
        invariant
            i <= ks@.len(),
            texts_of(refs@) == ks@.take(i as int).map_values(|k: &Concept| own_ref(k.name@, id_text('c', k.id.0))),
        decreases ks@.len() - i,
    {
        let ghost before = refs@;
        assert(ks@.take(i + 1) =~= ks@.take(i as int).push(ks@[i as int]));
        let x = own_concept_ref(ks[i]);
        refs.push(x);
        assert(texts_of(refs@) =~= texts_of(before).push(x@));
        assert(ks@.take(i + 1).map_values(|k: &Concept| own_ref(k.name@, id_text('c', k.id.0)))
            =~= ks@.take(i as int).map_values(|k: &Concept| own_ref(k.name@, id_text('c', k.id.0))).push(x@));
        i += 1;
    }
    assert(ks@.take(i as int) =~= ks@);
    refs
}

/// The references `name {id}` of the tasks linked to concept `id`, in order.
fn linked_task_refs(ts: &Vec<Task>, id: ConceptId) -> (r: Vec<String>)
    ensures
        texts_of(r@) == tasks_linked_to(ts@, id).map_values(|t: Task| own_ref(t.name@, id_text('t', t.id.0))),
{
    let mut trefs: Vec<String> = Vec::new();
    let mut j: usize = 0;
    while j < ts.len()
        invariant
            j <= ts@.len(),
            texts_of(trefs@) == tasks_linked_to(ts@.take(j as int), id).map_values(|t: Task| own_ref(t.name@, id_text('t', t.id.0))),
        decreases ts@.len() - j,
    {
        let t = &ts[j];
        assert(ts@.take(j + 1).drop_last() =~= ts@.take(j as int));
        assert(ts@.take(j + 1).last() == *t);
        assert(tasks_linked_to(ts@.take(j + 1), id) == if t.concepts@.contains(id) {
            tasks_linked_to(ts@.take(j as int), id).push(*t)
        } else {
            tasks_linked_to(ts@.take(j as int), id)
        }) by {
            reveal_with_fuel(Seq::filter, 1);
        }
        let ghost before = trefs@;
        let ghost f = |t: Task| own_ref(t.name@, id_text('t', t.id.0));
        if crate::model::project::contains_concept(&t.concepts, id) {
            let x = own_task_ref(t);
            trefs.push(x);
            assert(texts_of(trefs@) =~= texts_of(before).push(x@));
            assert(tasks_linked_to(ts@.take(j as int), id).push(*t).map_values(f)
                =~= tasks_linked_to(ts@.take(j as int), id).map_values(f).push(x@));
        }
        assert(texts_of(trefs@) =~= tasks_linked_to(ts@.take(j + 1), id).map_values(|t: Task| own_ref(t.name@, id_text('t', t.id.0))));
        j += 1;
    }
    assert(ts@.take(j as int) =~= ts@);
    trefs
}

/// The lines describing concept `id`, or `None` when there is no such concept.
pub fn concept_details(project: &Project, id: ConceptId) -> (r: Option<Vec<String>>)
    ensures
        match lookup_concept(project.concepts@, id) {
            Some(c) => r matches Some(v) && texts_of(v@) == concept_details_spec(project.concepts@, project.tasks@, c),
            None => r is None,
        },
{
    proof {
        reveal_strlit("");
        reveal_strlit(", ");
    }
    let c = match project.get_concept(id) {
        Some(c) => c,
        None => return None,
    };
    let ghost cs = project.concepts@;
    let ghost ts = project.tasks@;
    let ghost kspec = children_spec(cs, c.id);
    let ghost lspec = tasks_linked_to(ts, c.id);
    let ghost desc_part: Seq<Seq<char>> = if c.description is Some {
        seq!["Description: "@ + c.description->0@]
    } else {
        Seq::empty()
    };
    let ghost parent_part: Seq<Seq<char>> = seq![
        if c.parent is Some {
            "Parent:      "@ + concept_ref_spec(cs, c.parent->0)
        } else {
            "Parent:      (root)"@
        },
    ];
    let ghost kid_part: Seq<Seq<char>> = if kspec.len() > 0 {
        seq![refs_line("Children:    "@, kspec.map_values(|k: Concept| own_ref(k.name@, id_text('c', k.id.0))))]
    } else {
        Seq::empty()
    };
    let ghost task_part: Seq<Seq<char>> = if lspec.len() > 0 {
        seq![refs_line("Tasks:       "@, lspec.map_values(|t: Task| own_ref(t.name@, id_text('t', t.id.0))))]
    } else {
        Seq::empty()
    };
    let mut lines: Vec<String> = Vec::new();
    let ids = c.id.to_string();
    lines.push(labelled("ID:          ", ids.as_str()));
    lines.push(labelled("Name:        ", c.name.as_str()));
    let ghost head = seq!["ID:          "@ + id_text('c', c.id.0), "Name:        "@ + c.name@];
    assert(texts_of(lines@) =~= head);
    match &c.description {
        Some(d) => lines.push(labelled("Description: ", d.as_str())),
        None => {},
    }
    assert(texts_of(lines@) =~= head + desc_part);
    match c.parent {
        Some(p) => {
            let r = concept_ref(project, p);
            lines.push(labelled("Parent:      ", r.as_str()));
        },
        None => lines.push(labelled("Parent:      (root)", "")),
    }
    assert(texts_of(lines@) =~= head + desc_part + parent_part);
    let kids = project.children_of(c.id);
    assert(kids@.map_values(|k: &Concept| *k) == kspec);
    let refs = concept_refs(&kids);
    assert(texts_of(refs@) =~= kspec.map_values(|k: Concept| own_ref(k.name@, id_text('c', k.id.0)))) by {
        assert(kids@.len() == kspec.len()) by {
            assert(kids@.map_values(|k: &Concept| *k).len() == kids@.len());
        }
        assert forall|i: int| 0 <= i < kids@.len() implies #[trigger] kspec[i] == *kids@[i] by {
            assert(kids@.map_values(|k: &Concept| *k)[i] == *kids@[i]);
        }
    }
    if refs.len() > 0 {
        let joined = join_strings(&refs, ", ");
        lines.push(labelled("Children:    ", joined.as_str()));
    }
    assert(texts_of(lines@) =~= head + desc_part + parent_part + kid_part);
    let trefs = linked_task_refs(&project.tasks, c.id);
    if trefs.len() > 0 {
        let joined = join_strings(&trefs, ", ");
        lines.push(labelled("Tasks:       ", joined.as_str()));
    }
    assert(texts_of(lines@) =~= head + desc_part + parent_part + kid_part + task_part);
    assert(concept_details_spec(cs, ts, *c) =~= head + desc_part + parent_part + kid_part + task_part);
    Some(lines)
}

/// A list of identifiers as a table cell: `-` when there are none, else the
/// identifiers joined by commas.
pub open spec fn ids_cell(texts: Seq<Seq<char>>) -> Seq<char> {
    if texts.len() == 0 {
        "-"@
    } else {
        join(texts, ", "@)
    }
}

/// The display forms of task identifiers.
pub open spec fn task_id_texts(ids: Seq<TaskId>) -> Seq<Seq<char>> {
    ids.map_values(|d: TaskId| id_text('t', d.0))
}

/// The display forms of concept identifiers.
pub open spec fn concept_id_texts(ids: Seq<ConceptId>) -> Seq<Seq<char>> {
    ids.map_values(|d: ConceptId| id_text('c', d.0))
}

/// A one-character string.
fn dash() -> (r: String)
    ensures
        r@ == "-"@,
{
    let mut v: Vec<char> = Vec::new();
    push_str(&mut v, "-");
    string_from(v.as_slice())
}

/// The cell listing task identifiers, verbatim.
pub fn task_ids_cell(ids: &[TaskId]) -> (r: String)
    ensures
        r@ == ids_cell(task_id_texts(ids@)),
{
    if ids.len() == 0 {
        return dash();
    }
    let mut parts: Vec<String> = Vec::new();
    let mut i: usize = 0;
    while i < ids.len()
        invariant
            i <= ids@.len(),
            texts_of(parts@) == task_id_texts(ids@.take(i as int)),
        decreases ids@.len() - i,
    {
        let ghost before = parts@;
        let x = ids[i].to_string();
        parts.push(x);
        assert(texts_of(parts@) =~= texts_of(before).push(x@));
        assert(task_id_texts(ids@.take(i + 1)) =~= task_id_texts(ids@.take(i as int)).push(x@));
        i += 1;
    }
    assert(ids@.take(i as int) =~= ids@);
    join_strings(&parts, ", ")
}

/// The cell listing concept identifiers, verbatim.
pub fn concept_ids_cell(ids: &[ConceptId]) -> (r: String)
    ensures
        r@ == ids_cell(concept_id_texts(ids@)),
{
    if ids.len() == 0 {
        return dash();
    }
    let mut parts: Vec<String> = Vec::new();
    let mut i: usize = 0;
    while i < ids.len()
        invariant
            i <= ids@.len(),
            texts_of(parts@) == concept_id_texts(ids@.take(i as int)),
        decreases ids@.len() - i,
    {
        let ghost before = parts@;
        let x = ids[i].to_string();
        parts.push(x);
        assert(texts_of(parts@) =~= texts_of(before).push(x@));
        assert(concept_id_texts(ids@.take(i + 1)) =~= concept_id_texts(ids@.take(i as int)).push(x@));
        i += 1;
    }
    assert(ids@.take(i as int) =~= ids@);
    join_strings(&parts, ", ")
}

/// The leading cells of a task row: identifier, name, state, the due cell
/// given, and every dependency identifier (whether or not that task is shown).
pub fn task_cells(task: &Task, due: String) -> (r: Vec<String>)
    ensures
        texts_of(r@) == seq![
            id_text('t', task.id.0),
            task.name@,
            state_text(task.state),
            due@,
            ids_cell(task_id_texts(task.depends_on@)),
        ],
{
    let mut row: Vec<String> = Vec::new();
    row.push(task.id.to_string());
    row.push(task.name.clone());
    row.push(task.state.to_string());
    let ghost d = due@;
    row.push(due);
    row.push(task_ids_cell(task.depends_on.as_slice()));
    assert(texts_of(row@) =~= seq![
        id_text('t', task.id.0),
        task.name@,
        state_text(task.state),
        d,
        ids_cell(task_id_texts(task.depends_on@)),
    ]);
    row
}

/// The positions of the tasks the filter shows (`keep`) or hides (`!keep`),
/// in order.
pub open spec fn positions_where(ts: Seq<Task>, f: StateFilter, keep: bool) -> Seq<usize>
    decreases ts.len(),
{
    if ts.len() == 0 {
        Seq::empty()
    } else {
        let r = positions_where(ts.drop_last(), f, keep);
        if f.shows(ts.last().state) == keep {
            r.push((ts.len() - 1) as usize)
        } else {
            r
        }
    }
}

/// The positions of the shown tasks and of the hidden tasks, each in order.
pub fn split_by_filter(filter: &StateFilter, tasks: &[Task]) -> (r: (Vec<usize>, Vec<usize>))
    ensures
        r.0@ == positions_where(tasks@, *filter, true),
        r.1@ == positions_where(tasks@, *filter, false),
{
    let mut shown: Vec<usize> = Vec::new();
    let mut hidden: Vec<usize> = Vec::new();
    let mut i: usize = 0;
    while i < tasks.len()
        invariant
            i <= tasks@.len(),
            shown@ == positions_where(tasks@.take(i as int), *filter, true),
            hidden@ == positions_where(tasks@.take(i as int), *filter, false),
        decreases tasks@.len() - i,
    {
        assert(tasks@.take(i + 1).drop_last() =~= tasks@.take(i as int));
        assert(tasks@.take(i + 1).last() == tasks@[i as int]);
        if filter.keeps(tasks[i].state) {
            shown.push(i);
        } else {
            hidden.push(i);
        }
        i += 1;
    }
    assert(tasks@.take(i as int) =~= tasks@);
    (shown, hidden)
}

/// A labelled value wrapped to `width`: `label`, then the text word-wrapped
/// to the columns left after the label, every later line indented to sit
/// under the first.
pub open spec fn labelled_block_spec(label: Seq<char>, text: Seq<char>, width: nat) -> Seq<char> {
    let b = indent_lines(wrap_words_spec(text, avail_spec(width, label.len())), label.len());
    if b.len() >= label.len() {
        label + b.skip(label.len() as int)
    } else {
        label
    }
}

/// `label` followed by `text` wrapped under it to `width` columns.
pub fn labelled_block(label: &str, text: &str, width: usize) -> (r: String)
    ensures
        r@ == labelled_block_spec(label@, text@, width as nat),
{
    let lv = chars_of(label);
    let n = lv.len();
    let b = wrap_block(text, n, width);
    let bv = chars_of(b.as_str());
    let mut v: Vec<char> = Vec::new();
    push_str(&mut v, label);
    if bv.len() >= n {
        push_range(&mut v, bv.as_slice(), n, bv.len());
        assert(bv@.subrange(n as int, bv@.len() as int) =~= bv@.skip(n as int));
    }
    string_from(v.as_slice())
}

/// The detail lines of a concept list every task linked to it: the last line
/// starts with `Tasks:` and holds the reference `name {tN}` of each linked
/// task.
pub proof fn lemma_details_list_every_linked_task(cs: Seq<Concept>, ts: Seq<Task>, c: Concept, i: int)
    requires
        0 <= i < ts.len(),
        ts[i].concepts@.contains(c.id),
    ensures
        ({
            let d = concept_details_spec(cs, ts, c);
            &&& d.len() > 0
            &&& "Tasks:       "@.is_prefix_of(d.last())
            &&& crate::text::contains_text(d.last(), ts[i].name@ + " {"@ + id_text('t', ts[i].id.0) + "}"@)
        }),
{
    let f = |t: Task| t.concepts@.contains(c.id);
    let linked = ts.filter(f);
    ts.lemma_filter_contains(f, i);
    let k = choose|k: int| 0 <= k < linked.len() && linked[k] == ts[i];
    assert(linked == tasks_linked_to(ts, c.id));
    let refs = linked.map_values(|t: Task| own_ref(t.name@, id_text('t', t.id.0)));
    let r = ts[i].name@ + " {"@ + id_text('t', ts[i].id.0) + "}"@;
    assert(refs[k] == r);
    crate::text::lemma_join_has(refs, ", "@, k);
    let line = refs_line("Tasks:       "@, refs);
    crate::text::lemma_contains_right("Tasks:       "@, join(refs, ", "@), r);
    let d = concept_details_spec(cs, ts, c);
    assert(d.last() == line);
    assert("Tasks:       "@.is_prefix_of(line)) by {
        assert(line.subrange(0, "Tasks:       "@.len() as int) =~= "Tasks:       "@);
    }
}

/// Without a linked task the detail lines of a concept hold no `Tasks:` line.
pub proof fn lemma_details_no_tasks_line(cs: Seq<Concept>, ts: Seq<Task>, c: Concept)
    requires
        forall|i: int| 0 <= i < ts.len() ==> !(#[trigger] ts[i].concepts@).contains(c.id),
    ensures
        forall|k: int| 0 <= k < concept_details_spec(cs, ts, c).len() ==> !"Tasks:       "@.is_prefix_of(
            #[trigger] concept_details_spec(cs, ts, c)[k],
        ),
{
    reveal_strlit("Tasks:       ");
    reveal_strlit("ID:          ");
    reveal_strlit("Name:        ");
    reveal_strlit("Description: ");
    reveal_strlit("Parent:      ");
    reveal_strlit("Parent:      (root)");
    reveal_strlit("Children:    ");
    let f = |t: Task| t.concepts@.contains(c.id);
    crate::model::project::lemma_filter_in(ts, f);
    assert(tasks_linked_to(ts, c.id).len() == 0) by {
        if tasks_linked_to(ts, c.id).len() > 0 {
            let t = tasks_linked_to(ts, c.id)[0];
            assert(ts.contains(t));
            let j = choose|j: int| 0 <= j < ts.len() && ts[j] == t;
            assert(!ts[j].concepts@.contains(c.id));
        }
    }
    let d = concept_details_spec(cs, ts, c);
    assert forall|k: int| 0 <= k < d.len() implies !"Tasks:       "@.is_prefix_of(#[trigger] d[k]) by {
        let l = d[k];
        if "Tasks:       "@.is_prefix_of(l) {
            let pre = "Tasks:       "@;
            assert(pre[0] == 'T');
            assert(l.subrange(0, pre.len() as int)[0] == l[0]);
            assert(l[0] == 'T');
            assert(l[0] == 'I' || l[0] == 'N' || l[0] == 'D' || l[0] == 'P' || l[0] == 'C');
        }
    }
}

} // verus!
