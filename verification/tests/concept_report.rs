use mindtask::cli::render::DescMode;
use mindtask::cli::concept::{collect_subtree_ids, collect_upstream_tasks, report_rows, report_selection, tree_label};
use mindtask::cli::state_filter::{StateArg, StateFilter};
use mindtask::model::task::TaskState;
use mindtask::model::concept::Concept;
use mindtask::model::id::{ConceptId, TaskId};
use mindtask::model::project::Project;

fn sample() -> Project {
    let mut p = Project::new();
    p.add_concept("Root".into(), None, None).unwrap(); // c1
    p.add_concept("Child".into(), Some(ConceptId(1)), None).unwrap(); // c2
    p.add_concept("Other".into(), None, None).unwrap(); // c3
    let a = p.add_task("A".into(), None, None, None); // t1
    let b = p.add_task("B".into(), None, None, None); // t2
    let c = p.add_task("C".into(), None, None, None); // t3
    let d = p.add_task("D".into(), None, None, None); // t4
    p.link_concept(b, ConceptId(2)).unwrap();
    p.link_concept(d, ConceptId(3)).unwrap();
    p.add_dependency(b, a).unwrap();
    p.add_dependency(a, c).unwrap();
    let _ = d;
    p
}

#[test]
fn subtree_ids_cover_the_concept_and_its_descendants() {
    let p = sample();
    let mut ids = collect_subtree_ids(&p, ConceptId(1));
    ids.sort_by_key(|c| c.0);
    assert_eq!(ids, vec![ConceptId(1), ConceptId(2)]);
    assert_eq!(collect_subtree_ids(&p, ConceptId(3)), vec![ConceptId(3)]);
}

#[test]
fn upstream_tasks_follow_dependencies_transitively() {
    let p = sample();
    let mut all = collect_upstream_tasks(&p, &vec![TaskId(2)]);
    all.sort_by_key(|t| t.0);
    assert_eq!(all, vec![TaskId(1), TaskId(2), TaskId(3)]);
}

#[test]
fn report_lists_direct_tasks_then_upstream_ones() {
    let p = sample();
    let sel = report_selection(&p, ConceptId(1));
    assert_eq!(sel.direct_ids, vec![TaskId(2)]);
    assert_eq!(sel.all_ids.len(), 3);
    assert_eq!(sel.direct_rows, vec![1]);
    assert_eq!(sel.upstream_rows, vec![0, 2]);
}

#[test]
fn report_on_a_subtree_without_tasks_lists_nothing() {
    let mut p = sample();
    p.add_concept("Empty".into(), None, None).unwrap();
    let sel = report_selection(&p, ConceptId(4));
    assert!(sel.direct_ids.is_empty() && sel.all_ids.is_empty());
    assert!(sel.direct_rows.is_empty() && sel.upstream_rows.is_empty());
}

#[test]
fn tree_labels_show_id_and_optional_wrapped_description() {
    let c = Concept { id: ConceptId(7), name: "Net".into(), description: Some("abcdefghij".into()), parent: None };
    assert_eq!(tree_label(&c, DescMode::Omit, 80, 0), "Net {c7}");
    assert_eq!(tree_label(&c, DescMode::Full, 80, 0), "Net {c7}\n[abcdefghij]");
    assert_eq!(tree_label(&c, DescMode::Full, 12, 1), "Net {c7}\n[abcdefg\nhij]");
}

#[test]
fn tree_labels_wrap_at_words_and_offer_a_short_lede() {
    let c = Concept { id: ConceptId(2), name: "Web".into(), description: Some("one two three four".into()), parent: None };
    assert_eq!(tree_label(&c, DescMode::Full, 10, 0), "Web {c2}\n[one two\nthree\nfour]");
    assert_eq!(tree_label(&c, DescMode::Short, 10, 0), "Web {c2}\n[one two\u{2026}]");
}

/// Three areas and six tasks in every state; build-core (in progress) needs
/// research-notes (done), old-migration (done) needs draft-plan (todo).
fn states_project() -> Project {
    let mut p = Project::new();
    p.add_concept("Area".into(), None, None).unwrap(); // c1
    p.add_concept("Other".into(), None, None).unwrap(); // c2
    p.add_concept("DoneArea".into(), None, None).unwrap(); // c3
    p.add_concept("Empty".into(), None, None).unwrap(); // c4
    let t1 = p.add_task("write-spec".into(), None, None, None);
    let t2 = p.add_task("build-core".into(), None, None, None);
    let t3 = p.add_task("research-notes".into(), None, None, None);
    let t4 = p.add_task("old-migration".into(), None, None, None);
    let t5 = p.add_task("draft-plan".into(), None, None, None);
    let t6 = p.add_task("shipped-feature".into(), None, None, None);
    for (t, c) in [(t1, 1), (t2, 1), (t3, 2), (t4, 1), (t5, 2), (t6, 3)] {
        p.link_concept(t, ConceptId(c)).unwrap();
    }
    p.add_dependency(t2, t3).unwrap();
    p.add_dependency(t4, t5).unwrap();
    p.set_task_state(t2, TaskState::InProgress).unwrap();
    for t in [t3, t4, t6] {
        p.set_task_state(t, TaskState::Done).unwrap();
    }
    p
}

fn open_work() -> StateFilter {
    StateFilter::new(&[StateArg::State(TaskState::Todo), StateArg::State(TaskState::InProgress)])
}

#[test]
fn filtered_report_keeps_hidden_direct_tasks_from_pulling_their_chains() {
    let p = states_project();
    let rows = report_rows(&p, ConceptId(1), &open_work());
    assert_eq!(rows.shown_direct, vec![0, 1]);
    assert!(rows.shown_upstream.is_empty());
    // research-notes (done), old-migration (done) and draft-plan, reachable
    // only through the hidden old-migration.
    assert_eq!(rows.hidden, vec![2, 3, 4]);
}

#[test]
fn unfiltered_report_shows_direct_and_upstream_tasks() {
    let p = states_project();
    let rows = report_rows(&p, ConceptId(1), &StateFilter::new(&[StateArg::All]));
    assert_eq!(rows.shown_direct, vec![0, 1, 3]);
    assert_eq!(rows.shown_upstream, vec![2, 4]);
    assert!(rows.hidden.is_empty());
}

#[test]
fn filtered_report_can_hide_every_row() {
    let p = states_project();
    let rows = report_rows(&p, ConceptId(3), &open_work());
    assert!(rows.shown_direct.is_empty() && rows.shown_upstream.is_empty());
    assert_eq!(rows.hidden, vec![5]);
    let empty = report_rows(&p, ConceptId(4), &open_work());
    assert!(empty.shown_direct.is_empty() && empty.shown_upstream.is_empty() && empty.hidden.is_empty());
}

#[test]
fn shown_upstream_tasks_follow_chains_through_hidden_prerequisites() {
    let mut p = states_project();
    // build-core -> research-notes (done) -> a new todo task: still shown.
    let t7 = p.add_task("deep-prereq".into(), None, None, None);
    p.add_dependency(TaskId(3), t7).unwrap();
    let rows = report_rows(&p, ConceptId(1), &open_work());
    assert_eq!(rows.shown_direct, vec![0, 1]);
    assert_eq!(rows.shown_upstream, vec![6]);
    assert_eq!(rows.hidden, vec![2, 3, 4]);
}

#[test]
fn concept_trees_follow_the_concept_tree() {
    let mut p = Project::new();
    let a = p.add_concept("A".into(), None, Some("about a".into())).unwrap();
    let b = p.add_concept("B".into(), Some(a), None).unwrap();
    p.add_concept("C".into(), Some(b), None).unwrap();
    p.add_concept("D".into(), None, None).unwrap();
    let all = mindtask::cli::concept::concept_trees(&p, None, DescMode::Omit, 80).unwrap();
    assert_eq!(all.len(), 2);
    assert_eq!(all[0].label, "A {c1}");
    assert!(!all[0].multiline);
    assert_eq!(all[0].children.len(), 1);
    assert_eq!(all[0].children[0].label, "B {c2}");
    assert_eq!(all[0].children[0].children[0].label, "C {c3}");
    assert_eq!(all[1].label, "D {c4}");
    let one = mindtask::cli::concept::concept_trees(&p, Some(a), DescMode::Full, 80).unwrap();
    assert_eq!(one.len(), 1);
    assert!(one[0].multiline);
    assert_eq!(one[0].label, "A {c1}\n[about a]");
    assert!(mindtask::cli::concept::concept_trees(&p, Some(ConceptId(9)), DescMode::Omit, 80).is_none());
}
