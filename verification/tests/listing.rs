use mindtask::cli::listing::labelled_block;
use mindtask::cli::listing::{concept_ids_cell, split_by_filter, task_cells, task_ids_cell};
use mindtask::cli::state_filter::{StateArg, StateFilter};
use mindtask::model::task::TaskState;
use mindtask::cli::listing::{concept_details, concept_ref, concept_rows, join_strings, task_ref};
use mindtask::model::id::{ConceptId, TaskId};
use mindtask::model::project::Project;

fn sample() -> Project {
    let mut p = Project::new();
    let root = p.add_concept("Root".into(), None, Some("the top".into())).unwrap();
    let kid = p.add_concept("Kid".into(), Some(root), None).unwrap();
    p.add_concept("Other".into(), Some(root), None).unwrap();
    p.add_task_linked("Write".into(), None, None, None, &[root]).unwrap();
    p.add_task_linked("Read".into(), None, None, None, &[kid]).unwrap();
    p
}

#[test]
fn join_strings_puts_the_separator_between_parts() {
    let parts = vec!["a".to_string(), "bc".to_string(), "".to_string()];
    assert_eq!(join_strings(&parts, ", "), "a, bc, ");
    assert_eq!(join_strings(&Vec::new(), ", "), "");
}

#[test]
fn references_name_the_item_or_mark_it_missing() {
    let p = sample();
    assert_eq!(concept_ref(&p, ConceptId(2)), "Kid {c2}");
    assert_eq!(concept_ref(&p, ConceptId(7)), "??? {c7}");
    assert_eq!(task_ref(&p, TaskId(1)), "Write {t1}");
    assert_eq!(task_ref(&p, TaskId(5)), "??? {t5}");
}

#[test]
fn concept_rows_show_id_name_and_parent() {
    let p = sample();
    let rows = concept_rows(&p);
    assert_eq!(rows.len(), 3);
    assert_eq!(rows[0], vec!["c1".to_string(), "Root".to_string(), "-".to_string()]);
    assert_eq!(rows[1], vec!["c2".to_string(), "Kid".to_string(), "Root {c1}".to_string()]);
}

#[test]
fn concept_details_of_a_root_with_children_and_tasks() {
    let p = sample();
    let lines = concept_details(&p, ConceptId(1)).unwrap();
    assert_eq!(
        lines,
        vec![
            "ID:          c1".to_string(),
            "Name:        Root".to_string(),
            "Description: the top".to_string(),
            "Parent:      (root)".to_string(),
            "Children:    Kid {c2}, Other {c3}".to_string(),
            "Tasks:       Write {t1}".to_string(),
        ]
    );
}

#[test]
fn concept_details_of_a_leaf_omit_empty_lines() {
    let p = sample();
    let lines = concept_details(&p, ConceptId(3)).unwrap();
    assert_eq!(
        lines,
        vec![
            "ID:          c3".to_string(),
            "Name:        Other".to_string(),
            "Parent:      Root {c1}".to_string(),
        ]
    );
    assert!(concept_details(&p, ConceptId(9)).is_none());
}

#[test]
fn id_cells_list_identifiers_or_a_dash() {
    assert_eq!(task_ids_cell(&[]), "-");
    assert_eq!(task_ids_cell(&[TaskId(3), TaskId(1)]), "t3, t1");
    assert_eq!(concept_ids_cell(&[ConceptId(2)]), "c2");
}

#[test]
fn task_cells_list_dependencies_verbatim() {
    let mut p = sample();
    p.add_dependency(TaskId(2), TaskId(1)).unwrap();
    p.set_task_state(TaskId(1), TaskState::Done).unwrap();
    let cells = task_cells(p.get_task(TaskId(2)).unwrap(), "-".to_string());
    assert_eq!(cells, vec!["t2", "Read", "todo", "-", "t1"]);
}

#[test]
fn split_by_filter_separates_shown_and_hidden_positions() {
    let mut p = sample();
    p.add_task("Third".into(), None, None, None);
    p.set_task_state(TaskId(2), TaskState::Done).unwrap();
    let f = StateFilter::new(&[StateArg::State(TaskState::Todo)]);
    let (shown, hidden) = split_by_filter(&f, &p.tasks);
    assert_eq!(shown, vec![0, 2]);
    assert_eq!(hidden, vec![1]);
}

#[test]
fn labelled_block_wraps_under_the_value_column() {
    let b = labelled_block("Description: ", "alpha beta gamma delta epsilon", 24);
    let lines: Vec<&str> = b.lines().collect();
    assert_eq!(lines[0], "Description: alpha beta");
    assert!(lines.len() > 1);
    for l in &lines[1..] {
        assert!(l.starts_with("             "), "line: {l:?}");
        assert!(l.chars().count() <= 24, "line: {l:?}");
    }
    assert_eq!(labelled_block("Description: ", "short", 80), "Description: short");
}
