use mindtask::export::plantuml::{bracket_label, dag, one_line, quoted_label, tree, wbs, UNNAMED};
use mindtask::model::id::{ConceptId, TaskId};
use mindtask::model::project::Project;
use mindtask::model::task::TaskState;

fn sample_project() -> Project {
    let mut p = Project::new();
    p.add_concept("Backend".into(), None, None).unwrap();
    p.add_concept("API".into(), Some(ConceptId(1)), None).unwrap();
    p.add_concept("Frontend".into(), None, None).unwrap();
    p.add_task("Design API".into(), None, None, None);
    p.add_task("Build API".into(), None, None, None);
    p.add_task("Build UI".into(), None, None, None);
    p.add_dependency(TaskId(2), TaskId(1)).unwrap();
    p.link_concept(TaskId(1), ConceptId(2)).unwrap();
    p.link_concept(TaskId(2), ConceptId(2)).unwrap();
    p.link_concept(TaskId(3), ConceptId(3)).unwrap();
    p
}

#[test]
fn tree_full() {
    let p = sample_project();
    let output = tree(&p, None);
    assert!(output.starts_with("@startmindmap\n"));
    assert!(output.ends_with("@endmindmap\n"));
    assert!(output.contains("* Project\n"));
    assert!(output.contains("** Backend\n"));
    assert!(output.contains("*** API\n"));
    assert!(output.contains("** Frontend\n"));
}

#[test]
fn tree_full_exact_text() {
    let p = sample_project();
    assert_eq!(
        tree(&p, None),
        "@startmindmap\n* Project\n** Backend\n*** API\n** Frontend\n@endmindmap\n"
    );
}

#[test]
fn tree_single_root() {
    let mut p = Project::new();
    p.add_concept("Root".into(), None, None).unwrap();
    p.add_concept("Child".into(), Some(ConceptId(1)), None).unwrap();
    let output = tree(&p, None);
    assert!(output.contains("* Root\n"));
    assert!(output.contains("** Child\n"));
    assert!(!output.contains("Project"));
}

#[test]
fn tree_subtree() {
    let p = sample_project();
    let output = tree(&p, Some(ConceptId(1)));
    assert!(output.contains("* Backend\n"));
    assert!(output.contains("** API\n"));
    assert!(!output.contains("Frontend"));
}

#[test]
fn tree_empty_project() {
    let p = Project::new();
    let output = tree(&p, None);
    assert!(output.starts_with("@startmindmap\n"));
    assert!(output.ends_with("@endmindmap\n"));
}

#[test]
fn dag_full() {
    let p = sample_project();
    let output = dag(&p, None);
    assert!(output.starts_with("@startuml\n"));
    assert!(output.ends_with("@enduml\n"));
    assert!(output.contains("component \"Design API\" as t1"));
    assert!(output.contains("component \"Build API\" as t2"));
    assert!(output.contains("component \"Build UI\" as t3"));
    assert!(output.contains("t1 --> t2"));
}

#[test]
fn dag_with_root() {
    let p = sample_project();
    let output = dag(&p, Some(TaskId(1)));
    assert!(output.contains("Design API"));
    assert!(output.contains("Build API"));
    assert!(!output.contains("Build UI"));
}

#[test]
fn dag_leaf_task() {
    let p = sample_project();
    let output = dag(&p, Some(TaskId(3)));
    assert!(output.contains("Build UI"));
    assert!(!output.contains("Design API"));
    assert!(!output.contains("Build API"));
}

#[test]
fn dag_downstream_is_transitive() {
    let mut p = Project::new();
    p.add_task("A".into(), None, None, None);
    p.add_task("B".into(), None, None, None);
    p.add_task("C".into(), None, None, None);
    p.add_task("D".into(), None, None, None);
    p.add_dependency(TaskId(2), TaskId(1)).unwrap();
    p.add_dependency(TaskId(3), TaskId(2)).unwrap();
    let output = dag(&p, Some(TaskId(1)));
    assert!(output.contains("as t3"));
    assert!(!output.contains("as t4"));
    assert!(output.contains("t2 --> t3"));
}

#[test]
fn dag_colored_states() {
    let mut p = Project::new();
    p.add_task("Done task".into(), None, None, None);
    p.add_task("WIP task".into(), None, None, None);
    p.add_task("Todo task".into(), None, None, None);
    p.set_task_state(TaskId(1), TaskState::Done).unwrap();
    p.set_task_state(TaskId(2), TaskState::InProgress).unwrap();
    let output = dag(&p, None);
    assert!(output.contains("t1 <<done>>"));
    assert!(output.contains("t2 <<in_progress>>"));
    assert!(output.contains("\"Todo task\" as t3\n"));
}

#[test]
fn dag_empty_project() {
    let p = Project::new();
    let output = dag(&p, None);
    assert_eq!(output, "@startuml\n@enduml\n");
}

#[test]
fn wbs_full() {
    let p = sample_project();
    let output = wbs(&p, None);
    assert!(output.starts_with("@startwbs\n"));
    assert!(output.ends_with("@endwbs\n"));
    assert!(output.contains("Backend"));
    assert!(output.contains("API"));
    assert!(output.contains("Design API"));
    assert!(output.contains("Build API"));
    assert!(output.contains("Frontend"));
    assert!(output.contains("Build UI"));
}

#[test]
fn wbs_full_exact_text() {
    let p = sample_project();
    assert_eq!(
        wbs(&p, None),
        "@startwbs\n* Project\n** Backend\n*** API\n**** Design API\n**** Build API\n** Frontend\n*** Build UI\n@endwbs\n"
    );
}

#[test]
fn wbs_unlinked_tasks() {
    let mut p = Project::new();
    p.add_concept("Topic".into(), None, None).unwrap();
    p.add_task("Linked".into(), None, None, None);
    p.add_task("Unlinked".into(), None, None, None);
    p.link_concept(TaskId(1), ConceptId(1)).unwrap();
    let output = wbs(&p, None);
    assert!(output.contains("Unlinked"));
}

#[test]
fn wbs_empty() {
    let p = Project::new();
    let output = wbs(&p, None);
    assert_eq!(output, "@startwbs\n@endwbs\n");
}

#[test]
fn wbs_subtree() {
    let p = sample_project();
    let output = wbs(&p, Some(ConceptId(1)));
    assert!(output.contains("* Backend\n"));
    assert!(output.contains("** API\n"));
    assert!(output.contains("Design API"));
    assert!(output.contains("Build API"));
    assert!(!output.contains("Frontend"));
    assert!(!output.contains("Build UI"));
    assert!(!output.contains("Project"));
}

#[test]
fn wbs_subtree_omits_unlinked_group() {
    let mut p = Project::new();
    p.add_concept("Topic".into(), None, None).unwrap();
    p.add_task("Linked".into(), None, None, None);
    p.add_task("Floating".into(), None, None, None);
    p.link_concept(TaskId(1), ConceptId(1)).unwrap();
    let output = wbs(&p, Some(ConceptId(1)));
    assert!(output.contains("Linked"));
    assert!(!output.contains("Floating"));
    assert!(!output.contains("Unlinked"));
}

#[test]
fn wbs_task_under_multiple_concepts() {
    let mut p = Project::new();
    p.add_concept("A".into(), None, None).unwrap();
    p.add_concept("B".into(), None, None).unwrap();
    p.add_task("Shared".into(), None, None, None);
    p.link_concept(TaskId(1), ConceptId(1)).unwrap();
    p.link_concept(TaskId(1), ConceptId(2)).unwrap();
    let output = wbs(&p, None);
    let count = output.matches("Shared").count();
    assert_eq!(count, 2);
}

const HOSTILE: [&str; 6] = [
    r#"He said "hello""#,
    "Fix [urgent] bug",
    "line one\nline two",
    "   ",
    "tabs\tand\nnewlines",
    "trailing bracket ]",
];

fn hostile_project() -> Project {
    let mut p = Project::new();
    p.timezone = Some("UTC".into());
    let root = p.add_concept("Root".into(), None, None).unwrap();
    for (i, name) in HOSTILE.iter().enumerate() {
        let id = p.add_task(
            format!("placeholder {i}"),
            None,
            Some((i as f64 + 1.0).to_bits()),
            Some("2025-03-15T00:00:00+00:00[UTC]".to_string()),
        );
        p.get_task_mut(id).unwrap().name = (*name).to_string();
        p.link_concept(id, root).unwrap();
    }
    p
}

fn assert_no_stray_blank_or_split_lines(out: &str, what: &str) {
    for line in out.lines() {
        assert!(!line.starts_with("line two"), "{what}: a name's newline split a declaration:\n{out}");
    }
}

#[test]
fn hostile_names_keep_component_quotes_balanced() {
    let out = dag(&hostile_project(), None);
    for line in out.lines().filter(|l| l.starts_with("component ")) {
        assert_eq!(line.matches('"').count(), 2, "unbalanced quotes in: {line}\n{out}");
    }
    assert_no_stray_blank_or_split_lines(&out, "dag");
}

#[test]
fn hostile_names_do_not_break_mindmap_or_wbs_structure() {
    let p = hostile_project();
    for (what, out) in [("tree", tree(&p, None)), ("wbs", wbs(&p, None))] {
        for line in out.lines() {
            if line.starts_with('@') || line.is_empty() {
                continue;
            }
            assert!(line.starts_with('*'), "{what}: a name leaked a line without a depth marker: {line:?}\n{out}");
        }
    }
}

#[test]
fn a_whitespace_only_name_still_gets_a_label() {
    let mut p = Project::new();
    let id = p.add_task("x".into(), None, Some(1.0f64.to_bits()), None);
    p.get_task_mut(id).unwrap().name = "   ".into();
    let out = dag(&p, None);
    assert!(out.contains(UNNAMED), "{out}");
}

#[test]
fn label_sanitisers_are_minimal() {
    for name in ["Plain name", "Fix (10.0.7.0/24) overlap", "a - b — c"] {
        assert_eq!(one_line(name), name);
        assert_eq!(quoted_label(name), name);
        assert_eq!(bracket_label(name), name);
    }
    assert_eq!(one_line("a\n b\tc"), "a b c");
    assert_eq!(quoted_label(r#"say "hi""#), "say 'hi'");
    assert_eq!(bracket_label("[x]"), "(x)");
    assert_eq!(one_line("  "), UNNAMED);
}
