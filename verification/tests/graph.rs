use mindtask::graph::dag::{has_cycle, topological_order, validate_dag, validate_project, validate_unique_ids};
use mindtask::graph::tree::{is_ancestor, validate_tree};
use mindtask::model::concept::Concept;
use mindtask::model::id::{ConceptId, TaskId};
use mindtask::model::project::Project;
use mindtask::model::task::{Task, TaskState};

#[test]
fn topological_order_basic() {
    let mut p = Project::new();
    p.add_task("A".into(), None, None, None);
    p.add_task("B".into(), None, None, None);
    p.add_task("C".into(), None, None, None);
    p.add_dependency(TaskId(2), TaskId(1)).unwrap();
    p.add_dependency(TaskId(3), TaskId(2)).unwrap();
    let order = topological_order(&p.tasks).unwrap();
    let pos_a = order.iter().position(|&id| id == TaskId(1)).unwrap();
    let pos_b = order.iter().position(|&id| id == TaskId(2)).unwrap();
    let pos_c = order.iter().position(|&id| id == TaskId(3)).unwrap();
    assert!(pos_a < pos_b);
    assert!(pos_b < pos_c);
}

#[test]
fn topological_order_reports_a_cycle() {
    let mut p = Project::new();
    p.add_task("A".into(), None, None, None);
    p.add_task("B".into(), None, None, None);
    p.tasks[0].depends_on.push(TaskId(2));
    p.tasks[1].depends_on.push(TaskId(1));
    assert!(has_cycle(&p.tasks));
    assert_eq!(topological_order(&p.tasks).unwrap_err(), "task dependency graph contains a cycle");
}

#[test]
fn validate_project_valid() {
    let mut p = Project::new();
    p.add_concept("Topic".into(), None, None).unwrap();
    let t1 = p.add_task("A".into(), None, None, None);
    p.add_task("B".into(), None, None, None);
    p.add_dependency(TaskId(2), TaskId(1)).unwrap();
    p.link_concept(t1, ConceptId(1)).unwrap();
    assert!(validate_project(&p).is_ok());
}

#[test]
fn validate_dag_invalid_ref() {
    let mut p = Project::new();
    p.add_task("A".into(), None, None, None);
    p.tasks[0].depends_on.push(TaskId(99));
    assert!(validate_dag(&p.tasks).is_err());
}

#[test]
fn validate_dag_names_the_dangling_dependency() {
    let mut p = Project::new();
    p.add_task("A".into(), None, None, None);
    p.tasks[0].depends_on.push(TaskId(99));
    assert_eq!(validate_dag(&p.tasks).unwrap_err(), "task t1 depends on non-existent task t99");
}

#[test]
fn validate_project_bad_concept_ref() {
    let mut p = Project::new();
    let t1 = p.add_task("A".into(), None, None, None);
    p.get_task_mut(t1).unwrap().concepts.push(ConceptId(99));
    assert!(validate_project(&p).is_err());
}

#[test]
fn validate_detects_duplicate_concept_id() {
    let mut p = Project::new();
    p.add_concept("A".into(), None, None).unwrap();
    p.concepts.push(Concept { id: ConceptId(1), name: "Dup".into(), description: None, parent: None });
    let err = validate_project(&p).unwrap_err();
    assert!(err.contains("duplicate concept ID 1"), "got: {err}");
}

#[test]
fn validate_detects_duplicate_task_id() {
    let mut p = Project::new();
    p.add_task("A".into(), None, None, None);
    p.tasks.push(Task {
        id: TaskId(1),
        name: "Dup".into(),
        description: None,
        duration: None,
        state: TaskState::Todo,
        due: None,
        depends_on: vec![],
        concepts: vec![],
    });
    let err = validate_project(&p).unwrap_err();
    assert!(err.contains("duplicate task ID 1"), "got: {err}");
}

#[test]
fn validate_unique_ids_accepts_clean_project() {
    let mut p = Project::new();
    p.add_concept("A".into(), None, None).unwrap();
    p.add_concept("B".into(), None, None).unwrap();
    p.add_task("T".into(), None, None, None);
    assert!(validate_unique_ids(&p).is_ok());
}

#[test]
fn is_ancestor_basic() {
    let mut p = Project::new();
    p.add_concept("A".into(), None, None).unwrap();
    p.add_concept("B".into(), Some(ConceptId(1)), None).unwrap();
    p.add_concept("C".into(), Some(ConceptId(2)), None).unwrap();
    assert!(is_ancestor(&p, ConceptId(1), ConceptId(2)));
    assert!(is_ancestor(&p, ConceptId(1), ConceptId(3)));
    assert!(is_ancestor(&p, ConceptId(2), ConceptId(3)));
    assert!(!is_ancestor(&p, ConceptId(3), ConceptId(1)));
    assert!(!is_ancestor(&p, ConceptId(2), ConceptId(1)));
}

#[test]
fn validate_tree_valid() {
    let mut p = Project::new();
    p.add_concept("A".into(), None, None).unwrap();
    p.add_concept("B".into(), Some(ConceptId(1)), None).unwrap();
    assert!(validate_tree(&p).is_ok());
}

fn raw(id: u64, parent: Option<u64>) -> Concept {
    Concept { id: ConceptId(id), name: format!("n{id}"), description: None, parent: parent.map(ConceptId) }
}

#[test]
fn is_ancestor_terminates_on_cyclic_chain() {
    let mut p = Project::new();
    p.concepts.push(raw(1, Some(2)));
    p.concepts.push(raw(2, Some(1)));
    p.concepts.push(raw(3, Some(1)));
    assert!(!is_ancestor(&p, ConceptId(99), ConceptId(3)));
}

#[test]
fn validate_tree_detects_invalid_parent() {
    let mut p = Project::new();
    p.concepts.push(raw(1, Some(99)));
    assert!(validate_tree(&p).is_err());
}

#[test]
fn validate_tree_messages() {
    let mut p = Project::new();
    p.concepts.push(raw(1, Some(99)));
    assert_eq!(validate_tree(&p).unwrap_err(), "concept c1 references non-existent parent c99");
    let mut q = Project::new();
    q.concepts.push(raw(1, Some(2)));
    q.concepts.push(raw(2, Some(1)));
    assert_eq!(validate_tree(&q).unwrap_err(), "cycle detected in concept tree involving c1");
}

#[test]
fn unknown_timezone_is_reported_first() {
    let mut p = Project::new();
    p.timezone = Some("Bogus/Zone".into());
    let err = mindtask::graph::dag::validate_project_with_zone(&p, false).unwrap_err();
    assert_eq!(err, "invalid timezone 'Bogus/Zone'");
    p.add_task("t".into(), None, None, None);
    p.add_task("u".into(), None, None, None);
    p.tasks[1].id = TaskId(1);
    let err = mindtask::graph::dag::validate_project_with_zone(&p, false).unwrap_err();
    assert!(err.contains("invalid timezone 'Bogus/Zone'"));
}

#[test]
fn known_timezone_defers_to_structural_validation() {
    let mut p = Project::new();
    p.timezone = Some("UTC".into());
    assert!(mindtask::graph::dag::validate_project_with_zone(&p, true).is_ok());
    p.timezone = None;
    assert!(mindtask::graph::dag::validate_project_with_zone(&p, false).is_ok());
    p.add_task("t".into(), None, None, None);
    p.add_task("u".into(), None, None, None);
    p.tasks[1].id = TaskId(1);
    assert_eq!(
        mindtask::graph::dag::validate_project_with_zone(&p, true),
        validate_project(&p)
    );
}

#[test]
fn integration_complex_project() {
    let mut p = Project::new();
    p.add_concept("Project".into(), None, None).unwrap();
    p.add_concept("Backend".into(), Some(ConceptId(1)), None).unwrap();
    p.add_concept("Frontend".into(), Some(ConceptId(1)), None).unwrap();
    p.add_concept("API".into(), Some(ConceptId(2)), None).unwrap();
    p.add_concept("Database".into(), Some(ConceptId(2)), None).unwrap();

    p.add_task("Design API".into(), None, Some(2.0f64.to_bits()), None);
    p.add_task("Implement API".into(), None, Some(5.0f64.to_bits()), None);
    p.add_task("Design DB".into(), None, Some(1.0f64.to_bits()), None);
    p.add_task("Implement DB".into(), None, Some(3.0f64.to_bits()), None);
    p.add_task("Frontend prototype".into(), None, Some(4.0f64.to_bits()), None);

    p.add_dependency(TaskId(2), TaskId(1)).unwrap();
    p.add_dependency(TaskId(4), TaskId(3)).unwrap();
    p.add_dependency(TaskId(2), TaskId(4)).unwrap();

    p.link_concept(TaskId(1), ConceptId(4)).unwrap();
    p.link_concept(TaskId(2), ConceptId(4)).unwrap();
    p.link_concept(TaskId(3), ConceptId(5)).unwrap();
    p.link_concept(TaskId(4), ConceptId(5)).unwrap();
    p.link_concept(TaskId(5), ConceptId(3)).unwrap();

    assert!(validate_project(&p).is_ok());

    let order = topological_order(&p.tasks).unwrap();
    assert_eq!(order.len(), 5);

    let copy = p.clone();
    assert!(validate_project(&copy).is_ok());
}

#[test]
fn validation_reports_the_first_failing_stage_message() {
    let mut p = Project::new();
    p.add_task("t".into(), None, None, None);
    p.add_task("u".into(), None, None, None);
    p.tasks[1].id = TaskId(1);
    p.concepts.push(Concept { id: ConceptId(1), name: "a".into(), description: None, parent: Some(ConceptId(9)) });
    assert_eq!(validate_project(&p), validate_unique_ids(&p));
    p.tasks[1].id = TaskId(2);
    assert_eq!(validate_project(&p), validate_tree(&p));
    p.concepts[0].parent = None;
    p.tasks[0].depends_on.push(TaskId(7));
    assert_eq!(validate_project(&p), validate_dag(&p.tasks));
}
