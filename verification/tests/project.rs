use mindtask::model::concept::Concept;
use mindtask::model::id::{ConceptId, TaskId};
use mindtask::model::project::{Placement, Project, ProjectError};
use mindtask::model::task::TaskState;

fn dur(d: f64) -> Option<u64> {
    Some(d.to_bits())
}

#[test]
fn new_project() {
    let p = Project::new();
    assert_eq!(p.version, 1);
    assert!(p.concepts.is_empty());
    assert!(p.tasks.is_empty());
    assert_eq!(p.next_concept_id, 1);
    assert_eq!(p.next_task_id, 1);
}

#[test]
fn allocate_ids() {
    let mut p = Project::new();
    assert_eq!(p.allocate_concept_id(), ConceptId(1));
    assert_eq!(p.allocate_concept_id(), ConceptId(2));
    assert_eq!(p.allocate_task_id(), TaskId(1));
    assert_eq!(p.allocate_task_id(), TaskId(2));
}

#[test]
fn recompute_next_ids_follows_the_largest_id() {
    let mut p = Project::new();
    p.concepts.push(Concept { id: ConceptId(7), name: "a".into(), description: None, parent: None });
    p.add_task("t".into(), None, None, None);
    p.next_concept_id = 1;
    p.next_task_id = 1;
    p.recompute_next_ids();
    assert_eq!(p.next_concept_id, 8);
    assert_eq!(p.next_task_id, 2);
}

#[test]
fn add_concept_with_invalid_parent() {
    let mut p = Project::new();
    let err = p.add_concept("Orphan".into(), Some(ConceptId(99)), None).unwrap_err();
    assert!(matches!(err, ProjectError::ConceptNotFound(_)));
}

#[test]
fn remove_concept_with_children_fails() {
    let mut p = Project::new();
    p.add_concept("Parent".into(), None, None).unwrap();
    p.add_concept("Child".into(), Some(ConceptId(1)), None).unwrap();
    let err = p.remove_concept(ConceptId(1)).unwrap_err();
    assert!(matches!(err, ProjectError::ConceptHasChildren(_)));
}

#[test]
fn remove_concept_referenced_by_task_fails() {
    let mut p = Project::new();
    p.add_concept("Topic".into(), None, None).unwrap();
    let tid = p.add_task("Work".into(), None, None, None);
    p.link_concept(tid, ConceptId(1)).unwrap();
    let err = p.remove_concept(ConceptId(1)).unwrap_err();
    assert!(matches!(err, ProjectError::ConceptReferencedByTasks(_, _)));
}

#[test]
fn remove_leaf_concept_succeeds() {
    let mut p = Project::new();
    p.add_concept("Leaf".into(), None, None).unwrap();
    p.remove_concept(ConceptId(1)).unwrap();
    assert!(p.concepts.is_empty());
}

#[test]
fn move_concept_prevents_self_parent() {
    let mut p = Project::new();
    p.add_concept("A".into(), None, None).unwrap();
    let err = p.move_concept(ConceptId(1), Some(ConceptId(1))).unwrap_err();
    assert!(matches!(err, ProjectError::ConceptCycleDetected { .. }));
}

#[test]
fn move_concept_prevents_cycle() {
    let mut p = Project::new();
    p.add_concept("A".into(), None, None).unwrap();
    p.add_concept("B".into(), Some(ConceptId(1)), None).unwrap();
    p.add_concept("C".into(), Some(ConceptId(2)), None).unwrap();
    let err = p.move_concept(ConceptId(1), Some(ConceptId(3))).unwrap_err();
    assert!(matches!(err, ProjectError::ConceptCycleDetected { .. }));
}

#[test]
fn move_concept_succeeds() {
    let mut p = Project::new();
    p.add_concept("A".into(), None, None).unwrap();
    p.add_concept("B".into(), None, None).unwrap();
    p.add_concept("C".into(), Some(ConceptId(1)), None).unwrap();
    p.move_concept(ConceptId(3), Some(ConceptId(2))).unwrap();
    assert_eq!(p.get_concept(ConceptId(3)).unwrap().parent, Some(ConceptId(2)));
}

#[test]
fn children_of_and_roots() {
    let mut p = Project::new();
    p.add_concept("R1".into(), None, None).unwrap();
    p.add_concept("R2".into(), None, None).unwrap();
    p.add_concept("C1".into(), Some(ConceptId(1)), None).unwrap();
    p.add_concept("C2".into(), Some(ConceptId(1)), None).unwrap();
    assert_eq!(p.roots().len(), 2);
    assert_eq!(p.children_of(ConceptId(1)).len(), 2);
    assert_eq!(p.children_of(ConceptId(2)).len(), 0);
}

fn ids(p: &Project) -> Vec<u64> {
    p.dfs_preorder_ids().iter().map(|c| c.0).collect()
}

#[test]
fn dfs_preorder_single_chain() {
    let mut p = Project::new();
    p.add_concept("root".into(), None, None).unwrap();
    p.add_concept("child".into(), Some(ConceptId(1)), None).unwrap();
    p.add_concept("grandchild".into(), Some(ConceptId(2)), None).unwrap();
    assert_eq!(ids(&p), vec![1, 2, 3]);
}

#[test]
fn dfs_preorder_subtree_before_next_root() {
    let mut p = Project::new();
    p.add_concept("R1".into(), None, None).unwrap();
    p.add_concept("R2".into(), None, None).unwrap();
    p.add_concept("R1a".into(), Some(ConceptId(1)), None).unwrap();
    p.add_concept("R1b".into(), Some(ConceptId(1)), None).unwrap();
    p.add_concept("R2a".into(), Some(ConceptId(2)), None).unwrap();
    assert_eq!(ids(&p), vec![1, 3, 4, 2, 5]);
}

fn concept(id: u64, parent: Option<u64>) -> Concept {
    Concept { id: ConceptId(id), name: format!("c{id}"), description: None, parent: parent.map(ConceptId) }
}

#[test]
fn dfs_preorder_follows_array_order_not_id_order() {
    let mut p = Project::new();
    p.concepts.push(concept(10, None));
    p.concepts.push(concept(3, Some(10)));
    p.concepts.push(concept(1, Some(10)));
    p.recompute_next_ids();
    assert_eq!(ids(&p), vec![10, 3, 1]);
    assert_eq!(ids(&p).len(), p.concepts.len());
}

fn scrambled_project() -> Project {
    let mut p = Project::new();
    p.concepts.push(concept(5, None));
    p.concepts.push(concept(2, Some(5)));
    p.concepts.push(concept(7, Some(5)));
    p.concepts.push(concept(9, Some(2)));
    p.recompute_next_ids();
    let t = p.add_task("t".into(), None, None, None);
    p.get_task_mut(t).unwrap().concepts = vec![ConceptId(9), ConceptId(5)];
    p
}

#[test]
fn normalize_renumbers_to_dfs_and_remaps_refs() {
    let mut p = scrambled_project();
    let plan = p.plan_normalization().unwrap();
    assert_eq!(
        plan.pairs,
        vec![
            (ConceptId(5), ConceptId(1)),
            (ConceptId(2), ConceptId(2)),
            (ConceptId(9), ConceptId(3)),
            (ConceptId(7), ConceptId(4)),
        ]
    );
    p.apply_normalization(&plan);
    let array: Vec<(u64, &str)> = p.concepts.iter().map(|c| (c.id.0, c.name.as_str())).collect();
    assert_eq!(array, vec![(1, "c5"), (2, "c2"), (3, "c9"), (4, "c7")]);
    assert_eq!(p.get_concept(ConceptId(2)).unwrap().parent, Some(ConceptId(1)));
    assert_eq!(p.get_concept(ConceptId(3)).unwrap().parent, Some(ConceptId(2)));
    assert_eq!(p.get_concept(ConceptId(4)).unwrap().parent, Some(ConceptId(1)));
    assert_eq!(p.tasks[0].concepts, vec![ConceptId(3), ConceptId(1)]);
    assert!(mindtask::graph::tree::validate_tree(&p).is_ok());
    assert_eq!(p.next_concept_id, 5);
}

#[test]
fn normalize_is_idempotent() {
    let mut p = scrambled_project();
    let plan = p.plan_normalization().unwrap();
    p.apply_normalization(&plan);
    let once = p.concepts.clone();
    let links_once: Vec<_> = p.tasks.iter().map(|t| t.concepts.clone()).collect();
    let plan2 = p.plan_normalization().unwrap();
    assert!(plan2.is_identity());
    p.apply_normalization(&plan2);
    assert_eq!(p.concepts, once);
    let links_twice: Vec<_> = p.tasks.iter().map(|t| t.concepts.clone()).collect();
    assert_eq!(links_once, links_twice);
}

#[test]
fn normalize_noop_on_already_canonical() {
    let mut p = Project::new();
    p.add_concept("root".into(), None, None).unwrap();
    p.add_concept("child".into(), Some(ConceptId(1)), None).unwrap();
    p.add_concept("grandchild".into(), Some(ConceptId(2)), None).unwrap();
    let before = p.concepts.clone();
    let plan = p.plan_normalization().unwrap();
    assert!(plan.is_identity());
    p.apply_normalization(&plan);
    assert_eq!(p.concepts, before);
}

#[test]
fn normalize_leaves_task_dependencies_untouched() {
    let mut p = scrambled_project();
    let t2 = p.add_task("t2".into(), None, None, None);
    let t1 = p.tasks[0].id;
    p.get_task_mut(t2).unwrap().depends_on = vec![t1];
    let deps_before: Vec<_> = p.tasks.iter().map(|t| t.depends_on.clone()).collect();
    let plan = p.plan_normalization().unwrap();
    p.apply_normalization(&plan);
    let deps_after: Vec<_> = p.tasks.iter().map(|t| t.depends_on.clone()).collect();
    assert_eq!(deps_before, deps_after);
}

#[test]
fn normalize_reports_unreachable_concepts() {
    let mut p = Project::new();
    p.concepts.push(concept(1, Some(2)));
    p.concepts.push(concept(2, Some(1)));
    p.concepts.push(concept(3, None));
    match p.plan_normalization() {
        Err(ProjectError::UnreachableConcepts(n)) => assert_eq!(n, 2),
        other => panic!("expected UnreachableConcepts, got {other:?}"),
    }
}

fn forest() -> Project {
    let mut p = Project::new();
    p.add_concept("root".into(), None, None).unwrap();
    p.add_concept("a".into(), Some(ConceptId(1)), None).unwrap();
    p.add_concept("b".into(), Some(ConceptId(1)), None).unwrap();
    p.add_concept("c".into(), Some(ConceptId(1)), None).unwrap();
    p.add_concept("root2".into(), None, None).unwrap();
    p
}

fn child_order(p: &Project, parent: u64) -> Vec<u64> {
    p.children_of(ConceptId(parent)).iter().map(|c| c.id.0).collect()
}

#[test]
fn move_before_reorders_siblings() {
    let mut p = forest();
    p.move_concept_positioned(ConceptId(4), Placement::Before(ConceptId(2))).unwrap();
    assert_eq!(child_order(&p, 1), vec![4, 2, 3]);
}

#[test]
fn move_after_reorders_siblings() {
    let mut p = forest();
    p.move_concept_positioned(ConceptId(2), Placement::After(ConceptId(3))).unwrap();
    assert_eq!(child_order(&p, 1), vec![3, 2, 4]);
}

#[test]
fn move_positioned_across_parents_reparents() {
    let mut p = forest();
    p.move_concept_positioned(ConceptId(2), Placement::Before(ConceptId(5))).unwrap();
    assert_eq!(p.get_concept(ConceptId(2)).unwrap().parent, None);
    let roots: Vec<u64> = p.roots().iter().map(|c| c.id.0).collect();
    assert_eq!(roots, vec![1, 2, 5]);
    assert_eq!(child_order(&p, 1), vec![3, 4]);
}

#[test]
fn move_positioned_rejects_self_anchor() {
    let mut p = forest();
    assert!(matches!(
        p.move_concept_positioned(ConceptId(2), Placement::Before(ConceptId(2))),
        Err(ProjectError::SelfPlacement(_))
    ));
}

#[test]
fn move_positioned_rejects_missing_anchor() {
    let mut p = forest();
    assert!(matches!(
        p.move_concept_positioned(ConceptId(2), Placement::After(ConceptId(99))),
        Err(ProjectError::ConceptNotFound(_))
    ));
}

#[test]
fn move_positioned_rejects_cycle() {
    let mut p = forest();
    p.add_concept("a-child".into(), Some(ConceptId(2)), None).unwrap();
    assert!(matches!(
        p.move_concept_positioned(ConceptId(1), Placement::Before(ConceptId(6))),
        Err(ProjectError::ConceptCycleDetected { .. })
    ));
}

#[test]
fn placement_anchor_is_the_sibling() {
    assert_eq!(Placement::Before(ConceptId(3)).anchor(), ConceptId(3));
    assert_eq!(Placement::After(ConceptId(4)).anchor(), ConceptId(4));
}

#[test]
fn add_and_remove_task() {
    let mut p = Project::new();
    let id = p.add_task("Test".into(), None, None, None);
    assert_eq!(id, TaskId(1));
    assert_eq!(p.tasks.len(), 1);
    p.remove_task(id).unwrap();
    assert!(p.tasks.is_empty());
}

#[test]
fn remove_task_cleans_up_deps() {
    let mut p = Project::new();
    let t1 = p.add_task("A".into(), None, None, None);
    let t2 = p.add_task("B".into(), None, None, None);
    p.add_dependency(t2, t1).unwrap();
    assert_eq!(p.get_task(t2).unwrap().depends_on.len(), 1);
    p.remove_task(t1).unwrap();
    assert!(p.get_task(t2).unwrap().depends_on.is_empty());
}

#[test]
fn self_dependency_fails() {
    let mut p = Project::new();
    let t1 = p.add_task("A".into(), None, None, None);
    let err = p.add_dependency(t1, t1).unwrap_err();
    assert!(matches!(err, ProjectError::SelfDependency(_)));
}

#[test]
fn remove_dependency_missing_edge_fails() {
    let mut p = Project::new();
    let t1 = p.add_task("A".into(), None, None, None);
    let t2 = p.add_task("B".into(), None, None, None);
    let err = p.remove_dependency(t2, t1).unwrap_err();
    assert!(matches!(err, ProjectError::DependencyNotFound(_, _)));
}

#[test]
fn remove_dependency_task_not_found_fails() {
    let mut p = Project::new();
    let err = p.remove_dependency(TaskId(99), TaskId(1)).unwrap_err();
    assert!(matches!(err, ProjectError::TaskNotFound(_)));
}

#[test]
fn remove_dependency_succeeds() {
    let mut p = Project::new();
    let t1 = p.add_task("A".into(), None, None, None);
    let t2 = p.add_task("B".into(), None, None, None);
    p.add_dependency(t2, t1).unwrap();
    p.remove_dependency(t2, t1).unwrap();
    assert!(p.get_task(t2).unwrap().depends_on.is_empty());
}

#[test]
fn duplicate_dependency_fails() {
    let mut p = Project::new();
    let t1 = p.add_task("A".into(), None, None, None);
    let t2 = p.add_task("B".into(), None, None, None);
    p.add_dependency(t2, t1).unwrap();
    let err = p.add_dependency(t2, t1).unwrap_err();
    assert!(matches!(err, ProjectError::DuplicateDependency(_, _)));
}

#[test]
fn cycle_detection() {
    let mut p = Project::new();
    let t1 = p.add_task("A".into(), None, None, None);
    let t2 = p.add_task("B".into(), None, None, None);
    let t3 = p.add_task("C".into(), None, None, None);
    p.add_dependency(t2, t1).unwrap();
    p.add_dependency(t3, t2).unwrap();
    let err = p.add_dependency(t1, t3).unwrap_err();
    assert!(matches!(err, ProjectError::DependencyCycle { .. }));
    assert!(p.get_task(t1).unwrap().depends_on.is_empty());
}

#[test]
fn dependency_on_missing_task_fails() {
    let mut p = Project::new();
    let t1 = p.add_task("A".into(), None, None, None);
    assert!(matches!(p.add_dependency(t1, TaskId(9)), Err(ProjectError::TaskNotFound(TaskId(9)))));
}

#[test]
fn link_unlink_concept() {
    let mut p = Project::new();
    p.add_concept("Topic".into(), None, None).unwrap();
    let t1 = p.add_task("Work".into(), None, None, None);
    p.link_concept(t1, ConceptId(1)).unwrap();
    assert_eq!(p.get_task(t1).unwrap().concepts.len(), 1);
    p.link_concept(t1, ConceptId(1)).unwrap();
    assert_eq!(p.get_task(t1).unwrap().concepts.len(), 1);
    p.unlink_concept(t1, ConceptId(1)).unwrap();
    assert!(p.get_task(t1).unwrap().concepts.is_empty());
}

#[test]
fn unlink_concept_not_linked_fails() {
    let mut p = Project::new();
    p.add_concept("Topic".into(), None, None).unwrap();
    let t1 = p.add_task("Work".into(), None, None, None);
    let err = p.unlink_concept(t1, ConceptId(1)).unwrap_err();
    assert!(matches!(err, ProjectError::ConceptNotLinked(_, _)));
}

#[test]
fn unlink_concept_task_not_found_fails() {
    let mut p = Project::new();
    let err = p.unlink_concept(TaskId(99), ConceptId(1)).unwrap_err();
    assert!(matches!(err, ProjectError::TaskNotFound(_)));
}

#[test]
fn link_to_missing_concept_fails() {
    let mut p = Project::new();
    let t1 = p.add_task("Work".into(), None, None, None);
    assert!(matches!(p.link_concept(t1, ConceptId(4)), Err(ProjectError::ConceptNotFound(ConceptId(4)))));
}

#[test]
fn edit_concept_name_and_description() {
    let mut p = Project::new();
    p.add_concept("Old".into(), None, None).unwrap();
    p.edit_concept(ConceptId(1), Some("New".into()), Some(Some("desc".into()))).unwrap();
    let c = p.get_concept(ConceptId(1)).unwrap();
    assert_eq!(c.name, "New");
    assert_eq!(c.description.as_deref(), Some("desc"));
}

#[test]
fn edit_concept_clear_description() {
    let mut p = Project::new();
    p.add_concept("A".into(), None, Some("old desc".into())).unwrap();
    p.edit_concept(ConceptId(1), None, Some(None)).unwrap();
    assert!(p.get_concept(ConceptId(1)).unwrap().description.is_none());
}

#[test]
fn edit_concept_not_found() {
    let mut p = Project::new();
    let err = p.edit_concept(ConceptId(99), Some("X".into()), None).unwrap_err();
    assert!(matches!(err, ProjectError::ConceptNotFound(_)));
}

#[test]
fn edit_task_name_and_description() {
    let mut p = Project::new();
    let id = p.add_task("Old".into(), None, dur(1.0), None);
    p.edit_task(id, Some("New".into()), Some(Some("desc".into())), None).unwrap();
    let t = p.get_task(id).unwrap();
    assert_eq!(t.name, "New");
    assert_eq!(t.description.as_deref(), Some("desc"));
    assert_eq!(t.duration, dur(1.0));
}

#[test]
fn edit_task_clear_description_and_duration() {
    let mut p = Project::new();
    let id = p.add_task("T".into(), Some("desc".into()), dur(2.0), None);
    p.edit_task(id, None, Some(None), Some(None)).unwrap();
    let t = p.get_task(id).unwrap();
    assert!(t.description.is_none());
    assert!(t.duration.is_none());
}

#[test]
fn edit_task_not_found() {
    let mut p = Project::new();
    let err = p.edit_task(TaskId(99), Some("X".into()), None, None).unwrap_err();
    assert!(matches!(err, ProjectError::TaskNotFound(_)));
}

#[test]
fn set_task_state() {
    let mut p = Project::new();
    let t1 = p.add_task("Work".into(), None, None, None);
    assert_eq!(p.get_task(t1).unwrap().state, TaskState::Todo);
    p.set_task_state(t1, TaskState::InProgress).unwrap();
    assert_eq!(p.get_task(t1).unwrap().state, TaskState::InProgress);
    p.set_task_state(t1, TaskState::Done).unwrap();
    assert_eq!(p.get_task(t1).unwrap().state, TaskState::Done);
}

#[test]
fn set_task_due_and_missing_task() {
    let mut p = Project::new();
    let t1 = p.add_task("Work".into(), None, None, None);
    p.set_task_due(t1, Some("2025-03-15T00:00:00+00:00[UTC]".into())).unwrap();
    assert_eq!(p.get_task(t1).unwrap().due.as_deref(), Some("2025-03-15T00:00:00+00:00[UTC]"));
    assert!(matches!(p.set_task_due(TaskId(5), None), Err(ProjectError::TaskNotFound(_))));
}

#[test]
fn timezone_defaults_to_utc() {
    let mut p = Project::new();
    assert_eq!(p.timezone_or_utc(), "UTC");
    p.timezone = Some("Europe/Zurich".into());
    assert_eq!(p.timezone_or_utc(), "Europe/Zurich");
}

#[test]
fn removing_dependencies_and_tasks_keeps_the_graph_acyclic() {
    let mut p = Project::new();
    let a = p.add_task("a".into(), None, None, None);
    let b = p.add_task("b".into(), None, None, None);
    let c = p.add_task("c".into(), None, None, None);
    p.add_dependency(b, a).unwrap();
    p.add_dependency(c, b).unwrap();
    p.add_dependency(c, a).unwrap();
    assert!(mindtask::graph::dag::validate_dag(&p.tasks).is_ok());
    p.remove_dependency(c, b).unwrap();
    assert!(mindtask::graph::dag::validate_dag(&p.tasks).is_ok());
    assert_eq!(p.get_task(c).unwrap().depends_on, vec![a]);
    p.remove_task(a).unwrap();
    assert!(mindtask::graph::dag::validate_dag(&p.tasks).is_ok());
    assert!(p.tasks.iter().all(|t| t.depends_on.is_empty()));
    // The cycle that was refused before stays refusable afterwards.
    p.add_dependency(b, c).unwrap();
    assert!(matches!(p.add_dependency(c, b), Err(ProjectError::DependencyCycle { .. })));
}

#[test]
fn normalized_parents_carry_smaller_numbers() {
    let mut p = scrambled_project();
    let plan = p.plan_normalization().unwrap();
    p.apply_normalization(&plan);
    for c in &p.concepts {
        if let Some(parent) = c.parent {
            assert!(parent.0 < c.id.0, "{:?}", c);
        }
    }
    assert!(mindtask::graph::dag::validate_project(&p).is_ok());
}

#[test]
fn editing_a_concept_keeps_the_tree() {
    let mut p = scrambled_project();
    p.edit_concept(ConceptId(2), Some("renamed".into()), Some(Some("about".into()))).unwrap();
    assert!(mindtask::graph::tree::validate_tree(&p).is_ok());
    assert_eq!(p.get_concept(ConceptId(9)).unwrap().parent, Some(ConceptId(2)));
}

#[test]
fn add_task_linked_links_each_concept_once_in_order() {
    let mut p = Project::new();
    let a = p.add_concept("A".into(), None, None).unwrap();
    let b = p.add_concept("B".into(), None, None).unwrap();
    let id = p.add_task_linked("t".into(), None, None, None, &[b, a, b]).unwrap();
    assert_eq!(id, TaskId(1));
    let t = p.get_task(id).unwrap();
    assert_eq!(t.concepts, vec![b, a]);
    assert_eq!(t.state, TaskState::Todo);
    assert_eq!(p.next_task_id, 2);
}

#[test]
fn add_task_linked_refuses_a_missing_concept_and_changes_nothing() {
    let mut p = Project::new();
    let a = p.add_concept("A".into(), None, None).unwrap();
    let r = p.add_task_linked("t".into(), None, None, None, &[a, ConceptId(9), ConceptId(8)]);
    assert!(matches!(r, Err(ProjectError::ConceptNotFound(ConceptId(9)))));
    assert!(p.tasks.is_empty());
    assert_eq!(p.next_task_id, 1);
}

#[test]
fn changed_pairs_lists_only_renamed_concepts() {
    let mut p = Project::new();
    p.add_concept("root".into(), None, None).unwrap();
    p.add_concept("b".into(), None, None).unwrap();
    p.add_concept("a".into(), Some(ConceptId(1)), None).unwrap();
    let plan = p.plan_normalization().unwrap();
    let changed = plan.changed_pairs();
    assert!(changed.iter().all(|(o, n)| o != n));
    assert_eq!(changed.len(), plan.pairs.iter().filter(|(o, n)| o != n).count());
    assert!(!changed.is_empty());
}

#[test]
fn normalize_plans_and_applies_in_one_step() {
    let mut p = Project::new();
    p.add_concept("root".into(), None, None).unwrap();
    p.add_concept("b".into(), None, None).unwrap();
    p.add_concept("a".into(), Some(ConceptId(1)), None).unwrap();
    let t = p.add_task_linked("t".into(), None, None, None, &[ConceptId(2)]).unwrap();
    let plan = p.normalize().unwrap();
    assert!(!plan.is_identity());
    assert_eq!(p.concepts.iter().map(|c| c.id.0).collect::<Vec<_>>(), vec![1, 2, 3]);
    assert_eq!(p.concepts[1].name, "a");
    assert_eq!(p.concepts[1].parent, Some(ConceptId(1)));
    assert_eq!(p.get_task(t).unwrap().concepts, vec![ConceptId(3)]);
    assert!(p.normalize().unwrap().is_identity());
}

#[test]
fn normalize_refuses_unreachable_concepts_and_changes_nothing() {
    let mut p = Project::new();
    p.concepts.push(Concept { id: ConceptId(1), name: "x".into(), description: None, parent: Some(ConceptId(1)) });
    let before = p.concepts.clone();
    assert!(matches!(p.normalize(), Err(ProjectError::UnreachableConcepts(1))));
    assert_eq!(p.concepts, before);
}

#[test]
fn a_valid_tree_can_always_be_planned() {
    let mut p = Project::new();
    p.add_concept("r".into(), None, None).unwrap();
    p.add_concept("s".into(), None, None).unwrap();
    p.add_concept("a".into(), Some(ConceptId(2)), None).unwrap();
    p.add_concept("b".into(), Some(ConceptId(3)), None).unwrap();
    assert!(mindtask::graph::tree::validate_tree(&p).is_ok());
    assert!(p.plan_normalization().is_ok());
}
