use mindtask::import::{classify_line, line_kind};
use mindtask::import::ParsedLine;
use mindtask::graph::tree::validate_tree;
use mindtask::import::{apply, name_less, sorted_names, GraphInput, ImportError, Projection};
use mindtask::model::id::ConceptId;
use mindtask::model::project::Project;

fn node(g: &mut GraphInput, id: &str, docs: usize, category: Option<&str>) {
    g.add_node(id.to_string(), docs, category.map(|c| c.to_string()));
}

fn is_a(g: &mut GraphInput, from: &str, to: &str, weight: usize) {
    g.add_edge(Some(from.to_string()), Some(to.to_string()), Some("is-a".to_string()), weight);
}

fn simple() -> GraphInput {
    let mut g = GraphInput::new();
    node(&mut g, "Parametric VaR", 3, Some("finance/risk"));
    node(&mut g, "Value-at-Risk", 9, Some("finance/risk"));
    node(&mut g, "Isolated", 5, Some("statistics"));
    g.add_edge(None, None, None, 4);
    is_a(&mut g, "Parametric VaR", "Value-at-Risk", 2);
    g.add_edge(
        Some("Parametric VaR".to_string()),
        Some("Value-at-Risk".to_string()),
        Some("uses".to_string()),
        9,
    );
    g
}

#[test]
fn graph_keeps_only_is_a_edges_and_all_nodes() {
    let g = simple();
    assert_eq!(g.node_count(), 3);
    assert_eq!(g.is_a_count(), 1);
    assert_eq!(g.node("Parametric VaR"), Some((3, Some("finance".to_string()))));
    assert_eq!(g.node("Nowhere"), None);
}

#[test]
fn redeclared_node_replaces_the_earlier_one() {
    let mut g = GraphInput::new();
    node(&mut g, "A", 1, None);
    node(&mut g, "A", 4, Some(" top /x"));
    assert_eq!(g.node_count(), 1);
    assert_eq!(g.node("A"), Some((4, Some("top".to_string()))));
    node(&mut g, "B", 1, Some("  /x"));
    assert_eq!(g.node("B"), Some((1, None)));
}

#[test]
fn projection_groups_roots_under_category_umbrella() {
    let g = simple();
    let p = g.project_tree(1);
    let names: Vec<(&str, Option<&str>)> =
        p.concepts.iter().map(|c| (c.name.as_str(), c.parent.as_deref())).collect();
    assert_eq!(
        names,
        vec![
            ("finance", None),
            ("Value-at-Risk", Some("finance")),
            ("Parametric VaR", Some("Value-at-Risk")),
        ]
    );
    assert!(!p.concepts.iter().any(|c| c.name == "Isolated"));
    assert!(p.concepts[0].umbrella && p.concepts[0].docs == 0);
    assert_eq!(p.concepts[2].docs, 3);
}

#[test]
fn multi_parent_keeps_highest_weight() {
    let mut g = GraphInput::new();
    node(&mut g, "VPIN", 2, Some("finance"));
    node(&mut g, "Volume Measure", 3, None);
    node(&mut g, "Toxicity Metric", 3, None);
    is_a(&mut g, "VPIN", "Volume Measure", 1);
    is_a(&mut g, "VPIN", "Toxicity Metric", 3);
    let p = g.project_tree(1);
    let vpin = p.concepts.iter().find(|c| c.name == "VPIN").unwrap();
    assert_eq!(vpin.parent.as_deref(), Some("Toxicity Metric"));
    assert_eq!(p.multi_parent_dropped, vec![("VPIN".to_string(), "Volume Measure".to_string())]);
}

#[test]
fn multi_parent_tie_keeps_the_alphabetically_first_parent() {
    let mut g = GraphInput::new();
    is_a(&mut g, "X", "Beta", 2);
    is_a(&mut g, "X", "Alpha", 2);
    let p = g.project_tree(1);
    let x = p.concepts.iter().find(|c| c.name == "X").unwrap();
    assert_eq!(x.parent.as_deref(), Some("Alpha"));
    assert_eq!(p.multi_parent_dropped, vec![("X".to_string(), "Beta".to_string())]);
}

#[test]
fn cycle_is_broken_at_weakest_edge() {
    let mut g = GraphInput::new();
    node(&mut g, "A", 1, None);
    node(&mut g, "B", 1, None);
    node(&mut g, "C", 1, None);
    is_a(&mut g, "A", "B", 3);
    is_a(&mut g, "B", "C", 2);
    is_a(&mut g, "C", "A", 1);
    let p = g.project_tree(1);
    assert_eq!(p.cycle_dropped, vec![("C".to_string(), "A".to_string())]);
    let c = p.concepts.iter().find(|c| c.name == "C").unwrap();
    assert_eq!(c.parent, None);
    let a = p.concepts.iter().find(|c| c.name == "A").unwrap();
    assert_eq!(a.parent.as_deref(), Some("B"));
}

#[test]
fn self_edges_are_ignored() {
    let mut g = GraphInput::new();
    is_a(&mut g, "A", "A", 5);
    assert!(g.project_tree(1).concepts.is_empty());
}

#[test]
fn min_docs_prunes_weak_nodes() {
    let g = simple();
    let p = g.project_tree(5);
    assert!(p.concepts.is_empty());
}

fn project_with_target() -> (Project, ConceptId) {
    let mut proj = Project::new();
    let root = proj.add_concept("pdf-library".into(), None, None).unwrap();
    (proj, root)
}

#[test]
fn apply_adds_parents_before_children_and_is_idempotent() {
    let (mut proj, root) = project_with_target();
    let g = simple();
    let plan = g.project_tree(1);
    let r1 = apply(&mut proj, root, &plan, false).unwrap();
    assert_eq!(r1.added, vec!["finance", "Value-at-Risk", "Parametric VaR"]);
    assert!(r1.kept.is_empty());
    assert!(validate_tree(&proj).is_ok());
    let r2 = apply(&mut proj, root, &plan, false).unwrap();
    assert!(r2.added.is_empty());
    assert_eq!(r2.kept.len(), 3);
    assert_eq!(proj.concepts.len(), 4);
}

#[test]
fn apply_describes_what_it_added() {
    let (mut proj, root) = project_with_target();
    let plan = simple().project_tree(1);
    apply(&mut proj, root, &plan, false).unwrap();
    assert_eq!(proj.concepts[1].description.as_deref(), Some("pdfdex import: category umbrella"));
    assert_eq!(proj.concepts[3].description.as_deref(), Some("pdfdex import: 3 docs"));
    assert_eq!(proj.concepts[1].parent, Some(root));
}

#[test]
fn apply_reports_drift_but_keeps_hand_curation() {
    let (mut proj, root) = project_with_target();
    let plan = simple().project_tree(1);
    apply(&mut proj, root, &plan, false).unwrap();
    let var = proj.concepts.iter().find(|c| c.name == "Parametric VaR").unwrap().id;
    proj.move_concept(var, Some(root)).unwrap();
    let r = apply(&mut proj, root, &plan, false).unwrap();
    assert_eq!(r.drift.len(), 1);
    assert_eq!(r.drift[0].0, "Parametric VaR");
    assert_eq!(r.drift[0].1, "pdf-library");
    assert_eq!(r.drift[0].2, "Value-at-Risk");
    assert_eq!(proj.get_concept(var).unwrap().parent, Some(root));
    let r = apply(&mut proj, root, &plan, true).unwrap();
    assert_eq!(r.reparented, vec!["Parametric VaR"]);
    assert_ne!(proj.get_concept(var).unwrap().parent, Some(root));
}

#[test]
fn apply_never_touches_concepts_outside_the_target() {
    let (mut proj, root) = project_with_target();
    proj.add_concept("Value-at-Risk".into(), None, Some("mine".into())).unwrap();
    let plan = simple().project_tree(1);
    let r = apply(&mut proj, root, &plan, false).unwrap();
    assert!(r.added.contains(&"Value-at-Risk".to_string()));
    let outside = proj.concepts.iter().find(|c| c.description.as_deref() == Some("mine")).unwrap();
    assert_eq!(outside.parent, None);
}

#[test]
fn apply_missing_target_errors() {
    let mut proj = Project::new();
    let plan = Projection::new();
    assert!(matches!(apply(&mut proj, ConceptId(9), &plan, false), Err(ImportError::TargetNotFound(_))));
}

#[test]
fn names_sort_by_code_point() {
    assert!(name_less("Alpha", "Beta"));
    assert!(name_less("Z", "a"));
    assert!(name_less("ab", "abc"));
    assert!(!name_less("abc", "abc"));
    let v = vec!["pear".to_string(), "apple".to_string(), "pear".to_string(), "fig".to_string()];
    assert_eq!(sorted_names(&v), vec!["apple", "fig", "pear"]);
}

#[test]
fn import_without_reparenting_only_appends() {
    let (mut proj, root) = project_with_target();
    let plan = simple().project_tree(1);
    apply(&mut proj, root, &plan, false).unwrap();
    let var = proj.concepts.iter().find(|c| c.name == "Parametric VaR").unwrap().id;
    proj.move_concept(var, Some(root)).unwrap();
    let before = proj.concepts.clone();
    let mut more = simple();
    node(&mut more, "Expected Shortfall", 2, Some("finance/risk"));
    is_a(&mut more, "Expected Shortfall", "Value-at-Risk", 1);
    apply(&mut proj, root, &more.project_tree(1), false).unwrap();
    assert_eq!(proj.concepts.len(), before.len() + 1);
    assert_eq!(&proj.concepts[..before.len()], &before[..]);
    assert_eq!(proj.concepts[before.len()].name, "Expected Shortfall");
}

#[test]
fn reparenting_import_leaves_concepts_outside_the_target_alone() {
    let (mut proj, root) = project_with_target();
    let elsewhere = proj.add_concept("elsewhere".into(), None, None).unwrap();
    proj.add_concept("Parametric VaR".into(), Some(elsewhere), Some("mine".into())).unwrap();
    let outside = proj.concepts.clone();
    let plan = simple().project_tree(1);
    apply(&mut proj, root, &plan, true).unwrap();
    apply(&mut proj, root, &plan, true).unwrap();
    assert_eq!(&proj.concepts[..outside.len()], &outside[..]);
    assert!(validate_tree(&proj).is_ok());
}

#[test]
fn blank_lines_are_recognised() {
    assert!(mindtask::import::is_blank(""));
    assert!(mindtask::import::is_blank("  \t "));
    assert!(!mindtask::import::is_blank(" {} "));
}

#[test]
fn take_line_records_skips_or_stops() {
    let mut g = GraphInput::new();
    g.take_line(ParsedLine::Node { id: "a".into(), docs: 3, category: Some("Top/Sub".into()) }, 0).unwrap();
    g.take_line(
        ParsedLine::Edge { from: Some("a".into()), to: Some("b".into()), rel: Some("is-a".into()), weight: 2 },
        1,
    )
    .unwrap();
    g.take_line(
        ParsedLine::Edge { from: Some("a".into()), to: Some("b".into()), rel: Some("part-of".into()), weight: 2 },
        2,
    )
    .unwrap();
    g.take_line(ParsedLine::Other, 3).unwrap();
    assert_eq!(g.take_line(ParsedLine::Malformed, 4), Err(5));
    assert_eq!(g.node_count(), 1);
    assert_eq!(g.is_a_count(), 1);
    assert_eq!(g.node("a"), Some((3, Some("Top".to_string()))));
}

#[test]
fn unknown_json_is_skipped_and_broken_json_is_malformed() {
    assert!(matches!(classify_line(r#"{"type":"future","x":1}"#, None), ParsedLine::Other));
    assert!(matches!(classify_line("{not json", None), ParsedLine::Malformed));
    assert!(matches!(
        classify_line("{not json", Some(ParsedLine::Node { id: "a".into(), docs: 1, category: None })),
        ParsedLine::Node { .. }
    ));
    assert!(matches!(line_kind(None, true), ParsedLine::Other));
    assert!(matches!(line_kind(None, false), ParsedLine::Malformed));
}

#[test]
fn imported_concepts_land_inside_the_target() {
    let mut p = Project::new();
    let outside = p.add_concept("Outside".into(), None, None).unwrap();
    let target = p.add_concept("Target".into(), None, None).unwrap();
    p.add_concept("Inner".into(), Some(target), None).unwrap();
    let mut g = GraphInput::new();
    node(&mut g, "a", 1, Some("Cat"));
    node(&mut g, "b", 1, None);
    g.add_edge(Some("a".into()), Some("b".into()), Some("is-a".into()), 1);
    let projection = g.project_tree(1);
    let before = p.concepts.len();
    apply(&mut p, target, &projection, false).unwrap();
    let mut g2 = GraphInput::new();
    node(&mut g2, "a", 1, None);
    node(&mut g2, "c", 1, None);
    g2.add_edge(Some("a".into()), Some("c".into()), Some("is-a".into()), 5);
    g2.add_edge(Some("Inner".into()), Some("c".into()), Some("is-a".into()), 5);
    let projection2 = g2.project_tree(1);
    apply(&mut p, target, &projection2, true).unwrap();
    for c in &p.concepts[before..] {
        let mut at = c.id;
        let mut steps = 0;
        while at != target {
            at = p.get_concept(at).unwrap().parent.expect("reaches the target");
            assert_ne!(at, outside);
            steps += 1;
            assert!(steps <= p.concepts.len());
        }
    }
}
