use mindtask::export::mermaid;
use mindtask::export::{parse_concept_root, parse_task_root, render, DiagramKind, Format};
use mindtask::model::id::{ConceptId, TaskId};
use mindtask::model::project::Project;

fn sample_project() -> Project {
    let mut p = Project::new();
    p.add_concept("Backend".into(), None, None).unwrap();
    p.add_concept("Frontend".into(), None, None).unwrap();
    p.add_task("Build API".into(), None, None, None);
    p.link_concept(TaskId(1), ConceptId(1)).unwrap();
    p
}

#[test]
fn gantt_rejects_root() {
    let p = sample_project();
    for format in [Format::PlantUml, Format::Mermaid] {
        let err = render(&p, format, DiagramKind::Gantt, Some("1"), "").unwrap_err();
        assert!(err.contains("gantt"), "{err}");
    }
}

#[test]
fn wbs_validates_root() {
    let p = sample_project();
    let err = render(&p, Format::PlantUml, DiagramKind::Wbs, Some("999"), "").unwrap_err();
    assert!(err.contains("not found"), "{err}");
}

#[test]
fn wbs_honors_root() {
    let p = sample_project();
    let out = render(&p, Format::PlantUml, DiagramKind::Wbs, Some("1"), "").unwrap();
    assert!(out.contains("Backend"), "{out}");
    assert!(out.contains("Build API"), "{out}");
    assert!(!out.contains("Frontend"), "{out}");
}

#[test]
fn gantt_text_passes_through_for_plantuml() {
    let p = sample_project();
    let out = render(&p, Format::PlantUml, DiagramKind::Gantt, None, "@startgantt\n@endgantt\n").unwrap();
    assert_eq!(out, "@startgantt\n@endgantt\n");
}

#[test]
fn mermaid_is_not_implemented_for_any_kind() {
    let p = sample_project();
    for kind in [DiagramKind::Tree, DiagramKind::Dag, DiagramKind::Gantt, DiagramKind::Wbs] {
        let err = render(&p, Format::Mermaid, kind, None, "").unwrap_err();
        assert_eq!(
            err,
            format!("mermaid {} export is not implemented yet; use 'plantuml' instead", kind.as_str())
        );
    }
    assert!(mermaid::tree(&p, None).is_err());
    assert!(mermaid::dag(&p, None).is_err());
    assert!(mermaid::gantt(&p).is_err());
    assert!(mermaid::wbs(&p, None).is_err());
    assert_eq!(
        mermaid::unimplemented("dag").unwrap_err(),
        "mermaid dag export is not implemented yet; use 'plantuml' instead"
    );
}

#[test]
fn root_parsing_reports_bad_ids_and_missing_items() {
    let p = sample_project();
    assert_eq!(parse_concept_root(&p, None).unwrap(), None);
    assert_eq!(parse_concept_root(&p, Some("c2")).unwrap(), Some(ConceptId(2)));
    assert_eq!(parse_concept_root(&p, Some("c9")).unwrap_err(), "concept c9 not found");
    assert_eq!(
        parse_concept_root(&p, Some("x")).unwrap_err(),
        "invalid concept ID format: expected 'c<number>', got 'x'"
    );
    assert_eq!(parse_task_root(&p, Some("t1")).unwrap(), Some(TaskId(1)));
    assert_eq!(parse_task_root(&p, Some("t4")).unwrap_err(), "task t4 not found");
}

#[test]
fn dag_root_must_exist() {
    let p = sample_project();
    let err = render(&p, Format::PlantUml, DiagramKind::Dag, Some("t7"), "").unwrap_err();
    assert_eq!(err, "task t7 not found");
    let out = render(&p, Format::PlantUml, DiagramKind::Dag, Some("t1"), "").unwrap();
    assert!(out.contains("component \"Build API\" as t1"), "{out}");
}

#[test]
fn format_and_kind_parse_and_print() {
    assert_eq!("plantuml".parse::<Format>(), Ok(Format::PlantUml));
    assert_eq!("mermaid".parse::<Format>(), Ok(Format::Mermaid));
    assert_eq!("svg".parse::<Format>().unwrap_err(), "invalid format 'svg': expected 'plantuml' or 'mermaid'");
    assert_eq!(Format::PlantUml.to_string(), "plantuml");
    for (s, k) in [("tree", DiagramKind::Tree), ("dag", DiagramKind::Dag), ("gantt", DiagramKind::Gantt), ("wbs", DiagramKind::Wbs)] {
        assert_eq!(s.parse::<DiagramKind>(), Ok(k));
        assert_eq!(k.to_string(), s);
    }
    assert_eq!(
        "pie".parse::<DiagramKind>().unwrap_err(),
        "invalid diagram kind 'pie': expected 'tree', 'dag', 'gantt', or 'wbs'"
    );
}
