//! Export project data as diagrams for external renderers.
//!
//! PlantUML covers tree, DAG, Gantt and WBS diagrams. Mermaid is accepted but
//! not implemented: every Mermaid request returns `Err`.
pub mod mermaid;
pub mod plantuml;

use vstd::prelude::*;

use crate::model::id::{id_text, parse_id_spec, ConceptId, TaskId};
use crate::model::project::{has_concept, has_task, lemma_concept_pos, lemma_task_pos, Project};
use crate::text::{push_str, str_eq, string_from};
use self::mermaid::unimplemented_message;
use self::plantuml::{dag_spec, tree_spec, wbs_spec};

verus! {

/// Output format for diagram generation.
#[derive(Debug, Clone, Copy, PartialEq, Eq, Structural)]
pub enum Format {
    /// PlantUML text.
    PlantUml,
    /// Mermaid text (not implemented).
    Mermaid,
}

/// Type of diagram to generate.
#[derive(Debug, Clone, Copy, PartialEq, Eq, Structural)]
pub enum DiagramKind {
    /// Mindmap of the concept tree.
    Tree,
    /// Component diagram of the task dependencies.
    Dag,
    /// Gantt chart of the tasks.
    Gantt,
    /// Work breakdown structure: concepts with their tasks as leaves.
    Wbs,
}

/// The command-line name of a format.
pub open spec fn format_text(f: Format) -> Seq<char> {
    match f {
        Format::PlantUml => "plantuml"@,
        Format::Mermaid => "mermaid"@,
    }
}

/// The command-line name of a diagram kind.
pub open spec fn kind_text(k: DiagramKind) -> Seq<char> {
    match k {
        DiagramKind::Tree => "tree"@,
        DiagramKind::Dag => "dag"@,
        DiagramKind::Gantt => "gantt"@,
        DiagramKind::Wbs => "wbs"@,
    }
}

impl Format {
    /// The command-line name: `plantuml` or `mermaid`.
    pub fn as_str(&self) -> (s: &'static str)
        ensures
            s@ == format_text(*self),
    {
        match self {
            Format::PlantUml => "plantuml",
            Format::Mermaid => "mermaid",
        }
    }

    /// The command-line name as an owned string.
    pub fn to_string(&self) -> (s: String)
        ensures
            s@ == format_text(*self),
    {
        self.as_str().to_string()
    }

    /// Parses a command-line name; the error names the accepted values.
    pub fn parse_str(s: &str) -> (r: Result<Format, String>)
        ensures
            s@ == "plantuml"@ ==> r == Ok::<Format, String>(Format::PlantUml),
            s@ == "mermaid"@ ==> r == Ok::<Format, String>(Format::Mermaid),
            s@ != "plantuml"@ && s@ != "mermaid"@ ==> (r matches Err(m) && m@ == "invalid format '"@ + s@
                + "': expected 'plantuml' or 'mermaid'"@),
    {
        proof {
            reveal_strlit("plantuml");
            reveal_strlit("mermaid");
            assert("plantuml"@.len() != "mermaid"@.len());
        }
        if str_eq(s, "plantuml") {
            Ok(Format::PlantUml)
        } else if str_eq(s, "mermaid") {
            Ok(Format::Mermaid)
        } else {
            let mut v: Vec<char> = Vec::new();
            push_str(&mut v, "invalid format '");
            push_str(&mut v, s);
            push_str(&mut v, "': expected 'plantuml' or 'mermaid'");
            Err(string_from(v.as_slice()))
        }
    }
}

impl std::str::FromStr for Format {
    type Err = String;

    fn from_str(s: &str) -> (r: Result<Format, String>)
        ensures
            s@ == "plantuml"@ ==> r == Ok::<Format, String>(Format::PlantUml),
            s@ == "mermaid"@ ==> r == Ok::<Format, String>(Format::Mermaid),
            s@ != "plantuml"@ && s@ != "mermaid"@ ==> (r matches Err(m) && m@ == "invalid format '"@ + s@
                + "': expected 'plantuml' or 'mermaid'"@),
    {
        Format::parse_str(s)
    }
}

impl DiagramKind {
    /// The command-line name: `tree`, `dag`, `gantt` or `wbs`.
    pub fn as_str(&self) -> (s: &'static str)
        ensures
            s@ == kind_text(*self),
    {
        match self {
            DiagramKind::Tree => "tree",
            DiagramKind::Dag => "dag",
            DiagramKind::Gantt => "gantt",
            DiagramKind::Wbs => "wbs",
        }
    }

    /// The command-line name as an owned string.
    pub fn to_string(&self) -> (s: String)
        ensures
            s@ == kind_text(*self),
    {
        self.as_str().to_string()
    }

    /// Parses a command-line name; the error names the accepted values.
    pub fn parse_str(s: &str) -> (r: Result<DiagramKind, String>)
        ensures
            s@ == "tree"@ ==> r == Ok::<DiagramKind, String>(DiagramKind::Tree),
            s@ == "dag"@ ==> r == Ok::<DiagramKind, String>(DiagramKind::Dag),
            s@ == "gantt"@ ==> r == Ok::<DiagramKind, String>(DiagramKind::Gantt),
            s@ == "wbs"@ ==> r == Ok::<DiagramKind, String>(DiagramKind::Wbs),
            s@ != "tree"@ && s@ != "dag"@ && s@ != "gantt"@ && s@ != "wbs"@ ==> (r matches Err(m) && m@
                == "invalid diagram kind '"@ + s@ + "': expected 'tree', 'dag', 'gantt', or 'wbs'"@),
    {
        proof {
            reveal_strlit("tree");
            reveal_strlit("dag");
            reveal_strlit("gantt");
            reveal_strlit("wbs");
            assert("tree"@[0] != "dag"@[0] && "tree"@[0] != "gantt"@[0] && "tree"@[0] != "wbs"@[0]);
            assert("dag"@[0] != "gantt"@[0] && "dag"@[0] != "wbs"@[0] && "gantt"@[0] != "wbs"@[0]);
        }
        if str_eq(s, "tree") {
            Ok(DiagramKind::Tree)
        } else if str_eq(s, "dag") {
            Ok(DiagramKind::Dag)
        } else if str_eq(s, "gantt") {
            Ok(DiagramKind::Gantt)
        } else if str_eq(s, "wbs") {
            Ok(DiagramKind::Wbs)
        } else {
            let mut v: Vec<char> = Vec::new();
            push_str(&mut v, "invalid diagram kind '");
            push_str(&mut v, s);
            push_str(&mut v, "': expected 'tree', 'dag', 'gantt', or 'wbs'");
            Err(string_from(v.as_slice()))
        }
    }
}

impl std::str::FromStr for DiagramKind {
    type Err = String;

    fn from_str(s: &str) -> (r: Result<DiagramKind, String>)
        ensures
            s@ == "tree"@ ==> r == Ok::<DiagramKind, String>(DiagramKind::Tree),
            s@ == "dag"@ ==> r == Ok::<DiagramKind, String>(DiagramKind::Dag),
            s@ == "gantt"@ ==> r == Ok::<DiagramKind, String>(DiagramKind::Gantt),
            s@ == "wbs"@ ==> r == Ok::<DiagramKind, String>(DiagramKind::Wbs),
            s@ != "tree"@ && s@ != "dag"@ && s@ != "gantt"@ && s@ != "wbs"@ ==> (r matches Err(m) && m@
                == "invalid diagram kind '"@ + s@ + "': expected 'tree', 'dag', 'gantt', or 'wbs'"@),
    {
        DiagramKind::parse_str(s)
    }
}

/// The text of an optional string argument.
pub open spec fn opt_text(s: Option<&str>) -> Option<Seq<char>> {
    match s {
        Some(t) => Some(t@),
        None => None,
    }
}

/// What `parse_concept_root` gives: the parsed identifier of an existing
/// concept, or the message of the parse error or of the missing concept.
pub open spec fn concept_root_spec(p: Project, root: Option<Seq<char>>) -> Result<Option<ConceptId>, Seq<char>> {
    match root {
        None => Ok(None),
        Some(s) => match parse_id_spec('c', s) {
            None => Err("invalid concept ID format: expected 'c<number>', got '"@ + s + "'"@),
            Some(n) => if has_concept(p.concepts@, ConceptId(n)) {
                Ok(Some(ConceptId(n)))
            } else {
                Err("concept "@ + id_text('c', n) + " not found"@)
            },
        },
    }
}

/// What `parse_task_root` gives: the parsed identifier of an existing task,
/// or the message of the parse error or of the missing task.
pub open spec fn task_root_spec(p: Project, root: Option<Seq<char>>) -> Result<Option<TaskId>, Seq<char>> {
    match root {
        None => Ok(None),
        Some(s) => match parse_id_spec('t', s) {
            None => Err("invalid task ID format: expected 't<number>', got '"@ + s + "'"@),
            Some(n) => if has_task(p.tasks@, TaskId(n)) {
                Ok(Some(TaskId(n)))
            } else {
                Err("task "@ + id_text('t', n) + " not found"@)
            },
        },
    }
}

/// A result with its texts taken by view.
pub open spec fn result_view<T>(r: Result<T, String>) -> Result<T, Seq<char>> {
    match r {
        Ok(x) => Ok(x),
        Err(e) => Err(e@),
    }
}

/// A text result with both sides taken by view.
pub open spec fn text_result(r: Result<String, String>) -> Result<Seq<char>, Seq<char>> {
    match r {
        Ok(x) => Ok(x@),
        Err(e) => Err(e@),
    }
}

/// Parses the optional root of a tree or WBS diagram and checks that the concept exists.
pub fn parse_concept_root(project: &Project, root: Option<&str>) -> (r: Result<Option<ConceptId>, String>)
    ensures
        result_view(r) == concept_root_spec(*project, opt_text(root)),
{
    match root {
        None => Ok(None),
        Some(s) => match ConceptId::parse_str(s) {
            Err(e) => Err(e.message()),
            Ok(id) => {
                proof {
                    lemma_concept_pos(project.concepts@, id);
                }
                if project.get_concept(id).is_none() {
                    let mut v: Vec<char> = Vec::new();
                    push_str(&mut v, "concept ");
                    crate::model::id::push_concept_id(&mut v, id);
                    push_str(&mut v, " not found");
                    Err(string_from(v.as_slice()))
                } else {
                    Ok(Some(id))
                }
            },
        },
    }
}

/// Parses the optional root of a DAG diagram and checks that the task exists.
pub fn parse_task_root(project: &Project, root: Option<&str>) -> (r: Result<Option<TaskId>, String>)
    ensures
        result_view(r) == task_root_spec(*project, opt_text(root)),
{
    match root {
        None => Ok(None),
        Some(s) => match TaskId::parse_str(s) {
            Err(e) => Err(e.message()),
            Ok(id) => {
                proof {
                    lemma_task_pos(project.tasks@, id);
                }
                if project.get_task(id).is_none() {
                    let mut v: Vec<char> = Vec::new();
                    push_str(&mut v, "task ");
                    crate::model::id::push_task_id(&mut v, id);
                    push_str(&mut v, " not found");
                    Err(string_from(v.as_slice()))
                } else {
                    Ok(Some(id))
                }
            },
        },
    }
}

/// What `render` gives. A Gantt chart is laid out from floating-point
/// durations and calendar dates, so its PlantUML text comes in as `gantt`.
pub open spec fn render_spec(
    p: Project,
    format: Format,
    kind: DiagramKind,
    root: Option<Seq<char>>,
    gantt: Seq<char>,
) -> Result<Seq<char>, Seq<char>> {
    if kind == DiagramKind::Gantt && root is Some {
        Err("gantt diagrams do not take a root ID"@)
    } else {
        match kind {
            DiagramKind::Tree | DiagramKind::Wbs => match concept_root_spec(p, root) {
                Err(e) => Err(e),
                Ok(r) => match format {
                    Format::PlantUml => Ok(
                        if kind == DiagramKind::Tree {
                            tree_spec(p.concepts@, r)
                        } else {
                            wbs_spec(p.concepts@, p.tasks@, r)
                        },
                    ),
                    Format::Mermaid => Err(unimplemented_message(kind_text(kind))),
                },
            },
            DiagramKind::Dag => match task_root_spec(p, root) {
                Err(e) => Err(e),
                Ok(r) => match format {
                    Format::PlantUml => Ok(dag_spec(p.tasks@, r)),
                    Format::Mermaid => Err(unimplemented_message("dag"@)),
                },
            },
            DiagramKind::Gantt => match format {
                Format::PlantUml => Ok(gantt),
                Format::Mermaid => Err(unimplemented_message("gantt"@)),
            },
        }
    }
}

/// Render a diagram from project data.
///
/// `root` is an optional identifier: a concept (`c<number>`) for tree and WBS
/// diagrams, a task (`t<number>`) for DAG diagrams. Gantt diagrams always cover
/// the whole project, and supplying a root for them is an error; their
/// PlantUML text is `plantuml_gantt`.
pub fn render(
    project: &Project,
    format: Format,
    kind: DiagramKind,
    root: Option<&str>,
    plantuml_gantt: &str,
) -> (r: Result<String, String>)
    requires
        project.concepts@.len() + 4 < usize::MAX,
    ensures
        text_result(r) == render_spec(*project, format, kind, opt_text(root), plantuml_gantt@),
{
    proof {
        reveal_strlit("tree");
        reveal_strlit("wbs");
    }
    if kind == DiagramKind::Gantt && root.is_some() {
        return Err("gantt diagrams do not take a root ID".to_string());
    }
    match kind {
        DiagramKind::Tree | DiagramKind::Wbs => {
            let root_id = match parse_concept_root(project, root) {
                Err(e) => return Err(e),
                Ok(r) => r,
            };
            match format {
                Format::PlantUml => {
                    if kind == DiagramKind::Tree {
                        Ok(plantuml::tree(project, root_id))
                    } else {
                        Ok(plantuml::wbs(project, root_id))
                    }
                },
                Format::Mermaid => {
                    if kind == DiagramKind::Tree {
                        mermaid::tree(project, root_id)
                    } else {
                        mermaid::wbs(project, root_id)
                    }
                },
            }
        },
        DiagramKind::Dag => {
            let root_id = match parse_task_root(project, root) {
                Err(e) => return Err(e),
                Ok(r) => r,
            };
            match format {
                Format::PlantUml => Ok(plantuml::dag(project, root_id)),
                Format::Mermaid => mermaid::dag(project, root_id),
            }
        },
        DiagramKind::Gantt => match format {
            Format::PlantUml => Ok(plantuml_gantt.to_string()),
            Format::Mermaid => mermaid::gantt(project),
        },
    }
}

/// The name of a format parses back to that format: it is the one name
/// `parse_str` maps to it.
pub proof fn lemma_format_roundtrip(f: Format)
    ensures
        (format_text(f) == "plantuml"@) == (f == Format::PlantUml),
        (format_text(f) == "mermaid"@) == (f == Format::Mermaid),
{
    reveal_strlit("plantuml");
    reveal_strlit("mermaid");
    assert("plantuml"@.len() != "mermaid"@.len());
}

/// The name of a diagram kind parses back to that kind: it is the one name
/// `parse_str` maps to it.
pub proof fn lemma_kind_roundtrip(k: DiagramKind)
    ensures
        (kind_text(k) == "tree"@) == (k == DiagramKind::Tree),
        (kind_text(k) == "dag"@) == (k == DiagramKind::Dag),
        (kind_text(k) == "gantt"@) == (k == DiagramKind::Gantt),
        (kind_text(k) == "wbs"@) == (k == DiagramKind::Wbs),
{
    reveal_strlit("tree");
    reveal_strlit("dag");
    reveal_strlit("gantt");
    reveal_strlit("wbs");
    assert("tree"@[0] != "dag"@[0] && "tree"@[0] != "gantt"@[0] && "tree"@[0] != "wbs"@[0]);
    assert("dag"@[0] != "gantt"@[0] && "dag"@[0] != "wbs"@[0] && "gantt"@[0] != "wbs"@[0]);
}

} // verus!
