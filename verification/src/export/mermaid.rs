//! Mermaid diagram generation, not implemented yet.
//!
//! Every entry point returns `Err` rather than a placeholder text, so a script
//! never mistakes a placeholder for a diagram.
use vstd::prelude::*;

use crate::model::id::{ConceptId, TaskId};
use crate::model::project::Project;
use crate::text::{push_str, string_from};

verus! {

/// The message every Mermaid entry point fails with.
pub open spec fn unimplemented_message(kind: Seq<char>) -> Seq<char> {
    "mermaid "@ + kind + " export is not implemented yet; use 'plantuml' instead"@
}

/// The error every entry point returns until Mermaid support lands.
pub fn unimplemented(kind: &str) -> (r: Result<String, String>)
    ensures
        r matches Err(m) && m@ == unimplemented_message(kind@),
{
    let mut v: Vec<char> = Vec::new();
    push_str(&mut v, "mermaid ");
    push_str(&mut v, kind);
    push_str(&mut v, " export is not implemented yet; use 'plantuml' instead");
    assert(v@ =~= unimplemented_message(kind@));
    Err(string_from(v.as_slice()))
}

/// A Mermaid mindmap of the concept tree (not implemented: always `Err`).
pub fn tree(project: &Project, root_id: Option<ConceptId>) -> (r: Result<String, String>)
    ensures
        r matches Err(m) && m@ == unimplemented_message("tree"@),
{
    unimplemented("tree")
}

/// A Mermaid flowchart of the task dependency DAG (not implemented: always `Err`).
pub fn dag(project: &Project, root_id: Option<TaskId>) -> (r: Result<String, String>)
    ensures
        r matches Err(m) && m@ == unimplemented_message("dag"@),
{
    unimplemented("dag")
}

/// A Mermaid Gantt chart (not implemented: always `Err`).
pub fn gantt(project: &Project) -> (r: Result<String, String>)
    ensures
        r matches Err(m) && m@ == unimplemented_message("gantt"@),
{
    unimplemented("gantt")
}

/// A Mermaid WBS diagram (not implemented: always `Err`).
pub fn wbs(project: &Project, root_id: Option<ConceptId>) -> (r: Result<String, String>)
    ensures
        r matches Err(m) && m@ == unimplemented_message("wbs"@),
{
    unimplemented("wbs")
}

} // verus!
