# mindtask

A library and command-line tool that combines concept maps (a strict tree of
concepts) with a task dependency graph (a DAG of tasks that point at
concepts), stored in a single JSON file.

The library in `src/` is written in Verus: its functions carry
`requires`/`ensures` contracts over mathematical models (`Seq`, `Map`, spec
functions) and Verus proves the code against them. The few calls into
outside crates and std (petgraph, serde_json, terminal_size, string
lowercasing, path parents) go through small trusted wrappers whose contracts
state only what those sources document.

## Layout

- `src/model/`: identifiers, concepts, tasks, name validation, and the
  `Project` container with every mutation (add, edit, remove, move, link,
  dependencies, renumbering). `normalize.rs` proves that renumbering is
  idempotent and keeps the tree valid.
- `src/graph/`: tree validation and ancestry (`tree.rs`), the task graph,
  cycle detection, topological order and project validation (`dag.rs`).
- `src/cli/`: the computing part of the command line: text wrapping and
  tables (`render.rs`), the `--state` filter, search and excerpts, concept
  reports and the printed concept tree, and the text of listings and detail
  views (`listing.rs`).
- `src/export/`: PlantUML mind maps, dependency graphs and work breakdown
  structures; Mermaid is accepted and reported as not implemented.
- `src/import.rs`: projection of a typed concept graph onto a tree and the
  add-only merge into the concept tree.
- `src/store.rs`: where a project file's temporary sibling lives.
- `src/text.rs`, `src/seqs.rs`: character and sequence helpers.
- `tests/`: tests that run the compiled library.
- `app/`: the program around the library: argument parsing, JSON files,
  due dates and time zones, the floating-point CPM schedule and Gantt charts.

## Laws

Properties that span calls are public proof functions (`lemma_*`) or
clauses of the operations' `ensures`: round trips of identifiers, states,
formats and diagram kinds; the concept tree stays a valid forest under
every concept operation, import and renumbering; the task graph stays
acyclic under every task operation (a new task takes a fresh identifier);
wrapped text never exceeds its width, never ends a line in whitespace and
keeps every non-space character; indented blocks start every line with the
indent; table blocks never change the row lines; validation reports the
first failing stage's own message; a valid concept tree can always be
renumbered, and renumbering twice changes nothing; an import adds
concepts only inside its target's subtree; importing
again without re-parenting adds nothing, and no import touches concepts
outside its target.
