//! Concept maps and task dependency graphs.
pub mod cli;
pub mod export;
pub mod graph;
pub mod import;
pub mod model;
pub mod seqs;
pub mod store;
pub mod text;
