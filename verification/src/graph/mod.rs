//! Structural validation of the concept tree and the task dependency DAG.
pub mod dag;
pub mod tree;
