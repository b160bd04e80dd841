//! Data model for projects, concepts, and tasks.
pub mod concept;
pub mod id;
pub mod project;
pub mod task;
pub mod validate;
pub mod normalize;
