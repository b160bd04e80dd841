//! Text rendering, listing filters, search and report selection used by the
//! command-line front end.
pub mod concept;
pub mod render;
pub mod search;
pub mod state_filter;
pub mod listing;
