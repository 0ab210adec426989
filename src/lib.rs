//! Finds the versioned C-runtime symbol requirements of a binary and of
//! its shared-library closure, and aggregates them by version.
pub mod errors;
pub mod graph;
pub mod laws;
pub mod scan;
pub mod sets;
pub mod table;
pub mod text;
