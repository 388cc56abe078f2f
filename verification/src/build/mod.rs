//! Building: the source graph of a project.

pub mod graph;
