//! Helpers around the sources of a project.

pub mod find_main;
