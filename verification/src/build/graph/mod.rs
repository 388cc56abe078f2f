//! What the build learns about each source file.

pub mod class_info;
pub mod node;
pub mod package;
