//! The history of command lines.
pub mod base;
pub mod codec;
pub mod file_backed;
pub mod laws;
pub mod lines;
pub mod search;
