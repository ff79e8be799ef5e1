//! The parts of a line editor that decide: a bounded history of command lines
//! that can be kept in step with a file, and the matching of terminal queries
//! with their answers. Nothing here reads or writes; that is up to the caller.
pub mod history;
pub mod painting;
pub mod result;
