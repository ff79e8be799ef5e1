//! What the line editor says to the terminal.
pub mod dsr;
