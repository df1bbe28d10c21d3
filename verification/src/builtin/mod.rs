//! The parts of the built-in procedures that do not evaluate: checking the shape of
//! their arguments and computing on plain values.

pub mod primitive;
pub mod quote;
pub mod str;
