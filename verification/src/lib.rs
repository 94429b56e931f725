//! The coordination core of a small script interpreter whose scripts can
//! print, run children in order, and hand a prompt to a conversational agent
//! that may call back into the script while its turn runs.
//!
//! Nothing here performs I/O. Each component is a state machine over plain
//! values: the caller feeds it what arrived and carries out what it answers.

pub mod ast;
pub mod driver;
pub mod error;
pub mod evaluation;
pub mod interpreter;
pub mod router;
