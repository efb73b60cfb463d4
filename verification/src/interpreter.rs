//! The script interpreter: the token grammar over script text, and the
//! playback state machine that walks the token sequence.

pub mod parser;
pub mod interpreter;
