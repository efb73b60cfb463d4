//! krkrs: a tokenizer for a line-oriented visual-novel scripting format.
//!
//! The crate is organised in four layers, each built on the ones below it:
//!
//! * `parsec::combinator` — a small parsing-combinator engine: first-class
//!   parser values over a sequence of Unicode code points, with a
//!   destructive one-element primitive and opt-in backtracking wrappers.
//! * `parsec::lexical` — character-level parsers (exact characters and
//!   literals, whitespace classes, digit and word runs, line endings)
//!   expressed as combinator values.
//! * `interpreter::parser` — the concrete token grammar: page labels,
//!   line tags, inline tags and escaped narration text, tokenized in one
//!   pass over the whole input.
//! * `interpreter::interpreter` — the playback state machine that walks a
//!   token sequence and accumulates the displayed text and scene.

pub mod parsec;
pub mod interpreter;
