//! Idiom detection over a tiny eight-symbol instruction stream.
//!
//! A template is a sequence of literal instructions and named bindings. A
//! binding stands for a tape address that is reached by a run of pointer
//! moves; wherever a name returns, the moves in between must lead back to
//! the same address. The crate decodes bytes into instructions, reads
//! templates from their textual form, and scans an instruction slice for
//! every place where a template matches.
//!
//! - [`common`]: the instruction alphabet and source positions.
//! - [`parser`]: the decoder from bytes to instructions.
//! - [`pattern`]: templates and the parser of their textual form.
//! - [`model`]: what matching means, as mathematics.
//! - [`action`]: changes to the state of an attempt, described before they
//!   are applied.
//! - [`matching`]: the match attempt and the scanner.
//! - [`laws`]: what holds of every attempt and of every scan.
//! - [`program`]: programs with resolved loops and the tape machine.
//! - [`bytes`]: a byte queue between a source and the decoder.
//! - [`group`]: templates as trees.
//! - [`errors`]: errors with their place in the source.

pub mod action;
pub mod bytes;
pub mod common;
pub mod errors;
pub mod group;
pub mod laws;
pub mod matching;
pub mod model;
pub mod parser;
pub mod pattern;
pub mod program;
