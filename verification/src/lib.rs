//! A Brainfuck interpreter, verified with Verus.
//!
//! The crate is a two-stage pipeline. The lexer compiles source text into a
//! compact instruction stream: comment characters are dropped, runs of the
//! same operator are folded into counted instructions, and bracket pairs are
//! matched in a single forward pass so that every branch target is resolved
//! before execution begins. The machine then executes that stream over a
//! fixed 30,000-byte memory, reading from an in-memory byte source and
//! writing to an in-memory byte sink; the process's real standard streams
//! are the caller's business.

pub mod instruction;
pub mod lexer;
pub mod machine;
pub mod token;
