//! Interpretive core of a command shell: a byte-exact lexer that turns a
//! source buffer into a stream of words, a command model for pipelines and
//! lists, and the decision logic of an executor that drives OS processes.
//!
//! The crate itself performs no I/O: callers hand it source bytes and carry
//! out the spawn actions it asks for.

pub mod execute;
pub mod parse;
