//! Incremental line parser for compiled Sublime-Text-style syntax
//! definitions. A syntax is a graph of contexts, each holding ordered match
//! patterns (regexes plus stack actions). A `parser::ParseState` walks a file
//! line by line and emits, per line, the ordered scope-stack operations that
//! tell a consumer how semantic labels attach to byte ranges.

pub mod adapter;
pub mod graph;
pub mod laws;
pub mod ops;
pub mod parser;
pub mod scope;
pub mod subst;
