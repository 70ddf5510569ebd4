//! A verified parser that turns a flat sequence of delimited text lines into a
//! hierarchical tree. A line's position in the tree is decided not by
//! indentation but by a declared schema: each line type (identified by its
//! leading prefix token) declares which line types may nest beneath it. The
//! parser resolves each line to the closest currently open ancestor that the
//! schema permits, using a backtracking stack of open ancestors.

pub mod errors;
pub mod index;
pub mod laws;
pub mod models;
pub mod parser;
pub mod semantics;
pub mod tokenizer;
