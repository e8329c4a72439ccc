//! A small, dependency-light decoder for a JSON-like textual format.
//!
//! The pipeline has two stages: a lexer that turns the input text into a
//! flat token stream (tracking line and column for diagnostics), and a
//! recursive-descent parser that consumes the tokens and builds a tree of
//! typed values. Both stages are specified by spec functions over the
//! input's character sequence and verified against them.

pub mod lexer;
pub mod parser;
