//! A line-oriented pattern search: a compiled pattern is run over the lines of
//! a file, of a directory tree or of standard input, and every matching line is
//! collected, per source, in a `SearchSummary`.
//!
//! The library holds the rules and leaves the reading to its caller: bytes and
//! directory entries come in as plain values, and the decisions (which searcher
//! runs, whether a link is opened, how lines are split and numbered, how
//! partial results are merged, what is printed) are verified here.

pub mod args;
pub mod config;
pub mod error;
pub mod matcher;
pub mod order;
pub mod printer;
pub mod searchers;
pub mod summary;
pub mod utils;
