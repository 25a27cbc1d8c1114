//! A small regular-expression search engine.
//!
//! A pattern string is compiled into a sequence of [`pattern::Pattern`]
//! nodes, and [`matcher::Matcher`] interprets that sequence against an
//! input text by recursive backtracking, with a bounded capture table
//! backing numbered groups and backreferences.

pub mod laws;
pub mod matcher;
pub mod pattern;

pub use matcher::Matcher;
pub use pattern::Pattern;
