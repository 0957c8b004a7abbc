//! A single-line regular-expression engine with greedy quantifiers,
//! capturing groups, alternations and numeric backreferences, together
//! with the leftmost-match search that a grep-like driver needs.

pub mod chars;
pub mod pattern;
pub mod parser;
pub mod matcher;
pub mod laws;
