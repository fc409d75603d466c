//! Text search and replace over the lines of a text file: the matches of a
//! plain or regular-expression pattern, with their row, byte column and length,
//! and the replacement of those matches in the text.

pub mod utf8_facts;
pub mod lines;
pub mod find;
pub mod search_regex;
pub mod matching;
pub mod text;
pub mod laws;
pub mod occurrences;
