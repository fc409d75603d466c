//! How a search matches: a regular expression, or a plain pattern.

use vstd::prelude::*;

pub use crate::search_regex::{regex_compiles, regex_spans, SearchRegex};
use crate::search_regex::compile_regex;

verus! {

impl SearchRegex {
    /// Compiles `pattern`; `None` when `regex::Regex::new` refuses it.
    pub fn new(pattern: &str) -> (r: Option<SearchRegex>)
        ensures
            r is Some <==> regex_compiles(pattern@),
            r matches Some(re) ==> re@ == pattern@,
    {
        compile_regex(pattern)
    }
}

/// How a search matches the text: by a regular expression, or by a plain
/// pattern that is searched for as it is.
pub enum MatchingMode {
    Regex(SearchRegex),
    Pattern,
}

} // verus!
