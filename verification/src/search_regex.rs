//! A regular expression compiled for a search, kept with the pattern it was
//! compiled from. Only `compile_regex` builds one (the fields are private to
//! this module), so the regular expression is always the one that
//! `regex::Regex::new` built from the pattern.

use vstd::prelude::*;
use vstd::string::*;
use vstd::utf8::*;

verus! {

#[verifier::external_type_specification]
#[verifier::external_body]
pub struct ExRegex(regex::Regex);

/// Names whether `regex::Regex::new` accepts the pattern `pattern`.
pub uninterp spec fn regex_compiles(pattern: Seq<char>) -> bool;

/// Names the spans `(start, end)`, in bytes, of the successive non-overlapping
/// matches that `regex::Regex::find_iter` yields for the regular expression
/// built by `regex::Regex::new` from `pattern`, in the haystack `haystack`.
pub uninterp spec fn regex_spans(pattern: Seq<char>, haystack: Seq<char>) -> Seq<(usize, usize)>;

/// A compiled regular expression, with the pattern it was compiled from.
pub struct SearchRegex {
    pattern: String,
    compiled: regex::Regex,
}

impl View for SearchRegex {
    type V = Seq<char>;

    /// The pattern the regular expression was compiled from.
    closed spec fn view(&self) -> Seq<char> {
        self.pattern@
    }
}

/// `regex::Regex::new`: compiles `pattern`, kept with the regular expression
/// it gives, or fails when it is not a valid regular expression (or is too
/// large to compile). Which patterns it accepts is named, not stated.
#[verifier::external_body]
pub(crate) fn compile_regex(pattern: &str) -> (r: Option<SearchRegex>)
    ensures
        r is Some <==> regex_compiles(pattern@),
        r matches Some(re) ==> re@ == pattern@,
{
    match regex::Regex::new(pattern) {
        Ok(compiled) => Some(SearchRegex { pattern: pattern.to_owned(), compiled }),
        Err(_) => None,
    }
}

impl SearchRegex {
    /// The pattern the regular expression was compiled from.
    pub fn as_str(&self) -> (s: &str)
        ensures
            s@ == self@,
    {
        self.pattern.as_str()
    }
}

/// `regex::Regex::find_iter` on `haystack`, each match taken as its byte span
/// `(Match::start(), Match::end())`. The spans are named; the crate documents
/// that the matches are successive and do not overlap, that each start is at
/// most its end, and that both fall on character boundaries of the haystack,
/// so that the haystack can be sliced there.
#[verifier::external_body]
pub(crate) fn regex_match_spans(re: &SearchRegex, haystack: &str) -> (spans: Vec<(usize, usize)>)
    ensures
        spans@ == regex_spans(re@, haystack@),
        forall|i: int|
            0 <= i < spans@.len() ==> #[trigger] spans@[i].0 <= spans@[i].1 <= haystack.spec_bytes().len(),
        forall|i: int|
            0 <= i < spans@.len() ==> is_char_boundary(haystack.spec_bytes(), #[trigger] spans@[i].0 as int)
                && is_char_boundary(haystack.spec_bytes(), spans@[i].1 as int),
        forall|i: int, j: int|
            0 <= i < j < spans@.len() ==> #[trigger] spans@[i].1 <= #[trigger] spans@[j].0,
{
    re.compiled.find_iter(haystack).map(|m| (m.start(), m.end())).collect()
}

} // verus!
