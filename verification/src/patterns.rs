//! Regular-expression filters.
//!
//! The query language selects symbols and files with regular expressions.
//! Matching is done by the `regex` crate; this module keeps the compiled
//! value next to the pattern text it was compiled from, so that contracts can
//! speak of matching purely as a function of the pattern text and the
//! haystack.

use vstd::prelude::*;

verus! {

#[verifier::external_type_specification]
#[verifier::external_body]
pub struct ExRegex(regex::Regex);

/// Whether `regex::Regex::new` accepts the pattern; compilation succeeds or
/// fails as a function of the pattern text alone.
pub uninterp spec fn regex_ok(pattern: Seq<char>) -> bool;

/// What `regex::Regex::is_match` returns for a compiled pattern and a
/// haystack; the result depends on the two texts alone.
pub uninterp spec fn regex_accepts(pattern: Seq<char>, text: Seq<char>) -> bool;

/// A compiled filter pattern, together with the text it was compiled from.
///
/// The `compiled` field is only ever built by `Pattern::new` and
/// `Pattern::duplicate` in this module, so it always is the compilation of
/// `source`; the contracts of `is_match` rely on that.
#[derive(Debug)]
pub struct Pattern {
    source: String,
    compiled: regex::Regex,
}

impl Pattern {
    /// The pattern text this filter was compiled from.
    pub closed spec fn src(&self) -> Seq<char> {
        self.source@
    }

    /// Relies on `regex::Regex::new`: it returns `Ok` exactly for the
    /// patterns it accepts, and acceptance depends on the pattern alone.
    #[verifier::external_body]
    pub fn new(source: String) -> (r: Option<Pattern>)
        ensures
            (r is Some) == regex_ok(source@),
            r matches Some(p) ==> p.src() == source@,
    {
        match regex::Regex::new(&source) {
            Ok(compiled) => Some(Pattern { source, compiled }),
            Err(_) => None,
        }
    }

    /// Relies on `regex::Regex::is_match`: whether the haystack contains a
    /// match is a function of the pattern and the haystack alone.
    #[verifier::external_body]
    pub fn is_match(&self, text: &str) -> (r: bool)
        ensures
            r == regex_accepts(self.src(), text@),
    {
        self.compiled.is_match(text)
    }

    /// Relies on `regex::Regex::clone` (a derived clone): the clone runs the
    /// same compiled program as the original.
    #[verifier::external_body]
    pub fn duplicate(&self) -> (r: Pattern)
        ensures
            r.src() == self.src(),
    {
        Pattern { source: self.source.clone(), compiled: self.compiled.clone() }
    }

    /// The pattern text, for callers outside the proof.
    pub fn source_text(&self) -> (r: &str)
        ensures
            r@ == self.src(),
    {
        self.source.as_str()
    }
}

} // verus!
