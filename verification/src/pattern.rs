//! Name-pattern matching, backed by the `regex` crate.
//!
//! The matcher is compiled once, before the traversal starts, so an
//! invalid pattern is a configuration error surfaced up front rather
//! than per entry.

use vstd::prelude::*;
use crate::cli::{pattern_active, Args};

verus! {

/// Whether `regex::Regex::new` accepts `pattern`. The outcome depends
/// on the pattern text alone.
pub uninterp spec fn regex_ok(pattern: Seq<char>) -> bool;

/// Whether the regular expression `pattern` matches anywhere in
/// `text`, as decided by `regex::Regex::is_match`. The outcome
/// depends on the pattern and the text alone.
pub uninterp spec fn regex_accepts(pattern: Seq<char>, text: Seq<char>) -> bool;

#[verifier::external_type_specification]
#[verifier::external_body]
pub struct ExRegex(regex::Regex);

/// A compiled name pattern: the regex engine's compiled form together
/// with the pattern text it was built from.
pub struct Matcher {
    re: regex::Regex,
    pattern: String,
}

impl Matcher {
    /// The pattern text this matcher was compiled from.
    pub closed spec fn pattern(&self) -> Seq<char> {
        self.pattern@
    }

    /// Relies on `regex::Regex::new`: it parses the pattern text with
    /// a fixed default configuration, so whether it returns `Ok` is a
    /// function of the pattern text alone.
    #[verifier::external_body]
    pub fn new(pattern: &str) -> (r: Option<Matcher>)
        ensures
            r is Some <==> regex_ok(pattern@),
            r is Some ==> r->0.pattern() == pattern@,
    {
        match regex::Regex::new(pattern) {
            Ok(re) => Some(Matcher { re, pattern: pattern.to_string() }),
            Err(_) => None,
        }
    }

    /// Relies on `regex::Regex::is_match`: it returns true if and
    /// only if the pattern matches somewhere in the text, a function
    /// of the pattern and the text alone.
    #[verifier::external_body]
    pub fn is_match(&self, text: &str) -> (r: bool)
        ensures
            r == regex_accepts(self.pattern(), text@),
    {
        self.re.is_match(text)
    }
}

/// The matcher handed to a traversal must be the one compiled from
/// the options' pattern, whenever that pattern takes part in
/// filtering.
pub open spec fn matcher_for(opts: Args, m: Option<&Matcher>) -> bool {
    pattern_active(opts) ==> m is Some && m->0.pattern() == opts.pattern->0@
}

} // verus!
