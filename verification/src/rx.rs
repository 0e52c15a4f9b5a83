//! A compiled regular expression paired with the pattern it was compiled
//! from.  The pattern is the specification-level identity of the value: what
//! matching, searching and rewriting return is named as a function of the
//! pattern and the text alone.

use vstd::prelude::*;

verus! {

#[verifier::external_type_specification]
#[verifier::external_body]
pub struct ExRegex(regex::Regex);

#[verifier::external_type_specification]
#[verifier::external_body]
pub struct ExRegexError(regex::Error);

/// Whether `regex::Regex::new` accepts the pattern (it is valid syntax and
/// within the default size limit).
pub uninterp spec fn pattern_ok(pattern: Seq<char>) -> bool;

/// Whether the regular expression compiled from `pattern` matches anywhere in
/// `text`.
pub uninterp spec fn rx_has_match(pattern: Seq<char>, text: Seq<char>) -> bool;

/// The successive non-overlapping matches of the regular expression compiled
/// from `pattern` in `text`, leftmost first.
pub uninterp spec fn rx_matches(pattern: Seq<char>, text: Seq<char>) -> Seq<Seq<char>>;

/// `text` with the first match of the regular expression compiled from
/// `pattern` replaced by the expansion of `template` (capture-group
/// references substituted).
pub uninterp spec fn rx_replace_first(
    pattern: Seq<char>,
    text: Seq<char>,
    template: Seq<char>,
) -> Seq<char>;

/// `text` with every non-overlapping match of the regular expression compiled
/// from `pattern` replaced by the expansion of `template`.
pub uninterp spec fn rx_replace_all(
    pattern: Seq<char>,
    text: Seq<char>,
    template: Seq<char>,
) -> Seq<char>;

/// A compiled regular expression together with its pattern.
#[derive(Debug)]
pub struct Rx {
    pattern: String,
    compiled: regex::Regex,
}

impl Rx {
    /// The pattern this regular expression was compiled from.
    pub closed spec fn spec_pattern(&self) -> Seq<char> {
        self.pattern@
    }

    /// Relies on `regex::Regex::new`: compilation succeeds exactly when the
    /// pattern is valid (and within the default size limit), and the compiled
    /// value matches per that pattern.
    #[verifier::external_body]
    pub fn new(pattern: &str) -> (r: Result<Rx, regex::Error>)
        ensures
            r is Ok <==> pattern_ok(pattern@),
            (match r {
                Ok(rx) => rx.spec_pattern() == pattern@,
                Err(_) => true,
            }),
    {
        match regex::Regex::new(pattern) {
            Ok(compiled) => Ok(Rx { pattern: pattern.to_string(), compiled }),
            Err(e) => Err(e),
        }
    }

    /// The pattern, as it was given to `new`.
    pub fn pattern(&self) -> (r: &String)
        ensures
            r@ == self.spec_pattern(),
    {
        &self.pattern
    }

    /// Relies on `regex::Regex::is_match`: true iff the regex matches
    /// anywhere in `text`.
    #[verifier::external_body]
    pub fn is_match(&self, text: &str) -> (r: bool)
        ensures
            r == rx_has_match(self.spec_pattern(), text@),
    {
        self.compiled.is_match(text)
    }

    /// Relies on `regex::Regex::find_iter`: it yields the successive
    /// non-overlapping matches, leftmost first, and yields at least one
    /// exactly when `is_match` is true.
    #[verifier::external_body]
    pub fn find_all(&self, text: &str) -> (r: Vec<String>)
        ensures
            r.deep_view() == rx_matches(self.spec_pattern(), text@),
            r@.len() > 0 <==> rx_has_match(self.spec_pattern(), text@),
    {
        self.compiled.find_iter(text).map(|m| m.as_str().to_string()).collect()
    }

    /// Relies on `regex::Regex::replace`: the first match is replaced by the
    /// expansion of `template`; a text without a match is returned unchanged.
    #[verifier::external_body]
    pub fn replace_first(&self, text: &str, template: &str) -> (r: String)
        ensures
            r@ == rx_replace_first(self.spec_pattern(), text@, template@),
            !rx_has_match(self.spec_pattern(), text@) ==> r@ == text@,
    {
        self.compiled.replace(text, template).to_string()
    }

    /// Relies on `regex::Regex::replace_all`: every non-overlapping match is
    /// replaced by the expansion of `template`; a text without a match is
    /// returned unchanged.
    #[verifier::external_body]
    pub fn replace_all(&self, text: &str, template: &str) -> (r: String)
        ensures
            r@ == rx_replace_all(self.spec_pattern(), text@, template@),
            !rx_has_match(self.spec_pattern(), text@) ==> r@ == text@,
    {
        self.compiled.replace_all(text, template).to_string()
    }
}

impl Clone for Rx {
    /// Relies on `regex::Regex::clone`: the clone matches exactly as the
    /// original does.
    #[verifier::external_body]
    fn clone(&self) -> (r: Self)
        ensures
            r.spec_pattern() == self.spec_pattern(),
    {
        Rx { pattern: self.pattern.clone(), compiled: self.compiled.clone() }
    }
}

} // verus!
