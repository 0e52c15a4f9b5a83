//! A stateless replacer that rewrites each match of one regular expression
//! with a substitution template.

use vstd::prelude::*;
use vstd::string::*;

use crate::replacer::{ReplacerError, StringReplacer};
use crate::replacer_link_follower::{LinkResolution, ResolutionV};
use crate::rx::{pattern_ok, rx_has_match, rx_matches, rx_replace_first, Rx};
use crate::text::{join_lines, join_nl};

verus! {

/// The specification-level value of a [`RegexReplacer`].
#[verifier::ext_equal]
pub struct RegexReplacerV {
    pub name: Seq<char>,
    pub match_regex: Seq<char>,
    pub replacement: Seq<char>,
}

/// Rewrites every match of `match_regex` with the template `replacement`.
#[derive(Debug)]
pub struct RegexReplacer {
    name: String,
    match_regex: Rx,
    replacement: String,
}

impl View for RegexReplacer {
    type V = RegexReplacerV;

    closed spec fn view(&self) -> RegexReplacerV {
        RegexReplacerV {
            name: self.name@,
            match_regex: self.match_regex.spec_pattern(),
            replacement: self.replacement@,
        }
    }
}

/// The result of `replace` for a regex replacer: the message unchanged when
/// it does not match, else one output line per non-overlapping match, each
/// the template expansion for that match alone, joined with newlines.
pub open spec fn regex_replace_model(m: RegexReplacerV, msg: Seq<char>) -> Seq<char> {
    if !rx_has_match(m.match_regex, msg) {
        msg
    } else {
        join_nl(
            rx_matches(m.match_regex, msg).map_values(
                |x: Seq<char>| rx_replace_first(m.match_regex, x, m.replacement),
            ),
        )
    }
}

/// Rewriting is idempotent on a fully-rewritten output: when the pattern no
/// longer matches the text a replacer produced, running the replacer on that
/// text again leaves it unchanged.
pub proof fn lemma_regex_replace_idempotent(m: RegexReplacerV, out: Seq<char>)
    requires
        !rx_has_match(m.match_regex, out),
    ensures
        regex_replace_model(m, out) == out,
{
}

impl RegexReplacer {
    /// Builds the replacer, compiling `match_regex`; fails exactly when the
    /// pattern does not compile.
    pub fn new(name: String, match_regex: String, replacement: String) -> (r: Result<
        Self,
        ReplacerError,
    >)
        ensures
            r is Ok <==> pattern_ok(match_regex@),
            (match r {
                Ok(rr) => rr@ == (RegexReplacerV {
                    name: name@,
                    match_regex: match_regex@,
                    replacement: replacement@,
                }),
                Err(e) => e is ConfigurationError,
            }),
    {
        match Rx::new(match_regex.as_str()) {
            Ok(rx) => Ok(RegexReplacer { name, match_regex: rx, replacement }),
            Err(_) => Err(ReplacerError::ConfigurationError),
        }
    }
}

impl Clone for RegexReplacer {
    fn clone(&self) -> (r: Self)
        ensures
            r@ == self@,
    {
        RegexReplacer {
            name: self.name.clone(),
            match_regex: self.match_regex.clone(),
            replacement: self.replacement.clone(),
        }
    }
}

impl StringReplacer for RegexReplacer {
    open spec fn spec_name(&self) -> Seq<char> {
        self@.name
    }

    open spec fn spec_matches(&self, message: Seq<char>) -> bool {
        rx_has_match(self@.match_regex, message)
    }

    open spec fn spec_replace(&self, message: Seq<char>, resolutions: Seq<ResolutionV>) -> Option<
        Seq<char>,
    > {
        Some(regex_replace_model(self@, message))
    }

    fn matches(&self, message: &String) -> (r: bool) {
        self.match_regex.is_match(message.as_str())
    }

    fn replace(&self, message: &String, resolutions: &Vec<LinkResolution>) -> (r: Result<
        String,
        ReplacerError,
    >) {
        if !self.match_regex.is_match(message.as_str()) {
            return Ok(message.clone());
        }
        let found = self.match_regex.find_all(message.as_str());
        let ghost ms = rx_matches(self@.match_regex, message@);
        let mut out: Vec<String> = Vec::new();
        let mut i: usize = 0;
        while i < found.len()
            invariant
                i <= found@.len(),
                found.deep_view() == ms,
                ms == rx_matches(self@.match_regex, message@),
                found@.len() == ms.len(),
                out@.len() == i,
                forall|j: int|
                    0 <= j < i ==> out@[j]@ == rx_replace_first(
                        self@.match_regex,
                        ms[j],
                        self@.replacement,
                    ),
            decreases found@.len() - i,
        {
            proof {
                assert(found@[i as int]@ == found.deep_view()[i as int]);
            }
            let rep = self.match_regex.replace_first(found[i].as_str(), self.replacement.as_str());
            out.push(rep);
            i = i + 1;
        }
        proof {
            assert(out@.map_values(|s: String| s@) =~= ms.map_values(
                |x: Seq<char>| rx_replace_first(self@.match_regex, x, self@.replacement),
            ));
        }
        Ok(join_lines(&out))
    }

    fn name(&self) -> (r: &String) {
        &self.name
    }
}

} // verus!
