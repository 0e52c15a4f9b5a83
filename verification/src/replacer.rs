//! The replacer engine: the capability abstraction over the two replacement
//! strategies, the registry, deterministic selection, the message transform
//! and the fixture-driven test harness.

use vstd::prelude::*;
use vstd::string::*;

use crate::replacer_link_follower::{
    link_replace_model, res_views, LinkFollowReplacer, LinkFollowV, LinkResolution, ResolutionV,
};
use crate::replacer_regex::{regex_replace_model, RegexReplacer, RegexReplacerV};
use crate::text::{
    contains_spoiler, has_spoiler, join_lines, join_nl, lemma_lex_lt_trans,
    lemma_lines_join_inverse, lemma_lines_no_nl, lemma_lines_nonempty, lemma_wrap_spoiler_wrapped,
    lex_lt, lines_of, no_nl, split_lines, spoiler_wrapped, wrap_all, wrap_spoiler,
};
use vstd::multiset::Multiset;

verus! {

/// The errors of the replacer engine.
#[derive(Debug)]
pub enum ReplacerError {
    /// Selection found no applicable replacer: a recoverable, expected
    /// outcome, not a fault.
    NoReplacerFound,
    /// A single link failed to resolve; fatal to that `replace` call only.
    LinkResolutionFailure,
    /// A malformed replacer or fixture definition.
    ConfigurationError,
    /// A fixture mismatch: the replacer, the 1-based index of the fixture
    /// within its group, the obtained string and the expected one.
    TestAssertionFailure { replacer_name: String, test_index: usize, got: String, want: String },
}

/// The specification-level value of a [`ReplacerError`].
#[verifier::ext_equal]
pub enum ReplacerErrorV {
    NoReplacerFound,
    LinkResolutionFailure,
    ConfigurationError,
    TestAssertionFailure { replacer_name: Seq<char>, test_index: int, got: Seq<char>, want: Seq<char> },
}

impl View for ReplacerError {
    type V = ReplacerErrorV;

    open spec fn view(&self) -> ReplacerErrorV {
        match self {
            ReplacerError::NoReplacerFound => ReplacerErrorV::NoReplacerFound,
            ReplacerError::LinkResolutionFailure => ReplacerErrorV::LinkResolutionFailure,
            ReplacerError::ConfigurationError => ReplacerErrorV::ConfigurationError,
            ReplacerError::TestAssertionFailure { replacer_name, test_index, got, want } => (
            ReplacerErrorV::TestAssertionFailure {
                replacer_name: replacer_name@,
                test_index: *test_index as int,
                got: got@,
                want: want@,
            }),
        }
    }
}

/// A named strategy that decides whether it applies to a message and
/// produces a transformed string.
///
/// `spec_replace` gives the result of `replace` as a function of the message
/// and the link-resolution outcomes handed in: `None` exactly when some link
/// the strategy needs did not resolve.
pub trait StringReplacer: Sized {
    /// the name of the replacer
    spec fn spec_name(&self) -> Seq<char>;

    /// whether the replacer applies to the message
    spec fn spec_matches(&self, message: Seq<char>) -> bool;

    /// the replacement output, or `None` on a link-resolution failure
    spec fn spec_replace(&self, message: Seq<char>, resolutions: Seq<ResolutionV>) -> Option<
        Seq<char>,
    >;

    /// check if replacer has any matches for message
    fn matches(&self, message: &String) -> (r: bool)
        ensures
            r == self.spec_matches(message@),
    ;

    /// replace occurrences in message, if applicable
    fn replace(&self, message: &String, resolutions: &Vec<LinkResolution>) -> (r: Result<
        String,
        ReplacerError,
    >)
        ensures
            (match (r, self.spec_replace(message@, res_views(resolutions@))) {
                (Ok(s), Some(m)) => s@ == m,
                (Err(e), None) => e is LinkResolutionFailure,
                _ => false,
            }),
    ;

    /// name of the replacer
    fn name(&self) -> (r: &String)
        ensures
            r@ == self.spec_name(),
    ;
}

/// The closed union of the two replacement strategies.
#[derive(Debug)]
pub enum Replacer {
    Regex(RegexReplacer),
    LinkReplacer(LinkFollowReplacer),
}

/// The specification-level value of a [`Replacer`].
#[verifier::ext_equal]
pub enum ReplacerV {
    Regex(RegexReplacerV),
    LinkReplacer(LinkFollowV),
}

impl View for Replacer {
    type V = ReplacerV;

    open spec fn view(&self) -> ReplacerV {
        match self {
            Replacer::Regex(r) => ReplacerV::Regex(r@),
            Replacer::LinkReplacer(r) => ReplacerV::LinkReplacer(r@),
        }
    }
}

/// The name of a replacer.
pub open spec fn model_name(m: ReplacerV) -> Seq<char> {
    match m {
        ReplacerV::Regex(x) => x.name,
        ReplacerV::LinkReplacer(x) => x.name,
    }
}

/// Whether a replacer applies to the message.
pub open spec fn model_matches(m: ReplacerV, msg: Seq<char>) -> bool {
    match m {
        ReplacerV::Regex(x) => crate::rx::rx_has_match(x.match_regex, msg),
        ReplacerV::LinkReplacer(x) => crate::rx::rx_has_match(x.match_regex, msg),
    }
}

/// The result of `replace`, or `None` on a link-resolution failure.
pub open spec fn model_replace(m: ReplacerV, msg: Seq<char>, rs: Seq<ResolutionV>) -> Option<
    Seq<char>,
> {
    match m {
        ReplacerV::Regex(x) => Some(regex_replace_model(x, msg)),
        ReplacerV::LinkReplacer(x) => link_replace_model(x, msg, rs),
    }
}

impl Clone for Replacer {
    fn clone(&self) -> (r: Self)
        ensures
            r@ == self@,
    {
        match self {
            Replacer::Regex(x) => Replacer::Regex(x.clone()),
            Replacer::LinkReplacer(x) => Replacer::LinkReplacer(x.clone()),
        }
    }
}

impl StringReplacer for Replacer {
    open spec fn spec_name(&self) -> Seq<char> {
        model_name(self@)
    }

    open spec fn spec_matches(&self, message: Seq<char>) -> bool {
        model_matches(self@, message)
    }

    open spec fn spec_replace(&self, message: Seq<char>, resolutions: Seq<ResolutionV>) -> Option<
        Seq<char>,
    > {
        model_replace(self@, message, resolutions)
    }

    fn matches(&self, message: &String) -> (r: bool) {
        match self {
            Replacer::Regex(x) => x.matches(message),
            Replacer::LinkReplacer(x) => x.matches(message),
        }
    }

    fn replace(&self, message: &String, resolutions: &Vec<LinkResolution>) -> (r: Result<
        String,
        ReplacerError,
    >) {
        match self {
            Replacer::Regex(x) => x.replace(message, resolutions),
            Replacer::LinkReplacer(x) => x.replace(message, resolutions),
        }
    }

    fn name(&self) -> (r: &String) {
        match self {
            Replacer::Regex(x) => x.name(),
            Replacer::LinkReplacer(x) => x.name(),
        }
    }
}

/// The ordered replacer definitions, as configured.
#[derive(Debug)]
pub struct Replacers(pub Vec<Replacer>);

impl View for Replacers {
    type V = Seq<ReplacerV>;

    open spec fn view(&self) -> Seq<ReplacerV> {
        self.0@.map_values(|r: Replacer| r@)
    }
}

/// One declarative fixture: input and expected output.
#[derive(Debug)]
pub struct ReplacerTest {
    pub have: String,
    pub want: String,
}

/// The specification-level value of a [`ReplacerTest`].
#[verifier::ext_equal]
pub struct ReplacerTestV {
    pub have: Seq<char>,
    pub want: Seq<char>,
}

impl View for ReplacerTest {
    type V = ReplacerTestV;

    open spec fn view(&self) -> ReplacerTestV {
        ReplacerTestV { have: self.have@, want: self.want@ }
    }
}

impl Clone for ReplacerTest {
    fn clone(&self) -> (r: Self)
        ensures
            r@ == self@,
    {
        ReplacerTest { have: self.have.clone(), want: self.want.clone() }
    }
}

/// The fixtures of one replacer, in declared order.
#[derive(Debug)]
pub struct ReplacerTests {
    pub replacer_name: String,
    pub tests: Vec<ReplacerTest>,
}

/// The specification-level value of a [`ReplacerTests`].
#[verifier::ext_equal]
pub struct ReplacerTestsV {
    pub replacer_name: Seq<char>,
    pub tests: Seq<ReplacerTestV>,
}

impl View for ReplacerTests {
    type V = ReplacerTestsV;

    open spec fn view(&self) -> ReplacerTestsV {
        ReplacerTestsV {
            replacer_name: self.replacer_name@,
            tests: self.tests@.map_values(|t: ReplacerTest| t@),
        }
    }
}

fn clone_test_vec(v: &Vec<ReplacerTest>) -> (r: Vec<ReplacerTest>)
    ensures
        r@.map_values(|t: ReplacerTest| t@) == v@.map_values(|t: ReplacerTest| t@),
{
    let mut out: Vec<ReplacerTest> = Vec::new();
    let mut i: usize = 0;
    while i < v.len()
        invariant
            i <= v@.len(),
            out@.len() == i,
            forall|j: int| 0 <= j < i ==> out@[j]@ == v@[j]@,
        decreases v@.len() - i,
    {
        out.push(v[i].clone());
        i = i + 1;
    }
    proof {
        assert(out@.map_values(|t: ReplacerTest| t@) =~= v@.map_values(|t: ReplacerTest| t@));
    }
    out
}

impl Clone for ReplacerTests {
    fn clone(&self) -> (r: Self)
        ensures
            r@ == self@,
    {
        let r = ReplacerTests {
            replacer_name: self.replacer_name.clone(),
            tests: clone_test_vec(&self.tests),
        };
        proof {
            assert(r@ =~= self@);
        }
        r
    }
}

/// The fixture groups, in declared order.
#[derive(Debug)]
pub struct Tests(pub Vec<ReplacerTests>);

impl View for Tests {
    type V = Seq<ReplacerTestsV>;

    open spec fn view(&self) -> Seq<ReplacerTestsV> {
        self.0@.map_values(|g: ReplacerTests| g@)
    }
}

/// The fixture groups whose `replacer_name` equals `name`, in order.
pub open spec fn groups_named(ts: Seq<ReplacerTestsV>, name: Seq<char>) -> Seq<ReplacerTestsV> {
    ts.filter(|g: ReplacerTestsV| g.replacer_name == name)
}

impl Tests {
    /// The fixture groups declared for the given replacer name.
    pub fn filter_by_replacer_name(&self, name: String) -> (r: Tests)
        ensures
            r@ == groups_named(self@, name@),
    {
        let ghost m = self@;
        let mut out: Vec<ReplacerTests> = Vec::new();
        let mut i: usize = 0;
        proof {
            reveal(Seq::filter);
            assert(m.take(0) =~= Seq::<ReplacerTestsV>::empty());
            assert(out@.map_values(|g: ReplacerTests| g@) =~= groups_named(m.take(0), name@));
        }
        while i < self.0.len()
            invariant
                i <= self.0@.len(),
                m == self@,
                m.len() == self.0@.len(),
                out@.map_values(|g: ReplacerTests| g@) == groups_named(m.take(i as int), name@),
            decreases self.0@.len() - i,
        {
            proof {
                reveal(Seq::filter);
                assert(m.take(i as int + 1).drop_last() =~= m.take(i as int));
                assert(m.take(i as int + 1).last() == m[i as int]);
            }
            let g = &self.0[i];
            if g.replacer_name.eq(&name) {
                let c = g.clone();
                proof {
                    assert(out@.push(c).map_values(|g2: ReplacerTests| g2@) =~= (out@.map_values(
                        |g2: ReplacerTests| g2@,
                    )).push(c@));
                }
                out.push(c);
            }
            i = i + 1;
        }
        proof {
            assert(m.take(m.len() as int) =~= m);
        }
        Tests(out)
    }
}

impl Clone for Tests {
    fn clone(&self) -> (r: Self)
        ensures
            r@ == self@,
    {
        let mut out: Vec<ReplacerTests> = Vec::new();
        let mut i: usize = 0;
        while i < self.0.len()
            invariant
                i <= self.0@.len(),
                out@.len() == i,
                forall|j: int| 0 <= j < i ==> out@[j]@ == self.0@[j]@,
            decreases self.0@.len() - i,
        {
            out.push(self.0[i].clone());
            i = i + 1;
        }
        proof {
            assert(out@.map_values(|g: ReplacerTests| g@) =~= self.0@.map_values(
                |g: ReplacerTests| g@,
            ));
        }
        Tests(out)
    }
}

/// A parsed, already-validated configuration snapshot: the ordered replacer
/// definitions and the declarative fixture groups.
pub struct BotConfig {
    pub replacers: Replacers,
    pub tests: Tests,
}

/// The last replacer of that name, or `None`; a duplicated name resolves to
/// the last matching entry.
pub open spec fn last_by_name(rs: Seq<ReplacerV>, name: Seq<char>) -> Option<ReplacerV>
    decreases rs.len(),
{
    if rs.len() == 0 {
        None
    } else if model_name(rs.last()) == name {
        Some(rs.last())
    } else {
        last_by_name(rs.drop_last(), name)
    }
}

/// get replacer by name, if it exists; a duplicated name resolves to the
/// last matching entry
pub fn get_replacer_by_name(name: &String, config: &BotConfig) -> (r: Option<Replacer>)
    ensures
        (match r {
            Some(x) => last_by_name(config.replacers@, name@) == Some(x@),
            None => last_by_name(config.replacers@, name@) is None,
        }),
{
    let ghost m = config.replacers@;
    let mut result: Option<Replacer> = None;
    let mut i: usize = 0;
    proof {
        assert(m.take(0) =~= Seq::<ReplacerV>::empty());
    }
    while i < config.replacers.0.len()
        invariant
            i <= config.replacers.0@.len(),
            m == config.replacers@,
            m.len() == config.replacers.0@.len(),
            (match result {
                Some(ref x) => last_by_name(m.take(i as int), name@) == Some(x@),
                None => last_by_name(m.take(i as int), name@) is None,
            }),
        decreases config.replacers.0@.len() - i,
    {
        proof {
            assert(m.take(i as int + 1).drop_last() =~= m.take(i as int));
            assert(m.take(i as int + 1).last() == m[i as int]);
        }
        let x = &config.replacers.0[i];
        assert(x@ == m[i as int]);
        if x.name().eq(name) {
            assert(model_name(m[i as int]) == name@);
            result = Some(x.clone());
            assert(last_by_name(m.take(i as int + 1), name@) == Some(m[i as int]));
        } else {
            assert(model_name(m[i as int]) != name@);
            assert(last_by_name(m.take(i as int + 1), name@) == last_by_name(
                m.take(i as int),
                name@,
            ));
        }
        i = i + 1;
    }
    proof {
        assert(m.take(m.len() as int) =~= m);
    }
    result
}

/// get all tests of the configuration
pub fn get_tests(config: &BotConfig) -> (r: Tests)
    ensures
        r@ == config.tests@,
{
    config.tests.clone()
}

/// get tests for replacer, if it has any
pub fn get_tests_by_name(replacer_name: String, config: &BotConfig) -> (r: Tests)
    ensures
        r@ == groups_named(config.tests@, replacer_name@),
{
    config.tests.filter_by_replacer_name(replacer_name)
}

// ---------------------------------------------------------------------------
// Selection: filter by message, sort by name
// ---------------------------------------------------------------------------

/// The replacers of the registry that match the message, in declared order.
pub open spec fn matching_models(rs: Seq<ReplacerV>, msg: Seq<char>) -> Seq<ReplacerV> {
    rs.filter(|m: ReplacerV| model_matches(m, msg))
}

/// `x` placed into `s` before the first entry whose name is strictly
/// greater; entries of equal name stay before `x` (a stable insertion).
pub open spec fn insert_by_name(x: ReplacerV, s: Seq<ReplacerV>) -> Seq<ReplacerV>
    decreases s.len(),
{
    if s.len() == 0 {
        seq![x]
    } else if lex_lt(model_name(x), model_name(s[0])) {
        seq![x] + s
    } else {
        seq![s[0]] + insert_by_name(x, s.drop_first())
    }
}

/// The sequence sorted by name ascending (a stable insertion sort).
pub open spec fn sort_by_name(s: Seq<ReplacerV>) -> Seq<ReplacerV>
    decreases s.len(),
{
    if s.len() == 0 {
        Seq::empty()
    } else {
        insert_by_name(s.last(), sort_by_name(s.drop_last()))
    }
}

/// Sorted by name, ascending: no later entry has a name strictly below an
/// earlier entry's.
pub open spec fn sorted_by_name(s: Seq<ReplacerV>) -> bool {
    forall|i: int, j: int|
        0 <= i < j < s.len() ==> !lex_lt(model_name(#[trigger] s[j]), model_name(#[trigger] s[i]))
}

/// The selection for a message: the matching replacers, sorted by name.
pub open spec fn selected_models(rs: Seq<ReplacerV>, msg: Seq<char>) -> Seq<ReplacerV> {
    sort_by_name(matching_models(rs, msg))
}

proof fn lemma_insert_by_name_len(x: ReplacerV, s: Seq<ReplacerV>)
    ensures
        insert_by_name(x, s).len() == s.len() + 1,
    decreases s.len(),
{
    if s.len() > 0 && !lex_lt(model_name(x), model_name(s[0])) {
        lemma_insert_by_name_len(x, s.drop_first());
    }
}

proof fn lemma_sort_by_name_len(s: Seq<ReplacerV>)
    ensures
        sort_by_name(s).len() == s.len(),
    decreases s.len(),
{
    if s.len() > 0 {
        lemma_sort_by_name_len(s.drop_last());
        lemma_insert_by_name_len(s.last(), sort_by_name(s.drop_last()));
    }
}

/// Every entry of an insertion is the inserted one or one of the old ones.
proof fn lemma_insert_by_name_elems(x: ReplacerV, s: Seq<ReplacerV>)
    ensures
        insert_by_name(x, s).len() == s.len() + 1,
        forall|j: int|
            0 <= j < insert_by_name(x, s).len() ==> (#[trigger] insert_by_name(x, s)[j] == x
                || exists|k: int| 0 <= k < s.len() && insert_by_name(x, s)[j] == s[k]),
    decreases s.len(),
{
    lemma_insert_by_name_len(x, s);
    if s.len() == 0 {
    } else if lex_lt(model_name(x), model_name(s[0])) {
    } else {
        lemma_insert_by_name_elems(x, s.drop_first());
        let r = insert_by_name(x, s);
        let r2 = insert_by_name(x, s.drop_first());
        assert forall|j: int|
            0 <= j < r.len() implies (r[j] == x || exists|k: int|
            0 <= k < s.len() && r[j] == s[k]) by {
            if j == 0 {
                assert(r[0] == s[0]);
            } else {
                assert(r[j] == r2[j - 1]);
                if r2[j - 1] != x {
                    let k0 = choose|k: int| 0 <= k < s.drop_first().len() && r2[j - 1]
                        == s.drop_first()[k];
                    assert(s.drop_first()[k0] == s[k0 + 1]);
                    assert(r[j] == s[k0 + 1]);
                }
            }
        }
    }
}

proof fn lemma_insert_by_name_sorted(x: ReplacerV, s: Seq<ReplacerV>)
    requires
        sorted_by_name(s),
    ensures
        sorted_by_name(insert_by_name(x, s)),
    decreases s.len(),
{
    lemma_insert_by_name_len(x, s);
    let r = insert_by_name(x, s);
    if s.len() == 0 {
    } else if lex_lt(model_name(x), model_name(s[0])) {
        assert forall|i: int, j: int|
            0 <= i < j < r.len() implies !lex_lt(
            model_name(#[trigger] r[j]),
            model_name(#[trigger] r[i]),
        ) by {
            assert(r[j] == s[j - 1]);
            if i == 0 {
                if lex_lt(model_name(s[j - 1]), model_name(x)) {
                    lemma_lex_lt_trans(model_name(s[j - 1]), model_name(x), model_name(s[0]));
                    crate::text::lemma_lex_lt_irrefl(model_name(s[0]));
                }
            } else {
                assert(r[i] == s[i - 1]);
            }
        }
    } else {
        let s2 = s.drop_first();
        assert forall|i: int, j: int|
            0 <= i < j < s2.len() implies !lex_lt(
            model_name(#[trigger] s2[j]),
            model_name(#[trigger] s2[i]),
        ) by {
            assert(s2[j] == s[j + 1]);
            assert(s2[i] == s[i + 1]);
        }
        lemma_insert_by_name_sorted(x, s2);
        lemma_insert_by_name_elems(x, s2);
        let r2 = insert_by_name(x, s2);
        assert forall|i: int, j: int|
            0 <= i < j < r.len() implies !lex_lt(
            model_name(#[trigger] r[j]),
            model_name(#[trigger] r[i]),
        ) by {
            if i == 0 {
                assert(r[0] == s[0]);
                assert(r[j] == r2[j - 1]);
                if r2[j - 1] == x {
                    assert(!lex_lt(model_name(x), model_name(s[0])));
                } else {
                    let k0 = choose|k: int| 0 <= k < s2.len() && r2[j - 1] == s2[k];
                    assert(s2[k0] == s[k0 + 1]);
                    assert(!lex_lt(model_name(s[k0 + 1]), model_name(s[0])));
                }
            } else {
                assert(r[i] == r2[i - 1]);
                assert(r[j] == r2[j - 1]);
            }
        }
    }
}

/// The sort orders by name.
pub proof fn lemma_sort_by_name_sorted(s: Seq<ReplacerV>)
    ensures
        sorted_by_name(sort_by_name(s)),
    decreases s.len(),
{
    if s.len() > 0 {
        lemma_sort_by_name_sorted(s.drop_last());
        lemma_insert_by_name_sorted(s.last(), sort_by_name(s.drop_last()));
    }
}

proof fn lemma_insert_by_name_multiset(x: ReplacerV, s: Seq<ReplacerV>)
    ensures
        insert_by_name(x, s).to_multiset() == s.to_multiset().insert(x),
    decreases s.len(),
{
    broadcast use vstd::seq_lib::group_to_multiset_ensures;

    if s.len() == 0 {
        assert(seq![x] =~= Seq::<ReplacerV>::empty().push(x));
        assert(Seq::<ReplacerV>::empty().to_multiset() =~= Multiset::<ReplacerV>::empty());
        assert(insert_by_name(x, s).to_multiset() =~= s.to_multiset().insert(x));
    } else if lex_lt(model_name(x), model_name(s[0])) {
        vstd::seq_lib::lemma_multiset_commutative(seq![x], s);
        assert(seq![x].to_multiset() =~= Multiset::<ReplacerV>::empty().insert(x));
        assert((seq![x] + s).to_multiset() =~= s.to_multiset().insert(x));
    } else {
        lemma_insert_by_name_multiset(x, s.drop_first());
        vstd::seq_lib::lemma_multiset_commutative(seq![s[0]], insert_by_name(x, s.drop_first()));
        vstd::seq_lib::lemma_multiset_commutative(seq![s[0]], s.drop_first());
        assert(seq![s[0]] + s.drop_first() =~= s);
        assert(seq![s[0]].to_multiset() =~= Multiset::<ReplacerV>::empty().insert(s[0]));
        assert(insert_by_name(x, s).to_multiset() =~= s.to_multiset().insert(x));
    }
}

/// The sort is a permutation: it keeps exactly the entries it was given.
pub proof fn lemma_sort_by_name_multiset(s: Seq<ReplacerV>)
    ensures
        sort_by_name(s).to_multiset() == s.to_multiset(),
    decreases s.len(),
{
    broadcast use vstd::seq_lib::group_to_multiset_ensures;

    if s.len() > 0 {
        lemma_sort_by_name_multiset(s.drop_last());
        lemma_insert_by_name_multiset(s.last(), sort_by_name(s.drop_last()));
        assert(s.drop_last().push(s.last()) =~= s);
        assert(sort_by_name(s).to_multiset() =~= s.to_multiset());
    }
}

/// Selection order is deterministic: for any registry and message the
/// selection is the matching entries, sorted by name ascending — whatever
/// order the registry declared them in, the same multiset of matching
/// entries comes out, in sorted order.
pub proof fn lemma_selection_deterministic(rs: Seq<ReplacerV>, msg: Seq<char>)
    ensures
        sorted_by_name(selected_models(rs, msg)),
        selected_models(rs, msg).to_multiset() == matching_models(rs, msg).to_multiset(),
{
    lemma_sort_by_name_sorted(matching_models(rs, msg));
    lemma_sort_by_name_multiset(matching_models(rs, msg));
}

/// No two entries share a name.
pub open spec fn distinct_names(s: Seq<ReplacerV>) -> bool {
    forall|i: int, j: int|
        0 <= i < j < s.len() ==> model_name(#[trigger] s[i]) != model_name(#[trigger] s[j])
}

/// Two sequences sorted by name that hold the same entries are the same
/// sequence, when no two entries share a name.
proof fn lemma_sorted_unique(s1: Seq<ReplacerV>, s2: Seq<ReplacerV>)
    requires
        sorted_by_name(s1),
        sorted_by_name(s2),
        distinct_names(s1),
        s1.to_multiset() == s2.to_multiset(),
    ensures
        s1 == s2,
    decreases s1.len(),
{
    broadcast use vstd::seq_lib::group_to_multiset_ensures;

    assert(s1.len() == s1.to_multiset().len());
    assert(s2.len() == s2.to_multiset().len());
    if s1.len() == 0 {
        assert(s1 =~= s2);
    } else {
        let a = s1[0];
        let b = s2[0];
        assert(s1.contains(a));
        assert(s2.contains(b));
        assert(s1.to_multiset().count(a) > 0);
        assert(s2.to_multiset().count(a) > 0);
        assert(s2.contains(a));
        assert(s2.to_multiset().count(b) > 0);
        assert(s1.to_multiset().count(b) > 0);
        assert(s1.contains(b));
        let ia = choose|i: int| 0 <= i < s2.len() && s2[i] == a;
        let ib = choose|i: int| 0 <= i < s1.len() && s1[i] == b;
        if a != b {
            assert(ia != 0);
            assert(ib != 0);
            assert(!lex_lt(model_name(s2[ia]), model_name(s2[0])));
            assert(!lex_lt(model_name(s1[ib]), model_name(s1[0])));
            crate::text::lemma_lex_connex(model_name(a), model_name(b));
            assert(model_name(s1[0]) != model_name(s1[ib]));
            assert(false);
        }
        assert(s1.remove(0).to_multiset() == s1.to_multiset().remove(s1[0]));
        assert(s2.remove(0).to_multiset() == s2.to_multiset().remove(s2[0]));
        assert(s1.remove(0) =~= s1.drop_first());
        assert(s2.remove(0) =~= s2.drop_first());
        assert(s1.drop_first().to_multiset() == s2.drop_first().to_multiset());
        assert forall|i: int, j: int|
            0 <= i < j < s1.drop_first().len() implies !lex_lt(
            model_name(#[trigger] s1.drop_first()[j]),
            model_name(#[trigger] s1.drop_first()[i]),
        ) && model_name(s1.drop_first()[i]) != model_name(s1.drop_first()[j]) by {
            assert(s1.drop_first()[i] == s1[i + 1]);
            assert(s1.drop_first()[j] == s1[j + 1]);
        }
        assert forall|i: int, j: int|
            0 <= i < j < s2.drop_first().len() implies !lex_lt(
            model_name(#[trigger] s2.drop_first()[j]),
            model_name(#[trigger] s2.drop_first()[i]),
        ) by {
            assert(s2.drop_first()[i] == s2[i + 1]);
            assert(s2.drop_first()[j] == s2[j + 1]);
        }
        lemma_sorted_unique(s1.drop_first(), s2.drop_first());
        assert forall|i: int| 0 <= i < s1.len() implies s1[i] == s2[i] by {
            if i > 0 {
                assert(s1.drop_first()[i - 1] == s1[i]);
                assert(s2.drop_first()[i - 1] == s2[i]);
            }
        }
        assert(s1 =~= s2);
    }
}

/// Name distinctness carries over to any permutation.
proof fn lemma_distinct_names_permutation(s: Seq<ReplacerV>, s2: Seq<ReplacerV>)
    requires
        s.to_multiset() == s2.to_multiset(),
        distinct_names(s),
    ensures
        distinct_names(s2),
{
    broadcast use vstd::seq_lib::group_to_multiset_ensures;

    assert forall|i: int, j: int|
        0 <= i < j < s2.len() implies model_name(#[trigger] s2[i]) != model_name(
        #[trigger] s2[j],
    ) by {
        if model_name(s2[i]) == model_name(s2[j]) {
            if s2[i] == s2[j] {
                let t = s2.remove(i);
                s2.remove_ensures(i);
                assert(t.to_multiset() == s2.to_multiset().remove(s2[i]));
                assert(t[j - 1] == s2[j]);
                assert(t.contains(s2[i]));
                assert(t.to_multiset().count(s2[i]) > 0);
                assert(s2.to_multiset().count(s2[i]) >= 2);
                assert(s.to_multiset().count(s2[i]) >= 2);
                assert(s.to_multiset().count(s2[i]) > 0);
                assert(s.contains(s2[i]));
                let k1 = choose|k: int| 0 <= k < s.len() && s[k] == s2[i];
                let u = s.remove(k1);
                s.remove_ensures(k1);
                assert(u.to_multiset() == s.to_multiset().remove(s[k1]));
                assert(u.to_multiset().count(s2[i]) > 0);
                assert(u.contains(s2[i]));
                let k2 = choose|k: int| 0 <= k < u.len() && u[k] == s2[i];
                if k2 < k1 {
                    assert(u[k2] == s[k2]);
                    assert(model_name(s[k2]) == model_name(s[k1]));
                } else {
                    assert(u[k2] == s[k2 + 1]);
                    assert(model_name(s[k1]) == model_name(s[k2 + 1]));
                }
                assert(false);
            } else {
                assert(s2.contains(s2[i]));
                assert(s2.to_multiset().count(s2[i]) > 0);
                assert(s.to_multiset().count(s2[i]) > 0);
                assert(s.contains(s2[i]));
                assert(s2.contains(s2[j]));
                assert(s2.to_multiset().count(s2[j]) > 0);
                assert(s.to_multiset().count(s2[j]) > 0);
                assert(s.contains(s2[j]));
                let k1 = choose|k: int| 0 <= k < s.len() && s[k] == s2[i];
                let k2 = choose|k: int| 0 <= k < s.len() && s[k] == s2[j];
                assert(k1 != k2);
                assert(model_name(s[k1]) == model_name(s[k2]));
                assert(false);
            }
        }
    }
}

/// Selection does not depend on the registry's declared order: two
/// registries whose matching replacers are the same collection — in
/// whatever order each declares them — select the same sequence.  The
/// premise is the configuration invariant that replacer names are unique.
pub proof fn lemma_selection_order_independent(
    rs1: Seq<ReplacerV>,
    rs2: Seq<ReplacerV>,
    msg: Seq<char>,
)
    requires
        matching_models(rs1, msg).to_multiset() == matching_models(rs2, msg).to_multiset(),
        distinct_names(matching_models(rs1, msg)),
    ensures
        selected_models(rs1, msg) == selected_models(rs2, msg),
{
    lemma_sort_by_name_sorted(matching_models(rs1, msg));
    lemma_sort_by_name_sorted(matching_models(rs2, msg));
    lemma_sort_by_name_multiset(matching_models(rs1, msg));
    lemma_sort_by_name_multiset(matching_models(rs2, msg));
    lemma_distinct_names_permutation(matching_models(rs1, msg), selected_models(rs1, msg));
    lemma_sorted_unique(selected_models(rs1, msg), selected_models(rs2, msg));
}

/// A message no configured replacer matches selects nothing: the transform
/// then yields the `NoReplacerFound` outcome.
pub proof fn lemma_no_replacer_found(rs: Seq<ReplacerV>, msg: Seq<char>)
    requires
        forall|i: int| 0 <= i < rs.len() ==> !model_matches(#[trigger] rs[i], msg),
    ensures
        matching_models(rs, msg).len() == 0,
    decreases rs.len(),
{
    reveal(Seq::filter);
    if rs.len() > 0 {
        assert forall|i: int| 0 <= i < rs.drop_last().len() implies !model_matches(
            #[trigger] rs.drop_last()[i],
            msg,
        ) by {
            assert(rs.drop_last()[i] == rs[i]);
        }
        lemma_no_replacer_found(rs.drop_last(), msg);
    }
}

proof fn lemma_matching_take_step(rs: Seq<ReplacerV>, msg: Seq<char>, i: int)
    requires
        0 <= i < rs.len(),
    ensures
        matching_models(rs.take(i + 1), msg) == (if model_matches(rs[i], msg) {
            matching_models(rs.take(i), msg).push(rs[i])
        } else {
            matching_models(rs.take(i), msg)
        }),
{
    reveal(Seq::filter);
    assert(rs.take(i + 1).drop_last() =~= rs.take(i));
    assert(rs.take(i + 1).last() == rs[i]);
}

/// The position `x` takes when inserted into `s`.
proof fn lemma_insert_by_name_at(x: ReplacerV, s: Seq<ReplacerV>, j: int)
    requires
        0 <= j <= s.len(),
        forall|k: int| 0 <= k < j ==> !lex_lt(model_name(x), model_name(#[trigger] s[k])),
        j < s.len() ==> lex_lt(model_name(x), model_name(s[j])),
    ensures
        insert_by_name(x, s) == s.take(j) + seq![x] + s.skip(j),
    decreases j,
{
    if s.len() == 0 {
        assert(insert_by_name(x, s) =~= s.take(0) + seq![x] + s.skip(0));
    } else if j == 0 {
        if lex_lt(model_name(x), model_name(s[0])) {
            assert(insert_by_name(x, s) =~= s.take(0) + seq![x] + s.skip(0));
        } else {
            assert(j < s.len());
        }
    } else {
        assert(!lex_lt(model_name(x), model_name(s[0])));
        let s2 = s.drop_first();
        assert forall|k: int| 0 <= k < j - 1 implies !lex_lt(
            model_name(x),
            model_name(#[trigger] s2[k]),
        ) by {
            assert(s2[k] == s[k + 1]);
        }
        if j - 1 < s2.len() {
            assert(s2[j - 1] == s[j]);
        }
        lemma_insert_by_name_at(x, s2, j - 1);
        assert(insert_by_name(x, s) =~= seq![s[0]] + (s2.take(j - 1) + seq![x] + s2.skip(j - 1)));
        assert(seq![s[0]] + (s2.take(j - 1) + seq![x] + s2.skip(j - 1)) =~= s.take(j) + seq![x]
            + s.skip(j));
    }
}

/// Finds where `x` belongs in the already-sorted `out`.
fn insert_position(out: &Vec<Replacer>, x: &Replacer) -> (j: usize)
    ensures
        j <= out@.len(),
        forall|k: int|
            0 <= k < j ==> !lex_lt(model_name(x@), model_name(#[trigger] out@[k]@)),
        j < out@.len() ==> lex_lt(model_name(x@), model_name(out@[j as int]@)),
{
    let mut j: usize = 0;
    loop
        invariant
            j <= out@.len(),
            forall|k: int| 0 <= k < j ==> !lex_lt(model_name(x@), model_name(#[trigger] out@[k]@)),
        decreases out@.len() - j,
    {
        if j == out.len() {
            return j;
        }
        if crate::text::str_lt(x.name().as_str(), out[j].name().as_str()) {
            return j;
        }
        j = j + 1;
    }
}

/// Sorts the selected replacers by name, ascending.
fn sort_replacers(v: Vec<Replacer>) -> (r: Vec<Replacer>)
    ensures
        r@.map_values(|x: Replacer| x@) == sort_by_name(v@.map_values(|x: Replacer| x@)),
{
    let ghost m = v@.map_values(|x: Replacer| x@);
    let mut out: Vec<Replacer> = Vec::new();
    let mut i: usize = 0;
    proof {
        assert(m.take(0) =~= Seq::<ReplacerV>::empty());
        assert(out@.map_values(|x: Replacer| x@) =~= sort_by_name(m.take(0)));
    }
    while i < v.len()
        invariant
            i <= v@.len(),
            m == v@.map_values(|x: Replacer| x@),
            m.len() == v@.len(),
            out@.map_values(|x: Replacer| x@) == sort_by_name(m.take(i as int)),
        decreases v@.len() - i,
    {
        let x = v[i].clone();
        let j = insert_position(&out, &x);
        proof {
            let ghost om = out@.map_values(|y: Replacer| y@);
            assert forall|k: int| 0 <= k < j implies !lex_lt(
                model_name(x@),
                model_name(#[trigger] om[k]),
            ) by {
                assert(om[k] == out@[k]@);
            }
            if (j as int) < om.len() {
                assert(om[j as int] == out@[j as int]@);
            }
            lemma_insert_by_name_at(x@, om, j as int);
            assert(m.take(i as int + 1).drop_last() =~= m.take(i as int));
            assert(m.take(i as int + 1).last() == m[i as int]);
            assert(x@ == m[i as int]);
            assert(out@.insert(j as int, x).map_values(|y: Replacer| y@) =~= om.take(j as int)
                + seq![x@] + om.skip(j as int));
        }
        out.insert(j, x);
        i = i + 1;
    }
    proof {
        assert(m.take(m.len() as int) =~= m);
    }
    out
}

/// Filters the registry to the replacers that match the message, fails with
/// `NoReplacerFound` when none does, and sorts the result by name ascending
/// for deterministic, reproducible output ordering.
pub fn get_matching_replacers(message: &String, config: &BotConfig) -> (r: Result<
    Vec<Replacer>,
    ReplacerError,
>)
    ensures
        (match r {
            Ok(v) => v@.map_values(|x: Replacer| x@) == selected_models(
                config.replacers@,
                message@,
            ) && v@.len() > 0 && matching_models(config.replacers@, message@).len() > 0,
            Err(e) => e is NoReplacerFound && matching_models(config.replacers@, message@).len()
                == 0,
        }),
{
    let ghost m = config.replacers@;
    let mut matched: Vec<Replacer> = Vec::new();
    let mut i: usize = 0;
    proof {
        reveal(Seq::filter);
        assert(m.take(0) =~= Seq::<ReplacerV>::empty());
        assert(matched@.map_values(|x: Replacer| x@) =~= matching_models(m.take(0), message@));
    }
    while i < config.replacers.0.len()
        invariant
            i <= config.replacers.0@.len(),
            m == config.replacers@,
            m.len() == config.replacers.0@.len(),
            matched@.map_values(|x: Replacer| x@) == matching_models(m.take(i as int), message@),
        decreases config.replacers.0@.len() - i,
    {
        proof {
            lemma_matching_take_step(m, message@, i as int);
        }
        let x = &config.replacers.0[i];
        assert(x@ == m[i as int]);
        if x.matches(message) {
            let c = x.clone();
            proof {
                assert(matched@.push(c).map_values(|y: Replacer| y@) =~= (matched@.map_values(
                    |y: Replacer| y@,
                )).push(c@));
            }
            matched.push(c);
        }
        i = i + 1;
    }
    proof {
        assert(m.take(m.len() as int) =~= m);
    }
    if matched.len() == 0 {
        proof {
            assert(matching_models(m, message@).len() == matched@.map_values(
                |x: Replacer| x@,
            ).len());
        }
        return Err(ReplacerError::NoReplacerFound);
    }
    proof {
        lemma_sort_by_name_len(matching_models(m, message@));
    }
    Ok(sort_replacers(matched))
}

// ---------------------------------------------------------------------------
// Candidate links
// ---------------------------------------------------------------------------

/// Every candidate link the link-follow replacers of the registry would try
/// to follow in the message, in registry order.
pub open spec fn candidate_links_model(rs: Seq<ReplacerV>, msg: Seq<char>) -> Seq<Seq<char>>
    decreases rs.len(),
{
    if rs.len() == 0 {
        Seq::empty()
    } else {
        let head = (match rs[0] {
            ReplacerV::LinkReplacer(x) => crate::rx::rx_matches(x.match_regex, msg),
            ReplacerV::Regex(_) => Seq::<Seq<char>>::empty(),
        });
        head + candidate_links_model(rs.drop_first(), msg)
    }
}

/// Collects every candidate link the link-follow replacers would try to
/// follow in the message, so that a caller can resolve them before handing
/// the outcomes to `replace_message` or the test harness.
pub fn collect_candidate_links(message: &String, config: &BotConfig) -> (r: Vec<String>)
    ensures
        r@.map_values(|s: String| s@) == candidate_links_model(config.replacers@, message@),
{
    let ghost m = config.replacers@;
    let mut acc: Vec<String> = Vec::new();
    let mut i: usize = 0;
    proof {
        assert(m.skip(0) =~= m);
        assert(acc@.map_values(|s: String| s@) =~= Seq::<Seq<char>>::empty());
    }
    while i < config.replacers.0.len()
        invariant
            i <= config.replacers.0@.len(),
            m == config.replacers@,
            m.len() == config.replacers.0@.len(),
            candidate_links_model(m, message@) == acc@.map_values(|s: String| s@)
                + candidate_links_model(m.skip(i as int), message@),
        decreases config.replacers.0@.len() - i,
    {
        proof {
            assert(m.skip(i as int)[0] == m[i as int]);
            assert(m.skip(i as int).drop_first() =~= m.skip(i as int + 1));
        }
        let x = &config.replacers.0[i];
        assert(x@ == m[i as int]);
        match x {
            Replacer::LinkReplacer(f) => {
                let mut found = f.candidate_links(message);
                proof {
                    let prev = acc@.map_values(|s: String| s@);
                    let fm = found@.map_values(|s: String| s@);
                    assert forall|k: int| 0 <= k < found@.len() implies fm[k] == found.deep_view()[k] by {
                        assert(fm[k] == found@[k]@);
                    }
                    assert(fm =~= found.deep_view());
                    assert((acc@ + found@).map_values(|s: String| s@) =~= prev + fm);
                    assert(prev + (fm + candidate_links_model(m.skip(i as int + 1), message@))
                        =~= (prev + fm) + candidate_links_model(m.skip(i as int + 1), message@));
                }
                acc.append(&mut found);
            },
            Replacer::Regex(_) => {
                proof {
                    assert(Seq::<Seq<char>>::empty() + candidate_links_model(
                        m.skip(i as int + 1),
                        message@,
                    ) =~= candidate_links_model(m.skip(i as int + 1), message@));
                }
            },
        }
        i = i + 1;
    }
    proof {
        assert(m.skip(m.len() as int).len() == 0);
        assert(acc@.map_values(|s: String| s@) + candidate_links_model(
            m.skip(m.len() as int),
            message@,
        ) =~= acc@.map_values(|s: String| s@));
    }
    acc
}

// ---------------------------------------------------------------------------
// The message transform
// ---------------------------------------------------------------------------

/// The outputs of the selected replacers, in selection order.
pub open spec fn outputs_model(sel: Seq<ReplacerV>, msg: Seq<char>, rs: Seq<ResolutionV>) -> Seq<
    Seq<char>,
> {
    sel.map_values(|m: ReplacerV| model_replace(m, msg, rs)->0)
}

/// Whether every selected replacer produced an output.
pub open spec fn all_replacements_ok(sel: Seq<ReplacerV>, msg: Seq<char>, rs: Seq<ResolutionV>) -> bool {
    forall|i: int| 0 <= i < sel.len() ==> model_replace(#[trigger] sel[i], msg, rs) is Some
}

/// The final message: the selected replacers' outputs joined with newlines,
/// each line wrapped in the spoiler delimiter when the original message used
/// it.
pub open spec fn transform_model(msg: Seq<char>, sel: Seq<ReplacerV>, rs: Seq<ResolutionV>) -> Seq<
    char,
> {
    let plain = join_nl(outputs_model(sel, msg, rs));
    if has_spoiler(msg) {
        join_nl(wrap_all(lines_of(plain)))
    } else {
        plain
    }
}

/// Spoiler preservation: when the message carries the spoiler delimiter,
/// every line of the transform's output is wrapped in `||...||`; when it
/// does not, no wrapping occurs and the output is the plain newline-joined
/// sequence of replacer outputs.
pub proof fn lemma_spoiler_preservation(msg: Seq<char>, sel: Seq<ReplacerV>, rs: Seq<ResolutionV>)
    ensures
        has_spoiler(msg) ==> (forall|i: int|
            0 <= i < lines_of(transform_model(msg, sel, rs)).len() ==> spoiler_wrapped(
                #[trigger] lines_of(transform_model(msg, sel, rs))[i],
            )),
        !has_spoiler(msg) ==> transform_model(msg, sel, rs) == join_nl(
            outputs_model(sel, msg, rs),
        ),
{
    if has_spoiler(msg) {
        let plain = join_nl(outputs_model(sel, msg, rs));
        let ls = lines_of(plain);
        let ws = wrap_all(ls);
        lemma_lines_no_nl(plain);
        lemma_lines_nonempty(plain);
        assert forall|i: int| 0 <= i < ws.len() implies no_nl(#[trigger] ws[i]) && spoiler_wrapped(
            ws[i],
        ) by {
            assert(ws[i] == wrap_spoiler(ls[i]));
            lemma_wrap_spoiler_wrapped(ls[i]);
        }
        lemma_lines_join_inverse(ws);
        assert(lines_of(transform_model(msg, sel, rs)) == ws);
    }
}

/// Selects the matching replacers, applies each in sorted order, wraps the
/// output lines in the spoiler delimiter when the message used it, and joins
/// everything with newlines.  A message no replacer matches yields
/// `NoReplacerFound`; a replacer whose links did not all resolve aborts the
/// whole transform with `LinkResolutionFailure`.
pub fn replace_message(message: &String, config: &BotConfig, resolutions: &Vec<LinkResolution>) -> (r:
    Result<String, ReplacerError>)
    ensures
        (match r {
            Ok(s) => ({
                let sel = selected_models(config.replacers@, message@);
                &&& sel.len() > 0
                &&& all_replacements_ok(sel, message@, res_views(resolutions@))
                &&& s@ == transform_model(message@, sel, res_views(resolutions@))
            }),
            Err(e) => (match e@ {
                ReplacerErrorV::NoReplacerFound => matching_models(
                    config.replacers@,
                    message@,
                ).len() == 0,
                ReplacerErrorV::LinkResolutionFailure => !all_replacements_ok(
                    selected_models(config.replacers@, message@),
                    message@,
                    res_views(resolutions@),
                ),
                _ => false,
            }),
        }),
        matching_models(config.replacers@, message@).len() == 0 ==> r is Err
            && r->Err_0 is NoReplacerFound,
{
    let sel = match get_matching_replacers(message, config) {
        Ok(v) => v,
        Err(e) => {
            return Err(e);
        },
    };
    let ghost selm = selected_models(config.replacers@, message@);
    let ghost resv = res_views(resolutions@);
    let mut outs: Vec<String> = Vec::new();
    let mut i: usize = 0;
    while i < sel.len()
        invariant
            i <= sel@.len(),
            sel@.map_values(|x: Replacer| x@) == selm,
            selm == selected_models(config.replacers@, message@),
            selm.len() == sel@.len(),
            selm.len() > 0,
            matching_models(config.replacers@, message@).len() > 0,
            resv == res_views(resolutions@),
            outs@.len() == i,
            forall|j: int|
                0 <= j < i ==> model_replace(#[trigger] selm[j], message@, resv) is Some
                    && outs@[j]@ == model_replace(selm[j], message@, resv)->0,
        decreases sel@.len() - i,
    {
        let x = &sel[i];
        assert(x@ == selm[i as int]);
        match x.replace(message, resolutions) {
            Ok(s) => {
                outs.push(s);
            },
            Err(e) => {
                assert(model_replace(selm[i as int], message@, resv) is None);
                return Err(e);
            },
        }
        i = i + 1;
    }
    proof {
        assert(outs@.map_values(|s: String| s@) =~= outputs_model(selm, message@, resv));
    }
    let combined = join_lines(&outs);
    if contains_spoiler(message.as_str()) {
        let ls = split_lines(combined.as_str());
        let ghost lsm = lines_of(combined@);
        let mut wrapped: Vec<String> = Vec::new();
        let mut k: usize = 0;
        while k < ls.len()
            invariant
                k <= ls@.len(),
                ls@.map_values(|t: String| t@) == lsm,
                lsm.len() == ls@.len(),
                wrapped@.len() == k,
                forall|j: int| 0 <= j < k ==> wrapped@[j]@ == wrap_spoiler(#[trigger] lsm[j]),
            decreases ls@.len() - k,
        {
            assert(ls@[k as int]@ == lsm[k as int]);
            wrapped.push(crate::text::wrap_line(ls[k].as_str()));
            k = k + 1;
        }
        proof {
            assert(wrapped@.map_values(|s: String| s@) =~= wrap_all(lsm));
        }
        Ok(join_lines(&wrapped))
    } else {
        Ok(combined)
    }
}

// ---------------------------------------------------------------------------
// The fixture-driven test harness
// ---------------------------------------------------------------------------

/// The outcome of running one fixture group against its replacer: the first
/// mismatching fixture aborts with `TestAssertionFailure`; a replacer error
/// is coerced to the empty string for comparison.
pub open spec fn run_group_model(
    m: ReplacerV,
    name: Seq<char>,
    tests: Seq<ReplacerTestV>,
    rs: Seq<ResolutionV>,
    idx: int,
) -> Result<(), ReplacerErrorV>
    decreases tests.len(),
{
    if tests.len() == 0 {
        Ok(())
    } else {
        let got = (match model_replace(m, tests[0].have, rs) {
            Some(s) => s,
            None => Seq::<char>::empty(),
        });
        if got != tests[0].want {
            Err(
                ReplacerErrorV::TestAssertionFailure {
                    replacer_name: name,
                    test_index: idx,
                    got,
                    want: tests[0].want,
                },
            )
        } else {
            run_group_model(m, name, tests.drop_first(), rs, idx + 1)
        }
    }
}

/// The outcome of running the fixture groups in order, fail-fast: a group
/// whose replacer name is not configured aborts with `ConfigurationError`.
pub open spec fn run_groups_model(
    rs: Seq<ReplacerV>,
    groups: Seq<ReplacerTestsV>,
    res: Seq<ResolutionV>,
) -> Result<(), ReplacerErrorV>
    decreases groups.len(),
{
    if groups.len() == 0 {
        Ok(())
    } else {
        match last_by_name(rs, groups[0].replacer_name) {
            None => Err(ReplacerErrorV::ConfigurationError),
            Some(m) => match run_group_model(m, groups[0].replacer_name, groups[0].tests, res, 1) {
                Ok(_) => run_groups_model(rs, groups.drop_first(), res),
                Err(e) => Err(e),
            },
        }
    }
}

/// The outcome of the test harness: all fixture groups when no name is
/// given, else the groups of that name, which must exist.
pub open spec fn harness_model(
    rs: Seq<ReplacerV>,
    groups: Seq<ReplacerTestsV>,
    name: Option<Seq<char>>,
    res: Seq<ResolutionV>,
) -> Result<(), ReplacerErrorV> {
    match name {
        None => run_groups_model(rs, groups, res),
        Some(n) => {
            let gs = groups_named(groups, n);
            if gs.len() == 0 {
                Err(ReplacerErrorV::ConfigurationError)
            } else {
                run_groups_model(rs, gs, res)
            }
        },
    }
}

/// Runs the fixtures of one group, in declared order, 1-based, fail-fast.
fn run_group_exec(
    replacer: &Replacer,
    name: &String,
    tests: &Vec<ReplacerTest>,
    resolutions: &Vec<LinkResolution>,
) -> (r: Result<(), ReplacerError>)
    ensures
        (match (
            r,
            run_group_model(
                replacer@,
                name@,
                tests@.map_values(|t: ReplacerTest| t@),
                res_views(resolutions@),
                1,
            ),
        ) {
            (Ok(_), Ok(_)) => true,
            (Err(e), Err(ev)) => e@ == ev,
            _ => false,
        }),
{
    let ghost tm = tests@.map_values(|t: ReplacerTest| t@);
    let ghost resv = res_views(resolutions@);
    let mut ti: usize = 0;
    proof {
        assert(tm.skip(0) =~= tm);
    }
    while ti < tests.len()
        invariant
            ti <= tests@.len(),
            tm == tests@.map_values(|t: ReplacerTest| t@),
            tm.len() == tests@.len(),
            resv == res_views(resolutions@),
            run_group_model(replacer@, name@, tm, resv, 1) == run_group_model(
                replacer@,
                name@,
                tm.skip(ti as int),
                resv,
                ti as int + 1,
            ),
        decreases tests@.len() - ti,
    {
        proof {
            assert(tm.skip(ti as int)[0] == tm[ti as int]);
            assert(tm.skip(ti as int).drop_first() =~= tm.skip(ti as int + 1));
            assert(tm[ti as int] == tests@[ti as int]@);
        }
        let test = &tests[ti];
        let got = match replacer.replace(&test.have, resolutions) {
            Ok(s) => s,
            Err(_) => String::new(),
        };
        if !got.eq(&test.want) {
            return Err(
                ReplacerError::TestAssertionFailure {
                    replacer_name: name.clone(),
                    test_index: ti + 1,
                    got,
                    want: test.want.clone(),
                },
            );
        }
        ti = ti + 1;
    }
    proof {
        assert(tm.skip(tests@.len() as int).len() == 0);
    }
    Ok(())
}

/// Runs the fixture groups against the live replacers of the configuration,
/// in declared order, fail-fast.
fn run_tests(replacer_tests: Tests, config: &BotConfig, resolutions: &Vec<LinkResolution>) -> (r:
    Result<(), ReplacerError>)
    ensures
        (match (
            r,
            run_groups_model(config.replacers@, replacer_tests@, res_views(resolutions@)),
        ) {
            (Ok(_), Ok(_)) => true,
            (Err(e), Err(ev)) => e@ == ev,
            _ => false,
        }),
{
    let ghost gm = replacer_tests@;
    let ghost rsm = config.replacers@;
    let ghost resv = res_views(resolutions@);
    let mut gi: usize = 0;
    proof {
        assert(gm.skip(0) =~= gm);
    }
    while gi < replacer_tests.0.len()
        invariant
            gi <= replacer_tests.0@.len(),
            gm == replacer_tests@,
            rsm == config.replacers@,
            resv == res_views(resolutions@),
            gm.len() == replacer_tests.0@.len(),
            run_groups_model(rsm, gm, resv) == run_groups_model(rsm, gm.skip(gi as int), resv),
        decreases replacer_tests.0@.len() - gi,
    {
        proof {
            assert(gm.skip(gi as int)[0] == gm[gi as int]);
            assert(gm.skip(gi as int).drop_first() =~= gm.skip(gi as int + 1));
            assert(gm[gi as int] == replacer_tests.0@[gi as int]@);
        }
        let group = &replacer_tests.0[gi];
        match get_replacer_by_name(&group.replacer_name, config) {
            None => {
                return Err(ReplacerError::ConfigurationError);
            },
            Some(replacer) => {
                match run_group_exec(&replacer, &group.replacer_name, &group.tests, resolutions) {
                    Ok(_) => {},
                    Err(e) => {
                        return Err(e);
                    },
                }
            },
        }
        gi = gi + 1;
    }
    proof {
        assert(gm.skip(replacer_tests.0@.len() as int).len() == 0);
    }
    Ok(())
}

/// run tests for replacer_name if provided, all replacers if `None`; a name
/// with no fixture group is a configuration error
pub fn run_replacer_tests(
    replacer_name: Option<String>,
    config: &BotConfig,
    resolutions: &Vec<LinkResolution>,
) -> (r: Result<(), ReplacerError>)
    ensures
        (match (
            r,
            harness_model(
                config.replacers@,
                config.tests@,
                (match replacer_name {
                    Some(ref n) => Some(n@),
                    None => None,
                }),
                res_views(resolutions@),
            ),
        ) {
            (Ok(_), Ok(_)) => true,
            (Err(e), Err(ev)) => e@ == ev,
            _ => false,
        }),
{
    let replacer_tests: Tests = match replacer_name {
        Some(name) => {
            let g = get_tests_by_name(name, config);
            if g.0.len() == 0 {
                return Err(ReplacerError::ConfigurationError);
            }
            g
        },
        None => get_tests(config),
    };
    run_tests(replacer_tests, config, resolutions)
}

} // verus!
