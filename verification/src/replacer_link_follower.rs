//! A replacer that follows the links a message holds and rewrites their
//! resolved destinations.
//!
//! Following a link is network work and happens outside this library: the
//! caller resolves each candidate link (bounded-concurrency fetches, one
//! timeout per request) and hands the outcomes in as plain values.  This
//! module holds everything that can be decided from those outcomes: query
//! stripping, the bad-URL filter, destination rewriting and the literal
//! post-replacements.

use vstd::prelude::*;
use vstd::string::*;

use crate::replacer::{ReplacerError, StringReplacer};
use crate::rx::{rx_has_match, rx_matches, rx_replace_all, Rx};
use crate::text::{apply_posts, join_lines, join_nl, strip_query, strip_query_spec};

verus! {

/// One literal post-replacement pair: occurrences of `replace` become `with`.
#[derive(Debug)]
pub struct Replacements {
    pub replace: String,
    pub with: String,
}

impl View for Replacements {
    type V = (Seq<char>, Seq<char>);

    open spec fn view(&self) -> (Seq<char>, Seq<char>) {
        (self.replace@, self.with@)
    }
}

impl Clone for Replacements {
    fn clone(&self) -> (r: Self)
        ensures
            r@ == self@,
    {
        Replacements { replace: self.replace.clone(), with: self.with.clone() }
    }
}

/// The outcome of resolving one candidate link: the link as it stood in the
/// message, and its resolved destination, or `None` if resolution failed.
#[derive(Debug)]
pub struct LinkResolution {
    pub link: String,
    pub resolved: Option<String>,
}

/// The specification-level value of a [`LinkResolution`].
#[verifier::ext_equal]
pub struct ResolutionV {
    pub link: Seq<char>,
    pub resolved: Option<Seq<char>>,
}

impl View for LinkResolution {
    type V = ResolutionV;

    open spec fn view(&self) -> ResolutionV {
        ResolutionV {
            link: self.link@,
            resolved: (match self.resolved {
                Some(ref s) => Some(s@),
                None => None,
            }),
        }
    }
}

impl Clone for LinkResolution {
    fn clone(&self) -> (r: Self)
        ensures
            r@ == self@,
    {
        LinkResolution {
            link: self.link.clone(),
            resolved: (match &self.resolved {
                Some(s) => Some(s.clone()),
                None => None,
            }),
        }
    }
}

/// The views of a sequence of resolutions.
pub open spec fn res_views(rs: Seq<LinkResolution>) -> Seq<ResolutionV> {
    rs.map_values(|r: LinkResolution| r@)
}

/// The outcome recorded for `link`: `None` if no outcome was handed in at
/// all, else the first recorded outcome.
pub open spec fn lookup_res(rs: Seq<ResolutionV>, link: Seq<char>) -> Option<Option<Seq<char>>>
    decreases rs.len(),
{
    if rs.len() == 0 {
        None
    } else if rs[0].link == link {
        Some(rs[0].resolved)
    } else {
        lookup_res(rs.drop_first(), link)
    }
}

/// Finds the recorded outcome for `link`, if any.
fn lookup_resolution(resolutions: &Vec<LinkResolution>, link: &String) -> (r: Option<
    Option<String>,
>)
    ensures
        (match r {
            None => lookup_res(res_views(resolutions@), link@) is None,
            Some(o) => lookup_res(res_views(resolutions@), link@) == Some(
                match o {
                    Some(s) => Some(s@),
                    None => None::<Seq<char>>,
                },
            ),
        }),
{
    let ghost full = res_views(resolutions@);
    let mut i: usize = 0;
    proof {
        assert(full.skip(0) =~= full);
    }
    while i < resolutions.len()
        invariant
            i <= resolutions@.len(),
            full == res_views(resolutions@),
            full.len() == resolutions@.len(),
            lookup_res(full, link@) == lookup_res(full.skip(i as int), link@),
        decreases resolutions@.len() - i,
    {
        proof {
            assert(full.skip(i as int)[0] == full[i as int]);
            assert(full.skip(i as int).drop_first() =~= full.skip(i as int + 1));
        }
        let entry = &resolutions[i];
        if entry.link.eq(link) {
            return Some(
                match &entry.resolved {
                    Some(s) => Some(s.clone()),
                    None => None,
                },
            );
        }
        i = i + 1;
    }
    proof {
        assert(full.skip(resolutions@.len() as int).len() == 0);
    }
    None
}

/// The specification-level value of a [`LinkFollowReplacer`].
#[verifier::ext_equal]
pub struct LinkFollowV {
    pub name: Seq<char>,
    pub match_regex: Seq<char>,
    pub destination_regex: Option<Seq<char>>,
    pub destination_replacement: Option<Seq<char>>,
    pub post_replacement: Option<Seq<(Seq<char>, Seq<char>)>>,
    pub bad_url_match: Option<Seq<char>>,
}

/// Follows links, and then runs an optional replacement at the end.
#[derive(Debug)]
pub struct LinkFollowReplacer {
    name: String,
    match_regex: Rx,
    /// `destination_regex` is honoured only together with
    /// `destination_replacement`; set alone it is treated as absent.
    destination_regex: Option<Rx>,
    destination_replacement: Option<String>,
    /// replace keys with values after link has been followed
    post_replacement: Option<Vec<Replacements>>,
    /// if the destination matches this regex it won't be included in the
    /// final message; takes priority over `destination_regex` and
    /// `post_replacement`
    bad_url_match: Option<Rx>,
}

impl View for LinkFollowReplacer {
    type V = LinkFollowV;

    closed spec fn view(&self) -> LinkFollowV {
        LinkFollowV {
            name: self.name@,
            match_regex: self.match_regex.spec_pattern(),
            destination_regex: (match self.destination_regex {
                Some(ref x) => Some(x.spec_pattern()),
                None => None,
            }),
            destination_replacement: (match self.destination_replacement {
                Some(ref s) => Some(s@),
                None => None,
            }),
            post_replacement: (match self.post_replacement {
                Some(ref v) => Some(v@.map_values(|p: Replacements| p@)),
                None => None,
            }),
            bad_url_match: (match self.bad_url_match {
                Some(ref x) => Some(x.spec_pattern()),
                None => None,
            }),
        }
    }
}

/// The destination rewrite of one query-stripped resolved link.
pub open spec fn rewrite_dest(m: LinkFollowV, u: Seq<char>) -> Seq<char> {
    if m.destination_regex is Some && m.destination_replacement is Some {
        rx_replace_all(m.destination_regex->0, u, m.destination_replacement->0)
    } else if m.post_replacement is Some {
        apply_posts(u, m.post_replacement->0)
    } else {
        u
    }
}

/// Whether the bad-URL filter drops the query-stripped resolved link `u`.
pub open spec fn suppressed(m: LinkFollowV, u: Seq<char>) -> bool {
    m.bad_url_match is Some && rx_has_match(m.bad_url_match->0, u)
}

/// Whether an outcome was recorded for `link` and resolution succeeded.
pub open spec fn link_resolved(rs: Seq<ResolutionV>, link: Seq<char>) -> bool {
    lookup_res(rs, link) is Some && lookup_res(rs, link)->0 is Some
}

/// Whether every candidate link has a successful recorded outcome.
pub open spec fn all_resolved(rs: Seq<ResolutionV>, links: Seq<Seq<char>>) -> bool {
    forall|i: int| 0 <= i < links.len() ==> link_resolved(rs, #[trigger] links[i])
}

/// What one resolved candidate link contributes to the output: `None` when
/// the bad-URL filter suppresses it, else its rewritten destination.
pub open spec fn contrib_of(m: LinkFollowV, rs: Seq<ResolutionV>, link: Seq<char>) -> Option<
    Seq<char>,
> {
    let u = strip_query_spec(lookup_res(rs, link)->0->0);
    if suppressed(m, u) {
        None
    } else {
        Some(rewrite_dest(m, u))
    }
}

/// The retained contributions of the candidate links, in message order.
pub open spec fn contribs(m: LinkFollowV, rs: Seq<ResolutionV>, links: Seq<Seq<char>>) -> Seq<
    Seq<char>,
>
    decreases links.len(),
{
    if links.len() == 0 {
        Seq::empty()
    } else {
        let rest = contribs(m, rs, links.drop_first());
        match contrib_of(m, rs, links[0]) {
            None => rest,
            Some(x) => seq![x] + rest,
        }
    }
}

/// The result of `replace` for a link-follow replacer: the message unchanged
/// when it does not match; `None` when some candidate link lacks a
/// successful resolution; else the retained, rewritten links joined with
/// newlines.
pub open spec fn link_replace_model(
    m: LinkFollowV,
    msg: Seq<char>,
    rs: Seq<ResolutionV>,
) -> Option<Seq<char>> {
    if !rx_has_match(m.match_regex, msg) {
        Some(msg)
    } else {
        let links = rx_matches(m.match_regex, msg);
        if all_resolved(rs, links) {
            Some(join_nl(contribs(m, rs, links)))
        } else {
            None
        }
    }
}

/// The bad-URL filter strictly suppresses: every line the link-follow
/// replacer emits is the contribution of some candidate link, and a link
/// only contributes when its resolved, query-stripped destination does not
/// match `bad_url_match` — a destination the filter matches never appears,
/// rewritten or not.
pub proof fn lemma_bad_url_suppressed(m: LinkFollowV, rs: Seq<ResolutionV>, links: Seq<Seq<char>>)
    ensures
        forall|j: int|
            0 <= j < contribs(m, rs, links).len() ==> (exists|k: int|
                0 <= k < links.len() && contrib_of(m, rs, links[k]) == Some(
                    #[trigger] contribs(m, rs, links)[j],
                )),
    decreases links.len(),
{
    if links.len() > 0 {
        lemma_bad_url_suppressed(m, rs, links.drop_first());
        let c = contribs(m, rs, links);
        let cr = contribs(m, rs, links.drop_first());
        assert forall|j: int| 0 <= j < c.len() implies (exists|k: int|
            0 <= k < links.len() && #[trigger] contrib_of(m, rs, links[k]) == Some(#[trigger] c[j])) by {
            match contrib_of(m, rs, links[0]) {
                None => {
                    assert(c == cr);
                    let k0 = choose|k: int|
                        0 <= k < links.drop_first().len() && contrib_of(
                            m,
                            rs,
                            links.drop_first()[k],
                        ) == Some(cr[j]);
                    assert(links.drop_first()[k0] == links[k0 + 1]);
                    assert(contrib_of(m, rs, links[k0 + 1]) == Some(c[j]));
                },
                Some(x) => {
                    assert(c == seq![x] + cr);
                    if j == 0 {
                        assert(c[0] == x);
                        assert(contrib_of(m, rs, links[0]) == Some(c[0]));
                    } else {
                        assert(c[j] == cr[j - 1]);
                        let k0 = choose|k: int|
                            0 <= k < links.drop_first().len() && contrib_of(
                                m,
                                rs,
                                links.drop_first()[k],
                            ) == Some(cr[j - 1]);
                        assert(links.drop_first()[k0] == links[k0 + 1]);
                        assert(contrib_of(m, rs, links[k0 + 1]) == Some(c[j]));
                    }
                },
            }
        }
    }
}

fn clone_replacements(v: &Vec<Replacements>) -> (r: Vec<Replacements>)
    ensures
        r@.map_values(|p: Replacements| p@) == v@.map_values(|p: Replacements| p@),
{
    let mut out: Vec<Replacements> = Vec::new();
    let mut i: usize = 0;
    while i < v.len()
        invariant
            i <= v@.len(),
            out@.len() == i,
            forall|j: int| 0 <= j < i ==> out@[j]@ == v@[j]@,
        decreases v@.len() - i,
    {
        out.push(v[i].clone());
        i = i + 1;
    }
    proof {
        assert(out@.map_values(|p: Replacements| p@) =~= v@.map_values(|p: Replacements| p@));
    }
    out
}

impl LinkFollowReplacer {
    pub fn new(
        name: String,
        match_regex: Rx,
        destination_regex: Option<Rx>,
        destination_replacement: Option<String>,
        post_replacement: Option<Vec<Replacements>>,
        bad_url_match: Option<Rx>,
    ) -> (r: Self)
        ensures
            r@ == (LinkFollowV {
                name: name@,
                match_regex: match_regex.spec_pattern(),
                destination_regex: (match destination_regex {
                    Some(x) => Some(x.spec_pattern()),
                    None => None,
                }),
                destination_replacement: (match destination_replacement {
                    Some(ref s) => Some(s@),
                    None => None,
                }),
                post_replacement: (match post_replacement {
                    Some(ref v) => Some(v@.map_values(|p: Replacements| p@)),
                    None => None,
                }),
                bad_url_match: (match bad_url_match {
                    Some(x) => Some(x.spec_pattern()),
                    None => None,
                }),
            }),
    {
        Self {
            name,
            match_regex,
            destination_regex,
            destination_replacement,
            post_replacement,
            bad_url_match,
        }
    }

    /// The candidate links this replacer would try to follow in the message.
    pub fn candidate_links(&self, message: &String) -> (r: Vec<String>)
        ensures
            r.deep_view() == rx_matches(self@.match_regex, message@),
    {
        self.match_regex.find_all(message.as_str())
    }

    /// The destination rewrite of one query-stripped resolved link.
    fn rewrite_one(&self, u: &String) -> (r: String)
        ensures
            r@ == rewrite_dest(self@, u@),
    {
        let regex_result: Option<String> = match &self.destination_regex {
            Some(rx) => match &self.destination_replacement {
                Some(t) => Some(rx.replace_all(u.as_str(), t.as_str())),
                None => None,
            },
            None => None,
        };
        match regex_result {
            Some(x) => x,
            None => match &self.post_replacement {
                Some(posts) => apply_post_pairs(u, posts),
                None => u.clone(),
            },
        }
    }
}

/// Applies the ordered literal replacement pairs, each seeing the result of
/// the previous one.
fn apply_post_pairs(u: &String, posts: &Vec<Replacements>) -> (r: String)
    ensures
        r@ == apply_posts(u@, posts@.map_values(|p: Replacements| p@)),
{
    let ghost m = posts@.map_values(|p: Replacements| p@);
    let mut cur = u.clone();
    let mut i: usize = 0;
    proof {
        assert(m.skip(0) =~= m);
    }
    while i < posts.len()
        invariant
            i <= posts@.len(),
            m == posts@.map_values(|p: Replacements| p@),
            m.len() == posts@.len(),
            apply_posts(u@, m) == apply_posts(cur@, m.skip(i as int)),
        decreases posts@.len() - i,
    {
        proof {
            assert(m.skip(i as int)[0] == m[i as int]);
            assert(m.skip(i as int).drop_first() =~= m.skip(i as int + 1));
        }
        cur = crate::text::replace_literal(
            cur.as_str(),
            posts[i].replace.as_str(),
            posts[i].with.as_str(),
        );
        i = i + 1;
    }
    proof {
        assert(m.skip(posts@.len() as int).len() == 0);
    }
    cur
}

impl Clone for LinkFollowReplacer {
    fn clone(&self) -> (r: Self)
        ensures
            r@ == self@,
    {
        let r = LinkFollowReplacer {
            name: self.name.clone(),
            match_regex: self.match_regex.clone(),
            destination_regex: (match &self.destination_regex {
                Some(x) => Some(x.clone()),
                None => None,
            }),
            destination_replacement: (match &self.destination_replacement {
                Some(s) => Some(s.clone()),
                None => None,
            }),
            post_replacement: (match &self.post_replacement {
                Some(v) => Some(clone_replacements(v)),
                None => None,
            }),
            bad_url_match: (match &self.bad_url_match {
                Some(x) => Some(x.clone()),
                None => None,
            }),
        };
        proof {
            assert(r@ =~= self@);
        }
        r
    }
}

impl StringReplacer for LinkFollowReplacer {
    open spec fn spec_name(&self) -> Seq<char> {
        self@.name
    }

    open spec fn spec_matches(&self, message: Seq<char>) -> bool {
        rx_has_match(self@.match_regex, message)
    }

    open spec fn spec_replace(&self, message: Seq<char>, resolutions: Seq<ResolutionV>) -> Option<
        Seq<char>,
    > {
        link_replace_model(self@, message, resolutions)
    }

    fn matches(&self, message: &String) -> (r: bool) {
        self.match_regex.is_match(message.as_str())
    }

    fn replace(&self, message: &String, resolutions: &Vec<LinkResolution>) -> (r: Result<
        String,
        ReplacerError,
    >) {
        if !self.match_regex.is_match(message.as_str()) {
            return Ok(message.clone());
        }
        let links = self.match_regex.find_all(message.as_str());
        let ghost ls = rx_matches(self@.match_regex, message@);
        let ghost rs = res_views(resolutions@);
        let mut out: Vec<String> = Vec::new();
        let mut i: usize = 0;
        proof {
            assert(ls.skip(0) =~= ls);
            assert(out@.map_values(|s: String| s@) =~= Seq::<Seq<char>>::empty());
        }
        while i < links.len()
            invariant
                i <= links@.len(),
                links.deep_view() == ls,
                ls == rx_matches(self@.match_regex, message@),
                rx_has_match(self@.match_regex, message@),
                rs == res_views(resolutions@),
                links@.len() == ls.len(),
                forall|j: int| 0 <= j < i ==> link_resolved(rs, #[trigger] ls[j]),
                contribs(self@, rs, ls) == out@.map_values(|s: String| s@) + contribs(
                    self@,
                    rs,
                    ls.skip(i as int),
                ),
            decreases links@.len() - i,
        {
            proof {
                assert(links@[i as int]@ == links.deep_view()[i as int]);
                assert(ls.skip(i as int)[0] == ls[i as int]);
                assert(ls.skip(i as int).drop_first() =~= ls.skip(i as int + 1));
            }
            let link = &links[i];
            match lookup_resolution(resolutions, link) {
                None => {
                    assert(!link_resolved(rs, ls[i as int]));
                    return Err(ReplacerError::LinkResolutionFailure);
                },
                Some(None) => {
                    assert(!link_resolved(rs, ls[i as int]));
                    return Err(ReplacerError::LinkResolutionFailure);
                },
                Some(Some(url)) => {
                    let stripped = strip_query(url.as_str());
                    let bad = match &self.bad_url_match {
                        Some(b) => b.is_match(stripped.as_str()),
                        None => false,
                    };
                    assert(bad == suppressed(self@, stripped@));
                    if !bad {
                        let rewritten = self.rewrite_one(&stripped);
                        proof {
                            let prev = out@.map_values(|s: String| s@);
                            assert(out@.push(rewritten).map_values(|s: String| s@) =~= prev.push(
                                rewritten@,
                            ));
                            assert(seq![rewritten@] + contribs(self@, rs, ls.skip(i as int + 1))
                                =~= prev.push(rewritten@).skip(prev.len() as int) + contribs(
                                self@,
                                rs,
                                ls.skip(i as int + 1),
                            ));
                            assert(prev.push(rewritten@) + contribs(self@, rs, ls.skip(i as int + 1))
                                =~= prev + (seq![rewritten@] + contribs(
                                self@,
                                rs,
                                ls.skip(i as int + 1),
                            )));
                        }
                        out.push(rewritten);
                    }
                },
            }
            i = i + 1;
        }
        proof {
            assert(ls.skip(ls.len() as int).len() == 0);
            assert(out@.map_values(|s: String| s@) + contribs(self@, rs, ls.skip(ls.len() as int))
                =~= out@.map_values(|s: String| s@));
        }
        Ok(join_lines(&out))
    }

    fn name(&self) -> (r: &String) {
        &self.name
    }
}

} // verus!
