//! Character-sequence utilities shared by the replacers: lexicographic
//! ordering of names, newline joining and splitting, spoiler delimiters,
//! query-string stripping and literal substring replacement.

use vstd::prelude::*;
use vstd::string::*;

verus! {

// ---------------------------------------------------------------------------
// Lexicographic order on character sequences
// ---------------------------------------------------------------------------

/// `a` is strictly before `b` in lexicographic (code point) order.
pub open spec fn lex_lt(a: Seq<char>, b: Seq<char>) -> bool
    decreases a.len(),
{
    if b.len() == 0 {
        false
    } else if a.len() == 0 {
        true
    } else if a[0] != b[0] {
        (a[0] as u32) < (b[0] as u32)
    } else {
        lex_lt(a.drop_first(), b.drop_first())
    }
}

pub proof fn lemma_lex_lt_trans(a: Seq<char>, b: Seq<char>, c: Seq<char>)
    requires
        lex_lt(a, b),
        lex_lt(b, c),
    ensures
        lex_lt(a, c),
    decreases a.len(),
{
    if a.len() > 0 {
        if a[0] == b[0] && b[0] == c[0] {
            lemma_lex_lt_trans(a.drop_first(), b.drop_first(), c.drop_first());
        }
    }
}

pub proof fn lemma_lex_lt_irrefl(a: Seq<char>)
    ensures
        !lex_lt(a, a),
    decreases a.len(),
{
    if a.len() > 0 {
        lemma_lex_lt_irrefl(a.drop_first());
    }
}

/// Lexicographic order is connex: two sequences are ordered one way or the
/// other, or they are equal.
pub proof fn lemma_lex_connex(a: Seq<char>, b: Seq<char>)
    ensures
        lex_lt(a, b) || lex_lt(b, a) || a == b,
    decreases a.len(),
{
    if a.len() == 0 && b.len() == 0 {
        assert(a =~= b);
    } else if a.len() > 0 && b.len() > 0 && a[0] == b[0] {
        lemma_lex_connex(a.drop_first(), b.drop_first());
        if a.drop_first() == b.drop_first() {
            assert(a.drop_first().len() == a.len() - 1);
            assert(b.drop_first().len() == b.len() - 1);
            assert forall|j: int| 0 <= j < a.len() implies a[j] == b[j] by {
                if j > 0 {
                    assert(a.drop_first()[j - 1] == a[j]);
                    assert(b.drop_first()[j - 1] == b[j]);
                }
            }
            assert(a =~= b);
        } else {
            assert(lex_lt(a.drop_first(), b.drop_first()) || lex_lt(b.drop_first(), a.drop_first()));
            assert(lex_lt(a, b) == lex_lt(a.drop_first(), b.drop_first()));
            assert(lex_lt(b, a) == lex_lt(b.drop_first(), a.drop_first()));
        }
    } else if a.len() == 0 {
        assert(b.len() > 0);
        assert(lex_lt(a, b));
    } else if b.len() == 0 {
        assert(lex_lt(b, a));
    } else {
        assert(a[0] != b[0]);
        lemma_char_inj(a[0], b[0]);
        assert(lex_lt(a, b) || lex_lt(b, a));
    }
}

proof fn lemma_char_inj(c1: char, c2: char)
    requires
        c1 != c2,
    ensures
        c1 as u32 != c2 as u32,
{
}

proof fn lemma_lex_lt_step(a: Seq<char>, b: Seq<char>, i: int)
    requires
        0 <= i < a.len(),
        i < b.len(),
        a[i] == b[i],
    ensures
        lex_lt(a.skip(i), b.skip(i)) == lex_lt(a.skip(i + 1), b.skip(i + 1)),
{
    assert(a.skip(i).len() > 0);
    assert(b.skip(i).len() > 0);
    assert(a.skip(i)[0] == a[i]);
    assert(b.skip(i)[0] == b[i]);
    assert(a.skip(i).drop_first() =~= a.skip(i + 1));
    assert(b.skip(i).drop_first() =~= b.skip(i + 1));
}

/// Compares two strings in lexicographic (code point) order.
pub fn str_lt(a: &str, b: &str) -> (r: bool)
    ensures
        r == lex_lt(a@, b@),
{
    let la = a.unicode_len();
    let lb = b.unicode_len();
    let mut i: usize = 0;
    proof {
        assert(a@.skip(0) =~= a@);
        assert(b@.skip(0) =~= b@);
    }
    loop
        invariant
            i <= la,
            i <= lb,
            la == a@.len(),
            lb == b@.len(),
            lex_lt(a@, b@) == lex_lt(a@.skip(i as int), b@.skip(i as int)),
        decreases la - i,
    {
        if i == lb {
            assert(b@.skip(i as int).len() == 0);
            return false;
        }
        if i == la {
            assert(a@.skip(i as int).len() == 0);
            return true;
        }
        let ca = a.get_char(i);
        let cb = b.get_char(i);
        assert(a@.skip(i as int)[0] == a@[i as int]);
        assert(b@.skip(i as int)[0] == b@[i as int]);
        if ca != cb {
            return (ca as u32) < (cb as u32);
        }
        proof {
            lemma_lex_lt_step(a@, b@, i as int);
        }
        i = i + 1;
    }
}

// ---------------------------------------------------------------------------
// First occurrence of a character
// ---------------------------------------------------------------------------

/// Index of the first occurrence of `c` in `s`, or `-1` if there is none.
pub open spec fn first_occ(s: Seq<char>, c: char) -> int
    decreases s.len(),
{
    if s.len() == 0 {
        -1
    } else if s[0] == c {
        0
    } else {
        let r = first_occ(s.drop_first(), c);
        if r < 0 {
            -1
        } else {
            r + 1
        }
    }
}

pub proof fn lemma_first_occ_props(s: Seq<char>, c: char)
    ensures
        -1 <= first_occ(s, c) < s.len(),
        first_occ(s, c) >= 0 ==> s[first_occ(s, c)] == c,
        forall|j: int| 0 <= j < first_occ(s, c) ==> s[j] != c,
        first_occ(s, c) == -1 ==> (forall|j: int| 0 <= j < s.len() ==> s[j] != c),
    decreases s.len(),
{
    if s.len() > 0 && s[0] != c {
        lemma_first_occ_props(s.drop_first(), c);
        assert forall|j: int| 0 <= j < first_occ(s, c) implies s[j] != c by {
            if j > 0 {
                assert(s.drop_first()[j - 1] == s[j]);
            }
        }
        if first_occ(s, c) == -1 {
            assert forall|j: int| 0 <= j < s.len() implies s[j] != c by {
                if j > 0 {
                    assert(s.drop_first()[j - 1] == s[j]);
                }
            }
        }
    }
}

pub proof fn lemma_first_occ_at(s: Seq<char>, c: char, k: int)
    requires
        0 <= k < s.len(),
        s[k] == c,
        forall|j: int| 0 <= j < k ==> s[j] != c,
    ensures
        first_occ(s, c) == k,
    decreases k,
{
    if k > 0 {
        assert(s[0] != c);
        lemma_first_occ_at(s.drop_first(), c, k - 1);
    }
}

pub proof fn lemma_first_occ_none(s: Seq<char>, c: char)
    requires
        forall|j: int| 0 <= j < s.len() ==> s[j] != c,
    ensures
        first_occ(s, c) == -1,
{
    lemma_first_occ_props(s, c);
    if first_occ(s, c) >= 0 {
        assert(s[first_occ(s, c)] == c);
    }
}

/// Finds the first occurrence of `c` in `s`, if any.
pub fn find_char(s: &str, c: char) -> (r: Option<usize>)
    ensures
        (match r {
            Some(k) => 0 <= k < s@.len() && first_occ(s@, c) == k,
            None => first_occ(s@, c) == -1,
        }),
{
    let n = s.unicode_len();
    let mut i: usize = 0;
    while i < n
        invariant
            i <= n,
            n == s@.len(),
            forall|j: int| 0 <= j < i ==> s@[j] != c,
        decreases n - i,
    {
        if s.get_char(i) == c {
            proof {
                lemma_first_occ_at(s@, c, i as int);
            }
            return Some(i);
        }
        i = i + 1;
    }
    proof {
        lemma_first_occ_none(s@, c);
    }
    None
}

// ---------------------------------------------------------------------------
// Joining parts with newlines
// ---------------------------------------------------------------------------

/// The parts joined with a single `'\n'` between consecutive parts.
pub open spec fn join_nl(parts: Seq<Seq<char>>) -> Seq<char>
    decreases parts.len(),
{
    if parts.len() == 0 {
        Seq::empty()
    } else if parts.len() == 1 {
        parts[0]
    } else {
        parts[0] + seq!['\n'] + join_nl(parts.drop_first())
    }
}

pub proof fn lemma_join_nl_push(parts: Seq<Seq<char>>, x: Seq<char>)
    ensures
        parts.len() == 0 ==> join_nl(parts.push(x)) == x,
        parts.len() > 0 ==> join_nl(parts.push(x)) == join_nl(parts) + seq!['\n'] + x,
    decreases parts.len(),
{
    if parts.len() == 0 {
        assert(parts.push(x)[0] == x);
    } else if parts.len() == 1 {
        assert(parts.push(x)[0] == parts[0]);
        assert(parts.push(x).drop_first() =~= seq![x]);
        assert(join_nl(seq![x]) == x);
    } else {
        lemma_join_nl_push(parts.drop_first(), x);
        assert(parts.push(x).drop_first() =~= parts.drop_first().push(x));
        assert(parts.push(x)[0] == parts[0]);
    }
}

/// Joins the given strings with a newline between consecutive entries.
pub fn join_lines(parts: &Vec<String>) -> (r: String)
    ensures
        r@ == join_nl(parts@.map_values(|s: String| s@)),
{
    let ghost m = parts@.map_values(|s: String| s@);
    if parts.len() == 0 {
        let r = String::new();
        return r;
    }
    let mut acc = parts[0].clone();
    let mut i: usize = 1;
    proof {
        assert(m.take(1) =~= seq![m[0]]);
    }
    while i < parts.len()
        invariant
            1 <= i <= parts.len(),
            m == parts@.map_values(|s: String| s@),
            m.len() == parts@.len(),
            acc@ == join_nl(m.take(i as int)),
        decreases parts.len() - i,
    {
        acc.append("\n");
        acc.append(parts[i].as_str());
        proof {
            reveal_strlit("\n");
            assert("\n"@ =~= seq!['\n']);
            lemma_join_nl_push(m.take(i as int), m[i as int]);
            assert(m.take(i as int).push(m[i as int]) =~= m.take(i as int + 1));
        }
        i = i + 1;
    }
    proof {
        assert(m.take(parts@.len() as int) =~= m);
    }
    acc
}

// ---------------------------------------------------------------------------
// Splitting into lines
// ---------------------------------------------------------------------------

/// `l` holds no newline character.
pub open spec fn no_nl(l: Seq<char>) -> bool {
    forall|j: int| 0 <= j < l.len() ==> l[j] != '\n'
}

/// The lines of `s`, split on `'\n'`; always at least one line.
pub open spec fn lines_of(s: Seq<char>) -> Seq<Seq<char>>
    decreases s.len(),
{
    let k = first_occ(s, '\n');
    if 0 <= k && k < s.len() {
        seq![s.take(k)] + lines_of(s.skip(k + 1))
    } else {
        seq![s]
    }
}

pub proof fn lemma_lines_nonempty(s: Seq<char>)
    ensures
        lines_of(s).len() >= 1,
{
}

pub proof fn lemma_lines_no_nl(s: Seq<char>)
    ensures
        forall|i: int| 0 <= i < lines_of(s).len() ==> no_nl(#[trigger] lines_of(s)[i]),
    decreases s.len(),
{
    lemma_first_occ_props(s, '\n');
    let k = first_occ(s, '\n');
    if 0 <= k && k < s.len() {
        lemma_lines_no_nl(s.skip(k + 1));
        assert(no_nl(s.take(k)));
        assert(forall|i: int|
            1 <= i < lines_of(s).len() ==> lines_of(s)[i] == lines_of(s.skip(k + 1))[i - 1]);
    } else {
        assert(no_nl(s));
    }
}

/// Splitting the newline-joined parts gives the parts back, provided no part
/// holds a newline of its own.
pub proof fn lemma_lines_join_inverse(parts: Seq<Seq<char>>)
    requires
        parts.len() >= 1,
        forall|i: int| 0 <= i < parts.len() ==> no_nl(#[trigger] parts[i]),
    ensures
        lines_of(join_nl(parts)) == parts,
    decreases parts.len(),
{
    let s = join_nl(parts);
    if parts.len() == 1 {
        assert(s == parts[0]);
        lemma_first_occ_none(s, '\n');
        assert(lines_of(s) =~= parts);
    } else {
        let rest = join_nl(parts.drop_first());
        assert(s == parts[0] + seq!['\n'] + rest);
        let k = parts[0].len() as int;
        assert(s[k] == '\n');
        assert forall|j: int| 0 <= j < k implies s[j] != '\n' by {
            assert(s[j] == parts[0][j]);
        }
        lemma_first_occ_at(s, '\n', k);
        assert(s.take(k) =~= parts[0]);
        assert(s.skip(k + 1) =~= rest);
        lemma_lines_join_inverse(parts.drop_first());
        assert(lines_of(s) =~= seq![parts[0]] + parts.drop_first());
        assert(seq![parts[0]] + parts.drop_first() =~= parts);
    }
}

/// Splits `s` at each newline.
pub fn split_lines(s: &str) -> (r: Vec<String>)
    ensures
        r@.map_values(|t: String| t@) == lines_of(s@),
{
    let n = s.unicode_len();
    let mut acc: Vec<String> = Vec::new();
    let mut start: usize = 0;
    let mut i: usize = 0;
    proof {
        assert(s@.skip(0) =~= s@);
        assert(acc@.map_values(|t: String| t@) =~= Seq::<Seq<char>>::empty());
    }
    while i < n
        invariant
            start <= i <= n,
            n == s@.len(),
            forall|j: int| start <= j < i ==> s@[j] != '\n',
            lines_of(s@) == acc@.map_values(|t: String| t@) + lines_of(s@.skip(start as int)),
        decreases n - i,
    {
        if s.get_char(i) == '\n' {
            let piece = s.substring_char(start, i);
            let owned = piece.to_owned();
            proof {
                let rem = s@.skip(start as int);
                assert forall|j: int| 0 <= j < i - start implies rem[j] != '\n' by {
                    assert(rem[j] == s@[start + j]);
                }
                assert(rem[i - start] == s@[i as int]);
                lemma_first_occ_at(rem, '\n', i - start);
                assert(rem.take(i - start) =~= s@.subrange(start as int, i as int));
                assert(rem.skip(i - start + 1) =~= s@.skip(i as int + 1));
                assert(lines_of(rem) == seq![s@.subrange(start as int, i as int)] + lines_of(
                    s@.skip(i as int + 1),
                ));
                assert((acc@.map_values(|t: String| t@)).push(owned@) =~= acc@.map_values(
                    |t: String| t@,
                ) + seq![s@.subrange(start as int, i as int)]);
                assert(acc@.push(owned).map_values(|t: String| t@) =~= (acc@.map_values(
                    |t: String| t@,
                )).push(owned@));
            }
            acc.push(owned);
            start = i + 1;
        }
        i = i + 1;
    }
    let piece = s.substring_char(start, n);
    let owned = piece.to_owned();
    proof {
        let rem = s@.skip(start as int);
        assert forall|j: int| 0 <= j < rem.len() implies rem[j] != '\n' by {
            assert(rem[j] == s@[start + j]);
        }
        lemma_first_occ_none(rem, '\n');
        assert(lines_of(rem) == seq![rem]);
        assert(rem =~= s@.subrange(start as int, n as int));
        assert(acc@.push(owned).map_values(|t: String| t@) =~= (acc@.map_values(|t: String| t@)).push(
            owned@,
        ));
        assert((acc@.map_values(|t: String| t@)).push(rem) =~= acc@.map_values(|t: String| t@)
            + lines_of(rem));
    }
    acc.push(owned);
    acc
}

// ---------------------------------------------------------------------------
// Spoiler delimiters
// ---------------------------------------------------------------------------

/// `s` holds the two-character spoiler delimiter `||` somewhere.
pub open spec fn has_spoiler(s: Seq<char>) -> bool {
    exists|i: int| 0 <= i && i + 1 < s.len() && #[trigger] s[i] == '|' && s[i + 1] == '|'
}

/// A line wrapped in the spoiler delimiter pair: it starts and ends with `||`.
pub open spec fn spoiler_wrapped(l: Seq<char>) -> bool {
    l.len() >= 4 && l.take(2) == "||"@ && l.skip(l.len() - 2) == "||"@
}

/// `l` wrapped in the spoiler delimiter pair.
pub open spec fn wrap_spoiler(l: Seq<char>) -> Seq<char> {
    "||"@ + l + "||"@
}

pub proof fn lemma_wrap_spoiler_wrapped(l: Seq<char>)
    requires
        no_nl(l),
    ensures
        spoiler_wrapped(wrap_spoiler(l)),
        no_nl(wrap_spoiler(l)),
{
    reveal_strlit("||");
    let w = wrap_spoiler(l);
    assert(w.take(2) =~= "||"@);
    assert(w.skip(w.len() - 2) =~= "||"@);
    assert forall|j: int| 0 <= j < w.len() implies w[j] != '\n' by {
        if j < 2 {
            assert(w[j] == '|');
        } else if j < 2 + l.len() {
            assert(w[j] == l[j - 2]);
        } else {
            assert(w[j] == '|');
        }
    }
}

/// Every line wrapped in the spoiler delimiter pair.
pub open spec fn wrap_all(ls: Seq<Seq<char>>) -> Seq<Seq<char>> {
    ls.map_values(|l: Seq<char>| wrap_spoiler(l))
}

/// True iff the message carries the spoiler delimiter `||`.
pub fn contains_spoiler(s: &str) -> (r: bool)
    ensures
        r == has_spoiler(s@),
{
    let n = s.unicode_len();
    if n < 2 {
        return false;
    }
    let mut i: usize = 0;
    while i < n - 1
        invariant
            i <= n,
            n == s@.len(),
            n >= 2,
            forall|j: int| 0 <= j < i ==> !(#[trigger] s@[j] == '|' && s@[j + 1] == '|'),
        decreases n - i,
    {
        if s.get_char(i) == '|' && s.get_char(i + 1) == '|' {
            assert(s@[i as int] == '|' && s@[i as int + 1] == '|');
            return true;
        }
        i = i + 1;
    }
    false
}

/// Wraps one line in the spoiler delimiter pair.
pub fn wrap_line(l: &str) -> (r: String)
    ensures
        r@ == wrap_spoiler(l@),
{
    let mut out = "||".to_owned();
    out.append(l);
    out.append("||");
    out
}

// ---------------------------------------------------------------------------
// Query-string stripping
// ---------------------------------------------------------------------------

/// `s` with its query string removed: the part from the first `'?'` before
/// any `'#'` up to the fragment (or the end) is dropped.
pub open spec fn strip_query_spec(s: Seq<char>) -> Seq<char> {
    let h = first_occ(s, '#');
    let pre = if h < 0 {
        s
    } else {
        s.take(h)
    };
    let frag = if h < 0 {
        Seq::<char>::empty()
    } else {
        s.skip(h)
    };
    let q = first_occ(pre, '?');
    if q < 0 {
        s
    } else {
        pre.take(q) + frag
    }
}

/// Removes the query string of a resolved link, keeping any fragment.
pub fn strip_query(s: &str) -> (r: String)
    ensures
        r@ == strip_query_spec(s@),
{
    let n = s.unicode_len();
    let h = find_char(s, '#');
    let pre_end: usize = match h {
        Some(k) => k,
        None => n,
    };
    proof {
        if h is None {
            assert(s@.take(n as int) =~= s@);
        }
    }
    let pre = s.substring_char(0, pre_end);
    assert(pre@ == (if first_occ(s@, '#') < 0 {
        s@
    } else {
        s@.take(first_occ(s@, '#'))
    }));
    let q = find_char(pre, '?');
    match q {
        None => s.to_owned(),
        Some(qk) => {
            let mut out = pre.substring_char(0, qk).to_owned();
            proof {
                assert(pre@.subrange(0, qk as int) =~= pre@.take(qk as int));
            }
            if pre_end < n {
                out.append(s.substring_char(pre_end, n));
                proof {
                    assert(s@.subrange(pre_end as int, n as int) =~= s@.skip(pre_end as int));
                }
            } else {
                proof {
                    if h is Some {
                        assert(s@.skip(pre_end as int) =~= Seq::<char>::empty());
                        assert(pre@.take(qk as int) + s@.skip(pre_end as int) =~= pre@.take(
                            qk as int,
                        ));
                    }
                }
            }
            out
        },
    }
}

// ---------------------------------------------------------------------------
// Literal substring replacement
// ---------------------------------------------------------------------------

/// Every non-overlapping occurrence of `from` in `s`, scanned left to right,
/// replaced with `to`.  An empty `from` matches at every position.
pub open spec fn lit_replace(s: Seq<char>, from: Seq<char>, to: Seq<char>) -> Seq<char>
    decreases s.len(),
{
    if from.len() == 0 {
        if s.len() == 0 {
            to
        } else {
            to + seq![s[0]] + lit_replace(s.drop_first(), from, to)
        }
    } else if s.len() < from.len() {
        s
    } else if s.take(from.len() as int) == from {
        to + lit_replace(s.skip(from.len() as int), from, to)
    } else {
        seq![s[0]] + lit_replace(s.drop_first(), from, to)
    }
}

/// Relies on `str::replace`: each non-overlapping occurrence of `from`,
/// found left to right, is replaced with `to`.
#[verifier::external_body]
pub fn replace_literal(s: &str, from: &str, to: &str) -> (r: String)
    ensures
        r@ == lit_replace(s@, from@, to@),
{
    s.replace(from, to)
}

/// The ordered replacement pairs applied one after another, each seeing the
/// result of the previous one.
pub open spec fn apply_posts(u: Seq<char>, posts: Seq<(Seq<char>, Seq<char>)>) -> Seq<char>
    decreases posts.len(),
{
    if posts.len() == 0 {
        u
    } else {
        apply_posts(lit_replace(u, posts[0].0, posts[0].1), posts.drop_first())
    }
}

} // verus!
