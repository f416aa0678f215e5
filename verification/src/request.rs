//! Reading an HTTP request and deciding what the site answers.
//!
//! The request text is cut the way `str::split` cuts it: the head ends at
//! the first empty line, header lines are `name: value`, the path is the
//! second word of the request line, the query string starts at `?` and is
//! made of `name=value` parts separated by further `?`s, and a `Cookie`
//! header holds one `name=value` pair. A request that breaks one of these
//! shapes is refused.
use vstd::prelude::*;
use vstd::string::*;
use crate::text::{whitespace_char, chars_of, is_whitespace, parse_decimal, parse_unsigned, string_of};
use crate::http::Response;

verus! {

// ---------------------------------------------------------------------------
// Cutting text
// ---------------------------------------------------------------------------

/// Whether the pattern `p` stands in `s` at index `k`.
pub open spec fn match_at(s: Seq<char>, p: Seq<char>, k: int) -> bool {
    0 <= k && k + p.len() <= s.len() && s.subrange(k, k + p.len()) == p
}

/// The first index from `k` on where the non-empty pattern `p` stands in
/// `s`, or `-1`.
pub open spec fn find_from(s: Seq<char>, p: Seq<char>, k: int) -> int
    decreases s.len() - k,
{
    if k < 0 || k >= s.len() || k + p.len() > s.len() {
        -1
    } else if match_at(s, p, k) {
        k
    } else {
        find_from(s, p, k + 1)
    }
}

pub proof fn lemma_find_from_bounds(s: Seq<char>, p: Seq<char>, k: int)
    requires
        0 <= k,
        p.len() > 0,
    ensures
        find_from(s, p, k) == -1 || (k <= find_from(s, p, k) && find_from(s, p, k) + p.len() <= s.len()
            && match_at(s, p, find_from(s, p, k))),
        find_from(s, p, k) == -1 ==> forall|m: int| k <= m ==> !match_at(s, p, m),
    decreases s.len() - k,
{
    if k < s.len() && k + p.len() <= s.len() && !match_at(s, p, k) {
        lemma_find_from_bounds(s, p, k + 1);
        if find_from(s, p, k) == -1 {
            assert forall|m: int| k <= m implies !match_at(s, p, m) by {
                if m > k {
                }
            }
        }
    }
}

/// The pieces of `s` from index `start` on between the occurrences of `p`,
/// found from left to right without overlap.
pub open spec fn split_from(s: Seq<char>, p: Seq<char>, start: int) -> Seq<Seq<char>>
    decreases s.len() - start,
{
    if start < 0 || start > s.len() {
        Seq::empty()
    } else {
        let f = find_from(s, p, start);
        proof {
            if p.len() > 0 {
                lemma_find_from_bounds(s, p, start);
            }
        }
        if p.len() == 0 || f < 0 {
            seq![s.subrange(start, s.len() as int)]
        } else {
            seq![s.subrange(start, f)] + split_from(s, p, f + p.len())
        }
    }
}

/// The pieces of `s` between the occurrences of `p`: what `str::split`
/// gives for a non-empty pattern.
pub open spec fn split(s: Seq<char>, p: Seq<char>) -> Seq<Seq<char>> {
    split_from(s, p, 0)
}

/// Whether `s` begins with `p`.
pub open spec fn starts_with(s: Seq<char>, p: Seq<char>) -> bool {
    match_at(s, p, 0)
}

/// Whether `p` stands somewhere in `s`.
pub open spec fn contains(s: Seq<char>, p: Seq<char>) -> bool {
    find_from(s, p, 0) >= 0
}

/// The end of the run of white space that goes on at `k`.
pub open spec fn white_end(s: Seq<char>, k: int) -> int
    decreases s.len() - k,
{
    if 0 <= k < s.len() && whitespace_char(s[k]) {
        white_end(s, k + 1)
    } else {
        k
    }
}

/// The start of the run of white space that ends at `k`, not going below
/// `lo`.
pub open spec fn white_start(s: Seq<char>, lo: int, k: int) -> int
    decreases k,
{
    if lo < k && 0 < k <= s.len() && whitespace_char(s[k - 1]) {
        white_start(s, lo, k - 1)
    } else {
        k
    }
}

/// `s` without the white space at its ends: what `str::trim` gives.
pub open spec fn trim(s: Seq<char>) -> Seq<char> {
    let a = white_end(s, 0);
    s.subrange(a, white_start(s, a, s.len() as int))
}

pub proof fn lemma_white_bounds(s: Seq<char>, k: int)
    requires
        0 <= k <= s.len(),
    ensures
        k <= white_end(s, k) <= s.len(),
        white_end(s, k) <= white_start(s, white_end(s, k), s.len() as int) <= s.len(),
    decreases s.len() - k,
{
    if k < s.len() && whitespace_char(s[k]) {
        lemma_white_bounds(s, k + 1);
    } else {
        lemma_white_start_bounds(s, k, s.len() as int);
    }
}

proof fn lemma_white_start_bounds(s: Seq<char>, lo: int, k: int)
    requires
        0 <= lo <= k <= s.len(),
    ensures
        lo <= white_start(s, lo, k) <= k,
    decreases k,
{
    if lo < k && whitespace_char(s[k - 1]) {
        lemma_white_start_bounds(s, lo, k - 1);
    }
}

// ---------------------------------------------------------------------------
// Requests
// ---------------------------------------------------------------------------

/// A request as the site reads it.
pub struct Request {
    pub dir: String,
    pub params: Vec<(String, String)>,
    pub headers: Vec<(String, String)>,
    pub cookies: Vec<(String, String)>,
}

/// The mathematical value of a request.
pub struct RequestView {
    pub dir: Seq<char>,
    pub params: Seq<(Seq<char>, Seq<char>)>,
    pub headers: Seq<(Seq<char>, Seq<char>)>,
    pub cookies: Seq<(Seq<char>, Seq<char>)>,
}

/// The values of a list of name and value pairs.
pub open spec fn pairs_view(v: Seq<(String, String)>) -> Seq<(Seq<char>, Seq<char>)> {
    v.map_values(|p: (String, String)| (p.0@, p.1@))
}

impl View for Request {
    type V = RequestView;

    open spec fn view(&self) -> RequestView {
        RequestView {
            dir: self.dir@,
            params: pairs_view(self.params@),
            headers: pairs_view(self.headers@),
            cookies: pairs_view(self.cookies@),
        }
    }
}

/// The line break of HTTP.
pub open spec fn crlf() -> Seq<char> {
    seq!['\r', '\n']
}

/// The empty line that ends the head of a request.
pub open spec fn blank_line() -> Seq<char> {
    seq!['\r', '\n', '\r', '\n']
}

/// The separator of a header's name and value.
pub open spec fn colon_space() -> Seq<char> {
    seq![':', ' ']
}

/// Each item cut at `p` into its first two pieces; nothing when an item
/// has no `p` in it.
pub open spec fn split_pairs(items: Seq<Seq<char>>, p: Seq<char>) -> Option<Seq<(Seq<char>, Seq<char>)>>
    decreases items.len(),
{
    if items.len() == 0 {
        Some(Seq::empty())
    } else {
        match split_pairs(items.drop_last(), p) {
            None => None,
            Some(rest) => {
                let parts = split(items.last(), p);
                if parts.len() < 2 {
                    None
                } else {
                    Some(rest.push((parts[0], parts[1])))
                }
            },
        }
    }
}

/// The cookies of the `Cookie` headers: each value cut at `=` into a name
/// and a value, both trimmed; nothing when such a value has no `=`.
pub open spec fn cookie_pairs(headers: Seq<(Seq<char>, Seq<char>)>) -> Option<
    Seq<(Seq<char>, Seq<char>)>,
>
    decreases headers.len(),
{
    if headers.len() == 0 {
        Some(Seq::empty())
    } else {
        match cookie_pairs(headers.drop_last()) {
            None => None,
            Some(rest) => {
                let h = headers.last();
                if h.0 == seq!['C', 'o', 'o', 'k', 'i', 'e'] {
                    let parts = split(h.1, seq!['=']);
                    if parts.len() < 2 {
                        None
                    } else {
                        Some(rest.push((trim(parts[0]), trim(parts[1]))))
                    }
                } else {
                    Some(rest)
                }
            },
        }
    }
}

/// The path and the query parameters of the request target `d`.
pub open spec fn target_parts(d: Seq<char>) -> Option<(Seq<char>, Seq<(Seq<char>, Seq<char>)>)> {
    let qs = split(d, seq!['?']);
    if qs.len() >= 2 {
        match split_pairs(qs.drop_first(), seq!['=']) {
            Some(params) => Some((qs[0], params)),
            None => None,
        }
    } else {
        Some((d, Seq::empty()))
    }
}

/// The request that the text `s` holds, or nothing where the site refuses
/// it: no empty line after the head, a header line without `: `, no second
/// word, a query part without `=`, or a cookie without `=`.
pub open spec fn spec_parse_request(s: Seq<char>) -> Option<RequestView> {
    let parts = split(s, blank_line());
    if parts.len() < 2 {
        None
    } else {
        let lines = split(parts[0], crlf());
        match split_pairs(lines.drop_first(), colon_space()) {
            None => None,
            Some(headers) => {
                let words = split(s, seq![' ']);
                if words.len() < 2 {
                    None
                } else {
                    match target_parts(words[1]) {
                        None => None,
                        Some((dir, params)) => match cookie_pairs(headers) {
                            None => None,
                            Some(cookies) => Some(
                                RequestView { dir, params, headers, cookies },
                            ),
                        },
                    }
                }
            },
        }
    }
}


// ---------------------------------------------------------------------------
// Cutting text, in code
// ---------------------------------------------------------------------------

/// The values of a list of character vectors.
pub open spec fn texts_view(v: Seq<Vec<char>>) -> Seq<Seq<char>> {
    v.map_values(|x: Vec<char>| x@)
}

/// The values of a list of pairs of character vectors.
pub open spec fn cpairs_view(v: Seq<(Vec<char>, Vec<char>)>) -> Seq<(Seq<char>, Seq<char>)> {
    v.map_values(|p: (Vec<char>, Vec<char>)| (p.0@, p.1@))
}

/// The characters `s[lo..hi]`.
fn sub_chars(s: &Vec<char>, lo: usize, hi: usize) -> (r: Vec<char>)
    requires
        lo <= hi <= s.len(),
    ensures
        r@ == s@.subrange(lo as int, hi as int),
{
    let mut r: Vec<char> = Vec::new();
    let mut k: usize = lo;
    while k < hi
        invariant
            lo <= k <= hi <= s.len(),
            r@ == s@.subrange(lo as int, k as int),
        decreases hi - k,
    {
        r.push(s[k]);
        k = k + 1;
        assert(r@ =~= s@.subrange(lo as int, k as int));
    }
    assert(r@ =~= s@.subrange(lo as int, hi as int));
    r
}

/// Whether the pattern `p` stands in `s` at index `k`.
fn matches_at(s: &Vec<char>, p: &[char], k: usize) -> (r: bool)
    requires
        k <= s.len(),
    ensures
        r == match_at(s@, p@, k as int),
{
    if s.len() - k < p.len() {
        return false;
    }
    let mut m: usize = 0;
    while m < p.len()
        invariant
            k + p@.len() <= s.len(),
            m <= p@.len(),
            forall|q: int| 0 <= q < m ==> s@[k + q] == p@[q],
        decreases p.len() - m,
    {
        if s[k + m] != p[m] {
            assert(s@.subrange(k as int, k + p@.len())[m as int] != p@[m as int]);
            return false;
        }
        m = m + 1;
    }
    assert(s@.subrange(k as int, k + p@.len()) =~= p@);
    true
}

/// The pieces of `s` between the occurrences of the non-empty pattern `p`,
/// as `str::split` cuts them.
pub(crate) fn split_on(s: &Vec<char>, p: &[char]) -> (r: Vec<Vec<char>>)
    requires
        p@.len() > 0,
    ensures
        texts_view(r@) == split(s@, p@),
        r.len() >= 1,
{
    let len = s.len();
    let plen = p.len();
    let mut out: Vec<Vec<char>> = Vec::new();
    let mut start: usize = 0;
    let mut k: usize = 0;
    assert(texts_view(out@) + split_from(s@, p@, 0) =~= split(s@, p@));
    while k < len && len - k >= plen
        invariant
            len == s.len(),
            plen == p@.len(),
            plen > 0,
            start <= k <= len,
            find_from(s@, p@, start as int) == find_from(s@, p@, k as int),
            texts_view(out@) + split_from(s@, p@, start as int) == split(s@, p@),
        decreases len - k,
    {
        if matches_at(s, p, k) {
            let piece = sub_chars(s, start, k);
            let ghost before = texts_view(out@);
            assert(split_from(s@, p@, start as int) == seq![s@.subrange(start as int, k as int)]
                + split_from(s@, p@, k + plen));
            out.push(piece);
            assert(texts_view(out@) =~= before.push(piece@));
            assert(texts_view(out@) + split_from(s@, p@, k + plen) =~= before + split_from(
                s@,
                p@,
                start as int,
            ));
            start = k + plen;
            k = start;
        } else {
            k = k + 1;
        }
    }
    let piece = sub_chars(s, start, len);
    let ghost before = texts_view(out@);
    assert(split_from(s@, p@, start as int) == seq![s@.subrange(start as int, len as int)]);
    out.push(piece);
    assert(texts_view(out@) =~= before.push(piece@));
    assert(texts_view(out@) =~= before + split_from(s@, p@, start as int));
    out
}

/// `s` without the white space at its ends, as `str::trim` gives it.
fn trim_chars(s: &Vec<char>) -> (r: Vec<char>)
    ensures
        r@ == trim(s@),
{
    let len = s.len();
    let mut a: usize = 0;
    while a < len && is_whitespace(s[a])
        invariant
            a <= len == s.len(),
            white_end(s@, 0) == white_end(s@, a as int),
        decreases len - a,
    {
        a = a + 1;
    }
    let mut b: usize = len;
    proof {
        lemma_white_bounds(s@, 0);
    }
    while b > a && is_whitespace(s[b - 1])
        invariant
            a <= b <= len == s.len(),
            a == white_end(s@, 0),
            white_start(s@, a as int, len as int) == white_start(s@, a as int, b as int),
        decreases b,
    {
        b = b - 1;
    }
    sub_chars(s, a, b)
}

/// Whether the characters of `v` are those of `w`.
fn same_chars(v: &Vec<char>, w: &[char]) -> (r: bool)
    ensures
        r == (v@ == w@),
{
    if v.len() != w.len() {
        return false;
    }
    let mut k: usize = 0;
    while k < w.len()
        invariant
            v@.len() == w@.len(),
            k <= w@.len(),
            forall|m: int| 0 <= m < k ==> v@[m] == w@[m],
        decreases w.len() - k,
    {
        if v[k] != w[k] {
            return false;
        }
        k = k + 1;
    }
    assert(v@ =~= w@);
    true
}

/// The items `items[from..]`, each cut at `p` into its first two pieces;
/// nothing when one of them has no `p` in it.
fn pairs_from(items: &Vec<Vec<char>>, from: usize, p: &[char]) -> (r: Option<Vec<(Vec<char>, Vec<char>)>>)
    requires
        from <= items.len(),
        p@.len() > 0,
    ensures
        r matches Some(v) ==> split_pairs(texts_view(items@).subrange(from as int, items.len() as int), p@)
            == Some(cpairs_view(v@)),
        r is None ==> split_pairs(texts_view(items@).subrange(from as int, items.len() as int), p@) is None,
{
    let ghost all = texts_view(items@);
    let mut out: Vec<(Vec<char>, Vec<char>)> = Vec::new();
    let mut i: usize = from;
    assert(all.subrange(from as int, from as int) =~= Seq::<Seq<char>>::empty());
    assert(cpairs_view(out@) =~= Seq::<(Seq<char>, Seq<char>)>::empty());
    while i < items.len()
        invariant
            all == texts_view(items@),
            from <= i <= items.len(),
            p@.len() > 0,
            split_pairs(all.subrange(from as int, i as int), p@) == Some(cpairs_view(out@)),
        decreases items.len() - i,
    {
        let ghost sub = all.subrange(from as int, i + 1);
        assert(sub.drop_last() =~= all.subrange(from as int, i as int));
        assert(sub.last() == items@[i as int]@);
        let parts = split_on(&items[i], p);
        if parts.len() < 2 {
            proof {
                lemma_split_pairs_prefix_none(all.subrange(from as int, items.len() as int), i + 1 - from, p@);
                assert(all.subrange(from as int, items.len() as int).take(i + 1 - from) =~= sub);
            }
            return None;
        }
        let a = sub_chars(&parts[0], 0, parts[0].len());
        let b = sub_chars(&parts[1], 0, parts[1].len());
        assert(a@ =~= texts_view(parts@)[0]);
        assert(b@ =~= texts_view(parts@)[1]);
        let ghost before = cpairs_view(out@);
        out.push((a, b));
        assert(cpairs_view(out@) =~= before.push((a@, b@)));
        i = i + 1;
    }
    Some(out)
}

/// The cookies of the `Cookie` headers among `headers`.
fn cookies_of(headers: &Vec<(Vec<char>, Vec<char>)>) -> (r: Option<Vec<(Vec<char>, Vec<char>)>>)
    ensures
        r matches Some(v) ==> cookie_pairs(cpairs_view(headers@)) == Some(cpairs_view(v@)),
        r is None ==> cookie_pairs(cpairs_view(headers@)) is None,
{
    let ghost all = cpairs_view(headers@);
    let mut out: Vec<(Vec<char>, Vec<char>)> = Vec::new();
    let mut i: usize = 0;
    assert(all.subrange(0, 0) =~= Seq::<(Seq<char>, Seq<char>)>::empty());
    assert(cpairs_view(out@) =~= Seq::<(Seq<char>, Seq<char>)>::empty());
    while i < headers.len()
        invariant
            all == cpairs_view(headers@),
            i <= headers.len(),
            cookie_pairs(all.subrange(0, i as int)) == Some(cpairs_view(out@)),
        decreases headers.len() - i,
    {
        let ghost sub = all.subrange(0, i + 1);
        assert(sub.drop_last() =~= all.subrange(0, i as int));
        assert(sub.last() == (headers@[i as int].0@, headers@[i as int].1@));
        let cookie: &[char] = &['C', 'o', 'o', 'k', 'i', 'e'];
        assert(cookie@ == seq!['C', 'o', 'o', 'k', 'i', 'e']);
        let eq: &[char] = &['='];
        assert(eq@ == seq!['=']);
        if same_chars(&headers[i].0, cookie) {
            let parts = split_on(&headers[i].1, eq);
            if parts.len() < 2 {
                proof {
                    lemma_cookie_pairs_prefix_none(all, i + 1);
                }
                return None;
            }
            let a = trim_chars(&parts[0]);
            let b = trim_chars(&parts[1]);
            assert(parts@[0]@ == texts_view(parts@)[0]);
            assert(parts@[1]@ == texts_view(parts@)[1]);
            let ghost before = cpairs_view(out@);
            out.push((a, b));
            assert(cpairs_view(out@) =~= before.push((a@, b@)));
        }
        i = i + 1;
    }
    assert(all.subrange(0, i as int) =~= all);
    Some(out)
}

/// The pairs as strings.
fn string_pairs(v: &Vec<(Vec<char>, Vec<char>)>) -> (r: Vec<(String, String)>)
    ensures
        pairs_view(r@) == cpairs_view(v@),
{
    let mut out: Vec<(String, String)> = Vec::new();
    let mut i: usize = 0;
    while i < v.len()
        invariant
            i <= v.len(),
            pairs_view(out@) == cpairs_view(v@).subrange(0, i as int),
        decreases v.len() - i,
    {
        let a = string_of(&v[i].0, 0, v[i].0.len());
        let b = string_of(&v[i].1, 0, v[i].1.len());
        assert(a@ =~= v@[i as int].0@);
        assert(b@ =~= v@[i as int].1@);
        let ghost before = pairs_view(out@);
        out.push((a, b));
        assert(pairs_view(out@) =~= before.push((a@, b@)));
        assert(cpairs_view(v@).subrange(0, i + 1) =~= cpairs_view(v@).subrange(0, i as int).push(
            (a@, b@),
        ));
        i = i + 1;
    }
    assert(cpairs_view(v@).subrange(0, i as int) =~= cpairs_view(v@));
    out
}

/// Reads a request; nothing where the site refuses it.
pub fn parse_request(req: &str) -> (r: Option<Request>)
    ensures
        r matches Some(q) ==> spec_parse_request(req@) == Some(q@),
        r is None ==> spec_parse_request(req@) is None,
{
    let s = chars_of(req);
    let blank: &[char] = &['\r', '\n', '\r', '\n'];
    assert(blank@ == blank_line());
    let nl: &[char] = &['\r', '\n'];
    assert(nl@ == crlf());
    let cs: &[char] = &[':', ' '];
    assert(cs@ == colon_space());
    let sp: &[char] = &[' '];
    assert(sp@ == seq![' ']);
    let qm: &[char] = &['?'];
    assert(qm@ == seq!['?']);
    let eq: &[char] = &['='];
    assert(eq@ == seq!['=']);
    let parts = split_on(&s, blank);
    assert(texts_view(parts@)[0] == parts@[0]@);
    if parts.len() < 2 {
        return None;
    }
    let lines = split_on(&parts[0], nl);
    assert(texts_view(lines@).subrange(1, lines.len() as int) =~= texts_view(lines@).drop_first());
    let headers = match pairs_from(&lines, 1, cs) {
        None => {
            return None;
        },
        Some(h) => h,
    };
    let words = split_on(&s, sp);
    if words.len() < 2 {
        return None;
    }
    assert(texts_view(words@)[1] == words@[1]@);
    let qs = split_on(&words[1], qm);
    assert(texts_view(qs@)[0] == qs@[0]@);
    let (dir, params) = if qs.len() >= 2 {
        assert(texts_view(qs@).subrange(1, qs.len() as int) =~= texts_view(qs@).drop_first());
        match pairs_from(&qs, 1, eq) {
            None => {
                return None;
            },
            Some(ps) => (string_of(&qs[0], 0, qs[0].len()), ps),
        }
    } else {
        let ps: Vec<(Vec<char>, Vec<char>)> = Vec::new();
        assert(cpairs_view(ps@) =~= Seq::<(Seq<char>, Seq<char>)>::empty());
        (string_of(&words[1], 0, words[1].len()), ps)
    };
    let cookies = match cookies_of(&headers) {
        None => {
            return None;
        },
        Some(c) => c,
    };
    let q = Request {
        dir,
        params: string_pairs(&params),
        headers: string_pairs(&headers),
        cookies: string_pairs(&cookies),
    };
    assert(q.dir@ =~= texts_view(qs@)[0] || q.dir@ =~= texts_view(words@)[1]);
    Some(q)
}


proof fn lemma_split_pairs_prefix_none(items: Seq<Seq<char>>, k: int, p: Seq<char>)
    requires
        0 <= k <= items.len(),
        split_pairs(items.take(k), p) is None,
    ensures
        split_pairs(items, p) is None,
    decreases items.len() - k,
{
    if k < items.len() {
        let next = items.take(k + 1);
        assert(next.drop_last() =~= items.take(k));
        lemma_split_pairs_prefix_none(items, k + 1, p);
    } else {
        assert(items.take(k) =~= items);
    }
}

proof fn lemma_cookie_pairs_prefix_none(headers: Seq<(Seq<char>, Seq<char>)>, k: int)
    requires
        0 <= k <= headers.len(),
        cookie_pairs(headers.subrange(0, k)) is None,
    ensures
        cookie_pairs(headers) is None,
    decreases headers.len() - k,
{
    if k < headers.len() {
        let next = headers.subrange(0, k + 1);
        assert(next.drop_last() =~= headers.subrange(0, k));
        lemma_cookie_pairs_prefix_none(headers, k + 1);
    } else {
        assert(headers.subrange(0, k) =~= headers);
    }
}


// ---------------------------------------------------------------------------
// Deciding the answer
// ---------------------------------------------------------------------------

/// What the site does with a request.
#[derive(Debug, PartialEq)]
pub enum Route {
    /// Send the file at this path (relative to the site's directory) as it is.
    File(String),
    /// The home page.
    Index,
    /// The list of projects when no `project` parameter is given; otherwise
    /// the page of each project named by a `project` parameter, in order
    /// (the last page is the one sent).
    Projects(Vec<String>),
    /// Set the language cookie to the first field and send the browser to
    /// the second.
    ChangeLang(String, String),
    /// The test page.
    Test,
    /// The terminal page, or, with a `command` parameter (the last one
    /// here), the terminal's reply.
    Terminal(Option<String>),
    /// Any other path: the "not found" page.
    NotFound,
}

/// The mathematical value of a route.
pub enum RouteView {
    File(Seq<char>),
    Index,
    Projects(Seq<Seq<char>>),
    ChangeLang(Seq<char>, Seq<char>),
    Test,
    Terminal(Option<Seq<char>>),
    NotFound,
}

/// The value of an optional string.
pub open spec fn opt_view(o: Option<String>) -> Option<Seq<char>> {
    match o {
        Some(s) => Some(s@),
        None => None,
    }
}

impl View for Route {
    type V = RouteView;

    open spec fn view(&self) -> RouteView {
        match self {
            Route::File(s) => RouteView::File(s@),
            Route::Index => RouteView::Index,
            Route::Projects(v) => RouteView::Projects(v@.map_values(|x: String| x@)),
            Route::ChangeLang(l, r) => RouteView::ChangeLang(l@, r@),
            Route::Test => RouteView::Test,
            Route::Terminal(o) => RouteView::Terminal(opt_view(*o)),
            Route::NotFound => RouteView::NotFound,
        }
    }
}

/// The values of the parameters called `name`, in order.
pub open spec fn param_values(params: Seq<(Seq<char>, Seq<char>)>, name: Seq<char>) -> Seq<Seq<char>>
    decreases params.len(),
{
    if params.len() == 0 {
        Seq::empty()
    } else if params.last().0 == name {
        param_values(params.drop_last(), name).push(params.last().1)
    } else {
        param_values(params.drop_last(), name)
    }
}

/// The value of the last parameter called `name`, if any.
pub open spec fn last_param(params: Seq<(Seq<char>, Seq<char>)>, name: Seq<char>) -> Option<Seq<char>>
    decreases params.len(),
{
    if params.len() == 0 {
        None
    } else if params.last().0 == name {
        Some(params.last().1)
    } else {
        last_param(params.drop_last(), name)
    }
}

/// The index that a `lang` parameter names: its text, without one leading
/// `+`, read as a decimal number, which must be 0 or 1 (an index into the
/// site's two languages).
pub open spec fn lang_index(v: Seq<char>) -> Option<int> {
    let d = if v.len() > 0 && v[0] == '+' { v.drop_first() } else { v };
    parse_unsigned(d, 1)
}

/// The languages of the site, by index.
pub open spec fn lang_name(i: int) -> Seq<char> {
    if i == 0 {
        "en_uk"@
    } else {
        "pl_pl"@
    }
}

/// The language and the redirect target that the parameters of
/// `/change_lang` ask for (by default `en_uk` and `/`; the last parameter
/// of each kind wins), or nothing when a `lang` parameter is not a valid
/// index.
pub open spec fn change_lang_choice(params: Seq<(Seq<char>, Seq<char>)>) -> Option<(Seq<char>, Seq<char>)>
    decreases params.len(),
{
    if params.len() == 0 {
        Some(("en_uk"@, "/"@))
    } else {
        match change_lang_choice(params.drop_last()) {
            None => None,
            Some((l, r)) => {
                let p = params.last();
                if p.0 == "lang"@ {
                    match lang_index(p.1) {
                        Some(i) => Some((lang_name(i), r)),
                        None => None,
                    }
                } else if p.0 == "redirect"@ {
                    Some((l, p.1))
                } else {
                    Some((l, r))
                }
            },
        }
    }
}

/// Whether a path names a file under `static/` or `dynamic/` without
/// going up a directory.
pub open spec fn is_file_path(dir: Seq<char>) -> bool {
    (starts_with(dir, "/static/"@) || starts_with(dir, "/dynamic/"@)) && !contains(dir, ".."@)
}

/// What the site does with a request for the path `dir` with the query
/// parameters `params`; nothing where it fails (a bad `lang` parameter on
/// `/change_lang`).
pub open spec fn spec_route(dir: Seq<char>, params: Seq<(Seq<char>, Seq<char>)>) -> Option<RouteView> {
    if is_file_path(dir) || dir == "/favicon.ico"@ {
        Some(RouteView::File(dir.subrange(1, dir.len() as int)))
    } else if dir == "/"@ || dir == "/home"@ || dir == "/homepage"@ || dir == "/index"@ || dir
        == "/index.html"@ {
        Some(RouteView::Index)
    } else if dir == "/projects"@ {
        Some(RouteView::Projects(param_values(params, "project"@)))
    } else if dir == "/change_lang"@ {
        match change_lang_choice(params) {
            Some((l, r)) => Some(RouteView::ChangeLang(l, r)),
            None => None,
        }
    } else if dir == "/test"@ {
        Some(RouteView::Test)
    } else if dir == "/terminal"@ {
        Some(RouteView::Terminal(last_param(params, "command"@)))
    } else {
        Some(RouteView::NotFound)
    }
}

/// The language that the cookies ask for: the value of the last `lang`
/// cookie, `en_uk` when there is none.
pub open spec fn cookie_lang(cookies: Seq<(Seq<char>, Seq<char>)>) -> Seq<char>
    decreases cookies.len(),
{
    if cookies.len() == 0 {
        "en_uk"@
    } else if cookies.last().0 == "lang"@ {
        cookies.last().1
    } else {
        cookie_lang(cookies.drop_last())
    }
}

/// Whether the characters of `d` are those of `lit`.
fn text_is(d: &Vec<char>, lit: &str) -> (r: bool)
    ensures
        r == (d@ == lit@),
{
    let l = chars_of(lit);
    same_chars(d, l.as_slice())
}

/// Whether `d` begins with `lit`.
fn text_starts(d: &Vec<char>, lit: &str) -> (r: bool)
    ensures
        r == starts_with(d@, lit@),
{
    let l = chars_of(lit);
    matches_at(d, l.as_slice(), 0)
}

/// Whether `lit`, which is not empty, stands somewhere in `d`.
fn text_contains(d: &Vec<char>, lit: &str) -> (r: bool)
    requires
        lit@.len() > 0,
    ensures
        r == contains(d@, lit@),
{
    let l = chars_of(lit);
    let p = l.as_slice();
    let mut k: usize = 0;
    while k < d.len() && d.len() - k >= p.len()
        invariant
            p@ == lit@,
            p@.len() > 0,
            k <= d.len(),
            find_from(d@, p@, 0) == find_from(d@, p@, k as int),
        decreases d.len() - k,
    {
        if matches_at(d, p, k) {
            return true;
        }
        k = k + 1;
    }
    false
}

/// The values of the parameters called `name`, in order.
fn find_params(params: &Vec<(String, String)>, name: &str) -> (r: Vec<String>)
    ensures
        r@.map_values(|x: String| x@) == param_values(pairs_view(params@), name@),
{
    let ghost all = pairs_view(params@);
    let mut found: Vec<String> = Vec::new();
    let mut i: usize = 0;
    let n = name.to_string();
    assert(all.subrange(0, 0) =~= Seq::<(Seq<char>, Seq<char>)>::empty());
    assert(found@.map_values(|x: String| x@) =~= Seq::<Seq<char>>::empty());
    while i < params.len()
        invariant
            all == pairs_view(params@),
            n@ == name@,
            i <= params.len(),
            found@.map_values(|x: String| x@) == param_values(all.subrange(0, i as int), name@),
        decreases params.len() - i,
    {
        assert(all.subrange(0, i + 1).drop_last() =~= all.subrange(0, i as int));
        if params[i].0 == n {
            let ghost before = found@.map_values(|x: String| x@);
            let v = params[i].1.clone();
            found.push(v);
            assert(found@.map_values(|x: String| x@) =~= before.push(params@[i as int].1@));
        }
        i = i + 1;
    }
    assert(all.subrange(0, i as int) =~= all);
    found
}

/// The value of the last parameter called `name`, if any.
fn find_last_param(params: &Vec<(String, String)>, name: &str) -> (r: Option<String>)
    ensures
        opt_view(r) == last_param(pairs_view(params@), name@),
{
    let ghost all = pairs_view(params@);
    let mut found: Option<String> = None;
    let mut i: usize = 0;
    let n = name.to_string();
    assert(all.subrange(0, 0) =~= Seq::<(Seq<char>, Seq<char>)>::empty());
    while i < params.len()
        invariant
            all == pairs_view(params@),
            n@ == name@,
            i <= params.len(),
            opt_view(found) == last_param(all.subrange(0, i as int), name@),
        decreases params.len() - i,
    {
        assert(all.subrange(0, i + 1).drop_last() =~= all.subrange(0, i as int));
        if params[i].0 == n {
            found = Some(params[i].1.clone());
        }
        i = i + 1;
    }
    assert(all.subrange(0, i as int) =~= all);
    found
}

/// The index that the value of a `lang` parameter names, if it is valid.
fn read_lang_index(v: &String) -> (r: Option<usize>)
    ensures
        r matches Some(i) ==> lang_index(v@) == Some(i as int),
        r is None ==> lang_index(v@) is None,
{
    let cs = chars_of(v.as_str());
    let lo: usize = if cs.len() > 0 && cs[0] == '+' { 1 } else { 0 };
    assert(cs@.subrange(lo as int, cs@.len() as int) =~= (if cs@.len() > 0 && cs@[0] == '+' {
        cs@.drop_first()
    } else {
        cs@
    }));
    match parse_decimal(&cs, lo, cs.len(), 1) {
        Some(i) => Some(i as usize),
        None => None,
    }
}

/// The language and redirect target asked for by the parameters of
/// `/change_lang`.
fn choose_change_lang(params: &Vec<(String, String)>) -> (r: Option<(String, String)>)
    ensures
        r matches Some((l, t)) ==> change_lang_choice(pairs_view(params@)) == Some((l@, t@)),
        r is None ==> change_lang_choice(pairs_view(params@)) is None,
{
    let ghost all = pairs_view(params@);
    let mut lang = "en_uk".to_string();
    let mut target = "/".to_string();
    let lang_key = "lang".to_string();
    let redirect_key = "redirect".to_string();
    let mut i: usize = 0;
    assert(all.subrange(0, 0) =~= Seq::<(Seq<char>, Seq<char>)>::empty());
    while i < params.len()
        invariant
            all == pairs_view(params@),
            lang_key@ == "lang"@,
            redirect_key@ == "redirect"@,
            i <= params.len(),
            change_lang_choice(all.subrange(0, i as int)) == Some((lang@, target@)),
        decreases params.len() - i,
    {
        assert(all.subrange(0, i + 1).drop_last() =~= all.subrange(0, i as int));
        if params[i].0 == lang_key {
            match read_lang_index(&params[i].1) {
                Some(k) => {
                    lang = if k == 0 {
                        "en_uk".to_string()
                    } else {
                        "pl_pl".to_string()
                    };
                },
                None => {
                    proof {
                        lemma_change_lang_prefix_none(all, i + 1);
                    }
                    return None;
                },
            }
        } else if params[i].0 == redirect_key {
            target = params[i].1.clone();
        }
        i = i + 1;
    }
    assert(all.subrange(0, i as int) =~= all);
    Some((lang, target))
}

proof fn lemma_change_lang_prefix_none(params: Seq<(Seq<char>, Seq<char>)>, k: int)
    requires
        0 <= k <= params.len(),
        change_lang_choice(params.subrange(0, k)) is None,
    ensures
        change_lang_choice(params) is None,
    decreases params.len() - k,
{
    if k < params.len() {
        assert(params.subrange(0, k + 1).drop_last() =~= params.subrange(0, k));
        lemma_change_lang_prefix_none(params, k + 1);
    } else {
        assert(params.subrange(0, k) =~= params);
    }
}

/// What the site does with a request for the path `dir` with the query
/// parameters `params`; nothing where it fails.
pub fn route(dir: &String, params: &Vec<(String, String)>) -> (r: Option<Route>)
    ensures
        r matches Some(x) ==> spec_route(dir@, pairs_view(params@)) == Some(x@),
        r is None ==> spec_route(dir@, pairs_view(params@)) is None,
{
    let d = chars_of(dir.as_str());
    proof {
        reveal_strlit("..");
        reveal_strlit("/static/");
        reveal_strlit("/dynamic/");
        reveal_strlit("/favicon.ico");
    }
    let file = (text_starts(&d, "/static/") || text_starts(&d, "/dynamic/")) && !text_contains(
        &d,
        "..",
    );
    if file || text_is(&d, "/favicon.ico") {
        assert(d@.len() >= 1);
        Some(Route::File(string_of(&d, 1, d.len())))
    } else if text_is(&d, "/") || text_is(&d, "/home") || text_is(&d, "/homepage") || text_is(
        &d,
        "/index",
    ) || text_is(&d, "/index.html") {
        Some(Route::Index)
    } else if text_is(&d, "/projects") {
        Some(Route::Projects(find_params(params, "project")))
    } else if text_is(&d, "/change_lang") {
        match choose_change_lang(params) {
            Some((l, t)) => Some(Route::ChangeLang(l, t)),
            None => None,
        }
    } else if text_is(&d, "/test") {
        Some(Route::Test)
    } else if text_is(&d, "/terminal") {
        Some(Route::Terminal(find_last_param(params, "command")))
    } else {
        Some(Route::NotFound)
    }
}

/// The language that the cookies ask for.
pub fn choose_lang(cookies: &Vec<(String, String)>) -> (r: String)
    ensures
        r@ == cookie_lang(pairs_view(cookies@)),
{
    let ghost all = pairs_view(cookies@);
    let mut lang = "en_uk".to_string();
    let key = "lang".to_string();
    let mut i: usize = 0;
    assert(all.subrange(0, 0) =~= Seq::<(Seq<char>, Seq<char>)>::empty());
    while i < cookies.len()
        invariant
            all == pairs_view(cookies@),
            key@ == "lang"@,
            i <= cookies.len(),
            lang@ == cookie_lang(all.subrange(0, i as int)),
        decreases cookies.len() - i,
    {
        assert(all.subrange(0, i + 1).drop_last() =~= all.subrange(0, i as int));
        if cookies[i].0 == key {
            lang = cookies[i].1.clone();
        }
        i = i + 1;
    }
    assert(all.subrange(0, i as int) =~= all);
    lang
}

/// The status code of the answer to a route: 404 for an unknown path, 200
/// otherwise.
pub fn route_status(r: &Route) -> (code: i32)
    ensures
        code == if r@ is NotFound { 404i32 } else { 200i32 },
{
    match r {
        Route::NotFound => 404,
        _ => 200,
    }
}

/// The page that sends the browser to `target` after setting the language
/// cookie to `lang`.
pub open spec fn redirect_body(target: Seq<char>) -> Seq<char> {
    "<script> window.location.replace(\""@ + target + "\"); </script>"@
}

/// The answer of a route that needs no page to be rendered: the redirect of
/// `/change_lang` (with its `Set-Cookie` header) and the terminal's reply
/// to a command; nothing for the other routes.
pub fn plain_response(r: &Route) -> (res: Option<Response>)
    ensures
        r@ matches RouteView::ChangeLang(l, t) ==> res matches Some(x) && x.code == 200
            && x.body@ == redirect_body(t) && x.headers@.len() == 1 && x.headers@[0].0@
            == "Set-Cookie"@ && x.headers@[0].1@ == "lang="@ + l,
        r@ matches RouteView::Terminal(Some(_)) ==> res matches Some(x) && x.code == 200
            && x.body@ == "{\"help\": \"me\"}"@ && x.headers@.len() == 0,
        !(r@ is ChangeLang) && !(r@ matches RouteView::Terminal(Some(_))) ==> res is None,
{
    match r {
        Route::ChangeLang(l, t) => {
            let mut body = String::new();
            body.append("<script> window.location.replace(\"");
            body.append(t.as_str());
            body.append("\"); </script>");
            let mut cookie = String::new();
            cookie.append("lang=");
            cookie.append(l.as_str());
            let mut x = Response::new();
            x.body = body;
            x.headers.push(("Set-Cookie".to_string(), cookie));
            assert(x.body@ =~= redirect_body(t@));
            Some(x)
        },
        Route::Terminal(Some(_)) => {
            let mut x = Response::new();
            x.body = "{\"help\": \"me\"}".to_string();
            Some(x)
        },
        _ => None,
    }
}

/// A file that the site sends as it is lies under `static/` or `dynamic/`
/// without going up a directory, or is the site's icon.
pub proof fn law_files_stay_in_their_directories(dir: Seq<char>, params: Seq<(Seq<char>, Seq<char>)>)
    ensures
        spec_route(dir, params) matches Some(RouteView::File(p)) ==> p == "favicon.ico"@ || ((
        starts_with(p, "static/"@) || starts_with(p, "dynamic/"@)) && !contains(p, ".."@)),
{
    if is_file_path(dir) {
        let p = dir.subrange(1, dir.len() as int);
        reveal_strlit("/static/");
        reveal_strlit("/dynamic/");
        reveal_strlit("static/");
        reveal_strlit("dynamic/");
        reveal_strlit("..");
        if starts_with(dir, "/static/"@) {
            assert forall|k: int| 0 <= k < 7 implies p.subrange(0, 7)[k] == "static/"@[k] by {
                assert(dir.subrange(0, 8)[k + 1] == "/static/"@[k + 1]);
            }
            assert(p.subrange(0, 7) =~= "static/"@);
        } else {
            assert forall|k: int| 0 <= k < 8 implies p.subrange(0, 8)[k] == "dynamic/"@[k] by {
                assert(dir.subrange(0, 9)[k + 1] == "/dynamic/"@[k + 1]);
            }
            assert(p.subrange(0, 8) =~= "dynamic/"@);
        }
        if contains(p, ".."@) {
            lemma_find_from_bounds(p, ".."@, 0);
            let m = find_from(p, ".."@, 0);
            assert(p.subrange(m, m + 2) =~= dir.subrange(m + 1, m + 3));
            assert(match_at(dir, ".."@, m + 1));
            lemma_find_from_bounds(dir, ".."@, 0);
        }
    } else if dir == "/favicon.ico"@ {
        reveal_strlit("/favicon.ico");
        reveal_strlit("favicon.ico");
        assert(dir.subrange(1, dir.len() as int) =~= "favicon.ico"@);
    }
}

proof fn lemma_change_lang_choice_is_a_language(params: Seq<(Seq<char>, Seq<char>)>)
    ensures
        change_lang_choice(params) matches Some((l, t)) ==> l == "en_uk"@ || l == "pl_pl"@,
    decreases params.len(),
{
    if params.len() > 0 {
        lemma_change_lang_choice_is_a_language(params.drop_last());
    }
}

/// The language that `/change_lang` stores in the cookie is always one of
/// the site's two languages, whatever the parameters.
pub proof fn law_change_lang_sets_a_known_language(dir: Seq<char>, params: Seq<(Seq<char>, Seq<char>)>)
    ensures
        spec_route(dir, params) matches Some(RouteView::ChangeLang(l, t)) ==> l == "en_uk"@ || l
            == "pl_pl"@,
{
    lemma_change_lang_choice_is_a_language(params);
}

/// Whether a header is a `Cookie` header.
pub open spec fn is_cookie_header(h: (Seq<char>, Seq<char>)) -> bool {
    h.0 == "Cookie"@
}

/// The `Cookie` headers among `headers`, in their order.
pub open spec fn cookie_headers(headers: Seq<(Seq<char>, Seq<char>)>) -> Seq<(Seq<char>, Seq<char>)> {
    headers.filter(|h: (Seq<char>, Seq<char>)| is_cookie_header(h))
}

/// The cookies of a request depend on its `Cookie` headers alone, in their
/// order: the other headers, wherever they stand, change nothing.
pub proof fn law_cookies_come_from_cookie_headers(headers: Seq<(Seq<char>, Seq<char>)>)
    ensures
        cookie_pairs(headers) == cookie_pairs(cookie_headers(headers)),
    decreases headers.len(),
{
    reveal_strlit("Cookie");
    reveal(Seq::filter);
    assert("Cookie"@ =~= seq!['C', 'o', 'o', 'k', 'i', 'e']);
    if headers.len() == 0 {
        assert(cookie_headers(headers) == headers);
    } else {
        let init = headers.drop_last();
        law_cookies_come_from_cookie_headers(init);
        let f = cookie_headers(init);
        let h = headers.last();
        if is_cookie_header(h) {
            assert(cookie_headers(headers) == f.push(h));
            assert(f.push(h).drop_last() =~= f);
            assert(f.push(h).last() == h);
            assert(cookie_pairs(f.push(h)) == match cookie_pairs(f) {
                None => None,
                Some(rest) => {
                    let parts = split(h.1, seq!['=']);
                    if parts.len() < 2 {
                        None
                    } else {
                        Some(rest.push((trim(parts[0]), trim(parts[1]))))
                    }
                },
            });
        } else {
            assert(cookie_headers(headers) == f);
            assert(cookie_pairs(headers) == cookie_pairs(init));
        }
    }
}

/// The cookie that the value of a `Cookie` header holds: its text before
/// and after the first `=` (up to a second one), each trimmed; nothing when
/// it has no `=`.
pub open spec fn cookie_of(v: Seq<char>) -> Option<(Seq<char>, Seq<char>)> {
    let parts = split(v, seq!['=']);
    if parts.len() >= 2 {
        Some((trim(parts[0]), trim(parts[1])))
    } else {
        None
    }
}

/// A request's cookies are read one from each `Cookie` header, in order:
/// reading them succeeds exactly when each such header holds an `=`, and
/// then the `k`-th cookie is the one the `k`-th `Cookie` header holds.
pub proof fn law_one_cookie_per_cookie_header(headers: Seq<(Seq<char>, Seq<char>)>)
    ensures
        cookie_pairs(headers) is Some <==> forall|k: int|
            0 <= k < cookie_headers(headers).len() ==> cookie_of(
                (#[trigger] cookie_headers(headers)[k]).1,
            ) is Some,
        cookie_pairs(headers) matches Some(c) ==> c.len() == cookie_headers(headers).len() && forall|
            k: int,
        | 0 <= k < c.len() ==> cookie_of((#[trigger] cookie_headers(headers)[k]).1) == Some(c[k]),
    decreases headers.len(),
{
    reveal_strlit("Cookie");
    reveal(Seq::filter);
    assert("Cookie"@ =~= seq!['C', 'o', 'o', 'k', 'i', 'e']);
    if headers.len() == 0 {
        assert(cookie_headers(headers) == headers);
    } else {
        let init = headers.drop_last();
        law_one_cookie_per_cookie_header(init);
        let f = cookie_headers(init);
        let h = headers.last();
        if is_cookie_header(h) {
            let g = f.push(h);
            assert(cookie_headers(headers) == g);
            assert forall|k: int| 0 <= k < f.len() implies #[trigger] g[k] == f[k] by {}
            assert(g[f.len() as int] == h);
            if cookie_pairs(headers) is Some {
                assert forall|k: int| 0 <= k < g.len() implies cookie_of((#[trigger] g[k]).1) is Some by {
                    if k < f.len() {
                        assert(g[k] == f[k]);
                    }
                }
            }
            if forall|k: int| 0 <= k < g.len() ==> cookie_of((#[trigger] g[k]).1) is Some {
                assert forall|k: int| 0 <= k < f.len() implies cookie_of((#[trigger] f[k]).1) is Some by {
                    assert(g[k] == f[k]);
                }
                assert(cookie_of(g[f.len() as int].1) is Some);
            }
            if let Some(c) = cookie_pairs(headers) {
                let rest = cookie_pairs(init)->0;
                assert(c == rest.push(cookie_of(h.1)->0));
                assert forall|k: int| 0 <= k < c.len() implies cookie_of((#[trigger] g[k]).1) == Some(c[k]) by {
                    if k < f.len() {
                        assert(g[k] == f[k]);
                        assert(c[k] == rest[k]);
                    }
                }
            }
        } else {
            assert(cookie_headers(headers) == f);
            assert(cookie_pairs(headers) == cookie_pairs(init));
        }
    }
}

/// The value of the last parameter called `name`, or `default` when there
/// is none.
pub open spec fn last_param_or(params: Seq<(Seq<char>, Seq<char>)>, name: Seq<char>, default: Seq<char>) -> Seq<char> {
    match last_param(params, name) {
        Some(v) => v,
        None => default,
    }
}

/// `/change_lang` succeeds exactly when every `lang` parameter names one of
/// the site's languages; the target it sends the browser to is the value of
/// the last `redirect` parameter (`/` without one), whatever the `lang`
/// parameters are and wherever they stand; and the language it sets is the
/// one the last `lang` parameter names (`en_uk` without one), whatever the
/// `redirect` parameters are.
pub proof fn law_change_lang_takes_the_last_of_each(params: Seq<(Seq<char>, Seq<char>)>)
    ensures
        change_lang_choice(params) is Some <==> forall|k: int|
            0 <= k < params.len() && (#[trigger] params[k]).0 == "lang"@ ==> lang_index(params[k].1) is Some,
        change_lang_choice(params) matches Some((l, t)) ==> t == last_param_or(params, "redirect"@, "/"@)
            && l == match last_param(params, "lang"@) {
            Some(v) => lang_name(lang_index(v)->0),
            None => "en_uk"@,
        },
    decreases params.len(),
{
    if params.len() > 0 {
        let init = params.drop_last();
        law_change_lang_takes_the_last_of_each(init);
        assert forall|k: int| 0 <= k < init.len() implies #[trigger] init[k] == params[k] by {}
        reveal_strlit("lang");
        reveal_strlit("redirect");
        let p = params.last();
        assert(p == params[params.len() - 1]);
        assert("lang"@.len() != "redirect"@.len());
        if let Some((l0, r0)) = change_lang_choice(init) {
            assert(r0 == last_param_or(init, "redirect"@, "/"@));
            if p.0 == "lang"@ {
                assert(last_param(params, "redirect"@) == last_param(init, "redirect"@));
                assert(last_param(params, "lang"@) == Some(p.1));
            } else if p.0 == "redirect"@ {
                assert(last_param(params, "redirect"@) == Some(p.1));
                assert(last_param(params, "lang"@) == last_param(init, "lang"@));
            } else {
                assert(last_param(params, "redirect"@) == last_param(init, "redirect"@));
                assert(last_param(params, "lang"@) == last_param(init, "lang"@));
            }
        }
        if change_lang_choice(params) is Some {
            assert forall|k: int|
                0 <= k < params.len() && (#[trigger] params[k]).0 == "lang"@ implies lang_index(params[k].1) is Some by {
                if k < params.len() - 1 {
                    assert(init[k] == params[k]);
                }
            }
        }
        if forall|k: int|
            0 <= k < params.len() && (#[trigger] params[k]).0 == "lang"@ ==> lang_index(params[k].1) is Some {
            assert forall|k: int|
                0 <= k < init.len() && (#[trigger] init[k]).0 == "lang"@ implies lang_index(init[k].1) is Some by {
                assert(init[k] == params[k]);
            }
        }
    }
}

} // verus!
