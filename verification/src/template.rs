//! Splitting a page template into plain text and code blocks.
//!
//! A template is plain text with code blocks between `{{` and `}}`. The
//! splitter reads plain text up to the next `{{`, skips it, reads code up to
//! the next `}}`, skips that, and goes on while at least two characters are
//! left; what is left at the end is a last piece of plain text.
use vstd::prelude::*;
use crate::text::{chars_of, push_char};

verus! {

/// A piece of a template.
#[derive(Debug, PartialEq, Clone)]
pub enum TemplateToken {
    CodeBlock(String),
    Irrelevant(String),
}

/// The mathematical value of a piece of a template.
pub enum TemplatePiece {
    CodeBlock(Seq<char>),
    Irrelevant(Seq<char>),
}

impl View for TemplateToken {
    type V = TemplatePiece;

    open spec fn view(&self) -> TemplatePiece {
        match self {
            TemplateToken::CodeBlock(s) => TemplatePiece::CodeBlock(s@),
            TemplateToken::Irrelevant(s) => TemplatePiece::Irrelevant(s@),
        }
    }
}

/// The values of a sequence of template pieces.
pub open spec fn pieces_view(t: Seq<TemplateToken>) -> Seq<TemplatePiece> {
    t.map_values(|x: TemplateToken| x@)
}

/// Whether the characters `a` and `b` stand at `j` and `j + 1`.
pub open spec fn pair_at(s: Seq<char>, j: int, a: char, b: char) -> bool {
    0 <= j && j + 1 < s.len() && s[j] == a && s[j + 1] == b
}

/// The first index from `k` on where the pair `a b` starts, or where fewer
/// than two characters are left.
pub open spec fn scan_to(s: Seq<char>, k: int, a: char, b: char) -> int
    decreases s.len() - k,
{
    if k + 1 >= s.len() || pair_at(s, k, a, b) {
        k
    } else {
        scan_to(s, k + 1, a, b)
    }
}

/// The index two characters on from `j`, but not past the end.
pub open spec fn skip2(s: Seq<char>, j: int) -> int {
    if j + 2 <= s.len() {
        j + 2
    } else {
        s.len() as int
    }
}

pub proof fn lemma_scan_to_bounds(s: Seq<char>, k: int, a: char, b: char)
    requires
        0 <= k <= s.len(),
    ensures
        k <= scan_to(s, k, a, b) <= s.len(),
        scan_to(s, k, a, b) + 1 < s.len() ==> pair_at(s, scan_to(s, k, a, b), a, b),
        forall|m: int| k <= m < scan_to(s, k, a, b) ==> !pair_at(s, m, a, b),
    decreases s.len() - k,
{
    if !(k + 1 >= s.len() || pair_at(s, k, a, b)) {
        lemma_scan_to_bounds(s, k + 1, a, b);
    }
}

/// The pieces of the template `s` from index `k` on.
pub open spec fn template_pieces(s: Seq<char>, k: int) -> Seq<TemplatePiece>
    decreases s.len() - k,
{
    if k < 0 || k + 1 >= s.len() {
        seq![TemplatePiece::Irrelevant(s.subrange(if k < 0 { 0 } else if k > s.len() { s.len() as int } else { k }, s.len() as int))]
    } else {
        let j = scan_to(s, k, '{', '{');
        proof {
            lemma_scan_to_bounds(s, k, '{', '{');
        }
        let c = skip2(s, j);
        let e = scan_to(s, c, '}', '}');
        proof {
            lemma_scan_to_bounds(s, c, '}', '}');
        }
        let n = skip2(s, e);
        seq![TemplatePiece::Irrelevant(s.subrange(k, j)), TemplatePiece::CodeBlock(s.subrange(c, e))]
            + template_pieces(s, n)
    }
}

/// The characters `cs[k..]` up to the first pair `a b`, or up to the point
/// where fewer than two characters are left; with the index where that is.
fn read_to(cs: &Vec<char>, k: usize, a: char, b: char) -> (r: (String, usize))
    requires
        k <= cs.len(),
    ensures
        r.1 == scan_to(cs@, k as int, a, b),
        r.0@ == cs@.subrange(k as int, r.1 as int),
{
    proof {
        lemma_scan_to_bounds(cs@, k as int, a, b);
    }
    let mut buf = String::new();
    let mut j: usize = k;
    assert(buf@ =~= cs@.subrange(k as int, j as int));
    while cs.len() - j > 1 && !(cs[j] == a && cs[j + 1] == b)
        invariant
            k <= j <= cs.len(),
            scan_to(cs@, k as int, a, b) == scan_to(cs@, j as int, a, b),
            buf@ == cs@.subrange(k as int, j as int),
        decreases cs.len() - j,
    {
        push_char(&mut buf, cs[j]);
        j = j + 1;
        assert(buf@ =~= cs@.subrange(k as int, j as int));
    }
    (buf, j)
}

/// Splits a template into plain text and code blocks. The pieces alternate,
/// plain text first and last.
pub fn tokenize_template(template: String) -> (r: Vec<TemplateToken>)
    ensures
        pieces_view(r@) == template_pieces(template@, 0),
{
    let cs = chars_of(template.as_str());
    let ghost s = cs@;
    let len = cs.len();
    let mut result: Vec<TemplateToken> = Vec::new();
    let mut k: usize = 0;
    assert(pieces_view(result@) + template_pieces(s, 0) =~= template_pieces(s, 0));
    while len - k > 1
        invariant
            s == cs@,
            len == cs.len(),
            k <= len,
            pieces_view(result@) + template_pieces(s, k as int) == template_pieces(s, 0),
        decreases len - k,
    {
        let ghost before = pieces_view(result@);
        let (text, j) = read_to(&cs, k, '{', '{');
        proof {
            lemma_scan_to_bounds(s, k as int, '{', '{');
        }
        let c = if len - j >= 2 { j + 2 } else { len };
        let (code, e) = read_to(&cs, c, '}', '}');
        proof {
            lemma_scan_to_bounds(s, c as int, '}', '}');
        }
        let n = if len - e >= 2 { e + 2 } else { len };
        let t1 = TemplateToken::Irrelevant(text);
        let t2 = TemplateToken::CodeBlock(code);
        let ghost p1 = t1@;
        let ghost p2 = t2@;
        result.push(t1);
        result.push(t2);
        assert(pieces_view(result@) =~= before.push(p1).push(p2));
        assert(template_pieces(s, k as int) == seq![p1, p2] + template_pieces(s, n as int));
        assert(pieces_view(result@) + template_pieces(s, n as int) =~= before + template_pieces(s, k as int));
        k = n;
    }
    let mut last = String::new();
    let mut m: usize = k;
    assert(last@ =~= s.subrange(k as int, m as int));
    while m < len
        invariant
            s == cs@,
            len == cs.len(),
            k <= m <= len,
            last@ == s.subrange(k as int, m as int),
        decreases len - m,
    {
        push_char(&mut last, cs[m]);
        m = m + 1;
        assert(last@ =~= s.subrange(k as int, m as int));
    }
    let t = TemplateToken::Irrelevant(last);
    let ghost before = pieces_view(result@);
    let ghost p = t@;
    result.push(t);
    assert(pieces_view(result@) =~= before.push(p));
    assert(template_pieces(s, k as int) =~= seq![p]);
    result
}


/// Whether `a b` stands somewhere in `t`.
pub open spec fn has_pair(t: Seq<char>, a: char, b: char) -> bool {
    exists|m: int| 0 <= m && m + 1 < t.len() && #[trigger] t[m] == a && t[m + 1] == b
}

/// Pieces that alternate plain text and code, plain text first and last,
/// where no plain text holds `{{` and no code holds `}}`.
pub open spec fn well_split(p: Seq<TemplatePiece>) -> bool {
    &&& p.len() % 2 == 1
    &&& forall|i: int|
        0 <= i < p.len() ==> if i % 2 == 0 {
            (#[trigger] p[i]) matches TemplatePiece::Irrelevant(x) && !has_pair(x, '{', '{')
        } else {
            p[i] matches TemplatePiece::CodeBlock(x) && !has_pair(x, '}', '}')
        }
}

proof fn lemma_no_pair_before_scan(s: Seq<char>, k: int, a: char, b: char)
    requires
        0 <= k <= s.len(),
    ensures
        !has_pair(s.subrange(k, scan_to(s, k, a, b)), a, b),
{
    lemma_scan_to_bounds(s, k, a, b);
    let j = scan_to(s, k, a, b);
    let x = s.subrange(k, j);
    if has_pair(x, a, b) {
        let m = choose|m: int| 0 <= m && m + 1 < x.len() && #[trigger] x[m] == a && x[m + 1] == b;
        assert(x[m] == s[k + m] && x[m + 1] == s[k + m + 1]);
        assert(pair_at(s, k + m, a, b));
    }
}

proof fn lemma_pieces_well_split(s: Seq<char>, k: int)
    requires
        0 <= k <= s.len(),
    ensures
        well_split(template_pieces(s, k)),
    decreases s.len() - k,
{
    if k + 1 >= s.len() {
        let x = s.subrange(k, s.len() as int);
        assert(!has_pair(x, '{', '{'));
        let p = template_pieces(s, k);
        assert(p =~= seq![TemplatePiece::Irrelevant(x)]);
    } else {
        let j = scan_to(s, k, '{', '{');
        lemma_scan_to_bounds(s, k, '{', '{');
        let c = skip2(s, j);
        let e = scan_to(s, c, '}', '}');
        lemma_scan_to_bounds(s, c, '}', '}');
        let n = skip2(s, e);
        lemma_no_pair_before_scan(s, k, '{', '{');
        lemma_no_pair_before_scan(s, c, '}', '}');
        lemma_pieces_well_split(s, n);
        let rest = template_pieces(s, n);
        let head = seq![TemplatePiece::Irrelevant(s.subrange(k, j)), TemplatePiece::CodeBlock(s.subrange(c, e))];
        let p = head + rest;
        assert(template_pieces(s, k) == p);
        assert forall|i: int| 0 <= i < p.len() implies if i % 2 == 0 {
            (#[trigger] p[i]) matches TemplatePiece::Irrelevant(x) && !has_pair(x, '{', '{')
        } else {
            p[i] matches TemplatePiece::CodeBlock(x) && !has_pair(x, '}', '}')
        } by {
            if i >= 2 {
                assert(p[i] == rest[i - 2]);
                assert((i - 2) % 2 == i % 2);
            }
        }
    }
}

/// The pieces of a template alternate plain text and code, plain text
/// first and last; no plain text holds `{{` and no code holds `}}`.
pub proof fn law_template_pieces_alternate(s: Seq<char>)
    ensures
        well_split(template_pieces(s, 0)),
{
    lemma_pieces_well_split(s, 0);
}

/// The text a piece stands for: plain text as it is, code between `{{`
/// and `}}`.
pub open spec fn piece_text(p: TemplatePiece) -> Seq<char> {
    match p {
        TemplatePiece::Irrelevant(x) => x,
        TemplatePiece::CodeBlock(x) => seq!['{', '{'] + x + seq!['}', '}'],
    }
}

/// The text a list of pieces stands for.
pub open spec fn joined(p: Seq<TemplatePiece>) -> Seq<char>
    decreases p.len(),
{
    if p.len() == 0 {
        Seq::empty()
    } else {
        piece_text(p[0]) + joined(p.drop_first())
    }
}

/// Whether, from index `k` on, every round of the splitter finds a `{{`
/// and then a `}}`, up to the point where fewer than two characters are
/// left: the text is plain text and closed code blocks in turn, and ends
/// at most one character after its last block.
pub open spec fn blocks_closed(s: Seq<char>, k: int) -> bool
    decreases s.len() - k,
{
    if k < 0 || k + 1 >= s.len() {
        true
    } else {
        let j = scan_to(s, k, '{', '{');
        proof {
            lemma_scan_to_bounds(s, k, '{', '{');
        }
        if pair_at(s, j, '{', '{') {
            let e = scan_to(s, j + 2, '}', '}');
            proof {
                lemma_scan_to_bounds(s, j + 2, '}', '}');
            }
            if pair_at(s, e, '}', '}') {
                blocks_closed(s, e + 2)
            } else {
                false
            }
        } else {
            false
        }
    }
}

proof fn lemma_joined_two(a: TemplatePiece, b: TemplatePiece, r: Seq<TemplatePiece>)
    ensures
        joined(seq![a, b] + r) == piece_text(a) + piece_text(b) + joined(r),
{
    let p = seq![a, b] + r;
    let q = seq![b] + r;
    assert(p.drop_first() =~= q);
    assert(q.drop_first() =~= r);
    assert(p[0] == a);
    assert(q[0] == b);
    assert(joined(q) == piece_text(b) + joined(r));
    assert(joined(p) == piece_text(a) + joined(q));
    assert(piece_text(a) + (piece_text(b) + joined(r)) =~= piece_text(a) + piece_text(b) + joined(r));
}

proof fn lemma_round_trip(s: Seq<char>, k: int)
    requires
        0 <= k <= s.len(),
    ensures
        blocks_closed(s, k) ==> joined(template_pieces(s, k)) == s.subrange(k, s.len() as int),
        !blocks_closed(s, k) ==> joined(template_pieces(s, k)).len() > s.len() - k,
    decreases s.len() - k,
{
    if k + 1 >= s.len() {
        let x = s.subrange(k, s.len() as int);
        assert(template_pieces(s, k) =~= seq![TemplatePiece::Irrelevant(x)]);
        let one = seq![TemplatePiece::Irrelevant(x)];
        assert(one.drop_first() =~= Seq::<TemplatePiece>::empty());
        assert(joined(one.drop_first()) == Seq::<char>::empty());
        assert(joined(one) == x + Seq::<char>::empty());
        assert(joined(one) =~= x);
    } else {
        let j = scan_to(s, k, '{', '{');
        lemma_scan_to_bounds(s, k, '{', '{');
        let c = skip2(s, j);
        let e = scan_to(s, c, '}', '}');
        lemma_scan_to_bounds(s, c, '}', '}');
        let n = skip2(s, e);
        let a = TemplatePiece::Irrelevant(s.subrange(k, j));
        let b = TemplatePiece::CodeBlock(s.subrange(c, e));
        let rest = template_pieces(s, n);
        assert(template_pieces(s, k) == seq![a, b] + rest);
        lemma_joined_two(a, b, rest);
        lemma_round_trip(s, n);
        if pair_at(s, j, '{', '{') && pair_at(s, e, '}', '}') {
            if blocks_closed(s, n) {
                assert(s.subrange(k, s.len() as int) =~= s.subrange(k, j) + seq!['{', '{'] + s.subrange(c, e)
                    + seq!['}', '}'] + s.subrange(n, s.len() as int));
            }
        }
    }
}

/// A template is rebuilt exactly from its pieces (plain text as it is,
/// code between `{{` and `}}`) when all its blocks are closed and it ends
/// at most one character after the last of them, and on no other text:
/// otherwise the splitter drops a character or adds braces.
pub proof fn law_template_round_trip(s: Seq<char>)
    ensures
        blocks_closed(s, 0) <==> joined(template_pieces(s, 0)) == s,
{
    lemma_round_trip(s, 0);
    assert(s.subrange(0, s.len() as int) =~= s);
}

} // verus!
