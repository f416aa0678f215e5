//! A lenient JSON reader.
//!
//! Reading goes in two stages. The lexer turns the text into tokens: the
//! six structural characters, strings between double quotes (a quote after a
//! backslash does not end a string, and the backslash is kept), runs of
//! numeric characters, and the words `true`, `false` and `null` (spaces
//! inside a word are skipped; any other word is dropped). The parser then
//! reads values from the tokens; the value of the document is the last
//! top-level value.
use vstd::prelude::*;
use crate::text::{all_digits, num_end, lemma_num_end_bounds, numeric_char, is_digit, is_numeric, parse_unsigned, parse_decimal, push_char, decimal, i64_to_string, chars_of};

verus! {

broadcast use {vstd::string::group_string_axioms, vstd::seq::axiom_seq_index_decreases};

/// A lexical token of a JSON document.
#[derive(Debug, PartialEq)]
pub enum JsonToken {
    OpenCursive,
    CloseCursive,
    OpenList,
    CloseList,
    String(String),
    Number(i64),
    Bool(bool),
    Null,
    Separator,
    Colon,
    EOF,
}

/// A JSON value.
#[derive(Debug, PartialEq)]
pub enum JsonElem {
    List(Vec<JsonElem>),
    Dict(Vec<(JsonElem, JsonElem)>),
    String(String),
    Number(i64),
    Bool(bool),
    Null,
    Ignore,
}

/// A parsed JSON document.
#[derive(Debug)]
pub struct Json {
    pub body: JsonElem,
}

/// The mathematical value of a token.
pub enum JsonTok {
    OpenCursive,
    CloseCursive,
    OpenList,
    CloseList,
    Str(Seq<char>),
    Number(i64),
    Bool(bool),
    Null,
    Separator,
    Colon,
    Eof,
}

/// The mathematical value of a JSON value.
#[verifier::ext_equal]
pub enum JsonVal {
    List(Seq<JsonVal>),
    Dict(Seq<(JsonVal, JsonVal)>),
    Str(Seq<char>),
    Number(i64),
    Bool(bool),
    Null,
    Ignore,
}

impl View for JsonToken {
    type V = JsonTok;

    open spec fn view(&self) -> JsonTok {
        match self {
            JsonToken::OpenCursive => JsonTok::OpenCursive,
            JsonToken::CloseCursive => JsonTok::CloseCursive,
            JsonToken::OpenList => JsonTok::OpenList,
            JsonToken::CloseList => JsonTok::CloseList,
            JsonToken::String(s) => JsonTok::Str(s@),
            JsonToken::Number(n) => JsonTok::Number(*n),
            JsonToken::Bool(b) => JsonTok::Bool(*b),
            JsonToken::Null => JsonTok::Null,
            JsonToken::Separator => JsonTok::Separator,
            JsonToken::Colon => JsonTok::Colon,
            JsonToken::EOF => JsonTok::Eof,
        }
    }
}

/// The values of a sequence of tokens.
pub open spec fn toks_view(t: Seq<JsonToken>) -> Seq<JsonTok> {
    t.map_values(|x: JsonToken| x@)
}

/// The mathematical value of a JSON value.
pub open spec fn elem_view(e: JsonElem) -> JsonVal
    decreases e,
{
    match e {
        JsonElem::List(l) => JsonVal::List(
            Seq::new(l.len() as nat, |i: int| if 0 <= i < l.len() { elem_view(l@[i]) } else { JsonVal::Null }),
        ),
        JsonElem::Dict(d) => JsonVal::Dict(
            Seq::new(
                d.len() as nat,
                |i: int|
                    if 0 <= i < d.len() {
                        (elem_view(d@[i].0), elem_view(d@[i].1))
                    } else {
                        (JsonVal::Null, JsonVal::Null)
                    },
            ),
        ),
        JsonElem::String(s) => JsonVal::Str(s@),
        JsonElem::Number(n) => JsonVal::Number(n),
        JsonElem::Bool(b) => JsonVal::Bool(b),
        JsonElem::Null => JsonVal::Null,
        JsonElem::Ignore => JsonVal::Ignore,
    }
}

impl View for JsonElem {
    type V = JsonVal;

    open spec fn view(&self) -> JsonVal {
        elem_view(*self)
    }
}


impl JsonElem {
    /// A copy of this value, element by element.
    pub fn deep_copy(&self) -> (r: JsonElem)
        ensures
            r@ == self@,
        decreases self,
    {
        match self {
            JsonElem::List(l) => {
                let rl = copy_list(l);
                proof {
                    lemma_list_view_eq(rl, *l);
                }
                JsonElem::List(rl)
            },
            JsonElem::Dict(d) => {
                let rd = copy_dict(d);
                proof {
                    lemma_dict_view_eq(rd, *d);
                }
                JsonElem::Dict(rd)
            },
            JsonElem::String(s) => JsonElem::String(s.clone()),
            JsonElem::Number(n) => JsonElem::Number(*n),
            JsonElem::Bool(b) => JsonElem::Bool(*b),
            JsonElem::Null => JsonElem::Null,
            JsonElem::Ignore => JsonElem::Ignore,
        }
    }
}

/// Lists whose elements have equal values have equal values.
proof fn lemma_list_view_eq(a: Vec<JsonElem>, b: Vec<JsonElem>)
    requires
        a.len() == b.len(),
        forall|k: int| 0 <= k < a.len() ==> (#[trigger] a@[k])@ == b@[k]@,
    ensures
        elem_view(JsonElem::List(a)) == elem_view(JsonElem::List(b)),
{
    let va = elem_view(JsonElem::List(a));
    let vb = elem_view(JsonElem::List(b));
    assert forall|k: int| 0 <= k < a.len() implies va->List_0[k] == vb->List_0[k] by {
        assert(a@[k]@ == b@[k]@);
    }
    assert(va->List_0 =~= vb->List_0);
}

/// Dictionaries whose entries have equal values have equal values.
proof fn lemma_dict_view_eq(a: Vec<(JsonElem, JsonElem)>, b: Vec<(JsonElem, JsonElem)>)
    requires
        a.len() == b.len(),
        forall|k: int|
            0 <= k < a.len() ==> (#[trigger] a@[k]).0@ == b@[k].0@ && a@[k].1@ == b@[k].1@,
    ensures
        elem_view(JsonElem::Dict(a)) == elem_view(JsonElem::Dict(b)),
{
    let va = elem_view(JsonElem::Dict(a));
    let vb = elem_view(JsonElem::Dict(b));
    assert forall|k: int| 0 <= k < a.len() implies va->Dict_0[k] == vb->Dict_0[k] by {
        assert(a@[k].0@ == b@[k].0@);
    }
    assert(va->Dict_0 =~= vb->Dict_0);
}

/// A copy of a list of values.
fn copy_list(l: &Vec<JsonElem>) -> (r: Vec<JsonElem>)
    ensures
        r.len() == l.len(),
        forall|k: int| 0 <= k < l.len() ==> (#[trigger] r@[k])@ == l@[k]@,
    decreases l,
{
    let mut out: Vec<JsonElem> = Vec::new();
    let mut i: usize = 0;
    while i < l.len()
        invariant
            i <= l.len(),
            out.len() == i,
            forall|k: int| 0 <= k < i ==> (#[trigger] out@[k])@ == l@[k]@,
        decreases l.len() - i,
    {
        out.push(l[i].deep_copy());
        i = i + 1;
    }
    out
}

/// A copy of the entries of a dictionary.
fn copy_dict(d: &Vec<(JsonElem, JsonElem)>) -> (r: Vec<(JsonElem, JsonElem)>)
    ensures
        r.len() == d.len(),
        forall|k: int| 0 <= k < d.len() ==> (#[trigger] r@[k]).0@ == d@[k].0@ && r@[k].1@ == d@[k].1@,
    decreases d,
{
    let mut out: Vec<(JsonElem, JsonElem)> = Vec::new();
    let mut i: usize = 0;
    while i < d.len()
        invariant
            i <= d.len(),
            out.len() == i,
            forall|k: int| 0 <= k < i ==> (#[trigger] out@[k]).0@ == d@[k].0@ && out@[k].1@ == d@[k].1@,
        decreases d.len() - i,
    {
        proof {
            assert(decreases_to!(d@[i as int] => d@[i as int].0));
        }
        let k = d[i].0.deep_copy();
        let v = d[i].1.deep_copy();
        out.push((k, v));
        i = i + 1;
    }
    out
}

impl Clone for JsonElem {
    fn clone(&self) -> (r: Self)
        ensures
            r@ == self@,
    {
        self.deep_copy()
    }
}


// ---------------------------------------------------------------------------
// Lexing
// ---------------------------------------------------------------------------

/// `Some(p + t)` when `o` is `Some(t)`; nothing when `o` is nothing.
pub open spec fn prepend_all(p: Seq<JsonTok>, o: Option<Seq<JsonTok>>) -> Option<Seq<JsonTok>> {
    match o {
        Some(t) => Some(p + t),
        None => None,
    }
}

/// The index of the double quote that closes a string whose text starts at
/// `k` (the opening quote stands at `k - 1`): the first quote at or after
/// `k` that does not follow a backslash, or the length of `s` when there is
/// none.
pub open spec fn quote_end(s: Seq<char>, k: int) -> int
    decreases s.len() - k,
{
    if k >= s.len() {
        s.len() as int
    } else if s[k] == '"' && s[k - 1] != '\\' {
        k
    } else {
        quote_end(s, k + 1)
    }
}

/// The characters that end a word: the structural characters, the double
/// quote and the ASCII digits.
pub open spec fn ends_word(c: char) -> bool {
    c == '{' || c == '}' || c == '[' || c == ']' || c == '"' || c == ',' || c == ':' || is_digit(c)
}

/// The end of the word that goes on at `k`.
pub open spec fn word_end(s: Seq<char>, k: int) -> int
    decreases s.len() - k,
{
    if 0 <= k < s.len() && !ends_word(s[k]) {
        word_end(s, k + 1)
    } else {
        k
    }
}

/// The characters of `t` without its spaces.
pub open spec fn drop_spaces(t: Seq<char>) -> Seq<char>
    decreases t.len(),
{
    if t.len() == 0 {
        t
    } else if t.last() == ' ' {
        drop_spaces(t.drop_last())
    } else {
        drop_spaces(t.drop_last()).push(t.last())
    }
}

/// The token a word stands for, if any.
pub open spec fn word_token(w: Seq<char>) -> Option<JsonTok> {
    if w == seq!['t', 'r', 'u', 'e'] {
        Some(JsonTok::Bool(true))
    } else if w == seq!['f', 'a', 'l', 's', 'e'] {
        Some(JsonTok::Bool(false))
    } else if w == seq!['n', 'u', 'l', 'l'] {
        Some(JsonTok::Null)
    } else {
        None
    }
}

/// The token of a structural character.
pub open spec fn structural_token(c: char) -> Option<JsonTok> {
    if c == '{' {
        Some(JsonTok::OpenCursive)
    } else if c == '}' {
        Some(JsonTok::CloseCursive)
    } else if c == '[' {
        Some(JsonTok::OpenList)
    } else if c == ']' {
        Some(JsonTok::CloseList)
    } else if c == ',' {
        Some(JsonTok::Separator)
    } else if c == ':' {
        Some(JsonTok::Colon)
    } else {
        None
    }
}

pub proof fn lemma_quote_end_bounds(s: Seq<char>, k: int)
    requires
        0 <= k,
    ensures
        k <= quote_end(s, k) <= s.len() || (k > s.len() && quote_end(s, k) == s.len()),
    decreases s.len() - k,
{
    if k < s.len() && !(s[k] == '"' && s[k - 1] != '\\') {
        lemma_quote_end_bounds(s, k + 1);
    }
}

pub proof fn lemma_word_end_bounds(s: Seq<char>, k: int)
    requires
        0 <= k <= s.len(),
    ensures
        k <= word_end(s, k) <= s.len(),
    decreases s.len() - k,
{
    if k < s.len() && !ends_word(s[k]) {
        lemma_word_end_bounds(s, k + 1);
    }
}

/// The tokens of the text `s` from index `i` on, or nothing where reading
/// fails: a number that runs to the end of the text, or one that is not a
/// decimal `i64`.
pub open spec fn lex(s: Seq<char>, i: int) -> Option<Seq<JsonTok>>
    decreases s.len() - i,
{
    if i < 0 || i >= s.len() {
        Some(Seq::empty())
    } else {
        let c = s[i];
        if structural_token(c) is Some {
            prepend_all(seq![structural_token(c)->0], lex(s, i + 1))
        } else if c == '"' {
            let e = quote_end(s, i + 1);
            let next = if e < s.len() { e + 1 } else { s.len() as int };
            proof {
                lemma_quote_end_bounds(s, i + 1);
            }
            prepend_all(seq![JsonTok::Str(s.subrange(i + 1, e))], lex(s, next))
        } else if numeric_char(c) {
            let e = num_end(s, i + 1);
            proof {
                lemma_num_end_bounds(s, i + 1);
            }
            if e >= s.len() {
                None
            } else {
                match parse_unsigned(s.subrange(i, e), i64::MAX as int) {
                    Some(v) => prepend_all(seq![JsonTok::Number(v as i64)], lex(s, e)),
                    None => None,
                }
            }
        } else {
            let e = word_end(s, i + 1);
            proof {
                lemma_word_end_bounds(s, i + 1);
            }
            match word_token(drop_spaces(s.subrange(i, e))) {
                Some(t) => prepend_all(seq![t], lex(s, e)),
                None => lex(s, e),
            }
        }
    }
}


proof fn lemma_prepend_step(p: Seq<JsonTok>, t: JsonTok, x: Option<Seq<JsonTok>>)
    ensures
        prepend_all(p, prepend_all(seq![t], x)) == prepend_all(p.push(t), x),
{
    if let Some(y) = x {
        assert(p + (seq![t] + y) =~= p.push(t) + y);
    }
}

proof fn lemma_toks_view_push(v: Seq<JsonToken>, t: JsonToken)
    ensures
        toks_view(v.push(t)) == toks_view(v).push(t@),
{
    assert(toks_view(v.push(t)) =~= toks_view(v).push(t@));
}

/// Appends `t` to the tokens, keeping the lexing invariant.
fn push_token(toks: &mut Vec<JsonToken>, t: JsonToken)
    ensures
        final(toks)@ == old(toks)@.push(t),
        toks_view(final(toks)@) == toks_view(old(toks)@).push(t@),
{
    proof {
        lemma_toks_view_push(old(toks)@, t);
    }
    toks.push(t);
}

/// A character that is not numeric is not an ASCII digit.
proof fn lemma_digit_numeric(c: char)
    requires
        !numeric_char(c),
    ensures
        !is_digit(c),
{
}

/// Reads the tokens of `cs`; nothing where reading fails.
fn lex_chars(cs: &Vec<char>) -> (r: Option<Vec<JsonToken>>)
    ensures
        r matches Some(t) ==> lex(cs@, 0) == Some(toks_view(t@)),
        r is None ==> lex(cs@, 0) is None,
{
    let ghost s = cs@;
    let len = cs.len();
    let mut toks: Vec<JsonToken> = Vec::new();
    let mut i: usize = 0;
    assert(toks_view(toks@) =~= Seq::<JsonTok>::empty());
    assert(prepend_all(toks_view(toks@), lex(s, 0)) == lex(s, 0)) by {
        if let Some(y) = lex(s, 0) {
            assert(Seq::<JsonTok>::empty() + y =~= y);
        }
    }
    while i < len
        invariant
            s == cs@,
            len == cs.len(),
            i <= len,
            lex(s, 0) == prepend_all(toks_view(toks@), lex(s, i as int)),
        decreases len - i,
    {
        let c = cs[i];
        let ghost before = toks_view(toks@);
        if c == '{' || c == '}' || c == '[' || c == ']' || c == ',' || c == ':' {
            let t = if c == '{' {
                JsonToken::OpenCursive
            } else if c == '}' {
                JsonToken::CloseCursive
            } else if c == '[' {
                JsonToken::OpenList
            } else if c == ']' {
                JsonToken::CloseList
            } else if c == ',' {
                JsonToken::Separator
            } else {
                JsonToken::Colon
            };
            assert(t@ == structural_token(c)->0);
            proof {
                lemma_prepend_step(before, t@, lex(s, i + 1));
            }
            push_token(&mut toks, t);
            i = i + 1;
        } else if c == '"' {
            let mut text = String::new();
            let mut j: usize = i + 1;
            assert(text@ =~= s.subrange(i + 1, j as int));
            while j < len && !(cs[j] == '"' && cs[j - 1] != '\\')
                invariant
                    s == cs@,
                    len == cs.len(),
                    i < j <= len,
                    quote_end(s, i + 1) == quote_end(s, j as int),
                    text@ == s.subrange(i + 1, j as int),
                decreases len - j,
            {
                push_char(&mut text, cs[j]);
                j = j + 1;
                assert(text@ =~= s.subrange(i + 1, j as int));
            }
            let next = if j < len { j + 1 } else { len };
            let t = JsonToken::String(text);
            proof {
                lemma_prepend_step(before, t@, lex(s, next as int));
            }
            push_token(&mut toks, t);
            i = next;
        } else if is_numeric(c) {
            let mut j: usize = i + 1;
            while j < len && is_numeric(cs[j])
                invariant
                    s == cs@,
                    len == cs.len(),
                    i < j <= len,
                    num_end(s, i + 1) == num_end(s, j as int),
                decreases len - j,
            {
                j = j + 1;
            }
            if j >= len {
                return None;
            }
            match parse_decimal(cs, i, j, i64::MAX) {
                None => {
                    return None;
                },
                Some(v) => {
                    let t = JsonToken::Number(v);
                    proof {
                        lemma_prepend_step(before, t@, lex(s, j as int));
                    }
                    push_token(&mut toks, t);
                    i = j;
                },
            }
        } else {
            proof {
                lemma_digit_numeric(c);
            }
            let mut word: Vec<char> = Vec::new();
            let mut j: usize = i;
            assert(s.subrange(i as int, j as int) =~= Seq::<char>::empty());
            while j < len && (j == i || !(cs[j] == '{' || cs[j] == '}' || cs[j] == '[' || cs[j] == ']'
                || cs[j] == '"' || cs[j] == ',' || cs[j] == ':' || ('0' <= cs[j] && cs[j] <= '9')))
                invariant
                    s == cs@,
                    len == cs.len(),
                    i <= j <= len,
                    i < len,
                    j == i ==> word@ == Seq::<char>::empty(),
                    j > i ==> word_end(s, i + 1) == word_end(s, j as int),
                    word@ == drop_spaces(s.subrange(i as int, j as int)),
                decreases len - j,
            {
                let d = cs[j];
                if d != ' ' {
                    word.push(d);
                }
                j = j + 1;
                assert(s.subrange(i as int, j as int).drop_last() =~= s.subrange(i as int, j as int - 1));
            }
            let t = word_token_of(&word);
            match t {
                Some(t) => {
                    proof {
                        lemma_prepend_step(before, t@, lex(s, j as int));
                    }
                    push_token(&mut toks, t);
                },
                None => {},
            }
            i = j;
        }
    }
    assert(toks_view(toks@) + Seq::<JsonTok>::empty() =~= toks_view(toks@));
    Some(toks)
}

/// The token a word stands for, if any.
fn word_token_of(w: &Vec<char>) -> (r: Option<JsonToken>)
    ensures
        r matches Some(t) ==> word_token(w@) == Some(t@),
        r is None ==> word_token(w@) is None,
{
    if w.len() == 4 && w[0] == 't' && w[1] == 'r' && w[2] == 'u' && w[3] == 'e' {
        assert(w@ =~= seq!['t', 'r', 'u', 'e']);
        Some(JsonToken::Bool(true))
    } else if w.len() == 5 && w[0] == 'f' && w[1] == 'a' && w[2] == 'l' && w[3] == 's' && w[4] == 'e' {
        assert(w@ =~= seq!['f', 'a', 'l', 's', 'e']);
        Some(JsonToken::Bool(false))
    } else if w.len() == 4 && w[0] == 'n' && w[1] == 'u' && w[2] == 'l' && w[3] == 'l' {
        assert(w@ =~= seq!['n', 'u', 'l', 'l']);
        Some(JsonToken::Null)
    } else {
        assert(w@ != seq!['t', 'r', 'u', 'e'] && w@ != seq!['f', 'a', 'l', 's', 'e'] && w@ != seq!['n', 'u', 'l', 'l']) by {
            if w@ == seq!['t', 'r', 'u', 'e'] {
                assert(w@[0] == 't' && w@[3] == 'e');
            }
            if w@ == seq!['f', 'a', 'l', 's', 'e'] {
                assert(w@[0] == 'f' && w@[4] == 'e');
            }
            if w@ == seq!['n', 'u', 'l', 'l'] {
                assert(w@[0] == 'n' && w@[3] == 'l');
            }
        }
        None
    }
}


// ---------------------------------------------------------------------------
// Parsing
// ---------------------------------------------------------------------------

/// The values of a list of values.
pub open spec fn items_view(l: Seq<JsonElem>) -> Seq<JsonVal> {
    l.map_values(|e: JsonElem| e@)
}

/// The values of the entries of a dictionary.
pub open spec fn entries_view(d: Seq<(JsonElem, JsonElem)>) -> Seq<(JsonVal, JsonVal)> {
    d.map_values(|p: (JsonElem, JsonElem)| (p.0@, p.1@))
}

pub proof fn lemma_list_view(l: Vec<JsonElem>)
    ensures
        elem_view(JsonElem::List(l)) == JsonVal::List(items_view(l@)),
{
    assert(elem_view(JsonElem::List(l))->List_0 =~= items_view(l@));
}

pub proof fn lemma_dict_view(d: Vec<(JsonElem, JsonElem)>)
    ensures
        elem_view(JsonElem::Dict(d)) == JsonVal::Dict(entries_view(d@)),
{
    assert(elem_view(JsonElem::Dict(d))->Dict_0 =~= entries_view(d@));
}

/// The value that starts at token `i`, with the index of the token after
/// it; nothing where the tokens do not hold one. Inside a dictionary the
/// token between a key and its value is skipped whatever it is, and a comma
/// after an entry or an item is optional.
pub open spec fn parse_value(t: Seq<JsonTok>, i: int) -> Option<(JsonVal, int)>
    decreases t.len() - i, 0int,
{
    if i < 0 || i >= t.len() {
        None
    } else {
        match t[i] {
            JsonTok::OpenCursive => match parse_entries(t, i + 1, Seq::empty()) {
                Some((d, j)) => Some((JsonVal::Dict(d), j)),
                None => None,
            },
            JsonTok::OpenList => match parse_items(t, i + 1, Seq::empty()) {
                Some((l, j)) => Some((JsonVal::List(l), j)),
                None => None,
            },
            JsonTok::Str(s) => Some((JsonVal::Str(s), i + 1)),
            JsonTok::Number(n) => Some((JsonVal::Number(n), i + 1)),
            JsonTok::Bool(b) => Some((JsonVal::Bool(b), i + 1)),
            JsonTok::Null => Some((JsonVal::Null, i + 1)),
            _ => None,
        }
    }
}

/// The entries of a dictionary from token `k` on, after the entries `acc`,
/// with the index of the token after the closing brace.
/// (A value always ends after the token it starts at, so the checks
/// `k1 <= k` and `k2 <= k1` never hold; they keep the definition
/// well-founded.)
pub open spec fn parse_entries(t: Seq<JsonTok>, k: int, acc: Seq<(JsonVal, JsonVal)>) -> Option<
    (Seq<(JsonVal, JsonVal)>, int),
>
    decreases t.len() - k, 1int,
{
    if k < 0 || k >= t.len() {
        None
    } else if t[k] is CloseCursive {
        Some((acc, k + 1))
    } else {
        match parse_value(t, k) {
            None => None,
            Some((key, k1)) => if k1 <= k || k1 >= t.len() {
                None
            } else {
                match parse_value(t, k1 + 1) {
                    None => None,
                    Some((val, k2)) => if k2 <= k1 || k2 >= t.len() {
                        None
                    } else {
                        let k3 = if t[k2] is Separator { k2 + 1 } else { k2 };
                        parse_entries(t, k3, acc.push((key, val)))
                    },
                }
            },
        }
    }
}

/// The items of a list from token `k` on, after the items `acc`, with the
/// index of the token after the closing bracket.
pub open spec fn parse_items(t: Seq<JsonTok>, k: int, acc: Seq<JsonVal>) -> Option<(Seq<JsonVal>, int)>
    decreases t.len() - k, 1int,
{
    if k < 0 || k >= t.len() {
        None
    } else if t[k] is CloseList {
        Some((acc, k + 1))
    } else {
        match parse_value(t, k) {
            None => None,
            Some((v, k1)) => if k1 <= k || k1 >= t.len() {
                None
            } else {
                let k2 = if t[k1] is Separator { k1 + 1 } else { k1 };
                parse_items(t, k2, acc.push(v))
            },
        }
    }
}

/// The last top-level value of the tokens from `i` on, where `cur` is the
/// last one read so far; the tokens must end with the end marker.
pub open spec fn parse_all(t: Seq<JsonTok>, i: int, cur: JsonVal) -> Option<JsonVal>
    decreases t.len() - i,
{
    if i < 0 || i >= t.len() {
        None
    } else if t[i] is Eof {
        Some(cur)
    } else {
        match parse_value(t, i) {
            None => None,
            Some((v, j)) => if j <= i || j > t.len() {
                None
            } else {
                parse_all(t, j, v)
            },
        }
    }
}

/// The value of a document with no value in it.
pub open spec fn no_value() -> JsonVal {
    JsonVal::Str(seq!['e', 'r', 'r', 'o', 'r'])
}

/// The value of the JSON text `s`, or nothing where reading it fails.
pub open spec fn spec_parse_json(s: Seq<char>) -> Option<JsonVal> {
    match lex(s, 0) {
        None => None,
        Some(t) => parse_all(t.push(JsonTok::Eof), 0, no_value()),
    }
}

/// The value that starts at token `i`, with the index of the token after it.
fn parse_token(t: &Vec<JsonToken>, i: usize) -> (r: Option<(JsonElem, usize)>)
    requires
        i <= t.len(),
    ensures
        r matches Some((e, j)) ==> parse_value(toks_view(t@), i as int) == Some((e@, j as int))
            && i < j <= t.len(),
        r is None ==> parse_value(toks_view(t@), i as int) is None,
    decreases t.len() - i, 0int,
{
    if i >= t.len() {
        return None;
    }
    assert(toks_view(t@)[i as int] == t@[i as int]@);
    match &t[i] {
        JsonToken::OpenCursive => match parse_dict(t, i + 1) {
            Some((d, j)) => {
                proof {
                    lemma_dict_view(d);
                }
                Some((JsonElem::Dict(d), j))
            },
            None => None,
        },
        JsonToken::OpenList => match parse_list(t, i + 1) {
            Some((l, j)) => {
                proof {
                    lemma_list_view(l);
                }
                Some((JsonElem::List(l), j))
            },
            None => None,
        },
        JsonToken::String(s) => Some((JsonElem::String(s.clone()), i + 1)),
        JsonToken::Number(n) => Some((JsonElem::Number(*n), i + 1)),
        JsonToken::Bool(b) => Some((JsonElem::Bool(*b), i + 1)),
        JsonToken::Null => Some((JsonElem::Null, i + 1)),
        _ => None,
    }
}

/// The entries of a dictionary whose first entry starts at token `i`.
fn parse_dict(t: &Vec<JsonToken>, i: usize) -> (r: Option<(Vec<(JsonElem, JsonElem)>, usize)>)
    requires
        i <= t.len(),
    ensures
        r matches Some((d, j)) ==> parse_entries(toks_view(t@), i as int, Seq::empty()) == Some(
            (entries_view(d@), j as int),
        ) && i < j <= t.len(),
        r is None ==> parse_entries(toks_view(t@), i as int, Seq::empty()) is None,
    decreases t.len() - i, 1int,
{
    let ghost tv = toks_view(t@);
    let mut data: Vec<(JsonElem, JsonElem)> = Vec::new();
    let mut k: usize = i;
    assert(entries_view(data@) =~= Seq::<(JsonVal, JsonVal)>::empty());
    loop
        invariant
            tv == toks_view(t@),
            i <= k <= t.len(),
            parse_entries(tv, i as int, Seq::empty()) == parse_entries(tv, k as int, entries_view(data@)),
        decreases t.len() - k,
    {
        if k >= t.len() {
            return None;
        }
        assert(tv[k as int] == t@[k as int]@);
        if let JsonToken::CloseCursive = &t[k] {
            return Some((data, k + 1));
        }
        let (key, k1) = match parse_token(t, k) {
            None => {
                return None;
            },
            Some(p) => p,
        };
        if k1 >= t.len() {
            return None;
        }
        let (val, k2) = match parse_token(t, k1 + 1) {
            None => {
                return None;
            },
            Some(p) => p,
        };
        if k2 >= t.len() {
            return None;
        }
        assert(tv[k2 as int] == t@[k2 as int]@);
        let k3 = if let JsonToken::Separator = &t[k2] {
            k2 + 1
        } else {
            k2
        };
        let ghost before = entries_view(data@);
        let ghost entry = (key@, val@);
        data.push((key, val));
        assert(entries_view(data@) =~= before.push(entry));
        k = k3;
    }
}

/// The items of a list whose first item starts at token `i`.
fn parse_list(t: &Vec<JsonToken>, i: usize) -> (r: Option<(Vec<JsonElem>, usize)>)
    requires
        i <= t.len(),
    ensures
        r matches Some((l, j)) ==> parse_items(toks_view(t@), i as int, Seq::empty()) == Some(
            (items_view(l@), j as int),
        ) && i < j <= t.len(),
        r is None ==> parse_items(toks_view(t@), i as int, Seq::empty()) is None,
    decreases t.len() - i, 1int,
{
    let ghost tv = toks_view(t@);
    let mut list: Vec<JsonElem> = Vec::new();
    let mut k: usize = i;
    assert(items_view(list@) =~= Seq::<JsonVal>::empty());
    loop
        invariant
            tv == toks_view(t@),
            i <= k <= t.len(),
            parse_items(tv, i as int, Seq::empty()) == parse_items(tv, k as int, items_view(list@)),
        decreases t.len() - k,
    {
        if k >= t.len() {
            return None;
        }
        assert(tv[k as int] == t@[k as int]@);
        if let JsonToken::CloseList = &t[k] {
            return Some((list, k + 1));
        }
        let (v, k1) = match parse_token(t, k) {
            None => {
                return None;
            },
            Some(p) => p,
        };
        if k1 >= t.len() {
            return None;
        }
        assert(tv[k1 as int] == t@[k1 as int]@);
        let k2 = if let JsonToken::Separator = &t[k1] {
            k1 + 1
        } else {
            k1
        };
        let ghost before = items_view(list@);
        let ghost item = v@;
        list.push(v);
        assert(items_view(list@) =~= before.push(item));
        k = k2;
    }
}

/// The last top-level value of the tokens, which end with the end marker.
fn parse_tokens(t: &Vec<JsonToken>) -> (r: Option<JsonElem>)
    ensures
        r matches Some(e) ==> parse_all(toks_view(t@), 0, no_value()) == Some(e@),
        r is None ==> parse_all(toks_view(t@), 0, no_value()) is None,
{
    let ghost tv = toks_view(t@);
    let mut cur = JsonElem::String("error".to_string());
    proof {
        reveal_strlit("error");
        assert(cur@ == no_value());
    }
    let mut i: usize = 0;
    loop
        invariant
            tv == toks_view(t@),
            i <= t.len(),
            parse_all(tv, 0, no_value()) == parse_all(tv, i as int, cur@),
        decreases t.len() - i,
    {
        if i >= t.len() {
            return None;
        }
        assert(tv[i as int] == t@[i as int]@);
        if let JsonToken::EOF = &t[i] {
            return Some(cur);
        }
        match parse_token(t, i) {
            None => {
                return None;
            },
            Some((v, j)) => {
                cur = v;
                i = j;
            },
        }
    }
}

/// Reads a JSON text; nothing where `parse_json` would fail on it.
pub fn try_parse_json(json: &str) -> (r: Option<Json>)
    ensures
        r matches Some(j) ==> spec_parse_json(json@) == Some(j.body@),
        r is None ==> spec_parse_json(json@) is None,
{
    let cs = chars_of(json);
    match lex_chars(&cs) {
        None => None,
        Some(mut toks) => {
            let ghost tv = toks_view(toks@);
            push_token(&mut toks, JsonToken::EOF);
            match parse_tokens(&toks) {
                Some(body) => Some(Json { body }),
                None => None,
            }
        },
    }
}

/// Reads a JSON text. Its value is the last top-level value in it; a text
/// with no value in it reads as the string `"error"`.
pub fn parse_json(json: String) -> (r: Json)
    requires
        spec_parse_json(json@) is Some,
    ensures
        spec_parse_json(json@) == Some(r.body@),
{
    match try_parse_json(json.as_str()) {
        Some(j) => j,
        None => {
            proof {
                assert(false);
            }
            Json { body: JsonElem::Ignore }
        },
    }
}


// ---------------------------------------------------------------------------
// Access to values
// ---------------------------------------------------------------------------

/// The value of the last entry whose key is the string `key`, or `Ignore`
/// when there is none.
pub open spec fn dict_get(d: Seq<(JsonVal, JsonVal)>, key: Seq<char>) -> JsonVal
    decreases d.len(),
{
    if d.len() == 0 {
        JsonVal::Ignore
    } else if d.last().0 == JsonVal::Str(key) {
        d.last().1
    } else {
        dict_get(d.drop_last(), key)
    }
}

/// Whether some entry has the string `key` as its key.
pub open spec fn dict_has(d: Seq<(JsonVal, JsonVal)>, key: Seq<char>) -> bool {
    exists|k: int| 0 <= k < d.len() && (#[trigger] d[k]).0 == JsonVal::Str(key)
}

/// The text that `display` gives for a value.
pub open spec fn display_text(v: JsonVal) -> Seq<char> {
    match v {
        JsonVal::Str(s) => s,
        JsonVal::Number(n) => decimal(n as int),
        JsonVal::Ignore => Seq::empty(),
        JsonVal::Null => seq!['n', 'u', 'l', 'l'],
        _ => seq!['l', 'a', 'z', 'y'],
    }
}

/// Whether the key of an entry is the string `key`.
fn key_is(k: &JsonElem, key: &String) -> (r: bool)
    ensures
        r == (k@ == JsonVal::Str(key@)),
{
    match k {
        JsonElem::String(s) => *s == *key,
        _ => false,
    }
}

impl JsonElem {
    /// The value of the last entry of this dictionary whose key is the
    /// string `key`; `Ignore` when there is none.
    pub fn get(&self, key: &str) -> (r: JsonElem)
        requires
            self@ is Dict,
        ensures
            r@ == dict_get(self@->Dict_0, key@),
    {
        let key = key.to_string();
        match self {
            JsonElem::Dict(d) => {
                proof {
                    lemma_dict_view(*d);
                }
                let ghost ev = entries_view(d@);
                let mut result = JsonElem::Ignore;
                let mut i: usize = 0;
                while i < d.len()
                    invariant
                        ev == entries_view(d@),
                        i <= d.len(),
                        result@ == dict_get(ev.take(i as int), key@),
                    decreases d.len() - i,
                {
                    assert(ev.take(i + 1).drop_last() =~= ev.take(i as int));
                    if key_is(&d[i].0, &key) {
                        result = d[i].1.deep_copy();
                    }
                    i = i + 1;
                }
                assert(ev.take(i as int) =~= ev);
                result
            },
            _ => {
                proof {
                    assert(false);
                }
                JsonElem::Ignore
            },
        }
    }

    /// Whether this is a dictionary with an entry whose key is the string
    /// `key`.
    pub fn has(&self, key: &str) -> (r: bool)
        ensures
            r == (self@ is Dict && dict_has(self@->Dict_0, key@)),
    {
        let key_s = key.to_string();
        match self {
            JsonElem::Dict(d) => {
                proof {
                    lemma_dict_view(*d);
                }
                let ghost ev = entries_view(d@);
                let mut i: usize = 0;
                while i < d.len()
                    invariant
                        ev == entries_view(d@),
                        i <= d.len(),
                        key_s@ == key@,
                        self@ == JsonVal::Dict(ev),
                        forall|k: int| 0 <= k < i ==> (#[trigger] ev[k]).0 != JsonVal::Str(key@),
                    decreases d.len() - i,
                {
                    if key_is(&d[i].0, &key_s) {
                        assert(ev[i as int].0 == JsonVal::Str(key@));
                        assert(dict_has(ev, key@));
                        return true;
                    }
                    i = i + 1;
                }
                false
            },
            _ => false,
        }
    }

    /// The items of this list.
    pub fn get_list(&self) -> (r: Vec<JsonElem>)
        requires
            self@ is List,
        ensures
            items_view(r@) == self@->List_0,
    {
        match self {
            JsonElem::List(l) => {
                let r = copy_list(l);
                proof {
                    lemma_list_view(*l);
                    assert(items_view(r@) =~= items_view(l@));
                }
                r
            },
            _ => {
                proof {
                    assert(false);
                }
                Vec::new()
            },
        }
    }

    /// The text of this value: a string's characters, a number's decimal
    /// digits, `null`, nothing for `Ignore`, and `lazy` for the rest.
    pub fn display(&self) -> (r: String)
        ensures
            r@ == display_text(self@),
    {
        match self {
            JsonElem::String(s) => s.clone(),
            JsonElem::Number(i) => i64_to_string(*i),
            JsonElem::Ignore => String::new(),
            JsonElem::Null => {
                let r = "null".to_string();
                proof {
                    reveal_strlit("null");
                }
                r
            },
            _ => {
                let r = "lazy".to_string();
                proof {
                    reveal_strlit("lazy");
                }
                r
            },
        }
    }

    /// The number this value holds.
    pub fn get_i64(&self) -> (r: i64)
        requires
            self@ is Number,
        ensures
            self@ == JsonVal::Number(r),
    {
        match self {
            JsonElem::Number(i) => *i,
            _ => {
                proof {
                    assert(false);
                }
                0
            },
        }
    }

    /// The characters of the string this value holds.
    pub fn get_str(&self) -> (r: String)
        requires
            self@ is Str,
        ensures
            self@ == JsonVal::Str(r@),
    {
        match self {
            JsonElem::String(s) => s.clone(),
            _ => {
                proof {
                    assert(false);
                }
                String::new()
            },
        }
    }
}


/// The entries of a dictionary whose keys and values are all strings, as
/// pairs of texts; nothing for any other value.
pub open spec fn text_pairs(v: JsonVal) -> Option<Seq<(Seq<char>, Seq<char>)>> {
    match v {
        JsonVal::Dict(d) => if forall|i: int| 0 <= i < d.len() ==> (#[trigger] d[i]).0 is Str && d[i].1 is Str {
            Some(Seq::new(d.len(), |i: int| (d[i].0->Str_0, d[i].1->Str_0)))
        } else {
            None
        },
        _ => None,
    }
}

/// The entries of a dictionary of strings (such as a table of
/// translations) as pairs of strings; nothing when the value is not a
/// dictionary or holds something other than a string.
pub fn string_pairs(j: &JsonElem) -> (r: Option<Vec<(String, String)>>)
    ensures
        r matches Some(v) ==> text_pairs(j@) == Some(v@.map_values(|p: (String, String)| (p.0@, p.1@))),
        r is None ==> text_pairs(j@) is None,
{
    match j {
        JsonElem::Dict(d) => {
            proof {
                lemma_dict_view(*d);
            }
            let ghost ev = entries_view(d@);
            let mut out: Vec<(String, String)> = Vec::new();
            let mut i: usize = 0;
            while i < d.len()
                invariant
                    ev == entries_view(d@),
                    j@ == JsonVal::Dict(ev),
                    i <= d.len(),
                    out.len() == i,
                    forall|k: int| 0 <= k < i ==> (#[trigger] ev[k]).0 is Str && ev[k].1 is Str,
                    forall|k: int|
                        0 <= k < i ==> (#[trigger] out@[k]).0@ == ev[k].0->Str_0 && out@[k].1@
                            == ev[k].1->Str_0,
                decreases d.len() - i,
            {
                match (&d[i].0, &d[i].1) {
                    (JsonElem::String(a), JsonElem::String(b)) => {
                        out.push((a.clone(), b.clone()));
                    },
                    _ => {
                        assert(!(ev[i as int].0 is Str && ev[i as int].1 is Str));
                        return None;
                    },
                }
                i = i + 1;
            }
            assert(out@.map_values(|p: (String, String)| (p.0@, p.1@)) =~= Seq::new(
                ev.len(),
                |k: int| (ev[k].0->Str_0, ev[k].1->Str_0),
            ));
            Some(out)
        },
        _ => None,
    }
}

// ---------------------------------------------------------------------------
// Laws
// ---------------------------------------------------------------------------

/// A value with no `Ignore` anywhere in it.
pub open spec fn ignore_free(v: JsonVal) -> bool
    decreases v,
{
    match v {
        JsonVal::List(l) => forall|i: int| 0 <= i < l.len() ==> ignore_free(#[trigger] l[i]),
        JsonVal::Dict(d) => forall|i: int|
            0 <= i < d.len() ==> ignore_free((#[trigger] d[i]).0) && ignore_free(d[i].1),
        JsonVal::Ignore => false,
        _ => true,
    }
}

proof fn lemma_parse_value_ok(t: Seq<JsonTok>, i: int)
    ensures
        parse_value(t, i) matches Some((v, j)) ==> ignore_free(v) && i < j <= t.len(),
    decreases t.len() - i, 0int,
{
    if 0 <= i < t.len() {
        match t[i] {
            JsonTok::OpenCursive => {
                lemma_parse_entries_ok(t, i + 1, Seq::empty());
            },
            JsonTok::OpenList => {
                lemma_parse_items_ok(t, i + 1, Seq::empty());
            },
            _ => {},
        }
    }
}

proof fn lemma_parse_entries_ok(t: Seq<JsonTok>, k: int, acc: Seq<(JsonVal, JsonVal)>)
    requires
        forall|m: int| 0 <= m < acc.len() ==> ignore_free((#[trigger] acc[m]).0) && ignore_free(acc[m].1),
    ensures
        parse_entries(t, k, acc) matches Some((d, j)) ==> k < j <= t.len() && ignore_free(
            JsonVal::Dict(d),
        ),
    decreases t.len() - k, 1int,
{
    if 0 <= k < t.len() && !(t[k] is CloseCursive) {
        lemma_parse_value_ok(t, k);
        if let Some((key, k1)) = parse_value(t, k) {
            if k < k1 < t.len() {
                lemma_parse_value_ok(t, k1 + 1);
                if let Some((val, k2)) = parse_value(t, k1 + 1) {
                    if k1 < k2 < t.len() {
                        let k3 = if t[k2] is Separator { k2 + 1 } else { k2 };
                        let acc2 = acc.push((key, val));
                        assert forall|m: int| 0 <= m < acc2.len() implies ignore_free((#[trigger] acc2[m]).0)
                            && ignore_free(acc2[m].1) by {
                            if m < acc.len() {
                                assert(acc2[m] == acc[m]);
                            }
                        }
                        lemma_parse_entries_ok(t, k3, acc2);
                    }
                }
            }
        }
    }
}

proof fn lemma_parse_items_ok(t: Seq<JsonTok>, k: int, acc: Seq<JsonVal>)
    requires
        forall|m: int| 0 <= m < acc.len() ==> ignore_free(#[trigger] acc[m]),
    ensures
        parse_items(t, k, acc) matches Some((l, j)) ==> k < j <= t.len() && ignore_free(
            JsonVal::List(l),
        ),
    decreases t.len() - k, 1int,
{
    if 0 <= k < t.len() && !(t[k] is CloseList) {
        lemma_parse_value_ok(t, k);
        if let Some((v, k1)) = parse_value(t, k) {
            if k < k1 < t.len() {
                let k2 = if t[k1] is Separator { k1 + 1 } else { k1 };
                let acc2 = acc.push(v);
                assert forall|m: int| 0 <= m < acc2.len() implies ignore_free(#[trigger] acc2[m]) by {
                    if m < acc.len() {
                        assert(acc2[m] == acc[m]);
                    }
                }
                lemma_parse_items_ok(t, k2, acc2);
            }
        }
    }
}

proof fn lemma_parse_all_ok(t: Seq<JsonTok>, i: int, cur: JsonVal)
    requires
        ignore_free(cur),
    ensures
        parse_all(t, i, cur) matches Some(v) ==> ignore_free(v),
    decreases t.len() - i,
{
    if 0 <= i < t.len() && !(t[i] is Eof) {
        lemma_parse_value_ok(t, i);
        if let Some((v, j)) = parse_value(t, i) {
            if i < j <= t.len() {
                lemma_parse_all_ok(t, j, v);
            }
        }
    }
}

/// A value that starts at a token ends after it, and no further than the
/// last token: reading always makes progress.
pub proof fn law_value_makes_progress(t: Seq<JsonTok>, i: int)
    ensures
        parse_value(t, i) matches Some((v, j)) ==> i < j <= t.len(),
{
    lemma_parse_value_ok(t, i);
}

/// Reading never yields `Ignore`, at any depth: that value only stands for
/// a key that `get` did not find.
pub proof fn law_parsed_values_hold_no_ignore(s: Seq<char>)
    ensures
        spec_parse_json(s) matches Some(v) ==> ignore_free(v),
{
    if let Some(t) = lex(s, 0) {
        lemma_parse_all_ok(t.push(JsonTok::Eof), 0, no_value());
    }
}

/// In a dictionary whose values hold no `Ignore` (as every dictionary that
/// was read), `has` finds a key exactly when `get` gives something other
/// than `Ignore`.
pub proof fn law_has_iff_get_finds(d: Seq<(JsonVal, JsonVal)>, key: Seq<char>)
    requires
        ignore_free(JsonVal::Dict(d)),
    ensures
        dict_has(d, key) <==> dict_get(d, key) != JsonVal::Ignore,
    decreases d.len(),
{
    let v = JsonVal::Dict(d);
    assert(v->Dict_0 == d);
    assert(ignore_free(v));
    assert(forall|i: int| 0 <= i < d.len() ==> ignore_free((#[trigger] d[i]).0) && ignore_free(d[i].1));
    if d.len() > 0 {
        let e = d.drop_last();
        assert(ignore_free(d[d.len() - 1].1));
        assert forall|i: int| 0 <= i < e.len() implies ignore_free((#[trigger] e[i]).0) && ignore_free(e[i].1) by {
            assert(e[i] == d[i]);
            assert(ignore_free(d[i].0));
        }
        law_has_iff_get_finds(e, key);
        if dict_has(d, key) && d.last().0 != JsonVal::Str(key) {
            let k = choose|k: int| 0 <= k < d.len() && (#[trigger] d[k]).0 == JsonVal::Str(key);
            assert(e[k] == d[k]);
        }
        if dict_has(e, key) {
            let k = choose|k: int| 0 <= k < e.len() && (#[trigger] e[k]).0 == JsonVal::Str(key);
            assert(d[k] == e[k]);
        }
    }
}


proof fn lemma_quote_end_plain(x: Seq<char>, k: int, e: int)
    requires
        1 <= k <= e < x.len(),
        forall|m: int| 1 <= m < e ==> x[m] != '"',
        x[e] == '"',
        x[e - 1] != '\\',
    ensures
        quote_end(x, k) == e,
    decreases e - k,
{
    if k < e {
        lemma_quote_end_plain(x, k + 1, e);
    }
}

/// A string literal reads back as its text, when the text holds no double
/// quote and does not end with a backslash (which would escape the closing
/// quote).
pub proof fn law_string_reads_back(s: Seq<char>)
    requires
        forall|k: int| 0 <= k < s.len() ==> s[k] != '"',
        s.len() == 0 || s.last() != '\\',
    ensures
        spec_parse_json(seq!['"'] + s + seq!['"']) == Some(JsonVal::Str(s)),
{
    let x = seq!['"'] + s + seq!['"'];
    let n = s.len() as int;
    assert(x.len() == n + 2);
    assert forall|m: int| 1 <= m < n + 1 implies x[m] != '"' by {
        assert(x[m] == s[m - 1]);
    }
    if n > 0 {
        assert(x[n] == s[n - 1]);
    }
    lemma_quote_end_plain(x, 1, n + 1);
    assert(x.subrange(1, n + 1) =~= s);
    assert(lex(x, n + 2) == Some(Seq::<JsonTok>::empty()));
    assert(lex(x, 0) == prepend_all(seq![JsonTok::Str(s)], lex(x, n + 2)));
    let t = seq![JsonTok::Str(s)] + Seq::<JsonTok>::empty();
    assert(lex(x, 0) == Some(t));
    let tt = t.push(JsonTok::Eof);
    assert(tt[0] == JsonTok::Str(s));
    assert(tt[1] == JsonTok::Eof);
    assert(parse_value(tt, 0) == Some((JsonVal::Str(s), 1int)));
    assert(parse_all(tt, 1, JsonVal::Str(s)) == Some(JsonVal::Str(s)));
}

// ---------------------------------------------------------------------------
// Spaces between tokens
// ---------------------------------------------------------------------------

/// Whether every string literal that starts in `a`, reading it from index
/// `i` on as the lexer does, is closed inside `a`: `a` does not end inside
/// a string.
pub open spec fn strings_closed(a: Seq<char>, i: int) -> bool
    decreases a.len() - i,
{
    if i < 0 || i >= a.len() {
        true
    } else {
        let c = a[i];
        if structural_token(c) is Some {
            strings_closed(a, i + 1)
        } else if c == '"' {
            let e = quote_end(a, i + 1);
            proof {
                lemma_quote_end_bounds(a, i + 1);
            }
            if e < a.len() {
                strings_closed(a, e + 1)
            } else {
                false
            }
        } else if numeric_char(c) {
            proof {
                lemma_num_end_bounds(a, i + 1);
            }
            strings_closed(a, num_end(a, i + 1))
        } else {
            proof {
                lemma_word_end_bounds(a, i + 1);
            }
            strings_closed(a, word_end(a, i + 1))
        }
    }
}

proof fn lemma_quote_end_skip(x: Seq<char>, d: int, k: int)
    requires
        0 <= d <= x.len(),
        1 <= k,
    ensures
        quote_end(x, d + k) == quote_end(x.skip(d), k) + d,
    decreases x.len() - (d + k),
{
    let u = x.skip(d);
    if d + k < x.len() {
        assert(u[k] == x[d + k]);
        assert(u[k - 1] == x[d + k - 1]);
        lemma_quote_end_skip(x, d, k + 1);
    }
}

proof fn lemma_num_end_skip(x: Seq<char>, d: int, k: int)
    requires
        0 <= d <= x.len(),
        0 <= k,
    ensures
        num_end(x, d + k) == num_end(x.skip(d), k) + d,
    decreases x.len() - (d + k),
{
    let u = x.skip(d);
    if d + k < x.len() {
        assert(u[k] == x[d + k]);
        lemma_num_end_skip(x, d, k + 1);
    }
}

proof fn lemma_word_end_skip(x: Seq<char>, d: int, k: int)
    requires
        0 <= d <= x.len(),
        0 <= k,
    ensures
        word_end(x, d + k) == word_end(x.skip(d), k) + d,
    decreases x.len() - (d + k),
{
    let u = x.skip(d);
    if d + k < x.len() {
        assert(u[k] == x[d + k]);
        lemma_word_end_skip(x, d, k + 1);
    }
}

/// What the lexer reads from index `d + i` on depends only on the text from
/// `d` on.
#[verifier::spinoff_prover]
proof fn lemma_lex_skip(x: Seq<char>, d: int, i: int)
    requires
        0 <= d <= x.len(),
        0 <= i,
    ensures
        lex(x, d + i) == lex(x.skip(d), i),
    decreases x.len() - (d + i),
{
    let u = x.skip(d);
    if d + i < x.len() {
        let c = x[d + i];
        assert(u[i] == c);
        if structural_token(c) is Some {
            lemma_lex_skip(x, d, i + 1);
        } else if c == '"' {
            lemma_quote_end_skip(x, d, i + 1);
            lemma_quote_end_bounds(u, i + 1);
            let e = quote_end(u, i + 1);
            assert(x.subrange(d + i + 1, e + d) =~= u.subrange(i + 1, e));
            if e < u.len() {
                lemma_lex_skip(x, d, e + 1);
            } else {
                assert(lex(x, x.len() as int) == Some(Seq::<JsonTok>::empty()));
                assert(lex(u, u.len() as int) == Some(Seq::<JsonTok>::empty()));
            }
            assert(lex(x, d + i) == lex(u, i));
        } else if numeric_char(c) {
            lemma_num_end_skip(x, d, i + 1);
            lemma_num_end_bounds(u, i + 1);
            let e = num_end(u, i + 1);
            assert(x.subrange(d + i, e + d) =~= u.subrange(i, e));
            lemma_lex_skip(x, d, e);
            assert(lex(x, d + i) == lex(u, i));
        } else {
            lemma_word_end_skip(x, d, i + 1);
            lemma_word_end_bounds(u, i + 1);
            let e = word_end(u, i + 1);
            assert(x.subrange(d + i, e + d) =~= u.subrange(i, e));
            lemma_lex_skip(x, d, e);
            assert(lex(x, d + i) == lex(u, i));
        }
    }
}

proof fn lemma_quote_end_prefix(a: Seq<char>, x: Seq<char>, k: int)
    requires
        a.len() <= x.len(),
        forall|m: int| 0 <= m < a.len() ==> x[m] == a[m],
        1 <= k,
        quote_end(a, k) < a.len(),
    ensures
        quote_end(x, k) == quote_end(a, k),
    decreases a.len() - k,
{
    if k < a.len() {
        assert(x[k] == a[k]);
        assert(x[k - 1] == a[k - 1]);
        if !(a[k] == '"' && a[k - 1] != '\\') {
            lemma_quote_end_prefix(a, x, k + 1);
        }
    }
}

proof fn lemma_num_end_prefix(a: Seq<char>, x: Seq<char>, k: int)
    requires
        a.len() <= x.len(),
        forall|m: int| 0 <= m < a.len() ==> x[m] == a[m],
        0 <= k <= a.len(),
    ensures
        num_end(a, k) < a.len() ==> num_end(x, k) == num_end(a, k),
        num_end(a, k) == a.len() ==> num_end(x, k) == num_end(x, a.len() as int),
    decreases a.len() - k,
{
    if k < a.len() {
        assert(x[k] == a[k]);
        if numeric_char(a[k]) {
            lemma_num_end_prefix(a, x, k + 1);
        }
    }
}

proof fn lemma_word_end_prefix(a: Seq<char>, x: Seq<char>, k: int)
    requires
        a.len() <= x.len(),
        forall|m: int| 0 <= m < a.len() ==> x[m] == a[m],
        0 <= k <= a.len(),
    ensures
        word_end(a, k) < a.len() ==> word_end(x, k) == word_end(a, k),
        word_end(a, k) == a.len() ==> word_end(x, k) == word_end(x, a.len() as int),
    decreases a.len() - k,
{
    if k < a.len() {
        assert(x[k] == a[k]);
        if !ends_word(a[k]) {
            lemma_word_end_prefix(a, x, k + 1);
        }
    }
}

proof fn lemma_drop_spaces_concat(x: Seq<char>, y: Seq<char>)
    ensures
        drop_spaces(x + y) == drop_spaces(x) + drop_spaces(y),
    decreases y.len(),
{
    if y.len() == 0 {
        assert(x + y =~= x);
        assert(drop_spaces(x) + drop_spaces(y) =~= drop_spaces(x));
    } else {
        assert((x + y).drop_last() =~= x + y.drop_last());
        assert((x + y).last() == y.last());
        lemma_drop_spaces_concat(x, y.drop_last());
        if y.last() != ' ' {
            assert(drop_spaces(x) + drop_spaces(y.drop_last()).push(y.last()) =~= (drop_spaces(x)
                + drop_spaces(y.drop_last())).push(y.last()));
        }
    }
}

/// The lexer reads the same from the join of `a` and `b` on, whether or
/// not a space is put there.
#[verifier::spinoff_prover]
proof fn lemma_space_at_join(a: Seq<char>, b: Seq<char>)
    requires
        lex(a + b, a.len() as int) is Some,
    ensures
        lex(a + seq![' '] + b, a.len() as int) == lex(a + b, a.len() as int),
{
    let s = a + b;
    let t = a + seq![' '] + b;
    let n = a.len() as int;
    assert(s.skip(n) =~= b);
    assert(t.skip(n + 1) =~= b);
    assert(t[n] == ' ');
    let sp = seq![' '];
    assert(drop_spaces(sp.drop_last()) == Seq::<char>::empty());
    assert(drop_spaces(sp) =~= Seq::<char>::empty());
    lemma_word_end_skip(s, n, 0);
    lemma_word_end_skip(t, n + 1, 0);
    lemma_word_end_bounds(s, n);
    if b.len() == 0 {
        assert(t.subrange(n, n + 1) =~= sp);
        assert(lex(t, n + 1) == Some(Seq::<JsonTok>::empty()));
    } else if ends_word(b[0]) {
        assert(s[n] == b[0]);
        assert(word_end(t, n + 1) == n + 1);
        assert(t.subrange(n, n + 1) =~= sp);
        lemma_lex_skip(s, n, 0);
        lemma_lex_skip(t, n + 1, 0);
    } else {
        assert(s[n] == b[0]);
        if numeric_char(b[0]) {
            let e = num_end(s, n + 1);
            lemma_num_end_bounds(s, n + 1);
            if e < s.len() {
                assert(s.subrange(n, e)[0] == b[0]);
                assert(!all_digits(s.subrange(n, e)));
            }
            assert(false);
        }
        let e = word_end(s, n);
        assert(word_end(s, n + 1) == e);
        assert(word_end(t, n + 1) == e + 1);
        assert(t.subrange(n, e + 1) =~= sp + s.subrange(n, e));
        lemma_drop_spaces_concat(sp, s.subrange(n, e));
        assert(drop_spaces(t.subrange(n, e + 1)) =~= drop_spaces(s.subrange(n, e)));
        lemma_lex_skip(s, n, e - n);
        lemma_lex_skip(t, n + 1, e - n);
    }
}

/// A number that starts at `i` in `a` and runs to the end of `a` ends there
/// in both texts, and the lexer reads the same from `i` on.
#[verifier::spinoff_prover]
proof fn lemma_space_number_at_end(a: Seq<char>, b: Seq<char>, i: int)
    requires
        0 <= i < a.len(),
        numeric_char(a[i]),
        num_end(a, i + 1) == a.len(),
        !(b.len() > 0 && is_digit(a.last()) && is_digit(b[0])),
        lex(a + b, i) is Some,
    ensures
        lex(a + seq![' '] + b, i) == lex(a + b, i),
{
    let s = a + b;
    let t = a + seq![' '] + b;
    let n = a.len() as int;
    assert(s[i] == a[i] && t[i] == a[i]);
    assert forall|m: int| 0 <= m < n implies s[m] == a[m] && t[m] == a[m] by {}
    lemma_num_end_prefix(a, s, i + 1);
    lemma_num_end_prefix(a, t, i + 1);
    assert(t[n] == ' ');
    assert(num_end(t, n) == n);
    lemma_num_end_bounds(s, n);
    let e = num_end(s, n);
    if e > n && e < s.len() {
        if all_digits(s.subrange(i, e)) {
            assert(s.subrange(i, e)[n - 1 - i] == a[n - 1]);
            assert(s.subrange(i, e)[n - i] == b[0]);
        }
    }
    assert(e == n);
    assert(s.subrange(i, n) =~= t.subrange(i, n));
    lemma_space_at_join(a, b);
}

/// A word that starts at `i` in `a` and runs to the end of `a` goes on
/// over the space into `b`; without its spaces it is the same word, and
/// the lexer reads the same from `i` on.
#[verifier::spinoff_prover]
proof fn lemma_space_word_across(a: Seq<char>, b: Seq<char>, i: int)
    requires
        0 <= i < a.len(),
        structural_token(a[i]) is None,
        a[i] != '"',
        !numeric_char(a[i]),
        word_end(a, i + 1) == a.len(),
    ensures
        lex(a + seq![' '] + b, i) == lex(a + b, i),
{
    let s = a + b;
    let t = a + seq![' '] + b;
    let n = a.len() as int;
    assert(s[i] == a[i] && t[i] == a[i]);
    assert forall|m: int| 0 <= m < n implies s[m] == a[m] && t[m] == a[m] by {}
    lemma_word_end_prefix(a, s, i + 1);
    lemma_word_end_prefix(a, t, i + 1);
    assert(s.skip(n) =~= b);
    assert(t.skip(n + 1) =~= b);
    lemma_word_end_skip(s, n, 0);
    lemma_word_end_skip(t, n + 1, 0);
    lemma_word_end_bounds(s, n);
    let e = word_end(s, n);
    assert(t[n] == ' ');
    assert(word_end(t, n) == word_end(t, n + 1));
    assert(word_end(t, n) == e + 1);
    let p = s.subrange(i, n);
    let q = s.subrange(n, e);
    let sp = seq![' '];
    assert(t.subrange(i, e + 1) =~= (p + sp) + q);
    assert(s.subrange(i, e) =~= p + q);
    lemma_drop_spaces_concat(p + sp, q);
    lemma_drop_spaces_concat(p, sp);
    lemma_drop_spaces_concat(p, q);
    assert(drop_spaces(sp.drop_last()) == Seq::<char>::empty());
    assert(drop_spaces(sp) =~= Seq::<char>::empty());
    assert(drop_spaces(p) + Seq::<char>::empty() =~= drop_spaces(p));
    lemma_lex_skip(s, n, e - n);
    lemma_lex_skip(t, n + 1, e - n);
}

/// The lexer reads the same from index `i` of `a` on, whether or not a
/// space is put between `a` and `b`.
#[verifier::spinoff_prover]
proof fn lemma_space_from(a: Seq<char>, b: Seq<char>, i: int)
    requires
        0 <= i <= a.len(),
        strings_closed(a, i),
        !(a.len() > 0 && b.len() > 0 && is_digit(a.last()) && is_digit(b[0])),
        lex(a + b, i) is Some,
    ensures
        lex(a + seq![' '] + b, i) == lex(a + b, i),
    decreases a.len() - i,
{
    let s = a + b;
    let t = a + seq![' '] + b;
    let n = a.len() as int;
    if i == n {
        lemma_space_at_join(a, b);
    } else {
        let c = a[i];
        assert(s[i] == c && t[i] == c);
        assert forall|m: int| 0 <= m < n implies s[m] == a[m] && t[m] == a[m] by {}
        if structural_token(c) is Some {
            lemma_space_from(a, b, i + 1);
        } else if c == '"' {
            lemma_quote_end_bounds(a, i + 1);
            let e = quote_end(a, i + 1);
            lemma_quote_end_prefix(a, s, i + 1);
            lemma_quote_end_prefix(a, t, i + 1);
            assert(s.subrange(i + 1, e) =~= t.subrange(i + 1, e));
            lemma_space_from(a, b, e + 1);
        } else if numeric_char(c) {
            lemma_num_end_bounds(a, i + 1);
            let ea = num_end(a, i + 1);
            if ea < n {
                lemma_num_end_prefix(a, s, i + 1);
                lemma_num_end_prefix(a, t, i + 1);
                assert(s.subrange(i, ea) =~= t.subrange(i, ea));
                lemma_space_from(a, b, ea);
            } else {
                lemma_space_number_at_end(a, b, i);
            }
        } else {
            lemma_word_end_bounds(a, i + 1);
            let ea = word_end(a, i + 1);
            if ea < n {
                lemma_word_end_prefix(a, s, i + 1);
                lemma_word_end_prefix(a, t, i + 1);
                assert(s.subrange(i, ea) =~= t.subrange(i, ea));
                lemma_space_from(a, b, ea);
            } else {
                lemma_space_word_across(a, b, i);
            }
        }
    }
}

/// A space put between two pieces of a JSON text does not change what the
/// text reads as, when the first piece does not end inside a string and
/// the two do not meet between two digits (which would split a number).
/// Only the space character is skipped inside words: a tab or a line break
/// next to `true`, `false` or `null` joins their word and makes it unread.
pub proof fn law_space_between_tokens_is_ignored(a: Seq<char>, b: Seq<char>)
    requires
        strings_closed(a, 0),
        !(a.len() > 0 && b.len() > 0 && is_digit(a.last()) && is_digit(b[0])),
        spec_parse_json(a + b) is Some,
    ensures
        spec_parse_json(a + seq![' '] + b) == spec_parse_json(a + b),
{
    lemma_space_from(a, b, 0);
}

// ---------------------------------------------------------------------------
// What values read as
// ---------------------------------------------------------------------------

/// The value a string, number, `true`, `false` or `null` token stands for.
pub open spec fn scalar_value(x: JsonTok) -> Option<JsonVal> {
    match x {
        JsonTok::Str(s) => Some(JsonVal::Str(s)),
        JsonTok::Number(n) => Some(JsonVal::Number(n)),
        JsonTok::Bool(b) => Some(JsonVal::Bool(b)),
        JsonTok::Null => Some(JsonVal::Null),
        _ => None,
    }
}

/// What a value reads as takes its kind from its first token: a `[` always
/// gives a list and a `{` a dictionary, empty or not, and a string, number,
/// `true`, `false` or `null` token gives that value, one token long.
pub proof fn law_values_take_the_kind_of_their_first_token(t: Seq<JsonTok>, i: int)
    ensures
        0 <= i < t.len() && t[i] is OpenList ==> (parse_value(t, i) matches Some((v, j)) ==> v is List),
        0 <= i < t.len() && t[i] is OpenCursive ==> (parse_value(t, i) matches Some((v, j)) ==> v is Dict),
        0 <= i < t.len() && scalar_value(t[i]) is Some ==> parse_value(t, i) == Some(
            (scalar_value(t[i])->0, i + 1),
        ),
{
}

proof fn lemma_items_of_scalars(ts: Seq<JsonTok>, m: int)
    requires
        0 <= m <= ts.len(),
        forall|k: int| 0 <= k < ts.len() ==> scalar_value(#[trigger] ts[k]) is Some,
    ensures
        parse_items(
            seq![JsonTok::OpenList] + ts + seq![JsonTok::CloseList],
            1 + m,
            ts.map_values(|x: JsonTok| scalar_value(x)->0).take(m),
        ) == Some((ts.map_values(|x: JsonTok| scalar_value(x)->0), ts.len() + 2int)),
    decreases ts.len() - m,
{
    let t = seq![JsonTok::OpenList] + ts + seq![JsonTok::CloseList];
    let vals = ts.map_values(|x: JsonTok| scalar_value(x)->0);
    let n = ts.len() as int;
    assert(t.len() == n + 2);
    if m == n {
        assert(t[1 + n] == JsonTok::CloseList);
        assert(vals.take(m) =~= vals);
    } else {
        assert(t[1 + m] == ts[m]);
        assert(scalar_value(ts[m]) is Some);
        assert(parse_value(t, 1 + m) == Some((vals[m], m + 2)));
        if m + 1 < n {
            assert(t[m + 2] == ts[m + 1]);
            assert(scalar_value(ts[m + 1]) is Some);
        } else {
            assert(t[m + 2] == JsonTok::CloseList);
        }
        assert(!(t[m + 2] is Separator));
        assert(vals.take(m).push(vals[m]) =~= vals.take(m + 1));
        lemma_items_of_scalars(ts, m + 1);
    }
}

/// A list of string, number, `true`, `false` and `null` tokens reads as
/// the list of their values, in order and none left out; so `[]` reads as
/// the empty list.
pub proof fn law_list_of_scalars(ts: Seq<JsonTok>)
    requires
        forall|k: int| 0 <= k < ts.len() ==> scalar_value(#[trigger] ts[k]) is Some,
    ensures
        parse_value(seq![JsonTok::OpenList] + ts + seq![JsonTok::CloseList], 0) == Some(
            (JsonVal::List(ts.map_values(|x: JsonTok| scalar_value(x)->0)), ts.len() + 2int),
        ),
        spec_parse_json(seq!['[', ']']) == Some(JsonVal::List(Seq::empty())),
{
    let t = seq![JsonTok::OpenList] + ts + seq![JsonTok::CloseList];
    lemma_items_of_scalars(ts, 0);
    assert(t[0] == JsonTok::OpenList);
    assert(ts.map_values(|x: JsonTok| scalar_value(x)->0).take(0) =~= Seq::<JsonVal>::empty());
    let s = seq!['[', ']'];
    assert(lex(s, 2) == Some(Seq::<JsonTok>::empty()));
    assert(lex(s, 1) == Some(seq![JsonTok::CloseList] + Seq::<JsonTok>::empty()));
    assert(lex(s, 0) == Some(seq![JsonTok::OpenList] + (seq![JsonTok::CloseList] + Seq::<JsonTok>::empty())));
    let u = seq![JsonTok::OpenList, JsonTok::CloseList, JsonTok::Eof];
    assert(lex(s, 0)->0.push(JsonTok::Eof) =~= u);
    assert(parse_items(u, 1, Seq::empty()) == Some((Seq::<JsonVal>::empty(), 2int)));
    assert(parse_value(u, 0) == Some((JsonVal::List(Seq::empty()), 2int)));
    assert(parse_all(u, 2, JsonVal::List(Seq::empty())) == Some(JsonVal::List(Seq::empty())));
}

} // verus!
