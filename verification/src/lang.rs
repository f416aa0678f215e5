//! The tokens and syntax trees of the template expression language, and its
//! tokenizer.
//!
//! The language has integers and decimal fractions, strings in double
//! quotes (`\"` stands for a quote), identifiers, the keywords `if`, `else`,
//! `for`, `in`, `true`, `false` and `null`, brackets, the operators
//! `+ - * / . ==`, and nothing else: any other character is skipped. A
//! fraction is kept as its decimal text; what it is worth as a floating
//! point number is for the evaluator to say.
use vstd::prelude::*;
use vstd::string::*;
use crate::text::{
    all_digits, alphabetic_char, numeric_char, chars_of, is_alphabetic, is_numeric,
    lemma_num_end_bounds, num_end, parse_decimal, parse_unsigned, push_char, string_of, digits_only,
};

verus! {

/// A binary operator.
#[derive(Debug, PartialEq, Eq, Structural, Clone, Copy)]
pub enum Operator {
    Addition,
    Substraction,
    Multiplication,
    Division,
    Exponentiation,
    Indexation,
    Nullus,
    Range,
    Equals,
}

/// A token of the expression language. A fraction holds its decimal text:
/// digits, a point, and digits.
#[derive(Debug, PartialEq, Clone)]
pub enum Token {
    Int(i32),
    Float(String),
    Str(String),
    Identifier(String),
    Oparen,
    Cparen,
    OCparen,
    CCparen,
    OSparen,
    CSparen,
    Operator(Operator),
    If,
    Else,
    For,
    In,
    Null,
    Bool(bool),
}

/// The mathematical value of a token.
pub enum LangTok {
    Int(i32),
    Float(Seq<char>),
    Str(Seq<char>),
    Identifier(Seq<char>),
    Oparen,
    Cparen,
    OCparen,
    CCparen,
    OSparen,
    CSparen,
    Op(Operator),
    If,
    Else,
    For,
    In,
    Null,
    Bool(bool),
}

impl View for Token {
    type V = LangTok;

    open spec fn view(&self) -> LangTok {
        match self {
            Token::Int(n) => LangTok::Int(*n),
            Token::Float(s) => LangTok::Float(s@),
            Token::Str(s) => LangTok::Str(s@),
            Token::Identifier(s) => LangTok::Identifier(s@),
            Token::Oparen => LangTok::Oparen,
            Token::Cparen => LangTok::Cparen,
            Token::OCparen => LangTok::OCparen,
            Token::CCparen => LangTok::CCparen,
            Token::OSparen => LangTok::OSparen,
            Token::CSparen => LangTok::CSparen,
            Token::Operator(o) => LangTok::Op(*o),
            Token::If => LangTok::If,
            Token::Else => LangTok::Else,
            Token::For => LangTok::For,
            Token::In => LangTok::In,
            Token::Null => LangTok::Null,
            Token::Bool(b) => LangTok::Bool(*b),
        }
    }
}

/// The values of a sequence of tokens.
pub open spec fn ltoks_view(t: Seq<Token>) -> Seq<LangTok> {
    t.map_values(|x: Token| x@)
}

// ---------------------------------------------------------------------------
// Tokenizing
// ---------------------------------------------------------------------------

/// The token of a character that is a token by itself.
pub open spec fn single_token(c: char) -> Option<LangTok> {
    if c == '(' {
        Some(LangTok::Oparen)
    } else if c == ')' {
        Some(LangTok::Cparen)
    } else if c == '{' {
        Some(LangTok::OCparen)
    } else if c == '}' {
        Some(LangTok::CCparen)
    } else if c == '[' {
        Some(LangTok::OSparen)
    } else if c == ']' {
        Some(LangTok::CSparen)
    } else if c == '+' {
        Some(LangTok::Op(Operator::Addition))
    } else if c == '-' {
        Some(LangTok::Op(Operator::Substraction))
    } else if c == '*' {
        Some(LangTok::Op(Operator::Multiplication))
    } else if c == '/' {
        Some(LangTok::Op(Operator::Division))
    } else if c == '.' {
        Some(LangTok::Op(Operator::Indexation))
    } else {
        None
    }
}

/// `Some((p + b, e))` when `o` is `Some((b, e))`.
pub open spec fn prefix_body(p: Seq<char>, o: Option<(Seq<char>, int)>) -> Option<(Seq<char>, int)> {
    match o {
        Some((b, e)) => Some((p + b, e)),
        None => None,
    }
}

/// The text of a string literal from index `k` on, with the index of the
/// closing quote (or the length of `s` when there is none); `\"` stands
/// for a quote, and a backslash at the very end fails.
pub open spec fn string_body(s: Seq<char>, k: int) -> Option<(Seq<char>, int)>
    decreases s.len() - k,
{
    if k < 0 || k >= s.len() {
        Some((Seq::empty(), s.len() as int))
    } else if s[k] == '"' {
        Some((Seq::empty(), k))
    } else if s[k] == '\\' {
        if k + 1 >= s.len() {
            None
        } else if s[k + 1] == '"' {
            prefix_body(seq!['"'], string_body(s, k + 2))
        } else {
            prefix_body(seq!['\\'], string_body(s, k + 1))
        }
    } else {
        prefix_body(seq![s[k]], string_body(s, k + 1))
    }
}

pub proof fn lemma_string_body_bounds(s: Seq<char>, k: int)
    requires
        0 <= k <= s.len(),
    ensures
        string_body(s, k) matches Some((b, e)) ==> k <= e <= s.len(),
    decreases s.len() - k,
{
    if k < s.len() && s[k] != '"' {
        if s[k] == '\\' {
            if k + 1 < s.len() {
                if s[k + 1] == '"' {
                    lemma_string_body_bounds(s, k + 2);
                } else {
                    lemma_string_body_bounds(s, k + 1);
                }
            }
        } else {
            lemma_string_body_bounds(s, k + 1);
        }
    }
}

/// A character that goes on a word: a letter or an underscore.
pub open spec fn is_word_char(c: char) -> bool {
    alphabetic_char(c) || c == '_'
}

/// The end of the word that goes on at `k`.
pub open spec fn alpha_end(s: Seq<char>, k: int) -> int
    decreases s.len() - k,
{
    if 0 <= k < s.len() && is_word_char(s[k]) {
        alpha_end(s, k + 1)
    } else {
        k
    }
}

pub proof fn lemma_alpha_end_bounds(s: Seq<char>, k: int)
    requires
        0 <= k <= s.len(),
    ensures
        k <= alpha_end(s, k) <= s.len(),
    decreases s.len() - k,
{
    if k < s.len() && is_word_char(s[k]) {
        lemma_alpha_end_bounds(s, k + 1);
    }
}

/// The token of a word: a keyword, or else an identifier.
pub open spec fn word_token(w: Seq<char>) -> LangTok {
    if w == seq!['i', 'f'] {
        LangTok::If
    } else if w == seq!['e', 'l', 's', 'e'] {
        LangTok::Else
    } else if w == seq!['t', 'r', 'u', 'e'] {
        LangTok::Bool(true)
    } else if w == seq!['f', 'a', 'l', 's', 'e'] {
        LangTok::Bool(false)
    } else if w == seq!['n', 'u', 'l', 'l'] {
        LangTok::Null
    } else if w == seq!['f', 'o', 'r'] {
        LangTok::For
    } else if w == seq!['i', 'n'] {
        LangTok::In
    } else {
        LangTok::Identifier(w)
    }
}

/// `Some(seq![t] + ts)` when `o` is `Some(ts)`.
pub open spec fn cons_tok(t: LangTok, o: Option<Seq<LangTok>>) -> Option<Seq<LangTok>> {
    match o {
        Some(ts) => Some(seq![t] + ts),
        None => None,
    }
}

/// The tokens of the text `s` from index `i` on, or nothing where
/// tokenizing fails: an `=` or a backslash in a string as the last
/// character, an integer that is not a decimal `i32`, or a fraction with a
/// numeric character that is not an ASCII digit.
pub open spec fn lang_lex(s: Seq<char>, i: int) -> Option<Seq<LangTok>>
    decreases s.len() - i,
{
    if i < 0 || i >= s.len() {
        Some(Seq::empty())
    } else {
        let c = s[i];
        if single_token(c) is Some {
            cons_tok(single_token(c)->0, lang_lex(s, i + 1))
        } else if c == '=' {
            if i + 1 >= s.len() {
                None
            } else if s[i + 1] == '=' {
                cons_tok(LangTok::Op(Operator::Equals), lang_lex(s, i + 2))
            } else {
                lang_lex(s, i + 1)
            }
        } else if c == '"' {
            proof {
                lemma_string_body_bounds(s, i + 1);
            }
            match string_body(s, i + 1) {
                None => None,
                Some((b, e)) => cons_tok(
                    LangTok::Str(b),
                    lang_lex(s, if e < s.len() { e + 1 } else { s.len() as int }),
                ),
            }
        } else if numeric_char(c) {
            let e = num_end(s, i + 1);
            proof {
                lemma_num_end_bounds(s, i + 1);
            }
            if e < s.len() && s[e] == '.' {
                let f = num_end(s, e + 1);
                proof {
                    lemma_num_end_bounds(s, e + 1);
                }
                if all_digits(s.subrange(i, e)) && all_digits(s.subrange(e + 1, f)) {
                    cons_tok(LangTok::Float(s.subrange(i, f)), lang_lex(s, f))
                } else {
                    None
                }
            } else {
                match parse_unsigned(s.subrange(i, e), i32::MAX as int) {
                    Some(v) => cons_tok(LangTok::Int(v as i32), lang_lex(s, e)),
                    None => None,
                }
            }
        } else if is_word_char(c) {
            let e = alpha_end(s, i + 1);
            proof {
                lemma_alpha_end_bounds(s, i + 1);
            }
            cons_tok(word_token(s.subrange(i, e)), lang_lex(s, e))
        } else {
            lang_lex(s, i + 1)
        }
    }
}


proof fn lemma_cons_step(p: Seq<LangTok>, t: LangTok, x: Option<Seq<LangTok>>)
    ensures
        cons_all(p, cons_tok(t, x)) == cons_all(p.push(t), x),
{
    if let Some(y) = x {
        assert(p + (seq![t] + y) =~= p.push(t) + y);
    }
}

/// `Some(p + ts)` when `o` is `Some(ts)`.
pub open spec fn cons_all(p: Seq<LangTok>, o: Option<Seq<LangTok>>) -> Option<Seq<LangTok>> {
    match o {
        Some(ts) => Some(p + ts),
        None => None,
    }
}

proof fn lemma_prefix_body_step(p: Seq<char>, c: char, x: Option<(Seq<char>, int)>)
    ensures
        prefix_body(p, prefix_body(seq![c], x)) == prefix_body(p.push(c), x),
{
    if let Some((b, e)) = x {
        assert(p + (seq![c] + b) =~= p.push(c) + b);
    }
}

/// Appends a token, keeping track of the values of the tokens.
fn push_ltoken(toks: &mut Vec<Token>, t: Token)
    ensures
        final(toks)@ == old(toks)@.push(t),
        ltoks_view(final(toks)@) == ltoks_view(old(toks)@).push(t@),
{
    assert(ltoks_view(old(toks)@.push(t)) =~= ltoks_view(old(toks)@).push(t@));
    toks.push(t);
}

/// The token of a character that is a token by itself.
fn single_token_of(c: char) -> (r: Option<Token>)
    ensures
        r matches Some(t) ==> single_token(c) == Some(t@),
        r is None ==> single_token(c) is None,
{
    if c == '(' {
        Some(Token::Oparen)
    } else if c == ')' {
        Some(Token::Cparen)
    } else if c == '{' {
        Some(Token::OCparen)
    } else if c == '}' {
        Some(Token::CCparen)
    } else if c == '[' {
        Some(Token::OSparen)
    } else if c == ']' {
        Some(Token::CSparen)
    } else if c == '+' {
        Some(Token::Operator(Operator::Addition))
    } else if c == '-' {
        Some(Token::Operator(Operator::Substraction))
    } else if c == '*' {
        Some(Token::Operator(Operator::Multiplication))
    } else if c == '/' {
        Some(Token::Operator(Operator::Division))
    } else if c == '.' {
        Some(Token::Operator(Operator::Indexation))
    } else {
        None
    }
}

/// Whether `cs[lo..hi]` spells the word `w`.
fn spells(cs: &Vec<char>, lo: usize, hi: usize, w: &[char]) -> (r: bool)
    requires
        lo <= hi <= cs.len(),
    ensures
        r == (cs@.subrange(lo as int, hi as int) == w@),
{
    let ghost s = cs@.subrange(lo as int, hi as int);
    if hi - lo != w.len() {
        assert(s.len() != w@.len());
        return false;
    }
    let mut k: usize = 0;
    while k < w.len()
        invariant
            lo <= hi <= cs.len(),
            s == cs@.subrange(lo as int, hi as int),
            hi - lo == w@.len(),
            k <= w@.len(),
            forall|m: int| 0 <= m < k ==> s[m] == w@[m],
        decreases w.len() - k,
    {
        if cs[lo + k] != w[k] {
            assert(s[k as int] != w@[k as int]);
            return false;
        }
        k = k + 1;
    }
    assert(s =~= w@);
    true
}

/// The token of the word `cs[lo..hi]`.
fn word_token_of(cs: &Vec<char>, lo: usize, hi: usize) -> (r: Token)
    requires
        lo <= hi <= cs.len(),
    ensures
        r@ == word_token(cs@.subrange(lo as int, hi as int)),
{
    let ghost w = cs@.subrange(lo as int, hi as int);
    if spells(cs, lo, hi, &['i', 'f']) {
        assert(w == seq!['i', 'f']);
        Token::If
    } else if spells(cs, lo, hi, &['e', 'l', 's', 'e']) {
        Token::Else
    } else if spells(cs, lo, hi, &['t', 'r', 'u', 'e']) {
        Token::Bool(true)
    } else if spells(cs, lo, hi, &['f', 'a', 'l', 's', 'e']) {
        Token::Bool(false)
    } else if spells(cs, lo, hi, &['n', 'u', 'l', 'l']) {
        Token::Null
    } else if spells(cs, lo, hi, &['f', 'o', 'r']) {
        Token::For
    } else if spells(cs, lo, hi, &['i', 'n']) {
        Token::In
    } else {
        Token::Identifier(string_of(cs, lo, hi))
    }
}

/// The tokens of `cs`; nothing where tokenizing fails.
fn lex_lang_chars(cs: &Vec<char>) -> (r: Option<Vec<Token>>)
    ensures
        r matches Some(t) ==> lang_lex(cs@, 0) == Some(ltoks_view(t@)),
        r is None ==> lang_lex(cs@, 0) is None,
{
    let ghost s = cs@;
    let len = cs.len();
    let mut toks: Vec<Token> = Vec::new();
    let mut i: usize = 0;
    assert(ltoks_view(toks@) =~= Seq::<LangTok>::empty());
    assert(cons_all(ltoks_view(toks@), lang_lex(s, 0)) == lang_lex(s, 0)) by {
        if let Some(y) = lang_lex(s, 0) {
            assert(Seq::<LangTok>::empty() + y =~= y);
        }
    }
    while i < len
        invariant
            s == cs@,
            len == cs.len(),
            i <= len,
            lang_lex(s, 0) == cons_all(ltoks_view(toks@), lang_lex(s, i as int)),
        decreases len - i,
    {
        let c = cs[i];
        let ghost before = ltoks_view(toks@);
        if let Some(t) = single_token_of(c) {
            proof {
                lemma_cons_step(before, t@, lang_lex(s, i + 1));
            }
            push_ltoken(&mut toks, t);
            i = i + 1;
        } else if c == '=' {
            if i + 1 >= len {
                return None;
            }
            if cs[i + 1] == '=' {
                let t = Token::Operator(Operator::Equals);
                proof {
                    lemma_cons_step(before, t@, lang_lex(s, i + 2));
                }
                push_ltoken(&mut toks, t);
                i = i + 2;
            } else {
                i = i + 1;
            }
        } else if c == '"' {
            let mut buf = String::new();
            let mut k: usize = i + 1;
            assert(prefix_body(buf@, string_body(s, k as int)) == string_body(s, k as int)) by {
                if let Some((b, e)) = string_body(s, k as int) {
                    assert(buf@ + b =~= b);
                }
            }
            while k < len && cs[k] != '"'
                invariant
                    s == cs@,
                    len == cs.len(),
                    i < k <= len,
                    string_body(s, i + 1) == prefix_body(buf@, string_body(s, k as int)),
                    s[i as int] == '"',
                    lang_lex(s, 0) == cons_all(before, lang_lex(s, i as int)),
                decreases len - k,
            {
                if cs[k] == '\\' {
                    if k + 1 >= len {
                        assert(string_body(s, k as int) is None);
                        assert(string_body(s, i + 1) is None);
                        assert(lang_lex(s, i as int) is None);
                        return None;
                    }
                    if cs[k + 1] == '"' {
                        proof {
                            lemma_prefix_body_step(buf@, '"', string_body(s, k + 2));
                        }
                        push_char(&mut buf, '"');
                        k = k + 2;
                    } else {
                        proof {
                            lemma_prefix_body_step(buf@, '\\', string_body(s, k + 1));
                        }
                        push_char(&mut buf, '\\');
                        k = k + 1;
                    }
                } else {
                    proof {
                        lemma_prefix_body_step(buf@, cs[k as int], string_body(s, k + 1));
                    }
                    push_char(&mut buf, cs[k]);
                    k = k + 1;
                }
            }
            assert(buf@ + Seq::<char>::empty() =~= buf@);
            let next = if k < len { k + 1 } else { len };
            let t = Token::Str(buf);
            proof {
                lemma_cons_step(before, t@, lang_lex(s, next as int));
            }
            push_ltoken(&mut toks, t);
            i = next;
        } else if is_numeric(c) {
            let mut e: usize = i + 1;
            while e < len && is_numeric(cs[e])
                invariant
                    s == cs@,
                    len == cs.len(),
                    i < e <= len,
                    num_end(s, i + 1) == num_end(s, e as int),
                decreases len - e,
            {
                e = e + 1;
            }
            if e < len && cs[e] == '.' {
                let mut f: usize = e + 1;
                while f < len && is_numeric(cs[f])
                    invariant
                        s == cs@,
                        len == cs.len(),
                        e < f <= len,
                        num_end(s, e + 1) == num_end(s, f as int),
                    decreases len - f,
                {
                    f = f + 1;
                }
                if !(digits_only(cs, i, e) && digits_only(cs, e + 1, f)) {
                    return None;
                }
                let t = Token::Float(string_of(cs, i, f));
                proof {
                    lemma_cons_step(before, t@, lang_lex(s, f as int));
                }
                push_ltoken(&mut toks, t);
                i = f;
            } else {
                match parse_decimal(cs, i, e, i32::MAX as i64) {
                    None => {
                        return None;
                    },
                    Some(v) => {
                        let t = Token::Int(v as i32);
                        proof {
                            lemma_cons_step(before, t@, lang_lex(s, e as int));
                        }
                        push_ltoken(&mut toks, t);
                        i = e;
                    },
                }
            }
        } else if is_alphabetic(c) || c == '_' {
            let mut e: usize = i + 1;
            while e < len && (is_alphabetic(cs[e]) || cs[e] == '_')
                invariant
                    s == cs@,
                    len == cs.len(),
                    i < e <= len,
                    alpha_end(s, i + 1) == alpha_end(s, e as int),
                decreases len - e,
            {
                e = e + 1;
            }
            let t = word_token_of(cs, i, e);
            proof {
                lemma_cons_step(before, t@, lang_lex(s, e as int));
            }
            push_ltoken(&mut toks, t);
            i = e;
        } else {
            i = i + 1;
        }
    }
    assert(ltoks_view(toks@) + Seq::<LangTok>::empty() =~= ltoks_view(toks@));
    Some(toks)
}

/// The tokens of a text; nothing where `tokenize_lang` would fail on it.
pub fn try_tokenize_lang(string: &str) -> (r: Option<Vec<Token>>)
    ensures
        r matches Some(t) ==> lang_lex(string@, 0) == Some(ltoks_view(t@)),
        r is None ==> lang_lex(string@, 0) is None,
{
    let cs = chars_of(string);
    lex_lang_chars(&cs)
}

/// The tokens of a text.
pub fn tokenize_lang(string: String) -> (r: Vec<Token>)
    requires
        lang_lex(string@, 0) is Some,
    ensures
        lang_lex(string@, 0) == Some(ltoks_view(r@)),
{
    match try_tokenize_lang(string.as_str()) {
        Some(t) => t,
        None => {
            proof {
                assert(false);
            }
            Vec::new()
        },
    }
}


// ---------------------------------------------------------------------------
// String literals
// ---------------------------------------------------------------------------

/// The text `w` with a backslash put before each double quote in it: the
/// body of a string literal that stands for `w`.
pub open spec fn escape_quotes(w: Seq<char>) -> Seq<char>
    decreases w.len(),
{
    if w.len() == 0 {
        Seq::empty()
    } else if w[0] == '"' {
        seq!['\\', '"'] + escape_quotes(w.drop_first())
    } else {
        seq![w[0]] + escape_quotes(w.drop_first())
    }
}

proof fn lemma_escape_len(w: Seq<char>)
    ensures
        escape_quotes(w).len() >= w.len(),
    decreases w.len(),
{
    if w.len() > 0 {
        lemma_escape_len(w.drop_first());
    }
}

#[verifier::spinoff_prover]
proof fn lemma_string_body_escaped(s: Seq<char>, k: int, w: Seq<char>)
    requires
        0 <= k,
        k + escape_quotes(w).len() < s.len(),
        s.subrange(k, k + escape_quotes(w).len()) == escape_quotes(w),
        s[k + escape_quotes(w).len()] == '"',
        w.len() == 0 || w.last() != '\\',
    ensures
        string_body(s, k) == Some((w, k + escape_quotes(w).len())),
    decreases w.len(),
{
    let ew = escape_quotes(w);
    if w.len() > 0 {
        let r = w.drop_first();
        let er = escape_quotes(r);
        lemma_escape_len(r);
        assert(s.subrange(k, k + ew.len())[0] == s[k]);
        if w[0] == '"' {
            assert(ew == seq!['\\', '"'] + er);
            assert(s.subrange(k, k + ew.len())[1] == s[k + 1]);
            assert(s.subrange(k + 2, k + 2 + er.len()) =~= er) by {
                assert forall|m: int| 0 <= m < er.len() implies s.subrange(k + 2, k + 2 + er.len())[m]
                    == er[m] by {
                    assert(s.subrange(k, k + ew.len())[m + 2] == ew[m + 2]);
                }
            }
            lemma_string_body_escaped(s, k + 2, r);
            assert(seq!['"'] + r =~= w);
        } else {
            assert(ew == seq![w[0]] + er);
            assert(s.subrange(k + 1, k + 1 + er.len()) =~= er) by {
                assert forall|m: int| 0 <= m < er.len() implies s.subrange(k + 1, k + 1 + er.len())[m]
                    == er[m] by {
                    assert(s.subrange(k, k + ew.len())[m + 1] == ew[m + 1]);
                }
            }
            if w[0] == '\\' {
                assert(r.len() > 0);
                assert(s.subrange(k, k + ew.len())[1] == s[k + 1]);
                assert(er[0] != '"');
            }
            lemma_string_body_escaped(s, k + 1, r);
            assert(seq![w[0]] + r =~= w);
        }
    }
}

/// A text that does not end with a backslash, written between double
/// quotes with a backslash before each double quote in it, is read as one
/// string token that holds the text.
#[verifier::spinoff_prover]
pub proof fn law_string_literal_reads_back(w: Seq<char>)
    requires
        w.len() == 0 || w.last() != '\\',
    ensures
        lang_lex(seq!['"'] + escape_quotes(w) + seq!['"'], 0) == Some(seq![LangTok::Str(w)]),
{
    let ew = escape_quotes(w);
    let s = seq!['"'] + ew + seq!['"'];
    assert(s.subrange(1, 1 + ew.len() as int) =~= ew);
    lemma_string_body_escaped(s, 1, w);
    assert(lang_lex(s, s.len() as int) == Some(Seq::<LangTok>::empty()));
    assert(seq![LangTok::Str(w)] + Seq::<LangTok>::empty() =~= seq![LangTok::Str(w)]);
}


// ---------------------------------------------------------------------------
// Operations on the language's values
// ---------------------------------------------------------------------------

/// The text of a string value as a page shows it: each line break becomes
/// `<br>`.
pub open spec fn html_breaks(s: Seq<char>) -> Seq<char>
    decreases s.len(),
{
    if s.len() == 0 {
        Seq::empty()
    } else if s.last() == '\n' {
        html_breaks(s.drop_last()) + seq!['<', 'b', 'r', '>']
    } else {
        html_breaks(s.drop_last()).push(s.last())
    }
}

/// The string `s` with each line break replaced by `<br>`.
pub fn html_line_breaks(s: &str) -> (r: String)
    ensures
        r@ == html_breaks(s@),
{
    let cs = chars_of(s);
    let mut out = String::new();
    let mut i: usize = 0;
    assert(cs@.take(0) =~= Seq::<char>::empty());
    while i < cs.len()
        invariant
            cs@ == s@,
            i <= cs.len(),
            out@ == html_breaks(cs@.take(i as int)),
        decreases cs.len() - i,
    {
        assert(cs@.take(i + 1).drop_last() =~= cs@.take(i as int));
        assert(cs@.take(i + 1).last() == cs@[i as int]);
        if cs[i] == '\n' {
            out.append("<br>");
            proof {
                reveal_strlit("<br>");
            }
        } else {
            push_char(&mut out, cs[i]);
        }
        i = i + 1;
    }
    assert(cs@.take(i as int) =~= cs@);
    out
}

/// What looking a key up among the keys of a dictionary gives: the index
/// of the first entry with that key, or a key that is not a string met
/// before it, or no such entry.
#[derive(Debug, PartialEq, Eq, Structural, Clone, Copy)]
pub enum KeyLookup {
    Found(usize),
    NotAString,
    Missing,
}

/// The keys of a dictionary, each a string's text or nothing when the key
/// is not a string.
pub open spec fn keys_view(keys: Seq<Option<String>>) -> Seq<Option<Seq<char>>> {
    keys.map_values(|k: Option<String>| match k {
        Some(x) => Some(x@),
        None => None,
    })
}

/// Looking `key` up among `keys` from index `i` on, entry by entry.
pub open spec fn key_lookup(keys: Seq<Option<Seq<char>>>, key: Seq<char>, i: int) -> KeyLookup
    decreases keys.len() - i,
{
    if i < 0 || i >= keys.len() {
        KeyLookup::Missing
    } else {
        match keys[i] {
            None => KeyLookup::NotAString,
            Some(k) => if k == key {
                KeyLookup::Found(i as usize)
            } else {
                key_lookup(keys, key, i + 1)
            },
        }
    }
}

/// Looks `key` up among the keys of a dictionary (`None` for a key that is
/// not a string).
pub fn find_key(keys: &Vec<Option<String>>, key: &String) -> (r: KeyLookup)
    ensures
        r == key_lookup(keys_view(keys@), key@, 0),
{
    let ghost kv = keys_view(keys@);
    let mut i: usize = 0;
    while i < keys.len()
        invariant
            kv == keys_view(keys@),
            i <= keys.len(),
            key_lookup(kv, key@, 0) == key_lookup(kv, key@, i as int),
        decreases keys.len() - i,
    {
        assert(kv[i as int] == match keys@[i as int] {
            Some(x) => Some(x@),
            None => None::<Seq<char>>,
        });
        match &keys[i] {
            None => {
                return KeyLookup::NotAString;
            },
            Some(k) => {
                if *k == *key {
                    return KeyLookup::Found(i);
                }
            },
        }
        i = i + 1;
    }
    KeyLookup::Missing
}


/// `s` written `n` times in a row; nothing when `n` is not positive.
pub open spec fn repeat(s: Seq<char>, n: int) -> Seq<char>
    decreases n,
{
    if n <= 0 {
        Seq::empty()
    } else {
        repeat(s, n - 1) + s
    }
}

/// The string `str` written `n` times in a row (what multiplying a number
/// by a string gives).
pub fn mul_str(str: String, n: i32) -> (r: String)
    ensures
        r@ == repeat(str@, n as int),
{
    let mut res = String::new();
    let mut i: i32 = 0;
    assert(res@ =~= repeat(str@, 0));
    while i < n
        invariant
            0 <= i <= n || (n < 0 && i == 0),
            res@ == repeat(str@, i as int),
        decreases n - i,
    {
        res.append(str.as_str());
        i = i + 1;
    }
    assert(n <= 0 ==> repeat(str@, n as int) =~= repeat(str@, 0));
    res
}


/// Writing a string `a` times and then `b` times is writing it `a + b`
/// times; the result is `a + b` times as long.
pub proof fn law_repeat_adds(s: Seq<char>, a: int, b: int)
    requires
        a >= 0,
        b >= 0,
    ensures
        repeat(s, a + b) == repeat(s, a) + repeat(s, b),
        repeat(s, a + b).len() == (a + b) * s.len(),
    decreases b,
{
    if b == 0 {
        assert(repeat(s, a) + repeat(s, 0) =~= repeat(s, a));
        lemma_repeat_len(s, a);
    } else {
        law_repeat_adds(s, a, b - 1);
        assert(repeat(s, a) + (repeat(s, b - 1) + s) =~= (repeat(s, a) + repeat(s, b - 1)) + s);
        lemma_repeat_len(s, a + b);
    }
}

proof fn lemma_repeat_len(s: Seq<char>, n: int)
    requires
        n >= 0,
    ensures
        repeat(s, n).len() == n * s.len(),
    decreases n,
{
    if n > 0 {
        lemma_repeat_len(s, n - 1);
        assert(repeat(s, n) == repeat(s, n - 1) + s);
        assert((n - 1) * s.len() + s.len() == n * s.len()) by (nonlinear_arith);
    } else {
        assert(repeat(s, n).len() == 0);
        assert(n * s.len() == 0);
    }
}

// ---------------------------------------------------------------------------
// Words
// ---------------------------------------------------------------------------

proof fn lemma_alpha_end_of_word(s: Seq<char>, n: int, k: int)
    requires
        1 <= k <= n <= s.len(),
        forall|m: int| 0 <= m < n ==> alphabetic_char(#[trigger] s[m]) || s[m] == '_',
        n == s.len() || !(alphabetic_char(s[n]) || s[n] == '_'),
    ensures
        alpha_end(s, k) == n,
    decreases n - k,
{
    if k < n {
        assert(alphabetic_char(s[k]) || s[k] == '_');
        lemma_alpha_end_of_word(s, n, k + 1);
    }
}

/// A run of letters (Unicode alphabetic characters, the ASCII letters of
/// both cases among them) and underscores that does not start with a
/// numeric character, is not a keyword and is not followed by another
/// letter or underscore reads as one identifier holding the whole run,
/// followed by what the rest of the text reads as; a text that is such a
/// run alone reads as that one identifier.
pub proof fn law_words_read_as_identifiers(w: Seq<char>, r: Seq<char>)
    requires
        w.len() > 0,
        forall|m: int| 0 <= m < w.len() ==> alphabetic_char(#[trigger] w[m]) || w[m] == '_',
        !numeric_char(w[0]),
        w != seq!['i', 'f'],
        w != seq!['e', 'l', 's', 'e'],
        w != seq!['t', 'r', 'u', 'e'],
        w != seq!['f', 'a', 'l', 's', 'e'],
        w != seq!['n', 'u', 'l', 'l'],
        w != seq!['f', 'o', 'r'],
        w != seq!['i', 'n'],
        r.len() == 0 || !(alphabetic_char(r[0]) || r[0] == '_'),
    ensures
        match lang_lex(w + r, w.len() as int) {
            Some(ts) => lang_lex(w + r, 0) == Some(seq![LangTok::Identifier(w)] + ts),
            None => lang_lex(w + r, 0) is None,
        },
        lang_lex(w, 0) == Some(seq![LangTok::Identifier(w)]),
{
    lemma_word_alone_or_followed(w, r);
    lemma_word_alone_or_followed(w, Seq::empty());
    assert(w + Seq::<char>::empty() =~= w);
    assert(lang_lex(w, w.len() as int) == Some(Seq::<LangTok>::empty()));
    assert(seq![LangTok::Identifier(w)] + Seq::<LangTok>::empty() =~= seq![LangTok::Identifier(w)]);
}

proof fn lemma_word_alone_or_followed(w: Seq<char>, r: Seq<char>)
    requires
        w.len() > 0,
        forall|m: int| 0 <= m < w.len() ==> alphabetic_char(#[trigger] w[m]) || w[m] == '_',
        !numeric_char(w[0]),
        w != seq!['i', 'f'],
        w != seq!['e', 'l', 's', 'e'],
        w != seq!['t', 'r', 'u', 'e'],
        w != seq!['f', 'a', 'l', 's', 'e'],
        w != seq!['n', 'u', 'l', 'l'],
        w != seq!['f', 'o', 'r'],
        w != seq!['i', 'n'],
        r.len() == 0 || !(alphabetic_char(r[0]) || r[0] == '_'),
    ensures
        lang_lex(w + r, 0) == cons_tok(LangTok::Identifier(w), lang_lex(w + r, w.len() as int)),
{
    let s = w + r;
    let n = w.len() as int;
    assert forall|m: int| 0 <= m < n implies alphabetic_char(#[trigger] s[m]) || s[m] == '_' by {
        assert(s[m] == w[m]);
    }
    if n < s.len() {
        assert(s[n] == r[0]);
    }
    lemma_alpha_end_of_word(s, n, 1);
    let c = s[0];
    assert(c == w[0]);
    assert(alphabetic_char(c) || c == '_');
    assert(single_token(c) is None);
    assert(c != '=' && c != '"');
    assert(is_word_char(c));
    assert(s.subrange(0, n) =~= w);
    assert(word_token(w) == LangTok::Identifier(w));
}

} // verus!
