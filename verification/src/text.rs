//! Character and string helpers shared by the tokenizers.
use vstd::prelude::*;
use vstd::string::*;

verus! {

/// Whether `c` belongs to one of Unicode's number categories (Nd, Nl, No).
pub uninterp spec fn char_is_numeric(c: char) -> bool;

/// Whether `c` has Unicode's `Alphabetic` property.
pub uninterp spec fn char_is_alphabetic(c: char) -> bool;

/// An ASCII decimal digit.
pub open spec fn is_digit(c: char) -> bool {
    '0' <= c && c <= '9'
}

/// What `is_numeric` gives for `c`: for an ASCII character, whether it is
/// one of the ten decimal digits; beyond ASCII, `char_is_numeric`.
pub open spec fn numeric_char(c: char) -> bool {
    if (c as u32) < 128 {
        is_digit(c)
    } else {
        char_is_numeric(c)
    }
}

/// Calls `char::is_numeric`. The result is named `char_is_numeric`; of an
/// ASCII character the only numeric ones are the ten decimal digits.
#[verifier::external_body]
pub(crate) fn is_numeric(c: char) -> (r: bool)
    ensures
        r == char_is_numeric(c),
        (c as u32) < 128 ==> (r <==> is_digit(c)),
{
    c.is_numeric()
}

/// What `is_alphabetic` gives for `c`: for an ASCII character, whether it is
/// a Latin letter; beyond ASCII, `char_is_alphabetic`.
pub open spec fn alphabetic_char(c: char) -> bool {
    if (c as u32) < 128 {
        ('a' <= c && c <= 'z') || ('A' <= c && c <= 'Z')
    } else {
        char_is_alphabetic(c)
    }
}

/// Calls `char::is_alphabetic`. The result is named `char_is_alphabetic`;
/// of an ASCII character the alphabetic ones are the Latin letters.
#[verifier::external_body]
pub(crate) fn is_alphabetic(c: char) -> (r: bool)
    ensures
        r == char_is_alphabetic(c),
        (c as u32) < 128 ==> (r <==> (('a' <= c && c <= 'z') || ('A' <= c && c <= 'Z'))),
{
    c.is_alphabetic()
}

/// Whether `c` has Unicode's `White_Space` property.
pub uninterp spec fn char_is_whitespace(c: char) -> bool;

/// What `is_whitespace` gives for `c`: for an ASCII character, whether it
/// is the space or one of the controls from tab to carriage return; beyond
/// ASCII, `char_is_whitespace`.
pub open spec fn whitespace_char(c: char) -> bool {
    if (c as u32) < 128 {
        c == ' ' || ('\t' <= c && c <= '\r')
    } else {
        char_is_whitespace(c)
    }
}

/// Calls `char::is_whitespace`. The result is named `char_is_whitespace`;
/// of an ASCII character the white ones are the space and the controls from
/// tab to carriage return.
#[verifier::external_body]
pub(crate) fn is_whitespace(c: char) -> (r: bool)
    ensures
        r == char_is_whitespace(c),
        (c as u32) < 128 ==> (r <==> (c == ' ' || ('\t' <= c && c <= '\r'))),
{
    c.is_whitespace()
}

/// Calls `String::push`: appends one character.
#[verifier::external_body]
pub(crate) fn push_char(s: &mut String, c: char)
    ensures
        final(s)@ == old(s)@.push(c),
{
    s.push(c)
}

/// The characters of a string, in order.
pub fn chars_of(s: &str) -> (r: Vec<char>)
    ensures
        r@ == s@,
{
    let mut v: Vec<char> = Vec::new();
    for c in it: s.chars()
        invariant
            v@ == it.seq().take(it.index() as int),
    {
        v.push(c);
    }
    v
}


/// The character of the decimal digit `d` (`0 <= d < 10`).
pub open spec fn digit_char(d: int) -> char {
    (d + 48) as char
}

/// The decimal digits of a natural number, most significant first, without
/// leading zeros.
pub open spec fn nat_digits(n: nat) -> Seq<char>
    decreases n,
{
    if n < 10 {
        seq![digit_char(n as int)]
    } else {
        nat_digits(n / 10).push(digit_char((n % 10) as int))
    }
}

/// The decimal text of an integer, with a leading `-` when it is negative:
/// what `Display` writes for Rust's integer types.
pub open spec fn decimal(n: int) -> Seq<char> {
    if n < 0 {
        seq!['-'] + nat_digits((-n) as nat)
    } else {
        nat_digits(n as nat)
    }
}

fn push_digits(s: &mut String, m: u64)
    ensures
        final(s)@ == old(s)@ + nat_digits(m as nat),
    decreases m,
{
    if m >= 10 {
        push_digits(s, m / 10);
    }
    let d: u64 = m % 10;
    let c: char = ((d as u8) + 48u8) as char;
    push_char(s, c);
    proof {
        assert(c == digit_char((m % 10) as int));
        if m >= 10 {
            assert(old(s)@ + nat_digits(m as nat) =~= old(s)@ + nat_digits((m / 10) as nat) + seq![c]);
        } else {
            assert(old(s)@ + nat_digits(m as nat) =~= old(s)@.push(c));
        }
    }
}

/// Appends the decimal text of `n` to `s`.
pub fn push_decimal(s: &mut String, n: i64)
    ensures
        final(s)@ == old(s)@ + decimal(n as int),
{
    if n < 0 {
        push_char(s, '-');
        let m: u64 = ((-(n + 1)) as u64) + 1;
        push_digits(s, m);
        assert(old(s)@ + decimal(n as int) =~= old(s)@.push('-') + nat_digits(m as nat));
    } else {
        push_digits(s, n as u64);
    }
}

/// The decimal text of `n`, as `n.to_string()` gives it.
pub fn i64_to_string(n: i64) -> (r: String)
    ensures
        r@ == decimal(n as int),
{
    let mut s = String::new();
    push_decimal(&mut s, n);
    assert(s@ =~= decimal(n as int));
    s
}

/// Every character is an ASCII decimal digit.
pub open spec fn all_digits(s: Seq<char>) -> bool {
    forall|k: int| 0 <= k < s.len() ==> is_digit(#[trigger] s[k])
}

/// The value of a string of decimal digits.
pub open spec fn digits_value(s: Seq<char>) -> int
    decreases s.len(),
{
    if s.len() == 0 {
        0
    } else {
        digits_value(s.drop_last()) * 10 + (s.last() as int - 48)
    }
}

/// What `str::parse` gives for an integer type whose largest value is `max`,
/// on text that holds no sign: the value when the text is a non-empty run of
/// ASCII digits whose value is at most `max`, and nothing otherwise.
pub open spec fn parse_unsigned(s: Seq<char>, max: int) -> Option<int> {
    if s.len() > 0 && all_digits(s) && digits_value(s) <= max {
        Some(digits_value(s))
    } else {
        None
    }
}

/// Appending digits never makes the value smaller.
pub proof fn lemma_digits_value_prefix(s: Seq<char>, k: int)
    requires
        all_digits(s),
        0 <= k <= s.len(),
    ensures
        0 <= digits_value(s.take(k)) <= digits_value(s),
    decreases s.len(),
{
    if s.len() == 0 {
        assert(s.take(k) =~= s);
    } else if k == s.len() {
        assert(s.take(k) =~= s);
        lemma_digits_value_prefix(s.drop_last(), k - 1);
    } else {
        assert(s.take(k) =~= s.drop_last().take(k));
        assert(all_digits(s.drop_last()));
        lemma_digits_value_prefix(s.drop_last(), k);
        assert(is_digit(s[s.len() - 1]));
    }
}

/// Parses the characters `cs[lo..hi]` as a decimal number no larger than
/// `max`, as `str::parse` does for the text of such a run.
pub fn parse_decimal(cs: &Vec<char>, lo: usize, hi: usize, max: i64) -> (r: Option<i64>)
    requires
        lo <= hi <= cs.len(),
        max >= 0,
    ensures
        r matches Some(v) ==> parse_unsigned(cs@.subrange(lo as int, hi as int), max as int)
            == Some(v as int) && 0 <= v <= max,
        r is None ==> parse_unsigned(cs@.subrange(lo as int, hi as int), max as int) is None,
{
    let ghost s = cs@.subrange(lo as int, hi as int);
    if lo == hi {
        return None;
    }
    let mut v: i64 = 0;
    let mut k: usize = lo;
    while k < hi
        invariant
            lo <= k <= hi <= cs.len(),
            s == cs@.subrange(lo as int, hi as int),
            max >= 0,
            all_digits(s.take(k - lo)),
            0 <= v <= max,
            v == digits_value(s.take(k - lo)),
        decreases hi - k,
    {
        let c = cs[k];
        assert(c == s[k - lo]);
        if !('0' <= c && c <= '9') {
            assert(!all_digits(s));
            return None;
        }
        let d: i64 = (c as u32 - 48) as i64;
        assert(s.take(k - lo + 1).drop_last() =~= s.take(k - lo));
        if v > max / 10 || v * 10 > max - d {
            proof {
                if v > max / 10 {
                    assert(v * 10 + d > max) by (nonlinear_arith)
                        requires
                            v > max / 10,
                            0 <= d <= 9,
                            max >= 0;
                }
                if all_digits(s) {
                    lemma_digits_value_prefix(s, k - lo + 1);
                }
            }
            return None;
        }
        v = v * 10 + d;
        k = k + 1;
        assert(all_digits(s.take(k - lo)));
    }
    assert(s.take(k - lo) =~= s);
    Some(v)
}

/// The end of the run of numeric characters that goes on at `k`.
pub open spec fn num_end(s: Seq<char>, k: int) -> int
    decreases s.len() - k,
{
    if 0 <= k < s.len() && numeric_char(s[k]) {
        num_end(s, k + 1)
    } else {
        k
    }
}

pub proof fn lemma_num_end_bounds(s: Seq<char>, k: int)
    requires
        0 <= k <= s.len(),
    ensures
        k <= num_end(s, k) <= s.len(),
    decreases s.len() - k,
{
    if k < s.len() && numeric_char(s[k]) {
        lemma_num_end_bounds(s, k + 1);
    }
}


/// The characters `cs[lo..hi]` as a string.
pub fn string_of(cs: &Vec<char>, lo: usize, hi: usize) -> (r: String)
    requires
        lo <= hi <= cs.len(),
    ensures
        r@ == cs@.subrange(lo as int, hi as int),
{
    let mut r = String::new();
    let mut k: usize = lo;
    assert(r@ =~= cs@.subrange(lo as int, k as int));
    while k < hi
        invariant
            lo <= k <= hi <= cs.len(),
            r@ == cs@.subrange(lo as int, k as int),
        decreases hi - k,
    {
        push_char(&mut r, cs[k]);
        k = k + 1;
        assert(r@ =~= cs@.subrange(lo as int, k as int));
    }
    r
}

/// Whether the characters `cs[lo..hi]` are all ASCII digits.
pub fn digits_only(cs: &Vec<char>, lo: usize, hi: usize) -> (r: bool)
    requires
        lo <= hi <= cs.len(),
    ensures
        r == all_digits(cs@.subrange(lo as int, hi as int)),
{
    let ghost s = cs@.subrange(lo as int, hi as int);
    let mut k: usize = lo;
    while k < hi
        invariant
            lo <= k <= hi <= cs.len(),
            s == cs@.subrange(lo as int, hi as int),
            forall|m: int| 0 <= m < k - lo ==> is_digit(#[trigger] s[m]),
        decreases hi - k,
    {
        let c = cs[k];
        if !('0' <= c && c <= '9') {
            assert(!is_digit(s[k - lo]));
            return false;
        }
        k = k + 1;
    }
    true
}


/// Reading back the decimal text of a natural number gives the number:
/// `str::parse` undoes `Display` on the integers that fit.
pub proof fn law_decimal_parses_back(n: nat, max: int)
    requires
        n <= max,
    ensures
        parse_unsigned(nat_digits(n), max) == Some(n as int),
{
    lemma_nat_digits_value(n);
}

/// The decimal text of `n` is made of digits and is worth `n`.
proof fn lemma_nat_digits_value(n: nat)
    ensures
        nat_digits(n).len() > 0,
        all_digits(nat_digits(n)),
        digits_value(nat_digits(n)) == n,
    decreases n,
{
    let d = (n % 10) as int;
    assert(digit_char(d) as int == d + 48);
    if n < 10 {
        let s = nat_digits(n);
        assert(s.drop_last() =~= Seq::<char>::empty());
        assert(digits_value(s.drop_last()) == 0);
        assert(s.last() == digit_char(d));
        assert(digits_value(s) == n);
    }
    if n >= 10 {
        lemma_nat_digits_value(n / 10);
        let s = nat_digits(n / 10);
        let c = digit_char((n % 10) as int);
        assert(s.push(c).drop_last() =~= s);
        assert(s.push(c).last() == c);
        assert((n / 10) * 10 + n % 10 == n);
        assert(nat_digits(n) == s.push(c));
        assert(digits_value(s.push(c)) == digits_value(s) * 10 + (c as int - 48));
        assert forall|k: int| 0 <= k < s.push(c).len() implies is_digit(#[trigger] s.push(c)[k]) by {
            if k < s.len() {
                assert(s.push(c)[k] == s[k]);
            }
        }
    }
}

} // verus!
