//! Classifying characters and token texts.

use vstd::prelude::*;

verus! {

/// Whether `char::is_numeric` holds of the non-ASCII character `c`.
pub uninterp spec fn numeric_char(c: char) -> bool;

/// Whether `c` is a number in the Unicode sense. The only ASCII characters in the
/// Unicode number categories are the digits `0` to `9`.
pub open spec fn is_numeric_char(c: char) -> bool {
    if (c as u32) < 128 {
        is_digit(c)
    } else {
        numeric_char(c)
    }
}

/// Relies on `char::is_numeric`: true exactly for the characters of the Unicode
/// number categories (Nd, Nl, No).
#[verifier::external_body]
pub(crate) fn is_numeric(c: char) -> (r: bool)
    ensures
        (c as u32) < 128 ==> r == is_digit(c),
        (c as u32) >= 128 ==> r == numeric_char(c),
{
    c.is_numeric()
}

/// An ASCII decimal digit.
pub open spec fn is_digit(c: char) -> bool {
    '0' <= c && c <= '9'
}

/// The characters that split the text into tokens: anything that is not a number,
/// a space, a decimal point or a parenthesis.
pub open spec fn is_separator(c: char) -> bool {
    !(is_numeric_char(c) || c == ' ' || c == '.' || c == '(' || c == ')')
}

/// Whether `c` splits the text of an expression into tokens.
pub fn separates(c: char) -> (r: bool)
    ensures
        r == is_separator(c),
{
    !(is_numeric(c) || c == ' ' || c == '.' || c == '(' || c == ')')
}

/// Whether `c` may be typed into an expression: a number, an operator symbol or a
/// decimal point.
pub open spec fn is_qualified(c: char) -> bool {
    is_numeric_char(c) || crate::operation::is_operator_char(c) || c == '.'
}

/// A number literal in the decimal form alone: ASCII digits with at most one decimal
/// point, and at least one digit.
pub open spec fn is_decimal(s: Seq<char>) -> bool {
    &&& forall|i: int| 0 <= i < s.len() ==> is_digit(#[trigger] s[i]) || s[i] == '.'
    &&& forall|i: int, j: int| 0 <= i < j < s.len() ==> !(#[trigger] s[i] == '.' && #[trigger] s[j] == '.')
    &&& exists|i: int| 0 <= i < s.len() && is_digit(#[trigger] s[i])
}

pub open spec fn all_digits(s: Seq<char>) -> bool {
    forall|i: int| 0 <= i < s.len() ==> is_digit(#[trigger] s[i])
}

pub open spec fn is_sign(c: char) -> bool {
    c == '+' || c == '-'
}

pub open spec fn is_exp_mark(c: char) -> bool {
    c == 'e' || c == 'E'
}

/// `s` without a leading sign.
pub open spec fn unsigned(s: Seq<char>) -> Seq<char> {
    if s.len() > 0 && is_sign(s[0]) {
        s.drop_first()
    } else {
        s
    }
}

/// The lower-case form of an ASCII letter; other characters are kept.
pub open spec fn lower(c: char) -> char {
    if 'A' <= c && c <= 'Z' {
        ((c as u8) + 32) as char
    } else {
        c
    }
}

pub open spec fn lowered(s: Seq<char>) -> Seq<char> {
    s.map_values(|c: char| lower(c))
}

/// `inf`, `infinity` or `nan`, in any case.
pub open spec fn is_special(s: Seq<char>) -> bool {
    let l = lowered(s);
    l == seq!['i', 'n', 'f'] || l == seq!['i', 'n', 'f', 'i', 'n', 'i', 't', 'y'] || l == seq![
        'n',
        'a',
        'n',
    ]
}

/// Digits with an optional decimal point, and at least one digit.
pub open spec fn is_mantissa(s: Seq<char>) -> bool {
    ||| s.len() > 0 && all_digits(s)
    ||| exists|k: int|
        0 <= k < s.len() && #[trigger] s[k] == '.' && s.len() >= 2 && all_digits(s.take(k))
            && all_digits(s.skip(k + 1))
}

/// A sign, then at least one digit.
pub open spec fn is_exponent(s: Seq<char>) -> bool {
    unsigned(s).len() > 0 && all_digits(unsigned(s))
}

/// A mantissa, then optionally `e` or `E` and an exponent.
pub open spec fn is_plain_number(s: Seq<char>) -> bool {
    ||| is_mantissa(s)
    ||| exists|k: int|
        0 <= k < s.len() && is_exp_mark(#[trigger] s[k]) && is_mantissa(s.take(k)) && is_exponent(
            s.skip(k + 1),
        )
}

/// A number literal as Rust reads a float: an optional sign, then `inf`, `infinity`
/// or `nan` in any case, or digits with an optional decimal point and an optional
/// exponent.
pub open spec fn is_float(s: Seq<char>) -> bool {
    is_special(unsigned(s)) || is_plain_number(unsigned(s))
}

/// The first index in `lo..hi` at which `s` holds a decimal point (`e` is false) or
/// an exponent mark (`e` is true), or `hi`.
fn find_mark(s: &str, lo: usize, hi: usize, e: bool) -> (r: usize)
    requires
        lo <= hi <= s@.len(),
    ensures
        lo <= r <= hi,
        forall|i: int| lo <= i < r ==> !(if e { is_exp_mark(#[trigger] s@[i]) } else { s@[i] == '.' }),
        r < hi ==> (if e { is_exp_mark(s@[r as int]) } else { s@[r as int] == '.' }),
{
    let mut i = lo;
    while i < hi
        invariant
            lo <= i <= hi <= s@.len(),
            forall|k: int| lo <= k < i ==> !(if e { is_exp_mark(#[trigger] s@[k]) } else { s@[k] == '.' }),
        decreases hi - i,
    {
        let c = s.get_char(i);
        if (e && (c == 'e' || c == 'E')) || (!e && c == '.') {
            return i;
        }
        i = i + 1;
    }
    i
}

fn digits_in(s: &str, lo: usize, hi: usize) -> (r: bool)
    requires
        lo <= hi <= s@.len(),
    ensures
        r == all_digits(s@.subrange(lo as int, hi as int)),
{
    let mut i = lo;
    while i < hi
        invariant
            lo <= i <= hi <= s@.len(),
            forall|k: int| lo <= k < i ==> is_digit(#[trigger] s@[k]),
        decreases hi - i,
    {
        let c = s.get_char(i);
        if !('0' <= c && c <= '9') {
            assert(s@.subrange(lo as int, hi as int)[i - lo] == c);
            return false;
        }
        i = i + 1;
    }
    assert forall|k: int| 0 <= k < hi - lo implies is_digit(
        #[trigger] s@.subrange(lo as int, hi as int)[k],
    ) by {
        assert(s@.subrange(lo as int, hi as int)[k] == s@[lo + k]);
    }
    true
}

fn mantissa_in(s: &str, lo: usize, hi: usize) -> (r: bool)
    requires
        lo <= hi <= s@.len(),
    ensures
        r == is_mantissa(s@.subrange(lo as int, hi as int)),
{
    let ghost t = s@.subrange(lo as int, hi as int);
    let d = find_mark(s, lo, hi, false);
    if d == hi {
        let r = hi > lo && digits_in(s, lo, hi);
        assert forall|k: int| 0 <= k < t.len() implies #[trigger] t[k] != '.' by {
            assert(t[k] == s@[lo + k]);
        }
        r
    } else {
        let ghost k = d - lo;
        assert(t[k] == '.');
        assert(t.take(k) =~= s@.subrange(lo as int, d as int));
        assert(t.skip(k + 1) =~= s@.subrange(d + 1, hi as int));
        let r = hi - lo >= 2 && digits_in(s, lo, d) && digits_in(s, d + 1, hi);
        assert(!all_digits(t));
        if !r {
            assert forall|j: int|
                0 <= j < t.len() && #[trigger] t[j] == '.' && t.len() >= 2 && all_digits(t.take(j))
                    implies !all_digits(t.skip(j + 1)) by {
                if j < k {
                    assert(t[j] == s@[lo + j]);
                } else if j > k {
                    assert(t.take(j)[k] == '.');
                }
            }
        }
        r
    }
}

fn exponent_in(s: &str, lo: usize, hi: usize) -> (r: bool)
    requires
        lo <= hi <= s@.len(),
    ensures
        r == is_exponent(s@.subrange(lo as int, hi as int)),
{
    let ghost t = s@.subrange(lo as int, hi as int);
    let mut a = lo;
    if lo < hi {
        let c = s.get_char(lo);
        if c == '+' || c == '-' {
            a = lo + 1;
        }
    }
    assert(unsigned(t) =~= s@.subrange(a as int, hi as int));
    a < hi && digits_in(s, a, hi)
}

/// Whether `s` is `inf`, `infinity` or `nan` in any case between `lo` and `hi`.
fn special_in(s: &str, lo: usize, hi: usize) -> (r: bool)
    requires
        lo <= hi <= s@.len(),
    ensures
        r == is_special(s@.subrange(lo as int, hi as int)),
{
    let ghost t = s@.subrange(lo as int, hi as int);
    let n = hi - lo;
    let mut l: Vec<char> = Vec::new();
    let mut i: usize = 0;
    while i < n
        invariant
            n == hi - lo,
            lo <= hi <= s@.len(),
            i <= n,
            t == s@.subrange(lo as int, hi as int),
            l@ == lowered(t).take(i as int),
        decreases n - i,
    {
        let c = s.get_char(lo + i);
        let lc = if 'A' <= c && c <= 'Z' {
            ((c as u8) + 32) as char
        } else {
            c
        };
        assert(t[i as int] == c);
        assert(lc == lower(t[i as int]));
        l.push(lc);
        assert(l@ =~= lowered(t).take(i + 1));
        i = i + 1;
    }
    assert(l@ =~= lowered(t));
    let r = (n == 3 && l[0] == 'i' && l[1] == 'n' && l[2] == 'f') || (n == 8 && l[0] == 'i'
        && l[1] == 'n' && l[2] == 'f' && l[3] == 'i' && l[4] == 'n' && l[5] == 'i' && l[6] == 't'
        && l[7] == 'y') || (n == 3 && l[0] == 'n' && l[1] == 'a' && l[2] == 'n');
    proof {
        if r {
            if n == 3 && l[0] == 'i' {
                assert(l@ =~= seq!['i', 'n', 'f']);
            } else if n == 8 {
                assert(l@ =~= seq!['i', 'n', 'f', 'i', 'n', 'i', 't', 'y']);
            } else {
                assert(l@ =~= seq!['n', 'a', 'n']);
            }
        } else {
            assert(l@ != seq!['i', 'n', 'f'] || l@[0] == 'i');
            if l@ == seq!['i', 'n', 'f'] {
                assert(l@[1] == 'n' && l@[2] == 'f');
            }
            if l@ == seq!['n', 'a', 'n'] {
                assert(l@[0] == 'n' && l@[1] == 'a' && l@[2] == 'n');
            }
            if l@ == seq!['i', 'n', 'f', 'i', 'n', 'i', 't', 'y'] {
                assert(l@[7] == 'y');
            }
        }
    }
    r
}

/// Whether `s` is a number literal.
pub fn is_number(s: &str) -> (r: bool)
    ensures
        r == is_float(s@),
{
    let n = s.unicode_len();
    let mut a: usize = 0;
    if n > 0 {
        let c = s.get_char(0);
        if c == '+' || c == '-' {
            a = 1;
        }
    }
    let ghost u = unsigned(s@);
    assert(u =~= s@.subrange(a as int, n as int));
    if special_in(s, a, n) {
        return true;
    }
    let e = find_mark(s, a, n, true);
    if e == n {
        let r = mantissa_in(s, a, n);
        if !r {
            assert forall|k: int| 0 <= k < u.len() implies !is_exp_mark(#[trigger] u[k]) by {
                assert(u[k] == s@[a + k]);
            }
        }
        r
    } else {
        let ghost k = e - a;
        assert(is_exp_mark(u[k]));
        assert(u.take(k) =~= s@.subrange(a as int, e as int));
        assert(u.skip(k + 1) =~= s@.subrange(e + 1, n as int));
        let r = mantissa_in(s, a, e) && exponent_in(s, e + 1, n);
        proof {
            lemma_mantissa_chars(u);
            assert(!is_mantissa(u));
            if !r {
                assert forall|j: int|
                    0 <= j < u.len() && is_exp_mark(#[trigger] u[j]) && is_mantissa(u.take(j))
                        implies !is_exponent(u.skip(j + 1)) by {
                    if j < k {
                        assert(u[j] == s@[a + j]);
                    } else if j > k {
                        lemma_mantissa_chars(u.take(j));
                        assert(u.take(j)[k] == u[k]);
                    }
                }
            }
        }
        r
    }
}

/// A mantissa holds only digits and decimal points.
proof fn lemma_mantissa_chars(s: Seq<char>)
    ensures
        is_mantissa(s) ==> forall|i: int| 0 <= i < s.len() ==> !is_exp_mark(#[trigger] s[i]),
{
    if is_mantissa(s) && !(s.len() > 0 && all_digits(s)) {
        let k = choose|k: int|
            0 <= k < s.len() && #[trigger] s[k] == '.' && s.len() >= 2 && all_digits(s.take(k))
                && all_digits(s.skip(k + 1));
        assert forall|i: int| 0 <= i < s.len() implies !is_exp_mark(#[trigger] s[i]) by {
            if i < k {
                assert(s.take(k)[i] == s[i]);
            } else if i > k {
                assert(s.skip(k + 1)[i - k - 1] == s[i]);
            }
        }
    }
}

/// Whether `char::is_whitespace` holds of the non-ASCII character `c`.
pub uninterp spec fn whitespace_char(c: char) -> bool;

/// The ASCII characters with the Unicode White_Space property: space, tab, line
/// feed, vertical tab, form feed and carriage return.
pub open spec fn is_ascii_white(c: char) -> bool {
    c == ' ' || c == '\t' || c == '\n' || c == '\x0B' || c == '\x0C' || c == '\r'
}

/// Whether `c` has the Unicode White_Space property.
pub open spec fn is_space(c: char) -> bool {
    if (c as u32) < 128 {
        is_ascii_white(c)
    } else {
        whitespace_char(c)
    }
}

/// Relies on `char::is_whitespace`: true exactly for the characters with the Unicode
/// White_Space property, among which the ASCII ones are space, tab, line feed,
/// vertical tab, form feed and carriage return.
#[verifier::external_body]
fn is_whitespace(c: char) -> (r: bool)
    ensures
        (c as u32) < 128 ==> r == is_ascii_white(c),
        (c as u32) >= 128 ==> r == whitespace_char(c),
{
    c.is_whitespace()
}

/// `s` without its leading whitespace.
pub open spec fn trim_start(s: Seq<char>) -> Seq<char>
    decreases s.len(),
{
    if s.len() > 0 && is_space(s[0]) {
        trim_start(s.drop_first())
    } else {
        s
    }
}

/// `s` without its trailing whitespace.
pub open spec fn trim_end(s: Seq<char>) -> Seq<char>
    decreases s.len(),
{
    if s.len() > 0 && is_space(s.last()) {
        trim_end(s.drop_last())
    } else {
        s
    }
}

/// `s` without the whitespace at either end, as `str::trim` gives it.
pub open spec fn trim(s: Seq<char>) -> Seq<char> {
    trim_end(trim_start(s))
}

/// The bounds of `s` once the whitespace at either end is taken off.
pub fn trim_bounds(s: &str) -> (r: (usize, usize))
    ensures
        r.0 <= r.1 <= s@.len(),
        s@.subrange(r.0 as int, r.1 as int) == trim(s@),
{
    let n = s.unicode_len();
    let mut a: usize = 0;
    assert(s@.skip(0) =~= s@);
    while a < n && is_whitespace(s.get_char(a))
        invariant
            n == s@.len(),
            a <= n,
            trim_start(s@.skip(a as int)) == trim_start(s@),
        decreases n - a,
    {
        assert(s@.skip(a as int).drop_first() =~= s@.skip(a + 1));
        a = a + 1;
    }
    proof {
        assert(trim_start(s@.skip(a as int)) == s@.skip(a as int));
        assert(s@.skip(a as int) =~= s@.subrange(a as int, n as int));
    }
    let mut b: usize = n;
    while b > a && is_whitespace(s.get_char(b - 1))
        invariant
            n == s@.len(),
            a <= b <= n,
            trim_end(s@.subrange(a as int, b as int)) == trim(s@),
        decreases b,
    {
        assert(s@.subrange(a as int, b as int).drop_last() =~= s@.subrange(a as int, b - 1));
        b = b - 1;
    }
    (a, b)
}

} // verus!

verus! {

/// `s` without the whitespace at either end, as `str::trim` gives it.
pub fn trimmed(s: &str) -> (r: &str)
    ensures
        r@ == trim(s@),
{
    let (a, b) = trim_bounds(s);
    s.substring_char(a, b)
}

} // verus!
