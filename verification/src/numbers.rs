//! Which texts std's number parsers accept: `usize`'s `FromStr` (with its
//! value) and `f64`'s `FromStr` (acceptance only; the value is never needed
//! here).

use vstd::prelude::*;
use crate::text::{chars_of, index_of, find_char};

verus! {

pub open spec fn is_digit(c: char) -> bool {
    '0' as u32 <= c as u32 <= '9' as u32
}

pub open spec fn digit_value(c: char) -> nat {
    (c as u32 - '0' as u32) as nat
}

pub open spec fn all_digits(s: Seq<char>) -> bool {
    forall|i: int| 0 <= i < s.len() ==> is_digit(#[trigger] s[i])
}

/// The value of a string of decimal digits.
pub open spec fn digits_value(s: Seq<char>) -> nat
    decreases s.len(),
{
    if s.len() == 0 {
        0
    } else {
        digits_value(s.drop_last()) * 10 + digit_value(s.last())
    }
}

/// `usize::from_str`: an optional `+`, then one or more decimal digits whose
/// value fits in a `usize`.
pub open spec fn parse_usize(s: Seq<char>) -> Option<usize> {
    let d = if s.len() > 0 && s[0] == '+' {
        s.drop_first()
    } else {
        s
    };
    if d.len() > 0 && all_digits(d) && digits_value(d) <= usize::MAX {
        Some(digits_value(d) as usize)
    } else {
        None
    }
}

pub proof fn lemma_digits_prefix_le(s: Seq<char>, k: int)
    requires
        0 <= k <= s.len(),
        all_digits(s),
    ensures
        digits_value(s.take(k)) <= digits_value(s),
    decreases s.len() - k,
{
    if k < s.len() {
        lemma_digits_prefix_le(s, k + 1);
        assert(s.take(k + 1).drop_last() =~= s.take(k));
    } else {
        assert(s.take(k) =~= s);
    }
}

fn is_digit_char(c: char) -> (b: bool)
    ensures
        b == is_digit(c),
{
    let u = c as u32;
    48 <= u && u <= 57
}

/// `v[lo..hi]` is made of decimal digits only.
fn range_all_digits(v: &Vec<char>, lo: usize, hi: usize) -> (b: bool)
    requires
        lo <= hi <= v.len(),
    ensures
        b == all_digits(v@.subrange(lo as int, hi as int)),
{
    let mut i = lo;
    while i < hi
        invariant
            lo <= i <= hi <= v.len(),
            forall|j: int| lo <= j < i ==> is_digit(v@[j]),
        decreases hi - i,
    {
        if !is_digit_char(v[i]) {
            assert(!is_digit(v@.subrange(lo as int, hi as int)[i - lo]));
            return false;
        }
        i += 1;
    }
    assert forall|j: int| 0 <= j < hi - lo implies is_digit(
        #[trigger] v@.subrange(lo as int, hi as int)[j],
    ) by {
        assert(v@.subrange(lo as int, hi as int)[j] == v@[lo + j]);
    }
    true
}

/// `usize::from_str` on `v[lo..hi]`.
pub fn parse_usize_range(v: &Vec<char>, lo: usize, hi: usize) -> (r: Option<usize>)
    requires
        lo <= hi <= v.len(),
    ensures
        r == parse_usize(v@.subrange(lo as int, hi as int)),
{
    let ghost s = v@.subrange(lo as int, hi as int);
    let start = if lo < hi && v[lo] == '+' {
        lo + 1
    } else {
        lo
    };
    let ghost d = v@.subrange(start as int, hi as int);
    assert(d =~= (if s.len() > 0 && s[0] == '+' {
        s.drop_first()
    } else {
        s
    }));
    if start == hi || !range_all_digits(v, start, hi) {
        return None;
    }
    let mut acc: u128 = 0;
    let mut i = start;
    while i < hi
        invariant
            lo <= start <= i <= hi <= v.len(),
            s == v@.subrange(lo as int, hi as int),
            d == v@.subrange(start as int, hi as int),
            all_digits(d),
            parse_usize(s) == (if digits_value(d) <= usize::MAX {
                Some(digits_value(d) as usize)
            } else {
                None
            }),
            acc == digits_value(v@.subrange(start as int, i as int)),
            acc <= usize::MAX,
        decreases hi - i,
    {
        assert(d[i - start] == v@[i as int]);
        assert(is_digit(v@[i as int]));
        let dv = (v[i] as u32 - 48) as u128;
        let ghost next = v@.subrange(start as int, i + 1);
        assert(next.drop_last() =~= v@.subrange(start as int, i as int));
        assert(next.last() == v@[i as int]);
        assert(digits_value(next) == digits_value(next.drop_last()) * 10 + digit_value(next.last()));
        assert(dv == digit_value(v@[i as int]));
        acc = acc * 10 + dv;
        assert(acc == digits_value(next));
        i += 1;
        if acc > usize::MAX as u128 {
            proof {
                assert(d.take(i - start) =~= v@.subrange(start as int, i as int));
                lemma_digits_prefix_le(d, i - start);
                assert(acc == digits_value(v@.subrange(start as int, i as int)));
                assert(digits_value(d) > usize::MAX);
            }
            return None;
        }
    }
    assert(v@.subrange(start as int, i as int) =~= d);
    Some(acc as usize)
}

/// ASCII lowercase of one character.
pub open spec fn ascii_lower(c: char) -> char {
    if 'A' as u32 <= c as u32 <= 'Z' as u32 {
        ((c as u32) + 32) as char
    } else {
        c
    }
}

/// The mantissa of a decimal float: digits with at most one `.`, and at least
/// one digit.
pub open spec fn is_mantissa(m: Seq<char>) -> bool {
    match index_of(m, '.') {
        None => m.len() > 0 && all_digits(m),
        Some(k) => all_digits(m.take(k)) && all_digits(m.skip(k + 1)) && (k > 0 || m.len() > k
            + 1),
    }
}

/// The exponent of a decimal float, after its `e`: an optional sign and one
/// or more digits.
pub open spec fn is_exponent(x: Seq<char>) -> bool {
    let y = if x.len() > 0 && (x[0] == '+' || x[0] == '-') {
        x.drop_first()
    } else {
        x
    };
    y.len() > 0 && all_digits(y)
}

/// `Number ::= ( Digit+ | Digit+ '.' Digit* | Digit* '.' Digit+ ) Exp?`
pub open spec fn is_decimal_float(l: Seq<char>) -> bool {
    match index_of(l, 'e') {
        None => is_mantissa(l),
        Some(k) => is_mantissa(l.take(k)) && is_exponent(l.skip(k + 1)),
    }
}

/// The texts that `f64::from_str` accepts, as its documentation gives them:
/// after ASCII lowercasing, an optional sign followed by `inf`, `infinity`,
/// `nan`, or a decimal number.
pub open spec fn is_float_text(s: Seq<char>) -> bool {
    let t = if s.len() > 0 && (s[0] == '+' || s[0] == '-') {
        s.drop_first()
    } else {
        s
    };
    let l = t.map_values(|c: char| ascii_lower(c));
    l == "inf"@ || l == "infinity"@ || l == "nan"@ || is_decimal_float(l)
}

fn lower_range(v: &Vec<char>, lo: usize, hi: usize) -> (r: Vec<char>)
    requires
        lo <= hi <= v.len(),
    ensures
        r@ == v@.subrange(lo as int, hi as int).map_values(|c: char| ascii_lower(c)),
{
    let mut r: Vec<char> = Vec::new();
    let mut i = lo;
    while i < hi
        invariant
            lo <= i <= hi <= v.len(),
            r@ == v@.subrange(lo as int, i as int).map_values(|c: char| ascii_lower(c)),
        decreases hi - i,
    {
        let c = v[i];
        let u = c as u32;
        let l = if 65 <= u && u <= 90 {
            char_from_u32_ascii(u + 32)
        } else {
            c
        };
        r.push(l);
        i += 1;
        assert(r@ =~= v@.subrange(lo as int, i as int).map_values(|c: char| ascii_lower(c)));
    }
    r
}

fn char_from_u32_ascii(u: u32) -> (c: char)
    requires
        97 <= u <= 122,
    ensures
        c == u as char,
        c as u32 == u,
{
    let c = (u as u8) as char;
    c
}

fn mantissa_ok(l: &Vec<char>, lo: usize, hi: usize) -> (b: bool)
    requires
        lo <= hi <= l.len(),
    ensures
        b == is_mantissa(l@.subrange(lo as int, hi as int)),
{
    let ghost m = l@.subrange(lo as int, hi as int);
    let k = find_char(l, lo, hi, '.');
    if k == hi {
        hi > lo && range_all_digits(l, lo, hi)
    } else {
        assert(m.take(k - lo) =~= l@.subrange(lo as int, k as int));
        assert(m.skip(k - lo + 1) =~= l@.subrange(k + 1, hi as int));
        range_all_digits(l, lo, k) && range_all_digits(l, k + 1, hi) && (k > lo || hi > k + 1)
    }
}

fn exponent_ok(l: &Vec<char>, lo: usize, hi: usize) -> (b: bool)
    requires
        lo <= hi <= l.len(),
    ensures
        b == is_exponent(l@.subrange(lo as int, hi as int)),
{
    let ghost x = l@.subrange(lo as int, hi as int);
    let start = if lo < hi && (l[lo] == '+' || l[lo] == '-') {
        lo + 1
    } else {
        lo
    };
    assert(l@.subrange(start as int, hi as int) =~= (if x.len() > 0 && (x[0] == '+' || x[0]
        == '-') {
        x.drop_first()
    } else {
        x
    }));
    start < hi && range_all_digits(l, start, hi)
}

/// Whether `f64::from_str` accepts `s`.
pub fn is_float(s: &str) -> (b: bool)
    ensures
        b == is_float_text(s@),
{
    let v = chars_of(s);
    let start = if v.len() > 0 && (v[0] == '+' || v[0] == '-') {
        1
    } else {
        0
    };
    assert(v@.subrange(start as int, v.len() as int) =~= (if s@.len() > 0 && (s@[0] == '+'
        || s@[0] == '-') {
        s@.drop_first()
    } else {
        s@
    }));
    let l = lower_range(&v, start, v.len());
    let inf = chars_of("inf");
    let infinity = chars_of("infinity");
    let nan = chars_of("nan");
    assert(l@.subrange(0, l.len() as int) =~= l@);
    if crate::text::range_eq(&l, 0, l.len(), &inf) || crate::text::range_eq(
        &l,
        0,
        l.len(),
        &infinity,
    ) || crate::text::range_eq(&l, 0, l.len(), &nan) {
        return true;
    }
    let k = find_char(&l, 0, l.len(), 'e');
    if k == l.len() {
        mantissa_ok(&l, 0, l.len())
    } else {
        assert(l@.take(k as int) =~= l@.subrange(0, k as int));
        assert(l@.skip(k + 1) =~= l@.subrange(k + 1, l.len() as int));
        mantissa_ok(&l, 0, k) && exponent_ok(&l, k + 1, l.len())
    }
}

} // verus!
