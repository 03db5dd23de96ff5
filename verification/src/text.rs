//! Character-level helpers shared by the lexers, the preprocessor and the
//! request-line tools: whitespace classes, trimming, splitting, searching,
//! and the conversions between `&str`, `String` and `Vec<char>`.

use vstd::prelude::*;

verus! {

/// `String::push` appends one character to the end of the string.
pub assume_specification[ std::string::String::push ](s: &mut std::string::String, ch: char)
    ensures
        final(s)@ == old(s)@.push(ch),
;

/// The name of what `str::to_lowercase` returns for a string: the Unicode
/// lowercase mapping of every character (with the final-sigma rule).
pub uninterp spec fn unicode_lowercase(s: Seq<char>) -> Seq<char>;

/// Calls `str::to_lowercase`; the contract only names its result, which
/// depends on the argument alone.
#[verifier::external_body]
pub fn to_lowercase(s: &str) -> (r: String)
    ensures
        r@ == unicode_lowercase(s@),
{
    s.to_lowercase()
}

/// The name of what `{:?}` (the `Debug` impl of `str`) writes for a string:
/// the string between double quotes, with `char::escape_debug` applied.
pub uninterp spec fn debug_quoted(s: Seq<char>) -> Seq<char>;

/// Formats a string with `format!("{:?}", s)`; the contract only names its
/// result, which depends on the argument alone.
#[verifier::external_body]
pub fn debug_str(s: &str) -> (r: String)
    ensures
        r@ == debug_quoted(s@),
{
    format!("{:?}", s)
}

/// `u8::is_ascii_whitespace`, read on a character: tab, line feed, form feed,
/// carriage return and space.
pub open spec fn is_ascii_ws(c: char) -> bool {
    c == '\t' || c == '\n' || c == '\x0C' || c == '\r' || c == ' '
}

/// `char::is_whitespace`: the characters with the Unicode `White_Space`
/// property.
pub open spec fn is_unicode_ws(c: char) -> bool {
    let u = c as u32;
    (0x09 <= u <= 0x0d) || u == 0x20 || u == 0x85 || u == 0xa0 || u == 0x1680 || (0x2000 <= u
        <= 0x200a) || u == 0x2028 || u == 0x2029 || u == 0x202f || u == 0x205f || u == 0x3000
}

pub fn ascii_ws(c: char) -> (b: bool)
    ensures
        b == is_ascii_ws(c),
{
    c == '\t' || c == '\n' || c == '\x0C' || c == '\r' || c == ' '
}

pub fn unicode_ws(c: char) -> (b: bool)
    ensures
        b == is_unicode_ws(c),
{
    let u = c as u32;
    (0x09 <= u && u <= 0x0d) || u == 0x20 || u == 0x85 || u == 0xa0 || u == 0x1680 || (0x2000
        <= u && u <= 0x200a) || u == 0x2028 || u == 0x2029 || u == 0x202f || u == 0x205f || u
        == 0x3000
}

/// `s` with its leading Unicode whitespace removed (`str::trim_start`).
pub open spec fn trim_start(s: Seq<char>) -> Seq<char>
    decreases s.len(),
{
    if s.len() > 0 && is_unicode_ws(s[0]) {
        trim_start(s.drop_first())
    } else {
        s
    }
}

/// `s` with its trailing Unicode whitespace removed (`str::trim_end`).
pub open spec fn trim_end(s: Seq<char>) -> Seq<char>
    decreases s.len(),
{
    if s.len() > 0 && is_unicode_ws(s.last()) {
        trim_end(s.drop_last())
    } else {
        s
    }
}

/// `str::trim`.
pub open spec fn trim(s: Seq<char>) -> Seq<char> {
    trim_end(trim_start(s))
}

/// The index of the first occurrence of `c` in `s`.
pub open spec fn index_of(s: Seq<char>, c: char) -> Option<int>
    decreases s.len(),
{
    if s.len() == 0 {
        None
    } else if s[0] == c {
        Some(0)
    } else {
        match index_of(s.drop_first(), c) {
            Some(k) => Some(k + 1),
            None => None,
        }
    }
}

/// `str::split_once` with a character pattern.
pub open spec fn split_once(s: Seq<char>, c: char) -> Option<(Seq<char>, Seq<char>)> {
    match index_of(s, c) {
        Some(k) => Some((s.take(k), s.skip(k + 1))),
        None => None,
    }
}

/// `str::strip_prefix`.
pub open spec fn strip_prefix(s: Seq<char>, p: Seq<char>) -> Option<Seq<char>> {
    if p.is_prefix_of(s) {
        Some(s.skip(p.len() as int))
    } else {
        None
    }
}

/// `str::strip_suffix`.
pub open spec fn strip_suffix(s: Seq<char>, p: Seq<char>) -> Option<Seq<char>> {
    if p.len() <= s.len() && s.skip(s.len() - p.len()) == p {
        Some(s.take(s.len() - p.len()))
    } else {
        None
    }
}

/// `p` occurs in `s` starting at index `i`.
pub open spec fn occurs_at(s: Seq<char>, p: Seq<char>, i: int) -> bool {
    0 <= i && i + p.len() <= s.len() && s.subrange(i, i + p.len()) == p
}

/// `str::contains` with a string pattern.
pub open spec fn contains(s: Seq<char>, p: Seq<char>) -> bool {
    exists|i: int| occurs_at(s, p, i)
}

/// `str::replace`: every non-overlapping occurrence of `from`, found from left
/// to right, is replaced by `to`; an empty pattern matches at every character
/// boundary.
pub open spec fn replace_all(s: Seq<char>, from: Seq<char>, to: Seq<char>) -> Seq<char>
    decreases s.len(),
{
    if from.len() == 0 {
        if s.len() == 0 {
            to
        } else {
            to + seq![s[0]] + replace_all(s.drop_first(), from, to)
        }
    } else if from.is_prefix_of(s) {
        to + replace_all(s.skip(from.len() as int), from, to)
    } else if s.len() == 0 {
        s
    } else {
        seq![s[0]] + replace_all(s.drop_first(), from, to)
    }
}

/// The decimal digits of `n`, as `u64`'s `Display` writes them.
pub open spec fn decimal(n: nat) -> Seq<char>
    decreases n,
{
    if n < 10 {
        seq![digit_char(n)]
    } else {
        decimal(n / 10) + seq![digit_char(n % 10)]
    }
}

pub open spec fn digit_char(d: nat) -> char {
    if d == 0 {
        '0'
    } else if d == 1 {
        '1'
    } else if d == 2 {
        '2'
    } else if d == 3 {
        '3'
    } else if d == 4 {
        '4'
    } else if d == 5 {
        '5'
    } else if d == 6 {
        '6'
    } else if d == 7 {
        '7'
    } else if d == 8 {
        '8'
    } else {
        '9'
    }
}

/// `parts` joined with `sep` between consecutive parts (`[String]::join`).
pub open spec fn join(parts: Seq<Seq<char>>, sep: Seq<char>) -> Seq<char>
    decreases parts.len(),
{
    if parts.len() == 0 {
        seq![]
    } else if parts.len() == 1 {
        parts[0]
    } else {
        join(parts.drop_last(), sep) + sep + parts.last()
    }
}

pub fn chars_of(s: &str) -> (v: Vec<char>)
    ensures
        v@ == s@,
{
    let mut v: Vec<char> = Vec::new();
    for c in it: s.chars()
        invariant
            v@ == it.seq().take(it.index() as int),
    {
        v.push(c);
    }
    v
}

/// The string made of `v[lo..hi]`.
pub fn string_of_range(v: &Vec<char>, lo: usize, hi: usize) -> (s: String)
    requires
        lo <= hi <= v.len(),
    ensures
        s@ == v@.subrange(lo as int, hi as int),
{
    let mut s = String::new();
    let mut i: usize = lo;
    while i < hi
        invariant
            lo <= i <= hi <= v.len(),
            s@ == v@.subrange(lo as int, i as int),
        decreases hi - i,
    {
        s.push(v[i]);
        i += 1;
        assert(s@ =~= v@.subrange(lo as int, i as int));
    }
    s
}

pub fn string_of(v: &Vec<char>) -> (s: String)
    ensures
        s@ == v@,
{
    let s = string_of_range(v, 0, v.len());
    assert(v@.subrange(0, v.len() as int) =~= v@);
    s
}

/// `a[alo..ahi] == b`.
pub fn range_eq(a: &Vec<char>, alo: usize, ahi: usize, b: &Vec<char>) -> (r: bool)
    requires
        alo <= ahi <= a.len(),
    ensures
        r == (a@.subrange(alo as int, ahi as int) == b@),
{
    if ahi - alo != b.len() {
        return false;
    }
    let mut i: usize = 0;
    while i < b.len()
        invariant
            alo <= ahi <= a.len(),
            ahi - alo == b.len(),
            i <= b.len(),
            forall|j: int| 0 <= j < i ==> a@[alo + j] == b@[j],
        decreases b.len() - i,
    {
        if a[alo + i] != b[i] {
            assert(a@.subrange(alo as int, ahi as int)[i as int] != b@[i as int]);
            return false;
        }
        i += 1;
    }
    assert(a@.subrange(alo as int, ahi as int) =~= b@);
    true
}

/// String equality, read on the characters.
pub fn str_eq(a: &str, b: &str) -> (r: bool)
    ensures
        r == (a@ == b@),
{
    let av = chars_of(a);
    let bv = chars_of(b);
    let r = range_eq(&av, 0, av.len(), &bv);
    assert(av@.subrange(0, av.len() as int) =~= av@);
    r
}

/// `a[lo..hi]` starts with `p`.
pub fn range_starts_with(a: &Vec<char>, lo: usize, hi: usize, p: &Vec<char>) -> (r: bool)
    requires
        lo <= hi <= a.len(),
    ensures
        r == p@.is_prefix_of(a@.subrange(lo as int, hi as int)),
{
    if p.len() > hi - lo {
        return false;
    }
    let r = range_eq(a, lo, lo + p.len(), p);
    assert(a@.subrange(lo as int, hi as int).take(p.len() as int) =~= a@.subrange(
        lo as int,
        lo + p.len(),
    ));
    r
}

pub proof fn lemma_index_of_range(s: Seq<char>, c: char)
    ensures
        match index_of(s, c) {
            Some(k) => 0 <= k < s.len() && s[k] == c && forall|j: int| 0 <= j < k ==> s[j] != c,
            None => forall|j: int| 0 <= j < s.len() ==> s[j] != c,
        },
    decreases s.len(),
{
    if s.len() > 0 && s[0] != c {
        lemma_index_of_range(s.drop_first(), c);
        match index_of(s.drop_first(), c) {
            Some(k) => {
                assert forall|j: int| 0 <= j < k + 1 implies s[j] != c by {
                    if j > 0 {
                        assert(s[j] == s.drop_first()[j - 1]);
                    }
                }
            },
            None => {
                assert forall|j: int| 0 <= j < s.len() implies s[j] != c by {
                    if j > 0 {
                        assert(s[j] == s.drop_first()[j - 1]);
                    }
                }
            },
        }
    }
}

pub proof fn lemma_index_of_char(s: Seq<char>, c: char, k: int)
    requires
        0 <= k <= s.len(),
        k < s.len() ==> s[k] == c,
        forall|j: int| 0 <= j < k ==> s[j] != c,
    ensures
        index_of(s, c) == (if k < s.len() {
            Some(k)
        } else {
            None::<int>
        }),
{
    lemma_index_of_range(s, c);
    match index_of(s, c) {
        Some(m) => {
            if m < k {
            } else if m > k {
                assert(k < s.len() ==> s[k] == c);
            }
        },
        None => {
            if k < s.len() {
                assert(s[k] == c);
            }
        },
    }
}

/// The first index `k` in `lo..hi` with `v[k] == c`, or `hi` when there is none.
pub fn find_char(v: &Vec<char>, lo: usize, hi: usize, c: char) -> (k: usize)
    requires
        lo <= hi <= v.len(),
    ensures
        lo <= k <= hi,
        index_of(v@.subrange(lo as int, hi as int), c) == (if k < hi {
            Some(k - lo)
        } else {
            None::<int>
        }),
{
    let mut k = lo;
    while k < hi && v[k] != c
        invariant
            lo <= k <= hi <= v.len(),
            forall|j: int| lo <= j < k ==> v@[j] != c,
        decreases hi - k,
    {
        k += 1;
    }
    let ghost s = v@.subrange(lo as int, hi as int);
    proof {
        lemma_index_of_char(s, c, k - lo);
    }
    k
}

pub proof fn lemma_trim_start_is_suffix(s: Seq<char>)
    ensures
        exists|k: int| 0 <= k <= s.len() && trim_start(s) == s.skip(k) && (forall|j: int|
            0 <= j < k ==> is_unicode_ws(s[j])),
    decreases s.len(),
{
    if s.len() > 0 && is_unicode_ws(s[0]) {
        lemma_trim_start_is_suffix(s.drop_first());
        let k = choose|k: int|
            0 <= k <= s.drop_first().len() && trim_start(s.drop_first()) == s.drop_first().skip(k)
                && (forall|j: int| 0 <= j < k ==> is_unicode_ws(s.drop_first()[j]));
        assert(s.drop_first().skip(k) =~= s.skip(k + 1));
        assert forall|j: int| 0 <= j < k + 1 implies is_unicode_ws(s[j]) by {
            if j > 0 {
                assert(s[j] == s.drop_first()[j - 1]);
            }
        }
    } else {
        assert(s.skip(0) =~= s);
    }
}

/// Bounds `(a, b)` with `v[a..b] == trim(v[lo..hi])`.
pub fn trim_range(v: &Vec<char>, lo: usize, hi: usize) -> (r: (usize, usize))
    requires
        lo <= hi <= v.len(),
    ensures
        lo <= r.0 <= r.1 <= hi,
        v@.subrange(r.0 as int, r.1 as int) == trim(v@.subrange(lo as int, hi as int)),
{
    let mut a = lo;
    while a < hi && unicode_ws(v[a])
        invariant
            lo <= a <= hi <= v.len(),
            trim_start(v@.subrange(a as int, hi as int)) == trim_start(
                v@.subrange(lo as int, hi as int),
            ),
        decreases hi - a,
    {
        assert(v@.subrange(a as int, hi as int).drop_first() =~= v@.subrange(a + 1, hi as int));
        a += 1;
    }
    let mut b = hi;
    while b > a && unicode_ws(v[b - 1])
        invariant
            lo <= a <= b <= hi <= v.len(),
            trim_end(v@.subrange(a as int, b as int)) == trim(v@.subrange(lo as int, hi as int)),
        decreases b - a,
    {
        assert(v@.subrange(a as int, b as int).drop_last() =~= v@.subrange(a as int, b - 1));
        b -= 1;
    }
    (a, b)
}

/// `str::trim`, as an owned string.
pub fn trim_str(s: &str) -> (r: String)
    ensures
        r@ == trim(s@),
{
    let v = chars_of(s);
    let (a, b) = trim_range(&v, 0, v.len());
    assert(v@.subrange(0, v.len() as int) =~= v@);
    string_of_range(&v, a, b)
}

/// The decimal text of `n`.
pub fn u64_to_decimal(n: u64) -> (s: String)
    ensures
        s@ == decimal(n as nat),
    decreases n,
{
    let d = n % 10;
    let c = if d == 0 {
        '0'
    } else if d == 1 {
        '1'
    } else if d == 2 {
        '2'
    } else if d == 3 {
        '3'
    } else if d == 4 {
        '4'
    } else if d == 5 {
        '5'
    } else if d == 6 {
        '6'
    } else if d == 7 {
        '7'
    } else if d == 8 {
        '8'
    } else {
        '9'
    };
    if n < 10 {
        let mut s = String::new();
        s.push(c);
        assert(s@ =~= decimal(n as nat));
        s
    } else {
        let mut s = u64_to_decimal(n / 10);
        s.push(c);
        s
    }
}

/// Appends a string literal (or any `&str`) to `s`.
pub fn push_str(s: &mut String, t: &str)
    ensures
        final(s)@ == old(s)@ + t@,
{
    s.append(t);
}

/// `str::contains` on character vectors.
pub fn contains_chars(hay: &Vec<char>, needle: &Vec<char>) -> (r: bool)
    ensures
        r == contains(hay@, needle@),
{
    if needle.len() > hay.len() {
        proof {
            assert forall|i: int| !occurs_at(hay@, needle@, i) by {}
        }
        return false;
    }
    if needle.len() == 0 {
        assert(hay@.subrange(0, 0) =~= needle@);
        assert(occurs_at(hay@, needle@, 0));
        return true;
    }
    let mut i: usize = 0;
    while i <= hay.len() - needle.len()
        invariant
            0 < needle.len() <= hay.len(),
            i <= hay.len() - needle.len() + 1,
            forall|j: int| 0 <= j < i ==> !occurs_at(hay@, needle@, j),
        decreases hay.len() - needle.len() + 1 - i,
    {
        if range_eq(hay, i, i + needle.len(), needle) {
            assert(occurs_at(hay@, needle@, i as int));
            return true;
        }
        i += 1;
    }
    proof {
        assert forall|j: int| !occurs_at(hay@, needle@, j) by {
            if 0 <= j < i {
            }
        }
    }
    false
}

/// `str::split_once` with a character pattern, as owned strings.
pub fn split_once_str(s: &str, c: char) -> (r: Option<(String, String)>)
    ensures
        match split_once(s@, c) {
            Some(p) => r matches Some(q) && q.0@ == p.0 && q.1@ == p.1,
            None => r is None,
        },
{
    let v = chars_of(s);
    let k = find_char(&v, 0, v.len(), c);
    assert(v@.subrange(0, v.len() as int) =~= v@);
    if k < v.len() {
        let a = string_of_range(&v, 0, k);
        let b = string_of_range(&v, k + 1, v.len());
        assert(v@.take(k as int) =~= v@.subrange(0, k as int));
        assert(v@.skip(k + 1) =~= v@.subrange(k + 1, v.len() as int));
        Some((a, b))
    } else {
        None
    }
}

/// The pieces of `s` between the occurrences of `c` (`str::split` with a
/// character pattern): one more piece than there are occurrences.
pub open spec fn split_all(s: Seq<char>, c: char) -> Seq<Seq<char>>
    decreases s.len(),
{
    match index_of(s, c) {
        Some(k) => {
            proof {
                lemma_index_of_range(s, c);
            }
            seq![s.take(k)] + split_all(s.skip(k + 1), c)
        },
        None => seq![s],
    }
}

/// `str::split` with a character pattern, as owned strings.
pub fn split_str(s: &str, c: char) -> (r: Vec<String>)
    ensures
        r@.map_values(|x: String| x@) == split_all(s@, c),
{
    let v = chars_of(s);
    let mut r: Vec<String> = Vec::new();
    let mut pos: usize = 0;
    assert(v@.subrange(0, v.len() as int) =~= v@);
    loop
        invariant
            pos <= v.len(),
            v@ == s@,
            split_all(s@, c) == r@.map_values(|x: String| x@) + split_all(
                v@.subrange(pos as int, v.len() as int),
                c,
            ),
        decreases v.len() - pos,
    {
        let ghost rest = v@.subrange(pos as int, v.len() as int);
        let ghost before = r@.map_values(|x: String| x@);
        let k = find_char(&v, pos, v.len(), c);
        let piece = string_of_range(&v, pos, k);
        r.push(piece);
        assert(r@.map_values(|x: String| x@) =~= before.push(v@.subrange(pos as int, k as int)));
        if k == v.len() {
            assert(split_all(rest, c) == seq![rest]);
            assert(before + seq![rest] =~= before.push(rest));
            assert(r@.map_values(|x: String| x@) + seq![] =~= r@.map_values(|x: String| x@));
            assert(split_all(s@, c) =~= r@.map_values(|x: String| x@));
            return r;
        }
        assert(rest.take(k - pos) =~= v@.subrange(pos as int, k as int));
        assert(rest.skip(k - pos + 1) =~= v@.subrange(k + 1, v.len() as int));
        assert(before + (seq![v@.subrange(pos as int, k as int)] + split_all(
            v@.subrange(k + 1, v.len() as int),
            c,
        )) =~= before.push(v@.subrange(pos as int, k as int)) + split_all(
            v@.subrange(k + 1, v.len() as int),
            c,
        ));
        pos = k + 1;
    }
}

pub proof fn lemma_split_all_nonempty(s: Seq<char>, c: char)
    ensures
        split_all(s, c).len() >= 1,
    decreases s.len(),
{
    if let Some(k) = index_of(s, c) {
        lemma_index_of_range(s, c);
        lemma_split_all_nonempty(s.skip(k + 1), c);
    }
}

} // verus!
