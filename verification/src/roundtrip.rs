//! Reading back what is displayed: a body path shown after `body.` parses
//! to the same segments, and an assert target's label parses to the same
//! target.

use vstd::prelude::*;
use crate::check::{path_text, target_text};
use crate::numbers::{all_digits, digit_value, digits_value, is_digit, parse_usize};
use crate::suite::ast::{SpecBodyTarget, SpecSegment, SpecTarget};
use crate::suite::helpers::{dotted_segments, part_segments, path_segments, target_of};
use crate::text::{decimal, digit_char, index_of, split_once, strip_prefix, strip_suffix, unicode_lowercase};

verus! {

/// `c` does not occur in `s`.
pub open spec fn lacks(s: Seq<char>, c: char) -> bool {
    forall|i: int| 0 <= i < s.len() ==> s[i] != c
}

/// A key that displays and parses back as itself: not empty, without `.`,
/// `[` or `]`.
pub open spec fn plain_key(k: Seq<char>) -> bool {
    k.len() > 0 && lacks(k, '.') && lacks(k, '[') && lacks(k, ']')
}

/// Segments whose display parses back: plain keys, and an index only first
/// or right after a key.
pub open spec fn displayable(segs: Seq<SpecSegment>) -> bool {
    &&& forall|i: int| 0 <= i < segs.len() ==> (#[trigger] segs[i] matches SpecSegment::Key(k) ==> plain_key(k))
    &&& forall|i: int| 0 < i < segs.len() ==> (#[trigger] segs[i] is Index ==> segs[i - 1] is Key)
}

/// One segment as displayed; a key has a `.` in front unless it is first.
pub open spec fn seg_text(x: SpecSegment, first: bool) -> Seq<char> {
    match x {
        SpecSegment::Key(k) => if first {
            k
        } else {
            seq!['.'] + k
        },
        SpecSegment::Index(n) => seq!['['] + decimal(n as nat) + seq![']'],
    }
}

pub open spec fn disp(segs: Seq<SpecSegment>, first: bool) -> Seq<char>
    decreases segs.len(),
{
    if segs.len() == 0 {
        seq![]
    } else {
        seg_text(segs[0], first) + disp(segs.drop_first(), false)
    }
}

proof fn lemma_digit_char(d: nat)
    requires
        d < 10,
    ensures
        is_digit(digit_char(d)),
        digit_value(digit_char(d)) == d,
{
}

proof fn lemma_decimal(n: nat)
    ensures
        decimal(n).len() >= 1,
        all_digits(decimal(n)),
        digits_value(decimal(n)) == n,
    decreases n,
{
    lemma_digit_char(n % 10);
    if n >= 10 {
        lemma_decimal(n / 10);
        let s = decimal(n);
        assert(s.drop_last() =~= decimal(n / 10));
        assert(s.last() == digit_char(n % 10));
        assert(digits_value(s) == digits_value(decimal(n / 10)) * 10 + digit_value(digit_char(n % 10)));
        assert((n / 10) * 10 + n % 10 == n) by (nonlinear_arith);
        assert forall|i: int| 0 <= i < s.len() implies is_digit(#[trigger] s[i]) by {
            if i < s.len() - 1 {
                assert(s[i] == decimal(n / 10)[i]);
            }
        }
    } else {
        assert(decimal(n) =~= seq![digit_char(n)]);
        assert(decimal(n).drop_last() =~= Seq::<char>::empty());
        assert(decimal(n).last() == digit_char(n));
        assert(digits_value(Seq::<char>::empty()) == 0);
    }
}

proof fn lemma_decimal_parses(n: usize)
    ensures
        parse_usize(decimal(n as nat)) == Some(n),
        lacks(decimal(n as nat), '.'),
        lacks(decimal(n as nat), '['),
        lacks(decimal(n as nat), ']'),
        decimal(n as nat).len() >= 1,
{
    lemma_decimal(n as nat);
    let d = decimal(n as nat);
    assert(is_digit(d[0]));
    assert forall|i: int| 0 <= i < d.len() implies d[i] != '.' && d[i] != '[' && d[i] != ']' by {
        assert(is_digit(d[i]));
    }
}

proof fn lemma_index_of_concat(a: Seq<char>, b: Seq<char>, c: char)
    requires
        lacks(a, c),
    ensures
        index_of(a + b, c) == (match index_of(b, c) {
            Some(k) => Some(k + a.len()),
            None => None::<int>,
        }),
    decreases a.len(),
{
    if a.len() == 0 {
        assert(a + b =~= b);
    } else {
        assert((a + b)[0] == a[0]);
        assert((a + b).drop_first() =~= a.drop_first() + b);
        lemma_index_of_concat(a.drop_first(), b, c);
    }
}

proof fn lemma_disp_push(s: Seq<SpecSegment>, x: SpecSegment, f: bool)
    ensures
        disp(s.push(x), f) == disp(s, f) + seg_text(x, f && s.len() == 0),
    decreases s.len(),
{
    if s.len() == 0 {
        assert(s.push(x) =~= seq![x]);
        assert(seq![x].drop_first() =~= Seq::<SpecSegment>::empty());
        assert(disp(Seq::<SpecSegment>::empty(), false) == Seq::<char>::empty());
        assert(seq![x][0] == x);
        assert(disp(s.push(x), f) == seg_text(x, f) + Seq::<char>::empty());
        assert(disp(s.push(x), f) =~= seg_text(x, f));
        assert(disp(s, f) == Seq::<char>::empty());
    } else {
        assert(s.push(x).drop_first() =~= s.drop_first().push(x));
        lemma_disp_push(s.drop_first(), x, false);
        assert(disp(s.push(x), f) =~= disp(s, f) + seg_text(x, false));
    }
}

proof fn lemma_path_text_disp(segs: Seq<SpecSegment>)
    ensures
        path_text(segs) == disp(segs, true),
    decreases segs.len(),
{
    reveal_strlit(".");
    reveal_strlit("[");
    reveal_strlit("]");
    if segs.len() > 0 {
        lemma_path_text_disp(segs.drop_last());
        lemma_disp_push(segs.drop_last(), segs.last(), true);
        assert(segs.drop_last().push(segs.last()) =~= segs);
        match segs.last() {
            SpecSegment::Key(k) => {
                assert(("."@ + k) =~= seq!['.'] + k);
            },
            SpecSegment::Index(n) => {
                assert("["@ + decimal(n as nat) + "]"@ =~= seq!['['] + decimal(n as nat) + seq![']']);
            },
        }
    }
}

proof fn lemma_dotted_one(p: Seq<char>)
    requires
        lacks(p, '.'),
    ensures
        dotted_segments(p) == part_segments(p),
{
    lemma_index_of_concat(p, seq![], '.');
    assert(p + Seq::<char>::empty() =~= p);
}

proof fn lemma_dotted_split(p: Seq<char>, t: Seq<char>)
    requires
        lacks(p, '.'),
    ensures
        dotted_segments(p + seq!['.'] + t) == part_segments(p) + dotted_segments(t),
{
    let s = p + (seq!['.'] + t);
    assert(p + seq!['.'] + t =~= s);
    lemma_index_of_concat(p, seq!['.'] + t, '.');
    assert((seq!['.'] + t)[0] == '.');
    assert(s.take(p.len() as int) =~= p);
    assert(s.skip(p.len() as int + 1) =~= t);
}

proof fn lemma_part_key(k: Seq<char>)
    requires
        plain_key(k),
    ensures
        part_segments(k) == seq![SpecSegment::Key(k)],
{
    lemma_index_of_concat(k, seq![], '[');
    assert(k + Seq::<char>::empty() =~= k);
}

proof fn lemma_part_key_index(k: Seq<char>, n: usize)
    requires
        plain_key(k),
    ensures
        lacks(k + seq!['['] + decimal(n as nat) + seq![']'], '.'),
        part_segments(k + seq!['['] + decimal(n as nat) + seq![']']) == seq![
            SpecSegment::Key(k),
            SpecSegment::Index(n),
        ],
{
    lemma_decimal_parses(n);
    let d = decimal(n as nat);
    let p = k + seq!['['] + d + seq![']'];
    let rest = d + seq![']'];
    assert(p =~= k + (seq!['['] + rest));
    lemma_index_of_concat(k, seq!['['] + rest, '[');
    assert((seq!['['] + rest)[0] == '[');
    assert(p.take(k.len() as int) =~= k);
    assert(p.skip(k.len() as int + 1) =~= rest);
    assert(split_once(p, '[') == Some((k, rest)));
    assert(rest.skip(rest.len() - 1) =~= seq![']']);
    assert(rest.take(rest.len() - 1) =~= d);
    assert(strip_suffix(rest, seq![']']) == Some(d));
    assert forall|i: int| 0 <= i < p.len() implies p[i] != '.' by {
        if i < k.len() {
            assert(p[i] == k[i]);
        } else if i > k.len() && i < k.len() + 1 + d.len() {
            assert(p[i] == d[i - k.len() - 1]);
        }
    }
}

proof fn lemma_disp_not_first(r: Seq<SpecSegment>)
    requires
        r.len() > 0,
        r[0] is Key,
    ensures
        disp(r, false) == seq!['.'] + disp(r, true),
{
    assert(disp(r, false) =~= seq!['.'] + disp(r, true));
}

proof fn lemma_displayable_skip(segs: Seq<SpecSegment>, j: int)
    requires
        displayable(segs),
        0 <= j <= segs.len(),
    ensures
        displayable(segs.skip(j)),
{
    let r = segs.skip(j);
    assert forall|i: int| 0 <= i < r.len() && (#[trigger] r[i] is Key) implies plain_key(r[i]->Key_0) by {
        assert(r[i] == segs[i + j]);
    }
    assert forall|i: int| 0 < i < r.len() && (#[trigger] r[i] is Index) implies r[i - 1] is Key by {
        assert(r[i] == segs[i + j]);
        assert(r[i - 1] == segs[i + j - 1]);
    }
}

#[verifier::rlimit(60)]
proof fn lemma_dotted_disp(segs: Seq<SpecSegment>)
    requires
        displayable(segs),
        segs.len() == 0 || segs[0] is Key,
    ensures
        dotted_segments(disp(segs, true)) == segs,
    decreases segs.len(),
{
    if segs.len() == 0 {
        lemma_dotted_one(seq![]);
        assert(part_segments(seq![]) =~= Seq::<SpecSegment>::empty());
    } else {
        let k = segs[0]->Key_0;
        assert(plain_key(k));
        if segs.len() >= 2 && segs[1] is Index {
            let n = segs[1]->Index_0;
            let d = decimal(n as nat);
            let part = k + seq!['['] + d + seq![']'];
            lemma_part_key_index(k, n);
            let rest2 = segs.skip(2);
            lemma_displayable_skip(segs, 2);
            let r1 = segs.drop_first();
            assert(r1.drop_first() =~= rest2);
            assert(disp(segs, true) == seg_text(segs[0], true) + disp(r1, false));
            assert(r1[0] == segs[1]);
            assert(disp(r1, false) == seg_text(r1[0], false) + disp(r1.drop_first(), false));
            assert(disp(segs, true) =~= k + (seq!['['] + d + seq![']'] + disp(rest2, false)));
            if rest2.len() == 0 {
                assert(disp(rest2, false) == Seq::<char>::empty());
                assert(disp(segs, true) =~= part);
                lemma_dotted_one(part);
                assert(segs =~= seq![SpecSegment::Key(k), SpecSegment::Index(n)]);
            } else {
                assert(rest2[0] == segs[2]);
                assert(segs[2] is Key);
                lemma_disp_not_first(rest2);
                assert(disp(segs, true) =~= part + seq!['.'] + disp(rest2, true));
                lemma_dotted_split(part, disp(rest2, true));
                lemma_dotted_disp(rest2);
                assert(segs =~= seq![SpecSegment::Key(k), SpecSegment::Index(n)] + rest2);
            }
        } else {
            let rest = segs.drop_first();
            lemma_part_key(k);
            lemma_displayable_skip(segs, 1);
            assert(segs.skip(1) =~= rest);
            assert(disp(segs, true) == seg_text(segs[0], true) + disp(rest, false));
            if rest.len() == 0 {
                assert(disp(rest, false) == Seq::<char>::empty());
                assert(disp(segs, true) =~= k);
                lemma_dotted_one(k);
                assert(segs =~= seq![SpecSegment::Key(k)]);
            } else {
                assert(rest[0] == segs[1]);
                lemma_disp_not_first(rest);
                assert(disp(segs, true) =~= k + seq!['.'] + disp(rest, true));
                lemma_dotted_split(k, disp(rest, true));
                lemma_dotted_disp(rest);
                assert(segs =~= seq![SpecSegment::Key(k)] + rest);
            }
        }
    }
}

/// A body path displayed after `body.` (keys joined by `.`, indices in
/// brackets) parses back to the same segments, when its keys are plain and
/// an index comes first or right after a key.
#[verifier::rlimit(60)]
pub proof fn law_path_round_trip(segs: Seq<SpecSegment>)
    requires
        displayable(segs),
    ensures
        path_segments(path_text(segs)) == segs,
{
    lemma_path_text_disp(segs);
    let s = disp(segs, true);
    if segs.len() == 0 {
        lemma_dotted_disp(segs);
    } else if segs[0] is Key {
        let k = segs[0]->Key_0;
        assert(plain_key(k));
        assert(s[0] == k[0]);
        lemma_dotted_disp(segs);
    } else {
        lemma_index_first(segs);
    }
}

#[verifier::rlimit(60)]
proof fn lemma_index_first(segs: Seq<SpecSegment>)
    requires
        displayable(segs),
        segs.len() > 0,
        segs[0] is Index,
    ensures
        path_segments(disp(segs, true)) == segs,
{
    let s = disp(segs, true);
    {
        let n = segs[0]->Index_0;
        lemma_decimal_parses(n);
        let d = decimal(n as nat);
        let rest = segs.drop_first();
        let tail = disp(rest, false);
        assert(s == seg_text(segs[0], true) + tail);
        assert(s =~= seq!['['] + (d + (seq![']'] + tail)));
        lemma_index_of_concat(seq!['['], d + (seq![']'] + tail), ']');
        lemma_index_of_concat(d, seq![']'] + tail, ']');
        assert((seq![']'] + tail)[0] == ']');
        let close: int = d.len() as int + 1;
        assert(index_of(s, ']') == Some(close));
        assert(s.subrange(1, close) =~= d);
        assert(s.skip(close + 1) =~= tail);
        lemma_displayable_skip(segs, 1);
        assert(segs.skip(1) =~= rest);
        assert(s.len() > 0 && s[0] == '[');
        assert(parse_usize(s.subrange(1, close)) == Some(n));
        if rest.len() == 0 {
            assert(tail == Seq::<char>::empty());
            assert(s.skip(close + 1).len() == 0);
            assert(path_segments(s) =~= seq![SpecSegment::Index(n)]);
            assert(segs =~= seq![SpecSegment::Index(n)]);
        } else {
            assert(rest[0] == segs[1]);
            assert(segs[1] is Key);
            lemma_disp_not_first(rest);
            assert(tail[0] == '.');
            let k = rest[0]->Key_0;
            assert(plain_key(k));
            assert(disp(rest, true)[0] == k[0]);
            assert(tail.drop_first() =~= disp(rest, true));
            lemma_dotted_disp(rest);
            assert(disp(rest, true).len() > 0);
            assert(path_segments(disp(rest, true)) == dotted_segments(disp(rest, true)));
            assert(path_segments(s) == seq![SpecSegment::Index(n)] + path_segments(disp(rest, true)));
            assert(segs =~= seq![SpecSegment::Index(n)] + rest);
        }
    }
}

/// Targets whose label parses back: a displayable body path, a lowercase
/// header name, a cookie name without `.` and a lowercase attribute.
pub open spec fn label_parses_back(t: SpecTarget) -> bool {
    match t {
        SpecTarget::Body(SpecBodyTarget::Path(segs)) => displayable(segs),
        SpecTarget::Header(n) => unicode_lowercase(n) == n,
        SpecTarget::Cookie(n, a) => lacks(n, '.') && match a {
            Some(x) => unicode_lowercase(x) == x,
            None => true,
        },
        _ => true,
    }
}

/// The label of an assert target (as messages show it) parses back to the
/// same target.
#[verifier::rlimit(60)]
pub proof fn law_target_round_trip(t: SpecTarget)
    requires
        label_parses_back(t),
    ensures
        target_of(target_text(t)) == Ok::<SpecTarget, Seq<char>>(t),
{
    reveal_strlit("status");
    reveal_strlit("duration");
    reveal_strlit("body");
    reveal_strlit("body.");
    reveal_strlit("header.");
    reveal_strlit("cookie.");
    reveal_strlit(".");
    let tok = target_text(t);
    match t {
        SpecTarget::Body(SpecBodyTarget::Path(segs)) => {
            law_path_round_trip(segs);
            assert(tok[4] == '.');
            assert(tok != "body"@);
            assert(tok.skip(5) =~= path_text(segs));
            assert(strip_prefix(tok, "body."@) == Some(path_text(segs)));
        },
        SpecTarget::Header(n) => {
            assert(tok[0] == 'h');
            assert(tok.skip(7) =~= n);
            assert(strip_prefix(tok, "header."@) == Some(n));
        },
        SpecTarget::Cookie(n, a) => {
            assert(tok[0] == 'c');
            match a {
                None => {
                    assert(tok.skip(7) =~= n);
                    assert(strip_prefix(tok, "cookie."@) == Some(n));
                    lemma_index_of_concat(n, seq![], '.');
                    assert(n + Seq::<char>::empty() =~= n);
                    assert(split_once(n, '.') is None);
                },
                Some(x) => {
                    let rest = n + seq!['.'] + x;
                    assert(tok.skip(7) =~= rest);
                    assert(strip_prefix(tok, "cookie."@) == Some(rest));
                    lemma_index_of_concat(n, seq!['.'] + x, '.');
                    assert(rest =~= n + (seq!['.'] + x));
                    assert((seq!['.'] + x)[0] == '.');
                    assert(index_of(seq!['.'] + x, '.') == Some(0int));
                    assert(index_of(rest, '.') == Some(n.len() as int));
                    assert(rest.take(n.len() as int) =~= n);
                    assert(rest.skip(n.len() as int + 1) =~= x);
                    assert(split_once(rest, '.') == Some((n, x)));
                },
            }
        },
        _ => {},
    }
}

} // verus!
