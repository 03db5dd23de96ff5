//! Assert targets (`status`, `body.a[0]`, `header.x`, `cookie.c.attr`, ...)
//! and the dotted JSON paths inside them.

use vstd::prelude::*;
use super::ast::{
    AssertTarget, BodyTarget, PathSegment, SpecBodyTarget, SpecSegment, SpecTarget, segments_view,
};
use crate::numbers::{parse_usize, parse_usize_range};
use crate::text::{
    chars_of, debug_quoted, debug_str, find_char, index_of, lemma_index_of_range, push_str,
    range_starts_with, split_once, str_eq, string_of_range, strip_prefix, strip_suffix,
    to_lowercase, unicode_lowercase,
};

verus! {

/// The segments that one dot-separated part of a path contributes: an empty
/// part contributes none; `key[n]` contributes the key (when not empty) and
/// the index (when `n` is a `usize`); anything else is a key.
pub open spec fn part_segments(p: Seq<char>) -> Seq<SpecSegment> {
    if p.len() == 0 {
        seq![]
    } else {
        match split_once(p, '[') {
            Some((key, rest)) => {
                let k = if key.len() > 0 {
                    seq![SpecSegment::Key(key)]
                } else {
                    seq![]
                };
                let i = match strip_suffix(rest, seq![']']) {
                    Some(ix) => match parse_usize(ix) {
                        Some(n) => seq![SpecSegment::Index(n)],
                        None => seq![],
                    },
                    None => seq![],
                };
                k + i
            },
            None => seq![SpecSegment::Key(p)],
        }
    }
}

/// The segments of a path split on every `.`.
pub open spec fn dotted_segments(s: Seq<char>) -> Seq<SpecSegment>
    decreases s.len(),
{
    match index_of(s, '.') {
        None => part_segments(s),
        Some(k) => {
            proof {
                lemma_index_of_range(s, '.');
            }
            part_segments(s.take(k)) + dotted_segments(s.skip(k + 1))
        },
    }
}

/// A dot-separated path with bracket indices: `user.name`, `items[0]`,
/// `[0].id`. A leading `[n]` (with a closing bracket somewhere) is read as an
/// index, the `.` after it is dropped and the rest is read again.
pub open spec fn path_segments(s: Seq<char>) -> Seq<SpecSegment>
    decreases s.len(),
{
    if s.len() > 0 && s[0] == '[' && index_of(s, ']') is Some {
        let close = index_of(s, ']')->0;
        proof {
            lemma_index_of_range(s, ']');
        }
        let rest0 = s.skip(close + 1);
        let rest = if rest0.len() > 0 && rest0[0] == '.' {
            rest0.drop_first()
        } else {
            rest0
        };
        let first = match parse_usize(s.subrange(1, close)) {
            Some(n) => seq![SpecSegment::Index(n)],
            None => seq![],
        };
        first + (if rest.len() > 0 {
            path_segments(rest)
        } else {
            seq![]
        })
    } else {
        dotted_segments(s)
    }
}

/// What an assert target token stands for, or the error for an unknown one.
/// Header names and cookie attributes are lowercased.
pub open spec fn target_of(tok: Seq<char>) -> Result<SpecTarget, Seq<char>> {
    if tok == "status"@ {
        Ok(SpecTarget::Status)
    } else if tok == "duration"@ {
        Ok(SpecTarget::Duration)
    } else if tok == "body"@ {
        Ok(SpecTarget::Body(SpecBodyTarget::Raw))
    } else if strip_prefix(tok, "body."@) is Some {
        Ok(SpecTarget::Body(SpecBodyTarget::Path(path_segments(strip_prefix(tok, "body."@)->0))))
    } else if strip_prefix(tok, "body"@) is Some && strip_prefix(tok, "body"@)->0.len() > 0
        && strip_prefix(tok, "body"@)->0[0] == '[' {
        Ok(SpecTarget::Body(SpecBodyTarget::Path(path_segments(strip_prefix(tok, "body"@)->0))))
    } else if strip_prefix(tok, "header."@) is Some {
        Ok(SpecTarget::Header(unicode_lowercase(strip_prefix(tok, "header."@)->0)))
    } else if strip_prefix(tok, "cookie."@) is Some {
        let rest = strip_prefix(tok, "cookie."@)->0;
        match split_once(rest, '.') {
            Some((name, attr)) => Ok(SpecTarget::Cookie(name, Some(unicode_lowercase(attr)))),
            None => Ok(SpecTarget::Cookie(rest, None)),
        }
    } else {
        Err("unknown assert target: "@ + debug_quoted(tok))
    }
}

fn push_segs(segs: &mut Vec<PathSegment>, more: Vec<PathSegment>)
    ensures
        segments_view(final(segs)@) == segments_view(old(segs)@) + segments_view(more@),
{
    let mut more = more;
    let ghost m = more@;
    segs.append(&mut more);
    assert(segments_view(segs@) =~= segments_view(old(segs)@) + segments_view(m));
}

/// The segments of the part `v[lo..hi]`.
fn part_segs(v: &Vec<char>, lo: usize, hi: usize) -> (r: Vec<PathSegment>)
    requires
        lo <= hi <= v.len(),
    ensures
        segments_view(r@) == part_segments(v@.subrange(lo as int, hi as int)),
{
    let ghost p = v@.subrange(lo as int, hi as int);
    let mut r: Vec<PathSegment> = Vec::new();
    if lo == hi {
        assert(segments_view(r@) =~= seq![]);
        return r;
    }
    let k = find_char(v, lo, hi, '[');
    if k == hi {
        r.push(PathSegment::Key(string_of_range(v, lo, hi)));
        assert(segments_view(r@) =~= part_segments(p));
        return r;
    }
    assert(p.take(k - lo) =~= v@.subrange(lo as int, k as int));
    assert(p.skip(k - lo + 1) =~= v@.subrange(k + 1, hi as int));
    if k > lo {
        r.push(PathSegment::Key(string_of_range(v, lo, k)));
    }
    let ghost rest = v@.subrange(k + 1, hi as int);
    if hi > k + 1 && v[hi - 1] == ']' {
        assert(rest.skip(rest.len() - 1) =~= seq![']']);
        assert(rest.take(rest.len() - 1) =~= v@.subrange(k + 1, hi - 1));
        match parse_usize_range(v, k + 1, hi - 1) {
            Some(n) => {
                r.push(PathSegment::Index(n));
            },
            None => {},
        }
    } else {
        assert(strip_suffix(rest, seq![']']) is None) by {
            if rest.len() >= 1 {
                assert(rest.skip(rest.len() - 1)[0] == rest[rest.len() - 1]);
            }
        };
    }
    assert(segments_view(r@) =~= part_segments(p));
    r
}

/// `dotted_segments(v[lo..hi])`.
fn dotted_segs(v: &Vec<char>, lo: usize, hi: usize) -> (r: Vec<PathSegment>)
    requires
        lo <= hi <= v.len(),
    ensures
        segments_view(r@) == dotted_segments(v@.subrange(lo as int, hi as int)),
{
    let mut r: Vec<PathSegment> = Vec::new();
    let mut p = lo;
    loop
        invariant_except_break
            lo <= p <= hi <= v.len(),
            segments_view(r@) + dotted_segments(v@.subrange(p as int, hi as int))
                == dotted_segments(v@.subrange(lo as int, hi as int)),
        ensures
            segments_view(r@) == dotted_segments(v@.subrange(lo as int, hi as int)),
        decreases hi - p,
    {
        let ghost s = v@.subrange(p as int, hi as int);
        let k = find_char(v, p, hi, '.');
        if k == hi {
            let seg = part_segs(v, p, hi);
            push_segs(&mut r, seg);
            break ;
        }
        assert(s.take(k - p) =~= v@.subrange(p as int, k as int));
        assert(s.skip(k - p + 1) =~= v@.subrange(k + 1, hi as int));
        let seg = part_segs(v, p, k);
        push_segs(&mut r, seg);
        p = k + 1;
    }
    r
}

/// `path_segments(v[lo..hi])`.
fn path_segs(v: &Vec<char>, lo: usize, hi: usize) -> (r: Vec<PathSegment>)
    requires
        lo <= hi <= v.len(),
    ensures
        segments_view(r@) == path_segments(v@.subrange(lo as int, hi as int)),
    decreases hi - lo,
{
    let ghost s = v@.subrange(lo as int, hi as int);
    if lo < hi && v[lo] == '[' {
        let close = find_char(v, lo, hi, ']');
        if close < hi {
            proof {
                lemma_index_of_range(s, ']');
            }
            assert(close > lo);
            let mut segs: Vec<PathSegment> = Vec::new();
            assert(s.subrange(1, close - lo) =~= v@.subrange(lo + 1, close as int));
            match parse_usize_range(v, lo + 1, close) {
                Some(n) => {
                    segs.push(PathSegment::Index(n));
                },
                None => {},
            }
            let ghost first = segments_view(segs@);
            assert(s.skip(close - lo + 1) =~= v@.subrange(close + 1, hi as int));
            let rest_start = if close + 1 < hi && v[close + 1] == '.' {
                close + 2
            } else {
                close + 1
            };
            let ghost rest0 = s.skip(close - lo + 1);
            assert(v@.subrange(rest_start as int, hi as int) =~= (if rest0.len() > 0 && rest0[0]
                == '.' {
                rest0.drop_first()
            } else {
                rest0
            }));
            if rest_start < hi {
                let more = path_segs(v, rest_start, hi);
                push_segs(&mut segs, more);
            }
            assert(segments_view(segs@) =~= path_segments(s));
            return segs;
        }
    }
    dotted_segs(v, lo, hi)
}

/// Parse a dot-separated path, handling bracket index notation.
/// e.g. `"user.name"` → `[Key("user"), Key("name")]`
///      `"items[0]"` → `[Key("items"), Index(0)]`
///      `"[0].id"` → `[Index(0), Key("id")]`
pub fn parse_path(path: &str) -> (r: Vec<PathSegment>)
    ensures
        segments_view(r@) == path_segments(path@),
{
    let v = chars_of(path);
    assert(v@.subrange(0, v.len() as int) =~= v@);
    path_segs(&v, 0, v.len())
}

/// The assert target a token names (see `target_of`).
pub fn parse_target(tok: &str) -> (r: Result<AssertTarget, String>)
    ensures
        match r {
            Ok(t) => target_of(tok@) == Ok::<SpecTarget, Seq<char>>(t@),
            Err(e) => target_of(tok@) == Err::<SpecTarget, Seq<char>>(e@),
        },
{
    let v = chars_of(tok);
    let n = v.len();
    assert(v@.subrange(0, n as int) =~= v@);
    if str_eq(tok, "status") {
        return Ok(AssertTarget::Status);
    }
    if str_eq(tok, "duration") {
        return Ok(AssertTarget::Duration);
    }
    if str_eq(tok, "body") {
        return Ok(AssertTarget::Body(BodyTarget::Raw));
    }
    let body_dot = chars_of("body.");
    if range_starts_with(&v, 0, n, &body_dot) {
        return Ok(AssertTarget::Body(BodyTarget::Path(path_segs(&v, body_dot.len(), n))));
    }
    let body = chars_of("body");
    if range_starts_with(&v, 0, n, &body) && body.len() < n && v[body.len()] == '[' {
        assert(tok@.skip(body.len() as int)[0] == v@[body.len() as int]);
        return Ok(AssertTarget::Body(BodyTarget::Path(path_segs(&v, body.len(), n))));
    }
    let header = chars_of("header.");
    if range_starts_with(&v, 0, n, &header) {
        let name = string_of_range(&v, header.len(), n);
        return Ok(AssertTarget::Header(to_lowercase(name.as_str())));
    }
    let cookie = chars_of("cookie.");
    if range_starts_with(&v, 0, n, &cookie) {
        let ghost rest = tok@.skip(cookie.len() as int);
        assert(rest =~= v@.subrange(cookie.len() as int, n as int));
        let dot = find_char(&v, cookie.len(), n, '.');
        if dot < n {
            assert(rest.take(dot - cookie.len()) =~= v@.subrange(cookie.len() as int, dot as int));
            assert(rest.skip(dot - cookie.len() + 1) =~= v@.subrange(dot + 1, n as int));
            let name = string_of_range(&v, cookie.len(), dot);
            let attr = string_of_range(&v, dot + 1, n);
            return Ok(AssertTarget::Cookie(name, Some(to_lowercase(attr.as_str()))));
        }
        return Ok(AssertTarget::Cookie(string_of_range(&v, cookie.len(), n), None));
    }
    let mut msg = String::from_str("unknown assert target: ");
    let d = debug_str(tok);
    push_str(&mut msg, d.as_str());
    Err(msg)
}

} // verus!
