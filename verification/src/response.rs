//! What a response gives the assertions: lowercased header names, the
//! cookies of its `Set-Cookie` headers, and its body as text and as JSON.

use vstd::prelude::*;
use crate::check::{ParsedCookie, ResponseData};
use crate::json::{json_parsed, parse_json_text};
use crate::request::pairs_of;
use crate::text::{
    index_of, split_all, split_once, split_once_str, split_str, to_lowercase, trim, trim_str,
    unicode_lowercase,
};

verus! {

/// The part of a `Set-Cookie` value before its first `;`.
pub open spec fn cookie_head(raw: Seq<char>) -> Seq<char> {
    match index_of(raw, ';') {
        Some(k) => raw.take(k),
        None => raw,
    }
}

/// The part of a `Set-Cookie` value after its first `;` (empty when there is
/// none).
pub open spec fn cookie_tail(raw: Seq<char>) -> Seq<char> {
    match index_of(raw, ';') {
        Some(k) => raw.skip(k + 1),
        None => seq![],
    }
}

/// The cookie's name and value: the trimmed head split at its first `=`,
/// both sides trimmed; a head without `=` is a name with an empty value.
pub open spec fn cookie_name_value(raw: Seq<char>) -> (Seq<char>, Seq<char>) {
    let nv = trim(cookie_head(raw));
    match split_once(nv, '=') {
        Some(p) => (trim(p.0), trim(p.1)),
        None => (nv, seq![]),
    }
}

/// One attribute: its lowercased name and its value, or nothing for an
/// empty part.
pub open spec fn attribute_of(part: Seq<char>) -> Option<(Seq<char>, Option<Seq<char>>)> {
    let p = trim(part);
    if p.len() == 0 {
        None
    } else {
        match split_once(p, '=') {
            Some(kv) => Some((unicode_lowercase(trim(kv.0)), Some(trim(kv.1)))),
            None => Some((unicode_lowercase(p), None)),
        }
    }
}

pub open spec fn attributes_of(parts: Seq<Seq<char>>) -> Seq<(Seq<char>, Option<Seq<char>>)>
    decreases parts.len(),
{
    if parts.len() == 0 {
        seq![]
    } else {
        let pre = attributes_of(parts.drop_last());
        match attribute_of(parts.last()) {
            Some(a) => pre.push(a),
            None => pre,
        }
    }
}

/// The attributes of a `Set-Cookie` value, in order: the `;`-separated parts
/// after the first `;`.
pub open spec fn cookie_attributes(raw: Seq<char>) -> Seq<(Seq<char>, Option<Seq<char>>)> {
    attributes_of(split_all(cookie_tail(raw), ';'))
}

pub open spec fn attrs_view(v: Seq<(String, Option<String>)>) -> Seq<
    (Seq<char>, Option<Seq<char>>),
> {
    v.map_values(
        |a: (String, Option<String>)|
            (
                a.0@,
                match a.1 {
                    Some(x) => Some(x@),
                    None => None,
                },
            ),
    )
}

/// A parsed cookie is the one `raw` describes.
pub open spec fn cookie_of(name: String, c: ParsedCookie, raw: Seq<char>) -> bool {
    &&& name@ == cookie_name_value(raw).0
    &&& c.value@ == cookie_name_value(raw).1
    &&& attrs_view(c.attributes@) == cookie_attributes(raw)
}

/// Parses a `Set-Cookie` value into its name and the cookie.
pub fn parse_set_cookie(raw: &str) -> (r: (String, ParsedCookie))
    ensures
        cookie_of(r.0, r.1, raw@),
{
    let (head, tail) = match split_once_str(raw, ';') {
        Some(p) => p,
        None => (String::from_str(raw), String::new()),
    };
    let name_val = trim_str(head.as_str());
    let (name, value) = match split_once_str(name_val.as_str(), '=') {
        Some((k, v)) => (trim_str(k.as_str()), trim_str(v.as_str())),
        None => (name_val, String::new()),
    };
    let parts = split_str(tail.as_str(), ';');
    let ghost pv = parts@.map_values(|x: String| x@);
    let mut attributes: Vec<(String, Option<String>)> = Vec::new();
    let mut i: usize = 0;
    while i < parts.len()
        invariant
            i <= parts.len(),
            pv == parts@.map_values(|x: String| x@),
            attrs_view(attributes@) == attributes_of(pv.take(i as int)),
        decreases parts.len() - i,
    {
        assert(pv.take(i + 1).drop_last() =~= pv.take(i as int));
        assert(pv.take(i + 1).last() == parts@[i as int]@);
        let ghost before = attrs_view(attributes@);
        let part = trim_str(parts[i].as_str());
        if !part.as_str().is_empty() {
            match split_once_str(part.as_str(), '=') {
                Some((k, v)) => {
                    let kt = trim_str(k.as_str());
                    let name_l = to_lowercase(kt.as_str());
                    let vt = trim_str(v.as_str());
                    attributes.push((name_l, Some(vt)));
                },
                None => {
                    let name_l = to_lowercase(part.as_str());
                    attributes.push((name_l, None));
                },
            }
            assert(attrs_view(attributes@) =~= before.push(
                attribute_of(parts@[i as int]@)->Some_0,
            ));
        }
        i += 1;
    }
    assert(pv.take(parts.len() as int) =~= pv);
    (name, ParsedCookie { value, attributes })
}

/// Header names in lowercase, the values as they are.
pub open spec fn lowered_names(h: Seq<(Seq<char>, Seq<char>)>) -> Seq<(Seq<char>, Seq<char>)> {
    h.map_values(|p: (Seq<char>, Seq<char>)| (unicode_lowercase(p.0), p.1))
}

/// What the assertions of a test are checked against, from what a response
/// gave: its status, its headers in order, the values of its `Set-Cookie`
/// headers, its body and how long it took.
pub fn response_data(
    status: u16,
    headers: &Vec<(String, String)>,
    set_cookies: &Vec<String>,
    body_raw: String,
    duration_ms: u128,
) -> (r: ResponseData)
    ensures
        r.status == status,
        pairs_of(r.headers@) == lowered_names(pairs_of(headers@)),
        r.cookies@.len() == set_cookies@.len(),
        forall|i: int|
            0 <= i < set_cookies@.len() ==> cookie_of(
                #[trigger] r.cookies@[i].0,
                r.cookies@[i].1,
                set_cookies@[i]@,
            ),
        r.body_raw@ == body_raw@,
        r.body_json == json_parsed(body_raw@),
        r.duration_ms == duration_ms,
{
    let mut hs: Vec<(String, String)> = Vec::new();
    let mut i: usize = 0;
    while i < headers.len()
        invariant
            i <= headers.len(),
            pairs_of(hs@) == lowered_names(pairs_of(headers@).take(i as int)),
        decreases headers.len() - i,
    {
        let ghost before = pairs_of(hs@);
        let k = to_lowercase(headers[i].0.as_str());
        hs.push((k, headers[i].1.clone()));
        assert(pairs_of(hs@) =~= before.push(
            (unicode_lowercase(headers@[i as int].0@), headers@[i as int].1@),
        ));
        assert(lowered_names(pairs_of(headers@).take(i + 1)) =~= lowered_names(
            pairs_of(headers@).take(i as int),
        ).push((unicode_lowercase(headers@[i as int].0@), headers@[i as int].1@)));
        i += 1;
    }
    assert(pairs_of(headers@).take(headers.len() as int) =~= pairs_of(headers@));
    let mut cookies: Vec<(String, ParsedCookie)> = Vec::new();
    let mut j: usize = 0;
    while j < set_cookies.len()
        invariant
            j <= set_cookies.len(),
            cookies@.len() == j,
            forall|k: int|
                0 <= k < j ==> cookie_of(
                    #[trigger] cookies@[k].0,
                    cookies@[k].1,
                    set_cookies@[k]@,
                ),
        decreases set_cookies.len() - j,
    {
        let c = parse_set_cookie(set_cookies[j].as_str());
        cookies.push(c);
        j += 1;
    }
    let body_json = parse_json_text(body_raw.as_str());
    ResponseData { status, headers: hs, cookies, body_raw, body_json, duration_ms }
}

} // verus!
