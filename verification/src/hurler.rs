//! A request object for the simple client: the URL with its scheme, an
//! optional body, and the query arguments and headers split into pairs.

use vstd::prelude::*;
use crate::error::WurlError;
use crate::request::{is_absolute_url, pairs_of, split_pairs, with_scheme};
use crate::text::{split_once, split_once_str};

verus! {

pub struct Ho {
    pub path: String,
    pub body: Option<String>,
    pub queries: Option<Vec<(String, String)>>,
    pub headers: Option<Vec<(String, String)>>,
}

pub open spec fn strs_view(v: Seq<&str>) -> Seq<Seq<char>> {
    v.map_values(|s: &str| s@)
}

/// Every item holds `c`.
pub open spec fn all_split(items: Seq<Seq<char>>, c: char) -> bool {
    forall|i: int| 0 <= i < items.len() ==> (#[trigger] split_once(items[i], c)) is Some
}

/// Splits every item at its first `c`; an item without `c` is refused with
/// the error `missing(..)` makes.
fn split_all_items(items: &[&str], c: char, query: bool) -> (r: Result<Vec<(String, String)>, WurlError>)
    ensures
        r is Ok <==> all_split(strs_view(items@), c),
        r matches Ok(v) ==> pairs_of(v@) == split_pairs(strs_view(items@), c),
        r matches Err(e) ==> (if query {
            e matches WurlError::Query(m) && m@ == "missing value"@
        } else {
            e matches WurlError::Header(m) && m@ == "missing value"@
        }),
{
    let mut out: Vec<(String, String)> = Vec::new();
    let mut i: usize = 0;
    while i < items.len()
        invariant
            i <= items.len(),
            all_split(strs_view(items@).take(i as int), c),
            pairs_of(out@) == split_pairs(strs_view(items@).take(i as int), c),
        decreases items.len() - i,
    {
        let ghost sv = strs_view(items@);
        assert(sv.take(i + 1).drop_last() =~= sv.take(i as int));
        assert(sv.take(i + 1).last() == items@[i as int]@);
        match split_once_str(items[i], c) {
            Some(p) => {
                let ghost before = pairs_of(out@);
                out.push(p);
                assert(pairs_of(out@) =~= before.push((out@.last().0@, out@.last().1@)));
                assert forall|j: int| 0 <= j < i + 1 implies (#[trigger] split_once(
                    sv.take(i + 1)[j],
                    c,
                )) is Some by {
                    if j < i {
                        assert(sv.take(i + 1)[j] == sv.take(i as int)[j]);
                    }
                }
            },
            None => {
                assert(split_once(sv[i as int], c) is None);
                let m = String::from_str("missing value");
                return if query {
                    Err(WurlError::Query(m))
                } else {
                    Err(WurlError::Header(m))
                };
            },
        }
        i += 1;
    }
    assert(strs_view(items@).take(items.len() as int) =~= strs_view(items@));
    Ok(out)
}

impl Ho {
    /// A request object: `http://` is put in front of a path without a
    /// scheme; queries are `key=value` and headers `key:value`.
    pub fn new(path: String, body: Option<String>, queries: &[&str], headers: &[&str]) -> (r: Result<Ho, WurlError>)
        ensures
            r is Ok <==> all_split(strs_view(queries@), '=') && all_split(strs_view(headers@), ':'),
            r matches Ok(ho) ==> {
                &&& ho.path@ == (if is_absolute_url(path@) {
                    path@
                } else {
                    "http://"@ + path@
                })
                &&& ho.body == body
                &&& ho.queries matches Some(q) && pairs_of(q@) == split_pairs(strs_view(queries@), '=')
                &&& ho.headers matches Some(h) && pairs_of(h@) == split_pairs(strs_view(headers@), ':')
            },
            r matches Err(e) ==> if !all_split(strs_view(queries@), '=') {
                e matches WurlError::Query(m) && m@ == "missing value"@
            } else {
                e matches WurlError::Header(m) && m@ == "missing value"@
            },
    {
        let path = with_scheme(path);
        let queries = match Ho::get_queries(queries) {
            Ok(q) => q,
            Err(e) => {
                return Err(e);
            },
        };
        let headers = match Ho::get_headers(headers) {
            Ok(h) => h,
            Err(e) => {
                return Err(e);
            },
        };
        Ok(Ho { path, body, queries: Some(queries), headers: Some(headers) })
    }

    /// Query arguments `key=value` as pairs; an argument without `=` is
    /// refused.
    pub fn get_queries(queries: &[&str]) -> (r: Result<Vec<(String, String)>, WurlError>)
        ensures
            r is Ok <==> all_split(strs_view(queries@), '='),
            r matches Ok(v) ==> pairs_of(v@) == split_pairs(strs_view(queries@), '='),
            r matches Err(e) ==> (e matches WurlError::Query(m) && m@ == "missing value"@),
    {
        split_all_items(queries, '=', true)
    }

    /// Headers `key:value` as pairs; a header without `:` is refused.
    pub fn get_headers(headers: &[&str]) -> (r: Result<Vec<(String, String)>, WurlError>)
        ensures
            r is Ok <==> all_split(strs_view(headers@), ':'),
            r matches Ok(v) ==> pairs_of(v@) == split_pairs(strs_view(headers@), ':'),
            r matches Err(e) ==> (e matches WurlError::Header(m) && m@ == "missing value"@),
    {
        split_all_items(headers, ':', false)
    }
}

} // verus!
