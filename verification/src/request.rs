//! Request lines: splitting a line into argv-style words, the HTTP method,
//! the URL a request goes to, and the query, header and cookie values that
//! the request flags carry.

use vstd::prelude::*;
use crate::text::{
    chars_of, is_unicode_ws, join, lemma_trim_start_is_suffix, push_str, split_once,
    split_once_str, str_eq, string_of_range, to_lowercase, trim, trim_start, trim_str,
    unicode_lowercase, unicode_ws,
};
use crate::preproc::strings_view;
use crate::hurler::strs_view;
use crate::json_body::{body_members, json_text, parse_json, SpecNode};

verus! {

/// The text of a double-quoted word after its opening quote, and what follows
/// its closing quote: a backslash takes the next character literally; an
/// unterminated word runs to the end.
pub open spec fn read_escaped(s: Seq<char>) -> (Seq<char>, Seq<char>)
    decreases s.len(),
{
    if s.len() == 0 {
        (seq![], seq![])
    } else if s[0] == '"' {
        (seq![], s.drop_first())
    } else if s[0] == '\\' {
        if s.len() == 1 {
            (seq![], seq![])
        } else {
            let r = read_escaped(s.skip(2));
            (seq![s[1]] + r.0, r.1)
        }
    } else {
        let r = read_escaped(s.drop_first());
        (seq![s[0]] + r.0, r.1)
    }
}

/// The number of leading characters of `s` that are not whitespace.
pub open spec fn bare_len(s: Seq<char>) -> nat
    decreases s.len(),
{
    if s.len() == 0 || is_unicode_ws(s[0]) {
        0
    } else {
        1 + bare_len(s.drop_first())
    }
}

pub proof fn lemma_read_escaped_len(s: Seq<char>)
    ensures
        read_escaped(s).1.len() <= s.len(),
    decreases s.len(),
{
    if s.len() > 1 && s[0] == '\\' {
        lemma_read_escaped_len(s.skip(2));
    } else if s.len() > 0 && s[0] != '"' && s[0] != '\\' {
        lemma_read_escaped_len(s.drop_first());
    }
}

pub proof fn lemma_bare_len(s: Seq<char>)
    ensures
        bare_len(s) <= s.len(),
        s.len() > 0 && !is_unicode_ws(s[0]) ==> bare_len(s) > 0,
    decreases s.len(),
{
    if s.len() > 0 && !is_unicode_ws(s[0]) {
        lemma_bare_len(s.drop_first());
    }
}

pub proof fn lemma_trim_start_len(s: Seq<char>)
    ensures
        trim_start(s).len() <= s.len(),
        trim_start(s).len() > 0 ==> !is_unicode_ws(trim_start(s)[0]),
    decreases s.len(),
{
    lemma_trim_start_is_suffix(s);
    if s.len() > 0 && is_unicode_ws(s[0]) {
        lemma_trim_start_len(s.drop_first());
    }
}

/// The words of a request line: separated by whitespace, a word that starts
/// with `"` runs to the next unescaped `"`.
pub open spec fn split_words(s: Seq<char>) -> Seq<Seq<char>>
    decreases s.len(),
{
    let t = trim_start(s);
    if t.len() == 0 {
        seq![]
    } else if t[0] == '"' {
        let r = read_escaped(t.drop_first());
        proof {
            lemma_trim_start_len(s);
            lemma_read_escaped_len(t.drop_first());
        }
        seq![r.0] + split_words(r.1)
    } else {
        let k = bare_len(t);
        proof {
            lemma_trim_start_len(s);
            lemma_bare_len(t);
        }
        seq![t.take(k as int)] + split_words(t.skip(k as int))
    }
}

/// The first index at or after `i` that is not whitespace.
fn skip_ws(v: &Vec<char>, i: usize) -> (j: usize)
    requires
        i <= v.len(),
    ensures
        i <= j <= v.len(),
        v@.skip(j as int) == trim_start(v@.skip(i as int)),
        j < v.len() ==> !is_unicode_ws(v@[j as int]),
{
    let mut j = i;
    while j < v.len() && unicode_ws(v[j])
        invariant
            i <= j <= v.len(),
            trim_start(v@.skip(j as int)) == trim_start(v@.skip(i as int)),
        decreases v.len() - j,
    {
        assert(v@.skip(j as int).drop_first() =~= v@.skip(j + 1));
        j += 1;
    }
    if j == v.len() {
        assert(v@.skip(j as int) =~= seq![]);
    }
    j
}

/// Reads a quoted word whose text starts at `i` (after the quote): its text
/// and the index after it.
fn read_quoted_word(v: &Vec<char>, i: usize) -> (r: (String, usize))
    requires
        i <= v.len(),
    ensures
        i <= r.1 <= v.len(),
        r.0@ == read_escaped(v@.skip(i as int)).0,
        v@.skip(r.1 as int) == read_escaped(v@.skip(i as int)).1,
{
    let mut tok = String::new();
    let mut j = i;
    loop
        invariant
            i <= j <= v.len(),
            read_escaped(v@.skip(i as int)).0 == tok@ + read_escaped(v@.skip(j as int)).0,
            read_escaped(v@.skip(i as int)).1 == read_escaped(v@.skip(j as int)).1,
        decreases v.len() - j,
    {
        let ghost s = v@.skip(j as int);
        if j == v.len() {
            assert(s =~= seq![]);
            assert(tok@ + seq![] =~= tok@);
            assert(v@.skip(j as int) =~= seq![]);
            return (tok, j);
        }
        let c = v[j];
        if c == '"' {
            assert(s.drop_first() =~= v@.skip(j + 1));
            assert(tok@ + seq![] =~= tok@);
            return (tok, j + 1);
        }
        if c == '\\' {
            if j + 1 < v.len() {
                assert(s.skip(2) =~= v@.skip(j + 2));
                let ghost old_tok = tok@;
                tok.push(v[j + 1]);
                assert(old_tok + (seq![v@[j + 1]] + read_escaped(v@.skip(j + 2)).0) =~= tok@
                    + read_escaped(v@.skip(j + 2)).0);
                j += 2;
            } else {
                assert(tok@ + seq![] =~= tok@);
                assert(v@.skip(v.len() as int) =~= seq![]);
                return (tok, v.len());
            }
        } else {
            assert(s.drop_first() =~= v@.skip(j + 1));
            let ghost old_tok = tok@;
            tok.push(c);
            assert(old_tok + (seq![c] + read_escaped(v@.skip(j + 1)).0) =~= tok@ + read_escaped(
                v@.skip(j + 1),
            ).0);
            j += 1;
        }
    }
}

/// The index after the bare word that starts at `i`.
fn bare_end(v: &Vec<char>, i: usize) -> (j: usize)
    requires
        i <= v.len(),
    ensures
        j == i + bare_len(v@.skip(i as int)),
        j <= v.len(),
{
    let mut j = i;
    while j < v.len() && !unicode_ws(v[j])
        invariant
            i <= j <= v.len(),
            bare_len(v@.skip(i as int)) == (j - i) + bare_len(v@.skip(j as int)),
        decreases v.len() - j,
    {
        assert(v@.skip(j as int).drop_first() =~= v@.skip(j + 1));
        j += 1;
    }
    j
}

/// Splits a request line into argv-style words: whitespace separates words,
/// and a word in double quotes may hold whitespace and backslash escapes.
pub fn shell_split(s: &str) -> (words: Vec<String>)
    ensures
        strings_view(words@) == split_words(s@),
{
    let v = chars_of(s);
    let mut words: Vec<String> = Vec::new();
    let mut i: usize = 0;
    assert(v@.skip(0) =~= v@);
    loop
        invariant
            i <= v.len(),
            v@ == s@,
            split_words(v@) == strings_view(words@) + split_words(v@.skip(i as int)),
        decreases v.len() - i,
    {
        let ghost before = words@;
        let j = skip_ws(&v, i);
        if j == v.len() {
            assert(split_words(v@.skip(i as int)) =~= seq![]);
            assert(strings_view(words@) + seq![] =~= strings_view(words@));
            return words;
        }
        let ghost t = v@.skip(j as int);
        if v[j] == '"' {
            assert(t.drop_first() =~= v@.skip(j + 1));
            let (tok, k) = read_quoted_word(&v, j + 1);
            words.push(tok);
            proof {
                lemma_read_escaped_len(t.drop_first());
            }
            assert(strings_view(words@) =~= strings_view(before) + seq![read_escaped(t.drop_first()).0]);
            i = k;
        } else {
            let k = bare_end(&v, j);
            proof {
                lemma_bare_len(t);
            }
            let tok = string_of_range(&v, j, k);
            assert(v@.subrange(j as int, k as int) =~= t.take(bare_len(t) as int));
            assert(t.skip(bare_len(t) as int) =~= v@.skip(k as int));
            words.push(tok);
            assert(strings_view(words@) =~= strings_view(before) + seq![t.take(bare_len(t) as int)]);
            i = k;
        }
    }
}

/// The flags of a request, on the command line and on a request line alike.
pub struct RequestFlags {
    /// The URL (may be a bare host).
    pub base: String,
    /// A path appended to the URL.
    pub path: Option<String>,
    /// Query arguments as `key=value`.
    pub query: Vec<String>,
    /// Request headers as `key:value`.
    pub headers: Vec<String>,
    /// Cookies as `key=value`.
    pub cookies: Vec<String>,
    /// JSON body fields as `key=value`.
    pub json: Vec<String>,
}

/// A request line of a test: the method name and the flags.
pub struct TestRequest {
    pub method: String,
    pub args: RequestFlags,
}

#[derive(Debug, Clone, Copy, PartialEq, Eq, Structural)]
pub enum HttpMethod {
    Get,
    Post,
    Put,
    Patch,
    Delete,
}

/// The method a lowercase method name stands for.
pub open spec fn method_named(lower: Seq<char>) -> Option<HttpMethod> {
    if lower == "get"@ {
        Some(HttpMethod::Get)
    } else if lower == "post"@ {
        Some(HttpMethod::Post)
    } else if lower == "put"@ {
        Some(HttpMethod::Put)
    } else if lower == "patch"@ {
        Some(HttpMethod::Patch)
    } else if lower == "delete"@ {
        Some(HttpMethod::Delete)
    } else {
        None
    }
}

/// The method for a name already in lowercase, or the error that names it.
pub fn method_from_lower(lower: &str) -> (r: Result<HttpMethod, String>)
    ensures
        match method_named(lower@) {
            Some(m) => r == Ok::<HttpMethod, String>(m),
            None => r matches Err(e) && e@ == "unknown method: "@ + lower@,
        },
{
    if str_eq(lower, "get") {
        Ok(HttpMethod::Get)
    } else if str_eq(lower, "post") {
        Ok(HttpMethod::Post)
    } else if str_eq(lower, "put") {
        Ok(HttpMethod::Put)
    } else if str_eq(lower, "patch") {
        Ok(HttpMethod::Patch)
    } else if str_eq(lower, "delete") {
        Ok(HttpMethod::Delete)
    } else {
        let mut e = String::from_str("unknown method: ");
        push_str(&mut e, lower);
        Err(e)
    }
}

/// The method a name stands for, in any case: `get`, `post`, `put`, `patch`
/// or `delete`.
pub fn str_to_method(s: &str) -> (r: Result<HttpMethod, String>)
    ensures
        match method_named(unicode_lowercase(s@)) {
            Some(m) => r == Ok::<HttpMethod, String>(m),
            None => r matches Err(e) && e@ == "unknown method: "@ + unicode_lowercase(s@),
        },
{
    let lower = to_lowercase(s);
    method_from_lower(lower.as_str())
}

/// A URL with an `http://` or `https://` scheme.
pub open spec fn is_absolute_url(u: Seq<char>) -> bool {
    "http://"@.is_prefix_of(u) || "https://"@.is_prefix_of(u)
}

pub open spec fn opt_text(o: Option<String>) -> Seq<char> {
    match o {
        Some(s) => s@,
        None => seq![],
    }
}

fn starts_with_str(s: &str, p: &str) -> (b: bool)
    ensures
        b == p@.is_prefix_of(s@),
{
    let v = chars_of(s);
    let pv = chars_of(p);
    assert(v@.subrange(0, v.len() as int) =~= v@);
    crate::text::range_starts_with(&v, 0, v.len(), &pv)
}

/// Whether a URL names its scheme (`http://` or `https://`).
pub fn is_absolute(u: &str) -> (b: bool)
    ensures
        b == is_absolute_url(u@),
{
    starts_with_str(u, "http://") || starts_with_str(u, "https://")
}

/// A URL with `http://` in front unless it names its scheme.
pub open spec fn schemed(u: Seq<char>) -> Seq<char> {
    if is_absolute_url(u) {
        u
    } else {
        "http://"@ + u
    }
}

/// The URL given on the command line: the base with the path appended, and
/// `http://` in front of a bare host.
pub fn request_url(flags: &RequestFlags) -> (u: String)
    ensures
        u@ == schemed(flags.base@ + opt_text(flags.path)),
{
    with_scheme(joined_url(flags))
}

/// The base with the path appended.
pub fn joined_url(flags: &RequestFlags) -> (u: String)
    ensures
        u@ == flags.base@ + opt_text(flags.path),
{
    let mut u = flags.base.clone();
    match &flags.path {
        Some(p) => push_str(&mut u, p.as_str()),
        None => {
            assert(u@ + seq![] =~= u@);
        },
    }
    u
}

/// The URL of a test request: an absolute URL stands as it is; any other is
/// appended to the base URL of the run.
pub open spec fn resolved_url(run_base: Seq<char>, raw: Seq<char>) -> Seq<char> {
    if is_absolute_url(raw) {
        raw
    } else {
        run_base + raw
    }
}

pub fn resolve_url(run_base: &str, flags: &RequestFlags) -> (u: String)
    ensures
        u@ == resolved_url(run_base@, flags.base@ + opt_text(flags.path)),
{
    let raw = joined_url(flags);
    if is_absolute(raw.as_str()) {
        raw
    } else {
        let mut u = String::from_str(run_base);
        push_str(&mut u, raw.as_str());
        u
    }
}

/// A URL with `http://` in front unless it names its scheme.
pub fn with_scheme(path: String) -> (u: String)
    ensures
        u@ == schemed(path@),
{
    if is_absolute(path.as_str()) {
        path
    } else {
        let mut u = String::from_str("http://");
        push_str(&mut u, path.as_str());
        u
    }
}

/// The pairs split at the first `c` of each item; items without `c` are
/// left out.
pub open spec fn split_pairs(items: Seq<Seq<char>>, c: char) -> Seq<(Seq<char>, Seq<char>)>
    decreases items.len(),
{
    if items.len() == 0 {
        seq![]
    } else {
        let pre = split_pairs(items.drop_last(), c);
        match split_once(items.last(), c) {
            Some(p) => pre.push(p),
            None => pre,
        }
    }
}

/// Request headers from `key:value` items, both sides trimmed.
pub open spec fn header_pairs_of(items: Seq<Seq<char>>) -> Seq<(Seq<char>, Seq<char>)> {
    split_pairs(items, ':').map_values(|p: (Seq<char>, Seq<char>)| (trim(p.0), trim(p.1)))
}

/// The `key=value` items that hold a `=`.
pub open spec fn cookie_items(items: Seq<Seq<char>>) -> Seq<Seq<char>> {
    split_pairs(items, '=').map_values(|p: (Seq<char>, Seq<char>)| p.0 + "="@ + p.1)
}

/// The value of the `Cookie` header: the items joined with `; `, or none
/// when that is empty.
pub open spec fn cookie_header_of(items: Seq<Seq<char>>) -> Option<Seq<char>> {
    let j = join(cookie_items(items), "; "@);
    if j.len() == 0 {
        None
    } else {
        Some(j)
    }
}

pub open spec fn pairs_of(v: Seq<(String, String)>) -> Seq<(Seq<char>, Seq<char>)> {
    v.map_values(|p: (String, String)| (p.0@, p.1@))
}

/// The `(key, value)` pairs of the items that hold `c`, split at its first
/// occurrence.
pub fn split_items(items: &Vec<String>, c: char) -> (r: Vec<(String, String)>)
    ensures
        pairs_of(r@) == split_pairs(strings_view(items@), c),
{
    let mut r: Vec<(String, String)> = Vec::new();
    let mut i: usize = 0;
    while i < items.len()
        invariant
            i <= items.len(),
            pairs_of(r@) == split_pairs(strings_view(items@).take(i as int), c),
        decreases items.len() - i,
    {
        let ghost pre = strings_view(items@).take(i + 1);
        assert(pre.drop_last() =~= strings_view(items@).take(i as int));
        assert(pre.last() == items@[i as int]@);
        match split_once_str(items[i].as_str(), c) {
            Some(p) => {
                r.push(p);
                assert(pairs_of(r@) =~= split_pairs(strings_view(items@).take(i as int), c).push(
                    (r@.last().0@, r@.last().1@),
                ));
            },
            None => {},
        }
        i += 1;
    }
    assert(strings_view(items@).take(items.len() as int) =~= strings_view(items@));
    r
}

/// Query arguments from `key=value` items.
pub fn query_pairs(items: &Vec<String>) -> (r: Vec<(String, String)>)
    ensures
        pairs_of(r@) == split_pairs(strings_view(items@), '='),
{
    split_items(items, '=')
}

/// Request headers from `key:value` items, both sides trimmed.
pub fn header_pairs(items: &Vec<String>) -> (r: Vec<(String, String)>)
    ensures
        pairs_of(r@) == header_pairs_of(strings_view(items@)),
{
    let raw = split_items(items, ':');
    let mut r: Vec<(String, String)> = Vec::new();
    let mut i: usize = 0;
    while i < raw.len()
        invariant
            i <= raw.len(),
            pairs_of(r@) == pairs_of(raw@).take(i as int).map_values(
                |p: (Seq<char>, Seq<char>)| (trim(p.0), trim(p.1)),
            ),
        decreases raw.len() - i,
    {
        let ghost f = |p: (Seq<char>, Seq<char>)| (trim(p.0), trim(p.1));
        let ghost old_r = pairs_of(r@);
        let k = trim_str(raw[i].0.as_str());
        let v = trim_str(raw[i].1.as_str());
        r.push((k, v));
        assert(pairs_of(r@) =~= old_r.push((trim(raw@[i as int].0@), trim(raw@[i as int].1@))));
        assert(pairs_of(raw@).take(i + 1).map_values(f) =~= pairs_of(raw@).take(i as int).map_values(
            f,
        ).push(f(pairs_of(raw@)[i as int])));
        i += 1;
    }
    assert(pairs_of(raw@).take(raw.len() as int) =~= pairs_of(raw@));
    r
}

/// The `Cookie` header for `key=value` items, or none when no item holds a
/// `=`.
pub fn cookie_header(items: &Vec<String>) -> (r: Option<String>)
    ensures
        match cookie_header_of(strings_view(items@)) {
            Some(h) => r matches Some(s) && s@ == h,
            None => r is None,
        },
{
    let pairs = split_items(items, '=');
    let mut parts: Vec<String> = Vec::new();
    let mut i: usize = 0;
    while i < pairs.len()
        invariant
            i <= pairs.len(),
            strings_view(parts@) == pairs_of(pairs@).take(i as int).map_values(
                |p: (Seq<char>, Seq<char>)| p.0 + "="@ + p.1,
            ),
        decreases pairs.len() - i,
    {
        let mut item = pairs[i].0.clone();
        push_str(&mut item, "=");
        push_str(&mut item, pairs[i].1.as_str());
        let ghost f = |p: (Seq<char>, Seq<char>)| p.0 + "="@ + p.1;
        let ghost old_parts = strings_view(parts@);
        parts.push(item);
        assert(strings_view(parts@) =~= old_parts.push(
            pairs@[i as int].0@ + "="@ + pairs@[i as int].1@,
        ));
        assert(pairs_of(pairs@).take(i + 1).map_values(f) =~= pairs_of(pairs@).take(
            i as int,
        ).map_values(f).push(f(pairs_of(pairs@)[i as int])));
        i += 1;
    }
    assert(pairs_of(pairs@).take(pairs.len() as int) =~= pairs_of(pairs@));
    let joined = crate::suite::parser::join_strings(&parts, "; ");
    assert(crate::suite::parser::parts_view(parts@) =~= strings_view(parts@));
    if joined.as_str().is_empty() {
        None
    } else {
        Some(joined)
    }
}

/// Everything a request is made of, ready to be sent.
pub struct RequestPlan {
    pub method: HttpMethod,
    pub url: String,
    /// Query arguments; none are set when this is empty.
    pub query: Vec<(String, String)>,
    /// Headers, in order.
    pub headers: Vec<(String, String)>,
    /// The value of the `Cookie` header, if one is sent.
    pub cookie: Option<String>,
    /// The JSON body built from the `--json` fields, if there are any; it is
    /// sent with `Content-Type: application/json`.
    pub body: Option<String>,
}

/// The body for `--json` fields: none without fields, else the JSON object
/// they build.
pub open spec fn json_body_of(items: Seq<Seq<char>>) -> Option<Seq<char>> {
    if items.len() == 0 {
        None
    } else {
        Some(json_text(SpecNode::Object(body_members(items))))
    }
}

pub fn json_body(json: &Vec<String>) -> (r: Option<String>)
    ensures
        match json_body_of(strings_view(json@)) {
            Some(b) => r matches Some(x) && x@ == b,
            None => r is None,
        },
{
    if json.len() == 0 {
        return None;
    }
    let mut refs: Vec<&str> = Vec::new();
    let mut i: usize = 0;
    while i < json.len()
        invariant
            i <= json.len(),
            strs_view(refs@) == strings_view(json@).take(i as int),
        decreases json.len() - i,
    {
        let ghost before = strs_view(refs@);
        let r = json[i].as_str();
        assert(r@ == json@[i as int]@);
        refs.push(r);
        assert(strs_view(refs@) =~= before.push(json@[i as int]@));
        assert(strings_view(json@).take(i + 1) =~= strings_view(json@).take(i as int).push(
            json@[i as int]@,
        ));
        i += 1;
    }
    assert(strings_view(json@).take(json.len() as int) =~= strings_view(json@));
    Some(parse_json(refs.as_slice()))
}

/// What a plan for `method`, `url` and `flags` holds.
pub open spec fn plan_matches(p: RequestPlan, method: HttpMethod, url: Seq<char>, flags: RequestFlags) -> bool {
    &&& p.method == method
    &&& p.url@ == url
    &&& pairs_of(p.query@) == split_pairs(strings_view(flags.query@), '=')
    &&& pairs_of(p.headers@) == header_pairs_of(strings_view(flags.headers@))
    &&& match cookie_header_of(strings_view(flags.cookies@)) {
        Some(h) => p.cookie matches Some(c) && c@ == h,
        None => p.cookie is None,
    }
    &&& match json_body_of(strings_view(flags.json@)) {
        Some(b) => p.body matches Some(x) && x@ == b,
        None => p.body is None,
    }
}

/// The request for a method, a URL and the flags.
pub fn plan_request(method: HttpMethod, url: String, flags: &RequestFlags) -> (p: RequestPlan)
    ensures
        plan_matches(p, method, url@, *flags),
{
    RequestPlan {
        method,
        url,
        query: query_pairs(&flags.query),
        headers: header_pairs(&flags.headers),
        cookie: cookie_header(&flags.cookies),
        body: json_body(&flags.json),
    }
}

/// The request of a test: its method must be known, and its URL is resolved
/// against the base URL of the run.
pub fn plan_test_request(req: &TestRequest, run_base: &str) -> (r: Result<RequestPlan, String>)
    ensures
        match method_named(unicode_lowercase(req.method@)) {
            Some(m) => r matches Ok(p) && plan_matches(
                p,
                m,
                resolved_url(run_base@, req.args.base@ + opt_text(req.args.path)),
                req.args,
            ),
            None => r matches Err(e) && e@ == "unknown method: "@ + unicode_lowercase(req.method@),
        },
{
    let method = match str_to_method(req.method.as_str()) {
        Ok(m) => m,
        Err(e) => {
            return Err(e);
        },
    };
    let url = resolve_url(run_base, &req.args);
    Ok(plan_request(method, url, &req.args))
}

} // verus!
