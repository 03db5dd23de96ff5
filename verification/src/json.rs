//! A JSON value as the assertions read it: its shape, the unsigned integer a
//! number holds (when it holds one), and the compact text `serde_json` writes
//! for it. Path navigation (`body.items[0].id`) works on this model.

use vstd::prelude::*;
use crate::suite::ast::{PathSegment, SpecSegment, segments_view};
use crate::text::{str_eq, u64_to_decimal, decimal};

verus! {

/// A JSON value together with its compact text.
pub struct JsonValue {
    pub node: JsonNode,
    /// The compact text of the value (what `serde_json::Value`'s `Display`
    /// writes); for a number, its decimal text.
    pub text: String,
}

pub enum JsonNode {
    Null,
    Bool(bool),
    /// A number; `Some(n)` when it is an unsigned integer (`as_u64`).
    Number(Option<u64>),
    Str(String),
    Array(Vec<JsonValue>),
    /// The members, each name once.
    Object(Vec<(String, JsonValue)>),
}

/// A lowercase hexadecimal digit.
pub open spec fn hex_digit(d: nat) -> char {
    if d < 10 {
        (d + 48) as char
    } else {
        (d + 87) as char
    }
}

/// How `serde_json` writes one character inside a string: `\"` and `\\`
/// for a quote and a backslash, `\b \t \n \f \r` for those controls,
/// `\u00xx` (lowercase hex) for the other characters below U+0020, and any
/// other character as it is.
pub open spec fn json_escape_char(c: char) -> Seq<char> {
    let u = c as u32;
    if c == '"' {
        seq!['\\', '"']
    } else if c == '\\' {
        seq!['\\', '\\']
    } else if u == 8 {
        seq!['\\', 'b']
    } else if u == 9 {
        seq!['\\', 't']
    } else if u == 10 {
        seq!['\\', 'n']
    } else if u == 12 {
        seq!['\\', 'f']
    } else if u == 13 {
        seq!['\\', 'r']
    } else if u < 0x20 {
        seq!['\\', 'u', '0', '0', hex_digit((u / 16) as nat), hex_digit((u % 16) as nat)]
    } else {
        seq![c]
    }
}

pub open spec fn json_escaped(s: Seq<char>) -> Seq<char>
    decreases s.len(),
{
    if s.len() == 0 {
        seq![]
    } else {
        json_escaped(s.drop_last()) + json_escape_char(s.last())
    }
}

/// The text `serde_json::to_string` writes for a string: the string between
/// double quotes, each character escaped as `json_escape_char` says.
pub open spec fn json_quoted(s: Seq<char>) -> Seq<char> {
    seq!['"'] + json_escaped(s) + seq!['"']
}

/// Calls `serde_json::to_string` on a string slice (`format_escaped_str`
/// with the `ESCAPE` table of `ser.rs`). Serializing a `str` into the
/// in-memory buffer of `to_string` does not fail.
#[verifier::external_body]
pub fn json_quote(s: &str) -> (r: String)
    ensures
        r@ == json_quoted(s@),
{
    match serde_json::to_string(s) {
        Ok(t) => t,
        Err(_) => String::new(),
    }
}

/// The JSON value `n` as built by `Value::Number(n.into())`.
pub fn number(n: u64) -> (v: JsonValue)
    ensures
        v.node == JsonNode::Number(Some(n)),
        v.text@ == decimal(n as nat),
{
    JsonValue { node: JsonNode::Number(Some(n)), text: u64_to_decimal(n) }
}

/// The JSON string `s` as built by `Value::String(s)`.
pub fn string(s: String) -> (v: JsonValue)
    ensures
        v.node matches JsonNode::Str(x) && x@ == s@,
        v.text@ == json_quoted(s@),
{
    let text = json_quote(s.as_str());
    JsonValue { node: JsonNode::Str(s), text }
}

/// `Value::get` with a member name: the member of an object, else nothing.
pub open spec fn get_key(v: JsonValue, k: Seq<char>) -> Option<JsonValue> {
    match v.node {
        JsonNode::Object(members) => member(members@, k),
        _ => None,
    }
}

/// The value of the first member named `k`.
pub open spec fn member(ms: Seq<(String, JsonValue)>, k: Seq<char>) -> Option<JsonValue>
    decreases ms.len(),
{
    if ms.len() == 0 {
        None
    } else if ms[0].0@ == k {
        Some(ms[0].1)
    } else {
        member(ms.drop_first(), k)
    }
}

/// `Value::get` with an index: the element of an array, else nothing.
pub open spec fn get_index(v: JsonValue, i: usize) -> Option<JsonValue> {
    match v.node {
        JsonNode::Array(items) => if i < items@.len() {
            Some(items@[i as int])
        } else {
            None
        },
        _ => None,
    }
}

pub open spec fn step(v: JsonValue, s: SpecSegment) -> Option<JsonValue> {
    match s {
        SpecSegment::Key(k) => get_key(v, k),
        SpecSegment::Index(i) => get_index(v, i),
    }
}

/// The value a path leads to from `root`, if every step exists.
pub open spec fn navigate(root: JsonValue, path: Seq<SpecSegment>) -> Option<JsonValue>
    decreases path.len(),
{
    if path.len() == 0 {
        Some(root)
    } else {
        match navigate(root, path.drop_last()) {
            Some(cur) => step(cur, path.last()),
            None => None,
        }
    }
}

fn get_member<'a>(ms: &'a Vec<(String, JsonValue)>, k: &String) -> (r: Option<&'a JsonValue>)
    ensures
        match r {
            Some(x) => member(ms@, k@) == Some(*x),
            None => member(ms@, k@) is None,
        },
{
    let mut i: usize = 0;
    assert(ms@.skip(0) =~= ms@);
    while i < ms.len()
        invariant
            i <= ms.len(),
            member(ms@.skip(i as int), k@) == member(ms@, k@),
        decreases ms.len() - i,
    {
        assert(ms@.skip(i as int).drop_first() =~= ms@.skip(i + 1));
        if str_eq(ms[i].0.as_str(), k.as_str()) {
            return Some(&ms[i].1);
        }
        i += 1;
    }
    None
}

/// Follows `path` from `root`.
pub fn navigate_json<'a>(root: &'a JsonValue, path: &Vec<PathSegment>) -> (r: Option<
    &'a JsonValue,
>)
    ensures
        match r {
            Some(x) => navigate(*root, segments_view(path@)) == Some(*x),
            None => navigate(*root, segments_view(path@)) is None,
        },
{
    let mut cur = root;
    let mut i: usize = 0;
    assert(segments_view(path@).take(0) =~= seq![]);
    while i < path.len()
        invariant
            i <= path.len(),
            navigate(*root, segments_view(path@).take(i as int)) == Some(*cur),
        decreases path.len() - i,
    {
        let ghost p = segments_view(path@);
        assert(p.take(i + 1).drop_last() =~= p.take(i as int));
        assert(p.take(i + 1).last() == path@[i as int]@);
        let next = match &path[i] {
            PathSegment::Key(k) => match &cur.node {
                JsonNode::Object(ms) => get_member(ms, k),
                _ => None,
            },
            PathSegment::Index(n) => match &cur.node {
                JsonNode::Array(items) => if *n < items.len() {
                    Some(&items[*n])
                } else {
                    None
                },
                _ => None,
            },
        };
        match next {
            Some(x) => {
                cur = x;
            },
            None => {
                proof {
                    lemma_navigate_none(*root, p, i as int + 1);
                }
                assert(p.take(path.len() as int) =~= p);
                return None;
            },
        }
        i += 1;
    }
    assert(segments_view(path@).take(path.len() as int) =~= segments_view(path@));
    Some(cur)
}

proof fn lemma_navigate_none(root: JsonValue, p: Seq<SpecSegment>, k: int)
    requires
        0 <= k <= p.len(),
        navigate(root, p.take(k)) is None,
    ensures
        navigate(root, p) is None,
    decreases p.len() - k,
{
    if k < p.len() {
        assert(p.take(k + 1).drop_last() =~= p.take(k));
        lemma_navigate_none(root, p, k + 1);
    } else {
        assert(p.take(k) =~= p);
    }
}

#[verifier::external_type_specification]
#[verifier::external_body]
pub struct SerdeJsonValue(serde_json::Value);

/// The name of what parsing a text as JSON gives: `None` when
/// `serde_json::from_str::<Value>` refuses the text, else the parsed value
/// (numbers with `as_u64`, the text of each value as `Value`'s `Display`
/// writes it).
pub uninterp spec fn json_parsed(s: Seq<char>) -> Option<JsonValue>;

/// Converts a parsed `serde_json::Value`, moving its parts: the `Display`
/// text of each value, `Number::as_u64` for numbers. Nothing is stated of it
/// beyond what `parse_json_text` names.
#[verifier::external_body]
fn json_from_value(v: serde_json::Value) -> (r: JsonValue) {
    let text = v.to_string();
    let node = match v {
        serde_json::Value::Null => JsonNode::Null,
        serde_json::Value::Bool(b) => JsonNode::Bool(b),
        serde_json::Value::Number(n) => JsonNode::Number(n.as_u64()),
        serde_json::Value::String(s) => JsonNode::Str(s),
        serde_json::Value::Array(a) => JsonNode::Array(a.into_iter().map(json_from_value).collect()),
        serde_json::Value::Object(m) => JsonNode::Object(
            m.into_iter().map(|(k, x)| (k, json_from_value(x))).collect(),
        ),
    };
    JsonValue { node, text }
}

/// Parses a text with `serde_json::from_str::<Value>` (`.ok()`), which
/// depends on the text alone; the contract names the result.
#[verifier::external_body]
pub fn parse_json_text(s: &str) -> (r: Option<JsonValue>)
    ensures
        r == json_parsed(s@),
{
    serde_json::from_str::<serde_json::Value>(s).ok().map(json_from_value)
}

} // verus!
