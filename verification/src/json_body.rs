//! JSON request bodies from `key=value` fields: dot notation in the key
//! builds nested objects, and the value is auto-typed (a number, `true`,
//! `false`, `null`, a `[a, b, ...]` array of such values, or else a
//! string). The body is written as text by `serde_json`.

use vstd::prelude::*;
use crate::hurler::strs_view;
use crate::preproc::strings_view;
use crate::text::{
    chars_of, split_all, split_once, split_once_str, split_str, str_eq, string_of_range, trim,
    trim_str,
};

verus! {

/// One auto-typed value.
pub enum Scalar {
    Null,
    Bool(bool),
    /// A number, as written (a text `serde_json::Number` accepts).
    Number(String),
    Str(String),
}

/// The value of a field: one value, or an array of them.
pub enum FieldValue {
    One(Scalar),
    Array(Vec<Scalar>),
}

/// An object of the body under construction: its members in the order they
/// were first set; a member is a value or a nested object.
pub enum Node {
    Leaf(FieldValue),
    Object(Vec<(String, Node)>),
}

pub enum SpecScalar {
    Null,
    Bool(bool),
    Number(Seq<char>),
    Str(Seq<char>),
}

pub enum SpecField {
    One(SpecScalar),
    Array(Seq<SpecScalar>),
}

pub enum SpecNode {
    Leaf(SpecField),
    Object(Seq<(Seq<char>, SpecNode)>),
}

impl View for Scalar {
    type V = SpecScalar;

    open spec fn view(&self) -> SpecScalar {
        match self {
            Scalar::Null => SpecScalar::Null,
            Scalar::Bool(b) => SpecScalar::Bool(*b),
            Scalar::Number(t) => SpecScalar::Number(t@),
            Scalar::Str(t) => SpecScalar::Str(t@),
        }
    }
}

impl View for FieldValue {
    type V = SpecField;

    open spec fn view(&self) -> SpecField {
        match self {
            FieldValue::One(x) => SpecField::One(x@),
            FieldValue::Array(xs) => SpecField::Array(xs@.map_values(|x: Scalar| x@)),
        }
    }
}

pub open spec fn node_view(n: Node) -> SpecNode
    decreases n, 1nat,
{
    match n {
        Node::Leaf(v) => SpecNode::Leaf(v@),
        Node::Object(es) => {
            proof {
                assert(decreases_to!(n => es));
                assert(decreases_to!(es => es@));
            }
            SpecNode::Object(entries_view(es@))
        },
    }
}

pub open spec fn entries_view(es: Seq<(String, Node)>) -> Seq<(Seq<char>, SpecNode)>
    decreases es, 0nat,
{
    if es.len() == 0 {
        seq![]
    } else {
        proof {
            assert(decreases_to!(es => es[es.len() - 1]));
            assert(decreases_to!(es[es.len() - 1] => es[es.len() - 1].1));
        }
        entries_view(es.drop_last()).push((es.last().0@, node_view(es.last().1)))
    }
}

pub proof fn lemma_entries_view(es: Seq<(String, Node)>)
    ensures
        entries_view(es).len() == es.len(),
        forall|j: int|
            0 <= j < es.len() ==> #[trigger] entries_view(es)[j] == (es[j].0@, node_view(es[j].1)),
    decreases es.len(),
{
    if es.len() > 0 {
        lemma_entries_view(es.drop_last());
        assert forall|j: int| 0 <= j < es.len() implies #[trigger] entries_view(es)[j] == (
            es[j].0@,
            node_view(es[j].1),
        ) by {
            if j < es.len() - 1 {
                assert(es.drop_last()[j] == es[j]);
            }
        }
    }
}

/// The name of whether `serde_json::Number`'s `FromStr` accepts a text.
pub uninterp spec fn serde_number(t: Seq<char>) -> bool;

/// Whether `t` parses as a `serde_json::Number`; this depends on the text
/// alone, and the contract names the answer.
#[verifier::external_body]
fn is_serde_number(t: &str) -> (b: bool)
    ensures
        b == serde_number(t@),
{
    t.parse::<serde_json::Number>().is_ok()
}

/// One auto-typed value: `null`, `true`, `false`, a number, or a string.
pub open spec fn scalar_of(t: Seq<char>) -> SpecScalar {
    if t == "null"@ {
        SpecScalar::Null
    } else if t == "true"@ {
        SpecScalar::Bool(true)
    } else if t == "false"@ {
        SpecScalar::Bool(false)
    } else if serde_number(t) {
        SpecScalar::Number(t)
    } else {
        SpecScalar::Str(t)
    }
}

/// The value of a field: `[a, b, ...]` is an array of the trimmed items
/// (`[]`, or only whitespace inside, is empty); anything else is one value.
pub open spec fn value_of(v: Seq<char>) -> SpecField {
    if v.len() >= 2 && v[0] == '[' && v.last() == ']' {
        let inner = v.subrange(1, v.len() - 1);
        if trim(inner).len() == 0 {
            SpecField::Array(seq![])
        } else {
            SpecField::Array(split_all(inner, ',').map_values(|x: Seq<char>| scalar_of(trim(x))))
        }
    } else {
        SpecField::One(scalar_of(v))
    }
}

/// The index of the member named `k`.
pub open spec fn find_key(es: Seq<(Seq<char>, SpecNode)>, k: Seq<char>) -> Option<int>
    decreases es.len(),
{
    if es.len() == 0 {
        None
    } else if es[0].0 == k {
        Some(0)
    } else {
        match find_key(es.drop_first(), k) {
            Some(i) => Some(i + 1),
            None => None,
        }
    }
}

/// Sets the member at `path` to the value `leaf`: the last name gets
/// the value; each name before it gets an object (the object already there,
/// or a new one in place of anything else). A member that is set again keeps
/// its place; a new one goes last.
pub open spec fn set_path(es: Seq<(Seq<char>, SpecNode)>, path: Seq<Seq<char>>, leaf: SpecField) -> Seq<
    (Seq<char>, SpecNode),
>
    decreases path.len(),
{
    if path.len() == 0 {
        es
    } else {
        let k = path[0];
        let node = if path.len() == 1 {
            SpecNode::Leaf(leaf)
        } else {
            let child = match find_key(es, k) {
                Some(i) => match es[i].1 {
                    SpecNode::Object(c) => c,
                    SpecNode::Leaf(_) => seq![],
                },
                None => seq![],
            };
            SpecNode::Object(set_path(child, path.drop_first(), leaf))
        };
        match find_key(es, k) {
            Some(i) => es.update(i, (k, node)),
            None => es.push((k, node)),
        }
    }
}

/// The path and value of a `key=value` field, or nothing without `=`.
pub open spec fn field_of(item: Seq<char>) -> Option<(Seq<Seq<char>>, SpecField)> {
    match split_once(item, '=') {
        Some(kv) => Some((split_all(kv.0, '.'), value_of(kv.1))),
        None => None,
    }
}

/// The members of the body, the fields set one after the other.
pub open spec fn body_members(items: Seq<Seq<char>>) -> Seq<(Seq<char>, SpecNode)>
    decreases items.len(),
{
    if items.len() == 0 {
        seq![]
    } else {
        match field_of(items.last()) {
            Some(f) => set_path(body_members(items.drop_last()), f.0, f.1),
            None => body_members(items.drop_last()),
        }
    }
}

/// The name of the compact JSON text `serde_json` writes for a body: the
/// node built as a `serde_json::Value` (members in a `serde_json::Map`,
/// numbers parsed as `serde_json::Number`) and written with `Value`'s
/// `Display`.
pub uninterp spec fn json_text(n: SpecNode) -> Seq<char>;

fn scalar_exec(t: String) -> (r: Scalar)
    ensures
        r@ == scalar_of(t@),
{
    if str_eq(t.as_str(), "null") {
        Scalar::Null
    } else if str_eq(t.as_str(), "true") {
        Scalar::Bool(true)
    } else if str_eq(t.as_str(), "false") {
        Scalar::Bool(false)
    } else if is_serde_number(t.as_str()) {
        Scalar::Number(t)
    } else {
        Scalar::Str(t)
    }
}

fn value_exec(v: &str) -> (r: FieldValue)
    ensures
        r@ == value_of(v@),
{
    let c = chars_of(v);
    let n = c.len();
    if n >= 2 && c[0] == '[' && c[n - 1] == ']' {
        let inner = string_of_range(&c, 1, n - 1);
        assert(inner@ =~= v@.subrange(1, v@.len() - 1));
        let t = trim_str(inner.as_str());
        if t.as_str().is_empty() {
            let empty: Vec<Scalar> = Vec::new();
            assert(empty@.map_values(|x: Scalar| x@) =~= Seq::<SpecScalar>::empty());
            return FieldValue::Array(empty);
        }
        let items = split_str(inner.as_str(), ',');
        let ghost iv = items@.map_values(|x: String| x@);
        let mut parts: Vec<Scalar> = Vec::new();
        let mut i: usize = 0;
        while i < items.len()
            invariant
                i <= items.len(),
                iv == items@.map_values(|x: String| x@),
                parts@.map_values(|x: Scalar| x@) == iv.take(i as int).map_values(
                    |x: Seq<char>| scalar_of(trim(x)),
                ),
            decreases items.len() - i,
        {
            let ghost before = parts@.map_values(|x: Scalar| x@);
            let p = scalar_exec(trim_str(items[i].as_str()));
            parts.push(p);
            assert(parts@.map_values(|x: Scalar| x@) =~= before.push(scalar_of(trim(iv[i as int]))));
            assert(iv.take(i + 1).map_values(|x: Seq<char>| scalar_of(trim(x))) =~= iv.take(
                i as int,
            ).map_values(|x: Seq<char>| scalar_of(trim(x))).push(scalar_of(trim(iv[i as int]))));
            i += 1;
        }
        assert(iv.take(items.len() as int) =~= iv);
        FieldValue::Array(parts)
    } else {
        FieldValue::One(scalar_exec(String::from_str(v)))
    }
}

/// The index of the member named `k`.
fn find_member(es: &Vec<(String, Node)>, k: &String) -> (r: Option<usize>)
    ensures
        match r {
            Some(i) => i < es@.len() && find_key(entries_view(es@), k@) == Some(i as int),
            None => find_key(entries_view(es@), k@) is None,
        },
{
    proof {
        lemma_entries_view(es@);
    }
    let ghost ev = entries_view(es@);
    let mut i: usize = 0;
    assert(ev.skip(0) =~= ev);
    while i < es.len()
        invariant
            i <= es.len(),
            ev == entries_view(es@),
            ev.len() == es.len(),
            forall|j: int| 0 <= j < es.len() ==> #[trigger] ev[j] == (es@[j].0@, node_view(es@[j].1)),
            find_key(ev, k@) == (match find_key(ev.skip(i as int), k@) {
                Some(x) => Some(x + i),
                None => None::<int>,
            }),
        decreases es.len() - i,
    {
        let ghost rest = ev.skip(i as int);
        assert(rest[0] == ev[i as int]);
        assert(rest.drop_first() =~= ev.skip(i + 1));
        if str_eq(es[i].0.as_str(), k.as_str()) {
            return Some(i);
        }
        i += 1;
    }
    assert(ev.skip(i as int) =~= seq![]);
    None
}

/// Sets the member at `path[start..]` to the value text `leaf`.
fn set_member(es: &mut Vec<(String, Node)>, path: &Vec<String>, start: usize, leaf: FieldValue)
    requires
        start < path.len(),
    ensures
        entries_view(final(es)@) == set_path(
            entries_view(old(es)@),
            strings_view(path@).skip(start as int),
            leaf@,
        ),
    decreases path.len() - start,
{
    proof {
        lemma_entries_view(es@);
    }
    let ghost old_es = es@;
    let ghost p = strings_view(path@).skip(start as int);
    assert(p[0] == path@[start as int]@);
    assert(p.drop_first() =~= strings_view(path@).skip(start + 1));
    let k = path[start].clone();
    assert(k@ == p[0]);
    let idx = find_member(es, &k);
    let last = start + 1 == path.len();
    match idx {
        Some(i) => {
            let ghost ev = entries_view(old_es);
            let ghost spec_child = match ev[i as int].1 {
                SpecNode::Object(c) => c,
                SpecNode::Leaf(_) => seq![],
            };
            assert(ev[i as int] == (old_es[i as int].0@, node_view(old_es[i as int].1)));
            let (_, old_node) = es.remove(i);
            let node = if last {
                Node::Leaf(leaf)
            } else {
                let mut child = match old_node {
                    Node::Object(c) => c,
                    Node::Leaf(_) => Vec::new(),
                };
                assert(entries_view(child@) =~= spec_child);
                set_member(&mut child, path, start + 1, leaf);
                Node::Object(child)
            };
            let ghost nv = node_view(node);
            assert(nv == (if p.len() == 1 {
                SpecNode::Leaf(leaf@)
            } else {
                SpecNode::Object(set_path(spec_child, p.drop_first(), leaf@))
            }));
            es.insert(i, (k, node));
            proof {
                lemma_entries_view(es@);
                assert(entries_view(es@) =~= ev.update(i as int, (p[0], nv)));
                assert(find_key(ev, p[0]) == Some(i as int));
                assert(set_path(ev, p, leaf@) == ev.update(i as int, (p[0], nv)));
            }
        },
        None => {
            let node = if last {
                Node::Leaf(leaf)
            } else {
                let mut child: Vec<(String, Node)> = Vec::new();
                assert(entries_view(child@) =~= seq![]);
                set_member(&mut child, path, start + 1, leaf);
                Node::Object(child)
            };
            let ghost nv = node_view(node);
            assert(nv == (if p.len() == 1 {
                SpecNode::Leaf(leaf@)
            } else {
                SpecNode::Object(set_path(seq![], p.drop_first(), leaf@))
            }));
            es.push((k, node));
            proof {
                lemma_entries_view(es@);
                assert(entries_view(es@) =~= entries_view(old_es).push((p[0], nv)));
            }
        },
    }
}

/// A body value as a `serde_json::Value`: objects as maps, numbers parsed
/// as `serde_json::Number`. Nothing is stated of it beyond what `body_text`
/// names.
#[verifier::external_body]
fn node_value(n: &Node) -> (r: serde_json::Value) {
    match n {
        Node::Leaf(FieldValue::One(x)) => scalar_value(x),
        Node::Leaf(FieldValue::Array(xs)) => serde_json::Value::Array(xs.iter().map(scalar_value).collect()),
        Node::Object(es) => serde_json::Value::Object(
            es.iter().map(|(k, x)| (k.clone(), node_value(x))).collect(),
        ),
    }
}

/// One value as a `serde_json::Value`; a number text that
/// `serde_json::Number` refuses (which `scalar_of` never keeps) is `null`.
#[verifier::external_body]
fn scalar_value(x: &Scalar) -> (r: serde_json::Value) {
    match x {
        Scalar::Null => serde_json::Value::Null,
        Scalar::Bool(b) => serde_json::Value::Bool(*b),
        Scalar::Number(t) => match t.parse::<serde_json::Number>() {
            Ok(n) => serde_json::Value::Number(n),
            Err(_) => serde_json::Value::Null,
        },
        Scalar::Str(t) => serde_json::Value::String(t.clone()),
    }
}

/// Writes a body with `serde_json`: built as a `Value` and written with its
/// `Display`; the text depends on the body alone, and the contract names it.
#[verifier::external_body]
fn body_text(n: &Node) -> (r: String)
    ensures
        r@ == json_text(node_view(*n)),
{
    node_value(n).to_string()
}

/// The JSON object text of a request body from `key=value` fields: dot
/// notation in a key builds nested objects and values are auto-typed;
/// a field without `=` is left out. `serde_json` writes the text.
pub fn parse_json(inputs: &[&str]) -> (r: String)
    ensures
        r@ == json_text(SpecNode::Object(body_members(strs_view(inputs@)))),
{
    let mut es: Vec<(String, Node)> = Vec::new();
    let mut i: usize = 0;
    assert(entries_view(es@) =~= seq![]);
    while i < inputs.len()
        invariant
            i <= inputs.len(),
            entries_view(es@) == body_members(strs_view(inputs@).take(i as int)),
        decreases inputs.len() - i,
    {
        let ghost sv = strs_view(inputs@);
        assert(sv.take(i + 1).drop_last() =~= sv.take(i as int));
        assert(sv.take(i + 1).last() == inputs@[i as int]@);
        match split_once_str(inputs[i], '=') {
            Some((k, v)) => {
                let path = split_str(k.as_str(), '.');
                assert(path@.map_values(|x: String| x@) =~= strings_view(path@));
                assert(strings_view(path@).skip(0) =~= strings_view(path@));
                proof {
                    crate::text::lemma_split_all_nonempty(k@, '.');
                }
                let leaf = value_exec(v.as_str());
                set_member(&mut es, &path, 0, leaf);
            },
            None => {},
        }
        i += 1;
    }
    assert(strs_view(inputs@).take(inputs.len() as int) =~= strs_view(inputs@));
    let body = Node::Object(es);
    body_text(&body)
}

} // verus!
