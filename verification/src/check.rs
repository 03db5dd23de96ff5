//! Evaluating the assertions of a test against a response.
//!
//! Every assertion is decided here except where numbers are compared as
//! `f64` values (`equals`/`not-equals` with a number, `gt`, `gte`, `lt`,
//! `lte`, `length <n>`, and `contains`/`not-contains` of a number in an
//! array). For those, evaluation stops with an `Outcome::Ask`: a `NumQuery`
//! that names the number texts and the comparison; `finish` completes the
//! assertion from the `NumAnswer` the caller computed for it. Regular
//! expressions are matched by the `regex` crate.

use vstd::prelude::*;
use crate::json::{JsonNode, JsonValue, json_quoted, navigate, navigate_json, number, string};
use crate::suite::ast::{
    Assert, AssertTarget, AssertValue, BodyTarget, LengthArg, Matcher, PathSegment,
    SpecBodyTarget, SpecLengthArg, SpecMatcher, SpecSegment, SpecTarget, SpecValue, SpecAssert,
    segments_view,
};
use crate::text::{
    contains, debug_quoted, debug_str, decimal, push_str, str_eq, u64_to_decimal, chars_of,
    range_starts_with, range_eq,
};

verus! {

/// A parsed `Set-Cookie` header: its value and its attributes (names
/// lowercased; a flag attribute has no value).
pub struct ParsedCookie {
    pub value: String,
    pub attributes: Vec<(String, Option<String>)>,
}

/// What an assertion can be checked against. Each list of pairs is read as a
/// map: a name's entry is its last one.
pub struct ResponseData {
    pub status: u16,
    /// Header names are lowercase.
    pub headers: Vec<(String, String)>,
    pub cookies: Vec<(String, ParsedCookie)>,
    pub body_raw: String,
    pub body_json: Option<JsonValue>,
    pub duration_ms: u128,
}

/// The comparison of a number query.
pub enum Relation {
    Gt,
    Gte,
    Lt,
    Lte,
}

pub enum NumKind {
    /// `equals <number>`: holds when the actual value is a number equal to it.
    Equals,
    /// `not-equals <number>`: the query asks whether they are equal.
    NotEquals,
    /// `gt`, `gte`, `lt`, `lte`, also after `length`.
    Order(Relation),
    /// `length <number>`: the actual number is the length.
    LengthExact,
    /// `contains <number>` on an array: the query asks whether one of the
    /// array's numbers (`items`) equals it.
    ArrayHas,
    /// `not-contains <number>` on an array: the query asks the same as
    /// `ArrayHas`; the assertion passes when none equals it.
    ArrayLacks,
}

/// A comparison of two numbers as `f64` values, with what the message needs.
pub struct NumQuery {
    pub kind: NumKind,
    /// The label of the value in messages (`status`, `body.a.b`, ...).
    pub label: String,
    /// The name of the operation in messages (`gt`, `length lte`, ...).
    pub op: String,
    /// The number text of the actual value, or `None` when it is no number.
    pub actual: Option<String>,
    /// The JSON text of the actual value.
    pub actual_text: String,
    /// The expected number, as written in the suite.
    pub expected: String,
    /// For `ArrayHas` and `ArrayLacks`: the number texts of the array's
    /// elements that are numbers, in order.
    pub items: Vec<String>,
    pub negated: bool,
    /// The label of the assertion's target, for the message of a negation.
    pub target: String,
}

/// The answer to a `NumQuery`: whether the comparison holds, and the `f64`
/// text (`Display`) of the actual and the expected number.
pub struct NumAnswer {
    pub holds: bool,
    pub actual_shown: String,
    pub expected_shown: String,
}

pub enum Outcome {
    Done(Result<(), String>),
    Ask(NumQuery),
}

pub struct SpecQuery {
    pub kind: NumKind,
    pub label: Seq<char>,
    pub op: Seq<char>,
    pub actual: Option<Seq<char>>,
    pub actual_text: Seq<char>,
    pub expected: Seq<char>,
    pub items: Seq<Seq<char>>,
    pub negated: bool,
    pub target: Seq<char>,
}

pub enum SpecOutcome {
    Done(Result<(), Seq<char>>),
    Ask(SpecQuery),
}

impl View for NumQuery {
    type V = SpecQuery;

    open spec fn view(&self) -> SpecQuery {
        SpecQuery {
            kind: self.kind,
            label: self.label@,
            op: self.op@,
            actual: match self.actual {
                Some(a) => Some(a@),
                None => None,
            },
            actual_text: self.actual_text@,
            expected: self.expected@,
            items: self.items@.map_values(|t: String| t@),
            negated: self.negated,
            target: self.target@,
        }
    }
}

impl View for Outcome {
    type V = SpecOutcome;

    open spec fn view(&self) -> SpecOutcome {
        match self {
            Outcome::Done(Ok(())) => SpecOutcome::Done(Ok(())),
            Outcome::Done(Err(e)) => SpecOutcome::Done(Err(e@)),
            Outcome::Ask(q) => SpecOutcome::Ask(q@),
        }
    }
}

pub open spec fn pass() -> SpecOutcome {
    SpecOutcome::Done(Ok(()))
}

pub open spec fn fail(m: Seq<char>) -> SpecOutcome {
    SpecOutcome::Done(Err(m))
}

/// A query as the checks first build it (not negated, no target yet).
pub open spec fn ask(
    kind: NumKind,
    label: Seq<char>,
    op: Seq<char>,
    actual: Option<Seq<char>>,
    actual_text: Seq<char>,
    expected: Seq<char>,
) -> SpecOutcome {
    SpecOutcome::Ask(
        SpecQuery {
            kind,
            label,
            op,
            actual,
            actual_text,
            expected,
            items: seq![],
            negated: false,
            target: seq![],
        },
    )
}

/// The byte length of a string (`str::len`).
pub open spec fn utf8_len(s: Seq<char>) -> nat {
    vstd::utf8::encode_utf8(s).len()
}

/// The display of a path after `body.`: keys joined by `.`, indices in
/// brackets.
pub open spec fn path_text(segs: Seq<SpecSegment>) -> Seq<char>
    decreases segs.len(),
{
    if segs.len() == 0 {
        seq![]
    } else {
        path_text(segs.drop_last()) + match segs.last() {
            SpecSegment::Key(k) => if segs.len() == 1 {
                k
            } else {
                "."@ + k
            },
            SpecSegment::Index(n) => "["@ + decimal(n as nat) + "]"@,
        }
    }
}

/// How a target is named in messages.
pub open spec fn target_text(t: SpecTarget) -> Seq<char> {
    match t {
        SpecTarget::Status => "status"@,
        SpecTarget::Body(SpecBodyTarget::Raw) => "body"@,
        SpecTarget::Body(SpecBodyTarget::Path(segs)) => "body."@ + path_text(segs),
        SpecTarget::Header(n) => "header."@ + n,
        SpecTarget::Cookie(n, None) => "cookie."@ + n,
        SpecTarget::Cookie(n, Some(a)) => "cookie."@ + n + "."@ + a,
        SpecTarget::Duration => "duration"@,
    }
}

/// How a non-number literal is shown in messages.
pub open spec fn value_text(v: SpecValue) -> Seq<char> {
    match v {
        SpecValue::String(s) => debug_quoted(s),
        SpecValue::Number(n) => n,
        SpecValue::Bool(b) => if b {
            "true"@
        } else {
            "false"@
        },
        SpecValue::Null => "null"@,
        SpecValue::Regex(r) => "r\""@ + r + "\""@,
    }
}

/// What a check reads of a JSON value besides its text.
pub enum Shape {
    Null,
    Bool(bool),
    Number(Option<u64>),
    Str(Seq<char>),
    Array(Seq<JsonValue>),
    /// An object, with its number of members.
    Object(nat),
}

pub open spec fn shape(v: JsonValue) -> Shape {
    match v.node {
        JsonNode::Null => Shape::Null,
        JsonNode::Bool(b) => Shape::Bool(b),
        JsonNode::Number(u) => Shape::Number(u),
        JsonNode::Str(s) => Shape::Str(s@),
        JsonNode::Array(a) => Shape::Array(a@),
        JsonNode::Object(ms) => Shape::Object(ms@.len()),
    }
}

/// Whether a JSON value equals a literal that is not a number.
pub open spec fn equals_literal(sh: Shape, v: SpecValue) -> bool {
    match v {
        SpecValue::String(s) => sh == Shape::Str(s),
        SpecValue::Bool(b) => sh == Shape::Bool(b),
        SpecValue::Null => sh is Null,
        _ => false,
    }
}

/// The number text of a JSON value, when it is a number.
pub open spec fn number_text(sh: Shape, text: Seq<char>) -> Option<Seq<char>> {
    if sh is Number {
        Some(text)
    } else {
        None
    }
}

pub open spec fn relation_name(c: Relation) -> Seq<char> {
    match c {
        Relation::Gt => "gt"@,
        Relation::Gte => "gte"@,
        Relation::Lt => "lt"@,
        Relation::Lte => "lte"@,
    }
}

/// `gt`/`gte`/`lt`/`lte` of a JSON value against a literal.
pub open spec fn compare_spec(
    label: Seq<char>,
    sh: Shape,
    text: Seq<char>,
    e: SpecValue,
    op: Seq<char>,
    c: Relation,
) -> SpecOutcome {
    if !(sh is Number) {
        fail(label + " "@ + op + " — not a number: "@ + text)
    } else {
        match e {
            SpecValue::Number(n) => ask(NumKind::Order(c), label, op, Some(text), text, n),
            _ => fail(label + " "@ + op + " — expected must be a number"@),
        }
    }
}

/// The length a `length` matcher measures, or `None` for other values.
pub open spec fn length_of(sh: Shape) -> Option<nat> {
    match sh {
        Shape::Str(s) => Some(utf8_len(s) as usize as nat),
        Shape::Array(a) => Some(a.len()),
        Shape::Number(u) => Some(
            (match u {
                Some(x) => x,
                None => 0u64,
            }) as usize as nat,
        ),
        _ => None,
    }
}

/// `length <arg>` of a JSON value.
pub open spec fn length_spec(label: Seq<char>, sh: Shape, arg: SpecLengthArg) -> SpecOutcome {
    match length_of(sh) {
        None => fail(label + " length — not a string or array"@),
        Some(len) => {
            let lt = decimal(len);
            match arg {
                SpecLengthArg::Exact(e) => match e {
                    SpecValue::Number(n) => ask(NumKind::LengthExact, label, "length"@, Some(lt), lt, n),
                    _ => fail(label + " length — expected must be a number"@),
                },
                SpecLengthArg::Gt(e) => length_relation(label, lt, e, Relation::Gt),
                SpecLengthArg::Gte(e) => length_relation(label, lt, e, Relation::Gte),
                SpecLengthArg::Lt(e) => length_relation(label, lt, e, Relation::Lt),
                SpecLengthArg::Lte(e) => length_relation(label, lt, e, Relation::Lte),
            }
        },
    }
}

pub open spec fn length_relation(label: Seq<char>, lt: Seq<char>, e: SpecValue, c: Relation) -> SpecOutcome {
    let op = "length "@ + relation_name(c);
    match e {
        SpecValue::Number(n) => ask(NumKind::Order(c), label, op, Some(lt), lt, n),
        _ => fail(label + " "@ + op + " — expected must be a number"@),
    }
}

/// The needle of `contains`, `starts-with`, ...: it must be a string.
pub open spec fn needle_of(v: SpecValue) -> Option<Seq<char>> {
    match v {
        SpecValue::String(s) => Some(s),
        _ => None,
    }
}

/// An array has an element equal to a literal that is not a number.
pub open spec fn array_has(items: Seq<JsonValue>, e: SpecValue) -> bool {
    exists|i: int| 0 <= i < items.len() && equals_literal(shape(#[trigger] items[i]), e)
}

/// The number texts of the elements of an array that are numbers, in order.
pub open spec fn number_texts(items: Seq<JsonValue>) -> Seq<Seq<char>>
    decreases items.len(),
{
    if items.len() == 0 {
        seq![]
    } else if shape(items.last()) is Number {
        number_texts(items.drop_last()).push(items.last().text@)
    } else {
        number_texts(items.drop_last())
    }
}

/// A query on the numbers of an array.
pub open spec fn ask_items(
    kind: NumKind,
    label: Seq<char>,
    op: Seq<char>,
    items: Seq<JsonValue>,
    text: Seq<char>,
    expected: Seq<char>,
) -> SpecOutcome {
    SpecOutcome::Ask(
        SpecQuery {
            kind,
            label,
            op,
            actual: None,
            actual_text: text,
            expected,
            items: number_texts(items),
            negated: false,
            target: seq![],
        },
    )
}

/// A matcher applied to a JSON value.
pub open spec fn apply_spec(label: Seq<char>, sh: Shape, text: Seq<char>, m: SpecMatcher) -> SpecOutcome {
    match m {
        SpecMatcher::Present => pass(),
        SpecMatcher::Absent => fail(label + " — expected absent, got "@ + text),
        SpecMatcher::Empty => if sh == Shape::Str(seq![]) || (sh matches Shape::Array(a) && a.len() == 0) {
            pass()
        } else {
            fail(label + " empty — got "@ + text)
        },
        SpecMatcher::Equals(e) => match e {
            SpecValue::Number(n) => ask(NumKind::Equals, label, "equals"@, number_text(sh, text), text, n),
            _ => if equals_literal(sh, e) {
                pass()
            } else {
                fail(
                    "assert "@ + label + " equals "@ + value_text(e) + "\n  expected: "@ + value_text(e)
                        + "\n       got: "@ + text,
                )
            },
        },
        SpecMatcher::NotEquals(e) => match e {
            SpecValue::Number(n) => ask(NumKind::NotEquals, label, "not-equals"@, number_text(sh, text), text, n),
            _ => if !equals_literal(sh, e) {
                pass()
            } else {
                fail("assert "@ + label + " not-equals "@ + value_text(e) + " — values were equal"@)
            },
        },
        SpecMatcher::Contains(e) => match sh {
            Shape::Array(items) => match e {
                SpecValue::Number(n) => ask_items(NumKind::ArrayHas, label, "contains"@, items, text, n),
                _ => if array_has(items, e) {
                    pass()
                } else {
                    fail(label + " contains "@ + value_text(e) + " — not found in array"@)
                },
            },
            _ => match needle_of(e) {
                None => fail(label + " contains — value must be a string"@),
                Some(n) => match sh {
                    Shape::Str(s) => if contains(s, n) {
                        pass()
                    } else {
                        fail(
                            "assert "@ + label + " contains "@ + debug_quoted(n)
                                + "\n  expected: to contain "@ + debug_quoted(n) + "\n       got: "@
                                + debug_quoted(s),
                        )
                    },
                    _ => fail(label + " contains — not a string or array"@),
                },
            },
        },
        SpecMatcher::NotContains(e) => match sh {
            Shape::Array(items) => match e {
                SpecValue::Number(n) => ask_items(NumKind::ArrayLacks, label, "not-contains"@, items, text, n),
                _ => if !array_has(items, e) {
                    pass()
                } else {
                    fail(label + " not-contains "@ + value_text(e) + " — found in array"@)
                },
            },
            _ => match needle_of(e) {
                None => fail(label + " not-contains — value must be a string"@),
                Some(n) => match sh {
                    Shape::Str(s) => if !contains(s, n) {
                        pass()
                    } else {
                        fail(label + " not-contains "@ + debug_quoted(n) + " — found in string"@)
                    },
                    _ => fail(label + " not-contains — not a string or array"@),
                },
            },
        },
        SpecMatcher::StartsWith(e) => match needle_of(e) {
            None => fail(label + " starts-with — value must be a string"@),
            Some(n) => match sh {
                Shape::Str(s) => if n.is_prefix_of(s) {
                    pass()
                } else {
                    fail(
                        "assert "@ + label + " starts-with "@ + debug_quoted(n)
                            + "\n  expected: starts with "@ + debug_quoted(n) + "\n       got: "@
                            + debug_quoted(s),
                    )
                },
                _ => fail(label + " starts-with — not a string"@),
            },
        },
        SpecMatcher::EndsWith(e) => match needle_of(e) {
            None => fail(label + " ends-with — value must be a string"@),
            Some(n) => match sh {
                Shape::Str(s) => if n.len() <= s.len() && s.skip(s.len() - n.len()) == n {
                    pass()
                } else {
                    fail(
                        "assert "@ + label + " ends-with "@ + debug_quoted(n)
                            + "\n  expected: ends with "@ + debug_quoted(n) + "\n       got: "@
                            + debug_quoted(s),
                    )
                },
                _ => fail(label + " ends-with — not a string"@),
            },
        },
        SpecMatcher::Gt(e) => compare_spec(label, sh, text, e, "gt"@, Relation::Gt),
        SpecMatcher::Gte(e) => compare_spec(label, sh, text, e, "gte"@, Relation::Gte),
        SpecMatcher::Lt(e) => compare_spec(label, sh, text, e, "lt"@, Relation::Lt),
        SpecMatcher::Lte(e) => compare_spec(label, sh, text, e, "lte"@, Relation::Lte),
        SpecMatcher::Length(arg) => length_spec(label, sh, arg),
        SpecMatcher::Matches(p) => match sh {
            Shape::Str(s) => match_spec(label, p, s, regex_matches(p, s)),
            _ => fail(label + " matches — not a string"@),
        },
    }
}

/// The value a list of entries gives a name, the later entry winning.
pub open spec fn last_entry<V>(m: Seq<(String, V)>, k: Seq<char>) -> Option<V>
    decreases m.len(),
{
    if m.len() == 0 {
        None
    } else if m.last().0@ == k {
        Some(m.last().1)
    } else {
        last_entry(m.drop_last(), k)
    }
}

pub open spec fn check_status_spec(status: u16, m: Option<SpecMatcher>) -> SpecOutcome {
    match m {
        // No matcher: any 2xx is truthy
        None => if 200 <= status < 300 {
            pass()
        } else {
            fail("assert status — expected 2xx, got "@ + decimal(status as nat))
        },
        Some(m) => apply_spec("status"@, Shape::Number(Some(status as u64)), decimal(status as nat), m),
    }
}

pub open spec fn check_duration_spec(ms: u128, m: Option<SpecMatcher>) -> SpecOutcome {
    match m {
        None => pass(),
        Some(m) => apply_spec(
            "duration"@,
            Shape::Number(Some(ms as u64)),
            decimal((ms as u64) as nat),
            m,
        ),
    }
}

pub open spec fn check_body_spec(
    target: SpecBodyTarget,
    m: Option<SpecMatcher>,
    resp: ResponseData,
) -> SpecOutcome {
    match target {
        SpecBodyTarget::Raw => {
            let body = resp.body_raw@;
            match m {
                None => if body.len() > 0 {
                    pass()
                } else {
                    fail("assert body — body is empty"@)
                },
                Some(SpecMatcher::Empty) => if body.len() == 0 {
                    pass()
                } else {
                    fail("assert body empty — body is not empty"@)
                },
                Some(SpecMatcher::Length(arg)) => length_spec(
                    "body"@,
                    Shape::Number(Some(utf8_len(body) as usize as u64)),
                    arg,
                ),
                Some(m) => apply_spec("body"@, Shape::Str(body), json_quoted(body), m),
            }
        },
        SpecBodyTarget::Path(segs) => {
            let label = "body."@ + path_text(segs);
            match resp.body_json {
                None => fail(label + " — body is not valid JSON"@),
                Some(json) => {
                    let val = navigate(json, segs);
                    match m {
                        // No matcher: key must exist and be truthy
                        None => match val {
                            None => fail(label + " — key not found"@),
                            Some(v) => match shape(v) {
                                Shape::Null => fail(label + " — value is null"@),
                                Shape::Bool(false) => fail(label + " — value is false"@),
                                Shape::Str(s) => if s.len() == 0 {
                                    fail(label + " — value is empty string"@)
                                } else {
                                    pass()
                                },
                                Shape::Array(a) => if a.len() == 0 {
                                    fail(label + " — value is empty array"@)
                                } else {
                                    pass()
                                },
                                Shape::Object(n) => if n == 0 {
                                    fail(label + " — value is empty object"@)
                                } else {
                                    pass()
                                },
                                _ => pass(),
                            },
                        },
                        Some(SpecMatcher::Present) => match val {
                            Some(v) => if !(shape(v) is Null) {
                                pass()
                            } else {
                                fail(label + " — not present"@)
                            },
                            None => fail(label + " — not present"@),
                        },
                        Some(SpecMatcher::Absent) => match val {
                            None => pass(),
                            Some(v) => if shape(v) is Null {
                                pass()
                            } else {
                                fail(label + " — expected absent, got "@ + v.text@)
                            },
                        },
                        Some(SpecMatcher::Length(arg)) => match val {
                            None => fail(label + " — key not found"@),
                            Some(v) => match shape(v) {
                                Shape::Str(s) => length_spec(
                                    label,
                                    Shape::Number(Some(utf8_len(s) as usize as u64)),
                                    arg,
                                ),
                                Shape::Array(a) => length_spec(
                                    label,
                                    Shape::Number(Some(a.len() as u64)),
                                    arg,
                                ),
                                _ => fail(label + " length — expected string or array"@),
                            },
                        },
                        Some(m) => match val {
                            None => fail(label + " — key not found"@),
                            Some(v) => apply_spec(label, shape(v), v.text@, m),
                        },
                    }
                },
            }
        },
    }
}

pub open spec fn check_header_spec(
    name: Seq<char>,
    m: Option<SpecMatcher>,
    resp: ResponseData,
) -> SpecOutcome {
    let label = "header."@ + name;
    let val = last_entry(resp.headers@, name);
    match m {
        None => if val is Some {
            pass()
        } else {
            fail(label + " — not present"@)
        },
        Some(SpecMatcher::Present) => if val is Some {
            pass()
        } else {
            fail(label + " — not present"@)
        },
        Some(SpecMatcher::Absent) => match val {
            None => pass(),
            Some(v) => fail(label + " — expected absent, got "@ + debug_quoted(v@)),
        },
        Some(m) => match val {
            None => fail(label + " — header not found"@),
            Some(v) => apply_spec(label, Shape::Str(v@), json_quoted(v@), m),
        },
    }
}

pub open spec fn check_cookie_spec(
    name: Seq<char>,
    attr: Option<Seq<char>>,
    m: Option<SpecMatcher>,
    resp: ResponseData,
) -> SpecOutcome {
    let cookie = last_entry(resp.cookies@, name);
    match attr {
        None => {
            let label = "cookie."@ + name;
            match m {
                None => if cookie is Some {
                    pass()
                } else {
                    fail(label + " — not set"@)
                },
                Some(SpecMatcher::Present) => if cookie is Some {
                    pass()
                } else {
                    fail(label + " — not set"@)
                },
                Some(SpecMatcher::Absent) => if cookie is None {
                    pass()
                } else {
                    fail(label + " — expected absent but was set"@)
                },
                Some(m) => match cookie {
                    None => fail(label + " — not set"@),
                    Some(c) => apply_spec(label, Shape::Str(c.value@), json_quoted(c.value@), m),
                },
            }
        },
        Some(a) => {
            let label = "cookie."@ + name + "."@ + a;
            match cookie {
                None => fail("cookie."@ + name + " — not set"@),
                Some(c) => {
                    let av = last_entry(c.attributes@, a);
                    match m {
                        None => if av is Some {
                            pass()
                        } else {
                            fail(label + " — attribute not set"@)
                        },
                        Some(SpecMatcher::Present) => if av is Some {
                            pass()
                        } else {
                            fail(label + " — attribute not set"@)
                        },
                        Some(SpecMatcher::Absent) => if av is None {
                            pass()
                        } else {
                            fail(label + " — expected absent but was set"@)
                        },
                        Some(m) => match av {
                            None => fail(label + " — attribute not set"@),
                            Some(None) => fail(label + " — attribute has no value (flag only)"@),
                            Some(Some(v)) => apply_spec(label, Shape::Str(v@), json_quoted(v@), m),
                        },
                    }
                },
            }
        },
    }
}

/// An assertion, before negation.
pub open spec fn check_spec(a: SpecAssert, resp: ResponseData) -> SpecOutcome {
    match a.target {
        SpecTarget::Status => check_status_spec(resp.status, a.matcher),
        SpecTarget::Body(bt) => check_body_spec(bt, a.matcher, resp),
        SpecTarget::Header(n) => check_header_spec(n, a.matcher, resp),
        SpecTarget::Cookie(n, at) => check_cookie_spec(n, at, a.matcher, resp),
        SpecTarget::Duration => check_duration_spec(resp.duration_ms, a.matcher),
    }
}

/// The message of a negated assertion that passed.
pub open spec fn negation_failed(target: Seq<char>) -> Seq<char> {
    "assert not "@ + target + " — expected to fail but passed"@
}

/// An assertion with its negation: `not` turns a pass into a failure and a
/// failure into a pass.
pub open spec fn evaluate_spec(a: SpecAssert, resp: ResponseData) -> SpecOutcome {
    let inner = check_spec(a, resp);
    if a.negated {
        match inner {
            SpecOutcome::Done(Ok(())) => fail(negation_failed(target_text(a.target))),
            SpecOutcome::Done(Err(_)) => pass(),
            SpecOutcome::Ask(q) => SpecOutcome::Ask(
                SpecQuery {
                    kind: q.kind,
                    label: q.label,
                    op: q.op,
                    actual: q.actual,
                    actual_text: q.actual_text,
                    expected: q.expected,
                    items: q.items,
                    negated: true,
                    target: target_text(a.target),
                },
            ),
        }
    } else {
        inner
    }
}

/// A number query decided by its answer, before negation.
pub open spec fn finish_inner(q: SpecQuery, holds: bool, a_shown: Seq<char>, e_shown: Seq<char>) -> Result<(), Seq<char>> {
    match q.kind {
        NumKind::Equals => if holds {
            Ok(())
        } else {
            Err(
                "assert "@ + q.label + " equals "@ + e_shown + "\n  expected: "@ + e_shown
                    + "\n       got: "@ + q.actual_text,
            )
        },
        NumKind::NotEquals => if !holds {
            Ok(())
        } else {
            Err("assert "@ + q.label + " not-equals "@ + e_shown + " — values were equal"@)
        },
        NumKind::Order(_) => if holds {
            Ok(())
        } else {
            Err("assert "@ + q.label + " "@ + q.op + " "@ + e_shown + " — got "@ + a_shown)
        },
        NumKind::LengthExact => if holds {
            Ok(())
        } else {
            Err("assert "@ + q.label + " length "@ + e_shown + " — got "@ + q.actual_text)
        },
        NumKind::ArrayHas => if holds {
            Ok(())
        } else {
            Err(q.label + " contains "@ + e_shown + " — not found in array"@)
        },
        NumKind::ArrayLacks => if !holds {
            Ok(())
        } else {
            Err(q.label + " not-contains "@ + e_shown + " — found in array"@)
        },
    }
}

/// A number query decided by its answer.
pub open spec fn finish_spec(q: SpecQuery, holds: bool, a_shown: Seq<char>, e_shown: Seq<char>) -> Result<(), Seq<char>> {
    let r = finish_inner(q, holds, a_shown, e_shown);
    if q.negated {
        match r {
            Ok(()) => Err(negation_failed(q.target)),
            Err(_) => Ok(()),
        }
    } else {
        r
    }
}

/// The result of an outcome, a query being decided by the given answer.
pub open spec fn outcome_result(o: SpecOutcome, holds: bool, a_shown: Seq<char>, e_shown: Seq<char>) -> Result<(), Seq<char>> {
    match o {
        SpecOutcome::Done(r) => r,
        SpecOutcome::Ask(q) => finish_spec(q, holds, a_shown, e_shown),
    }
}

/// `not` inverts an assertion: whatever the response and whatever the
/// answer to its number query, an assertion passes exactly when the same
/// assertion with `not` toggled fails.
pub proof fn law_negation_inverts(
    a: SpecAssert,
    resp: ResponseData,
    holds: bool,
    a_shown: Seq<char>,
    e_shown: Seq<char>,
)
    ensures
        outcome_result(evaluate_spec(a, resp), holds, a_shown, e_shown) is Ok
            <==> outcome_result(
            evaluate_spec(SpecAssert { negated: !a.negated, target: a.target, matcher: a.matcher }, resp),
            holds,
            a_shown,
            e_shown,
        ) is Err,
{
    let b = SpecAssert { negated: !a.negated, target: a.target, matcher: a.matcher };
    assert(check_spec(b, resp) == check_spec(a, resp));
}

fn cat(a: &str, b: &str) -> (r: String)
    ensures
        r@ == a@ + b@,
{
    let mut r = String::from_str(a);
    push_str(&mut r, b);
    r
}

fn cat3(a: &str, b: &str, c: &str) -> (r: String)
    ensures
        r@ == a@ + b@ + c@,
{
    let mut r = String::from_str(a);
    push_str(&mut r, b);
    push_str(&mut r, c);
    r
}

fn cat4(a: &str, b: &str, c: &str, d: &str) -> (r: String)
    ensures
        r@ == a@ + b@ + c@ + d@,
{
    let mut r = String::from_str(a);
    push_str(&mut r, b);
    push_str(&mut r, c);
    push_str(&mut r, d);
    r
}

fn cat5(a: &str, b: &str, c: &str, d: &str, e: &str) -> (r: String)
    ensures
        r@ == a@ + b@ + c@ + d@ + e@,
{
    let mut r = String::from_str(a);
    push_str(&mut r, b);
    push_str(&mut r, c);
    push_str(&mut r, d);
    push_str(&mut r, e);
    r
}

fn no_items() -> (v: Vec<String>)
    ensures
        v@.map_values(|t: String| t@) == Seq::<Seq<char>>::empty(),
{
    let v: Vec<String> = Vec::new();
    assert(v@.map_values(|t: String| t@) =~= Seq::<Seq<char>>::empty());
    v
}

fn done_err(m: String) -> (o: Outcome)
    ensures
        o@ == fail(m@),
{
    Outcome::Done(Err(m))
}

fn done_ok() -> (o: Outcome)
    ensures
        o@ == pass(),
{
    Outcome::Done(Ok(()))
}

fn ask_exec(
    kind: NumKind,
    label: &str,
    op: &str,
    actual: Option<String>,
    actual_text: &str,
    expected: &String,
) -> (o: Outcome)
    ensures
        o@ == ask(
            kind,
            label@,
            op@,
            match actual {
                Some(a) => Some(a@),
                None => None,
            },
            actual_text@,
            expected@,
        ),
{
    Outcome::Ask(
        NumQuery {
            kind,
            label: String::from_str(label),
            op: String::from_str(op),
            actual,
            actual_text: String::from_str(actual_text),
            expected: expected.clone(),
            items: no_items(),
            negated: false,
            target: String::new(),
        },
    )
}

/// How a path is displayed after `body.`.
pub fn display_path(segs: &Vec<PathSegment>) -> (r: String)
    ensures
        r@ == path_text(segments_view(segs@)),
{
    let mut r = String::new();
    let mut i: usize = 0;
    while i < segs.len()
        invariant
            i <= segs.len(),
            r@ == path_text(segments_view(segs@).take(i as int)),
        decreases segs.len() - i,
    {
        let ghost sv = segments_view(segs@);
        assert(sv.take(i + 1).drop_last() =~= sv.take(i as int));
        assert(sv.take(i + 1).last() == segs@[i as int]@);
        match &segs[i] {
            PathSegment::Key(k) => {
                if i > 0 {
                    push_str(&mut r, ".");
                }
                push_str(&mut r, k.as_str());
            },
            PathSegment::Index(n) => {
                let d = u64_to_decimal(*n as u64);
                push_str(&mut r, "[");
                push_str(&mut r, d.as_str());
                push_str(&mut r, "]");
            },
        }
        i += 1;
    }
    assert(segments_view(segs@).take(segs.len() as int) =~= segments_view(segs@));
    r
}

/// How a target is named in messages.
pub fn target_label(t: &AssertTarget) -> (r: String)
    ensures
        r@ == target_text(t@),
{
    match t {
        AssertTarget::Status => String::from_str("status"),
        AssertTarget::Body(BodyTarget::Raw) => String::from_str("body"),
        AssertTarget::Body(BodyTarget::Path(segs)) => {
            let p = display_path(segs);
            cat("body.", p.as_str())
        },
        AssertTarget::Header(n) => cat("header.", n.as_str()),
        AssertTarget::Cookie(n, None) => cat("cookie.", n.as_str()),
        AssertTarget::Cookie(n, Some(a)) => cat4("cookie.", n.as_str(), ".", a.as_str()),
        AssertTarget::Duration => String::from_str("duration"),
    }
}

fn value_display(v: &AssertValue) -> (r: String)
    ensures
        r@ == value_text(v@),
{
    match v {
        AssertValue::String(s) => debug_str(s.as_str()),
        AssertValue::Number(n) => n.clone(),
        AssertValue::Bool(b) => if *b {
            String::from_str("true")
        } else {
            String::from_str("false")
        },
        AssertValue::Null => String::from_str("null"),
        AssertValue::Regex(r) => cat3("r\"", r.as_str(), "\""),
    }
}

fn equals_lit(actual: &JsonValue, v: &AssertValue) -> (b: bool)
    ensures
        b == equals_literal(shape(*actual), v@),
{
    match (v, &actual.node) {
        (AssertValue::String(s), JsonNode::Str(a)) => str_eq(a.as_str(), s.as_str()),
        (AssertValue::Bool(b), JsonNode::Bool(a)) => *a == *b,
        (AssertValue::Null, JsonNode::Null) => true,
        _ => false,
    }
}

fn is_number(actual: &JsonValue) -> (b: bool)
    ensures
        b == (shape(*actual) is Number),
{
    match &actual.node {
        JsonNode::Number(_) => true,
        _ => false,
    }
}

fn array_has_exec(items: &Vec<JsonValue>, e: &AssertValue) -> (b: bool)
    ensures
        b == array_has(items@, e@),
{
    let mut i: usize = 0;
    while i < items.len()
        invariant
            i <= items.len(),
            forall|j: int| 0 <= j < i ==> !equals_literal(shape(#[trigger] items@[j]), e@),
        decreases items.len() - i,
    {
        if equals_lit(&items[i], e) {
            return true;
        }
        i += 1;
    }
    false
}

/// The number texts of the elements that are numbers.
fn number_texts_exec(items: &Vec<JsonValue>) -> (r: Vec<String>)
    ensures
        r@.map_values(|t: String| t@) == number_texts(items@),
{
    let mut r: Vec<String> = Vec::new();
    let mut i: usize = 0;
    while i < items.len()
        invariant
            i <= items.len(),
            r@.map_values(|t: String| t@) == number_texts(items@.take(i as int)),
        decreases items.len() - i,
    {
        assert(items@.take(i + 1).drop_last() =~= items@.take(i as int));
        assert(items@.take(i + 1).last() == items@[i as int]);
        if is_number(&items[i]) {
            let ghost before = r@.map_values(|t: String| t@);
            r.push(items[i].text.clone());
            assert(r@.map_values(|t: String| t@) =~= before.push(items@[i as int].text@));
        }
        i += 1;
    }
    assert(items@.take(items.len() as int) =~= items@);
    r
}

fn ask_items_exec(
    kind: NumKind,
    label: &str,
    op: &str,
    items: &Vec<JsonValue>,
    text: &str,
    expected: &String,
) -> (o: Outcome)
    ensures
        o@ == ask_items(kind, label@, op@, items@, text@, expected@),
{
    let nums = number_texts_exec(items);
    Outcome::Ask(
        NumQuery {
            kind,
            label: String::from_str(label),
            op: String::from_str(op),
            actual: None,
            actual_text: String::from_str(text),
            expected: expected.clone(),
            items: nums,
            negated: false,
            target: String::new(),
        },
    )
}

/// The name of whether a regular expression (`regex::Regex`) matches
/// somewhere in a text: `None` when the pattern is refused.
pub uninterp spec fn regex_matches(pattern: Seq<char>, text: Seq<char>) -> Option<bool>;

/// Compiles `pattern` with `regex::Regex::new` and calls `is_match` on
/// `text`; `None` when the pattern does not compile. Both depend on the
/// pattern and the text alone; the contract names the result.
#[verifier::external_body]
pub fn regex_match(pattern: &str, text: &str) -> (r: Option<bool>)
    ensures
        r == regex_matches(pattern@, text@),
{
    match regex::Regex::new(pattern) {
        Ok(re) => Some(re.is_match(text)),
        Err(_) => None,
    }
}

/// `matches <pattern>` on a string, given whether the pattern matches it
/// (`None` for a pattern that does not compile).
pub open spec fn match_spec(label: Seq<char>, p: Seq<char>, s: Seq<char>, found: Option<bool>) -> SpecOutcome {
    match found {
        Some(true) => pass(),
        Some(false) => fail(
            "assert "@ + label + " matches r\""@ + p + "\"\n  expected: to match r\""@ + p
                + "\"\n       got: "@ + debug_quoted(s),
        ),
        None => fail(label + " matches — invalid regex r\""@ + p + "\""@),
    }
}

/// The outcome of `matches <pattern>` on the string `s`, given whether the
/// pattern matches it.
pub fn regex_outcome(label: &str, p: &str, s: &str, found: Option<bool>) -> (o: Outcome)
    ensures
        o@ == match_spec(label@, p@, s@, found),
{
    match found {
        Some(b) => if b {
            done_ok()
        } else {
            let d = debug_str(s);
            let m1 = cat4("assert ", label, " matches r\"", p);
            let m2 = cat4(m1.as_str(), "\"\n  expected: to match r\"", p, "\"\n       got: ");
            let m = cat(m2.as_str(), d.as_str());
            assert(m@ =~= "assert "@ + label@ + " matches r\""@ + p@ + "\"\n  expected: to match r\""@
                + p@ + "\"\n       got: "@ + debug_quoted(s@));
            done_err(m)
        },
        None => {
            let m = cat4(label, " matches — invalid regex r\"", p, "\"");
            assert(m@ =~= label@ + " matches — invalid regex r\""@ + p@ + "\""@);
            done_err(m)
        },
    }
}

fn compare_nums(label: &str, actual: &JsonValue, e: &AssertValue, op: &str, c: Relation) -> (o: Outcome)
    ensures
        o@ == compare_spec(label@, shape(*actual), actual.text@, e@, op@, c),
{
    if !is_number(actual) {
        return done_err(cat4(label, " ", op, " — not a number: ").concat(actual.text.as_str()));
    }
    match e {
        AssertValue::Number(n) => ask_exec(
            NumKind::Order(c),
            label,
            op,
            Some(actual.text.clone()),
            actual.text.as_str(),
            n,
        ),
        _ => done_err(cat4(label, " ", op, " — expected must be a number")),
    }
}

fn relation_name_exec(c: &Relation) -> (r: &'static str)
    ensures
        r@ == relation_name(*c),
{
    match c {
        Relation::Gt => "gt",
        Relation::Gte => "gte",
        Relation::Lt => "lt",
        Relation::Lte => "lte",
    }
}

fn length_relation_exec(label: &str, lt: &String, e: &AssertValue, c: Relation) -> (o: Outcome)
    ensures
        o@ == length_relation(label@, lt@, e@, c),
{
    let op = cat("length ", relation_name_exec(&c));
    match e {
        AssertValue::Number(n) => ask_exec(
            NumKind::Order(c),
            label,
            op.as_str(),
            Some(lt.clone()),
            lt.as_str(),
            n,
        ),
        _ => done_err(cat4(label, " ", op.as_str(), " — expected must be a number")),
    }
}

fn check_length(label: &str, actual: &JsonValue, arg: &LengthArg) -> (o: Outcome)
    ensures
        o@ == length_spec(label@, shape(*actual), arg@),
{
    let len: usize = match &actual.node {
        JsonNode::Str(s) => s.as_str().len(),
        JsonNode::Array(a) => a.len(),
        // pre-computed length
        JsonNode::Number(n) => match n {
            Some(x) => *x as usize,
            None => 0u64 as usize,
        },
        _ => {
            return done_err(cat(label, " length — not a string or array"));
        },
    };
    let lt = u64_to_decimal(len as u64);
    match arg {
        LengthArg::Exact(e) => match e {
            AssertValue::Number(n) => ask_exec(
                NumKind::LengthExact,
                label,
                "length",
                Some(lt.clone()),
                lt.as_str(),
                n,
            ),
            _ => done_err(cat(label, " length — expected must be a number")),
        },
        LengthArg::Gt(e) => length_relation_exec(label, &lt, e, Relation::Gt),
        LengthArg::Gte(e) => length_relation_exec(label, &lt, e, Relation::Gte),
        LengthArg::Lt(e) => length_relation_exec(label, &lt, e, Relation::Lt),
        LengthArg::Lte(e) => length_relation_exec(label, &lt, e, Relation::Lte),
    }
}

fn ends_with(s: &String, n: &String) -> (b: bool)
    ensures
        b == (n@.len() <= s@.len() && s@.skip(s@.len() - n@.len()) == n@),
{
    let sv = chars_of(s.as_str());
    let nv = chars_of(n.as_str());
    if nv.len() > sv.len() {
        return false;
    }
    let r = range_eq(&sv, sv.len() - nv.len(), sv.len(), &nv);
    assert(sv@.subrange(sv.len() - nv.len(), sv.len() as int) =~= sv@.skip(sv.len() - nv.len()));
    r
}

fn starts_with(s: &String, n: &String) -> (b: bool)
    ensures
        b == n@.is_prefix_of(s@),
{
    let sv = chars_of(s.as_str());
    let nv = chars_of(n.as_str());
    assert(sv@.subrange(0, sv.len() as int) =~= sv@);
    range_starts_with(&sv, 0, sv.len(), &nv)
}

fn has_substring(s: &String, n: &String) -> (b: bool)
    ensures
        b == contains(s@, n@),
{
    let sv = chars_of(s.as_str());
    let nv = chars_of(n.as_str());
    crate::text::contains_chars(&sv, &nv)
}

/// A matcher applied to a JSON value.
fn apply_matcher(label: &str, actual: &JsonValue, m: &Matcher) -> (o: Outcome)
    ensures
        o@ == apply_spec(label@, shape(*actual), actual.text@, m@),
{
    let text = actual.text.as_str();
    match m {
        Matcher::Present => done_ok(),
        Matcher::Absent => done_err(cat3(label, " — expected absent, got ", text)),
        Matcher::Empty => {
            let empty = match &actual.node {
                JsonNode::Str(s) => s.as_str().is_empty(),
                JsonNode::Array(a) => a.len() == 0,
                _ => false,
            };
            proof {
                if let JsonNode::Str(s) = &actual.node {
                    if s@.len() == 0 {
                        assert(s@ =~= seq![]);
                    }
                }
            }
            if empty {
                done_ok()
            } else {
                done_err(cat3(label, " empty — got ", text))
            }
        },
        Matcher::Equals(e) => match e {
            AssertValue::Number(n) => {
                let a = if is_number(actual) {
                    Some(actual.text.clone())
                } else {
                    None
                };
                ask_exec(NumKind::Equals, label, "equals", a, text, n)
            },
            _ => if equals_lit(actual, e) {
                done_ok()
            } else {
                let d = value_display(e);
                let m1 = cat4("assert ", label, " equals ", d.as_str());
                done_err(cat4(m1.as_str(), "\n  expected: ", d.as_str(), "\n       got: ").concat(text))
            },
        },
        Matcher::NotEquals(e) => match e {
            AssertValue::Number(n) => {
                let a = if is_number(actual) {
                    Some(actual.text.clone())
                } else {
                    None
                };
                ask_exec(NumKind::NotEquals, label, "not-equals", a, text, n)
            },
            _ => if !equals_lit(actual, e) {
                done_ok()
            } else {
                let d = value_display(e);
                done_err(cat4("assert ", label, " not-equals ", d.as_str()).concat(" — values were equal"))
            },
        },
        Matcher::Contains(e) => match &actual.node {
            JsonNode::Array(items) => match e {
                AssertValue::Number(n) => ask_items_exec(NumKind::ArrayHas, label, "contains", items, text, n),
                _ => if array_has_exec(items, e) {
                    done_ok()
                } else {
                    let d = value_display(e);
                    done_err(cat4(label, " contains ", d.as_str(), " — not found in array"))
                },
            },
            _ => match e {
                AssertValue::String(n) => match &actual.node {
                    JsonNode::Str(s) => if has_substring(s, n) {
                        done_ok()
                    } else {
                        let dn = debug_str(n.as_str());
                        let ds = debug_str(s.as_str());
                        let m1 = cat4("assert ", label, " contains ", dn.as_str());
                        done_err(cat5(m1.as_str(), "\n  expected: to contain ", dn.as_str(), "\n       got: ", ds.as_str()))
                    },
                    _ => done_err(cat(label, " contains — not a string or array")),
                },
                _ => done_err(cat(label, " contains — value must be a string")),
            },
        },
        Matcher::NotContains(e) => match &actual.node {
            JsonNode::Array(items) => match e {
                AssertValue::Number(n) => ask_items_exec(NumKind::ArrayLacks, label, "not-contains", items, text, n),
                _ => if !array_has_exec(items, e) {
                    done_ok()
                } else {
                    let d = value_display(e);
                    done_err(cat4(label, " not-contains ", d.as_str(), " — found in array"))
                },
            },
            _ => match e {
                AssertValue::String(n) => match &actual.node {
                    JsonNode::Str(s) => if !has_substring(s, n) {
                        done_ok()
                    } else {
                        let dn = debug_str(n.as_str());
                        done_err(cat4(label, " not-contains ", dn.as_str(), " — found in string"))
                    },
                    _ => done_err(cat(label, " not-contains — not a string or array")),
                },
                _ => done_err(cat(label, " not-contains — value must be a string")),
            },
        },
        Matcher::StartsWith(e) => match e {
            AssertValue::String(n) => match &actual.node {
                JsonNode::Str(s) => if starts_with(s, n) {
                    done_ok()
                } else {
                    let dn = debug_str(n.as_str());
                    let ds = debug_str(s.as_str());
                    let m1 = cat4("assert ", label, " starts-with ", dn.as_str());
                    done_err(cat5(m1.as_str(), "\n  expected: starts with ", dn.as_str(), "\n       got: ", ds.as_str()))
                },
                _ => done_err(cat(label, " starts-with — not a string")),
            },
            _ => done_err(cat(label, " starts-with — value must be a string")),
        },
        Matcher::EndsWith(e) => match e {
            AssertValue::String(n) => match &actual.node {
                JsonNode::Str(s) => if ends_with(s, n) {
                    done_ok()
                } else {
                    let dn = debug_str(n.as_str());
                    let ds = debug_str(s.as_str());
                    let m1 = cat4("assert ", label, " ends-with ", dn.as_str());
                    done_err(cat5(m1.as_str(), "\n  expected: ends with ", dn.as_str(), "\n       got: ", ds.as_str()))
                },
                _ => done_err(cat(label, " ends-with — not a string")),
            },
            _ => done_err(cat(label, " ends-with — value must be a string")),
        },
        Matcher::Gt(e) => compare_nums(label, actual, e, "gt", Relation::Gt),
        Matcher::Gte(e) => compare_nums(label, actual, e, "gte", Relation::Gte),
        Matcher::Lt(e) => compare_nums(label, actual, e, "lt", Relation::Lt),
        Matcher::Lte(e) => compare_nums(label, actual, e, "lte", Relation::Lte),
        Matcher::Length(arg) => check_length(label, actual, arg),
        Matcher::Matches(p) => match &actual.node {
            JsonNode::Str(s) => {
                let found = regex_match(p.as_str(), s.as_str());
                regex_outcome(label, p.as_str(), s.as_str(), found)
            },
            _ => done_err(cat(label, " matches — not a string")),
        },
    }
}

/// The index of the entry a list gives `k` (its last entry named `k`).
fn last_index<V>(m: &Vec<(String, V)>, k: &str) -> (r: Option<usize>)
    ensures
        match r {
            Some(i) => i < m@.len() && last_entry(m@, k@) == Some(m@[i as int].1),
            None => last_entry(m@, k@) is None,
        },
{
    let mut i = m.len();
    assert(m@.take(m.len() as int) =~= m@);
    while i > 0
        invariant
            i <= m.len(),
            last_entry(m@.take(i as int), k@) == last_entry(m@, k@),
        decreases i,
    {
        let ghost pre = m@.take(i as int);
        assert(pre.drop_last() =~= m@.take(i - 1));
        assert(pre.last() == m@[i - 1]);
        if str_eq(m[i - 1].0.as_str(), k) {
            return Some(i - 1);
        }
        i -= 1;
    }
    assert(m@.take(0) =~= seq![]);
    None
}

fn check_status(status: u16, matcher: &Option<Matcher>) -> (o: Outcome)
    ensures
        o@ == check_status_spec(status, opt_view(*matcher)),
{
    match matcher {
        // No matcher: any 2xx is truthy
        None => if 200 <= status && status < 300 {
            done_ok()
        } else {
            let d = u64_to_decimal(status as u64);
            done_err(cat("assert status — expected 2xx, got ", d.as_str()))
        },
        Some(m) => {
            let val = number(status as u64);
            apply_matcher("status", &val, m)
        },
    }
}

fn check_duration(ms: u128, matcher: &Option<Matcher>) -> (o: Outcome)
    ensures
        o@ == check_duration_spec(ms, opt_view(*matcher)),
{
    match matcher {
        None => done_ok(),
        Some(m) => {
            let val = number(ms as u64);
            apply_matcher("duration", &val, m)
        },
    }
}

pub open spec fn opt_view(m: Option<Matcher>) -> Option<SpecMatcher> {
    match m {
        Some(x) => Some(x@),
        None => None,
    }
}

fn check_body(target: &BodyTarget, matcher: &Option<Matcher>, resp: &ResponseData) -> (o: Outcome)
    ensures
        o@ == check_body_spec(target@, opt_view(*matcher), *resp),
{
    match target {
        BodyTarget::Raw => {
            match matcher {
                None => {
                    if !resp.body_raw.as_str().is_empty() {
                        done_ok()
                    } else {
                        done_err(String::from_str("assert body — body is empty"))
                    }
                },
                Some(Matcher::Empty) => {
                    if resp.body_raw.as_str().is_empty() {
                        done_ok()
                    } else {
                        done_err(String::from_str("assert body empty — body is not empty"))
                    }
                },
                Some(Matcher::Length(len_arg)) => {
                    let len_val = number(resp.body_raw.as_str().len() as u64);
                    check_length("body", &len_val, len_arg)
                },
                Some(m) => {
                    let val = string(resp.body_raw.clone());
                    apply_matcher("body", &val, m)
                },
            }
        },
        BodyTarget::Path(segs) => {
            let p = display_path(segs);
            let label = cat("body.", p.as_str());
            let json = match &resp.body_json {
                Some(j) => j,
                None => {
                    return done_err(cat(label.as_str(), " — body is not valid JSON"));
                },
            };
            let val = navigate_json(json, segs);
            match matcher {
                // No matcher: key must exist and be truthy
                None => match val {
                    None => done_err(cat(label.as_str(), " — key not found")),
                    Some(v) => match &v.node {
                        JsonNode::Null => done_err(cat(label.as_str(), " — value is null")),
                        JsonNode::Bool(false) => done_err(cat(label.as_str(), " — value is false")),
                        JsonNode::Str(s) => {
                            if s.as_str().is_empty() {
                                done_err(cat(label.as_str(), " — value is empty string"))
                            } else {
                                done_ok()
                            }
                        },
                        JsonNode::Array(a) => {
                            if a.len() == 0 {
                                done_err(cat(label.as_str(), " — value is empty array"))
                            } else {
                                done_ok()
                            }
                        },
                        JsonNode::Object(ms) => {
                            if ms.len() == 0 {
                                done_err(cat(label.as_str(), " — value is empty object"))
                            } else {
                                done_ok()
                            }
                        },
                        _ => done_ok(),
                    },
                },
                Some(Matcher::Present) => match val {
                    Some(v) => match &v.node {
                        JsonNode::Null => done_err(cat(label.as_str(), " — not present")),
                        _ => done_ok(),
                    },
                    None => done_err(cat(label.as_str(), " — not present")),
                },
                Some(Matcher::Absent) => match val {
                    None => done_ok(),
                    Some(v) => match &v.node {
                        JsonNode::Null => done_ok(),
                        _ => done_err(cat3(label.as_str(), " — expected absent, got ", v.text.as_str())),
                    },
                },
                Some(Matcher::Length(len_arg)) => match val {
                    None => done_err(cat(label.as_str(), " — key not found")),
                    Some(v) => {
                        let len: usize = match &v.node {
                            JsonNode::Str(s) => s.as_str().len(),
                            JsonNode::Array(a) => a.len(),
                            _ => {
                                return done_err(cat(label.as_str(), " length — expected string or array"));
                            },
                        };
                        let len_val = number(len as u64);
                        check_length(label.as_str(), &len_val, len_arg)
                    },
                },
                Some(m) => match val {
                    None => done_err(cat(label.as_str(), " — key not found")),
                    Some(v) => apply_matcher(label.as_str(), v, m),
                },
            }
        },
    }
}

fn check_header(name: &String, matcher: &Option<Matcher>, resp: &ResponseData) -> (o: Outcome)
    ensures
        o@ == check_header_spec(name@, opt_view(*matcher), *resp),
{
    let label = cat("header.", name.as_str());
    let idx = last_index(&resp.headers, name.as_str());
    match matcher {
        None | Some(Matcher::Present) => match idx {
            Some(_) => done_ok(),
            None => done_err(cat(label.as_str(), " — not present")),
        },
        Some(Matcher::Absent) => match idx {
            None => done_ok(),
            Some(i) => {
                let d = debug_str(resp.headers[i].1.as_str());
                done_err(cat3(label.as_str(), " — expected absent, got ", d.as_str()))
            },
        },
        Some(m) => match idx {
            None => done_err(cat(label.as_str(), " — header not found")),
            Some(i) => {
                let val = string(resp.headers[i].1.clone());
                apply_matcher(label.as_str(), &val, m)
            },
        },
    }
}

fn check_cookie(
    name: &String,
    attr: &Option<String>,
    matcher: &Option<Matcher>,
    resp: &ResponseData,
) -> (o: Outcome)
    ensures
        o@ == check_cookie_spec(
            name@,
            match *attr {
                Some(a) => Some(a@),
                None => None,
            },
            opt_view(*matcher),
            *resp,
        ),
{
    let idx = last_index(&resp.cookies, name.as_str());
    match attr {
        None => {
            let label = cat("cookie.", name.as_str());
            match matcher {
                None | Some(Matcher::Present) => match idx {
                    Some(_) => done_ok(),
                    None => done_err(cat(label.as_str(), " — not set")),
                },
                Some(Matcher::Absent) => match idx {
                    None => done_ok(),
                    Some(_) => done_err(cat(label.as_str(), " — expected absent but was set")),
                },
                Some(m) => match idx {
                    None => done_err(cat(label.as_str(), " — not set")),
                    Some(i) => {
                        let val = string(resp.cookies[i].1.value.clone());
                        apply_matcher(label.as_str(), &val, m)
                    },
                },
            }
        },
        Some(attr_name) => {
            let label = cat4("cookie.", name.as_str(), ".", attr_name.as_str());
            let c = match idx {
                Some(i) => &resp.cookies[i].1,
                None => {
                    return done_err(cat3("cookie.", name.as_str(), " — not set"));
                },
            };
            let aidx = last_index(&c.attributes, attr_name.as_str());
            match matcher {
                // No matcher or `present` — just check the attribute exists (e.g. httponly, secure)
                None | Some(Matcher::Present) => match aidx {
                    Some(_) => done_ok(),
                    None => done_err(cat(label.as_str(), " — attribute not set")),
                },
                Some(Matcher::Absent) => match aidx {
                    None => done_ok(),
                    Some(_) => done_err(cat(label.as_str(), " — expected absent but was set")),
                },
                Some(m) => match aidx {
                    None => done_err(cat(label.as_str(), " — attribute not set")),
                    Some(j) => match &c.attributes[j].1 {
                        None => done_err(cat(label.as_str(), " — attribute has no value (flag only)")),
                        Some(v) => {
                            let val = string(v.clone());
                            apply_matcher(label.as_str(), &val, m)
                        },
                    },
                },
            }
        },
    }
}

/// Checks an assertion against a response, before negation.
pub fn check_assert(assert: &Assert, resp: &ResponseData) -> (o: Outcome)
    ensures
        o@ == check_spec(assert@, *resp),
{
    match &assert.target {
        AssertTarget::Status => check_status(resp.status, &assert.matcher),
        AssertTarget::Body(bt) => check_body(bt, &assert.matcher, resp),
        AssertTarget::Header(name) => check_header(name, &assert.matcher, resp),
        AssertTarget::Cookie(name, attr) => check_cookie(name, attr, &assert.matcher, resp),
        AssertTarget::Duration => check_duration(resp.duration_ms, &assert.matcher),
    }
}

/// Evaluates an assertion against a response: its result, or the number
/// query that decides it.
pub fn evaluate_assert(assert: &Assert, resp: &ResponseData) -> (o: Outcome)
    ensures
        o@ == evaluate_spec(assert@, *resp),
{
    let inner = check_assert(assert, resp);
    if assert.negated {
        match inner {
            Outcome::Done(Ok(())) => {
                let t = target_label(&assert.target);
                done_err(cat3("assert not ", t.as_str(), " — expected to fail but passed"))
            },
            Outcome::Done(Err(_)) => done_ok(),
            Outcome::Ask(q) => {
                let t = target_label(&assert.target);
                Outcome::Ask(
                    NumQuery {
                        kind: q.kind,
                        label: q.label,
                        op: q.op,
                        actual: q.actual,
                        actual_text: q.actual_text,
                        expected: q.expected,
                        items: q.items,
                        negated: true,
                        target: t,
                    },
                )
            },
        }
    } else {
        inner
    }
}

/// Completes a number query with its answer.
pub fn finish(q: &NumQuery, answer: &NumAnswer) -> (r: Result<(), String>)
    ensures
        match finish_spec(q@, answer.holds, answer.actual_shown@, answer.expected_shown@) {
            Ok(()) => r is Ok,
            Err(e) => r matches Err(m) && m@ == e,
        },
{
    let e = answer.expected_shown.as_str();
    let inner: Result<(), String> = match q.kind {
        NumKind::Equals => if answer.holds {
            Ok(())
        } else {
            let m1 = cat4("assert ", q.label.as_str(), " equals ", e);
            Err(cat4(m1.as_str(), "\n  expected: ", e, "\n       got: ").concat(q.actual_text.as_str()))
        },
        NumKind::NotEquals => if !answer.holds {
            Ok(())
        } else {
            Err(cat5("assert ", q.label.as_str(), " not-equals ", e, " — values were equal"))
        },
        NumKind::Order(_) => if answer.holds {
            Ok(())
        } else {
            let m1 = cat5("assert ", q.label.as_str(), " ", q.op.as_str(), " ");
            Err(cat3(m1.as_str(), e, " — got ").concat(answer.actual_shown.as_str()))
        },
        NumKind::LengthExact => if answer.holds {
            Ok(())
        } else {
            let m1 = cat4("assert ", q.label.as_str(), " length ", e);
            Err(cat3(m1.as_str(), " — got ", q.actual_text.as_str()))
        },
        NumKind::ArrayHas => if answer.holds {
            Ok(())
        } else {
            Err(cat4(q.label.as_str(), " contains ", e, " — not found in array"))
        },
        NumKind::ArrayLacks => if !answer.holds {
            Ok(())
        } else {
            Err(cat4(q.label.as_str(), " not-contains ", e, " — found in array"))
        },
    };
    if q.negated {
        match inner {
            Ok(()) => Err(cat3("assert not ", q.target.as_str(), " — expected to fail but passed")),
            Err(_) => Ok(()),
        }
    } else {
        inner
    }
}

pub open spec fn result_view(r: Result<(), String>) -> Result<(), Seq<char>> {
    match r {
        Ok(()) => Ok(()),
        Err(m) => Err(m@),
    }
}

/// `r` is a result the outcome `o` can have: its own result, or for a
/// number query, the result of an answer that `answer` can give to it.
pub open spec fn result_of<F: Fn(&NumQuery) -> NumAnswer>(o: SpecOutcome, answer: F, r: Result<(), String>) -> bool {
    match o {
        SpecOutcome::Done(d) => result_view(r) == d,
        SpecOutcome::Ask(q) => exists|nq: NumQuery, a: NumAnswer|
            nq@ == q && #[trigger] answer.ensures((&nq,), a) && result_view(r) == finish_spec(
                q,
                a.holds,
                a.actual_shown@,
                a.expected_shown@,
            ),
    }
}

/// Evaluates every assertion, in order, against the response; `answer`
/// decides the number queries.
pub fn evaluate_all<F: Fn(&NumQuery) -> NumAnswer>(
    asserts: &Vec<Assert>,
    resp: &ResponseData,
    answer: &F,
) -> (rs: Vec<Result<(), String>>)
    requires
        forall|q: &NumQuery| answer.requires((q,)),
    ensures
        rs.len() == asserts.len(),
        forall|i: int|
            0 <= i < asserts.len() ==> result_of(evaluate_spec(asserts@[i]@, *resp), *answer, #[trigger] rs@[i]),
{
    let mut rs: Vec<Result<(), String>> = Vec::new();
    let mut i: usize = 0;
    while i < asserts.len()
        invariant
            i <= asserts.len(),
            rs.len() == i,
            forall|q: &NumQuery| answer.requires((q,)),
            forall|j: int|
                0 <= j < i ==> result_of(evaluate_spec(asserts@[j]@, *resp), *answer, #[trigger] rs@[j]),
        decreases asserts.len() - i,
    {
        let r = match evaluate_assert(&asserts[i], resp) {
            Outcome::Done(d) => d,
            Outcome::Ask(q) => {
                let a = answer(&q);
                let r = finish(&q, &a);
                assert(answer.ensures((&q,), a));
                r
            },
        };
        rs.push(r);
        i += 1;
    }
    rs
}

} // verus!
