//! What the words of the library mean: each keyword of a suite is read as
//! what it names, each matcher decides as its name says, and the words of a
//! request line, a URL, a `Set-Cookie` value and a directive line are read as
//! they are documented.

use vstd::prelude::*;
use crate::check::{
    apply_spec, check_body_spec, check_cookie_spec, check_duration_spec, check_header_spec,
    check_status_spec, finish_spec, last_entry, length_spec, pass, regex_matches, shape, utf8_len,
    NumKind, Relation, ResponseData, Shape, SpecOutcome, SpecQuery,
};
use crate::json::{member, navigate, JsonValue};
use crate::laws::escaped;
use crate::numbers::{all_digits, ascii_lower, is_digit, is_float_text, is_mantissa};
use crate::outline::{word_of, SpecWord};
use crate::preproc::{directive, include_path};
use crate::request::{
    cookie_header_of, cookie_items, is_absolute_url, method_named, resolved_url, schemed,
    split_pairs, HttpMethod,
};
use crate::response::{
    attribute_of, attributes_of, cookie_attributes, cookie_head, cookie_name_value, cookie_tail,
};
use crate::suite::ast::{
    SpecAssert, SpecBodyTarget, SpecGroup, SpecLengthArg, SpecMatcher, SpecSegment, SpecTarget,
    SpecTest, SpecValue,
};
use crate::suite::helpers::{path_segments, target_of};
use crate::suite::lexer::{lex_step, read_quoted, read_raw, skip_ascii_ws, word_token, SpecToken};
use crate::suite::parser::{
    parse_assert, parse_asserts, parse_group, parse_groups, parse_matcher, parse_test, parse_tests,
    parse_value_parts, word_value,
};
use crate::text::{
    decimal, index_of, join, split_all, split_once, trim, trim_end, trim_start, unicode_lowercase,
};

verus! {

/// The tokens with a word at `i`.
pub open spec fn with_word(ts: Seq<SpecToken>, i: int, w: Seq<char>) -> Seq<SpecToken> {
    ts.update(i, SpecToken::Ident(w))
}

/// A matcher read, with the position after it.
pub open spec fn parsed(m: SpecMatcher, j: int) -> Result<(Option<SpecMatcher>, int), Seq<char>> {
    Ok((Some(m), j))
}

/// The words that take no value: `present`, `absent`, `empty`.
pub proof fn law_unary_keywords(ts: Seq<SpecToken>, i: int)
    requires
        0 <= i < ts.len(),
    ensures
        parse_matcher(with_word(ts, i, "present"@), i) == parsed(SpecMatcher::Present, i + 1),
        parse_matcher(with_word(ts, i, "absent"@), i) == parsed(SpecMatcher::Absent, i + 1),
        parse_matcher(with_word(ts, i, "empty"@), i) == parsed(SpecMatcher::Empty, i + 1),
{
    reveal_strlit("present");
    reveal_strlit("absent");
    reveal_strlit("empty");
}

/// Each keyword that takes a value is read as the matcher it names, with
/// the value that follows it; `eq` and `neq` are the short forms of
/// `equals` and `not-equals`.
pub proof fn law_binary_keywords(ts: Seq<SpecToken>, i: int, s: Seq<char>)
    requires
        0 <= i,
        i + 1 < ts.len(),
        ts[i + 1] == SpecToken::QuotedString(s),
    ensures
        parse_matcher(with_word(ts, i, "equals"@), i) == parsed(SpecMatcher::Equals(SpecValue::String(s)), i + 2),
        parse_matcher(with_word(ts, i, "eq"@), i) == parsed(SpecMatcher::Equals(SpecValue::String(s)), i + 2),
        parse_matcher(with_word(ts, i, "not-equals"@), i) == parsed(SpecMatcher::NotEquals(SpecValue::String(s)), i + 2),
        parse_matcher(with_word(ts, i, "neq"@), i) == parsed(SpecMatcher::NotEquals(SpecValue::String(s)), i + 2),
        parse_matcher(with_word(ts, i, "contains"@), i) == parsed(SpecMatcher::Contains(SpecValue::String(s)), i + 2),
        parse_matcher(with_word(ts, i, "not-contains"@), i) == parsed(SpecMatcher::NotContains(SpecValue::String(s)), i + 2),
        parse_matcher(with_word(ts, i, "starts-with"@), i) == parsed(SpecMatcher::StartsWith(SpecValue::String(s)), i + 2),
        parse_matcher(with_word(ts, i, "ends-with"@), i) == parsed(SpecMatcher::EndsWith(SpecValue::String(s)), i + 2),
        parse_matcher(with_word(ts, i, "gt"@), i) == parsed(SpecMatcher::Gt(SpecValue::String(s)), i + 2),
        parse_matcher(with_word(ts, i, "gte"@), i) == parsed(SpecMatcher::Gte(SpecValue::String(s)), i + 2),
        parse_matcher(with_word(ts, i, "lt"@), i) == parsed(SpecMatcher::Lt(SpecValue::String(s)), i + 2),
        parse_matcher(with_word(ts, i, "lte"@), i) == parsed(SpecMatcher::Lte(SpecValue::String(s)), i + 2),
{
    reveal_strlit("present");
    reveal_strlit("absent");
    reveal_strlit("empty");
    reveal_strlit("equals");
    reveal_strlit("eq");
    reveal_strlit("not-equals");
    reveal_strlit("neq");
    reveal_strlit("contains");
    reveal_strlit("not-contains");
    reveal_strlit("starts-with");
    reveal_strlit("ends-with");
    reveal_strlit("gt");
    reveal_strlit("gte");
    reveal_strlit("lt");
    reveal_strlit("lte");
}

/// `length <value>` is an exact length; `length gt|gte|lt|lte <value>` is
/// the comparison its word names.
pub proof fn law_length_keywords(ts: Seq<SpecToken>, i: int, s: Seq<char>)
    requires
        0 <= i,
        i + 2 < ts.len(),
        ts[i + 1] == SpecToken::QuotedString(s),
        ts[i + 2] == SpecToken::QuotedString(s),
    ensures
        parse_matcher(with_word(ts, i, "length"@), i) == parsed(
            SpecMatcher::Length(SpecLengthArg::Exact(SpecValue::String(s))),
            i + 2,
        ),
        parse_matcher(with_word(with_word(ts, i, "length"@), i + 1, "gt"@), i) == parsed(
            SpecMatcher::Length(SpecLengthArg::Gt(SpecValue::String(s))),
            i + 3,
        ),
        parse_matcher(with_word(with_word(ts, i, "length"@), i + 1, "gte"@), i) == parsed(
            SpecMatcher::Length(SpecLengthArg::Gte(SpecValue::String(s))),
            i + 3,
        ),
        parse_matcher(with_word(with_word(ts, i, "length"@), i + 1, "lt"@), i) == parsed(
            SpecMatcher::Length(SpecLengthArg::Lt(SpecValue::String(s))),
            i + 3,
        ),
        parse_matcher(with_word(with_word(ts, i, "length"@), i + 1, "lte"@), i) == parsed(
            SpecMatcher::Length(SpecLengthArg::Lte(SpecValue::String(s))),
            i + 3,
        ),
{
    reveal_strlit("present");
    reveal_strlit("absent");
    reveal_strlit("empty");
    reveal_strlit("equals");
    reveal_strlit("eq");
    reveal_strlit("not-equals");
    reveal_strlit("neq");
    reveal_strlit("contains");
    reveal_strlit("not-contains");
    reveal_strlit("starts-with");
    reveal_strlit("ends-with");
    reveal_strlit("gt");
    reveal_strlit("gte");
    reveal_strlit("lt");
    reveal_strlit("lte");
    reveal_strlit("length");
}

/// `matches` takes a regex literal.
pub proof fn law_matches_keyword(ts: Seq<SpecToken>, i: int, r: Seq<char>)
    requires
        0 <= i,
        i + 1 < ts.len(),
        ts[i + 1] == SpecToken::Regex(r),
    ensures
        parse_matcher(with_word(ts, i, "matches"@), i) == parsed(SpecMatcher::Matches(r), i + 2),
{
    reveal_strlit("present");
    reveal_strlit("absent");
    reveal_strlit("empty");
    reveal_strlit("equals");
    reveal_strlit("eq");
    reveal_strlit("not-equals");
    reveal_strlit("neq");
    reveal_strlit("contains");
    reveal_strlit("not-contains");
    reveal_strlit("starts-with");
    reveal_strlit("ends-with");
    reveal_strlit("gt");
    reveal_strlit("gte");
    reveal_strlit("lt");
    reveal_strlit("lte");
    reveal_strlit("length");
    reveal_strlit("matches");
}

/// The number query an order comparison asks.
pub open spec fn order_query(c: Relation, label: Seq<char>, op: Seq<char>, text: Seq<char>, n: Seq<char>) -> SpecOutcome {
    SpecOutcome::Ask(
        SpecQuery {
            kind: NumKind::Order(c),
            label,
            op,
            actual: Some(text),
            actual_text: text,
            expected: n,
            items: seq![],
            negated: false,
            target: seq![],
        },
    )
}

/// `gt`, `gte`, `lt` and `lte` of a number ask the comparison they name
/// (`>`, `>=`, `<`, `<=`) of the value against the expected number.
pub proof fn law_order_matchers(label: Seq<char>, u: Option<u64>, text: Seq<char>, n: Seq<char>)
    ensures
        apply_spec(label, Shape::Number(u), text, SpecMatcher::Gt(SpecValue::Number(n)))
            == order_query(Relation::Gt, label, "gt"@, text, n),
        apply_spec(label, Shape::Number(u), text, SpecMatcher::Gte(SpecValue::Number(n)))
            == order_query(Relation::Gte, label, "gte"@, text, n),
        apply_spec(label, Shape::Number(u), text, SpecMatcher::Lt(SpecValue::Number(n)))
            == order_query(Relation::Lt, label, "lt"@, text, n),
        apply_spec(label, Shape::Number(u), text, SpecMatcher::Lte(SpecValue::Number(n)))
            == order_query(Relation::Lte, label, "lte"@, text, n),
{
}

/// `length gt|gte|lt|lte <n>` of an array asks that comparison of its number
/// of elements (in decimal) against `n`; `length <n>` asks for equality.
pub proof fn law_length_matchers(label: Seq<char>, items: Seq<JsonValue>, text: Seq<char>, n: Seq<char>)
    ensures
        length_spec(label, Shape::Array(items), SpecLengthArg::Gt(SpecValue::Number(n)))
            == order_query(Relation::Gt, label, "length gt"@, decimal(items.len()), n),
        length_spec(label, Shape::Array(items), SpecLengthArg::Gte(SpecValue::Number(n)))
            == order_query(Relation::Gte, label, "length gte"@, decimal(items.len()), n),
        length_spec(label, Shape::Array(items), SpecLengthArg::Lt(SpecValue::Number(n)))
            == order_query(Relation::Lt, label, "length lt"@, decimal(items.len()), n),
        length_spec(label, Shape::Array(items), SpecLengthArg::Lte(SpecValue::Number(n)))
            == order_query(Relation::Lte, label, "length lte"@, decimal(items.len()), n),
        length_spec(label, Shape::Array(items), SpecLengthArg::Exact(SpecValue::Number(n)))
            == SpecOutcome::Ask(
            SpecQuery {
                kind: NumKind::LengthExact,
                label,
                op: "length"@,
                actual: Some(decimal(items.len())),
                actual_text: decimal(items.len()),
                expected: n,
                items: seq![],
                negated: false,
                target: seq![],
            },
        ),
{
    reveal_strlit("length ");
    reveal_strlit("gt");
    reveal_strlit("gte");
    reveal_strlit("lt");
    reveal_strlit("lte");
    reveal_strlit("length gt");
    reveal_strlit("length gte");
    reveal_strlit("length lt");
    reveal_strlit("length lte");
    assert("length "@ + "gt"@ =~= "length gt"@);
    assert("length "@ + "gte"@ =~= "length gte"@);
    assert("length "@ + "lt"@ =~= "length lt"@);
    assert("length "@ + "lte"@ =~= "length lte"@);
}

/// A number query is decided by its answer: `equals`, exact `length`,
/// `contains` and the order comparisons pass exactly when the comparison
/// holds; `not-equals` and `not-contains` pass exactly when it does not;
/// `not` turns each result over.
pub proof fn law_number_answers(q: SpecQuery, holds: bool, a: Seq<char>, e: Seq<char>)
    ensures
        !q.negated ==> (finish_spec(q, holds, a, e) is Ok <==> (match q.kind {
            NumKind::NotEquals => !holds,
            NumKind::ArrayLacks => !holds,
            _ => holds,
        })),
        q.negated ==> (finish_spec(q, holds, a, e) is Ok <==> (match q.kind {
            NumKind::NotEquals => holds,
            NumKind::ArrayLacks => holds,
            _ => !holds,
        })),
{
}

/// On a string, `starts-with` passes exactly when the needle is a prefix,
/// `ends-with` exactly when it is a suffix, `contains` exactly when it
/// occurs somewhere, and `equals` of a string exactly when the two are the
/// same; a failure is an error.
pub proof fn law_string_matchers(label: Seq<char>, s: Seq<char>, text: Seq<char>, n: Seq<char>)
    ensures
        (apply_spec(label, Shape::Str(s), text, SpecMatcher::StartsWith(SpecValue::String(n))) == pass())
            <==> (n.len() <= s.len() && s.subrange(0, n.len() as int) == n),
        (apply_spec(label, Shape::Str(s), text, SpecMatcher::EndsWith(SpecValue::String(n))) == pass())
            <==> (n.len() <= s.len() && s.subrange(s.len() - n.len(), s.len() as int) == n),
        (apply_spec(label, Shape::Str(s), text, SpecMatcher::Contains(SpecValue::String(n))) == pass())
            <==> (exists|i: int| 0 <= i && i + n.len() <= s.len() && #[trigger] s.subrange(i, i + n.len()) == n),
        (apply_spec(label, Shape::Str(s), text, SpecMatcher::Equals(SpecValue::String(n))) == pass())
            <==> s == n,
        apply_spec(label, Shape::Str(s), text, SpecMatcher::StartsWith(SpecValue::String(n))) is Done,
        apply_spec(label, Shape::Str(s), text, SpecMatcher::EndsWith(SpecValue::String(n))) is Done,
        apply_spec(label, Shape::Str(s), text, SpecMatcher::Contains(SpecValue::String(n))) is Done,
        apply_spec(label, Shape::Str(s), text, SpecMatcher::Equals(SpecValue::String(n))) is Done,
{
    if n.len() <= s.len() {
        assert(s.skip(s.len() - n.len()) =~= s.subrange(s.len() - n.len(), s.len() as int));
        assert(n.is_prefix_of(s) <==> s.subrange(0, n.len() as int) =~= n);
    }
    if crate::text::contains(s, n) {
        let i = choose|i: int| crate::text::occurs_at(s, n, i);
        assert(0 <= i && i + n.len() <= s.len() && s.subrange(i, i + n.len()) == n);
    }
    if exists|i: int| 0 <= i && i + n.len() <= s.len() && #[trigger] s.subrange(i, i + n.len()) == n {
        let i = choose|i: int| 0 <= i && i + n.len() <= s.len() && #[trigger] s.subrange(i, i + n.len()) == n;
        assert(crate::text::occurs_at(s, n, i));
    }
}

/// `empty` passes exactly on an empty string or an empty array; `present`
/// always passes on a value that is there, and `absent` never does;
/// `matches` on a string passes exactly when the pattern matches it.
pub proof fn law_other_matchers(label: Seq<char>, sh: Shape, text: Seq<char>, p: Seq<char>, s: Seq<char>)
    ensures
        (apply_spec(label, sh, text, SpecMatcher::Empty) == pass()) <==> (sh == Shape::Str(seq![])
            || (sh matches Shape::Array(a) && a.len() == 0)),
        apply_spec(label, sh, text, SpecMatcher::Present) == pass(),
        apply_spec(label, sh, text, SpecMatcher::Absent) != pass(),
        (apply_spec(label, Shape::Str(s), text, SpecMatcher::Matches(p)) == pass()) <==> regex_matches(p, s)
            == Some(true),
{
}

/// The truthiness of a value, as an assertion without a matcher reads it:
/// not null, not false, not an empty string, array or object.
pub open spec fn truthy(v: JsonValue) -> bool {
    match shape(v) {
        Shape::Null => false,
        Shape::Bool(b) => b,
        Shape::Str(s) => s.len() > 0,
        Shape::Array(a) => a.len() > 0,
        Shape::Object(k) => k > 0,
        Shape::Number(_) => true,
    }
}

/// On a body path of a JSON body: `absent` passes exactly when the path
/// leads nowhere or to `null`, `present` exactly when `absent` does not, and
/// no matcher exactly when the value is there and truthy.
pub proof fn law_body_path_presence(segs: Seq<SpecSegment>, resp: ResponseData, j: JsonValue)
    requires
        resp.body_json == Some(j),
    ensures
        (check_body_spec(SpecBodyTarget::Path(segs), Some(SpecMatcher::Absent), resp) == pass())
            <==> (navigate(j, segs) is None || shape(navigate(j, segs)->0) is Null),
        (check_body_spec(SpecBodyTarget::Path(segs), Some(SpecMatcher::Present), resp) == pass())
            <==> !(check_body_spec(SpecBodyTarget::Path(segs), Some(SpecMatcher::Absent), resp) == pass()),
        (check_body_spec(SpecBodyTarget::Path(segs), None, resp) == pass()) <==> (navigate(j, segs) matches Some(v)
            && truthy(v)),
{
}

/// A header or a cookie is present exactly when the response sets it, and
/// absent exactly when it does not; without a matcher, presence is asked.
pub proof fn law_header_cookie_presence(n: Seq<char>, resp: ResponseData)
    ensures
        (check_header_spec(n, Some(SpecMatcher::Present), resp) == pass()) <==> last_entry(resp.headers@, n) is Some,
        (check_header_spec(n, None, resp) == pass()) <==> last_entry(resp.headers@, n) is Some,
        (check_header_spec(n, Some(SpecMatcher::Absent), resp) == pass()) <==> last_entry(resp.headers@, n) is None,
        (check_cookie_spec(n, None, Some(SpecMatcher::Present), resp) == pass()) <==> last_entry(resp.cookies@, n) is Some,
        (check_cookie_spec(n, None, None, resp) == pass()) <==> last_entry(resp.cookies@, n) is Some,
        (check_cookie_spec(n, None, Some(SpecMatcher::Absent), resp) == pass()) <==> last_entry(resp.cookies@, n) is None,
{
}

/// On an array, `contains` of a string, a boolean or `null` passes exactly
/// when some element is that value, and `not-contains` exactly when none
/// is; `contains` of a number asks about the array's numbers, in order.
pub proof fn law_array_contains(label: Seq<char>, items: Seq<JsonValue>, text: Seq<char>, n: Seq<char>, b: bool)
    ensures
        (apply_spec(label, Shape::Array(items), text, SpecMatcher::Contains(SpecValue::String(n))) == pass())
            <==> (exists|i: int| 0 <= i < items.len() && shape(#[trigger] items[i]) == Shape::Str(n)),
        (apply_spec(label, Shape::Array(items), text, SpecMatcher::Contains(SpecValue::Bool(b))) == pass())
            <==> (exists|i: int| 0 <= i < items.len() && shape(#[trigger] items[i]) == Shape::Bool(b)),
        (apply_spec(label, Shape::Array(items), text, SpecMatcher::Contains(SpecValue::Null)) == pass())
            <==> (exists|i: int| 0 <= i < items.len() && shape(#[trigger] items[i]) is Null),
        (apply_spec(label, Shape::Array(items), text, SpecMatcher::NotContains(SpecValue::String(n))) == pass())
            <==> (forall|i: int| 0 <= i < items.len() ==> shape(#[trigger] items[i]) != Shape::Str(n)),
        apply_spec(label, Shape::Array(items), text, SpecMatcher::Contains(SpecValue::Number(n))) matches SpecOutcome::Ask(q)
            && q.kind == NumKind::ArrayHas && q.expected == n && q.actual is None && !q.negated,
        apply_spec(label, Shape::Array(items), text, SpecMatcher::NotContains(SpecValue::Number(n))) matches SpecOutcome::Ask(q)
            && q.kind == NumKind::ArrayLacks && q.expected == n && q.actual is None && !q.negated,
{
}

/// `equals` of a boolean or `null` passes exactly on that value and
/// `not-equals` exactly on any other; `equals` and `not-equals` of a number
/// ask the comparison they name, with the value's text when it is a number
/// and nothing to compare when it is not.
pub proof fn law_equals_matchers(label: Seq<char>, sh: Shape, text: Seq<char>, n: Seq<char>, b: bool)
    ensures
        (apply_spec(label, sh, text, SpecMatcher::Equals(SpecValue::Bool(b))) == pass()) <==> sh == Shape::Bool(b),
        (apply_spec(label, sh, text, SpecMatcher::NotEquals(SpecValue::Bool(b))) == pass()) <==> sh != Shape::Bool(b),
        (apply_spec(label, sh, text, SpecMatcher::Equals(SpecValue::Null)) == pass()) <==> sh is Null,
        (apply_spec(label, sh, text, SpecMatcher::NotEquals(SpecValue::Null)) == pass()) <==> !(sh is Null),
        apply_spec(label, sh, text, SpecMatcher::Equals(SpecValue::Number(n))) matches SpecOutcome::Ask(q)
            && q.kind == NumKind::Equals && q.expected == n && !q.negated
            && (q.actual == if sh is Number { Some(text) } else { None }),
        apply_spec(label, sh, text, SpecMatcher::NotEquals(SpecValue::Number(n))) matches SpecOutcome::Ask(q)
            && q.kind == NumKind::NotEquals && q.expected == n && !q.negated
            && (q.actual == if sh is Number { Some(text) } else { None }),
{
}

/// A status assertion compares the status as a number; a duration
/// assertion without a matcher always passes, and one with an order
/// comparison compares the milliseconds.
pub proof fn law_status_and_duration(status: u16, ms: u64, n: Seq<char>)
    ensures
        check_status_spec(status, Some(SpecMatcher::Equals(SpecValue::Number(n)))) matches SpecOutcome::Ask(q)
            && q.kind == NumKind::Equals && q.actual == Some(decimal(status as nat)) && q.expected == n,
        check_status_spec(status, Some(SpecMatcher::Lt(SpecValue::Number(n)))) matches SpecOutcome::Ask(q)
            && q.kind == NumKind::Order(Relation::Lt) && q.actual == Some(decimal(status as nat)) && q.expected == n,
        check_duration_spec(ms as u128, None) == pass(),
        check_duration_spec(ms as u128, Some(SpecMatcher::Lt(SpecValue::Number(n)))) matches SpecOutcome::Ask(q)
            && q.kind == NumKind::Order(Relation::Lt) && q.actual == Some(decimal(ms as nat)) && q.expected == n,
        check_duration_spec(ms as u128, Some(SpecMatcher::Gt(SpecValue::Number(n)))) matches SpecOutcome::Ask(q)
            && q.kind == NumKind::Order(Relation::Gt) && q.actual == Some(decimal(ms as nat)) && q.expected == n,
{
}

/// On the raw body: without a matcher it passes exactly when the body is not
/// empty, `empty` exactly when it is; `length` measures the body in UTF-8
/// bytes.
pub proof fn law_raw_body_presence(resp: ResponseData, n: Seq<char>)
    ensures
        (check_body_spec(SpecBodyTarget::Raw, None, resp) == pass()) <==> resp.body_raw@.len() > 0,
        (check_body_spec(SpecBodyTarget::Raw, Some(SpecMatcher::Empty), resp) == pass()) <==> resp.body_raw@.len() == 0,
        utf8_len(resp.body_raw@) <= usize::MAX ==> (check_body_spec(
            SpecBodyTarget::Raw,
            Some(SpecMatcher::Length(SpecLengthArg::Exact(SpecValue::Number(n)))),
            resp,
        ) matches SpecOutcome::Ask(q) && q.kind == NumKind::LengthExact
            && q.actual == Some(decimal(utf8_len(resp.body_raw@))) && q.expected == n),
{
}

/// On the raw body, `equals` of a string passes exactly when the body is
/// that string, `starts-with` exactly on a prefix and `contains` exactly on
/// an occurrence.
pub proof fn law_raw_body_text(resp: ResponseData, v: Seq<char>)
    ensures
        (check_body_spec(SpecBodyTarget::Raw, Some(SpecMatcher::Equals(SpecValue::String(v))), resp) == pass())
            <==> resp.body_raw@ == v,
        (check_body_spec(SpecBodyTarget::Raw, Some(SpecMatcher::StartsWith(SpecValue::String(v))), resp) == pass())
            <==> (v.len() <= resp.body_raw@.len() && resp.body_raw@.subrange(0, v.len() as int) == v),
        (check_body_spec(SpecBodyTarget::Raw, Some(SpecMatcher::Contains(SpecValue::String(v))), resp) == pass())
            <==> (exists|i: int| 0 <= i && i + v.len() <= resp.body_raw@.len()
                && #[trigger] resp.body_raw@.subrange(i, i + v.len()) == v),
{
    let body = resp.body_raw@;
    let t = crate::json::json_quoted(body);
    law_string_matchers("body"@, body, t, v);
    assert(check_body_spec(SpecBodyTarget::Raw, Some(SpecMatcher::Equals(SpecValue::String(v))), resp)
        == apply_spec("body"@, Shape::Str(body), t, SpecMatcher::Equals(SpecValue::String(v))));
    assert(check_body_spec(SpecBodyTarget::Raw, Some(SpecMatcher::StartsWith(SpecValue::String(v))), resp)
        == apply_spec("body"@, Shape::Str(body), t, SpecMatcher::StartsWith(SpecValue::String(v))));
    assert(check_body_spec(SpecBodyTarget::Raw, Some(SpecMatcher::Contains(SpecValue::String(v))), resp)
        == apply_spec("body"@, Shape::Str(body), t, SpecMatcher::Contains(SpecValue::String(v))));
}

/// On a body path, a string's `length` is its number of UTF-8 bytes and an
/// array's its number of elements.
pub proof fn law_body_path_length(segs: Seq<SpecSegment>, resp: ResponseData, j: JsonValue, n: Seq<char>)
    requires
        resp.body_json == Some(j),
    ensures
        (navigate(j, segs) is Some && shape(navigate(j, segs)->0) is Str
            && utf8_len(shape(navigate(j, segs)->0)->Str_0) <= usize::MAX) ==> (check_body_spec(
            SpecBodyTarget::Path(segs),
            Some(SpecMatcher::Length(SpecLengthArg::Exact(SpecValue::Number(n)))),
            resp,
        ) matches SpecOutcome::Ask(q) && q.kind == NumKind::LengthExact
            && q.actual == Some(decimal(utf8_len(shape(navigate(j, segs)->0)->Str_0))) && q.expected == n),
        (navigate(j, segs) is Some && shape(navigate(j, segs)->0) is Array
            && shape(navigate(j, segs)->0)->Array_0.len() <= usize::MAX) ==> (check_body_spec(
            SpecBodyTarget::Path(segs),
            Some(SpecMatcher::Length(SpecLengthArg::Gte(SpecValue::Number(n)))),
            resp,
        ) matches SpecOutcome::Ask(q) && q.kind == NumKind::Order(Relation::Gte)
            && q.actual == Some(decimal(shape(navigate(j, segs)->0)->Array_0.len())) && q.expected == n),
{
}

/// A header's value matchers read the value of the last header of that
/// name: `equals` of a string passes exactly when it is that string.
pub proof fn law_header_value(name: Seq<char>, resp: ResponseData, v: Seq<char>)
    ensures
        (check_header_spec(name, Some(SpecMatcher::Equals(SpecValue::String(v))), resp) == pass())
            <==> (last_entry(resp.headers@, name) matches Some(x) && x@ == v),
        (check_cookie_spec(name, None, Some(SpecMatcher::Equals(SpecValue::String(v))), resp) == pass())
            <==> (last_entry(resp.cookies@, name) matches Some(c) && c.value@ == v),
{
}

/// The five keywords of the suite language are read as their tokens; every
/// other word is a plain word.
pub proof fn law_keyword_tokens(w: Seq<char>)
    ensures
        word_token("end"@) == SpecToken::End,
        word_token("group"@) == SpecToken::Group,
        word_token("test"@) == SpecToken::Test,
        word_token("assert"@) == SpecToken::Assert,
        word_token("not"@) == SpecToken::Not,
        (word_token(w) == SpecToken::Ident(w)) <==> !(w == "end"@ || w == "group"@ || w == "test"@
            || w == "assert"@ || w == "not"@),
{
    reveal_strlit("end");
    reveal_strlit("group");
    reveal_strlit("test");
    reveal_strlit("assert");
    reveal_strlit("not");
    assert("group"@.len() != "end"@.len());
    assert("test"@.len() != "end"@.len() && "test"@[0] != "group"@[0]);
    assert("assert"@.len() != "end"@.len() && "assert"@[0] != "group"@[0] && "assert"@[0] != "test"@[0]);
    assert("not"@[0] != "end"@[0] && "not"@.len() != "group"@.len() && "not"@.len() != "test"@.len() && "not"@.len() != "assert"@.len());
}

/// A bare word as a value: `true`, `false` and `null` are those literals,
/// a number is a number, and any other word is a string.
pub proof fn law_word_values(w: Seq<char>)
    ensures
        word_value("true"@) == SpecValue::Bool(true),
        word_value("false"@) == SpecValue::Bool(false),
        word_value("null"@) == SpecValue::Null,
        is_float_text(w) ==> word_value(w) == SpecValue::Number(w),
        !is_float_text(w) && w != "true"@ && w != "false"@ && w != "null"@ ==> word_value(w) == SpecValue::String(w),
{
    reveal_strlit("true");
    reveal_strlit("false");
    reveal_strlit("null");
    reveal_strlit("inf");
    reveal_strlit("infinity");
    reveal_strlit("nan");
    lemma_word_is_no_number("true"@);
    lemma_word_is_no_number("false"@);
    lemma_word_is_no_number("null"@);
}

/// The target words: `status`, `duration`, `body`, `body.<path>`,
/// `header.<name>` (lowercased) and `cookie.<name>[.<attribute>]`.
pub proof fn law_target_words(p: Seq<char>, name: Seq<char>, attr: Seq<char>)
    requires
        !name.contains('.'),
    ensures
        target_of("status"@) == Ok::<SpecTarget, Seq<char>>(SpecTarget::Status),
        target_of("duration"@) == Ok::<SpecTarget, Seq<char>>(SpecTarget::Duration),
        target_of("body"@) == Ok::<SpecTarget, Seq<char>>(SpecTarget::Body(SpecBodyTarget::Raw)),
        target_of("body."@ + p) == Ok::<SpecTarget, Seq<char>>(SpecTarget::Body(SpecBodyTarget::Path(path_segments(p)))),
        target_of("header."@ + p) == Ok::<SpecTarget, Seq<char>>(SpecTarget::Header(unicode_lowercase(p))),
        target_of("cookie."@ + name) == Ok::<SpecTarget, Seq<char>>(SpecTarget::Cookie(name, None)),
        target_of("cookie."@ + name + "."@ + attr) == Ok::<SpecTarget, Seq<char>>(
            SpecTarget::Cookie(name, Some(unicode_lowercase(attr))),
        ),
{
    reveal_strlit("status");
    reveal_strlit("duration");
    reveal_strlit("body");
    reveal_strlit("body.");
    reveal_strlit("header.");
    reveal_strlit("cookie.");
    reveal_strlit(".");
    assert("duration"@.len() != "status"@.len());
    assert(("body."@ + p).skip(5) =~= p);
    assert(("header."@ + p).skip(7) =~= p);
    assert(("cookie."@ + name).skip(7) =~= name);
    let c = "cookie."@ + name + "."@ + attr;
    assert(c.skip(7) =~= name + "."@ + attr);
    assert("."@ =~= seq!['.']);
    lemma_split_once_at(name, '.', attr);
    lemma_index_absent(name, '.');
}

/// The first `c` of `a c b`, where `a` has none, follows `a`.
proof fn lemma_index_of_after(a: Seq<char>, c: char, b: Seq<char>)
    requires
        !a.contains(c),
    ensures
        index_of(a + seq![c] + b, c) == Some(a.len() as int),
    decreases a.len(),
{
    if a.len() == 0 {
        assert((a + seq![c] + b)[0] == c);
    } else {
        assert(a[0] != c);
        assert((a + seq![c] + b).drop_first() =~= a.drop_first() + seq![c] + b);
        assert(!a.drop_first().contains(c)) by {
            if a.drop_first().contains(c) {
                let k = choose|k: int| 0 <= k < a.drop_first().len() && a.drop_first()[k] == c;
                assert(a[k + 1] == c);
            }
        }
        lemma_index_of_after(a.drop_first(), c, b);
    }
}

/// A text without `c` has no first `c`.
proof fn lemma_index_absent(a: Seq<char>, c: char)
    requires
        !a.contains(c),
    ensures
        index_of(a, c) is None,
    decreases a.len(),
{
    if a.len() > 0 {
        assert(a[0] != c);
        assert(!a.drop_first().contains(c)) by {
            if a.drop_first().contains(c) {
                let k = choose|k: int| 0 <= k < a.drop_first().len() && a.drop_first()[k] == c;
                assert(a[k + 1] == c);
            }
        }
        lemma_index_absent(a.drop_first(), c);
    }
}

/// `a c b`, where `a` has no `c`, splits at that `c` into `a` and `b`.
proof fn lemma_split_once_at(a: Seq<char>, c: char, b: Seq<char>)
    requires
        !a.contains(c),
    ensures
        split_once(a + seq![c] + b, c) == Some((a, b)),
{
    lemma_index_of_after(a, c, b);
    assert((a + seq![c] + b).take(a.len() as int) =~= a);
    assert((a + seq![c] + b).skip(a.len() as int + 1) =~= b);
}

/// An assertion is negated exactly when `not` follows `assert`.
pub proof fn law_assert_negation(ts: Seq<SpecToken>, i: int)
    requires
        parse_assert(ts, i) is Ok,
    ensures
        parse_assert(ts, i)->Ok_0.0.negated <==> (0 <= i < ts.len() && ts[i] is Not),
{
}

/// The first occurrence that `index_of` finds is one.
proof fn lemma_index_of_found(s: Seq<char>, c: char)
    ensures
        index_of(s, c) matches Some(k) ==> 0 <= k < s.len() && s[k] == c,
    decreases s.len(),
{
    if s.len() > 0 && s[0] != c {
        lemma_index_of_found(s.drop_first(), c);
    }
}

/// A text that begins with neither a digit nor `.` is no mantissa.
proof fn lemma_no_mantissa(m: Seq<char>)
    requires
        m.len() == 0 || (!is_digit(m[0]) && m[0] != '.'),
    ensures
        !is_mantissa(m),
{
    lemma_index_of_found(m, '.');
    if m.len() > 0 {
        assert(!all_digits(m));
        if let Some(k) = index_of(m, '.') {
            assert(m.take(k)[0] == m[0]);
            assert(!all_digits(m.take(k)));
        }
    }
}

/// A word of four to seven characters that begins with a lowercase ASCII
/// letter is not a number.
proof fn lemma_word_is_no_number(s: Seq<char>)
    requires
        4 <= s.len() <= 7,
        'a' as u32 <= s[0] as u32 <= 'z' as u32,
    ensures
        !is_float_text(s),
{
    reveal_strlit("inf");
    reveal_strlit("infinity");
    reveal_strlit("nan");
    let l = s.map_values(|c: char| ascii_lower(c));
    assert(l[0] == s[0]);
    assert(l.len() == s.len());
    lemma_index_of_found(l, 'e');
    match index_of(l, 'e') {
        None => lemma_no_mantissa(l),
        Some(k) => {
            if k == 0 {
                lemma_no_mantissa(l.take(k));
            } else {
                assert(l.take(k)[0] == l[0]);
                lemma_no_mantissa(l.take(k));
            }
        },
    }
}

/// A method is named by `get`, `post`, `put`, `patch` or `delete`, and by
/// no other word.
pub proof fn law_method_names(w: Seq<char>)
    ensures
        method_named("get"@) == Some(HttpMethod::Get),
        method_named("post"@) == Some(HttpMethod::Post),
        method_named("put"@) == Some(HttpMethod::Put),
        method_named("patch"@) == Some(HttpMethod::Patch),
        method_named("delete"@) == Some(HttpMethod::Delete),
        (method_named(w) is Some) <==> (w == "get"@ || w == "post"@ || w == "put"@ || w == "patch"@
            || w == "delete"@),
{
    reveal_strlit("get");
    reveal_strlit("post");
    reveal_strlit("put");
    reveal_strlit("patch");
    reveal_strlit("delete");
    assert("post"@.len() != "get"@.len());
    assert("put"@[1] != "get"@[1]);
    assert("patch"@.len() != "get"@.len() && "patch"@.len() != "post"@.len() && "patch"@.len() != "put"@.len());
    assert("delete"@.len() != "get"@.len() && "delete"@.len() != "post"@.len() && "delete"@.len()
        != "put"@.len() && "delete"@.len() != "patch"@.len());
}

/// A URL that names its scheme is used as it is; one that does not begin
/// with `h` gets `http://` in front, and a scheme is never added twice. A
/// test's URL with a scheme ignores the run's base; any other is appended
/// to it.
pub proof fn law_url_scheme(base: Seq<char>, x: Seq<char>, u: Seq<char>)
    ensures
        schemed("http://"@ + x) == "http://"@ + x,
        schemed("https://"@ + x) == "https://"@ + x,
        (u.len() == 0 || u[0] != 'h') ==> schemed(u) == "http://"@ + u,
        schemed(schemed(u)) == schemed(u),
        resolved_url(base, "http://"@ + x) == "http://"@ + x,
        resolved_url(base, "https://"@ + x) == "https://"@ + x,
        (u.len() == 0 || u[0] != 'h') ==> resolved_url(base, u) == base + u,
{
    reveal_strlit("http://");
    reveal_strlit("https://");
    assert("http://"@.is_prefix_of("http://"@ + x)) by {
        assert(("http://"@ + x).subrange(0, 7) =~= "http://"@);
    }
    assert("https://"@.is_prefix_of("https://"@ + x)) by {
        assert(("https://"@ + x).subrange(0, 8) =~= "https://"@);
    }
    if u.len() == 0 || u[0] != 'h' {
        assert(!"http://"@.is_prefix_of(u)) by {
            if "http://"@.is_prefix_of(u) {
                assert(u[0] == "http://"@[0]);
            }
        }
        assert(!"https://"@.is_prefix_of(u)) by {
            if "https://"@.is_prefix_of(u) {
                assert(u[0] == "https://"@[0]);
            }
        }
    }
    if !is_absolute_url(u) {
        assert(("http://"@ + u).subrange(0, 7) =~= "http://"@);
    }
}

/// An item `k<c>v` whose key holds no `c` becomes the pair `(k, v)`, after
/// the pairs of the items before it; an item without `c` is left out.
pub proof fn law_split_pairs(items: Seq<Seq<char>>, k: Seq<char>, c: char, v: Seq<char>)
    requires
        !k.contains(c),
    ensures
        split_pairs(items.push(k + seq![c] + v), c) == split_pairs(items, c).push((k, v)),
        split_pairs(items.push(k), c) == split_pairs(items, c),
{
    lemma_split_once_at(k, c, v);
    lemma_index_absent(k, c);
    assert(items.push(k + seq![c] + v).drop_last() =~= items);
    assert(items.push(k).drop_last() =~= items);
}

/// The `Cookie` header of `k=v` items holds them joined with `; `; items
/// without `=` add nothing, and with none left there is no header.
pub proof fn law_cookie_header(k1: Seq<char>, v1: Seq<char>, k2: Seq<char>, v2: Seq<char>)
    requires
        !k1.contains('='),
        !k2.contains('='),
    ensures
        cookie_header_of(seq![k1 + "="@ + v1]) == Some(k1 + "="@ + v1),
        cookie_header_of(seq![k1 + "="@ + v1, k2 + "="@ + v2]) == Some(k1 + "="@ + v1 + "; "@ + k2 + "="@ + v2),
        cookie_header_of(seq![k1]) is None,
{
    reveal_strlit("=");
    reveal_strlit("; ");
    assert("="@ =~= seq!['=']);
    let a = k1 + "="@ + v1;
    let b = k2 + "="@ + v2;
    law_split_pairs(seq![], k1, '=', v1);
    law_split_pairs(seq![a], k2, '=', v2);
    law_split_pairs(seq![], k1, '=', v1);
    law_split_pairs(seq![], k1, '=', seq![]);
    assert(seq![].push(a) =~= seq![a]);
    assert(seq![a].push(b) =~= seq![a, b]);
    assert(seq![].push(k1) =~= seq![k1]);
    assert(split_pairs(seq![], '=') =~= seq![]);
    assert(split_pairs(seq![a], '=') =~= seq![(k1, v1)]);
    lemma_split_once_at(k1, '=', v1);
    assert(split_pairs(seq![a, b], '=') =~= seq![(k1, v1), (k2, v2)]);
    let f = |p: (Seq<char>, Seq<char>)| p.0 + "="@ + p.1;
    assert(cookie_items(seq![a]) =~= seq![a]);
    assert(cookie_items(seq![a, b]) =~= seq![a, b]);
    assert(cookie_items(seq![k1]) =~= seq![]);
    assert(seq![a, b].drop_last() =~= seq![a]);
    assert(a.len() > 0);
    assert((a + "; "@ + b).len() > 0);
}

/// A `Set-Cookie` value is cut at its first `;`: what comes before names the
/// cookie and its value, what follows holds its attributes; a value without
/// `;` has no attributes.
pub proof fn law_set_cookie_parts(h: Seq<char>, t: Seq<char>)
    requires
        !h.contains(';'),
    ensures
        cookie_head(h + ";"@ + t) == h,
        cookie_tail(h + ";"@ + t) == t,
        cookie_name_value(h + ";"@ + t) == cookie_name_value(h),
        cookie_head(h) == h,
        cookie_attributes(h) == Seq::<(Seq<char>, Option<Seq<char>>)>::empty(),
{
    reveal_strlit(";");
    assert(";"@ =~= seq![';']);
    lemma_index_of_after(h, ';', t);
    lemma_index_absent(h, ';');
    assert((h + ";"@ + t).take(h.len() as int) =~= h);
    assert((h + ";"@ + t).skip(h.len() as int + 1) =~= t);
    let e = Seq::<char>::empty();
    assert(cookie_tail(h) == e);
    assert(index_of(e, ';') is None);
    assert(split_all(e, ';') == seq![e]);
    assert(seq![e].drop_last() =~= Seq::<Seq<char>>::empty());
    assert(trim_start(e) == e);
    assert(trim_end(e) == e);
    assert(attribute_of(e) is None);
    assert(seq![e].last() == e);
    assert(seq![e].len() == 1);
    assert(attributes_of(Seq::<Seq<char>>::empty()) == Seq::<(Seq<char>, Option<Seq<char>>)>::empty());
    assert(attributes_of(seq![e]) =~= Seq::<(Seq<char>, Option<Seq<char>>)>::empty());
}

/// A cookie attribute `name=value` (trimmed) gives its lowercased name and
/// its value; one without `=` is a flag with no value; an empty part is
/// none.
pub proof fn law_cookie_attribute(part: Seq<char>, k: Seq<char>, v: Seq<char>)
    requires
        !k.contains('='),
    ensures
        trim(part) == k + "="@ + v ==> attribute_of(part) == Some((unicode_lowercase(trim(k)), Some(trim(v)))),
        (trim(part).len() > 0 && !trim(part).contains('=')) ==> attribute_of(part) == Some(
            (unicode_lowercase(trim(part)), None::<Seq<char>>),
        ),
        trim(part).len() == 0 ==> attribute_of(part) is None,
{
    reveal_strlit("=");
    assert("="@ =~= seq!['=']);
    lemma_split_once_at(k, '=', v);
    if trim(part) == k + "="@ + v {
        assert(trim(part).len() > 0);
    }
    if !trim(part).contains('=') {
        lemma_index_absent(trim(part), '=');
    }
}

/// The four keywords of a suite's outline are read as their tokens; every
/// other word is a plain word.
pub proof fn law_outline_keywords(w: Seq<char>)
    ensures
        word_of("end"@) == SpecWord::End,
        word_of("group"@) == SpecWord::Group,
        word_of("test"@) == SpecWord::Test,
        word_of("assert"@) == SpecWord::Assert,
        (word_of(w) == SpecWord::Ident(w)) <==> !(w == "end"@ || w == "group"@ || w == "test"@ || w == "assert"@),
{
    reveal_strlit("end");
    reveal_strlit("group");
    reveal_strlit("test");
    reveal_strlit("assert");
    assert("group"@.len() != "end"@.len());
    assert("test"@.len() != "end"@.len() && "test"@[0] != "group"@[0]);
    assert("assert"@.len() != "end"@.len() && "assert"@[0] != "group"@[0] && "assert"@[0] != "test"@[0]);
}

/// `include "<path>"` names the path between the quotes; `replace <rest>`
/// is a directive with that rest.
pub proof fn law_include_and_replace_lines(line: Seq<char>, p: Seq<char>, x: Seq<char>)
    ensures
        trim(line) == "include \""@ + p + "\""@ ==> include_path(line) == Some(p),
        directive("replace "@ + x) == Some(x),
{
    reveal_strlit("include \"");
    reveal_strlit("\"");
    reveal_strlit("replace ");
    let t = "include \""@ + p + "\""@;
    assert(t.subrange(0, 9) =~= "include \""@);
    assert(t.skip(9) =~= p + "\""@);
    let r = p + "\""@;
    assert(r.skip(r.len() - 1) =~= "\""@);
    assert(r.take(r.len() - 1) =~= p);
    let d = "replace "@ + x;
    assert(d.subrange(0, 8) =~= "replace "@);
    assert(d.skip(8) =~= x);
}

/// The words from `i` up to `assert` or `end` are a test's request line.
proof fn lemma_value_words(ts: Seq<SpecToken>, i: int, ws: Seq<Seq<char>>)
    requires
        0 <= i,
        i + ws.len() < ts.len(),
        forall|k: int| 0 <= k < ws.len() ==> ts[i + k] == SpecToken::Ident(#[trigger] ws[k]),
        ts[i + ws.len()] is Assert || ts[i + ws.len()] is End,
    ensures
        parse_value_parts(ts, i) == Ok::<(Seq<Seq<char>>, int), Seq<char>>((ws, i + ws.len())),
    decreases ws.len(),
{
    if ws.len() > 0 {
        assert(ts[i + 0] == SpecToken::Ident(ws[0]));
        assert forall|k: int| 0 <= k < ws.drop_first().len() implies ts[(i + 1) + k] == SpecToken::Ident(
            #[trigger] ws.drop_first()[k],
        ) by {
            assert(ts[i + (k + 1)] == SpecToken::Ident(ws[k + 1]));
        }
        lemma_value_words(ts, i + 1, ws.drop_first());
        assert(seq![ws[0]] + ws.drop_first() =~= ws);
    } else {
        assert(ws =~= Seq::<Seq<char>>::empty());
    }
}

/// `test <name> <words> assert <a1> assert <a2> end` is the test of that
/// name whose request line is the words joined by spaces, and whose
/// assertions are `a1` then `a2`, in the order written.
pub proof fn law_test_layout(
    ts: Seq<SpecToken>,
    i: int,
    t: Seq<char>,
    ws: Seq<Seq<char>>,
    a1: SpecAssert,
    j1: int,
    a2: SpecAssert,
    j2: int,
)
    requires
        0 <= i,
        i + 2 + ws.len() < ts.len(),
        ts[i] is Test,
        ts[i + 1] == SpecToken::Ident(t),
        forall|k: int| 0 <= k < ws.len() ==> ts[i + 2 + k] == SpecToken::Ident(#[trigger] ws[k]),
        ts[i + 2 + ws.len()] is Assert,
        parse_assert(ts, i + 3 + ws.len()) == Ok::<(SpecAssert, int), Seq<char>>((a1, j1)),
        0 <= j1 < ts.len(),
        ts[j1] is Assert,
        parse_assert(ts, j1 + 1) == Ok::<(SpecAssert, int), Seq<char>>((a2, j2)),
        0 <= j2 < ts.len(),
        ts[j2] is End,
    ensures
        parse_test(ts, i) == Ok::<(SpecTest, int), Seq<char>>(
            (SpecTest { name: t, value: join(ws, " "@), asserts: seq![a1, a2] }, j2 + 1),
        ),
{
    assert forall|k: int| 0 <= k < ws.len() implies ts[(i + 2) + k] == SpecToken::Ident(#[trigger] ws[k]) by {
        assert(ts[i + 2 + k] == SpecToken::Ident(ws[k]));
    }
    lemma_value_words(ts, i + 2, ws);
    let k = i + 2 + ws.len();
    assert(parse_asserts(ts, j2) == Ok::<(Seq<SpecAssert>, int), Seq<char>>((seq![], j2 + 1)));
    assert(parse_asserts(ts, j1) == Ok::<(Seq<SpecAssert>, int), Seq<char>>((seq![a2], j2 + 1))) by {
        assert(seq![a2] + Seq::<SpecAssert>::empty() =~= seq![a2]);
    }
    assert(parse_asserts(ts, k) == Ok::<(Seq<SpecAssert>, int), Seq<char>>((seq![a1, a2], j2 + 1))) by {
        assert(seq![a1] + seq![a2] =~= seq![a1, a2]);
    }
}

/// `group <name> <test1> <test2> end` is the group of that name with the
/// two tests in the order written; the groups of a suite also keep their
/// order.
pub proof fn law_group_layout(
    ts: Seq<SpecToken>,
    i: int,
    g: Seq<char>,
    t1: SpecTest,
    j1: int,
    t2: SpecTest,
    j2: int,
    g2: SpecGroup,
    j3: int,
)
    requires
        0 <= i,
        i + 2 < ts.len(),
        ts[i] is Group,
        ts[i + 1] == SpecToken::Ident(g),
        ts[i + 2] is Test,
        parse_test(ts, i + 2) == Ok::<(SpecTest, int), Seq<char>>((t1, j1)),
        0 <= j1 < ts.len(),
        ts[j1] is Test,
        parse_test(ts, j1) == Ok::<(SpecTest, int), Seq<char>>((t2, j2)),
        0 <= j2 < ts.len(),
        ts[j2] is End,
    ensures
        parse_group(ts, i) == Ok::<Option<(SpecGroup, int)>, Seq<char>>(
            Some((SpecGroup { name: g, tests: seq![t1, t2] }, j2 + 1)),
        ),
        (parse_group(ts, j2 + 1) == Ok::<Option<(SpecGroup, int)>, Seq<char>>(Some((g2, j3))) && parse_groups(
            ts,
            j3,
        ) == Ok::<Seq<SpecGroup>, Seq<char>>(seq![])) ==> parse_groups(ts, i) == Ok::<Seq<SpecGroup>, Seq<char>>(
            seq![SpecGroup { name: g, tests: seq![t1, t2] }, g2],
        ),
{
    assert(parse_tests(ts, j2) == Ok::<(Seq<SpecTest>, int), Seq<char>>((seq![], j2 + 1)));
    assert(parse_tests(ts, j1) == Ok::<(Seq<SpecTest>, int), Seq<char>>((seq![t2], j2 + 1))) by {
        assert(seq![t2] + Seq::<SpecTest>::empty() =~= seq![t2]);
    }
    assert(parse_tests(ts, i + 2) == Ok::<(Seq<SpecTest>, int), Seq<char>>((seq![t1, t2], j2 + 1))) by {
        assert(seq![t1] + seq![t2] =~= seq![t1, t2]);
    }
    let gr = SpecGroup { name: g, tests: seq![t1, t2] };
    if parse_group(ts, j2 + 1) == Ok::<Option<(SpecGroup, int)>, Seq<char>>(Some((g2, j3))) && parse_groups(ts, j3)
        == Ok::<Seq<SpecGroup>, Seq<char>>(seq![]) {
        assert(parse_groups(ts, j2 + 1) == Ok::<Seq<SpecGroup>, Seq<char>>(seq![g2])) by {
            assert(seq![g2] + Seq::<SpecGroup>::empty() =~= seq![g2]);
        }
        assert(seq![gr] + seq![g2] =~= seq![gr, g2]);
    }
}

proof fn lemma_read_quoted_of(w: Seq<char>, rest: Seq<char>)
    ensures
        read_quoted(escaped(w) + seq!['"'] + rest) == (w, rest),
    decreases w.len(),
{
    let s = escaped(w) + seq!['"'] + rest;
    if w.len() == 0 {
        assert(s =~= seq!['"'] + rest);
        assert(s.drop_first() =~= rest);
    } else if w[0] == '"' || w[0] == '\\' {
        lemma_read_quoted_of(w.drop_first(), rest);
        assert(s =~= seq!['\\', w[0]] + (escaped(w.drop_first()) + seq!['"'] + rest));
        assert(s.skip(2) =~= escaped(w.drop_first()) + seq!['"'] + rest);
        assert(seq![w[0]] + w.drop_first() =~= w);
    } else {
        lemma_read_quoted_of(w.drop_first(), rest);
        assert(s =~= seq![w[0]] + (escaped(w.drop_first()) + seq!['"'] + rest));
        assert(s.drop_first() =~= escaped(w.drop_first()) + seq!['"'] + rest);
        assert(seq![w[0]] + w.drop_first() =~= w);
    }
}

proof fn lemma_read_raw_of(w: Seq<char>, rest: Seq<char>)
    requires
        !w.contains('"'),
    ensures
        read_raw(w + seq!['"'] + rest) == (w, rest),
    decreases w.len(),
{
    let s = w + seq!['"'] + rest;
    if w.len() == 0 {
        assert(s =~= seq!['"'] + rest);
        assert(s.drop_first() =~= rest);
    } else {
        assert(w[0] != '"');
        assert(!w.drop_first().contains('"')) by {
            if w.drop_first().contains('"') {
                let k = choose|k: int| 0 <= k < w.drop_first().len() && w.drop_first()[k] == '"';
                assert(w[k + 1] == '"');
            }
        }
        lemma_read_raw_of(w.drop_first(), rest);
        assert(s.drop_first() =~= w.drop_first() + seq!['"'] + rest);
        assert(seq![w[0]] + w.drop_first() =~= w);
    }
}

/// A quoted string in a suite reads back as the text it was written from,
/// with its `"` and `\` escaped; `\n` and `\t` stand for a newline and a
/// tab. A regex literal `r"..."` is its text up to the next quote, taken as
/// it is.
pub proof fn law_lexer_literals(w: Seq<char>, rest: Seq<char>, s: Seq<char>)
    ensures
        lex_step(seq!['"'] + escaped(w) + seq!['"'] + rest) == Some((SpecToken::QuotedString(w), rest)),
        !w.contains('"') ==> lex_step(seq!['r', '"'] + w + seq!['"'] + rest) == Some((SpecToken::Regex(w), rest)),
        read_quoted(seq!['\\', 'n'] + s) == (seq!['\n'] + read_quoted(s).0, read_quoted(s).1),
        read_quoted(seq!['\\', 't'] + s) == (seq!['\t'] + read_quoted(s).0, read_quoted(s).1),
{
    let q = seq!['"'] + escaped(w) + seq!['"'] + rest;
    assert(skip_ascii_ws(q) == q);
    assert(q.drop_first() =~= escaped(w) + seq!['"'] + rest);
    lemma_read_quoted_of(w, rest);
    if !w.contains('"') {
        let r = seq!['r', '"'] + w + seq!['"'] + rest;
        assert(skip_ascii_ws(r) == r);
        assert(r.skip(2) =~= w + seq!['"'] + rest);
        lemma_read_raw_of(w, rest);
    }
    assert((seq!['\\', 'n'] + s).skip(2) =~= s);
    assert((seq!['\\', 't'] + s).skip(2) =~= s);
}

/// A key of a JSON object finds the value of its first member of that name,
/// and nothing when no member has it; an index finds the element at that
/// position of an array.
pub proof fn law_member_lookup(ms: Seq<(String, JsonValue)>, k: Seq<char>, i: int)
    ensures
        (0 <= i < ms.len() && ms[i].0@ == k && forall|j: int| 0 <= j < i ==> (#[trigger] ms[j]).0@ != k) ==> member(ms, k)
            == Some(ms[i].1),
        (forall|j: int| 0 <= j < ms.len() ==> (#[trigger] ms[j]).0@ != k) ==> member(ms, k) is None,
    decreases ms.len(),
{
    if ms.len() > 0 {
        law_member_lookup(ms.drop_first(), k, i - 1);
        if 0 <= i < ms.len() && ms[i].0@ == k && forall|j: int| 0 <= j < i ==> (#[trigger] ms[j]).0@ != k {
            if i > 0 {
                assert(ms[0].0@ != k);
                assert(ms.drop_first()[i - 1] == ms[i]);
                assert forall|j: int| 0 <= j < i - 1 implies (#[trigger] ms.drop_first()[j]).0@ != k by {
                    assert(ms[j + 1].0@ != k);
                }
            }
        }
        if forall|j: int| 0 <= j < ms.len() ==> (#[trigger] ms[j]).0@ != k {
            assert(ms[0].0@ != k);
            assert forall|j: int| 0 <= j < ms.drop_first().len() implies (#[trigger] ms.drop_first()[j]).0@ != k by {
                assert(ms[j + 1].0@ != k);
            }
        }
    }
}

} // verus!
