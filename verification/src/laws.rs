//! Properties that relate several parts of the library.

use vstd::prelude::*;
use crate::check::{check_spec, pass, fail, last_entry, ResponseData};
use crate::json_body::{find_key, set_path, SpecField, SpecNode};
use crate::request::{bare_len, lemma_bare_len, lemma_trim_start_len, read_escaped, split_words};
use crate::suite::lexer::{lemma_skip_ascii_ws_len, lemma_word_len, lex, skip_ascii_ws, word_len, word_token};
use crate::json::{navigate, step, JsonValue};
use crate::suite::ast::SpecSegment;
use crate::check::{apply_spec, outcome_result, Shape};
use crate::report::{errors_of, passed_in, total_passed, total_tests, GroupResult, TestResult};
use crate::text::trim_start;
use crate::preproc::{directive, directive_entry, env_value, index_of_ws, kept_lines, next_line, written_value};
use crate::request::pairs_of;
use crate::response::lowered_names;
use crate::suite::ast::{SpecAssert, SpecMatcher, SpecTarget};
use crate::suite::lexer::SpecToken;
use crate::suite::parser::{binary_kind, parse_matcher, unary_matcher, word_value};
use crate::text::{decimal, index_of, lemma_index_of_range, trim, unicode_lowercase};

verus! {

/// A word after an assert target that names no matcher is an implicit
/// `equals` of the value the word stands for; a quoted string there is an
/// implicit `equals` of that string. So `assert body.role admin` and
/// `assert body.role "admin"` are the same assertion.
pub proof fn law_bare_word_is_implicit_equals(ts: Seq<SpecToken>, i: int, w: Seq<char>)
    requires
        0 <= i < ts.len(),
        ts[i] == SpecToken::Ident(w),
        unary_matcher(w) is None,
        binary_kind(w) is None,
        w != "length"@,
        w != "matches"@,
    ensures
        parse_matcher(ts, i) == Ok::<(Option<SpecMatcher>, int), Seq<char>>(
            (Some(SpecMatcher::Equals(word_value(w))), i + 1),
        ),
        word_value(w) is String ==> parse_matcher(ts.update(i, SpecToken::QuotedString(w)), i)
            == parse_matcher(ts, i),
{
}

/// A `replace` directive with a value written after its name ignores the
/// environment; one without (or with only a `# ...` comment) takes the
/// environment's value of its name.
pub proof fn law_directive_value(rest: Seq<char>, env1: Seq<(Seq<char>, Seq<char>)>, env2: Seq<(Seq<char>, Seq<char>)>)
    ensures
        index_of_ws(rest) matches Some(k) ==> (written_value(rest.skip(k + 1)).len() > 0
            ==> directive_entry(rest, env1) == directive_entry(rest, env2)),
        index_of_ws(rest) matches Some(k) ==> (written_value(rest.skip(k + 1)).len() == 0
            ==> directive_entry(rest, env1) == (rest.take(k), env_value(env1, rest.take(k)))),
        index_of_ws(rest) is None ==> directive_entry(rest, env1) == (rest, env_value(env1, rest)),
{
}

/// A `replace` line leaves nothing in the text that is parsed; any other line
/// is kept, trimmed.
pub proof fn law_directive_lines_dropped(line: Seq<char>, rest: Seq<char>)
    requires
        index_of(line, '\n') is None,
    ensures
        directive(trim(line)) is Some ==> kept_lines(line + "\n"@ + rest) == kept_lines(rest),
        directive(trim(line)) is None ==> kept_lines(line + "\n"@ + rest) == trim(line) + "\n"@
            + kept_lines(rest),
{
    reveal_strlit("\n");
    let s = line + "\n"@ + rest;
    lemma_index_of_range(line, '\n');
    lemma_index_of_range(s, '\n');
    assert(s[line.len() as int] == '\n');
    let k = index_of(s, '\n')->0;
    if k < line.len() {
        assert(s[k] == line[k]);
    }
    assert(k == line.len());
    assert(s.take(k) =~= line);
    assert(s.skip(k + 1) =~= rest);
    if line.len() > 0 && line.last() == '\r' {
        lemma_trim_push_ws(line.drop_last(), '\r');
        assert(line.drop_last().push('\r') =~= line);
    }
    assert(trim(next_line(s).0) == trim(line));
    assert(next_line(s).1 == rest);
}

proof fn lemma_trim_start_push(s: Seq<char>, c: char)
    ensures
        trim_start(s).len() > 0 ==> trim_start(s.push(c)) == trim_start(s).push(c),
        trim_start(s).len() == 0 ==> trim_start(s.push(c)) == trim_start(seq![c]),
    decreases s.len(),
{
    if s.len() == 0 {
        assert(s.push(c) =~= seq![c]);
    } else {
        assert(s.push(c)[0] == s[0]);
        assert(s.push(c).drop_first() =~= s.drop_first().push(c));
        if crate::text::is_unicode_ws(s[0]) {
            lemma_trim_start_push(s.drop_first(), c);
        }
    }
}

proof fn lemma_trim_end_push_ws(s: Seq<char>, c: char)
    requires
        crate::text::is_unicode_ws(c),
    ensures
        crate::text::trim_end(s.push(c)) == crate::text::trim_end(s),
{
    assert(s.push(c).drop_last() =~= s);
}

/// Trimming ignores one more whitespace character at the end.
proof fn lemma_trim_push_ws(s: Seq<char>, c: char)
    requires
        crate::text::is_unicode_ws(c),
    ensures
        trim(s.push(c)) == trim(s),
{
    lemma_trim_start_push(s, c);
    if trim_start(s).len() > 0 {
        lemma_trim_end_push_ws(trim_start(s), c);
    } else {
        let one = seq![c];
        assert(one[0] == c);
        assert(one.drop_first() =~= Seq::<char>::empty());
        assert(trim_start(Seq::<char>::empty()) == Seq::<char>::empty());
        assert(trim_start(one) == trim_start(one.drop_first()));
        assert(trim_start(one) =~= seq![]);
        assert(trim_start(s) =~= seq![]);
    }
}

/// Without a matcher, a status assertion passes exactly on a 2xx status.
pub proof fn law_status_without_matcher(resp: ResponseData)
    ensures
        check_spec(SpecAssert { negated: false, target: SpecTarget::Status, matcher: None }, resp)
            == (if 200 <= resp.status < 300 {
            pass()
        } else {
            fail("assert status — expected 2xx, got "@ + decimal(resp.status as nat))
        }),
{
}

/// Header names are compared without case: after the names of a response's
/// headers are lowercased, the lowercased name of an assertion finds the last
/// header whose name lowercases to the same.
pub proof fn law_header_lookup_ignores_case(
    raw: Seq<(Seq<char>, Seq<char>)>,
    resp: ResponseData,
    name: Seq<char>,
)
    requires
        pairs_of(resp.headers@) == lowered_names(raw),
    ensures
        (last_entry(resp.headers@, unicode_lowercase(name)) is Some) <==> (exists|j: int|
            0 <= j < raw.len() && unicode_lowercase(#[trigger] raw[j].0) == unicode_lowercase(name)),
    decreases raw.len(),
{
    let h = resp.headers@;
    let k = unicode_lowercase(name);
    assert(h.len() == raw.len()) by {
        assert(pairs_of(h).len() == h.len());
    }
    lemma_last_entry_found(h, k, raw);
}

proof fn lemma_last_entry_found(h: Seq<(String, String)>, k: Seq<char>, raw: Seq<(Seq<char>, Seq<char>)>)
    requires
        pairs_of(h) == lowered_names(raw),
    ensures
        (last_entry(h, k) is Some) <==> (exists|j: int| 0 <= j < raw.len() && unicode_lowercase(#[trigger] raw[j].0) == k),
    decreases h.len(),
{
    assert(pairs_of(h).len() == h.len());
    assert(lowered_names(raw).len() == raw.len());
    if h.len() > 0 {
        let n = h.len() - 1;
        assert(pairs_of(h)[n] == lowered_names(raw)[n]);
        assert(h.last().0@ == unicode_lowercase(raw[n].0));
        assert forall|j: int| 0 <= j < n implies pairs_of(h.drop_last())[j] == lowered_names(
            raw.drop_last(),
        )[j] by {
            assert(pairs_of(h)[j] == lowered_names(raw)[j]);
            assert(h.drop_last()[j] == h[j]);
            assert(raw.drop_last()[j] == raw[j]);
        }
        assert(pairs_of(h.drop_last()) =~= lowered_names(raw.drop_last()));
        lemma_last_entry_found(h.drop_last(), k, raw.drop_last());
        if h.last().0@ != k {
            if exists|j: int| 0 <= j < raw.len() && unicode_lowercase(#[trigger] raw[j].0) == k {
                let j = choose|j: int| 0 <= j < raw.len() && unicode_lowercase(#[trigger] raw[j].0) == k;
                assert(j < n);
                assert(raw.drop_last()[j] == raw[j]);
            }
            if exists|j: int| 0 <= j < raw.drop_last().len() && unicode_lowercase(#[trigger] raw.drop_last()[j].0) == k {
                let j = choose|j: int| 0 <= j < raw.drop_last().len() && unicode_lowercase(#[trigger] raw.drop_last()[j].0) == k;
                assert(raw[j] == raw.drop_last()[j]);
            }
        }
    }
}

proof fn lemma_find_key(es: Seq<(Seq<char>, SpecNode)>, k: Seq<char>)
    ensures
        match find_key(es, k) {
            Some(i) => 0 <= i < es.len() && es[i].0 == k && forall|j: int| 0 <= j < i ==> es[j].0 != k,
            None => forall|j: int| 0 <= j < es.len() ==> es[j].0 != k,
        },
    decreases es.len(),
{
    if es.len() > 0 && es[0].0 != k {
        lemma_find_key(es.drop_first(), k);
        assert forall|j: int| 0 < j < es.len() implies es[j].0 == es.drop_first()[j - 1].0 by {}
    }
}

proof fn lemma_find_key_at(es: Seq<(Seq<char>, SpecNode)>, k: Seq<char>, i: int)
    requires
        0 <= i < es.len(),
        es[i].0 == k,
        forall|j: int| 0 <= j < i ==> es[j].0 != k,
    ensures
        find_key(es, k) == Some(i),
    decreases es.len(),
{
    if i > 0 {
        assert(es[0].0 != k);
        assert forall|j: int| 0 <= j < i - 1 implies es.drop_first()[j].0 != k by {
            assert(es.drop_first()[j] == es[j + 1]);
        }
        lemma_find_key_at(es.drop_first(), k, i - 1);
    }
}

/// A field set again at the same path replaces the value set before: of two
/// `--json` fields with the same key, the later one counts.
pub proof fn law_json_field_override(es: Seq<(Seq<char>, SpecNode)>, p: Seq<Seq<char>>, a: SpecField, b: SpecField)
    requires
        p.len() >= 1,
    ensures
        set_path(set_path(es, p, a), p, b) == set_path(es, p, b),
    decreases p.len(),
{
    let k = p[0];
    let rest = p.drop_first();
    lemma_find_key(es, k);
    let es1 = set_path(es, p, a);
    match find_key(es, k) {
        Some(i) => {
            let n1 = es1[i].1;
            assert(es1 == es.update(i, (k, n1)));
            lemma_find_key_at(es1, k, i);
            if p.len() > 1 {
                let child0 = match es[i].1 {
                    SpecNode::Object(c) => c,
                    SpecNode::Leaf(_) => seq![],
                };
                assert(n1 == SpecNode::Object(set_path(child0, rest, a)));
                law_json_field_override(child0, rest, a, b);
            }
            assert(set_path(es1, p, b) =~= set_path(es, p, b));
        },
        None => {
            let n = es.len() as int;
            let n1 = es1[n].1;
            assert(es1 == es.push((k, n1)));
            lemma_find_key_at(es1, k, n);
            if p.len() > 1 {
                assert(n1 == SpecNode::Object(set_path(seq![], rest, a)));
                law_json_field_override(seq![], rest, a, b);
            }
            assert(set_path(es1, p, b) =~= set_path(es, p, b));
        },
    }
}

/// A text as written between double quotes, in a request line or a suite:
/// a backslash before each `"` and `\`.
pub open spec fn escaped(w: Seq<char>) -> Seq<char>
    decreases w.len(),
{
    if w.len() == 0 {
        seq![]
    } else if w[0] == '"' || w[0] == '\\' {
        seq!['\\', w[0]] + escaped(w.drop_first())
    } else {
        seq![w[0]] + escaped(w.drop_first())
    }
}

proof fn lemma_read_escaped_of(w: Seq<char>, rest: Seq<char>)
    ensures
        read_escaped(escaped(w) + seq!['"'] + rest) == (w, rest),
    decreases w.len(),
{
    let s = escaped(w) + seq!['"'] + rest;
    if w.len() == 0 {
        assert(s =~= seq!['"'] + rest);
        assert(s.drop_first() =~= rest);
    } else if w[0] == '"' || w[0] == '\\' {
        lemma_read_escaped_of(w.drop_first(), rest);
        assert(s =~= seq!['\\', w[0]] + (escaped(w.drop_first()) + seq!['"'] + rest));
        assert(s.skip(2) =~= escaped(w.drop_first()) + seq!['"'] + rest);
        assert(seq![w[0]] + w.drop_first() =~= w);
    } else {
        lemma_read_escaped_of(w.drop_first(), rest);
        assert(s =~= seq![w[0]] + (escaped(w.drop_first()) + seq!['"'] + rest));
        assert(s.drop_first() =~= escaped(w.drop_first()) + seq!['"'] + rest);
        assert(seq![w[0]] + w.drop_first() =~= w);
    }
}

/// Any text, written in double quotes with its `"` and `\` escaped, is
/// read back from a request line as exactly one word: itself.
pub proof fn law_quoted_word_round_trip(w: Seq<char>)
    ensures
        split_words(seq!['"'] + escaped(w) + seq!['"']) == seq![w],
{
    let s = seq!['"'] + escaped(w) + seq!['"'];
    assert(trim_start(s) == s);
    assert(s.drop_first() =~= escaped(w) + seq!['"'] + seq![]);
    lemma_read_escaped_of(w, seq![]);
    assert(trim_start(seq![]) =~= seq![]);
    assert(split_words(seq![]) =~= seq![]);
    assert(seq![w] + seq![] =~= seq![w]);
}

/// The words of a text split at whitespace (`str::split_whitespace`).
pub open spec fn ws_words(s: Seq<char>) -> Seq<Seq<char>>
    decreases s.len(),
{
    let t = trim_start(s);
    if t.len() == 0 {
        seq![]
    } else {
        proof {
            lemma_trim_start_len(s);
            lemma_bare_len(t);
        }
        seq![t.take(bare_len(t) as int)] + ws_words(t.skip(bare_len(t) as int))
    }
}

/// No whitespace-separated word of the text starts with `"`.
pub open spec fn no_word_quoted(s: Seq<char>) -> bool
    decreases s.len(),
{
    let t = trim_start(s);
    if t.len() == 0 {
        true
    } else {
        proof {
            lemma_trim_start_len(s);
            lemma_bare_len(t);
        }
        t[0] != '"' && no_word_quoted(t.skip(bare_len(t) as int))
    }
}

/// When no word starts with a double quote, a request line splits exactly
/// at whitespace (a quote inside a word is kept as it is).
pub proof fn law_split_without_quotes_is_whitespace_split(s: Seq<char>)
    requires
        no_word_quoted(s),
    ensures
        split_words(s) == ws_words(s),
    decreases s.len(),
{
    let t = trim_start(s);
    if t.len() > 0 {
        lemma_trim_start_len(s);
        lemma_bare_len(t);
        law_split_without_quotes_is_whitespace_split(t.skip(bare_len(t) as int));
    }
}

/// The words of a text split at ASCII whitespace
/// (`str::split_ascii_whitespace`).
pub open spec fn ascii_words(s: Seq<char>) -> Seq<Seq<char>>
    decreases s.len(),
{
    let t = skip_ascii_ws(s);
    if t.len() == 0 {
        seq![]
    } else {
        proof {
            lemma_skip_ascii_ws_len(s);
            lemma_word_len(t);
        }
        seq![t.take(word_len(t) as int)] + ascii_words(t.skip(word_len(t) as int))
    }
}

/// No ASCII-whitespace-separated word starts with `"` or with `r"`.
pub open spec fn no_word_literal(s: Seq<char>) -> bool
    decreases s.len(),
{
    let t = skip_ascii_ws(s);
    if t.len() == 0 {
        true
    } else {
        proof {
            lemma_skip_ascii_ws_len(s);
            lemma_word_len(t);
        }
        t[0] != '"' && !(t[0] == 'r' && t.len() > 1 && t[1] == '"') && no_word_literal(
            t.skip(word_len(t) as int),
        )
    }
}

/// Without quoted strings and regex literals, the tokens of a suite are its
/// ASCII-whitespace-separated words, each a keyword or an `Ident`.
pub proof fn law_lex_without_literals_is_word_split(s: Seq<char>)
    requires
        no_word_literal(s),
    ensures
        lex(s) == ascii_words(s).map_values(|w: Seq<char>| word_token(w)),
    decreases s.len(),
{
    let t = skip_ascii_ws(s);
    if t.len() == 0 {
        assert(ascii_words(s).map_values(|w: Seq<char>| word_token(w)) =~= seq![]);
    } else {
        lemma_skip_ascii_ws_len(s);
        lemma_word_len(t);
        let rest = t.skip(word_len(t) as int);
        law_lex_without_literals_is_word_split(rest);
        assert(ascii_words(s).map_values(|w: Seq<char>| word_token(w)) =~= seq![
            word_token(t.take(word_len(t) as int)),
        ] + ascii_words(rest).map_values(|w: Seq<char>| word_token(w)));
    }
}

/// Following a path made of two parts is following the first part, then
/// the second from where it led; the empty path stays at the root, and one
/// segment is one step.
pub proof fn law_navigate_concat(root: JsonValue, p: Seq<SpecSegment>, q: Seq<SpecSegment>)
    ensures
        navigate(root, seq![]) == Some(root),
        navigate(root, p + q) == (match navigate(root, p) {
            Some(v) => navigate(v, q),
            None => None,
        }),
        forall|sg: SpecSegment| #[trigger] navigate(root, seq![sg]) == step(root, sg),
    decreases q.len(),
{
    assert forall|sg: SpecSegment| #[trigger] navigate(root, seq![sg]) == step(root, sg) by {
        assert(seq![sg].drop_last() =~= Seq::<SpecSegment>::empty());
    }
    if q.len() == 0 {
        assert(p + q =~= p);
        if let Some(v) = navigate(root, p) {
            assert(navigate(v, q) == Some(v));
        }
    } else {
        law_navigate_concat(root, p, q.drop_last());
        assert((p + q).drop_last() =~= p + q.drop_last());
        assert((p + q).last() == q.last());
    }
}

/// `not-equals` is the inverse of `equals` on every value, and `not-contains`
/// the inverse of `contains` on arrays and on strings with a string needle,
/// whatever the answer to a number query.
pub proof fn law_negated_matchers_invert(
    label: Seq<char>,
    sh: Shape,
    text: Seq<char>,
    e: crate::suite::ast::SpecValue,
    holds: bool,
    a_shown: Seq<char>,
    e_shown: Seq<char>,
)
    ensures
        outcome_result(apply_spec(label, sh, text, SpecMatcher::NotEquals(e)), holds, a_shown, e_shown)
            is Ok <==> outcome_result(
            apply_spec(label, sh, text, SpecMatcher::Equals(e)),
            holds,
            a_shown,
            e_shown,
        ) is Err,
        (sh is Array || (sh is Str && e is String)) ==> (outcome_result(
            apply_spec(label, sh, text, SpecMatcher::NotContains(e)),
            holds,
            a_shown,
            e_shown,
        ) is Ok <==> outcome_result(
            apply_spec(label, sh, text, SpecMatcher::Contains(e)),
            holds,
            a_shown,
            e_shown,
        ) is Err),
{
}

/// A test passes exactly when every one of its assertions passes; its
/// failures are the failing assertions' messages, one each.
pub proof fn law_test_passes_iff_all_pass(rs: Seq<Result<(), String>>)
    ensures
        (errors_of(rs).len() == 0) <==> (forall|i: int| 0 <= i < rs.len() ==> #[trigger] rs[i] is Ok),
    decreases rs.len(),
{
    if rs.len() > 0 {
        law_test_passes_iff_all_pass(rs.drop_last());
        if errors_of(rs).len() == 0 {
            assert forall|i: int| 0 <= i < rs.len() implies #[trigger] rs[i] is Ok by {
                if i < rs.len() - 1 {
                    assert(rs.drop_last()[i] == rs[i]);
                }
            }
        }
        if forall|i: int| 0 <= i < rs.len() ==> #[trigger] rs[i] is Ok {
            assert(rs[rs.len() - 1] is Ok);
            assert forall|i: int| 0 <= i < rs.drop_last().len() implies #[trigger] rs.drop_last()[i] is Ok by {
                assert(rs.drop_last()[i] == rs[i]);
            }
        }
    }
}

proof fn lemma_passed_in_all(ts: Seq<TestResult>)
    ensures
        (passed_in(ts) == ts.len()) <==> (forall|t: int| 0 <= t < ts.len() ==> #[trigger] ts[t].passed),
        passed_in(ts) <= ts.len(),
    decreases ts.len(),
{
    if ts.len() > 0 {
        lemma_passed_in_all(ts.drop_last());
        if forall|t: int| 0 <= t < ts.len() ==> #[trigger] ts[t].passed {
            assert forall|t: int| 0 <= t < ts.drop_last().len() implies #[trigger] ts.drop_last()[t].passed by {
                assert(ts.drop_last()[t] == ts[t]);
            }
            assert(ts[ts.len() - 1].passed);
        }
        if passed_in(ts) == ts.len() {
            assert forall|t: int| 0 <= t < ts.len() implies #[trigger] ts[t].passed by {
                if t < ts.len() - 1 {
                    assert(ts.drop_last()[t] == ts[t]);
                }
            }
        }
    }
}

/// A run fails exactly when some test of some group failed; the number of
/// failed tests is the total less the passed ones.
pub proof fn law_run_fails_iff_some_test_failed(gs: Seq<GroupResult>)
    ensures
        total_passed(gs) <= total_tests(gs),
        (total_tests(gs) - total_passed(gs) > 0) <==> (exists|g: int, t: int|
            0 <= g < gs.len() && 0 <= t < gs[g].tests@.len() && !(#[trigger] gs[g].tests@[t]).passed),
    decreases gs.len(),
{
    if gs.len() > 0 {
        law_run_fails_iff_some_test_failed(gs.drop_last());
        let last = gs.last().tests@;
        lemma_passed_in_all(last);
        let n = gs.len() - 1;
        if exists|g: int, t: int|
            0 <= g < gs.len() && 0 <= t < gs[g].tests@.len() && !(#[trigger] gs[g].tests@[t]).passed {
            let (g, t) = choose|g: int, t: int|
                0 <= g < gs.len() && 0 <= t < gs[g].tests@.len() && !(#[trigger] gs[g].tests@[t]).passed;
            if g < n {
                assert(gs.drop_last()[g] == gs[g]);
                assert(!(gs.drop_last()[g].tests@[t]).passed);
            } else {
                assert(!last[t].passed);
            }
        }
        if exists|g: int, t: int|
            0 <= g < gs.drop_last().len() && 0 <= t < gs.drop_last()[g].tests@.len()
                && !(#[trigger] gs.drop_last()[g].tests@[t]).passed {
            let (g, t) = choose|g: int, t: int|
                0 <= g < gs.drop_last().len() && 0 <= t < gs.drop_last()[g].tests@.len()
                    && !(#[trigger] gs.drop_last()[g].tests@[t]).passed;
            assert(gs.drop_last()[g] == gs[g]);
            assert(!(gs[g].tests@[t]).passed);
        }
        if !(forall|t: int| 0 <= t < last.len() ==> #[trigger] last[t].passed) {
            let t = choose|t: int| !(0 <= t < last.len() ==> #[trigger] last[t].passed);
            assert(!(gs[n].tests@[t]).passed);
        }
    }
}

} // verus!
