//! The recursive-descent parser of the suite language, over the token stream
//! of the lexer.
//!
//! The grammar is written once as spec functions over a token sequence and a
//! position (`ts`, `i`); each returns what it parsed and the position after
//! it, or the error message. The executable parser follows them exactly.

use vstd::prelude::*;
use super::ast::{
    Assert, AssertValue, Group, LengthArg, Matcher, SpecAssert, SpecGroup, SpecLengthArg,
    SpecMatcher, SpecTest, SpecValue, Suite, Test,
};
use super::helpers::{parse_target, target_of};
use super::lexer::{SpecToken, Token, tokens_view};
use crate::numbers::{is_float, is_float_text};
use crate::text::{debug_quoted, debug_str, join, push_str, str_eq};

verus! {

/// What `{:?}` writes for a token (the derived `Debug`).
pub open spec fn token_debug(t: SpecToken) -> Seq<char> {
    match t {
        SpecToken::End => "End"@,
        SpecToken::Group => "Group"@,
        SpecToken::Test => "Test"@,
        SpecToken::Assert => "Assert"@,
        SpecToken::Not => "Not"@,
        SpecToken::Ident(s) => "Ident("@ + debug_quoted(s) + ")"@,
        SpecToken::QuotedString(s) => "QuotedString("@ + debug_quoted(s) + ")"@,
        SpecToken::Regex(s) => "Regex("@ + debug_quoted(s) + ")"@,
    }
}

/// What `{:?}` writes for the next token as an `Option`.
pub open spec fn next_debug(ts: Seq<SpecToken>, i: int) -> Seq<char> {
    if 0 <= i < ts.len() {
        "Some("@ + token_debug(ts[i]) + ")"@
    } else {
        "None"@
    }
}

/// A name: a bare word or a quoted string.
pub open spec fn expect_ident(ts: Seq<SpecToken>, i: int, msg: Seq<char>) -> Result<
    (Seq<char>, int),
    Seq<char>,
> {
    if 0 <= i < ts.len() {
        match ts[i] {
            SpecToken::Ident(s) => Ok((s, i + 1)),
            SpecToken::QuotedString(s) => Ok((s, i + 1)),
            _ => Err(msg + ", got "@ + next_debug(ts, i)),
        }
    } else {
        Err(msg + ", got "@ + next_debug(ts, i))
    }
}

/// The literal a bare word stands for: a number (any text `f64` parses),
/// `true`, `false`, `null`, or else the word itself as a string.
pub open spec fn word_value(s: Seq<char>) -> SpecValue {
    if is_float_text(s) {
        SpecValue::Number(s)
    } else if s == "true"@ {
        SpecValue::Bool(true)
    } else if s == "false"@ {
        SpecValue::Bool(false)
    } else if s == "null"@ {
        SpecValue::Null
    } else {
        SpecValue::String(s)
    }
}

pub open spec fn parse_value(ts: Seq<SpecToken>, i: int) -> Result<(SpecValue, int), Seq<char>> {
    if 0 <= i < ts.len() {
        match ts[i] {
            SpecToken::QuotedString(s) => Ok((SpecValue::String(s), i + 1)),
            SpecToken::Regex(s) => Ok((SpecValue::Regex(s), i + 1)),
            SpecToken::Ident(s) => Ok((word_value(s), i + 1)),
            _ => Err("expected value, got "@ + next_debug(ts, i)),
        }
    } else {
        Err("expected value, got "@ + next_debug(ts, i))
    }
}

/// The comparison words that may follow `length`.
pub enum LengthOp {
    Gt,
    Gte,
    Lt,
    Lte,
}

pub open spec fn length_op(s: Seq<char>) -> Option<LengthOp> {
    if s == "gt"@ {
        Some(LengthOp::Gt)
    } else if s == "gte"@ {
        Some(LengthOp::Gte)
    } else if s == "lt"@ {
        Some(LengthOp::Lt)
    } else if s == "lte"@ {
        Some(LengthOp::Lte)
    } else {
        None
    }
}

pub open spec fn length_arg_of(op: Option<LengthOp>, v: SpecValue) -> SpecLengthArg {
    match op {
        Some(LengthOp::Gt) => SpecLengthArg::Gt(v),
        Some(LengthOp::Gte) => SpecLengthArg::Gte(v),
        Some(LengthOp::Lt) => SpecLengthArg::Lt(v),
        Some(LengthOp::Lte) => SpecLengthArg::Lte(v),
        None => SpecLengthArg::Exact(v),
    }
}

/// `length 5` | `length gt 0` | `length gte 1` | ...
pub open spec fn parse_length_arg(ts: Seq<SpecToken>, i: int) -> Result<
    (SpecLengthArg, int),
    Seq<char>,
> {
    let op = if 0 <= i < ts.len() {
        match ts[i] {
            SpecToken::Ident(s) => length_op(s),
            _ => None,
        }
    } else {
        None
    };
    let j = if op is Some {
        i + 1
    } else {
        i
    };
    match parse_value(ts, j) {
        Ok((v, k)) => Ok((length_arg_of(op, v), k)),
        Err(e) => Err(e),
    }
}

pub open spec fn parse_regex(ts: Seq<SpecToken>, i: int) -> Result<(Seq<char>, int), Seq<char>> {
    if 0 <= i < ts.len() {
        match ts[i] {
            SpecToken::Regex(s) => Ok((s, i + 1)),
            SpecToken::QuotedString(s) => Ok((s, i + 1)),
            _ => Err("expected regex (r\"...\"), got "@ + next_debug(ts, i)),
        }
    } else {
        Err("expected regex (r\"...\"), got "@ + next_debug(ts, i))
    }
}

/// The matcher keywords that take no value.
pub open spec fn unary_matcher(s: Seq<char>) -> Option<SpecMatcher> {
    if s == "present"@ {
        Some(SpecMatcher::Present)
    } else if s == "absent"@ {
        Some(SpecMatcher::Absent)
    } else if s == "empty"@ {
        Some(SpecMatcher::Empty)
    } else {
        None
    }
}

/// The matcher keywords that take one value.
pub enum BinaryKind {
    Equals,
    NotEquals,
    Contains,
    NotContains,
    StartsWith,
    EndsWith,
    Gt,
    Gte,
    Lt,
    Lte,
}

pub open spec fn binary_kind(s: Seq<char>) -> Option<BinaryKind> {
    if s == "equals"@ || s == "eq"@ {
        Some(BinaryKind::Equals)
    } else if s == "not-equals"@ || s == "neq"@ {
        Some(BinaryKind::NotEquals)
    } else if s == "contains"@ {
        Some(BinaryKind::Contains)
    } else if s == "not-contains"@ {
        Some(BinaryKind::NotContains)
    } else if s == "starts-with"@ {
        Some(BinaryKind::StartsWith)
    } else if s == "ends-with"@ {
        Some(BinaryKind::EndsWith)
    } else if s == "gt"@ {
        Some(BinaryKind::Gt)
    } else if s == "gte"@ {
        Some(BinaryKind::Gte)
    } else if s == "lt"@ {
        Some(BinaryKind::Lt)
    } else if s == "lte"@ {
        Some(BinaryKind::Lte)
    } else {
        None
    }
}

pub open spec fn binary_matcher(k: BinaryKind, v: SpecValue) -> SpecMatcher {
    match k {
        BinaryKind::Equals => SpecMatcher::Equals(v),
        BinaryKind::NotEquals => SpecMatcher::NotEquals(v),
        BinaryKind::Contains => SpecMatcher::Contains(v),
        BinaryKind::NotContains => SpecMatcher::NotContains(v),
        BinaryKind::StartsWith => SpecMatcher::StartsWith(v),
        BinaryKind::EndsWith => SpecMatcher::EndsWith(v),
        BinaryKind::Gt => SpecMatcher::Gt(v),
        BinaryKind::Gte => SpecMatcher::Gte(v),
        BinaryKind::Lt => SpecMatcher::Lt(v),
        BinaryKind::Lte => SpecMatcher::Lte(v),
    }
}

/// An implicit `equals`: the value at `i`.
pub open spec fn implicit_equals(ts: Seq<SpecToken>, i: int) -> Result<
    (Option<SpecMatcher>, int),
    Seq<char>,
> {
    match parse_value(ts, i) {
        Ok((v, j)) => Ok((Some(SpecMatcher::Equals(v)), j)),
        Err(e) => Err(e),
    }
}

/// The optional matcher after an assert target. It ends at the end of input,
/// at `assert` or `end`; a keyword selects the matcher; any other word or a
/// quoted or regex literal is an implicit `equals`.
pub open spec fn parse_matcher(ts: Seq<SpecToken>, i: int) -> Result<
    (Option<SpecMatcher>, int),
    Seq<char>,
> {
    if 0 <= i < ts.len() {
        match ts[i] {
            SpecToken::Ident(s) => {
                if unary_matcher(s) is Some {
                    Ok((unary_matcher(s), i + 1))
                } else if binary_kind(s) is Some {
                    match parse_value(ts, i + 1) {
                        Ok((v, j)) => Ok((Some(binary_matcher(binary_kind(s)->0, v)), j)),
                        Err(e) => Err(e),
                    }
                } else if s == "length"@ {
                    match parse_length_arg(ts, i + 1) {
                        Ok((l, j)) => Ok((Some(SpecMatcher::Length(l)), j)),
                        Err(e) => Err(e),
                    }
                } else if s == "matches"@ {
                    match parse_regex(ts, i + 1) {
                        Ok((r, j)) => Ok((Some(SpecMatcher::Matches(r)), j)),
                        Err(e) => Err(e),
                    }
                } else {
                    implicit_equals(ts, i)
                }
            },
            SpecToken::QuotedString(_) => implicit_equals(ts, i),
            SpecToken::Regex(_) => implicit_equals(ts, i),
            _ => Ok((None, i)),
        }
    } else {
        Ok((None, i))
    }
}

/// `[not] <target> [matcher]`, read after `assert`.
pub open spec fn parse_assert(ts: Seq<SpecToken>, i: int) -> Result<(SpecAssert, int), Seq<char>> {
    let negated = 0 <= i < ts.len() && ts[i] is Not;
    let j = if negated {
        i + 1
    } else {
        i
    };
    if 0 <= j < ts.len() && ts[j] is Ident {
        match target_of(ts[j]->Ident_0) {
            Err(e) => Err(e),
            Ok(target) => match parse_matcher(ts, j + 1) {
                Err(e) => Err(e),
                Ok((matcher, k)) => Ok((SpecAssert { negated, target, matcher }, k)),
            },
        }
    } else {
        Err("expected assert target, got "@ + next_debug(ts, j))
    }
}

/// The request-line words of a test, up to `assert` or `end`; quoted
/// strings are kept with their quotes.
pub open spec fn parse_value_parts(ts: Seq<SpecToken>, i: int) -> Result<
    (Seq<Seq<char>>, int),
    Seq<char>,
>
    decreases ts.len() - i,
{
    if 0 <= i < ts.len() {
        match ts[i] {
            SpecToken::Ident(s) => match parse_value_parts(ts, i + 1) {
                Ok((ps, j)) => Ok((seq![s] + ps, j)),
                Err(e) => Err(e),
            },
            SpecToken::QuotedString(s) => match parse_value_parts(ts, i + 1) {
                Ok((ps, j)) => Ok((seq!["\""@ + s + "\""@] + ps, j)),
                Err(e) => Err(e),
            },
            SpecToken::Assert => Ok((seq![], i)),
            SpecToken::End => Ok((seq![], i)),
            _ => Err("unexpected token in test value: "@ + token_debug(ts[i])),
        }
    } else {
        Err("unexpected EOF in test value"@)
    }
}

/// The asserts of a test, up to and including its `end`.
pub open spec fn parse_asserts(ts: Seq<SpecToken>, i: int) -> Result<
    (Seq<SpecAssert>, int),
    Seq<char>,
>
    decreases ts.len() - i,
{
    if 0 <= i < ts.len() {
        match ts[i] {
            SpecToken::Assert => match parse_assert(ts, i + 1) {
                Err(e) => Err(e),
                Ok((a, j)) => {
                    proof {
                        lemma_parse_assert_advances(ts, i + 1);
                    }
                    match parse_asserts(ts, j) {
                        Ok((rest, k)) => Ok((seq![a] + rest, k)),
                        Err(e) => Err(e),
                    }
                },
            },
            SpecToken::End => Ok((seq![], i + 1)),
            _ => Err("unexpected token in test: "@ + token_debug(ts[i])),
        }
    } else {
        Err("unexpected EOF in test"@)
    }
}

/// `test <name> <request line> <asserts> end`
pub open spec fn parse_test(ts: Seq<SpecToken>, i: int) -> Result<(SpecTest, int), Seq<char>> {
    if 0 <= i < ts.len() && ts[i] is Test {
        match expect_ident(ts, i + 1, "expected test name"@) {
            Err(e) => Err(e),
            Ok((name, j)) => match parse_value_parts(ts, j) {
                Err(e) => Err(e),
                Ok((parts, k)) => match parse_asserts(ts, k) {
                    Err(e) => Err(e),
                    Ok((asserts, l)) => Ok(
                        (SpecTest { name, value: join(parts, " "@), asserts }, l),
                    ),
                },
            },
        }
    } else {
        Err("expected `test`, got "@ + next_debug(ts, i))
    }
}

/// The tests of a group, up to and including its `end`.
pub open spec fn parse_tests(ts: Seq<SpecToken>, i: int) -> Result<(Seq<SpecTest>, int), Seq<char>>
    decreases ts.len() - i,
{
    if 0 <= i < ts.len() {
        match ts[i] {
            SpecToken::Test => match parse_test(ts, i) {
                Err(e) => Err(e),
                Ok((t, j)) => {
                    proof {
                        lemma_parse_test_advances(ts, i);
                    }
                    match parse_tests(ts, j) {
                        Ok((rest, k)) => Ok((seq![t] + rest, k)),
                        Err(e) => Err(e),
                    }
                },
            },
            SpecToken::End => Ok((seq![], i + 1)),
            _ => Err("unexpected token in group: "@ + token_debug(ts[i])),
        }
    } else {
        Err("unexpected EOF in group"@)
    }
}

/// `group <name> <tests> end`, or `None` at the end of input.
pub open spec fn parse_group(ts: Seq<SpecToken>, i: int) -> Result<
    Option<(SpecGroup, int)>,
    Seq<char>,
> {
    if 0 <= i < ts.len() {
        if ts[i] is Group {
            match expect_ident(ts, i + 1, "expected group name"@) {
                Err(e) => Err(e),
                Ok((name, j)) => match parse_tests(ts, j) {
                    Err(e) => Err(e),
                    Ok((tests, k)) => Ok(Some((SpecGroup { name, tests }, k))),
                },
            }
        } else {
            Err("expected `group`, got "@ + next_debug(ts, i))
        }
    } else {
        Ok(None)
    }
}

/// All the groups from `i` to the end of input.
pub open spec fn parse_groups(ts: Seq<SpecToken>, i: int) -> Result<Seq<SpecGroup>, Seq<char>>
    decreases ts.len() - i,
{
    match parse_group(ts, i) {
        Err(e) => Err(e),
        Ok(None) => Ok(seq![]),
        Ok(Some((g, j))) => {
            proof {
                lemma_parse_group_advances(ts, i);
            }
            match parse_groups(ts, j) {
                Ok(rest) => Ok(seq![g] + rest),
                Err(e) => Err(e),
            }
        },
    }
}

pub proof fn lemma_parse_matcher_advances(ts: Seq<SpecToken>, i: int)
    requires
        0 <= i <= ts.len(),
    ensures
        parse_matcher(ts, i) matches Ok((_, j)) ==> i <= j <= ts.len(),
{
}

pub proof fn lemma_parse_assert_advances(ts: Seq<SpecToken>, i: int)
    requires
        0 <= i,
    ensures
        parse_assert(ts, i) matches Ok((_, j)) ==> i < j <= ts.len(),
{
    let j = if 0 <= i < ts.len() && ts[i] is Not {
        i + 1
    } else {
        i
    };
    if 0 <= j < ts.len() {
        lemma_parse_matcher_advances(ts, j + 1);
    }
}

pub proof fn lemma_parse_value_parts_advances(ts: Seq<SpecToken>, i: int)
    requires
        0 <= i,
    ensures
        parse_value_parts(ts, i) matches Ok((_, j)) ==> i <= j <= ts.len(),
    decreases ts.len() - i,
{
    if 0 <= i < ts.len() {
        lemma_parse_value_parts_advances(ts, i + 1);
    }
}

pub proof fn lemma_parse_asserts_advances(ts: Seq<SpecToken>, i: int)
    requires
        0 <= i,
    ensures
        parse_asserts(ts, i) matches Ok((_, j)) ==> i < j <= ts.len(),
    decreases ts.len() - i,
{
    if 0 <= i < ts.len() {
        lemma_parse_assert_advances(ts, i + 1);
        if let Ok((_, j)) = parse_assert(ts, i + 1) {
            lemma_parse_asserts_advances(ts, j);
        }
    }
}

pub proof fn lemma_parse_test_advances(ts: Seq<SpecToken>, i: int)
    requires
        0 <= i,
    ensures
        parse_test(ts, i) matches Ok((_, j)) ==> i < j <= ts.len(),
{
    if 0 <= i < ts.len() && ts[i] is Test {
        if let Ok((_, j)) = expect_ident(ts, i + 1, "expected test name"@) {
            lemma_parse_value_parts_advances(ts, j);
            if let Ok((_, k)) = parse_value_parts(ts, j) {
                lemma_parse_asserts_advances(ts, k);
            }
        }
    }
}

pub proof fn lemma_parse_tests_advances(ts: Seq<SpecToken>, i: int)
    requires
        0 <= i,
    ensures
        parse_tests(ts, i) matches Ok((_, j)) ==> i < j <= ts.len(),
    decreases ts.len() - i,
{
    if 0 <= i < ts.len() {
        lemma_parse_test_advances(ts, i);
        if let Ok((_, j)) = parse_test(ts, i) {
            lemma_parse_tests_advances(ts, j);
        }
    }
}

pub proof fn lemma_parse_group_advances(ts: Seq<SpecToken>, i: int)
    requires
        0 <= i,
    ensures
        parse_group(ts, i) matches Ok(Some((_, j))) ==> i < j <= ts.len(),
{
    if 0 <= i < ts.len() && ts[i] is Group {
        if let Ok((_, j)) = expect_ident(ts, i + 1, "expected group name"@) {
            lemma_parse_tests_advances(ts, j);
        }
    }
}

fn cat(a: &str, b: &str) -> (r: String)
    ensures
        r@ == a@ + b@,
{
    let mut r = String::from_str(a);
    push_str(&mut r, b);
    r
}

/// `{:?}` of a token.
fn token_debug_exec(t: &Token) -> (r: String)
    ensures
        r@ == token_debug(t@),
{
    match t {
        Token::End => String::from_str("End"),
        Token::Group => String::from_str("Group"),
        Token::Test => String::from_str("Test"),
        Token::Assert => String::from_str("Assert"),
        Token::Not => String::from_str("Not"),
        Token::Ident(s) => {
            let d = debug_str(s.as_str());
            let r = cat("Ident(", d.as_str());
            cat(r.as_str(), ")")
        },
        Token::QuotedString(s) => {
            let d = debug_str(s.as_str());
            let r = cat("QuotedString(", d.as_str());
            cat(r.as_str(), ")")
        },
        Token::Regex(s) => {
            let d = debug_str(s.as_str());
            let r = cat("Regex(", d.as_str());
            cat(r.as_str(), ")")
        },
    }
}

fn value_of_word(s: String) -> (v: AssertValue)
    ensures
        v@ == word_value(s@),
{
    if is_float(s.as_str()) {
        AssertValue::Number(s)
    } else if str_eq(s.as_str(), "true") {
        AssertValue::Bool(true)
    } else if str_eq(s.as_str(), "false") {
        AssertValue::Bool(false)
    } else if str_eq(s.as_str(), "null") {
        AssertValue::Null
    } else {
        AssertValue::String(s)
    }
}

fn unary_matcher_exec(s: &str) -> (m: Option<Matcher>)
    ensures
        match m {
            Some(x) => unary_matcher(s@) == Some(x@),
            None => unary_matcher(s@) is None,
        },
{
    if str_eq(s, "present") {
        Some(Matcher::Present)
    } else if str_eq(s, "absent") {
        Some(Matcher::Absent)
    } else if str_eq(s, "empty") {
        Some(Matcher::Empty)
    } else {
        None
    }
}

fn binary_kind_exec(s: &str) -> (k: Option<BinaryKind>)
    ensures
        k == binary_kind(s@),
{
    if str_eq(s, "equals") || str_eq(s, "eq") {
        Some(BinaryKind::Equals)
    } else if str_eq(s, "not-equals") || str_eq(s, "neq") {
        Some(BinaryKind::NotEquals)
    } else if str_eq(s, "contains") {
        Some(BinaryKind::Contains)
    } else if str_eq(s, "not-contains") {
        Some(BinaryKind::NotContains)
    } else if str_eq(s, "starts-with") {
        Some(BinaryKind::StartsWith)
    } else if str_eq(s, "ends-with") {
        Some(BinaryKind::EndsWith)
    } else if str_eq(s, "gt") {
        Some(BinaryKind::Gt)
    } else if str_eq(s, "gte") {
        Some(BinaryKind::Gte)
    } else if str_eq(s, "lt") {
        Some(BinaryKind::Lt)
    } else if str_eq(s, "lte") {
        Some(BinaryKind::Lte)
    } else {
        None
    }
}

fn binary_matcher_exec(k: BinaryKind, v: AssertValue) -> (m: Matcher)
    ensures
        m@ == binary_matcher(k, v@),
{
    match k {
        BinaryKind::Equals => Matcher::Equals(v),
        BinaryKind::NotEquals => Matcher::NotEquals(v),
        BinaryKind::Contains => Matcher::Contains(v),
        BinaryKind::NotContains => Matcher::NotContains(v),
        BinaryKind::StartsWith => Matcher::StartsWith(v),
        BinaryKind::EndsWith => Matcher::EndsWith(v),
        BinaryKind::Gt => Matcher::Gt(v),
        BinaryKind::Gte => Matcher::Gte(v),
        BinaryKind::Lt => Matcher::Lt(v),
        BinaryKind::Lte => Matcher::Lte(v),
    }
}

fn length_op_exec(s: &str) -> (op: Option<LengthOp>)
    ensures
        op == length_op(s@),
{
    if str_eq(s, "gt") {
        Some(LengthOp::Gt)
    } else if str_eq(s, "gte") {
        Some(LengthOp::Gte)
    } else if str_eq(s, "lt") {
        Some(LengthOp::Lt)
    } else if str_eq(s, "lte") {
        Some(LengthOp::Lte)
    } else {
        None
    }
}

/// The parser: the token stream and the position of the next token.
pub struct Parser {
    tokens: Vec<Token>,
    pos: usize,
}

impl Parser {
    #[verifier::type_invariant]
    spec fn inv(self) -> bool {
        self.pos <= self.tokens.len()
    }

    /// The whole token stream.
    pub closed spec fn toks(self) -> Seq<SpecToken> {
        tokens_view(self.tokens@)
    }

    /// The position of the next token.
    pub closed spec fn at(self) -> int {
        self.pos as int
    }

    pub fn new(input: Vec<Token>) -> (p: Self)
        ensures
            p.toks() == tokens_view(input@),
            p.at() == 0,
    {
        Parser { tokens: input, pos: 0 }
    }

    fn peek(&self) -> (t: Option<&Token>)
        ensures
            0 <= self.at() <= self.toks().len(),
            match t {
                Some(x) => self.at() < self.toks().len() && x@ == self.toks()[self.at()],
                None => self.at() == self.toks().len(),
            },
    {
        proof {
            use_type_invariant(self);
        }
        if self.pos < self.tokens.len() {
            Some(&self.tokens[self.pos])
        } else {
            None
        }
    }

    fn bump(&mut self)
        requires
            old(self).at() < old(self).toks().len(),
        ensures
            final(self).at() == old(self).at() + 1,
            final(self).toks() == old(self).toks(),
    {
        proof {
            use_type_invariant(&*self);
        }
        self.pos = self.pos + 1;
    }

    /// `{:?}` of the next token as an `Option`.
    fn next_debug(&self) -> (r: String)
        ensures
            r@ == next_debug(self.toks(), self.at()),
    {
        match self.peek() {
            Some(t) => {
                let d = token_debug_exec(t);
                let r = cat("Some(", d.as_str());
                cat(r.as_str(), ")")
            },
            None => String::from_str("None"),
        }
    }

    /// Takes a name (a bare word or a quoted string), or fails with `msg`.
    fn expect_ident(&mut self, msg: &str) -> (r: Result<String, String>)
        ensures
            final(self).toks() == old(self).toks(),
            match expect_ident(old(self).toks(), old(self).at(), msg@) {
                Ok((s, j)) => r matches Ok(x) && x@ == s && final(self).at() == j,
                Err(e) => r matches Err(x) && x@ == e,
            },
    {
        let name = match self.peek() {
            Some(Token::Ident(s)) => Some(s.clone()),
            Some(Token::QuotedString(s)) => Some(s.clone()),
            _ => None,
        };
        match name {
            Some(s) => {
                self.bump();
                Ok(s)
            },
            None => {
                let d = self.next_debug();
                let m = cat(msg, ", got ");
                Err(cat(m.as_str(), d.as_str()))
            },
        }
    }

    fn parse_value(&mut self) -> (r: Result<AssertValue, String>)
        ensures
            final(self).toks() == old(self).toks(),
            match parse_value(old(self).toks(), old(self).at()) {
                Ok((v, j)) => r matches Ok(x) && x@ == v && final(self).at() == j,
                Err(e) => r matches Err(x) && x@ == e,
            },
    {
        let v = match self.peek() {
            Some(Token::QuotedString(s)) => Some(AssertValue::String(s.clone())),
            Some(Token::Regex(s)) => Some(AssertValue::Regex(s.clone())),
            Some(Token::Ident(s)) => Some(value_of_word(s.clone())),
            _ => None,
        };
        match v {
            Some(v) => {
                self.bump();
                Ok(v)
            },
            None => {
                let d = self.next_debug();
                Err(cat("expected value, got ", d.as_str()))
            },
        }
    }

    fn parse_length_arg(&mut self) -> (r: Result<LengthArg, String>)
        ensures
            final(self).toks() == old(self).toks(),
            match parse_length_arg(old(self).toks(), old(self).at()) {
                Ok((l, j)) => r matches Ok(x) && x@ == l && final(self).at() == j,
                Err(e) => r matches Err(x) && x@ == e,
            },
    {
        // `length 5` | `length gt 0` | `length gte 1` etc.
        let op = match self.peek() {
            Some(Token::Ident(s)) => length_op_exec(s.as_str()),
            _ => None,
        };
        if op.is_some() {
            self.bump();
        }
        let v = self.parse_value()?;
        Ok(
            match op {
                Some(LengthOp::Gt) => LengthArg::Gt(v),
                Some(LengthOp::Gte) => LengthArg::Gte(v),
                Some(LengthOp::Lt) => LengthArg::Lt(v),
                Some(LengthOp::Lte) => LengthArg::Lte(v),
                None => LengthArg::Exact(v),
            },
        )
    }

    fn parse_regex(&mut self) -> (r: Result<String, String>)
        ensures
            final(self).toks() == old(self).toks(),
            match parse_regex(old(self).toks(), old(self).at()) {
                Ok((s, j)) => r matches Ok(x) && x@ == s && final(self).at() == j,
                Err(e) => r matches Err(x) && x@ == e,
            },
    {
        let s = match self.peek() {
            Some(Token::Regex(s)) => Some(s.clone()),
            Some(Token::QuotedString(s)) => Some(s.clone()),
            _ => None,
        };
        match s {
            Some(s) => {
                self.bump();
                Ok(s)
            },
            None => {
                let d = self.next_debug();
                Err(cat("expected regex (r\"...\"), got ", d.as_str()))
            },
        }
    }

    fn parse_matcher(&mut self) -> (r: Result<Option<Matcher>, String>)
        ensures
            final(self).toks() == old(self).toks(),
            match parse_matcher(old(self).toks(), old(self).at()) {
                Ok((m, j)) => r matches Ok(x) && final(self).at() == j && match x {
                    Some(y) => m == Some(y@),
                    None => m is None,
                },
                Err(e) => r matches Err(x) && x@ == e,
            },
    {
        let word = match self.peek() {
            None | Some(Token::Assert) | Some(Token::End) => {
                return Ok(None);
            },
            Some(Token::Ident(s)) => Some(s.clone()),
            Some(Token::QuotedString(_)) | Some(Token::Regex(_)) => None,
            _ => {
                return Ok(None);
            },
        };
        match word {
            Some(s) => {
                match unary_matcher_exec(s.as_str()) {
                    Some(m) => {
                        self.bump();
                        return Ok(Some(m));
                    },
                    None => {},
                }
                match binary_kind_exec(s.as_str()) {
                    Some(k) => {
                        self.bump();
                        let v = self.parse_value()?;
                        return Ok(Some(binary_matcher_exec(k, v)));
                    },
                    None => {},
                }
                if str_eq(s.as_str(), "length") {
                    self.bump();
                    let l = self.parse_length_arg()?;
                    return Ok(Some(Matcher::Length(l)));
                }
                if str_eq(s.as_str(), "matches") {
                    self.bump();
                    let r = self.parse_regex()?;
                    return Ok(Some(Matcher::Matches(r)));
                }
                // Not a matcher keyword → implicit `equals`
                let v = self.parse_value()?;
                Ok(Some(Matcher::Equals(v)))
            },
            None => {
                // Literal value without explicit matcher keyword → implicit `equals`
                let v = self.parse_value()?;
                Ok(Some(Matcher::Equals(v)))
            },
        }
    }

    fn parse_assert(&mut self) -> (r: Result<Assert, String>)
        ensures
            final(self).toks() == old(self).toks(),
            match parse_assert(old(self).toks(), old(self).at()) {
                Ok((a, j)) => r matches Ok(x) && x@ == a && final(self).at() == j,
                Err(e) => r matches Err(x) && x@ == e,
            },
    {
        // Optional negation
        let negated = match self.peek() {
            Some(Token::Not) => true,
            _ => false,
        };
        if negated {
            self.bump();
        }
        // Target must be an Ident (e.g. "status", "body.foo", "header.content-type")
        let target_tok = match self.peek() {
            Some(Token::Ident(s)) => s.clone(),
            _ => {
                let d = self.next_debug();
                return Err(cat("expected assert target, got ", d.as_str()));
            },
        };
        self.bump();
        let target = parse_target(target_tok.as_str())?;
        let matcher = self.parse_matcher()?;
        Ok(Assert { negated, target, matcher })
    }

    fn parse_test(&mut self) -> (r: Result<Test, String>)
        ensures
            final(self).toks() == old(self).toks(),
            match parse_test(old(self).toks(), old(self).at()) {
                Ok((t, j)) => r matches Ok(x) && x@ == t && final(self).at() == j,
                Err(e) => r matches Err(x) && x@ == e,
            },
    {
        match self.peek() {
            Some(Token::Test) => {},
            _ => {
                let d = self.next_debug();
                return Err(cat("expected `test`, got ", d.as_str()));
            },
        }
        self.bump();
        let name = self.expect_ident("expected test name")?;
        // Collect request value tokens until we hit `assert` or `end`
        let ghost ts = self.toks();
        let ghost start = self.at();
        let mut value_parts: Vec<String> = Vec::new();
        loop
            invariant_except_break
                self.toks() == ts,
                start <= self.at() <= ts.len(),
                parse_value_parts(ts, start) == prepend(
                    parse_value_parts(ts, self.at()),
                    parts_view(value_parts@),
                ),
                ts == old(self).toks(),
                0 <= old(self).at() < ts.len(),
                ts[old(self).at()] is Test,
                expect_ident(ts, old(self).at() + 1, "expected test name"@) == Ok::<
                    (Seq<char>, int),
                    Seq<char>,
                >((name@, start)),
            ensures
                self.toks() == ts,
                start <= self.at() <= ts.len(),
                parse_value_parts(ts, start) == Ok::<(Seq<Seq<char>>, int), Seq<char>>(
                    (parts_view(value_parts@), self.at()),
                ),
            decreases ts.len() - self.at(),
        {
            let ghost before = value_parts@;
            let ghost at = self.at();
            let part = match self.peek() {
                Some(Token::Ident(s)) => s.clone(),
                Some(Token::QuotedString(s)) => {
                    let q = cat("\"", s.as_str());
                    cat(q.as_str(), "\"")
                },
                Some(Token::Assert) | Some(Token::End) => {
                    assert(parts_view(value_parts@) + seq![] =~= parts_view(value_parts@));
                    break ;
                },
                Some(t) => {
                    let d = token_debug_exec(t);
                    return Err(cat("unexpected token in test value: ", d.as_str()));
                },
                None => {
                    return Err(String::from_str("unexpected EOF in test value"));
                },
            };
            self.bump();
            value_parts.push(part);
            proof {
                assert(parts_view(value_parts@) =~= parts_view(before).push(part@));
                lemma_prepend_step(parse_value_parts(ts, self.at()), parts_view(before), part@);
            }
        }
        let value = join_strings(&value_parts, " ");
        // Collect asserts until `end`
        let ghost k = self.at();
        let mut asserts: Vec<Assert> = Vec::new();
        loop
            invariant_except_break
                self.toks() == ts,
                k <= self.at() <= ts.len(),
                parse_asserts(ts, k) == prepend(parse_asserts(ts, self.at()), asserts_view(asserts@)),
                ts == old(self).toks(),
                0 <= old(self).at() < ts.len(),
                ts[old(self).at()] is Test,
                expect_ident(ts, old(self).at() + 1, "expected test name"@) == Ok::<
                    (Seq<char>, int),
                    Seq<char>,
                >((name@, start)),
                parse_value_parts(ts, start) == Ok::<(Seq<Seq<char>>, int), Seq<char>>(
                    (parts_view(value_parts@), k),
                ),
                value@ == join(parts_view(value_parts@), " "@),
            ensures
                self.toks() == ts,
                parse_asserts(ts, k) == Ok::<(Seq<SpecAssert>, int), Seq<char>>(
                    (asserts_view(asserts@), self.at()),
                ),
            decreases ts.len() - self.at(),
        {
            let ghost before = asserts@;
            let ghost at = self.at();
            match self.peek() {
                Some(Token::Assert) => {},
                Some(Token::End) => {
                    self.bump();
                    assert(asserts_view(asserts@) + seq![] =~= asserts_view(asserts@));
                    break ;
                },
                Some(t) => {
                    let d = token_debug_exec(t);
                    return Err(cat("unexpected token in test: ", d.as_str()));
                },
                None => {
                    return Err(String::from_str("unexpected EOF in test"));
                },
            }
            self.bump();
            let a = self.parse_assert()?;
            proof {
                lemma_parse_assert_advances(ts, at + 1);
            }
            let ghost av = a@;
            asserts.push(a);
            proof {
                assert(asserts_view(asserts@) =~= asserts_view(before).push(av));
                lemma_prepend_step(parse_asserts(ts, self.at()), asserts_view(before), av);
            }
        }
        Ok(Test { name, value, asserts })
    }

    fn parse_group(&mut self) -> (r: Result<Option<Group>, String>)
        ensures
            final(self).toks() == old(self).toks(),
            match parse_group(old(self).toks(), old(self).at()) {
                Ok(None) => r matches Ok(None),
                Ok(Some((g, j))) => r matches Ok(Some(x)) && x@ == g && final(self).at() == j,
                Err(e) => r matches Err(x) && x@ == e,
            },
    {
        match self.peek() {
            None => {
                return Ok(None);
            },
            Some(Token::Group) => {},
            _ => {
                let d = self.next_debug();
                return Err(cat("expected `group`, got ", d.as_str()));
            },
        }
        self.bump();
        let name = self.expect_ident("expected group name")?;
        let ghost ts = self.toks();
        let ghost k = self.at();
        let mut tests: Vec<Test> = Vec::new();
        loop
            invariant_except_break
                self.toks() == ts,
                k <= self.at() <= ts.len(),
                parse_tests(ts, k) == prepend(parse_tests(ts, self.at()), tests_view(tests@)),
                ts == old(self).toks(),
                0 <= old(self).at() < ts.len(),
                ts[old(self).at()] is Group,
                expect_ident(ts, old(self).at() + 1, "expected group name"@) == Ok::<
                    (Seq<char>, int),
                    Seq<char>,
                >((name@, k)),
            ensures
                self.toks() == ts,
                parse_tests(ts, k) == Ok::<(Seq<SpecTest>, int), Seq<char>>(
                    (tests_view(tests@), self.at()),
                ),
            decreases ts.len() - self.at(),
        {
            let ghost before = tests@;
            let ghost at = self.at();
            match self.peek() {
                Some(Token::Test) => {},
                Some(Token::End) => {
                    self.bump();
                    assert(tests_view(tests@) + seq![] =~= tests_view(tests@));
                    break ;
                },
                Some(t) => {
                    let d = token_debug_exec(t);
                    return Err(cat("unexpected token in group: ", d.as_str()));
                },
                None => {
                    return Err(String::from_str("unexpected EOF in group"));
                },
            }
            let t = self.parse_test()?;
            proof {
                lemma_parse_test_advances(ts, at);
            }
            let ghost tv = t@;
            tests.push(t);
            proof {
                assert(tests_view(tests@) =~= tests_view(before).push(tv));
                lemma_prepend_step(parse_tests(ts, self.at()), tests_view(before), tv);
            }
        }
        Ok(Some(Group { name, tests }))
    }

    /// Parses every group to the end of the input.
    pub fn parse(self) -> (r: Result<Suite, String>)
        ensures
            match parse_groups(self.toks(), self.at()) {
                Ok(gs) => r matches Ok(x) && x@ == gs,
                Err(e) => r matches Err(x) && x@ == e,
            },
    {
        let ghost ts = self.toks();
        let ghost start = self.at();
        let mut p = self;
        let mut groups: Vec<Group> = Vec::new();
        loop
            invariant_except_break
                p.toks() == ts,
                ts == self.toks(),
                start == self.at(),
                0 <= start <= p.at(),
                parse_groups(ts, start) == prepend_groups(parse_groups(ts, p.at()), groups_view(groups@)),
            ensures
                parse_groups(ts, start) == Ok::<Seq<SpecGroup>, Seq<char>>(groups_view(groups@)),
            decreases ts.len() - p.at(),
        {
            let ghost before = groups@;
            let ghost at = p.at();
            match p.parse_group()? {
                Some(g) => {
                    proof {
                        lemma_parse_group_advances(ts, at);
                    }
                    let ghost gv = g@;
                    groups.push(g);
                    proof {
                        assert(groups_view(groups@) =~= groups_view(before).push(gv));
                        let r = parse_groups(ts, p.at());
                        match r {
                            Ok(rest) => {
                                assert(groups_view(before) + (seq![gv] + rest) =~= groups_view(groups@) + rest);
                            },
                            Err(_) => {},
                        }
                    }
                },
                None => {
                    assert(groups_view(groups@) + seq![] =~= groups_view(groups@));
                    break ;
                },
            }
        }
        Ok(Suite(groups))
    }
}

/// `r` with `pre` put in front of the sequence it parsed.
pub open spec fn prepend<A>(r: Result<(Seq<A>, int), Seq<char>>, pre: Seq<A>) -> Result<
    (Seq<A>, int),
    Seq<char>,
> {
    match r {
        Ok((xs, k)) => Ok((pre + xs, k)),
        Err(e) => Err(e),
    }
}

pub open spec fn prepend_groups(r: Result<Seq<SpecGroup>, Seq<char>>, pre: Seq<SpecGroup>) -> Result<
    Seq<SpecGroup>,
    Seq<char>,
> {
    match r {
        Ok(xs) => Ok(pre + xs),
        Err(e) => Err(e),
    }
}

proof fn lemma_prepend_step<A>(r: Result<(Seq<A>, int), Seq<char>>, pre: Seq<A>, x: A)
    ensures
        prepend(prepend(r, seq![x]), pre) == prepend(r, pre.push(x)),
{
    match r {
        Ok((xs, k)) => {
            assert(pre + (seq![x] + xs) =~= pre.push(x) + xs);
        },
        Err(_) => {},
    }
}

pub open spec fn asserts_view(v: Seq<Assert>) -> Seq<SpecAssert> {
    v.map_values(|a: Assert| a@)
}

pub open spec fn tests_view(v: Seq<Test>) -> Seq<SpecTest> {
    v.map_values(|t: Test| t@)
}

pub open spec fn groups_view(v: Seq<Group>) -> Seq<SpecGroup> {
    v.map_values(|g: Group| g@)
}

/// `parts.join(sep)`.
pub fn join_strings(parts: &Vec<String>, sep: &str) -> (r: String)
    ensures
        r@ == join(parts_view(parts@), sep@),
{
    let mut r = String::new();
    let mut i: usize = 0;
    while i < parts.len()
        invariant
            i <= parts.len(),
            r@ == join(parts_view(parts@).take(i as int), sep@),
        decreases parts.len() - i,
    {
        let ghost pv = parts_view(parts@);
        assert(pv.take(i + 1).drop_last() =~= pv.take(i as int));
        if i > 0 {
            push_str(&mut r, sep);
        } else {
            assert(pv.take(0) =~= seq![]);
        }
        push_str(&mut r, parts[i].as_str());
        i += 1;
        assert(pv.take(i as int).last() == parts[i - 1]@);
    }
    assert(parts_view(parts@).take(parts.len() as int) =~= parts_view(parts@));
    r
}

pub open spec fn parts_view(v: Seq<String>) -> Seq<Seq<char>> {
    v.map_values(|s: String| s@)
}

} // verus!
