//! The syntax tree of a `.wurl` test suite, and its mathematical model.

use vstd::prelude::*;

verus! {

/// A whole suite: its groups, in file order.
#[derive(PartialEq, Debug)]
pub struct Suite(pub Vec<Group>);

/// `group "<name>" ... end`
#[derive(PartialEq, Debug)]
pub struct Group {
    pub name: String,
    pub tests: Vec<Test>,
}

/// `test "<name>" <request line> <asserts> end`
#[derive(PartialEq, Debug)]
pub struct Test {
    pub name: String,
    /// The request line: the tokens between the test name and the first
    /// `assert`/`end`, joined by single spaces (quoted ones re-quoted).
    pub value: String,
    pub asserts: Vec<Assert>,
}

/// `assert [not] <target> [matcher [value]]`
#[derive(PartialEq, Debug)]
pub struct Assert {
    pub negated: bool,
    pub target: AssertTarget,
    pub matcher: Option<Matcher>,
}

#[derive(PartialEq, Debug)]
pub enum AssertTarget {
    /// `assert status <code>`
    Status,
    /// `assert body` or `assert body.<path>`
    Body(BodyTarget),
    /// `assert header.<name>`
    Header(String),
    /// `assert cookie.<name>` or `assert cookie.<name>.<attribute>`
    Cookie(String, Option<String>),
    /// `assert duration`
    Duration,
}

#[derive(PartialEq, Debug)]
pub enum BodyTarget {
    Raw,
    Path(Vec<PathSegment>),
}

#[derive(PartialEq, Debug)]
pub enum PathSegment {
    Key(String),
    Index(usize),
}

#[derive(PartialEq, Debug)]
pub enum Matcher {
    // Unary
    Present,
    Absent,
    Empty,
    // Binary
    Equals(AssertValue),
    NotEquals(AssertValue),
    Contains(AssertValue),
    NotContains(AssertValue),
    StartsWith(AssertValue),
    EndsWith(AssertValue),
    Gt(AssertValue),
    Gte(AssertValue),
    Lt(AssertValue),
    Lte(AssertValue),
    Length(LengthArg),
    Matches(String),
}

/// `assert body.items length 5` vs `assert body.tags length gt 0`
#[derive(PartialEq, Debug)]
pub enum LengthArg {
    Exact(AssertValue),
    Gt(AssertValue),
    Gte(AssertValue),
    Lt(AssertValue),
    Lte(AssertValue),
}

/// A literal in an assertion. A number is kept as the text it was written
/// with; that text is accepted by `f64`'s `FromStr`.
#[derive(PartialEq, Debug)]
pub enum AssertValue {
    String(String),
    Number(String),
    Bool(bool),
    Null,
    Regex(String),
}

pub struct SpecGroup {
    pub name: Seq<char>,
    pub tests: Seq<SpecTest>,
}

pub struct SpecTest {
    pub name: Seq<char>,
    pub value: Seq<char>,
    pub asserts: Seq<SpecAssert>,
}

pub struct SpecAssert {
    pub negated: bool,
    pub target: SpecTarget,
    pub matcher: Option<SpecMatcher>,
}

pub enum SpecTarget {
    Status,
    Body(SpecBodyTarget),
    Header(Seq<char>),
    Cookie(Seq<char>, Option<Seq<char>>),
    Duration,
}

pub enum SpecBodyTarget {
    Raw,
    Path(Seq<SpecSegment>),
}

pub enum SpecSegment {
    Key(Seq<char>),
    Index(usize),
}

pub enum SpecMatcher {
    Present,
    Absent,
    Empty,
    Equals(SpecValue),
    NotEquals(SpecValue),
    Contains(SpecValue),
    NotContains(SpecValue),
    StartsWith(SpecValue),
    EndsWith(SpecValue),
    Gt(SpecValue),
    Gte(SpecValue),
    Lt(SpecValue),
    Lte(SpecValue),
    Length(SpecLengthArg),
    Matches(Seq<char>),
}

pub enum SpecLengthArg {
    Exact(SpecValue),
    Gt(SpecValue),
    Gte(SpecValue),
    Lt(SpecValue),
    Lte(SpecValue),
}

pub enum SpecValue {
    String(Seq<char>),
    Number(Seq<char>),
    Bool(bool),
    Null,
    Regex(Seq<char>),
}

impl View for Suite {
    type V = Seq<SpecGroup>;

    open spec fn view(&self) -> Seq<SpecGroup> {
        self.0@.map_values(|g: Group| g@)
    }
}

impl View for Group {
    type V = SpecGroup;

    open spec fn view(&self) -> SpecGroup {
        SpecGroup { name: self.name@, tests: self.tests@.map_values(|t: Test| t@) }
    }
}

impl View for Test {
    type V = SpecTest;

    open spec fn view(&self) -> SpecTest {
        SpecTest {
            name: self.name@,
            value: self.value@,
            asserts: self.asserts@.map_values(|a: Assert| a@),
        }
    }
}

impl View for Assert {
    type V = SpecAssert;

    open spec fn view(&self) -> SpecAssert {
        SpecAssert {
            negated: self.negated,
            target: self.target@,
            matcher: match self.matcher {
                Some(m) => Some(m@),
                None => None,
            },
        }
    }
}

impl View for AssertTarget {
    type V = SpecTarget;

    open spec fn view(&self) -> SpecTarget {
        match self {
            AssertTarget::Status => SpecTarget::Status,
            AssertTarget::Body(b) => SpecTarget::Body(b@),
            AssertTarget::Header(h) => SpecTarget::Header(h@),
            AssertTarget::Cookie(n, a) => SpecTarget::Cookie(
                n@,
                match a {
                    Some(a) => Some(a@),
                    None => None,
                },
            ),
            AssertTarget::Duration => SpecTarget::Duration,
        }
    }
}

impl View for BodyTarget {
    type V = SpecBodyTarget;

    open spec fn view(&self) -> SpecBodyTarget {
        match self {
            BodyTarget::Raw => SpecBodyTarget::Raw,
            BodyTarget::Path(p) => SpecBodyTarget::Path(segments_view(p@)),
        }
    }
}

pub open spec fn segments_view(p: Seq<PathSegment>) -> Seq<SpecSegment> {
    p.map_values(|s: PathSegment| s@)
}

impl View for PathSegment {
    type V = SpecSegment;

    open spec fn view(&self) -> SpecSegment {
        match self {
            PathSegment::Key(k) => SpecSegment::Key(k@),
            PathSegment::Index(i) => SpecSegment::Index(*i),
        }
    }
}

impl View for Matcher {
    type V = SpecMatcher;

    open spec fn view(&self) -> SpecMatcher {
        match self {
            Matcher::Present => SpecMatcher::Present,
            Matcher::Absent => SpecMatcher::Absent,
            Matcher::Empty => SpecMatcher::Empty,
            Matcher::Equals(v) => SpecMatcher::Equals(v@),
            Matcher::NotEquals(v) => SpecMatcher::NotEquals(v@),
            Matcher::Contains(v) => SpecMatcher::Contains(v@),
            Matcher::NotContains(v) => SpecMatcher::NotContains(v@),
            Matcher::StartsWith(v) => SpecMatcher::StartsWith(v@),
            Matcher::EndsWith(v) => SpecMatcher::EndsWith(v@),
            Matcher::Gt(v) => SpecMatcher::Gt(v@),
            Matcher::Gte(v) => SpecMatcher::Gte(v@),
            Matcher::Lt(v) => SpecMatcher::Lt(v@),
            Matcher::Lte(v) => SpecMatcher::Lte(v@),
            Matcher::Length(l) => SpecMatcher::Length(l@),
            Matcher::Matches(r) => SpecMatcher::Matches(r@),
        }
    }
}

impl View for LengthArg {
    type V = SpecLengthArg;

    open spec fn view(&self) -> SpecLengthArg {
        match self {
            LengthArg::Exact(v) => SpecLengthArg::Exact(v@),
            LengthArg::Gt(v) => SpecLengthArg::Gt(v@),
            LengthArg::Gte(v) => SpecLengthArg::Gte(v@),
            LengthArg::Lt(v) => SpecLengthArg::Lt(v@),
            LengthArg::Lte(v) => SpecLengthArg::Lte(v@),
        }
    }
}

impl View for AssertValue {
    type V = SpecValue;

    open spec fn view(&self) -> SpecValue {
        match self {
            AssertValue::String(s) => SpecValue::String(s@),
            AssertValue::Number(n) => SpecValue::Number(n@),
            AssertValue::Bool(b) => SpecValue::Bool(*b),
            AssertValue::Null => SpecValue::Null,
            AssertValue::Regex(r) => SpecValue::Regex(r@),
        }
    }
}

} // verus!
