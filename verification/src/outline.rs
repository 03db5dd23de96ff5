//! The outline reading of a suite: words separated by ASCII whitespace,
//! `group`/`test`/`assert`/`end` as keywords, and each test's request line
//! and assertions kept as text (the words joined by single spaces).

use vstd::prelude::*;
use crate::suite::lexer::{lemma_skip_ascii_ws_len, lemma_word_len, skip_ascii_ws, word_len};
use crate::suite::parser::{join_strings, parts_view, prepend};
use crate::text::{ascii_ws, chars_of, debug_quoted, debug_str, join, push_str, str_eq, string_of_range};

verus! {

#[derive(Debug, PartialEq)]
pub enum Token {
    Ident(String),
    End,
    Group,
    Test,
    Assert,
}

pub enum SpecWord {
    Ident(Seq<char>),
    End,
    Group,
    Test,
    Assert,
}

impl View for Token {
    type V = SpecWord;

    open spec fn view(&self) -> SpecWord {
        match self {
            Token::Ident(s) => SpecWord::Ident(s@),
            Token::End => SpecWord::End,
            Token::Group => SpecWord::Group,
            Token::Test => SpecWord::Test,
            Token::Assert => SpecWord::Assert,
        }
    }
}

pub open spec fn words_view(v: Seq<Token>) -> Seq<SpecWord> {
    v.map_values(|t: Token| t@)
}

/// The token a word stands for: a keyword, or an `Ident`.
pub open spec fn word_of(w: Seq<char>) -> SpecWord {
    if w == "end"@ {
        SpecWord::End
    } else if w == "group"@ {
        SpecWord::Group
    } else if w == "test"@ {
        SpecWord::Test
    } else if w == "assert"@ {
        SpecWord::Assert
    } else {
        SpecWord::Ident(w)
    }
}

/// The tokens of a text: its words, separated by ASCII whitespace.
pub open spec fn outline_lex(s: Seq<char>) -> Seq<SpecWord>
    decreases s.len(),
{
    let t = skip_ascii_ws(s);
    if t.len() == 0 {
        seq![]
    } else {
        let k = word_len(t);
        proof {
            lemma_skip_ascii_ws_len(s);
            lemma_word_len(t);
        }
        seq![word_of(t.take(k as int))] + outline_lex(t.skip(k as int))
    }
}

impl Token {
    /// The keyword a word spells, or an `Ident`.
    pub fn from_string(s: String) -> (t: Token)
        ensures
            t@ == word_of(s@),
    {
        if str_eq(s.as_str(), "end") {
            Token::End
        } else if str_eq(s.as_str(), "group") {
            Token::Group
        } else if str_eq(s.as_str(), "test") {
            Token::Test
        } else if str_eq(s.as_str(), "assert") {
            Token::Assert
        } else {
            Token::Ident(s)
        }
    }
}

/// A lexer over a text; `next` hands out one word at a time.
pub struct Lexer {
    chars: Vec<char>,
    pos: usize,
}

impl Lexer {
    #[verifier::type_invariant]
    spec fn inv(self) -> bool {
        self.pos <= self.chars.len()
    }

    /// The text that is still to be read.
    pub closed spec fn rest(self) -> Seq<char> {
        self.chars@.skip(self.pos as int)
    }

    pub fn new(input: &str) -> (l: Self)
        ensures
            l.rest() == input@,
    {
        let l = Lexer { chars: chars_of(input), pos: 0 };
        assert(l.chars@.skip(0) =~= l.chars@);
        l
    }

    /// The next word, or `None` once only whitespace is left.
    pub fn next(&mut self) -> (t: Option<Token>)
        ensures
            outline_lex(old(self).rest()) == (match t {
                Some(x) => seq![x@] + outline_lex(final(self).rest()),
                None => seq![],
            }),
            t is Some ==> final(self).rest().len() < old(self).rest().len(),
    {
        proof {
            use_type_invariant(&*self);
        }
        let ghost start = self.rest();
        let n = self.chars.len();
        let mut i = self.pos;
        while i < n && ascii_ws(self.chars[i])
            invariant
                self.pos <= i <= n == self.chars.len(),
                start == self.chars@.skip(self.pos as int),
                skip_ascii_ws(self.chars@.skip(i as int)) == skip_ascii_ws(start),
            decreases n - i,
        {
            assert(self.chars@.skip(i as int).drop_first() =~= self.chars@.skip(i + 1));
            i += 1;
        }
        let ghost t = self.chars@.skip(i as int);
        if i == n {
            assert(t =~= seq![]);
            self.pos = n;
            return None;
        }
        let mut j = i;
        while j < n && !ascii_ws(self.chars[j])
            invariant
                i <= j <= n == self.chars.len(),
                word_len(t) == (j - i) + word_len(self.chars@.skip(j as int)),
                t == self.chars@.skip(i as int),
            decreases n - j,
        {
            assert(self.chars@.skip(j as int).drop_first() =~= self.chars@.skip(j + 1));
            j += 1;
        }
        proof {
            lemma_word_len(t);
            lemma_skip_ascii_ws_len(start);
        }
        let w = string_of_range(&self.chars, i, j);
        assert(self.chars@.subrange(i as int, j as int) =~= t.take(word_len(t) as int));
        assert(t.skip(word_len(t) as int) =~= self.chars@.skip(j as int));
        self.pos = j;
        Some(Token::from_string(w))
    }

    /// All the words that are left, as tokens.
    pub fn tokens(self) -> (v: Vec<Token>)
        ensures
            words_view(v@) == outline_lex(self.rest()),
    {
        let mut lexer = self;
        let mut v: Vec<Token> = Vec::new();
        let ghost start = lexer.rest();
        loop
            invariant_except_break
                words_view(v@) + outline_lex(lexer.rest()) == outline_lex(start),
            ensures
                words_view(v@) == outline_lex(start),
            decreases lexer.rest().len(),
        {
            match lexer.next() {
                None => {
                    assert(words_view(v@) + seq![] =~= words_view(v@));
                    break ;
                },
                Some(t) => {
                    let ghost before = v@;
                    let ghost tv = t@;
                    v.push(t);
                    assert(words_view(v@) =~= words_view(before).push(tv));
                    assert(words_view(v@) + outline_lex(lexer.rest()) =~= outline_lex(start));
                },
            }
        }
        v
    }
}

/// A suite read as outline: its groups, in order.
#[derive(PartialEq, Debug)]
pub struct Suite(pub Vec<Group>);

#[derive(PartialEq, Debug)]
pub struct Group {
    pub name: String,
    pub tests: Vec<Test>,
}

/// A test: its name, its request line, and each assertion as text.
#[derive(PartialEq, Debug)]
pub struct Test {
    pub name: String,
    pub value: String,
    pub asserts: Vec<String>,
}

pub struct SpecOutlineTest {
    pub name: Seq<char>,
    pub value: Seq<char>,
    pub asserts: Seq<Seq<char>>,
}

pub struct SpecOutlineGroup {
    pub name: Seq<char>,
    pub tests: Seq<SpecOutlineTest>,
}

impl View for Test {
    type V = SpecOutlineTest;

    open spec fn view(&self) -> SpecOutlineTest {
        SpecOutlineTest { name: self.name@, value: self.value@, asserts: parts_view(self.asserts@) }
    }
}

impl View for Group {
    type V = SpecOutlineGroup;

    open spec fn view(&self) -> SpecOutlineGroup {
        SpecOutlineGroup { name: self.name@, tests: self.tests@.map_values(|t: Test| t@) }
    }
}

impl View for Suite {
    type V = Seq<SpecOutlineGroup>;

    open spec fn view(&self) -> Seq<SpecOutlineGroup> {
        self.0@.map_values(|g: Group| g@)
    }
}

/// What `{:?}` writes for a token (the derived `Debug`).
pub open spec fn word_debug(t: SpecWord) -> Seq<char> {
    match t {
        SpecWord::Ident(s) => "Ident("@ + debug_quoted(s) + ")"@,
        SpecWord::End => "End"@,
        SpecWord::Group => "Group"@,
        SpecWord::Test => "Test"@,
        SpecWord::Assert => "Assert"@,
    }
}

/// What `{:?}` writes for the token at `i` as an `Option`.
pub open spec fn at_debug(ts: Seq<SpecWord>, i: int) -> Seq<char> {
    if 0 <= i < ts.len() {
        "Some("@ + word_debug(ts[i]) + ")"@
    } else {
        "None"@
    }
}

/// A name: the next token must be a word.
pub open spec fn name_at(ts: Seq<SpecWord>, i: int, msg: Seq<char>) -> Result<(Seq<char>, int), Seq<char>> {
    if 0 <= i < ts.len() && ts[i] is Ident {
        Ok((ts[i]->Ident_0, i + 1))
    } else {
        Err(msg + ", got "@ + at_debug(ts, i))
    }
}

/// The words up to `assert` or `end` (not taken); `what` names the place in
/// messages.
pub open spec fn words_until(ts: Seq<SpecWord>, i: int, what: Seq<char>) -> Result<(Seq<Seq<char>>, int), Seq<char>>
    decreases ts.len() - i,
{
    if 0 <= i < ts.len() {
        match ts[i] {
            SpecWord::Ident(s) => match words_until(ts, i + 1, what) {
                Ok((ws, j)) => Ok((seq![s] + ws, j)),
                Err(e) => Err(e),
            },
            SpecWord::Assert => Ok((seq![], i)),
            SpecWord::End => Ok((seq![], i)),
            _ => Err("unexpected token in "@ + what + ": "@ + word_debug(ts[i])),
        }
    } else {
        Err("unexpected EOF in "@ + what)
    }
}

pub proof fn lemma_words_until_advances(ts: Seq<SpecWord>, i: int, what: Seq<char>)
    requires
        0 <= i,
    ensures
        words_until(ts, i, what) matches Ok((_, j)) ==> i <= j && 0 <= j < ts.len() && (ts[j] is Assert
            || ts[j] is End),
    decreases ts.len() - i,
{
    if 0 <= i < ts.len() && ts[i] is Ident {
        lemma_words_until_advances(ts, i + 1, what);
    }
}

/// The assertions of a test, each `assert` with its words, up to and
/// including the test's `end`.
pub open spec fn outline_asserts(ts: Seq<SpecWord>, i: int) -> Result<(Seq<Seq<char>>, int), Seq<char>>
    decreases ts.len() - i,
{
    if 0 <= i < ts.len() {
        match ts[i] {
            SpecWord::Assert => match words_until(ts, i + 1, "assert"@) {
                Err(e) => Err(e),
                Ok((ws, j)) => {
                    proof {
                        lemma_words_until_advances(ts, i + 1, "assert"@);
                    }
                    match outline_asserts(ts, j) {
                        Ok((rest, k)) => Ok((seq![join(ws, " "@)] + rest, k)),
                        Err(e) => Err(e),
                    }
                },
            },
            SpecWord::End => Ok((seq![], i + 1)),
            _ => Err("unexpected token in test asserts: "@ + word_debug(ts[i])),
        }
    } else {
        Err("unexpected EOF in test asserts"@)
    }
}

/// `test <name> <words> <asserts> end`
pub open spec fn outline_test(ts: Seq<SpecWord>, i: int) -> Result<(SpecOutlineTest, int), Seq<char>> {
    if 0 <= i < ts.len() && ts[i] is Test {
        match name_at(ts, i + 1, "expected test name"@) {
            Err(e) => Err(e),
            Ok((name, j)) => match words_until(ts, j, "test value"@) {
                Err(e) => Err(e),
                Ok((parts, k)) => match outline_asserts(ts, k) {
                    Err(e) => Err(e),
                    Ok((asserts, l)) => Ok(
                        (SpecOutlineTest { name, value: join(parts, " "@), asserts }, l),
                    ),
                },
            },
        }
    } else {
        Err("expected `test`, got "@ + at_debug(ts, i))
    }
}

pub proof fn lemma_outline_asserts_advances(ts: Seq<SpecWord>, i: int)
    requires
        0 <= i,
    ensures
        outline_asserts(ts, i) matches Ok((_, j)) ==> i < j <= ts.len(),
    decreases ts.len() - i,
{
    if 0 <= i < ts.len() && ts[i] is Assert {
        lemma_words_until_advances(ts, i + 1, "assert"@);
        match words_until(ts, i + 1, "assert"@) {
            Ok((_, j)) => lemma_outline_asserts_advances(ts, j),
            Err(_) => {},
        }
    }
}

pub proof fn lemma_outline_test_advances(ts: Seq<SpecWord>, i: int)
    requires
        0 <= i,
    ensures
        outline_test(ts, i) matches Ok((_, j)) ==> i < j <= ts.len(),
{
    match name_at(ts, i + 1, "expected test name"@) {
        Ok((_, j)) => {
            lemma_words_until_advances(ts, j, "test value"@);
            match words_until(ts, j, "test value"@) {
                Ok((_, k)) => lemma_outline_asserts_advances(ts, k),
                Err(_) => {},
            }
        },
        Err(_) => {},
    }
}

/// The tests of a group, up to and including its `end`.
pub open spec fn outline_tests(ts: Seq<SpecWord>, i: int) -> Result<(Seq<SpecOutlineTest>, int), Seq<char>>
    decreases ts.len() - i,
{
    if 0 <= i < ts.len() {
        match ts[i] {
            SpecWord::Test => match outline_test(ts, i) {
                Err(e) => Err(e),
                Ok((t, j)) => {
                    proof {
                        lemma_outline_test_advances(ts, i);
                    }
                    match outline_tests(ts, j) {
                        Ok((rest, k)) => Ok((seq![t] + rest, k)),
                        Err(e) => Err(e),
                    }
                },
            },
            SpecWord::End => Ok((seq![], i + 1)),
            _ => Err("unexpected token in group: "@ + word_debug(ts[i])),
        }
    } else {
        Err("unexpected EOF in group"@)
    }
}

pub proof fn lemma_outline_tests_advances(ts: Seq<SpecWord>, i: int)
    requires
        0 <= i,
    ensures
        outline_tests(ts, i) matches Ok((_, j)) ==> i < j <= ts.len(),
    decreases ts.len() - i,
{
    if 0 <= i < ts.len() && ts[i] is Test {
        lemma_outline_test_advances(ts, i);
        match outline_test(ts, i) {
            Ok((_, j)) => lemma_outline_tests_advances(ts, j),
            Err(_) => {},
        }
    }
}

/// `group <name> <tests> end`, or `None` at the end of the tokens.
pub open spec fn outline_group(ts: Seq<SpecWord>, i: int) -> Result<Option<(SpecOutlineGroup, int)>, Seq<char>> {
    if 0 <= i < ts.len() {
        if ts[i] is Group {
            match name_at(ts, i + 1, "expected group name"@) {
                Err(e) => Err(e),
                Ok((name, j)) => match outline_tests(ts, j) {
                    Err(e) => Err(e),
                    Ok((tests, k)) => Ok(Some((SpecOutlineGroup { name, tests }, k))),
                },
            }
        } else {
            Err("expected `group`, got "@ + at_debug(ts, i))
        }
    } else {
        Ok(None)
    }
}

pub proof fn lemma_outline_group_advances(ts: Seq<SpecWord>, i: int)
    requires
        0 <= i,
    ensures
        outline_group(ts, i) matches Ok(Some((_, j))) ==> i < j <= ts.len(),
{
    match name_at(ts, i + 1, "expected group name"@) {
        Ok((_, j)) => lemma_outline_tests_advances(ts, j),
        Err(_) => {},
    }
}

/// All the groups from `i` on.
pub open spec fn outline_groups(ts: Seq<SpecWord>, i: int) -> Result<Seq<SpecOutlineGroup>, Seq<char>>
    decreases ts.len() - i,
{
    match outline_group(ts, i) {
        Err(e) => Err(e),
        Ok(None) => Ok(seq![]),
        Ok(Some((g, j))) => {
            proof {
                lemma_outline_group_advances(ts, i);
            }
            match outline_groups(ts, j) {
                Ok(rest) => Ok(seq![g] + rest),
                Err(e) => Err(e),
            }
        },
    }
}

fn cat(a: &str, b: &str) -> (r: String)
    ensures
        r@ == a@ + b@,
{
    let mut r = String::from_str(a);
    push_str(&mut r, b);
    r
}

fn word_debug_exec(t: &Token) -> (r: String)
    ensures
        r@ == word_debug(t@),
{
    match t {
        Token::Ident(s) => {
            let d = debug_str(s.as_str());
            let r = cat("Ident(", d.as_str());
            cat(r.as_str(), ")")
        },
        Token::End => String::from_str("End"),
        Token::Group => String::from_str("Group"),
        Token::Test => String::from_str("Test"),
        Token::Assert => String::from_str("Assert"),
    }
}

/// A parser over the tokens of an outline.
pub struct Parser {
    tokens: Vec<Token>,
    pos: usize,
}

impl Parser {
    #[verifier::type_invariant]
    spec fn inv(self) -> bool {
        self.pos <= self.tokens.len()
    }

    pub closed spec fn toks(self) -> Seq<SpecWord> {
        words_view(self.tokens@)
    }

    pub closed spec fn at(self) -> int {
        self.pos as int
    }

    pub fn new(input: Vec<Token>) -> (p: Self)
        ensures
            p.toks() == words_view(input@),
            p.at() == 0,
    {
        Parser { tokens: input, pos: 0 }
    }

    fn peek(&self) -> (t: Option<&Token>)
        ensures
            0 <= self.at() <= self.toks().len(),
            match t {
                Some(x) => self.at() < self.toks().len() && x@ == self.toks()[self.at()],
                None => self.at() == self.toks().len(),
            },
    {
        proof {
            use_type_invariant(self);
        }
        if self.pos < self.tokens.len() {
            Some(&self.tokens[self.pos])
        } else {
            None
        }
    }

    fn bump(&mut self)
        requires
            old(self).at() < old(self).toks().len(),
        ensures
            final(self).at() == old(self).at() + 1,
            final(self).toks() == old(self).toks(),
    {
        proof {
            use_type_invariant(&*self);
        }
        self.pos = self.pos + 1;
    }

    fn at_debug(&self) -> (r: String)
        ensures
            r@ == at_debug(self.toks(), self.at()),
    {
        match self.peek() {
            Some(t) => {
                let d = word_debug_exec(t);
                let r = cat("Some(", d.as_str());
                cat(r.as_str(), ")")
            },
            None => String::from_str("None"),
        }
    }

    /// Takes a word, or fails with `msg` and the token found.
    pub fn expect_ident(&mut self, msg: &str) -> (r: Result<String, String>)
        ensures
            final(self).toks() == old(self).toks(),
            match name_at(old(self).toks(), old(self).at(), msg@) {
                Ok((s, j)) => r matches Ok(x) && x@ == s && final(self).at() == j,
                Err(e) => r matches Err(x) && x@ == e,
            },
    {
        let name = match self.peek() {
            Some(Token::Ident(s)) => Some(s.clone()),
            _ => None,
        };
        match name {
            Some(s) => {
                self.bump();
                Ok(s)
            },
            None => {
                let d = self.at_debug();
                let m = cat(msg, ", got ");
                Err(cat(m.as_str(), d.as_str()))
            },
        }
    }

    /// Takes the words up to `assert` or `end`.
    fn take_words(&mut self, what: &str) -> (r: Result<Vec<String>, String>)
        ensures
            final(self).toks() == old(self).toks(),
            match words_until(old(self).toks(), old(self).at(), what@) {
                Ok((ws, j)) => r matches Ok(x) && parts_view(x@) == ws && final(self).at() == j,
                Err(e) => r matches Err(x) && x@ == e,
            },
    {
        proof {
            use_type_invariant(&*self);
        }
        let ghost ts = self.toks();
        let ghost start = self.at();
        let mut parts: Vec<String> = Vec::new();
        loop
            invariant_except_break
                self.toks() == ts,
                ts == old(self).toks(),
                start == old(self).at(),
                start <= self.at() <= ts.len(),
                words_until(ts, start, what@) == prepend(words_until(ts, self.at(), what@), parts_view(parts@)),
            ensures
                self.toks() == ts,
                words_until(ts, start, what@) == Ok::<(Seq<Seq<char>>, int), Seq<char>>(
                    (parts_view(parts@), self.at()),
                ),
            decreases ts.len() - self.at(),
        {
            let ghost before = parts@;
            let w = match self.peek() {
                Some(Token::Ident(s)) => s.clone(),
                Some(Token::Assert) | Some(Token::End) => {
                    assert(parts_view(parts@) + seq![] =~= parts_view(parts@));
                    break ;
                },
                Some(t) => {
                    let d = word_debug_exec(t);
                    let m = cat("unexpected token in ", what);
                    let m2 = cat(m.as_str(), ": ");
                    return Err(cat(m2.as_str(), d.as_str()));
                },
                None => {
                    return Err(cat("unexpected EOF in ", what));
                },
            };
            let ghost at = self.at();
            self.bump();
            parts.push(w);
            proof {
                assert(parts_view(parts@) =~= parts_view(before).push(w@));
                match words_until(ts, self.at(), what@) {
                    Ok((ws, j)) => {
                        assert(parts_view(before) + (seq![w@] + ws) =~= parts_view(parts@) + ws);
                    },
                    Err(_) => {},
                }
            }
        }
        Ok(parts)
    }

    fn parse_test(&mut self) -> (r: Result<Test, String>)
        ensures
            final(self).toks() == old(self).toks(),
            match outline_test(old(self).toks(), old(self).at()) {
                Ok((t, j)) => r matches Ok(x) && x@ == t && final(self).at() == j,
                Err(e) => r matches Err(x) && x@ == e,
            },
    {
        match self.peek() {
            Some(Token::Test) => {},
            _ => {
                let d = self.at_debug();
                return Err(cat("expected `test`, got ", d.as_str()));
            },
        }
        self.bump();
        let name = self.expect_ident("expected test name")?;
        let ghost j0 = self.at();
        let value_parts = self.take_words("test value")?;
        let value = join_strings(&value_parts, " ");
        assert(parts_view(value_parts@) =~= crate::preproc::strings_view(value_parts@));
        proof {
            use_type_invariant(&*self);
        }
        let ghost ts = self.toks();
        let ghost k = self.at();
        let mut asserts: Vec<String> = Vec::new();
        loop
            invariant_except_break
                self.toks() == ts,
                ts == old(self).toks(),
                0 <= old(self).at() < ts.len(),
                ts[old(self).at()] is Test,
                name_at(ts, old(self).at() + 1, "expected test name"@) == Ok::<(Seq<char>, int), Seq<char>>(
                    (name@, j0),
                ),
                words_until(ts, j0, "test value"@) == Ok::<(Seq<Seq<char>>, int), Seq<char>>(
                    (parts_view(value_parts@), k),
                ),
                value@ == join(parts_view(value_parts@), " "@),
                k <= self.at() <= ts.len(),
                outline_asserts(ts, k) == prepend(outline_asserts(ts, self.at()), parts_view(asserts@)),
            ensures
                self.toks() == ts,
                outline_asserts(ts, k) == Ok::<(Seq<Seq<char>>, int), Seq<char>>(
                    (parts_view(asserts@), self.at()),
                ),
            decreases ts.len() - self.at(),
        {
            let ghost before = asserts@;
            let ghost at = self.at();
            match self.peek() {
                Some(Token::Assert) => {},
                Some(Token::End) => {
                    self.bump();
                    assert(parts_view(asserts@) + seq![] =~= parts_view(asserts@));
                    break ;
                },
                Some(t) => {
                    let d = word_debug_exec(t);
                    return Err(cat("unexpected token in test asserts: ", d.as_str()));
                },
                None => {
                    return Err(String::from_str("unexpected EOF in test asserts"));
                },
            }
            self.bump();
            let parts = self.take_words("assert")?;
            proof {
                lemma_words_until_advances(ts, at + 1, "assert"@);
            }
            let a = join_strings(&parts, " ");
            asserts.push(a);
            proof {
                assert(parts_view(asserts@) =~= parts_view(before).push(a@));
                match outline_asserts(ts, self.at()) {
                    Ok((rest, j)) => {
                        assert(parts_view(before) + (seq![a@] + rest) =~= parts_view(asserts@) + rest);
                    },
                    Err(_) => {},
                }
            }
        }
        Ok(Test { name, value, asserts })
    }

    fn parse_group(&mut self) -> (r: Result<Option<Group>, String>)
        ensures
            final(self).toks() == old(self).toks(),
            match outline_group(old(self).toks(), old(self).at()) {
                Ok(None) => r matches Ok(None),
                Ok(Some((g, j))) => r matches Ok(Some(x)) && x@ == g && final(self).at() == j,
                Err(e) => r matches Err(x) && x@ == e,
            },
    {
        match self.peek() {
            None => {
                return Ok(None);
            },
            Some(Token::Group) => {},
            _ => {
                let d = self.at_debug();
                return Err(cat("expected `group`, got ", d.as_str()));
            },
        }
        self.bump();
        let name = self.expect_ident("expected group name")?;
        let ghost ts = self.toks();
        let ghost k = self.at();
        let mut tests: Vec<Test> = Vec::new();
        loop
            invariant_except_break
                self.toks() == ts,
                ts == old(self).toks(),
                0 <= old(self).at() < ts.len(),
                ts[old(self).at()] is Group,
                name_at(ts, old(self).at() + 1, "expected group name"@) == Ok::<(Seq<char>, int), Seq<char>>(
                    (name@, k),
                ),
                k <= self.at() <= ts.len(),
                outline_tests(ts, k) == prepend(
                    outline_tests(ts, self.at()),
                    tests@.map_values(|t: Test| t@),
                ),
            ensures
                self.toks() == ts,
                outline_tests(ts, k) == Ok::<(Seq<SpecOutlineTest>, int), Seq<char>>(
                    (tests@.map_values(|t: Test| t@), self.at()),
                ),
            decreases ts.len() - self.at(),
        {
            let ghost before = tests@.map_values(|t: Test| t@);
            let ghost at = self.at();
            match self.peek() {
                Some(Token::Test) => {},
                Some(Token::End) => {
                    self.bump();
                    assert(before + seq![] =~= before);
                    break ;
                },
                Some(t) => {
                    let d = word_debug_exec(t);
                    return Err(cat("unexpected token in group: ", d.as_str()));
                },
                None => {
                    return Err(String::from_str("unexpected EOF in group"));
                },
            }
            let t = self.parse_test()?;
            proof {
                lemma_outline_test_advances(ts, at);
            }
            let ghost tv = t@;
            tests.push(t);
            proof {
                assert(tests@.map_values(|t: Test| t@) =~= before.push(tv));
                match outline_tests(ts, self.at()) {
                    Ok((rest, j)) => {
                        assert(before + (seq![tv] + rest) =~= before.push(tv) + rest);
                    },
                    Err(_) => {},
                }
            }
        }
        Ok(Some(Group { name, tests }))
    }

    /// Reads every group to the end of the tokens.
    pub fn parse(self) -> (r: Result<Suite, String>)
        ensures
            match outline_groups(self.toks(), self.at()) {
                Ok(gs) => r matches Ok(x) && x@ == gs,
                Err(e) => r matches Err(x) && x@ == e,
            },
    {
        let ghost ts = self.toks();
        let ghost start = self.at();
        let mut p = self;
        proof {
            use_type_invariant(&p);
        }
        let mut groups: Vec<Group> = Vec::new();
        loop
            invariant_except_break
                p.toks() == ts,
                ts == self.toks(),
                start == self.at(),
                0 <= start <= p.at() <= ts.len(),
                outline_groups(ts, start) == (match outline_groups(ts, p.at()) {
                    Ok(rest) => Ok(groups@.map_values(|g: Group| g@) + rest),
                    Err(e) => Err(e),
                }),
            ensures
                outline_groups(ts, start) == Ok::<Seq<SpecOutlineGroup>, Seq<char>>(
                    groups@.map_values(|g: Group| g@),
                ),
            decreases ts.len() - p.at(),
        {
            let ghost before = groups@.map_values(|g: Group| g@);
            let ghost at = p.at();
            match p.parse_group()? {
                Some(g) => {
                    proof {
                        lemma_outline_group_advances(ts, at);
                    }
                    let ghost gv = g@;
                    groups.push(g);
                    proof {
                        assert(groups@.map_values(|g: Group| g@) =~= before.push(gv));
                        match outline_groups(ts, p.at()) {
                            Ok(rest) => {
                                assert(before + (seq![gv] + rest) =~= before.push(gv) + rest);
                            },
                            Err(_) => {},
                        }
                    }
                },
                None => {
                    assert(before + seq![] =~= before);
                    break ;
                },
            }
        }
        Ok(Suite(groups))
    }
}

/// Reads a whole text as an outline.
pub fn parse(input: &str) -> (r: Result<Suite, String>)
    ensures
        match outline_groups(outline_lex(input@), 0) {
            Ok(gs) => r matches Ok(s) && s@ == gs,
            Err(e) => r matches Err(m) && m@ == e,
        },
{
    let tokens = Lexer::new(input).tokens();
    Parser::new(tokens).parse()
}

} // verus!
