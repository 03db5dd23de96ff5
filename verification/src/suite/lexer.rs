//! The lexer of the suite language: keywords, bare words, quoted strings with
//! escapes, and `r"..."` regex literals, separated by ASCII whitespace.

use vstd::prelude::*;
use crate::text::{ascii_ws, is_ascii_ws, chars_of, string_of, str_eq};

verus! {

#[derive(Debug, PartialEq, Clone)]
pub enum Token {
    // Structure keywords
    End,
    Group,
    Test,
    Assert,
    Not,
    // Data
    Ident(String),
    QuotedString(String),
    Regex(String),
}

pub enum SpecToken {
    End,
    Group,
    Test,
    Assert,
    Not,
    Ident(Seq<char>),
    QuotedString(Seq<char>),
    Regex(Seq<char>),
}

impl View for Token {
    type V = SpecToken;

    open spec fn view(&self) -> SpecToken {
        match self {
            Token::End => SpecToken::End,
            Token::Group => SpecToken::Group,
            Token::Test => SpecToken::Test,
            Token::Assert => SpecToken::Assert,
            Token::Not => SpecToken::Not,
            Token::Ident(s) => SpecToken::Ident(s@),
            Token::QuotedString(s) => SpecToken::QuotedString(s@),
            Token::Regex(s) => SpecToken::Regex(s@),
        }
    }
}

pub open spec fn tokens_view(v: Seq<Token>) -> Seq<SpecToken> {
    v.map_values(|t: Token| t@)
}

/// The token a bare word stands for: one of the five keywords, or an `Ident`.
pub open spec fn word_token(w: Seq<char>) -> SpecToken {
    if w == "end"@ {
        SpecToken::End
    } else if w == "group"@ {
        SpecToken::Group
    } else if w == "test"@ {
        SpecToken::Test
    } else if w == "assert"@ {
        SpecToken::Assert
    } else if w == "not"@ {
        SpecToken::Not
    } else {
        SpecToken::Ident(w)
    }
}

/// `s` without its leading ASCII whitespace.
pub open spec fn skip_ascii_ws(s: Seq<char>) -> Seq<char>
    decreases s.len(),
{
    if s.len() > 0 && is_ascii_ws(s[0]) {
        skip_ascii_ws(s.drop_first())
    } else {
        s
    }
}

/// The length of the longest prefix of `s` without ASCII whitespace.
pub open spec fn word_len(s: Seq<char>) -> nat
    decreases s.len(),
{
    if s.len() == 0 || is_ascii_ws(s[0]) {
        0
    } else {
        1 + word_len(s.drop_first())
    }
}

/// The body of a quoted string, read after its opening quote: the decoded
/// contents and what follows the closing quote. `\"`, `\\`, `\n` and `\t` are
/// escapes; a backslash before any other character is kept with it; the end
/// of the input closes the string.
pub open spec fn read_quoted(s: Seq<char>) -> (Seq<char>, Seq<char>)
    decreases s.len(),
{
    if s.len() == 0 {
        (seq![], seq![])
    } else if s[0] == '"' {
        (seq![], s.drop_first())
    } else if s[0] == '\\' {
        if s.len() == 1 {
            (seq![], seq![])
        } else {
            let c = s[1];
            let esc = if c == '"' {
                seq!['"']
            } else if c == '\\' {
                seq!['\\']
            } else if c == 'n' {
                seq!['\n']
            } else if c == 't' {
                seq!['\t']
            } else {
                seq!['\\', c]
            };
            let r = read_quoted(s.skip(2));
            (esc + r.0, r.1)
        }
    } else {
        let r = read_quoted(s.drop_first());
        (seq![s[0]] + r.0, r.1)
    }
}

/// The body of a regex literal, read after `r"`: everything up to the next
/// quote (no escapes), and what follows that quote.
pub open spec fn read_raw(s: Seq<char>) -> (Seq<char>, Seq<char>)
    decreases s.len(),
{
    if s.len() == 0 {
        (seq![], seq![])
    } else if s[0] == '"' {
        (seq![], s.drop_first())
    } else {
        let r = read_raw(s.drop_first());
        (seq![s[0]] + r.0, r.1)
    }
}

/// The first token of `s` and the input that follows it, or `None` when only
/// whitespace is left.
pub open spec fn lex_step(s: Seq<char>) -> Option<(SpecToken, Seq<char>)> {
    let t = skip_ascii_ws(s);
    if t.len() == 0 {
        None
    } else if t[0] == '"' {
        let r = read_quoted(t.drop_first());
        Some((SpecToken::QuotedString(r.0), r.1))
    } else if t[0] == 'r' && t.len() > 1 && t[1] == '"' {
        let r = read_raw(t.skip(2));
        Some((SpecToken::Regex(r.0), r.1))
    } else {
        let n = word_len(t);
        Some((word_token(t.take(n as int)), t.skip(n as int)))
    }
}

/// The whole token stream of `s`.
pub open spec fn lex(s: Seq<char>) -> Seq<SpecToken>
    decreases s.len(),
{
    match lex_step(s) {
        None => seq![],
        Some((t, r)) => {
            proof {
                lemma_lex_step_shrinks(s);
            }
            seq![t] + lex(r)
        },
    }
}

pub proof fn lemma_skip_ascii_ws_len(s: Seq<char>)
    ensures
        skip_ascii_ws(s).len() <= s.len(),
        skip_ascii_ws(s).len() > 0 ==> !is_ascii_ws(skip_ascii_ws(s)[0]),
    decreases s.len(),
{
    if s.len() > 0 && is_ascii_ws(s[0]) {
        lemma_skip_ascii_ws_len(s.drop_first());
    }
}

pub proof fn lemma_read_quoted_len(s: Seq<char>)
    ensures
        read_quoted(s).1.len() <= s.len(),
    decreases s.len(),
{
    if s.len() > 0 && s[0] != '"' {
        if s[0] == '\\' {
            if s.len() > 1 {
                lemma_read_quoted_len(s.skip(2));
            }
        } else {
            lemma_read_quoted_len(s.drop_first());
        }
    }
}

pub proof fn lemma_read_raw_len(s: Seq<char>)
    ensures
        read_raw(s).1.len() <= s.len(),
    decreases s.len(),
{
    if s.len() > 0 && s[0] != '"' {
        lemma_read_raw_len(s.drop_first());
    }
}

pub proof fn lemma_word_len(s: Seq<char>)
    ensures
        word_len(s) <= s.len(),
        s.len() > 0 && !is_ascii_ws(s[0]) ==> word_len(s) >= 1,
    decreases s.len(),
{
    if s.len() > 0 && !is_ascii_ws(s[0]) {
        lemma_word_len(s.drop_first());
    }
}

pub proof fn lemma_lex_step_shrinks(s: Seq<char>)
    ensures
        lex_step(s) matches Some((_, r)) ==> r.len() < s.len(),
{
    let t = skip_ascii_ws(s);
    lemma_skip_ascii_ws_len(s);
    if t.len() > 0 {
        lemma_read_quoted_len(t.drop_first());
        lemma_read_raw_len(t.skip(2));
        lemma_word_len(t);
    }
}

impl Token {
    /// The keyword a bare word spells, or an `Ident`.
    pub fn from_ident(s: String) -> (t: Token)
        ensures
            t@ == word_token(s@),
    {
        if str_eq(s.as_str(), "end") {
            Token::End
        } else if str_eq(s.as_str(), "group") {
            Token::Group
        } else if str_eq(s.as_str(), "test") {
            Token::Test
        } else if str_eq(s.as_str(), "assert") {
            Token::Assert
        } else if str_eq(s.as_str(), "not") {
            Token::Not
        } else {
            Token::Ident(s)
        }
    }
}

/// A lexer over the characters of a suite; `next` hands out one token at a time.
pub struct Lexer {
    chars: Vec<char>,
    pos: usize,
}

impl Lexer {
    #[verifier::type_invariant]
    spec fn inv(self) -> bool {
        self.pos <= self.chars.len()
    }

    /// The input that is still to be read.
    pub closed spec fn rest(self) -> Seq<char> {
        self.chars@.skip(self.pos as int)
    }

    pub fn new(input: &str) -> (l: Self)
        ensures
            l.rest() == input@,
    {
        let l = Lexer { chars: chars_of(input), pos: 0 };
        assert(l.chars@.skip(0) =~= l.chars@);
        l
    }

    fn peek(&self) -> (c: Option<char>)
        ensures
            c == (if self.rest().len() > 0 {
                Some(self.rest()[0])
            } else {
                None::<char>
            }),
    {
        proof {
            use_type_invariant(self);
        }
        if self.pos < self.chars.len() {
            Some(self.chars[self.pos])
        } else {
            None
        }
    }

    fn advance(&mut self)
        requires
            old(self).rest().len() > 0,
        ensures
            final(self).rest() == old(self).rest().drop_first(),
    {
        proof {
            use_type_invariant(&*self);
        }
        assert(self.chars@.skip(self.pos as int).drop_first() =~= self.chars@.skip(
            self.pos + 1,
        ));
        self.pos = self.pos + 1;
    }

    /// Reads a quoted string whose opening quote was just consumed.
    fn read_quoted(&mut self) -> (t: Token)
        ensures
            t@ == SpecToken::QuotedString(read_quoted(old(self).rest()).0),
            final(self).rest() == read_quoted(old(self).rest()).1,
    {
        let ghost start = self.rest();
        let mut s: Vec<char> = Vec::new();
        loop
            invariant_except_break
                s@ + read_quoted(self.rest()).0 == read_quoted(start).0,
                read_quoted(self.rest()).1 == read_quoted(start).1,
            ensures
                s@ == read_quoted(start).0,
                self.rest() == read_quoted(start).1,
            decreases self.rest().len(),
        {
            let ghost cur = self.rest();
            match self.peek() {
                None => {
                    assert(s@ + seq![] =~= s@);
                    break ;
                },
                Some(c) => {
                    self.advance();
                    if c == '"' {
                        assert(s@ + seq![] =~= s@);
                        break ;
                    } else if c == '\\' {
                        match self.peek() {
                            None => {
                                assert(s@ + seq![] =~= s@);
                                break ;
                            },
                            Some(d) => {
                                self.advance();
                                assert(cur.skip(2) =~= self.rest());
                                if d == '"' {
                                    s.push('"');
                                } else if d == '\\' {
                                    s.push('\\');
                                } else if d == 'n' {
                                    s.push('\n');
                                } else if d == 't' {
                                    s.push('\t');
                                } else {
                                    s.push('\\');
                                    s.push(d);
                                }
                                let ghost esc = if d == '"' {
                                    seq!['"']
                                } else if d == '\\' {
                                    seq!['\\']
                                } else if d == 'n' {
                                    seq!['\n']
                                } else if d == 't' {
                                    seq!['\t']
                                } else {
                                    seq!['\\', d]
                                };
                                assert(read_quoted(cur).0 == esc + read_quoted(self.rest()).0);
                                assert(s@ + read_quoted(self.rest()).0 =~= read_quoted(start).0);
                            },
                        }
                    } else {
                        s.push(c);
                        assert(s@ + read_quoted(self.rest()).0 =~= read_quoted(start).0);
                    }
                },
            }
        }
        Token::QuotedString(string_of(&s))
    }

    /// Reads a regex literal whose `r"` was just consumed.
    fn read_raw(&mut self) -> (t: Token)
        ensures
            t@ == SpecToken::Regex(read_raw(old(self).rest()).0),
            final(self).rest() == read_raw(old(self).rest()).1,
    {
        let ghost start = self.rest();
        let mut s: Vec<char> = Vec::new();
        loop
            invariant_except_break
                s@ + read_raw(self.rest()).0 == read_raw(start).0,
                read_raw(self.rest()).1 == read_raw(start).1,
            ensures
                s@ == read_raw(start).0,
                self.rest() == read_raw(start).1,
            decreases self.rest().len(),
        {
            let ghost cur = self.rest();
            match self.peek() {
                None => {
                    assert(s@ + seq![] =~= s@);
                    break ;
                },
                Some(c) => {
                    self.advance();
                    if c == '"' {
                        assert(s@ + seq![] =~= s@);
                        break ;
                    }
                    s.push(c);
                    assert(s@ + read_raw(self.rest()).0 =~= read_raw(start).0);
                },
            }
        }
        Token::Regex(string_of(&s))
    }

    /// Reads the rest of a bare word whose first character `first` was just
    /// consumed.
    fn read_ident_tail(&mut self, first: char) -> (t: Token)
        requires
            !is_ascii_ws(first),
        ensures
            t@ == word_token(
                (seq![first] + old(self).rest()).take(word_len(seq![first] + old(self).rest()) as int),
            ),
            final(self).rest() == (seq![first] + old(self).rest()).skip(
                word_len(seq![first] + old(self).rest()) as int,
            ),
    {
        let ghost whole = seq![first] + self.rest();
        let mut s: Vec<char> = Vec::new();
        s.push(first);
        proof {
            assert(whole.drop_first() =~= self.rest());
            assert(whole.skip(1) =~= self.rest());
            assert(whole.take(1) =~= s@);
        }
        loop
            invariant_except_break
                1 <= s@.len() <= whole.len(),
                s@ == whole.take(s@.len() as int),
                self.rest() == whole.skip(s@.len() as int),
                word_len(whole) == s@.len() + word_len(self.rest()),
            ensures
                s@ == whole.take(word_len(whole) as int),
                self.rest() == whole.skip(word_len(whole) as int),
            decreases self.rest().len(),
        {
            match self.peek() {
                None => {
                    break ;
                },
                Some(c) => {
                    if ascii_ws(c) {
                        break ;
                    }
                    let ghost cur = self.rest();
                    self.advance();
                    s.push(c);
                    assert(s@ =~= whole.take(s@.len() as int));
                    assert(self.rest() =~= whole.skip(s@.len() as int));
                },
            }
        }
        Token::from_ident(string_of(&s))
    }

    /// The next token, or `None` once only whitespace is left.
    pub fn next(&mut self) -> (t: Option<Token>)
        ensures
            match lex_step(old(self).rest()) {
                None => t is None,
                Some((tok, r)) => t matches Some(x) && x@ == tok && final(self).rest() == r,
            },
    {
        let ghost start = self.rest();
        // Skip whitespace
        loop
            invariant_except_break
                skip_ascii_ws(self.rest()) == skip_ascii_ws(start),
            ensures
                self.rest() == skip_ascii_ws(start),
            decreases self.rest().len(),
        {
            match self.peek() {
                None => {
                    break ;
                },
                Some(c) => {
                    if !ascii_ws(c) {
                        break ;
                    }
                    self.advance();
                },
            }
        }
        let ghost t = self.rest();
        let b = match self.peek() {
            None => {
                return None;
            },
            Some(b) => b,
        };
        self.advance();
        proof {
            lemma_skip_ascii_ws_len(start);
            assert(t.drop_first() == self.rest());
        }
        if b == '"' {
            Some(self.read_quoted())
        } else if b == 'r' {
            let is_regex = match self.peek() {
                Some(q) => q == '"',
                None => false,
            };
            if is_regex {
                self.advance();
                assert(t.skip(2) =~= self.rest());
                Some(self.read_raw())
            } else {
                assert(t =~= seq![b] + self.rest());
                Some(self.read_ident_tail(b))
            }
        } else {
            assert(t =~= seq![b] + self.rest());
            Some(self.read_ident_tail(b))
        }
    }

    /// All the tokens that are left, in order.
    pub fn tokens(self) -> (v: Vec<Token>)
        ensures
            tokens_view(v@) == lex(self.rest()),
    {
        let mut lexer = self;
        let mut v: Vec<Token> = Vec::new();
        let ghost start = lexer.rest();
        loop
            invariant_except_break
                tokens_view(v@) + lex(lexer.rest()) == lex(start),
            ensures
                tokens_view(v@) == lex(start),
            decreases lexer.rest().len(),
        {
            let ghost cur = lexer.rest();
            proof {
                lemma_lex_step_shrinks(cur);
            }
            match lexer.next() {
                None => {
                    assert(tokens_view(v@) + seq![] =~= tokens_view(v@));
                    break ;
                },
                Some(t) => {
                    let ghost before = v@;
                    let ghost tv = t@;
                    v.push(t);
                    assert(tokens_view(v@) =~= tokens_view(before).push(tv));
                    assert(tokens_view(v@) + lex(lexer.rest()) =~= lex(start));
                },
            }
        }
        v
    }
}

} // verus!
