//! The `.wurl` suite language: lexer, parser and syntax tree.

pub mod ast;
pub mod helpers;
pub mod lexer;
pub mod parser;

use vstd::prelude::*;
use self::ast::{SpecGroup, Suite};
use self::lexer::{Lexer, lex};
use self::parser::{Parser, parse_groups};

verus! {

/// What a suite text means: the groups parsed from its token stream, or the
/// first error.
pub open spec fn suite_of(input: Seq<char>) -> Result<Seq<SpecGroup>, Seq<char>> {
    parse_groups(lex(input), 0)
}

/// Lexes and parses a whole suite.
pub fn parse(input: &str) -> (r: Result<Suite, String>)
    ensures
        match suite_of(input@) {
            Ok(gs) => r matches Ok(s) && s@ == gs,
            Err(e) => r matches Err(m) && m@ == e,
        },
{
    let tokens = Lexer::new(input).tokens();
    Parser::new(tokens).parse()
}

} // verus!
