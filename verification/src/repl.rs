//! The read-loop facade of the interpreter core: it accepts one piece of
//! raw source text and turns it into a syntax forest, ready for
//! evaluation.  Reading commands and loading files stay with the caller.

use vstd::prelude::*;

use crate::errors::SyntaxError;
use crate::lex::lex;
use crate::lex::spec_lex;
use crate::parser::Node;
use crate::parser::NodeModel;
use crate::parser::Parser;
use crate::parser::parse_result_view;
use crate::parser::spec_parse;

verus! {

/// Lexing followed by parsing, with the first error kept.
pub open spec fn spec_interp(s: Seq<char>) -> Result<Seq<NodeModel>, SyntaxError> {
    match spec_lex(s) {
        Ok(ts) => spec_parse(ts),
        Err(e) => Err(e),
    }
}

/// The interpreter's front end for one piece of input text.
pub struct Repl {}

impl Repl {
    /// Lex and parse one piece of raw source text.
    pub fn interp(&self, input: &String) -> (r: Result<Vec<Node>, SyntaxError>)
        ensures
            parse_result_view(r) == spec_interp(input@),
    {
        match lex(input) {
            Ok(tokens) => Parser::parse(&tokens),
            Err(e) => Err(e),
        }
    }
}

} // verus!
