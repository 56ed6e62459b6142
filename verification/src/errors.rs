//! The typed errors of the interpreter.
//!
//! Lexing and parsing report a `SyntaxError`; evaluation reports a
//! `RuntimeError`.  Every evaluation step yields a value or exactly one
//! error, and an error short-circuits the rest of the enclosing sequence.

use vstd::prelude::*;

verus! {

/// Why a piece of source text was rejected before evaluation.
#[derive(Clone, Copy, Debug, PartialEq, Eq, Structural)]
pub enum SyntaxError {
    /// A numeric literal contained a character (such as a decimal point)
    /// that is not a digit; only unsigned integer literals are supported.
    MalformedNumber,
    /// A `)` appeared with no `(` still open.
    UnmatchedCloseParen,
    /// The input ended while at least one `(` was still open.
    UnterminatedList,
}

/// Why evaluation of a well-formed expression failed.
#[derive(Clone, Copy, Debug, PartialEq, Eq, Structural)]
pub enum RuntimeError {
    /// A symbol lookup exhausted the environment chain.
    UnboundVariable,
    /// `define` targeted a name already bound in the same environment.
    DuplicateBinding,
    /// The evaluated head of a list application is not a procedure.
    ApplicationError,
    /// A special form's arguments have the wrong shape or arity.
    MalformedForm,
    /// A native procedure received an operand of the wrong variant.
    TypeError,
    /// A closure was applied to a different number of arguments than it
    /// declares parameters.
    ArityMismatch,
    /// An arithmetic fold exceeded the machine integer range.
    Overflow,
    /// Evaluation exceeded the recursion budget of the evaluator.
    OutOfFuel,
}

impl SyntaxError {
    /// The display text for this error.
    pub open spec fn spec_msg(self) -> Seq<char> {
        match self {
            SyntaxError::MalformedNumber => "malformed number literal"@,
            SyntaxError::UnmatchedCloseParen => "no matching open paren"@,
            SyntaxError::UnterminatedList => "unexpected end of input inside a list"@,
        }
    }

    /// A human-readable description of the error.
    pub fn msg(&self) -> (r: String)
        ensures
            r@ == self.spec_msg(),
    {
        match self {
            SyntaxError::MalformedNumber => "malformed number literal".to_owned(),
            SyntaxError::UnmatchedCloseParen => "no matching open paren".to_owned(),
            SyntaxError::UnterminatedList => "unexpected end of input inside a list".to_owned(),
        }
    }
}

impl RuntimeError {
    /// The display text for this error.
    pub open spec fn spec_msg(self) -> Seq<char> {
        match self {
            RuntimeError::UnboundVariable => "used before define"@,
            RuntimeError::DuplicateBinding => "the identifier is already defined"@,
            RuntimeError::ApplicationError => "first entry must be a procedure"@,
            RuntimeError::MalformedForm => "malformed special form"@,
            RuntimeError::TypeError => "invalid operand variant"@,
            RuntimeError::ArityMismatch => "wrong number of arguments"@,
            RuntimeError::Overflow => "arithmetic overflow"@,
            RuntimeError::OutOfFuel => "evaluation budget exhausted"@,
        }
    }

    /// A human-readable description of the error.
    pub fn msg(&self) -> (r: String)
        ensures
            r@ == self.spec_msg(),
    {
        match self {
            RuntimeError::UnboundVariable => "used before define".to_owned(),
            RuntimeError::DuplicateBinding => "the identifier is already defined".to_owned(),
            RuntimeError::ApplicationError => "first entry must be a procedure".to_owned(),
            RuntimeError::MalformedForm => "malformed special form".to_owned(),
            RuntimeError::TypeError => "invalid operand variant".to_owned(),
            RuntimeError::ArityMismatch => "wrong number of arguments".to_owned(),
            RuntimeError::Overflow => "arithmetic overflow".to_owned(),
            RuntimeError::OutOfFuel => "evaluation budget exhausted".to_owned(),
        }
    }
}

} // verus!
