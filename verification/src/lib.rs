//! A small Scheme-flavoured interpreter: a lexer that turns source text into
//! tokens, a recursive-descent parser that builds S-expression trees, and an
//! evaluator that resolves symbols through chained lexical scopes and applies
//! native or user-defined procedures.  Environments live in an arena owned by
//! the evaluator, so closures can keep their defining scope alive after the
//! call that created them has returned.
//!
//! The crate also carries a few small verified companions: a cons list with a
//! stack on top, line searching, and an employee directory.

pub mod errors;
pub mod lex;
pub mod cons_list;
pub mod employee;
pub mod env;
pub mod eval;
pub mod exercises;
pub mod parser;
pub mod repl;
pub mod search;
pub mod util;
pub mod value;

pub use env::Env;
pub use errors::RuntimeError;
pub use eval::Evalator;
pub use eval::eval;
pub use errors::SyntaxError;
pub use lex::Token;
pub use lex::lex;
pub use parser::Node;
pub use parser::Parser;
pub use repl::Repl;
pub use search::search;
pub use search::search_case_insensitive;
pub use util::lex_test_template;
pub use util::parse_test_template;
pub use value::Function;
pub use value::NativeOp;
pub use value::Value;
