//! Small checking helpers shared by the test suite: each one runs a stage
//! of the pipeline on a given input and reports whether it produced
//! exactly the expected result.

use vstd::prelude::*;

use crate::lex::Token;
use crate::lex::lex;
use crate::lex::spec_lex;
use crate::lex::TokenModel;
use crate::parser::Node;
use crate::parser::NodeModel;
use crate::parser::Parser;
use crate::parser::node_view;
use crate::parser::nodes_view;
use crate::parser::lemma_nodes_view;
use crate::parser::spec_parse;

verus! {

/// Structural equality of two tokens, decided executably.
fn token_eq(a: &Token, b: &Token) -> (r: bool)
    ensures
        r == (a@ == b@),
{
    match (a, b) {
        (Token::Integer(x), Token::Integer(y)) => *x == *y,
        (Token::Identifier(x), Token::Identifier(y)) => *x == *y,
        (Token::OpenParen, Token::OpenParen) => true,
        (Token::CloseParen, Token::CloseParen) => true,
        _ => false,
    }
}

/// Structural equality of two token sequences, decided executably.
fn tokens_equal(a: &Vec<Token>, b: &Vec<Token>) -> (r: bool)
    ensures
        r == (a.deep_view() == b.deep_view()),
{
    if a.len() != b.len() {
        proof {
            assert(a.deep_view().len() != b.deep_view().len());
        }
        return false;
    }
    let n = a.len();
    let mut i: usize = 0;
    while i < n
        invariant
            i <= n,
            n == a@.len() == b@.len(),
            forall|k: int| 0 <= k < i ==> #[trigger] a.deep_view()[k] == b.deep_view()[k],
        decreases n - i,
    {
        if !token_eq(&a[i], &b[i]) {
            assert(a.deep_view()[i as int] != b.deep_view()[i as int]);
            return false;
        }
        i = i + 1;
    }
    proof {
        assert(a.deep_view() =~= b.deep_view());
    }
    true
}

/// Structural equality of two syntax nodes, decided executably.
fn node_eq(a: &Node, b: &Node) -> (r: bool)
    ensures
        r == (a@ == b@),
    decreases a,
{
    match (a, b) {
        (Node::Integer(x), Node::Integer(y)) => *x == *y,
        (Node::Identifier(x), Node::Identifier(y)) => *x == *y,
        (Node::List(xs), Node::List(ys)) => {
            proof {
                lemma_nodes_view(xs@);
                lemma_nodes_view(ys@);
            }
            if xs.len() != ys.len() {
                proof {
                    assert(nodes_view(xs@).len() != nodes_view(ys@).len());
                }
                return false;
            }
            let n = xs.len();
            let mut i: usize = 0;
            while i < n
                invariant
                    i <= n,
                    n == xs@.len() == ys@.len(),
                    *a == Node::List(*xs),
                    *b == Node::List(*ys),
                    forall|k: int|
                        0 <= k < i ==> #[trigger] node_view(xs@[k]) == node_view(ys@[k]),
                decreases n - i,
            {
                proof {
                    assert(decreases_to!(*a => a->List_0));
                    assert(decreases_to!(*xs => xs@));
                    assert(decreases_to!(xs@ => xs@[i as int]));
                }
                if !node_eq(&xs[i], &ys[i]) {
                    proof {
                        lemma_nodes_view(xs@);
                        lemma_nodes_view(ys@);
                        assert(nodes_view(xs@)[i as int] != nodes_view(ys@)[i as int]);
                    }
                    return false;
                }
                i = i + 1;
            }
            proof {
                lemma_nodes_view(xs@);
                lemma_nodes_view(ys@);
                assert forall|k: int| 0 <= k < n implies nodes_view(xs@)[k] == nodes_view(
                    ys@,
                )[k] by {
                    assert(node_view(xs@[k]) == node_view(ys@[k]));
                }
                assert(nodes_view(xs@) =~= nodes_view(ys@));
            }
            true
        },
        _ => false,
    }
}

/// Structural equality of two node sequences, decided executably.
fn nodes_equal(a: &Vec<Node>, b: &Vec<Node>) -> (r: bool)
    ensures
        r == (nodes_view(a@) == nodes_view(b@)),
{
    proof {
        lemma_nodes_view(a@);
        lemma_nodes_view(b@);
    }
    if a.len() != b.len() {
        proof {
            assert(nodes_view(a@).len() != nodes_view(b@).len());
        }
        return false;
    }
    let n = a.len();
    let mut i: usize = 0;
    while i < n
        invariant
            i <= n,
            n == a@.len() == b@.len(),
            forall|k: int| 0 <= k < i ==> #[trigger] node_view(a@[k]) == node_view(b@[k]),
        decreases n - i,
    {
        if !node_eq(&a[i], &b[i]) {
            proof {
                lemma_nodes_view(a@);
                lemma_nodes_view(b@);
                assert(nodes_view(a@)[i as int] != nodes_view(b@)[i as int]);
            }
            return false;
        }
        i = i + 1;
    }
    proof {
        assert forall|k: int| 0 <= k < n implies nodes_view(a@)[k] == nodes_view(b@)[k] by {
            assert(node_view(a@[k]) == node_view(b@[k]));
        }
        assert(nodes_view(a@) =~= nodes_view(b@));
    }
    true
}

/// Parse `input` and report whether it yields exactly the expected syntax
/// forest.
pub fn parse_test_template(input: Vec<Token>, exp: Vec<Node>) -> (r: bool)
    ensures
        r == (spec_parse(input.deep_view()) == Ok::<Seq<NodeModel>, crate::errors::SyntaxError>(
            nodes_view(exp@),
        )),
{
    match Parser::parse(&input) {
        Ok(act) => nodes_equal(&act, &exp),
        Err(_) => false,
    }
}

/// Lex `input` and report whether it yields exactly the expected token
/// sequence.
pub fn lex_test_template(input: String, exp: Vec<Token>) -> (r: bool)
    ensures
        r == (spec_lex(input@) == Ok::<Seq<TokenModel>, crate::errors::SyntaxError>(
            exp.deep_view(),
        )),
{
    match lex(&input) {
        Ok(ts) => tokens_equal(&ts, &exp),
        Err(_) => false,
    }
}

} // verus!
