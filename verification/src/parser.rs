//! The parser: recursive descent over the token sequence with an explicit
//! nesting depth, grammar `expr := INTEGER | IDENTIFIER | '(' expr* ')'`.
//!
//! * `Integer` and `Identifier` tokens map directly to leaf nodes,
//! * `(` recurses one level deeper and collects nodes until the matching `)`,
//! * `)` at depth zero is an unmatched-close-paren error; deeper it closes
//!   the list that is being collected,
//! * end of input at depth zero completes the parse; deeper it is an
//!   unbalanced-parentheses error.

use vstd::prelude::*;

use crate::errors::SyntaxError;
use crate::lex::Token;
use crate::lex::TokenModel;

verus! {

/// A syntax-tree element, built once by the parser and immutable afterwards.
#[derive(Debug, PartialEq, Hash, Eq)]
pub enum Node {
    Identifier(String),
    Integer(usize),
    List(Vec<Node>),
}

/// The mathematical image of one syntax-tree node.
pub open spec fn node_view(n: Node) -> NodeModel
    decreases n,
{
    match n {
        Node::Identifier(s) => NodeModel::Identifier(s@),
        Node::Integer(i) => NodeModel::Integer(i as nat),
        Node::List(ns) => NodeModel::List(nodes_view(ns@)),
    }
}

/// The mathematical image of a sequence of syntax-tree nodes.
pub open spec fn nodes_view(s: Seq<Node>) -> Seq<NodeModel>
    decreases s,
{
    if s.len() == 0 {
        Seq::empty()
    } else {
        seq![node_view(s[0])] + nodes_view(s.drop_first())
    }
}

/// [`nodes_view`] is the element-wise image.
pub proof fn lemma_nodes_view(s: Seq<Node>)
    ensures
        nodes_view(s).len() == s.len(),
        forall|k: int| 0 <= k < s.len() ==> #[trigger] nodes_view(s)[k] == node_view(s[k]),
    decreases s.len(),
{
    if s.len() > 0 {
        lemma_nodes_view(s.drop_first());
        assert forall|k: int| 0 <= k < s.len() implies #[trigger] nodes_view(s)[k] == node_view(
            s[k],
        ) by {
            if k > 0 {
                assert(nodes_view(s)[k] == nodes_view(s.drop_first())[k - 1]);
                assert(s.drop_first()[k - 1] == s[k]);
            }
        }
    }
}

impl Clone for Node {
    /// A structural copy: the copy has the same mathematical image.
    fn clone(&self) -> (res: Node)
        ensures
            res@ == self@,
        decreases self,
    {
        match self {
            Node::Identifier(s) => Node::Identifier(s.clone()),
            Node::Integer(n) => Node::Integer(*n),
            Node::List(ns) => {
                let mut copy: Vec<Node> = Vec::new();
                let mut i: usize = 0;
                while i < ns.len()
                    invariant
                        i <= ns@.len(),
                        copy@.len() == i,
                        *self == Node::List(*ns),
                        forall|k: int| 0 <= k < i ==> #[trigger] copy@[k]@ == ns@[k]@,
                    decreases ns@.len() - i,
                {
                    proof {
                        assert(decreases_to!(*self => self->List_0));
                        assert(decreases_to!(*ns => ns@));
                        assert(decreases_to!(ns@ => ns@[i as int]));
                    }
                    copy.push(ns[i].clone());
                    i = i + 1;
                }
                let res = Node::List(copy);
                proof {
                    lemma_nodes_view(copy@);
                    lemma_nodes_view(ns@);
                    assert forall|k: int| 0 <= k < ns@.len() implies nodes_view(copy@)[k]
                        == nodes_view(ns@)[k] by {
                        assert(copy@[k]@ == ns@[k]@);
                    }
                    assert(nodes_view(copy@) =~= nodes_view(ns@));
                }
                res
            },
        }
    }
}

/// The mathematical image of a [`Node`].
pub enum NodeModel {
    Identifier(Seq<char>),
    Integer(nat),
    List(Seq<NodeModel>),
}

impl View for Node {
    type V = NodeModel;

    open spec fn view(&self) -> NodeModel {
        node_view(*self)
    }
}

impl DeepView for Node {
    type V = NodeModel;

    open spec fn deep_view(&self) -> NodeModel {
        self.view()
    }
}

/// The number of tokens of `ts` at or after position `pos`; the measure for
/// the parser's recursion.
pub open spec fn rest_tokens(ts: Seq<TokenModel>, pos: int) -> nat {
    if pos <= ts.len() {
        (ts.len() - pos) as nat
    } else {
        0
    }
}

/// Parse a single expression of `ts` at `pos`, `depth` lists deep.
///
/// `Ok((Some(node), new_pos))` is one parsed expression; `Ok((None,
/// new_pos))` signals "list closed" (after `)` when `depth > 0`) or "input
/// exhausted" (at `depth == 0`).
pub open spec fn spec_parse_node(
    ts: Seq<TokenModel>,
    pos: int,
    depth: int,
) -> Result<(Option<NodeModel>, int), SyntaxError>
    decreases rest_tokens(ts, pos), 0int,
{
    if !(0 <= pos && pos < ts.len()) {
        if depth == 0 {
            Ok((None, pos))
        } else {
            Err(SyntaxError::UnterminatedList)
        }
    } else {
        match ts[pos] {
            TokenModel::Integer(n) => Ok((Some(NodeModel::Integer(n)), pos + 1)),
            TokenModel::Identifier(name) => Ok((Some(NodeModel::Identifier(name)), pos + 1)),
            TokenModel::OpenParen => match spec_parse_nodes(ts, pos + 1, depth + 1) {
                Err(e) => Err(e),
                Ok((inner, np)) => Ok((Some(NodeModel::List(inner)), np)),
            },
            TokenModel::CloseParen => if depth > 0 {
                Ok((None, pos + 1))
            } else {
                Err(SyntaxError::UnmatchedCloseParen)
            },
        }
    }
}

/// Parse expressions of `ts` from `pos` until the enclosing list closes (or
/// the input ends, at depth zero), returning them with the position after
/// the last token consumed.
pub open spec fn spec_parse_nodes(
    ts: Seq<TokenModel>,
    pos: int,
    depth: int,
) -> Result<(Seq<NodeModel>, int), SyntaxError>
    decreases rest_tokens(ts, pos), 1int,
{
    match spec_parse_node(ts, pos, depth) {
        Err(e) => Err(e),
        Ok((None, np)) => Ok((Seq::empty(), np)),
        Ok((Some(node), np)) => if 0 <= pos && pos < ts.len() && pos < np {
            match spec_parse_nodes(ts, np, depth) {
                Err(e) => Err(e),
                Ok((rest, end)) => Ok((seq![node] + rest, end)),
            }
        } else {
            // A parsed expression always consumes at least one token, so
            // this branch is never taken.
            Err(SyntaxError::UnterminatedList)
        },
    }
}

/// The syntax forest of a whole token sequence.
pub open spec fn spec_parse(ts: Seq<TokenModel>) -> Result<Seq<NodeModel>, SyntaxError> {
    match spec_parse_nodes(ts, 0, 0) {
        Err(e) => Err(e),
        Ok((nodes, _)) => Ok(nodes),
    }
}

/// The exec image of a parsing result.
pub open spec fn parse_result_view(
    r: Result<Vec<Node>, SyntaxError>,
) -> Result<Seq<NodeModel>, SyntaxError> {
    match r {
        Ok(v) => Ok(nodes_view(v@)),
        Err(e) => Err(e),
    }
}

/// Round-trip for integer literals: lexing a nonempty digit run whose
/// value fits the machine and parsing the resulting tokens yields exactly
/// the integer the literal spells.
pub proof fn lemma_integer_literal_round_trip(s: Seq<char>)
    requires
        s.len() > 0,
        forall|k: int| 0 <= k < s.len() ==> crate::lex::is_digit(#[trigger] s[k]),
        crate::lex::digits_value(s) <= usize::MAX,
    ensures
        crate::lex::spec_lex(s) == Ok::<Seq<TokenModel>, SyntaxError>(
            seq![TokenModel::Integer(crate::lex::digits_value(s))],
        ),
        spec_parse(seq![TokenModel::Integer(crate::lex::digits_value(s))]) == Ok::<
            Seq<NodeModel>,
            SyntaxError,
        >(seq![NodeModel::Integer(crate::lex::digits_value(s))]),
{
    crate::lex::lemma_lex_digit_run(s);
    let n = crate::lex::digits_value(s);
    let ts = seq![TokenModel::Integer(n)];
    assert(spec_parse_node(ts, 0, 0) == Ok::<(Option<NodeModel>, int), SyntaxError>((
        Some(NodeModel::Integer(n)),
        1int,
    )));
    assert(spec_parse_node(ts, 1, 0) == Ok::<(Option<NodeModel>, int), SyntaxError>((
        None::<NodeModel>,
        1int,
    )));
    assert(spec_parse_nodes(ts, 1, 0) == Ok::<(Seq<NodeModel>, int), SyntaxError>((
        Seq::<NodeModel>::empty(),
        1int,
    )));
    assert(seq![NodeModel::Integer(n)] + Seq::<NodeModel>::empty() =~= seq![
        NodeModel::Integer(n),
    ]);
}

/// The recursive-descent parser; it tracks the position of the next token
/// to be consumed.
pub struct Parser {
    pos: usize,
}

impl Parser {
    /// Turn a token sequence into the corresponding syntax forest.
    ///
    /// Fails exactly when a `)` has no `(` still open, or the input ends
    /// inside an unclosed list.
    pub fn parse(tokens: &Vec<Token>) -> (r: Result<Vec<Node>, SyntaxError>)
        ensures
            parse_result_view(r) == spec_parse(tokens.deep_view()),
    {
        let mut parser = Parser { pos: 0 };
        match parser.parse_nodes(tokens, 0) {
            Err(e) => Err(e),
            Ok(nodes) => Ok(nodes),
        }
    }

    /// Parse expressions until the enclosing list closes or, at depth zero,
    /// the input ends.
    fn parse_nodes(&mut self, tokens: &Vec<Token>, depth: usize) -> (r: Result<
        Vec<Node>,
        SyntaxError,
    >)
        requires
            old(self).pos <= tokens@.len(),
            depth <= old(self).pos,
        ensures
            old(self).pos <= final(self).pos <= tokens@.len(),
            ({
                let sr = spec_parse_nodes(tokens.deep_view(), old(self).pos as int, depth as int);
                match r {
                    Ok(nodes) => sr == Ok::<_, SyntaxError>((nodes_view(nodes@), final(self).pos as int)),
                    Err(e) => sr == Err::<(Seq<NodeModel>, int), _>(e),
                }
            }),
        decreases tokens@.len() - self.pos, 1int,
    {
        match self.parse_node(tokens, depth) {
            Err(e) => Err(e),
            Ok(None) => Ok(Vec::new()),
            Ok(Some(node)) => match self.parse_nodes(tokens, depth) {
                Err(e) => Err(e),
                Ok(mut rest) => {
                    let ghost tail = rest@;
                    let ghost nm = node@;
                    rest.insert(0, node);
                    proof {
                        assert(rest@.drop_first() =~= tail);
                        assert(nodes_view(rest@) == seq![nm] + nodes_view(tail));
                    }
                    Ok(rest)
                },
            },
        }
    }

    /// Parse one expression, or signal that the enclosing list closed or
    /// the input ended.
    fn parse_node(&mut self, tokens: &Vec<Token>, depth: usize) -> (r: Result<
        Option<Node>,
        SyntaxError,
    >)
        requires
            old(self).pos <= tokens@.len(),
            depth <= old(self).pos,
        ensures
            old(self).pos <= final(self).pos <= tokens@.len(),
            r matches Ok(Some(_)) ==> old(self).pos < final(self).pos,
            ({
                let sr = spec_parse_node(tokens.deep_view(), old(self).pos as int, depth as int);
                match r {
                    Ok(Some(node)) => sr == Ok::<_, SyntaxError>((
                        Some(node@),
                        final(self).pos as int,
                    )),
                    Ok(None) => sr == Ok::<_, SyntaxError>((
                        None::<NodeModel>,
                        final(self).pos as int,
                    )),
                    Err(e) => sr == Err::<(Option<NodeModel>, int), _>(e),
                }
            }),
        decreases tokens@.len() - self.pos, 0int,
    {
        let ghost tdv = tokens.deep_view();
        if self.pos >= tokens.len() {
            if depth == 0 {
                Ok(None)
            } else {
                Err(SyntaxError::UnterminatedList)
            }
        } else {
            assert(tdv[self.pos as int] == tokens@[self.pos as int]@);
            match &tokens[self.pos] {
                Token::Integer(n) => {
                    self.pos = self.pos + 1;
                    Ok(Some(Node::Integer(*n)))
                },
                Token::Identifier(name) => {
                    self.pos = self.pos + 1;
                    Ok(Some(Node::Identifier(name.clone())))
                },
                Token::OpenParen => {
                    self.pos = self.pos + 1;
                    match self.parse_nodes(tokens, depth + 1) {
                        Err(e) => Err(e),
                        Ok(inner) => Ok(Some(Node::List(inner))),
                    }
                },
                Token::CloseParen => {
                    if depth > 0 {
                        self.pos = self.pos + 1;
                        Ok(None)
                    } else {
                        Err(SyntaxError::UnmatchedCloseParen)
                    }
                },
            }
        }
    }
}

} // verus!
