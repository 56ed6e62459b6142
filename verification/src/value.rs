//! Runtime values: the data produced by converting syntax nodes and by
//! evaluating them.
//!
//! A procedure value is either one of the fixed native operations or a
//! closure: parameter names, body expressions, and the arena index of the
//! environment captured at its definition site.

use vstd::prelude::*;

use crate::parser::Node;
use crate::parser::NodeModel;
use crate::parser::nodes_view;

verus! {

/// The closed set of native operations, pre-bound in the root environment.
#[derive(Clone, Copy, Debug, PartialEq, Eq, Structural)]
pub enum NativeOp {
    Define,
    Lambda,
    Let,
    Add,
    Times,
}

/// A procedure: a native operation or a user-defined closure.
///
/// A closure holds its parameter names, its body expressions, and the arena
/// index of the environment it captured.
#[derive(Debug, PartialEq)]
pub enum Function {
    Native(NativeOp),
    Closure(Vec<String>, Vec<Value>, usize),
}

/// A runtime value.
#[derive(Debug, PartialEq)]
pub enum Value {
    Unit,
    Symbol(String),
    Integer(usize),
    List(Vec<Value>),
    Procedure(Function),
}

/// The mathematical image of a [`Function`].
pub enum FunctionModel {
    Native(NativeOp),
    Closure(Seq<Seq<char>>, Seq<ValueModel>, int),
}

/// The mathematical image of a [`Value`].
pub enum ValueModel {
    Unit,
    Symbol(Seq<char>),
    Integer(nat),
    List(Seq<ValueModel>),
    Procedure(FunctionModel),
}

/// The mathematical image of one runtime value.
pub open spec fn value_view(v: Value) -> ValueModel
    decreases v, 1int,
{
    match v {
        Value::Unit => ValueModel::Unit,
        Value::Symbol(s) => ValueModel::Symbol(s@),
        Value::Integer(i) => ValueModel::Integer(i as nat),
        Value::List(vs) => ValueModel::List(values_view(vs@)),
        Value::Procedure(f) => ValueModel::Procedure(function_view(f)),
    }
}

/// The mathematical image of a sequence of runtime values.
pub open spec fn values_view(s: Seq<Value>) -> Seq<ValueModel>
    decreases s, 0int,
{
    if s.len() == 0 {
        Seq::empty()
    } else {
        seq![value_view(s[0])] + values_view(s.drop_first())
    }
}

/// The mathematical image of one procedure.
pub open spec fn function_view(f: Function) -> FunctionModel
    decreases f, 0int,
{
    match f {
        Function::Native(op) => FunctionModel::Native(op),
        Function::Closure(params, body, env) => FunctionModel::Closure(
            params.deep_view(),
            values_view(body@),
            env as int,
        ),
    }
}

impl View for Value {
    type V = ValueModel;

    open spec fn view(&self) -> ValueModel {
        value_view(*self)
    }
}

impl DeepView for Value {
    type V = ValueModel;

    open spec fn deep_view(&self) -> ValueModel {
        self.view()
    }
}

impl View for Function {
    type V = FunctionModel;

    open spec fn view(&self) -> FunctionModel {
        function_view(*self)
    }
}

/// [`values_view`] is the element-wise image.
pub proof fn lemma_values_view(s: Seq<Value>)
    ensures
        values_view(s).len() == s.len(),
        forall|k: int| 0 <= k < s.len() ==> #[trigger] values_view(s)[k] == value_view(s[k]),
    decreases s.len(),
{
    if s.len() > 0 {
        lemma_values_view(s.drop_first());
        assert forall|k: int| 0 <= k < s.len() implies #[trigger] values_view(s)[k] == value_view(
            s[k],
        ) by {
            if k > 0 {
                assert(values_view(s)[k] == values_view(s.drop_first())[k - 1]);
                assert(s.drop_first()[k - 1] == s[k]);
            }
        }
    }
}

/// Every environment index named inside `v` points below `n`: the value
/// cannot reach outside an arena of `n` scopes.
pub open spec fn value_wf(v: ValueModel, n: int) -> bool
    decreases v, 1int,
{
    match v {
        ValueModel::Unit => true,
        ValueModel::Symbol(_) => true,
        ValueModel::Integer(_) => true,
        ValueModel::List(vs) => values_wf(vs, n),
        ValueModel::Procedure(FunctionModel::Native(_)) => true,
        ValueModel::Procedure(FunctionModel::Closure(_, body, env)) => 0 <= env < n && values_wf(
            body,
            n,
        ),
    }
}

/// [`value_wf`] over a sequence of values.
pub open spec fn values_wf(s: Seq<ValueModel>, n: int) -> bool
    decreases s, 0int,
{
    if s.len() == 0 {
        true
    } else {
        value_wf(s[0], n) && values_wf(s.drop_first(), n)
    }
}

/// [`values_wf`] is the element-wise conjunction.
pub proof fn lemma_values_wf(s: Seq<ValueModel>, n: int)
    ensures
        values_wf(s, n) <==> (forall|k: int| 0 <= k < s.len() ==> value_wf(#[trigger] s[k], n)),
    decreases s.len(),
{
    if s.len() > 0 {
        lemma_values_wf(s.drop_first(), n);
        assert(s[0] == s[0]);
        assert forall|k: int| 0 <= k < s.len() && values_wf(s, n) implies value_wf(
            #[trigger] s[k],
            n,
        ) by {
            if k > 0 {
                assert(s.drop_first()[k - 1] == s[k]);
            }
        }
        if forall|k: int| 0 <= k < s.len() ==> value_wf(#[trigger] s[k], n) {
            assert forall|k: int| 0 <= k < s.drop_first().len() implies value_wf(
                #[trigger] s.drop_first()[k],
                n,
            ) by {
                assert(s.drop_first()[k] == s[k + 1]);
            }
        }
    }
}

/// Growing the arena preserves well-formedness of values.
pub proof fn lemma_value_wf_mono(v: ValueModel, n: int, m: int)
    requires
        value_wf(v, n),
        n <= m,
    ensures
        value_wf(v, m),
    decreases v, 1int,
{
    match v {
        ValueModel::List(vs) => lemma_values_wf_mono(vs, n, m),
        ValueModel::Procedure(FunctionModel::Closure(_, body, _)) => lemma_values_wf_mono(
            body,
            n,
            m,
        ),
        _ => {},
    }
}

/// Growing the arena preserves well-formedness of value sequences.
pub proof fn lemma_values_wf_mono(s: Seq<ValueModel>, n: int, m: int)
    requires
        values_wf(s, n),
        n <= m,
    ensures
        values_wf(s, m),
    decreases s, 0int,
{
    if s.len() > 0 {
        lemma_value_wf_mono(s[0], n, m);
        lemma_values_wf_mono(s.drop_first(), n, m);
    }
}

/// A structural copy of a vector of names.
fn clone_strings(v: &Vec<String>) -> (r: Vec<String>)
    ensures
        r@ =~= v@,
{
    let mut r: Vec<String> = Vec::new();
    let mut i: usize = 0;
    while i < v.len()
        invariant
            i <= v@.len(),
            r@ =~= v@.subrange(0, i as int),
        decreases v@.len() - i,
    {
        r.push(v[i].clone());
        i = i + 1;
    }
    r
}

impl Clone for Value {
    /// A structural copy: the copy has the same mathematical image.
    fn clone(&self) -> (res: Value)
        ensures
            res@ == self@,
        decreases self,
    {
        match self {
            Value::Unit => Value::Unit,
            Value::Symbol(s) => Value::Symbol(s.clone()),
            Value::Integer(i) => Value::Integer(*i),
            Value::List(vs) => {
                let mut copy: Vec<Value> = Vec::new();
                let mut i: usize = 0;
                while i < vs.len()
                    invariant
                        i <= vs@.len(),
                        copy@.len() == i,
                        *self == Value::List(*vs),
                        forall|k: int| 0 <= k < i ==> #[trigger] copy@[k]@ == vs@[k]@,
                    decreases vs@.len() - i,
                {
                    proof {
                        assert(decreases_to!(*self => self->List_0));
                        assert(decreases_to!(*vs => vs@));
                        assert(decreases_to!(vs@ => vs@[i as int]));
                    }
                    copy.push(vs[i].clone());
                    i = i + 1;
                }
                let res = Value::List(copy);
                proof {
                    lemma_values_view(copy@);
                    lemma_values_view(vs@);
                    assert forall|k: int| 0 <= k < vs@.len() implies values_view(copy@)[k]
                        == values_view(vs@)[k] by {
                        assert(copy@[k]@ == vs@[k]@);
                    }
                    assert(values_view(copy@) =~= values_view(vs@));
                }
                res
            },
            Value::Procedure(f) => {
                proof {
                    assert(decreases_to!(*self => self->Procedure_0));
                }
                Value::Procedure(f.clone())
            },
        }
    }
}

impl Clone for Function {
    /// A structural copy: the copy has the same mathematical image.
    fn clone(&self) -> (res: Function)
        ensures
            res@ == self@,
        decreases self,
    {
        match self {
            Function::Native(op) => Function::Native(*op),
            Function::Closure(params, body, env) => {
                let ps = clone_strings(params);
                let mut copy: Vec<Value> = Vec::new();
                let mut i: usize = 0;
                while i < body.len()
                    invariant
                        i <= body@.len(),
                        copy@.len() == i,
                        *self == Function::Closure(*params, *body, *env),
                        forall|k: int| 0 <= k < i ==> #[trigger] copy@[k]@ == body@[k]@,
                    decreases body@.len() - i,
                {
                    proof {
                        assert(decreases_to!(*self => self->Closure_1));
                        assert(decreases_to!(*body => body@));
                        assert(decreases_to!(body@ => body@[i as int]));
                    }
                    copy.push(body[i].clone());
                    i = i + 1;
                }
                let res = Function::Closure(ps, copy, *env);
                proof {
                    lemma_values_view(copy@);
                    lemma_values_view(body@);
                    assert forall|k: int| 0 <= k < body@.len() implies values_view(copy@)[k]
                        == values_view(body@)[k] by {
                        assert(copy@[k]@ == body@[k]@);
                    }
                    assert(values_view(copy@) =~= values_view(body@));
                }
                res
            },
        }
    }
}

/// The value a syntax node converts to, 1:1 and without evaluation.
pub open spec fn node_to_value(nm: NodeModel) -> ValueModel
    decreases nm, 1int,
{
    match nm {
        NodeModel::Identifier(s) => ValueModel::Symbol(s),
        NodeModel::Integer(i) => ValueModel::Integer(i),
        NodeModel::List(ns) => ValueModel::List(nodes_to_values(ns)),
    }
}

/// The values a sequence of syntax nodes converts to.
pub open spec fn nodes_to_values(s: Seq<NodeModel>) -> Seq<ValueModel>
    decreases s, 0int,
{
    if s.len() == 0 {
        Seq::empty()
    } else {
        seq![node_to_value(s[0])] + nodes_to_values(s.drop_first())
    }
}

/// [`nodes_to_values`] is the element-wise conversion.
pub proof fn lemma_nodes_to_values(s: Seq<NodeModel>)
    ensures
        nodes_to_values(s).len() == s.len(),
        forall|k: int|
            0 <= k < s.len() ==> #[trigger] nodes_to_values(s)[k] == node_to_value(s[k]),
    decreases s.len(),
{
    if s.len() > 0 {
        lemma_nodes_to_values(s.drop_first());
        assert forall|k: int| 0 <= k < s.len() implies #[trigger] nodes_to_values(s)[k]
            == node_to_value(s[k]) by {
            if k > 0 {
                assert(nodes_to_values(s)[k] == nodes_to_values(s.drop_first())[k - 1]);
                assert(s.drop_first()[k - 1] == s[k]);
            }
        }
    }
}

/// A converted value names no environment at all, so it is well-formed in
/// any arena.
pub proof fn lemma_node_to_value_wf(nm: NodeModel, n: int)
    ensures
        value_wf(node_to_value(nm), n),
    decreases nm, 1int,
{
    match nm {
        NodeModel::List(ns) => lemma_nodes_to_values_wf(ns, n),
        _ => {},
    }
}

/// [`lemma_node_to_value_wf`] over sequences.
pub proof fn lemma_nodes_to_values_wf(s: Seq<NodeModel>, n: int)
    ensures
        values_wf(nodes_to_values(s), n),
    decreases s, 0int,
{
    if s.len() > 0 {
        lemma_node_to_value_wf(s[0], n);
        lemma_nodes_to_values_wf(s.drop_first(), n);
        assert(nodes_to_values(s).drop_first() =~= nodes_to_values(s.drop_first()));
    }
}

/// The character of one decimal digit.
pub open spec fn digit_char(d: nat) -> char {
    ((d + 48) as u8) as char
}

/// The decimal digits of `n`, most significant first.
pub open spec fn dec_digits(n: nat) -> Seq<char>
    decreases n,
{
    if n < 10 {
        seq![digit_char(n)]
    } else {
        dec_digits(n / 10).push(digit_char(n % 10))
    }
}

/// The display form of a value: `Unit` is `()`, a symbol is its name, an
/// integer its decimal digits, a list the parenthesized space-joined
/// display of its elements, and a procedure an opaque placeholder.
pub open spec fn display_of(v: ValueModel) -> Seq<char>
    decreases v, 1int,
{
    match v {
        ValueModel::Unit => "()"@,
        ValueModel::Symbol(s) => s,
        ValueModel::Integer(n) => dec_digits(n),
        ValueModel::List(vs) => seq!['('] + display_of_seq(vs) + seq![')'],
        ValueModel::Procedure(_) => "#procedure"@,
    }
}

/// The space-joined display of a sequence of values.
pub open spec fn display_of_seq(vs: Seq<ValueModel>) -> Seq<char>
    decreases vs, 0int,
{
    if vs.len() == 0 {
        Seq::empty()
    } else if vs.len() == 1 {
        display_of(vs[0])
    } else {
        display_of(vs[0]) + seq![' '] + display_of_seq(vs.drop_first())
    }
}

/// One decimal digit, as a string.
fn digit_str(d: usize) -> (r: String)
    requires
        d < 10,
    ensures
        r@ == seq![digit_char(d as nat)],
{
    let r = match d {
        0 => "0".to_owned(),
        1 => "1".to_owned(),
        2 => "2".to_owned(),
        3 => "3".to_owned(),
        4 => "4".to_owned(),
        5 => "5".to_owned(),
        6 => "6".to_owned(),
        7 => "7".to_owned(),
        8 => "8".to_owned(),
        _ => "9".to_owned(),
    };
    proof {
        reveal_strlit("0");
        reveal_strlit("1");
        reveal_strlit("2");
        reveal_strlit("3");
        reveal_strlit("4");
        reveal_strlit("5");
        reveal_strlit("6");
        reveal_strlit("7");
        reveal_strlit("8");
        reveal_strlit("9");
        assert(r@ =~= seq![digit_char(d as nat)]);
    }
    r
}

/// The decimal digits of a machine integer.
fn usize_to_string(n: usize) -> (r: String)
    ensures
        r@ == dec_digits(n as nat),
    decreases n,
{
    if n < 10 {
        digit_str(n)
    } else {
        let high = usize_to_string(n / 10);
        let low = digit_str(n % 10);
        let r = high.concat(low.as_str());
        proof {
            assert(r@ =~= dec_digits((n / 10) as nat).push(digit_char((n % 10) as nat)));
        }
        r
    }
}

/// The space-joined display of a slice of values; see [`display_of_seq`].
fn display_values(vs: &[Value]) -> (r: String)
    ensures
        r@ == display_of_seq(values_view(vs@)),
    decreases vs@, 0int,
{
    proof {
        lemma_values_view(vs@);
    }
    if vs.len() == 0 {
        let r = String::new();
        proof {
            assert(r@ =~= Seq::<char>::empty());
        }
        r
    } else {
        proof {
            assert(decreases_to!(vs@ => vs@[0]));
        }
        let head = vstd::slice::slice_index_get(vs, 0).display_string();
        if vs.len() == 1 {
            head
        } else {
            let tail = vstd::slice::slice_subrange(vs, 1, vs.len());
            proof {
                assert(tail@ =~= vs@.drop_first());
                lemma_values_view(tail@);
                assert forall|k: int| 0 <= k < values_view(tail@).len() implies values_view(
                    tail@,
                )[k] == values_view(vs@).drop_first()[k] by {
                    assert(values_view(tail@)[k] == value_view(tail@[k]));
                    assert(tail@[k] == vs@[k + 1]);
                }
                assert(values_view(tail@) =~= values_view(vs@).drop_first());
            }
            let rest = display_values(tail);
            let r = head.concat(" ").concat(rest.as_str());
            proof {
                reveal_strlit(" ");
                assert(" "@ =~= seq![' ']);
                assert(r@ =~= display_of(values_view(vs@)[0]) + seq![' '] + display_of_seq(
                    values_view(vs@).drop_first(),
                ));
            }
            r
        }
    }
}

impl Value {
    /// The display form for presenting a value back to the user; see
    /// [`display_of`].
    pub fn display_string(&self) -> (r: String)
        ensures
            r@ == display_of(self@),
        decreases self, 1int,
    {
        match self {
            Value::Unit => {
                let r = "()".to_owned();
                proof {
                    reveal_strlit("()");
                }
                r
            },
            Value::Symbol(s) => s.clone(),
            Value::Integer(i) => usize_to_string(*i),
            Value::List(vs) => {
                proof {
                    assert(decreases_to!(*self => self->List_0));
                    assert(decreases_to!(*vs => vs@));
                }
                let inner = display_values(vs.as_slice());
                let r = "(".to_owned().concat(inner.as_str()).concat(")");
                proof {
                    reveal_strlit("(");
                    reveal_strlit(")");
                    assert("("@ =~= seq!['(']);
                    assert(")"@ =~= seq![')']);
                    assert(r@ =~= seq!['('] + display_of_seq(values_view(vs@)) + seq![')']);
                }
                r
            },
            Value::Procedure(_) => {
                let r = "#procedure".to_owned();
                proof {
                    reveal_strlit("#procedure");
                }
                r
            },
        }
    }

    /// Convert one syntax node into a runtime value: identifiers become
    /// symbols, integers and lists convert structurally.
    pub fn from_node(node: &Node) -> (r: Value)
        ensures
            r@ == node_to_value(node@),
        decreases node,
    {
        match node {
            Node::Identifier(s) => Value::Symbol(s.clone()),
            Node::Integer(i) => Value::Integer(*i),
            Node::List(ns) => {
                let mut vals: Vec<Value> = Vec::new();
                let mut i: usize = 0;
                while i < ns.len()
                    invariant
                        i <= ns@.len(),
                        vals@.len() == i,
                        *node == Node::List(*ns),
                        forall|k: int|
                            0 <= k < i ==> #[trigger] vals@[k]@ == node_to_value(ns@[k]@),
                    decreases ns@.len() - i,
                {
                    proof {
                        assert(decreases_to!(*node => node->List_0));
                        assert(decreases_to!(*ns => ns@));
                        assert(decreases_to!(ns@ => ns@[i as int]));
                    }
                    vals.push(Value::from_node(&ns[i]));
                    i = i + 1;
                }
                let res = Value::List(vals);
                proof {
                    crate::parser::lemma_nodes_view(ns@);
                    lemma_values_view(vals@);
                    lemma_nodes_to_values(nodes_view(ns@));
                    assert forall|k: int| 0 <= k < ns@.len() implies values_view(vals@)[k]
                        == nodes_to_values(nodes_view(ns@))[k] by {
                        assert(vals@[k]@ == node_to_value(ns@[k]@));
                        assert(nodes_view(ns@)[k] == ns@[k]@);
                    }
                    assert(values_view(vals@) =~= nodes_to_values(nodes_view(ns@)));
                }
                res
            },
        }
    }

    /// Convert a sequence of syntax nodes into runtime values.
    pub fn from_nodes(nodes: &Vec<Node>) -> (r: Vec<Value>)
        ensures
            values_view(r@) == nodes_to_values(nodes_view(nodes@)),
    {
        let mut vals: Vec<Value> = Vec::new();
        let mut i: usize = 0;
        while i < nodes.len()
            invariant
                i <= nodes@.len(),
                vals@.len() == i,
                forall|k: int| 0 <= k < i ==> #[trigger] vals@[k]@ == node_to_value(nodes@[k]@),
            decreases nodes@.len() - i,
        {
            vals.push(Value::from_node(&nodes[i]));
            i = i + 1;
        }
        proof {
            crate::parser::lemma_nodes_view(nodes@);
            lemma_values_view(vals@);
            lemma_nodes_to_values(nodes_view(nodes@));
            assert forall|k: int| 0 <= k < nodes@.len() implies values_view(vals@)[k]
                == nodes_to_values(nodes_view(nodes@))[k] by {
                assert(vals@[k]@ == node_to_value(nodes@[k]@));
                assert(nodes_view(nodes@)[k] == nodes@[k]@);
            }
            assert(values_view(vals@) =~= nodes_to_values(nodes_view(nodes@)));
        }
        vals
    }
}

} // verus!
