//! The evaluator: walks values, resolves symbols through the environment
//! chain, and applies native or user-defined procedures.
//!
//! The meaning of every step is given by the `spec_…` functions below: a
//! big-step interpreter over the mathematical models, indexed by a fuel
//! that bounds the recursion depth.  Each executable function returns
//! exactly what its spec counterpart computes on the same fuel; the public
//! entry points run with [`DEFAULT_FUEL`] and report `OutOfFuel` on
//! programs that recurse past it.
//!
//! Natives decide their own evaluation policy: `define`, `lambda` and `let`
//! treat some argument positions as binding syntax, while `+` and `*`
//! evaluate all of their arguments.

use vstd::prelude::*;
use vstd::slice::slice_subrange;
use vstd::slice::slice_index_get;

use crate::env::Env;
use crate::env::ScopeModel;
use crate::env::env_wf;
use crate::env::spec_env_define;
use crate::env::spec_env_get;
use crate::errors::RuntimeError;
use crate::parser::Node;
use crate::parser::NodeModel;
use crate::parser::nodes_view;
use crate::value::Function;
use crate::value::FunctionModel;
use crate::value::NativeOp;
use crate::value::Value;
use crate::value::ValueModel;
use crate::value::lemma_nodes_to_values_wf;
use crate::value::lemma_values_view;
use crate::value::lemma_values_wf;
use crate::value::lemma_values_wf_mono;
use crate::value::nodes_to_values;
use crate::value::value_view;
use crate::value::value_wf;
use crate::value::values_view;
use crate::value::values_wf;

verus! {

/// The recursion budget of the public entry points.
pub const DEFAULT_FUEL: u64 = 1000000;

/// What one evaluation step yields: the environment arena afterwards, and
/// a value or exactly one error.
pub type EvalStep = (Seq<ScopeModel>, Result<ValueModel, RuntimeError>);

/// Evaluate one value.  Unit, integers and procedures are self-evaluating;
/// a symbol resolves through the environment chain; a list is an
/// application form.
pub open spec fn spec_eval_value(
    em: Seq<ScopeModel>,
    scope: int,
    v: ValueModel,
    fuel: nat,
) -> EvalStep
    decreases fuel,
{
    if fuel == 0 {
        (em, Err(RuntimeError::OutOfFuel))
    } else {
        match v {
            ValueModel::Unit => (em, Ok(v)),
            ValueModel::Integer(_) => (em, Ok(v)),
            ValueModel::Procedure(_) => (em, Ok(v)),
            ValueModel::Symbol(name) => (em, spec_env_get(em, scope, name)),
            ValueModel::List(items) => spec_eval_expression(em, scope, items, (fuel - 1) as nat),
        }
    }
}

/// Evaluate an application form: the head must evaluate to a procedure,
/// which is then applied to the raw argument expressions.
pub open spec fn spec_eval_expression(
    em: Seq<ScopeModel>,
    scope: int,
    items: Seq<ValueModel>,
    fuel: nat,
) -> EvalStep
    decreases fuel,
{
    if fuel == 0 {
        (em, Err(RuntimeError::OutOfFuel))
    } else if items.len() == 0 {
        (em, Err(RuntimeError::ApplicationError))
    } else {
        let (em1, hr) = spec_eval_value(em, scope, items[0], (fuel - 1) as nat);
        match hr {
            Err(e) => (em1, Err(e)),
            Ok(ValueModel::Procedure(f)) => spec_apply(
                em1,
                scope,
                f,
                items.drop_first(),
                (fuel - 1) as nat,
            ),
            Ok(_) => (em1, Err(RuntimeError::ApplicationError)),
        }
    }
}

/// Apply a procedure.  A native receives the raw argument expressions; a
/// closure checks arity, evaluates the arguments in the caller's scope,
/// binds them in a fresh child of its captured scope, and evaluates its
/// body there.
pub open spec fn spec_apply(
    em: Seq<ScopeModel>,
    scope: int,
    f: FunctionModel,
    args: Seq<ValueModel>,
    fuel: nat,
) -> EvalStep
    decreases fuel,
{
    if fuel == 0 {
        (em, Err(RuntimeError::OutOfFuel))
    } else {
        match f {
            FunctionModel::Native(op) => spec_native(em, scope, op, args, (fuel - 1) as nat),
            FunctionModel::Closure(params, body, cenv) => {
                if params.len() != args.len() {
                    (em, Err(RuntimeError::ArityMismatch))
                } else {
                    let (em1, ar) = spec_eval_args(em, scope, args, (fuel - 1) as nat);
                    match ar {
                        Err(e) => (em1, Err(e)),
                        Ok(vals) => {
                            let inner = em1.len() as int;
                            let em2 = em1.push(
                                ScopeModel { parent: Some(cenv), bindings: Seq::empty() },
                            );
                            let (em3, br) = spec_bind_args(em2, inner, params, vals);
                            match br {
                                Err(e) => (em3, Err(e)),
                                Ok(_) => spec_eval_values(em3, inner, body, (fuel - 1) as nat),
                            }
                        },
                    }
                }
            },
        }
    }
}

/// Evaluate argument expressions left to right in the caller's scope.
pub open spec fn spec_eval_args(
    em: Seq<ScopeModel>,
    scope: int,
    args: Seq<ValueModel>,
    fuel: nat,
) -> (Seq<ScopeModel>, Result<Seq<ValueModel>, RuntimeError>)
    decreases fuel,
{
    if fuel == 0 {
        (em, Err(RuntimeError::OutOfFuel))
    } else if args.len() == 0 {
        (em, Ok(Seq::empty()))
    } else {
        let (em1, r0) = spec_eval_value(em, scope, args[0], (fuel - 1) as nat);
        match r0 {
            Err(e) => (em1, Err(e)),
            Ok(v) => {
                let (em2, rr) = spec_eval_args(em1, scope, args.drop_first(), (fuel - 1) as nat);
                match rr {
                    Err(e) => (em2, Err(e)),
                    Ok(rest) => (em2, Ok(seq![v] + rest)),
                }
            },
        }
    }
}

/// Bind evaluated arguments positionally into the scope `inner`, one
/// `define` per parameter; a repeated parameter name is a
/// `DuplicateBinding`.
pub open spec fn spec_bind_args(
    em: Seq<ScopeModel>,
    inner: int,
    params: Seq<Seq<char>>,
    vals: Seq<ValueModel>,
) -> (Seq<ScopeModel>, Result<(), RuntimeError>)
    decreases params.len(),
{
    if params.len() == 0 {
        (em, Ok(()))
    } else {
        match spec_env_define(em, inner, params[0], vals[0]) {
            Err(e) => (em, Err(e)),
            Ok(em1) => spec_bind_args(em1, inner, params.drop_first(), vals.drop_first()),
        }
    }
}

/// Evaluate a sequence of expressions and keep the value of the last one;
/// an empty sequence evaluates to `Unit`.
pub open spec fn spec_eval_values(
    em: Seq<ScopeModel>,
    scope: int,
    vs: Seq<ValueModel>,
    fuel: nat,
) -> EvalStep
    decreases fuel,
{
    if fuel == 0 {
        (em, Err(RuntimeError::OutOfFuel))
    } else if vs.len() == 0 {
        (em, Ok(ValueModel::Unit))
    } else {
        let (em1, r0) = spec_eval_value(em, scope, vs[0], (fuel - 1) as nat);
        match r0 {
            Err(e) => (em1, Err(e)),
            Ok(v) => if vs.len() == 1 {
                (em1, Ok(v))
            } else {
                spec_eval_values(em1, scope, vs.drop_first(), (fuel - 1) as nat)
            },
        }
    }
}

/// Dispatch a native operation on the raw argument expressions.
pub open spec fn spec_native(
    em: Seq<ScopeModel>,
    scope: int,
    op: NativeOp,
    args: Seq<ValueModel>,
    fuel: nat,
) -> EvalStep
    decreases fuel,
{
    if fuel == 0 {
        (em, Err(RuntimeError::OutOfFuel))
    } else {
        match op {
            NativeOp::Define => spec_native_define(em, scope, args, (fuel - 1) as nat),
            NativeOp::Lambda => spec_native_lambda(em, scope, args),
            NativeOp::Let => spec_native_let(em, scope, args, (fuel - 1) as nat),
            NativeOp::Add => spec_native_arith(em, scope, NativeOp::Add, args, (fuel - 1) as nat),
            NativeOp::Times => spec_native_arith(
                em,
                scope,
                NativeOp::Times,
                args,
                (fuel - 1) as nat,
            ),
        }
    }
}

/// Every element must be a symbol; their names, in order.
pub open spec fn spec_symbol_names(vs: Seq<ValueModel>) -> Result<Seq<Seq<char>>, RuntimeError>
    decreases vs.len(),
{
    if vs.len() == 0 {
        Ok(Seq::empty())
    } else {
        match vs[0] {
            ValueModel::Symbol(s) => match spec_symbol_names(vs.drop_first()) {
                Ok(rest) => Ok(seq![s] + rest),
                Err(e) => Err(e),
            },
            _ => Err(RuntimeError::MalformedForm),
        }
    }
}

/// `(lambda (params…) body…)`: evaluate nothing; capture a fresh child of
/// the defining scope and return the closure.
pub open spec fn spec_native_lambda(
    em: Seq<ScopeModel>,
    scope: int,
    args: Seq<ValueModel>,
) -> EvalStep {
    if args.len() == 0 {
        (em, Err(RuntimeError::MalformedForm))
    } else {
        match args[0] {
            ValueModel::List(ns) => match spec_symbol_names(ns) {
                Err(e) => (em, Err(e)),
                Ok(params) => {
                    let cap = em.len() as int;
                    let em1 = em.push(ScopeModel { parent: Some(scope), bindings: Seq::empty() });
                    (
                        em1,
                        Ok(
                            ValueModel::Procedure(
                                FunctionModel::Closure(params, args.drop_first(), cap),
                            ),
                        ),
                    )
                },
            },
            _ => (em, Err(RuntimeError::MalformedForm)),
        }
    }
}

/// `(define name expr)` evaluates `expr` and binds the result;
/// `(define (name params…) body…)` binds `name` to a closure capturing the
/// current scope.  Returns the bound value.
pub open spec fn spec_native_define(
    em: Seq<ScopeModel>,
    scope: int,
    args: Seq<ValueModel>,
    fuel: nat,
) -> EvalStep
    decreases fuel,
{
    if fuel == 0 {
        (em, Err(RuntimeError::OutOfFuel))
    } else if args.len() < 2 {
        (em, Err(RuntimeError::MalformedForm))
    } else {
        match args[0] {
            ValueModel::Symbol(n) => if args.len() != 2 {
                (em, Err(RuntimeError::MalformedForm))
            } else {
                let (em1, vr) = spec_eval_value(em, scope, args[1], (fuel - 1) as nat);
                match vr {
                    Err(e) => (em1, Err(e)),
                    Ok(val) => match spec_env_define(em1, scope, n, val) {
                        Ok(em2) => (em2, Ok(val)),
                        Err(e) => (em1, Err(e)),
                    },
                }
            },
            ValueModel::List(list) => if list.len() < 2 {
                (em, Err(RuntimeError::MalformedForm))
            } else {
                match list[0] {
                    ValueModel::Symbol(n) => match spec_symbol_names(list.drop_first()) {
                        Err(e) => (em, Err(e)),
                        Ok(params) => {
                            let val = ValueModel::Procedure(
                                FunctionModel::Closure(params, args.drop_first(), scope),
                            );
                            match spec_env_define(em, scope, n, val) {
                                Ok(em2) => (em2, Ok(val)),
                                Err(e) => (em, Err(e)),
                            }
                        },
                    },
                    _ => (em, Err(RuntimeError::MalformedForm)),
                }
            },
            _ => (em, Err(RuntimeError::MalformedForm)),
        }
    }
}

/// Bind the `(name expr)` pairs of a `let` form one after the other:
/// each `expr` evaluates in the outer scope, each `name` is defined in the
/// fresh inner scope.
pub open spec fn spec_let_bind(
    em: Seq<ScopeModel>,
    outer: int,
    inner: int,
    assigns: Seq<ValueModel>,
    fuel: nat,
) -> (Seq<ScopeModel>, Result<(), RuntimeError>)
    decreases fuel,
{
    if fuel == 0 {
        (em, Err(RuntimeError::OutOfFuel))
    } else if assigns.len() == 0 {
        (em, Ok(()))
    } else {
        match assigns[0] {
            ValueModel::List(pair) => if pair.len() != 2 {
                (em, Err(RuntimeError::MalformedForm))
            } else {
                match pair[0] {
                    ValueModel::Symbol(s) => {
                        let (em1, vr) = spec_eval_value(em, outer, pair[1], (fuel - 1) as nat);
                        match vr {
                            Err(e) => (em1, Err(e)),
                            Ok(v) => match spec_env_define(em1, inner, s, v) {
                                Err(e) => (em1, Err(e)),
                                Ok(em2) => spec_let_bind(
                                    em2,
                                    outer,
                                    inner,
                                    assigns.drop_first(),
                                    (fuel - 1) as nat,
                                ),
                            },
                        }
                    },
                    _ => (em, Err(RuntimeError::MalformedForm)),
                }
            },
            _ => (em, Err(RuntimeError::MalformedForm)),
        }
    }
}

/// `(let ((name expr)…) body)`: one child scope, the bindings, then the
/// body in the child scope.
pub open spec fn spec_native_let(
    em: Seq<ScopeModel>,
    scope: int,
    args: Seq<ValueModel>,
    fuel: nat,
) -> EvalStep
    decreases fuel,
{
    if fuel == 0 {
        (em, Err(RuntimeError::OutOfFuel))
    } else if args.len() < 2 {
        (em, Err(RuntimeError::MalformedForm))
    } else {
        match args[0] {
            ValueModel::List(assigns) => {
                let inner = em.len() as int;
                let em1 = em.push(ScopeModel { parent: Some(scope), bindings: Seq::empty() });
                let (em2, br) = spec_let_bind(em1, scope, inner, assigns, (fuel - 1) as nat);
                match br {
                    Err(e) => (em2, Err(e)),
                    Ok(_) => spec_eval_value(em2, inner, args[1], (fuel - 1) as nat),
                }
            },
            _ => (em, Err(RuntimeError::MalformedForm)),
        }
    }
}

/// Evaluate arithmetic operands left to right; every operand must come out
/// an integer.
pub open spec fn spec_eval_int_args(
    em: Seq<ScopeModel>,
    scope: int,
    args: Seq<ValueModel>,
    fuel: nat,
) -> (Seq<ScopeModel>, Result<Seq<nat>, RuntimeError>)
    decreases fuel,
{
    if fuel == 0 {
        (em, Err(RuntimeError::OutOfFuel))
    } else if args.len() == 0 {
        (em, Ok(Seq::empty()))
    } else {
        let (em1, r0) = spec_eval_value(em, scope, args[0], (fuel - 1) as nat);
        match r0 {
            Err(e) => (em1, Err(e)),
            Ok(ValueModel::Integer(n)) => {
                let (em2, rr) = spec_eval_int_args(em1, scope, args.drop_first(), (fuel - 1) as nat);
                match rr {
                    Err(e) => (em2, Err(e)),
                    Ok(rest) => (em2, Ok(seq![n] + rest)),
                }
            },
            Ok(_) => (em1, Err(RuntimeError::TypeError)),
        }
    }
}

/// Fold integers left to right under `+` or `*`; `None` as soon as an
/// intermediate result exceeds the machine integer range.
pub open spec fn spec_checked_fold(op: NativeOp, acc: nat, rest: Seq<nat>) -> Option<nat>
    decreases rest.len(),
{
    if rest.len() == 0 {
        Some(acc)
    } else {
        let next = if op == NativeOp::Add {
            acc + rest[0]
        } else {
            acc * rest[0]
        };
        if next > usize::MAX {
            None
        } else {
            spec_checked_fold(op, next, rest.drop_first())
        }
    }
}

/// The sum of a sequence of naturals.
pub open spec fn sum_of(s: Seq<nat>) -> nat
    decreases s.len(),
{
    if s.len() == 0 {
        0
    } else {
        s[0] + sum_of(s.drop_first())
    }
}

/// Folding under `+` yields exactly the sum of all operands when that sum
/// fits the machine integer range, and overflows exactly when it does not.
pub proof fn lemma_add_fold_is_sum(acc: nat, rest: Seq<nat>)
    requires
        acc <= usize::MAX,
    ensures
        acc + sum_of(rest) <= usize::MAX ==> spec_checked_fold(NativeOp::Add, acc, rest) == Some(
            (acc + sum_of(rest)) as nat,
        ),
        acc + sum_of(rest) > usize::MAX ==> spec_checked_fold(NativeOp::Add, acc, rest) is None,
    decreases rest.len(),
{
    if rest.len() > 0 {
        if acc + rest[0] <= usize::MAX {
            lemma_add_fold_is_sum(acc + rest[0], rest.drop_first());
        }
    }
}

/// `(+ expr…)` and `(* expr…)`: at least one operand, all integers, folded
/// left to right.
pub open spec fn spec_native_arith(
    em: Seq<ScopeModel>,
    scope: int,
    op: NativeOp,
    args: Seq<ValueModel>,
    fuel: nat,
) -> EvalStep
    decreases fuel,
{
    if fuel == 0 {
        (em, Err(RuntimeError::OutOfFuel))
    } else if args.len() == 0 {
        (em, Err(RuntimeError::MalformedForm))
    } else {
        let (em1, ir) = spec_eval_int_args(em, scope, args, (fuel - 1) as nat);
        match ir {
            Err(e) => (em1, Err(e)),
            Ok(ints) => match spec_checked_fold(op, ints[0], ints.drop_first()) {
                Some(r) => (em1, Ok(ValueModel::Integer(r))),
                None => (em1, Err(RuntimeError::Overflow)),
            },
        }
    }
}

/// Evaluate a whole program: convert the syntax nodes to values and
/// evaluate them as a sequence in the root scope.
pub open spec fn spec_eval_program(
    em: Seq<ScopeModel>,
    nodes: Seq<NodeModel>,
    fuel: nat,
) -> EvalStep {
    spec_eval_values(em, 0, nodes_to_values(nodes), fuel)
}

/// The exec result `r` and final arena `emf` are exactly what the spec
/// step `sr` computes, and an `Ok` value stays inside the arena.
pub open spec fn step_matches(
    sr: EvalStep,
    emf: Seq<ScopeModel>,
    r: Result<Value, RuntimeError>,
) -> bool {
    &&& emf == sr.0
    &&& match r {
        Ok(v) => sr.1 == Ok::<ValueModel, RuntimeError>(v@) && value_wf(v@, emf.len() as int),
        Err(e) => sr.1 == Err::<ValueModel, RuntimeError>(e),
    }
}

/// Taking the view of a sequence of values commutes with dropping the
/// head.
proof fn lemma_values_view_drop_first(s: Seq<Value>)
    requires
        s.len() > 0,
    ensures
        values_view(s.drop_first()) == values_view(s).drop_first(),
{
    lemma_values_view(s);
    lemma_values_view(s.drop_first());
    assert forall|k: int| 0 <= k < s.len() - 1 implies values_view(s.drop_first())[k]
        == values_view(s).drop_first()[k] by {
        assert(values_view(s.drop_first())[k] == value_view(s.drop_first()[k]));
        assert(s.drop_first()[k] == s[k + 1]);
        assert(values_view(s).drop_first()[k] == values_view(s)[k + 1]);
    }
    assert(values_view(s.drop_first()) =~= values_view(s).drop_first());
}

/// Evaluate one value; see [`spec_eval_value`].
pub fn eval_value(env: &mut Env, scope: usize, v: &Value, fuel: u64) -> (r: Result<
    Value,
    RuntimeError,
>)
    requires
        env_wf(old(env)@),
        scope < old(env)@.len(),
        value_wf(v@, old(env)@.len() as int),
    ensures
        env_wf(final(env)@),
        old(env)@.len() <= final(env)@.len(),
        step_matches(spec_eval_value(old(env)@, scope as int, v@, fuel as nat), final(env)@, r),
    decreases fuel, 2int,
{
    if fuel == 0 {
        return Err(RuntimeError::OutOfFuel);
    }
    match v {
        Value::Unit => Ok(Value::Unit),
        Value::Integer(i) => Ok(Value::Integer(*i)),
        Value::Procedure(_) => Ok(v.clone()),
        Value::Symbol(s) => env.get(scope, s),
        Value::List(items) => {
            proof {
                assert(decreases_to!(*v => v->List_0));
            }
            eval_expression(env, scope, items, fuel - 1)
        },
    }
}

/// Evaluate an application form; see [`spec_eval_expression`].
fn eval_expression(env: &mut Env, scope: usize, items: &Vec<Value>, fuel: u64) -> (r: Result<
    Value,
    RuntimeError,
>)
    requires
        env_wf(old(env)@),
        scope < old(env)@.len(),
        values_wf(values_view(items@), old(env)@.len() as int),
    ensures
        env_wf(final(env)@),
        old(env)@.len() <= final(env)@.len(),
        step_matches(
            spec_eval_expression(old(env)@, scope as int, values_view(items@), fuel as nat),
            final(env)@,
            r,
        ),
    decreases fuel, 1int,
{
    if fuel == 0 {
        return Err(RuntimeError::OutOfFuel);
    }
    if items.len() == 0 {
        return Err(RuntimeError::ApplicationError);
    }
    proof {
        lemma_values_view(items@);
        lemma_values_wf(values_view(items@), old(env)@.len() as int);
    }
    let hr = eval_value(env, scope, &items[0], fuel - 1);
    match hr {
        Err(e) => Err(e),
        Ok(head) => {
            match head {
                Value::Procedure(f) => {
                    let args = slice_subrange(items.as_slice(), 1, items.len());
                    proof {
                        assert(args@ =~= items@.drop_first());
                        lemma_values_view_drop_first(items@);
                        let n0 = old(env)@.len() as int;
                        let n1 = env@.len() as int;
                        lemma_values_wf(values_view(items@), n0);
                        lemma_values_view(args@);
                        assert forall|k: int| 0 <= k < values_view(args@).len() implies value_wf(
                            #[trigger] values_view(args@)[k],
                            n1,
                        ) by {
                            assert(values_view(args@)[k] == values_view(items@)[k + 1]);
                            lemma_values_wf_mono(values_view(items@), n0, n1);
                            lemma_values_wf(values_view(items@), n1);
                        }
                        lemma_values_wf(values_view(args@), n1);
                    }
                    native_apply(env, scope, f, args, fuel - 1)
                },
                _ => Err(RuntimeError::ApplicationError),
            }
        },
    }
}

/// Apply a procedure to raw argument expressions; see [`spec_apply`].
fn native_apply(env: &mut Env, scope: usize, func: Function, args: &[Value], fuel: u64) -> (r:
    Result<Value, RuntimeError>)
    requires
        env_wf(old(env)@),
        scope < old(env)@.len(),
        value_wf(ValueModel::Procedure(func@), old(env)@.len() as int),
        values_wf(values_view(args@), old(env)@.len() as int),
    ensures
        env_wf(final(env)@),
        old(env)@.len() <= final(env)@.len(),
        step_matches(
            spec_apply(old(env)@, scope as int, func@, values_view(args@), fuel as nat),
            final(env)@,
            r,
        ),
    decreases fuel, 0int,
{
    if fuel == 0 {
        return Err(RuntimeError::OutOfFuel);
    }
    match func {
        Function::Native(op) => native(env, scope, op, args, fuel - 1),
        Function::Closure(params, body, cenv) => {
            if params.len() != args.len() {
                proof {
                    assert(params.deep_view().len() == params@.len());
                    lemma_values_view(args@);
                }
                return Err(RuntimeError::ArityMismatch);
            }
            proof {
                assert(params.deep_view().len() == params@.len());
                lemma_values_view(args@);
            }
            let vals = match eval_args(env, scope, args, fuel - 1) {
                Err(e) => {
                    return Err(e);
                },
                Ok(vals) => vals,
            };
            let inner = env.new_child(cenv);
            proof {
                let n2 = env@.len() as int;
                lemma_values_wf(values_view(vals@), n2 - 1);
                lemma_values_wf_mono(values_view(vals@), n2 - 1, n2);
                assert forall|ii: int| 0 <= ii < env@.len() implies crate::env::scope_wf(
                    #[trigger] env@[ii],
                    ii,
                    n2,
                ) by {
                    if ii < n2 - 1 {
                        assert(crate::env::scope_wf(env@[ii], ii, n2 - 1));
                        lemma_scope_wf_mono(env@[ii], ii, n2 - 1, n2);
                    }
                }
            }
            match bind_args(env, inner, params.as_slice(), vals.as_slice()) {
                Err(e) => {
                    return Err(e);
                },
                Ok(_) => {},
            }
            proof {
                lemma_values_wf(values_view(body@), old(env)@.len() as int);
                lemma_values_wf_mono(
                    values_view(body@),
                    old(env)@.len() as int,
                    env@.len() as int,
                );
            }
            eval_values(env, inner, body.as_slice(), fuel - 1)
        },
    }
}

/// Growing the arena preserves well-formedness of a scope.
proof fn lemma_scope_wf_mono(s: ScopeModel, i: int, n: int, m: int)
    requires
        crate::env::scope_wf(s, i, n),
        n <= m,
    ensures
        crate::env::scope_wf(s, i, m),
{
    assert forall|j: int| 0 <= j < s.bindings.len() implies value_wf(
        (#[trigger] s.bindings[j]).1,
        m,
    ) by {
        crate::value::lemma_value_wf_mono(s.bindings[j].1, n, m);
    }
}

/// Evaluate argument expressions left to right; see [`spec_eval_args`].
fn eval_args(env: &mut Env, scope: usize, args: &[Value], fuel: u64) -> (r: Result<
    Vec<Value>,
    RuntimeError,
>)
    requires
        env_wf(old(env)@),
        scope < old(env)@.len(),
        values_wf(values_view(args@), old(env)@.len() as int),
    ensures
        env_wf(final(env)@),
        old(env)@.len() <= final(env)@.len(),
        ({
            let (em2, rr) = spec_eval_args(old(env)@, scope as int, values_view(args@), fuel as nat);
            final(env)@ == em2 && match r {
                Ok(vals) => rr == Ok::<Seq<ValueModel>, RuntimeError>(values_view(vals@))
                    && values_wf(values_view(vals@), final(env)@.len() as int) && vals@.len()
                    == args@.len(),
                Err(e) => rr == Err::<Seq<ValueModel>, RuntimeError>(e),
            }
        }),
    decreases fuel,
{
    if fuel == 0 {
        return Err(RuntimeError::OutOfFuel);
    }
    if args.len() == 0 {
        let empty: Vec<Value> = Vec::new();
        proof {
            lemma_values_view(args@);
            assert(values_view(empty@) =~= Seq::<ValueModel>::empty());
        }
        return Ok(empty);
    }
    proof {
        lemma_values_view(args@);
        lemma_values_wf(values_view(args@), old(env)@.len() as int);
    }
    let first = match eval_value(env, scope, slice_index_get(args, 0), fuel - 1) {
        Err(e) => {
            return Err(e);
        },
        Ok(v) => v,
    };
    let tail = slice_subrange(args, 1, args.len());
    proof {
        assert(tail@ =~= args@.drop_first());
        lemma_values_view_drop_first(args@);
        let n1 = env@.len() as int;
        lemma_values_view(tail@);
        assert forall|k: int| 0 <= k < values_view(tail@).len() implies value_wf(
            #[trigger] values_view(tail@)[k],
            n1,
        ) by {
            assert(values_view(tail@)[k] == values_view(args@)[k + 1]);
            lemma_values_wf_mono(values_view(args@), old(env)@.len() as int, n1);
            lemma_values_wf(values_view(args@), n1);
        }
        lemma_values_wf(values_view(tail@), n1);
    }
    let ghost mid_len = env@.len() as int;
    match eval_args(env, scope, tail, fuel - 1) {
        Err(e) => Err(e),
        Ok(mut rest) => {
            let ghost old_rest = rest@;
            rest.insert(0, first);
            proof {
                assert(rest@[0] == first);
                assert(rest@.drop_first() =~= old_rest);
                assert(values_view(rest@) == seq![first@] + values_view(old_rest));
                lemma_values_wf(values_view(old_rest), env@.len() as int);
                crate::value::lemma_value_wf_mono(first@, mid_len, env@.len() as int);
                lemma_values_wf(values_view(rest@), env@.len() as int);
                lemma_values_view(rest@);
            }
            Ok(rest)
        },
    }
}

/// Bind evaluated arguments into the scope `inner`; see
/// [`spec_bind_args`].
fn bind_args(env: &mut Env, inner: usize, params: &[String], vals: &[Value]) -> (r: Result<
    (),
    RuntimeError,
>)
    requires
        env_wf(old(env)@),
        inner < old(env)@.len(),
        params@.len() == vals@.len(),
        values_wf(values_view(vals@), old(env)@.len() as int),
    ensures
        env_wf(final(env)@),
        final(env)@.len() == old(env)@.len(),
        ({
            let (em2, rr) = spec_bind_args(
                old(env)@,
                inner as int,
                params.deep_view(),
                values_view(vals@),
            );
            final(env)@ == em2 && match r {
                Ok(_) => rr == Ok::<(), RuntimeError>(()),
                Err(e) => rr == Err::<(), RuntimeError>(e),
            }
        }),
    decreases params@.len(),
{
    if params.len() == 0 {
        return Ok(());
    }
    proof {
        lemma_values_view(vals@);
        lemma_values_wf(values_view(vals@), old(env)@.len() as int);
        assert(params.deep_view()[0] == params@[0]@);
    }
    match env.define(inner, slice_index_get(params, 0).as_str(), slice_index_get(vals, 0)) {
        Err(e) => Err(e),
        Ok(_) => {
            let ptail = slice_subrange(params, 1, params.len());
            let vtail = slice_subrange(vals, 1, vals.len());
            proof {
                assert(ptail@ =~= params@.drop_first());
                assert(vtail@ =~= vals@.drop_first());
                assert(ptail.deep_view() =~= params.deep_view().drop_first());
                lemma_values_view_drop_first(vals@);
                lemma_values_view(vtail@);
                lemma_values_wf(values_view(vtail@), env@.len() as int);
                assert forall|k: int| 0 <= k < values_view(vtail@).len() implies value_wf(
                    #[trigger] values_view(vtail@)[k],
                    env@.len() as int,
                ) by {
                    assert(values_view(vtail@)[k] == values_view(vals@)[k + 1]);
                    lemma_values_wf(values_view(vals@), env@.len() as int);
                }
            }
            bind_args(env, inner, ptail, vtail)
        },
    }
}

/// Evaluate a sequence and keep the last value; see [`spec_eval_values`].
fn eval_values(env: &mut Env, scope: usize, vs: &[Value], fuel: u64) -> (r: Result<
    Value,
    RuntimeError,
>)
    requires
        env_wf(old(env)@),
        scope < old(env)@.len(),
        values_wf(values_view(vs@), old(env)@.len() as int),
    ensures
        env_wf(final(env)@),
        old(env)@.len() <= final(env)@.len(),
        step_matches(
            spec_eval_values(old(env)@, scope as int, values_view(vs@), fuel as nat),
            final(env)@,
            r,
        ),
    decreases fuel,
{
    if fuel == 0 {
        return Err(RuntimeError::OutOfFuel);
    }
    if vs.len() == 0 {
        proof {
            lemma_values_view(vs@);
        }
        return Ok(Value::Unit);
    }
    proof {
        lemma_values_view(vs@);
        lemma_values_wf(values_view(vs@), old(env)@.len() as int);
    }
    let r0 = eval_value(env, scope, slice_index_get(vs, 0), fuel - 1);
    match r0 {
        Err(e) => Err(e),
        Ok(v) => {
            if vs.len() == 1 {
                Ok(v)
            } else {
                let tail = slice_subrange(vs, 1, vs.len());
                proof {
                    assert(tail@ =~= vs@.drop_first());
                    lemma_values_view_drop_first(vs@);
                    let n1 = env@.len() as int;
                    lemma_values_view(tail@);
                    assert forall|k: int| 0 <= k < values_view(tail@).len() implies value_wf(
                        #[trigger] values_view(tail@)[k],
                        n1,
                    ) by {
                        assert(values_view(tail@)[k] == values_view(vs@)[k + 1]);
                        lemma_values_wf_mono(values_view(vs@), old(env)@.len() as int, n1);
                        lemma_values_wf(values_view(vs@), n1);
                    }
                    lemma_values_wf(values_view(tail@), n1);
                }
                eval_values(env, scope, tail, fuel - 1)
            }
        },
    }
}

/// Dispatch a native operation; see [`spec_native`].
fn native(env: &mut Env, scope: usize, op: NativeOp, args: &[Value], fuel: u64) -> (r: Result<
    Value,
    RuntimeError,
>)
    requires
        env_wf(old(env)@),
        scope < old(env)@.len(),
        values_wf(values_view(args@), old(env)@.len() as int),
    ensures
        env_wf(final(env)@),
        old(env)@.len() <= final(env)@.len(),
        step_matches(
            spec_native(old(env)@, scope as int, op, values_view(args@), fuel as nat),
            final(env)@,
            r,
        ),
    decreases fuel,
{
    if fuel == 0 {
        return Err(RuntimeError::OutOfFuel);
    }
    match op {
        NativeOp::Define => native_define(env, scope, args, fuel - 1),
        NativeOp::Lambda => native_lambda(env, scope, args),
        NativeOp::Let => native_let(env, scope, args, fuel - 1),
        NativeOp::Add => native_add(env, scope, args, fuel - 1),
        NativeOp::Times => native_times(env, scope, args, fuel - 1),
    }
}

/// `(+ expr…)`: fold the evaluated operands under addition.
fn native_add(env: &mut Env, scope: usize, args: &[Value], fuel: u64) -> (r: Result<
    Value,
    RuntimeError,
>)
    requires
        env_wf(old(env)@),
        scope < old(env)@.len(),
        values_wf(values_view(args@), old(env)@.len() as int),
    ensures
        env_wf(final(env)@),
        old(env)@.len() <= final(env)@.len(),
        step_matches(
            spec_native_arith(old(env)@, scope as int, NativeOp::Add, values_view(args@), fuel as nat),
            final(env)@,
            r,
        ),
    decreases fuel, 1int,
{
    native_arithmatic(env, scope, args, fuel, NativeOp::Add)
}

/// `(* expr…)`: fold the evaluated operands under multiplication.
fn native_times(env: &mut Env, scope: usize, args: &[Value], fuel: u64) -> (r: Result<
    Value,
    RuntimeError,
>)
    requires
        env_wf(old(env)@),
        scope < old(env)@.len(),
        values_wf(values_view(args@), old(env)@.len() as int),
    ensures
        env_wf(final(env)@),
        old(env)@.len() <= final(env)@.len(),
        step_matches(
            spec_native_arith(
                old(env)@,
                scope as int,
                NativeOp::Times,
                values_view(args@),
                fuel as nat,
            ),
            final(env)@,
            r,
        ),
    decreases fuel, 1int,
{
    native_arithmatic(env, scope, args, fuel, NativeOp::Times)
}

/// Extract the names of a parameter list; every element must be a symbol.
fn symbol_names(vs: &[Value]) -> (r: Result<Vec<String>, RuntimeError>)
    ensures
        ({
            let sr = spec_symbol_names(values_view(vs@));
            match r {
                Ok(names) => sr == Ok::<Seq<Seq<char>>, RuntimeError>(names.deep_view()),
                Err(e) => sr == Err::<Seq<Seq<char>>, RuntimeError>(e),
            }
        }),
    decreases vs@.len(),
{
    proof {
        lemma_values_view(vs@);
    }
    if vs.len() == 0 {
        let empty: Vec<String> = Vec::new();
        proof {
            assert(empty.deep_view() =~= Seq::<Seq<char>>::empty());
        }
        return Ok(empty);
    }
    match slice_index_get(vs, 0) {
        Value::Symbol(s) => {
            let tail = slice_subrange(vs, 1, vs.len());
            proof {
                assert(tail@ =~= vs@.drop_first());
                lemma_values_view_drop_first(vs@);
            }
            match symbol_names(tail) {
                Err(e) => Err(e),
                Ok(mut rest) => {
                    let ghost rest_view = rest.deep_view();
                    rest.insert(0, s.clone());
                    proof {
                        assert(rest.deep_view() =~= seq![s@] + rest_view);
                    }
                    Ok(rest)
                },
            }
        },
        _ => Err(RuntimeError::MalformedForm),
    }
}

/// A structural copy of a slice of values.
fn clone_values(s: &[Value]) -> (r: Vec<Value>)
    ensures
        values_view(r@) == values_view(s@),
{
    let mut r: Vec<Value> = Vec::new();
    let mut i: usize = 0;
    while i < s.len()
        invariant
            i <= s@.len(),
            r@.len() == i,
            forall|k: int| 0 <= k < i ==> #[trigger] r@[k]@ == s@[k]@,
        decreases s@.len() - i,
    {
        r.push(slice_index_get(s, i).clone());
        i = i + 1;
    }
    proof {
        lemma_values_view(r@);
        lemma_values_view(s@);
        assert forall|k: int| 0 <= k < s@.len() implies values_view(r@)[k] == values_view(
            s@,
        )[k] by {
            assert(r@[k]@ == s@[k]@);
        }
        assert(values_view(r@) =~= values_view(s@));
    }
    r
}

/// `(lambda (params…) body…)`; see [`spec_native_lambda`].
fn native_lambda(env: &mut Env, scope: usize, args: &[Value]) -> (r: Result<Value, RuntimeError>)
    requires
        env_wf(old(env)@),
        scope < old(env)@.len(),
        values_wf(values_view(args@), old(env)@.len() as int),
    ensures
        env_wf(final(env)@),
        old(env)@.len() <= final(env)@.len(),
        step_matches(
            spec_native_lambda(old(env)@, scope as int, values_view(args@)),
            final(env)@,
            r,
        ),
{
    proof {
        lemma_values_view(args@);
    }
    if args.len() == 0 {
        return Err(RuntimeError::MalformedForm);
    }
    match slice_index_get(args, 0) {
        Value::List(ns) => {
            proof {
                assert(values_view(args@)[0] == args@[0]@);
            }
            let params = match symbol_names(ns.as_slice()) {
                Err(e) => {
                    return Err(e);
                },
                Ok(params) => params,
            };
            let cap = env.new_child(scope);
            let body = clone_values(slice_subrange(args, 1, args.len()));
            proof {
                assert(args@.subrange(1, args@.len() as int) =~= args@.drop_first());
                lemma_values_view_drop_first(args@);
            }
            let res = Value::Procedure(Function::Closure(params, body, cap));
            proof {
                let n0 = old(env)@.len() as int;
                let n1 = env@.len() as int;
                lemma_values_wf(values_view(args@), n0);
                lemma_values_view(args@);
                assert forall|k: int| 0 <= k < values_view(body@).len() implies value_wf(
                    #[trigger] values_view(body@)[k],
                    n1,
                ) by {
                    assert(values_view(body@)[k] == values_view(args@)[k + 1]);
                    lemma_values_wf_mono(values_view(args@), n0, n1);
                    lemma_values_wf(values_view(args@), n1);
                }
                lemma_values_wf(values_view(body@), n1);
                assert(value_wf(res@, n1));
                assert forall|ii: int| 0 <= ii < env@.len() implies crate::env::scope_wf(
                    #[trigger] env@[ii],
                    ii,
                    n1,
                ) by {
                    if ii < n0 {
                        assert(crate::env::scope_wf(old(env)@[ii], ii, n0));
                        lemma_scope_wf_mono(env@[ii], ii, n0, n1);
                    }
                }
            }
            Ok(res)
        },
        _ => Err(RuntimeError::MalformedForm),
    }
}

/// `(define name expr)` and `(define (name params…) body…)`; see
/// [`spec_native_define`].
fn native_define(env: &mut Env, scope: usize, args: &[Value], fuel: u64) -> (r: Result<
    Value,
    RuntimeError,
>)
    requires
        env_wf(old(env)@),
        scope < old(env)@.len(),
        values_wf(values_view(args@), old(env)@.len() as int),
    ensures
        env_wf(final(env)@),
        old(env)@.len() <= final(env)@.len(),
        step_matches(
            spec_native_define(old(env)@, scope as int, values_view(args@), fuel as nat),
            final(env)@,
            r,
        ),
    decreases fuel,
{
    proof {
        lemma_values_view(args@);
        lemma_values_wf(values_view(args@), old(env)@.len() as int);
    }
    if fuel == 0 {
        return Err(RuntimeError::OutOfFuel);
    }
    if args.len() < 2 {
        return Err(RuntimeError::MalformedForm);
    }
    match slice_index_get(args, 0) {
        Value::Symbol(n) => {
            if args.len() != 2 {
                return Err(RuntimeError::MalformedForm);
            }
            let val = match eval_value(env, scope, slice_index_get(args, 1), fuel - 1) {
                Err(e) => {
                    return Err(e);
                },
                Ok(val) => val,
            };
            match env.define(scope, n.as_str(), &val) {
                Err(e) => Err(e),
                Ok(_) => Ok(val),
            }
        },
        Value::List(list) => {
            proof {
                lemma_values_view(list@);
            }
            if list.len() < 2 {
                return Err(RuntimeError::MalformedForm);
            }
            match &list[0] {
                Value::Symbol(n) => {
                    let plist = slice_subrange(list.as_slice(), 1, list.len());
                    proof {
                        assert(plist@ =~= list@.drop_first());
                        lemma_values_view_drop_first(list@);
                    }
                    let params = match symbol_names(plist) {
                        Err(e) => {
                            return Err(e);
                        },
                        Ok(params) => params,
                    };
                    let body = clone_values(slice_subrange(args, 1, args.len()));
                    proof {
                        assert(args@.subrange(1, args@.len() as int) =~= args@.drop_first());
                        lemma_values_view_drop_first(args@);
                    }
                    let val = Value::Procedure(Function::Closure(params, body, scope));
                    proof {
                        let n0 = old(env)@.len() as int;
                        lemma_values_view(args@);
                        assert forall|k: int| 0 <= k < values_view(body@).len() implies value_wf(
                            #[trigger] values_view(body@)[k],
                            n0,
                        ) by {
                            assert(values_view(body@)[k] == values_view(args@)[k + 1]);
                        }
                        lemma_values_wf(values_view(body@), n0);
                        assert(value_wf(val@, n0));
                    }
                    match env.define(scope, n.as_str(), &val) {
                        Err(e) => Err(e),
                        Ok(_) => Ok(val),
                    }
                },
                _ => Err(RuntimeError::MalformedForm),
            }
        },
        _ => Err(RuntimeError::MalformedForm),
    }
}

/// Bind the `(name expr)` pairs of a `let` form; see [`spec_let_bind`].
fn let_bind(env: &mut Env, outer: usize, inner: usize, assigns: &[Value], fuel: u64) -> (r: Result<
    (),
    RuntimeError,
>)
    requires
        env_wf(old(env)@),
        outer < old(env)@.len(),
        inner < old(env)@.len(),
        values_wf(values_view(assigns@), old(env)@.len() as int),
    ensures
        env_wf(final(env)@),
        old(env)@.len() <= final(env)@.len(),
        ({
            let (em2, rr) = spec_let_bind(
                old(env)@,
                outer as int,
                inner as int,
                values_view(assigns@),
                fuel as nat,
            );
            final(env)@ == em2 && match r {
                Ok(_) => rr == Ok::<(), RuntimeError>(()),
                Err(e) => rr == Err::<(), RuntimeError>(e),
            }
        }),
    decreases fuel,
{
    proof {
        lemma_values_view(assigns@);
        lemma_values_wf(values_view(assigns@), old(env)@.len() as int);
    }
    if fuel == 0 {
        return Err(RuntimeError::OutOfFuel);
    }
    if assigns.len() == 0 {
        return Ok(());
    }
    match slice_index_get(assigns, 0) {
        Value::List(pair) => {
            proof {
                lemma_values_view(pair@);
                lemma_values_wf(values_view(pair@), old(env)@.len() as int);
            }
            if pair.len() != 2 {
                return Err(RuntimeError::MalformedForm);
            }
            match &pair[0] {
                Value::Symbol(s) => {
                    let v = match eval_value(env, outer, &pair[1], fuel - 1) {
                        Err(e) => {
                            return Err(e);
                        },
                        Ok(v) => v,
                    };
                    match env.define(inner, s.as_str(), &v) {
                        Err(e) => {
                            return Err(e);
                        },
                        Ok(_) => {},
                    }
                    let tail = slice_subrange(assigns, 1, assigns.len());
                    proof {
                        assert(tail@ =~= assigns@.drop_first());
                        lemma_values_view_drop_first(assigns@);
                        let n1 = env@.len() as int;
                        lemma_values_view(tail@);
                        assert forall|k: int| 0 <= k < values_view(tail@).len() implies value_wf(
                            #[trigger] values_view(tail@)[k],
                            n1,
                        ) by {
                            assert(values_view(tail@)[k] == values_view(assigns@)[k + 1]);
                            lemma_values_wf_mono(
                                values_view(assigns@),
                                old(env)@.len() as int,
                                n1,
                            );
                            lemma_values_wf(values_view(assigns@), n1);
                        }
                        lemma_values_wf(values_view(tail@), n1);
                    }
                    let_bind(env, outer, inner, tail, fuel - 1)
                },
                _ => Err(RuntimeError::MalformedForm),
            }
        },
        _ => Err(RuntimeError::MalformedForm),
    }
}

/// `(let ((name expr)…) body)`; see [`spec_native_let`].
fn native_let(env: &mut Env, scope: usize, args: &[Value], fuel: u64) -> (r: Result<
    Value,
    RuntimeError,
>)
    requires
        env_wf(old(env)@),
        scope < old(env)@.len(),
        values_wf(values_view(args@), old(env)@.len() as int),
    ensures
        env_wf(final(env)@),
        old(env)@.len() <= final(env)@.len(),
        step_matches(
            spec_native_let(old(env)@, scope as int, values_view(args@), fuel as nat),
            final(env)@,
            r,
        ),
    decreases fuel,
{
    proof {
        lemma_values_view(args@);
        lemma_values_wf(values_view(args@), old(env)@.len() as int);
    }
    if fuel == 0 {
        return Err(RuntimeError::OutOfFuel);
    }
    if args.len() < 2 {
        return Err(RuntimeError::MalformedForm);
    }
    match slice_index_get(args, 0) {
        Value::List(assigns) => {
            let inner = env.new_child(scope);
            proof {
                let n0 = old(env)@.len() as int;
                let n1 = env@.len() as int;
                assert forall|ii: int| 0 <= ii < env@.len() implies crate::env::scope_wf(
                    #[trigger] env@[ii],
                    ii,
                    n1,
                ) by {
                    if ii < n0 {
                        assert(crate::env::scope_wf(old(env)@[ii], ii, n0));
                        lemma_scope_wf_mono(env@[ii], ii, n0, n1);
                    }
                }
                lemma_values_wf(values_view(assigns@), n0);
                lemma_values_wf_mono(values_view(assigns@), n0, n1);
            }
            match let_bind(env, scope, inner, assigns.as_slice(), fuel - 1) {
                Err(e) => Err(e),
                Ok(_) => {
                    proof {
                        crate::value::lemma_value_wf_mono(
                            args@[1]@,
                            old(env)@.len() as int,
                            env@.len() as int,
                        );
                    }
                    eval_value(env, inner, slice_index_get(args, 1), fuel - 1)
                },
            }
        },
        _ => Err(RuntimeError::MalformedForm),
    }
}

/// Evaluate arithmetic operands; see [`spec_eval_int_args`].
fn eval_int_args(env: &mut Env, scope: usize, args: &[Value], fuel: u64) -> (r: Result<
    Vec<usize>,
    RuntimeError,
>)
    requires
        env_wf(old(env)@),
        scope < old(env)@.len(),
        values_wf(values_view(args@), old(env)@.len() as int),
    ensures
        env_wf(final(env)@),
        old(env)@.len() <= final(env)@.len(),
        ({
            let (em2, rr) = spec_eval_int_args(
                old(env)@,
                scope as int,
                values_view(args@),
                fuel as nat,
            );
            final(env)@ == em2 && match r {
                Ok(ints) => rr == Ok::<Seq<nat>, RuntimeError>(nats_of(ints@)) && ints@.len()
                    == args@.len(),
                Err(e) => rr == Err::<Seq<nat>, RuntimeError>(e),
            }
        }),
    decreases fuel,
{
    proof {
        lemma_values_view(args@);
        lemma_values_wf(values_view(args@), old(env)@.len() as int);
    }
    if fuel == 0 {
        return Err(RuntimeError::OutOfFuel);
    }
    if args.len() == 0 {
        let empty: Vec<usize> = Vec::new();
        proof {
            assert(nats_of(empty@) =~= Seq::<nat>::empty());
        }
        return Ok(empty);
    }
    let first = match eval_value(env, scope, slice_index_get(args, 0), fuel - 1) {
        Err(e) => {
            return Err(e);
        },
        Ok(v) => v,
    };
    let n = match first {
        Value::Integer(n) => n,
        _ => {
            return Err(RuntimeError::TypeError);
        },
    };
    let tail = slice_subrange(args, 1, args.len());
    proof {
        assert(tail@ =~= args@.drop_first());
        lemma_values_view_drop_first(args@);
        let n1 = env@.len() as int;
        lemma_values_view(tail@);
        assert forall|k: int| 0 <= k < values_view(tail@).len() implies value_wf(
            #[trigger] values_view(tail@)[k],
            n1,
        ) by {
            assert(values_view(tail@)[k] == values_view(args@)[k + 1]);
            lemma_values_wf_mono(values_view(args@), old(env)@.len() as int, n1);
            lemma_values_wf(values_view(args@), n1);
        }
        lemma_values_wf(values_view(tail@), n1);
    }
    match eval_int_args(env, scope, tail, fuel - 1) {
        Err(e) => Err(e),
        Ok(mut rest) => {
            let ghost rest_view = nats_of(rest@);
            rest.insert(0, n);
            proof {
                assert(nats_of(rest@) =~= seq![n as nat] + rest_view);
            }
            Ok(rest)
        },
    }
}

/// The machine integers of a vector, as mathematical naturals.
pub open spec fn nats_of(s: Seq<usize>) -> Seq<nat> {
    Seq::new(s.len(), |i: int| s[i] as nat)
}

/// Fold integers under `+` or `*` with overflow checks; see
/// [`spec_checked_fold`].
fn checked_fold(op: NativeOp, acc: usize, rest: &[usize], from: usize) -> (r: Option<usize>)
    requires
        op == NativeOp::Add || op == NativeOp::Times,
        from <= rest@.len(),
    ensures
        ({
            let sr = spec_checked_fold(op, acc as nat, nats_of(rest@).skip(from as int));
            match r {
                Some(v) => sr == Some(v as nat),
                None => sr is None,
            }
        }),
    decreases rest@.len() - from,
{
    if from >= rest.len() {
        proof {
            assert(nats_of(rest@).skip(from as int) =~= Seq::<nat>::empty());
        }
        return Some(acc);
    }
    let x = *slice_index_get(rest, from);
    let next = if op == NativeOp::Add {
        acc.checked_add(x)
    } else {
        acc.checked_mul(x)
    };
    proof {
        assert(nats_of(rest@).skip(from as int)[0] == rest@[from as int] as nat);
        assert(nats_of(rest@).skip(from as int).drop_first() =~= nats_of(rest@).skip(
            from as int + 1,
        ));
    }
    match next {
        Some(acc2) => checked_fold(op, acc2, rest, from + 1),
        None => None,
    }
}

/// `(+ expr…)` and `(* expr…)`: a general fold over evaluated integer
/// operands; see [`spec_native_arith`].
fn native_arithmatic(env: &mut Env, scope: usize, args: &[Value], fuel: u64, op: NativeOp) -> (r:
    Result<Value, RuntimeError>)
    requires
        op == NativeOp::Add || op == NativeOp::Times,
        env_wf(old(env)@),
        scope < old(env)@.len(),
        values_wf(values_view(args@), old(env)@.len() as int),
    ensures
        env_wf(final(env)@),
        old(env)@.len() <= final(env)@.len(),
        step_matches(
            spec_native_arith(old(env)@, scope as int, op, values_view(args@), fuel as nat),
            final(env)@,
            r,
        ),
    decreases fuel, 0int,
{
    if fuel == 0 {
        return Err(RuntimeError::OutOfFuel);
    }
    if args.len() == 0 {
        proof {
            lemma_values_view(args@);
        }
        return Err(RuntimeError::MalformedForm);
    }
    proof {
        lemma_values_view(args@);
    }
    let ints = match eval_int_args(env, scope, args, fuel - 1) {
        Err(e) => {
            return Err(e);
        },
        Ok(ints) => ints,
    };
    assert(ints@.len() == args@.len());
    proof {
        assert(nats_of(ints@)[0] == ints@[0] as nat);
        assert(nats_of(ints@).skip(1) =~= nats_of(ints@).drop_first());
    }
    match checked_fold(op, ints[0], ints.as_slice(), 1) {
        Some(v) => Ok(Value::Integer(v)),
        None => Err(RuntimeError::Overflow),
    }
}

/// Evaluate a program: convert the syntax nodes to values, evaluate them
/// as a sequence in the root scope, and return the value of the last
/// expression (or `Unit` for an empty program).
pub fn eval(nodes: &Vec<Node>, env: &mut Env) -> (r: Result<Value, RuntimeError>)
    requires
        old(env).wf(),
    ensures
        final(env).wf(),
        old(env)@.len() <= final(env)@.len(),
        step_matches(
            spec_eval_program(old(env)@, nodes_view(nodes@), DEFAULT_FUEL as nat),
            final(env)@,
            r,
        ),
{
    let values = Value::from_nodes(nodes);
    proof {
        lemma_nodes_to_values_wf(nodes_view(nodes@), old(env)@.len() as int);
    }
    eval_values(env, 0, values.as_slice(), DEFAULT_FUEL)
}

/// A name that no scope binds is unbound through the whole chain.
proof fn lemma_unbound_get(em: Seq<ScopeModel>, scope: int, name: Seq<char>)
    requires
        forall|i: int|
            0 <= i < em.len() ==> crate::env::spec_lookup(#[trigger] em[i].bindings, name) is None,
    ensures
        spec_env_get(em, scope, name) == Err::<ValueModel, RuntimeError>(
            RuntimeError::UnboundVariable,
        ),
    decreases scope,
{
    if 0 <= scope && scope < em.len() {
        match em[scope].parent {
            Some(p) => {
                if 0 <= p && p < scope {
                    lemma_unbound_get(em, p, name);
                }
            },
            None => {},
        }
    }
}

/// A bare reference to a name that no scope of the environment binds fails
/// with `UnboundVariable`, never yields a value, and leaves the
/// environment unchanged.
pub proof fn lemma_unbound_variable(em: Seq<ScopeModel>, scope: int, name: Seq<char>, fuel: nat)
    requires
        fuel > 0,
        forall|i: int|
            0 <= i < em.len() ==> crate::env::spec_lookup(#[trigger] em[i].bindings, name) is None,
    ensures
        spec_eval_value(em, scope, ValueModel::Symbol(name), fuel) == (
            em,
            Err::<ValueModel, RuntimeError>(RuntimeError::UnboundVariable),
        ),
{
    lemma_unbound_get(em, scope, name);
}

/// Applying a closure to a different number of arguments than it declares
/// parameters fails with `ArityMismatch`, before any argument is
/// evaluated: the environment is unchanged and no argument is dropped
/// silently.
pub proof fn lemma_arity_mismatch(
    em: Seq<ScopeModel>,
    scope: int,
    params: Seq<Seq<char>>,
    body: Seq<ValueModel>,
    cenv: int,
    args: Seq<ValueModel>,
    fuel: nat,
)
    requires
        fuel > 0,
        params.len() != args.len(),
    ensures
        spec_apply(em, scope, FunctionModel::Closure(params, body, cenv), args, fuel) == (
            em,
            Err::<ValueModel, RuntimeError>(RuntimeError::ArityMismatch),
        ),
{
}

/// The interpreter: it owns the environment arena, whose root scope is
/// created once and pre-populated with the native procedures.
pub struct Evalator {
    root: Env,
}

impl View for Evalator {
    type V = Seq<ScopeModel>;

    closed spec fn view(&self) -> Seq<ScopeModel> {
        self.root@
    }
}

impl Evalator {
    /// The arena is well-formed and holds at least the root scope.
    pub open spec fn wf(&self) -> bool {
        env_wf(self@) && self@.len() >= 1
    }

    /// A fresh interpreter over a fresh root environment.
    pub fn new() -> (e: Evalator)
        ensures
            e.wf(),
            e@ == crate::env::root_env_model(),
    {
        Evalator { root: Env::new_root() }
    }

    /// Evaluate a program in this interpreter's environment.
    pub fn eval(&mut self, nodes: &Vec<Node>) -> (r: Result<Value, RuntimeError>)
        requires
            old(self).wf(),
        ensures
            final(self).wf(),
            step_matches(
                spec_eval_program(old(self)@, nodes_view(nodes@), DEFAULT_FUEL as nat),
                final(self)@,
                r,
            ),
    {
        eval(nodes, &mut self.root)
    }
}

} // verus!
