//! Environments: a tree of scopes, each a set of name-to-value bindings
//! with an optional parent.
//!
//! All scopes of one interpreter live in a single arena owned by [`Env`];
//! parent links and closure captures hold arena indices.  A scope therefore
//! outlives the call frame that created it for as long as any closure still
//! names its index, which is what makes returned closures work.
//!
//! * `define` inserts into one scope's own bindings and rejects a name that
//!   scope already binds,
//! * `set` overwrites the first binding found on the chain through the
//!   parents,
//! * `get` reads along the same chain; the root (no parent) is the final
//!   stop.

use vstd::prelude::*;

use crate::errors::RuntimeError;
use crate::value::Function;
use crate::value::Value;
use crate::value::ValueModel;
use crate::value::FunctionModel;
use crate::value::NativeOp;
use crate::value::value_wf;

verus! {

/// One name-to-value binding.
struct Binding {
    name: String,
    val: Value,
}

/// One scope: its own bindings and the arena index of its parent, if any.
struct Scope {
    parent: Option<usize>,
    bindings: Vec<Binding>,
}

/// The mathematical image of one scope.
#[verifier::ext_equal]
pub struct ScopeModel {
    pub parent: Option<int>,
    pub bindings: Seq<(Seq<char>, ValueModel)>,
}

/// The mathematical image of one binding.
closed spec fn binding_view(b: Binding) -> (Seq<char>, ValueModel) {
    (b.name@, b.val@)
}

/// The mathematical image of one scope.
closed spec fn scope_view(s: Scope) -> ScopeModel {
    ScopeModel {
        parent: match s.parent {
            Some(p) => Some(p as int),
            None => None,
        },
        bindings: Seq::new(s.bindings@.len(), |i: int| binding_view(s.bindings@[i])),
    }
}

/// The whole environment tree of one interpreter: an arena of scopes.
/// Scope `0` is the root.
pub struct Env {
    scopes: Vec<Scope>,
}

impl View for Env {
    type V = Seq<ScopeModel>;

    closed spec fn view(&self) -> Seq<ScopeModel> {
        Seq::new(self.scopes@.len(), |i: int| scope_view(self.scopes@[i]))
    }
}

/// The value bound to `name` in one scope's own bindings: the first
/// matching entry, read-only, or `None`.
pub open spec fn spec_lookup(
    bs: Seq<(Seq<char>, ValueModel)>,
    name: Seq<char>,
) -> Option<ValueModel>
    decreases bs.len(),
{
    if bs.len() == 0 {
        None
    } else if bs[0].0 == name {
        Some(bs[0].1)
    } else {
        spec_lookup(bs.drop_first(), name)
    }
}

/// Overwrite the first binding of `name` in a scope's own bindings.
pub open spec fn spec_store(
    bs: Seq<(Seq<char>, ValueModel)>,
    name: Seq<char>,
    v: ValueModel,
) -> Seq<(Seq<char>, ValueModel)>
    decreases bs.len(),
{
    if bs.len() == 0 {
        bs
    } else if bs[0].0 == name {
        seq![(name, v)] + bs.drop_first()
    } else {
        seq![bs[0]] + spec_store(bs.drop_first(), name, v)
    }
}

/// Read `name` at `scope`, walking the parent chain; the root is the final
/// stop.
pub open spec fn spec_env_get(
    em: Seq<ScopeModel>,
    scope: int,
    name: Seq<char>,
) -> Result<ValueModel, RuntimeError>
    decreases scope,
{
    if !(0 <= scope && scope < em.len()) {
        Err(RuntimeError::UnboundVariable)
    } else {
        match spec_lookup(em[scope].bindings, name) {
            Some(v) => Ok(v),
            None => match em[scope].parent {
                Some(p) => if 0 <= p && p < scope {
                    spec_env_get(em, p, name)
                } else {
                    Err(RuntimeError::UnboundVariable)
                },
                None => Err(RuntimeError::UnboundVariable),
            },
        }
    }
}

/// Assign `name` at `scope`: overwrite the binding in the first scope on
/// the parent chain that owns the name.
pub open spec fn spec_env_set(
    em: Seq<ScopeModel>,
    scope: int,
    name: Seq<char>,
    v: ValueModel,
) -> Result<Seq<ScopeModel>, RuntimeError>
    decreases scope,
{
    if !(0 <= scope && scope < em.len()) {
        Err(RuntimeError::UnboundVariable)
    } else {
        match spec_lookup(em[scope].bindings, name) {
            Some(_) => Ok(
                em.update(
                    scope,
                    ScopeModel {
                        parent: em[scope].parent,
                        bindings: spec_store(em[scope].bindings, name, v),
                    },
                ),
            ),
            None => match em[scope].parent {
                Some(p) => if 0 <= p && p < scope {
                    spec_env_set(em, p, name, v)
                } else {
                    Err(RuntimeError::UnboundVariable)
                },
                None => Err(RuntimeError::UnboundVariable),
            },
        }
    }
}

/// Bind `name` at exactly `scope`: rejected if that scope already owns the
/// name (ancestors are not consulted), otherwise appended to its bindings.
pub open spec fn spec_env_define(
    em: Seq<ScopeModel>,
    scope: int,
    name: Seq<char>,
    v: ValueModel,
) -> Result<Seq<ScopeModel>, RuntimeError> {
    if !(0 <= scope && scope < em.len()) {
        Err(RuntimeError::UnboundVariable)
    } else {
        match spec_lookup(em[scope].bindings, name) {
            Some(_) => Err(RuntimeError::DuplicateBinding),
            None => Ok(
                em.update(
                    scope,
                    ScopeModel {
                        parent: em[scope].parent,
                        bindings: em[scope].bindings.push((name, v)),
                    },
                ),
            ),
        }
    }
}

/// All values stored in a scope's bindings stay inside an arena of `n`
/// scopes.
pub open spec fn bindings_wf(bs: Seq<(Seq<char>, ValueModel)>, n: int) -> bool {
    forall|j: int| 0 <= j < bs.len() ==> value_wf((#[trigger] bs[j]).1, n)
}

/// One scope at index `i` is well-formed in an arena of `n` scopes: its
/// parent stands strictly below it, and its values stay inside the arena.
pub open spec fn scope_wf(s: ScopeModel, i: int, n: int) -> bool {
    &&& match s.parent {
        Some(p) => 0 <= p < i,
        None => true,
    }
    &&& bindings_wf(s.bindings, n)
}

/// The whole arena is well-formed.
pub open spec fn env_wf(em: Seq<ScopeModel>) -> bool {
    forall|i: int| 0 <= i < em.len() ==> scope_wf(#[trigger] em[i], i, em.len() as int)
}

/// A found binding is as well-formed as the scope it came from.
pub proof fn lemma_lookup_wf(bs: Seq<(Seq<char>, ValueModel)>, name: Seq<char>, n: int)
    requires
        bindings_wf(bs, n),
    ensures
        spec_lookup(bs, name) matches Some(v) ==> value_wf(v, n),
    decreases bs.len(),
{
    if bs.len() > 0 && !(bs[0].0 == name) {
        assert forall|j: int| 0 <= j < bs.drop_first().len() implies value_wf(
            (#[trigger] bs.drop_first()[j]).1,
            n,
        ) by {
            assert(bs.drop_first()[j] == bs[j + 1]);
        }
        lemma_lookup_wf(bs.drop_first(), name, n);
    }
}

/// A scan that passed the first `i` bindings without a match continues as
/// the scan of the remainder.
pub proof fn lemma_lookup_skip(bs: Seq<(Seq<char>, ValueModel)>, name: Seq<char>, i: int)
    requires
        0 <= i <= bs.len(),
        forall|k: int| 0 <= k < i ==> (#[trigger] bs[k]).0 != name,
    ensures
        spec_lookup(bs, name) == spec_lookup(bs.skip(i), name),
    decreases i,
{
    if i > 0 {
        lemma_lookup_skip(bs.drop_first(), name, i - 1);
        assert(bs[0].0 != name);
        assert(bs.drop_first().skip(i - 1) =~= bs.skip(i));
    } else {
        assert(bs.skip(0) =~= bs);
    }
}

/// The root environment model: one scope, no parent, the five native
/// procedures bound under their names.
pub open spec fn root_env_model() -> Seq<ScopeModel> {
    seq![
        ScopeModel {
            parent: None,
            bindings: seq![
                ("define"@, ValueModel::Procedure(FunctionModel::Native(NativeOp::Define))),
                ("+"@, ValueModel::Procedure(FunctionModel::Native(NativeOp::Add))),
                ("let"@, ValueModel::Procedure(FunctionModel::Native(NativeOp::Let))),
                ("*"@, ValueModel::Procedure(FunctionModel::Native(NativeOp::Times))),
                ("lambda"@, ValueModel::Procedure(FunctionModel::Native(NativeOp::Lambda))),
            ],
        },
    ]
}

impl Env {
    /// The arena is well-formed and holds at least the root scope.
    pub open spec fn wf(&self) -> bool {
        env_wf(self@) && self@.len() >= 1
    }

    /// Create the root environment: no parent, pre-registered native
    /// procedures. Never fails.
    pub fn new_root() -> (e: Env)
        ensures
            e@ == root_env_model(),
            e.wf(),
    {
        let mut bindings: Vec<Binding> = Vec::new();
        bindings.push(
            Binding { name: "define".to_owned(), val: Value::Procedure(Function::Native(NativeOp::Define)) },
        );
        bindings.push(
            Binding { name: "+".to_owned(), val: Value::Procedure(Function::Native(NativeOp::Add)) },
        );
        bindings.push(
            Binding { name: "let".to_owned(), val: Value::Procedure(Function::Native(NativeOp::Let)) },
        );
        bindings.push(
            Binding { name: "*".to_owned(), val: Value::Procedure(Function::Native(NativeOp::Times)) },
        );
        bindings.push(
            Binding { name: "lambda".to_owned(), val: Value::Procedure(Function::Native(NativeOp::Lambda)) },
        );
        let mut scopes: Vec<Scope> = Vec::new();
        scopes.push(Scope { parent: None, bindings });
        let e = Env { scopes };
        proof {
            assert(e@.len() == 1);
            assert(e@[0].bindings =~= root_env_model()[0].bindings);
            assert(e@[0] == root_env_model()[0]);
            assert(e@ =~= root_env_model());
        }
        e
    }

    /// Create an empty child scope of `parent` and return its index.
    pub fn new_child(&mut self, parent: usize) -> (idx: usize)
        requires
            parent < old(self)@.len(),
        ensures
            idx == old(self)@.len(),
            final(self)@ == old(self)@.push(
                ScopeModel { parent: Some(parent as int), bindings: Seq::empty() },
            ),
    {
        let idx = self.scopes.len();
        self.scopes.push(Scope { parent: Some(parent), bindings: Vec::new() });
        proof {
            assert(self@ =~~= old(self)@.push(
                ScopeModel { parent: Some(parent as int), bindings: Seq::empty() },
            ));
        }
        idx
    }

    /// Read `identifier` at `scope`, walking the parent chain; fails with
    /// `UnboundVariable` when the chain is exhausted.
    pub fn get(&self, scope: usize, identifier: &String) -> (r: Result<Value, RuntimeError>)
        requires
            env_wf(self@),
            scope < self@.len(),
        ensures
            ({
                let sr = spec_env_get(self@, scope as int, identifier@);
                match r {
                    Ok(v) => sr == Ok::<ValueModel, RuntimeError>(v@) && value_wf(
                        v@,
                        self@.len() as int,
                    ),
                    Err(e) => sr == Err::<ValueModel, RuntimeError>(e),
                }
            }),
        decreases scope,
    {
        proof {
            assert(scope_wf(self@[scope as int], scope as int, self@.len() as int));
        }
        let ghost bs = self@[scope as int].bindings;
        let sc = &self.scopes[scope];
        let n = sc.bindings.len();
        let mut i: usize = 0;
        while i < n
            invariant
                i <= n,
                n == bs.len(),
                env_wf(self@),
                *sc == self.scopes@[scope as int],
                scope < self@.len(),
                bs == self@[scope as int].bindings,
                forall|k: int| 0 <= k < i ==> (#[trigger] bs[k]).0 != identifier@,
            decreases n - i,
        {
            if sc.bindings[i].name == *identifier {
                proof {
                    lemma_lookup_skip(bs, identifier@, i as int);
                    assert(bs.skip(i as int)[0] == bs[i as int]);
                    lemma_lookup_wf(bs, identifier@, self@.len() as int);
                }
                return Ok(sc.bindings[i].val.clone());
            }
            i = i + 1;
        }
        proof {
            lemma_lookup_skip(bs, identifier@, n as int);
            assert(bs.skip(n as int) =~= Seq::<(Seq<char>, ValueModel)>::empty());
        }
        match sc.parent {
            Some(p) => {
                assert(0 <= p < scope);
                self.get(p, identifier)
            },
            None => Err(RuntimeError::UnboundVariable),
        }
    }

    /// Bind `key` in exactly the scope `scope`; fails with
    /// `DuplicateBinding` when that scope already owns the name.
    pub fn define(&mut self, scope: usize, key: &str, value: &Value) -> (r: Result<
        (),
        RuntimeError,
    >)
        requires
            env_wf(old(self)@),
            scope < old(self)@.len(),
            value_wf(value@, old(self)@.len() as int),
        ensures
            ({
                let sr = spec_env_define(old(self)@, scope as int, key@, value@);
                match r {
                    Ok(_) => sr == Ok::<Seq<ScopeModel>, RuntimeError>(final(self)@),
                    Err(e) => sr == Err::<Seq<ScopeModel>, RuntimeError>(e) && final(self)@
                        == old(self)@,
                }
            }),
            env_wf(final(self)@),
            final(self)@.len() == old(self)@.len(),
    {
        let key_string = key.to_owned();
        let ghost bs = self@[scope as int].bindings;
        let n = self.scopes[scope].bindings.len();
        let mut i: usize = 0;
        while i < n
            invariant
                i <= n,
                n == bs.len(),
                *self == *old(self),
                env_wf(self@),
                scope < self@.len(),
                key_string@ == key@,
                bs == self@[scope as int].bindings,
                forall|k: int| 0 <= k < i ==> (#[trigger] bs[k]).0 != key@,
            decreases n - i,
        {
            if self.scopes[scope].bindings[i].name == key_string {
                proof {
                    lemma_lookup_skip(bs, key@, i as int);
                    assert(bs.skip(i as int)[0] == bs[i as int]);
                }
                return Err(RuntimeError::DuplicateBinding);
            }
            i = i + 1;
        }
        proof {
            lemma_lookup_skip(bs, key@, n as int);
            assert(bs.skip(n as int) =~= Seq::<(Seq<char>, ValueModel)>::empty());
        }
        let binding = Binding { name: key.to_owned(), val: value.clone() };
        self.scopes[scope].bindings.push(binding);
        proof {
            let em2 = old(self)@.update(
                scope as int,
                ScopeModel { parent: old(self)@[scope as int].parent, bindings: bs.push((key@, value@)) },
            );
            assert(self@[scope as int].bindings =~= bs.push((key@, value@)));
            assert(self@[scope as int] == em2[scope as int]);
            assert(self@ =~= em2);
            assert forall|ii: int| 0 <= ii < self@.len() implies scope_wf(
                #[trigger] self@[ii],
                ii,
                self@.len() as int,
            ) by {
                assert(scope_wf(old(self)@[ii], ii, old(self)@.len() as int));
                if ii == scope {
                    assert forall|j: int| 0 <= j < self@[ii].bindings.len() implies value_wf(
                        (#[trigger] self@[ii].bindings[j]).1,
                        self@.len() as int,
                    ) by {
                        if j < bs.len() {
                            assert(self@[ii].bindings[j] == bs[j]);
                        }
                    }
                }
            }
        }
        Ok(())
    }

    /// Assign `key` at `scope`: overwrite the binding in the first scope on
    /// the parent chain that owns the name; fails with `UnboundVariable`
    /// when no scope on the chain does.
    pub fn set(&mut self, scope: usize, key: &String, value: &Value) -> (r: Result<
        (),
        RuntimeError,
    >)
        requires
            env_wf(old(self)@),
            scope < old(self)@.len(),
            value_wf(value@, old(self)@.len() as int),
        ensures
            ({
                let sr = spec_env_set(old(self)@, scope as int, key@, value@);
                match r {
                    Ok(_) => sr == Ok::<Seq<ScopeModel>, RuntimeError>(final(self)@),
                    Err(e) => sr == Err::<Seq<ScopeModel>, RuntimeError>(e) && final(self)@
                        == old(self)@,
                }
            }),
            env_wf(final(self)@),
            final(self)@.len() == old(self)@.len(),
        decreases scope,
    {
        let ghost bs = self@[scope as int].bindings;
        let n = self.scopes[scope].bindings.len();
        let mut i: usize = 0;
        while i < n
            invariant
                i <= n,
                n == bs.len(),
                *self == *old(self),
                env_wf(self@),
                scope < self@.len(),
                value_wf(value@, self@.len() as int),
                bs == self@[scope as int].bindings,
                forall|k: int| 0 <= k < i ==> (#[trigger] bs[k]).0 != key@,
            decreases n - i,
        {
            if self.scopes[scope].bindings[i].name == *key {
                proof {
                    lemma_lookup_skip(bs, key@, i as int);
                    assert(bs.skip(i as int)[0] == bs[i as int]);
                }
                let replacement = Binding { name: key.clone(), val: value.clone() };
                self.scopes[scope].bindings.set(i, replacement);
                proof {
                    lemma_store_at(bs, key@, value@, i as int);
                    let em2 = old(self)@.update(
                        scope as int,
                        ScopeModel {
                            parent: old(self)@[scope as int].parent,
                            bindings: spec_store(bs, key@, value@),
                        },
                    );
                    assert(self@[scope as int].bindings =~= bs.update(i as int, (key@, value@)));
                    assert(self@[scope as int] == em2[scope as int]);
                    assert(self@ =~= em2);
                    assert forall|ii: int| 0 <= ii < self@.len() implies scope_wf(
                        #[trigger] self@[ii],
                        ii,
                        self@.len() as int,
                    ) by {
                        assert(scope_wf(old(self)@[ii], ii, old(self)@.len() as int));
                        if ii == scope {
                            assert forall|j: int|
                                0 <= j < self@[ii].bindings.len() implies value_wf(
                                (#[trigger] self@[ii].bindings[j]).1,
                                self@.len() as int,
                            ) by {
                                if j != i {
                                    assert(self@[ii].bindings[j] == bs[j]);
                                }
                            }
                        }
                    }
                }
                return Ok(());
            }
            i = i + 1;
        }
        proof {
            lemma_lookup_skip(bs, key@, n as int);
            assert(bs.skip(n as int) =~= Seq::<(Seq<char>, ValueModel)>::empty());
        }
        proof {
            assert(scope_wf(self@[scope as int], scope as int, self@.len() as int));
        }
        let parent = self.scopes[scope].parent;
        match parent {
            Some(p) => {
                assert(0 <= p < scope);
                self.set(p, key, value)
            },
            None => Err(RuntimeError::UnboundVariable),
        }
    }
}

/// A scan finds a binding appended to bindings that did not hold its name.
proof fn lemma_lookup_push(bs: Seq<(Seq<char>, ValueModel)>, name: Seq<char>, v: ValueModel)
    requires
        spec_lookup(bs, name) is None,
    ensures
        spec_lookup(bs.push((name, v)), name) == Some(v),
    decreases bs.len(),
{
    if bs.len() == 0 {
        assert(bs.push((name, v))[0] == (name, v));
    } else {
        assert(bs.push((name, v))[0] == bs[0]);
        assert(bs.push((name, v)).drop_first() =~= bs.drop_first().push((name, v)));
        lemma_lookup_push(bs.drop_first(), name, v);
    }
}

/// Defining a name and then reading it in the same scope yields exactly
/// the value that was bound.
pub proof fn lemma_define_then_get(
    em: Seq<ScopeModel>,
    scope: int,
    name: Seq<char>,
    v: ValueModel,
)
    requires
        0 <= scope < em.len(),
        spec_env_define(em, scope, name, v) matches Ok(_),
    ensures
        spec_env_define(em, scope, name, v) matches Ok(em2) ==> spec_env_get(em2, scope, name)
            == Ok::<ValueModel, RuntimeError>(v),
{
    match spec_env_define(em, scope, name, v) {
        Ok(em2) => {
            lemma_lookup_push(em[scope].bindings, name, v);
            assert(em2[scope].bindings == em[scope].bindings.push((name, v)));
        },
        Err(_) => {},
    }
}

/// Overwriting the first match of `name`, found at index `i`, is the
/// point-wise update at `i`.
pub proof fn lemma_store_at(
    bs: Seq<(Seq<char>, ValueModel)>,
    name: Seq<char>,
    v: ValueModel,
    i: int,
)
    requires
        0 <= i < bs.len(),
        bs[i].0 == name,
        forall|k: int| 0 <= k < i ==> (#[trigger] bs[k]).0 != name,
    ensures
        spec_store(bs, name, v) =~= bs.update(i, (name, v)),
    decreases i,
{
    if i == 0 {
        assert(spec_store(bs, name, v) == seq![(name, v)] + bs.drop_first());
    } else {
        assert(bs[0].0 != name);
        assert forall|k: int| 0 <= k < i - 1 implies (#[trigger] bs.drop_first()[k]).0 != name by {
            assert(bs.drop_first()[k] == bs[k + 1]);
        }
        assert(bs.drop_first()[i - 1] == bs[i]);
        lemma_store_at(bs.drop_first(), name, v, i - 1);
        assert(spec_store(bs, name, v) == seq![bs[0]] + spec_store(bs.drop_first(), name, v));
        assert(seq![bs[0]] + bs.drop_first().update(i - 1, (name, v)) =~= bs.update(i, (name, v)));
    }
}

} // verus!
