//! Semantic values and the nameless environment that holds them.

use vstd::prelude::*;

use crate::cid::CompactCid;

verus! {

/// What evaluation yields.
#[derive(Debug)]
pub enum Value {
    /// The universe.
    Universe,
    /// An abstraction closed over the environment it was met in.
    Closure { body: CompactCid, env: Env },
    /// A value stuck on a free variable.
    Neutral(Neutral),
}

/// A free variable, or an application that is stuck on one.
#[derive(Debug)]
pub enum Neutral {
    /// A free variable, as a De Bruijn index.
    Var(u32),
    /// A stuck value applied to an argument.
    Apply(SharedNeutral, SharedValue),
}

/// The values of the variables in scope, the innermost last, behind one shared pointer.
///
/// The pointer is a `triomphe::Arc`. `env_values` names what it points to.
#[verifier::external_body]
#[derive(Debug)]
pub struct Env {
    variables: triomphe::Arc<Vec<Value>>,
}

/// A stuck value behind a shared pointer.
///
/// The pointer is a `triomphe::Arc`. `neutral_behind` names what it points to.
#[verifier::external_body]
pub struct SharedNeutral {
    pointer: triomphe::Arc<Neutral>,
}

/// A value behind a shared pointer.
///
/// The pointer is a `triomphe::Arc`. `value_behind` names what it points to.
#[verifier::external_body]
pub struct SharedValue {
    pointer: triomphe::Arc<Value>,
}

/// The mathematical value behind a `Value`.
pub ghost enum Val {
    Universe,
    Closure { body: CompactCid, env: Seq<Val> },
    Neutral(Neu),
}

/// The mathematical value behind a `Neutral`.
pub ghost enum Neu {
    Var(u32),
    Apply(Box<Neu>, Box<Val>),
}

/// The values that the vector behind the pointer of an environment holds, in order.
pub uninterp spec fn env_values(env: Env) -> Seq<Val>;

/// The stuck value that a shared pointer points to.
pub uninterp spec fn neutral_behind(shared: SharedNeutral) -> Neu;

/// The value that a shared pointer points to.
pub uninterp spec fn value_behind(shared: SharedValue) -> Val;

impl View for Value {
    type V = Val;

    open spec fn view(&self) -> Val {
        match *self {
            Value::Universe => Val::Universe,
            Value::Closure { body, env } => Val::Closure { body, env: env@ },
            Value::Neutral(neutral) => Val::Neutral(neutral@),
        }
    }
}

impl View for Neutral {
    type V = Neu;

    open spec fn view(&self) -> Neu {
        match *self {
            Neutral::Var(index) => Neu::Var(index),
            Neutral::Apply(head, argument) => Neu::Apply(Box::new(head@), Box::new(argument@)),
        }
    }
}

impl View for Env {
    type V = Seq<Val>;

    open spec fn view(&self) -> Seq<Val> {
        env_values(*self)
    }
}

impl View for SharedNeutral {
    type V = Neu;

    open spec fn view(&self) -> Neu {
        neutral_behind(*self)
    }
}

impl View for SharedValue {
    type V = Val;

    open spec fn view(&self) -> Val {
        value_behind(*self)
    }
}

/// The values behind a sequence of executable values.
pub open spec fn values_view(values: Seq<Value>) -> Seq<Val> {
    Seq::new(values.len(), |i: int| values[i]@)
}

/// The value of a variable: counted from the innermost one, or the free variable
/// itself where the environment does not reach that far.
pub open spec fn lookup_in(env: Seq<Val>, index: u32) -> Val {
    if index < env.len() {
        env[env.len() - 1 - index]
    } else {
        Val::Neutral(Neu::Var(index))
    }
}

/// The value of a stuck value applied to an argument.
pub open spec fn stuck(head: Neu, argument: Val) -> Val {
    Val::Neutral(Neu::Apply(Box::new(head), Box::new(argument)))
}

/// The formatter of `std`, which the printed form of a shared pointer is written to.
#[verifier::external_type_specification]
#[verifier::external_body]
pub struct ExFormatter<'a>(std::fmt::Formatter<'a>);

/// The error of `std` that a formatter fails with.
#[verifier::external_type_specification]
#[verifier::external_body]
pub struct ExFormatError(std::fmt::Error);

impl std::fmt::Debug for SharedNeutral {
    /// Calls the `Debug` of `triomphe::Arc`, which prints what the pointer points to. Nothing
    /// is claimed of the text.
    #[verifier::external_body]
    fn fmt(&self, formatter: &mut std::fmt::Formatter<'_>) -> (result: Result<
        (),
        std::fmt::Error,
    >) {
        std::fmt::Debug::fmt(&self.pointer, formatter)
    }
}

impl std::fmt::Debug for SharedValue {
    /// Calls the `Debug` of `triomphe::Arc`, which prints what the pointer points to. Nothing
    /// is claimed of the text.
    #[verifier::external_body]
    fn fmt(&self, formatter: &mut std::fmt::Formatter<'_>) -> (result: Result<
        (),
        std::fmt::Error,
    >) {
        std::fmt::Debug::fmt(&self.pointer, formatter)
    }
}

impl Clone for Value {
    fn clone(&self) -> (copy: Value)
        ensures
            copy@ == self@,
    {
        match self {
            Value::Universe => Value::Universe,
            Value::Closure { body, env } => Value::Closure { body: *body, env: env.clone() },
            Value::Neutral(neutral) => Value::Neutral(neutral.clone()),
        }
    }
}

impl Clone for Neutral {
    fn clone(&self) -> (copy: Neutral)
        ensures
            copy@ == self@,
    {
        match self {
            Neutral::Var(index) => Neutral::Var(*index),
            Neutral::Apply(head, argument) => Neutral::Apply(head.clone(), argument.clone()),
        }
    }
}

impl Clone for SharedNeutral {
    /// Calls `triomphe::Arc::clone`. Claimed of it: the copy points to the same stuck value.
    #[verifier::external_body]
    fn clone(&self) -> (copy: SharedNeutral)
        ensures
            copy@ == self@,
    {
        SharedNeutral { pointer: self.pointer.clone() }
    }
}

impl Clone for SharedValue {
    /// Calls `triomphe::Arc::clone`. Claimed of it: the copy points to the same value.
    #[verifier::external_body]
    fn clone(&self) -> (copy: SharedValue)
        ensures
            copy@ == self@,
    {
        SharedValue { pointer: self.pointer.clone() }
    }
}

impl Clone for Env {
    /// Calls `triomphe::Arc::clone`. Claimed of it: the copy points to the same values.
    #[verifier::external_body]
    fn clone(&self) -> (copy: Env)
        ensures
            copy@ == self@,
    {
        Env { variables: self.variables.clone() }
    }
}

impl SharedNeutral {
    /// Calls `triomphe::Arc::new`. Claimed of it: the pointer points to the stuck value that
    /// was handed over.
    #[verifier::external_body]
    fn share(neutral: Neutral) -> (shared: SharedNeutral)
        ensures
            neutral_behind(shared) == neutral@,
    {
        SharedNeutral { pointer: triomphe::Arc::new(neutral) }
    }

    /// Calls the `Deref` of `triomphe::Arc`. Claimed of it: the reference is to the stuck
    /// value that the pointer points to.
    #[verifier::external_body]
    fn neutral(&self) -> (neutral: &Neutral)
        ensures
            neutral@ == neutral_behind(*self),
    {
        &*self.pointer
    }

    /// The stuck value that the pointer points to.
    pub fn get(&self) -> (neutral: Neutral)
        ensures
            neutral@ == self@,
    {
        self.neutral().clone()
    }
}

impl SharedValue {
    /// Calls `triomphe::Arc::new`. Claimed of it: the pointer points to the value that was
    /// handed over.
    #[verifier::external_body]
    fn share(value: Value) -> (shared: SharedValue)
        ensures
            value_behind(shared) == value@,
    {
        SharedValue { pointer: triomphe::Arc::new(value) }
    }

    /// Calls the `Deref` of `triomphe::Arc`. Claimed of it: the reference is to the value
    /// that the pointer points to.
    #[verifier::external_body]
    fn value(&self) -> (value: &Value)
        ensures
            value@ == value_behind(*self),
    {
        &*self.pointer
    }

    /// The value that the pointer points to.
    pub fn get(&self) -> (value: Value)
        ensures
            value@ == self@,
    {
        self.value().clone()
    }
}

impl Neutral {
    /// A stuck value applied to an argument.
    pub fn apply(head: Neutral, argument: Value) -> (neutral: Neutral)
        ensures
            Val::Neutral(neutral@) == stuck(head@, argument@),
            neutral@ == Neu::Apply(Box::new(head@), Box::new(argument@)),
    {
        Neutral::Apply(SharedNeutral::share(head), SharedValue::share(argument))
    }
}

impl Env {
    /// Calls `triomphe::Arc::new`. Claimed of it: the pointer points to the vector
    /// that was handed over.
    #[verifier::external_body]
    fn share(values: Vec<Value>) -> (env: Env)
        ensures
            env_values(env) == values_view(values@),
    {
        Env { variables: triomphe::Arc::new(values) }
    }

    /// Calls the `Deref` of `triomphe::Arc`. Claimed of it: the reference is to the
    /// vector that the pointer points to.
    #[verifier::external_body]
    fn values(&self) -> (values: &Vec<Value>)
        ensures
            values_view(values@) == env_values(*self),
    {
        &*self.variables
    }

    /// The environment without variables.
    pub fn new() -> (env: Env)
        ensures
            env@ == Seq::<Val>::empty(),
    {
        let env = Env::share(Vec::new());
        assert(env@ =~= Seq::<Val>::empty());
        env
    }

    /// This environment with one more variable, the innermost. This one is unchanged.
    pub fn extend(&self, value: Value) -> (env: Env)
        ensures
            env@ == self@.push(value@),
    {
        let mut values: Vec<Value> = self.values().clone();
        let ghost before = values@;
        assert(values_view(before) =~= self@) by {
            assert forall|i: int| 0 <= i < before.len() implies before[i]@ == self@[i] by {
                assert(values_view(before)[i] == before[i]@);
            }
        }
        values.push(value);
        assert(values_view(values@) =~= self@.push(value@));
        Env::share(values)
    }

    /// The value of a variable.
    pub fn lookup(&self, db_index: u32) -> (value: Value)
        ensures
            value@ == lookup_in(self@, db_index),
            db_index < self@.len() ==> value@ == self@[self@.len() - 1 - db_index],
            db_index >= self@.len() ==> value@ == Val::Neutral(Neu::Var(db_index)),
    {
        let values = self.values();
        let len: usize = values.len();
        if (db_index as usize) < len {
            let at: usize = len - 1 - db_index as usize;
            assert(values_view(values@)[at as int] == values@[at as int]@);
            values[at].clone()
        } else {
            Value::Neutral(Neutral::Var(db_index))
        }
    }
}

/// The innermost variable has the value that the environment was extended with last; every
/// other variable in scope moves out by one; a variable out of scope stands for itself.
pub proof fn law_lookup_after_extend(env: Seq<Val>, value: Val, index: u32)
    ensures
        lookup_in(env.push(value), 0) == value,
        index < env.len() && index < u32::MAX ==> lookup_in(env.push(value), (index + 1) as u32)
            == lookup_in(env, index),
        index >= env.len() ==> lookup_in(env, index) == Val::Neutral(Neu::Var(index)),
{
}

/// What each executable value stands for: the same constructor over what its parts, and
/// what its shared pointers point to, stand for.
pub proof fn law_meaning_of_values(
    body: CompactCid,
    env: Env,
    neutral: Neutral,
    index: u32,
    head: SharedNeutral,
    argument: SharedValue,
)
    ensures
        Value::Universe@ == Val::Universe,
        (Value::Closure { body, env })@ == (Val::Closure { body, env: env_values(env) }),
        Value::Neutral(neutral)@ == Val::Neutral(neutral@),
        Neutral::Var(index)@ == Neu::Var(index),
        Neutral::Apply(head, argument)@ == Neu::Apply(
            Box::new(neutral_behind(head)),
            Box::new(value_behind(argument)),
        ),
        env@ == env_values(env),
        head@ == neutral_behind(head),
        argument@ == value_behind(argument),
{
}

/// Values in a row stand for what each of them stands for, in the same order.
pub proof fn law_meaning_of_rows(values: Seq<Value>)
    ensures
        values_view(values).len() == values.len(),
        forall|i: int| 0 <= i < values.len() ==> #[trigger] values_view(values)[i] == values[i]@,
{
}

/// A variable is counted from the last value of the environment backwards; beyond the first
/// one it stands for itself. A stuck application has the head and the argument it was made
/// of.
pub proof fn law_variables_and_stuck_applications(
    env: Seq<Val>,
    index: u32,
    head: Neu,
    argument: Val,
)
    ensures
        forall|place: int|
            0 <= place < env.len() && place + index + 1 == env.len() ==> lookup_in(env, index)
                == #[trigger] env[place],
        index >= env.len() ==> lookup_in(env, index) == Val::Neutral(Neu::Var(index)),
        stuck(head, argument) == Val::Neutral(Neu::Apply(Box::new(head), Box::new(argument))),
{
}

} // verus!
