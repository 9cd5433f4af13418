//! What evaluation and read-back mean, over the mathematical values and the contents of
//! the store.

use vstd::prelude::*;

use crate::cid::CompactCid;
use crate::engine::{Fault, MemoEntry, Store};
use crate::node::Term;
use crate::value::{stuck, Neu, Val};

verus! {

/// The term that a value is written back as. A closure keeps its body alone, a stuck
/// application its argument alone.
pub open spec fn readback_term(value: Val) -> Term
    decreases value,
{
    match value {
        Val::Universe => Term::Universe,
        Val::Closure { body, .. } => Term::Lambda(body),
        Val::Neutral(Neu::Var(index)) => Term::BoundIndex(index),
        Val::Neutral(Neu::Apply(_, argument)) => Term::Apply(
            crate::node::cid_of(readback_term(*argument)),
        ),
    }
}

/// The entries that have to be in the store for that term to stand for the value: those
/// of the arguments of stuck applications, the innermost first.
pub open spec fn readback_entries(value: Val) -> Seq<(CompactCid, Seq<u8>)>
    decreases value,
{
    match value {
        Val::Neutral(Neu::Apply(_, argument)) => readback_entries(*argument).push(
            crate::engine::entry_of(readback_term(*argument)),
        ),
        _ => Seq::empty(),
    }
}

/// The entries that a result leaves in the store: those of its read-back, and the term
/// itself.
pub open spec fn result_entries(value: Val) -> Seq<(CompactCid, Seq<u8>)> {
    readback_entries(value).push(crate::engine::entry_of(readback_term(value)))
}

/// How an evaluation ends, and what the store holds then.
#[verifier::ext_equal]
pub ghost struct Outcome {
    pub result: Result<Val, Fault>,
    pub store: Store,
}

/// The store after a result for an argument was recorded.
pub open spec fn recorded(store: Store, arg_cid: CompactCid, value: Val) -> Store {
    store.put_all(result_entries(value)).put_memo(
        MemoEntry { input: arg_cid, output: crate::node::cid_of(readback_term(value)) },
    )
}

/// How a term evaluates in an environment, with applications nested at most `fuel` deep;
/// none if they are nested deeper.
///
/// An application looks its argument up. If a result is memoized for the identifier of
/// the argument, the node of that result is evaluated in its place. Otherwise the argument
/// is evaluated, and the innermost variable is applied to it: a closure is entered and its
/// result recorded, a stuck value gets stuck with one more argument, and the universe
/// cannot be applied.
pub open spec fn eval_to(fuel: nat, term: Term, env: Seq<Val>, store: Store) -> Option<Outcome>
    decreases fuel, 0nat,
{
    match term {
        Term::Universe => Some(Outcome { result: Ok(Val::Universe), store }),
        Term::BoundIndex(index) => Some(
            Outcome { result: Ok(crate::value::lookup_in(env, index)), store },
        ),
        Term::Lambda(body) => Some(Outcome { result: Ok(Val::Closure { body, env }), store }),
        Term::Apply(argument) => if fuel == 0 {
            None
        } else {
            match store.fetch(argument) {
                Err(fault) => Some(Outcome { result: Err(fault), store }),
                Ok(arg) => {
                    let arg_cid = crate::node::cid_of(arg);
                    match store.memoized(arg_cid) {
                        Some(cached) => match store.fetch(cached) {
                            Err(fault) => Some(Outcome { result: Err(fault), store }),
                            Ok(node) => eval_to((fuel - 1) as nat, node, env, store),
                        },
                        None => match eval_to((fuel - 1) as nat, arg, env, store) {
                            None => None,
                            Some(first) => match first.result {
                                Err(_) => Some(first),
                                Ok(value) => apply_innermost(
                                    (fuel - 1) as nat,
                                    arg_cid,
                                    env,
                                    value,
                                    first.store,
                                ),
                            },
                        },
                    }
                },
            }
        },
    }
}

/// How the innermost variable of an environment is applied to a value that the argument
/// with the given identifier evaluated to.
pub open spec fn apply_innermost(
    fuel: nat,
    arg_cid: CompactCid,
    env: Seq<Val>,
    value: Val,
    store: Store,
) -> Option<Outcome>
    decreases fuel, 2nat,
{
    match crate::value::lookup_in(env, 0) {
        Val::Closure { body, env: closure_env } => match apply_to(
            fuel,
            body,
            closure_env,
            value,
            store,
        ) {
            None => None,
            Some(second) => match second.result {
                Err(_) => Some(second),
                Ok(result) => Some(
                    Outcome { result: Ok(result), store: recorded(second.store, arg_cid, result) },
                ),
            },
        },
        Val::Universe => Some(Outcome { result: Err(Fault::UniverseApplied), store }),
        Val::Neutral(head) => Some(Outcome { result: Ok(stuck(head, value)), store }),
    }
}

/// How a closure is entered: its body is evaluated in its environment with the argument
/// as the innermost variable.
pub open spec fn apply_to(
    fuel: nat,
    body: CompactCid,
    env: Seq<Val>,
    argument: Val,
    store: Store,
) -> Option<Outcome>
    decreases fuel, 1nat,
{
    match store.fetch(body) {
        Err(fault) => Some(Outcome { result: Err(fault), store }),
        Ok(node) => eval_to(fuel, node, env.push(argument), store),
    }
}

/// A term evaluates to an outcome.
pub open spec fn evaluates(term: Term, env: Seq<Val>, store: Store, outcome: Outcome) -> bool {
    exists|fuel: nat| eval_to(fuel, term, env, store) == Some(outcome)
}

/// A closure applied to an argument evaluates to an outcome.
pub open spec fn applies(
    body: CompactCid,
    env: Seq<Val>,
    argument: Val,
    store: Store,
    outcome: Outcome,
) -> bool {
    exists|fuel: nat| apply_to(fuel, body, env, argument, store) == Some(outcome)
}

/// A deeper bound does not change how an evaluation ends.
pub proof fn lemma_eval_fuel(low: nat, high: nat, term: Term, env: Seq<Val>, store: Store)
    requires
        low <= high,
        eval_to(low, term, env, store) is Some,
    ensures
        eval_to(high, term, env, store) == eval_to(low, term, env, store),
    decreases low, 0nat,
{
    if let Term::Apply(argument) = term {
        if let Ok(arg) = store.fetch(argument) {
            let arg_cid = crate::node::cid_of(arg);
            let l = (low - 1) as nat;
            let h = (high - 1) as nat;
            match store.memoized(arg_cid) {
                Some(cached) => {
                    if let Ok(node) = store.fetch(cached) {
                        lemma_eval_fuel(l, h, node, env, store);
                    }
                },
                None => {
                    lemma_eval_fuel(l, h, arg, env, store);
                    let first = eval_to(l, arg, env, store)->Some_0;
                    if let Ok(value) = first.result {
                        lemma_apply_innermost_fuel(l, h, arg_cid, env, value, first.store);
                    }
                },
            }
        }
    }
}

/// A deeper bound does not change how a closure that is entered ends.
pub proof fn lemma_apply_fuel(
    low: nat,
    high: nat,
    body: CompactCid,
    env: Seq<Val>,
    argument: Val,
    store: Store,
)
    requires
        low <= high,
        apply_to(low, body, env, argument, store) is Some,
    ensures
        apply_to(high, body, env, argument, store) == apply_to(low, body, env, argument, store),
    decreases low, 1nat,
{
    if let Ok(node) = store.fetch(body) {
        lemma_eval_fuel(low, high, node, env.push(argument), store);
    }
}

/// A deeper bound does not change how the innermost variable is applied.
pub proof fn lemma_apply_innermost_fuel(
    low: nat,
    high: nat,
    arg_cid: CompactCid,
    env: Seq<Val>,
    value: Val,
    store: Store,
)
    requires
        low <= high,
        apply_innermost(low, arg_cid, env, value, store) is Some,
    ensures
        apply_innermost(high, arg_cid, env, value, store) == apply_innermost(
            low,
            arg_cid,
            env,
            value,
            store,
        ),
    decreases low, 2nat,
{
    if let Val::Closure { body, env: closure_env } = crate::value::lookup_in(env, 0) {
        lemma_apply_fuel(low, high, body, closure_env, value, store);
    }
}

/// An evaluation ends in one way only.
pub proof fn law_evaluation_is_deterministic(
    term: Term,
    env: Seq<Val>,
    store: Store,
    a: Outcome,
    b: Outcome,
)
    requires
        evaluates(term, env, store, a),
        evaluates(term, env, store, b),
    ensures
        a == b,
{
    let f = choose|fuel: nat| eval_to(fuel, term, env, store) == Some(a);
    let g = choose|fuel: nat| eval_to(fuel, term, env, store) == Some(b);
    if f <= g {
        lemma_eval_fuel(f, g, term, env, store);
    } else {
        lemma_eval_fuel(g, f, term, env, store);
    }
}

/// The application of a closure ends in one way only.
pub proof fn law_application_is_deterministic(
    body: CompactCid,
    env: Seq<Val>,
    argument: Val,
    store: Store,
    a: Outcome,
    b: Outcome,
)
    requires
        applies(body, env, argument, store, a),
        applies(body, env, argument, store, b),
    ensures
        a == b,
{
    let f = choose|fuel: nat| apply_to(fuel, body, env, argument, store) == Some(a);
    let g = choose|fuel: nat| apply_to(fuel, body, env, argument, store) == Some(b);
    if f <= g {
        lemma_apply_fuel(f, g, body, env, argument, store);
    } else {
        lemma_apply_fuel(g, f, body, env, argument, store);
    }
}

/// The identity, applied to any value, gives that value and writes nothing.
pub proof fn law_identity_returns_its_argument(
    body: CompactCid,
    env: Seq<Val>,
    argument: Val,
    store: Store,
)
    requires
        store.fetch(body) == Ok::<Term, Fault>(Term::BoundIndex(0)),
    ensures
        applies(body, env, argument, store, Outcome { result: Ok(argument), store }),
{
    assert(apply_to(0, body, env, argument, store) == Some(
        Outcome { result: Ok(argument), store },
    ));
}

/// A value that is not a stuck application evaluates back to itself from the term that it
/// is written back as: the universe anywhere, a closure in its own environment, a free
/// variable where it is out of scope.
pub proof fn law_readback_evaluates_back(value: Val, env: Seq<Val>, store: Store)
    requires
        match value {
            Val::Universe => true,
            Val::Closure { env: closure_env, .. } => env == closure_env,
            Val::Neutral(Neu::Var(index)) => index >= env.len(),
            Val::Neutral(Neu::Apply(_, _)) => false,
        },
    ensures
        evaluates(readback_term(value), env, store, Outcome { result: Ok(value), store }),
{
    assert(eval_to(0, readback_term(value), env, store) == Some(
        Outcome { result: Ok(value), store },
    ));
}

/// A stuck application evaluates back to itself where the innermost variable is its head,
/// its argument is in the store and evaluates back to itself, and nothing is memoized for
/// the argument.
pub proof fn law_stuck_application_evaluates_back(
    head: Neu,
    argument: Val,
    env: Seq<Val>,
    store: Store,
)
    requires
        crate::value::lookup_in(env, 0) == Val::Neutral(head),
        store.fetch(crate::node::cid_of(readback_term(argument))) == Ok::<Term, Fault>(
            readback_term(argument),
        ),
        store.memoized(crate::node::cid_of(readback_term(argument))) is None,
        evaluates(readback_term(argument), env, store, Outcome { result: Ok(argument), store }),
    ensures
        evaluates(
            readback_term(stuck(head, argument)),
            env,
            store,
            Outcome { result: Ok(stuck(head, argument)), store },
        ),
{
    let term = readback_term(argument);
    let cid = crate::node::cid_of(term);
    let value = stuck(head, argument);
    let fuel = choose|fuel: nat|
        eval_to(fuel, term, env, store) == Some(Outcome { result: Ok(argument), store });
    assert(apply_innermost(fuel, cid, env, argument, store) == Some(
        Outcome { result: Ok(value), store },
    ));
    assert(eval_to(fuel + 1, Term::Apply(cid), env, store) == Some(
        Outcome { result: Ok(value), store },
    ));
}

/// Once the entries of a read-back are written, the argument of a stuck application is
/// found under the identifier that the term holds.
pub proof fn law_readback_argument_is_stored(head: Neu, argument: Val, store: Store)
    ensures
        readback_term(stuck(head, argument)) matches Term::Apply(cid) && store.put_all(
            readback_entries(stuck(head, argument)),
        ).fetch(cid) == Ok::<Term, Fault>(readback_term(argument)),
{
    let entries = readback_entries(stuck(head, argument));
    assert(entries.last() == crate::engine::entry_of(readback_term(argument)));
    crate::engine::law_read_after_write(
        store.put_all(entries.drop_last()),
        readback_term(argument),
    );
}

/// Writing the entries of a read-back loses no key, keeps a store content addressed, keeps
/// a memo table grounded, and leaves the memo table as it was.
pub proof fn law_readback_preserves_store(value: Val, store: Store)
    ensures
        store.preserved_in(store.put_all(readback_entries(value))),
        store.put_all(readback_entries(value)).memo == store.memo,
    decreases value,
{
    if let Val::Neutral(Neu::Apply(_, argument)) = value {
        law_readback_preserves_store(*argument, store);
        let entries = readback_entries(value);
        assert(entries.drop_last() =~= readback_entries(*argument));
        crate::engine::law_save_preserves_store(
            store.put_all(entries.drop_last()),
            readback_term(*argument),
        );
    }
}

/// Recording a result loses no key, keeps a store content addressed and keeps a memo table
/// grounded; the result is then found under the identifier that is memoized for the argument.
pub proof fn law_record_preserves_store(store: Store, arg_cid: CompactCid, value: Val)
    ensures
        store.preserved_in(recorded(store, arg_cid, value)),
        recorded(store, arg_cid, value).memoized(arg_cid) == Some(
            crate::node::cid_of(readback_term(value)),
        ),
        recorded(store, arg_cid, value).fetch(crate::node::cid_of(readback_term(value))) == Ok::<
            Term,
            Fault,
        >(readback_term(value)),
{
    let term = readback_term(value);
    let entries = result_entries(value);
    let before = store.put_all(readback_entries(value));
    law_readback_preserves_store(value, store);
    assert(entries.drop_last() =~= readback_entries(value));
    assert(store.put_all(entries) == before.put(crate::engine::entry_of(term)));
    crate::engine::law_save_preserves_store(before, term);
    crate::engine::law_read_after_write(before, term);
    crate::engine::law_memo_preserves_store(
        store.put_all(entries),
        MemoEntry { input: arg_cid, output: crate::node::cid_of(term) },
    );
}

/// Evaluation with bounded nesting preserves the store.
proof fn lemma_eval_preserves_store(fuel: nat, term: Term, env: Seq<Val>, store: Store)
    ensures
        eval_to(fuel, term, env, store) matches Some(outcome) ==> {
            &&& store.preserved_in(outcome.store)
            &&& store.content_addressed() ==> outcome.result != Err::<Val, Fault>(
                Fault::CorruptNode,
            )
        },
    decreases fuel, 0nat,
{
    if let Term::Apply(argument) = term {
        if store.content_addressed() {
            crate::engine::law_content_addressed_fetch(store, argument);
        }
        if fuel > 0 && store.fetch(argument) is Ok {
            let arg = store.fetch(argument)->Ok_0;
            let arg_cid = crate::node::cid_of(arg);
            let less = (fuel - 1) as nat;
            match store.memoized(arg_cid) {
                Some(cached) => {
                    if store.content_addressed() {
                        crate::engine::law_content_addressed_fetch(store, cached);
                    }
                    if let Ok(node) = store.fetch(cached) {
                        lemma_eval_preserves_store(less, node, env, store);
                    }
                },
                None => {
                    lemma_eval_preserves_store(less, arg, env, store);
                    if let Some(first) = eval_to(less, arg, env, store) {
                        if let Ok(value) = first.result {
                            lemma_apply_innermost_preserves_store(
                                less,
                                arg_cid,
                                env,
                                value,
                                first.store,
                            );
                        }
                    }
                },
            }
        }
    }
}

/// Entering a closure with bounded nesting preserves the store.
proof fn lemma_apply_preserves_store(
    fuel: nat,
    body: CompactCid,
    env: Seq<Val>,
    argument: Val,
    store: Store,
)
    ensures
        apply_to(fuel, body, env, argument, store) matches Some(outcome) ==> {
            &&& store.preserved_in(outcome.store)
            &&& store.content_addressed() ==> outcome.result != Err::<Val, Fault>(
                Fault::CorruptNode,
            )
        },
    decreases fuel, 1nat,
{
    if store.content_addressed() {
        crate::engine::law_content_addressed_fetch(store, body);
    }
    if let Ok(node) = store.fetch(body) {
        lemma_eval_preserves_store(fuel, node, env.push(argument), store);
    }
}

/// Applying the innermost variable with bounded nesting preserves the store.
proof fn lemma_apply_innermost_preserves_store(
    fuel: nat,
    arg_cid: CompactCid,
    env: Seq<Val>,
    value: Val,
    store: Store,
)
    ensures
        apply_innermost(fuel, arg_cid, env, value, store) matches Some(outcome) ==> {
            &&& store.preserved_in(outcome.store)
            &&& store.content_addressed() ==> outcome.result != Err::<Val, Fault>(
                Fault::CorruptNode,
            )
        },
    decreases fuel, 2nat,
{
    if let Val::Closure { body, env: closure_env } = crate::value::lookup_in(env, 0) {
        lemma_apply_preserves_store(fuel, body, closure_env, value, store);
        if let Some(second) = apply_to(fuel, body, closure_env, value, store) {
            if let Ok(result) = second.result {
                law_record_preserves_store(second.store, arg_cid, result);
            }
        }
    }
}

/// Evaluation loses no key, keeps a store content addressed and keeps a memo table
/// grounded, whatever it ends with. Over a content-addressed store it never meets a corrupt
/// block.
pub proof fn law_evaluation_preserves_store(
    term: Term,
    env: Seq<Val>,
    store: Store,
    outcome: Outcome,
)
    requires
        evaluates(term, env, store, outcome),
    ensures
        store.preserved_in(outcome.store),
        store.content_addressed() ==> outcome.result != Err::<Val, Fault>(Fault::CorruptNode),
{
    let fuel = choose|fuel: nat| eval_to(fuel, term, env, store) == Some(outcome);
    lemma_eval_preserves_store(fuel, term, env, store);
}

/// The application of a closure preserves the store in the same way.
pub proof fn law_application_preserves_store(
    body: CompactCid,
    env: Seq<Val>,
    argument: Val,
    store: Store,
    outcome: Outcome,
)
    requires
        applies(body, env, argument, store, outcome),
    ensures
        store.preserved_in(outcome.store),
        store.content_addressed() ==> outcome.result != Err::<Val, Fault>(Fault::CorruptNode),
{
    let fuel = choose|fuel: nat| apply_to(fuel, body, env, argument, store) == Some(outcome);
    lemma_apply_preserves_store(fuel, body, env, argument, store);
}

/// Once a closure was applied to an argument and gave a value, the identifier of the term
/// that the value is written back as is memoized for the identifier of the argument, and
/// that term is in the store. This holds over any store.
pub proof fn law_application_is_recorded(
    argument: CompactCid,
    arg: Term,
    env: Seq<Val>,
    store: Store,
    first: Outcome,
    value: Val,
)
    requires
        store.fetch(argument) == Ok::<Term, Fault>(arg),
        store.memoized(crate::node::cid_of(arg)) is None,
        crate::value::lookup_in(env, 0) is Closure,
        evaluates(Term::Apply(argument), env, store, first),
        first.result == Ok::<Val, Fault>(value),
    ensures
        first.store.memoized(crate::node::cid_of(arg)) == Some(
            crate::node::cid_of(readback_term(value)),
        ),
        first.store.fetch(crate::node::cid_of(readback_term(value))) == Ok::<Term, Fault>(
            readback_term(value),
        ),
{
    let term = Term::Apply(argument);
    let arg_cid = crate::node::cid_of(arg);
    let fuel = choose|fuel: nat| eval_to(fuel, term, env, store) == Some(first);
    let less = (fuel - 1) as nat;
    let arg_first = eval_to(less, arg, env, store)->Some_0;
    let arg_value = arg_first.result->Ok_0;
    assert(apply_innermost(less, arg_cid, env, arg_value, arg_first.store) == Some(first));
    if let Val::Closure { body, env: closure_env } = crate::value::lookup_in(env, 0) {
        let second = apply_to(less, body, closure_env, arg_value, arg_first.store)->Some_0;
        assert(first.store == recorded(second.store, arg_cid, value));
        law_record_preserves_store(second.store, arg_cid, value);
    }
}

/// Where a result is memoized for the identifier of an argument and is in the store, an
/// application to that argument, in any environment, evaluates the node of the result.
pub proof fn law_memoized_application_evaluates_the_result(
    argument: CompactCid,
    arg: Term,
    cached: CompactCid,
    node: Term,
    env: Seq<Val>,
    store: Store,
    outcome: Outcome,
)
    requires
        store.fetch(argument) == Ok::<Term, Fault>(arg),
        store.memoized(crate::node::cid_of(arg)) == Some(cached),
        store.fetch(cached) == Ok::<Term, Fault>(node),
    ensures
        evaluates(Term::Apply(argument), env, store, outcome) <==> evaluates(
            node,
            env,
            store,
            outcome,
        ),
{
    let term = Term::Apply(argument);
    if evaluates(term, env, store, outcome) {
        let f = choose|fuel: nat| eval_to(fuel, term, env, store) == Some(outcome);
        assert(eval_to((f - 1) as nat, node, env, store) == Some(outcome));
    }
    if evaluates(node, env, store, outcome) {
        let f = choose|fuel: nat| eval_to(fuel, node, env, store) == Some(outcome);
        assert(eval_to(f + 1, term, env, store) == Some(outcome));
    }
}

/// Once a closure was applied to an argument over a content-addressed store and gave a
/// value, every later application to the same argument, in any environment, evaluates the
/// term that the value was written back as.
pub proof fn law_application_is_memoized(
    argument: CompactCid,
    env: Seq<Val>,
    store: Store,
    first: Outcome,
    value: Val,
    later_env: Seq<Val>,
    outcome: Outcome,
)
    requires
        store.content_addressed(),
        store.memoized(argument) is None,
        crate::value::lookup_in(env, 0) is Closure,
        evaluates(Term::Apply(argument), env, store, first),
        first.result == Ok::<Val, Fault>(value),
    ensures
        first.store.memoized(argument) == Some(crate::node::cid_of(readback_term(value))),
        evaluates(Term::Apply(argument), later_env, first.store, outcome) <==> evaluates(
            readback_term(value),
            later_env,
            first.store,
            outcome,
        ),
{
    let fuel = choose|fuel: nat|
        eval_to(fuel, Term::Apply(argument), env, store) == Some(first);
    crate::engine::law_content_addressed_fetch(store, argument);
    assert(store.fetch(argument) is Ok);
    law_application_is_recorded(
        argument,
        store.fetch(argument)->Ok_0,
        env,
        store,
        first,
        value,
    );
    law_evaluation_preserves_store(Term::Apply(argument), env, store, first);
    crate::engine::law_content_addressed_fetch(first.store, argument);
    law_memoized_application_evaluates_the_result(
        argument,
        first.store.fetch(argument)->Ok_0,
        crate::node::cid_of(readback_term(value)),
        readback_term(value),
        later_env,
        first.store,
        outcome,
    );
}

/// The universe, an abstraction and a variable evaluate at once and leave the store as it
/// is. An abstraction takes the environment along; a variable is counted from the last value
/// of the environment backwards, and beyond the first one it stands for itself.
pub proof fn law_evaluation_of_what_is_at_hand(
    body: CompactCid,
    index: u32,
    env: Seq<Val>,
    store: Store,
    outcome: Outcome,
)
    ensures
        evaluates(Term::Universe, env, store, outcome) <==> outcome.result == Ok::<Val, Fault>(
            Val::Universe,
        ) && outcome.store == store,
        evaluates(Term::Lambda(body), env, store, outcome) <==> outcome.result == Ok::<Val, Fault>(
            Val::Closure { body, env },
        ) && outcome.store == store,
        index < env.len() ==> (evaluates(Term::BoundIndex(index), env, store, outcome)
            <==> outcome.result == Ok::<Val, Fault>(env[env.len() - 1 - index]) && outcome.store
            == store),
        index >= env.len() ==> (evaluates(Term::BoundIndex(index), env, store, outcome)
            <==> outcome.result == Ok::<Val, Fault>(Val::Neutral(Neu::Var(index)))
            && outcome.store == store),
{
    assert(eval_to(0, Term::Universe, env, store) is Some);
    assert(eval_to(0, Term::Lambda(body), env, store) is Some);
    assert(eval_to(0, Term::BoundIndex(index), env, store) is Some);
}

/// An application whose argument is missing, or is no node, fails for that reason and leaves
/// the store as it is. So does one for whose argument a result is memoized that is missing or
/// is no node.
pub proof fn law_application_over_a_broken_store(
    argument: CompactCid,
    env: Seq<Val>,
    store: Store,
    outcome: Outcome,
)
    ensures
        !store.cas.contains_key(argument) ==> (evaluates(
            Term::Apply(argument),
            env,
            store,
            outcome,
        ) <==> outcome.result == Err::<Val, Fault>(Fault::MissingNode) && outcome.store == store),
        store.cas.contains_key(argument) && store.cas[argument].len() == 32
            && store.cas[argument][0] > 3 ==> (evaluates(
            Term::Apply(argument),
            env,
            store,
            outcome,
        ) <==> outcome.result == Err::<Val, Fault>(Fault::CorruptNode) && outcome.store == store),
        store.fetch(argument) matches Ok(arg) ==> store.memo.contains_key(
            crate::node::cid_of(arg),
        ) ==> {
            let cached = store.memo[crate::node::cid_of(arg)];
            &&& !store.cas.contains_key(cached) ==> (evaluates(
                Term::Apply(argument),
                env,
                store,
                outcome,
            ) <==> outcome.result == Err::<Val, Fault>(Fault::MissingNode) && outcome.store
                == store)
            &&& store.cas.contains_key(cached) && store.cas[cached].len() == 32
                && store.cas[cached][0] > 3 ==> (evaluates(
                Term::Apply(argument),
                env,
                store,
                outcome,
            ) <==> outcome.result == Err::<Val, Fault>(Fault::CorruptNode) && outcome.store
                == store)
        },
{
    let entry = crate::engine::entry_of(Term::Universe);
    let line = MemoEntry { input: argument, output: argument };
    crate::engine::law_tables(store, argument, entry, line);
    assert(store.fetch(argument) is Err ==> eval_to(1, Term::Apply(argument), env, store)
        is Some);
    if let Ok(arg) = store.fetch(argument) {
        if store.memo.contains_key(crate::node::cid_of(arg)) {
            let cached = store.memo[crate::node::cid_of(arg)];
            crate::engine::law_tables(store, cached, entry, line);
            assert(store.memoized(crate::node::cid_of(arg)) == Some(cached));
            assert(store.fetch(cached) is Err ==> eval_to(
                1,
                Term::Apply(argument),
                env,
                store,
            ) is Some);
        }
    }
}

/// Where nothing is memoized for the argument, an application ends only where its argument
/// does, and ends as the argument did where that failed.
pub proof fn law_application_evaluates_its_argument(
    argument: CompactCid,
    arg: Term,
    env: Seq<Val>,
    store: Store,
    outcome: Outcome,
)
    requires
        store.fetch(argument) == Ok::<Term, Fault>(arg),
        !store.memo.contains_key(crate::node::cid_of(arg)),
    ensures
        evaluates(Term::Apply(argument), env, store, outcome) ==> exists|first: Outcome|
            #[trigger] evaluates(arg, env, store, first),
        forall|first: Outcome| #[trigger]
            evaluates(arg, env, store, first) && first.result is Err ==> (evaluates(
                Term::Apply(argument),
                env,
                store,
                outcome,
            ) <==> outcome == first),
{
    let term = Term::Apply(argument);
    assert(store.memoized(crate::node::cid_of(arg)) is None);
    if evaluates(term, env, store, outcome) {
        let f = choose|fuel: nat| eval_to(fuel, term, env, store) == Some(outcome);
        let less = (f - 1) as nat;
        assert(eval_to(less, arg, env, store) is Some);
        let first = eval_to(less, arg, env, store)->Some_0;
        assert(evaluates(arg, env, store, first));
    }
    assert forall|first: Outcome| #[trigger]
        evaluates(arg, env, store, first) && first.result is Err implies (evaluates(
        term,
        env,
        store,
        outcome,
    ) <==> outcome == first) by {
        let f = choose|fuel: nat| eval_to(fuel, arg, env, store) == Some(first);
        assert(eval_to(f + 1, term, env, store) == Some(first));
        if evaluates(term, env, store, outcome) {
            law_evaluation_is_deterministic(term, env, store, outcome, first);
        }
    }
}

/// Where nothing is memoized for the argument and the argument has a value, an application
/// ends as the innermost variable does that is applied to that value.
proof fn lemma_application_by_innermost(
    argument: CompactCid,
    arg: Term,
    env: Seq<Val>,
    store: Store,
    first: Outcome,
    value: Val,
    outcome: Outcome,
)
    requires
        store.fetch(argument) == Ok::<Term, Fault>(arg),
        !store.memo.contains_key(crate::node::cid_of(arg)),
        evaluates(arg, env, store, first),
        first.result == Ok::<Val, Fault>(value),
    ensures
        evaluates(Term::Apply(argument), env, store, outcome) <==> exists|fuel: nat|
            apply_innermost(fuel, crate::node::cid_of(arg), env, value, first.store) == Some(
                outcome,
            ),
{
    let term = Term::Apply(argument);
    let arg_cid = crate::node::cid_of(arg);
    assert(store.memoized(arg_cid) is None);
    let g = choose|fuel: nat| eval_to(fuel, arg, env, store) == Some(first);
    if evaluates(term, env, store, outcome) {
        let f = choose|fuel: nat| eval_to(fuel, term, env, store) == Some(outcome);
        let less = (f - 1) as nat;
        assert(eval_to(less, arg, env, store) is Some);
        let found = eval_to(less, arg, env, store)->Some_0;
        assert(evaluates(arg, env, store, found));
        law_evaluation_is_deterministic(arg, env, store, found, first);
        assert(apply_innermost(less, arg_cid, env, value, first.store) == Some(outcome));
    }
    if exists|fuel: nat|
        apply_innermost(fuel, arg_cid, env, value, first.store) == Some(outcome) {
        let h = choose|fuel: nat|
            apply_innermost(fuel, arg_cid, env, value, first.store) == Some(outcome);
        let most = if g <= h {
            h
        } else {
            g
        };
        lemma_eval_fuel(g, most, arg, env, store);
        lemma_apply_innermost_fuel(h, most, arg_cid, env, value, first.store);
        assert(eval_to(most + 1, term, env, store) == Some(outcome));
    }
}

/// Where the innermost variable is no closure, an application to an argument with a value
/// writes nothing: a stuck value gets stuck with that value as one more argument, and so does
/// the variable itself where the environment is empty; the universe cannot be applied.
pub proof fn law_application_without_a_closure(
    argument: CompactCid,
    arg: Term,
    env: Seq<Val>,
    store: Store,
    first: Outcome,
    value: Val,
    outcome: Outcome,
)
    requires
        store.fetch(argument) == Ok::<Term, Fault>(arg),
        !store.memo.contains_key(crate::node::cid_of(arg)),
        evaluates(arg, env, store, first),
        first.result == Ok::<Val, Fault>(value),
    ensures
        env.len() == 0 ==> (evaluates(Term::Apply(argument), env, store, outcome)
            <==> outcome.result == Ok::<Val, Fault>(
            Val::Neutral(Neu::Apply(Box::new(Neu::Var(0)), Box::new(value))),
        ) && outcome.store == first.store),
        env.len() > 0 ==> (env[env.len() - 1] matches Val::Neutral(head) ==> (evaluates(
            Term::Apply(argument),
            env,
            store,
            outcome,
        ) <==> outcome.result == Ok::<Val, Fault>(
            Val::Neutral(Neu::Apply(Box::new(head), Box::new(value))),
        ) && outcome.store == first.store)),
        env.len() > 0 && env[env.len() - 1] == Val::Universe ==> (evaluates(
            Term::Apply(argument),
            env,
            store,
            outcome,
        ) <==> outcome.result == Err::<Val, Fault>(Fault::UniverseApplied) && outcome.store
            == first.store),
{
    let arg_cid = crate::node::cid_of(arg);
    lemma_application_by_innermost(argument, arg, env, store, first, value, outcome);
    if !(crate::value::lookup_in(env, 0) is Closure) {
        let ended = apply_innermost(0, arg_cid, env, value, first.store);
        assert(ended is Some);
        assert(forall|fuel: nat| #[trigger]
            apply_innermost(fuel, arg_cid, env, value, first.store) == ended);
    }
}

/// Where the innermost variable is a closure, an application to an argument with a value
/// ends exactly as the body of the closure does, in the environment that the closure captured
/// with that value as the innermost variable. A result is recorded: its read-back and its
/// term are written, and the identifier of the term is memoized for that of the argument.
/// A body that is missing, or is no node, fails the application.
pub proof fn law_beta(
    argument: CompactCid,
    arg: Term,
    env: Seq<Val>,
    store: Store,
    first: Outcome,
    value: Val,
    body: CompactCid,
    captured: Seq<Val>,
    outcome: Outcome,
)
    requires
        store.fetch(argument) == Ok::<Term, Fault>(arg),
        !store.memo.contains_key(crate::node::cid_of(arg)),
        evaluates(arg, env, store, first),
        first.result == Ok::<Val, Fault>(value),
        env.len() > 0,
        env[env.len() - 1] == (Val::Closure { body, env: captured }),
    ensures
        first.store.fetch(body) matches Ok(inside) ==> (evaluates(
            Term::Apply(argument),
            env,
            store,
            outcome,
        ) <==> exists|second: Outcome| #[trigger]
            evaluates(inside, captured.push(value), first.store, second) && outcome.result
                == second.result && match second.result {
                Err(_) => outcome.store == second.store,
                Ok(result) => {
                    let term = readback_term(result);
                    &&& outcome.store.cas == second.store.put_all(
                        readback_entries(result),
                    ).cas.insert(crate::node::cid_of(term), crate::node::encode(term))
                    &&& outcome.store.memo == second.store.memo.insert(
                        crate::node::cid_of(arg),
                        crate::node::cid_of(term),
                    )
                },
            }),
        !first.store.cas.contains_key(body) ==> (evaluates(
            Term::Apply(argument),
            env,
            store,
            outcome,
        ) <==> outcome.result == Err::<Val, Fault>(Fault::MissingNode) && outcome.store
            == first.store),
        first.store.cas.contains_key(body) && first.store.cas[body].len() == 32
            && first.store.cas[body][0] > 3 ==> (evaluates(
            Term::Apply(argument),
            env,
            store,
            outcome,
        ) <==> outcome.result == Err::<Val, Fault>(Fault::CorruptNode) && outcome.store
            == first.store),
{
    let arg_cid = crate::node::cid_of(arg);
    let s = first.store;
    lemma_application_by_innermost(argument, arg, env, store, first, value, outcome);
    crate::engine::law_tables(
        s,
        body,
        crate::engine::entry_of(Term::Universe),
        MemoEntry { input: argument, output: argument },
    );
    assert(crate::value::lookup_in(env, 0) == (Val::Closure { body, env: captured }));
    match s.fetch(body) {
        Err(fault) => {
            let ended = Outcome { result: Err::<Val, Fault>(fault), store: s };
            assert forall|fuel: nat| #[trigger]
                apply_innermost(fuel, arg_cid, env, value, s) == Some(ended) by {
                assert(apply_to(fuel, body, captured, value, s) == Some(ended));
            }
            assert(apply_innermost(0, arg_cid, env, value, s) == Some(ended));
        },
        Ok(inside) => {
            if exists|fuel: nat| apply_innermost(fuel, arg_cid, env, value, s) == Some(outcome) {
                let f = choose|fuel: nat|
                    apply_innermost(fuel, arg_cid, env, value, s) == Some(outcome);
                let second = apply_to(f, body, captured, value, s)->Some_0;
                assert(eval_to(f, inside, captured.push(value), s) == Some(second));
                assert(evaluates(inside, captured.push(value), s, second));
                if let Ok(result) = second.result {
                    lemma_recorded(second.store, arg_cid, result);
                }
            }
            assert forall|second: Outcome| #[trigger]
                evaluates(inside, captured.push(value), s, second) && outcome.result
                    == second.result && match second.result {
                    Err(_) => outcome.store == second.store,
                    Ok(result) => {
                        let term = readback_term(result);
                        &&& outcome.store.cas == second.store.put_all(
                            readback_entries(result),
                        ).cas.insert(crate::node::cid_of(term), crate::node::encode(term))
                        &&& outcome.store.memo == second.store.memo.insert(
                            arg_cid,
                            crate::node::cid_of(term),
                        )
                    },
                } implies exists|fuel: nat|
                apply_innermost(fuel, arg_cid, env, value, s) == Some(outcome) by {
                let f = choose|fuel: nat|
                    eval_to(fuel, inside, captured.push(value), s) == Some(second);
                assert(apply_to(f, body, captured, value, s) == Some(second));
                if let Ok(result) = second.result {
                    lemma_recorded(second.store, arg_cid, result);
                    assert(outcome.store =~= recorded(second.store, arg_cid, result));
                }
                assert(apply_innermost(f, arg_cid, env, value, s) == Some(outcome));
            }
        },
    }
}

/// What recording a result does to the two tables.
proof fn lemma_recorded(store: Store, arg_cid: CompactCid, value: Val)
    ensures
        recorded(store, arg_cid, value).cas == store.put_all(readback_entries(value)).cas.insert(
            crate::node::cid_of(readback_term(value)),
            crate::node::encode(readback_term(value)),
        ),
        recorded(store, arg_cid, value).memo == store.memo.insert(
            arg_cid,
            crate::node::cid_of(readback_term(value)),
        ),
{
    law_readback_preserves_store(value, store);
    assert(result_entries(value).drop_last() =~= readback_entries(value));
}

/// An application of a closure to an argument with a value has a value exactly if the body
/// has that value in the environment that the closure captured, with the value of the
/// argument as the innermost variable.
pub proof fn law_beta_values(
    argument: CompactCid,
    arg: Term,
    env: Seq<Val>,
    store: Store,
    first: Outcome,
    value: Val,
    body: CompactCid,
    captured: Seq<Val>,
    inside: Term,
    result: Result<Val, Fault>,
)
    requires
        store.fetch(argument) == Ok::<Term, Fault>(arg),
        !store.memo.contains_key(crate::node::cid_of(arg)),
        evaluates(arg, env, store, first),
        first.result == Ok::<Val, Fault>(value),
        env.len() > 0,
        env[env.len() - 1] == (Val::Closure { body, env: captured }),
        first.store.fetch(body) == Ok::<Term, Fault>(inside),
    ensures
        (exists|outcome: Outcome| #[trigger]
            evaluates(Term::Apply(argument), env, store, outcome) && outcome.result == result)
            <==> (exists|second: Outcome| #[trigger]
            evaluates(inside, captured.push(value), first.store, second) && second.result
                == result),
{
    if exists|outcome: Outcome| #[trigger]
        evaluates(Term::Apply(argument), env, store, outcome) && outcome.result == result {
        let outcome = choose|outcome: Outcome| #[trigger]
            evaluates(Term::Apply(argument), env, store, outcome) && outcome.result == result;
        law_beta(argument, arg, env, store, first, value, body, captured, outcome);
    }
    if exists|second: Outcome| #[trigger]
        evaluates(inside, captured.push(value), first.store, second) && second.result == result {
        let second = choose|second: Outcome| #[trigger]
            evaluates(inside, captured.push(value), first.store, second) && second.result
                == result;
        let after = match result {
            Err(_) => second.store,
            Ok(found) => recorded(second.store, crate::node::cid_of(arg), found),
        };
        let outcome = Outcome { result, store: after };
        if let Ok(found) = result {
            lemma_recorded(second.store, crate::node::cid_of(arg), found);
        }
        law_beta(argument, arg, env, store, first, value, body, captured, outcome);
        assert(evaluates(Term::Apply(argument), env, store, outcome));
    }
}

/// A closure whose body is a variable gives back what that variable stands for: the argument
/// for the innermost one, a captured value for the ones behind it, and the variable itself
/// for one that nothing was captured for.
pub proof fn law_closure_reads_what_it_captured(
    argument: CompactCid,
    arg: Term,
    env: Seq<Val>,
    store: Store,
    first: Outcome,
    value: Val,
    body: CompactCid,
    captured: Seq<Val>,
    index: u32,
)
    requires
        store.fetch(argument) == Ok::<Term, Fault>(arg),
        !store.memo.contains_key(crate::node::cid_of(arg)),
        evaluates(arg, env, store, first),
        first.result == Ok::<Val, Fault>(value),
        env.len() > 0,
        env[env.len() - 1] == (Val::Closure { body, env: captured }),
        first.store.fetch(body) == Ok::<Term, Fault>(Term::BoundIndex(index)),
    ensures
        exists|outcome: Outcome| #[trigger]
            evaluates(Term::Apply(argument), env, store, outcome) && outcome.result == Ok::<
                Val,
                Fault,
            >(
                if index == 0 {
                    value
                } else if index <= captured.len() {
                    captured[captured.len() - index]
                } else {
                    Val::Neutral(Neu::Var(index))
                },
            ),
{
    let result = Ok::<Val, Fault>(
        if index == 0 {
            value
        } else if index <= captured.len() {
            captured[captured.len() - index]
        } else {
            Val::Neutral(Neu::Var(index))
        },
    );
    let second = Outcome { result, store: first.store };
    law_evaluation_of_what_is_at_hand(body, index, captured.push(value), first.store, second);
    assert(evaluates(Term::BoundIndex(index), captured.push(value), first.store, second));
    law_beta_values(
        argument,
        arg,
        env,
        store,
        first,
        value,
        body,
        captured,
        Term::BoundIndex(index),
        result,
    );
}

/// A closure applied to an argument ends exactly as its body does, in the environment that
/// it captured with the argument as the innermost variable. A body that is missing, or is no
/// node, fails it.
pub proof fn law_application_evaluates_the_body(
    body: CompactCid,
    captured: Seq<Val>,
    argument: Val,
    store: Store,
    outcome: Outcome,
)
    ensures
        store.fetch(body) matches Ok(inside) ==> (applies(
            body,
            captured,
            argument,
            store,
            outcome,
        ) <==> evaluates(inside, captured.push(argument), store, outcome)),
        !store.cas.contains_key(body) ==> (applies(body, captured, argument, store, outcome)
            <==> outcome.result == Err::<Val, Fault>(Fault::MissingNode) && outcome.store
            == store),
        store.cas.contains_key(body) && store.cas[body].len() == 32 && store.cas[body][0] > 3
            ==> (applies(body, captured, argument, store, outcome) <==> outcome.result == Err::<
            Val,
            Fault,
        >(Fault::CorruptNode) && outcome.store == store),
{
    crate::engine::law_tables(
        store,
        body,
        crate::engine::entry_of(Term::Universe),
        MemoEntry { input: body, output: body },
    );
    match store.fetch(body) {
        Err(_) => {
            assert(apply_to(0, body, captured, argument, store) is Some);
        },
        Ok(inside) => {
            if applies(body, captured, argument, store, outcome) {
                let f = choose|fuel: nat|
                    apply_to(fuel, body, captured, argument, store) == Some(outcome);
                assert(eval_to(f, inside, captured.push(argument), store) == Some(outcome));
            }
            if evaluates(inside, captured.push(argument), store, outcome) {
                let f = choose|fuel: nat|
                    eval_to(fuel, inside, captured.push(argument), store) == Some(outcome);
                assert(apply_to(f, body, captured, argument, store) == Some(outcome));
            }
        },
    }
}

/// No bound is deep enough for applications that need one another in a circle.
proof fn lemma_circle_is_not_bounded(
    fuel: nat,
    circle: Set<(Term, Seq<Val>, Store)>,
    term: Term,
    env: Seq<Val>,
    store: Store,
)
    requires
        circle.contains((term, env, store)),
        forall|t: Term, e: Seq<Val>, s: Store| #[trigger]
            circle.contains((t, e, s)) ==> needs_another(circle, t, e, s),
    ensures
        eval_to(fuel, term, env, store) is None,
    decreases fuel,
{
    assert(needs_another(circle, term, env, store));
    if fuel > 0 {
        let less = (fuel - 1) as nat;
        let argument = term->Apply_0;
        let arg = store.fetch(argument)->Ok_0;
        let arg_cid = crate::node::cid_of(arg);
        if store.memo.contains_key(arg_cid) {
            let node = store.fetch(store.memo[arg_cid])->Ok_0;
            assert(store.memoized(arg_cid) == Some(store.memo[arg_cid]));
            lemma_circle_is_not_bounded(less, circle, node, env, store);
        } else {
            assert(store.memoized(arg_cid) is None);
            if circle.contains((arg, env, store)) {
                lemma_circle_is_not_bounded(less, circle, arg, env, store);
            } else if let Some(found) = eval_to(less, arg, env, store) {
                let first = choose|first: Outcome| #[trigger]
                    evaluates(arg, env, store, first) && needs_its_body(circle, env, first);
                assert(evaluates(arg, env, store, found));
                law_evaluation_is_deterministic(arg, env, store, found, first);
                let value = first.result->Ok_0;
                let body = env[env.len() - 1]->body;
                let captured = env[env.len() - 1]->Closure_env;
                let inside = first.store.fetch(body)->Ok_0;
                lemma_circle_is_not_bounded(
                    less,
                    circle,
                    inside,
                    captured.push(value),
                    first.store,
                );
                assert(apply_to(less, body, captured, value, first.store) is None);
                assert(apply_innermost(less, arg_cid, env, value, first.store) is None);
            }
        }
    }
}

/// The innermost variable is a closure, and its body, applied to what the argument evaluated
/// to, is one of the given evaluations.
spec fn needs_its_body(
    circle: Set<(Term, Seq<Val>, Store)>,
    env: Seq<Val>,
    first: Outcome,
) -> bool {
    &&& first.result is Ok
    &&& env.len() > 0
    &&& env[env.len() - 1] matches Val::Closure { body, env: captured } && {
        &&& first.store.fetch(body) is Ok
        &&& circle.contains(
            (first.store.fetch(body)->Ok_0, captured.push(first.result->Ok_0), first.store),
        )
    }
}

/// An evaluation needs one of the given evaluations to end before it can: that of the node
/// that is memoized for its argument, that of its argument, or that of the body of the
/// closure that it applies.
spec fn needs_another(
    circle: Set<(Term, Seq<Val>, Store)>,
    term: Term,
    env: Seq<Val>,
    store: Store,
) -> bool {
    term matches Term::Apply(argument) && store.fetch(argument) matches Ok(arg) && {
        let arg_cid = crate::node::cid_of(arg);
        if store.memo.contains_key(arg_cid) {
            store.fetch(store.memo[arg_cid]) matches Ok(node) && circle.contains(
                (node, env, store),
            )
        } else {
            circle.contains((arg, env, store)) || exists|first: Outcome| #[trigger]
                evaluates(arg, env, store, first) && needs_its_body(circle, env, first)
        }
    }
}

/// Evaluations of which each needs another one of them do not end: each is an application
/// that needs the node that is memoized for its argument, or its argument, or the body of the
/// closure that it applies.
pub proof fn law_circles_do_not_end(
    circle: Set<(Term, Seq<Val>, Store)>,
    term: Term,
    env: Seq<Val>,
    store: Store,
    outcome: Outcome,
)
    requires
        circle.contains((term, env, store)),
        forall|t: Term, e: Seq<Val>, s: Store| #[trigger]
            circle.contains((t, e, s)) ==> (t matches Term::Apply(argument) && s.fetch(
                argument,
            ) matches Ok(arg) && if s.memo.contains_key(crate::node::cid_of(arg)) {
                s.fetch(s.memo[crate::node::cid_of(arg)]) matches Ok(node) && circle.contains(
                    (node, e, s),
                )
            } else {
                circle.contains((arg, e, s)) || exists|first: Outcome| #[trigger]
                    evaluates(arg, e, s, first) && e.len() > 0 && match (first.result, e[e.len() - 1]) {
                        (Ok(value), Val::Closure { body, env: captured }) => first.store.fetch(
                            body,
                        ) matches Ok(inside) && circle.contains(
                            (inside, captured.push(value), first.store),
                        ),
                        _ => false,
                    }
            }),
    ensures
        !evaluates(term, env, store, outcome),
{
    assert forall|t: Term, e: Seq<Val>, s: Store| #[trigger]
        circle.contains((t, e, s)) implies needs_another(circle, t, e, s) by {
        let arg = s.fetch(t->Apply_0)->Ok_0;
        if !s.memo.contains_key(crate::node::cid_of(arg)) && !circle.contains((arg, e, s)) {
            let first = choose|first: Outcome| #[trigger]
                evaluates(arg, e, s, first) && e.len() > 0 && match (first.result, e[e.len() - 1]) {
                    (Ok(value), Val::Closure { body, env: captured }) => first.store.fetch(
                        body,
                    ) matches Ok(inside) && circle.contains(
                        (inside, captured.push(value), first.store),
                    ),
                    _ => false,
                };
            assert(needs_its_body(circle, e, first));
        }
    }
    assert forall|fuel: nat| eval_to(fuel, term, env, store) != Some(outcome) by {
        lemma_circle_is_not_bounded(fuel, circle, term, env, store);
    }
}

/// What each value is written back as. A closure is written by its body, a stuck application
/// by the identifier of what its argument is written back as.
pub proof fn law_readback_of_each_value(
    body: CompactCid,
    env: Seq<Val>,
    index: u32,
    head: Neu,
    argument: Val,
)
    ensures
        readback_term(Val::Universe) == Term::Universe,
        readback_term(Val::Closure { body, env }) == Term::Lambda(body),
        readback_term(Val::Neutral(Neu::Var(index))) == Term::BoundIndex(index),
        readback_term(Val::Neutral(Neu::Apply(Box::new(head), Box::new(argument))))
            == Term::Apply(crate::node::cid_of(readback_term(argument))),
{
}

/// A read-back writes every argument that is reached by taking arguments of stuck
/// applications one or more times, the innermost first, each under its own identifier, and
/// nothing else.
pub proof fn law_readback_writes_every_argument(chain: Seq<Val>)
    requires
        chain.len() > 0,
        forall|i: int|
            0 <= i < chain.len() - 1 ==> (#[trigger] chain[i] matches Val::Neutral(
                Neu::Apply(_, argument),
            ) && *argument == chain[i + 1]),
        !(chain[chain.len() - 1] matches Val::Neutral(Neu::Apply(_, _))),
    ensures
        readback_entries(chain[0]).len() == chain.len() - 1,
        forall|i: int|
            1 <= i < chain.len() ==> readback_entries(chain[0])[chain.len() - 1 - i] == (
                crate::node::cid_of(readback_term(#[trigger] chain[i])),
                crate::node::encode(readback_term(chain[i])),
            ),
    decreases chain.len(),
{
    if chain.len() > 1 {
        let rest = chain.skip(1);
        assert(chain[0] matches Val::Neutral(Neu::Apply(_, argument)) && *argument == chain[1]);
        assert forall|i: int| 0 <= i < rest.len() - 1 implies (#[trigger] rest[i] matches Val::Neutral(
            Neu::Apply(_, argument),
        ) && *argument == rest[i + 1]) by {
            assert(rest[i] == chain[i + 1]);
            assert(rest[i + 1] == chain[i + 2]);
        }
        assert(rest[rest.len() - 1] == chain[chain.len() - 1]);
        law_readback_writes_every_argument(rest);
        assert(rest[0] == chain[1]);
        assert(readback_entries(chain[0]) == readback_entries(rest[0]).push(
            crate::engine::entry_of(readback_term(rest[0])),
        ));
        assert forall|i: int| 1 <= i < chain.len() implies readback_entries(chain[0])[chain.len()
            - 1 - i] == (
            crate::node::cid_of(readback_term(#[trigger] chain[i])),
            crate::node::encode(readback_term(chain[i])),
        ) by {
            if i > 1 {
                assert(rest[i - 1] == chain[i]);
            }
        }
    }
}

/// Every value has such a chain of arguments, which starts with it.
pub proof fn law_every_value_has_its_arguments(value: Val) -> (chain: Seq<Val>)
    ensures
        chain.len() > 0,
        chain[0] == value,
        forall|i: int|
            0 <= i < chain.len() - 1 ==> (#[trigger] chain[i] matches Val::Neutral(
                Neu::Apply(_, argument),
            ) && *argument == chain[i + 1]),
        !(chain[chain.len() - 1] matches Val::Neutral(Neu::Apply(_, _))),
    decreases value,
{
    match value {
        Val::Neutral(Neu::Apply(_, argument)) => {
            let rest = law_every_value_has_its_arguments(*argument);
            let chain = seq![value] + rest;
            assert forall|i: int| 0 <= i < chain.len() - 1 implies (#[trigger] chain[i] matches Val::Neutral(
                Neu::Apply(_, inner),
            ) && *inner == chain[i + 1]) by {
                assert(chain[i + 1] == rest[i]);
                if i > 0 {
                    assert(chain[i] == rest[i - 1]);
                }
            }
            assert(chain[chain.len() - 1] == rest[rest.len() - 1]);
            chain
        },
        _ => seq![value],
    }
}

/// Once the entries of a read-back are written over any store, every argument that is
/// reached by taking arguments of stuck applications one or more times is in the store, and
/// it is what is found there unless another of the entries has the same identifier.
pub proof fn law_readback_closes_the_store(chain: Seq<Val>, i: int, store: Store)
    requires
        chain.len() > 0,
        forall|k: int|
            0 <= k < chain.len() - 1 ==> (#[trigger] chain[k] matches Val::Neutral(
                Neu::Apply(_, argument),
            ) && *argument == chain[k + 1]),
        1 <= i < chain.len(),
    ensures
        readback_entries(chain[0]).contains(
            (
                crate::node::cid_of(readback_term(chain[i])),
                crate::node::encode(readback_term(chain[i])),
            ),
        ),
        store.put_all(readback_entries(chain[0])).cas.contains_key(
            crate::node::cid_of(readback_term(chain[i])),
        ),
        (forall|j: int|
            0 <= j < readback_entries(chain[0]).len() && (#[trigger] readback_entries(
                chain[0],
            )[j]).0 == crate::node::cid_of(readback_term(chain[i])) ==> readback_entries(
                chain[0],
            )[j].1 == crate::node::encode(readback_term(chain[i]))) ==> store.put_all(
            readback_entries(chain[0]),
        ).fetch(crate::node::cid_of(readback_term(chain[i]))) == Ok::<Term, Fault>(
            readback_term(chain[i]),
        ),
{
    let entries = readback_entries(chain[0]);
    let term = readback_term(chain[i]);
    let cid = crate::node::cid_of(term);
    let block = crate::node::encode(term);
    lemma_argument_is_written(chain, i);
    let j = choose|j: int| 0 <= j < entries.len() && entries[j] == (cid, block);
    let last = lemma_last_entry(entries, cid, j);
    crate::engine::law_last_of_a_row_stays(store, entries, cid);
    crate::node::law_decode_inverts_encode(term);
}

/// An argument in such a chain is among the entries of the read-back.
proof fn lemma_argument_is_written(chain: Seq<Val>, i: int)
    requires
        chain.len() > 0,
        forall|k: int|
            0 <= k < chain.len() - 1 ==> (#[trigger] chain[k] matches Val::Neutral(
                Neu::Apply(_, argument),
            ) && *argument == chain[k + 1]),
        1 <= i < chain.len(),
    ensures
        readback_entries(chain[0]).contains(
            (
                crate::node::cid_of(readback_term(chain[i])),
                crate::node::encode(readback_term(chain[i])),
            ),
        ),
    decreases chain.len(),
{
    let entries = readback_entries(chain[0]);
    let wanted = (
        crate::node::cid_of(readback_term(chain[i])),
        crate::node::encode(readback_term(chain[i])),
    );
    assert(chain[0] matches Val::Neutral(Neu::Apply(_, argument)) && *argument == chain[1]);
    let before = readback_entries(chain[1]);
    assert(entries == before.push(crate::engine::entry_of(readback_term(chain[1]))));
    if i == 1 {
        assert(entries[before.len() as int] == wanted);
    } else {
        let rest = chain.skip(1);
        assert forall|k: int| 0 <= k < rest.len() - 1 implies (#[trigger] rest[k] matches Val::Neutral(
            Neu::Apply(_, argument),
        ) && *argument == rest[k + 1]) by {
            assert(rest[k] == chain[k + 1]);
            assert(rest[k + 1] == chain[k + 2]);
        }
        lemma_argument_is_written(rest, i - 1);
        assert(rest[0] == chain[1]);
        assert(rest[i - 1] == chain[i]);
        let j = choose|j: int| 0 <= j < before.len() && before[j] == wanted;
        assert(entries[j] == wanted);
    }
}

/// Of the entries with an identifier one is the last.
proof fn lemma_last_entry(
    entries: Seq<(CompactCid, Seq<u8>)>,
    cid: CompactCid,
    j: int,
) -> (last: int)
    requires
        0 <= j < entries.len(),
        entries[j].0 == cid,
    ensures
        j <= last < entries.len(),
        entries[last].0 == cid,
        forall|i: int| last < i < entries.len() ==> (#[trigger] entries[i]).0 != cid,
    decreases entries.len() - j,
{
    if exists|i: int| j < i < entries.len() && (#[trigger] entries[i]).0 == cid {
        let next = choose|i: int| j < i < entries.len() && (#[trigger] entries[i]).0 == cid;
        lemma_last_entry(entries, cid, next)
    } else {
        j
    }
}

} // verus!
