//! The steps of the machine, driven over a store, end as the semantics says.

use vstd::prelude::*;

use crate::cid::CompactCid;
use crate::engine::{Fault, Store};
use crate::node::Term;
use crate::semantics::{
    applies, apply_innermost, apply_to, eval_to, evaluates, lemma_eval_fuel, recorded, Outcome,
};
use crate::value::Val;
use crate::vm::{
    after_memo, after_node, after_write, enter, entering, give, Aim, Cont, MemoReadState,
    NodeReadState, State, WriteState,
};

verus! {

/// The next state and the next contents of the store, if a read is answered with what the
/// store holds and a write is performed. A state that has ended stays.
pub open spec fn advance(state: State, store: Store) -> (State, Store) {
    match state {
        State::Done(_) => (state, store),
        State::Failed(_) => (state, store),
        State::ReadNode(read) => (after_node(read, store.block(read.cid)), store),
        State::ReadMemo(read) => (after_memo(read, store.memoized(read.arg_cid)), store),
        State::Write(write) => (
            after_write(write),
            store.put_all(write.entries).put_memo(write.memo),
        ),
    }
}

/// How a state ends within a number of replies; none if it needs more.
pub open spec fn drive(replies: nat, state: State, store: Store) -> Option<Outcome>
    decreases replies,
{
    match state {
        State::Done(value) => Some(Outcome { result: Ok(value), store }),
        State::Failed(fault) => Some(Outcome { result: Err(fault), store }),
        _ => if replies == 0 {
            None
        } else {
            let (next, after) = advance(state, store);
            drive((replies - 1) as nat, next, after)
        },
    }
}

/// A state, driven over a store, ends in an outcome.
pub open spec fn runs_to(state: State, store: Store, outcome: Outcome) -> bool {
    exists|replies: nat| drive(replies, state, store) == Some(outcome)
}

/// More replies do not change how a state ends.
proof fn lemma_drive_replies(low: nat, high: nat, state: State, store: Store)
    requires
        low <= high,
        drive(low, state, store) is Some,
    ensures
        drive(high, state, store) == drive(low, state, store),
    decreases low,
{
    if !(state is Done) && !(state is Failed) {
        let (next, after) = advance(state, store);
        lemma_drive_replies((low - 1) as nat, (high - 1) as nat, next, after);
    }
}

/// A state, driven over a store, ends in one way only.
pub proof fn law_run_is_deterministic(state: State, store: Store, a: Outcome, b: Outcome)
    requires
        runs_to(state, store, a),
        runs_to(state, store, b),
    ensures
        a == b,
{
    let m = choose|replies: nat| drive(replies, state, store) == Some(a);
    let n = choose|replies: nat| drive(replies, state, store) == Some(b);
    if m <= n {
        lemma_drive_replies(m, n, state, store);
    } else {
        lemma_drive_replies(n, m, state, store);
    }
}

/// A state that has not ended ends as the next one.
proof fn lemma_run_next(state: State, store: Store, outcome: Outcome)
    requires
        !(state is Done),
        !(state is Failed),
        runs_to(advance(state, store).0, advance(state, store).1, outcome),
    ensures
        runs_to(state, store, outcome),
{
    let (next, after) = advance(state, store);
    let n = choose|replies: nat| drive(replies, next, after) == Some(outcome);
    assert(drive(n + 1, state, store) == Some(outcome));
}

/// A failed state ends with its fault.
proof fn lemma_run_failed(fault: Fault, store: Store)
    ensures
        runs_to(State::Failed(fault), store, Outcome { result: Err(fault), store }),
{
    assert(drive(0, State::Failed(fault), store) == Some(Outcome { result: Err(fault), store }));
}

/// How the continuations go on from an outcome: a fault ends everything, a value is given
/// to them.
spec fn continues(first: Outcome, conts: Seq<Cont>, outcome: Outcome) -> bool {
    match first.result {
        Err(_) => outcome == first,
        Ok(value) => runs_to(give(value, conts), first.store, outcome),
    }
}

/// What the semantics says of a term, the machine does.
proof fn lemma_machine_follows_eval(
    fuel: nat,
    term: Term,
    env: Seq<Val>,
    store: Store,
    first: Outcome,
    conts: Seq<Cont>,
    outcome: Outcome,
)
    requires
        eval_to(fuel, term, env, store) == Some(first),
        continues(first, conts, outcome),
    ensures
        runs_to(enter(term, env, conts), store, outcome),
    decreases fuel, 0nat,
{
    if let Term::Apply(argument) = term {
        let read = NodeReadState { cid: argument, aim: Aim::Argument(env), conts };
        match store.fetch(argument) {
            Err(fault) => {
                lemma_run_failed(fault, store);
                lemma_run_next(State::ReadNode(read), store, outcome);
            },
            Ok(arg) => {
                let arg_cid = crate::node::cid_of(arg);
                let memo_read = MemoReadState { arg, arg_cid, env, conts };
                let less = (fuel - 1) as nat;
                match store.memoized(arg_cid) {
                    Some(cached) => {
                        let cached_read = NodeReadState {
                            cid: cached,
                            aim: Aim::Evaluate(env),
                            conts,
                        };
                        match store.fetch(cached) {
                            Err(fault) => {
                                lemma_run_failed(fault, store);
                            },
                            Ok(node) => {
                                lemma_machine_follows_eval(
                                    less,
                                    node,
                                    env,
                                    store,
                                    first,
                                    conts,
                                    outcome,
                                );
                            },
                        }
                        lemma_run_next(State::ReadNode(cached_read), store, outcome);
                    },
                    None => {
                        let inner = conts.push(Cont::Argument { arg_cid, env });
                        let arg_first = eval_to(less, arg, env, store)->Some_0;
                        assert(inner.drop_last() =~= conts);
                        if let Ok(value) = arg_first.result {
                            lemma_machine_follows_apply(
                                less,
                                arg_cid,
                                env,
                                value,
                                arg_first.store,
                                first,
                                conts,
                                outcome,
                            );
                        }
                        lemma_machine_follows_eval(
                            less,
                            arg,
                            env,
                            store,
                            arg_first,
                            inner,
                            outcome,
                        );
                    },
                }
                lemma_run_next(State::ReadMemo(memo_read), store, outcome);
                lemma_run_next(State::ReadNode(read), store, outcome);
            },
        }
    }
}

/// What the semantics says of the application of the innermost variable, the machine does.
proof fn lemma_machine_follows_apply(
    fuel: nat,
    arg_cid: CompactCid,
    env: Seq<Val>,
    value: Val,
    store: Store,
    first: Outcome,
    conts: Seq<Cont>,
    outcome: Outcome,
)
    requires
        apply_innermost(fuel, arg_cid, env, value, store) == Some(first),
        continues(first, conts, outcome),
    ensures
        runs_to(give(value, conts.push(Cont::Argument { arg_cid, env })), store, outcome),
    decreases fuel, 1nat,
{
    let inner = conts.push(Cont::Argument { arg_cid, env });
    assert(inner.drop_last() =~= conts);
    match crate::value::lookup_in(env, 0) {
        Val::Closure { body, env: closure_env } => {
            let second = apply_to(fuel, body, closure_env, value, store)->Some_0;
            let result_conts = conts.push(Cont::Result { arg_cid });
            assert(result_conts.drop_last() =~= conts);
            if let Ok(result) = second.result {
                assert(first.store == recorded(second.store, arg_cid, result));
                if let State::Write(write) = give(result, result_conts) {
                    lemma_run_next(State::Write(write), second.store, outcome);
                }
            }
            match store.fetch(body) {
                Err(fault) => {
                    lemma_run_failed(fault, store);
                },
                Ok(node) => {
                    lemma_machine_follows_eval(
                        fuel,
                        node,
                        closure_env.push(value),
                        store,
                        second,
                        result_conts,
                        outcome,
                    );
                },
            }
            lemma_run_next(
                State::ReadNode(
                    NodeReadState {
                        cid: body,
                        aim: Aim::Evaluate(closure_env.push(value)),
                        conts: result_conts,
                    },
                ),
                store,
                outcome,
            );
        },
        Val::Universe => {
            lemma_run_failed(Fault::UniverseApplied, store);
        },
        Val::Neutral(_) => {},
    }
}

/// What an outcome of a first evaluation leaves to the continuations, within a number of
/// replies.
spec fn continues_within(
    replies: nat,
    first: Outcome,
    conts: Seq<Cont>,
    outcome: Outcome,
) -> bool {
    match first.result {
        Err(_) => outcome == first,
        Ok(value) => drive(replies, give(value, conts), first.store) == Some(outcome),
    }
}

/// What the machine does with a term, the semantics says. Gives the bound on the nesting,
/// the outcome of the term, and the number of replies that are left.
proof fn lemma_eval_follows_machine(
    replies: nat,
    term: Term,
    env: Seq<Val>,
    conts: Seq<Cont>,
    store: Store,
    outcome: Outcome,
) -> (found: (nat, Outcome, nat))
    requires
        drive(replies, enter(term, env, conts), store) == Some(outcome),
    ensures
        eval_to(found.0, term, env, store) == Some(found.1),
        found.2 <= replies,
        continues_within(found.2, found.1, conts, outcome),
    decreases replies,
{
    match term {
        Term::Apply(argument) => {
            let read = NodeReadState { cid: argument, aim: Aim::Argument(env), conts };
            let second = after_node(read, store.block(argument));
            assert(drive((replies - 1) as nat, second, store) == Some(outcome));
            match store.fetch(argument) {
                Err(fault) => {
                    let first = Outcome { result: Err(fault), store };
                    assert(eval_to(1, term, env, store) == Some(first));
                    (1, first, replies)
                },
                Ok(arg) => {
                    let arg_cid = crate::node::cid_of(arg);
                    let memo_read = MemoReadState { arg, arg_cid, env, conts };
                    assert(second == State::ReadMemo(memo_read));
                    let third = after_memo(memo_read, store.memoized(arg_cid));
                    assert(drive((replies - 2) as nat, third, store) == Some(outcome));
                    match store.memoized(arg_cid) {
                        Some(cached) => {
                            let cached_read = NodeReadState {
                                cid: cached,
                                aim: Aim::Evaluate(env),
                                conts,
                            };
                            let fourth = after_node(cached_read, store.block(cached));
                            assert(drive((replies - 3) as nat, fourth, store) == Some(outcome));
                            match store.fetch(cached) {
                                Err(fault) => {
                                    let first = Outcome { result: Err(fault), store };
                                    assert(eval_to(1, term, env, store) == Some(first));
                                    (1, first, replies)
                                },
                                Ok(node) => {
                                    let (fuel, first, left) = lemma_eval_follows_machine(
                                        (replies - 3) as nat,
                                        node,
                                        env,
                                        conts,
                                        store,
                                        outcome,
                                    );
                                    assert(eval_to(fuel + 1, term, env, store) == Some(first));
                                    (fuel + 1, first, left)
                                },
                            }
                        },
                        None => {
                            let inner = conts.push(Cont::Argument { arg_cid, env });
                            let (fuel, first, left) = lemma_eval_follows_machine(
                                (replies - 2) as nat,
                                arg,
                                env,
                                inner,
                                store,
                                outcome,
                            );
                            match first.result {
                                Err(_) => {
                                    assert(eval_to(fuel + 1, term, env, store) == Some(first));
                                    (fuel + 1, first, left)
                                },
                                Ok(value) => {
                                    let (deeper, last, rest) = lemma_apply_follows_machine(
                                        left,
                                        arg_cid,
                                        env,
                                        value,
                                        conts,
                                        first.store,
                                        outcome,
                                    );
                                    let most = if fuel <= deeper {
                                        deeper
                                    } else {
                                        fuel
                                    };
                                    lemma_eval_fuel(fuel, most, arg, env, store);
                                    crate::semantics::lemma_apply_innermost_fuel(
                                        deeper,
                                        most,
                                        arg_cid,
                                        env,
                                        value,
                                        first.store,
                                    );
                                    assert(eval_to(most + 1, term, env, store) == Some(last));
                                    (most + 1, last, rest)
                                },
                            }
                        },
                    }
                },
            }
        },
        _ => {
            let first = eval_to(0, term, env, store)->Some_0;
            (0, first, replies)
        },
    }
}

/// What the machine does with the value of an argument, the semantics says.
proof fn lemma_apply_follows_machine(
    replies: nat,
    arg_cid: CompactCid,
    env: Seq<Val>,
    value: Val,
    conts: Seq<Cont>,
    store: Store,
    outcome: Outcome,
) -> (found: (nat, Outcome, nat))
    requires
        drive(replies, give(value, conts.push(Cont::Argument { arg_cid, env })), store) == Some(
            outcome,
        ),
    ensures
        apply_innermost(found.0, arg_cid, env, value, store) == Some(found.1),
        found.2 <= replies,
        continues_within(found.2, found.1, conts, outcome),
    decreases replies,
{
    let inner = conts.push(Cont::Argument { arg_cid, env });
    assert(inner.drop_last() =~= conts);
    match crate::value::lookup_in(env, 0) {
        Val::Closure { body, env: closure_env } => {
            let result_conts = conts.push(Cont::Result { arg_cid });
            assert(result_conts.drop_last() =~= conts);
            let read = NodeReadState {
                cid: body,
                aim: Aim::Evaluate(closure_env.push(value)),
                conts: result_conts,
            };
            assert(give(value, inner) == State::ReadNode(read));
            let second = after_node(read, store.block(body));
            assert(drive((replies - 1) as nat, second, store) == Some(outcome));
            match store.fetch(body) {
                Err(fault) => {
                    let first = Outcome { result: Err(fault), store };
                    assert(apply_to(0, body, closure_env, value, store) == Some(first));
                    (0, first, replies)
                },
                Ok(node) => {
                    let (fuel, first, left) = lemma_eval_follows_machine(
                        (replies - 1) as nat,
                        node,
                        closure_env.push(value),
                        result_conts,
                        store,
                        outcome,
                    );
                    assert(apply_to(fuel, body, closure_env, value, store) == Some(first));
                    match first.result {
                        Err(_) => (fuel, first, left),
                        Ok(result) => {
                            let last = Outcome {
                                result: Ok(result),
                                store: recorded(first.store, arg_cid, result),
                            };
                            assert(drive((left - 1) as nat, give(result, conts), last.store)
                                == Some(outcome));
                            (fuel, last, (left - 1) as nat)
                        },
                    }
                },
            }
        },
        _ => {
            let first = apply_innermost(0, arg_cid, env, value, store)->Some_0;
            (0, first, replies)
        },
    }
}

/// The evaluation of a term, step by step over a store, ends exactly as the semantics says
/// of the term: with the same value or fault, and with the same contents of the store.
pub proof fn law_steps_agree_with_evaluation(
    term: Term,
    env: Seq<Val>,
    store: Store,
    outcome: Outcome,
)
    ensures
        runs_to(enter(term, env, Seq::empty()), store, outcome) <==> evaluates(
            term,
            env,
            store,
            outcome,
        ),
{
    let start = enter(term, env, Seq::empty());
    if evaluates(term, env, store, outcome) {
        let fuel = choose|fuel: nat| eval_to(fuel, term, env, store) == Some(outcome);
        if let Ok(value) = outcome.result {
            assert(drive(0, give(value, Seq::empty()), outcome.store) == Some(outcome));
        }
        lemma_machine_follows_eval(fuel, term, env, store, outcome, Seq::empty(), outcome);
    }
    if runs_to(start, store, outcome) {
        let replies = choose|replies: nat| drive(replies, start, store) == Some(outcome);
        let (fuel, first, left) = lemma_eval_follows_machine(
            replies,
            term,
            env,
            Seq::empty(),
            store,
            outcome,
        );
        assert(first == outcome);
    }
}

/// The application of a closure, step by step over a store, ends exactly as the semantics
/// says.
pub proof fn law_steps_agree_with_application(
    body: CompactCid,
    env: Seq<Val>,
    argument: Val,
    store: Store,
    outcome: Outcome,
)
    ensures
        runs_to(entering(body, env, argument), store, outcome) <==> applies(
            body,
            env,
            argument,
            store,
            outcome,
        ),
{
    let inner_env = env.push(argument);
    let read = NodeReadState { cid: body, aim: Aim::Evaluate(inner_env), conts: Seq::empty() };
    let second = after_node(read, store.block(body));
    if applies(body, env, argument, store, outcome) {
        let fuel = choose|fuel: nat|
            apply_to(fuel, body, env, argument, store) == Some(outcome);
        match store.fetch(body) {
            Err(fault) => {
                lemma_run_failed(fault, store);
            },
            Ok(node) => {
                assert(eval_to(fuel, node, inner_env, store) == Some(outcome));
                law_steps_agree_with_evaluation(node, inner_env, store, outcome);
            },
        }
        lemma_run_next(State::ReadNode(read), store, outcome);
    }
    if runs_to(entering(body, env, argument), store, outcome) {
        let replies = choose|replies: nat|
            drive(replies, entering(body, env, argument), store) == Some(outcome);
        assert(drive((replies - 1) as nat, second, store) == Some(outcome));
        match store.fetch(body) {
            Err(fault) => {
                assert(apply_to(0, body, env, argument, store) == Some(outcome));
            },
            Ok(node) => {
                assert(runs_to(second, store, outcome));
                law_steps_agree_with_evaluation(node, inner_env, store, outcome);
                let fuel = choose|fuel: nat|
                    eval_to(fuel, node, inner_env, store) == Some(outcome);
                assert(apply_to(fuel, body, env, argument, store) == Some(outcome));
            },
        }
    }
}

/// A state that writes is about to record its value.
pub open spec fn records_its_value(state: State) -> bool {
    match state {
        State::Write(write) => {
            &&& write.entries == crate::semantics::result_entries(write.value)
            &&& write.memo.output == crate::node::cid_of(
                crate::semantics::readback_term(write.value),
            )
        },
        _ => true,
    }
}

/// A value given to continuations leads to a state that records its value if it writes, and
/// that did not fail on a block.
proof fn lemma_give_records(value: Val, conts: Seq<Cont>)
    ensures
        records_its_value(give(value, conts)),
        give(value, conts) != State::Failed(Fault::CorruptNode),
    decreases conts.len(),
{
    if conts.len() > 0 {
        if let Cont::Argument { env, .. } = conts.last() {
            if let Val::Neutral(head) = crate::value::lookup_in(env, 0) {
                lemma_give_records(crate::value::stuck(head, value), conts.drop_last());
            }
        }
    }
}

/// An evaluation starts in a state that records its value if it writes, and that did not
/// fail on a block.
pub proof fn law_evaluation_starts_recording(term: Term, env: Seq<Val>, conts: Seq<Cont>)
    ensures
        records_its_value(enter(term, env, conts)),
        enter(term, env, conts) != State::Failed(Fault::CorruptNode),
{
    match term {
        Term::Universe => {
            lemma_give_records(Val::Universe, conts);
        },
        Term::BoundIndex(index) => {
            lemma_give_records(crate::value::lookup_in(env, index), conts);
        },
        Term::Lambda(body) => {
            lemma_give_records(Val::Closure { body, env }, conts);
        },
        Term::Apply(_) => {},
    }
}

/// Each single step, whether or not the evaluation ever ends, loses no key, keeps a store
/// content addressed, keeps a memo table grounded, and leads to a state that again records
/// its value if it writes. Over a content-addressed store no step meets a corrupt block.
pub proof fn law_every_step_preserves_store(state: State, store: Store)
    requires
        records_its_value(state),
    ensures
        records_its_value(advance(state, store).0),
        store.preserved_in(advance(state, store).1),
        store.content_addressed() && state != State::Failed(Fault::CorruptNode) ==> advance(
            state,
            store,
        ).0 != State::Failed(Fault::CorruptNode),
{
    match state {
        State::ReadNode(read) => {
            if store.content_addressed() {
                crate::engine::law_content_addressed_fetch(store, read.cid);
            }
            if let Ok(term) = store.fetch(read.cid) {
                if let Aim::Evaluate(env) = read.aim {
                    law_evaluation_starts_recording(term, env, read.conts);
                }
            }
        },
        State::ReadMemo(read) => {
            let inner = read.conts.push(Cont::Argument { arg_cid: read.arg_cid, env: read.env });
            law_evaluation_starts_recording(read.arg, read.env, inner);
        },
        State::Write(write) => {
            crate::semantics::law_record_preserves_store(store, write.memo.input, write.value);
            lemma_give_records(write.value, write.conts);
        },
        State::Done(_) => {},
        State::Failed(_) => {},
    }
}

/// How a state ends that is driven over the two tables: one that has ended stays, a read is
/// answered with what stands in its table or with its absence, and a write is performed in
/// order, entries first, before the machine goes on.
pub proof fn law_run_of_each_state(
    value: Val,
    fault: Fault,
    node_read: NodeReadState,
    memo_read: MemoReadState,
    write: WriteState,
    store: Store,
    outcome: Outcome,
)
    ensures
        runs_to(State::Done(value), store, outcome) <==> outcome.result == Ok::<Val, Fault>(value)
            && outcome.store == store,
        runs_to(State::Failed(fault), store, outcome) <==> outcome.result == Err::<Val, Fault>(
            fault,
        ) && outcome.store == store,
        runs_to(State::ReadNode(node_read), store, outcome) <==> runs_to(
            after_node(
                node_read,
                if store.cas.contains_key(node_read.cid) {
                    Some(store.cas[node_read.cid])
                } else {
                    None
                },
            ),
            store,
            outcome,
        ),
        runs_to(State::ReadMemo(memo_read), store, outcome) <==> runs_to(
            after_memo(
                memo_read,
                if store.memo.contains_key(memo_read.arg_cid) {
                    Some(store.memo[memo_read.arg_cid])
                } else {
                    None
                },
            ),
            store,
            outcome,
        ),
        runs_to(State::Write(write), store, outcome) <==> runs_to(
            after_write(write),
            Store {
                cas: store.put_all(write.entries).cas,
                memo: store.memo.insert(write.memo.input, write.memo.output),
            },
            outcome,
        ),
{
    assert(drive(0, State::Done(value), store) is Some);
    assert(drive(0, State::Failed(fault), store) is Some);
    lemma_run_by_next(State::ReadNode(node_read), store, outcome);
    lemma_run_by_next(State::ReadMemo(memo_read), store, outcome);
    lemma_run_by_next(State::Write(write), store, outcome);
    crate::engine::law_last_of_a_row_stays(store, write.entries, write.memo.input);
    assert(advance(State::Write(write), store).1 =~= (Store {
        cas: store.put_all(write.entries).cas,
        memo: store.memo.insert(write.memo.input, write.memo.output),
    }));
}

/// A state that has not ended ends exactly as the next one.
proof fn lemma_run_by_next(state: State, store: Store, outcome: Outcome)
    requires
        !(state is Done),
        !(state is Failed),
    ensures
        runs_to(state, store, outcome) <==> runs_to(
            advance(state, store).0,
            advance(state, store).1,
            outcome,
        ),
{
    let (next, after) = advance(state, store);
    if runs_to(next, after, outcome) {
        lemma_run_next(state, store, outcome);
    }
    if runs_to(state, store, outcome) {
        let n = choose|replies: nat| drive(replies, state, store) == Some(outcome);
        assert(drive((n - 1) as nat, next, after) == Some(outcome));
    }
}

} // verus!
