//! The virtual machine: evaluation as a sequence of steps that ask for what the store
//! holds, so that whoever owns the store performs the reads and writes in between.

use vstd::prelude::*;

use crate::cid::CompactCid;
use crate::engine::{buscar_no, salvar_no, CasEntry, Fault, MemoEntry, Store};
use crate::node::{Node, Term};
use crate::semantics::Outcome;
use crate::value::{stuck, Env, Neu, Neutral, Val, Value};

verus! {

/// What remains to be done with a value once it is there.
#[derive(Debug)]
enum Frame {
    /// The value is that of an argument: apply the innermost variable to it.
    Argument { arg_cid: CompactCid, env: Env },
    /// The value is the result for an argument: record it.
    Result { arg_cid: CompactCid },
}

/// What a node that is being read is for.
#[derive(Debug)]
enum Purpose {
    /// It is the argument of an application in this environment.
    Argument(Env),
    /// It is evaluated in this environment.
    Evaluate(Env),
}

/// A step that asks for the block under an identifier.
#[derive(Debug)]
pub struct NodeRead {
    cid: CompactCid,
    purpose: Purpose,
    frames: Vec<Frame>,
}

/// A step that asks for the memoized result of an argument.
#[derive(Debug)]
pub struct MemoRead {
    arg: Node,
    arg_cid: CompactCid,
    env: Env,
    frames: Vec<Frame>,
}

/// A step that asks for entries to be written to the store, in order, and then for a line
/// to be written to the memo table.
#[derive(Debug)]
pub struct Write {
    entries: Vec<CasEntry>,
    memo: MemoEntry,
    value: Value,
    frames: Vec<Frame>,
}

/// What evaluation needs next, or how it ended.
#[derive(Debug)]
pub enum Step {
    ReadNode(NodeRead),
    ReadMemo(MemoRead),
    Write(Write),
    Done(Value),
    Failed(Fault),
}

/// The mathematical value behind a `Frame`.
pub ghost enum Cont {
    Argument { arg_cid: CompactCid, env: Seq<Val> },
    Result { arg_cid: CompactCid },
}

/// The mathematical value behind a `Purpose`.
pub ghost enum Aim {
    Argument(Seq<Val>),
    Evaluate(Seq<Val>),
}

/// The mathematical value behind a `NodeRead`. The last continuation is the innermost.
pub ghost struct NodeReadState {
    pub cid: CompactCid,
    pub aim: Aim,
    pub conts: Seq<Cont>,
}

/// The mathematical value behind a `MemoRead`.
pub ghost struct MemoReadState {
    pub arg: Term,
    pub arg_cid: CompactCid,
    pub env: Seq<Val>,
    pub conts: Seq<Cont>,
}

/// The mathematical value behind a `Write`.
pub ghost struct WriteState {
    pub entries: Seq<(CompactCid, Seq<u8>)>,
    pub memo: MemoEntry,
    pub value: Val,
    pub conts: Seq<Cont>,
}

/// The mathematical value behind a `Step`.
pub ghost enum State {
    ReadNode(NodeReadState),
    ReadMemo(MemoReadState),
    Write(WriteState),
    Done(Val),
    Failed(Fault),
}

/// The continuation behind a frame.
closed spec fn frame_view(frame: Frame) -> Cont {
    match frame {
        Frame::Argument { arg_cid, env } => Cont::Argument { arg_cid, env: env@ },
        Frame::Result { arg_cid } => Cont::Result { arg_cid },
    }
}

/// The continuations behind a sequence of frames.
closed spec fn frames_view(frames: Seq<Frame>) -> Seq<Cont> {
    Seq::new(frames.len(), |i: int| frame_view(frames[i]))
}

impl View for NodeRead {
    type V = NodeReadState;

    closed spec fn view(&self) -> NodeReadState {
        NodeReadState {
            cid: self.cid,
            aim: match self.purpose {
                Purpose::Argument(env) => Aim::Argument(env@),
                Purpose::Evaluate(env) => Aim::Evaluate(env@),
            },
            conts: frames_view(self.frames@),
        }
    }
}

impl View for MemoRead {
    type V = MemoReadState;

    closed spec fn view(&self) -> MemoReadState {
        MemoReadState {
            arg: self.arg@,
            arg_cid: self.arg_cid,
            env: self.env@,
            conts: frames_view(self.frames@),
        }
    }
}

impl View for Write {
    type V = WriteState;

    closed spec fn view(&self) -> WriteState {
        WriteState {
            entries: crate::engine::entries_view(self.entries@),
            memo: self.memo,
            value: self.value@,
            conts: frames_view(self.frames@),
        }
    }
}

impl View for Step {
    type V = State;

    open spec fn view(&self) -> State {
        match *self {
            Step::ReadNode(read) => State::ReadNode(read@),
            Step::ReadMemo(read) => State::ReadMemo(read@),
            Step::Write(write) => State::Write(write@),
            Step::Done(value) => State::Done(value@),
            Step::Failed(fault) => State::Failed(fault),
        }
    }
}

/// The state in which a term is about to be evaluated.
pub open spec fn enter(term: Term, env: Seq<Val>, conts: Seq<Cont>) -> State {
    match term {
        Term::Universe => give(Val::Universe, conts),
        Term::BoundIndex(index) => give(crate::value::lookup_in(env, index), conts),
        Term::Lambda(body) => give(Val::Closure { body, env }, conts),
        Term::Apply(argument) => State::ReadNode(
            NodeReadState { cid: argument, aim: Aim::Argument(env), conts },
        ),
    }
}

/// The state in which a closure is about to be entered.
pub open spec fn entering(body: CompactCid, env: Seq<Val>, argument: Val) -> State {
    State::ReadNode(
        NodeReadState { cid: body, aim: Aim::Evaluate(env.push(argument)), conts: Seq::empty() },
    )
}

/// The state in which a value was found and is given to the continuations, the innermost
/// first.
pub open spec fn give(value: Val, conts: Seq<Cont>) -> State
    decreases conts.len(),
{
    if conts.len() == 0 {
        State::Done(value)
    } else {
        let rest = conts.drop_last();
        match conts.last() {
            Cont::Argument { arg_cid, env } => match crate::value::lookup_in(env, 0) {
                Val::Closure { body, env: closure_env } => State::ReadNode(
                    NodeReadState {
                        cid: body,
                        aim: Aim::Evaluate(closure_env.push(value)),
                        conts: rest.push(Cont::Result { arg_cid }),
                    },
                ),
                Val::Universe => State::Failed(Fault::UniverseApplied),
                Val::Neutral(head) => give(stuck(head, value), rest),
            },
            Cont::Result { arg_cid } => State::Write(
                WriteState {
                    entries: crate::semantics::result_entries(value),
                    memo: MemoEntry {
                        input: arg_cid,
                        output: crate::node::cid_of(crate::semantics::readback_term(value)),
                    },
                    value,
                    conts: rest,
                },
            ),
        }
    }
}

/// The state after a reply of the store.
pub open spec fn after_node(read: NodeReadState, found: Option<Seq<u8>>) -> State {
    match crate::engine::fetched(found) {
        Err(fault) => State::Failed(fault),
        Ok(term) => match read.aim {
            Aim::Argument(env) => State::ReadMemo(
                MemoReadState {
                    arg: term,
                    arg_cid: crate::node::cid_of(term),
                    env,
                    conts: read.conts,
                },
            ),
            Aim::Evaluate(env) => enter(term, env, read.conts),
        },
    }
}

/// The state after a reply of the memo table.
pub open spec fn after_memo(read: MemoReadState, found: Option<CompactCid>) -> State {
    match found {
        Some(cached) => State::ReadNode(
            NodeReadState { cid: cached, aim: Aim::Evaluate(read.env), conts: read.conts },
        ),
        None => enter(
            read.arg,
            read.env,
            read.conts.push(Cont::Argument { arg_cid: read.arg_cid, env: read.env }),
        ),
    }
}

/// The state after everything was written.
pub open spec fn after_write(write: WriteState) -> State {
    give(write.value, write.conts)
}

/// Evaluates a node as far as it goes without the store.
fn enter_node(node: Node, env: &Env, frames: Vec<Frame>) -> (step: Step)
    ensures
        step@ == enter(node@, env@, frames_view(frames@)),
{
    match node {
        Node::Universe => give_value(Value::Universe, frames),
        Node::BoundIndex { db_index, .. } => give_value(env.lookup(db_index), frames),
        Node::Lambda { body, .. } => give_value(Value::Closure { body, env: env.clone() }, frames),
        Node::Apply { argument, .. } => Step::ReadNode(
            NodeRead { cid: argument, purpose: Purpose::Argument(env.clone()), frames },
        ),
    }
}

/// Gives a value to the frames that wait for it.
fn give_value(found: Value, waiting: Vec<Frame>) -> (step: Step)
    ensures
        step@ == give(found@, frames_view(waiting@)),
{
    let mut value = found;
    let mut frames = waiting;
    loop
        invariant
            give(value@, frames_view(frames@)) == give(found@, frames_view(waiting@)),
        decreases frames@.len(),
    {
        let ghost conts = frames_view(frames@);
        match frames.pop() {
            None => {
                return Step::Done(value);
            },
            Some(frame) => {
                assert(conts.last() == frame_view(frame));
                assert(conts.drop_last() =~= frames_view(frames@));
                match frame {
                    Frame::Argument { arg_cid, env } => match env.lookup(0) {
                        Value::Closure { body, env: closure_env } => {
                            let extended = closure_env.extend(value);
                            frames.push(Frame::Result { arg_cid });
                            assert(frames_view(frames@) =~= conts.drop_last().push(
                                Cont::Result { arg_cid },
                            ));
                            return Step::ReadNode(
                                NodeRead {
                                    cid: body,
                                    purpose: Purpose::Evaluate(extended),
                                    frames,
                                },
                            );
                        },
                        Value::Universe => {
                            return Step::Failed(Fault::UniverseApplied);
                        },
                        Value::Neutral(head) => {
                            value = Value::Neutral(Neutral::apply(head, value));
                        },
                    },
                    Frame::Result { arg_cid } => {
                        let (result, mut entries) = readback(value.clone());
                        let entry = salvar_no(&result);
                        let memo = MemoEntry { input: arg_cid, output: entry.cid };
                        let ghost before = crate::engine::entries_view(entries@);
                        entries.push(entry);
                        assert(crate::engine::entries_view(entries@) =~= before.push(entry@));
                        return Step::Write(Write { entries, memo, value, frames });
                    },
                }
            },
        }
    }
}

/// The node that a value is written back as, with clean padding, and the entries that
/// have to be written to the store, in order, for the node to stand for the value.
pub fn readback(value: Value) -> (written: (Node, Vec<CasEntry>))
    ensures
        written.0@ == crate::semantics::readback_term(value@),
        written.0.is_clean(),
        crate::engine::entries_view(written.1@) == crate::semantics::readback_entries(value@),
        match value@ {
            Val::Universe => written.0 is Universe && written.1@.len() == 0,
            Val::Closure { body, .. } => {
                &&& written.0 matches Node::Lambda { body: kept, .. } && kept == body
                &&& written.1@.len() == 0
            },
            Val::Neutral(Neu::Var(index)) => {
                &&& written.0 matches Node::BoundIndex { db_index, .. } && db_index == index
                &&& written.1@.len() == 0
            },
            Val::Neutral(Neu::Apply(_, argument)) => {
                let last = written.1@.len() - 1;
                &&& 0 <= last
                &&& written.0 matches Node::Apply { argument: kept, .. } && kept
                    == written.1@[last].cid
                &&& written.1@[last].bytes@ == crate::node::encode(
                    crate::semantics::readback_term(*argument),
                )
                &&& written.1@[last].cid == crate::node::cid_of(
                    crate::semantics::readback_term(*argument),
                )
            },
        },
    decreases value@,
{
    match value {
        Value::Universe => (Node::Universe, Vec::new()),
        Value::Closure { body, .. } => (Node::Lambda { body, _pad: [0u8; 8] }, Vec::new()),
        Value::Neutral(Neutral::Var(index)) => (
            Node::BoundIndex { db_index: index, _pad: [0u8; 24] },
            Vec::new(),
        ),
        Value::Neutral(Neutral::Apply(_, argument)) => {
            let (node, mut entries) = readback(argument.get());
            let entry = salvar_no(&node);
            let ghost before = crate::engine::entries_view(entries@);
            entries.push(entry);
            assert(crate::engine::entries_view(entries@) =~= before.push(entry@));
            (Node::Apply { argument: entry.cid, _pad: [0u8; 8] }, entries)
        },
    }
}

/// Starts the evaluation of a node in an environment.
pub fn eval(node: Node, env: &Env) -> (step: Step)
    ensures
        step@ == enter(node@, env@, Seq::empty()),
        forall|store: Store, outcome: Outcome| #[trigger]
            crate::adequacy::runs_to(step@, store, outcome)
                <==> crate::semantics::evaluates(node@, env@, store, outcome),
{
    proof {
        assert forall|store: Store, outcome: Outcome| #[trigger]
            crate::adequacy::runs_to(enter(node@, env@, Seq::empty()), store, outcome)
                <==> crate::semantics::evaluates(node@, env@, store, outcome) by {
            crate::adequacy::law_steps_agree_with_evaluation(node@, env@, store, outcome);
        }
    }
    let frames: Vec<Frame> = Vec::new();
    assert(frames_view(frames@) =~= Seq::<Cont>::empty());
    enter_node(node, env, frames)
}

/// Starts the application of a closure to an argument.
pub fn apply_closure(closure_body: CompactCid, closure_env: &Env, arg: Value) -> (step: Step)
    ensures
        step@ == entering(closure_body, closure_env@, arg@),
        forall|store: Store, outcome: Outcome| #[trigger]
            crate::adequacy::runs_to(step@, store, outcome) <==> crate::semantics::applies(
                closure_body,
                closure_env@,
                arg@,
                store,
                outcome,
            ),
{
    proof {
        let start = entering(closure_body, closure_env@, arg@);
        assert forall|store: Store, outcome: Outcome| #[trigger]
            crate::adequacy::runs_to(start, store, outcome) <==> crate::semantics::applies(
                closure_body,
                closure_env@,
                arg@,
                store,
                outcome,
            ) by {
            crate::adequacy::law_steps_agree_with_application(
                closure_body,
                closure_env@,
                arg@,
                store,
                outcome,
            );
        }
    }
    let extended = closure_env.extend(arg);
    let frames: Vec<Frame> = Vec::new();
    assert(frames_view(frames@) =~= Seq::<Cont>::empty());
    Step::ReadNode(NodeRead { cid: closure_body, purpose: Purpose::Evaluate(extended), frames })
}

impl NodeRead {
    /// The identifier of the block that is asked for.
    pub fn cid(&self) -> (cid: CompactCid)
        ensures
            cid == self@.cid,
    {
        self.cid
    }

    /// Goes on with the block, or with its absence.
    pub fn resume(self, found: Option<[u8; 32]>) -> (step: Step)
        ensures
            step@ == after_node(self@, crate::engine::block_view(found)),
    {
        match buscar_no(found) {
            Err(fault) => Step::Failed(fault),
            Ok(node) => match self.purpose {
                Purpose::Argument(env) => {
                    let arg_cid = node.calcular_cid();
                    Step::ReadMemo(MemoRead { arg: node, arg_cid, env, frames: self.frames })
                },
                Purpose::Evaluate(env) => enter_node(node, &env, self.frames),
            },
        }
    }
}

impl MemoRead {
    /// The identifier of the argument whose result is asked for.
    pub fn input(&self) -> (cid: CompactCid)
        ensures
            cid == self@.arg_cid,
    {
        self.arg_cid
    }

    /// Goes on with the identifier of the result, or without one.
    pub fn resume(self, found: Option<CompactCid>) -> (step: Step)
        ensures
            step@ == after_memo(self@, found),
    {
        match found {
            Some(cached) => Step::ReadNode(
                NodeRead {
                    cid: cached,
                    purpose: Purpose::Evaluate(self.env),
                    frames: self.frames,
                },
            ),
            None => {
                let mut frames = self.frames;
                let ghost conts = frames_view(frames@);
                frames.push(Frame::Argument { arg_cid: self.arg_cid, env: self.env.clone() });
                assert(frames_view(frames@) =~= conts.push(
                    Cont::Argument { arg_cid: self.arg_cid, env: self.env@ },
                ));
                enter_node(self.arg, &self.env, frames)
            },
        }
    }
}

impl Write {
    /// The entries to be written to the store, in order.
    pub fn entries(&self) -> (entries: &Vec<CasEntry>)
        ensures
            crate::engine::entries_view(entries@) == self@.entries,
    {
        &self.entries
    }

    /// The line to be written to the memo table, after the entries.
    pub fn memo(&self) -> (memo: MemoEntry)
        ensures
            memo == self@.memo,
    {
        self.memo
    }

    /// Goes on when everything was written.
    pub fn resume(self) -> (step: Step)
        ensures
            step@ == after_write(self@),
    {
        give_value(self.value, self.frames)
    }
}

/// What each step stands for.
pub proof fn law_meaning_of_steps(
    node_read: NodeRead,
    memo_read: MemoRead,
    write: Write,
    value: Value,
    fault: Fault,
)
    ensures
        Step::ReadNode(node_read)@ == State::ReadNode(node_read@),
        Step::ReadMemo(memo_read)@ == State::ReadMemo(memo_read@),
        Step::Write(write)@ == State::Write(write@),
        Step::Done(value)@ == State::Done(value@),
        Step::Failed(fault)@ == State::Failed(fault),
{
}

/// Where evaluation starts: a term that is at hand gives its value to what waits for it; an
/// application asks for the block of its argument. The application of a closure asks for the
/// block of its body, to evaluate it with what the closure captured, the argument last.
pub proof fn law_first_request(
    term: Term,
    env: Seq<Val>,
    conts: Seq<Cont>,
    body: CompactCid,
    argument: Val,
)
    ensures
        match term {
            Term::Universe => enter(term, env, conts) == give(Val::Universe, conts),
            Term::BoundIndex(index) => enter(term, env, conts) == give(
                if index < env.len() {
                    env[env.len() - 1 - index]
                } else {
                    Val::Neutral(Neu::Var(index))
                },
                conts,
            ),
            Term::Lambda(kept) => enter(term, env, conts) == give(
                Val::Closure { body: kept, env },
                conts,
            ),
            Term::Apply(cid) => enter(term, env, conts) matches State::ReadNode(read) && {
                &&& read.cid == cid
                &&& read.aim == Aim::Argument(env)
                &&& read.conts == conts
            },
        },
        entering(body, env, argument) matches State::ReadNode(read) && {
            &&& read.cid == body
            &&& read.aim == Aim::Evaluate(env.push(argument))
            &&& read.conts.len() == 0
        },
{
}

/// What follows a reply of the store: a block that is missing, or is no node, fails with its
/// own fault; the block of an argument is followed by the question what is memoized for the
/// identifier of its term; any other block is evaluated.
pub proof fn law_after_a_block(read: NodeReadState, bytes: Seq<u8>)
    requires
        bytes.len() == 32,
    ensures
        after_node(read, None) == State::Failed(Fault::MissingNode),
        bytes[0] > 3 <==> after_node(read, Some(bytes)) == State::Failed(Fault::CorruptNode),
        crate::node::decode(bytes) matches Some(term) ==> match read.aim {
            Aim::Argument(env) => after_node(read, Some(bytes)) matches State::ReadMemo(asked) && {
                &&& asked.arg == term
                &&& asked.arg_cid == crate::node::cid_of(term)
                &&& asked.env == env
                &&& asked.conts == read.conts
            },
            Aim::Evaluate(env) => after_node(read, Some(bytes)) == enter(term, env, read.conts),
        },
{
    crate::node::law_reading_of_a_block(bytes);
    if let Ok(term) = crate::engine::fetched(Some(bytes)) {
        if let Aim::Evaluate(env) = read.aim {
            crate::adequacy::law_evaluation_starts_recording(term, env, read.conts);
        }
    }
}

/// What follows a reply of the memo table, and a write: the node that is memoized is asked
/// for and evaluated in place of the application; without one the argument is evaluated, and
/// its value is what the innermost variable is applied to. A value that was written goes on.
pub proof fn law_after_a_memo_line(
    read: MemoReadState,
    cached: CompactCid,
    write: WriteState,
)
    ensures
        after_memo(read, Some(cached)) matches State::ReadNode(next) && {
            &&& next.cid == cached
            &&& next.aim == Aim::Evaluate(read.env)
            &&& next.conts == read.conts
        },
        after_memo(read, None) == enter(
            read.arg,
            read.env,
            read.conts.push(Cont::Argument { arg_cid: read.arg_cid, env: read.env }),
        ),
        after_write(write) == give(write.value, write.conts),
{
}

/// What a value leads to, by what waits for it: nothing, and it is the answer; the recording
/// of a result, and its read-back, its term and the line of the memo table are written; or an
/// application, and the innermost variable is applied to it. A closure is then entered with
/// what it captured, the value last, and its result is recorded.
pub proof fn law_value_given(value: Val, conts: Seq<Cont>, arg_cid: CompactCid, env: Seq<Val>)
    ensures
        give(value, Seq::empty()) == State::Done(value),
        give(value, conts.push(Cont::Result { arg_cid })) matches State::Write(write) && {
            let term = crate::semantics::readback_term(value);
            &&& write.entries == crate::semantics::readback_entries(value).push(
                (crate::node::cid_of(term), crate::node::encode(term)),
            )
            &&& write.memo.input == arg_cid
            &&& write.memo.output == crate::node::cid_of(term)
            &&& write.value == value
            &&& write.conts == conts
        },
        env.len() == 0 ==> give(value, conts.push(Cont::Argument { arg_cid, env })) == give(
            Val::Neutral(Neu::Apply(Box::new(Neu::Var(0)), Box::new(value))),
            conts,
        ),
        env.len() > 0 ==> match env[env.len() - 1] {
            Val::Universe => give(value, conts.push(Cont::Argument { arg_cid, env }))
                == State::Failed(Fault::UniverseApplied),
            Val::Neutral(head) => give(value, conts.push(Cont::Argument { arg_cid, env })) == give(
                Val::Neutral(Neu::Apply(Box::new(head), Box::new(value))),
                conts,
            ),
            Val::Closure { body, env: captured } => give(
                value,
                conts.push(Cont::Argument { arg_cid, env }),
            ) matches State::ReadNode(read) && {
                &&& read.cid == body
                &&& read.aim == Aim::Evaluate(captured.push(value))
                &&& read.conts == conts.push(Cont::Result { arg_cid })
            },
        },
{
    assert(conts.push(Cont::Result { arg_cid }).drop_last() =~= conts);
    assert(conts.push(Cont::Argument { arg_cid, env }).drop_last() =~= conts);
}

} // verus!
