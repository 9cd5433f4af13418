use axolotl::{
    apply_closure, buscar_no, eval, readback, salvar_no, CasEntry, CompactCid, Env, Fault,
    MemoEntry, Neutral, Node, Step, Value,
};
use redb::{Database, ReadableTable, TableDefinition};

const CAS: TableDefinition<[u8; 16], [u8; 32]> = TableDefinition::new("axolotl_cas");
const MEMO: TableDefinition<[u8; 16], [u8; 16]> = TableDefinition::new("axolotl_memo");

/// A database in memory.
struct Tables {
    db: Database,
}

impl Tables {
    fn new() -> Tables {
        let backend = redb::backends::InMemoryBackend::new();
        let db = Database::builder().create_with_backend(backend).unwrap();
        let txn = db.begin_write().unwrap();
        txn.open_table(CAS).unwrap();
        txn.open_table(MEMO).unwrap();
        txn.commit().unwrap();
        Tables { db }
    }

    fn put(&self, entry: &CasEntry) {
        let txn = self.db.begin_write().unwrap();
        txn.open_table(CAS).unwrap().insert(entry.cid.0, entry.bytes).unwrap();
        txn.commit().unwrap();
    }

    fn put_memo(&self, line: &MemoEntry) {
        let txn = self.db.begin_write().unwrap();
        txn.open_table(MEMO).unwrap().insert(line.input.0, line.output.0).unwrap();
        txn.commit().unwrap();
    }

    fn save(&self, node: &Node) -> CompactCid {
        let entry = salvar_no(node);
        self.put(&entry);
        entry.cid
    }

    fn get(&self, cid: CompactCid) -> Option<[u8; 32]> {
        let txn = self.db.begin_read().unwrap();
        let table = txn.open_table(CAS).unwrap();
        let found = table.get(cid.0).unwrap().map(|bytes| bytes.value());
        found
    }

    fn get_memo(&self, cid: CompactCid) -> Option<CompactCid> {
        let txn = self.db.begin_read().unwrap();
        let table = txn.open_table(MEMO).unwrap();
        let found = table.get(cid.0).unwrap().map(|bytes| CompactCid(bytes.value()));
        found
    }

    fn blocks(&self) -> Vec<([u8; 16], [u8; 32])> {
        let txn = self.db.begin_read().unwrap();
        let table = txn.open_table(CAS).unwrap();
        let mut found = vec![];
        for line in table.iter().unwrap() {
            let (cid, bytes) = line.unwrap();
            found.push((cid.value(), bytes.value()));
        }
        found
    }

    fn memos(&self) -> Vec<([u8; 16], [u8; 16])> {
        let txn = self.db.begin_read().unwrap();
        let table = txn.open_table(MEMO).unwrap();
        let mut found = vec![];
        for line in table.iter().unwrap() {
            let (input, output) = line.unwrap();
            found.push((input.value(), output.value()));
        }
        found
    }

    fn run(&self, start: Step) -> Result<Value, Fault> {
        let mut step = start;
        loop {
            step = match step {
                Step::ReadNode(read) => {
                    let found = self.get(read.cid());
                    read.resume(found)
                }
                Step::ReadMemo(read) => {
                    let found = self.get_memo(read.input());
                    read.resume(found)
                }
                Step::Write(write) => {
                    for entry in write.entries().iter() {
                        self.put(entry);
                    }
                    self.put_memo(&write.memo());
                    write.resume()
                }
                Step::Done(value) => return Ok(value),
                Step::Failed(fault) => return Err(fault),
            };
        }
    }
}

fn bound(db_index: u32) -> Node {
    Node::BoundIndex { db_index, _pad: [0u8; 24] }
}

fn lambda(body: CompactCid) -> Node {
    Node::Lambda { body, _pad: [0u8; 8] }
}

fn apply(argument: CompactCid) -> Node {
    Node::Apply { argument, _pad: [0u8; 8] }
}

fn free(index: u32) -> Value {
    Value::Neutral(Neutral::Var(index))
}

fn show(value: &Value) -> String {
    format!("{:?}", value)
}

fn closure_over(tables: &Tables, body: &Node) -> Value {
    let body = tables.save(body);
    Value::Closure { body, env: Env::new() }
}

#[test]
fn environment_counts_from_the_innermost_variable() {
    let outer = Env::new().extend(Value::Universe);
    let inner = outer.extend(free(9));
    assert_eq!(show(&inner.lookup(0)), show(&free(9)));
    assert_eq!(show(&inner.lookup(1)), show(&Value::Universe));
    assert_eq!(show(&inner.lookup(2)), show(&free(2)));
    assert_eq!(show(&outer.lookup(0)), show(&Value::Universe));
    assert_eq!(show(&outer.lookup(1)), show(&free(1)));
    assert_eq!(show(&Env::new().lookup(u32::MAX)), show(&free(u32::MAX)));
    assert_eq!(show(&inner.clone().lookup(1)), show(&Value::Universe));
}

#[test]
fn saved_nodes_are_found() {
    let tables = Tables::new();
    let node = lambda(tables.save(&bound(0)));
    let cid = tables.save(&node);
    assert_eq!(cid, node.calcular_cid());
    assert_eq!(buscar_no(tables.get(cid)), Ok(node));
    assert_eq!(buscar_no(tables.get(bound(0).calcular_cid())), Ok(bound(0)));
    tables.save(&node);
    assert_eq!(buscar_no(tables.get(cid)), Ok(node));
}

#[test]
fn replies_without_a_node_are_faults() {
    assert_eq!(buscar_no(None), Err(Fault::MissingNode));
    assert_eq!(buscar_no(Some([4u8; 32])), Err(Fault::CorruptNode));
    assert_eq!(buscar_no(Some([0u8; 32])), Ok(Node::Universe));
}

#[test]
fn atoms_need_no_store() {
    let env = Env::new().extend(Value::Universe);
    assert!(matches!(eval(Node::Universe, &env), Step::Done(Value::Universe)));
    assert!(matches!(eval(bound(0), &env), Step::Done(Value::Universe)));
    assert!(matches!(eval(bound(5), &env), Step::Done(Value::Neutral(Neutral::Var(5)))));
    let body = CompactCid([3u8; 16]);
    match eval(lambda(body), &env) {
        Step::Done(Value::Closure { body: found, env: closed }) => {
            assert_eq!(found, body);
            assert_eq!(show(&closed.lookup(0)), show(&Value::Universe));
            assert_eq!(show(&closed.lookup(1)), show(&free(1)));
        }
        _ => panic!("not a closure"),
    }
}

#[test]
fn identity_applied_to_the_universe() {
    let tables = Tables::new();
    let body = tables.save(&bound(0));
    let identity = lambda(body);
    tables.save(&identity);
    let closure = tables.run(eval(identity, &Env::new())).unwrap();
    let env = Env::new().extend(closure);
    let value = tables.run(apply_closure(body, &env, Value::Universe)).unwrap();
    let (node, entries) = readback(value);
    assert_eq!(node, Node::Universe);
    assert_eq!(entries, vec![]);
    assert_eq!(node.to_canonical_bytes(), [0u8; 32]);
}

#[test]
fn identity_returns_every_argument() {
    let tables = Tables::new();
    let body = tables.save(&bound(0));
    let stuck = Value::Neutral(Neutral::apply(Neutral::Var(2), free(4)));
    for value in [Value::Universe, free(7), stuck, closure_over(&tables, &Node::Universe)].iter() {
        let found = tables.run(apply_closure(body, &Env::new(), value.clone())).unwrap();
        assert_eq!(show(&found), show(value));
    }
}

#[test]
fn application_enters_the_innermost_closure_and_is_recorded() {
    let tables = Tables::new();
    let argument = tables.save(&Node::Universe);
    let env = Env::new().extend(closure_over(&tables, &bound(0)));
    assert_eq!(tables.get_memo(argument), None);
    let value = tables.run(eval(apply(argument), &env)).unwrap();
    assert!(matches!(value, Value::Universe));
    assert_eq!(tables.get_memo(argument), Some(argument));
}

#[test]
fn later_applications_evaluate_the_recorded_result() {
    let tables = Tables::new();
    let argument = tables.save(&Node::Universe);
    let constant = closure_over(&tables, &lambda(CompactCid([8u8; 16])));
    let first = tables.run(eval(apply(argument), &Env::new().extend(constant))).unwrap();
    assert!(matches!(first, Value::Closure { body: CompactCid([8, ..]), .. }));
    let cached = lambda(CompactCid([8u8; 16])).calcular_cid();
    assert_eq!(tables.get_memo(argument), Some(cached));
    assert_eq!(buscar_no(tables.get(cached)), Ok(lambda(CompactCid([8u8; 16]))));
    let later_env = Env::new().extend(Value::Universe);
    match tables.run(eval(apply(argument), &later_env)).unwrap() {
        Value::Closure { body, env } => {
            assert_eq!(body, CompactCid([8u8; 16]));
            assert_eq!(show(&env.lookup(0)), show(&Value::Universe));
        }
        _ => panic!("not a closure"),
    }
}

#[test]
fn free_heads_get_stuck() {
    let tables = Tables::new();
    let argument = tables.save(&bound(3));
    let outer = tables.save(&apply(argument));
    let value = tables.run(eval(apply(outer), &Env::new())).unwrap();
    let inner = Value::Neutral(Neutral::apply(Neutral::Var(0), free(3)));
    let expected = Value::Neutral(Neutral::apply(Neutral::Var(0), inner));
    assert_eq!(show(&value), show(&expected));
    assert_eq!(tables.get_memo(argument), None);
    assert_eq!(tables.get_memo(outer), None);
}

#[test]
fn stuck_values_are_written_back_innermost_first() {
    let tables = Tables::new();
    let inner = Value::Neutral(Neutral::apply(Neutral::Var(1), free(3)));
    let outer = Value::Neutral(Neutral::apply(Neutral::Var(0), inner));
    let (node, entries) = readback(outer);
    let first = bound(3);
    let second = apply(first.calcular_cid());
    assert_eq!(entries, vec![salvar_no(&first), salvar_no(&second)]);
    assert_eq!(node, apply(second.calcular_cid()));
    for entry in entries.iter() {
        tables.put(entry);
    }
    assert_eq!(buscar_no(tables.get(second.calcular_cid())), Ok(second));
    assert_eq!(buscar_no(tables.get(first.calcular_cid())), Ok(first));
}

#[test]
fn atoms_are_written_back_without_entries() {
    let body = CompactCid([5u8; 16]);
    assert_eq!(readback(Value::Universe), (Node::Universe, vec![]));
    assert_eq!(readback(free(6)), (bound(6), vec![]));
    assert_eq!(readback(Value::Closure { body, env: Env::new() }), (lambda(body), vec![]));
}

#[test]
fn stuck_application_evaluates_back() {
    let tables = Tables::new();
    let stuck = Value::Neutral(Neutral::apply(Neutral::Var(0), free(3)));
    let (node, entries) = readback(stuck.clone());
    for entry in entries.iter() {
        tables.put(entry);
    }
    let value = tables.run(eval(node, &Env::new())).unwrap();
    assert_eq!(show(&value), show(&stuck));
}

#[test]
fn stuck_results_are_recorded_with_their_arguments() {
    let tables = Tables::new();
    let argument = tables.save(&Node::Universe);
    let far = tables.save(&bound(2));
    // The body applies the argument of the closure to a free variable.
    let closure = closure_over(&tables, &apply(far));
    let env = Env::new().extend(closure);
    let fault = tables.run(eval(apply(argument), &env)).unwrap_err();
    assert_eq!(fault, Fault::UniverseApplied);
    let free_argument = tables.save(&bound(9));
    let value = tables.run(eval(apply(free_argument), &env)).unwrap();
    let expected = Value::Neutral(Neutral::apply(Neutral::Var(9), free(2)));
    assert_eq!(show(&value), show(&expected));
    let result = apply(far).calcular_cid();
    assert_eq!(tables.get_memo(free_argument), Some(result));
    assert_eq!(buscar_no(tables.get(result)), Ok(apply(far)));
    assert_eq!(tables.get_memo(argument), None);
}

#[test]
fn universe_cannot_be_applied() {
    let tables = Tables::new();
    let argument = tables.save(&bound(0));
    let env = Env::new().extend(Value::Universe);
    assert_eq!(tables.run(eval(apply(argument), &env)).unwrap_err(), Fault::UniverseApplied);
}

#[test]
fn missing_blocks_stop_the_machine() {
    let tables = Tables::new();
    let absent = CompactCid([1u8; 16]);
    assert_eq!(tables.run(eval(apply(absent), &Env::new())).unwrap_err(), Fault::MissingNode);
    let start = apply_closure(absent, &Env::new(), Value::Universe);
    assert_eq!(tables.run(start).unwrap_err(), Fault::MissingNode);
    let argument = tables.save(&Node::Universe);
    tables.put_memo(&MemoEntry { input: argument, output: absent });
    assert_eq!(tables.run(eval(apply(argument), &Env::new())).unwrap_err(), Fault::MissingNode);
}

#[test]
fn corrupt_blocks_stop_the_machine() {
    let tables = Tables::new();
    let cid = CompactCid([2u8; 16]);
    tables.put(&CasEntry { cid, bytes: [0xffu8; 32] });
    assert_eq!(tables.run(eval(apply(cid), &Env::new())).unwrap_err(), Fault::CorruptNode);
}

#[test]
fn requests_come_in_order() {
    let tables = Tables::new();
    let argument = Node::Universe.calcular_cid();
    let env = Env::new().extend(closure_over(&tables, &bound(0)));
    let read = match eval(apply(argument), &env) {
        Step::ReadNode(read) => read,
        _ => panic!("no read"),
    };
    assert_eq!(read.cid(), argument);
    let memo = match read.resume(Some([0u8; 32])) {
        Step::ReadMemo(memo) => memo,
        _ => panic!("no lookup"),
    };
    assert_eq!(memo.input(), argument);
    let body = match memo.resume(None) {
        Step::ReadNode(body) => body,
        _ => panic!("no read of the body"),
    };
    assert_eq!(body.cid(), bound(0).calcular_cid());
    let write = match body.resume(Some(bound(0).to_canonical_bytes())) {
        Step::Write(write) => write,
        _ => panic!("no write"),
    };
    assert_eq!(*write.entries(), vec![salvar_no(&Node::Universe)]);
    assert_eq!(write.memo(), MemoEntry { input: argument, output: argument });
    assert!(matches!(write.resume(), Step::Done(Value::Universe)));
}

#[test]
fn writes_are_local() {
    let tables = Tables::new();
    let kept = tables.save(&bound(1));
    let before = tables.get(kept);
    tables.save(&bound(2));
    assert_eq!(tables.get(kept), before);
    assert_eq!(tables.memos(), vec![]);
}

#[test]
fn evaluation_keeps_the_store_content_addressed() {
    let tables = Tables::new();
    let argument = tables.save(&bound(1));
    let stuck = Value::Neutral(Neutral::apply(Neutral::Var(7), free(4)));
    let env = Env::new().extend(stuck.clone()).extend(closure_over(&tables, &bound(0)));
    let before = tables.blocks();
    let value = tables.run(eval(apply(argument), &env)).unwrap();
    assert_eq!(show(&value), show(&stuck));
    let after = tables.blocks();
    assert_eq!(after.len(), before.len() + 2);
    for line in before.iter() {
        assert!(after.contains(line));
    }
    for (cid, bytes) in after.iter() {
        let node = Node::from_canonical_bytes(bytes).unwrap();
        assert_eq!(node.calcular_cid().0, *cid);
        assert_eq!(node.to_canonical_bytes(), *bytes);
    }
    assert_eq!(tables.memos().len(), 1);
    for (_, output) in tables.memos().iter() {
        assert!(tables.get(CompactCid(*output)).is_some());
    }
}

#[test]
fn equal_starts_end_equally() {
    let mut shown = vec![];
    for _ in 0..2 {
        let tables = Tables::new();
        let far = tables.save(&bound(2));
        let argument = tables.save(&bound(9));
        let env = Env::new().extend(closure_over(&tables, &apply(far)));
        let value = tables.run(eval(apply(argument), &env)).unwrap();
        shown.push((show(&value), tables.blocks(), tables.memos()));
    }
    assert_eq!(shown[0], shown[1]);
}

#[test]
fn saving_twice_is_saving_once() {
    let tables = Tables::new();
    let node = apply(tables.save(&Node::Universe));
    tables.put(&CasEntry { cid: node.calcular_cid(), bytes: [0xffu8; 32] });
    tables.save(&node);
    let once = tables.blocks();
    tables.save(&node);
    assert_eq!(tables.blocks(), once);
    let line = MemoEntry { input: node.calcular_cid(), output: CompactCid([1u8; 16]) };
    tables.put_memo(&line);
    let once = tables.memos();
    tables.put_memo(&line);
    assert_eq!(tables.memos(), once);
}

#[test]
fn a_dangling_memo_line_does_not_disturb_other_arguments() {
    let tables = Tables::new();
    let dangling = MemoEntry { input: CompactCid([6u8; 16]), output: CompactCid([7u8; 16]) };
    tables.put_memo(&dangling);
    let argument = tables.save(&Node::Universe);
    let env = Env::new().extend(closure_over(&tables, &bound(0)));
    assert!(matches!(tables.run(eval(apply(argument), &env)), Ok(Value::Universe)));
    assert_eq!(tables.get_memo(argument), Some(argument));
    let later = tables.run(eval(apply(argument), &Env::new().extend(free(3))));
    assert!(matches!(later, Ok(Value::Universe)));
    for (cid, bytes) in tables.blocks().iter() {
        assert_eq!(Node::from_canonical_bytes(bytes).unwrap().calcular_cid().0, *cid);
    }
    assert_eq!(tables.get_memo(dangling.input), Some(dangling.output));
}

#[test]
fn parts_of_a_stuck_application_can_be_read() {
    let inner = Neutral::apply(Neutral::Var(1), Value::Universe);
    match Neutral::apply(inner, free(3)) {
        Neutral::Apply(head, argument) => {
            assert!(matches!(argument.get(), Value::Neutral(Neutral::Var(3))));
            assert!(matches!(argument.clone().get(), Value::Neutral(Neutral::Var(3))));
            match head.clone().get() {
                Neutral::Apply(first, last) => {
                    assert!(matches!(first.get(), Neutral::Var(1)));
                    assert!(matches!(last.get(), Value::Universe));
                }
                Neutral::Var(_) => panic!("not an application"),
            }
        }
        Neutral::Var(_) => panic!("not an application"),
    }
}

#[test]
fn pointers_print_what_they_point_to() {
    let stuck = Value::Neutral(Neutral::apply(Neutral::Var(1), free(3)));
    assert_eq!(show(&stuck), "Neutral(Apply(Var(1), Neutral(Var(3))))");
    let env = Env::new().extend(Value::Universe).extend(stuck);
    let expected = "Env { variables: [Universe, Neutral(Apply(Var(1), Neutral(Var(3))))] }";
    assert_eq!(format!("{:?}", env), expected);
}
