//! The content-addressed store and the memo table: what is written to them, what is
//! made of what is read from them, and what they hold over time.

use vstd::prelude::*;

use crate::cid::CompactCid;
use crate::node::{Node, Term};

verus! {

/// Why an evaluation cannot go on.
#[derive(Debug, Copy, Clone, PartialEq, Eq)]
pub enum Fault {
    /// The store holds no block under an identifier that the graph refers to.
    MissingNode,
    /// The store holds a block whose tag is not one of the four.
    CorruptNode,
    /// The universe stands where a function is applied.
    UniverseApplied,
}

/// A block to be filed in the store under its identifier.
#[derive(Debug, Copy, Clone, PartialEq, Eq)]
pub struct CasEntry {
    pub cid: CompactCid,
    pub bytes: [u8; 32],
}

/// A line of the memo table: the identifier of an argument and that of the result.
#[derive(Debug, Copy, Clone, PartialEq, Eq)]
pub struct MemoEntry {
    pub input: CompactCid,
    pub output: CompactCid,
}

impl View for CasEntry {
    type V = (CompactCid, Seq<u8>);

    open spec fn view(&self) -> (CompactCid, Seq<u8>) {
        (self.cid, self.bytes@)
    }
}

/// The entries behind a sequence of executable entries.
pub open spec fn entries_view(entries: Seq<CasEntry>) -> Seq<(CompactCid, Seq<u8>)> {
    Seq::new(entries.len(), |i: int| entries[i]@)
}

/// The bytes behind an optional block.
pub open spec fn block_view(found: Option<[u8; 32]>) -> Option<Seq<u8>> {
    match found {
        Some(bytes) => Some(bytes@),
        None => None,
    }
}

/// The entry of a term: its canonical block under its identifier.
pub open spec fn entry_of(term: Term) -> (CompactCid, Seq<u8>) {
    (crate::node::cid_of(term), crate::node::encode(term))
}

/// What a reply of the store is worth as a node.
pub open spec fn fetched(found: Option<Seq<u8>>) -> Result<Term, Fault> {
    match found {
        None => Err(Fault::MissingNode),
        Some(bytes) => match crate::node::decode(bytes) {
            None => Err(Fault::CorruptNode),
            Some(term) => Ok(term),
        },
    }
}

/// The entry that saves a node. Its identifier is that of the node.
pub fn salvar_no(node: &Node) -> (entry: CasEntry)
    ensures
        entry@ == entry_of(node@),
        entry.bytes@ == crate::node::encode(node@),
        entry.cid == crate::node::cid_of(node@),
{
    let cid = node.calcular_cid();
    let bytes = node.to_canonical_bytes();
    CasEntry { cid, bytes }
}

/// The node in a reply of the store, with clean padding.
pub fn buscar_no(found: Option<[u8; 32]>) -> (node: Result<Node, Fault>)
    ensures
        match node {
            Ok(n) => fetched(block_view(found)) == Ok::<Term, Fault>(n@) && n.is_clean(),
            Err(fault) => fetched(block_view(found)) == Err::<Term, Fault>(fault),
        },
        match found {
            None => node == Err::<Node, Fault>(Fault::MissingNode),
            Some(bytes) => if bytes@[0] > 3 {
                node == Err::<Node, Fault>(Fault::CorruptNode)
            } else {
                node matches Ok(n) && crate::node::decode(bytes@) == Some(n@)
            },
        },
{
    match found {
        None => Err(Fault::MissingNode),
        Some(bytes) => match Node::from_canonical_bytes(&bytes) {
            None => Err(Fault::CorruptNode),
            Some(node) => Ok(node),
        },
    }
}

/// What the store and the memo table hold.
#[verifier::ext_equal]
pub ghost struct Store {
    pub cas: Map<CompactCid, Seq<u8>>,
    pub memo: Map<CompactCid, CompactCid>,
}

impl Store {
    /// The store and the memo table before anything is written.
    pub open spec fn empty() -> Store {
        Store { cas: Map::empty(), memo: Map::empty() }
    }

    /// The block under an identifier.
    pub open spec fn block(self, cid: CompactCid) -> Option<Seq<u8>> {
        if self.cas.contains_key(cid) {
            Some(self.cas[cid])
        } else {
            None
        }
    }

    /// The memoized result for the identifier of an argument.
    pub open spec fn memoized(self, input: CompactCid) -> Option<CompactCid> {
        if self.memo.contains_key(input) {
            Some(self.memo[input])
        } else {
            None
        }
    }

    /// The node under an identifier.
    pub open spec fn fetch(self, cid: CompactCid) -> Result<Term, Fault> {
        fetched(self.block(cid))
    }

    /// The store after an entry is written; an entry under the same identifier goes.
    pub open spec fn put(self, entry: (CompactCid, Seq<u8>)) -> Store {
        Store { cas: self.cas.insert(entry.0, entry.1), memo: self.memo }
    }

    /// The store after entries are written one after the other.
    pub open spec fn put_all(self, entries: Seq<(CompactCid, Seq<u8>)>) -> Store
        decreases entries.len(),
    {
        if entries.len() == 0 {
            self
        } else {
            self.put_all(entries.drop_last()).put(entries.last())
        }
    }

    /// The store after a line of the memo table is written; a line for the same input goes.
    pub open spec fn put_memo(self, line: MemoEntry) -> Store {
        Store { cas: self.cas, memo: self.memo.insert(line.input, line.output) }
    }

    /// Every block is canonical and filed under its own identifier.
    pub open spec fn content_addressed(self) -> bool {
        forall|cid: CompactCid| #[trigger]
            self.cas.contains_key(cid) ==> crate::node::is_canonical(self.cas[cid]) && cid
                == crate::cid::cid_of_bytes(self.cas[cid])
    }

    /// Every memoized result is in the store.
    pub open spec fn memo_grounded(self) -> bool {
        forall|input: CompactCid| #[trigger]
            self.memo.contains_key(input) ==> self.cas.contains_key(self.memo[input])
    }

    /// Whatever is in this store or memo table has an entry under the same key in the
    /// other one.
    pub open spec fn kept_in(self, later: Store) -> bool {
        &&& forall|cid: CompactCid| #[trigger]
            self.cas.contains_key(cid) ==> later.cas.contains_key(cid)
        &&& forall|input: CompactCid| #[trigger]
            self.memo.contains_key(input) ==> later.memo.contains_key(input)
    }

    /// The other store has all the keys of this one, and keeps each of the two properties
    /// of a store that this one has.
    pub open spec fn preserved_in(self, later: Store) -> bool {
        &&& self.kept_in(later)
        &&& self.content_addressed() ==> later.content_addressed()
        &&& self.memo_grounded() ==> later.memo_grounded()
    }
}

/// A node that was saved is found under its identifier.
pub proof fn law_read_after_write(store: Store, term: Term)
    ensures
        store.put(entry_of(term)).fetch(crate::node::cid_of(term)) == Ok::<Term, Fault>(term),
{
    crate::node::law_decode_inverts_encode(term);
}

/// Saving a node leaves what is under other identifiers, and the memo table, as it was.
pub proof fn law_write_is_local(store: Store, term: Term, cid: CompactCid)
    requires
        cid != crate::node::cid_of(term),
    ensures
        store.put(entry_of(term)).block(cid) == store.block(cid),
        store.put(entry_of(term)).fetch(cid) == store.fetch(cid),
        store.put(entry_of(term)).memo == store.memo,
{
}

/// Saving a node twice is saving it once.
pub proof fn law_save_is_idempotent(store: Store, term: Term)
    ensures
        store.put(entry_of(term)).put(entry_of(term)) == store.put(entry_of(term)),
{
    let once = store.put(entry_of(term));
    assert(once.put(entry_of(term)).cas =~= once.cas);
}

/// Saving a node that a content-addressed store already holds changes nothing.
pub proof fn law_saving_what_is_held_changes_nothing(store: Store, term: Term)
    requires
        store.content_addressed(),
        store.fetch(crate::node::cid_of(term)) == Ok::<Term, Fault>(term),
    ensures
        store.put(entry_of(term)) == store,
{
    let cid = crate::node::cid_of(term);
    assert(store.cas.contains_key(cid));
    crate::node::law_encode_inverts_decode(store.cas[cid]);
    assert(store.put(entry_of(term)).cas =~= store.cas);
}

/// A result that was memoized is found for its input. Other inputs, and the blocks, are as
/// they were.
pub proof fn law_memo_read_after_write(store: Store, line: MemoEntry, input: CompactCid)
    ensures
        store.put_memo(line).memoized(line.input) == Some(line.output),
        input != line.input ==> store.put_memo(line).memoized(input) == store.memoized(input),
        store.put_memo(line).cas == store.cas,
{
}

/// Memoizing a result twice is memoizing it once.
pub proof fn law_memo_is_idempotent(store: Store, line: MemoEntry)
    ensures
        store.put_memo(line).put_memo(line) == store.put_memo(line),
{
    let once = store.put_memo(line);
    assert(once.put_memo(line).memo =~= once.memo);
}

/// A store without entries is content addressed, and its memo table is grounded.
pub proof fn law_empty_store()
    ensures
        Store::empty().content_addressed(),
        Store::empty().memo_grounded(),
{
}

/// Saving a node loses no key, keeps a store content addressed, keeps a memo table
/// grounded, and files the node.
pub proof fn law_save_preserves_store(store: Store, term: Term)
    ensures
        store.preserved_in(store.put(entry_of(term))),
        store.put(entry_of(term)).cas.contains_key(crate::node::cid_of(term)),
{
    crate::node::law_encode_is_canonical(term);
}

/// Memoizing any pair of identifiers loses no key and keeps a store content addressed. If
/// the result is in the store, it keeps the memo table grounded.
pub proof fn law_memo_preserves_store(store: Store, line: MemoEntry)
    ensures
        store.kept_in(store.put_memo(line)),
        store.content_addressed() ==> store.put_memo(line).content_addressed(),
        store.cas.contains_key(line.output) && store.memo_grounded() ==> store.put_memo(
            line,
        ).memo_grounded(),
{
}

/// A content-addressed store never answers with a corrupt block, and a node that it answers
/// with has the identifier that was asked for.
pub proof fn law_content_addressed_fetch(store: Store, cid: CompactCid)
    requires
        store.content_addressed(),
    ensures
        match store.fetch(cid) {
            Ok(term) => store.cas.contains_key(cid) && crate::node::cid_of(term) == cid,
            Err(fault) => fault == Fault::MissingNode && !store.cas.contains_key(cid),
        },
{
    if store.cas.contains_key(cid) {
        crate::node::law_encode_inverts_decode(store.cas[cid]);
    }
}

/// Where blocks are content addressed and the memo table is grounded, a memoized result is
/// found.
pub proof fn law_memoized_result_is_stored(store: Store, input: CompactCid)
    requires
        store.content_addressed(),
        store.memo_grounded(),
        store.memoized(input) is Some,
    ensures
        store.fetch(store.memoized(input)->Some_0) is Ok,
{
    law_content_addressed_fetch(store, store.memoized(input)->Some_0);
}

/// What the store and the memo table are asked and told, over the two tables themselves: a
/// block or a result is what stands in its table, a missing block and one with an unknown
/// tag are told apart, and writing replaces one line of one table.
pub proof fn law_tables(
    store: Store,
    cid: CompactCid,
    entry: (CompactCid, Seq<u8>),
    line: MemoEntry,
)
    ensures
        store.block(cid) == (if store.cas.contains_key(cid) {
            Some(store.cas[cid])
        } else {
            None
        }),
        store.memoized(cid) == (if store.memo.contains_key(cid) {
            Some(store.memo[cid])
        } else {
            None
        }),
        !store.cas.contains_key(cid) ==> store.fetch(cid) == Err::<Term, Fault>(
            Fault::MissingNode,
        ),
        store.cas.contains_key(cid) && store.cas[cid].len() == 32 ==> match store.fetch(cid) {
            Ok(term) => store.cas[cid][0] <= 3 && crate::node::decode(store.cas[cid]) == Some(term),
            Err(fault) => store.cas[cid][0] > 3 && fault == Fault::CorruptNode,
        },
        store.put(entry).cas == store.cas.insert(entry.0, entry.1),
        store.put(entry).memo == store.memo,
        store.put_memo(line).cas == store.cas,
        store.put_memo(line).memo == store.memo.insert(line.input, line.output),
        Store::empty().cas == Map::<CompactCid, Seq<u8>>::empty(),
        Store::empty().memo == Map::<CompactCid, CompactCid>::empty(),
{
    if store.cas.contains_key(cid) && store.cas[cid].len() == 32 {
        crate::node::law_reading_of_a_block(store.cas[cid]);
    }
}

/// Of entries that are written in a row, the last one for an identifier stays. What is under
/// an identifier that none of them has, and the memo table, stay as they were.
pub proof fn law_last_of_a_row_stays(
    store: Store,
    entries: Seq<(CompactCid, Seq<u8>)>,
    cid: CompactCid,
)
    ensures
        store.put_all(entries).memo == store.memo,
        forall|j: int|
            0 <= j < entries.len() && (#[trigger] entries[j]).0 == cid && (forall|i: int|
                j < i < entries.len() ==> (#[trigger] entries[i]).0 != cid) ==> store.put_all(
                entries,
            ).cas.contains_key(cid) && store.put_all(entries).cas[cid] == entries[j].1,
        (forall|i: int| 0 <= i < entries.len() ==> (#[trigger] entries[i]).0 != cid) ==> {
            &&& store.put_all(entries).cas.contains_key(cid) == store.cas.contains_key(cid)
            &&& store.cas.contains_key(cid) ==> store.put_all(entries).cas[cid] == store.cas[cid]
        },
    decreases entries.len(),
{
    if entries.len() > 0 {
        let rest = entries.drop_last();
        law_last_of_a_row_stays(store, rest, cid);
        assert forall|j: int|
            0 <= j < entries.len() && (#[trigger] entries[j]).0 == cid && (forall|i: int|
                j < i < entries.len() ==> (#[trigger] entries[i]).0
                    != cid) implies store.put_all(entries).cas.contains_key(cid) && store.put_all(
            entries,
        ).cas[cid] == entries[j].1 by {
            if j < rest.len() {
                assert(rest[j] == entries[j]);
                assert(entries[rest.len() as int].0 != cid);
                assert forall|i: int| j < i < rest.len() implies (#[trigger] rest[i]).0 != cid by {
                    assert(rest[i] == entries[i]);
                }
            }
        }
        if forall|i: int| 0 <= i < entries.len() ==> (#[trigger] entries[i]).0 != cid {
            assert forall|i: int| 0 <= i < rest.len() implies (#[trigger] rest[i]).0 != cid by {
                assert(rest[i] == entries[i]);
            }
            assert(entries[rest.len() as int].0 != cid);
        }
    }
}

/// What an entry stands for, what a row of them stands for, and what the entry of a term is.
pub proof fn law_meaning_of_entries(entry: CasEntry, entries: Seq<CasEntry>, term: Term)
    ensures
        entry@ == (entry.cid, entry.bytes@),
        entries_view(entries).len() == entries.len(),
        forall|i: int|
            0 <= i < entries.len() ==> #[trigger] entries_view(entries)[i] == (
                entries[i].cid,
                entries[i].bytes@,
            ),
        entry_of(term) == (crate::node::cid_of(term), crate::node::encode(term)),
{
}

/// What a reply of the store stands for, and what it is worth as a node.
pub proof fn law_meaning_of_replies(bytes: [u8; 32])
    ensures
        block_view(None) == None::<Seq<u8>>,
        block_view(Some(bytes)) == Some(bytes@),
        fetched(None) == Err::<Term, Fault>(Fault::MissingNode),
        match fetched(Some(bytes@)) {
            Ok(term) => bytes@[0] <= 3 && crate::node::decode(bytes@) == Some(term),
            Err(fault) => bytes@[0] > 3 && fault == Fault::CorruptNode,
        },
{
    crate::node::law_reading_of_a_block(bytes@);
}

/// What the properties of a store say of its two tables.
pub proof fn law_meaning_of_store_properties(store: Store, later: Store)
    ensures
        store.content_addressed() <==> (forall|cid: CompactCid| #[trigger]
            store.cas.contains_key(cid) ==> exists|term: Term|
                store.cas[cid] == #[trigger] crate::node::encode(term) && cid
                    == crate::node::cid_of(term)),
        store.memo_grounded() <==> (forall|input: CompactCid| #[trigger]
            store.memo.contains_key(input) ==> store.cas.contains_key(store.memo[input])),
        store.kept_in(later) <==> store.cas.dom().subset_of(later.cas.dom())
            && store.memo.dom().subset_of(later.memo.dom()),
        store.preserved_in(later) <==> {
            &&& store.kept_in(later)
            &&& store.content_addressed() ==> later.content_addressed()
            &&& store.memo_grounded() ==> later.memo_grounded()
        },
{
    assert forall|cid: CompactCid| #[trigger] store.cas.contains_key(cid) implies ((
    crate::node::is_canonical(store.cas[cid]) && cid == crate::cid::cid_of_bytes(store.cas[cid]))
        <==> exists|term: Term|
        store.cas[cid] == #[trigger] crate::node::encode(term) && cid == crate::node::cid_of(
            term,
        )) by {
        crate::node::law_canonical_blocks_are_those_of_terms(store.cas[cid]);
    }
    if store.kept_in(later) {
        assert forall|cid: CompactCid| store.cas.dom().contains(cid) implies #[trigger]
            later.cas.dom().contains(cid) by {
            assert(store.cas.contains_key(cid));
        }
        assert forall|input: CompactCid| store.memo.dom().contains(input) implies #[trigger]
            later.memo.dom().contains(input) by {
            assert(store.memo.contains_key(input));
        }
    }
    if store.cas.dom().subset_of(later.cas.dom()) && store.memo.dom().subset_of(
        later.memo.dom(),
    ) {
        assert forall|cid: CompactCid| #[trigger]
            store.cas.contains_key(cid) implies later.cas.contains_key(cid) by {
            assert(store.cas.dom().contains(cid));
        }
        assert forall|input: CompactCid| #[trigger]
            store.memo.contains_key(input) implies later.memo.contains_key(input) by {
            assert(store.memo.dom().contains(input));
        }
    }
}

} // verus!
