//! The atomic node of the graph and its canonical form of thirty-two bytes.

use vstd::prelude::*;

use crate::cid::{cid_at, derive_key, derive_key_xof, CompactCid, CID_CONTEXT};

verus! {

/// Number of bytes of a canonical block.
pub const NODE_LEN: usize = 32;

/// Tags that start a canonical block, one for each kind of node.
#[derive(Debug, Copy, Clone, PartialEq, Eq)]
pub enum OpCode {
    Universe,
    BoundIndex,
    Lambda,
    Apply,
}

impl OpCode {
    /// The tag byte.
    pub open spec fn tag(self) -> u8 {
        match self {
            OpCode::Universe => 0,
            OpCode::BoundIndex => 1,
            OpCode::Lambda => 2,
            OpCode::Apply => 3,
        }
    }

    /// The tag byte.
    pub fn as_u8(self) -> (byte: u8)
        ensures
            byte == self.tag(),
            self == OpCode::Universe ==> byte == 0,
            self == OpCode::BoundIndex ==> byte == 1,
            self == OpCode::Lambda ==> byte == 2,
            self == OpCode::Apply ==> byte == 3,
    {
        match self {
            OpCode::Universe => 0,
            OpCode::BoundIndex => 1,
            OpCode::Lambda => 2,
            OpCode::Apply => 3,
        }
    }
}

/// A node of the graph: terms, types and values alike.
#[derive(Debug, Copy, Clone, PartialEq, Eq)]
#[allow(inconsistent_fields)]
pub enum Node {
    /// The universe.
    Universe,
    /// A variable, as a De Bruijn index.
    BoundIndex { db_index: u32, _pad: [u8; 24] },
    /// An abstraction, by the identifier of its body.
    Lambda { body: CompactCid, _pad: [u8; 8] },
    /// An application to one argument, by the identifier of the argument.
    Apply { argument: CompactCid, _pad: [u8; 8] },
}

/// What a node says, apart from its padding.
#[verifier::ext_equal]
pub ghost enum Term {
    Universe,
    BoundIndex(u32),
    Lambda(CompactCid),
    Apply(CompactCid),
}

impl Term {
    /// The tag of the term.
    pub open spec fn opcode(self) -> OpCode {
        match self {
            Term::Universe => OpCode::Universe,
            Term::BoundIndex(_) => OpCode::BoundIndex,
            Term::Lambda(_) => OpCode::Lambda,
            Term::Apply(_) => OpCode::Apply,
        }
    }
}

impl View for Node {
    type V = Term;

    open spec fn view(&self) -> Term {
        match *self {
            Node::Universe => Term::Universe,
            Node::BoundIndex { db_index, .. } => Term::BoundIndex(db_index),
            Node::Lambda { body, .. } => Term::Lambda(body),
            Node::Apply { argument, .. } => Term::Apply(argument),
        }
    }
}

/// Every byte of a sequence is zero.
pub open spec fn all_zero(bytes: Seq<u8>) -> bool {
    forall|i: int| 0 <= i < bytes.len() ==> bytes[i] == 0
}

/// The four bytes of an index, lowest first.
pub open spec fn le_bytes(x: u32) -> Seq<u8> {
    seq![
        (x % 0x100) as u8,
        (x / 0x100 % 0x100) as u8,
        (x / 0x1_0000 % 0x100) as u8,
        (x / 0x100_0000) as u8,
    ]
}

/// The index whose four bytes, lowest first, are given.
pub open spec fn le_value(bytes: Seq<u8>) -> u32 {
    (bytes[0] + 0x100 * bytes[1] + 0x1_0000 * bytes[2] + 0x100_0000 * bytes[3]) as u32
}

/// A block of thirty-two bytes: the tag, a payload at an offset, and zeros elsewhere.
pub open spec fn block(opcode: OpCode, offset: int, payload: Seq<u8>) -> Seq<u8> {
    Seq::new(
        NODE_LEN as nat,
        |i: int|
            if i == 0 {
                opcode.tag()
            } else if offset <= i < offset + payload.len() {
                payload[i - offset]
            } else {
                0
            },
    )
}

/// The canonical block of a term.
pub open spec fn encode(term: Term) -> Seq<u8> {
    match term {
        Term::Universe => block(OpCode::Universe, 1, Seq::empty()),
        Term::BoundIndex(index) => block(OpCode::BoundIndex, 4, le_bytes(index)),
        Term::Lambda(body) => block(OpCode::Lambda, 8, body@),
        Term::Apply(argument) => block(OpCode::Apply, 8, argument@),
    }
}

/// The term that a block of thirty-two bytes stands for, if its tag is one of the four.
/// Only the tag and the payload are read.
pub open spec fn decode(bytes: Seq<u8>) -> Option<Term> {
    if bytes[0] == OpCode::Universe.tag() {
        Some(Term::Universe)
    } else if bytes[0] == OpCode::BoundIndex.tag() {
        Some(Term::BoundIndex(le_value(bytes.subrange(4, 8))))
    } else if bytes[0] == OpCode::Lambda.tag() {
        Some(Term::Lambda(cid_at(bytes, 8)))
    } else if bytes[0] == OpCode::Apply.tag() {
        Some(Term::Apply(cid_at(bytes, 8)))
    } else {
        None
    }
}

/// A block with one of the four tags whose bytes outside the payload are zero.
pub open spec fn is_canonical(bytes: Seq<u8>) -> bool {
    &&& bytes.len() == NODE_LEN
    &&& if bytes[0] == OpCode::Universe.tag() {
        all_zero(bytes.subrange(1, 32))
    } else if bytes[0] == OpCode::BoundIndex.tag() {
        all_zero(bytes.subrange(1, 4)) && all_zero(bytes.subrange(8, 32))
    } else {
        &&& bytes[0] == OpCode::Lambda.tag() || bytes[0] == OpCode::Apply.tag()
        &&& all_zero(bytes.subrange(1, 8))
        &&& all_zero(bytes.subrange(24, 32))
    }
}

/// The identifier of a term: that of its canonical block.
pub open spec fn cid_of(term: Term) -> CompactCid {
    crate::cid::cid_of_bytes(encode(term))
}

/// Writes an identifier into a block at its place.
fn put_cid(buffer: &mut [u8; 32], cid: &CompactCid)
    ensures
        forall|i: int|
            0 <= i < 32 ==> final(buffer)@[i] == if 8 <= i < 24 {
                cid@[i - 8]
            } else {
                old(buffer)@[i]
            },
{
    let mut i: usize = 0;
    while i < 16
        invariant
            i <= 16,
            forall|j: int|
                0 <= j < 32 ==> buffer@[j] == if 8 <= j < 8 + i {
                    cid@[j - 8]
                } else {
                    old(buffer)@[j]
                },
        decreases 16 - i,
    {
        buffer[8 + i] = cid.0[i];
        i = i + 1;
    }
}

/// Reads the identifier of a block.
fn get_cid(bytes: &[u8; 32]) -> (cid: CompactCid)
    ensures
        cid == cid_at(bytes@, 8),
{
    let mut cid_bytes: [u8; 16] = [0u8; 16];
    let mut i: usize = 0;
    while i < 16
        invariant
            i <= 16,
            forall|j: int| 0 <= j < i ==> cid_bytes@[j] == bytes@[8 + j],
        decreases 16 - i,
    {
        cid_bytes[i] = bytes[8 + i];
        i = i + 1;
    }
    proof {
        crate::cid::lemma_cid_at(CompactCid(cid_bytes), bytes@, 8);
    }
    CompactCid(cid_bytes)
}

impl Node {
    /// The padding of the node is zero.
    pub open spec fn is_clean(self) -> bool {
        match self {
            Node::Universe => true,
            Node::BoundIndex { _pad, .. } => all_zero(_pad@),
            Node::Lambda { _pad, .. } => all_zero(_pad@),
            Node::Apply { _pad, .. } => all_zero(_pad@),
        }
    }

    /// The canonical block of the node. The padding of the node is not read.
    pub fn to_canonical_bytes(&self) -> (bytes: [u8; 32])
        ensures
            bytes@ == encode(self@),
            match *self {
                Node::Universe => forall|i: int| 0 <= i < 32 ==> #[trigger] bytes@[i] == 0,
                Node::BoundIndex { db_index, .. } => {
                    &&& bytes@[0] == 1
                    &&& bytes@[4] + 0x100 * bytes@[5] + 0x1_0000 * bytes@[6] + 0x100_0000 * bytes@[7]
                        == db_index
                    &&& forall|i: int| 1 <= i < 4 || 8 <= i < 32 ==> #[trigger] bytes@[i] == 0
                },
                Node::Lambda { body, .. } => {
                    &&& bytes@[0] == 2
                    &&& forall|i: int| 8 <= i < 24 ==> #[trigger] bytes@[i] == body.0@[i - 8]
                    &&& forall|i: int| 1 <= i < 8 || 24 <= i < 32 ==> #[trigger] bytes@[i] == 0
                },
                Node::Apply { argument, .. } => {
                    &&& bytes@[0] == 3
                    &&& forall|i: int| 8 <= i < 24 ==> #[trigger] bytes@[i] == argument.0@[i - 8]
                    &&& forall|i: int| 1 <= i < 8 || 24 <= i < 32 ==> #[trigger] bytes@[i] == 0
                },
            },
    {
        proof {
            law_block_of_a_node(*self);
        }
        let mut buffer: [u8; 32] = [0u8; 32];
        match self {
            Node::Universe => {
                buffer[0] = OpCode::Universe.as_u8();
            },
            Node::BoundIndex { db_index, .. } => {
                let index: u32 = *db_index;
                buffer[0] = OpCode::BoundIndex.as_u8();
                buffer[4] = (index % 0x100) as u8;
                buffer[5] = (index / 0x100 % 0x100) as u8;
                buffer[6] = (index / 0x1_0000 % 0x100) as u8;
                buffer[7] = (index / 0x100_0000) as u8;
            },
            Node::Lambda { body, .. } => {
                buffer[0] = OpCode::Lambda.as_u8();
                put_cid(&mut buffer, body);
            },
            Node::Apply { argument, .. } => {
                buffer[0] = OpCode::Apply.as_u8();
                put_cid(&mut buffer, argument);
            },
        }
        assert(buffer@ =~= encode(self@));
        buffer
    }

    /// The identifier of the node: sixteen bytes of the extendable output of the
    /// derivation, over the canonical block.
    pub fn calcular_cid(&self) -> (cid: CompactCid)
        ensures
            cid == cid_of(self@),
            forall|i: int|
                0 <= i < 16 ==> #[trigger] cid.0@[i] == crate::cid::derived_key(
                    "Axolotl Merkle DAG Content Identifier v1 Context"@,
                    encode(self@),
                )[i],
    {
        proof {
            law_cid_of_a_term(self@);
        }
        let block = self.to_canonical_bytes();
        CompactCid(derive_key_xof(CID_CONTEXT, block.as_slice()))
    }

    /// The identifier of the node: the one-shot derived key of the canonical block,
    /// cut to sixteen bytes. It is the identifier that `calcular_cid` gives.
    pub fn calcular_cid_kdf(&self) -> (cid: CompactCid)
        ensures
            cid == cid_of(self@),
            forall|i: int|
                0 <= i < 16 ==> #[trigger] cid.0@[i] == crate::cid::derived_key(
                    "Axolotl Merkle DAG Content Identifier v1 Context"@,
                    encode(self@),
                )[i],
    {
        proof {
            law_cid_of_a_term(self@);
        }
        let block = self.to_canonical_bytes();
        let key = derive_key(CID_CONTEXT, block.as_slice());
        CompactCid::truncate(&key)
    }

    /// The node that a block stands for, with clean padding; none exactly if the tag
    /// is not one of the four. Bytes outside the tag and the payload are not read.
    pub fn from_canonical_bytes(bytes: &[u8; 32]) -> (node: Option<Node>)
        ensures
            node is Some <==> decode(bytes@) is Some,
            node matches Some(n) ==> decode(bytes@) == Some(n@) && n.is_clean(),
            match node {
                None => bytes@[0] > 3,
                Some(Node::Universe) => bytes@[0] == 0,
                Some(Node::BoundIndex { db_index, _pad }) => {
                    &&& bytes@[0] == 1
                    &&& db_index == bytes@[4] + 0x100 * bytes@[5] + 0x1_0000 * bytes@[6] + 0x100_0000 * bytes@[7]
                    &&& forall|i: int| 0 <= i < 24 ==> #[trigger] _pad@[i] == 0
                },
                Some(Node::Lambda { body, _pad }) => {
                    &&& bytes@[0] == 2
                    &&& forall|i: int| 0 <= i < 16 ==> #[trigger] body.0@[i] == bytes@[8 + i]
                    &&& forall|i: int| 0 <= i < 8 ==> #[trigger] _pad@[i] == 0
                },
                Some(Node::Apply { argument, _pad }) => {
                    &&& bytes@[0] == 3
                    &&& forall|i: int| 0 <= i < 16 ==> #[trigger] argument.0@[i] == bytes@[8 + i]
                    &&& forall|i: int| 0 <= i < 8 ==> #[trigger] _pad@[i] == 0
                },
            },
    {
        proof {
            crate::cid::lemma_cid_at(cid_at(bytes@, 8), bytes@, 8);
        }
        let tag: u8 = bytes[0];
        if tag == OpCode::Universe.as_u8() {
            Some(Node::Universe)
        } else if tag == OpCode::BoundIndex.as_u8() {
            let db_index: u32 = bytes[4] as u32 + 0x100 * bytes[5] as u32 + 0x1_0000
                * bytes[6] as u32 + 0x100_0000 * bytes[7] as u32;
            Some(Node::BoundIndex { db_index, _pad: [0u8; 24] })
        } else if tag == OpCode::Lambda.as_u8() {
            Some(Node::Lambda { body: get_cid(bytes), _pad: [0u8; 8] })
        } else if tag == OpCode::Apply.as_u8() {
            Some(Node::Apply { argument: get_cid(bytes), _pad: [0u8; 8] })
        } else {
            None
        }
    }
}

/// The first byte of a canonical block is the tag of the term, so that the blocks of
/// terms of different kinds differ.
pub proof fn law_tag_separates_domains(a: Term, b: Term)
    requires
        a.opcode() != b.opcode(),
    ensures
        encode(a)[0] == a.opcode().tag(),
        encode(a)[0] != encode(b)[0],
        encode(a) != encode(b),
{
}

/// An index is the value of its four bytes.
proof fn lemma_index_round_trip(x: u32)
    ensures
        le_value(le_bytes(x)) == x,
{
    assert(x % 0x100 + 0x100 * (x / 0x100 % 0x100) + 0x1_0000 * (x / 0x1_0000 % 0x100)
        + 0x100_0000 * (x / 0x100_0000) == x) by (bit_vector);
    assert(x / 0x100_0000 < 0x100) by (bit_vector);
}

/// Four bytes are the bytes of their value.
proof fn lemma_bytes_round_trip(bytes: Seq<u8>)
    requires
        bytes.len() == 4,
    ensures
        le_bytes(le_value(bytes)) == bytes,
{
    let (a, b, c, d) = (bytes[0], bytes[1], bytes[2], bytes[3]);
    let x = le_value(bytes);
    assert(x == a + 0x100 * b + 0x1_0000 * c + 0x100_0000 * d);
    assert(x % 0x100 == a && x / 0x100 % 0x100 == b && x / 0x1_0000 % 0x100 == c && x / 0x100_0000
        == d) by (bit_vector)
        requires
            x == a + 0x100 * b + 0x1_0000 * c + 0x100_0000 * d,
    ;
    assert(le_bytes(x) =~= bytes);
}

/// A canonical block is read back as the term that it was written for.
pub proof fn law_decode_inverts_encode(term: Term)
    ensures
        encode(term).len() == NODE_LEN,
        decode(encode(term)) == Some(term),
{
    let bytes = encode(term);
    match term {
        Term::Universe => {},
        Term::BoundIndex(index) => {
            assert(bytes.subrange(4, 8) =~= le_bytes(index));
            lemma_index_round_trip(index);
        },
        Term::Lambda(body) => {
            crate::cid::lemma_cid_at(body, bytes, 8);
        },
        Term::Apply(argument) => {
            crate::cid::lemma_cid_at(argument, bytes, 8);
        },
    }
}

/// Different terms have different canonical blocks.
pub proof fn law_encode_is_injective(a: Term, b: Term)
    requires
        encode(a) == encode(b),
    ensures
        a == b,
{
    law_decode_inverts_encode(a);
    law_decode_inverts_encode(b);
}

/// What is written is canonical.
pub proof fn law_encode_is_canonical(term: Term)
    ensures
        is_canonical(encode(term)),
{
}

/// A canonical block that is read and written again comes out unchanged.
pub proof fn law_encode_inverts_decode(bytes: Seq<u8>)
    requires
        is_canonical(bytes),
    ensures
        decode(bytes) matches Some(term) && encode(term) == bytes,
{
    let term = decode(bytes)->Some_0;
    crate::cid::lemma_cid_at(cid_at(bytes, 8), bytes, 8);
    assert forall|i: int| 0 <= i < 32 implies encode(term)[i] == bytes[i] by {
        if bytes[0] == OpCode::Universe.tag() {
            if i > 0 {
                assert(bytes.subrange(1, 32)[i - 1] == 0);
            }
        } else if bytes[0] == OpCode::BoundIndex.tag() {
            lemma_bytes_round_trip(bytes.subrange(4, 8));
            if 1 <= i < 4 {
                assert(bytes.subrange(1, 4)[i - 1] == 0);
            } else if 8 <= i {
                assert(bytes.subrange(8, 32)[i - 8] == 0);
            }
        } else {
            if 1 <= i < 8 {
                assert(bytes.subrange(1, 8)[i - 1] == 0);
            } else if 8 <= i < 24 {
                assert(cid_at(bytes, 8)@[i - 8] == bytes[8 + (i - 8)]);
            } else if 24 <= i {
                assert(bytes.subrange(24, 32)[i - 24] == 0);
            }
        }
    }
    assert(encode(term) =~= bytes);
}

/// A node with clean padding is read back as itself: any node with clean padding that
/// the canonical block of `node` decodes to is `node`.
pub proof fn law_clean_node_round_trip(node: Node, read: Node)
    requires
        node.is_clean(),
        read.is_clean(),
        decode(encode(node@)) == Some(read@),
    ensures
        read == node,
{
    law_decode_inverts_encode(node@);
    match (node, read) {
        (Node::BoundIndex { _pad: p, .. }, Node::BoundIndex { _pad: q, .. }) => {
            assert(p =~= q);
        },
        (Node::Lambda { _pad: p, .. }, Node::Lambda { _pad: q, .. }) => {
            assert(p =~= q);
        },
        (Node::Apply { _pad: p, .. }, Node::Apply { _pad: q, .. }) => {
            assert(p =~= q);
        },
        _ => {},
    }
}

/// Where the parts of a node stand in its canonical block: the tag first, the index at
/// offset four with its lowest byte first, an identifier at offset eight, zeros elsewhere.
pub proof fn law_block_of_a_node(node: Node)
    ensures
        encode(node@).len() == 32,
        match node {
            Node::Universe => forall|i: int| 0 <= i < 32 ==> #[trigger] encode(node@)[i] == 0,
            Node::BoundIndex { db_index, .. } => {
                &&& encode(node@)[0] == 1
                &&& encode(node@)[4] + 0x100 * encode(node@)[5] + 0x1_0000 * encode(node@)[6] + 0x100_0000 * encode(node@)[7]
                    == db_index
                &&& forall|i: int| 1 <= i < 4 || 8 <= i < 32 ==> #[trigger] encode(node@)[i] == 0
            },
            Node::Lambda { body, .. } => {
                &&& encode(node@)[0] == 2
                &&& forall|i: int| 8 <= i < 24 ==> #[trigger] encode(node@)[i] == body.0@[i - 8]
                &&& forall|i: int| 1 <= i < 8 || 24 <= i < 32 ==> #[trigger] encode(node@)[i] == 0
            },
            Node::Apply { argument, .. } => {
                &&& encode(node@)[0] == 3
                &&& forall|i: int| 8 <= i < 24 ==> #[trigger] encode(node@)[i] == argument.0@[i - 8]
                &&& forall|i: int| 1 <= i < 8 || 24 <= i < 32 ==> #[trigger] encode(node@)[i] == 0
            },
        },
{
    if let Node::BoundIndex { db_index, .. } = node {
        lemma_index_sum(db_index);
    }
}

/// Where the parts of a term stand in its canonical block.
pub proof fn law_block_of_a_term(term: Term)
    ensures
        encode(term).len() == 32,
        match term {
            Term::Universe => forall|i: int| 0 <= i < 32 ==> #[trigger] encode(term)[i] == 0,
            Term::BoundIndex(db_index) => {
                &&& encode(term)[0] == 1
                &&& encode(term)[4] + 0x100 * encode(term)[5] + 0x1_0000 * encode(term)[6] + 0x100_0000 * encode(term)[7]
                    == db_index
                &&& forall|i: int| 1 <= i < 4 || 8 <= i < 32 ==> #[trigger] encode(term)[i] == 0
            },
            Term::Lambda(body) => {
                &&& encode(term)[0] == 2
                &&& forall|i: int| 8 <= i < 24 ==> #[trigger] encode(term)[i] == body.0@[i - 8]
                &&& forall|i: int| 1 <= i < 8 || 24 <= i < 32 ==> #[trigger] encode(term)[i] == 0
            },
            Term::Apply(argument) => {
                &&& encode(term)[0] == 3
                &&& forall|i: int| 8 <= i < 24 ==> #[trigger] encode(term)[i] == argument.0@[i - 8]
                &&& forall|i: int| 1 <= i < 8 || 24 <= i < 32 ==> #[trigger] encode(term)[i] == 0
            },
        },
{
    if let Term::BoundIndex(index) = term {
        lemma_index_sum(index);
    }
}

/// The four bytes of an index, weighed by their places, add up to the index.
proof fn lemma_index_sum(x: u32)
    ensures
        ({
            let bytes = le_bytes(x);
            bytes[0] + 0x100 * bytes[1] + 0x1_0000 * bytes[2] + 0x100_0000 * bytes[3] == x
        }),
{
    assert(x % 0x100 + 0x100 * (x / 0x100 % 0x100) + 0x1_0000 * (x / 0x1_0000 % 0x100)
        + 0x100_0000 * (x / 0x100_0000) == x) by (bit_vector);
    assert(x / 0x100_0000 < 0x100) by (bit_vector);
}

/// What a block of thirty-two bytes is read as: its tag tells the kind, four bytes from
/// offset four an index with its lowest byte first, sixteen bytes from offset eight an
/// identifier. Nothing else in it matters.
pub proof fn law_reading_of_a_block(bytes: Seq<u8>)
    requires
        bytes.len() == 32,
    ensures
        match decode(bytes) {
            None => bytes[0] > 3,
            Some(Term::Universe) => bytes[0] == 0,
            Some(Term::BoundIndex(index)) => bytes[0] == 1 && index == bytes[4] + 0x100 * bytes[5]
                + 0x1_0000 * bytes[6] + 0x100_0000 * bytes[7],
            Some(Term::Lambda(body)) => bytes[0] == 2 && forall|i: int|
                0 <= i < 16 ==> #[trigger] body.0@[i] == bytes[8 + i],
            Some(Term::Apply(argument)) => bytes[0] == 3 && forall|i: int|
                0 <= i < 16 ==> #[trigger] argument.0@[i] == bytes[8 + i],
        },
{
    crate::cid::lemma_cid_at(cid_at(bytes, 8), bytes, 8);
}

/// What a node says, apart from its padding, and when that padding is clean.
pub proof fn law_term_of_a_node(node: Node)
    ensures
        match node {
            Node::Universe => node@ == Term::Universe && node.is_clean(),
            Node::BoundIndex { db_index, _pad } => {
                &&& node@ == Term::BoundIndex(db_index)
                &&& node.is_clean() <==> forall|i: int| 0 <= i < 24 ==> #[trigger] _pad@[i] == 0
            },
            Node::Lambda { body, _pad } => {
                &&& node@ == Term::Lambda(body)
                &&& node.is_clean() <==> forall|i: int| 0 <= i < 8 ==> #[trigger] _pad@[i] == 0
            },
            Node::Apply { argument, _pad } => {
                &&& node@ == Term::Apply(argument)
                &&& node.is_clean() <==> forall|i: int| 0 <= i < 8 ==> #[trigger] _pad@[i] == 0
            },
        },
{
}

/// The canonical blocks are the blocks of the terms, and no others.
pub proof fn law_canonical_blocks_are_those_of_terms(bytes: Seq<u8>)
    ensures
        is_canonical(bytes) <==> exists|term: Term| #[trigger] encode(term) == bytes,
{
    if is_canonical(bytes) {
        law_encode_inverts_decode(bytes);
        assert(encode(decode(bytes)->Some_0) == bytes);
    }
    if exists|term: Term| #[trigger] encode(term) == bytes {
        let term = choose|term: Term| #[trigger] encode(term) == bytes;
        law_encode_is_canonical(term);
    }
}

/// The identifier of a term is the first half of the key that is derived, under the one
/// context string, from its whole canonical block.
pub proof fn law_cid_of_a_term(term: Term)
    ensures
        forall|i: int|
            0 <= i < 16 ==> #[trigger] cid_of(term).0@[i] == crate::cid::derived_key(
                "Axolotl Merkle DAG Content Identifier v1 Context"@,
                encode(term),
            )[i],
{
    assert forall|i: int| 0 <= i < 16 implies #[trigger] cid_of(term).0@[i]
        == crate::cid::derived_key(
        "Axolotl Merkle DAG Content Identifier v1 Context"@,
        encode(term),
    )[i] by {
        crate::cid::law_cid_is_the_derived_key_of_the_block(encode(term), i);
    }
}

/// Where no two canonical blocks have derived keys that agree in their first half, no two
/// terms have one identifier.
pub proof fn law_cids_are_as_distinct_as_derived_keys(a: Term, b: Term)
    requires
        forall|x: Seq<u8>, y: Seq<u8>|
            #[trigger] is_canonical(x) && #[trigger] is_canonical(y) && (forall|i: int|
                0 <= i < 16 ==> #[trigger] crate::cid::derived_key(
                    "Axolotl Merkle DAG Content Identifier v1 Context"@,
                    x,
                )[i] == crate::cid::derived_key(
                    "Axolotl Merkle DAG Content Identifier v1 Context"@,
                    y,
                )[i]) ==> x == y,
        cid_of(a) == cid_of(b),
    ensures
        a == b,
{
    law_encode_is_canonical(a);
    law_encode_is_canonical(b);
    crate::cid::law_cids_agree_where_keys_agree(encode(a), encode(b));
    assert(is_canonical(encode(a)) && is_canonical(encode(b)));
    law_encode_is_injective(a, b);
}

} // verus!
