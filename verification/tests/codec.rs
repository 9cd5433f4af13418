use axolotl::{CompactCid, Node, OpCode};

const CID: [u8; 16] = [1, 2, 3, 4, 5, 6, 7, 8, 9, 10, 11, 12, 13, 14, 15, 16];

fn bound(db_index: u32) -> Node {
    Node::BoundIndex { db_index, _pad: [0u8; 24] }
}

fn lambda(body: [u8; 16]) -> Node {
    Node::Lambda { body: CompactCid(body), _pad: [0u8; 8] }
}

fn apply(argument: [u8; 16]) -> Node {
    Node::Apply { argument: CompactCid(argument), _pad: [0u8; 8] }
}

fn block(tag: u8, offset: usize, payload: &[u8]) -> [u8; 32] {
    let mut bytes = [0u8; 32];
    bytes[0] = tag;
    bytes[offset..offset + payload.len()].copy_from_slice(payload);
    bytes
}

#[test]
fn tags_are_numbered_in_order() {
    assert_eq!(OpCode::Universe.as_u8(), 0);
    assert_eq!(OpCode::BoundIndex.as_u8(), 1);
    assert_eq!(OpCode::Lambda.as_u8(), 2);
    assert_eq!(OpCode::Apply.as_u8(), 3);
}

#[test]
fn universe_is_all_zero() {
    assert_eq!(Node::Universe.to_canonical_bytes(), [0u8; 32]);
}

#[test]
fn index_is_little_endian_at_offset_four() {
    let expected = block(1, 4, &[0x04, 0x03, 0x02, 0x01]);
    assert_eq!(bound(0x0102_0304).to_canonical_bytes(), expected);
    let expected = block(1, 4, &[0xff, 0xff, 0xff, 0xff]);
    assert_eq!(bound(u32::MAX).to_canonical_bytes(), expected);
}

#[test]
fn identifiers_stand_at_offset_eight() {
    assert_eq!(lambda(CID).to_canonical_bytes(), block(2, 8, &CID));
    assert_eq!(apply(CID).to_canonical_bytes(), block(3, 8, &CID));
}

#[test]
fn canonical_blocks_round_trip() {
    let nodes = [Node::Universe, bound(0), bound(70_000), bound(u32::MAX), lambda(CID), apply(CID)];
    for node in nodes.iter() {
        let bytes = node.to_canonical_bytes();
        let read = Node::from_canonical_bytes(&bytes).unwrap();
        assert_eq!(read, *node);
        assert_eq!(read.to_canonical_bytes(), bytes);
    }
}

#[test]
fn different_nodes_have_different_blocks() {
    let nodes = [Node::Universe, bound(0), bound(1), bound(256), lambda(CID), apply(CID)];
    for (i, a) in nodes.iter().enumerate() {
        for (j, b) in nodes.iter().enumerate() {
            assert_eq!(i == j, a.to_canonical_bytes() == b.to_canonical_bytes());
        }
    }
}

#[test]
fn unknown_tags_are_rejected() {
    for tag in 4..=255u8 {
        assert_eq!(Node::from_canonical_bytes(&block(tag, 8, &CID)), None);
    }
}

#[test]
fn padding_of_a_block_is_not_read() {
    let mut bytes = [0xaau8; 32];
    bytes[0] = 0;
    assert_eq!(Node::from_canonical_bytes(&bytes), Some(Node::Universe));
    bytes[0] = 1;
    bytes[4..8].copy_from_slice(&[7, 0, 0, 0]);
    assert_eq!(Node::from_canonical_bytes(&bytes), Some(bound(7)));
    bytes[0] = 2;
    bytes[8..24].copy_from_slice(&CID);
    assert_eq!(Node::from_canonical_bytes(&bytes), Some(lambda(CID)));
    bytes[0] = 3;
    assert_eq!(Node::from_canonical_bytes(&bytes), Some(apply(CID)));
}

#[test]
fn padding_of_a_node_is_not_written() {
    let dirty = Node::BoundIndex { db_index: 9, _pad: [0x55u8; 24] };
    assert_eq!(dirty.to_canonical_bytes(), bound(9).to_canonical_bytes());
    assert_eq!(dirty.calcular_cid(), bound(9).calcular_cid());
    let read = Node::from_canonical_bytes(&dirty.to_canonical_bytes()).unwrap();
    assert_eq!(read, bound(9));
    assert_ne!(read, dirty);
}

#[test]
fn identifiers_have_known_values() {
    let universe = CompactCid([
        0x5b, 0xaa, 0x24, 0xd1, 0x71, 0x24, 0x7a, 0x15, 0x42, 0x79, 0x9d, 0x3a, 0xdd, 0xf2, 0xf2,
        0x28,
    ]);
    let innermost = CompactCid([
        0x40, 0x22, 0xfa, 0x5d, 0xb3, 0xfa, 0xf4, 0x0e, 0x1f, 0x3c, 0xb3, 0x7b, 0xdc, 0xb8, 0x02,
        0xe8,
    ]);
    let identity = CompactCid([
        0x36, 0x1f, 0x6f, 0xf6, 0x0e, 0x53, 0xea, 0x1a, 0x09, 0xf8, 0x25, 0x85, 0x69, 0xa7, 0xf8,
        0xb1,
    ]);
    let applied = CompactCid([
        0xd1, 0x8a, 0xd0, 0xa5, 0x56, 0xc1, 0x69, 0x5d, 0x00, 0xaa, 0x61, 0x4f, 0x37, 0x8e, 0x41,
        0xbb,
    ]);
    assert_eq!(Node::Universe.calcular_cid(), universe);
    assert_eq!(bound(0).calcular_cid(), innermost);
    assert_eq!(lambda(innermost.0).calcular_cid(), identity);
    assert_eq!(apply(universe.0).calcular_cid(), applied);
    assert_eq!(Node::Universe.calcular_cid_kdf(), universe);
    assert_eq!(bound(0).calcular_cid_kdf(), innermost);
    assert_eq!(lambda(innermost.0).calcular_cid_kdf(), identity);
    assert_eq!(apply(universe.0).calcular_cid_kdf(), applied);
}

#[test]
fn identifiers_are_derived_under_the_context() {
    let context = "Axolotl Merkle DAG Content Identifier v1 Context";
    for node in [Node::Universe, bound(3), lambda(CID), apply(CID)].iter() {
        let key = blake3::derive_key(context, &node.to_canonical_bytes());
        assert_eq!(node.calcular_cid(), CompactCid::truncate(&key));
        assert_eq!(node.calcular_cid_kdf(), CompactCid::truncate(&key));
        assert_ne!(node.calcular_cid().0[..], node.to_canonical_bytes()[..16]);
    }
}

#[test]
fn truncation_keeps_the_first_half() {
    let mut key = [0u8; 32];
    for i in 0..32u8 {
        key[i as usize] = i + 1;
    }
    assert_eq!(CompactCid::truncate(&key), CompactCid(CID));
}

#[test]
fn nodes_take_thirty_two_bytes() {
    assert_eq!(std::mem::size_of::<CompactCid>(), 16);
    assert_eq!(std::mem::size_of::<Node>(), 32);
}
