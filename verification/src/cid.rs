//! Compact content identifiers and the key derivation that produces them.

use vstd::prelude::*;

verus! {

/// Domain separation string of the content identifiers.
pub const CID_CONTEXT: &'static str = "Axolotl Merkle DAG Content Identifier v1 Context";

/// A content identifier of sixteen bytes: a BLAKE3 derived key, cut short.
#[derive(Debug, Copy, Clone, PartialEq, Eq, PartialOrd, Ord)]
pub struct CompactCid(pub [u8; 16]);

impl View for CompactCid {
    type V = Seq<u8>;

    open spec fn view(&self) -> Seq<u8> {
        self.0@
    }
}

/// What `blake3::derive_key` returns for a context string and key material.
pub uninterp spec fn derived_key(context: Seq<char>, material: Seq<u8>) -> Seq<u8>;

/// The identifier made of the sixteen bytes from an offset on.
pub open spec fn cid_at(bytes: Seq<u8>, offset: int) -> CompactCid {
    CompactCid(
        [
            bytes[offset],
            bytes[offset + 1],
            bytes[offset + 2],
            bytes[offset + 3],
            bytes[offset + 4],
            bytes[offset + 5],
            bytes[offset + 6],
            bytes[offset + 7],
            bytes[offset + 8],
            bytes[offset + 9],
            bytes[offset + 10],
            bytes[offset + 11],
            bytes[offset + 12],
            bytes[offset + 13],
            bytes[offset + 14],
            bytes[offset + 15],
        ],
    )
}

/// The identifier of a block of canonical bytes: the first sixteen bytes of the key that
/// is derived from it.
pub open spec fn cid_of_bytes(bytes: Seq<u8>) -> CompactCid {
    cid_at(derived_key(CID_CONTEXT@, bytes), 0)
}

/// An identifier is the one at an offset exactly if its bytes are the ones from there on.
pub proof fn lemma_cid_at(cid: CompactCid, bytes: Seq<u8>, offset: int)
    ensures
        cid == cid_at(bytes, offset) <==> forall|i: int|
            0 <= i < 16 ==> #[trigger] cid@[i] == bytes[offset + i],
{
    let found = cid_at(bytes, offset);
    assert forall|i: int| 0 <= i < 16 implies #[trigger] found@[i] == bytes[offset + i] by {}
    if forall|i: int| 0 <= i < 16 ==> #[trigger] cid@[i] == bytes[offset + i] {
        assert forall|i: int| 0 <= i < 16 implies cid.0[i] == found.0[i] by {
            assert(cid@[i] == bytes[offset + i]);
            assert(found@[i] == bytes[offset + i]);
        }
        assert(cid.0 =~= found.0);
    }
}

/// Calls `blake3::derive_key`. Claimed of it: the key is a function of the
/// context string and of the key material alone.
#[verifier::external_body]
pub(crate) fn derive_key(context: &str, material: &[u8]) -> (key: [u8; 32])
    ensures
        key@ == derived_key(context@, material@),
{
    blake3::derive_key(context, material)
}

/// Runs the incremental form of the same derivation: `blake3::Hasher::new_derive_key`,
/// `Hasher::update`, `Hasher::finalize_xof` and `OutputReader::fill`. Claimed of it:
/// the output stream starts with the bytes of the key that `blake3::derive_key`
/// returns, so that sixteen bytes read from it are the first sixteen of that key.
#[verifier::external_body]
pub(crate) fn derive_key_xof(context: &str, material: &[u8]) -> (out: [u8; 16])
    ensures
        CompactCid(out) == cid_at(derived_key(context@, material@), 0),
{
    let mut hasher = blake3::Hasher::new_derive_key(context);
    hasher.update(material);
    let mut reader = hasher.finalize_xof();
    let mut out = [0u8; 16];
    reader.fill(&mut out);
    out
}

impl CompactCid {
    /// The identifier made of the first sixteen bytes of a derived key.
    pub fn truncate(key: &[u8; 32]) -> (cid: CompactCid)
        ensures
            cid == cid_at(key@, 0),
            forall|i: int| 0 <= i < 16 ==> #[trigger] cid.0@[i] == key@[i],
    {
        let mut bytes: [u8; 16] = [0u8; 16];
        let mut i: usize = 0;
        while i < 16
            invariant
                i <= 16,
                forall|j: int| 0 <= j < i ==> bytes@[j] == key@[j],
            decreases 16 - i,
        {
            bytes[i] = key[i];
            i = i + 1;
        }
        proof {
            lemma_cid_at(CompactCid(bytes), key@, 0);
        }
        CompactCid(bytes)
    }
}

/// The identifier of a block is the first half of the key that is derived, under the one
/// context string, from the whole block, byte by byte.
pub proof fn law_cid_is_the_derived_key_of_the_block(bytes: Seq<u8>, i: int)
    requires
        0 <= i < 16,
    ensures
        cid_of_bytes(bytes).0@[i] == derived_key(
            "Axolotl Merkle DAG Content Identifier v1 Context"@,
            bytes,
        )[i],
{
    lemma_cid_at(cid_of_bytes(bytes), derived_key(CID_CONTEXT@, bytes), 0);
    assert(cid_of_bytes(bytes)@[i] == derived_key(CID_CONTEXT@, bytes)[0 + i]);
}

/// Two blocks have one identifier exactly if the keys that are derived from them agree in
/// their first half.
pub proof fn law_cids_agree_where_keys_agree(a: Seq<u8>, b: Seq<u8>)
    ensures
        cid_of_bytes(a) == cid_of_bytes(b) <==> forall|i: int|
            0 <= i < 16 ==> #[trigger] derived_key(
                "Axolotl Merkle DAG Content Identifier v1 Context"@,
                a,
            )[i] == derived_key("Axolotl Merkle DAG Content Identifier v1 Context"@, b)[i],
{
    let key_a = derived_key(CID_CONTEXT@, a);
    let key_b = derived_key(CID_CONTEXT@, b);
    lemma_cid_at(cid_of_bytes(a), key_a, 0);
    lemma_cid_at(cid_of_bytes(a), key_b, 0);
    lemma_cid_at(cid_of_bytes(b), key_b, 0);
    assert forall|i: int| 0 <= i < 16 implies #[trigger] cid_of_bytes(a)@[i] == key_a[i] by {
        assert(cid_of_bytes(a)@[i] == key_a[0 + i]);
    }
    assert forall|i: int| 0 <= i < 16 implies #[trigger] cid_of_bytes(b)@[i] == key_b[i] by {
        assert(cid_of_bytes(b)@[i] == key_b[0 + i]);
    }
    if cid_of_bytes(a) == cid_of_bytes(b) {
        assert forall|i: int| 0 <= i < 16 implies #[trigger] key_a[i] == key_b[i] by {
            assert(cid_of_bytes(a)@[i] == key_a[i]);
            assert(cid_of_bytes(b)@[i] == key_b[i]);
        }
    }
    if forall|i: int| 0 <= i < 16 ==> #[trigger] key_a[i] == key_b[i] {
        assert forall|i: int| 0 <= i < 16 implies #[trigger] cid_of_bytes(a)@[i] == key_b[0
            + i] by {
            assert(cid_of_bytes(a)@[i] == key_a[i]);
        }
    }
}

/// An identifier is its sixteen bytes: what it is at an offset are the bytes from there on.
pub proof fn law_cid_bytes(cid: CompactCid, bytes: Seq<u8>, offset: int, i: int)
    requires
        0 <= i < 16,
    ensures
        cid@ == cid.0@,
        cid_at(bytes, offset).0@[i] == bytes[offset + i],
{
    lemma_cid_at(cid_at(bytes, offset), bytes, offset);
    assert(cid_at(bytes, offset)@[i] == bytes[offset + i]);
}

} // verus!
