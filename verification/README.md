# Axolotl

A content-addressed lambda machine, verified with Verus.

- `src/cid.rs`: identifiers of sixteen bytes, derived with BLAKE3.
- `src/node.rs`: nodes and their canonical blocks of thirty-two bytes.
- `src/value.rs`: values and environments.
- `src/engine.rs`: entries of the store, and what the store and the memo table hold.
- `src/vm.rs`: evaluation in steps, and read-back.
- `src/semantics.rs`: what evaluation means, and what it keeps.
- `src/adequacy.rs`: the steps end as the semantics says.
- `app/`: the program around the library, with a redb database file and the layout of nodes in memory.
