//! A content-addressed lambda machine.
//!
//! Nodes of a Merkle graph have a canonical block of thirty-two bytes (`node`) and an
//! identifier of sixteen bytes derived from it (`cid`). Blocks are filed under their
//! identifiers in a store, beside a memo table (`engine`). The machine (`vm`) evaluates a
//! node to a value (`value`) in steps that ask for reads and writes, and reads values back
//! into nodes. What evaluation means is in `semantics`; that the steps do it, in `adequacy`.

pub mod adequacy;
pub mod cid;
pub mod engine;
pub mod node;
pub mod semantics;
pub mod value;
pub mod vm;

pub use cid::CompactCid;
pub use engine::{buscar_no, salvar_no, CasEntry, Fault, MemoEntry};
pub use node::{Node, OpCode};
pub use value::{Env, Neutral, SharedNeutral, SharedValue, Value};
pub use vm::{apply_closure, eval, readback, MemoRead, NodeRead, Step, Write};
