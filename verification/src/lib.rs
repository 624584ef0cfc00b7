//! A positional ordered list in the style of the auxiliary-node linked lists
//! of Harris, Michael, Sundell and Tsigas: every data cell is flanked by
//! auxiliary cells, insertion and deletion work by compare-and-swap on the
//! `next` slot of a predecessor, and deletion runs in two phases (outlink,
//! then unlink) with weak backlinks for recovery.
//!
//! Cells live in an arena owned by the [`list::List`]; a handle to a cell is
//! its index in that arena, and the compare-and-swap surgery of the
//! pointer-based algorithm becomes a compare-and-set on the `next` slot of
//! an arena cell.
//! The spine — the chain of cells reachable from the head sentinel — is
//! mirrored by a ghost sequence of indices, and the structural invariant
//! (head, then alternating auxiliary and data cells, then tail) is stated
//! over that sequence and proved for every operation.

pub mod cell;
pub mod errors;
pub mod list;
pub mod cursor;
pub mod delete;
