//! A cursor-driven singly linked list in the style of lock-free lists with
//! auxiliary marker cells, together with its reference-counted reclamation
//! protocol.
//!
//! Shared memory is an [`arena::Arena`]: cells live in slots, a pointer is a
//! slot index, and every primitive of the protocol (an acquiring read, a
//! release, a compare-and-swap of a link) is one call that takes the arena by
//! mutable reference.  Any number of cursors may work on one list.  A step of
//! a cursor is one call of an operation: an update, a move, an insertion, a
//! deletion, or one of the four steps that a deletion is made of.  The
//! contracts hold for every order in which the cursors take their steps; the
//! laws in [`list::cursor::laws`] say what a step of one cursor leaves to
//! the others.
use vstd::prelude::*;

pub mod arena;
pub mod cell;
pub mod error;
pub mod laws;
pub mod list;

verus! {

} // verus!
