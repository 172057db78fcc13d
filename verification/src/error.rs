//! Why an operation did not take effect.
use vstd::prelude::*;

verus! {

/// Why an operation on a cursor or on a link did not take effect.
///
/// `NeedsUpdate` and `Conflict` are ordinary events when several cursors work
/// on one list: the caller re-synchronises its cursor and tries again.
#[derive(Clone, Copy, Debug, PartialEq, Eq, Structural)]
pub enum Error {
    /// The cursor has no target: it must be updated first.
    NeedsUpdate,
    /// The operation was aimed at the tail sentinel.
    TargetIsTail,
    /// The link no longer holds the value the caller expected.
    Conflict,
}

} // verus!
