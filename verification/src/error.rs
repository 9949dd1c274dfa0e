//! The error kinds of the storage core.

use vstd::prelude::*;

verus! {

/// What can go wrong inside the storage core.
///
/// `BlockOverflow` is local to a block builder and recoverable by sealing
/// the block; `KeyNotFound` reports an absent key on a lookup;
/// `Corruption` reports an encoding that does not parse back into a
/// well-formed structure; `InvalidIteratorState` reports a read from an
/// iterator that is not positioned on a record.
#[derive(Clone, Copy, Debug, PartialEq, Eq, Structural)]
pub enum Error {
    BlockOverflow,
    KeyNotFound,
    Corruption,
    InvalidIteratorState,
}

} // verus!
