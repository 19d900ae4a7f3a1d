use vstd::prelude::*;

verus! {

/// The error reported by the index-based containers when a caller hands
/// them a position that the container does not hold.
#[derive(Clone, Copy, Debug, PartialEq, Eq, Structural)]
pub enum Error {
    IndexOutOfBound,
}

} // verus!
