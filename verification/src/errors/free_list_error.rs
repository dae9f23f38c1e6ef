use vstd::prelude::*;

verus! {

/// Failure of a free-list operation.
#[derive(Debug, Clone, Copy, PartialEq, Eq, Structural)]
pub enum FreeListError {
    DoubleFree,
    InvalidSlot,
}

} // verus!
