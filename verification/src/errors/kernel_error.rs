use vstd::prelude::*;

verus! {

/// Failure of a kernel-level operation.
#[derive(Debug, Clone, Copy, PartialEq, Eq, Structural)]
pub enum KernelError {
    MemoryLimitExceeded,
    CapacityExhausted,
    InsufficientCapacity,
    SchemaMismatch,
}

} // verus!
