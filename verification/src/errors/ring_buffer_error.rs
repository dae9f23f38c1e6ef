use vstd::prelude::*;

verus! {

/// Failure of a ring-buffer write.
#[derive(Debug, Clone, Copy, PartialEq, Eq, Structural)]
pub enum RingBufferError {
    /// Every slot of the ring holds an unread entry.
    Full,
}

} // verus!
