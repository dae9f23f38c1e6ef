use crate::errors::ring_buffer_error::RingBufferError;
use vstd::prelude::*;

verus! {

/// Failure of a slot-allocator operation.
#[derive(Debug, Clone, Copy, PartialEq, Eq, Structural)]
pub enum SlotAllocatorError {
    InvalidSlot,
    DoubleFree,
    RingBuffer(RingBufferError),
}

impl SlotAllocatorError {
    /// Wraps a ring-buffer failure (the conversion the `?` operator performs).
    pub fn from_ring_buffer(value: RingBufferError) -> (r: SlotAllocatorError)
        ensures
            r == SlotAllocatorError::RingBuffer(value),
    {
        SlotAllocatorError::RingBuffer(value)
    }
}

} // verus!
