use vstd::prelude::*;

verus! {

/// Typed identifier for a triple buffer within a `TripleBufferWriterRegistry`.
///
/// User assigned IDs occupy the range `[0, N-1]` where `N` is the registry's
/// `TB_COUNT`. The sentinel value `DEFAULT` (`u16::MAX`) refers to the
/// kernel-internal triple buffer that holds the `Network` of nodes and synapses.
#[derive(Copy, Clone, Debug, PartialEq, Eq, Structural, Hash, PartialOrd, Ord)]
pub struct TripleBufferId(pub u16);

/// The raw value reserved for the default TB.
pub const DEFAULT_TB_RAW: u16 = 0xffff;

impl TripleBufferId {
    /// The default TB managed by the kernel.
    /// Must not appear in user-supplied `TripleBufferDef` arrays.
    pub fn default_tb() -> (r: TripleBufferId)
        ensures
            r.0 == DEFAULT_TB_RAW,
    {
        TripleBufferId(DEFAULT_TB_RAW)
    }

    /// Whether this is the default TB's identifier.
    pub fn is_default(&self) -> (r: bool)
        ensures
            r == (self.0 == DEFAULT_TB_RAW),
    {
        self.0 == DEFAULT_TB_RAW
    }
}

/// Definition of user-allocated triple buffer within the registry.
///
/// # Fields
/// - `id`: Unique identifier in `[0, N-1]`. Must not equal `TripleBufferId::DEFAULT`.
/// - `buffer_capacity`: Number of `i32` slots per buffer (x3 on MEM).
#[derive(Clone, Copy)]
pub struct TripleBufferDef {
    pub id: TripleBufferId,
    pub buffer_capacity: usize,
}

} // verus!
