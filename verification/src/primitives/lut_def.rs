use crate::primitives::triple_buffer_def::TripleBufferId;
use vstd::prelude::*;

verus! {

/// Typed identifier for a LUT within a `LutWriterRegistry`; ids occupy
/// `[0, N)` where `N` is the registry's LUT count.
#[derive(Copy, Clone, Debug, PartialEq, Eq, Structural, Hash, PartialOrd, Ord)]
pub struct LutId(pub u16);

/// Definition of a user-allocated LUT: its id, the triple buffer that holds
/// it (the default one is allowed) and its size in cells.
#[derive(Clone, Copy)]
pub struct LutDef {
    pub id: LutId,
    pub tb_id: TripleBufferId,
    pub size: usize,
}

impl LutDef {
    pub fn new(id: LutId, tb_id: TripleBufferId, size: usize) -> (r: Self)
        ensures
            r.id == id,
            r.tb_id == tb_id,
            r.size == size,
    {
        LutDef { id, tb_id, size }
    }

    pub fn len(&self) -> (r: usize)
        ensures
            r == self.size,
    {
        self.size
    }
}

} // verus!
