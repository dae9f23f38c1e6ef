use crate::primitives::types::{AtomicBuffer, cells};
use vstd::prelude::*;

verus! {

/// Consumer-side global metadata storage on the memory plane.
///
/// Provides read-only access to a flat, power-of-2 sized array of `i32` slots
/// for graph-level configuration and/or statistics.
///
/// # Memory Layout
/// Shares backing region with `MemMetadataWriter`. See its layout.
///
/// # Constraints
/// - Created exclusively via `MemMetadataWriter::to_reader()`.
#[derive(Clone, Copy)]
pub struct MemMetadataReader {
    mem_start_offset: usize,
    mem_end_offset: usize,
    capacity: usize,
}

impl MemMetadataReader {
    pub closed spec fn start(&self) -> int {
        self.mem_start_offset as int
    }

    pub closed spec fn end(&self) -> int {
        self.mem_end_offset as int
    }

    pub closed spec fn cap(&self) -> int {
        self.capacity as int
    }

    pub closed spec fn wf(&self) -> bool {
        &&& self.capacity > 0
        &&& self.mem_end_offset == self.mem_start_offset + self.capacity
    }

    pub open spec fn valid(&self, mem: Seq<i32>) -> bool {
        self.wf() && self.end() <= mem.len()
    }

    /// The region runs from `start()` for `cap()` cells.
    pub proof fn lemma_wf(&self)
        requires
            self.wf(),
        ensures
            self.end() == self.start() + self.cap(),
            self.cap() > 0,
    {
    }

    /// The metadata cells.
    pub open spec fn view(&self, mem: Seq<i32>) -> Seq<i32> {
        cells(mem, self.start(), self.cap())
    }

    pub(crate) fn bind(mem_start_offset: usize, capacity: usize) -> (r: Self)
        requires
            capacity > 0,
            mem_start_offset + capacity <= usize::MAX,
        ensures
            r.wf(),
            r.start() == mem_start_offset,
            r.cap() == capacity,
            r.end() == mem_start_offset + capacity,
    {
        MemMetadataReader { mem_start_offset, mem_end_offset: mem_start_offset + capacity, capacity }
    }

    pub fn mem_start_offset(&self) -> (r: usize)
        ensures
            r == self.start(),
    {
        self.mem_start_offset
    }

    pub fn mem_end_offset(&self) -> (r: usize)
        ensures
            r == self.end(),
    {
        self.mem_end_offset
    }

    pub fn capacity(&self) -> (r: usize)
        ensures
            r == self.cap(),
    {
        self.capacity
    }

    pub fn read(&self, mem: &AtomicBuffer, offset: usize) -> (r: i32)
        requires
            self.valid(mem@),
            offset < self.cap(),
        ensures
            r == self.view(mem@)[offset as int],
    {
        mem[self.mem_start_offset + offset]
    }
}

} // verus!
