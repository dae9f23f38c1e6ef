use crate::primitives::staging_buffer_writer::staging_size;
use crate::primitives::types::AtomicBuffer;
use vstd::prelude::*;

verus! {

/// Consumer-side handle for the generation-gated staging buffer.
///
/// Does not read entries from the ring buffer directly. Its sole purpose is to
/// call `ack()`, which advances `reader_ack_generation` so the writer's
/// `drain()` knows which entries are safe to reclaim.
///
/// # Memory Layout
/// Shares the same backing region as `StagingBufferWriter`. See its layout.
///
/// # Constraints
/// - Created exclusively via `StagingBufferWriter::to_reader()`.
#[derive(Clone, Copy)]
pub struct StagingBufferReader {
    capacity: usize,
    mem_start_offset: usize,
    mem_writer_generation_offset: usize,
    mem_reader_ack_generation_offset: usize,
    mem_end_offset: usize,
}

impl StagingBufferReader {
    pub closed spec fn start(&self) -> int {
        self.mem_start_offset as int
    }

    pub closed spec fn end(&self) -> int {
        self.mem_end_offset as int
    }

    pub closed spec fn cap(&self) -> int {
        self.capacity as int
    }

    pub closed spec fn wf(&self) -> bool {
        &&& self.capacity > 0
        &&& self.mem_writer_generation_offset == self.mem_start_offset
        &&& self.mem_reader_ack_generation_offset == self.mem_start_offset + 1
        &&& self.mem_end_offset == self.mem_start_offset + staging_size(self.capacity as int)
    }

    pub open spec fn valid(&self, mem: Seq<i32>) -> bool {
        self.wf() && self.end() <= mem.len()
    }

    /// The two generation cells come first.
    pub proof fn lemma_layout(&self)
        requires
            self.wf(),
        ensures
            0 <= self.start(),
            self.start() + 2 <= self.end(),
            self.end() == self.start() + staging_size(self.cap()),
    {
    }

    pub(crate) fn bind(mem_start_offset: usize, capacity: u32) -> (r: Self)
        requires
            capacity > 0,
            capacity <= 0x4000_0000,
            mem_start_offset + staging_size(capacity as int) <= usize::MAX,
        ensures
            r.wf(),
            r.start() == mem_start_offset,
            r.cap() == capacity,
    {
        let mem_end_offset = mem_start_offset + 2 + (3 + capacity as usize * 2);
        StagingBufferReader {
            mem_start_offset,
            mem_writer_generation_offset: mem_start_offset,
            mem_reader_ack_generation_offset: mem_start_offset + 1,
            mem_end_offset,
            capacity: capacity as usize,
        }
    }

    pub fn mem_start_offset(&self) -> (r: usize)
        ensures
            r == self.start(),
    {
        self.mem_start_offset
    }

    pub fn mem_end_offset(&self) -> (r: usize)
        ensures
            r == self.end(),
    {
        self.mem_end_offset
    }

    pub fn capacity(&self) -> (r: usize)
        ensures
            r == self.cap(),
    {
        self.capacity
    }

    pub fn writer_generation(&self, mem: &AtomicBuffer) -> (r: usize)
        requires
            self.valid(mem@),
        ensures
            r == mem@[self.start()] as usize,
    {
        mem[self.mem_writer_generation_offset] as usize
    }

    /// Acknowledges every generation the writer has published so far.
    pub fn ack(&self, mem: &mut AtomicBuffer)
        requires
            self.valid(old(mem)@),
            old(mem)@[self.start()] != i32::MIN,
        ensures
            final(mem)@ == old(mem)@.update(self.start() + 1, (old(mem)@[self.start()] - 1) as i32),
            final(mem)@.len() == old(mem)@.len(),
    {
        let w = mem[self.mem_writer_generation_offset];
        mem.set(self.mem_reader_ack_generation_offset, w - 1);
    }
}

} // verus!
