use crate::primitives::triple_buffer_writer::{TripleBufferWriter, tb_writer_id};
use crate::primitives::types::{AtomicBuffer, cells, write_cells};
use vstd::prelude::*;

verus! {

/// Producer-side handle on a user triple buffer.
///
/// Delegates to the underlying `TripleBufferWriter`.
#[derive(Clone, Copy)]
pub struct TbWriter<'a> {
    tb: &'a TripleBufferWriter,
}

impl<'a> TbWriter<'a> {
    pub closed spec fn buffer(&self) -> TripleBufferWriter {
        *self.tb
    }

    /// The underlying buffer is laid out inside `mem` with its control cells in range.
    pub open spec fn valid(&self, mem: Seq<i32>) -> bool {
        self.buffer().valid(mem) && 0 <= tb_writer_id(mem, self.buffer().start()) < 3
    }

    #[inline]
    pub fn bind(tb: &'a TripleBufferWriter) -> (r: Self)
        ensures
            r.buffer() == *tb,
    {
        TbWriter { tb }
    }

    #[inline]
    pub fn buffer_capacity(&self) -> (r: usize)
        ensures
            r == self.buffer().cap(),
    {
        self.tb.buffer_capacity()
    }

    #[inline]
    pub fn write(&self, mem: &mut AtomicBuffer, offset: usize, value: i32)
        requires
            self.valid(old(mem)@),
            offset < self.buffer().cap(),
        ensures
            final(mem)@ == old(mem)@.update(self.buffer().writer_base(old(mem)@) + offset, value),
    {
        self.tb.write(mem, offset, value);
    }

    #[inline]
    pub fn write_batch(&self, mem: &mut AtomicBuffer, offset: usize, data: &[i32])
        requires
            self.valid(old(mem)@),
            offset + data@.len() <= self.buffer().cap(),
        ensures
            final(mem)@ == write_cells(old(mem)@, self.buffer().writer_base(old(mem)@) + offset, data@),
    {
        self.tb.write_batch(mem, offset, data);
    }

    #[inline]
    pub fn read(&self, mem: &AtomicBuffer, offset: usize) -> (r: i32)
        requires
            self.valid(mem@),
            offset < self.buffer().cap(),
        ensures
            r == mem@[self.buffer().writer_base(mem@) + offset],
    {
        self.tb.read(mem, offset)
    }

    #[inline]
    pub fn read_batch<const T: usize>(&self, mem: &AtomicBuffer, offset: usize, out: &mut [i32])
        requires
            self.valid(mem@),
            offset + old(out)@.len() <= self.buffer().cap(),
        ensures
            final(out)@ == cells(mem@, self.buffer().writer_base(mem@) + offset, old(out)@.len() as int),
    {
        self.tb.read_batch(mem, offset, out)
    }
}

} // verus!
