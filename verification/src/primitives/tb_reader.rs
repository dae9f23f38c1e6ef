use crate::primitives::triple_buffer_reader::TripleBufferReader;
use crate::primitives::triple_buffer_writer::tb_reader_id;
use crate::primitives::types::{AtomicBuffer, cells};
use vstd::prelude::*;

verus! {

/// Consumer-side handle on a user triple buffer.
///
/// Delegates to the underlying `TripleBufferReader`.
#[derive(Clone, Copy)]
pub struct TbReader<'a> {
    tb: &'a TripleBufferReader,
}

impl<'a> TbReader<'a> {
    pub closed spec fn buffer(&self) -> TripleBufferReader {
        *self.tb
    }

    /// The underlying buffer is laid out inside `mem` with its reader cell in range.
    pub open spec fn valid(&self, mem: Seq<i32>) -> bool {
        self.buffer().valid(mem) && 0 <= tb_reader_id(mem, self.buffer().start()) < 3
    }

    #[inline]
    pub fn bind(tb: &'a TripleBufferReader) -> (r: Self)
        ensures
            r.buffer() == *tb,
    {
        TbReader { tb }
    }

    #[inline]
    pub fn buffer_capacity(&self) -> (r: usize)
        ensures
            r == self.buffer().cap(),
    {
        self.tb.buffer_capacity()
    }

    #[inline]
    pub fn read(&self, mem: &AtomicBuffer, offset: usize) -> (r: i32)
        requires
            self.valid(mem@),
            offset < self.buffer().cap(),
        ensures
            r == mem@[self.buffer().reader_base(mem@) + offset],
    {
        self.tb.read(mem, offset)
    }

    #[inline]
    pub fn read_batch<const T: usize>(&self, mem: &AtomicBuffer, offset: usize, out: &mut [i32])
        requires
            self.valid(mem@),
            offset + old(out)@.len() <= self.buffer().cap(),
        ensures
            final(out)@ == cells(mem@, self.buffer().reader_base(mem@) + offset, old(out)@.len() as int),
    {
        self.tb.read_batch(mem, offset, out)
    }
}

} // verus!
