use crate::primitives::triple_buffer_reader::TripleBufferReader;
use crate::primitives::triple_buffer_writer::tb_reader_id;
use crate::primitives::types::{AtomicBuffer, cells};
use vstd::prelude::*;

verus! {

/// Consumer side of a lookup table: `size` cells at a fixed offset of a
/// triple buffer's reader buffer.
#[derive(Clone, Copy)]
pub struct LutReader {
    tb: TripleBufferReader,
    size: usize,
    tb_start_offset: usize,
    tb_end_offset: usize,
}

impl LutReader {
    pub closed spec fn buffer(&self) -> TripleBufferReader {
        self.tb
    }

    pub closed spec fn size_spec(&self) -> int {
        self.size as int
    }

    pub closed spec fn tb_start(&self) -> int {
        self.tb_start_offset as int
    }

    pub closed spec fn tb_end(&self) -> int {
        self.tb_end_offset as int
    }

    /// The table lies in `mem` and the buffer's reader index is valid.
    pub open spec fn valid(&self, mem: Seq<i32>) -> bool {
        &&& self.tb_end() == self.tb_start() + self.size_spec()
        &&& self.tb_end() <= self.buffer().cap()
        &&& self.buffer().valid(mem)
        &&& 0 <= tb_reader_id(mem, self.buffer().start()) < 3
    }

    /// The table's cells in the current reader buffer.
    pub open spec fn view(&self, mem: Seq<i32>) -> Seq<i32> {
        cells(mem, self.buffer().reader_base(mem) + self.tb_start(), self.size_spec())
    }

    pub fn bind(tb: TripleBufferReader, size: usize, tb_start_offset: usize, tb_end_offset: usize) -> (r: Self)
        requires
            tb_end_offset <= tb.cap(),
        ensures
            r.buffer() == tb,
            r.size_spec() == size,
            r.tb_start() == tb_start_offset,
            r.tb_end() == tb_end_offset,
    {
        LutReader { tb, size, tb_start_offset, tb_end_offset }
    }

    pub fn calculate_size_on_tb(size: usize) -> (r: usize)
        ensures
            r == size,
    {
        size
    }

    pub fn len(&self) -> (r: usize)
        ensures
            r == self.size_spec(),
    {
        self.size
    }

    pub fn tb_start_offset(&self) -> (r: usize)
        ensures
            r == self.tb_start(),
    {
        self.tb_start_offset
    }

    pub fn tb_end_offset(&self) -> (r: usize)
        ensures
            r == self.tb_end(),
    {
        self.tb_end_offset
    }

    #[inline]
    pub fn read(&self, mem: &AtomicBuffer, index: usize) -> (r: i32)
        requires
            self.valid(mem@),
            index < self.size_spec(),
        ensures
            r == self.view(mem@)[index as int],
    {
        self.tb.read(mem, self.tb_start_offset + index)
    }

    /// Reads the first `out.len()` cells.
    #[inline]
    pub fn read_all(&self, mem: &AtomicBuffer, out: &mut [i32])
        requires
            self.valid(mem@),
            old(out)@.len() <= self.size_spec(),
        ensures
            final(out)@ == self.view(mem@).take(old(out)@.len() as int),
    {
        self.tb.read_batch(mem, self.tb_start_offset, out);
        proof {
            assert(out@ =~= self.view(mem@).take(old(out)@.len() as int));
        }
    }
}

} // verus!
