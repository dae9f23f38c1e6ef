use crate::primitives::triple_buffer_reader::TripleBufferReader;
use crate::primitives::triple_buffer_writer::tb_reader_id;
use crate::primitives::types::{AtomicBuffer, cells};
use vstd::prelude::*;

verus! {

/// Consumer-side view into a fixed-size structural block on the triple buffer.
///
/// Provides offset-based read-only access to a specific `stride`-cell sequence
/// of the reader buffer.
#[derive(Clone, Copy)]
pub struct TbZoneReader<'a> {
    tb: &'a TripleBufferReader,
    pub stride: usize,
    tb_start_offset: usize,
}

impl<'a> TbZoneReader<'a> {
    pub closed spec fn buffer(&self) -> TripleBufferReader {
        *self.tb
    }

    pub closed spec fn width(&self) -> int {
        self.stride as int
    }

    /// The zone's offsets and width are non-negative.
    pub proof fn lemma_layout(&self)
        ensures
            0 <= self.zone_start(),
            0 <= self.width(),
    {
    }

    pub closed spec fn zone_start(&self) -> int {
        self.tb_start_offset as int
    }

    /// The zone fits its buffer, which is laid out inside `mem`.
    pub open spec fn valid(&self, mem: Seq<i32>) -> bool {
        &&& self.buffer().valid(mem)
        &&& 0 <= tb_reader_id(mem, self.buffer().start()) < 3
        &&& self.zone_start() + self.width() <= self.buffer().cap()
    }

    /// First cell of the zone in the current reader buffer.
    pub open spec fn base(&self, mem: Seq<i32>) -> int {
        self.buffer().reader_base(mem) + self.zone_start()
    }

    /// The zone's cells in the current reader buffer.
    pub open spec fn view(&self, mem: Seq<i32>) -> Seq<i32> {
        cells(mem, self.base(mem), self.width())
    }

    #[inline]
    pub fn new(tb: &'a TripleBufferReader, stride: usize, tb_start_offset: usize) -> (z: Self)
        requires
            tb_start_offset + stride <= tb.cap(),
        ensures
            z.buffer() == *tb,
            z.width() == stride,
            z.zone_start() == tb_start_offset,
    {
        TbZoneReader { tb, stride, tb_start_offset }
    }

    #[inline]
    pub fn tb_start_offset(&self) -> (r: usize)
        ensures
            r == self.zone_start(),
    {
        self.tb_start_offset
    }

    #[inline]
    pub fn tb_end_offset(&self) -> (r: usize)
        requires
            self.zone_start() + self.width() <= usize::MAX,
        ensures
            r == self.zone_start() + self.width(),
    {
        self.tb_start_offset + self.stride
    }

    #[inline]
    pub fn read(&self, mem: &AtomicBuffer, offset: usize) -> (r: i32)
        requires
            self.valid(mem@),
            offset < self.width(),
        ensures
            r == mem@[self.base(mem@) + offset],
            r == self.view(mem@)[offset as int],
    {
        proof {
            self.tb.lemma_layout();
        }
        self.tb.read(mem, self.tb_start_offset + offset)
    }

    #[inline]
    pub fn read_all(&self, mem: &AtomicBuffer, out: &mut [i32])
        requires
            self.valid(mem@),
            old(out)@.len() == self.width(),
        ensures
            final(out)@ == self.view(mem@),
    {
        self.tb.read_batch(mem, self.tb_start_offset, out)
    }
}

} // verus!
