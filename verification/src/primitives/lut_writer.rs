use crate::primitives::lut_reader::LutReader;
use crate::primitives::triple_buffer_writer::{TripleBufferWriter, tb_base, tb_in_region, tb_writer_id};
use crate::primitives::types::{AtomicBuffer, cells, write_cells};
use vstd::prelude::*;

verus! {

/// Producer side of a lookup table: `size` cells at a fixed offset of a
/// triple buffer's writer buffer.
#[derive(Clone, Copy)]
pub struct LutWriter {
    tb: TripleBufferWriter,
    size: usize,
    tb_start_offset: usize,
    tb_end_offset: usize,
}

impl LutWriter {
    pub closed spec fn buffer(&self) -> TripleBufferWriter {
        self.tb
    }

    pub closed spec fn size_spec(&self) -> int {
        self.size as int
    }

    pub closed spec fn tb_start(&self) -> int {
        self.tb_start_offset as int
    }

    pub closed spec fn tb_end(&self) -> int {
        self.tb_end_offset as int
    }

    pub open spec fn wf(&self) -> bool {
        &&& 0 <= self.tb_start()
        &&& 0 <= self.size_spec()
        &&& self.tb_end() == self.tb_start() + self.size_spec()
        &&& self.tb_end() <= self.buffer().cap()
    }

    /// The table lies in `mem` and the buffer's writer index is valid.
    pub open spec fn valid(&self, mem: Seq<i32>) -> bool {
        &&& self.wf()
        &&& self.buffer().valid(mem)
        &&& 0 <= tb_writer_id(mem, self.buffer().start()) < 3
    }

    /// The table's cells in the current writer buffer.
    pub open spec fn view(&self, mem: Seq<i32>) -> Seq<i32> {
        cells(mem, self.buffer().writer_base(mem) + self.tb_start(), self.size_spec())
    }

    pub fn new(mem: &mut AtomicBuffer, tb: TripleBufferWriter, size: usize, tb_start_offset: usize) -> (r: Self)
        requires
            tb_start_offset + size <= tb.cap(),
            tb.valid(old(mem)@),
            0 <= tb_writer_id(old(mem)@, tb.start()) < 3,
        ensures
            r.valid(final(mem)@),
            r.buffer() == tb,
            r.size_spec() == size,
            r.tb_start() == tb_start_offset,
            final(mem)@ == write_cells(
                old(mem)@,
                tb.writer_base(old(mem)@) + tb_start_offset,
                Seq::new(size as nat, |i: int| 0i32),
            ),
    {
        Self::create(mem, tb, size, tb_start_offset, false)
    }

    pub fn bind(mem: &mut AtomicBuffer, tb: TripleBufferWriter, size: usize, tb_start_offset: usize) -> (r: Self)
        requires
            tb_start_offset + size <= tb.cap(),
            tb.valid(old(mem)@),
            0 <= tb_writer_id(old(mem)@, tb.start()) < 3,
        ensures
            r.valid(final(mem)@),
            r.buffer() == tb,
            r.size_spec() == size,
            r.tb_start() == tb_start_offset,
            final(mem)@ == old(mem)@,
    {
        Self::create(mem, tb, size, tb_start_offset, true)
    }

    /// Lays out the table; unless binding, zeroes it in the writer buffer.
    pub fn create(mem: &mut AtomicBuffer, tb: TripleBufferWriter, size: usize, tb_start_offset: usize, bind: bool) -> (r: Self)
        requires
            tb_start_offset + size <= tb.cap(),
            tb.valid(old(mem)@),
            0 <= tb_writer_id(old(mem)@, tb.start()) < 3,
        ensures
            r.valid(final(mem)@),
            r.buffer() == tb,
            r.size_spec() == size,
            r.tb_start() == tb_start_offset,
            bind ==> final(mem)@ == old(mem)@,
            !bind ==> final(mem)@ == write_cells(
                old(mem)@,
                tb.writer_base(old(mem)@) + tb_start_offset,
                Seq::new(size as nat, |i: int| 0i32),
            ),
    {
        proof {
            tb.lemma_layout();
        }
        let tb_end_offset = tb_start_offset + Self::calculate_size_on_tb(size);
        if !bind {
            let ghost z = Seq::new(size as nat, |i: int| 0i32);
            let ghost base = tb.writer_base(old(mem)@) + tb_start_offset;
            let mut i: usize = 0;
            while i < size
                invariant
                    tb.valid(old(mem)@),
                    0 <= tb_writer_id(old(mem)@, tb.start()) < 3,
                    tb_start_offset + size <= tb.cap(),
                    z == Seq::new(size as nat, |i: int| 0i32),
                    base == tb.writer_base(old(mem)@) + tb_start_offset,
                    i <= size,
                    mem@ == write_cells(old(mem)@, base, z.take(i as int)),
                decreases size - i,
            {
                proof {
                    tb.lemma_layout();
                    let m = mem@;
                    assert(m[tb.start() + 1] == old(mem)@[tb.start() + 1]);
                }
                tb.write(mem, tb_start_offset + i, 0);
                proof {
                    assert(z.take(i + 1) =~= z.take(i as int).push(0i32));
                    assert(mem@ =~= write_cells(old(mem)@, base, z.take(i + 1)));
                }
                i = i + 1;
            }
            proof {
                assert(z.take(size as int) =~= z);
                assert(mem@[tb.start() + 1] == old(mem)@[tb.start() + 1]);
            }
        }
        LutWriter { tb, size, tb_start_offset, tb_end_offset }
    }

    pub fn calculate_size_on_tb(size: usize) -> (r: usize)
        ensures
            r == size,
    {
        size
    }

    /// The consumer-side table over the same cells.
    pub fn to_reader(&self) -> (r: LutReader)
        requires
            self.wf(),
            self.buffer().wf(),
        ensures
            r.buffer().start() == self.buffer().start(),
            r.buffer().cap() == self.buffer().cap(),
            r.size_spec() == self.size_spec(),
            r.tb_start() == self.tb_start(),
            r.tb_end() == self.tb_end(),
    {
        LutReader::bind(self.tb.to_reader(), self.size, self.tb_start_offset, self.tb_end_offset)
    }

    pub fn len(&self) -> (r: usize)
        ensures
            r == self.size_spec(),
    {
        self.size
    }

    pub fn tb_start_offset(&self) -> (r: usize)
        ensures
            r == self.tb_start(),
    {
        self.tb_start_offset
    }

    pub fn tb_end_offset(&self) -> (r: usize)
        ensures
            r == self.tb_end(),
    {
        self.tb_end_offset
    }

    #[inline]
    pub fn read(&self, mem: &AtomicBuffer, index: usize) -> (r: i32)
        requires
            self.valid(mem@),
            index < self.size_spec(),
        ensures
            r == self.view(mem@)[index as int],
    {
        self.tb.read(mem, self.tb_start_offset + index)
    }

    #[inline]
    pub fn write(&self, mem: &mut AtomicBuffer, index: usize, value: i32)
        requires
            self.valid(old(mem)@),
            index < self.size_spec(),
        ensures
            final(mem)@ == old(mem)@.update(self.buffer().writer_base(old(mem)@) + self.tb_start() + index, value),
            self.view(final(mem)@) == self.view(old(mem)@).update(index as int, value),
    {
        proof {
            self.tb.lemma_layout();
        }
        self.tb.write(mem, self.tb_start_offset + index, value);
        proof {
            assert(mem@[self.buffer().start() + 1] == old(mem)@[self.buffer().start() + 1]);
            assert(self.view(mem@) =~= self.view(old(mem)@).update(index as int, value));
        }
    }

    /// Reads the first `out.len()` cells.
    #[inline]
    pub fn read_all(&self, mem: &AtomicBuffer, out: &mut [i32])
        requires
            self.valid(mem@),
            old(out)@.len() <= self.size_spec(),
        ensures
            final(out)@ == self.view(mem@).take(old(out)@.len() as int),
    {
        self.tb.read_batch(mem, self.tb_start_offset, out);
        proof {
            assert(out@ =~= self.view(mem@).take(old(out)@.len() as int));
        }
    }

    /// Writes `data` over the first `data.len()` cells.
    #[inline]
    pub fn write_all(&self, mem: &mut AtomicBuffer, data: &[i32])
        requires
            self.valid(old(mem)@),
            data@.len() <= self.size_spec(),
        ensures
            final(mem)@ == write_cells(old(mem)@, self.buffer().writer_base(old(mem)@) + self.tb_start(), data@),
    {
        self.tb.write_batch(mem, self.tb_start_offset, data);
    }

    /// Copies `source`'s cells, in all three buffers, over this table's first cells.
    pub fn copy_from(&self, mem: &mut AtomicBuffer, source: &Self, source_mem: &AtomicBuffer)
        requires
            self.valid(old(mem)@),
            source.wf(),
            source.buffer().valid(source_mem@),
            source.size_spec() <= self.size_spec(),
            source.buffer().cap() <= self.buffer().cap(),
        ensures
            final(mem)@.len() == old(mem)@.len(),
            forall|k: int, t: int|
                0 <= k < 3 && 0 <= t < source.size_spec() ==> #[trigger] final(mem)@[tb_base(
                    self.buffer().start(),
                    self.buffer().cap(),
                    k,
                ) + self.tb_start() + t] == source_mem@[tb_base(source.buffer().start(), source.buffer().cap(), k)
                    + source.tb_start() + t],
            forall|j: int|
                0 <= j < old(mem)@.len() && !tb_in_region(
                    j,
                    self.buffer().start(),
                    self.buffer().cap(),
                    self.tb_start(),
                    source.size_spec(),
                ) ==> #[trigger] final(mem)@[j] == old(mem)@[j],
    {
        self.tb.copy_region_from(
            mem,
            &source.tb,
            source_mem,
            source.tb_start_offset,
            self.tb_start_offset,
            Self::calculate_size_on_tb(source.size),
        );
    }
}

} // verus!
