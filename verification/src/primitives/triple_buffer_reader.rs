use crate::primitives::triple_buffer_writer::{
    tb_after_swap, tb_base, tb_buf, tb_inv, tb_reader_id, tb_shared_id, tb_new_data, tb_size,
};
use crate::primitives::types::{AtomicBuffer, cells};
use vstd::prelude::*;

verus! {

proof fn lemma_swap_bits(x: i32, c: i32)
    requires
        0 <= x < 8,
        0 <= c < 3,
    ensures
        (x & 4 == 0) == (x < 4),
        x & 3 == x % 4,
        c & 3 == c,
{
    assert((x & 4 == 0) == (x < 4)) by (bit_vector)
        requires
            0 <= x < 8,
    ;
    assert(x & 3 == x % 4) by (bit_vector)
        requires
            0 <= x < 8,
    ;
    assert(c & 3 == c) by (bit_vector)
        requires
            0 <= c < 3,
    ;
}

/// Consumer-side of an SPSC triple buffer backed by the shared memory plane.
///
/// Calls `swap()` to acquire the latest published buffer. Returns `false` if
/// no new data is available (NEW_DATA flag is 0).
///
/// # Memory Layout
/// Shares backing region with `TripleBufferWriter`. See its layout.
///
/// # Constraints
/// - Created exclusively via `TripleBufferWriter::to_reader()`.
#[derive(Clone, Copy)]
pub struct TripleBufferReader {
    mem_start_offset: usize,
    mem_state_offset: usize,
    mem_reader_offset: usize,
    buffer_bases: [usize; 3],
    buffer_capacity: usize,
    mem_end_offset: usize,
}

impl TripleBufferReader {
    pub closed spec fn start(&self) -> int {
        self.mem_start_offset as int
    }

    pub closed spec fn end(&self) -> int {
        self.mem_end_offset as int
    }

    pub closed spec fn cap(&self) -> int {
        self.buffer_capacity as int
    }

    pub closed spec fn wf(&self) -> bool {
        &&& self.buffer_capacity > 0
        &&& self.mem_state_offset == self.mem_start_offset
        &&& self.mem_reader_offset == self.mem_start_offset + 3
        &&& self.buffer_bases[0] == tb_base(self.mem_start_offset as int, self.buffer_capacity as int, 0)
        &&& self.buffer_bases[1] == tb_base(self.mem_start_offset as int, self.buffer_capacity as int, 1)
        &&& self.buffer_bases[2] == tb_base(self.mem_start_offset as int, self.buffer_capacity as int, 2)
        &&& self.mem_end_offset == self.mem_start_offset + tb_size(self.buffer_capacity as int)
    }

    pub open spec fn valid(&self, mem: Seq<i32>) -> bool {
        self.wf() && self.end() <= mem.len()
    }

    pub open spec fn inv(&self, mem: Seq<i32>) -> bool {
        tb_inv(mem, self.start())
    }

    /// The buffer the consumer reads.
    pub open spec fn reader_buffer(&self, mem: Seq<i32>) -> Seq<i32> {
        tb_buf(mem, self.start(), self.cap(), tb_reader_id(mem, self.start()))
    }

    /// First cell of the buffer the consumer reads.
    pub open spec fn reader_base(&self, mem: Seq<i32>) -> int {
        tb_base(self.start(), self.cap(), tb_reader_id(mem, self.start()))
    }

    pub proof fn lemma_layout(&self)
        requires
            self.wf(),
        ensures
            self.cap() > 0,
            self.cap() <= usize::MAX,
            self.end() == self.start() + tb_size(self.cap()),
            0 <= self.start(),
    {
    }

    pub(crate) fn bind(mem_start_offset: usize, buffer_capacity: usize) -> (r: Self)
        requires
            buffer_capacity > 0,
            mem_start_offset + tb_size(buffer_capacity as int) <= usize::MAX,
        ensures
            r.wf(),
            r.start() == mem_start_offset,
            r.cap() == buffer_capacity,
    {
        let mem_buffers_base = mem_start_offset + 4;
        let buffer_bases: [usize; 3] = [
            mem_buffers_base,
            mem_buffers_base + buffer_capacity,
            mem_buffers_base + buffer_capacity * 2,
        ];
        TripleBufferReader {
            mem_start_offset,
            mem_state_offset: mem_start_offset,
            mem_reader_offset: mem_start_offset + 3,
            buffer_bases,
            buffer_capacity,
            mem_end_offset: mem_buffers_base + buffer_capacity * 3,
        }
    }

    #[inline]
    pub fn buffer_capacity(&self) -> (r: usize)
        ensures
            r == self.cap(),
    {
        self.buffer_capacity
    }

    #[inline]
    pub fn mem_start_offset(&self) -> (r: usize)
        ensures
            r == self.start(),
    {
        self.mem_start_offset
    }

    #[inline]
    pub fn mem_end_offset(&self) -> (r: usize)
        ensures
            r == self.end(),
    {
        self.mem_end_offset
    }

    #[inline]
    pub fn mem_reader_base(&self, mem: &AtomicBuffer) -> (r: usize)
        requires
            self.valid(mem@),
            0 <= tb_reader_id(mem@, self.start()) < 3,
        ensures
            r == self.reader_base(mem@),
    {
        let buffer_id = mem[self.mem_reader_offset] as usize;
        self.buffer_bases[buffer_id]
    }

    /// Takes the handoff buffer when the writer has published since the last swap.
    pub fn swap(&self, mem: &mut AtomicBuffer) -> (r: bool)
        requires
            self.valid(old(mem)@),
            self.inv(old(mem)@),
        ensures
            r == tb_new_data(old(mem)@, self.start()),
            final(mem)@ == tb_after_swap(old(mem)@, self.start()),
            self.inv(final(mem)@),
    {
        let state = mem[self.mem_state_offset];
        let current_id = mem[self.mem_reader_offset];
        proof {
            lemma_swap_bits(state, current_id);
        }
        if state & 0b100 == 0 {
            return false;
        }
        let new_state = current_id & 0b011;
        let old_state = mem[self.mem_state_offset];
        mem.set(self.mem_state_offset, new_state);
        mem.set(self.mem_reader_offset, old_state & 0b011);
        proof {
            lemma_swap_bits(new_state, current_id);
        }
        true
    }

    #[inline]
    pub fn read(&self, mem: &AtomicBuffer, offset: usize) -> (r: i32)
        requires
            self.valid(mem@),
            0 <= tb_reader_id(mem@, self.start()) < 3,
            offset < self.cap(),
        ensures
            r == mem@[self.reader_base(mem@) + offset],
            r == self.reader_buffer(mem@)[offset as int],
    {
        let base = self.mem_reader_base(mem);
        mem[base + offset]
    }

    #[inline]
    pub fn read_batch(&self, mem: &AtomicBuffer, offset: usize, out: &mut [i32])
        requires
            self.valid(mem@),
            0 <= tb_reader_id(mem@, self.start()) < 3,
            offset + old(out)@.len() <= self.cap(),
        ensures
            final(out)@ == cells(mem@, self.reader_base(mem@) + offset, old(out)@.len() as int),
    {
        let base = self.mem_reader_base(mem) + offset;
        let n = out.len();
        let mut i: usize = 0;
        while i < n
            invariant
                self.valid(mem@),
                n == out@.len(),
                n == old(out)@.len(),
                base == self.reader_base(mem@) + offset,
                base + n <= self.end(),
                i <= n,
                forall|j: int| 0 <= j < i ==> #[trigger] out@[j] == mem@[base + j],
            decreases n - i,
        {
            out[i] = mem[base + i];
            i = i + 1;
        }
        proof {
            assert(out@ =~= cells(mem@, self.reader_base(mem@) + offset, old(out)@.len() as int));
        }
    }
}

} // verus!
