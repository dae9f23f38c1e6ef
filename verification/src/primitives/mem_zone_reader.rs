use crate::primitives::types::{AtomicBuffer, cells};
use vstd::prelude::*;

verus! {

/// Consumer-side view into a single, fixed-size attribute block on the memory plane.
///
/// Provides 0-based read-only access to `stride` cells.
#[derive(Clone, Copy)]
pub struct MemZoneReader {
    pub stride: usize,
    mem_start_offset: usize,
    mem_end_offset: usize,
}

impl MemZoneReader {
    pub closed spec fn start(&self) -> int {
        self.mem_start_offset as int
    }

    pub closed spec fn end(&self) -> int {
        self.mem_end_offset as int
    }

    pub closed spec fn width(&self) -> int {
        self.stride as int
    }

    /// The zone's offsets and width are non-negative.
    pub proof fn lemma_layout(&self)
        ensures
            0 <= self.start(),
            0 <= self.end(),
            0 <= self.width(),
    {
    }

    pub open spec fn valid(&self, mem: Seq<i32>) -> bool {
        self.end() == self.start() + self.width() && self.end() <= mem.len()
    }

    /// The zone's cells.
    pub open spec fn view(&self, mem: Seq<i32>) -> Seq<i32> {
        cells(mem, self.start(), self.width())
    }

    #[inline]
    pub fn new(mem: &AtomicBuffer, stride: usize, mem_start_offset: usize) -> (z: Self)
        requires
            mem_start_offset + stride <= mem@.len(),
        ensures
            z.valid(mem@),
            z.width() == stride,
            z.start() == mem_start_offset,
    {
        let _len = mem.len();
        let mem_end_offset = mem_start_offset + stride;
        MemZoneReader { mem_start_offset, stride, mem_end_offset }
    }

    #[inline]
    pub fn mem_start_offset(&self) -> (r: usize)
        ensures
            r == self.start(),
    {
        self.mem_start_offset
    }

    #[inline]
    pub fn mem_end_offset(&self) -> (r: usize)
        ensures
            r == self.end(),
    {
        self.mem_end_offset
    }

    #[inline]
    pub fn read(&self, mem: &AtomicBuffer, offset: usize) -> (r: i32)
        requires
            self.valid(mem@),
            offset < self.width(),
        ensures
            r == mem@[self.start() + offset],
    {
        mem[self.mem_start_offset + offset]
    }

    #[inline]
    pub fn read_all(&self, mem: &AtomicBuffer, out: &mut [i32])
        requires
            self.valid(mem@),
            old(out)@.len() == self.width(),
        ensures
            final(out)@ == self.view(mem@),
    {
        let n = self.stride;
        let mut i: usize = 0;
        while i < n
            invariant
                self.valid(mem@),
                n == self.stride,
                out@.len() == n,
                i <= n,
                forall|j: int| 0 <= j < i ==> #[trigger] out@[j] == mem@[self.start() + j],
            decreases n - i,
        {
            out[i] = self.read(mem, i);
            i = i + 1;
        }
        proof {
            assert(out@ =~= self.view(mem@));
        }
    }
}

} // verus!
