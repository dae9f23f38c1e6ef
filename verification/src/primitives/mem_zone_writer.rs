use crate::primitives::types::{AtomicBuffer, cells, write_cells};
use vstd::prelude::*;

verus! {

/// Producer-side view into a single, fixed-size attribute block on the memory plane.
///
/// Provides 0-based read and write access to `stride` cells.
#[derive(Clone, Copy)]
pub struct MemZoneWriter {
    pub stride: usize,
    mem_start_offset: usize,
    mem_end_offset: usize,
}

impl MemZoneWriter {
    pub closed spec fn start(&self) -> int {
        self.mem_start_offset as int
    }

    pub closed spec fn end(&self) -> int {
        self.mem_end_offset as int
    }

    pub closed spec fn width(&self) -> int {
        self.stride as int
    }

    /// The zone's offsets and width are non-negative.
    pub proof fn lemma_layout(&self)
        ensures
            0 <= self.start(),
            0 <= self.end(),
            0 <= self.width(),
    {
    }

    pub open spec fn valid(&self, mem: Seq<i32>) -> bool {
        self.end() == self.start() + self.width() && self.end() <= mem.len()
    }

    /// The zone's cells.
    pub open spec fn view(&self, mem: Seq<i32>) -> Seq<i32> {
        cells(mem, self.start(), self.width())
    }

    #[inline]
    pub fn new(mem: &AtomicBuffer, stride: usize, mem_start_offset: usize) -> (z: Self)
        requires
            mem_start_offset + stride <= mem@.len(),
        ensures
            z.valid(mem@),
            z.width() == stride,
            z.start() == mem_start_offset,
    {
        let _len = mem.len();
        let mem_end_offset = mem_start_offset + stride;
        MemZoneWriter { mem_start_offset, stride, mem_end_offset }
    }

    #[inline]
    pub fn mem_start_offset(&self) -> (r: usize)
        ensures
            r == self.start(),
    {
        self.mem_start_offset
    }

    #[inline]
    pub fn mem_end_offset(&self) -> (r: usize)
        ensures
            r == self.end(),
    {
        self.mem_end_offset
    }

    #[inline]
    pub fn read(&self, mem: &AtomicBuffer, offset: usize) -> (r: i32)
        requires
            self.valid(mem@),
            offset < self.width(),
        ensures
            r == mem@[self.start() + offset],
    {
        mem[self.mem_start_offset + offset]
    }

    #[inline]
    pub fn write(&self, mem: &mut AtomicBuffer, offset: usize, value: i32)
        requires
            self.valid(old(mem)@),
            offset < self.width(),
        ensures
            final(mem)@ == old(mem)@.update(self.start() + offset, value),
    {
        mem.set(self.mem_start_offset + offset, value)
    }

    /// Sets the bits of `mask`; returns the previous value.
    #[inline]
    pub fn or(&self, mem: &mut AtomicBuffer, offset: usize, mask: i32) -> (r: i32)
        requires
            self.valid(old(mem)@),
            offset < self.width(),
        ensures
            r == old(mem)@[self.start() + offset],
            final(mem)@ == old(mem)@.update(self.start() + offset, r | mask),
    {
        let v = mem[self.mem_start_offset + offset];
        mem.set(self.mem_start_offset + offset, v | mask);
        v
    }

    /// Keeps only the bits of `mask`; returns the previous value.
    #[inline]
    pub fn and(&self, mem: &mut AtomicBuffer, offset: usize, mask: i32) -> (r: i32)
        requires
            self.valid(old(mem)@),
            offset < self.width(),
        ensures
            r == old(mem)@[self.start() + offset],
            final(mem)@ == old(mem)@.update(self.start() + offset, r & mask),
    {
        let v = mem[self.mem_start_offset + offset];
        mem.set(self.mem_start_offset + offset, v & mask);
        v
    }

    #[inline]
    pub fn read_all(&self, mem: &AtomicBuffer, out: &mut [i32])
        requires
            self.valid(mem@),
            old(out)@.len() == self.width(),
        ensures
            final(out)@ == self.view(mem@),
    {
        let n = self.stride;
        let mut i: usize = 0;
        while i < n
            invariant
                self.valid(mem@),
                n == self.stride,
                out@.len() == n,
                i <= n,
                forall|j: int| 0 <= j < i ==> #[trigger] out@[j] == mem@[self.start() + j],
            decreases n - i,
        {
            out[i] = self.read(mem, i);
            i = i + 1;
        }
        proof {
            assert(out@ =~= self.view(mem@));
        }
    }

    #[inline]
    pub fn write_all(&self, mem: &mut AtomicBuffer, data: &[i32])
        requires
            self.valid(old(mem)@),
            data@.len() == self.width(),
        ensures
            final(mem)@ == write_cells(old(mem)@, self.start(), data@),
    {
        let n = self.stride;
        let mut i: usize = 0;
        while i < n
            invariant
                self.valid(old(mem)@),
                n == self.stride,
                data@.len() == n,
                i <= n,
                mem@ == write_cells(old(mem)@, self.start(), data@.take(i as int)),
            decreases n - i,
        {
            self.write(mem, i, data[i]);
            proof {
                assert(data@.take(i + 1) =~= data@.take(i as int).push(data@[i as int]));
                assert(mem@ =~= write_cells(old(mem)@, self.start(), data@.take(i + 1)));
            }
            i = i + 1;
        }
        proof {
            assert(data@.take(n as int) =~= data@);
        }
    }

    #[inline]
    pub fn clear(&self, mem: &mut AtomicBuffer)
        requires
            self.valid(old(mem)@),
        ensures
            final(mem)@ == write_cells(old(mem)@, self.start(), Seq::new(self.width() as nat, |i: int| 0i32)),
    {
        let n = self.stride;
        let ghost zeros = Seq::new(self.width() as nat, |i: int| 0i32);
        let mut i: usize = 0;
        while i < n
            invariant
                self.valid(old(mem)@),
                n == self.stride,
                zeros == Seq::new(self.width() as nat, |i: int| 0i32),
                i <= n,
                mem@ == write_cells(old(mem)@, self.start(), zeros.take(i as int)),
            decreases n - i,
        {
            self.write(mem, i, 0);
            proof {
                assert(zeros.take(i + 1) =~= zeros.take(i as int).push(0i32));
                assert(mem@ =~= write_cells(old(mem)@, self.start(), zeros.take(i + 1)));
            }
            i = i + 1;
        }
        proof {
            assert(zeros.take(n as int) =~= zeros);
        }
    }
}

} // verus!
