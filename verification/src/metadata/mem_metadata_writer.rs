use crate::metadata::mem_metadata_reader::MemMetadataReader;
use crate::primitives::types::{AtomicBuffer, cells, is_pow2_u32};
use vstd::prelude::*;

verus! {

/// A `usize` that is a power of two.
pub open spec fn is_pow2_usize(c: usize) -> bool {
    c > 0 && c & ((c - 1) as usize) == 0
}

/// Producer-side global metadata storage on the memory plane.
///
/// Provides a flat, power-of-2 sized array of `i32` slots for graph-level
/// configuration and/or statistics. Lives on the `mem` (direct) plane
/// (non-triple-buffered), meaning writes are immediately visible to the reader
/// without requiring a `publish()`.
///
/// # Memory Layout
/// ```text
/// Offset      Size        Field
/// -------------------------------------
/// 0           N           metadata_region
///
/// N = capacity (power of 2)
/// ```
#[derive(Clone, Copy)]
pub struct MemMetadataWriter {
    mem_start_offset: usize,
    mem_end_offset: usize,
    capacity: usize,
}

impl MemMetadataWriter {
    pub closed spec fn start(&self) -> int {
        self.mem_start_offset as int
    }

    pub closed spec fn end(&self) -> int {
        self.mem_end_offset as int
    }

    pub closed spec fn cap(&self) -> int {
        self.capacity as int
    }

    pub closed spec fn wf(&self) -> bool {
        &&& self.capacity > 0
        &&& self.mem_end_offset == self.mem_start_offset + self.capacity
    }

    pub open spec fn valid(&self, mem: Seq<i32>) -> bool {
        self.wf() && self.end() <= mem.len()
    }

    pub proof fn lemma_wf(&self)
        requires
            self.wf(),
        ensures
            self.end() == self.start() + self.cap(),
            self.cap() > 0,
            0 <= self.start(),
    {
    }

    /// The metadata cells.
    pub open spec fn view(&self, mem: Seq<i32>) -> Seq<i32> {
        cells(mem, self.start(), self.cap())
    }

    pub fn new(mem: &mut AtomicBuffer, mem_start_offset: usize, capacity: usize) -> (w: Self)
        requires
            is_pow2_usize(capacity),
            mem_start_offset + capacity <= old(mem)@.len(),
        ensures
            w.valid(final(mem)@),
            w.start() == mem_start_offset,
            w.cap() == capacity,
            final(mem)@.len() == old(mem)@.len(),
            forall|i: int| 0 <= i < final(mem)@.len() ==> #[trigger] final(mem)@[i] == if w.start() <= i < w.end() {
                0i32
            } else {
                old(mem)@[i]
            },
    {
        Self::create(mem, mem_start_offset, capacity, false)
    }

    pub fn bind(mem: &mut AtomicBuffer, mem_start_offset: usize, capacity: usize) -> (w: Self)
        requires
            is_pow2_usize(capacity),
            mem_start_offset + capacity <= old(mem)@.len(),
        ensures
            w.valid(final(mem)@),
            w.start() == mem_start_offset,
            w.cap() == capacity,
            final(mem)@ == old(mem)@,
    {
        Self::create(mem, mem_start_offset, capacity, true)
    }

    pub fn create(mem: &mut AtomicBuffer, mem_start_offset: usize, capacity: usize, bind: bool) -> (w: Self)
        requires
            is_pow2_usize(capacity),
            mem_start_offset + capacity <= old(mem)@.len(),
        ensures
            w.valid(final(mem)@),
            w.start() == mem_start_offset,
            w.cap() == capacity,
            bind ==> final(mem)@ == old(mem)@,
            final(mem)@.len() == old(mem)@.len(),
            !bind ==> forall|i: int| 0 <= i < final(mem)@.len() ==> #[trigger] final(mem)@[i] == if w.start() <= i < w.end() {
                0i32
            } else {
                old(mem)@[i]
            },
    {
        let _len = mem.len();
        let mem_end_offset = mem_start_offset + capacity;
        if !bind {
            let mut i: usize = 0;
            while i < capacity
                invariant
                    mem_start_offset + capacity <= mem@.len(),
                    mem_start_offset + capacity <= usize::MAX,
                    mem@.len() == old(mem)@.len(),
                    i <= capacity,
                    forall|j: int| 0 <= j < mem@.len() ==> #[trigger] mem@[j] == if mem_start_offset <= j < mem_start_offset + i {
                        0i32
                    } else {
                        old(mem)@[j]
                    },
                decreases capacity - i,
            {
                mem.set(mem_start_offset + i, 0);
                i = i + 1;
            }
        }
        MemMetadataWriter { mem_start_offset, mem_end_offset, capacity }
    }

    #[inline]
    pub fn calculate_size_on_mem(capacity: usize) -> (r: usize)
        ensures
            r == capacity,
    {
        capacity
    }

    pub fn to_reader(&self) -> (r: MemMetadataReader)
        requires
            self.wf(),
        ensures
            r.wf(),
            r.start() == self.start(),
            r.cap() == self.cap(),
            r.end() == self.end(),
    {
        MemMetadataReader::bind(self.mem_start_offset, self.capacity)
    }

    #[inline]
    pub fn mem_start_offset(&self) -> (r: usize)
        ensures
            r == self.start(),
    {
        self.mem_start_offset
    }

    #[inline]
    pub fn mem_end_offset(&self) -> (r: usize)
        ensures
            r == self.end(),
    {
        self.mem_end_offset
    }

    #[inline]
    pub fn capacity(&self) -> (r: usize)
        ensures
            r == self.cap(),
    {
        self.capacity
    }

    #[inline]
    pub fn write(&self, mem: &mut AtomicBuffer, offset: usize, value: i32)
        requires
            self.valid(old(mem)@),
            offset < self.cap(),
        ensures
            final(mem)@ == old(mem)@.update(self.start() + offset, value),
            self.view(final(mem)@) == self.view(old(mem)@).update(offset as int, value),
    {
        mem.set(self.mem_start_offset + offset, value);
        proof {
            assert(self.view(mem@) =~= self.view(old(mem)@).update(offset as int, value));
        }
    }

    #[inline]
    pub fn read(&self, mem: &AtomicBuffer, offset: usize) -> (r: i32)
        requires
            self.valid(mem@),
            offset < self.cap(),
        ensures
            r == self.view(mem@)[offset as int],
    {
        mem[self.mem_start_offset + offset]
    }

    /// Copies the `source.cap()` metadata cells of `source` into the first
    /// cells of this region.
    pub fn copy_from(&self, mem: &mut AtomicBuffer, source: &MemMetadataWriter, source_mem: &AtomicBuffer)
        requires
            self.valid(old(mem)@),
            source.valid(source_mem@),
            source.cap() <= self.cap(),
        ensures
            final(mem)@.len() == old(mem)@.len(),
            forall|i: int| 0 <= i < final(mem)@.len() ==> #[trigger] final(mem)@[i] == if self.start() <= i < self.start() + source.cap() {
                source_mem@[i - self.start() + source.start()]
            } else {
                old(mem)@[i]
            },
    {
        let n = source.capacity;
        let mut i: usize = 0;
        while i < n
            invariant
                self.valid(old(mem)@),
                source.valid(source_mem@),
                n == source.cap(),
                n <= self.cap(),
                i <= n,
                mem@.len() == old(mem)@.len(),
                forall|j: int| 0 <= j < mem@.len() ==> #[trigger] mem@[j] == if self.start() <= j < self.start() + i {
                    source_mem@[j - self.start() + source.start()]
                } else {
                    old(mem)@[j]
                },
            decreases n - i,
        {
            let v = source.read(source_mem, i);
            self.write(mem, i, v);
            i = i + 1;
        }
    }
}

} // verus!
