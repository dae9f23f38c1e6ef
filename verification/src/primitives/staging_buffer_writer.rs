use crate::errors::ring_buffer_error::RingBufferError;
use crate::primitives::ring_buffer::{RingBuffer, ring_size};
use crate::primitives::slot::SlotId;
use crate::primitives::staging_buffer_reader::StagingBufferReader;
use crate::primitives::types::{AtomicBuffer, is_pow2_u32, unchanged_outside};
use vstd::prelude::*;

verus! {

/// A staged entry `[slot, generation]` may be drained once the reader has
/// acknowledged its generation.
pub open spec fn drainable(entry: Seq<i32>, ack: i32) -> bool {
    entry[1].wrapping_sub(ack) <= 0
}

/// How many entries, oldest first, draining with acknowledgement `ack`
/// yields: the longest run of drainable entries at the head.
pub open spec fn drain_len(entries: Seq<Seq<i32>>, ack: i32) -> nat
    decreases entries.len(),
{
    if entries.len() == 0 || !drainable(entries[0], ack) {
        0
    } else {
        1 + drain_len(entries.drop_first(), ack)
    }
}

/// A full drain yields the acknowledged entries in push order and stops at
/// the first that is not: `next()` pops the head exactly while `drain_len`
/// is positive and each pop lowers it by one, so draining to the end takes
/// the first `drain_len` entries, every one of them drainable, and leaves
/// the rest in order, headed by an entry whose generation is not yet
/// acknowledged.
pub proof fn lemma_drain_len(entries: Seq<Seq<i32>>, ack: i32)
    ensures
        drain_len(entries, ack) <= entries.len(),
        forall|i: int| 0 <= i < drain_len(entries, ack) ==> #[trigger] drainable(entries[i], ack),
        drain_len(entries, ack) < entries.len() ==> !drainable(entries[drain_len(entries, ack) as int], ack),
        drain_len(entries, ack) > 0 <==> (entries.len() > 0 && drainable(entries[0], ack)),
        drain_len(entries, ack) > 0 ==> drain_len(entries.drop_first(), ack) == drain_len(entries, ack) - 1,
    decreases entries.len(),
{
    if entries.len() > 0 && drainable(entries[0], ack) {
        let rest = entries.drop_first();
        lemma_drain_len(rest, ack);
        assert forall|i: int| 0 <= i < drain_len(entries, ack) implies #[trigger] drainable(entries[i], ack) by {
            if i > 0 {
                assert(entries[i] == rest[i - 1]);
                assert(drainable(rest[i - 1], ack));
            }
        }
        if drain_len(entries, ack) < entries.len() {
            assert(entries[drain_len(entries, ack) as int] == rest[drain_len(rest, ack) as int]);
        }
    }
}

/// Number of cells a staging buffer of `capacity` entries occupies.
pub open spec fn staging_size(capacity: int) -> int {
    2 + ring_size(capacity, 2)
}

/// Generation-gated SPSC staging buffer for deferred slot reclamation.
///
/// The producer pushes retired slot numbers into a ring buffer, each stamped
/// with the current `writer_generation`. On `publish()`, the generation
/// advances. `drain()` only yields entries whose generation has been
/// acknowledged by the reader via `StagingBufferReader::ack()`.
///
/// # Memory Layout
/// ```text
/// Offset          Size            Field
/// -----------------------------------------------------
/// 0               1               writer_generation
/// 1               1               reader_ack_generation
/// 2               ring_size(N)    ring_buffer
///
/// N = capacity (power of 2)
/// ring_size(N) = 3+2N (= `RingBuffer::<2>::calculate_size_on_mem(N)`)
/// ```
///
/// # Constraints
/// - `capacity` must be a power of 2.
/// - `writer_generation` starts at 1, `reader_ack_generation` starts at 0.
///   This initial differential prevents premature draining of pre-publish entries.
/// - Use `to_reader()` to create the paired `StagingBufferReader`.
#[derive(Clone, Copy)]
pub struct StagingBufferWriter {
    buffer: RingBuffer<2>,
    capacity: usize,
    mem_start_offset: usize,
    mem_writer_generation_offset: usize,
    mem_reader_ack_generation_offset: usize,
    mem_end_offset: usize,
}

/// Drains the acknowledged entries of a staging buffer, oldest first.
pub struct StagingBufferWriterIterator {
    buffer: RingBuffer<2>,
    ack_generation: i32,
}

impl StagingBufferWriterIterator {
    pub closed spec fn ring(&self) -> RingBuffer<2> {
        self.buffer
    }

    pub closed spec fn ack(&self) -> i32 {
        self.ack_generation
    }

    /// Pops the oldest entry when its generation has been acknowledged.
    pub fn next(&mut self, mem: &mut AtomicBuffer) -> (r: Option<SlotId>)
        requires
            old(self).ring().valid(old(mem)@),
            old(self).ring().inv(old(mem)@),
        ensures
            final(self).ring() == old(self).ring(),
            final(self).ack() == old(self).ack(),
            final(self).ring().valid(final(mem)@),
            final(self).ring().inv(final(mem)@),
            ({
                let e = old(self).ring().view(old(mem)@);
                if e.len() == 0 || !drainable(e[0], old(self).ack()) {
                    r is None && final(mem)@ == old(mem)@
                } else {
                    &&& old(self).ring().view(final(mem)@) == e.drop_first()
                    &&& (r is Some <==> e[0][0] as u32 != 0)
                    &&& (r matches Some(s) ==> s.raw() == e[0][0] as u32)
                }
            }),
            unchanged_outside(
                old(mem)@,
                final(mem)@,
                old(self).ring().start(),
                old(self).ring().start() + 3,
            ),
    {
        proof {
            self.buffer.lemma_entry_len(mem@);
        }
        match self.buffer.peek(mem) {
            Some(entry) => {
                let data = entry[0];
                let generation = entry[1];
                if generation.wrapping_sub(self.ack_generation) > 0 {
                    return None;
                }
                let _ = self.buffer.read(mem);
                SlotId::new(data as u32)
            },
            None => None,
        }
    }
}

impl StagingBufferWriter {
    pub closed spec fn start(&self) -> int {
        self.mem_start_offset as int
    }

    pub closed spec fn end(&self) -> int {
        self.mem_end_offset as int
    }

    pub closed spec fn cap(&self) -> int {
        self.capacity as int
    }

    /// The ring holding the staged `[slot, generation]` entries.
    pub closed spec fn ring(&self) -> RingBuffer<2> {
        self.buffer
    }

    pub closed spec fn wf(&self) -> bool {
        &&& self.buffer.wf()
        &&& self.buffer.start() == self.mem_start_offset + 2
        &&& self.buffer.cap() == self.capacity
        &&& self.mem_writer_generation_offset == self.mem_start_offset
        &&& self.mem_reader_ack_generation_offset == self.mem_start_offset + 1
        &&& self.mem_end_offset == self.mem_start_offset + staging_size(self.capacity as int)
    }

    pub open spec fn valid(&self, mem: Seq<i32>) -> bool {
        self.wf() && self.end() <= mem.len()
    }

    pub closed spec fn writer_gen(&self, mem: Seq<i32>) -> i32 {
        mem[self.mem_writer_generation_offset as int]
    }

    pub closed spec fn ack_gen(&self, mem: Seq<i32>) -> i32 {
        mem[self.mem_reader_ack_generation_offset as int]
    }

    /// The staged `[slot, generation]` entries, oldest first.
    pub closed spec fn entries(&self, mem: Seq<i32>) -> Seq<Seq<i32>> {
        self.buffer.view(mem)
    }

    pub closed spec fn inv(&self, mem: Seq<i32>) -> bool {
        self.buffer.inv(mem)
    }

    pub proof fn lemma_wf(&self)
        requires
            self.wf(),
        ensures
            self.ring().wf(),
            self.ring().start() == self.start() + 2,
            self.ring().end() == self.end(),
            self.end() == self.start() + staging_size(self.cap()),
            self.ring().cap() == self.cap(),
            self.cap() > 0,
            self.cap() <= 0x4000_0000,
            forall|m: Seq<i32>| #[trigger] self.entries(m) == self.ring().view(m),
            forall|m: Seq<i32>| #[trigger] self.inv(m) == self.ring().inv(m),
            forall|m: Seq<i32>| #[trigger] self.writer_gen(m) == m[self.start()],
            forall|m: Seq<i32>| #[trigger] self.ack_gen(m) == m[self.start() + 1],
    {
        self.buffer.lemma_layout();
    }

    pub fn new(mem: &mut AtomicBuffer, mem_start_offset: usize, capacity: u32) -> (sb: Self)
        requires
            is_pow2_u32(capacity),
            capacity <= 0x4000_0000,
            mem_start_offset + staging_size(capacity as int) <= old(mem)@.len(),
        ensures
            sb.valid(final(mem)@),
            sb.start() == mem_start_offset,
            sb.cap() == capacity,
            sb.inv(final(mem)@),
            sb.entries(final(mem)@).len() == 0,
            sb.ring().unwrapped(final(mem)@),
            sb.writer_gen(final(mem)@) == 1,
            sb.ack_gen(final(mem)@) == 0,
            unchanged_outside(old(mem)@, final(mem)@, sb.start(), sb.end()),
    {
        Self::create(mem, mem_start_offset, capacity, false)
    }

    pub fn bind(mem: &AtomicBuffer, mem_start_offset: usize, capacity: u32) -> (sb: Self)
        requires
            is_pow2_u32(capacity),
            capacity <= 0x4000_0000,
            mem_start_offset + staging_size(capacity as int) <= mem@.len(),
        ensures
            sb.valid(mem@),
            sb.start() == mem_start_offset,
            sb.cap() == capacity,
    {
        let _len = mem.len();
        let buffer = RingBuffer::<2>::bind(mem, mem_start_offset + 2, capacity);
        proof {
            buffer.lemma_layout();
        }
        StagingBufferWriter {
            buffer,
            mem_start_offset,
            mem_writer_generation_offset: mem_start_offset,
            mem_reader_ack_generation_offset: mem_start_offset + 1,
            mem_end_offset: buffer.mem_end_offset(),
            capacity: capacity as usize,
        }
    }

    pub fn create(mem: &mut AtomicBuffer, mem_start_offset: usize, capacity: u32, bind: bool) -> (sb: Self)
        requires
            is_pow2_u32(capacity),
            capacity <= 0x4000_0000,
            mem_start_offset + staging_size(capacity as int) <= old(mem)@.len(),
        ensures
            sb.valid(final(mem)@),
            sb.start() == mem_start_offset,
            sb.cap() == capacity,
            bind ==> final(mem)@ == old(mem)@,
            !bind ==> {
                &&& sb.inv(final(mem)@)
                &&& sb.entries(final(mem)@).len() == 0
                &&& sb.ring().unwrapped(final(mem)@)
                &&& sb.writer_gen(final(mem)@) == 1
                &&& sb.ack_gen(final(mem)@) == 0
                &&& unchanged_outside(old(mem)@, final(mem)@, sb.start(), sb.end())
            },
    {
        let _len = mem.len();
        if bind {
            return Self::bind(mem, mem_start_offset, capacity);
        }
        mem.set(mem_start_offset, 1);
        mem.set(mem_start_offset + 1, 0);
        let buffer = RingBuffer::<2>::create(mem, mem_start_offset + 2, capacity, false);
        proof {
            buffer.lemma_layout();
        }
        StagingBufferWriter {
            buffer,
            mem_start_offset,
            mem_writer_generation_offset: mem_start_offset,
            mem_reader_ack_generation_offset: mem_start_offset + 1,
            mem_end_offset: buffer.mem_end_offset(),
            capacity: capacity as usize,
        }
    }

    pub fn calculate_size_on_mem(capacity: usize) -> (r: usize)
        requires
            staging_size(capacity as int) <= usize::MAX,
        ensures
            r == staging_size(capacity as int),
    {
        2 + RingBuffer::<2>::calculate_size_on_mem(capacity)
    }

    pub fn to_reader(&self) -> (r: StagingBufferReader)
        requires
            self.wf(),
        ensures
            r.wf(),
            r.start() == self.start(),
            r.cap() == self.cap(),
    {
        proof {
            self.lemma_wf();
        }
        StagingBufferReader::bind(self.mem_start_offset, self.capacity as u32)
    }

    pub fn len(&self, mem: &AtomicBuffer) -> (r: usize)
        requires
            self.valid(mem@),
            self.inv(mem@),
        ensures
            r == self.entries(mem@).len(),
    {
        proof {
            self.lemma_wf();
        }
        self.buffer.pending_count(mem)
    }

    pub fn mem_start_offset(&self) -> (r: usize)
        ensures
            r == self.start(),
    {
        self.mem_start_offset
    }

    pub fn mem_end_offset(&self) -> (r: usize)
        ensures
            r == self.end(),
    {
        self.mem_end_offset
    }

    pub fn capacity(&self) -> (r: usize)
        ensures
            r == self.cap(),
    {
        self.capacity
    }

    pub fn writer_generation(&self, mem: &AtomicBuffer) -> (r: i32)
        requires
            self.valid(mem@),
        ensures
            r == self.writer_gen(mem@),
    {
        mem[self.mem_writer_generation_offset]
    }

    pub fn reader_ack_generation(&self, mem: &AtomicBuffer) -> (r: i32)
        requires
            self.valid(mem@),
        ensures
            r == self.ack_gen(mem@),
    {
        mem[self.mem_reader_ack_generation_offset]
    }

    /// Stages `slot`, stamped with the current writer generation.
    pub fn push(&self, mem: &mut AtomicBuffer, slot: SlotId) -> (r: Result<(), RingBufferError>)
        requires
            self.valid(old(mem)@),
            self.inv(old(mem)@),
            self.entries(old(mem)@).len() < self.cap(),
        ensures
            r is Ok,
            self.inv(final(mem)@),
            self.entries(final(mem)@) == self.entries(old(mem)@).push(
                seq![slot.raw() as i32, self.writer_gen(old(mem)@)],
            ),
            self.writer_gen(final(mem)@) == self.writer_gen(old(mem)@),
            self.ack_gen(final(mem)@) == self.ack_gen(old(mem)@),
            unchanged_outside(old(mem)@, final(mem)@, self.start() + 2, self.end()),
    {
        proof {
            self.lemma_wf();
        }
        let generation_id = mem[self.mem_writer_generation_offset];
        let data = [slot.to_i32(), generation_id];
        let r = self.buffer.write(mem, &data);
        proof {
            assert(data@ =~= seq![slot.raw() as i32, generation_id]);
        }
        r
    }

    /// Advances the writer generation.
    pub fn publish(&self, mem: &mut AtomicBuffer)
        requires
            self.valid(old(mem)@),
        ensures
            final(mem)@ == old(mem)@.update(self.start(), self.writer_gen(old(mem)@).wrapping_add(1)),
            self.writer_gen(final(mem)@) == self.writer_gen(old(mem)@).wrapping_add(1),
            self.inv(old(mem)@) ==> self.entries(final(mem)@) == self.entries(old(mem)@),
            self.inv(final(mem)@) == self.inv(old(mem)@),
            self.ack_gen(final(mem)@) == self.ack_gen(old(mem)@),
    {
        proof {
            self.lemma_wf();
        }
        let g = mem[self.mem_writer_generation_offset];
        mem.set(self.mem_writer_generation_offset, g.wrapping_add(1));
        proof {
            self.buffer.lemma_region_frame(old(mem)@, mem@);
        }
    }

    /// Starts draining the entries acknowledged as of now.
    pub fn drain(&self, mem: &AtomicBuffer) -> (r: StagingBufferWriterIterator)
        requires
            self.valid(mem@),
        ensures
            r.ring() == self.ring(),
            r.ack() == self.ack_gen(mem@),
    {
        StagingBufferWriterIterator {
            buffer: self.buffer,
            ack_generation: self.reader_ack_generation(mem),
        }
    }

    /// Copies both generations and the ring of `source` into this buffer.
    pub fn copy_from(&self, mem: &mut AtomicBuffer, source: &Self, source_mem: &AtomicBuffer)
        requires
            self.valid(old(mem)@),
            source.valid(source_mem@),
            source.cap() <= self.cap(),
        ensures
            self.writer_gen(final(mem)@) == source.writer_gen(source_mem@),
            self.ack_gen(final(mem)@) == source.ack_gen(source_mem@),
            unchanged_outside(old(mem)@, final(mem)@, self.start(), self.end()),
            source.inv(source_mem@) ==> {
                &&& self.inv(final(mem)@)
                &&& self.entries(final(mem)@) == source.entries(source_mem@)
                &&& (source.ring().unwrapped(source_mem@) || source.cap() < self.cap() ==> self.ring().unwrapped(
                    final(mem)@,
                ))
            },
    {
        proof {
            self.lemma_wf();
            source.lemma_wf();
        }
        let w = source_mem[source.mem_writer_generation_offset];
        mem.set(self.mem_writer_generation_offset, w);
        let a = source_mem[source.mem_reader_ack_generation_offset];
        mem.set(self.mem_reader_ack_generation_offset, a);
        self.buffer.copy_from(mem, &source.buffer, source_mem);
        proof {
            assert(ring_size(source.cap(), 2) <= ring_size(self.cap(), 2));
        }
    }
}

} // verus!
