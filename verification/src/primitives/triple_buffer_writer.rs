use crate::primitives::triple_buffer_reader::TripleBufferReader;
use crate::primitives::types::{AtomicBuffer, cells, unchanged_outside, write_cells};
use vstd::prelude::*;

verus! {

/// Number of cells a triple buffer of `cap` cells per buffer occupies.
pub open spec fn tb_size(cap: int) -> int {
    4 + 3 * cap
}

/// First cell of buffer `k` (0, 1 or 2).
pub open spec fn tb_base(start: int, cap: int, k: int) -> int {
    if k == 0 {
        start + 4
    } else if k == 1 {
        start + 4 + cap
    } else {
        start + 4 + 2 * cap
    }
}

/// The cells of buffer `k`.
pub open spec fn tb_buf(mem: Seq<i32>, start: int, cap: int, k: int) -> Seq<i32> {
    cells(mem, tb_base(start, cap, k), cap)
}

/// The buffer held for handoff (state bits 0-1).
pub open spec fn tb_shared_id(mem: Seq<i32>, start: int) -> int {
    (mem[start] as int) % 4
}

/// The NEW_DATA flag (state bit 2): a published buffer awaits the reader.
pub open spec fn tb_new_data(mem: Seq<i32>, start: int) -> bool {
    mem[start] >= 4
}

pub open spec fn tb_writer_id(mem: Seq<i32>, start: int) -> int {
    mem[start + 1] as int
}

pub open spec fn tb_published_id(mem: Seq<i32>, start: int) -> int {
    mem[start + 2] as int
}

pub open spec fn tb_reader_id(mem: Seq<i32>, start: int) -> int {
    mem[start + 3] as int
}

/// The control invariant reads only the four control cells.
pub proof fn lemma_tb_inv_frame(m1: Seq<i32>, m2: Seq<i32>, start: int)
    requires
        tb_inv(m1, start),
        0 <= start,
        start + 4 <= m1.len(),
        start + 4 <= m2.len(),
        forall|x: int| start <= x < start + 4 ==> #[trigger] m2[x] == m1[x],
    ensures
        tb_inv(m2, start),
{
    assert(m2[start] == m1[start]);
    assert(m2[start + 1] == m1[start + 1]);
    assert(m2[start + 2] == m1[start + 2]);
    assert(m2[start + 3] == m1[start + 3]);
}

/// What the reader swaps in right after the writer published is exactly
/// what the writer had written; swapping again before the next publish
/// changes nothing.
pub proof fn lemma_publish_then_swap(m: Seq<i32>, start: int, cap: int)
    requires
        tb_inv(m, start),
        0 <= start,
        cap > 0,
        start + tb_size(cap) <= m.len(),
    ensures
        ({
            let m2 = tb_after_swap(tb_after_publish(m, start, cap), start);
            &&& tb_buf(m2, start, cap, tb_reader_id(m2, start)) == tb_buf(m, start, cap, tb_writer_id(m, start))
            &&& tb_inv(m2, start)
            &&& tb_after_swap(m2, start) == m2
        }),
{
    let c = tb_writer_id(m, start);
    let m1 = tb_after_publish(m, start, cap);
    let m2 = tb_after_swap(m1, start);
    assert(m1[start] == c + 4);
    assert(tb_new_data(m1, start));
    assert(tb_shared_id(m1, start) == c);
    assert(tb_reader_id(m2, start) == c);
    assert(m2[start] == tb_reader_id(m1, start));
    assert(tb_buf(m2, start, cap, c) =~= tb_buf(m, start, cap, c));
}

/// The writer, the reader and the handoff each hold a different buffer.
pub open spec fn tb_inv(mem: Seq<i32>, start: int) -> bool {
    let w = tb_writer_id(mem, start);
    let r = tb_reader_id(mem, start);
    let s = tb_shared_id(mem, start);
    &&& 0 <= mem[start] < 8
    &&& 0 <= w < 3
    &&& 0 <= r < 3
    &&& 0 <= s < 3
    &&& w != r
    &&& w != s
    &&& r != s
    &&& 0 <= tb_published_id(mem, start) < 3
}

/// The control cells a new buffer starts with: state 1 (handoff buffer 1,
/// no new data), writer 0, published 0, reader 2.
pub open spec fn tb_fresh(mem: Seq<i32>, start: int) -> bool {
    &&& mem[start] == 1
    &&& mem[start + 1] == 0
    &&& mem[start + 2] == 0
    &&& mem[start + 3] == 2
}

/// The cells after the writer publishes: its buffer becomes the handoff
/// buffer (with NEW_DATA set), it takes the former handoff buffer and fills
/// it with a copy of what it published.
pub open spec fn tb_after_publish(mem: Seq<i32>, start: int, cap: int) -> Seq<i32> {
    let c = tb_writer_id(mem, start);
    let s = tb_shared_id(mem, start);
    let nb = tb_base(start, cap, s);
    let cb = tb_base(start, cap, c);
    Seq::new(
        mem.len(),
        |i: int|
            if i == start {
                (c + 4) as i32
            } else if i == start + 1 {
                s as i32
            } else if i == start + 2 {
                c as i32
            } else if nb <= i < nb + cap {
                mem[i - nb + cb]
            } else {
                mem[i]
            },
    )
}

/// The cells after the reader swaps: with NEW_DATA set it takes the handoff
/// buffer and hands its own back (clearing NEW_DATA); otherwise nothing changes.
pub open spec fn tb_after_swap(mem: Seq<i32>, start: int) -> Seq<i32> {
    if !tb_new_data(mem, start) {
        mem
    } else {
        mem.update(start, tb_reader_id(mem, start) as i32).update(
            start + 3,
            tb_shared_id(mem, start) as i32,
        )
    }
}

proof fn lemma_state_bits(x: i32)
    requires
        0 <= x < 8,
    ensures
        x & 3 == x % 4,
        (x & 4 == 0) == (x < 4),
{
    assert(x & 3 == x % 4) by (bit_vector)
        requires
            0 <= x < 8,
    ;
    assert((x & 4 == 0) == (x < 4)) by (bit_vector)
        requires
            0 <= x < 8,
    ;
}

proof fn lemma_publish_bits(c: i32)
    requires
        0 <= c < 3,
    ensures
        (c & 3) | 4 == c + 4,
        c & 3 == c,
{
    assert((c & 3) | 4 == c + 4) by (bit_vector)
        requires
            0 <= c < 3,
    ;
    assert(c & 3 == c) by (bit_vector)
        requires
            0 <= c < 3,
    ;
}

/// Producer-side of an SPSC triple buffer backed by the shared memory plane.
///
/// Three buffers rotate between producer, consumer and shared handoff.
/// The producer writes into a private buffer, then calls `publish()` to
/// hand it off. After publish, the producer receives a stale buffer back and
/// syncs it from the published buffer.
///
/// # Memory Layout
/// ```text
/// Offset          Size            Field
/// -----------------------------------------------------
/// 0               1               state
/// 1               1               writer_buffer_id
/// 2               1               published_buffer_id
/// 3               1               reader_buffer_id
/// 4               3 * N           buffers
///
/// N = buffer_capacity
/// ```
///
/// # State Encoding
/// `state` packs two values into a single `i32`:
/// - bits 0-1: shared buffer ID (0, 1, or 2).
/// - bit 2: NEW_DATA flag (1 = unread data available)
///
/// # Initial State
/// - Producer owns buffer 0, consumer owns buffer 2, shared holds buffer 1
/// - `state` = `0b001` (buffer 1, no new data).
#[derive(Clone, Copy)]
pub struct TripleBufferWriter {
    mem_start_offset: usize,
    mem_state_offset: usize,
    mem_writer_offset: usize,
    mem_published_offset: usize,
    mem_reader_offset: usize,
    buffer_bases: [usize; 3],
    buffer_capacity: usize,
    mem_end_offset: usize,
}

impl TripleBufferWriter {
    pub closed spec fn start(&self) -> int {
        self.mem_start_offset as int
    }

    pub closed spec fn end(&self) -> int {
        self.mem_end_offset as int
    }

    pub closed spec fn cap(&self) -> int {
        self.buffer_capacity as int
    }

    pub closed spec fn wf(&self) -> bool {
        &&& self.buffer_capacity > 0
        &&& self.buffer_capacity <= u32::MAX
        &&& self.mem_state_offset == self.mem_start_offset
        &&& self.mem_writer_offset == self.mem_start_offset + 1
        &&& self.mem_published_offset == self.mem_start_offset + 2
        &&& self.mem_reader_offset == self.mem_start_offset + 3
        &&& self.buffer_bases[0] == tb_base(self.mem_start_offset as int, self.buffer_capacity as int, 0)
        &&& self.buffer_bases[1] == tb_base(self.mem_start_offset as int, self.buffer_capacity as int, 1)
        &&& self.buffer_bases[2] == tb_base(self.mem_start_offset as int, self.buffer_capacity as int, 2)
        &&& self.mem_end_offset == self.mem_start_offset + tb_size(self.buffer_capacity as int)
    }

    pub open spec fn valid(&self, mem: Seq<i32>) -> bool {
        self.wf() && self.end() <= mem.len()
    }

    pub open spec fn inv(&self, mem: Seq<i32>) -> bool {
        tb_inv(mem, self.start())
    }

    /// The buffer the producer writes.
    pub open spec fn writer_buffer(&self, mem: Seq<i32>) -> Seq<i32> {
        tb_buf(mem, self.start(), self.cap(), tb_writer_id(mem, self.start()))
    }

    /// First cell of the buffer the producer writes.
    pub open spec fn writer_base(&self, mem: Seq<i32>) -> int {
        tb_base(self.start(), self.cap(), tb_writer_id(mem, self.start()))
    }

    pub proof fn lemma_layout(&self)
        requires
            self.wf(),
        ensures
            self.cap() > 0,
            self.cap() <= usize::MAX,
            self.cap() <= u32::MAX,
            self.end() == self.start() + tb_size(self.cap()),
            0 <= self.start(),
            self.end() <= usize::MAX,
    {
    }

    pub fn new(mem: &mut AtomicBuffer, mem_start_offset: usize, buffer_capacity: u32) -> (tb: Self)
        requires
            buffer_capacity > 0,
            mem_start_offset + tb_size(buffer_capacity as int) <= old(mem)@.len(),
        ensures
            tb.valid(final(mem)@),
            tb.start() == mem_start_offset,
            tb.cap() == buffer_capacity,
            tb.inv(final(mem)@),
            final(mem)@ == old(mem)@.update(mem_start_offset as int, 1).update(
                mem_start_offset + 1,
                0,
            ).update(mem_start_offset + 2, 0).update(mem_start_offset + 3, 2),
    {
        TripleBufferWriter::create(mem, mem_start_offset, buffer_capacity, false)
    }

    pub fn bind(mem: &mut AtomicBuffer, mem_start_offset: usize, buffer_capacity: u32) -> (tb: Self)
        requires
            buffer_capacity > 0,
            mem_start_offset + tb_size(buffer_capacity as int) <= old(mem)@.len(),
            0 <= tb_published_id(old(mem)@, mem_start_offset as int) < 3,
            0 <= tb_writer_id(old(mem)@, mem_start_offset as int) < 3,
        ensures
            tb.valid(final(mem)@),
            tb.start() == mem_start_offset,
            tb.cap() == buffer_capacity,
            final(mem)@ == tb_after_bind(old(mem)@, mem_start_offset as int, buffer_capacity as int),
    {
        TripleBufferWriter::create(mem, mem_start_offset, buffer_capacity, true)
    }

    fn layout(mem_start_offset: usize, buffer_capacity: u32) -> (tb: Self)
        requires
            buffer_capacity > 0,
            mem_start_offset + tb_size(buffer_capacity as int) <= usize::MAX,
        ensures
            tb.wf(),
            tb.start() == mem_start_offset,
            tb.cap() == buffer_capacity,
    {
        let mem_buffers_base = mem_start_offset + 4;
        let cap = buffer_capacity as usize;
        let buffer_bases: [usize; 3] = [mem_buffers_base, mem_buffers_base + cap, mem_buffers_base + cap * 2];
        TripleBufferWriter {
            mem_start_offset,
            mem_state_offset: mem_start_offset,
            mem_writer_offset: mem_start_offset + 1,
            mem_published_offset: mem_start_offset + 2,
            mem_reader_offset: mem_start_offset + 3,
            buffer_bases,
            buffer_capacity: cap,
            mem_end_offset: mem_buffers_base + cap * 3,
        }
    }

    pub fn create(mem: &mut AtomicBuffer, mem_start_offset: usize, buffer_capacity: u32, bind: bool) -> (tb: Self)
        requires
            buffer_capacity > 0,
            mem_start_offset + tb_size(buffer_capacity as int) <= old(mem)@.len(),
            bind ==> 0 <= tb_published_id(old(mem)@, mem_start_offset as int) < 3,
            bind ==> 0 <= tb_writer_id(old(mem)@, mem_start_offset as int) < 3,
        ensures
            tb.valid(final(mem)@),
            tb.start() == mem_start_offset,
            tb.cap() == buffer_capacity,
            !bind ==> tb.inv(final(mem)@),
            !bind ==> final(mem)@ == old(mem)@.update(mem_start_offset as int, 1).update(
                mem_start_offset + 1,
                0,
            ).update(mem_start_offset + 2, 0).update(mem_start_offset + 3, 2),
            bind ==> final(mem)@ == tb_after_bind(old(mem)@, mem_start_offset as int, buffer_capacity as int),
            unchanged_outside(old(mem)@, final(mem)@, mem_start_offset as int, mem_start_offset + tb_size(buffer_capacity as int)),
    {
        let _len = mem.len();
        let writer = Self::layout(mem_start_offset, buffer_capacity);
        if !bind {
            mem.set(mem_start_offset + 1, 0);
            mem.set(mem_start_offset, 1);
            mem.set(mem_start_offset + 2, 0);
            mem.set(mem_start_offset + 3, 2);
            proof {
                assert(mem@ =~= old(mem)@.update(mem_start_offset as int, 1).update(
                    mem_start_offset + 1,
                    0,
                ).update(mem_start_offset + 2, 0).update(mem_start_offset + 3, 2));
            }
        } else {
            let published_index = mem[mem_start_offset + 2];
            let writer_index = mem[mem_start_offset + 1];
            writer.sync(mem, published_index as usize, writer_index as usize);
            proof {
                let w = tb_writer_id(old(mem)@, mem_start_offset as int);
                let tbase = tb_base(mem_start_offset as int, buffer_capacity as int, w);
                assert(mem_start_offset + 4 <= tbase);
                assert(tbase + buffer_capacity <= mem_start_offset + tb_size(buffer_capacity as int));
            }
        }
        writer
    }

    #[inline]
    pub fn calculate_size_on_mem(capacity: usize) -> (r: usize)
        requires
            tb_size(capacity as int) <= usize::MAX,
        ensures
            r == tb_size(capacity as int),
    {
        4 + capacity * 3
    }

    pub fn to_reader(&self) -> (r: TripleBufferReader)
        requires
            self.wf(),
        ensures
            r.wf(),
            r.start() == self.start(),
            r.cap() == self.cap(),
    {
        TripleBufferReader::bind(self.mem_start_offset, self.buffer_capacity)
    }

    #[inline]
    pub fn buffer_capacity(&self) -> (r: usize)
        ensures
            r == self.cap(),
    {
        self.buffer_capacity
    }

    #[inline]
    pub fn mem_start_offset(&self) -> (r: usize)
        ensures
            r == self.start(),
    {
        self.mem_start_offset
    }

    #[inline]
    pub fn mem_end_offset(&self) -> (r: usize)
        ensures
            r == self.end(),
    {
        self.mem_end_offset
    }

    #[inline]
    pub fn mem_writer_base(&self, mem: &AtomicBuffer) -> (r: usize)
        requires
            self.valid(mem@),
            0 <= tb_writer_id(mem@, self.start()) < 3,
        ensures
            r == self.writer_base(mem@),
    {
        let buffer_id = mem[self.mem_writer_offset] as usize;
        self.buffer_bases[buffer_id]
    }

    /// Hands the writer buffer off to the reader and takes the former handoff
    /// buffer, synced from what was just published.
    pub fn publish(&self, mem: &mut AtomicBuffer)
        requires
            self.valid(old(mem)@),
            self.inv(old(mem)@),
        ensures
            final(mem)@ == tb_after_publish(old(mem)@, self.start(), self.cap()),
            self.inv(final(mem)@),
    {
        let current_id = mem[self.mem_writer_offset];
        proof {
            lemma_publish_bits(current_id);
            lemma_state_bits(mem@[self.start()]);
        }
        let new_state = (current_id & 0b011) | 0b100;
        let old_state = mem[self.mem_state_offset];
        mem.set(self.mem_state_offset, new_state);
        let writer_new_buffer_id = old_state & 0b011;
        mem.set(self.mem_writer_offset, writer_new_buffer_id);
        mem.set(self.mem_published_offset, current_id);
        let ghost mid = mem@;
        self.sync(mem, current_id as usize, writer_new_buffer_id as usize);
        proof {
            let om = old(mem)@;
            let st = self.start();
            let cap = self.cap();
            assert(mem@ =~= tb_after_publish(om, st, cap));
            lemma_state_bits(new_state);
        }
    }

    /// Copies buffer `published_index` over buffer `writer_index`.
    fn sync(&self, mem: &mut AtomicBuffer, published_index: usize, writer_index: usize)
        requires
            self.valid(old(mem)@),
            published_index < 3,
            writer_index < 3,
        ensures
            final(mem)@ == tb_copy_buffer(old(mem)@, self.start(), self.cap(), published_index as int, writer_index as int),
    {
        if published_index == writer_index {
            proof {
                assert(mem@ =~= tb_copy_buffer(old(mem)@, self.start(), self.cap(), published_index as int, writer_index as int));
            }
            return;
        }
        let published_buffer_index = self.buffer_bases[published_index];
        let writer_buffer_index = self.buffer_bases[writer_index];
        let cap = self.buffer_capacity;
        let mut i: usize = 0;
        while i < cap
            invariant
                self.valid(old(mem)@),
                published_index < 3,
                writer_index < 3,
                published_index != writer_index,
                cap == self.cap(),
                published_buffer_index == tb_base(self.start(), self.cap(), published_index as int),
                writer_buffer_index == tb_base(self.start(), self.cap(), writer_index as int),
                i <= cap,
                mem@.len() == old(mem)@.len(),
                forall|j: int|
                    0 <= j < mem@.len() ==> #[trigger] mem@[j] == if writer_buffer_index <= j
                        < writer_buffer_index + i {
                        old(mem)@[j - writer_buffer_index + published_buffer_index]
                    } else {
                        old(mem)@[j]
                    },
            decreases cap - i,
        {
            let v = mem[published_buffer_index + i];
            mem.set(writer_buffer_index + i, v);
            i = i + 1;
        }
        proof {
            assert(mem@ =~= tb_copy_buffer(old(mem)@, self.start(), self.cap(), published_index as int, writer_index as int));
        }
    }

    #[inline]
    pub fn write(&self, mem: &mut AtomicBuffer, offset: usize, value: i32)
        requires
            self.valid(old(mem)@),
            0 <= tb_writer_id(old(mem)@, self.start()) < 3,
            offset < self.cap(),
        ensures
            final(mem)@ == old(mem)@.update(self.writer_base(old(mem)@) + offset, value),
    {
        let base = self.mem_writer_base(mem);
        mem.set(base + offset, value)
    }

    #[inline]
    pub fn read(&self, mem: &AtomicBuffer, offset: usize) -> (r: i32)
        requires
            self.valid(mem@),
            0 <= tb_writer_id(mem@, self.start()) < 3,
            offset < self.cap(),
        ensures
            r == mem@[self.writer_base(mem@) + offset],
            r == self.writer_buffer(mem@)[offset as int],
    {
        let base = self.mem_writer_base(mem);
        mem[base + offset]
    }

    #[inline]
    pub fn write_batch(&self, mem: &mut AtomicBuffer, offset: usize, data: &[i32])
        requires
            self.valid(old(mem)@),
            0 <= tb_writer_id(old(mem)@, self.start()) < 3,
            offset + data@.len() <= self.cap(),
        ensures
            final(mem)@ == write_cells(old(mem)@, self.writer_base(old(mem)@) + offset, data@),
    {
        let base = self.mem_writer_base(mem) + offset;
        let n = data.len();
        let mut i: usize = 0;
        while i < n
            invariant
                self.valid(old(mem)@),
                n == data@.len(),
                base == self.writer_base(old(mem)@) + offset,
                base + n <= self.end(),
                i <= n,
                mem@ == write_cells(old(mem)@, base as int, data@.take(i as int)),
            decreases n - i,
        {
            mem.set(base + i, data[i]);
            proof {
                assert(data@.take(i + 1) =~= data@.take(i as int).push(data@[i as int]));
                assert(mem@ =~= write_cells(old(mem)@, base as int, data@.take(i + 1)));
            }
            i = i + 1;
        }
        proof {
            assert(data@.take(n as int) =~= data@);
        }
    }

    #[inline]
    pub fn read_batch(&self, mem: &AtomicBuffer, offset: usize, out: &mut [i32])
        requires
            self.valid(mem@),
            0 <= tb_writer_id(mem@, self.start()) < 3,
            offset + old(out)@.len() <= self.cap(),
        ensures
            final(out)@ == cells(mem@, self.writer_base(mem@) + offset, old(out)@.len() as int),
    {
        let base = self.mem_writer_base(mem) + offset;
        let n = out.len();
        let mut i: usize = 0;
        while i < n
            invariant
                self.valid(mem@),
                n == out@.len(),
                n == old(out)@.len(),
                base == self.writer_base(mem@) + offset,
                base + n <= self.end(),
                i <= n,
                forall|j: int| 0 <= j < i ==> #[trigger] out@[j] == mem@[base + j],
            decreases n - i,
        {
            out[i] = mem[base + i];
            i = i + 1;
        }
        proof {
            assert(out@ =~= cells(mem@, self.writer_base(mem@) + offset, old(out)@.len() as int));
        }
    }

    /// Copies the four control cells of `source`.
    pub fn copy_metadata_from(&self, mem: &mut AtomicBuffer, source: &TripleBufferWriter, source_mem: &AtomicBuffer)
        requires
            self.valid(old(mem)@),
            source.valid(source_mem@),
            source.cap() <= self.cap(),
        ensures
            final(mem)@ == old(mem)@.update(self.start(), source_mem@[source.start()]).update(
                self.start() + 1,
                source_mem@[source.start() + 1],
            ).update(self.start() + 2, source_mem@[source.start() + 2]).update(
                self.start() + 3,
                source_mem@[source.start() + 3],
            ),
    {
        mem.set(self.mem_state_offset, source_mem[source.mem_state_offset]);
        mem.set(self.mem_writer_offset, source_mem[source.mem_writer_offset]);
        mem.set(self.mem_published_offset, source_mem[source.mem_published_offset]);
        mem.set(self.mem_reader_offset, source_mem[source.mem_reader_offset]);
    }

    /// Copies `count` cells from `source_offset` of each source buffer to
    /// `destination_offset` of the same-numbered buffer here.
    pub fn copy_region_from(
        &self,
        mem: &mut AtomicBuffer,
        source: &TripleBufferWriter,
        source_mem: &AtomicBuffer,
        source_offset: usize,
        destination_offset: usize,
        count: usize,
    )
        requires
            self.valid(old(mem)@),
            source.valid(source_mem@),
            source.cap() <= self.cap(),
            destination_offset + count <= self.cap(),
            source_offset + count <= source.cap(),
        ensures
            final(mem)@.len() == old(mem)@.len(),
            forall|k: int, t: int|
                0 <= k < 3 && 0 <= t < count ==> #[trigger] final(mem)@[tb_base(
                    self.start(),
                    self.cap(),
                    k,
                ) + destination_offset + t] == source_mem@[tb_base(source.start(), source.cap(), k)
                    + source_offset + t],
            forall|j: int|
                0 <= j < old(mem)@.len() && !tb_in_region(j, self.start(), self.cap(), destination_offset as int, count as int)
                    ==> #[trigger] final(mem)@[j] == old(mem)@[j],
    {
        let mut b: usize = 0;
        while b < 3
            invariant
                self.valid(old(mem)@),
                source.valid(source_mem@),
                source.cap() <= self.cap(),
                destination_offset + count <= self.cap(),
                source_offset + count <= source.cap(),
                b <= 3,
                mem@.len() == old(mem)@.len(),
                forall|k: int, t: int|
                    0 <= k < b && 0 <= t < count ==> #[trigger] mem@[tb_base(self.start(), self.cap(), k)
                        + destination_offset + t] == source_mem@[tb_base(source.start(), source.cap(), k)
                        + source_offset + t],
                forall|j: int|
                    0 <= j < old(mem)@.len() && !tb_in_region(j, self.start(), self.cap(), destination_offset as int, count as int)
                        ==> #[trigger] mem@[j] == old(mem)@[j],
            decreases 3 - b,
        {
            let self_base = self.buffer_bases[b] + destination_offset;
            let source_base = source.buffer_bases[b] + source_offset;
            let mut k: usize = 0;
            while k < count
                invariant
                    self.valid(old(mem)@),
                    source.valid(source_mem@),
                    source.cap() <= self.cap(),
                    destination_offset + count <= self.cap(),
                    source_offset + count <= source.cap(),
                    b < 3,
                    self_base == tb_base(self.start(), self.cap(), b as int) + destination_offset,
                    source_base == tb_base(source.start(), source.cap(), b as int) + source_offset,
                    k <= count,
                    mem@.len() == old(mem)@.len(),
                    forall|kk: int, t: int|
                        0 <= kk < b && 0 <= t < count ==> #[trigger] mem@[tb_base(self.start(), self.cap(), kk)
                            + destination_offset + t] == source_mem@[tb_base(source.start(), source.cap(), kk)
                            + source_offset + t],
                    forall|t: int| 0 <= t < k ==> #[trigger] mem@[self_base + t] == source_mem@[source_base + t],
                    forall|j: int|
                        0 <= j < old(mem)@.len() && !tb_in_region(j, self.start(), self.cap(), destination_offset as int, count as int)
                            ==> #[trigger] mem@[j] == old(mem)@[j],
                decreases count - k,
            {
                let v = source_mem[source_base + k];
                mem.set(self_base + k, v);
                k = k + 1;
            }
            proof {
                assert forall|kk: int, t: int|
                    0 <= kk < b + 1 && 0 <= t < count implies #[trigger] mem@[tb_base(self.start(), self.cap(), kk)
                        + destination_offset + t] == source_mem@[tb_base(source.start(), source.cap(), kk)
                        + source_offset + t] by {
                    if kk == b {
                        assert(mem@[self_base + t] == source_mem@[source_base + t]);
                    }
                }
            }
            b = b + 1;
        }
    }
}

/// `j` lies in `[offset, offset + count)` of one of the three buffers.
pub open spec fn tb_in_region(j: int, start: int, cap: int, offset: int, count: int) -> bool {
    ||| tb_base(start, cap, 0) + offset <= j < tb_base(start, cap, 0) + offset + count
    ||| tb_base(start, cap, 1) + offset <= j < tb_base(start, cap, 1) + offset + count
    ||| tb_base(start, cap, 2) + offset <= j < tb_base(start, cap, 2) + offset + count
}

/// A cell at offset `off` of buffer `k` lies in the window `[offset, offset +
/// count)` of the three buffers exactly when `off` does.
pub proof fn lemma_in_region_at(start: int, cap: int, k: int, off: int, offset: int, count: int)
    requires
        0 <= k < 3,
        0 <= off < cap,
        0 <= offset,
        0 <= count,
        offset + count <= cap,
    ensures
        tb_in_region(tb_base(start, cap, k) + off, start, cap, offset, count) <==> (offset <= off < offset + count),
{
}

/// `mem` with buffer `to` overwritten by a copy of buffer `from`.
pub open spec fn tb_copy_buffer(mem: Seq<i32>, start: int, cap: int, from: int, to: int) -> Seq<i32> {
    let fb = tb_base(start, cap, from);
    let tbase = tb_base(start, cap, to);
    Seq::new(
        mem.len(),
        |i: int|
            if tbase <= i < tbase + cap {
                mem[i - tbase + fb]
            } else {
                mem[i]
            },
    )
}

/// On `new` the buffer at `s` has the control cells it had on `old`, its
/// writer buffer holds what its published buffer held, and its other two
/// buffers are as they were.
pub open spec fn tb_resynced_at(old: Seq<i32>, new: Seq<i32>, s: int, cap: int) -> bool {
    &&& forall|c: int| 0 <= c < 4 ==> #[trigger] new[s + c] == old[s + c]
    &&& forall|k: int, t: int|
        0 <= k < 3 && 0 <= t < cap ==> #[trigger] new[tb_base(s, cap, k) + t] == if k == tb_writer_id(old, s) {
            old[tb_base(s, cap, tb_published_id(old, s)) + t]
        } else {
            old[tb_base(s, cap, k) + t]
        }
}

/// The writer buffer of the buffer at `s` holds what its published buffer
/// holds.
pub open spec fn tb_in_sync(mem: Seq<i32>, s: int, cap: int) -> bool {
    forall|t: int|
        0 <= t < cap ==> #[trigger] mem[tb_base(s, cap, tb_writer_id(mem, s)) + t] == mem[tb_base(
            s,
            cap,
            tb_published_id(mem, s),
        ) + t]
}

/// Publishing leaves the writer buffer holding what was just published.
pub proof fn lemma_publish_in_sync(mem: Seq<i32>, start: int, cap: int)
    requires
        tb_inv(mem, start),
        0 <= start,
        0 < cap,
        start + 4 + 3 * cap <= mem.len(),
    ensures
        tb_in_sync(tb_after_publish(mem, start, cap), start, cap),
{
    let m2 = tb_after_publish(mem, start, cap);
    let c = tb_writer_id(mem, start);
    let sh = tb_shared_id(mem, start);
    assert(tb_writer_id(m2, start) == sh);
    assert(tb_published_id(m2, start) == c);
    assert forall|t: int| 0 <= t < cap implies #[trigger] m2[tb_base(start, cap, tb_writer_id(m2, start)) + t] == m2[tb_base(
        start,
        cap,
        tb_published_id(m2, start),
    ) + t] by {
        assert(m2[tb_base(start, cap, sh) + t] == mem[tb_base(start, cap, c) + t]);
        assert(m2[tb_base(start, cap, c) + t] == mem[tb_base(start, cap, c) + t]);
    }
}

/// Resyncing a buffer already in sync changes none of its cells.
pub proof fn lemma_resync_in_sync(old: Seq<i32>, new: Seq<i32>, s: int, cap: int)
    requires
        0 < cap,
        tb_resynced_at(old, new, s, cap),
        tb_in_sync(old, s, cap),
    ensures
        forall|j: int| s <= j < s + tb_size(cap) ==> #[trigger] new[j] == old[j],
{
    assert forall|j: int| s <= j < s + tb_size(cap) implies #[trigger] new[j] == old[j] by {
        if j < s + 4 {
            assert(new[s + (j - s)] == old[s + (j - s)]);
        } else {
            let k = if j < s + 4 + cap {
                0int
            } else if j < s + 4 + 2 * cap {
                1int
            } else {
                2int
            };
            let t = j - tb_base(s, cap, k);
            assert(new[tb_base(s, cap, k) + t] == if k == tb_writer_id(old, s) {
                old[tb_base(s, cap, tb_published_id(old, s)) + t]
            } else {
                old[tb_base(s, cap, k) + t]
            });
            if k == tb_writer_id(old, s) {
                assert(old[tb_base(s, cap, tb_writer_id(old, s)) + t] == old[tb_base(s, cap, tb_published_id(old, s)) + t]);
            }
        }
    }
}

/// Binding resyncs the buffer.
pub proof fn lemma_bind_resyncs(old: Seq<i32>, s: int, cap: int)
    requires
        0 <= s,
        0 < cap,
        s + tb_size(cap) <= old.len(),
        0 <= tb_writer_id(old, s) < 3,
        0 <= tb_published_id(old, s) < 3,
    ensures
        tb_resynced_at(old, tb_after_bind(old, s, cap), s, cap),
{
    let new = tb_after_bind(old, s, cap);
    let w = tb_writer_id(old, s);
    assert forall|c: int| 0 <= c < 4 implies #[trigger] new[s + c] == old[s + c] by {
    }
    assert forall|k: int, t: int| 0 <= k < 3 && 0 <= t < cap implies #[trigger] new[tb_base(s, cap, k) + t] == if k
        == w {
        old[tb_base(s, cap, tb_published_id(old, s)) + t]
    } else {
        old[tb_base(s, cap, k) + t]
    } by {
    }
}

/// A resync stays one when cells of the buffer stay, before it and after it.
pub proof fn lemma_resynced_frame(o1: Seq<i32>, o2: Seq<i32>, n1: Seq<i32>, n2: Seq<i32>, s: int, cap: int)
    requires
        0 <= s,
        0 < cap,
        tb_resynced_at(o1, n1, s, cap),
        forall|j: int| s <= j < s + tb_size(cap) ==> #[trigger] o2[j] == o1[j],
        forall|j: int| s <= j < s + tb_size(cap) ==> #[trigger] n2[j] == n1[j],
    ensures
        tb_resynced_at(o2, n2, s, cap),
{
    assert(o2[s + 1] == o1[s + 1]);
    assert(o2[s + 2] == o1[s + 2]);
    assert forall|c: int| 0 <= c < 4 implies #[trigger] n2[s + c] == o2[s + c] by {
        assert(n1[s + c] == o1[s + c]);
    }
    assert forall|k: int, t: int| 0 <= k < 3 && 0 <= t < cap implies #[trigger] n2[tb_base(s, cap, k) + t] == if k
        == tb_writer_id(o2, s) {
        o2[tb_base(s, cap, tb_published_id(o2, s)) + t]
    } else {
        o2[tb_base(s, cap, k) + t]
    } by {
        assert(n1[tb_base(s, cap, k) + t] == if k == tb_writer_id(o1, s) {
            o1[tb_base(s, cap, tb_published_id(o1, s)) + t]
        } else {
            o1[tb_base(s, cap, k) + t]
        });
        if k == tb_writer_id(o1, s) {
            let p = tb_published_id(o1, s);
            if 0 <= p < 3 {
                assert(o2[tb_base(s, cap, p) + t] == o1[tb_base(s, cap, p) + t]);
            }
        }
    }
}

/// The cells after binding: the writer buffer is resynced from the published one.
pub open spec fn tb_after_bind(mem: Seq<i32>, start: int, cap: int) -> Seq<i32> {
    tb_copy_buffer(mem, start, cap, tb_published_id(mem, start), tb_writer_id(mem, start))
}

} // verus!
