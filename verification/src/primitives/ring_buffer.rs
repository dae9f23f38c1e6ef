use crate::errors::ring_buffer_error::RingBufferError;
use crate::primitives::types::{AtomicBuffer, cells, is_pow2_u32, lemma_pow2_bound, unchanged_outside};
use vstd::prelude::*;

verus! {

/// `v` reduced into `[0, cap)` when `0 <= v < 2 * cap`.
pub open spec fn wrap(v: int, cap: int) -> int {
    if v < cap {
        v
    } else {
        v - cap
    }
}

proof fn lemma_mask_is_mod(x: i32, c: i32)
    requires
        0 < c,
        c & (c - 1) as i32 == 0,
        0 <= x,
        x <= c,
    ensures
        x & (c - 1) as i32 == wrap(x as int, c as int),
{
    let m = (c - 1) as i32;
    if x < c {
        assert(x & m == x) by (bit_vector)
            requires
                0 < c,
                m == c - 1,
                c & m == 0,
                0 <= x,
                x < c,
        ;
    }
}

proof fn lemma_pow2_i32(c: u32)
    requires
        is_pow2_u32(c),
        c <= 0x4000_0000,
    ensures
        (c as i32) & ((c as i32) - 1) as i32 == 0,
{
    let d = (c - 1) as u32;
    let ci = c as i32;
    let di = (ci - 1) as i32;
    assert(ci & di == 0) by (bit_vector)
        requires
            c > 0,
            d == c - 1,
            c & d == 0,
            ci == c as i32,
            di == ci - 1,
            c <= 0x4000_0000,
    ;
}

proof fn lemma_slot_cells(a: int, b: int, s: int, i: int)
    requires
        0 <= a,
        0 <= b,
        a != b,
        0 <= i < s,
    ensures
        !(b * s <= a * s + i < b * s + s),
{
    if a < b {
        assert(a * s + s <= b * s) by (nonlinear_arith)
            requires
                a < b,
                0 <= s,
        ;
    } else {
        assert(b * s + s <= a * s) by (nonlinear_arith)
            requires
                b < a,
                0 <= s,
        ;
    }
}

proof fn lemma_slot_base(a: int, cap: int, s: int)
    requires
        0 <= a < cap,
        0 <= s,
    ensures
        0 <= a * s,
        a * s + s <= cap * s,
{
    assert(a * s + s <= cap * s) by (nonlinear_arith)
        requires
            a < cap,
            0 <= s,
    ;
    assert(0 <= a * s) by (nonlinear_arith)
        requires
            0 <= a,
            0 <= s,
    ;
}

proof fn lemma_slot_in_region(a: int, cap: int, s: int, i: int)
    requires
        0 <= a < cap,
        0 <= i < s,
    ensures
        0 <= a * s + i < cap * s,
        a * s + s <= cap * s,
{
    assert(a * s + s <= cap * s) by (nonlinear_arith)
        requires
            a < cap,
            0 <= s,
    ;
    assert(0 <= a * s) by (nonlinear_arith)
        requires
            0 <= a,
            0 <= s,
    ;
}

/// Fixed-capacity SPSC ring buffer with const-generic slot width.
///
/// Each entry is `STRIDE` cells stored inline in the memory plane. Uses a bitmask
/// (`& (capacity - 1)`) for index wrapping instead of modulo.
///
/// # Memory Layout
/// ```text
/// Offset          Size            Field
/// ---------------------------------------------
/// 0               1               read_index
/// 1               1               write_index
/// 2               1               pending_count
/// 3               N * S           slots
///
/// N = capacity (power of 2)
/// S = STRIDE (const generic)
/// ```
///
/// # Constraints
/// - `capacity` must be a power of 2.
/// - `peek()` reads without advancing the read cursor.
/// - `read()` reads and advances.
#[derive(Clone, Copy)]
pub struct RingBuffer<const STRIDE: usize> {
    mod_mask: i32,
    capacity: usize,
    mem_start_offset: usize,
    mem_read_offset: usize,
    mem_write_offset: usize,
    mem_pending_offset: usize,
    mem_end_offset: usize,
}

/// Number of cells a ring of `capacity` entries of `stride` cells occupies.
pub open spec fn ring_size(capacity: int, stride: int) -> int {
    3 + capacity * stride
}

impl<const STRIDE: usize> RingBuffer<STRIDE> {
    pub closed spec fn start(&self) -> int {
        self.mem_start_offset as int
    }

    pub closed spec fn end(&self) -> int {
        self.mem_end_offset as int
    }

    pub closed spec fn cap(&self) -> int {
        self.capacity as int
    }

    /// Layout well-formedness.
    pub closed spec fn wf(&self) -> bool {
        &&& self.capacity > 0
        &&& self.capacity <= 0x4000_0000
        &&& is_pow2_u32(self.capacity as u32)
        &&& self.mod_mask == self.capacity - 1
        &&& self.mem_read_offset == self.mem_start_offset
        &&& self.mem_write_offset == self.mem_start_offset + 1
        &&& self.mem_pending_offset == self.mem_start_offset + 2
        &&& self.mem_end_offset == self.mem_start_offset + ring_size(
            self.capacity as int,
            STRIDE as int,
        )
    }

    pub open spec fn valid(&self, mem: Seq<i32>) -> bool {
        self.wf() && self.end() <= mem.len()
    }

    pub closed spec fn read_index(&self, mem: Seq<i32>) -> int {
        mem[self.mem_read_offset as int] as int
    }

    pub closed spec fn write_index(&self, mem: Seq<i32>) -> int {
        mem[self.mem_write_offset as int] as int
    }

    pub closed spec fn pending(&self, mem: Seq<i32>) -> int {
        mem[self.mem_pending_offset as int] as int
    }

    /// Cursor consistency: both cursors inside the ring, at most `capacity`
    /// pending entries, and the write cursor `pending` entries past the read cursor.
    pub closed spec fn inv(&self, mem: Seq<i32>) -> bool {
        let r = self.read_index(mem);
        let w = self.write_index(mem);
        let p = self.pending(mem);
        &&& 0 <= r < self.capacity
        &&& 0 <= p <= self.capacity
        &&& w == wrap(r + p, self.capacity as int)
    }

    /// The `STRIDE` cells of ring slot `idx`.
    pub closed spec fn slot(&self, mem: Seq<i32>, idx: int) -> Seq<i32> {
        cells(mem, self.mem_start_offset + 3 + idx * STRIDE, STRIDE as int)
    }

    /// The pending entries, oldest first.
    pub closed spec fn view(&self, mem: Seq<i32>) -> Seq<Seq<i32>> {
        Seq::new(
            self.pending(mem) as nat,
            |k: int| self.slot(mem, wrap(self.read_index(mem) + k, self.capacity as int)),
        )
    }

    /// No pending entry wraps past the last slot, and the ring is not full.
    pub closed spec fn unwrapped(&self, mem: Seq<i32>) -> bool {
        self.read_index(mem) + self.pending(mem) < self.capacity
    }

    pub proof fn lemma_layout(&self)
        requires
            self.wf(),
        ensures
            self.cap() > 0,
            self.cap() <= 0x4000_0000,
            is_pow2_u32(self.cap() as u32),
            self.end() == self.start() + ring_size(self.cap(), STRIDE as int),
    {
    }

    /// Every entry has `STRIDE` cells.
    pub proof fn lemma_entry_len(&self, mem: Seq<i32>)
        ensures
            forall|k: int| 0 <= k < self.view(mem).len() ==> #[trigger] self.view(mem)[k].len() == STRIDE,
    {
    }

    /// A ring freshly laid out on zeroed cells holds no entries.
    pub proof fn lemma_zeroed_is_empty(&self, mem: Seq<i32>)
        requires
            self.valid(mem),
            mem[self.start()] == 0,
            mem[self.start() + 1] == 0,
            mem[self.start() + 2] == 0,
        ensures
            self.inv(mem),
            self.view(mem).len() == 0,
            self.unwrapped(mem),
    {
    }

    proof fn lemma_slot_frame(&self, m1: Seq<i32>, m2: Seq<i32>, idx: int)
        requires
            self.valid(m1),
            m1.len() == m2.len(),
            0 <= idx < self.capacity,
            forall|i: int|
                0 <= i < STRIDE ==> #[trigger] m2[self.mem_start_offset + 3 + idx * STRIDE + i]
                    == m1[self.mem_start_offset + 3 + idx * STRIDE + i],
        ensures
            self.slot(m2, idx) == self.slot(m1, idx),
    {
        assert(self.slot(m2, idx) =~= self.slot(m1, idx));
    }

    /// The entries and cursors depend only on the ring's own cells.
    pub proof fn lemma_region_frame(&self, m1: Seq<i32>, m2: Seq<i32>)
        requires
            self.valid(m1),
            m2.len() == m1.len(),
            forall|i: int| self.start() <= i < self.end() ==> #[trigger] m2[i] == m1[i],
        ensures
            self.inv(m1) ==> self.view(m2) == self.view(m1),
            self.inv(m2) == self.inv(m1),
            self.unwrapped(m2) == self.unwrapped(m1),
            self.read_index(m2) == self.read_index(m1),
    {
        assert(m2[self.start() + 0] == m1[self.start() + 0]);
        assert(m2[self.start() + 1] == m1[self.start() + 1]);
        assert(m2[self.start() + 2] == m1[self.start() + 2]);
        if self.inv(m1) {
            assert forall|k: int| 0 <= k < self.view(m1).len() implies #[trigger] self.view(m2)[k] == self.view(m1)[k] by {
                let idx = wrap(self.read_index(m1) + k, self.capacity as int);
                assert(0 <= idx < self.capacity);
                assert forall|i: int| 0 <= i < STRIDE implies #[trigger] m2[self.mem_start_offset + 3 + idx * STRIDE + i]
                    == m1[self.mem_start_offset + 3 + idx * STRIDE + i] by {
                    lemma_slot_in_region(idx, self.capacity as int, STRIDE as int, i);
                }
                self.lemma_slot_frame(m1, m2, idx);
            }
            assert(self.view(m2) =~= self.view(m1));
        }
    }

    pub fn new(mem: &mut AtomicBuffer, mem_start_offset: usize, capacity: u32) -> (rb: Self)
        requires
            is_pow2_u32(capacity),
            capacity <= 0x4000_0000,
            mem_start_offset + ring_size(capacity as int, STRIDE as int) <= old(mem)@.len(),
        ensures
            rb.valid(final(mem)@),
            rb.start() == mem_start_offset,
            rb.cap() == capacity,
            rb.inv(final(mem)@),
            rb.view(final(mem)@).len() == 0,
            rb.unwrapped(final(mem)@),
            forall|i: int| rb.start() <= i < rb.end() ==> #[trigger] final(mem)@[i] == 0,
            unchanged_outside(old(mem)@, final(mem)@, rb.start(), rb.end()),
    {
        Self::create(mem, mem_start_offset, capacity, false)
    }

    pub fn bind(mem: &AtomicBuffer, mem_start_offset: usize, capacity: u32) -> (rb: Self)
        requires
            is_pow2_u32(capacity),
            capacity <= 0x4000_0000,
            mem_start_offset + ring_size(capacity as int, STRIDE as int) <= mem@.len(),
        ensures
            rb.valid(mem@),
            rb.start() == mem_start_offset,
            rb.cap() == capacity,
    {
        let _len = mem.len();
        Self::layout(mem_start_offset, capacity)
    }

    fn layout(mem_start_offset: usize, capacity: u32) -> (rb: Self)
        requires
            is_pow2_u32(capacity),
            capacity <= 0x4000_0000,
            mem_start_offset + ring_size(capacity as int, STRIDE as int) <= usize::MAX,
        ensures
            rb.wf(),
            rb.start() == mem_start_offset,
            rb.cap() == capacity,
    {
        proof {
            assert(0 <= capacity * STRIDE) by (nonlinear_arith)
                requires
                    0 <= capacity,
                    0 <= STRIDE,
            ;
        }
        let len = 3 + capacity as usize * STRIDE;
        let mem_end_offset = mem_start_offset + len;
        RingBuffer {
            capacity: capacity as usize,
            mod_mask: (capacity as i32) - 1,
            mem_read_offset: mem_start_offset,
            mem_write_offset: mem_start_offset + 1,
            mem_pending_offset: mem_start_offset + 2,
            mem_start_offset,
            mem_end_offset,
        }
    }

    pub fn create(mem: &mut AtomicBuffer, mem_start_offset: usize, capacity: u32, bind: bool) -> (rb: Self)
        requires
            is_pow2_u32(capacity),
            capacity <= 0x4000_0000,
            mem_start_offset + ring_size(capacity as int, STRIDE as int) <= old(mem)@.len(),
        ensures
            rb.valid(final(mem)@),
            rb.start() == mem_start_offset,
            rb.cap() == capacity,
            bind ==> final(mem)@ == old(mem)@,
            !bind ==> {
                &&& rb.inv(final(mem)@)
                &&& rb.view(final(mem)@).len() == 0
                &&& rb.unwrapped(final(mem)@)
                &&& (forall|i: int| rb.start() <= i < rb.end() ==> #[trigger] final(mem)@[i] == 0)
                &&& unchanged_outside(old(mem)@, final(mem)@, rb.start(), rb.end())
            },
    {
        let _len = mem.len();
        let rb = Self::layout(mem_start_offset, capacity);
        if !bind {
            let end = rb.mem_end_offset;
            let mut i = mem_start_offset;
            while i < end
                invariant
                    mem_start_offset <= i <= end,
                    end <= mem@.len(),
                    unchanged_outside(old(mem)@, mem@, mem_start_offset as int, i as int),
                    forall|j: int| mem_start_offset <= j < i ==> #[trigger] mem@[j] == 0,
                decreases end - i,
            {
                mem.set(i, 0);
                i = i + 1;
            }
            proof {
                rb.lemma_zeroed_is_empty(mem@);
            }
        }
        rb
    }

    pub fn calculate_size_on_mem(capacity: usize) -> (r: usize)
        requires
            ring_size(capacity as int, STRIDE as int) <= usize::MAX,
        ensures
            r == ring_size(capacity as int, STRIDE as int),
    {
        proof {
            assert(0 <= capacity * STRIDE) by (nonlinear_arith)
                requires
                    0 <= capacity,
                    0 <= STRIDE,
            ;
        }
        3 + capacity * STRIDE
    }

    pub fn pending_count(&self, mem: &AtomicBuffer) -> (r: usize)
        requires
            self.valid(mem@),
            self.inv(mem@),
        ensures
            r == self.view(mem@).len(),
    {
        mem[self.mem_pending_offset] as usize
    }

    pub fn mem_start_offset(&self) -> (r: usize)
        ensures
            r == self.start(),
    {
        self.mem_start_offset
    }

    pub fn mem_end_offset(&self) -> (r: usize)
        ensures
            r == self.end(),
    {
        self.mem_end_offset
    }

    pub fn capacity(&self) -> (r: usize)
        ensures
            r == self.cap(),
    {
        self.capacity
    }

    pub fn peek(&self, mem: &AtomicBuffer) -> (r: Option<Vec<i32>>)
        requires
            self.valid(mem@),
            self.inv(mem@),
        ensures
            r is None <==> self.view(mem@).len() == 0,
            r matches Some(v) ==> v@ == self.view(mem@)[0],
    {
        match self.retrieve(mem) {
            Some((data, _)) => Some(data),
            None => None,
        }
    }

    pub fn read(&self, mem: &mut AtomicBuffer) -> (r: Option<Vec<i32>>)
        requires
            self.valid(old(mem)@),
            self.inv(old(mem)@),
        ensures
            self.valid(final(mem)@),
            self.inv(final(mem)@),
            r is None <==> self.view(old(mem)@).len() == 0,
            r is None ==> final(mem)@ == old(mem)@,
            r matches Some(v) ==> {
                &&& v@ == self.view(old(mem)@)[0]
                &&& self.view(final(mem)@) == self.view(old(mem)@).drop_first()
            },
            unchanged_outside(old(mem)@, final(mem)@, self.start(), self.start() + 3),
    {
        match self.retrieve(mem) {
            Some((data, read_offset)) => {
                proof {
                    lemma_pow2_i32(self.capacity as u32);
                    lemma_mask_is_mod((read_offset + 1) as i32, self.capacity as i32);
                }
                let p = mem[self.mem_pending_offset];
                mem.set(self.mem_read_offset, (read_offset + 1) & self.mod_mask);
                mem.set(self.mem_pending_offset, p - 1);
                proof {
                    let old_m = old(mem)@;
                    let new_m = mem@;
                    assert forall|k: int| 0 <= k < self.view(new_m).len() implies #[trigger] self.view(new_m)[k]
                        == self.view(old_m).drop_first()[k] by {
                        let idx = wrap(self.read_index(new_m) + k, self.capacity as int);
                        assert(idx == wrap(self.read_index(old_m) + k + 1, self.capacity as int));
                        assert(0 <= idx < self.capacity);
                        assert forall|i: int| 0 <= i < STRIDE implies #[trigger] new_m[self.mem_start_offset + 3 + idx * STRIDE + i]
                            == old_m[self.mem_start_offset + 3 + idx * STRIDE + i] by {
                            lemma_slot_in_region(idx, self.capacity as int, STRIDE as int, i);
                        }
                        self.lemma_slot_frame(old_m, new_m, idx);
                    }
                    assert(self.view(new_m) =~= self.view(old_m).drop_first());
                }
                Some(data)
            },
            None => None,
        }
    }

    pub fn write(&self, mem: &mut AtomicBuffer, data: &[i32]) -> (r: Result<(), RingBufferError>)
        requires
            self.valid(old(mem)@),
            self.inv(old(mem)@),
            data@.len() == STRIDE,
        ensures
            self.valid(final(mem)@),
            self.inv(final(mem)@),
            r is Err <==> self.view(old(mem)@).len() == self.cap(),
            r is Err ==> r == Err::<(), RingBufferError>(RingBufferError::Full) && final(mem)@
                == old(mem)@,
            r is Ok ==> self.view(final(mem)@) == self.view(old(mem)@).push(data@),
            r is Ok ==> (self.unwrapped(old(mem)@) && self.read_index(old(mem)@) + self.pending(old(mem)@) + 1 < self.cap()
                ==> self.unwrapped(final(mem)@)),
            self.read_index(final(mem)@) == self.read_index(old(mem)@),
            unchanged_outside(old(mem)@, final(mem)@, self.start(), self.end()),
    {
        let pending_count = mem[self.mem_pending_offset] as usize;

        if pending_count >= self.capacity {
            return Err(RingBufferError::Full);
        }
        let write_index = mem[self.mem_write_offset] as usize;
        proof {
            lemma_slot_base(write_index as int, self.capacity as int, STRIDE as int);
        }
        let mem_slot_base = self.mem_start_offset + 3 + write_index * STRIDE;
        let mut i: usize = 0;
        while i < STRIDE
            invariant
                self.valid(old(mem)@),
                mem@.len() == old(mem)@.len(),
                data@.len() == STRIDE,
                i <= STRIDE,
                mem_slot_base == self.mem_start_offset + 3 + write_index * STRIDE,
                mem_slot_base + STRIDE <= self.mem_end_offset,
                forall|j: int|
                    0 <= j < mem@.len() && !(mem_slot_base <= j < mem_slot_base + i) ==> #[trigger] mem@[j]
                        == old(mem)@[j],
                forall|j: int| 0 <= j < i ==> #[trigger] mem@[mem_slot_base + j] == data@[j],
            decreases STRIDE - i,
        {
            mem.set(mem_slot_base + i, data[i]);
            i = i + 1;
        }
        proof {
            lemma_pow2_i32(self.capacity as u32);
            lemma_mask_is_mod((write_index + 1) as i32, self.capacity as i32);
        }
        mem.set(self.mem_write_offset, (write_index as i32 + 1) & self.mod_mask);
        let p = mem[self.mem_pending_offset];
        mem.set(self.mem_pending_offset, p + 1);
        proof {
            let old_m = old(mem)@;
            let new_m = mem@;
            let r0 = self.read_index(old_m);
            let p0 = self.pending(old_m);
            assert forall|k: int| 0 <= k < self.view(new_m).len() implies #[trigger] self.view(new_m)[k]
                == self.view(old_m).push(data@)[k] by {
                let idx = wrap(r0 + k, self.capacity as int);
                assert(0 <= idx < self.capacity);
                if k < p0 {
                    assert(idx != write_index);
                    assert forall|i: int| 0 <= i < STRIDE implies #[trigger] new_m[self.mem_start_offset + 3 + idx * STRIDE + i]
                        == old_m[self.mem_start_offset + 3 + idx * STRIDE + i] by {
                        lemma_slot_in_region(idx, self.capacity as int, STRIDE as int, i);
                        lemma_slot_cells(idx, write_index as int, STRIDE as int, i);
                    }
                    self.lemma_slot_frame(old_m, new_m, idx);
                } else {
                    assert(idx == write_index);
                    assert(self.slot(new_m, idx) =~= data@);
                }
            }
            assert(self.view(new_m) =~= self.view(old_m).push(data@));
        }
        Ok(())
    }

    /// Copies the pending entries of `source` into this ring, oldest first.
    /// Where the capacities agree, or the pending run of `source` does not
    /// wrap, the header and the first `source.cap()` slots are copied as they
    /// are; otherwise the entries are laid out again from slot 0, which a
    /// raw copy into a larger ring would scatter.
    pub fn copy_from(&self, mem: &mut AtomicBuffer, source: &Self, source_mem: &AtomicBuffer)
        requires
            self.valid(old(mem)@),
            source.valid(source_mem@),
            source.cap() <= self.cap(),
        ensures
            source.cap() == self.cap() || source.unwrapped(source_mem@) ==> forall|k: int|
                0 <= k < ring_size(source.cap(), STRIDE as int) ==> #[trigger] final(mem)@[self.start() + k]
                    == source_mem@[source.start() + k],
            unchanged_outside(
                old(mem)@,
                final(mem)@,
                self.start(),
                self.start() + ring_size(source.cap(), STRIDE as int),
            ),
            source.inv(source_mem@) ==> {
                &&& self.inv(final(mem)@)
                &&& self.view(final(mem)@) == source.view(source_mem@)
                &&& (source.unwrapped(source_mem@) || source.cap() < self.cap() ==> self.unwrapped(final(mem)@))
            },
    {
        proof {
            assert(source.cap() * STRIDE <= self.cap() * STRIDE) by (nonlinear_arith)
                requires
                    source.cap() <= self.cap(),
                    0 <= STRIDE,
            ;
        }
        let r = source_mem[source.mem_read_offset];
        let p = source_mem[source.mem_pending_offset];
        let scap = source.capacity;
        if scap != self.capacity && r >= 0 && p >= 0 && (r as usize) < scap && (p as usize) <= scap && (r as usize) + (
        p as usize) >= scap {
            self.copy_relaid(mem, source, source_mem);
        } else {
            self.copy_raw(mem, source, source_mem);
        }
    }

    /// The header and the first `source.cap()` slots, cell for cell.
    fn copy_raw(&self, mem: &mut AtomicBuffer, source: &Self, source_mem: &AtomicBuffer)
        requires
            self.valid(old(mem)@),
            source.valid(source_mem@),
            source.cap() <= self.cap(),
            source.inv(source_mem@) ==> source.cap() == self.cap() || source.unwrapped(source_mem@),
        ensures
            forall|k: int|
                0 <= k < ring_size(source.cap(), STRIDE as int) ==> #[trigger] final(mem)@[self.start() + k]
                    == source_mem@[source.start() + k],
            unchanged_outside(
                old(mem)@,
                final(mem)@,
                self.start(),
                self.start() + ring_size(source.cap(), STRIDE as int),
            ),
            source.inv(source_mem@) ==> {
                &&& self.inv(final(mem)@)
                &&& self.view(final(mem)@) == source.view(source_mem@)
                &&& (source.unwrapped(source_mem@) ==> self.unwrapped(final(mem)@))
            },
    {
        proof {
            assert(source.cap() * STRIDE <= self.cap() * STRIDE) by (nonlinear_arith)
                requires
                    source.cap() <= self.cap(),
                    0 <= STRIDE,
            ;
        }
        let n = Self::calculate_size_on_mem(source.capacity);
        let mut i: usize = 0;
        while i < n
            invariant
                n == ring_size(source.cap(), STRIDE as int),
                n <= self.end() - self.start(),
                self.valid(old(mem)@),
                source.valid(source_mem@),
                i <= n,
                unchanged_outside(old(mem)@, mem@, self.start(), self.start() + i),
                forall|k: int|
                    0 <= k < i ==> #[trigger] mem@[self.start() + k] == source_mem@[source.start()
                        + k],
            decreases n - i,
        {
            let v = source_mem[source.mem_start_offset + i];
            mem.set(self.mem_start_offset + i, v);
            i = i + 1;
        }
        proof {
            let new_m = mem@;
            let sm = source_mem@;
            if source.inv(sm) {
                assert(new_m[self.start() + 0] == sm[source.start() + 0]);
                assert(new_m[self.start() + 1] == sm[source.start() + 1]);
                assert(new_m[self.start() + 2] == sm[source.start() + 2]);
                assert(self.inv(new_m));
                assert forall|k: int| 0 <= k < self.view(new_m).len() implies #[trigger] self.view(new_m)[k]
                    == source.view(sm)[k] by {
                    let idx = wrap(self.read_index(new_m) + k, self.capacity as int);
                    assert(idx == wrap(source.read_index(sm) + k, source.capacity as int));
                    assert(0 <= idx < source.capacity);
                    assert forall|i: int| 0 <= i < STRIDE implies #[trigger] self.slot(new_m, idx)[i]
                        == source.slot(sm, idx)[i] by {
                        lemma_slot_in_region(idx, source.capacity as int, STRIDE as int, i);
                        assert(new_m[self.start() + (3 + idx * STRIDE + i)] == sm[source.start() + (3
                            + idx * STRIDE + i)]);
                    }
                    assert(self.slot(new_m, idx) =~= source.slot(sm, idx));
                }
                assert(self.view(new_m) =~= source.view(sm));
            }
        }
    }

    /// Slot `src_idx` of `source` into slot `dst_idx` here.
    fn copy_slot(&self, mem: &mut AtomicBuffer, dst_idx: usize, source: &Self, source_mem: &AtomicBuffer, src_idx: usize)
        requires
            self.valid(old(mem)@),
            source.valid(source_mem@),
            dst_idx < self.cap(),
            src_idx < source.cap(),
        ensures
            final(mem)@.len() == old(mem)@.len(),
            self.slot(final(mem)@, dst_idx as int) == source.slot(source_mem@, src_idx as int),
            forall|j: int|
                0 <= j < old(mem)@.len() && !(self.start() + 3 + dst_idx * STRIDE <= j < self.start() + 3 + dst_idx * STRIDE
                    + STRIDE) ==> #[trigger] final(mem)@[j] == old(mem)@[j],
    {
        proof {
            lemma_slot_base(dst_idx as int, self.capacity as int, STRIDE as int);
            lemma_slot_base(src_idx as int, source.capacity as int, STRIDE as int);
        }
        let db = self.mem_start_offset + 3 + dst_idx * STRIDE;
        let sb = source.mem_start_offset + 3 + src_idx * STRIDE;
        let mut c: usize = 0;
        while c < STRIDE
            invariant
                self.valid(old(mem)@),
                source.valid(source_mem@),
                c <= STRIDE,
                db == self.start() + 3 + dst_idx * STRIDE,
                sb == source.start() + 3 + src_idx * STRIDE,
                db + STRIDE <= self.end(),
                sb + STRIDE <= source.end(),
                mem@.len() == old(mem)@.len(),
                forall|j: int| 0 <= j < mem@.len() && !(db <= j < db + c) ==> #[trigger] mem@[j] == old(mem)@[j],
                forall|j: int| 0 <= j < c ==> #[trigger] mem@[db + j] == source_mem@[sb + j],
            decreases STRIDE - c,
        {
            let v = source_mem[sb + c];
            mem.set(db + c, v);
            c = c + 1;
        }
        proof {
            assert(self.slot(mem@, dst_idx as int) =~= source.slot(source_mem@, src_idx as int));
        }
    }

    /// The pending entries of a wrapped `source`, laid out from slot 0 of a
    /// larger ring.
    fn copy_relaid(&self, mem: &mut AtomicBuffer, source: &Self, source_mem: &AtomicBuffer)
        requires
            self.valid(old(mem)@),
            source.valid(source_mem@),
            source.cap() < self.cap(),
            0 <= source.read_index(source_mem@) < source.cap(),
            0 <= source.pending(source_mem@) <= source.cap(),
        ensures
            unchanged_outside(
                old(mem)@,
                final(mem)@,
                self.start(),
                self.start() + ring_size(source.cap(), STRIDE as int),
            ),
            source.inv(source_mem@) ==> {
                &&& self.inv(final(mem)@)
                &&& self.view(final(mem)@) == source.view(source_mem@)
                &&& self.unwrapped(final(mem)@)
            },
    {
        let ghost sm = source_mem@;
        let r = source_mem[source.mem_read_offset] as usize;
        let p = source_mem[source.mem_pending_offset] as usize;
        let scap = source.capacity;
        proof {
            assert(source.cap() * STRIDE <= self.cap() * STRIDE) by (nonlinear_arith)
                requires
                    source.cap() <= self.cap(),
                    0 <= STRIDE,
            ;
        }
        let mut k: usize = 0;
        while k < p
            invariant
                self.valid(old(mem)@),
                source.valid(source_mem@),
                sm == source_mem@,
                source.cap() < self.cap(),
                r == source.read_index(sm),
                p == source.pending(sm),
                scap == source.cap(),
                0 <= r < scap,
                p <= scap,
                k <= p,
                mem@.len() == old(mem)@.len(),
                forall|j: int|
                    0 <= j < mem@.len() && !(self.start() + 3 <= j < self.start() + 3 + k * STRIDE) ==> #[trigger] mem@[j]
                        == old(mem)@[j],
                forall|q: int| 0 <= q < k ==> #[trigger] self.slot(mem@, q) == source.slot(sm, wrap(r + q, scap as int)),
            decreases p - k,
        {
            let idx = if r + k < scap {
                r + k
            } else {
                r + k - scap
            };
            let ghost ma = mem@;
            self.copy_slot(mem, k, source, source_mem, idx);
            proof {
                lemma_slot_base(k as int, self.capacity as int, STRIDE as int);
                assert((k + 1) * STRIDE == k * STRIDE + STRIDE) by (nonlinear_arith);
                assert forall|q: int| 0 <= q < k + 1 implies #[trigger] self.slot(mem@, q) == source.slot(
                    sm,
                    wrap(r + q, scap as int),
                ) by {
                    if q < k {
                        assert forall|i: int| 0 <= i < STRIDE implies #[trigger] mem@[self.mem_start_offset + 3 + q * STRIDE + i]
                            == ma[self.mem_start_offset + 3 + q * STRIDE + i] by {
                            lemma_slot_in_region(q, self.capacity as int, STRIDE as int, i);
                            lemma_slot_cells(q, k as int, STRIDE as int, i);
                        }
                        self.lemma_slot_frame(ma, mem@, q);
                    }
                }
            }
            k = k + 1;
        }
        let ghost mb = mem@;
        proof {
            assert(p * STRIDE <= scap * STRIDE) by (nonlinear_arith)
                requires
                    p <= scap,
                    0 <= STRIDE,
            ;
        }
        mem.set(self.mem_read_offset, 0);
        mem.set(self.mem_write_offset, p as i32);
        mem.set(self.mem_pending_offset, p as i32);
        proof {
            let new_m = mem@;
            assert forall|q: int| 0 <= q < p implies #[trigger] self.slot(new_m, q) == self.slot(mb, q) by {
                assert forall|i: int| 0 <= i < STRIDE implies #[trigger] new_m[self.mem_start_offset + 3 + q * STRIDE + i]
                    == mb[self.mem_start_offset + 3 + q * STRIDE + i] by {
                    lemma_slot_in_region(q, self.capacity as int, STRIDE as int, i);
                }
                self.lemma_slot_frame(mb, new_m, q);
            }
            if source.inv(sm) {
                assert(self.inv(new_m));
                assert forall|q: int| 0 <= q < self.view(new_m).len() implies #[trigger] self.view(new_m)[q]
                    == source.view(sm)[q] by {
                    assert(wrap(0 + q, self.capacity as int) == q);
                }
                assert(self.view(new_m) =~= source.view(sm));
            }
        }
    }

    fn retrieve(&self, mem: &AtomicBuffer) -> (r: Option<(Vec<i32>, i32)>)
        requires
            self.valid(mem@),
            self.inv(mem@),
        ensures
            r is None <==> self.view(mem@).len() == 0,
            r matches Some((v, ri)) ==> {
                &&& v@ == self.view(mem@)[0]
                &&& ri == self.read_index(mem@)
            },
    {
        let pending_count = mem[self.mem_pending_offset];
        if pending_count == 0 {
            return None;
        }
        let read_index = mem[self.mem_read_offset] as usize;
        proof {
            lemma_slot_base(read_index as int, self.capacity as int, STRIDE as int);
        }
        let mem_slot_base = self.mem_start_offset + 3 + read_index * STRIDE;
        let mut entry: Vec<i32> = Vec::new();
        let mut i: usize = 0;
        while i < STRIDE
            invariant
                self.valid(mem@),
                i <= STRIDE,
                mem_slot_base == self.mem_start_offset + 3 + read_index * STRIDE,
                mem_slot_base + STRIDE <= self.mem_end_offset,
                entry@.len() == i,
                forall|j: int| 0 <= j < i ==> #[trigger] entry@[j] == mem@[mem_slot_base + j],
            decreases STRIDE - i,
        {
            entry.push(mem[mem_slot_base + i]);
            i = i + 1;
        }
        proof {
            assert(entry@ =~= self.view(mem@)[0]);
        }
        Some((entry, read_index as i32))
    }
}

} // verus!
