use crate::errors::slot_allocator_error::SlotAllocatorError;
use crate::primitives::bitmap::{Bitmap, bitmap_words};
use crate::primitives::simple_free_list::{SimpleFreeList, free_list_size, int_seq, lemma_no_dup_bound};
use crate::primitives::slot::SlotId;
use crate::primitives::staging_buffer_reader::StagingBufferReader;
use crate::primitives::staging_buffer_writer::{StagingBufferWriter, drainable, staging_size};
use crate::primitives::types::{AtomicBuffer, is_pow2_u32, lemma_pow2_bound, lemma_unchanged_trans, lemma_unchanged_widen, unchanged_outside};
use vstd::prelude::*;

verus! {

/// Number of cells a slot allocator of `capacity` slots occupies.
pub open spec fn slot_allocator_size(capacity: int) -> int {
    bitmap_words(capacity) + free_list_size(capacity) + staging_size(capacity)
}

/// The 0-based slot indices named by staged `[slot, generation]` entries.
pub open spec fn staged_indices(entries: Seq<Seq<i32>>) -> Seq<int> {
    entries.map_values(|e: Seq<i32>| e[0] as int - 1)
}

/// How many flags of `a` are set.
pub open spec fn count_set(a: Seq<bool>) -> nat
    decreases a.len(),
{
    if a.len() == 0 {
        0
    } else {
        count_set(a.drop_last()) + if a.last() {
            1nat
        } else {
            0nat
        }
    }
}

/// The free slots below `n`.
pub open spec fn free_below(fo: Seq<int>, n: int) -> Set<int> {
    Set::new(|i: int| 0 <= i < n && fo.contains(i))
}

proof fn lemma_count_prefix(alloc: Seq<bool>, fo: Seq<int>, n: int)
    requires
        0 <= n <= alloc.len(),
        forall|i: int| 0 <= i < alloc.len() ==> #[trigger] alloc[i] == !fo.contains(i),
    ensures
        free_below(fo, n).finite(),
        count_set(alloc.take(n)) + free_below(fo, n).len() == n,
    decreases n,
{
    if n == 0 {
        assert(free_below(fo, 0) =~= Set::<int>::empty());
        assert(alloc.take(0) =~= Seq::<bool>::empty());
    } else {
        lemma_count_prefix(alloc, fo, n - 1);
        assert(alloc.take(n).drop_last() =~= alloc.take(n - 1));
        assert(alloc.take(n).last() == alloc[n - 1]);
        if alloc[n - 1] {
            assert(free_below(fo, n) =~= free_below(fo, n - 1));
        } else {
            assert(free_below(fo, n) =~= free_below(fo, n - 1).insert(n - 1));
            assert(!free_below(fo, n - 1).contains(n - 1));
        }
    }
}

proof fn lemma_count_members(a: Seq<bool>, st: Seq<int>, n: int)
    requires
        0 <= n <= a.len(),
        forall|i: int| 0 <= i < a.len() ==> #[trigger] a[i] == st.contains(i),
    ensures
        free_below(st, n).finite(),
        count_set(a.take(n)) == free_below(st, n).len(),
    decreases n,
{
    if n == 0 {
        assert(free_below(st, 0) =~= Set::<int>::empty());
        assert(a.take(0) =~= Seq::<bool>::empty());
    } else {
        lemma_count_members(a, st, n - 1);
        assert(a.take(n).drop_last() =~= a.take(n - 1));
        assert(a.take(n).last() == a[n - 1]);
        if a[n - 1] {
            assert(free_below(st, n) =~= free_below(st, n - 1).insert(n - 1));
            assert(!free_below(st, n - 1).contains(n - 1));
        } else {
            assert(free_below(st, n) =~= free_below(st, n - 1));
        }
    }
}

/// 1-based slot allocator with generation-gated deferred freeing.
///
/// Combines a `SimpleFreeList` for immediate allocation, a staging buffer for
/// deferred free() requests, and a `Bitmap` to track which slots are pending
/// reclamation (retired). Slots are not returned to the free list until
/// `publish()` drains acknowledged entries from the staging buffer.
///
/// # Memory Layout
/// ```text
/// Offset              Size        Field
/// ------------------------------------
/// 0                   bitmask(N)  staging_bitmap
/// bitmask(N)          free(N)     free_list
/// bitmask(N)+free(N)  staging(N)  staging_buffer
///
/// N           = capacity (power of 2)
/// bitmask(N)  = ceil(N/32)
/// free(N)     = 2 + ceil(N/32) + N
/// staging(N)  = 2 + 3 + 2N
/// ```
///
/// # Slot Lifecycle
/// `allocate()` -> active -> `defer_free()` -> deferred -> `publish()` -> free -> `allocate()`
#[derive(Clone, Copy)]
pub struct SlotAllocator {
    mem_start_offset: usize,
    mem_end_offset: usize,
    capacity: usize,
    staging_bitmap: Bitmap,
    free_list: SimpleFreeList,
    staging_buffer: StagingBufferWriter,
}

impl SlotAllocator {
    pub closed spec fn start(&self) -> int {
        self.mem_start_offset as int
    }

    pub closed spec fn end(&self) -> int {
        self.mem_end_offset as int
    }

    pub closed spec fn cap(&self) -> int {
        self.capacity as int
    }

    pub closed spec fn staging(&self) -> StagingBufferWriter {
        self.staging_buffer
    }

    pub closed spec fn wf(&self) -> bool {
        &&& self.staging_bitmap.wf()
        &&& self.free_list.wf()
        &&& self.staging_buffer.wf()
        &&& self.staging_bitmap.start() == self.mem_start_offset
        &&& self.staging_bitmap.cap() == self.capacity
        &&& self.free_list.start() == self.staging_bitmap.end()
        &&& self.free_list.cap() == self.capacity
        &&& self.staging_buffer.start() == self.free_list.end()
        &&& self.staging_buffer.cap() == self.capacity
        &&& self.mem_end_offset == self.staging_buffer.end()
        &&& self.capacity <= 0x4000_0000
    }

    pub open spec fn valid(&self, mem: Seq<i32>) -> bool {
        self.wf() && self.end() <= mem.len()
    }

    /// Allocation flags (0-based): allocated slots are active or deferred.
    pub closed spec fn allocated(&self, mem: Seq<i32>) -> Seq<bool> {
        self.free_list.allocated(mem)
    }

    /// Deferred flags (0-based): slots retired but not yet reclaimed.
    pub closed spec fn deferred(&self, mem: Seq<i32>) -> Seq<bool> {
        self.staging_bitmap.view(mem)
    }

    /// Free slots (0-based) in the order `allocate()` hands them out.
    pub closed spec fn free_order(&self, mem: Seq<i32>) -> Seq<int> {
        self.free_list.free_order(mem)
    }

    /// Retired `[slot, generation]` entries awaiting reclamation, oldest first.
    pub closed spec fn entries(&self, mem: Seq<i32>) -> Seq<Seq<i32>> {
        self.staging_buffer.entries(mem)
    }

    pub closed spec fn writer_gen(&self, mem: Seq<i32>) -> i32 {
        self.staging_buffer.writer_gen(mem)
    }

    pub closed spec fn ack_gen(&self, mem: Seq<i32>) -> i32 {
        self.staging_buffer.ack_gen(mem)
    }

    /// The parts are consistent: each retired slot is staged once, is flagged
    /// deferred, and is still allocated.
    pub closed spec fn inv(&self, mem: Seq<i32>) -> bool {
        let e = self.entries(mem);
        let s = staged_indices(e);
        &&& self.staging_bitmap.clean(mem)
        &&& self.free_list.inv(mem)
        &&& self.staging_buffer.inv(mem)
        &&& forall|k: int| 0 <= k < e.len() ==> #[trigger] e[k].len() == 2
        &&& s.no_duplicates()
        &&& forall|k: int| 0 <= k < s.len() ==> 0 <= #[trigger] s[k] < self.capacity
        &&& forall|i: int| 0 <= i < self.capacity ==> #[trigger] self.deferred(mem)[i] == s.contains(i)
        &&& forall|i: int| 0 <= i < self.capacity ==> #[trigger] self.deferred(mem)[i] ==> self.allocated(mem)[i]
    }

    /// The state `new()` leaves on its cells.
    pub closed spec fn fresh(&self, mem: Seq<i32>) -> bool {
        &&& self.free_list.fresh(mem)
        &&& forall|i: int| self.staging_bitmap.start() <= i < self.staging_bitmap.end() ==> #[trigger] mem[i] == 0
    }

    pub proof fn lemma_wf(&self)
        requires
            self.wf(),
        ensures
            self.cap() > 0,
            self.cap() <= 0x4000_0000,
            self.end() == self.start() + slot_allocator_size(self.cap()),
            self.staging().wf(),
            self.staging().cap() == self.cap(),
            self.staging().end() == self.end(),
            self.start() < self.staging().start(),
            forall|m: Seq<i32>| #[trigger] self.allocated(m).len() == self.cap(),
            forall|m: Seq<i32>| #[trigger] self.deferred(m).len() == self.cap(),
            forall|m: Seq<i32>| #[trigger] self.entries(m) == self.staging().entries(m),
            forall|m: Seq<i32>| #[trigger] self.writer_gen(m) == self.staging().writer_gen(m),
            forall|m: Seq<i32>| #[trigger] self.ack_gen(m) == self.staging().ack_gen(m),
    {
        self.lemma_parts();
    }

    proof fn lemma_parts(&self)
        requires
            self.wf(),
        ensures
            self.staging_bitmap.end() == self.staging_bitmap.start() + bitmap_words(self.capacity as int),
            self.staging_bitmap.words() == bitmap_words(self.capacity as int),
            self.free_list.end() == self.free_list.start() + free_list_size(self.capacity as int),
            self.staging_buffer.end() == self.staging_buffer.start() + staging_size(self.capacity as int),
            self.staging_buffer.ring().start() == self.staging_buffer.start() + 2,
            self.staging_buffer.ring().end() == self.staging_buffer.end(),
            self.staging_buffer.ring().wf(),
            self.mem_end_offset == self.mem_start_offset + slot_allocator_size(self.capacity as int),
            self.capacity > 0,
            self.capacity <= 0x4000_0000,
            forall|m: Seq<i32>| self.valid(m) ==> {
                &&& self.staging_bitmap.valid(m)
                &&& self.free_list.valid(m)
                &&& self.staging_buffer.valid(m)
                &&& self.staging_buffer.ring().valid(m)
            },
            forall|m: Seq<i32>| #[trigger] self.allocated(m).len() == self.cap(),
            forall|m: Seq<i32>| #[trigger] self.deferred(m).len() == self.cap(),
            forall|m: Seq<i32>| #[trigger] self.staging_buffer.entries(m) == self.staging_buffer.ring().view(m),
            forall|m: Seq<i32>| #[trigger] self.staging_buffer.inv(m) == self.staging_buffer.ring().inv(m),
            forall|m: Seq<i32>| #[trigger] self.staging_buffer.writer_gen(m) == m[self.staging_buffer.start()],
            forall|m: Seq<i32>| #[trigger] self.staging_buffer.ack_gen(m) == m[self.staging_buffer.start() + 1],
    {
        self.staging_bitmap.lemma_layout();
        self.free_list.lemma_wf_pub();
        self.staging_buffer.lemma_wf();
    }

    pub fn new(mem: &mut AtomicBuffer, mem_start_offset: usize, capacity: u32) -> (sa: Self)
        requires
            is_pow2_u32(capacity),
            capacity <= 0x4000_0000,
            mem_start_offset + slot_allocator_size(capacity as int) <= old(mem)@.len(),
        ensures
            sa.valid(final(mem)@),
            sa.start() == mem_start_offset,
            sa.cap() == capacity,
            sa.inv(final(mem)@),
            sa.fresh(final(mem)@),
            forall|i: int| 0 <= i < sa.cap() ==> !#[trigger] sa.allocated(final(mem)@)[i],
            forall|i: int| 0 <= i < sa.cap() ==> !#[trigger] sa.deferred(final(mem)@)[i],
            sa.free_order(final(mem)@) == int_seq(0, capacity as int),
            sa.entries(final(mem)@).len() == 0,
            sa.staging().ring().unwrapped(final(mem)@),
            sa.writer_gen(final(mem)@) == 1,
            sa.ack_gen(final(mem)@) == 0,
            unchanged_outside(old(mem)@, final(mem)@, sa.start(), sa.end()),
    {
        Self::create(mem, mem_start_offset, capacity, false)
    }

    pub fn bind(mem: &AtomicBuffer, mem_start_offset: usize, capacity: u32) -> (sa: Self)
        requires
            is_pow2_u32(capacity),
            capacity <= 0x4000_0000,
            mem_start_offset + slot_allocator_size(capacity as int) <= mem@.len(),
        ensures
            sa.valid(mem@),
            sa.start() == mem_start_offset,
            sa.cap() == capacity,
    {
        let _len = mem.len();
        proof {
            lemma_pow2_bound(capacity);
        }
        let bitmap = Bitmap::bind(mem, mem_start_offset, capacity);
        proof {
            bitmap.lemma_layout();
        }
        let free_list = SimpleFreeList::bind(mem, bitmap.mem_end_offset(), capacity);
        proof {
            free_list.lemma_wf_pub();
        }
        let staging = StagingBufferWriter::bind(mem, free_list.mem_end_offset(), capacity);
        proof {
            staging.lemma_wf();
        }
        SlotAllocator {
            mem_start_offset,
            mem_end_offset: staging.mem_end_offset(),
            capacity: capacity as usize,
            staging_bitmap: bitmap,
            free_list,
            staging_buffer: staging,
        }
    }

    pub fn create(mem: &mut AtomicBuffer, mem_start_offset: usize, capacity: u32, bind: bool) -> (sa: Self)
        requires
            is_pow2_u32(capacity),
            capacity <= 0x4000_0000,
            mem_start_offset + slot_allocator_size(capacity as int) <= old(mem)@.len(),
        ensures
            sa.valid(final(mem)@),
            sa.start() == mem_start_offset,
            sa.cap() == capacity,
            bind ==> final(mem)@ == old(mem)@,
            !bind ==> {
                &&& sa.inv(final(mem)@)
                &&& sa.fresh(final(mem)@)
                &&& (forall|i: int| 0 <= i < sa.cap() ==> !#[trigger] sa.allocated(final(mem)@)[i])
                &&& (forall|i: int| 0 <= i < sa.cap() ==> !#[trigger] sa.deferred(final(mem)@)[i])
                &&& sa.free_order(final(mem)@) == int_seq(0, capacity as int)
                &&& sa.entries(final(mem)@).len() == 0
                &&& sa.staging().ring().unwrapped(final(mem)@)
                &&& sa.writer_gen(final(mem)@) == 1
                &&& sa.ack_gen(final(mem)@) == 0
                &&& unchanged_outside(old(mem)@, final(mem)@, sa.start(), sa.end())
            },
    {
        let _len = mem.len();
        if bind {
            return Self::bind(mem, mem_start_offset, capacity);
        }
        proof {
            lemma_pow2_bound(capacity);
        }
        let bitmap = Bitmap::create(mem, mem_start_offset, capacity, false);
        proof {
            bitmap.lemma_layout();
        }
        let ghost m1 = mem@;
        let free_list = SimpleFreeList::create(mem, bitmap.mem_end_offset(), capacity, false);
        proof {
            free_list.lemma_wf_pub();
        }
        let ghost m2 = mem@;
        let staging = StagingBufferWriter::create(mem, free_list.mem_end_offset(), capacity, false);
        proof {
            staging.lemma_wf();
        }
        let sa = SlotAllocator {
            mem_start_offset,
            mem_end_offset: staging.mem_end_offset(),
            capacity: capacity as usize,
            staging_bitmap: bitmap,
            free_list,
            staging_buffer: staging,
        };
        proof {
            let m3 = mem@;
            assert forall|i: int| bitmap.start() <= i < bitmap.end() implies #[trigger] m3[i] == 0 by {
                assert(m1[i] == 0);
            }
            bitmap.lemma_zero_clean(m3);
            free_list.lemma_frame(m2, m3);
            assert(staged_indices(sa.entries(m3)) =~= Seq::<int>::empty());
        }
        sa
    }

    pub fn calculate_size_on_mem(capacity: usize) -> (r: usize)
        requires
            slot_allocator_size(capacity as int) <= usize::MAX,
        ensures
            r == slot_allocator_size(capacity as int),
    {
        Bitmap::calculate_size_on_mem(capacity) + SimpleFreeList::calculate_size_on_mem(capacity)
            + StagingBufferWriter::calculate_size_on_mem(capacity)
    }

    pub fn to_staging_buffer_reader(&self) -> (r: StagingBufferReader)
        requires
            self.wf(),
        ensures
            r.wf(),
            r.start() == self.staging().start(),
            r.cap() == self.cap(),
    {
        self.staging_buffer.to_reader()
    }

    pub fn free_count(&self, mem: &AtomicBuffer) -> (r: usize)
        requires
            self.valid(mem@),
            self.inv(mem@),
        ensures
            r == self.free_order(mem@).len(),
    {
        proof {
            self.lemma_parts();
        }
        self.free_list.free_count(mem)
    }

    pub fn deferred_count(&self, mem: &AtomicBuffer) -> (r: usize)
        requires
            self.valid(mem@),
            self.inv(mem@),
        ensures
            r == self.entries(mem@).len(),
            r == count_set(self.deferred(mem@)),
    {
        proof {
            self.lemma_parts();
            self.lemma_count_deferred(mem@);
        }
        self.staging_buffer.len(mem)
    }

    pub fn alloc_count(&self, mem: &AtomicBuffer) -> (r: usize)
        requires
            self.valid(mem@),
            self.inv(mem@),
        ensures
            r == self.cap() - self.free_order(mem@).len(),
    {
        proof {
            self.lemma_parts();
        }
        self.free_list.alloc_count(mem)
    }

    pub fn mem_start_offset(&self) -> (r: usize)
        ensures
            r == self.start(),
    {
        self.mem_start_offset
    }

    pub fn mem_end_offset(&self) -> (r: usize)
        ensures
            r == self.end(),
    {
        self.mem_end_offset
    }

    pub fn mem_staging_buffer_start_offset(&self) -> (r: usize)
        ensures
            r == self.staging().start(),
    {
        self.staging_buffer.mem_start_offset()
    }

    pub fn capacity(&self) -> (r: usize)
        ensures
            r == self.cap(),
    {
        self.capacity
    }

    pub fn is_allocated(&self, mem: &AtomicBuffer, slot: SlotId) -> (r: bool)
        requires
            self.valid(mem@),
            slot.raw() <= self.cap(),
        ensures
            r == self.allocated(mem@)[slot.raw() - 1],
    {
        proof {
            self.lemma_parts();
        }
        self.free_list.is_allocated(mem, slot)
    }

    pub fn is_active(&self, mem: &AtomicBuffer, slot: SlotId) -> (r: bool)
        requires
            self.valid(mem@),
            slot.raw() <= self.cap(),
        ensures
            r == (self.allocated(mem@)[slot.raw() - 1] && !self.deferred(mem@)[slot.raw() - 1]),
    {
        self.is_allocated(mem, slot) && !self.is_deferred(mem, slot)
    }

    pub fn is_deferred(&self, mem: &AtomicBuffer, slot: SlotId) -> (r: bool)
        requires
            self.valid(mem@),
            slot.raw() <= self.cap(),
        ensures
            r == self.deferred(mem@)[slot.raw() - 1],
    {
        proof {
            self.lemma_parts();
        }
        self.staging_bitmap.is_on(mem, slot.to_usize() - 1)
    }

    pub fn is_free(&self, mem: &AtomicBuffer, slot: SlotId) -> (r: bool)
        requires
            self.valid(mem@),
            slot.raw() <= self.cap(),
        ensures
            r == !self.allocated(mem@)[slot.raw() - 1],
    {
        proof {
            self.lemma_parts();
        }
        self.free_list.is_free(mem, slot)
    }

    /// Takes the next free slot.
    pub fn allocate(&self, mem: &mut AtomicBuffer) -> (r: Option<SlotId>)
        requires
            self.valid(old(mem)@),
            self.inv(old(mem)@),
        ensures
            self.valid(final(mem)@),
            self.inv(final(mem)@),
            r is None <==> self.free_order(old(mem)@).len() == 0,
            r is None ==> final(mem)@ == old(mem)@,
            r matches Some(s) ==> {
                &&& s.raw() == self.free_order(old(mem)@)[0] + 1
                &&& 1 <= s.raw() <= self.cap()
                &&& self.free_order(final(mem)@) == self.free_order(old(mem)@).drop_first()
                &&& self.allocated(final(mem)@) == self.allocated(old(mem)@).update(s.raw() - 1, true)
                &&& !self.allocated(old(mem)@)[s.raw() - 1]
                &&& !self.deferred(old(mem)@)[s.raw() - 1]
            },
            self.deferred(final(mem)@) == self.deferred(old(mem)@),
            self.entries(final(mem)@) == self.entries(old(mem)@),
            self.writer_gen(final(mem)@) == self.writer_gen(old(mem)@),
            self.ack_gen(final(mem)@) == self.ack_gen(old(mem)@),
            unchanged_outside(old(mem)@, final(mem)@, self.start(), self.end()),
    {
        proof {
            self.lemma_parts();
        }
        proof {
            self.free_list.lemma_wf_pub();
        }
        proof {
            self.free_list.lemma_inv_order(mem@);
        }
        let r = self.free_list.allocate(mem);
        proof {
            lemma_unchanged_widen(old(mem)@, mem@, self.free_list.start(), self.free_list.slots_start(), self.free_list.start(), self.free_list.end());
            self.lemma_other_parts_frame(old(mem)@, mem@);
            lemma_unchanged_widen(old(mem)@, mem@, self.free_list.start(), self.free_list.end(), self.start(), self.end());
            let old_m = old(mem)@;
            let new_m = mem@;
            assert forall|i: int| 0 <= i < self.capacity && #[trigger] self.deferred(new_m)[i] implies self.allocated(new_m)[i] by {
                assert(self.deferred(old_m)[i] ==> self.allocated(old_m)[i]);
                assert(self.deferred(new_m)[i] == self.deferred(old_m)[i]);
                if r is Some {
                    let x = r->0.raw() - 1;
                    assert(self.allocated(new_m) == self.allocated(old_m).update(x, true));
                    assert(self.allocated(old_m).len() == self.capacity);
                    assert(self.allocated(old_m)[i] ==> self.allocated(new_m)[i]);
                } else {
                    assert(new_m == old_m);
                }
            }
        }
        r
    }

    /// Every slot is either allocated or on the free list: the allocated
    /// slots number the capacity less the free ones.
    pub proof fn lemma_count_allocated(&self, mem: Seq<i32>)
        requires
            self.valid(mem),
            self.inv(mem),
        ensures
            count_set(self.allocated(mem)) + self.free_order(mem).len() == self.cap(),
    {
        self.lemma_inv_order(mem);
        let alloc = self.allocated(mem);
        let fo = self.free_order(mem);
        lemma_count_prefix(alloc, fo, self.cap());
        assert(alloc.take(self.cap()) =~= alloc);
        assert(free_below(fo, self.cap()) =~= fo.to_set()) by {
            assert forall|i: int| fo.to_set().contains(i) implies free_below(fo, self.cap()).contains(i) by {
                let k = choose|k: int| 0 <= k < fo.len() && fo[k] == i;
                assert(0 <= fo[k] < self.cap());
            }
        }
        fo.unique_seq_to_set();
    }

    /// Publishing twice without a new acknowledgement in between reclaims
    /// nothing the second time: allocation state, free order and pending
    /// retirements stay as the first publish left them.
    pub proof fn lemma_publish_twice(&self, m0: Seq<i32>, m1: Seq<i32>, m2: Seq<i32>)
        requires
            self.publish_result(m0, m1),
            self.publish_result(m1, m2),
        ensures
            forall|i: int| 0 <= i < self.cap() ==> #[trigger] self.allocated(m2)[i] == self.allocated(m1)[i],
            forall|i: int| 0 <= i < self.cap() ==> #[trigger] self.deferred(m2)[i] == self.deferred(m1)[i],
            self.free_order(m2) == self.free_order(m1),
            self.entries(m2) == self.entries(m1),
    {
        let e0 = self.entries(m0);
        let e1 = self.entries(m1);
        let k1 = e0.len() - e1.len();
        let k2 = e1.len() - self.entries(m2).len();
        if k2 > 0 {
            assert(drainable(e1[0], self.ack_gen(m1)));
            assert(e1[0] == e0[k1]);
            assert(!drainable(e0[k1], self.ack_gen(m0)));
        }
        assert(k2 == 0);
        let drained = staged_indices(e1.take(0));
        assert(drained =~= Seq::<int>::empty());
        assert(drained.reverse() =~= Seq::<int>::empty());
        assert(drained.reverse().add(self.free_order(m1)) =~= self.free_order(m1));
        assert(e1.skip(0) =~= e1);
    }

    /// Every retired slot has exactly one pending retirement: the retired
    /// slots number the pending entries.
    pub proof fn lemma_count_deferred(&self, mem: Seq<i32>)
        requires
            self.valid(mem),
            self.inv(mem),
        ensures
            count_set(self.deferred(mem)) == self.entries(mem).len(),
    {
        self.lemma_inv_order(mem);
        let a = self.deferred(mem);
        let st = staged_indices(self.entries(mem));
        lemma_count_members(a, st, self.cap());
        assert(a.take(self.cap()) =~= a);
        assert(free_below(st, self.cap()) =~= st.to_set()) by {
            assert forall|i: int| st.to_set().contains(i) implies free_below(st, self.cap()).contains(i) by {
                let k = choose|k: int| 0 <= k < st.len() && st[k] == i;
                assert(self.deferred(mem)[i]);
            }
        }
        st.unique_seq_to_set();
    }

    /// Publishing when the reader has acknowledged every retirement drains
    /// them all: no retirement stays pending, and every retired slot is free
    /// again.
    pub proof fn lemma_publish_drains_acknowledged(&self, old: Seq<i32>, new: Seq<i32>)
        requires
            self.valid(old),
            self.inv(old),
            self.publish_result(old, new),
            forall|j: int| 0 <= j < self.entries(old).len() ==> drainable(#[trigger] self.entries(old)[j], self.ack_gen(old)),
        ensures
            self.entries(new).len() == 0,
            forall|i: int| 0 <= i < self.cap() ==> !#[trigger] self.deferred(new)[i],
            forall|i: int| 0 <= i < self.cap() && #[trigger] self.deferred(old)[i] ==> !self.allocated(new)[i],
    {
        self.lemma_inv_order(old);
        let e = self.entries(old);
        let k = e.len() - self.entries(new).len();
        if k < e.len() {
            assert(drainable(e[k], self.ack_gen(old)));
        }
        assert(k == e.len());
        assert(e.take(k) =~= e);
    }

    /// Publishing reclaims only retired slots: which slots are live
    /// (allocated and not retired) stays the same.
    pub proof fn lemma_publish_keeps_live(&self, old: Seq<i32>, new: Seq<i32>)
        requires
            self.valid(old),
            self.inv(old),
            self.publish_result(old, new),
        ensures
            forall|i: int|
                0 <= i < self.cap() ==> (#[trigger] self.allocated(new)[i] && !self.deferred(new)[i]) == (self.allocated(old)[i]
                    && !self.deferred(old)[i]),
    {
        self.lemma_inv_order(old);
        let e = self.entries(old);
        let k = e.len() - self.entries(new).len();
        let drained = staged_indices(e.take(k));
        let st = staged_indices(e);
        assert forall|i: int| 0 <= i < self.cap() && drained.contains(i) implies #[trigger] self.deferred(old)[i] by {
            let a = choose|a: int| 0 <= a < drained.len() && drained[a] == i;
            assert(st[a] == i);
        }
    }

    /// Every view of the allocator depends only on its own cells.
    /// Under the invariant, the free order lists distinct in-range slots,
    /// exactly the unallocated ones, and every retired slot is allocated.
    pub proof fn lemma_inv_order(&self, mem: Seq<i32>)
        requires
            self.valid(mem),
            self.inv(mem),
        ensures
            self.free_order(mem).no_duplicates(),
            forall|k: int| 0 <= k < self.free_order(mem).len() ==> 0 <= #[trigger] self.free_order(mem)[k] < self.cap(),
            forall|i: int| 0 <= i < self.cap() ==> #[trigger] self.allocated(mem)[i] == !self.free_order(mem).contains(i),
            forall|i: int| 0 <= i < self.cap() && #[trigger] self.deferred(mem)[i] ==> self.allocated(mem)[i],
            self.free_order(mem).len() <= self.cap(),
            self.allocated(mem).len() == self.cap(),
            self.deferred(mem).len() == self.cap(),
            self.entries(mem).len() <= self.cap(),
            forall|i: int| 0 <= i < self.cap() ==> #[trigger] self.deferred(mem)[i] == staged_indices(self.entries(mem)).contains(i),
    {
        self.lemma_parts();
        self.free_list.lemma_inv_order(mem);
        let st = staged_indices(self.entries(mem));
        if st.len() > 0 {
            let d = st.drop_last();
            assert forall|a: int, b: int| 0 <= a < b < d.len() implies d[a] != d[b] by {
                assert(st[a] != st[b]);
            }
            assert(!d.contains(st.last())) by {
                if d.contains(st.last()) {
                    let k = choose|k: int| 0 <= k < d.len() && d[k] == st.last();
                    assert(st[k] == st[st.len() - 1]);
                }
            }
            lemma_no_dup_bound(d, self.capacity as int, st.last());
        }
    }

    pub proof fn lemma_frame(&self, m1: Seq<i32>, m2: Seq<i32>)
        requires
            self.valid(m1),
            m2.len() == m1.len(),
            forall|i: int| self.start() <= i < self.end() ==> #[trigger] m2[i] == m1[i],
        ensures
            self.allocated(m2) == self.allocated(m1),
            self.deferred(m2) == self.deferred(m1),
            self.inv(m1) ==> self.free_order(m2) == self.free_order(m1),
            self.inv(m1) ==> self.entries(m2) == self.entries(m1),
            self.writer_gen(m2) == self.writer_gen(m1),
            self.ack_gen(m2) == self.ack_gen(m1),
            self.inv(m1) ==> self.inv(m2),
            self.fresh(m1) ==> self.fresh(m2),
            self.staging().ring().unwrapped(m2) == self.staging().ring().unwrapped(m1),
    {
        self.lemma_parts();
        self.staging_bitmap.lemma_frame(m1, m2);
        self.free_list.lemma_frame(m1, m2);
        self.staging_buffer.ring().lemma_region_frame(m1, m2);
        assert(m2[self.staging_buffer.start() + 0] == m1[self.staging_buffer.start() + 0]);
        assert(m2[self.staging_buffer.start() + 1] == m1[self.staging_buffer.start() + 1]);
        if self.inv(m1) {
            assert(self.entries(m2) == self.entries(m1));
            assert(self.deferred(m2) == self.deferred(m1));
            assert(self.allocated(m2) == self.allocated(m1));
            assert(self.staging_bitmap.clean(m2));
            assert(self.free_list.inv(m2));
            assert(self.staging_buffer.inv(m2));
        }
    }

    /// A slot retired at a generation the reader has not acknowledged stays
    /// retired through `publish()`: it is neither freed nor handed out again.
    pub proof fn lemma_unacked_stays_retired(&self, old: Seq<i32>, new: Seq<i32>, j: int)
        requires
            self.valid(old),
            self.inv(old),
            self.publish_result(old, new),
            0 <= j < self.entries(old).len(),
            !drainable(self.entries(old)[j], self.ack_gen(old)),
        ensures
            ({
                let i = self.entries(old)[j][0] - 1;
                &&& 0 <= i < self.cap()
                &&& self.deferred(new)[i]
                &&& self.allocated(new)[i]
                &&& !self.free_order(new).contains(i)
            }),
    {
        let e = self.entries(old);
        let k = e.len() - self.entries(new).len();
        let s = staged_indices(e);
        let drained = staged_indices(e.take(k));
        let i = e[j][0] - 1;
        assert(j >= k);
        assert(s[j] == i);
        assert(0 <= i < self.cap());
        assert(!drained.contains(i)) by {
            if drained.contains(i) {
                let t = choose|t: int| 0 <= t < drained.len() && drained[t] == i;
                assert(drained[t] == s[t]);
                assert(t < j);
                assert(s[t] == s[j]);
            }
        }
        assert(self.deferred(old)[i]);
        assert(self.allocated(old)[i]);
        assert(self.deferred(new)[i]);
        assert(self.allocated(new)[i]);
        self.lemma_inv_order(old);
        assert(!self.free_order(old).contains(i));
        assert(!drained.reverse().contains(i)) by {
            if drained.reverse().contains(i) {
                let t = choose|t: int| 0 <= t < drained.reverse().len() && drained.reverse()[t] == i;
                assert(drained.contains(drained.reverse()[t])) by {
                    assert(drained[drained.len() - 1 - t] == drained.reverse()[t]);
                }
            }
        }
        assert(!self.free_order(new).contains(i)) by {
            let f = drained.reverse().add(self.free_order(old));
            if f.contains(i) {
                let t = choose|t: int| 0 <= t < f.len() && f[t] == i;
                if t < drained.reverse().len() {
                    assert(drained.reverse().contains(i));
                } else {
                    assert(self.free_order(old)[t - drained.reverse().len()] == i);
                    assert(self.free_order(old).contains(i));
                }
            }
        }
    }

    /// The reader's acknowledgement cell is read by nothing but `ack_gen`.
    pub proof fn lemma_ack_cell(&self, m1: Seq<i32>, m2: Seq<i32>)
        requires
            self.valid(m1),
            m2.len() == m1.len(),
            forall|i: int| self.start() <= i < self.end() && i != self.staging().start() + 1 ==> #[trigger] m2[i] == m1[i],
        ensures
            self.allocated(m2) == self.allocated(m1),
            self.deferred(m2) == self.deferred(m1),
            self.inv(m1) ==> self.free_order(m2) == self.free_order(m1),
            self.inv(m1) ==> self.entries(m2) == self.entries(m1),
            self.writer_gen(m2) == self.writer_gen(m1),
            self.ack_gen(m2) == m2[self.staging().start() + 1],
            self.inv(m1) ==> self.inv(m2),
    {
        self.lemma_parts();
        self.staging_bitmap.lemma_frame(m1, m2);
        self.free_list.lemma_frame(m1, m2);
        self.staging_buffer.ring().lemma_region_frame(m1, m2);
        assert(m2[self.staging_buffer.start() + 0] == m1[self.staging_buffer.start() + 0]);
        if self.inv(m1) {
            assert(self.entries(m2) == self.entries(m1));
            assert(self.deferred(m2) == self.deferred(m1));
            assert(self.allocated(m2) == self.allocated(m1));
            assert(self.staging_bitmap.clean(m2));
            assert(self.free_list.inv(m2));
            assert(self.staging_buffer.inv(m2));
        }
    }

    /// The two generation cells open the staging buffer, at the end of the
    /// allocator's region.
    pub proof fn lemma_writer_gen_cell(&self, m: Seq<i32>)
        requires
            self.wf(),
        ensures
            self.writer_gen(m) == m[self.staging().start()],
            self.ack_gen(m) == m[self.staging().start() + 1],
            self.start() < self.staging().start(),
            self.staging().start() + 2 <= self.end(),
    {
        self.lemma_parts();
    }

    /// The generations live in the allocator's own cells.
    pub proof fn lemma_gens_frame(&self, m1: Seq<i32>, m2: Seq<i32>)
        requires
            self.valid(m1),
            m2.len() == m1.len(),
            forall|i: int| self.start() <= i < self.end() ==> #[trigger] m2[i] == m1[i],
        ensures
            self.writer_gen(m2) == self.writer_gen(m1),
            self.ack_gen(m2) == self.ack_gen(m1),
    {
        self.lemma_frame(m1, m2);
    }

    /// The staging bitmap and the staging buffer ignore the free-list cells.
    proof fn lemma_other_parts_frame(&self, m1: Seq<i32>, m2: Seq<i32>)
        requires
            self.valid(m1),
            self.inv(m1),
            unchanged_outside(m1, m2, self.free_list.start(), self.free_list.end()),
        ensures
            self.deferred(m2) == self.deferred(m1),
            self.staging_bitmap.clean(m2),
            self.entries(m2) == self.entries(m1),
            self.staging_buffer.inv(m2),
            self.writer_gen(m2) == self.writer_gen(m1),
            self.ack_gen(m2) == self.ack_gen(m1),
    {
        self.lemma_parts();
        self.staging_bitmap.lemma_frame(m1, m2);
        self.staging_buffer.ring().lemma_region_frame(m1, m2);
    }

    /// Retires `slot`: it stays allocated until a later `publish()` reclaims it.
    pub fn defer_free(&self, mem: &mut AtomicBuffer, slot: SlotId) -> (r: Result<(), SlotAllocatorError>)
        requires
            self.valid(old(mem)@),
            self.inv(old(mem)@),
            slot.raw() <= self.cap(),
        ensures
            self.valid(final(mem)@),
            self.inv(final(mem)@),
            r == Err::<(), SlotAllocatorError>(SlotAllocatorError::InvalidSlot) <==> !self.allocated(
                old(mem)@,
            )[slot.raw() - 1],
            r == Err::<(), SlotAllocatorError>(SlotAllocatorError::DoubleFree) <==> (self.allocated(
                old(mem)@,
            )[slot.raw() - 1] && self.deferred(old(mem)@)[slot.raw() - 1]),
            r is Err ==> final(mem)@ == old(mem)@,
            r is Ok <==> (self.allocated(old(mem)@)[slot.raw() - 1] && !self.deferred(
                old(mem)@,
            )[slot.raw() - 1]),
            r is Ok ==> {
                &&& self.entries(final(mem)@) == self.entries(old(mem)@).push(
                    seq![slot.raw() as i32, self.writer_gen(old(mem)@)],
                )
                &&& self.deferred(final(mem)@) == self.deferred(old(mem)@).update(slot.raw() - 1, true)
            },
            self.allocated(final(mem)@) == self.allocated(old(mem)@),
            self.free_order(final(mem)@) == self.free_order(old(mem)@),
            self.writer_gen(final(mem)@) == self.writer_gen(old(mem)@),
            self.ack_gen(final(mem)@) == self.ack_gen(old(mem)@),
            unchanged_outside(old(mem)@, final(mem)@, self.start(), self.end()),
    {
        proof {
            self.lemma_parts();
        }
        if !self.is_allocated(mem, slot) {
            return Err(SlotAllocatorError::InvalidSlot);
        }
        let slot_index = slot.to_usize() - 1;
        if self.staging_bitmap.is_on(mem, slot_index) {
            return Err(SlotAllocatorError::DoubleFree);
        }
        proof {
            let s = staged_indices(self.entries(mem@));
            assert(!self.deferred(mem@)[slot_index as int]);
            assert(!s.contains(slot_index as int));
            lemma_no_dup_bound(s, self.capacity as int, slot_index as int);
        }
        match self.staging_buffer.push(mem, slot) {
            Ok(()) => {},
            Err(e) => {
                return Err(SlotAllocatorError::RingBuffer(e));
            },
        }
        let ghost mid = mem@;
        proof {
            self.staging_bitmap.lemma_frame(old(mem)@, mid);
            self.free_list.lemma_frame(old(mem)@, mid);
        }
        self.staging_bitmap.on(mem, slot_index);
        proof {
            let old_m = old(mem)@;
            let new_m = mem@;
            self.free_list.lemma_frame(mid, new_m);
            self.staging_buffer.ring().lemma_region_frame(mid, new_m);
            let e0 = self.entries(old_m);
            let e1 = self.entries(new_m);
            let s0 = staged_indices(e0);
            let s1 = staged_indices(e1);
            assert(self.deferred(mid) == self.deferred(old_m));
            assert(self.deferred(new_m) == self.deferred(mid).update(slot_index as int, true));
            assert(e1 == e0.push(seq![slot.raw() as i32, self.writer_gen(old_m)]));
            assert(s1 =~= s0.push(slot_index as int));
            assert(!s0.contains(slot_index as int));
            assert forall|i: int| 0 <= i < self.capacity implies #[trigger] self.deferred(new_m)[i]
                == s1.contains(i) by {
                if i == slot_index {
                    assert(s1[s0.len() as int] == i);
                } else {
                    assert(self.deferred(new_m)[i] == self.deferred(old_m)[i]);
                    assert(self.deferred(old_m)[i] == s0.contains(i));
                    if s0.contains(i) {
                        let k = choose|k: int| 0 <= k < s0.len() && s0[k] == i;
                        assert(s1[k] == i);
                    }
                    if s1.contains(i) {
                        let k = choose|k: int| 0 <= k < s1.len() && s1[k] == i;
                        assert(s0[k] == i);
                    }
                }
            }
            assert forall|a: int, b: int| 0 <= a < b < s1.len() implies s1[a] != s1[b] by {
                if b == s0.len() {
                    assert(s0.contains(s0[a]));
                }
            }
        }
        Ok(())
    }

    /// What `publish()` does to the allocator's state between `old` and `new`.
    pub open spec fn publish_result(&self, old: Seq<i32>, new: Seq<i32>) -> bool {
        &&& ({
            let e = self.entries(old);
            let ack = self.ack_gen(old);
            let k = e.len() - self.entries(new).len();
            let drained = staged_indices(e.take(k));
            &&& 0 <= k <= e.len()
            &&& self.entries(new) == e.skip(k)
            &&& (forall|j: int| 0 <= j < k ==> drainable(#[trigger] e[j], ack))
            &&& (k < e.len() ==> !drainable(e[k], ack))
            &&& self.free_order(new) == drained.reverse().add(
                self.free_order(old),
            )
            &&& (forall|i: int|
                0 <= i < self.cap() ==> #[trigger] self.allocated(new)[i] == (self.allocated(
                    old,
                )[i] && !drained.contains(i)))
            &&& (forall|i: int|
                0 <= i < self.cap() ==> #[trigger] self.deferred(new)[i] == (self.deferred(
                    old,
                )[i] && !drained.contains(i)))
        })
        &&& self.writer_gen(new) == self.writer_gen(old).wrapping_add(1)
        &&& self.ack_gen(new) == self.ack_gen(old)
    }

    /// Reclaims every retired slot whose generation the reader has
    /// acknowledged (oldest first), then advances the writer generation.
    pub fn publish(&self, mem: &mut AtomicBuffer)
        requires
            self.valid(old(mem)@),
            self.inv(old(mem)@),
        ensures
            self.valid(final(mem)@),
            self.inv(final(mem)@),
            self.publish_result(old(mem)@, final(mem)@),
            unchanged_outside(old(mem)@, final(mem)@, self.start(), self.end()),
    {
        proof {
            self.lemma_parts();
        }
        let ghost e = self.entries(mem@);
        let ghost ack = self.ack_gen(mem@);
        let ghost o = self.free_order(mem@);
        let ghost al = self.allocated(mem@);
        let ghost df = self.deferred(mem@);
        let mut iter = self.staging_buffer.drain(mem);
        let ghost mut j: int = 0;
        loop
            invariant_except_break
                iter.ring() == self.staging().ring(),
                iter.ack() == ack,
                self.valid(mem@),
                self.inv(mem@),
                0 <= j <= e.len(),
                self.entries(mem@) == e.skip(j),
                forall|t: int| 0 <= t < j ==> drainable(#[trigger] e[t], ack),
                self.free_order(mem@) == staged_indices(e.take(j)).reverse().add(o),
                forall|i: int|
                    0 <= i < self.cap() ==> #[trigger] self.allocated(mem@)[i] == (al[i]
                        && !staged_indices(e.take(j)).contains(i)),
                forall|i: int|
                    0 <= i < self.cap() ==> #[trigger] self.deferred(mem@)[i] == (df[i]
                        && !staged_indices(e.take(j)).contains(i)),
                self.writer_gen(mem@) == self.writer_gen(old(mem)@),
                self.ack_gen(mem@) == ack,
                unchanged_outside(old(mem)@, mem@, self.start(), self.end()),
            ensures
                self.valid(mem@),
                self.inv(mem@),
                0 <= j <= e.len(),
                self.entries(mem@) == e.skip(j),
                forall|t: int| 0 <= t < j ==> drainable(#[trigger] e[t], ack),
                j < e.len() ==> !drainable(e[j], ack),
                self.free_order(mem@) == staged_indices(e.take(j)).reverse().add(o),
                forall|i: int|
                    0 <= i < self.cap() ==> #[trigger] self.allocated(mem@)[i] == (al[i]
                        && !staged_indices(e.take(j)).contains(i)),
                forall|i: int|
                    0 <= i < self.cap() ==> #[trigger] self.deferred(mem@)[i] == (df[i]
                        && !staged_indices(e.take(j)).contains(i)),
                self.writer_gen(mem@) == self.writer_gen(old(mem)@),
                self.ack_gen(mem@) == ack,
                unchanged_outside(old(mem)@, mem@, self.start(), self.end()),
            decreases e.len() - j,
        {
            proof {
                self.lemma_parts();
            }
            let ghost before = mem@;
            let next = iter.next(mem);
            match next {
                Some(slot) => {
                    proof {
                        self.lemma_drain_step(before, mem@, e, j, ack, o, al, df);
                    }
                    let ghost m1 = mem@;
                    self.staging_bitmap.off(mem, slot.to_usize() - 1);
                    let ghost m2 = mem@;
                    proof {
                        self.free_list.lemma_frame(before, m1);
                        self.free_list.lemma_frame(m1, m2);
                    }
                    let _result = self.free_list.free(mem, slot);
                    proof {
                        self.lemma_reclaim_step(before, m1, m2, mem@, e, j, ack, o, al, df, slot);
                        j = j + 1;
                    }
                },
                None => {
                    proof {
                        if j < e.len() {
                            let s = staged_indices(self.entries(before));
                            assert(self.entries(before)[0] == e[j]);
                            assert(s[0] == e[j][0] as int - 1);
                            assert(0 <= s[0]);
                        }
                    }
                    break;
                },
            }
        }
        let ghost before_publish = mem@;
        self.staging_buffer.publish(mem);
        proof {
            self.lemma_parts();
            let m = mem@;
            let bp = before_publish;
            self.staging_bitmap.lemma_frame(bp, m);
            self.free_list.lemma_frame(bp, m);
            assert(self.entries(m) == self.entries(bp));
            assert(self.entries(m).len() == e.len() - j);
            assert(self.entries(old(mem)@).len() - self.entries(m).len() == j);
            assert(self.deferred(m) == self.deferred(bp));
            assert(self.allocated(m) == self.allocated(bp));
            assert(self.free_order(m) == self.free_order(bp));
            assert(self.inv(m));
        }
    }

    proof fn lemma_drain_step(
        &self,
        before: Seq<i32>,
        after: Seq<i32>,
        e: Seq<Seq<i32>>,
        j: int,
        ack: i32,
        o: Seq<int>,
        al: Seq<bool>,
        df: Seq<bool>,
    )
        requires
            self.valid(before),
            self.inv(before),
            0 <= j <= e.len(),
            self.entries(before) == e.skip(j),
            self.entries(before).len() > 0,
            drainable(self.entries(before)[0], ack),
            self.staging().ring().view(after) == self.entries(before).drop_first(),
            self.staging().ring().inv(after),
            unchanged_outside(before, after, self.staging().start() + 2, self.staging().start() + 5),
        ensures
            j < e.len(),
            drainable(e[j], ack),
            self.entries(after) == e.skip(j + 1),
            1 <= e[j][0] <= self.cap(),
    {
        self.lemma_parts();
        assert(self.entries(before)[0] == e[j]);
        assert(e.skip(j).drop_first() =~= e.skip(j + 1));
        let s = staged_indices(self.entries(before));
        assert(s[0] == e[j][0] as int - 1);
    }

    proof fn lemma_reclaim_step(
        &self,
        before: Seq<i32>,
        m1: Seq<i32>,
        m2: Seq<i32>,
        m3: Seq<i32>,
        e: Seq<Seq<i32>>,
        j: int,
        ack: i32,
        o: Seq<int>,
        al: Seq<bool>,
        df: Seq<bool>,
        slot: SlotId,
    )
        requires
            self.valid(before),
            self.inv(before),
            0 <= j < e.len(),
            self.entries(before) == e.skip(j),
            drainable(e[j], ack),
            slot.raw() == e[j][0] as u32,
            1 <= e[j][0] <= self.cap(),
            self.entries(m1) == e.skip(j + 1),
            self.staging().ring().inv(m1),
            unchanged_outside(before, m1, self.staging().start() + 2, self.staging().start() + 5),
            m2 == m1.update(
                self.staging_bitmap.start() + (slot.raw() - 1) / 32,
                m1[self.staging_bitmap.start() + (slot.raw() - 1) / 32] & !(1i32 << (((slot.raw()
                    - 1) % 32) as u32)),
            ),
            self.staging_bitmap.view(m2) == self.staging_bitmap.view(m1).update(slot.raw() - 1, false),
            self.staging_bitmap.clean(m1) ==> self.staging_bitmap.clean(m2),
            self.free_list.valid(m3),
            self.free_list.inv(m2) ==> self.free_list.inv(m3),
            self.free_list.inv(m2) ==> (!self.free_list.allocated(m2)[slot.raw() - 1] || (
            self.free_list.free_order(m3) == seq![slot.raw() - 1].add(self.free_list.free_order(m2))
                && self.free_list.allocated(m3) == self.free_list.allocated(m2).update(slot.raw() - 1, false))),
            self.free_list.inv(m2) ==> unchanged_outside(m2, m3, self.free_list.start(), self.free_list.end()),
            forall|t: int| 0 <= t < j ==> drainable(#[trigger] e[t], ack),
            self.free_order(before) == staged_indices(e.take(j)).reverse().add(o),
            forall|i: int|
                0 <= i < self.cap() ==> #[trigger] self.allocated(before)[i] == (al[i]
                    && !staged_indices(e.take(j)).contains(i)),
            forall|i: int|
                0 <= i < self.cap() ==> #[trigger] self.deferred(before)[i] == (df[i]
                    && !staged_indices(e.take(j)).contains(i)),
        ensures
            self.valid(m3),
            self.inv(m3),
            self.entries(m3) == e.skip(j + 1),
            forall|t: int| 0 <= t < j + 1 ==> drainable(#[trigger] e[t], ack),
            self.free_order(m3) == staged_indices(e.take(j + 1)).reverse().add(o),
            forall|i: int|
                0 <= i < self.cap() ==> #[trigger] self.allocated(m3)[i] == (al[i]
                    && !staged_indices(e.take(j + 1)).contains(i)),
            forall|i: int|
                0 <= i < self.cap() ==> #[trigger] self.deferred(m3)[i] == (df[i]
                    && !staged_indices(e.take(j + 1)).contains(i)),
            self.writer_gen(m3) == self.writer_gen(before),
            self.ack_gen(m3) == self.ack_gen(before),
            unchanged_outside(before, m3, self.start(), self.end()),
    {
        self.lemma_parts();
        let ring = self.staging_buffer.ring();
        let sb = self.staging_bitmap;
        let fl = self.free_list;
        let x = slot.raw() - 1;
        let sbef = staged_indices(self.entries(before));
        assert(self.entries(before)[0] == e[j]);
        assert(sbef[0] == x);
        assert(sbef.contains(x));
        assert(self.deferred(before)[x]);
        assert(self.allocated(before)[x]);
        // The free list is untouched until `free`.
        fl.lemma_frame(before, m1);
        fl.lemma_frame(m1, m2);
        assert(fl.inv(m2));
        assert(fl.allocated(m2) == fl.allocated(before));
        assert(fl.free_order(m2) == fl.free_order(before));
        assert(fl.free_order(m3) == seq![x].add(fl.free_order(m2)));
        assert(fl.allocated(m3) == fl.allocated(m2).update(x, false));
        // The staging bitmap: cleared at `x`, untouched by `free`.
        sb.lemma_frame(before, m1);
        sb.lemma_frame(m2, m3);
        assert(self.deferred(m3) == self.deferred(before).update(x, false));
        // The ring: popped once, untouched afterwards.
        ring.lemma_region_frame(m1, m2);
        ring.lemma_region_frame(m2, m3);
        assert(self.entries(m3) == e.skip(j + 1));
        assert(ring.inv(m3));
        // Generations live in the staging header, which no step writes.
        assert(m3[self.staging_buffer.start()] == before[self.staging_buffer.start()]);
        assert(m3[self.staging_buffer.start() + 1] == before[self.staging_buffer.start() + 1]);
        // Bookkeeping of the drained prefix.
        let d0 = staged_indices(e.take(j));
        let d1 = staged_indices(e.take(j + 1));
        assert(e.take(j + 1) =~= e.take(j).push(e[j]));
        assert(d1 =~= d0.push(x));
        assert(d1.reverse() =~= seq![x].add(d0.reverse()));
        assert(self.free_order(m3) =~= d1.reverse().add(o));
        assert forall|i: int| 0 <= i < self.cap() implies #[trigger] self.allocated(m3)[i] == (al[i]
            && !d1.contains(i)) by {
            if d1.contains(i) && i != x {
                let k = choose|k: int| 0 <= k < d1.len() && d1[k] == i;
                assert(d0[k] == i);
            }
            if d0.contains(i) {
                let k = choose|k: int| 0 <= k < d0.len() && d0[k] == i;
                assert(d1[k] == i);
            }
            assert(d1[d0.len() as int] == x);
        }
        assert forall|i: int| 0 <= i < self.cap() implies #[trigger] self.deferred(m3)[i] == (df[i]
            && !d1.contains(i)) by {
            if d1.contains(i) && i != x {
                let k = choose|k: int| 0 <= k < d1.len() && d1[k] == i;
                assert(d0[k] == i);
            }
            if d0.contains(i) {
                let k = choose|k: int| 0 <= k < d0.len() && d0[k] == i;
                assert(d1[k] == i);
            }
            assert(d1[d0.len() as int] == x);
        }
        // The invariant after the step.
        let snew = staged_indices(self.entries(m3));
        assert(e.skip(j).drop_first() =~= e.skip(j + 1));
        assert(snew =~= sbef.drop_first());
        assert forall|i: int| 0 <= i < self.capacity implies #[trigger] self.deferred(m3)[i] == snew.contains(i) by {
            assert(self.deferred(before)[i] == sbef.contains(i));
            if snew.contains(i) {
                let k = choose|k: int| 0 <= k < snew.len() && snew[k] == i;
                assert(sbef[k + 1] == i);
                assert(sbef[0] != sbef[k + 1]);
            }
            if sbef.contains(i) && i != x {
                let k = choose|k: int| 0 <= k < sbef.len() && sbef[k] == i;
                assert(k != 0);
                assert(snew[k - 1] == i);
            }
        }
        assert forall|i: int| 0 <= i < self.capacity && #[trigger] self.deferred(m3)[i] implies self.allocated(m3)[i] by {
            assert(self.deferred(before)[i] ==> self.allocated(before)[i]);
        }
        assert forall|k: int| 0 <= k < self.entries(m3).len() implies #[trigger] self.entries(m3)[k].len() == 2 by {
            assert(self.entries(m3)[k] == self.entries(before)[k + 1]);
        }
        assert forall|a: int, b: int| 0 <= a < b < snew.len() implies snew[a] != snew[b] by {
            assert(snew[a] == sbef[a + 1] && snew[b] == sbef[b + 1]);
        }
        lemma_unchanged_trans(before, m1, m2, self.start(), self.end());
        lemma_unchanged_trans(before, m2, m3, self.start(), self.end());
    }

    /// What `copy_from()` does to the allocator's state: `new` from `old`,
    /// with `source` laid out in `src`.
    pub open spec fn copy_result(&self, source: &SlotAllocator, src: Seq<i32>, old: Seq<i32>, new: Seq<i32>) -> bool {
        &&& self.writer_gen(new) == source.writer_gen(src)
        &&& self.ack_gen(new) == source.ack_gen(src)
        &&& (self.fresh(old) ==> self.holds_copy_of(source, src, new))
    }

    /// On `new` this allocator is consistent and holds what `source` held
    /// on `src`: the same retired entries, the same free slots in the same
    /// order followed by the slots it has in addition, and the same flags.
    pub open spec fn holds_copy_of(&self, source: &SlotAllocator, src: Seq<i32>, new: Seq<i32>) -> bool {
        &&& self.inv(new)
        &&& self.entries(new) == source.entries(src)
        &&& self.free_order(new) == source.free_order(src).add(int_seq(source.cap(), self.cap()))
        &&& (forall|i: int|
            0 <= i < self.cap() ==> #[trigger] self.allocated(new)[i] == if i < source.cap() {
                source.allocated(src)[i]
            } else {
                false
            })
        &&& (forall|i: int|
            0 <= i < self.cap() ==> #[trigger] self.deferred(new)[i] == if i < source.cap() {
                source.deferred(src)[i]
            } else {
                false
            })
    }

    /// A copy result survives changes that leave this allocator's cells
    /// alone, before the copy and after it.
    pub proof fn lemma_copy_result_frame(
        &self,
        source: &SlotAllocator,
        src: Seq<i32>,
        m0: Seq<i32>,
        m1: Seq<i32>,
        m2: Seq<i32>,
        m3: Seq<i32>,
    )
        requires
            self.valid(m0),
            self.valid(m2),
            m1.len() == m0.len(),
            m3.len() == m2.len(),
            forall|i: int| self.start() <= i < self.end() ==> #[trigger] m1[i] == m0[i],
            forall|i: int| self.start() <= i < self.end() ==> #[trigger] m3[i] == m2[i],
            self.copy_result(source, src, m1, m2),
        ensures
            self.copy_result(source, src, m0, m3),
    {
        self.lemma_frame(m0, m1);
        self.lemma_frame(m2, m3);
    }

    /// Copies the deferred flags, the free list and the staging buffer of
    /// `source` into this allocator.
    pub fn copy_from(&self, mem: &mut AtomicBuffer, source: &SlotAllocator, source_mem: &AtomicBuffer)
        requires
            self.valid(old(mem)@),
            source.valid(source_mem@),
            source.inv(source_mem@),
            source.cap() <= self.cap(),
        ensures
            self.valid(final(mem)@),
            unchanged_outside(old(mem)@, final(mem)@, self.start(), self.end()),
            self.copy_result(source, source_mem@, old(mem)@, final(mem)@),
    {
        proof {
            self.lemma_parts();
            source.lemma_parts();
            self.staging_bitmap.lemma_layout();
            source.staging_bitmap.lemma_layout();
        }
        let ghost m0 = mem@;
        self.staging_bitmap.copy_from(mem, &source.staging_bitmap, source_mem);
        let ghost m1 = mem@;
        proof {
            lemma_unchanged_widen(m0, m1, self.staging_bitmap.start(), self.staging_bitmap.start() + source.staging_bitmap.words(), self.start(), self.end());
            self.free_list.lemma_frame(m0, m1);
        }
        self.free_list.copy_from(mem, &source.free_list, source_mem);
        let ghost m2 = mem@;
        proof {
            lemma_unchanged_widen(m1, m2, self.free_list.start(), self.free_list.end(), self.start(), self.end());
            lemma_unchanged_trans(m0, m1, m2, self.start(), self.end());
            self.staging_bitmap.lemma_frame(m1, m2);
        }
        self.staging_buffer.copy_from(mem, &source.staging_buffer, source_mem);
        proof {
            let m3 = mem@;
            let sm = source_mem@;
            lemma_unchanged_widen(m2, m3, self.staging_buffer.start(), self.staging_buffer.end(), self.start(), self.end());
            lemma_unchanged_trans(m0, m2, m3, self.start(), self.end());
            self.staging_bitmap.lemma_frame(m2, m3);
            self.free_list.lemma_frame(m2, m3);
            if self.fresh(m0) {
                self.staging_bitmap.lemma_zero_clean(m0);
                assert(self.free_list.fresh(m1));
                let e = self.entries(m3);
                let se = staged_indices(e);
                let ss = staged_indices(source.entries(sm));
                assert(e == source.entries(sm));
                assert(se == ss);
                assert forall|i: int| 0 <= i < self.cap() implies #[trigger] self.deferred(m3)[i] == if i
                    < source.cap() {
                    source.deferred(sm)[i]
                } else {
                    false
                } by {
                    assert(self.deferred(m3)[i] == self.staging_bitmap.view(m1)[i]);
                    if i >= source.cap() && i >= source.staging_bitmap.words() * 32 {
                        assert(!self.staging_bitmap.view(m0)[i]);
                    }
                }
                assert forall|i: int| 0 <= i < self.capacity implies #[trigger] self.deferred(m3)[i] == se.contains(i) by {
                    if i < source.capacity {
                        assert(source.deferred(sm)[i] == ss.contains(i));
                    } else if se.contains(i) {
                        let k = choose|k: int| 0 <= k < se.len() && se[k] == i;
                        assert(ss[k] < source.capacity);
                    }
                }
                assert forall|i: int| 0 <= i < self.capacity && #[trigger] self.deferred(m3)[i] implies self.allocated(m3)[i] by {
                    if i < source.capacity {
                        assert(source.deferred(sm)[i] ==> source.allocated(sm)[i]);
                    }
                }
                assert forall|k: int| 0 <= k < se.len() implies 0 <= #[trigger] se[k] < self.capacity by {
                    assert(ss[k] < source.capacity);
                }
                assert forall|k: int| 0 <= k < e.len() implies #[trigger] e[k].len() == 2 by {
                    assert(source.entries(sm)[k].len() == 2);
                }
            }
        }
    }
}

} // verus!
