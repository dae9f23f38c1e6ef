use crate::errors::free_list_error::FreeListError;
use crate::primitives::bitmap::{Bitmap, bitmap_words};
use crate::primitives::slot::SlotId;
use crate::primitives::types::{AtomicBuffer, is_pow2_u32, lemma_pow2_bound, unchanged_outside};
use vstd::prelude::*;
use vstd::set_lib::{lemma_int_range, lemma_len_subset, set_int_range};

verus! {

/// The slots visited by following `n` links from `p`, where the link of slot
/// `q` is the cell `slots + q`.
pub open spec fn chain(mem: Seq<i32>, slots: int, p: int, n: nat) -> Seq<int>
    decreases n,
{
    if n == 0 {
        Seq::empty()
    } else {
        seq![p].add(chain(mem, slots, mem[slots + p] as int, (n - 1) as nat))
    }
}

/// Where `n` links from `p` lead.
pub open spec fn chain_end(mem: Seq<i32>, slots: int, p: int, n: nat) -> int
    decreases n,
{
    if n == 0 {
        p
    } else {
        chain_end(mem, slots, mem[slots + p] as int, (n - 1) as nat)
    }
}

/// The integers `lo, lo + 1, ..., hi - 1`.
pub open spec fn int_seq(lo: int, hi: int) -> Seq<int> {
    Seq::new((hi - lo) as nat, |i: int| lo + i)
}

pub proof fn lemma_chain_len(mem: Seq<i32>, slots: int, p: int, n: nat)
    ensures
        chain(mem, slots, p, n).len() == n,
    decreases n,
{
    if n > 0 {
        lemma_chain_len(mem, slots, mem[slots + p] as int, (n - 1) as nat);
    }
}

/// A chain reads only the links of the slots it visits.
pub proof fn lemma_chain_frame(m1: Seq<i32>, m2: Seq<i32>, slots: int, p: int, n: nat)
    requires
        forall|q: int| #[trigger]
            chain(m1, slots, p, n).contains(q) ==> m2[slots + q] == m1[slots + q],
    ensures
        chain(m2, slots, p, n) == chain(m1, slots, p, n),
        chain_end(m2, slots, p, n) == chain_end(m1, slots, p, n),
    decreases n,
{
    if n > 0 {
        let c1 = chain(m1, slots, p, n);
        assert(c1[0] == p);
        assert(c1.contains(p));
        let next = m1[slots + p] as int;
        let rest = chain(m1, slots, next, (n - 1) as nat);
        assert(c1 == seq![p].add(rest));
        assert forall|q: int| #[trigger] rest.contains(q) implies m2[slots + q] == m1[slots + q] by {
            let k = choose|k: int| 0 <= k < rest.len() && rest[k] == q;
            assert(c1[k + 1] == q);
            assert(c1.contains(q));
        }
        lemma_chain_frame(m1, m2, slots, next, (n - 1) as nat);
    }
}

/// Following `a + b` links is following `a` links, then `b` more.
pub proof fn lemma_chain_split(mem: Seq<i32>, slots: int, p: int, a: nat, b: nat)
    ensures
        chain(mem, slots, p, a + b) == chain(mem, slots, p, a).add(
            chain(mem, slots, chain_end(mem, slots, p, a), b),
        ),
        chain_end(mem, slots, p, a + b) == chain_end(mem, slots, chain_end(mem, slots, p, a), b),
    decreases a,
{
    if a > 0 {
        let next = mem[slots + p] as int;
        lemma_chain_split(mem, slots, next, (a - 1) as nat, b);
        assert((a + b - 1) as nat == ((a - 1) as nat + b) as nat);
        assert(chain(mem, slots, p, a + b) =~= chain(mem, slots, p, a).add(
            chain(mem, slots, chain_end(mem, slots, p, a), b),
        ));
    } else {
        assert(chain(mem, slots, p, a) =~= Seq::<int>::empty());
        assert(chain(mem, slots, p, a + b) =~= chain(mem, slots, p, a).add(
            chain(mem, slots, chain_end(mem, slots, p, a), b),
        ));
    }
}

/// On cells that link each slot to its successor, the chain from `lo` counts up.
pub proof fn lemma_chain_fresh(mem: Seq<i32>, slots: int, lo: int, hi: int)
    requires
        lo <= hi,
        forall|i: int| lo <= i < hi ==> #[trigger] mem[slots + i] == i + 1,
    ensures
        chain(mem, slots, lo, (hi - lo) as nat) == int_seq(lo, hi),
        chain_end(mem, slots, lo, (hi - lo) as nat) == hi,
    decreases hi - lo,
{
    if lo < hi {
        assert(mem[slots + lo] == lo + 1);
        lemma_chain_fresh(mem, slots, lo + 1, hi);
        assert((hi - lo - 1) as nat == (hi - (lo + 1)) as nat);
        assert(chain(mem, slots, lo, (hi - lo) as nat) =~= int_seq(lo, hi));
    } else {
        assert(chain(mem, slots, lo, (hi - lo) as nat) =~= int_seq(lo, hi));
    }
}

/// A duplicate-free sequence drawn from `[0, n)` that misses `x` is shorter than `n`.
pub proof fn lemma_no_dup_bound(o: Seq<int>, n: int, x: int)
    requires
        o.no_duplicates(),
        forall|k: int| 0 <= k < o.len() ==> 0 <= #[trigger] o[k] < n,
        0 <= x < n,
        !o.contains(x),
    ensures
        o.len() < n,
{
    o.unique_seq_to_set();
    lemma_int_range(0, n);
    let r = set_int_range(0, n).remove(x);
    assert forall|v: int| o.to_set().contains(v) implies r.contains(v) by {
        let k = choose|k: int| 0 <= k < o.len() && o[k] == v;
    }
    lemma_len_subset(o.to_set(), r);
}

/// 1-based free list backed by the shared memory plane.
///
/// Manages a fixed pool of reusable slot numbers using a singly-linked list
/// embedded in the plane. Uses a `Bitmap` to guard against double-frees.
///
/// # Memory Layout
/// ```text
/// Offset          Size            Field
/// ------------------------------------------
/// 0               1               head
/// 1               1               free_count
/// 2               ceil(N/32)      bitmap
/// 2+ceil(N/32)    N               slots
///
/// N = capacity (power of 2)
/// ```
///
/// # Constraints
/// - `capacity` must be a power of 2.
/// - The API is 1-based: `alloc()` returns slots starting at 1,
///   `free()` accepts the same. Internally 0-based.
#[derive(Clone, Copy)]
pub struct SimpleFreeList {
    mem_start_offset: usize,
    alloc_bitmap: Bitmap,
    slots_start_index: usize,
    mem_head_offset: usize,
    mem_free_count_offset: usize,
    capacity: usize,
    mem_end_offset: usize,
}

/// Number of cells a free list of `capacity` slots occupies.
pub open spec fn free_list_size(capacity: int) -> int {
    2 + bitmap_words(capacity) + capacity
}

impl SimpleFreeList {
    pub closed spec fn start(&self) -> int {
        self.mem_start_offset as int
    }

    pub closed spec fn end(&self) -> int {
        self.mem_end_offset as int
    }

    pub closed spec fn cap(&self) -> int {
        self.capacity as int
    }

    /// First cell of the link region.
    pub closed spec fn slots_start(&self) -> int {
        self.slots_start_index as int
    }

    pub closed spec fn wf(&self) -> bool {
        &&& self.alloc_bitmap.wf()
        &&& self.alloc_bitmap.start() == self.mem_start_offset + 2
        &&& self.alloc_bitmap.cap() == self.capacity
        &&& self.mem_head_offset == self.mem_start_offset
        &&& self.mem_free_count_offset == self.mem_start_offset + 1
        &&& self.slots_start_index == self.alloc_bitmap.end()
        &&& self.mem_end_offset == self.slots_start_index + self.capacity
        &&& self.capacity <= 0x4000_0000
    }

    pub open spec fn valid(&self, mem: Seq<i32>) -> bool {
        self.wf() && self.end() <= mem.len()
    }

    spec fn head(&self, mem: Seq<i32>) -> int {
        mem[self.mem_head_offset as int] as int
    }

    spec fn count(&self, mem: Seq<i32>) -> int {
        mem[self.mem_free_count_offset as int] as int
    }

    /// Free slots (0-based) in the order `alloc()` hands them out.
    pub closed spec fn free_order(&self, mem: Seq<i32>) -> Seq<int> {
        chain(mem, self.slots_start_index as int, self.head(mem), self.count(mem) as nat)
    }

    /// Allocation flags of the slots (0-based).
    pub closed spec fn allocated(&self, mem: Seq<i32>) -> Seq<bool> {
        self.alloc_bitmap.view(mem)
    }

    /// The free chain lists each free slot once, ends at `capacity`, and the
    /// allocation flags mark exactly the slots it does not list.
    pub closed spec fn inv(&self, mem: Seq<i32>) -> bool {
        let o = self.free_order(mem);
        &&& self.alloc_bitmap.clean(mem)
        &&& 0 <= self.count(mem) <= self.capacity
        &&& o.no_duplicates()
        &&& forall|k: int| 0 <= k < o.len() ==> 0 <= #[trigger] o[k] < self.capacity
        &&& chain_end(mem, self.slots_start_index as int, self.head(mem), self.count(mem) as nat)
            == self.capacity
        &&& forall|i: int| 0 <= i < self.capacity ==> #[trigger] self.allocated(mem)[i] == !o.contains(i)
    }

    /// The state `new()` leaves: every slot free, listed in increasing order.
    pub closed spec fn fresh(&self, mem: Seq<i32>) -> bool {
        &&& self.head(mem) == 0
        &&& self.count(mem) == self.capacity
        &&& forall|i: int| 0 <= i < self.capacity ==> #[trigger] mem[self.slots_start_index + i] == i + 1
        &&& forall|i: int| self.alloc_bitmap.start() <= i < self.alloc_bitmap.end() ==> #[trigger] mem[i] == 0
    }

    proof fn lemma_wf(&self)
        requires
            self.wf(),
        ensures
            self.alloc_bitmap.end() == self.alloc_bitmap.start() + self.alloc_bitmap.words(),
            self.alloc_bitmap.words() >= 1,
            self.alloc_bitmap.words() * 32 >= self.capacity,
            self.start() + 3 <= self.slots_start(),
            self.slots_start() + self.cap() == self.end(),
            self.cap() > 0,
            self.alloc_bitmap.cap() == self.cap(),
            self.cap() <= 0x4000_0000,
            self.end() == self.start() + free_list_size(self.cap()),
            forall|m: Seq<i32>| #[trigger] self.allocated(m).len() == self.cap(),
    {
        self.alloc_bitmap.lemma_layout();
    }

    pub proof fn lemma_wf_pub(&self)
        requires
            self.wf(),
        ensures
            self.start() + 3 <= self.slots_start(),
            self.slots_start() + self.cap() == self.end(),
            self.cap() > 0,
            self.cap() <= 0x4000_0000,
            self.end() == self.start() + free_list_size(self.cap()),
            forall|m: Seq<i32>| #[trigger] self.allocated(m).len() == self.cap(),
            forall|m: Seq<i32>| self.fresh(m) ==> #[trigger] self.free_order(m) == int_seq(0, self.cap()),
    {
        self.lemma_wf();
        assert forall|m: Seq<i32>| self.fresh(m) implies #[trigger] self.free_order(m) == int_seq(0, self.cap()) by {
            lemma_chain_fresh(m, self.slots_start_index as int, 0, self.capacity as int);
        }
    }

    /// The free chain, the flags, the invariant and freshness depend only on
    /// the list's own cells.
    pub proof fn lemma_frame(&self, m1: Seq<i32>, m2: Seq<i32>)
        requires
            self.valid(m1),
            m2.len() == m1.len(),
            forall|i: int| self.start() <= i < self.end() ==> #[trigger] m2[i] == m1[i],
        ensures
            self.inv(m1) ==> self.free_order(m2) == self.free_order(m1),
            self.allocated(m2) == self.allocated(m1),
            self.inv(m1) ==> self.inv(m2),
            self.fresh(m1) ==> self.fresh(m2),
    {
        self.lemma_wf();
        let slots = self.slots_start_index as int;
        assert(m2[self.start() + 0] == m1[self.start() + 0]);
        assert(m2[self.start() + 1] == m1[self.start() + 1]);
        self.alloc_bitmap.lemma_frame(m1, m2);
        if self.inv(m1) {
            let o = self.free_order(m1);
            assert forall|q: int| #[trigger] o.contains(q) implies m2[slots + q] == m1[slots + q] by {
                let k = choose|k: int| 0 <= k < o.len() && o[k] == q;
            }
            lemma_chain_frame(m1, m2, slots, self.head(m1), self.count(m1) as nat);
        }
    }

    /// Under the invariant, the free order lists distinct in-range slots, and
    /// exactly the unallocated ones.
    /// Freeing a slot and then allocating hands the same slot back and
    /// restores the free list and the allocation flags (the list is LIFO).
    pub proof fn lemma_free_then_allocate(&self, m0: Seq<i32>, m1: Seq<i32>, m2: Seq<i32>, slot: SlotId, s: SlotId)
        requires
            self.wf(),
            1 <= slot.raw() <= self.cap(),
            self.allocated(m0)[slot.raw() - 1],
            self.free_order(m1) == seq![slot.raw() - 1].add(self.free_order(m0)),
            self.allocated(m1) == self.allocated(m0).update(slot.raw() - 1, false),
            s.raw() == self.free_order(m1)[0] + 1,
            self.free_order(m2) == self.free_order(m1).drop_first(),
            self.allocated(m2) == self.allocated(m1).update(s.raw() - 1, true),
        ensures
            s.raw() == slot.raw(),
            self.free_order(m2) == self.free_order(m0),
            self.allocated(m2) == self.allocated(m0),
    {
        self.lemma_wf_pub();
        assert(self.free_order(m2) =~= self.free_order(m0));
        assert(self.allocated(m2) =~= self.allocated(m0));
    }

    pub proof fn lemma_inv_order(&self, mem: Seq<i32>)
        requires
            self.valid(mem),
            self.inv(mem),
        ensures
            self.free_order(mem).no_duplicates(),
            forall|k: int| 0 <= k < self.free_order(mem).len() ==> 0 <= #[trigger] self.free_order(mem)[k] < self.cap(),
            forall|i: int| 0 <= i < self.cap() ==> #[trigger] self.allocated(mem)[i] == !self.free_order(mem).contains(i),
            self.free_order(mem).len() <= self.cap(),
    {
        self.lemma_inv_facts(mem);
    }

    proof fn lemma_inv_facts(&self, mem: Seq<i32>)
        requires
            self.valid(mem),
            self.inv(mem),
        ensures
            self.free_order(mem).len() == self.count(mem),
            self.count(mem) <= self.cap(),
            self.count(mem) == 0 ==> self.head(mem) == self.capacity,
            self.count(mem) > 0 ==> self.head(mem) == self.free_order(mem)[0],
            self.allocated(mem).len() == self.capacity,
    {
        self.lemma_wf();
        lemma_chain_len(mem, self.slots_start_index as int, self.head(mem), self.count(mem) as nat);
        if self.count(mem) > 0 {
            assert(self.free_order(mem)[0] == self.head(mem));
        }
    }

    /// A fresh free list satisfies the invariant: all slots free, in order.
    pub proof fn lemma_fresh_inv(&self, mem: Seq<i32>)
        requires
            self.valid(mem),
            self.fresh(mem),
        ensures
            self.inv(mem),
            self.free_order(mem) == int_seq(0, self.cap()),
            forall|i: int| 0 <= i < self.cap() ==> !#[trigger] self.allocated(mem)[i],
    {
        let b = self.alloc_bitmap;
        b.lemma_layout();
        lemma_chain_fresh(mem, self.slots_start_index as int, 0, self.capacity as int);
        b.lemma_zero_clean(mem);
        let o = self.free_order(mem);
        assert forall|i: int| 0 <= i < self.capacity implies #[trigger] self.allocated(mem)[i] == !o.contains(
            i,
        ) by {
            assert(o[i] == i);
        }
    }

    pub fn new(mem: &mut AtomicBuffer, mem_start_offset: usize, capacity: u32) -> (fl: Self)
        requires
            is_pow2_u32(capacity),
            capacity <= 0x4000_0000,
            mem_start_offset + free_list_size(capacity as int) <= old(mem)@.len(),
        ensures
            fl.valid(final(mem)@),
            fl.start() == mem_start_offset,
            fl.cap() == capacity,
            fl.inv(final(mem)@),
            fl.fresh(final(mem)@),
            fl.free_order(final(mem)@) == int_seq(0, capacity as int),
            forall|i: int| 0 <= i < fl.cap() ==> !#[trigger] fl.allocated(final(mem)@)[i],
            unchanged_outside(old(mem)@, final(mem)@, fl.start(), fl.end()),
    {
        Self::create(mem, mem_start_offset, capacity, false)
    }

    pub fn bind(mem: &AtomicBuffer, mem_start_offset: usize, capacity: u32) -> (fl: Self)
        requires
            is_pow2_u32(capacity),
            capacity <= 0x4000_0000,
            mem_start_offset + free_list_size(capacity as int) <= mem@.len(),
        ensures
            fl.valid(mem@),
            fl.start() == mem_start_offset,
            fl.cap() == capacity,
    {
        let _len = mem.len();
        let fl = Self::layout(mem_start_offset, capacity);
        proof {
            fl.lemma_wf();
        }
        fl
    }

    fn layout(mem_start_offset: usize, capacity: u32) -> (fl: Self)
        requires
            is_pow2_u32(capacity),
            capacity <= 0x4000_0000,
            mem_start_offset + free_list_size(capacity as int) <= usize::MAX,
        ensures
            fl.wf(),
            fl.start() == mem_start_offset,
            fl.cap() == capacity,
    {
        proof {
            lemma_pow2_bound(capacity);
        }
        let alloc_bitmap = Bitmap::layout(mem_start_offset + 2, capacity);
        proof {
            alloc_bitmap.lemma_layout();
        }
        let slots_start_index = alloc_bitmap.mem_end_offset();
        let slots_end_index = slots_start_index + capacity as usize;
        SimpleFreeList {
            mem_start_offset,
            alloc_bitmap,
            mem_head_offset: mem_start_offset,
            mem_free_count_offset: mem_start_offset + 1,
            slots_start_index,
            mem_end_offset: slots_end_index,
            capacity: capacity as usize,
        }
    }

    pub fn create(mem: &mut AtomicBuffer, mem_start_offset: usize, capacity: u32, bind: bool) -> (fl: Self)
        requires
            is_pow2_u32(capacity),
            capacity <= 0x4000_0000,
            mem_start_offset + free_list_size(capacity as int) <= old(mem)@.len(),
        ensures
            fl.valid(final(mem)@),
            fl.start() == mem_start_offset,
            fl.cap() == capacity,
            bind ==> final(mem)@ == old(mem)@,
            !bind ==> {
                &&& fl.inv(final(mem)@)
                &&& fl.fresh(final(mem)@)
                &&& fl.free_order(final(mem)@) == int_seq(0, capacity as int)
                &&& (forall|i: int| 0 <= i < fl.cap() ==> !#[trigger] fl.allocated(final(mem)@)[i])
                &&& unchanged_outside(old(mem)@, final(mem)@, fl.start(), fl.end())
            },
    {
        let _len = mem.len();
        let fl = Self::layout(mem_start_offset, capacity);
        proof {
            fl.lemma_wf();
        }
        if !bind {
            let b = Bitmap::create(mem, mem_start_offset + 2, capacity, false);
            proof {
                b.lemma_layout();
            }
            let slots_start_index = fl.slots_start_index;
            let cap = capacity as usize;
            let mut i: usize = 0;
            while i < cap
                invariant
                    fl.valid(old(mem)@),
                    fl.slots_start() + fl.cap() == fl.end(),
                    fl.start() + 3 <= fl.slots_start(),
                    fl.alloc_bitmap.end() == fl.slots_start(),
                    fl.alloc_bitmap.start() == fl.start() + 2,
                    cap <= 0x4000_0000,
                    mem@.len() == old(mem)@.len(),
                    cap == fl.capacity,
                    slots_start_index == fl.slots_start_index,
                    i <= cap,
                    unchanged_outside(old(mem)@, mem@, fl.mem_start_offset + 2, slots_start_index + i),
                    forall|j: int| fl.alloc_bitmap.start() <= j < fl.alloc_bitmap.end() ==> #[trigger] mem@[j] == 0,
                    forall|j: int| 0 <= j < i ==> #[trigger] mem@[slots_start_index + j] == j + 1,
                decreases cap - i,
            {
                mem.set(slots_start_index + i, (i as i32) + 1);
                i = i + 1;
            }
            mem.set(mem_start_offset, 0);
            mem.set(mem_start_offset + 1, capacity as i32);
            proof {
                fl.lemma_fresh_inv(mem@);
            }
        }
        fl
    }

    pub fn calculate_size_on_mem(capacity: usize) -> (r: usize)
        requires
            free_list_size(capacity as int) <= usize::MAX,
        ensures
            r == free_list_size(capacity as int),
    {
        2 + Bitmap::calculate_size_on_mem(capacity) + capacity
    }

    pub fn free_count(&self, mem: &AtomicBuffer) -> (r: usize)
        requires
            self.valid(mem@),
            self.inv(mem@),
        ensures
            r == self.free_order(mem@).len(),
            r <= self.cap(),
    {
        proof {
            self.lemma_wf();
            self.lemma_inv_facts(mem@);
        }
        mem[self.mem_free_count_offset] as usize
    }

    pub fn alloc_count(&self, mem: &AtomicBuffer) -> (r: usize)
        requires
            self.valid(mem@),
            self.inv(mem@),
        ensures
            r == self.cap() - self.free_order(mem@).len(),
    {
        self.capacity - self.free_count(mem)
    }

    pub fn mem_start_offset(&self) -> (r: usize)
        ensures
            r == self.start(),
    {
        self.mem_start_offset
    }

    pub fn mem_end_offset(&self) -> (r: usize)
        ensures
            r == self.end(),
    {
        self.mem_end_offset
    }

    pub fn capacity(&self) -> (r: usize)
        ensures
            r == self.cap(),
    {
        self.capacity
    }

    pub fn is_allocated(&self, mem: &AtomicBuffer, slot: SlotId) -> (r: bool)
        requires
            self.valid(mem@),
            slot.raw() <= self.cap(),
        ensures
            r == self.allocated(mem@)[slot.raw() - 1],
    {
        proof {
            self.lemma_wf();
        }
        let i = slot.to_usize() - 1;
        self.alloc_bitmap.is_on(mem, i)
    }

    pub fn is_free(&self, mem: &AtomicBuffer, slot: SlotId) -> (r: bool)
        requires
            self.valid(mem@),
            slot.raw() <= self.cap(),
        ensures
            r == !self.allocated(mem@)[slot.raw() - 1],
    {
        proof {
            self.lemma_wf();
        }
        let i = slot.to_usize() - 1;
        self.alloc_bitmap.is_off(mem, i)
    }

    /// Takes the slot at the front of the free chain.
    pub fn allocate(&self, mem: &mut AtomicBuffer) -> (r: Option<SlotId>)
        requires
            self.valid(old(mem)@),
            self.inv(old(mem)@),
        ensures
            self.valid(final(mem)@),
            self.inv(final(mem)@),
            r is None <==> self.free_order(old(mem)@).len() == 0,
            r is None ==> final(mem)@ == old(mem)@,
            r matches Some(s) ==> {
                &&& s.raw() == self.free_order(old(mem)@)[0] + 1
                &&& 1 <= s.raw() <= self.cap()
                &&& self.free_order(final(mem)@) == self.free_order(old(mem)@).drop_first()
                &&& self.allocated(final(mem)@) == self.allocated(old(mem)@).update(s.raw() - 1, true)
            },
            unchanged_outside(old(mem)@, final(mem)@, self.start(), self.slots_start()),
    {
        proof {
            self.lemma_wf();
            self.lemma_inv_facts(mem@);
        }
        let head_index = mem[self.mem_head_offset];
        if head_index >= self.capacity as i32 {
            return None;
        }
        let slot_index = head_index as u32;
        let next_index = mem[self.slots_start_index + head_index as usize];
        let c = mem[self.mem_free_count_offset];
        mem.set(self.mem_head_offset, next_index);
        mem.set(self.mem_free_count_offset, c - 1);
        let ghost mid = mem@;
        proof {
            self.alloc_bitmap.lemma_frame(old(mem)@, mid);
        }
        self.alloc_bitmap.on(mem, slot_index as usize);
        proof {
            let old_m = old(mem)@;
            let new_m = mem@;
            let slots = self.slots_start_index as int;
            let o = self.free_order(old_m);
            let rest = chain(old_m, slots, next_index as int, (c - 1) as nat);
            assert(o == seq![head_index as int].add(rest));
            assert forall|q: int| #[trigger] rest.contains(q) implies new_m[slots + q] == old_m[slots + q] by {
                let k = choose|k: int| 0 <= k < rest.len() && rest[k] == q;
                assert(o[k + 1] == q);
            }
            lemma_chain_frame(old_m, new_m, slots, next_index as int, (c - 1) as nat);
            assert(self.free_order(new_m) =~= o.drop_first());
            let o2 = self.free_order(new_m);
            assert forall|i: int| 0 <= i < self.capacity implies #[trigger] self.allocated(new_m)[i]
                == !o2.contains(i) by {
                if i == head_index {
                    assert(o[0] == i);
                    if o2.contains(i) {
                        let k = choose|k: int| 0 <= k < o2.len() && o2[k] == i;
                        assert(o[k + 1] == i);
                    }
                } else {
                    if o.contains(i) {
                        let k = choose|k: int| 0 <= k < o.len() && o[k] == i;
                        assert(k != 0);
                        assert(o2[k - 1] == i);
                    }
                    if o2.contains(i) {
                        let k = choose|k: int| 0 <= k < o2.len() && o2[k] == i;
                        assert(o[k + 1] == i);
                    }
                }
            }
        }
        SlotId::new(slot_index + 1)
    }

    /// Returns `slot` to the front of the free chain.
    pub fn free(&self, mem: &mut AtomicBuffer, slot: SlotId) -> (r: Result<(), FreeListError>)
        requires
            self.valid(old(mem)@),
            self.inv(old(mem)@),
            slot.raw() <= self.cap(),
        ensures
            self.valid(final(mem)@),
            self.inv(final(mem)@),
            r is Err <==> !self.allocated(old(mem)@)[slot.raw() - 1],
            r is Err ==> r == Err::<(), FreeListError>(FreeListError::DoubleFree) && final(mem)@
                == old(mem)@,
            r is Ok ==> {
                &&& self.free_order(final(mem)@) == seq![slot.raw() - 1].add(
                    self.free_order(old(mem)@),
                )
                &&& self.allocated(final(mem)@) == self.allocated(old(mem)@).update(
                    slot.raw() - 1,
                    false,
                )
            },
            unchanged_outside(old(mem)@, final(mem)@, self.start(), self.end()),
    {
        proof {
            self.lemma_wf();
            self.lemma_inv_facts(mem@);
        }
        let slot_index = slot.to_usize() - 1;
        if self.alloc_bitmap.is_off(mem, slot_index) {
            return Err(FreeListError::DoubleFree);
        }
        proof {
            lemma_no_dup_bound(self.free_order(mem@), self.capacity as int, slot_index as int);
        }
        let head_index = mem[self.mem_head_offset];
        let c = mem[self.mem_free_count_offset];
        mem.set(self.slots_start_index + slot_index, head_index);
        mem.set(self.mem_head_offset, slot_index as i32);
        mem.set(self.mem_free_count_offset, c + 1);
        let ghost mid = mem@;
        proof {
            self.alloc_bitmap.lemma_frame(old(mem)@, mid);
        }
        self.alloc_bitmap.off(mem, slot_index);
        proof {
            let old_m = old(mem)@;
            let new_m = mem@;
            let slots = self.slots_start_index as int;
            let o = self.free_order(old_m);
            assert forall|q: int| #[trigger] o.contains(q) implies new_m[slots + q] == old_m[slots + q] by {
                let k = choose|k: int| 0 <= k < o.len() && o[k] == q;
                assert(q != slot_index);
            }
            lemma_chain_frame(old_m, new_m, slots, head_index as int, c as nat);
            assert(new_m[slots + slot_index] == head_index);
            assert(self.free_order(new_m) =~= seq![slot_index as int].add(o));
            let o2 = self.free_order(new_m);
            assert forall|i: int| 0 <= i < self.capacity implies #[trigger] self.allocated(new_m)[i]
                == !o2.contains(i) by {
                if i == slot_index {
                    assert(o2[0] == i);
                } else {
                    if o.contains(i) {
                        let k = choose|k: int| 0 <= k < o.len() && o[k] == i;
                        assert(o2[k + 1] == i);
                    }
                    if o2.contains(i) {
                        let k = choose|k: int| 0 <= k < o2.len() && o2[k] == i;
                        assert(k != 0);
                        assert(o[k - 1] == i);
                    }
                }
            }
            assert forall|a: int, b: int| 0 <= a < b < o2.len() implies o2[a] != o2[b] by {
                if a == 0 {
                    assert(o2[b] == o[b - 1]);
                    assert(o.contains(o[b - 1]));
                } else {
                    assert(o2[a] == o[a - 1] && o2[b] == o[b - 1]);
                }
            }
        }
        Ok(())
    }

    /// Copies the header, the allocation words and the first `source.cap()`
    /// links of `source` into this free list, growing the free count by the
    /// capacity difference.
    pub fn copy_from(&self, mem: &mut AtomicBuffer, source: &SimpleFreeList, source_mem: &AtomicBuffer)
        requires
            self.valid(old(mem)@),
            source.valid(source_mem@),
            source.inv(source_mem@),
            source.cap() <= self.cap(),
        ensures
            self.valid(final(mem)@),
            unchanged_outside(old(mem)@, final(mem)@, self.start(), self.end()),
            self.fresh(old(mem)@) ==> {
                &&& self.inv(final(mem)@)
                &&& self.free_order(final(mem)@) == source.free_order(source_mem@).add(
                    int_seq(source.cap(), self.cap()),
                )
                &&& (forall|i: int|
                    0 <= i < self.cap() ==> #[trigger] self.allocated(final(mem)@)[i] == if i
                        < source.cap() {
                        source.allocated(source_mem@)[i]
                    } else {
                        false
                    })
            },
    {
        proof {
            self.lemma_wf();
            source.lemma_wf();
            source.lemma_inv_facts(source_mem@);
            self.alloc_bitmap.lemma_layout();
            source.alloc_bitmap.lemma_layout();
        }
        let additional_capacity = (self.capacity - source.capacity) as i32;
        let old_free_count = source_mem[source.mem_free_count_offset];
        let h = source_mem[source.mem_head_offset];
        mem.set(self.mem_head_offset, h);
        mem.set(self.mem_free_count_offset, old_free_count + additional_capacity);
        let ghost m1 = mem@;
        self.alloc_bitmap.copy_from(mem, &source.alloc_bitmap, source_mem);
        let ghost m2 = mem@;
        let n = source.capacity;
        let mut i: usize = 0;
        while i < n
            invariant
                n == source.cap(),
                n <= self.cap(),
                self.valid(m2),
                source.valid(source_mem@),
                i <= n,
                unchanged_outside(m2, mem@, self.slots_start_index as int, self.slots_start_index + i),
                forall|k: int|
                    0 <= k < i ==> #[trigger] mem@[self.slots_start_index + k]
                        == source_mem@[source.slots_start_index + k],
            decreases n - i,
        {
            let v = source_mem[source.slots_start_index + i];
            mem.set(self.slots_start_index + i, v);
            i = i + 1;
        }
        proof {
            let old_m = old(mem)@;
            let new_m = mem@;
            let sm = source_mem@;
            if self.fresh(old_m) {
                let slots = self.slots_start_index as int;
                let sslots = source.slots_start_index as int;
                let so = source.free_order(sm);
                let sc = source.count(sm);
                let sh = source.head(sm);
                assert(new_m[self.mem_head_offset as int] == sh);
                assert(new_m[self.mem_free_count_offset as int] == sc + (self.capacity - source.capacity));
                // The copied links follow the source chain.
                assert forall|q: int| #[trigger] so.contains(q) implies new_m[slots + q] == sm[sslots + q] by {
                    let k = choose|k: int| 0 <= k < so.len() && so[k] == q;
                    assert(new_m[self.slots_start_index + q] == sm[source.slots_start_index + q]);
                }
                lemma_chain_relocate(sm, new_m, sslots, slots, sh, sc as nat);
                lemma_chain_split(new_m, slots, sh, sc as nat, (self.capacity - source.capacity) as nat);
                assert forall|j: int| source.capacity <= j < self.capacity implies #[trigger] new_m[slots + j] == j + 1 by {
                    assert(old_m[slots + j] == j + 1);
                    assert(m2[slots + j] == old_m[slots + j]);
                }
                lemma_chain_fresh(new_m, slots, source.capacity as int, self.capacity as int);
                assert((sc + (self.capacity - source.capacity)) as nat == (sc as nat + (
                self.capacity - source.capacity) as nat) as nat);
                let o = self.free_order(new_m);
                assert(o == so.add(int_seq(source.cap(), self.cap())));
                // Allocation flags.
                assert forall|j: int| 0 <= j < source.alloc_bitmap.words() implies #[trigger] m2[
                    self.alloc_bitmap.start() + j] == sm[source.alloc_bitmap.start() + j] by {}
                assert forall|j: int| self.alloc_bitmap.start() <= j < self.alloc_bitmap.end() implies #[trigger] m1[j] == 0 by {
                    assert(old_m[j] == 0);
                }
                self.alloc_bitmap.lemma_zero_clean(m1);
                assert forall|i: int| 0 <= i < self.cap() implies !#[trigger] self.alloc_bitmap.view(m1)[i] by {
                    crate::primitives::bitmap::lemma_word_bit_zero((i % 32) as u32);
                    assert(m1[self.alloc_bitmap.start() + i / 32] == 0);
                }
                assert forall|j: int| self.alloc_bitmap.start() <= j < self.alloc_bitmap.end() implies #[trigger] new_m[j] == m2[j] by {}
                self.alloc_bitmap.lemma_frame(m2, new_m);
                // Cleanliness of the copied words.
                assert forall|j: int| self.alloc_bitmap.start() <= j < self.alloc_bitmap.end() implies #[trigger] new_m[j] == m2[j] by {}
                self.alloc_bitmap.lemma_frame(m2, new_m);
                // The chain is duplicate free and inside the range.
                assert forall|k: int| 0 <= k < o.len() implies 0 <= #[trigger] o[k] < self.capacity by {
                    if k < so.len() {
                        assert(o[k] == so[k]);
                    } else {
                        assert(o[k] == source.capacity + (k - so.len()));
                    }
                }
                assert forall|a: int, b: int| 0 <= a < b < o.len() implies o[a] != o[b] by {
                    if b < so.len() {
                    } else if a < so.len() {
                        assert(o[a] < source.capacity);
                        assert(o[b] >= source.capacity);
                    } else {
                    }
                }
                assert forall|i: int| 0 <= i < self.capacity implies #[trigger] self.allocated(new_m)[i]
                    == !o.contains(i) by {
                    if i < source.capacity {
                        if o.contains(i) {
                            let k = choose|k: int| 0 <= k < o.len() && o[k] == i;
                            if k >= so.len() {
                                assert(o[k] >= source.capacity);
                            }
                            assert(so[k] == i);
                            assert(so.contains(i));
                        }
                        if so.contains(i) {
                            let k = choose|k: int| 0 <= k < so.len() && so[k] == i;
                            assert(o[k] == i);
                        }
                    } else {
                        let k = so.len() + (i - source.capacity);
                        assert(o[k] == i);
                    }
                }
            }
        }
    }
}

/// A chain read through links copied from another region follows the same slots.
pub proof fn lemma_chain_relocate(src: Seq<i32>, dst: Seq<i32>, sslots: int, dslots: int, p: int, n: nat)
    requires
        forall|q: int| #[trigger]
            chain(src, sslots, p, n).contains(q) ==> dst[dslots + q] == src[sslots + q],
    ensures
        chain(dst, dslots, p, n) == chain(src, sslots, p, n),
        chain_end(dst, dslots, p, n) == chain_end(src, sslots, p, n),
    decreases n,
{
    if n > 0 {
        let c1 = chain(src, sslots, p, n);
        assert(c1[0] == p);
        assert(c1.contains(p));
        let next = src[sslots + p] as int;
        let rest = chain(src, sslots, next, (n - 1) as nat);
        assert(c1 == seq![p].add(rest));
        assert forall|q: int| #[trigger] rest.contains(q) implies dst[dslots + q] == src[sslots + q] by {
            let k = choose|k: int| 0 <= k < rest.len() && rest[k] == q;
            assert(c1[k + 1] == q);
            assert(c1.contains(q));
        }
        lemma_chain_relocate(src, dst, sslots, dslots, next, (n - 1) as nat);
    }
}

} // verus!
