use crate::primitives::types::{AtomicBuffer, is_pow2_u32, lemma_pow2_bound, unchanged_outside};
use vstd::prelude::*;

verus! {

/// Bit `k` (`k < 32`) of the word `w`.
pub open spec fn word_bit(w: i32, k: u32) -> bool {
    w & (1i32 << k) != 0
}

pub proof fn lemma_word_bit_or(w: i32, k: u32, j: u32)
    requires
        k < 32,
        j < 32,
    ensures
        word_bit(w | (1i32 << k), j) == (j == k || word_bit(w, j)),
{
    assert((w | (1i32 << k)) & (1i32 << j) != 0 <==> (j == k || w & (1i32 << j) != 0))
        by (bit_vector)
        requires
            k < 32,
            j < 32,
    ;
}

pub proof fn lemma_word_bit_and_not(w: i32, k: u32, j: u32)
    requires
        k < 32,
        j < 32,
    ensures
        word_bit(w & !(1i32 << k), j) == (j != k && word_bit(w, j)),
{
    assert((w & !(1i32 << k)) & (1i32 << j) != 0 <==> (j != k && w & (1i32 << j) != 0))
        by (bit_vector)
        requires
            k < 32,
            j < 32,
    ;
}

pub proof fn lemma_word_bit_zero(j: u32)
    requires
        j < 32,
    ensures
        !word_bit(0, j),
{
    assert(0i32 & (1i32 << j) == 0) by (bit_vector);
}

proof fn lemma_split_index(b: usize)
    ensures
        b >> 5 == b / 32,
        b & 31 == b % 32,
{
    assert(b >> 5 == b / 32) by (bit_vector);
    assert(b & 31 == b % 32) by (bit_vector);
}

/// Number of 32-bit words needed for `capacity` bits.
pub open spec fn bitmap_words(capacity: int) -> int {
    (capacity + 31) / 32
}

/// Bit-packed boolean array backed by the shared memory plane.
///
/// Packs 32 flags per `i32` word: flag `i` is bit `i % 32` of word `i / 32`.
///
/// # Memory Layout
/// ```text
/// Offset      Size            Field
/// ---------------------------------
/// 0           ceil(N/32)      words
///
/// N = capacity (power of 2)
/// ```
#[derive(Clone, Copy)]
pub struct Bitmap {
    mem_start_offset: usize,
    mem_end_offset: usize,
    capacity: usize,
    word_count: usize,
}

impl Bitmap {
    pub closed spec fn start(&self) -> int {
        self.mem_start_offset as int
    }

    pub closed spec fn end(&self) -> int {
        self.mem_end_offset as int
    }

    pub closed spec fn cap(&self) -> int {
        self.capacity as int
    }

    pub closed spec fn words(&self) -> int {
        self.word_count as int
    }

    /// Layout well-formedness: a power-of-two capacity and the word region it needs.
    pub closed spec fn wf(&self) -> bool {
        &&& self.capacity > 0
        &&& self.capacity <= u32::MAX
        &&& is_pow2_u32(self.capacity as u32)
        &&& self.word_count == bitmap_words(self.capacity as int)
        &&& self.mem_end_offset == self.mem_start_offset + self.word_count
    }

    /// The bitmap is well formed and its words lie inside `mem`.
    pub open spec fn valid(&self, mem: Seq<i32>) -> bool {
        self.wf() && self.end() <= mem.len()
    }

    /// The flags as a sequence of `capacity` booleans.
    pub closed spec fn view(&self, mem: Seq<i32>) -> Seq<bool> {
        Seq::new(
            self.capacity as nat,
            |i: int| word_bit(mem[self.mem_start_offset + i / 32], (i % 32) as u32),
        )
    }

    /// The padding bits of the last word (those past `capacity`) are all zero.
    pub closed spec fn clean(&self, mem: Seq<i32>) -> bool {
        forall|j: int|
            self.capacity <= j < self.word_count * 32 ==> !word_bit(
                #[trigger] mem[self.mem_start_offset + j / 32],
                (j % 32) as u32,
            )
    }

    pub proof fn lemma_layout(&self)
        requires
            self.wf(),
        ensures
            self.cap() > 0,
            self.cap() <= u32::MAX,
            is_pow2_u32(self.cap() as u32),
            self.words() == bitmap_words(self.cap()),
            self.end() == self.start() + self.words(),
            0 <= self.start(),
            self.words() * 32 >= self.cap(),
            self.cap() >= 32 ==> self.words() * 32 == self.cap(),
            forall|m: Seq<i32>| #[trigger] self.view(m).len() == self.cap(),
    {
        let c = self.capacity as u32;
        let d = (c - 1) as u32;
        if c >= 32 {
            assert(c % 32 == 0) by (bit_vector)
                requires
                    c >= 32,
                    d == c - 1,
                    c & d == 0,
            ;
        }
    }

    /// A word-wise copy of `src` into `dst` copies every flag below `src.cap()`
    /// and clears the padding flags of the copied words, provided the source
    /// padding is clean.
    pub proof fn lemma_view_after_copy(&self, src: Bitmap, old_dst: Seq<i32>, dst: Seq<i32>, src_mem: Seq<i32>)
        requires
            self.valid(old_dst),
            src.valid(src_mem),
            src.cap() <= self.cap(),
            src.clean(src_mem),
            dst.len() == old_dst.len(),
            forall|k: int|
                0 <= k < src.words() ==> #[trigger] dst[self.start() + k] == src_mem[src.start() + k],
            forall|i: int|
                self.start() + src.words() <= i < self.end() ==> #[trigger] dst[i] == old_dst[i],
        ensures
            forall|i: int| 0 <= i < src.cap() ==> #[trigger] self.view(dst)[i] == src.view(src_mem)[i],
            forall|i: int|
                src.cap() <= i < self.cap() ==> #[trigger] self.view(dst)[i] == if i < src.words() * 32 {
                    false
                } else {
                    self.view(old_dst)[i]
                },
    {
        assert forall|i: int| 0 <= i < src.cap() implies #[trigger] self.view(dst)[i] == src.view(src_mem)[i] by {
            assert(i / 32 < src.word_count);
            assert(dst[self.start() + i / 32] == src_mem[src.start() + i / 32]);
        }
        assert forall|i: int| src.cap() <= i < self.cap() implies #[trigger] self.view(dst)[i] == if i < src.words() * 32 {
            false
        } else {
            self.view(old_dst)[i]
        } by {
            if i < src.words() * 32 {
                assert(i / 32 < src.word_count);
                assert(dst[self.start() + i / 32] == src_mem[src.start() + i / 32]);
                assert(!word_bit(src_mem[src.start() + i / 32], (i % 32) as u32));
            } else {
                assert(i / 32 >= src.word_count);
                assert(self.start() + i / 32 < self.end());
            }
        }
    }

    /// Zeroed words hold no flags and no padding bits.
    pub proof fn lemma_zero_clean(&self, mem: Seq<i32>)
        requires
            self.valid(mem),
            forall|i: int| self.start() <= i < self.end() ==> #[trigger] mem[i] == 0,
        ensures
            self.clean(mem),
            forall|i: int| 0 <= i < self.cap() ==> !#[trigger] self.view(mem)[i],
    {
        assert forall|j: int| self.capacity <= j < self.word_count * 32 implies !word_bit(
            #[trigger] mem[self.mem_start_offset + j / 32],
            (j % 32) as u32,
        ) by {
            lemma_word_bit_zero((j % 32) as u32);
        }
        assert forall|j: int| 0 <= j < self.cap() implies !#[trigger] self.view(mem)[j] by {
            lemma_word_bit_zero((j % 32) as u32);
            assert(mem[self.mem_start_offset + j / 32] == 0);
        }
    }

    /// The flags and their cleanliness depend only on the bitmap's own words.
    pub proof fn lemma_frame(&self, m1: Seq<i32>, m2: Seq<i32>)
        requires
            self.valid(m1),
            self.valid(m2),
            forall|i: int| self.start() <= i < self.end() ==> #[trigger] m2[i] == m1[i],
        ensures
            self.view(m2) == self.view(m1),
            self.clean(m1) ==> self.clean(m2),
    {
        assert forall|j: int| 0 <= j < self.cap() implies #[trigger] self.view(m2)[j] == self.view(m1)[j] by {
            assert(m2[self.mem_start_offset + j / 32] == m1[self.mem_start_offset + j / 32]);
        }
        assert(self.view(m2) =~= self.view(m1));
        if self.clean(m1) {
            assert forall|j: int| self.capacity <= j < self.word_count * 32 implies !word_bit(
                #[trigger] m2[self.mem_start_offset + j / 32],
                (j % 32) as u32,
            ) by {
                assert(m2[self.mem_start_offset + j / 32] == m1[self.mem_start_offset + j / 32]);
            }
        }
    }

    pub fn new(mem: &mut AtomicBuffer, mem_start_offset: usize, capacity: u32) -> (b: Self)
        requires
            is_pow2_u32(capacity),
            mem_start_offset + bitmap_words(capacity as int) <= old(mem)@.len(),
        ensures
            b.wf(),
            b.valid(final(mem)@),
            b.start() == mem_start_offset,
            b.cap() == capacity,
            b.clean(final(mem)@),
            forall|i: int| 0 <= i < b.cap() ==> !#[trigger] b.view(final(mem)@)[i],
            forall|i: int| b.start() <= i < b.end() ==> #[trigger] final(mem)@[i] == 0,
            unchanged_outside(old(mem)@, final(mem)@, b.start(), b.end()),
    {
        let _len = mem.len();
        Self::create(mem, mem_start_offset, capacity, false)
    }

    pub fn bind(mem: &AtomicBuffer, mem_start_offset: usize, capacity: u32) -> (b: Self)
        requires
            is_pow2_u32(capacity),
            mem_start_offset + bitmap_words(capacity as int) <= usize::MAX,
        ensures
            b.wf(),
            b.start() == mem_start_offset,
            b.cap() == capacity,
    {
        Self::layout(mem_start_offset, capacity)
    }

    pub(crate) fn layout(mem_start_offset: usize, capacity: u32) -> (b: Self)
        requires
            is_pow2_u32(capacity),
            mem_start_offset + bitmap_words(capacity as int) <= usize::MAX,
        ensures
            b.wf(),
            b.start() == mem_start_offset,
            b.cap() == capacity,
    {
        proof {
            lemma_pow2_bound(capacity);
        }
        let word_count = Self::calculate_size_on_mem(capacity as usize);
        let mem_end_offset = mem_start_offset + word_count;
        Bitmap { mem_start_offset, mem_end_offset, capacity: capacity as usize, word_count }
    }

    pub fn create(mem: &mut AtomicBuffer, mem_start_offset: usize, capacity: u32, bind: bool) -> (b: Self)
        requires
            is_pow2_u32(capacity),
            mem_start_offset + bitmap_words(capacity as int) <= usize::MAX,
            !bind ==> mem_start_offset + bitmap_words(capacity as int) <= old(mem)@.len(),
        ensures
            b.wf(),
            b.start() == mem_start_offset,
            b.cap() == capacity,
            bind ==> final(mem)@ == old(mem)@,
            !bind ==> {
                &&& b.valid(final(mem)@)
                &&& b.clean(final(mem)@)
                &&& (forall|i: int| 0 <= i < b.cap() ==> !#[trigger] b.view(final(mem)@)[i])
                &&& (forall|i: int| b.start() <= i < b.end() ==> #[trigger] final(mem)@[i] == 0)
                &&& unchanged_outside(old(mem)@, final(mem)@, b.start(), b.end())
            },
    {
        let b = Self::layout(mem_start_offset, capacity);
        if !bind {
            let end = b.mem_end_offset;
            let mut i = mem_start_offset;
            while i < end
                invariant
                    mem_start_offset <= i <= end,
                    end <= mem@.len(),
                    unchanged_outside(old(mem)@, mem@, mem_start_offset as int, i as int),
                    forall|j: int| mem_start_offset <= j < i ==> #[trigger] mem@[j] == 0,
                decreases end - i,
            {
                mem.set(i, 0);
                i = i + 1;
            }
            proof {
                assert forall|j: int| 0 <= j < b.cap() implies !#[trigger] b.view(mem@)[j] by {
                    lemma_word_bit_zero((j % 32) as u32);
                    assert(mem@[mem_start_offset + j / 32] == 0);
                }
                assert forall|j: int| b.capacity <= j < b.word_count * 32 implies !word_bit(
                    #[trigger] mem@[b.mem_start_offset + j / 32],
                    (j % 32) as u32,
                ) by {
                    lemma_word_bit_zero((j % 32) as u32);
                }
            }
        }
        b
    }

    pub fn calculate_size_on_mem(capacity: usize) -> (r: usize)
        requires
            capacity + 31 <= usize::MAX,
        ensures
            r == bitmap_words(capacity as int),
    {
        (capacity + 31) / 32
    }

    pub fn mem_start_offset(&self) -> (r: usize)
        ensures
            r == self.start(),
    {
        self.mem_start_offset
    }

    pub fn mem_end_offset(&self) -> (r: usize)
        ensures
            r == self.end(),
    {
        self.mem_end_offset
    }

    pub fn capacity(&self) -> (r: usize)
        ensures
            r == self.cap(),
    {
        self.capacity
    }

    pub fn word_count(&self) -> (r: usize)
        ensures
            r == self.words(),
    {
        self.word_count
    }

    pub fn is_off(&self, mem: &AtomicBuffer, bit_offset: usize) -> (r: bool)
        requires
            self.valid(mem@),
            bit_offset < self.cap(),
        ensures
            r == !self.view(mem@)[bit_offset as int],
    {
        proof {
            lemma_split_index(bit_offset);
        }
        let bitmask = mem[self.mem_start_offset + (bit_offset >> 5)];
        let k = (bit_offset & 31) as u32;
        bitmask & (1i32 << k) == 0
    }

    pub fn is_on(&self, mem: &AtomicBuffer, bit_offset: usize) -> (r: bool)
        requires
            self.valid(mem@),
            bit_offset < self.cap(),
        ensures
            r == self.view(mem@)[bit_offset as int],
    {
        !self.is_off(mem, bit_offset)
    }

    pub fn on(&self, mem: &mut AtomicBuffer, bit_offset: usize)
        requires
            self.valid(old(mem)@),
            bit_offset < self.cap(),
        ensures
            final(mem)@ == old(mem)@.update(
                self.start() + bit_offset / 32,
                old(mem)@[self.start() + bit_offset / 32] | (1i32 << ((bit_offset % 32) as u32)),
            ),
            self.view(final(mem)@) == self.view(old(mem)@).update(bit_offset as int, true),
            self.clean(old(mem)@) ==> self.clean(final(mem)@),
            unchanged_outside(old(mem)@, final(mem)@, self.start(), self.end()),
    {
        proof {
            lemma_split_index(bit_offset);
        }
        let idx = self.mem_start_offset + (bit_offset >> 5);
        let k = (bit_offset & 31) as u32;
        let w = mem[idx];
        mem.set(idx, w | (1i32 << k));
        proof {
            let old_m = old(mem)@;
            let new_m = mem@;
            assert forall|i: int| 0 <= i < self.cap() implies #[trigger] self.view(new_m)[i]
                == self.view(old_m).update(bit_offset as int, true)[i] by {
                if i / 32 == bit_offset / 32 {
                    lemma_word_bit_or(w, k, (i % 32) as u32);
                }
            }
            assert(self.view(new_m) =~= self.view(old_m).update(bit_offset as int, true));
            if self.clean(old_m) {
                assert forall|j: int| self.capacity <= j < self.word_count * 32 implies !word_bit(
                    #[trigger] new_m[self.mem_start_offset + j / 32],
                    (j % 32) as u32,
                ) by {
                    if j / 32 == bit_offset / 32 {
                        lemma_word_bit_or(w, k, (j % 32) as u32);
                        assert(!word_bit(old_m[self.mem_start_offset + j / 32], (j % 32) as u32));
                    }
                }
            }
        }
    }

    pub fn off(&self, mem: &mut AtomicBuffer, bit_offset: usize)
        requires
            self.valid(old(mem)@),
            bit_offset < self.cap(),
        ensures
            final(mem)@ == old(mem)@.update(
                self.start() + bit_offset / 32,
                old(mem)@[self.start() + bit_offset / 32] & !(1i32 << ((bit_offset % 32) as u32)),
            ),
            self.view(final(mem)@) == self.view(old(mem)@).update(bit_offset as int, false),
            self.clean(old(mem)@) ==> self.clean(final(mem)@),
            unchanged_outside(old(mem)@, final(mem)@, self.start(), self.end()),
    {
        proof {
            lemma_split_index(bit_offset);
        }
        let idx = self.mem_start_offset + (bit_offset >> 5);
        let k = (bit_offset & 31) as u32;
        let w = mem[idx];
        mem.set(idx, w & !(1i32 << k));
        proof {
            let old_m = old(mem)@;
            let new_m = mem@;
            assert forall|i: int| 0 <= i < self.cap() implies #[trigger] self.view(new_m)[i]
                == self.view(old_m).update(bit_offset as int, false)[i] by {
                if i / 32 == bit_offset / 32 {
                    lemma_word_bit_and_not(w, k, (i % 32) as u32);
                }
            }
            assert(self.view(new_m) =~= self.view(old_m).update(bit_offset as int, false));
            if self.clean(old_m) {
                assert forall|j: int| self.capacity <= j < self.word_count * 32 implies !word_bit(
                    #[trigger] new_m[self.mem_start_offset + j / 32],
                    (j % 32) as u32,
                ) by {
                    if j / 32 == bit_offset / 32 {
                        lemma_word_bit_and_not(w, k, (j % 32) as u32);
                        assert(!word_bit(old_m[self.mem_start_offset + j / 32], (j % 32) as u32));
                    }
                }
            }
        }
    }

    pub fn clear(&self, mem: &mut AtomicBuffer)
        requires
            self.valid(old(mem)@),
        ensures
            forall|i: int| 0 <= i < self.cap() ==> !#[trigger] self.view(final(mem)@)[i],
            forall|i: int| self.start() <= i < self.end() ==> #[trigger] final(mem)@[i] == 0,
            self.clean(final(mem)@),
            unchanged_outside(old(mem)@, final(mem)@, self.start(), self.end()),
    {
        let end = self.mem_end_offset;
        let mut i = self.mem_start_offset;
        while i < end
            invariant
                self.mem_start_offset <= i <= end,
                end == self.mem_end_offset,
                end <= mem@.len(),
                unchanged_outside(old(mem)@, mem@, self.mem_start_offset as int, i as int),
                forall|j: int| self.mem_start_offset <= j < i ==> #[trigger] mem@[j] == 0,
            decreases end - i,
        {
            mem.set(i, 0);
            i = i + 1;
        }
        proof {
            assert forall|j: int| 0 <= j < self.cap() implies !#[trigger] self.view(mem@)[j] by {
                lemma_word_bit_zero((j % 32) as u32);
                assert(mem@[self.mem_start_offset + j / 32] == 0);
            }
            assert forall|j: int| self.capacity <= j < self.word_count * 32 implies !word_bit(
                #[trigger] mem@[self.mem_start_offset + j / 32],
                (j % 32) as u32,
            ) by {
                lemma_word_bit_zero((j % 32) as u32);
            }
        }
    }

    /// Copies the words of `source` (on `source_mem`) over the first words of
    /// this bitmap.
    pub fn copy_from(&self, mem: &mut AtomicBuffer, source: &Bitmap, source_mem: &AtomicBuffer)
        requires
            self.valid(old(mem)@),
            source.valid(source_mem@),
            source.cap() <= self.cap(),
        ensures
            forall|k: int|
                0 <= k < source.words() ==> #[trigger] final(mem)@[self.start() + k]
                    == source_mem@[source.start() + k],
            unchanged_outside(old(mem)@, final(mem)@, self.start(), self.start() + source.words()),
            source.clean(source_mem@) && self.clean(old(mem)@) ==> self.clean(final(mem)@),
            forall|i: int| 0 <= i < source.cap() ==> #[trigger] self.view(final(mem)@)[i] == source.view(source_mem@)[i],
            source.clean(source_mem@) ==> forall|i: int|
                source.cap() <= i < self.cap() ==> #[trigger] self.view(final(mem)@)[i] == if i < source.words() * 32 {
                    false
                } else {
                    self.view(old(mem)@)[i]
                },
    {
        proof {
            self.lemma_layout();
            source.lemma_layout();
        }
        let n = source.word_count;
        let mut i: usize = 0;
        while i < n
            invariant
                n == source.words(),
                n <= self.words(),
                self.valid(old(mem)@),
                source.valid(source_mem@),
                i <= n,
                unchanged_outside(old(mem)@, mem@, self.start(), self.start() + i),
                forall|k: int|
                    0 <= k < i ==> #[trigger] mem@[self.start() + k] == source_mem@[source.start()
                        + k],
            decreases n - i,
        {
            let v = source_mem[source.mem_start_offset + i];
            mem.set(self.mem_start_offset + i, v);
            i = i + 1;
        }
        proof {
            assert forall|i: int| 0 <= i < source.cap() implies #[trigger] self.view(mem@)[i] == source.view(source_mem@)[i] by {
                assert(i / 32 < source.word_count);
                assert(mem@[self.start() + i / 32] == source_mem@[source.start() + i / 32]);
            }
            if source.clean(source_mem@) {
                self.lemma_view_after_copy(*source, old(mem)@, mem@, source_mem@);
                if self.clean(old(mem)@) {
                    let m = mem@;
                    let om = old(mem)@;
                    let sm = source_mem@;
                    assert forall|j: int| self.capacity <= j < self.word_count * 32 implies !word_bit(
                        #[trigger] m[self.mem_start_offset + j / 32],
                        (j % 32) as u32,
                    ) by {
                        if j / 32 < source.word_count {
                            assert(m[self.mem_start_offset + j / 32] == sm[source.mem_start_offset + j / 32]);
                            assert(j >= source.capacity);
                        } else {
                            assert(m[self.mem_start_offset + j / 32] == om[self.mem_start_offset + j / 32]);
                        }
                    }
                }
            }
        }
    }
}

} // verus!
