use vstd::prelude::*;

verus! {

/// The flat memory plane shared by all views: a sequence of `i32` cells.
pub type AtomicBuffer = Vec<i32>;

/// `new` equals `old` except possibly on the cells `lo <= i < hi`.
pub open spec fn unchanged_outside(old: Seq<i32>, new: Seq<i32>, lo: int, hi: int) -> bool {
    &&& new.len() == old.len()
    &&& forall|i: int| 0 <= i < old.len() && !(lo <= i < hi) ==> #[trigger] new[i] == old[i]
}

pub proof fn lemma_unchanged_widen(a: Seq<i32>, b: Seq<i32>, lo: int, hi: int, lo2: int, hi2: int)
    requires
        unchanged_outside(a, b, lo, hi),
        lo2 <= lo,
        hi <= hi2,
    ensures
        unchanged_outside(a, b, lo2, hi2),
{
}

pub proof fn lemma_unchanged_trans(a: Seq<i32>, b: Seq<i32>, c: Seq<i32>, lo: int, hi: int)
    requires
        unchanged_outside(a, b, lo, hi),
        unchanged_outside(b, c, lo, hi),
    ensures
        unchanged_outside(a, c, lo, hi),
{
}

/// A `u32` that is a power of two.
pub open spec fn is_pow2_u32(c: u32) -> bool {
    c > 0 && c & ((c - 1) as u32) == 0
}

pub proof fn lemma_pow2_bound(c: u32)
    requires
        is_pow2_u32(c),
    ensures
        c <= 0x8000_0000,
{
    let d = (c - 1) as u32;
    assert(c <= 0x8000_0000) by (bit_vector)
        requires
            c > 0,
            d == c - 1,
            c & d == 0,
    ;
}

/// The `count` cells of `mem` starting at `start`.
pub open spec fn cells(mem: Seq<i32>, start: int, count: int) -> Seq<i32> {
    Seq::new(count as nat, |i: int| mem[start + i])
}

/// `mem` with `data` written from cell `base` on.
pub open spec fn write_cells(mem: Seq<i32>, base: int, data: Seq<i32>) -> Seq<i32> {
    Seq::new(
        mem.len(),
        |i: int|
            if base <= i < base + data.len() {
                data[i - base]
            } else {
                mem[i]
            },
    )
}

/// Checks that `c` is a positive power of two, as every capacity must be.
pub fn check_pow2(c: u32) -> (r: bool)
    ensures
        r == is_pow2_u32(c),
{
    c > 0 && c & (c - 1) == 0
}


/// `n` distinct integers drawn from `[0, n)` cover all of `[0, n)`.
pub proof fn lemma_distinct_cover(ids: Seq<int>, n: int)
    requires
        ids.len() == n,
        ids.no_duplicates(),
        forall|i: int| 0 <= i < n ==> 0 <= #[trigger] ids[i] < n,
    ensures
        forall|k: int| 0 <= k < n ==> #[trigger] ids.contains(k),
{
    ids.unique_seq_to_set();
    vstd::set_lib::lemma_int_range(0, n);
    let r = vstd::set_lib::set_int_range(0, n);
    assert forall|v: int| ids.to_set().contains(v) implies r.contains(v) by {
        let i = choose|i: int| 0 <= i < ids.len() && ids[i] == v;
        assert(0 <= ids[i] < n);
    }
    vstd::set_lib::lemma_subset_equality(ids.to_set(), r);
    assert forall|k: int| 0 <= k < n implies #[trigger] ids.contains(k) by {
        assert(r.contains(k));
        assert(ids.to_set().contains(k));
    }
}


/// Writing a run of cells changes nothing outside it.
pub proof fn lemma_write_cells_unchanged(mem: Seq<i32>, base: int, data: Seq<i32>)
    ensures
        unchanged_outside(mem, write_cells(mem, base, data), base, base + data.len()),
{
}

} // verus!
