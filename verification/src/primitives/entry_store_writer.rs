use crate::errors::slot_allocator_error::SlotAllocatorError;
use crate::primitives::entry_handle::EntryHandle;
use crate::primitives::entry_store_config::{EntryStoreConfig, entry_mem_size, entry_tb_size};
use crate::primitives::entry_store_reader::EntryStoreReader;
use crate::primitives::entry_writer::EntryWriter;
use crate::primitives::mem_zone_writer::MemZoneWriter;
use crate::primitives::simple_free_list::int_seq;
use crate::primitives::slot::SlotId;
use crate::primitives::slot_allocator::{SlotAllocator, slot_allocator_size};
use crate::primitives::tb_zone_view::TbZoneView;
use crate::primitives::tb_zone_writer::TbZoneWriter;
use crate::primitives::triple_buffer_writer::{TripleBufferWriter, tb_after_publish, tb_base, tb_in_region, tb_inv, tb_shared_id, tb_writer_id};
use crate::primitives::types::{AtomicBuffer, cells, is_pow2_u32, unchanged_outside, write_cells};
use vstd::prelude::*;

verus! {

/// `n` zero cells.
pub open spec fn zeros(n: int) -> Seq<i32> {
    Seq::new(n as nat, |i: int| 0i32)
}

/// `v` with cell `k` of entry `i` replaced by `val`.
pub open spec fn set_cell(v: Seq<Seq<i32>>, i: int, k: int, val: i32) -> Seq<Seq<i32>> {
    v.update(i, v[i].update(k, val))
}

pub proof fn lemma_block_cells(a: int, b: int, s: int, i: int, j: int)
    requires
        0 <= a,
        0 <= b,
        a != b,
        0 <= i < s,
        0 <= j < s,
    ensures
        a * s + i != b * s + j,
{
    if a < b {
        assert(a * s + s <= b * s) by (nonlinear_arith)
            requires
                a < b,
                0 <= s,
        ;
    } else {
        assert(b * s + s <= a * s) by (nonlinear_arith)
            requires
                b < a,
                0 <= s,
        ;
    }
}

pub proof fn lemma_block_disjoint(a: int, i: int, s: int, t: int)
    requires
        0 <= a,
        0 <= i,
        a != i,
        0 <= t < s,
    ensures
        !(i * s <= a * s + t < i * s + s),
{
    if a < i {
        assert(a * s + s <= i * s) by (nonlinear_arith)
            requires
                a < i,
                0 <= s,
        ;
    } else {
        assert(i * s + s <= a * s) by (nonlinear_arith)
            requires
                i < a,
                0 <= s,
        ;
    }
}

pub proof fn lemma_block_in_region(a: int, cap: int, s: int)
    requires
        0 <= a < cap,
        0 <= s,
    ensures
        0 <= a * s,
        a * s + s <= cap * s,
{
    assert(a * s + s <= cap * s) by (nonlinear_arith)
        requires
            a < cap,
            0 <= s,
    ;
    assert(0 <= a * s) by (nonlinear_arith)
        requires
            0 <= a,
            0 <= s,
    ;
}

/// Producer side of an entity store: a slot allocator on the memory plane,
/// per-slot `core` and `meta` zones on a triple buffer, and per-slot `attr`
/// zones on the memory plane.
///
/// # Memory Layout (MEM plane)
/// ```text
/// Order       Segment             Size
/// -------------------------------------
/// 1           Slot Allocator      SlotAllocator::calculate_size_on_mem()
/// 2           Attributes          capacity * attr_stride
/// ```
///
/// # Memory Layout (TB plane)
/// ```text
/// Offset      Size                    Field
/// -------------------------------------
/// 0           C * (core + meta)       entries (core + meta per slot)
/// ```
#[derive(Clone, Copy)]
pub struct EntryStoreWriter {
    tb: TripleBufferWriter,
    allocator: SlotAllocator,
    config: EntryStoreConfig,
    mem_start_offset: usize,
    mem_attrs_start_offset: usize,
    mem_end_offset: usize,
    tb_start_offset: usize,
    tb_end_offset: usize,
}

impl EntryStoreWriter {
    pub closed spec fn buffer(&self) -> TripleBufferWriter {
        self.tb
    }

    pub closed spec fn slots(&self) -> SlotAllocator {
        self.allocator
    }

    pub closed spec fn cfg(&self) -> EntryStoreConfig {
        self.config
    }

    pub closed spec fn start(&self) -> int {
        self.mem_start_offset as int
    }

    pub closed spec fn attrs_start(&self) -> int {
        self.mem_attrs_start_offset as int
    }

    pub closed spec fn end(&self) -> int {
        self.mem_end_offset as int
    }

    pub closed spec fn tb_start(&self) -> int {
        self.tb_start_offset as int
    }

    pub closed spec fn tb_end(&self) -> int {
        self.tb_end_offset as int
    }

    pub open spec fn cap(&self) -> int {
        self.cfg().capacity as int
    }

    /// Cells per slot on the triple buffer.
    pub open spec fn block(&self) -> int {
        self.cfg().core_stride + self.cfg().meta_stride
    }

    pub closed spec fn wf(&self) -> bool {
        &&& self.allocator.wf()
        &&& self.allocator.start() == self.mem_start_offset
        &&& self.allocator.cap() == self.config.capacity
        &&& self.mem_attrs_start_offset == self.allocator.end()
        &&& self.mem_end_offset == self.mem_start_offset + entry_mem_size(
            self.config.capacity as int,
            self.config.attr_stride as int,
        )
        &&& self.tb.wf()
        &&& self.tb_end_offset == self.tb_start_offset + entry_tb_size(
            self.config.capacity as int,
            self.config.core_stride as int,
            self.config.meta_stride as int,
        )
        &&& self.tb_end_offset <= self.tb.cap()
        &&& self.config.core_stride + self.config.meta_stride <= usize::MAX
        &&& (self.tb.end() <= self.mem_start_offset || self.mem_end_offset <= self.tb.start())
    }

    /// The store's regions lie inside `mem`.
    pub open spec fn valid(&self, mem: Seq<i32>) -> bool {
        &&& self.wf()
        &&& self.end() <= mem.len()
        &&& self.buffer().end() <= mem.len()
    }

    /// The allocator and the triple buffer are consistent.
    pub open spec fn inv(&self, mem: Seq<i32>) -> bool {
        &&& self.slots().inv(mem)
        &&& tb_inv(mem, self.buffer().start())
    }

    /// Whether slot `s` (1-based) holds a live entry.
    pub open spec fn active(&self, mem: Seq<i32>, s: int) -> bool {
        self.slots().allocated(mem)[s - 1] && !self.slots().deferred(mem)[s - 1]
    }

    /// First cell (in the writer buffer) of the block of slot index `i` (0-based).
    pub open spec fn block_base(&self, mem: Seq<i32>, i: int) -> int {
        self.buffer().writer_base(mem) + self.tb_start() + i * self.block()
    }

    /// The core zones of all slots (index `s - 1` for slot `s`) in the writer buffer.
    pub open spec fn core_view(&self, mem: Seq<i32>) -> Seq<Seq<i32>> {
        Seq::new(
            self.cap() as nat,
            |i: int| cells(mem, self.block_base(mem, i), self.cfg().core_stride as int),
        )
    }

    /// The meta zones of all slots in the writer buffer.
    pub open spec fn meta_view(&self, mem: Seq<i32>) -> Seq<Seq<i32>> {
        Seq::new(
            self.cap() as nat,
            |i: int|
                cells(
                    mem,
                    self.block_base(mem, i) + self.cfg().core_stride,
                    self.cfg().meta_stride as int,
                ),
        )
    }

    /// First cell of the attribute zone of slot index `i`.
    pub open spec fn attr_base(&self, i: int) -> int {
        self.attrs_start() + i * self.cfg().attr_stride
    }

    /// The attribute zones of all slots on the memory plane.
    pub open spec fn attr_view(&self, mem: Seq<i32>) -> Seq<Seq<i32>> {
        Seq::new(
            self.cap() as nat,
            |i: int| cells(mem, self.attr_base(i), self.cfg().attr_stride as int),
        )
    }

    /// Cells outside the store's memory region and its block region in the
    /// writer buffer are unchanged, and so are the triple buffer's control cells.
    pub open spec fn frame(&self, old: Seq<i32>, new: Seq<i32>) -> bool {
        &&& new.len() == old.len()
        &&& forall|j: int|
            0 <= j < old.len() && !(self.start() <= j < self.end()) && !(self.block_base(old, 0) <= j
                < self.block_base(old, 0) + self.cap() * self.block()) ==> #[trigger] new[j] == old[j]
        &&& forall|j: int| self.buffer().start() <= j < self.buffer().start() + 4 ==> #[trigger] new[j] == old[j]
    }

    pub proof fn lemma_wf(&self)
        requires
            self.wf(),
        ensures
            self.slots().wf(),
            self.slots().start() == self.start(),
            self.slots().cap() == self.cap(),
            self.slots().end() == self.attrs_start(),
            self.attrs_start() + self.cap() * self.cfg().attr_stride == self.end(),
            self.buffer().wf(),
            self.tb_end() == self.tb_start() + self.cap() * self.block(),
            self.tb_end() <= self.buffer().cap(),
            self.buffer().end() <= self.start() || self.end() <= self.buffer().start(),
            self.buffer().end() == self.buffer().start() + 4 + 3 * self.buffer().cap(),
            self.cap() > 0,
            self.cap() <= 0x4000_0000,
            self.block() <= usize::MAX,
            self.attrs_start() <= self.end(),
            self.start() < self.attrs_start(),
            self.tb_start() <= self.tb_end(),
            0 <= self.buffer().start(),
            0 <= self.start(),
            0 <= self.tb_start(),
    {
        self.allocator.lemma_wf();
        self.tb.lemma_layout();
        assert(0 <= self.cap() * self.cfg().attr_stride) by (nonlinear_arith)
            requires
                0 <= self.cap(),
                0 <= self.cfg().attr_stride,
        ;
        assert(0 <= self.cap() * self.block()) by (nonlinear_arith)
            requires
                0 <= self.cap(),
                0 <= self.block(),
        ;
    }

    /// Every cell of a block lies in the writer buffer, past the control cells.
    pub proof fn lemma_block_cell_range(&self, mem: Seq<i32>, a: int, t: int)
        requires
            self.valid(mem),
            tb_inv(mem, self.buffer().start()),
            0 <= a < self.cap(),
            0 <= t < self.block(),
        ensures
            self.buffer().start() + 4 <= self.block_base(mem, a) + t < self.buffer().end(),
            self.buffer().start() + 4 <= self.buffer().writer_base(mem),
            self.buffer().writer_base(mem) + self.buffer().cap() <= self.buffer().end(),
    {
        self.lemma_wf();
        lemma_block_in_region(a, self.cap(), self.block());
    }

    /// Publishing the triple buffer hands the writer a copy of its own buffer:
    /// the store's views and its memory region read the same afterwards.
    pub proof fn lemma_tb_publish_views(&self, m: Seq<i32>)
        requires
            self.valid(m),
            tb_inv(m, self.buffer().start()),
        ensures
            ({
                let m2 = tb_after_publish(m, self.buffer().start(), self.buffer().cap());
                &&& self.core_view(m2) == self.core_view(m)
                &&& self.meta_view(m2) == self.meta_view(m)
                &&& self.attr_view(m2) == self.attr_view(m)
                &&& forall|j: int| self.start() <= j < self.end() ==> #[trigger] m2[j] == m[j]
            }),
    {
        self.lemma_wf();
        let b = self.buffer();
        b.lemma_layout();
        let m2 = tb_after_publish(m, b.start(), b.cap());
        let cb = b.writer_base(m);
        let nb = b.writer_base(m2);
        assert(nb == tb_base(b.start(), b.cap(), tb_shared_id(m, b.start())));
        assert forall|off: int| 0 <= off < b.cap() implies #[trigger] m2[nb + off] == m[cb + off] by {
        }
        assert forall|i: int| 0 <= i < self.cap() implies #[trigger] self.core_view(m2)[i] == self.core_view(m)[i] by {
            lemma_block_in_region(i, self.cap(), self.block());
            let a2 = cells(m2, self.block_base(m2, i), self.cfg().core_stride as int);
            let a1 = cells(m, self.block_base(m, i), self.cfg().core_stride as int);
            assert forall|t: int| 0 <= t < self.cfg().core_stride implies #[trigger] a2[t] == a1[t] by {
                let off = self.tb_start() + i * self.block() + t;
                assert(m2[nb + off] == m[cb + off]);
            }
            assert(a2 =~= a1);
        }
        assert forall|i: int| 0 <= i < self.cap() implies #[trigger] self.meta_view(m2)[i] == self.meta_view(m)[i] by {
            lemma_block_in_region(i, self.cap(), self.block());
            let a2 = cells(m2, self.block_base(m2, i) + self.cfg().core_stride, self.cfg().meta_stride as int);
            let a1 = cells(m, self.block_base(m, i) + self.cfg().core_stride, self.cfg().meta_stride as int);
            assert forall|t: int| 0 <= t < self.cfg().meta_stride implies #[trigger] a2[t] == a1[t] by {
                let off = self.tb_start() + i * self.block() + self.cfg().core_stride + t;
                assert(m2[nb + off] == m[cb + off]);
            }
            assert(a2 =~= a1);
        }
        assert(self.core_view(m2) =~= self.core_view(m));
        assert(self.meta_view(m2) =~= self.meta_view(m));
        assert forall|i: int| 0 <= i < self.cap() implies #[trigger] self.attr_view(m2)[i] == self.attr_view(m)[i] by {
            let a2 = cells(m2, self.attr_base(i), self.cfg().attr_stride as int);
            let a1 = cells(m, self.attr_base(i), self.cfg().attr_stride as int);
            assert forall|t: int| 0 <= t < self.cfg().attr_stride implies #[trigger] a2[t] == a1[t] by {
                self.lemma_attr_cell_range(i, t);
            }
            assert(a2 =~= a1);
        }
        assert(self.attr_view(m2) =~= self.attr_view(m));
    }

    /// Every cell of an attribute zone lies in the store's attribute region.
    pub proof fn lemma_attr_cell_range(&self, a: int, t: int)
        requires
            self.wf(),
            0 <= a < self.cap(),
            0 <= t < self.cfg().attr_stride,
        ensures
            self.attrs_start() <= self.attr_base(a) + t < self.end(),
    {
        self.lemma_wf();
        lemma_block_in_region(a, self.cap(), self.cfg().attr_stride as int);
    }

    /// Writing one cell of the writer buffer inside the block region moves
    /// exactly one cell of one view.
    pub proof fn lemma_tb_write(&self, mem: Seq<i32>, i: int, k: int, v: i32)
        requires
            self.valid(mem),
            self.inv(mem),
            0 <= i < self.cap(),
            0 <= k < self.block(),
        ensures
            ({
                let m2 = mem.update(self.block_base(mem, i) + k, v);
                &&& self.valid(m2)
                &&& self.inv(m2)
                &&& self.buffer().writer_base(m2) == self.buffer().writer_base(mem)
                &&& self.slots().allocated(m2) == self.slots().allocated(mem)
                &&& self.slots().deferred(m2) == self.slots().deferred(mem)
                &&& self.slots().free_order(m2) == self.slots().free_order(mem)
                &&& self.slots().entries(m2) == self.slots().entries(mem)
                &&& self.attr_view(m2) == self.attr_view(mem)
                &&& (k < self.cfg().core_stride ==> self.core_view(m2) == set_cell(
                    self.core_view(mem),
                    i,
                    k,
                    v,
                ))
                &&& (k < self.cfg().core_stride ==> self.meta_view(m2) == self.meta_view(mem))
                &&& (k >= self.cfg().core_stride ==> self.meta_view(m2) == set_cell(
                    self.meta_view(mem),
                    i,
                    k - self.cfg().core_stride,
                    v,
                ))
                &&& (k >= self.cfg().core_stride ==> self.core_view(m2) == self.core_view(mem))
                &&& self.frame(mem, m2)
            }),
    {
        self.lemma_wf();
        let m2 = mem.update(self.block_base(mem, i) + k, v);
        let cs = self.cfg().core_stride as int;
        let ms = self.cfg().meta_stride as int;
        let b = self.block();
        let wb = self.buffer().writer_base(mem);
        lemma_block_in_region(i, self.cap(), b);
        assert(self.cap() * b <= self.buffer().cap());
        let idx = self.block_base(mem, i) + k;
        self.lemma_block_cell_range(mem, i, k);
        assert(self.buffer().start() + 4 <= idx < self.buffer().end());
        self.slots().lemma_frame(mem, m2);
        assert(m2[self.buffer().start() + 0] == mem[self.buffer().start() + 0]);
        assert(m2[self.buffer().start() + 1] == mem[self.buffer().start() + 1]);
        assert(m2[self.buffer().start() + 2] == mem[self.buffer().start() + 2]);
        assert(m2[self.buffer().start() + 3] == mem[self.buffer().start() + 3]);
        assert(self.buffer().writer_base(m2) == wb);
        assert forall|a: int| 0 <= a < self.cap() implies #[trigger] self.attr_view(m2)[a] == self.attr_view(mem)[a] by {
            assert forall|t: int| 0 <= t < self.cfg().attr_stride implies #[trigger] m2[self.attr_base(a) + t] == mem[self.attr_base(a) + t] by {
                self.lemma_attr_cell_range(a, t);
            }
            assert(cells(m2, self.attr_base(a), self.cfg().attr_stride as int) =~= cells(mem, self.attr_base(a), self.cfg().attr_stride as int));
        }
        assert(self.attr_view(m2) =~= self.attr_view(mem));
        if k < cs {
            assert forall|a: int| 0 <= a < self.cap() implies #[trigger] self.core_view(m2)[a] == set_cell(self.core_view(mem), i, k, v)[a] by {
                if a != i {
                    assert forall|t: int| 0 <= t < cs implies #[trigger] m2[self.block_base(mem, a) + t] == mem[self.block_base(mem, a) + t] by {
                        lemma_block_cells(a, i, b, t, k);
                        self.lemma_block_cell_range(mem, a, t);
                    }
                    assert(cells(m2, self.block_base(m2, a), cs) =~= cells(mem, self.block_base(mem, a), cs));
                } else {
                    assert forall|t: int| 0 <= t < cs implies #[trigger] m2[self.block_base(mem, a) + t] == if t == k { v } else { mem[self.block_base(mem, a) + t] } by {
                        self.lemma_block_cell_range(mem, a, t);
                    }
                    assert(cells(m2, self.block_base(m2, a), cs) =~= cells(mem, self.block_base(mem, a), cs).update(k, v));
                }
            }
            assert(self.core_view(m2) =~= set_cell(self.core_view(mem), i, k, v));
            assert forall|a: int| 0 <= a < self.cap() implies #[trigger] self.meta_view(m2)[a] == self.meta_view(mem)[a] by {
                assert forall|t: int| 0 <= t < ms implies #[trigger] m2[self.block_base(mem, a) + cs + t] == mem[self.block_base(mem, a) + cs + t] by {
                    if a != i {
                        lemma_block_cells(a, i, b, cs + t, k);
                    }
                    self.lemma_block_cell_range(mem, a, cs + t);
                }
                assert(cells(m2, self.block_base(m2, a) + cs, ms) =~= cells(mem, self.block_base(mem, a) + cs, ms));
            }
            assert(self.meta_view(m2) =~= self.meta_view(mem));
        } else {
            assert forall|a: int| 0 <= a < self.cap() implies #[trigger] self.meta_view(m2)[a] == set_cell(self.meta_view(mem), i, k - cs, v)[a] by {
                if a != i {
                    assert forall|t: int| 0 <= t < ms implies #[trigger] m2[self.block_base(mem, a) + cs + t] == mem[self.block_base(mem, a) + cs + t] by {
                        lemma_block_cells(a, i, b, cs + t, k);
                        self.lemma_block_cell_range(mem, a, cs + t);
                    }
                    assert(cells(m2, self.block_base(m2, a) + cs, ms) =~= cells(mem, self.block_base(mem, a) + cs, ms));
                } else {
                    assert forall|t: int| 0 <= t < ms implies #[trigger] m2[self.block_base(mem, a) + cs + t] == if cs + t == k { v } else { mem[self.block_base(mem, a) + cs + t] } by {
                        self.lemma_block_cell_range(mem, a, cs + t);
                    }
                    assert(cells(m2, self.block_base(m2, a) + cs, ms) =~= cells(mem, self.block_base(mem, a) + cs, ms).update(k - cs, v));
                }
            }
            assert(self.meta_view(m2) =~= set_cell(self.meta_view(mem), i, k - cs, v));
            assert forall|a: int| 0 <= a < self.cap() implies #[trigger] self.core_view(m2)[a] == self.core_view(mem)[a] by {
                assert forall|t: int| 0 <= t < cs implies #[trigger] m2[self.block_base(mem, a) + t] == mem[self.block_base(mem, a) + t] by {
                    if a != i {
                        lemma_block_cells(a, i, b, t, k);
                    }
                    self.lemma_block_cell_range(mem, a, t);
                }
                assert(cells(m2, self.block_base(m2, a), cs) =~= cells(mem, self.block_base(mem, a), cs));
            }
            assert(self.core_view(m2) =~= self.core_view(mem));
        }
    }

    /// Writing one attribute cell moves exactly one cell of the attribute view.
    pub proof fn lemma_attr_write(&self, mem: Seq<i32>, i: int, k: int, v: i32)
        requires
            self.valid(mem),
            self.inv(mem),
            0 <= i < self.cap(),
            0 <= k < self.cfg().attr_stride,
        ensures
            ({
                let m2 = mem.update(self.attr_base(i) + k, v);
                &&& self.valid(m2)
                &&& self.inv(m2)
                &&& self.buffer().writer_base(m2) == self.buffer().writer_base(mem)
                &&& self.slots().allocated(m2) == self.slots().allocated(mem)
                &&& self.slots().deferred(m2) == self.slots().deferred(mem)
                &&& self.slots().free_order(m2) == self.slots().free_order(mem)
                &&& self.slots().entries(m2) == self.slots().entries(mem)
                &&& self.attr_view(m2) == set_cell(self.attr_view(mem), i, k, v)
                &&& self.core_view(m2) == self.core_view(mem)
                &&& self.meta_view(m2) == self.meta_view(mem)
                &&& self.frame(mem, m2)
            }),
    {
        self.lemma_wf();
        let m2 = mem.update(self.attr_base(i) + k, v);
        let a_s = self.cfg().attr_stride as int;
        lemma_block_in_region(i, self.cap(), a_s);
        let idx = self.attr_base(i) + k;
        assert(self.attrs_start() <= idx < self.end());
        self.slots().lemma_frame(mem, m2);
        let b = self.block();
        lemma_block_in_region(0, self.cap(), b);
        assert forall|a: int| 0 <= a < self.cap() implies #[trigger] self.attr_view(m2)[a] == set_cell(self.attr_view(mem), i, k, v)[a] by {
            if a != i {
                assert forall|t: int| 0 <= t < a_s implies #[trigger] m2[self.attr_base(a) + t] == mem[self.attr_base(a) + t] by {
                    lemma_block_cells(a, i, a_s, t, k);
                    self.lemma_attr_cell_range(a, t);
                }
                assert(cells(m2, self.attr_base(a), a_s) =~= cells(mem, self.attr_base(a), a_s));
            } else {
                assert(cells(m2, self.attr_base(a), a_s) =~= cells(mem, self.attr_base(a), a_s).update(k, v));
            }
        }
        assert(self.attr_view(m2) =~= set_cell(self.attr_view(mem), i, k, v));
        assert forall|a: int| 0 <= a < self.cap() implies #[trigger] self.core_view(m2)[a] == self.core_view(mem)[a] by {
            lemma_block_in_region(a, self.cap(), b);
            assert(cells(m2, self.block_base(m2, a), self.cfg().core_stride as int) =~= cells(mem, self.block_base(mem, a), self.cfg().core_stride as int));
        }
        assert(self.core_view(m2) =~= self.core_view(mem));
        assert forall|a: int| 0 <= a < self.cap() implies #[trigger] self.meta_view(m2)[a] == self.meta_view(mem)[a] by {
            lemma_block_in_region(a, self.cap(), b);
            assert(cells(m2, self.block_base(m2, a) + self.cfg().core_stride, self.cfg().meta_stride as int) =~= cells(mem, self.block_base(mem, a) + self.cfg().core_stride, self.cfg().meta_stride as int));
        }
        assert(self.meta_view(m2) =~= self.meta_view(mem));
    }
}


/// The views after zeroing the block of slot index `i`.
pub proof fn lemma_zero_block(w: EntryStoreWriter, mem: Seq<i32>, i: int)
    requires
        w.valid(mem),
        w.inv(mem),
        0 <= i < w.cap(),
    ensures
        ({
            let m2 = write_cells(mem, w.block_base(mem, i), zeros(w.block()));
            &&& w.valid(m2)
            &&& w.inv(m2)
            &&& w.buffer().writer_base(m2) == w.buffer().writer_base(mem)
            &&& w.slots().allocated(m2) == w.slots().allocated(mem)
            &&& w.slots().deferred(m2) == w.slots().deferred(mem)
            &&& w.slots().free_order(m2) == w.slots().free_order(mem)
            &&& w.slots().entries(m2) == w.slots().entries(mem)
            &&& w.slots().writer_gen(m2) == w.slots().writer_gen(mem)
            &&& w.slots().ack_gen(m2) == w.slots().ack_gen(mem)
            &&& w.attr_view(m2) == w.attr_view(mem)
            &&& w.core_view(m2) == w.core_view(mem).update(i, zeros(w.cfg().core_stride as int))
            &&& w.meta_view(m2) == w.meta_view(mem).update(i, zeros(w.cfg().meta_stride as int))
            &&& w.frame(mem, m2)
        }),
{
    w.lemma_wf();
    let bb = w.block_base(mem, i);
    let b = w.block();
    let cs = w.cfg().core_stride as int;
    let ms = w.cfg().meta_stride as int;
    let m2 = write_cells(mem, bb, zeros(b));
    lemma_block_in_region(i, w.cap(), b);
    lemma_block_in_region(0, w.cap(), b);
    assert(w.buffer().start() + 4 <= bb);
    assert(bb + b <= w.buffer().end());
    w.slots().lemma_frame(mem, m2);
    w.slots().lemma_gens_frame(mem, m2);
    assert(w.buffer().writer_base(m2) == w.buffer().writer_base(mem)) by {
        assert(m2[w.buffer().start() + 1] == mem[w.buffer().start() + 1]);
    }
    assert(tb_inv(m2, w.buffer().start())) by {
        assert(m2[w.buffer().start() + 0] == mem[w.buffer().start() + 0]);
        assert(m2[w.buffer().start() + 1] == mem[w.buffer().start() + 1]);
        assert(m2[w.buffer().start() + 2] == mem[w.buffer().start() + 2]);
        assert(m2[w.buffer().start() + 3] == mem[w.buffer().start() + 3]);
    }
    assert forall|a: int| 0 <= a < w.cap() implies #[trigger] w.attr_view(m2)[a] == w.attr_view(mem)[a] by {
        lemma_block_in_region(a, w.cap(), w.cfg().attr_stride as int);
        assert(cells(m2, w.attr_base(a), w.cfg().attr_stride as int) =~= cells(mem, w.attr_base(a), w.cfg().attr_stride as int));
    }
    assert(w.attr_view(m2) =~= w.attr_view(mem));
    assert forall|a: int| 0 <= a < w.cap() implies #[trigger] w.core_view(m2)[a] == w.core_view(mem).update(i, zeros(cs))[a] by {
        if a != i {
            assert forall|t: int| 0 <= t < cs implies #[trigger] m2[w.block_base(mem, a) + t] == mem[w.block_base(mem, a) + t] by {
                lemma_block_disjoint(a, i, b, t);
                w.lemma_block_cell_range(mem, a, t);
            }
            assert(cells(m2, w.block_base(m2, a), cs) =~= cells(mem, w.block_base(mem, a), cs));
        } else {
            assert(cells(m2, w.block_base(m2, a), cs) =~= zeros(cs));
        }
    }
    assert(w.core_view(m2) =~= w.core_view(mem).update(i, zeros(cs)));
    assert forall|a: int| 0 <= a < w.cap() implies #[trigger] w.meta_view(m2)[a] == w.meta_view(mem).update(i, zeros(ms))[a] by {
        if a != i {
            assert forall|t: int| 0 <= t < ms implies #[trigger] m2[w.block_base(mem, a) + cs + t] == mem[w.block_base(mem, a) + cs + t] by {
                lemma_block_disjoint(a, i, b, cs + t);
                w.lemma_block_cell_range(mem, a, cs + t);
            }
            assert(cells(m2, w.block_base(m2, a) + cs, ms) =~= cells(mem, w.block_base(mem, a) + cs, ms));
        } else {
            assert(cells(m2, w.block_base(m2, a) + cs, ms) =~= zeros(ms));
        }
    }
    assert(w.meta_view(m2) =~= w.meta_view(mem).update(i, zeros(ms)));
}

/// The views after zeroing the attribute zone of slot index `i`.
pub proof fn lemma_zero_attr(w: EntryStoreWriter, mem: Seq<i32>, i: int)
    requires
        w.valid(mem),
        w.inv(mem),
        0 <= i < w.cap(),
    ensures
        ({
            let m2 = write_cells(mem, w.attr_base(i), zeros(w.cfg().attr_stride as int));
            &&& w.valid(m2)
            &&& w.inv(m2)
            &&& w.buffer().writer_base(m2) == w.buffer().writer_base(mem)
            &&& w.slots().allocated(m2) == w.slots().allocated(mem)
            &&& w.slots().deferred(m2) == w.slots().deferred(mem)
            &&& w.slots().free_order(m2) == w.slots().free_order(mem)
            &&& w.slots().entries(m2) == w.slots().entries(mem)
            &&& w.slots().writer_gen(m2) == w.slots().writer_gen(mem)
            &&& w.slots().ack_gen(m2) == w.slots().ack_gen(mem)
            &&& w.attr_view(m2) == w.attr_view(mem).update(i, zeros(w.cfg().attr_stride as int))
            &&& w.core_view(m2) == w.core_view(mem)
            &&& w.meta_view(m2) == w.meta_view(mem)
            &&& w.frame(mem, m2)
        }),
{
    w.lemma_wf();
    let a_s = w.cfg().attr_stride as int;
    let ab = w.attr_base(i);
    let m2 = write_cells(mem, ab, zeros(a_s));
    lemma_block_in_region(i, w.cap(), a_s);
    let b = w.block();
    lemma_block_in_region(0, w.cap(), b);
    w.slots().lemma_frame(mem, m2);
    w.slots().lemma_gens_frame(mem, m2);
    assert(w.buffer().writer_base(m2) == w.buffer().writer_base(mem)) by {
        assert(m2[w.buffer().start() + 1] == mem[w.buffer().start() + 1]);
    }
    assert(tb_inv(m2, w.buffer().start())) by {
        assert(m2[w.buffer().start() + 0] == mem[w.buffer().start() + 0]);
        assert(m2[w.buffer().start() + 1] == mem[w.buffer().start() + 1]);
        assert(m2[w.buffer().start() + 2] == mem[w.buffer().start() + 2]);
        assert(m2[w.buffer().start() + 3] == mem[w.buffer().start() + 3]);
    }
    assert forall|a: int| 0 <= a < w.cap() implies #[trigger] w.attr_view(m2)[a] == w.attr_view(mem).update(i, zeros(a_s))[a] by {
        if a != i {
            assert forall|t: int| 0 <= t < a_s implies #[trigger] m2[w.attr_base(a) + t] == mem[w.attr_base(a) + t] by {
                lemma_block_disjoint(a, i, a_s, t);
                w.lemma_attr_cell_range(a, t);
            }
            assert(cells(m2, w.attr_base(a), a_s) =~= cells(mem, w.attr_base(a), a_s));
        } else {
            assert(cells(m2, w.attr_base(a), a_s) =~= zeros(a_s));
        }
    }
    assert(w.attr_view(m2) =~= w.attr_view(mem).update(i, zeros(a_s)));
    assert forall|a: int| 0 <= a < w.cap() implies #[trigger] w.core_view(m2)[a] == w.core_view(mem)[a] by {
        lemma_block_in_region(a, w.cap(), b);
        assert(cells(m2, w.block_base(m2, a), w.cfg().core_stride as int) =~= cells(mem, w.block_base(mem, a), w.cfg().core_stride as int));
    }
    assert(w.core_view(m2) =~= w.core_view(mem));
    assert forall|a: int| 0 <= a < w.cap() implies #[trigger] w.meta_view(m2)[a] == w.meta_view(mem)[a] by {
        lemma_block_in_region(a, w.cap(), b);
        assert(cells(m2, w.block_base(m2, a) + w.cfg().core_stride, w.cfg().meta_stride as int) =~= cells(mem, w.block_base(mem, a) + w.cfg().core_stride, w.cfg().meta_stride as int));
    }
    assert(w.meta_view(m2) =~= w.meta_view(mem));
}


/// A change confined to the allocator's cells leaves the buffer's control
/// cells and every zone view as they were.
pub proof fn lemma_slots_step(w: EntryStoreWriter, m1: Seq<i32>, m2: Seq<i32>)
    requires
        w.valid(m1),
        unchanged_outside(m1, m2, w.slots().start(), w.slots().end()),
    ensures
        w.valid(m2),
        tb_inv(m2, w.buffer().start()) == tb_inv(m1, w.buffer().start()),
        w.buffer().writer_base(m2) == w.buffer().writer_base(m1),
        tb_inv(m1, w.buffer().start()) ==> {
            &&& w.core_view(m2) == w.core_view(m1)
            &&& w.meta_view(m2) == w.meta_view(m1)
        },
        w.attr_view(m2) == w.attr_view(m1),
        w.frame(m1, m2),
{
    w.lemma_wf();
    let st = w.buffer().start();
    assert(m2[st + 0] == m1[st + 0]);
    assert(m2[st + 1] == m1[st + 1]);
    assert(m2[st + 2] == m1[st + 2]);
    assert(m2[st + 3] == m1[st + 3]);
    let b = w.block();
    let cs = w.cfg().core_stride as int;
    let ms = w.cfg().meta_stride as int;
    let a_s = w.cfg().attr_stride as int;
    if tb_inv(m1, st) {
        assert forall|a: int| 0 <= a < w.cap() implies #[trigger] w.core_view(m2)[a] == w.core_view(m1)[a] by {
            assert forall|t: int| 0 <= t < cs implies #[trigger] m2[w.block_base(m1, a) + t] == m1[w.block_base(m1, a) + t] by {
                w.lemma_block_cell_range(m1, a, t);
            }
            assert(cells(m2, w.block_base(m2, a), cs) =~= cells(m1, w.block_base(m1, a), cs));
        }
        assert(w.core_view(m2) =~= w.core_view(m1));
        assert forall|a: int| 0 <= a < w.cap() implies #[trigger] w.meta_view(m2)[a] == w.meta_view(m1)[a] by {
            assert forall|t: int| 0 <= t < ms implies #[trigger] m2[w.block_base(m1, a) + cs + t] == m1[w.block_base(m1, a) + cs + t] by {
                w.lemma_block_cell_range(m1, a, cs + t);
            }
            assert(cells(m2, w.block_base(m2, a) + cs, ms) =~= cells(m1, w.block_base(m1, a) + cs, ms));
        }
        assert(w.meta_view(m2) =~= w.meta_view(m1));
    }
    assert forall|a: int| 0 <= a < w.cap() implies #[trigger] w.attr_view(m2)[a] == w.attr_view(m1)[a] by {
        assert forall|t: int| 0 <= t < a_s implies #[trigger] m2[w.attr_base(a) + t] == m1[w.attr_base(a) + t] by {
            w.lemma_attr_cell_range(a, t);
        }
        assert(cells(m2, w.attr_base(a), a_s) =~= cells(m1, w.attr_base(a), a_s));
    }
    assert(w.attr_view(m2) =~= w.attr_view(m1));
}

/// Two steps that each keep the frame keep it together.
pub proof fn lemma_frame_trans(w: EntryStoreWriter, m1: Seq<i32>, m2: Seq<i32>, m3: Seq<i32>)
    requires
        w.frame(m1, m2),
        w.frame(m2, m3),
        w.buffer().writer_base(m2) == w.buffer().writer_base(m1),
    ensures
        w.frame(m1, m3),
{
    assert forall|j: int|
        0 <= j < m1.len() && !(w.start() <= j < w.end()) && !(w.block_base(m1, 0) <= j
            < w.block_base(m1, 0) + w.cap() * w.block()) implies #[trigger] m3[j] == m1[j] by {
        assert(m2[j] == m1[j]);
        assert(m3[j] == m2[j]);
    }
}


impl EntryStoreWriter {
    pub fn new(
        mem: &mut AtomicBuffer,
        tb: TripleBufferWriter,
        config: EntryStoreConfig,
        mem_start_offset: usize,
        tb_start_offset: usize,
    ) -> (w: Self)
        requires
            Self::layout_ok(old(mem)@, tb, config, mem_start_offset as int, tb_start_offset as int),
        ensures
            w.valid(final(mem)@),
            w.buffer() == tb,
            w.cfg() == config,
            w.start() == mem_start_offset,
            w.tb_start() == tb_start_offset,
            w.fresh(old(mem)@, final(mem)@),
    {
        Self::create(mem, tb, config, mem_start_offset, tb_start_offset, false)
    }

    pub fn bind(
        mem: &mut AtomicBuffer,
        tb: TripleBufferWriter,
        config: EntryStoreConfig,
        mem_start_offset: usize,
        tb_start_offset: usize,
    ) -> (w: Self)
        requires
            Self::layout_ok(old(mem)@, tb, config, mem_start_offset as int, tb_start_offset as int),
        ensures
            w.valid(final(mem)@),
            w.buffer() == tb,
            w.cfg() == config,
            w.start() == mem_start_offset,
            w.tb_start() == tb_start_offset,
            final(mem)@ == old(mem)@,
    {
        Self::create(mem, tb, config, mem_start_offset, tb_start_offset, true)
    }

    /// The placement `create()` needs: the store's memory region and its block
    /// region fit, the capacity is a power of two, and the store's memory
    /// region does not overlap the triple buffer.
    pub open spec fn layout_ok(
        mem: Seq<i32>,
        tb: TripleBufferWriter,
        config: EntryStoreConfig,
        mem_start_offset: int,
        tb_start_offset: int,
    ) -> bool {
        &&& is_pow2_u32(config.capacity)
        &&& config.capacity <= 0x4000_0000
        &&& mem_start_offset + config.mem_size() <= mem.len()
        &&& config.core_stride + config.meta_stride <= usize::MAX
        &&& tb_start_offset + config.tb_size() <= tb.cap()
        &&& tb.valid(mem)
        &&& (tb.end() <= mem_start_offset || mem_start_offset + config.mem_size() <= tb.start())
    }

    /// What `new()` leaves: an empty allocator at the start of the store's
    /// region, every other cell untouched.
    pub open spec fn fresh(&self, old: Seq<i32>, new: Seq<i32>) -> bool {
        &&& self.empty_slots(new)
        &&& unchanged_outside(old, new, self.start(), self.attrs_start())
    }

    /// An empty allocator: every slot free, in increasing order, nothing retired.
    pub open spec fn empty_slots(&self, new: Seq<i32>) -> bool {
        &&& self.slots().inv(new)
        &&& self.slots().fresh(new)
        &&& (forall|i: int| 0 <= i < self.cap() ==> !#[trigger] self.slots().allocated(new)[i])
        &&& (forall|i: int| 0 <= i < self.cap() ==> !#[trigger] self.slots().deferred(new)[i])
        &&& self.slots().free_order(new) == int_seq(0, self.cap())
        &&& self.slots().entries(new).len() == 0
        &&& self.slots().writer_gen(new) == 1
        &&& self.slots().ack_gen(new) == 0
    }

    /// Lays the store out: its allocator and attribute cells on the memory
    /// plane from `mem_start_offset`, its blocks in `tb` from
    /// `tb_start_offset`. With `bind` it adopts what the cells hold;
    /// otherwise it starts with every slot free. The store's memory region
    /// must lie apart from the triple buffer's cells (`layout_ok`): the
    /// allocator writes its region, and on an overlap it would overwrite the
    /// buffer's control cells and blocks.
    pub fn create(
        mem: &mut AtomicBuffer,
        tb: TripleBufferWriter,
        config: EntryStoreConfig,
        mem_start_offset: usize,
        tb_start_offset: usize,
        bind: bool,
    ) -> (w: Self)
        requires
            Self::layout_ok(old(mem)@, tb, config, mem_start_offset as int, tb_start_offset as int),
        ensures
            w.valid(final(mem)@),
            w.buffer() == tb,
            w.cfg() == config,
            w.start() == mem_start_offset,
            w.tb_start() == tb_start_offset,
            bind ==> final(mem)@ == old(mem)@,
            !bind ==> w.fresh(old(mem)@, final(mem)@),
    {
        let _len = mem.len();
        proof {
            tb.lemma_layout();
            assert(0 <= config.capacity * config.attr_stride) by (nonlinear_arith)
                requires
                    0 <= config.capacity,
                    0 <= config.attr_stride,
            ;
            assert(0 <= config.capacity * (config.core_stride + config.meta_stride)) by (nonlinear_arith)
                requires
                    0 <= config.capacity,
                    0 <= config.core_stride + config.meta_stride,
            ;
        }
        let mem_end_offset = mem_start_offset + Self::calculate_size_on_mem(&config);
        let tb_end_offset = tb_start_offset + Self::calculate_size_on_tb(&config);
        let allocator = SlotAllocator::create(mem, mem_start_offset, config.capacity, bind);
        proof {
            allocator.lemma_wf();
        }
        let mem_attrs_start_offset = allocator.mem_end_offset();
        EntryStoreWriter {
            tb,
            allocator,
            config,
            mem_start_offset,
            mem_attrs_start_offset,
            mem_end_offset,
            tb_start_offset,
            tb_end_offset,
        }
    }

    pub fn calculate_size_on_mem(config: &EntryStoreConfig) -> (r: usize)
        requires
            config.mem_size() <= usize::MAX,
        ensures
            r == config.mem_size(),
    {
        config.size_on_mem()
    }

    pub fn calculate_size_on_tb(config: &EntryStoreConfig) -> (r: usize)
        requires
            config.core_stride + config.meta_stride <= usize::MAX,
            config.tb_size() <= usize::MAX,
        ensures
            r == config.tb_size(),
    {
        config.size_on_tb()
    }

    #[inline]
    pub(crate) fn calculate_struct_zone_base(
        tb_start_offset: usize,
        slot: SlotId,
        core_stride: usize,
        meta_stride: usize,
    ) -> (r: usize)
        requires
            core_stride + meta_stride <= usize::MAX,
            tb_start_offset + (slot.raw() - 1) * (core_stride + meta_stride) <= usize::MAX,
        ensures
            r == tb_start_offset + (slot.raw() - 1) * (core_stride + meta_stride),
    {
        let s = slot.to_usize() - 1;
        proof {
            assert(0 <= s * (core_stride + meta_stride)) by (nonlinear_arith)
                requires
                    0 <= s,
                    0 <= core_stride + meta_stride,
            ;
        }
        tb_start_offset + s * (core_stride + meta_stride)
    }

    #[inline]
    pub(crate) fn calculate_attr_zone_base(mem_attrs_start_offset: usize, slot: SlotId, attr_stride: usize) -> (r: usize)
        requires
            mem_attrs_start_offset + (slot.raw() - 1) * attr_stride <= usize::MAX,
        ensures
            r == mem_attrs_start_offset + (slot.raw() - 1) * attr_stride,
    {
        let s = slot.to_usize() - 1;
        proof {
            assert(0 <= s * attr_stride) by (nonlinear_arith)
                requires
                    0 <= s,
                    0 <= attr_stride,
            ;
        }
        mem_attrs_start_offset + s * attr_stride
    }

    /// A consumer over the same regions.
    pub fn to_reader(&self, mem: &AtomicBuffer) -> (r: EntryStoreReader)
        requires
            self.valid(mem@),
        ensures
            r.buffer().start() == self.buffer().start(),
            r.buffer().cap() == self.buffer().cap(),
            r.staging().start() == self.slots().staging().start(),
            r.staging().cap() == self.cap(),
            r.staging().wf(),
            r.cfg() == self.cfg(),
            r.start() == self.start(),
            r.attrs_start() == self.attrs_start(),
            r.end() == self.end(),
            r.tb_start() == self.tb_start(),
            r.tb_end() == self.tb_end(),
            r.consistent(),
    {
        proof {
            self.lemma_wf();
        }
        let tbr = self.tb.to_reader();
        let sbr = self.allocator.to_staging_buffer_reader();
        EntryStoreReader::bind(
            mem,
            tbr,
            sbr,
            self.config,
            self.mem_start_offset,
            self.mem_attrs_start_offset,
            self.mem_end_offset,
            self.tb_start_offset,
            self.tb_end_offset,
        )
    }

    pub fn config(&self) -> (r: EntryStoreConfig)
        ensures
            r == self.cfg(),
    {
        self.config
    }

    /// Number of slots taken (live or retired).
    pub fn len(&self, mem: &AtomicBuffer) -> (r: usize)
        requires
            self.valid(mem@),
            self.inv(mem@),
        ensures
            r == self.cap() - self.slots().free_order(mem@).len(),
    {
        proof {
            self.lemma_wf();
        }
        self.allocator.alloc_count(mem)
    }

    pub fn mem_start_offset(&self) -> (r: usize)
        ensures
            r == self.start(),
    {
        self.mem_start_offset
    }

    pub fn mem_end_offset(&self) -> (r: usize)
        ensures
            r == self.end(),
    {
        self.mem_end_offset
    }

    pub fn mem_staging_buffer_start_offset(&self) -> (r: usize)
        ensures
            r == self.slots().staging().start(),
    {
        self.allocator.mem_staging_buffer_start_offset()
    }

    pub fn tb_start_offset(&self) -> (r: usize)
        ensures
            r == self.tb_start(),
    {
        self.tb_start_offset
    }

    pub fn tb_end_offset(&self) -> (r: usize)
        ensures
            r == self.tb_end(),
    {
        self.tb_end_offset
    }

    pub fn capacity(&self) -> (r: usize)
        ensures
            r == self.cap(),
    {
        self.config.capacity as usize
    }

    pub fn is_active_slot(&self, mem: &AtomicBuffer, slot: SlotId) -> (r: bool)
        requires
            self.valid(mem@),
            slot.raw() <= self.cap(),
        ensures
            r == self.active(mem@, slot.raw() as int),
    {
        proof {
            self.lemma_wf();
        }
        self.allocator.is_active(mem, slot)
    }

    fn get_entry_tb_base(&self, slot: SlotId) -> (r: usize)
        requires
            self.wf(),
            1 <= slot.raw() <= self.cap(),
        ensures
            r == self.tb_start() + (slot.raw() - 1) * self.block(),
            r + self.block() <= self.buffer().cap(),
    {
        proof {
            self.lemma_wf();
            lemma_block_in_region(slot.raw() - 1, self.cap(), self.block());
        }
        Self::calculate_struct_zone_base(
            self.tb_start_offset,
            slot,
            self.config.core_stride,
            self.config.meta_stride,
        )
    }

    fn get_entry_mem_base(&self, slot: SlotId) -> (r: usize)
        requires
            self.wf(),
            1 <= slot.raw() <= self.cap(),
        ensures
            r == self.attr_base(slot.raw() - 1),
            r + self.cfg().attr_stride <= self.end(),
    {
        proof {
            self.lemma_wf();
            lemma_block_in_region(slot.raw() - 1, self.cap(), self.cfg().attr_stride as int);
        }
        Self::calculate_attr_zone_base(self.mem_attrs_start_offset, slot, self.config.attr_stride)
    }

    /// Write access to the zones of a live slot.
    #[inline]
    pub fn get(&'_ self, mem: &AtomicBuffer, slot: SlotId) -> (r: EntryWriter<'_>)
        requires
            self.valid(mem@),
            self.inv(mem@),
            slot.raw() <= self.cap(),
            self.active(mem@, slot.raw() as int),
        ensures
            r.valid(mem@),
            r.core_zone().buffer() == self.buffer(),
            r.meta_zone().buffer() == self.buffer(),
            r.core_zone().zone_start() == self.tb_start() + (slot.raw() - 1) * self.block(),
            r.core_zone().width() == self.cfg().core_stride,
            r.meta_zone().zone_start() == self.tb_start() + (slot.raw() - 1) * self.block()
                + self.cfg().core_stride,
            r.meta_zone().width() == self.cfg().meta_stride,
            r.attr_zone().start() == self.attr_base(slot.raw() - 1),
            r.attr_zone().width() == self.cfg().attr_stride,
            r.core_zone().view(mem@) == self.core_view(mem@)[slot.raw() - 1],
            r.meta_zone().view(mem@) == self.meta_view(mem@)[slot.raw() - 1],
            r.attr_zone().view(mem@) == self.attr_view(mem@)[slot.raw() - 1],
    {
        let _s = slot.get();
        let tb_start_offset = self.get_entry_tb_base(slot);
        let mem_start_offset = self.get_entry_mem_base(slot);
        proof {
            self.lemma_wf();
            self.tb.lemma_layout();
        }
        EntryWriter::new(
            TbZoneWriter::new(&self.tb, self.config.core_stride, tb_start_offset),
            TbZoneWriter::new(&self.tb, self.config.meta_stride, tb_start_offset + self.config.core_stride),
            MemZoneWriter::new(mem, self.config.attr_stride, mem_start_offset),
        )
    }

    /// Like `get()`, but the `core` zone is read-only.
    #[inline]
    pub fn get_handle(&'_ self, mem: &AtomicBuffer, slot: SlotId) -> (r: EntryHandle<'_>)
        requires
            self.valid(mem@),
            self.inv(mem@),
            slot.raw() <= self.cap(),
            self.active(mem@, slot.raw() as int),
        ensures
            r.valid(mem@),
            r.core_zone().buffer() == self.buffer(),
            r.meta_zone().buffer() == self.buffer(),
            r.core_zone().zone_start() == self.tb_start() + (slot.raw() - 1) * self.block(),
            r.core_zone().width() == self.cfg().core_stride,
            r.meta_zone().zone_start() == self.tb_start() + (slot.raw() - 1) * self.block()
                + self.cfg().core_stride,
            r.meta_zone().width() == self.cfg().meta_stride,
            r.attr_zone().start() == self.attr_base(slot.raw() - 1),
            r.attr_zone().width() == self.cfg().attr_stride,
            r.core_zone().view(mem@) == self.core_view(mem@)[slot.raw() - 1],
            r.meta_zone().view(mem@) == self.meta_view(mem@)[slot.raw() - 1],
            r.attr_zone().view(mem@) == self.attr_view(mem@)[slot.raw() - 1],
    {
        let _s = slot.get();
        let tb_start_offset = self.get_entry_tb_base(slot);
        let mem_start_offset = self.get_entry_mem_base(slot);
        proof {
            self.lemma_wf();
            self.tb.lemma_layout();
        }
        EntryHandle::new(
            TbZoneView::new(&self.tb, self.config.core_stride, tb_start_offset),
            TbZoneWriter::new(&self.tb, self.config.meta_stride, tb_start_offset + self.config.core_stride),
            MemZoneWriter::new(mem, self.config.attr_stride, mem_start_offset),
        )
    }
}


impl EntryStoreWriter {
    /// Takes the next free slot and zeroes its three zones.
    pub fn insert(&self, mem: &mut AtomicBuffer) -> (r: Option<SlotId>)
        requires
            self.valid(old(mem)@),
            self.inv(old(mem)@),
        ensures
            self.valid(final(mem)@),
            self.inv(final(mem)@),
            r is None <==> self.slots().free_order(old(mem)@).len() == 0,
            r is None ==> final(mem)@ == old(mem)@,
            r matches Some(s) ==> {
                let i = s.raw() - 1;
                &&& s.raw() == self.slots().free_order(old(mem)@)[0] + 1
                &&& 1 <= s.raw() <= self.cap()
                &&& self.slots().free_order(final(mem)@) == self.slots().free_order(old(mem)@).drop_first()
                &&& self.slots().allocated(final(mem)@) == self.slots().allocated(old(mem)@).update(i, true)
                &&& !self.slots().allocated(old(mem)@)[i]
                &&& self.active(final(mem)@, s.raw() as int)
                &&& self.core_view(final(mem)@) == self.core_view(old(mem)@).update(
                    i,
                    zeros(self.cfg().core_stride as int),
                )
                &&& self.meta_view(final(mem)@) == self.meta_view(old(mem)@).update(
                    i,
                    zeros(self.cfg().meta_stride as int),
                )
                &&& self.attr_view(final(mem)@) == self.attr_view(old(mem)@).update(
                    i,
                    zeros(self.cfg().attr_stride as int),
                )
            },
            self.slots().deferred(final(mem)@) == self.slots().deferred(old(mem)@),
            self.slots().entries(final(mem)@) == self.slots().entries(old(mem)@),
            self.slots().writer_gen(final(mem)@) == self.slots().writer_gen(old(mem)@),
            self.slots().ack_gen(final(mem)@) == self.slots().ack_gen(old(mem)@),
            self.buffer().writer_base(final(mem)@) == self.buffer().writer_base(old(mem)@),
            self.frame(old(mem)@, final(mem)@),
    {
        proof {
            self.lemma_wf();
            self.tb.lemma_layout();
        }
        let ghost m0 = mem@;
        proof {
            self.allocator.lemma_inv_order(m0);
        }
        let result = self.allocator.allocate(mem);
        let new_slot = match result {
            None => {
                return None;
            },
            Some(s) => s,
        };
        let ghost m1 = mem@;
        let ghost i = new_slot.raw() - 1;
        proof {
            lemma_slots_step(*self, m0, m1);
        }
        let tb_start_offset = self.get_entry_tb_base(new_slot);
        let n = self.config.core_stride + self.config.meta_stride;
        let ghost bb = self.block_base(m1, i);
        let ghost z = zeros(n as int);
        let mut k: usize = 0;
        while k < n
            invariant
                self.valid(m1),
                self.inv(m1),
                self.wf(),
                self.buffer().wf(),
                0 <= i < self.cap(),
                n == self.block(),
                z == zeros(n as int),
                bb == self.block_base(m1, i),
                tb_start_offset == self.tb_start() + i * self.block(),
                tb_start_offset + n <= self.buffer().cap(),
                k <= n,
                mem@ == write_cells(m1, bb, z.take(k as int)),
            decreases n - k,
        {
            proof {
                self.lemma_wf();
                self.tb.lemma_layout();
                self.lemma_block_cell_range(m1, i, k as int);
                let m = mem@;
                let st = self.buffer().start();
                assert(m[st + 0] == m1[st + 0]);
                assert(m[st + 1] == m1[st + 1]);
                assert(m[st + 2] == m1[st + 2]);
                assert(m[st + 3] == m1[st + 3]);
            }
            self.tb.write(mem, tb_start_offset + k, 0);
            proof {
                assert(z.take(k + 1) =~= z.take(k as int).push(0i32));
                assert(mem@ =~= write_cells(m1, bb, z.take(k + 1)));
            }
            k = k + 1;
        }
        proof {
            assert(z.take(n as int) =~= z);
            lemma_zero_block(*self, m1, i);
        }
        let ghost m2 = mem@;
        let mem_start_offset = self.get_entry_mem_base(new_slot);
        let zone = MemZoneWriter::new(mem, self.config.attr_stride, mem_start_offset);
        zone.clear(mem);
        proof {
            let a_s = self.cfg().attr_stride as int;
            assert(Seq::new(zone.width() as nat, |t: int| 0i32) =~= zeros(a_s));
            lemma_zero_attr(*self, m2, i);
            lemma_frame_trans(*self, m0, m1, m2);
            lemma_frame_trans(*self, m0, m2, mem@);
        }
        Some(new_slot)
    }

    /// Retires a live slot; it stays allocated until a later `publish()`.
    pub fn remove(&self, mem: &mut AtomicBuffer, slot: SlotId) -> (r: Result<(), SlotAllocatorError>)
        requires
            self.valid(old(mem)@),
            self.inv(old(mem)@),
            slot.raw() <= self.cap(),
        ensures
            self.valid(final(mem)@),
            self.inv(final(mem)@),
            r == Err::<(), SlotAllocatorError>(SlotAllocatorError::InvalidSlot)
                <==> !self.slots().allocated(old(mem)@)[slot.raw() - 1],
            r == Err::<(), SlotAllocatorError>(SlotAllocatorError::DoubleFree) <==> (self.slots().allocated(
                old(mem)@,
            )[slot.raw() - 1] && self.slots().deferred(old(mem)@)[slot.raw() - 1]),
            r is Err ==> final(mem)@ == old(mem)@,
            r is Ok <==> self.active(old(mem)@, slot.raw() as int),
            r is Ok ==> {
                &&& self.slots().entries(final(mem)@) == self.slots().entries(old(mem)@).push(
                    seq![slot.raw() as i32, self.slots().writer_gen(old(mem)@)],
                )
                &&& self.slots().deferred(final(mem)@) == self.slots().deferred(old(mem)@).update(
                    slot.raw() - 1,
                    true,
                )
            },
            self.slots().allocated(final(mem)@) == self.slots().allocated(old(mem)@),
            self.slots().free_order(final(mem)@) == self.slots().free_order(old(mem)@),
            self.slots().writer_gen(final(mem)@) == self.slots().writer_gen(old(mem)@),
            self.slots().ack_gen(final(mem)@) == self.slots().ack_gen(old(mem)@),
            self.core_view(final(mem)@) == self.core_view(old(mem)@),
            self.meta_view(final(mem)@) == self.meta_view(old(mem)@),
            self.attr_view(final(mem)@) == self.attr_view(old(mem)@),
            self.buffer().writer_base(final(mem)@) == self.buffer().writer_base(old(mem)@),
            self.frame(old(mem)@, final(mem)@),
    {
        proof {
            self.lemma_wf();
        }
        let r = self.allocator.defer_free(mem, slot);
        proof {
            lemma_slots_step(*self, old(mem)@, mem@);
        }
        r
    }

    /// Reclaims the retired slots the reader has acknowledged and advances
    /// the generation.
    pub fn publish(&self, mem: &mut AtomicBuffer)
        requires
            self.valid(old(mem)@),
            self.inv(old(mem)@),
        ensures
            self.valid(final(mem)@),
            self.inv(final(mem)@),
            self.slots().publish_result(old(mem)@, final(mem)@),
            self.core_view(final(mem)@) == self.core_view(old(mem)@),
            self.meta_view(final(mem)@) == self.meta_view(old(mem)@),
            self.attr_view(final(mem)@) == self.attr_view(old(mem)@),
            self.buffer().writer_base(final(mem)@) == self.buffer().writer_base(old(mem)@),
            self.frame(old(mem)@, final(mem)@),
            unchanged_outside(old(mem)@, final(mem)@, self.start(), self.attrs_start()),
    {
        proof {
            self.lemma_wf();
        }
        self.allocator.publish(mem);
        proof {
            lemma_slots_step(*self, old(mem)@, mem@);
        }
    }
}


impl EntryStoreWriter {
    /// After the blocks of `source` were copied into all three buffers here and
    /// the writer index was taken over, every slot `source` has reads here as
    /// it read there.
    pub proof fn lemma_views_carried(&self, source: &EntryStoreWriter, m: Seq<i32>, sm: Seq<i32>)
        requires
            self.valid(m),
            source.valid(sm),
            tb_inv(sm, source.buffer().start()),
            self.cfg().core_stride == source.cfg().core_stride,
            self.cfg().meta_stride == source.cfg().meta_stride,
            source.cap() <= self.cap(),
            tb_writer_id(m, self.buffer().start()) == tb_writer_id(sm, source.buffer().start()),
            forall|k: int, t: int|
                0 <= k < 3 && 0 <= t < source.cap() * source.block() ==> #[trigger] m[tb_base(
                    self.buffer().start(),
                    self.buffer().cap(),
                    k,
                ) + self.tb_start() + t] == sm[tb_base(source.buffer().start(), source.buffer().cap(), k)
                    + source.tb_start() + t],
        ensures
            forall|i: int| 0 <= i < source.cap() ==> #[trigger] self.core_view(m)[i] == source.core_view(sm)[i],
            forall|i: int| 0 <= i < source.cap() ==> #[trigger] self.meta_view(m)[i] == source.meta_view(sm)[i],
    {
        self.lemma_wf();
        source.lemma_wf();
        let k = tb_writer_id(sm, source.buffer().start());
        let b = self.block();
        assert(self.buffer().writer_base(m) == tb_base(self.buffer().start(), self.buffer().cap(), k));
        assert(source.buffer().writer_base(sm) == tb_base(source.buffer().start(), source.buffer().cap(), k));
        assert forall|i: int, c: int| 0 <= i < source.cap() && 0 <= c < b implies #[trigger] m[self.block_base(m, i) + c]
            == sm[source.block_base(sm, i) + c] by {
            assert(0 <= i * b + c < source.cap() * b) by (nonlinear_arith)
                requires
                    0 <= i < source.cap(),
                    0 <= c < b,
            ;
            let t = i * b + c;
            assert(m[tb_base(self.buffer().start(), self.buffer().cap(), k) + self.tb_start() + t] == sm[tb_base(
                source.buffer().start(),
                source.buffer().cap(),
                k,
            ) + source.tb_start() + t]);
        }
        assert forall|i: int| 0 <= i < source.cap() implies #[trigger] self.core_view(m)[i] == source.core_view(sm)[i] by {
            let x = cells(m, self.block_base(m, i), self.cfg().core_stride as int);
            let y = cells(sm, source.block_base(sm, i), source.cfg().core_stride as int);
            assert forall|c: int| 0 <= c < self.cfg().core_stride implies x[c] == y[c] by {
                assert(m[self.block_base(m, i) + c] == sm[source.block_base(sm, i) + c]);
            }
            assert(x =~= y);
        }
        assert forall|i: int| 0 <= i < source.cap() implies #[trigger] self.meta_view(m)[i] == source.meta_view(sm)[i] by {
            let cs = self.cfg().core_stride as int;
            let x = cells(m, self.block_base(m, i) + cs, self.cfg().meta_stride as int);
            let y = cells(sm, source.block_base(sm, i) + cs, source.cfg().meta_stride as int);
            assert forall|c: int| 0 <= c < self.cfg().meta_stride implies x[c] == y[c] by {
                assert(m[self.block_base(m, i) + (cs + c)] == sm[source.block_base(sm, i) + (cs + c)]);
            }
            assert(x =~= y);
        }
    }
}

impl EntryStoreWriter {
    /// A store whose first attribute cells on `m` are those of `source` on
    /// `sm`, with the same attribute stride, reads the attributes of every
    /// slot of `source` as `source` did.
    pub proof fn lemma_attrs_carried(&self, source: &EntryStoreWriter, m: Seq<i32>, sm: Seq<i32>)
        requires
            self.cfg().attr_stride == source.cfg().attr_stride,
            source.cap() <= self.cap(),
            forall|t: int|
                0 <= t < source.cap() * source.cfg().attr_stride ==> #[trigger] m[self.attrs_start() + t]
                    == sm[source.attrs_start() + t],
        ensures
            forall|i: int| 0 <= i < source.cap() ==> #[trigger] self.attr_view(m)[i] == source.attr_view(sm)[i],
    {
        let a = source.cfg().attr_stride as int;
        assert forall|i: int| 0 <= i < source.cap() implies #[trigger] self.attr_view(m)[i] == source.attr_view(sm)[i] by {
            let x = cells(m, self.attr_base(i), a);
            let y = cells(sm, source.attr_base(i), a);
            assert forall|c: int| 0 <= c < a implies x[c] == y[c] by {
                assert(0 <= i * a + c < source.cap() * a) by (nonlinear_arith)
                    requires
                        0 <= i < source.cap(),
                        0 <= c < a,
                ;
                assert(m[self.attrs_start() + (i * a + c)] == sm[source.attrs_start() + (i * a + c)]);
            }
            assert(x =~= y);
        }
    }

    /// Copies the allocator state of `source`, its blocks in all three
    /// buffers and its attribute cells into this store (a larger store
    /// takes over a smaller one).
    pub fn copy_from(&self, mem: &mut AtomicBuffer, source: &EntryStoreWriter, source_mem: &AtomicBuffer)
        requires
            self.valid(old(mem)@),
            source.valid(source_mem@),
            source.slots().inv(source_mem@),
            source.cap() <= self.cap(),
            source.buffer().cap() <= self.buffer().cap(),
            self.tb_start() + source.cap() * source.block() <= self.buffer().cap(),
            source.cap() * source.cfg().attr_stride <= self.cap() * self.cfg().attr_stride,
        ensures
            self.valid(final(mem)@),
            final(mem)@.len() == old(mem)@.len(),
            self.slots().copy_result(&source.slots(), source_mem@, old(mem)@, final(mem)@),
            forall|k: int, t: int|
                0 <= k < 3 && 0 <= t < source.cap() * source.block() ==> #[trigger] final(mem)@[tb_base(
                    self.buffer().start(),
                    self.buffer().cap(),
                    k,
                ) + self.tb_start() + t] == source_mem@[tb_base(
                    source.buffer().start(),
                    source.buffer().cap(),
                    k,
                ) + source.tb_start() + t],
            forall|t: int|
                0 <= t < source.cap() * source.cfg().attr_stride ==> #[trigger] final(mem)@[self.attrs_start()
                    + t] == source_mem@[source.attrs_start() + t],
            forall|j: int|
                0 <= j < old(mem)@.len() && !(self.start() <= j < self.end()) && !tb_in_region(
                    j,
                    self.buffer().start(),
                    self.buffer().cap(),
                    self.tb_start(),
                    source.cap() * source.block(),
                ) ==> #[trigger] final(mem)@[j] == old(mem)@[j],
    {
        proof {
            self.lemma_wf();
            source.lemma_wf();
            self.tb.lemma_layout();
            source.tb.lemma_layout();
        }
        let ghost m0 = mem@;
        self.allocator.copy_from(mem, &source.allocator, source_mem);
        let ghost m1 = mem@;
        let count = Self::calculate_size_on_tb(&source.config);
        self.tb.copy_region_from(
            mem,
            &source.tb,
            source_mem,
            source.tb_start_offset,
            self.tb_start_offset,
            count,
        );
        let ghost m2 = mem@;
        proof {
            assert(0 <= source.cap() * source.cfg().attr_stride) by (nonlinear_arith)
                requires
                    0 <= source.cap(),
                    0 <= source.cfg().attr_stride,
            ;
        }
        let n = source.config.capacity as usize * source.config.attr_stride;
        let dst = self.mem_attrs_start_offset;
        let src = source.mem_attrs_start_offset;
        let source_len = source_mem.len();
        let mut i: usize = 0;
        while i < n
            invariant
                source_len == source_mem@.len(),
                n == source.cap() * source.cfg().attr_stride,
                dst == self.attrs_start(),
                src == source.attrs_start(),
                dst + n <= self.end(),
                self.end() <= m2.len(),
                src + n <= source_mem@.len(),
                i <= n,
                mem@.len() == m2.len(),
                forall|t: int| 0 <= t < i ==> #[trigger] mem@[dst + t] == source_mem@[src + t],
                forall|j: int| 0 <= j < m2.len() && !(dst <= j < dst + n) ==> #[trigger] mem@[j] == m2[j],
            decreases n - i,
        {
            let v = source_mem[src + i];
            mem.set(dst + i, v);
            i = i + 1;
        }
        proof {
            let m3 = mem@;
            assert forall|j: int| self.slots().start() <= j < self.slots().end() implies #[trigger] m3[j] == m1[j] by {
                assert(m3[j] == m2[j]);
                assert(m2[j] == m1[j]);
            }
            self.slots().lemma_frame(m1, m3);
        }
    }
}


impl EntryStoreWriter {
    /// The stores `self` and `other` share a triple buffer and occupy
    /// disjoint cells on both planes.
    pub open spec fn disjoint(&self, other: EntryStoreWriter) -> bool {
        &&& self.buffer() == other.buffer()
        &&& (self.end() <= other.start() || other.end() <= self.start())
        &&& (self.tb_end() <= other.tb_start() || other.tb_end() <= self.tb_start())
    }

    /// Cell `k` of the core zone of `slot` in the writer buffer.
    pub(crate) fn core_cell(&self, mem: &AtomicBuffer, slot: SlotId, k: usize) -> (r: i32)
        requires
            self.valid(mem@),
            tb_inv(mem@, self.buffer().start()),
            slot.raw() <= self.cap(),
            k < self.cfg().core_stride,
        ensures
            r == self.core_view(mem@)[slot.raw() - 1][k as int],
    {
        let _s = slot.get();
        let base = self.get_entry_tb_base(slot);
        proof {
            self.lemma_wf();
            self.tb.lemma_layout();
        }
        self.tb.read(mem, base + k)
    }

    /// Writes cell `k` of the core zone of `slot` in the writer buffer.
    pub(crate) fn set_core_cell(&self, mem: &mut AtomicBuffer, slot: SlotId, k: usize, v: i32)
        requires
            self.valid(old(mem)@),
            self.inv(old(mem)@),
            slot.raw() <= self.cap(),
            k < self.cfg().core_stride,
        ensures
            self.valid(final(mem)@),
            self.inv(final(mem)@),
            self.core_view(final(mem)@) == set_cell(self.core_view(old(mem)@), slot.raw() - 1, k as int, v),
            self.meta_view(final(mem)@) == self.meta_view(old(mem)@),
            self.attr_view(final(mem)@) == self.attr_view(old(mem)@),
            self.slots().allocated(final(mem)@) == self.slots().allocated(old(mem)@),
            self.slots().deferred(final(mem)@) == self.slots().deferred(old(mem)@),
            self.slots().free_order(final(mem)@) == self.slots().free_order(old(mem)@),
            self.slots().entries(final(mem)@) == self.slots().entries(old(mem)@),
            self.slots().writer_gen(final(mem)@) == self.slots().writer_gen(old(mem)@),
            self.slots().ack_gen(final(mem)@) == self.slots().ack_gen(old(mem)@),
            self.buffer().writer_base(final(mem)@) == self.buffer().writer_base(old(mem)@),
            self.frame(old(mem)@, final(mem)@),
            final(mem)@ == old(mem)@.update(self.block_base(old(mem)@, slot.raw() - 1) + k, v),
    {
        let _s = slot.get();
        let base = self.get_entry_tb_base(slot);
        proof {
            self.lemma_wf();
            self.tb.lemma_layout();
            self.lemma_tb_write(mem@, slot.raw() - 1, k as int, v);
            self.slots().lemma_gens_frame(old(mem)@, old(mem)@.update(self.block_base(old(mem)@, slot.raw() - 1) + k, v));
        }
        self.tb.write(mem, base + k, v);
    }
}

/// A change that keeps the frame of one store leaves a disjoint store on the
/// same buffer as it was.
pub proof fn lemma_disjoint_frame(a: EntryStoreWriter, b: EntryStoreWriter, m1: Seq<i32>, m2: Seq<i32>)
    requires
        a.valid(m1),
        b.valid(m1),
        a.disjoint(b),
        tb_inv(m1, a.buffer().start()),
        a.frame(m1, m2),
        a.buffer().writer_base(m2) == a.buffer().writer_base(m1),
    ensures
        b.valid(m2),
        tb_inv(m2, b.buffer().start()),
        b.buffer().writer_base(m2) == b.buffer().writer_base(m1),
        b.core_view(m2) == b.core_view(m1),
        b.meta_view(m2) == b.meta_view(m1),
        b.attr_view(m2) == b.attr_view(m1),
        b.slots().allocated(m2) == b.slots().allocated(m1),
        b.slots().deferred(m2) == b.slots().deferred(m1),
        b.slots().writer_gen(m2) == b.slots().writer_gen(m1),
        b.slots().ack_gen(m2) == b.slots().ack_gen(m1),
        b.slots().inv(m1) ==> {
            &&& b.slots().inv(m2)
            &&& b.slots().free_order(m2) == b.slots().free_order(m1)
            &&& b.slots().entries(m2) == b.slots().entries(m1)
        },
{
    a.lemma_wf();
    b.lemma_wf();
    let st = a.buffer().start();
    assert(m2[st + 0] == m1[st + 0]);
    assert(m2[st + 1] == m1[st + 1]);
    assert(m2[st + 2] == m1[st + 2]);
    assert(m2[st + 3] == m1[st + 3]);
    lemma_block_in_region(0, a.cap(), a.block());
    lemma_block_in_region(0, b.cap(), b.block());
    assert forall|j: int| b.slots().start() <= j < b.slots().end() implies #[trigger] m2[j] == m1[j] by {
    }
    b.slots().lemma_frame(m1, m2);
    let cs = b.cfg().core_stride as int;
    let ms = b.cfg().meta_stride as int;
    let a_s = b.cfg().attr_stride as int;
    assert forall|x: int| 0 <= x < b.cap() implies #[trigger] b.core_view(m2)[x] == b.core_view(m1)[x] by {
        assert forall|t: int| 0 <= t < cs implies #[trigger] m2[b.block_base(m1, x) + t] == m1[b.block_base(m1, x) + t] by {
            b.lemma_block_cell_range(m1, x, t);
            lemma_block_in_region(x, b.cap(), b.block());
        }
        assert(cells(m2, b.block_base(m2, x), cs) =~= cells(m1, b.block_base(m1, x), cs));
    }
    assert(b.core_view(m2) =~= b.core_view(m1));
    assert forall|x: int| 0 <= x < b.cap() implies #[trigger] b.meta_view(m2)[x] == b.meta_view(m1)[x] by {
        assert forall|t: int| 0 <= t < ms implies #[trigger] m2[b.block_base(m1, x) + cs + t] == m1[b.block_base(m1, x) + cs + t] by {
            b.lemma_block_cell_range(m1, x, cs + t);
            lemma_block_in_region(x, b.cap(), b.block());
        }
        assert(cells(m2, b.block_base(m2, x) + cs, ms) =~= cells(m1, b.block_base(m1, x) + cs, ms));
    }
    assert(b.meta_view(m2) =~= b.meta_view(m1));
    assert forall|x: int| 0 <= x < b.cap() implies #[trigger] b.attr_view(m2)[x] == b.attr_view(m1)[x] by {
        assert forall|t: int| 0 <= t < a_s implies #[trigger] m2[b.attr_base(x) + t] == m1[b.attr_base(x) + t] by {
            b.lemma_attr_cell_range(x, t);
        }
        assert(cells(m2, b.attr_base(x), a_s) =~= cells(m1, b.attr_base(x), a_s));
    }
    assert(b.attr_view(m2) =~= b.attr_view(m1));
}


impl EntryStoreWriter {
    /// What `insert()` does to everything but the core cells: `r` is the
    /// first free slot (or `None` when there is none, nothing changed), it is
    /// now live, and its metadata and attributes are zero.
    pub open spec fn insert_result(&self, old: Seq<i32>, new: Seq<i32>, r: Option<SlotId>) -> bool {
        &&& self.insert_effect(old, new, r)
        &&& self.buffer().writer_base(new) == self.buffer().writer_base(old)
        &&& self.frame(old, new)
    }

    /// `insert_result` without the frame: the allocator, metadata and
    /// attribute effects of `insert()`.
    pub open spec fn insert_effect(&self, old: Seq<i32>, new: Seq<i32>, r: Option<SlotId>) -> bool {
        &&& (r is None <==> self.slots().free_order(old).len() == 0)
        &&& (r is None ==> new == old)
        &&& (r matches Some(s) ==> {
            let i = s.raw() - 1;
            &&& s.raw() == self.slots().free_order(old)[0] + 1
            &&& 1 <= s.raw() <= self.cap()
            &&& self.slots().free_order(new) == self.slots().free_order(old).drop_first()
            &&& self.slots().allocated(new) == self.slots().allocated(old).update(i, true)
            &&& !self.slots().allocated(old)[i]
            &&& self.active(new, s.raw() as int)
            &&& self.meta_view(new) == self.meta_view(old).update(i, zeros(self.cfg().meta_stride as int))
            &&& self.attr_view(new) == self.attr_view(old).update(i, zeros(self.cfg().attr_stride as int))
        })
        &&& self.slots().deferred(new) == self.slots().deferred(old)
        &&& self.slots().entries(new) == self.slots().entries(old)
        &&& self.slots().writer_gen(new) == self.slots().writer_gen(old)
        &&& self.slots().ack_gen(new) == self.slots().ack_gen(old)
    }

    /// What `remove(slot)` does to everything but the core cells.
    pub open spec fn remove_result(&self, old: Seq<i32>, new: Seq<i32>, slot: SlotId, r: Result<(), SlotAllocatorError>) -> bool {
        &&& self.remove_effect(old, new, slot, r)
        &&& self.buffer().writer_base(new) == self.buffer().writer_base(old)
        &&& self.frame(old, new)
    }

    /// `remove_result` without the frame.
    pub open spec fn remove_effect(&self, old: Seq<i32>, new: Seq<i32>, slot: SlotId, r: Result<(), SlotAllocatorError>) -> bool {
        let i = slot.raw() - 1;
        &&& (r == Err::<(), SlotAllocatorError>(SlotAllocatorError::InvalidSlot)
            <==> !self.slots().allocated(old)[i])
        &&& (r == Err::<(), SlotAllocatorError>(SlotAllocatorError::DoubleFree) <==> (self.slots().allocated(old)[i]
            && self.slots().deferred(old)[i]))
        &&& (r is Err ==> new == old)
        &&& (r is Ok <==> self.active(old, slot.raw() as int))
        &&& (r is Ok ==> {
            &&& self.slots().entries(new) == self.slots().entries(old).push(
                seq![slot.raw() as i32, self.slots().writer_gen(old)],
            )
            &&& self.slots().deferred(new) == self.slots().deferred(old).update(i, true)
        })
        &&& self.slots().allocated(new) == self.slots().allocated(old)
        &&& self.slots().free_order(new) == self.slots().free_order(old)
        &&& self.slots().writer_gen(new) == self.slots().writer_gen(old)
        &&& self.slots().ack_gen(new) == self.slots().ack_gen(old)
        &&& self.meta_view(new) == self.meta_view(old)
        &&& self.attr_view(new) == self.attr_view(old)
    }
}

} // verus!
