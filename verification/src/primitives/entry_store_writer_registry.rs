use crate::primitives::entry_store_def::{EntryStoreDef, EntryStoreId};
use crate::primitives::entry_store_reader::EntryStoreReader;
use crate::primitives::entry_store_reader_registry::EntryStoreReaderRegistry;
use crate::primitives::entry_store_writer::EntryStoreWriter;
use crate::primitives::triple_buffer_def::{DEFAULT_TB_RAW, TripleBufferId};
use crate::primitives::triple_buffer_writer_registry::TripleBufferWriterRegistry;
use crate::primitives::triple_buffer_writer::{lemma_in_region_at, lemma_tb_inv_frame, tb_base, tb_in_region};
use crate::primitives::types::{AtomicBuffer, is_pow2_u32, lemma_distinct_cover, lemma_unchanged_trans, lemma_unchanged_widen, unchanged_outside};
use vstd::prelude::*;

verus! {

/// Cells that the blocks of the stores of `defs` placed on triple buffer `tb` take there.
pub open spec fn es_load(defs: Seq<EntryStoreDef>, tb: TripleBufferId) -> int
    decreases defs.len(),
{
    if defs.len() == 0 {
        0
    } else {
        es_load(defs.drop_last(), tb) + if defs.last().tb_id == tb {
            defs.last().config.tb_size()
        } else {
            0
        }
    }
}

/// Cells that the stores of `defs` take on the memory plane.
pub open spec fn es_mem(defs: Seq<EntryStoreDef>) -> int
    decreases defs.len(),
{
    if defs.len() == 0 {
        0
    } else {
        es_mem(defs.drop_last()) + defs.last().config.mem_size()
    }
}

pub proof fn lemma_es_nonneg(defs: Seq<EntryStoreDef>, tb: TripleBufferId)
    ensures
        0 <= es_load(defs, tb),
        0 <= es_mem(defs),
    decreases defs.len(),
{
    if defs.len() > 0 {
        lemma_es_nonneg(defs.drop_last(), tb);
        let c = defs.last().config;
        assert(0 <= c.capacity * (c.core_stride + c.meta_stride)) by (nonlinear_arith);
        assert(0 <= c.capacity * c.attr_stride) by (nonlinear_arith);
    }
}

pub proof fn lemma_es_step(defs: Seq<EntryStoreDef>, i: int, tb: TripleBufferId)
    requires
        0 <= i < defs.len(),
    ensures
        es_load(defs.take(i + 1), tb) == es_load(defs.take(i), tb) + if defs[i].tb_id == tb {
            defs[i].config.tb_size()
        } else {
            0
        },
        es_mem(defs.take(i + 1)) == es_mem(defs.take(i)) + defs[i].config.mem_size(),
        0 <= es_load(defs.take(i), tb),
        0 <= es_mem(defs.take(i)),
{
    assert(defs.take(i + 1).drop_last() =~= defs.take(i));
    lemma_es_nonneg(defs.take(i), tb);
}

pub proof fn lemma_es_prefix(defs: Seq<EntryStoreDef>, i: int, j: int, tb: TripleBufferId)
    requires
        0 <= i <= j <= defs.len(),
    ensures
        es_load(defs.take(i), tb) <= es_load(defs.take(j), tb),
        es_mem(defs.take(i)) <= es_mem(defs.take(j)),
    decreases j - i,
{
    if i < j {
        lemma_es_prefix(defs, i, j - 1, tb);
        lemma_es_step(defs, j - 1, tb);
        let c = defs[j - 1].config;
        assert(0 <= c.capacity * (c.core_stride + c.meta_stride)) by (nonlinear_arith);
        lemma_es_nonneg(defs.take(j - 1), tb);
        assert(0 <= c.capacity * c.attr_stride) by (nonlinear_arith);
    }
}

/// Stores `a < b` laid out by `create()`: on one buffer the blocks of `a`
/// end before those of `b` begin; on two buffers the buffers do not overlap.
proof fn lemma_blocks_apart<const TB: usize>(
    reg: TripleBufferWriterRegistry<TB>,
    d: Seq<EntryStoreDef>,
    ds: int,
    ex: Seq<usize>,
    x: EntryStoreWriter,
    y: EntryStoreWriter,
    a: int,
    b: int,
)
    requires
        reg.wf(),
        0 <= a < b < d.len(),
        reg.id_ok(d[a].tb_id),
        reg.id_ok(d[b].tb_id),
        x.wf(),
        y.wf(),
        x.cfg() == d[a].config,
        x.buffer() == reg.tb_for(d[a].tb_id),
        x.tb_start() == es_tb_start(reg, d, ds, ex, a),
        y.buffer() == reg.tb_for(d[b].tb_id),
        y.tb_start() == es_tb_start(reg, d, ds, ex, b),
    ensures
        if x.buffer() == y.buffer() {
            x.tb_end() <= y.tb_start()
        } else {
            x.buffer().end() <= y.buffer().start() || y.buffer().end() <= x.buffer().start()
        },
{
    let ta = d[a].tb_id;
    let tb = d[b].tb_id;
    reg.lemma_disjoint(ta, tb);
    reg.lemma_inside(ta);
    reg.lemma_inside(tb);
    x.lemma_wf();
    if ta == tb {
        lemma_es_step(d, a, ta);
        lemma_es_prefix(d, a + 1, b, ta);
    } else {
        x.buffer().lemma_layout();
    }
}

/// The ids of `defs` are a permutation of `[0, defs.len())`.
pub open spec fn es_ids_perm(defs: Seq<EntryStoreDef>) -> bool {
    &&& forall|i: int| 0 <= i < defs.len() ==> (#[trigger] defs[i]).id.0 < defs.len()
    &&& forall|i: int, j: int| 0 <= i < j < defs.len() ==> (#[trigger] defs[i]).id != (#[trigger] defs[j]).id
}

/// Where the stores' blocks on triple buffer `tb` begin.
pub open spec fn es_base<const TB: usize>(reg: TripleBufferWriterRegistry<TB>, default_start: int, extra: Seq<usize>, tb: TripleBufferId) -> int {
    if tb.0 == DEFAULT_TB_RAW {
        default_start
    } else {
        extra[reg.index()[tb.0 as int]->0 as int] as int
    }
}

/// First block cell of store `i` on its triple buffer.
pub open spec fn es_tb_start<const TB: usize>(reg: TripleBufferWriterRegistry<TB>, defs: Seq<EntryStoreDef>, default_start: int, extra: Seq<usize>, i: int) -> int {
    es_base(reg, default_start, extra, defs[i].tb_id) + es_load(defs.take(i), defs[i].tb_id)
}

/// What `create()` needs: ids forming a permutation, stores with power-of-two
/// capacities whose blocks fit their buffers, and the memory region inside
/// `mem` and apart from the triple buffers.
pub open spec fn es_registry_ok<const TB: usize>(
    mem: Seq<i32>,
    reg: TripleBufferWriterRegistry<TB>,
    defs: Seq<EntryStoreDef>,
    mem_start: int,
    default_start: int,
    extra: Seq<usize>,
) -> bool {
    &&& 0 < defs.len() < 0xffff
    &&& es_ids_perm(defs)
    &&& extra.len() == TB
    &&& reg.wf()
    &&& reg.control_ok(mem)
    &&& 0 <= mem_start
    &&& mem_start + es_mem(defs) <= mem.len()
    &&& (mem_start + es_mem(defs) <= reg.start() || reg.end() <= mem_start)
    &&& forall|i: int|
        0 <= i < defs.len() ==> {
            let c = (#[trigger] defs[i]).config;
            &&& reg.id_ok(defs[i].tb_id)
            &&& is_pow2_u32(c.capacity)
            &&& c.capacity <= 0x4000_0000
            &&& c.core_stride + c.meta_stride <= usize::MAX
            &&& es_tb_start(reg, defs, default_start, extra, i) + c.tb_size() <= reg.tb_for(defs[i].tb_id).cap()
        }
}

/// Registry of `N` entry-store writers with user-assigned ids forming a
/// permutation of `[0, N)`. Stores are packed in definition order on the
/// memory plane, and per triple buffer from the given start offsets.
#[derive(Clone)]
pub struct EntryStoreWriterRegistry<const TB_COUNT: usize, const STORE_COUNT: usize> {
    id_index: Vec<Option<u16>>,
    defs: Vec<EntryStoreDef>,
    stores: Vec<EntryStoreWriter>,
    mem_start_offset: usize,
    mem_end_offset: usize,
    default_tb_start_offset: usize,
    default_tb_end_offset: usize,
    extra_tb_start_offsets: Vec<usize>,
    extra_tb_end_offsets: Vec<usize>,
}

impl<const TB_COUNT: usize, const STORE_COUNT: usize> EntryStoreWriterRegistry<TB_COUNT, STORE_COUNT> {
    pub closed spec fn index(&self) -> Seq<Option<u16>> {
        self.id_index@
    }

    pub closed spec fn def_seq(&self) -> Seq<EntryStoreDef> {
        self.defs@
    }

    /// The stores, in definition order.
    pub closed spec fn store_seq(&self) -> Seq<EntryStoreWriter> {
        self.stores@
    }

    pub closed spec fn start(&self) -> int {
        self.mem_start_offset as int
    }

    pub closed spec fn end(&self) -> int {
        self.mem_end_offset as int
    }

    pub closed spec fn default_start(&self) -> int {
        self.default_tb_start_offset as int
    }

    pub closed spec fn default_end(&self) -> int {
        self.default_tb_end_offset as int
    }

    pub closed spec fn extra_starts(&self) -> Seq<usize> {
        self.extra_tb_start_offsets@
    }

    pub closed spec fn extra_ends(&self) -> Seq<usize> {
        self.extra_tb_end_offsets@
    }

    pub open spec fn wf(&self) -> bool {
        let defs = self.def_seq();
        let st = self.store_seq();
        &&& defs.len() == STORE_COUNT
        &&& self.index().len() == STORE_COUNT
        &&& st.len() == STORE_COUNT
        &&& 0 < STORE_COUNT < 0xffff
        &&& es_ids_perm(defs)
        &&& forall|i: int| 0 <= i < STORE_COUNT ==> self.index()[(#[trigger] defs[i]).id.0 as int] == Some(i as u16)
        &&& forall|k: int|
            0 <= k < STORE_COUNT ==> (#[trigger] self.index()[k]) is Some && (self.index()[k]->0 as int) < STORE_COUNT
                && defs[self.index()[k]->0 as int].id.0 == k
        &&& forall|i: int|
            0 <= i < STORE_COUNT ==> (#[trigger] st[i]).wf() && st[i].cfg() == defs[i].config
                && st[i].start() == self.start() + es_mem(defs.take(i))
        &&& self.end() == self.start() + es_mem(defs)
        &&& forall|i: int|
            0 <= i < STORE_COUNT ==> (#[trigger] st[i]).buffer().end() <= self.start() || self.end() <= st[i].buffer().start()
        &&& self.extra_starts().len() == TB_COUNT
        &&& self.extra_ends().len() == TB_COUNT
        &&& self.blocks_apart()
    }

    /// Two stores on one buffer take apart cells there, the earlier first;
    /// stores on two buffers sit in buffers that do not overlap.
    pub open spec fn blocks_apart(&self) -> bool {
        forall|i: int, j: int|
            0 <= i < j < STORE_COUNT ==> {
                let a = #[trigger] self.store_seq()[i];
                let b = #[trigger] self.store_seq()[j];
                if a.buffer() == b.buffer() {
                    a.tb_end() <= b.tb_start()
                } else {
                    a.buffer().end() <= b.buffer().start() || b.buffer().end() <= a.buffer().start()
                }
            }
    }

    /// The store that `get(id)` returns.
    pub open spec fn store_for(&self, id: EntryStoreId) -> EntryStoreWriter {
        self.store_seq()[self.index()[id.0 as int]->0 as int]
    }

    /// The store of `defs[i]` is the one registered under its id.
    pub proof fn lemma_store_for_def(&self, i: int)
        requires
            self.wf(),
            0 <= i < STORE_COUNT,
        ensures
            self.store_for(self.def_seq()[i].id) == self.store_seq()[i],
    {
        assert(self.index()[self.def_seq()[i].id.0 as int] == Some(i as u16));
    }

    /// Distinct stores occupy disjoint memory, inside the registry's region.
    pub proof fn lemma_stores_apart(&self, i: int, j: int)
        requires
            self.wf(),
            0 <= i < STORE_COUNT,
            0 <= j < STORE_COUNT,
        ensures
            self.start() <= self.store_seq()[i].start(),
            self.store_seq()[i].end() <= self.end(),
            i < j ==> self.store_seq()[i].end() <= self.store_seq()[j].start(),
    {
        let d = self.def_seq();
        let dflt = TripleBufferId(DEFAULT_TB_RAW);
        self.store_seq()[i].lemma_wf();
        self.store_seq()[i].slots().lemma_wf();
        lemma_es_step(d, i, dflt);
        lemma_es_prefix(d, i + 1, STORE_COUNT as int, dflt);
        assert(d.take(STORE_COUNT as int) =~= d);
        if i < j {
            lemma_es_prefix(d, i + 1, j, dflt);
        }
    }
}


impl<const TB_COUNT: usize, const STORE_COUNT: usize> EntryStoreWriterRegistry<TB_COUNT, STORE_COUNT> {
    /// Every store sits on the registry buffer its definition names.
    pub open spec fn placed_on<const TB: usize>(&self, reg: TripleBufferWriterRegistry<TB>) -> bool {
        forall|i: int|
            0 <= i < STORE_COUNT ==> reg.id_ok((#[trigger] self.def_seq()[i]).tb_id) && self.store_seq()[i].buffer()
                == reg.tb_for(self.def_seq()[i].tb_id)
    }

    pub fn new(
        mem: &mut AtomicBuffer,
        tb_registry: &TripleBufferWriterRegistry<TB_COUNT>,
        defs: [EntryStoreDef; STORE_COUNT],
        mem_start_offset: usize,
        default_tb_start_offset: usize,
        extra_tb_start_offsets: [usize; TB_COUNT],
    ) -> (r: Self)
        requires
            es_registry_ok(old(mem)@, *tb_registry, defs@, mem_start_offset as int, default_tb_start_offset as int, extra_tb_start_offsets@),
        ensures
            r.wf(),
            r.def_seq() == defs@,
            r.placed_on(*tb_registry),
            r.start() == mem_start_offset,
            tb_registry.control_ok(final(mem)@),
            forall|i: int| 0 <= i < STORE_COUNT ==> (#[trigger] r.store_seq()[i]).empty_slots(final(mem)@),
            unchanged_outside(old(mem)@, final(mem)@, r.start(), r.end()),
    {
        Self::create(mem, tb_registry, defs, mem_start_offset, default_tb_start_offset, extra_tb_start_offsets, false)
    }

    pub fn bind(
        mem: &mut AtomicBuffer,
        tb_registry: &TripleBufferWriterRegistry<TB_COUNT>,
        defs: [EntryStoreDef; STORE_COUNT],
        mem_start_offset: usize,
        default_tb_start_offset: usize,
        extra_tb_start_offsets: [usize; TB_COUNT],
    ) -> (r: Self)
        requires
            es_registry_ok(old(mem)@, *tb_registry, defs@, mem_start_offset as int, default_tb_start_offset as int, extra_tb_start_offsets@),
        ensures
            r.wf(),
            r.def_seq() == defs@,
            r.placed_on(*tb_registry),
            r.start() == mem_start_offset,
            final(mem)@ == old(mem)@,
    {
        Self::create(mem, tb_registry, defs, mem_start_offset, default_tb_start_offset, extra_tb_start_offsets, true)
    }

    /// Lays the stores out in definition order: their allocator and
    /// attribute cells packed on the memory plane from `mem_start_offset`,
    /// their blocks packed per triple buffer from the given offsets. The
    /// stores' memory region must lie apart from the triple-buffer registry's
    /// region (`es_registry_ok`): the allocators write their region, and on
    /// an overlap they would overwrite buffer control cells and blocks. The
    /// sizes of both regions are given for every definition set by the
    /// `calculate_size_*` functions.
    pub fn create(
        mem: &mut AtomicBuffer,
        tb_registry: &TripleBufferWriterRegistry<TB_COUNT>,
        defs: [EntryStoreDef; STORE_COUNT],
        mem_start_offset: usize,
        default_tb_start_offset: usize,
        extra_tb_start_offsets: [usize; TB_COUNT],
        bind: bool,
    ) -> (r: Self)
        requires
            es_registry_ok(old(mem)@, *tb_registry, defs@, mem_start_offset as int, default_tb_start_offset as int, extra_tb_start_offsets@),
        ensures
            r.wf(),
            r.def_seq() == defs@,
            r.placed_on(*tb_registry),
            r.start() == mem_start_offset,
            r.end() <= final(mem)@.len(),
            tb_registry.control_ok(final(mem)@),
            bind ==> final(mem)@ == old(mem)@,
            !bind ==> forall|i: int| 0 <= i < STORE_COUNT ==> (#[trigger] r.store_seq()[i]).empty_slots(final(mem)@),
            unchanged_outside(old(mem)@, final(mem)@, r.start(), r.end()),
            r.default_start() == default_tb_start_offset,
            r.default_end() == default_tb_start_offset + es_load(defs@, TripleBufferId(DEFAULT_TB_RAW)),
            r.extra_starts() == extra_tb_start_offsets@,
            forall|k: int|
                0 <= k < TB_COUNT ==> #[trigger] r.extra_ends()[k] == extra_tb_start_offsets@[k] + es_load(
                    defs@,
                    tb_registry.def_seq()[k].id,
                ),
            forall|i: int|
                0 <= i < STORE_COUNT ==> (#[trigger] r.store_seq()[i]).tb_start() == es_tb_start(
                    *tb_registry,
                    defs@,
                    default_tb_start_offset as int,
                    extra_tb_start_offsets@,
                    i,
                ),
    {
        let _len = mem.len();
        let ghost d = defs@;
        let ghost ex = extra_tb_start_offsets@;
        let ghost reg = *tb_registry;
        let ghost ds = default_tb_start_offset as int;
        let ghost ms = mem_start_offset as int;
        let ghost dflt = TripleBufferId(DEFAULT_TB_RAW);
        let mut tb_starts: Vec<usize> = Vec::new();
        let mut mem_starts: Vec<usize> = Vec::new();
        let mut mem_cursor: usize = mem_start_offset;
        let mut default_cursor: usize = default_tb_start_offset;
        let mut extra_cursors: Vec<usize> = Vec::new();
        let mut k: usize = 0;
        while k < TB_COUNT
            invariant
                ex == extra_tb_start_offsets@,
                k <= TB_COUNT,
                extra_cursors@ == ex.take(k as int),
            decreases TB_COUNT - k,
        {
            extra_cursors.push(extra_tb_start_offsets[k]);
            proof {
                assert(ex.take(k + 1) =~= ex.take(k as int).push(ex[k as int]));
            }
            k = k + 1;
        }
        proof {
            assert(ex.take(TB_COUNT as int) =~= ex);
            assert forall|k: int| 0 <= k < TB_COUNT implies #[trigger] extra_cursors@[k] == ex[k] + es_load(d.take(0), reg.def_seq()[k].id) by {
            }
        }
        let mut i: usize = 0;
        while i < STORE_COUNT
            invariant
                es_registry_ok(old(mem)@, reg, d, ms, ds, ex),
                reg == *tb_registry,
                d == defs@,
                ex == extra_tb_start_offsets@,
                ds == default_tb_start_offset,
                ms == mem_start_offset,
                dflt == TripleBufferId(DEFAULT_TB_RAW),
                _len == old(mem)@.len(),
                i <= STORE_COUNT,
                tb_starts@.len() == i,
                mem_starts@.len() == i,
                forall|j: int| 0 <= j < i ==> #[trigger] tb_starts@[j] == es_tb_start(reg, d, ds, ex, j),
                forall|j: int| 0 <= j < i ==> #[trigger] mem_starts@[j] == ms + es_mem(d.take(j)),
                mem_cursor == ms + es_mem(d.take(i as int)),
                default_cursor == ds + es_load(d.take(i as int), dflt),
                extra_cursors@.len() == TB_COUNT,
                forall|k: int|
                    0 <= k < TB_COUNT ==> #[trigger] extra_cursors@[k] == ex[k] + es_load(d.take(i as int), reg.def_seq()[k].id),
            decreases STORE_COUNT - i,
        {
            let def = defs[i];
            proof {
                let c = d[i as int].config;
                assert(reg.id_ok(d[i as int].tb_id));
                reg.lemma_inside(d[i as int].tb_id);
                reg.tb_for(d[i as int].tb_id).lemma_layout();
                lemma_es_step(d, i as int, dflt);
                lemma_es_prefix(d, i + 1, STORE_COUNT as int, dflt);
                assert(d.take(STORE_COUNT as int) =~= d);
                assert(0 <= c.capacity * (c.core_stride + c.meta_stride)) by (nonlinear_arith);
                assert(0 <= c.capacity * c.attr_stride) by (nonlinear_arith);
            }
            tb_starts.push(0);
            let ts: usize = if def.tb_id.is_default() {
                let c = default_cursor;
                default_cursor = default_cursor + def.size_on_tb();
                proof {
                    assert forall|k: int| 0 <= k < TB_COUNT implies #[trigger] extra_cursors@[k] == ex[k] + es_load(d.take(i + 1), reg.def_seq()[k].id) by {
                        assert(reg.def_seq()[k].id.0 < TB_COUNT);
                        lemma_es_step(d, i as int, reg.def_seq()[k].id);
                    }
                }
                c
            } else {
                let index = tb_registry.index_of(def.tb_id) as usize;
                let c = extra_cursors[index];
                extra_cursors.set(index, c + def.size_on_tb());
                proof {
                    lemma_es_step(d, i as int, dflt);
                    assert forall|k: int| 0 <= k < TB_COUNT implies #[trigger] extra_cursors@[k] == ex[k] + es_load(d.take(i + 1), reg.def_seq()[k].id) by {
                        lemma_es_step(d, i as int, reg.def_seq()[k].id);
                        if k != index {
                            assert(reg.def_seq()[k].id != d[i as int].tb_id) by {
                                if reg.def_seq()[k].id == d[i as int].tb_id {
                                    assert(reg.index()[reg.def_seq()[k].id.0 as int] == Some(k as u16));
                                }
                            }
                        }
                    }
                }
                c
            };
            tb_starts.set(i, ts);
            mem_starts.push(mem_cursor);
            mem_cursor = mem_cursor + def.size_on_mem();
            i = i + 1;
        }
        let mut id_index: Vec<Option<u16>> = Vec::new();
        let mut k: usize = 0;
        while k < STORE_COUNT
            invariant
                k <= STORE_COUNT,
                id_index@.len() == k,
                forall|j: int| 0 <= j < k ==> #[trigger] id_index@[j] is None,
            decreases STORE_COUNT - k,
        {
            id_index.push(None);
            k = k + 1;
        }
        let mut i: usize = 0;
        while i < STORE_COUNT
            invariant
                es_ids_perm(d),
                d == defs@,
                d.len() == STORE_COUNT,
                0 < STORE_COUNT < 0xffff,
                i <= STORE_COUNT,
                id_index@.len() == STORE_COUNT,
                forall|j: int| 0 <= j < i ==> id_index@[(#[trigger] d[j]).id.0 as int] == Some(j as u16),
                forall|x: int|
                    0 <= x < STORE_COUNT && #[trigger] id_index@[x] is Some ==> (id_index@[x]->0 as int) < i
                        && d[id_index@[x]->0 as int].id.0 == x,
            decreases STORE_COUNT - i,
        {
            let id = defs[i].id;
            id_index.set(id.0 as usize, Some(i as u16));
            proof {
                assert forall|j: int| 0 <= j < i + 1 implies id_index@[(#[trigger] d[j]).id.0 as int] == Some(j as u16) by {
                    if j < i {
                        assert(d[j].id != d[i as int].id);
                    }
                }
            }
            i = i + 1;
        }
        proof {
            let ids = Seq::new(STORE_COUNT as nat, |j: int| d[j].id.0 as int);
            assert forall|a: int, b: int| 0 <= a < b < ids.len() implies ids[a] != ids[b] by {
                assert(d[a].id != d[b].id);
            }
            lemma_distinct_cover(ids, STORE_COUNT as int);
            assert forall|x: int| 0 <= x < STORE_COUNT implies (#[trigger] id_index@[x]) is Some by {
                assert(ids.contains(x));
                let j = choose|j: int| 0 <= j < ids.len() && ids[j] == x;
                assert(id_index@[d[j].id.0 as int] == Some(j as u16));
            }
            assert(d.take(STORE_COUNT as int) =~= d);
        }
        let mut stores: Vec<EntryStoreWriter> = Vec::new();
        let mut def_vec: Vec<EntryStoreDef> = Vec::new();
        let mut i: usize = 0;
        while i < STORE_COUNT
            invariant
                es_registry_ok(old(mem)@, reg, d, ms, ds, ex),
                reg.control_ok(mem@),
                reg == *tb_registry,
                d == defs@,
                ex == extra_tb_start_offsets@,
                ds == default_tb_start_offset,
                ms == mem_start_offset,
                dflt == TripleBufferId(DEFAULT_TB_RAW),
                mem_cursor == ms + es_mem(d),
                bind ==> mem@ == old(mem)@,
                unchanged_outside(old(mem)@, mem@, ms, ms + es_mem(d.take(i as int))),
                i <= STORE_COUNT,
                tb_starts@.len() == STORE_COUNT,
                mem_starts@.len() == STORE_COUNT,
                forall|j: int| 0 <= j < STORE_COUNT ==> #[trigger] tb_starts@[j] == es_tb_start(reg, d, ds, ex, j),
                forall|j: int| 0 <= j < STORE_COUNT ==> #[trigger] mem_starts@[j] == ms + es_mem(d.take(j)),
                def_vec@ == d.take(i as int),
                stores@.len() == i,
                forall|j: int|
                    0 <= j < i ==> {
                        &&& (#[trigger] stores@[j]).wf()
                        &&& stores@[j].valid(mem@)
                        &&& stores@[j].cfg() == d[j].config
                        &&& stores@[j].buffer() == reg.tb_for(d[j].tb_id)
                        &&& stores@[j].start() == ms + es_mem(d.take(j))
                        &&& stores@[j].tb_start() == es_tb_start(reg, d, ds, ex, j)
                        &&& (!bind ==> stores@[j].empty_slots(mem@))
                    },
            decreases STORE_COUNT - i,
        {
            let def = defs[i];
            let tb = tb_registry.get(def.tb_id);
            let ghost ma = mem@;
            let ghost si = ms + es_mem(d.take(i as int));
            proof {
                let c = d[i as int].config;
                lemma_es_step(d, i as int, dflt);
                lemma_es_prefix(d, i + 1, STORE_COUNT as int, dflt);
                assert(d.take(STORE_COUNT as int) =~= d);
                assert(reg.id_ok(d[i as int].tb_id));
                reg.lemma_inside(d[i as int].tb_id);
                assert(reg.tb_for(d[i as int].tb_id).valid(ma));
                assert(EntryStoreWriter::layout_ok(ma, *tb, c, si, tb_starts@[i as int] as int));
            }
            let store = EntryStoreWriter::create(mem, *tb, def.config(), mem_starts[i], tb_starts[i], bind);
            proof {
                let c = d[i as int].config;
                store.lemma_wf();
                store.slots().lemma_wf();
                let mb = mem@;
                if !bind {
                    reg.lemma_outside(ma, mb, si, store.attrs_start());
                    assert forall|j: int| 0 <= j < i implies {
                        &&& (#[trigger] stores@[j]).valid(mb)
                        &&& stores@[j].empty_slots(mb)
                    } by {
                        let sj = stores@[j];
                        sj.lemma_wf();
                        sj.slots().lemma_wf();
                        lemma_es_step(d, j, dflt);
                        lemma_es_prefix(d, j + 1, i as int, dflt);
                        assert forall|x: int| sj.slots().start() <= x < sj.slots().end() implies #[trigger] mb[x] == ma[x] by {
                        }
                        sj.slots().lemma_frame(ma, mb);
                    }
                }
                assert(unchanged_outside(old(mem)@, mb, ms, ms + es_mem(d.take(i + 1))));
            }
            stores.push(store);
            def_vec.push(def);
            proof {
                assert(d.take(i + 1) =~= d.take(i as int).push(d[i as int]));
            }
            i = i + 1;
        }
        proof {
            assert(d.take(STORE_COUNT as int) =~= d);
            assert forall|j: int| 0 <= j < STORE_COUNT implies (#[trigger] stores@[j]).buffer().end() <= ms || ms + es_mem(d)
                <= stores@[j].buffer().start() by {
                assert(reg.id_ok(d[j].tb_id));
                reg.lemma_inside(d[j].tb_id);
            }
            assert forall|a: int, b: int| 0 <= a < b < STORE_COUNT implies {
                let x = #[trigger] stores@[a];
                let y = #[trigger] stores@[b];
                if x.buffer() == y.buffer() {
                    x.tb_end() <= y.tb_start()
                } else {
                    x.buffer().end() <= y.buffer().start() || y.buffer().end() <= x.buffer().start()
                }
            } by {
                lemma_blocks_apart(reg, d, ds, ex, stores@[a], stores@[b], a, b);
            }
        }
        let r = EntryStoreWriterRegistry {
            id_index,
            defs: def_vec,
            stores,
            mem_start_offset,
            mem_end_offset: mem_cursor,
            default_tb_start_offset,
            default_tb_end_offset: default_cursor,
            extra_tb_start_offsets: offsets_vec(&extra_tb_start_offsets),
            extra_tb_end_offsets: extra_cursors,
        };
        r
    }
}

impl<const TB_COUNT: usize, const STORE_COUNT: usize> EntryStoreWriterRegistry<TB_COUNT, STORE_COUNT> {
    /// Cells the stores take on the memory plane.
    pub fn calculate_size_on_mem(defs: &[EntryStoreDef; STORE_COUNT]) -> (r: usize)
        requires
            es_mem(defs@) <= usize::MAX,
        ensures
            r == es_mem(defs@),
    {
        let ghost d = defs@;
        let ghost dflt = TripleBufferId(DEFAULT_TB_RAW);
        let mut size: usize = 0;
        let mut i: usize = 0;
        while i < STORE_COUNT
            invariant
                d == defs@,
                dflt == TripleBufferId(DEFAULT_TB_RAW),
                es_mem(d) <= usize::MAX,
                i <= STORE_COUNT,
                size == es_mem(d.take(i as int)),
            decreases STORE_COUNT - i,
        {
            proof {
                lemma_es_step(d, i as int, dflt);
                lemma_es_prefix(d, i + 1, STORE_COUNT as int, dflt);
                assert(d.take(STORE_COUNT as int) =~= d);
            }
            size = size + defs[i].size_on_mem();
            i = i + 1;
        }
        proof {
            assert(d.take(STORE_COUNT as int) =~= d);
        }
        size
    }

    pub fn calculate_size_on_default_tb(defs: &[EntryStoreDef; STORE_COUNT]) -> (r: usize)
        requires
            es_load(defs@, TripleBufferId(DEFAULT_TB_RAW)) <= usize::MAX,
            forall|i: int| 0 <= i < STORE_COUNT ==> (#[trigger] defs@[i]).config.core_stride + defs@[i].config.meta_stride <= usize::MAX,
        ensures
            r == es_load(defs@, TripleBufferId(DEFAULT_TB_RAW)),
    {
        Self::calculate_size_on_tb_for(TripleBufferId::default_tb(), defs)
    }

    /// Cells the blocks of the stores placed on `tb_id` take there.
    pub fn calculate_size_on_tb_for(tb_id: TripleBufferId, defs: &[EntryStoreDef; STORE_COUNT]) -> (r: usize)
        requires
            es_load(defs@, tb_id) <= usize::MAX,
            forall|i: int| 0 <= i < STORE_COUNT ==> (#[trigger] defs@[i]).config.core_stride + defs@[i].config.meta_stride <= usize::MAX,
        ensures
            r == es_load(defs@, tb_id),
    {
        let ghost d = defs@;
        let mut size: usize = 0;
        let mut i: usize = 0;
        while i < STORE_COUNT
            invariant
                d == defs@,
                es_load(d, tb_id) <= usize::MAX,
                forall|i: int| 0 <= i < STORE_COUNT ==> (#[trigger] d[i]).config.core_stride + d[i].config.meta_stride <= usize::MAX,
                i <= STORE_COUNT,
                size == es_load(d.take(i as int), tb_id),
            decreases STORE_COUNT - i,
        {
            proof {
                lemma_es_step(d, i as int, tb_id);
                lemma_es_prefix(d, i + 1, STORE_COUNT as int, tb_id);
                assert(d.take(STORE_COUNT as int) =~= d);
            }
            let def = defs[i];
            if def.tb_id.0 == tb_id.0 {
                size = size + def.size_on_tb();
            }
            i = i + 1;
        }
        proof {
            assert(d.take(STORE_COUNT as int) =~= d);
        }
        size
    }

    /// The consumer-side registry over the same stores.
    pub fn to_reader(&self, mem: &AtomicBuffer) -> (r: EntryStoreReaderRegistry<TB_COUNT, STORE_COUNT>)
        requires
            self.wf(),
            forall|i: int| 0 <= i < STORE_COUNT ==> (#[trigger] self.store_seq()[i]).valid(mem@),
        ensures
            r.wf(),
            r.index() == self.index(),
            r.start() == self.start(),
            r.end() == self.end(),
            r.default_start() == self.default_start(),
            r.default_end() == self.default_end(),
            r.extra_starts() == self.extra_starts(),
            r.extra_ends() == self.extra_ends(),
            forall|i: int|
                0 <= i < STORE_COUNT ==> {
                    &&& (#[trigger] r.store_seq()[i]).cfg() == self.store_seq()[i].cfg()
                    &&& r.store_seq()[i].start() == self.store_seq()[i].start()
                    &&& r.store_seq()[i].tb_start() == self.store_seq()[i].tb_start()
                    &&& r.store_seq()[i].consistent()
                },
    {
        let mut index: Vec<Option<u16>> = Vec::new();
        let mut readers: Vec<EntryStoreReader> = Vec::new();
        let mut i: usize = 0;
        while i < STORE_COUNT
            invariant
                self.wf(),
                forall|i: int| 0 <= i < STORE_COUNT ==> (#[trigger] self.store_seq()[i]).valid(mem@),
                i <= STORE_COUNT,
                index@ == self.index().take(i as int),
                readers@.len() == i,
                forall|k: int|
                    0 <= k < i ==> {
                        &&& (#[trigger] readers@[k]).cfg() == self.store_seq()[k].cfg()
                        &&& readers@[k].start() == self.store_seq()[k].start()
                        &&& readers@[k].tb_start() == self.store_seq()[k].tb_start()
                        &&& readers@[k].consistent()
                    },
            decreases STORE_COUNT - i,
        {
            index.push(self.id_index[i]);
            readers.push(self.stores[i].to_reader(mem));
            proof {
                assert(self.index().take(i + 1) =~= self.index().take(i as int).push(self.index()[i as int]));
            }
            i = i + 1;
        }
        proof {
            assert(self.index().take(STORE_COUNT as int) =~= self.index());
        }
        EntryStoreReaderRegistry::bind(
            index,
            readers,
            self.mem_start_offset,
            self.mem_end_offset,
            self.default_tb_start_offset,
            self.default_tb_end_offset,
            self.extra_tb_start_offsets.clone(),
            self.extra_tb_end_offsets.clone(),
        )
    }

    #[inline]
    pub fn mem_start_offset(&self) -> (r: usize)
        ensures
            r == self.start(),
    {
        self.mem_start_offset
    }

    #[inline]
    pub fn mem_end_offset(&self) -> (r: usize)
        ensures
            r == self.end(),
    {
        self.mem_end_offset
    }

    #[inline]
    pub fn default_tb_start_offset(&self) -> (r: usize)
        ensures
            r == self.default_start(),
    {
        self.default_tb_start_offset
    }

    #[inline]
    pub fn default_tb_end_offset(&self) -> (r: usize)
        ensures
            r == self.default_end(),
    {
        self.default_tb_end_offset
    }

    #[inline]
    pub fn extra_tb_start_offsets(&self) -> (r: Vec<usize>)
        ensures
            r@ == self.extra_starts(),
    {
        self.extra_tb_start_offsets.clone()
    }

    #[inline]
    pub fn extra_tb_end_offsets(&self) -> (r: Vec<usize>)
        ensures
            r@ == self.extra_ends(),
    {
        self.extra_tb_end_offsets.clone()
    }

    /// Cells the registry spans on the memory plane.
    #[inline]
    pub fn len(&self) -> (r: usize)
        requires
            self.wf(),
        ensures
            r == self.end() - self.start(),
    {
        proof {
            lemma_es_nonneg(self.def_seq(), TripleBufferId(DEFAULT_TB_RAW));
        }
        self.mem_end_offset - self.mem_start_offset
    }

    /// The store registered under `id`.
    #[inline]
    pub fn get(&self, id: EntryStoreId) -> (r: &EntryStoreWriter)
        requires
            self.wf(),
            id.0 < STORE_COUNT,
        ensures
            *r == self.store_for(id),
    {
        let index = self.id_index[id.0 as usize].unwrap();
        &self.stores[index as usize]
    }

    /// Publishes every store: each reclaims its acknowledged retired slots and
    /// advances its generation.
    pub fn publish_all(&self, mem: &mut AtomicBuffer)
        requires
            self.wf(),
            forall|i: int| 0 <= i < STORE_COUNT ==> (#[trigger] self.store_seq()[i]).valid(old(mem)@) && self.store_seq()[i].inv(old(mem)@),
        ensures
            final(mem)@.len() == old(mem)@.len(),
            unchanged_outside(old(mem)@, final(mem)@, self.start(), self.end()),
            forall|i: int|
                0 <= i < STORE_COUNT ==> {
                    &&& (#[trigger] self.store_seq()[i]).valid(final(mem)@)
                    &&& self.store_seq()[i].inv(final(mem)@)
                    &&& self.store_seq()[i].slots().publish_result(old(mem)@, final(mem)@)
                },
    {
        let n = self.stores.len();
        let mut i: usize = 0;
        while i < n
            invariant
                self.wf(),
                n == STORE_COUNT,
                i <= n,
                mem@.len() == old(mem)@.len(),
                unchanged_outside(old(mem)@, mem@, self.start(), self.end()),
                forall|j: int| 0 <= j < STORE_COUNT ==> (#[trigger] self.store_seq()[j]).valid(mem@) && self.store_seq()[j].inv(mem@),
                forall|j: int| 0 <= j < i ==> (#[trigger] self.store_seq()[j]).slots().publish_result(old(mem)@, mem@),
                forall|j: int|
                    i <= j < STORE_COUNT ==> {
                        &&& (#[trigger] self.store_seq()[j]).slots().allocated(mem@) == self.store_seq()[j].slots().allocated(old(mem)@)
                        &&& self.store_seq()[j].slots().deferred(mem@) == self.store_seq()[j].slots().deferred(old(mem)@)
                        &&& self.store_seq()[j].slots().free_order(mem@) == self.store_seq()[j].slots().free_order(old(mem)@)
                        &&& self.store_seq()[j].slots().entries(mem@) == self.store_seq()[j].slots().entries(old(mem)@)
                        &&& self.store_seq()[j].slots().writer_gen(mem@) == self.store_seq()[j].slots().writer_gen(old(mem)@)
                        &&& self.store_seq()[j].slots().ack_gen(mem@) == self.store_seq()[j].slots().ack_gen(old(mem)@)
                    },
            decreases n - i,
        {
            let ghost ma = mem@;
            let ghost si = self.store_seq()[i as int];
            self.stores[i].publish(mem);
            proof {
                let mb = mem@;
                self.lemma_stores_apart(i as int, i as int);
                si.lemma_wf();
                lemma_unchanged_widen(ma, mb, si.start(), si.attrs_start(), self.start(), self.end());
                lemma_unchanged_trans(old(mem)@, ma, mb, self.start(), self.end());
                assert forall|j: int| 0 <= j < STORE_COUNT && j != i implies {
                    &&& (#[trigger] self.store_seq()[j]).valid(mb)
                    &&& self.store_seq()[j].inv(mb)
                    &&& self.store_seq()[j].slots().allocated(mb) == self.store_seq()[j].slots().allocated(ma)
                    &&& self.store_seq()[j].slots().deferred(mb) == self.store_seq()[j].slots().deferred(ma)
                    &&& self.store_seq()[j].slots().free_order(mb) == self.store_seq()[j].slots().free_order(ma)
                    &&& self.store_seq()[j].slots().entries(mb) == self.store_seq()[j].slots().entries(ma)
                    &&& self.store_seq()[j].slots().writer_gen(mb) == self.store_seq()[j].slots().writer_gen(ma)
                    &&& self.store_seq()[j].slots().ack_gen(mb) == self.store_seq()[j].slots().ack_gen(ma)
                } by {
                    let sj = self.store_seq()[j];
                    self.lemma_stores_apart(i as int, j);
                    self.lemma_stores_apart(j, i as int);
                    sj.lemma_wf();
                    sj.slots().lemma_wf();
                    si.lemma_wf();
                    si.slots().lemma_wf();
                    assert forall|x: int| sj.slots().start() <= x < sj.slots().end() implies #[trigger] mb[x] == ma[x] by {
                    }
                    sj.slots().lemma_frame(ma, mb);
                    sj.buffer().lemma_layout();
                    assert forall|x: int| sj.buffer().start() <= x < sj.buffer().start() + 4 implies #[trigger] mb[x] == ma[x] by {
                    }
                    lemma_tb_inv_frame(ma, mb, sj.buffer().start());
                }
            }
            i = i + 1;
        }
    }
}

impl<const TB_COUNT: usize, const STORE_COUNT: usize> EntryStoreWriterRegistry<TB_COUNT, STORE_COUNT> {
    /// Cell `x` lies outside the registry's region and outside the buffer
    /// area of every store's triple buffer.
    pub open spec fn off_stores(&self, x: int) -> bool {
        &&& !(self.start() <= x < self.end())
        &&& forall|k: int|
            0 <= k < STORE_COUNT ==> !((#[trigger] self.store_seq()[k]).buffer().start() + 4 <= x
                < self.store_seq()[k].buffer().end())
    }

    /// Cell `x` lies outside the registry's region and, in each of the three
    /// buffers, before every store's first block cell.
    pub open spec fn off_store_blocks(&self, x: int) -> bool {
        &&& !(self.start() <= x < self.end())
        &&& forall|k: int|
            0 <= k < STORE_COUNT ==> !tb_in_region(
                x,
                (#[trigger] self.store_seq()[k]).buffer().start(),
                self.store_seq()[k].buffer().cap(),
                self.store_seq()[k].tb_start(),
                self.store_seq()[k].buffer().cap() - self.store_seq()[k].tb_start(),
            )
    }

    /// Cell `x` lies outside the registry's region and outside every store's
    /// blocks in each of the three buffers.
    pub open spec fn off_store_spans(&self, x: int) -> bool {
        &&& !(self.start() <= x < self.end())
        &&& forall|k: int|
            0 <= k < STORE_COUNT ==> !tb_in_region(
                x,
                (#[trigger] self.store_seq()[k]).buffer().start(),
                self.store_seq()[k].buffer().cap(),
                self.store_seq()[k].tb_start(),
                self.store_seq()[k].tb_end() - self.store_seq()[k].tb_start(),
            )
    }

    /// A block cell of store `e` lies outside the registry's region and
    /// outside the first `cnt` block cells of store `n`.
    pub proof fn lemma_block_cell_apart(&self, e: int, n: int, k: int, t: int, cnt: int)
        requires
            self.wf(),
            0 <= e < STORE_COUNT,
            0 <= n < STORE_COUNT,
            e != n,
            0 <= k < 3,
            0 <= t < self.store_seq()[e].tb_end() - self.store_seq()[e].tb_start(),
            0 <= cnt <= self.store_seq()[n].tb_end() - self.store_seq()[n].tb_start(),
        ensures
            !tb_in_region(
                tb_base(self.store_seq()[e].buffer().start(), self.store_seq()[e].buffer().cap(), k)
                    + self.store_seq()[e].tb_start() + t,
                self.store_seq()[n].buffer().start(),
                self.store_seq()[n].buffer().cap(),
                self.store_seq()[n].tb_start(),
                cnt,
            ),
            !(self.start() <= tb_base(self.store_seq()[e].buffer().start(), self.store_seq()[e].buffer().cap(), k)
                + self.store_seq()[e].tb_start() + t < self.end()),
    {
        let se = self.store_seq()[e];
        let sn = self.store_seq()[n];
        se.lemma_wf();
        sn.lemma_wf();
        if se.buffer() == sn.buffer() {
            if e < n {
                assert(se.tb_end() <= sn.tb_start());
            } else {
                assert(sn.tb_end() <= se.tb_start());
            }
            lemma_in_region_at(se.buffer().start(), se.buffer().cap(), k, se.tb_start() + t, sn.tb_start(), cnt);
        } else {
            if e < n {
                assert(se.buffer().end() <= sn.buffer().start() || sn.buffer().end() <= se.buffer().start());
            } else {
                assert(sn.buffer().end() <= se.buffer().start() || se.buffer().end() <= sn.buffer().start());
            }
        }
    }

    /// What `copy_from(source)` needs: at most as many buffers and stores, and
    /// each source store fitting the destination store registered under its id.
    pub open spec fn can_take<const TB_COUNT_M: usize, const STORE_COUNT_M: usize>(
        &self,
        source: &EntryStoreWriterRegistry<TB_COUNT_M, STORE_COUNT_M>,
        mem: Seq<i32>,
        source_mem: Seq<i32>,
    ) -> bool {
        &&& TB_COUNT_M <= TB_COUNT
        &&& STORE_COUNT_M <= STORE_COUNT
        &&& forall|k: int| 0 <= k < STORE_COUNT ==> (#[trigger] self.store_seq()[k]).valid(mem)
        &&& forall|i: int|
            0 <= i < STORE_COUNT_M ==> {
                let src = #[trigger] source.store_seq()[i];
                let dst = self.store_for(source.def_seq()[i].id);
                &&& src.valid(source_mem)
                &&& src.slots().inv(source_mem)
                &&& src.cap() <= dst.cap()
                &&& src.buffer().cap() <= dst.buffer().cap()
                &&& dst.tb_start() + src.cap() * src.block() <= dst.tb_end()
                &&& src.cap() * src.cfg().attr_stride <= dst.cap() * dst.cfg().attr_stride
            }
    }

    /// Copies every store of `source` into the store registered here under the
    /// same id (a larger kernel takes over a smaller one).
    pub fn copy_from<const TB_COUNT_M: usize, const STORE_COUNT_M: usize>(
        &self,
        mem: &mut AtomicBuffer,
        source: &EntryStoreWriterRegistry<TB_COUNT_M, STORE_COUNT_M>,
        source_mem: &AtomicBuffer,
    )
        requires
            self.wf(),
            source.wf(),
            self.can_take(source, old(mem)@, source_mem@),
        ensures
            final(mem)@.len() == old(mem)@.len(),
            forall|k: int| 0 <= k < STORE_COUNT ==> (#[trigger] self.store_seq()[k]).valid(final(mem)@),
            forall|i: int|
                0 <= i < STORE_COUNT_M ==> {
                    let src = #[trigger] source.store_seq()[i];
                    let dst = self.store_for(source.def_seq()[i].id);
                    &&& dst.slots().copy_result(&src.slots(), source_mem@, old(mem)@, final(mem)@)
                    &&& forall|t: int|
                        0 <= t < src.cap() * src.cfg().attr_stride ==> #[trigger] final(mem)@[dst.attrs_start() + t]
                            == source_mem@[src.attrs_start() + t]
                    &&& forall|k: int, t: int|
                        0 <= k < 3 && 0 <= t < src.cap() * src.block() ==> #[trigger] final(mem)@[tb_base(
                            dst.buffer().start(),
                            dst.buffer().cap(),
                            k,
                        ) + dst.tb_start() + t] == source_mem@[tb_base(src.buffer().start(), src.buffer().cap(), k)
                            + src.tb_start() + t]
                },
            forall|x: int|
                0 <= x < old(mem)@.len() && self.off_stores(x) ==> #[trigger] final(mem)@[x] == old(mem)@[x],
            forall|x: int|
                0 <= x < old(mem)@.len() && self.off_store_blocks(x) ==> #[trigger] final(mem)@[x] == old(mem)@[x],
            forall|x: int|
                0 <= x < old(mem)@.len() && self.off_store_spans(x) ==> #[trigger] final(mem)@[x] == old(mem)@[x],
    {
        let mut i: usize = 0;
        while i < STORE_COUNT_M
            invariant
                self.wf(),
                source.wf(),
                self.can_take(source, mem@, source_mem@),
                mem@.len() == old(mem)@.len(),
                forall|x: int| 0 <= x < old(mem)@.len() && self.off_stores(x) ==> #[trigger] mem@[x] == old(mem)@[x],
                forall|x: int| 0 <= x < old(mem)@.len() && self.off_store_blocks(x) ==> #[trigger] mem@[x] == old(mem)@[x],
                forall|x: int| 0 <= x < old(mem)@.len() && self.off_store_spans(x) ==> #[trigger] mem@[x] == old(mem)@[x],
                i <= STORE_COUNT_M,
                forall|j: int|
                    i <= j < STORE_COUNT_M ==> {
                        let dst = self.store_for(#[trigger] source.def_seq()[j].id);
                        forall|x: int| dst.start() <= x < dst.end() ==> #[trigger] mem@[x] == old(mem)@[x]
                    },
                forall|j: int|
                    0 <= j < i ==> {
                        let src = #[trigger] source.store_seq()[j];
                        let dst = self.store_for(source.def_seq()[j].id);
                        &&& dst.slots().copy_result(&src.slots(), source_mem@, old(mem)@, mem@)
                        &&& forall|t: int|
                            0 <= t < src.cap() * src.cfg().attr_stride ==> #[trigger] mem@[dst.attrs_start() + t]
                                == source_mem@[src.attrs_start() + t]
                        &&& forall|k: int, t: int|
                            0 <= k < 3 && 0 <= t < src.cap() * src.block() ==> #[trigger] mem@[tb_base(
                                dst.buffer().start(),
                                dst.buffer().cap(),
                                k,
                            ) + dst.tb_start() + t] == source_mem@[tb_base(src.buffer().start(), src.buffer().cap(), k)
                                + src.tb_start() + t]
                    },
            decreases STORE_COUNT_M - i,
        {
            let id = source.defs[i].id;
            proof {
                source.lemma_store_for_def(i as int);
                assert(source.def_seq()[i as int].id.0 < STORE_COUNT_M);
            }
            let src = source.get(id);
            let dst = self.get(id);
            let ghost ma = mem@;
            let ghost di = self.index()[id.0 as int]->0 as int;
            proof {
                assert(self.store_seq()[di].valid(ma));
                assert(source.store_seq()[i as int] == *src);
                dst.lemma_wf();
            }
            dst.copy_from(mem, src, source_mem);
            proof {
                let mb = mem@;
                dst.lemma_wf();
                dst.buffer().lemma_layout();
                assert forall|k: int| 0 <= k < STORE_COUNT implies (#[trigger] self.store_seq()[k]).valid(mb) by {
                }
                assert forall|x: int| 0 <= x < old(mem)@.len() && self.off_stores(x) implies #[trigger] mb[x] == old(mem)@[x] by {
                    self.lemma_stores_apart(di, di);
                    assert(!(self.store_seq()[di].buffer().start() + 4 <= x < self.store_seq()[di].buffer().end()));
                    assert(0 <= src.cap() * src.block()) by (nonlinear_arith)
                        requires
                            0 <= src.cap(),
                            0 <= src.block(),
                    ;
                    assert(!tb_in_region(x, dst.buffer().start(), dst.buffer().cap(), dst.tb_start(), src.cap() * src.block()));
                    assert(mb[x] == ma[x]);
                }
                assert forall|x: int| 0 <= x < old(mem)@.len() && self.off_store_blocks(x) implies #[trigger] mb[x] == old(mem)@[x] by {
                    self.lemma_stores_apart(di, di);
                    assert(!tb_in_region(
                        x,
                        dst.buffer().start(),
                        dst.buffer().cap(),
                        dst.tb_start(),
                        dst.buffer().cap() - dst.tb_start(),
                    ));
                    assert(0 <= src.cap() * src.block()) by (nonlinear_arith)
                        requires
                            0 <= src.cap(),
                            0 <= src.block(),
                    ;
                    assert(!tb_in_region(x, dst.buffer().start(), dst.buffer().cap(), dst.tb_start(), src.cap() * src.block()));
                    assert(mb[x] == ma[x]);
                }
                assert forall|x: int| 0 <= x < old(mem)@.len() && self.off_store_spans(x) implies #[trigger] mb[x] == old(mem)@[x] by {
                    self.lemma_stores_apart(di, di);
                    assert(!tb_in_region(x, dst.buffer().start(), dst.buffer().cap(), dst.tb_start(), dst.tb_end() - dst.tb_start()));
                    assert(!tb_in_region(x, dst.buffer().start(), dst.buffer().cap(), dst.tb_start(), src.cap() * src.block()));
                    assert(mb[x] == ma[x]);
                }
                // Cells of the registry region outside store `di` are untouched.
                assert forall|x: int|
                    0 <= x < ma.len() && self.start() <= x < self.end() && !(dst.start() <= x < dst.end()) implies #[trigger] mb[x] == ma[x] by {
                    self.lemma_stores_apart(di, di);
                    assert(dst.buffer().end() <= self.start() || self.end() <= dst.buffer().start());
                    assert(0 <= src.cap() * src.block()) by (nonlinear_arith)
                        requires
                            0 <= src.cap(),
                            0 <= src.block(),
                    ;
                    assert(!tb_in_region(x, dst.buffer().start(), dst.buffer().cap(), dst.tb_start(), src.cap() * src.block()));
                }
                assert forall|j: int| i < j < STORE_COUNT_M implies {
                    let d2 = self.store_for(#[trigger] source.def_seq()[j].id);
                    forall|x: int| d2.start() <= x < d2.end() ==> #[trigger] mb[x] == old(mem)@[x]
                } by {
                    let dj = self.index()[source.def_seq()[j].id.0 as int]->0 as int;
                    assert(source.def_seq()[j].id != source.def_seq()[i as int].id);
                    assert(dj != di);
                    self.lemma_stores_apart(dj, di);
                    self.lemma_stores_apart(di, dj);
                }
                assert forall|j: int| 0 <= j < i + 1 implies {
                    let s2 = #[trigger] source.store_seq()[j];
                    let d2 = self.store_for(source.def_seq()[j].id);
                    &&& d2.slots().copy_result(&s2.slots(), source_mem@, old(mem)@, mb)
                    &&& forall|t: int|
                        0 <= t < s2.cap() * s2.cfg().attr_stride ==> #[trigger] mb[d2.attrs_start() + t]
                            == source_mem@[s2.attrs_start() + t]
                    &&& forall|k: int, t: int|
                        0 <= k < 3 && 0 <= t < s2.cap() * s2.block() ==> #[trigger] mb[tb_base(
                            d2.buffer().start(),
                            d2.buffer().cap(),
                            k,
                        ) + d2.tb_start() + t] == source_mem@[tb_base(s2.buffer().start(), s2.buffer().cap(), k)
                            + s2.tb_start() + t]
                } by {
                    let s2 = source.store_seq()[j];
                    let dj = self.index()[source.def_seq()[j].id.0 as int]->0 as int;
                    let d2 = self.store_seq()[dj];
                    d2.lemma_wf();
                    d2.slots().lemma_wf();
                    if j == i {
                        d2.slots().lemma_frame(old(mem)@, ma);
                    } else {
                        assert(source.def_seq()[j].id != source.def_seq()[i as int].id);
                        assert(dj != di);
                        self.lemma_stores_apart(dj, di);
                        self.lemma_stores_apart(di, dj);
                        assert forall|x: int| d2.start() <= x < d2.end() implies #[trigger] mb[x] == ma[x] by {
                        }
                        assert forall|x: int| d2.slots().start() <= x < d2.slots().end() implies #[trigger] mb[x] == ma[x] by {
                        }
                        d2.slots().lemma_frame(ma, mb);
                        assert forall|t: int| 0 <= t < s2.cap() * s2.cfg().attr_stride implies #[trigger] mb[d2.attrs_start() + t]
                            == source_mem@[s2.attrs_start() + t] by {
                            assert(mb[d2.attrs_start() + t] == ma[d2.attrs_start() + t]);
                        }
                        assert(0 <= src.cap() * src.block()) by (nonlinear_arith)
                            requires
                                0 <= src.cap(),
                                0 <= src.block(),
                        ;
                        self.lemma_stores_apart(di, di);
                        assert forall|k: int, t: int| 0 <= k < 3 && 0 <= t < s2.cap() * s2.block() implies #[trigger] mb[tb_base(
                            d2.buffer().start(),
                            d2.buffer().cap(),
                            k,
                        ) + d2.tb_start() + t] == source_mem@[tb_base(s2.buffer().start(), s2.buffer().cap(), k)
                            + s2.tb_start() + t] by {
                            self.lemma_block_cell_apart(dj, di, k, t, src.cap() * src.block());
                            let c = tb_base(d2.buffer().start(), d2.buffer().cap(), k) + d2.tb_start() + t;
                            assert(mb[c] == ma[c]);
                        }
                    }
                }
            }
            i = i + 1;
        }
    }
}

/// The offsets as a vector.
fn offsets_vec<const TB: usize>(a: &[usize; TB]) -> (r: Vec<usize>)
    ensures
        r@ == a@,
{
    let mut v: Vec<usize> = Vec::new();
    let mut k: usize = 0;
    while k < TB
        invariant
            k <= TB,
            v@ == a@.take(k as int),
        decreases TB - k,
    {
        v.push(a[k]);
        proof {
            assert(a@.take(k + 1) =~= a@.take(k as int).push(a@[k as int]));
        }
        k = k + 1;
    }
    proof {
        assert(a@.take(TB as int) =~= a@);
    }
    v
}

} // verus!
