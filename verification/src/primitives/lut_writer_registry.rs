use crate::primitives::lut_def::{LutDef, LutId};
use crate::primitives::lut_reader::LutReader;
use crate::primitives::lut_reader_registry::LutReaderRegistry;
use crate::primitives::lut_writer::LutWriter;
use crate::primitives::triple_buffer_def::{DEFAULT_TB_RAW, TripleBufferId};
use crate::primitives::triple_buffer_writer::{lemma_in_region_at, tb_base, tb_in_region, tb_inv, tb_writer_id};
use crate::primitives::triple_buffer_writer_registry::TripleBufferWriterRegistry;
use crate::primitives::types::{
    AtomicBuffer, lemma_distinct_cover, lemma_unchanged_trans, lemma_unchanged_widen, lemma_write_cells_unchanged,
    unchanged_outside, write_cells,
};
use vstd::prelude::*;

verus! {

/// Cells that the tables of `defs` placed on triple buffer `tb` take there.
pub open spec fn lut_load(defs: Seq<LutDef>, tb: TripleBufferId) -> int
    decreases defs.len(),
{
    if defs.len() == 0 {
        0
    } else {
        lut_load(defs.drop_last(), tb) + if defs.last().tb_id == tb {
            defs.last().size as int
        } else {
            0
        }
    }
}

pub proof fn lemma_lut_load_step(defs: Seq<LutDef>, i: int, tb: TripleBufferId)
    requires
        0 <= i < defs.len(),
    ensures
        lut_load(defs.take(i + 1), tb) == lut_load(defs.take(i), tb) + if defs[i].tb_id == tb {
            defs[i].size as int
        } else {
            0
        },
        0 <= lut_load(defs.take(i), tb),
{
    assert(defs.take(i + 1).drop_last() =~= defs.take(i));
    lemma_lut_load_nonneg(defs.take(i), tb);
}

pub proof fn lemma_lut_load_nonneg(defs: Seq<LutDef>, tb: TripleBufferId)
    ensures
        0 <= lut_load(defs, tb),
    decreases defs.len(),
{
    if defs.len() > 0 {
        lemma_lut_load_nonneg(defs.drop_last(), tb);
    }
}

/// The ids of `defs` are a permutation of `[0, defs.len())`.
pub open spec fn lut_ids_perm(defs: Seq<LutDef>) -> bool {
    &&& forall|i: int| 0 <= i < defs.len() ==> (#[trigger] defs[i]).id.0 < defs.len()
    &&& forall|i: int, j: int| 0 <= i < j < defs.len() ==> (#[trigger] defs[i]).id != (#[trigger] defs[j]).id
}

/// Where the tables on triple buffer `tb` begin.
pub open spec fn lut_base<const TB: usize>(reg: TripleBufferWriterRegistry<TB>, default_start: int, extra: Seq<usize>, tb: TripleBufferId) -> int {
    if tb.0 == DEFAULT_TB_RAW {
        default_start
    } else {
        extra[reg.index()[tb.0 as int]->0 as int] as int
    }
}

/// First cell of table `i` on its triple buffer.
pub open spec fn lut_start<const TB: usize>(reg: TripleBufferWriterRegistry<TB>, defs: Seq<LutDef>, default_start: int, extra: Seq<usize>, i: int) -> int {
    lut_base(reg, default_start, extra, defs[i].tb_id) + lut_load(defs.take(i), defs[i].tb_id)
}

/// What `create()` needs: ids forming a permutation, every table on a
/// registered buffer and inside it, and the buffers laid out in `mem`.
pub open spec fn lut_registry_ok<const TB: usize>(
    mem: Seq<i32>,
    reg: TripleBufferWriterRegistry<TB>,
    defs: Seq<LutDef>,
    default_start: int,
    extra: Seq<usize>,
) -> bool {
    &&& 0 < defs.len() < 0xffff
    &&& lut_ids_perm(defs)
    &&& extra.len() == TB
    &&& reg.wf()
    &&& reg.control_ok(mem)
    &&& forall|i: int| 0 <= i < defs.len() ==> reg.id_ok((#[trigger] defs[i]).tb_id)
    &&& forall|i: int|
        0 <= i < defs.len() ==> lut_start(reg, defs, default_start, extra, i) + (#[trigger] defs[i]).size
            <= reg.tb_for(defs[i].tb_id).cap()
}

/// Registry of `N` lookup-table writers with user-assigned ids forming a
/// permutation of `[0, N)`. Tables are packed per triple buffer in
/// definition order from the given start offsets.
#[derive(Clone)]
pub struct LutWriterRegistry<const TB_COUNT: usize, const LUT_COUNT: usize> {
    id_index: Vec<Option<u16>>,
    defs: Vec<LutDef>,
    tables: Vec<LutWriter>,
    default_tb_start_offset: usize,
    default_tb_end_offset: usize,
    extra_tb_start_offsets: Vec<usize>,
    extra_tb_end_offsets: Vec<usize>,
}

impl<const TB_COUNT: usize, const LUT_COUNT: usize> LutWriterRegistry<TB_COUNT, LUT_COUNT> {
    pub closed spec fn index(&self) -> Seq<Option<u16>> {
        self.id_index@
    }

    pub closed spec fn def_seq(&self) -> Seq<LutDef> {
        self.defs@
    }

    /// The tables, in definition order.
    pub closed spec fn table_seq(&self) -> Seq<LutWriter> {
        self.tables@
    }

    pub closed spec fn default_start(&self) -> int {
        self.default_tb_start_offset as int
    }

    pub closed spec fn default_end(&self) -> int {
        self.default_tb_end_offset as int
    }

    pub closed spec fn extra_starts(&self) -> Seq<usize> {
        self.extra_tb_start_offsets@
    }

    pub closed spec fn extra_ends(&self) -> Seq<usize> {
        self.extra_tb_end_offsets@
    }

    pub open spec fn wf(&self) -> bool {
        let defs = self.def_seq();
        &&& defs.len() == LUT_COUNT
        &&& self.index().len() == LUT_COUNT
        &&& self.table_seq().len() == LUT_COUNT
        &&& 0 < LUT_COUNT < 0xffff
        &&& lut_ids_perm(defs)
        &&& forall|i: int| 0 <= i < LUT_COUNT ==> self.index()[(#[trigger] defs[i]).id.0 as int] == Some(i as u16)
        &&& forall|k: int|
            0 <= k < LUT_COUNT ==> (#[trigger] self.index()[k]) is Some && (self.index()[k]->0 as int) < LUT_COUNT
                && defs[self.index()[k]->0 as int].id.0 == k
        &&& forall|i: int|
            0 <= i < LUT_COUNT ==> (#[trigger] self.table_seq()[i]).wf() && self.table_seq()[i].buffer().wf()
                && self.table_seq()[i].size_spec() == defs[i].size
        &&& self.extra_starts().len() == TB_COUNT
        &&& self.extra_ends().len() == TB_COUNT
        &&& self.tables_apart()
    }

    /// Two tables on one buffer take apart cells there, the earlier first.
    pub open spec fn tables_apart(&self) -> bool {
        forall|i: int, j: int|
            0 <= i < j < LUT_COUNT && (#[trigger] self.table_seq()[i]).buffer() == (#[trigger] self.table_seq()[j]).buffer()
                ==> self.table_seq()[i].tb_end() <= self.table_seq()[j].tb_start()
    }

    /// Every table sits on the registry buffer its definition names.
    pub open spec fn placed_on<const TB: usize>(&self, reg: TripleBufferWriterRegistry<TB>) -> bool {
        forall|i: int|
            0 <= i < LUT_COUNT ==> reg.id_ok((#[trigger] self.def_seq()[i]).tb_id) && self.table_seq()[i].buffer()
                == reg.tb_for(self.def_seq()[i].tb_id)
    }

    /// The table that `get(id)` returns.
    pub open spec fn table_for(&self, id: LutId) -> LutWriter {
        self.table_seq()[self.index()[id.0 as int]->0 as int]
    }

    /// The table of `defs[i]` is the one registered under its id.
    pub proof fn lemma_table_for_def(&self, i: int)
        requires
            self.wf(),
            0 <= i < LUT_COUNT,
        ensures
            self.table_for(self.def_seq()[i].id) == self.table_seq()[i],
    {
        assert(self.index()[self.def_seq()[i].id.0 as int] == Some(i as u16));
    }

    pub fn new(
        mem: &mut AtomicBuffer,
        tb_registry: &TripleBufferWriterRegistry<TB_COUNT>,
        defs: [LutDef; LUT_COUNT],
        default_tb_start_offset: usize,
        extra_tb_start_offsets: [usize; TB_COUNT],
    ) -> (r: Self)
        requires
            lut_registry_ok(old(mem)@, *tb_registry, defs@, default_tb_start_offset as int, extra_tb_start_offsets@),
        ensures
            r.wf(),
            r.def_seq() == defs@,
            tb_registry.control_ok(final(mem)@),
            forall|i: int|
                0 <= i < LUT_COUNT ==> (#[trigger] r.table_seq()[i]).view(final(mem)@) == Seq::new(
                    defs@[i].size as nat,
                    |t: int| 0i32,
                ),
            forall|i: int|
                0 <= i < LUT_COUNT ==> {
                    &&& (#[trigger] r.table_seq()[i]).buffer() == tb_registry.tb_for(defs@[i].tb_id)
                    &&& r.table_seq()[i].tb_start() == lut_start(
                        *tb_registry,
                        defs@,
                        default_tb_start_offset as int,
                        extra_tb_start_offsets@,
                        i,
                    )
                },
    {
        Self::create(mem, tb_registry, defs, default_tb_start_offset, extra_tb_start_offsets, false)
    }

    pub fn bind(
        mem: &mut AtomicBuffer,
        tb_registry: &TripleBufferWriterRegistry<TB_COUNT>,
        defs: [LutDef; LUT_COUNT],
        default_tb_start_offset: usize,
        extra_tb_start_offsets: [usize; TB_COUNT],
    ) -> (r: Self)
        requires
            lut_registry_ok(old(mem)@, *tb_registry, defs@, default_tb_start_offset as int, extra_tb_start_offsets@),
        ensures
            r.wf(),
            r.def_seq() == defs@,
            final(mem)@ == old(mem)@,
            forall|i: int|
                0 <= i < LUT_COUNT ==> {
                    &&& (#[trigger] r.table_seq()[i]).buffer() == tb_registry.tb_for(defs@[i].tb_id)
                    &&& r.table_seq()[i].tb_start() == lut_start(
                        *tb_registry,
                        defs@,
                        default_tb_start_offset as int,
                        extra_tb_start_offsets@,
                        i,
                    )
                },
    {
        Self::create(mem, tb_registry, defs, default_tb_start_offset, extra_tb_start_offsets, true)
    }

    pub fn create(
        mem: &mut AtomicBuffer,
        tb_registry: &TripleBufferWriterRegistry<TB_COUNT>,
        defs: [LutDef; LUT_COUNT],
        default_tb_start_offset: usize,
        extra_tb_start_offsets: [usize; TB_COUNT],
        bind: bool,
    ) -> (r: Self)
        requires
            lut_registry_ok(old(mem)@, *tb_registry, defs@, default_tb_start_offset as int, extra_tb_start_offsets@),
        ensures
            r.wf(),
            r.def_seq() == defs@,
            r.placed_on(*tb_registry),
            tb_registry.control_ok(final(mem)@),
            bind ==> final(mem)@ == old(mem)@,
            !bind ==> forall|i: int|
                0 <= i < LUT_COUNT ==> (#[trigger] r.table_seq()[i]).view(final(mem)@) == Seq::new(
                    defs@[i].size as nat,
                    |t: int| 0i32,
                ),
            final(mem)@.len() == old(mem)@.len(),
            unchanged_outside(old(mem)@, final(mem)@, tb_registry.start(), tb_registry.end()),
            forall|j: int| 0 <= j < old(mem)@.len() ==> #[trigger] final(mem)@[j] == old(mem)@[j] || final(mem)@[j] == 0,
            forall|x: TripleBufferId|
                tb_registry.id_ok(x) ==> (#[trigger] tb_inv(final(mem)@, tb_registry.tb_for(x).start()) <==> tb_inv(
                    old(mem)@,
                    tb_registry.tb_for(x).start(),
                )),
            r.default_start() == default_tb_start_offset,
            r.default_end() == default_tb_start_offset + lut_load(defs@, TripleBufferId(DEFAULT_TB_RAW)),
            r.extra_starts() == extra_tb_start_offsets@,
            forall|k: int|
                0 <= k < TB_COUNT ==> #[trigger] r.extra_ends()[k] == extra_tb_start_offsets@[k] + lut_load(
                    defs@,
                    tb_registry.def_seq()[k].id,
                ),
            forall|i: int|
                0 <= i < LUT_COUNT ==> {
                    &&& (#[trigger] r.table_seq()[i]).buffer() == tb_registry.tb_for(defs@[i].tb_id)
                    &&& r.table_seq()[i].tb_start() == lut_start(
                        *tb_registry,
                        defs@,
                        default_tb_start_offset as int,
                        extra_tb_start_offsets@,
                        i,
                    )
                },
    {
        let ghost d = defs@;
        let ghost ex = extra_tb_start_offsets@;
        let ghost reg = *tb_registry;
        let ghost ds = default_tb_start_offset as int;
        let ghost dflt = TripleBufferId(DEFAULT_TB_RAW);
        let mut starts: Vec<usize> = Vec::new();
        let mut default_cursor: usize = default_tb_start_offset;
        let mut extra_cursors: Vec<usize> = Vec::new();
        let mut k: usize = 0;
        while k < TB_COUNT
            invariant
                ex == extra_tb_start_offsets@,
                k <= TB_COUNT,
                extra_cursors@ == ex.take(k as int),
            decreases TB_COUNT - k,
        {
            extra_cursors.push(extra_tb_start_offsets[k]);
            proof {
                assert(ex.take(k + 1) =~= ex.take(k as int).push(ex[k as int]));
            }
            k = k + 1;
        }
        proof {
            assert(ex.take(TB_COUNT as int) =~= ex);
            assert forall|k: int| 0 <= k < TB_COUNT implies #[trigger] extra_cursors@[k] == ex[k] + lut_load(d.take(0), reg.def_seq()[k].id) by {
            }
        }
        let mut i: usize = 0;
        while i < LUT_COUNT
            invariant
                lut_registry_ok(old(mem)@, reg, d, ds, ex),
                reg == *tb_registry,
                d == defs@,
                ex == extra_tb_start_offsets@,
                ds == default_tb_start_offset,
                dflt == TripleBufferId(DEFAULT_TB_RAW),
                i <= LUT_COUNT,
                starts@.len() == i,
                forall|j: int| 0 <= j < i ==> #[trigger] starts@[j] == lut_start(reg, d, ds, ex, j),
                default_cursor == ds + lut_load(d.take(i as int), dflt),
                extra_cursors@.len() == TB_COUNT,
                forall|k: int|
                    0 <= k < TB_COUNT ==> #[trigger] extra_cursors@[k] == ex[k] + lut_load(d.take(i as int), reg.def_seq()[k].id),
            decreases LUT_COUNT - i,
        {
            let def = defs[i];
            proof {
                assert(reg.id_ok(d[i as int].tb_id));
                assert(lut_start(reg, d, ds, ex, i as int) + d[i as int].size <= reg.tb_for(d[i as int].tb_id).cap());
                reg.lemma_inside(d[i as int].tb_id);
                reg.tb_for(d[i as int].tb_id).lemma_layout();
                lemma_lut_load_step(d, i as int, dflt);
                assert forall|k: int| 0 <= k < TB_COUNT implies lut_load(d.take(i + 1), #[trigger] reg.def_seq()[k].id)
                    == lut_load(d.take(i as int), reg.def_seq()[k].id) + if d[i as int].tb_id == reg.def_seq()[k].id {
                    d[i as int].size as int
                } else {
                    0
                } by {
                    lemma_lut_load_step(d, i as int, reg.def_seq()[k].id);
                }
            }
            if def.tb_id.is_default() {
                starts.push(default_cursor);
                default_cursor = default_cursor + def.len();
                proof {
                    assert forall|k: int| 0 <= k < TB_COUNT implies #[trigger] extra_cursors@[k] == ex[k] + lut_load(d.take(i + 1), reg.def_seq()[k].id) by {
                        assert(reg.def_seq()[k].id.0 < TB_COUNT);
                        lemma_lut_load_step(d, i as int, reg.def_seq()[k].id);
                    }
                }
            } else {
                let index = tb_registry.index_of(def.tb_id) as usize;
                let c = extra_cursors[index];
                starts.push(c);
                extra_cursors.set(index, c + def.len());
                proof {
                    assert forall|k: int| 0 <= k < TB_COUNT implies #[trigger] extra_cursors@[k] == ex[k] + lut_load(d.take(i + 1), reg.def_seq()[k].id) by {
                        lemma_lut_load_step(d, i as int, reg.def_seq()[k].id);
                        if k != index {
                            assert(reg.def_seq()[k].id != d[i as int].tb_id) by {
                                if reg.def_seq()[k].id == d[i as int].tb_id {
                                    assert(reg.index()[reg.def_seq()[k].id.0 as int] == Some(k as u16));
                                }
                            }
                        }
                    }
                }
            }
            i = i + 1;
        }
        let mut id_index: Vec<Option<u16>> = Vec::new();
        let mut k: usize = 0;
        while k < LUT_COUNT
            invariant
                k <= LUT_COUNT,
                id_index@.len() == k,
                forall|j: int| 0 <= j < k ==> #[trigger] id_index@[j] is None,
            decreases LUT_COUNT - k,
        {
            id_index.push(None);
            k = k + 1;
        }
        let mut i: usize = 0;
        while i < LUT_COUNT
            invariant
                lut_ids_perm(d),
                d == defs@,
                d.len() == LUT_COUNT,
                0 < LUT_COUNT < 0xffff,
                i <= LUT_COUNT,
                id_index@.len() == LUT_COUNT,
                forall|j: int| 0 <= j < i ==> id_index@[(#[trigger] d[j]).id.0 as int] == Some(j as u16),
                forall|x: int|
                    0 <= x < LUT_COUNT && #[trigger] id_index@[x] is Some ==> (id_index@[x]->0 as int) < i
                        && d[id_index@[x]->0 as int].id.0 == x,
            decreases LUT_COUNT - i,
        {
            let id = defs[i].id;
            id_index.set(id.0 as usize, Some(i as u16));
            proof {
                assert forall|j: int| 0 <= j < i + 1 implies id_index@[(#[trigger] d[j]).id.0 as int] == Some(j as u16) by {
                    if j < i {
                        assert(d[j].id != d[i as int].id);
                    }
                }
            }
            i = i + 1;
        }
        proof {
            let ids = Seq::new(LUT_COUNT as nat, |j: int| d[j].id.0 as int);
            assert forall|a: int, b: int| 0 <= a < b < ids.len() implies ids[a] != ids[b] by {
                assert(d[a].id != d[b].id);
            }
            lemma_distinct_cover(ids, LUT_COUNT as int);
            assert forall|x: int| 0 <= x < LUT_COUNT implies (#[trigger] id_index@[x]) is Some by {
                assert(ids.contains(x));
                let j = choose|j: int| 0 <= j < ids.len() && ids[j] == x;
                assert(id_index@[d[j].id.0 as int] == Some(j as u16));
            }
        }
        let mut tables: Vec<LutWriter> = Vec::new();
        let mut def_vec: Vec<LutDef> = Vec::new();
        let mut i: usize = 0;
        while i < LUT_COUNT
            invariant
                lut_registry_ok(mem@, reg, d, ds, ex),
                reg == *tb_registry,
                d == defs@,
                ex == extra_tb_start_offsets@,
                ds == default_tb_start_offset,
                bind ==> mem@ == old(mem)@,
                mem@.len() == old(mem)@.len(),
                unchanged_outside(old(mem)@, mem@, reg.start(), reg.end()),
                forall|j: int| 0 <= j < old(mem)@.len() ==> #[trigger] mem@[j] == old(mem)@[j] || mem@[j] == 0,
                forall|x: TripleBufferId|
                    reg.id_ok(x) ==> (#[trigger] tb_inv(mem@, reg.tb_for(x).start()) <==> tb_inv(
                        old(mem)@,
                        reg.tb_for(x).start(),
                    )),
                i <= LUT_COUNT,
                starts@.len() == LUT_COUNT,
                forall|j: int| 0 <= j < LUT_COUNT ==> #[trigger] starts@[j] == lut_start(reg, d, ds, ex, j),
                def_vec@ == d.take(i as int),
                tables@.len() == i,
                !bind ==> forall|x: TripleBufferId, c: int|
                    #![trigger mem@[reg.tb_for(x).start() + c]]
                    reg.id_ok(x) && 0 <= c < 4 ==> mem@[reg.tb_for(x).start() + c] == old(mem)@[reg.tb_for(x).start() + c],
                !bind ==> forall|j: int, t: int|
                    0 <= j < i && 0 <= t < d[j].size ==> #[trigger] mem@[reg.tb_for(d[j].tb_id).writer_base(old(mem)@)
                        + lut_start(reg, d, ds, ex, j) + t] == 0,
                forall|j: int|
                    0 <= j < i ==> {
                        &&& (#[trigger] tables@[j]).wf()
                        &&& tables@[j].buffer().wf()
                        &&& tables@[j].buffer() == reg.tb_for(d[j].tb_id)
                        &&& tables@[j].size_spec() == d[j].size
                        &&& tables@[j].tb_start() == lut_start(reg, d, ds, ex, j)
                    },
            decreases LUT_COUNT - i,
        {
            let def = defs[i];
            let tb = tb_registry.get(def.tb_id);
            let ghost ma = mem@;
            proof {
                assert(reg.id_ok(d[i as int].tb_id));
                assert(lut_start(reg, d, ds, ex, i as int) + d[i as int].size <= reg.tb_for(d[i as int].tb_id).cap());
                reg.lemma_inside(d[i as int].tb_id);
                assert(reg.tb_for(d[i as int].tb_id).valid(ma));
                tb.lemma_layout();
            }
            let table = LutWriter::create(mem, *tb, def.len(), starts[i], bind);
            proof {
                if !bind {
                    let lo = tb.writer_base(ma) + starts@[i as int];
                    let z = Seq::new(def.size as nat, |t: int| 0i32);
                    lemma_clear_step(reg, d, ds, ex, old(mem)@, ma, mem@, i as int);
                    lemma_write_cells_unchanged(ma, lo, z);
                    reg.lemma_write_inside(ma, mem@, d[i as int].tb_id, lo, lo + def.size);
                    assert(unchanged_outside(old(mem)@, mem@, reg.start(), reg.end()));
                    assert forall|j: int| 0 <= j < old(mem)@.len() implies #[trigger] mem@[j] == old(mem)@[j] || mem@[j] == 0 by {
                        if lo <= j < lo + def.size {
                            assert(mem@[j] == z[j - lo]);
                        } else {
                            assert(mem@[j] == ma[j]);
                        }
                    }
                }
            }
            tables.push(table);
            def_vec.push(def);
            proof {
                assert(d.take(i + 1) =~= d.take(i as int).push(d[i as int]));
            }
            i = i + 1;
        }
        proof {
            assert(d.take(LUT_COUNT as int) =~= d);
            assert(d.take(LUT_COUNT as int) == d);
            lemma_lut_apart(reg, d, ds, ex, tables@);
            if !bind {
                assert forall|i: int| 0 <= i < LUT_COUNT implies (#[trigger] tables@[i]).view(mem@) == Seq::new(
                    d[i].size as nat,
                    |t: int| 0i32,
                ) by {
                    let b = reg.tb_for(d[i].tb_id);
                    assert(reg.id_ok(d[i].tb_id));
                    assert(mem@[b.start() + 1] == old(mem)@[b.start() + 1]);
                    assert(b.writer_base(mem@) == b.writer_base(old(mem)@));
                    assert forall|t: int| 0 <= t < d[i].size implies tables@[i].view(mem@)[t] == 0i32 by {
                        assert(mem@[b.writer_base(old(mem)@) + lut_start(reg, d, ds, ex, i) + t] == 0);
                    }
                    assert(tables@[i].view(mem@) =~= Seq::new(d[i].size as nat, |t: int| 0i32));
                }
            }
        }
        LutWriterRegistry {
            id_index,
            defs: def_vec,
            tables,
            default_tb_start_offset,
            default_tb_end_offset: default_cursor,
            extra_tb_start_offsets: extra_tb_start_offsets_vec(&extra_tb_start_offsets),
            extra_tb_end_offsets: extra_cursors,
        }
    }
}

impl<const TB_COUNT: usize, const LUT_COUNT: usize> LutWriterRegistry<TB_COUNT, LUT_COUNT> {
    pub fn calculate_size_on_default_tb(defs: &[LutDef; LUT_COUNT]) -> (r: usize)
        requires
            lut_load(defs@, TripleBufferId(DEFAULT_TB_RAW)) <= usize::MAX,
        ensures
            r == lut_load(defs@, TripleBufferId(DEFAULT_TB_RAW)),
    {
        Self::calculate_size_on_tb_for(TripleBufferId::default_tb(), defs)
    }

    /// Cells the tables placed on `tb_id` take there.
    pub fn calculate_size_on_tb_for(tb_id: TripleBufferId, defs: &[LutDef; LUT_COUNT]) -> (r: usize)
        requires
            lut_load(defs@, tb_id) <= usize::MAX,
        ensures
            r == lut_load(defs@, tb_id),
    {
        let ghost d = defs@;
        let mut size: usize = 0;
        let mut i: usize = 0;
        while i < LUT_COUNT
            invariant
                d == defs@,
                lut_load(d, tb_id) <= usize::MAX,
                i <= LUT_COUNT,
                size == lut_load(d.take(i as int), tb_id),
            decreases LUT_COUNT - i,
        {
            proof {
                lemma_lut_load_step(d, i as int, tb_id);
                lemma_lut_load_prefix(d, i + 1, tb_id);
            }
            let def = defs[i];
            if def.tb_id.0 == tb_id.0 {
                size = size + def.len();
            }
            i = i + 1;
        }
        proof {
            assert(d.take(LUT_COUNT as int) =~= d);
        }
        size
    }

    /// The consumer-side registry over the same tables.
    pub fn to_reader(&self) -> (r: LutReaderRegistry<TB_COUNT, LUT_COUNT>)
        requires
            self.wf(),
        ensures
            r.wf(),
            r.index() == self.index(),
            r.default_start() == self.default_start(),
            r.default_end() == self.default_end(),
            r.extra_starts() == self.extra_starts(),
            r.extra_ends() == self.extra_ends(),
            forall|i: int|
                0 <= i < LUT_COUNT ==> {
                    &&& (#[trigger] r.table_seq()[i]).buffer().start() == self.table_seq()[i].buffer().start()
                    &&& r.table_seq()[i].size_spec() == self.table_seq()[i].size_spec()
                    &&& r.table_seq()[i].tb_start() == self.table_seq()[i].tb_start()
                },
    {
        let mut index: Vec<Option<u16>> = Vec::new();
        let mut readers: Vec<LutReader> = Vec::new();
        let mut i: usize = 0;
        while i < LUT_COUNT
            invariant
                self.wf(),
                i <= LUT_COUNT,
                index@ == self.index().take(i as int),
                readers@.len() == i,
                forall|k: int|
                    0 <= k < i ==> {
                        &&& (#[trigger] readers@[k]).buffer().start() == self.table_seq()[k].buffer().start()
                        &&& readers@[k].size_spec() == self.table_seq()[k].size_spec()
                        &&& readers@[k].tb_start() == self.table_seq()[k].tb_start()
                    },
            decreases LUT_COUNT - i,
        {
            index.push(self.id_index[i]);
            readers.push(self.tables[i].to_reader());
            proof {
                assert(self.index().take(i + 1) =~= self.index().take(i as int).push(self.index()[i as int]));
            }
            i = i + 1;
        }
        proof {
            assert(self.index().take(LUT_COUNT as int) =~= self.index());
        }
        LutReaderRegistry::bind(
            index,
            readers,
            self.default_tb_start_offset,
            self.default_tb_end_offset,
            self.extra_tb_start_offsets.clone(),
            self.extra_tb_end_offsets.clone(),
        )
    }

    #[inline]
    pub fn default_tb_start_offset(&self) -> (r: usize)
        ensures
            r == self.default_start(),
    {
        self.default_tb_start_offset
    }

    #[inline]
    pub fn default_tb_end_offset(&self) -> (r: usize)
        ensures
            r == self.default_end(),
    {
        self.default_tb_end_offset
    }

    #[inline]
    pub fn extra_tb_start_offsets(&self) -> (r: Vec<usize>)
        ensures
            r@ == self.extra_starts(),
    {
        self.extra_tb_start_offsets.clone()
    }

    #[inline]
    pub fn extra_tb_end_offsets(&self) -> (r: Vec<usize>)
        ensures
            r@ == self.extra_ends(),
    {
        self.extra_tb_end_offsets.clone()
    }

    /// The table registered under `id`.
    #[inline]
    pub fn get(&self, id: LutId) -> (r: &LutWriter)
        requires
            self.wf(),
            id.0 < LUT_COUNT,
        ensures
            *r == self.table_for(id),
    {
        let index = self.id_index[id.0 as usize].unwrap();
        &self.tables[index as usize]
    }

    /// Table `i` of `source` reads on `m`, in all three buffers, as it reads on
    /// `sm`, in the table registered here under its id.
    pub open spec fn table_copied<const TM: usize, const LM: usize>(
        &self,
        source: &LutWriterRegistry<TM, LM>,
        i: int,
        sm: Seq<i32>,
        m: Seq<i32>,
    ) -> bool {
        let src = source.table_seq()[i];
        let dst = self.table_for(source.def_seq()[i].id);
        forall|k: int, t: int|
            0 <= k < 3 && 0 <= t < src.size_spec() ==> #[trigger] m[tb_base(dst.buffer().start(), dst.buffer().cap(), k)
                + dst.tb_start() + t] == sm[tb_base(src.buffer().start(), src.buffer().cap(), k) + src.tb_start() + t]
    }

    /// The cells of the table registered here under the id of table `i` of
    /// `source` that lie past the size of that table, in all three buffers,
    /// read on `m` as on `old`.
    pub open spec fn tail_kept<const TM: usize, const LM: usize>(
        &self,
        source: &LutWriterRegistry<TM, LM>,
        i: int,
        old: Seq<i32>,
        m: Seq<i32>,
    ) -> bool {
        let src = source.table_seq()[i];
        let dst = self.table_for(source.def_seq()[i].id);
        forall|k: int, t: int|
            0 <= k < 3 && src.size_spec() <= t < dst.size_spec() ==> #[trigger] m[tb_base(
                dst.buffer().start(),
                dst.buffer().cap(),
                k,
            ) + dst.tb_start() + t] == old[tb_base(dst.buffer().start(), dst.buffer().cap(), k) + dst.tb_start() + t]
    }

    /// Once `copy_from()` has copied table `i` of `source` and the
    /// destination's writer buffer has the source's role, the destination
    /// table reads, through its writer view, what the source table held.
    pub proof fn lemma_copied_view<const TM: usize, const LM: usize>(
        &self,
        source: &LutWriterRegistry<TM, LM>,
        i: int,
        sm: Seq<i32>,
        m: Seq<i32>,
    )
        requires
            0 <= i < LM,
            self.table_copied(source, i, sm, m),
            ({
                let src = source.table_seq()[i];
                let dst = self.table_for(source.def_seq()[i].id);
                &&& tb_writer_id(m, dst.buffer().start()) == tb_writer_id(sm, src.buffer().start())
                &&& 0 <= tb_writer_id(sm, src.buffer().start()) < 3
                &&& src.size_spec() <= dst.size_spec()
            }),
        ensures
            ({
                let src = source.table_seq()[i];
                let dst = self.table_for(source.def_seq()[i].id);
                forall|t: int| 0 <= t < src.size_spec() ==> #[trigger] dst.view(m)[t] == src.view(sm)[t]
            }),
    {
        let src = source.table_seq()[i];
        let dst = self.table_for(source.def_seq()[i].id);
        let k = tb_writer_id(sm, src.buffer().start()) as int;
        assert forall|t: int| 0 <= t < src.size_spec() implies #[trigger] dst.view(m)[t] == src.view(sm)[t] by {
            assert(m[tb_base(dst.buffer().start(), dst.buffer().cap(), k) + dst.tb_start() + t] == sm[tb_base(
                src.buffer().start(),
                src.buffer().cap(),
                k,
            ) + src.tb_start() + t]);
        }
    }

    /// A cell of table `ke` lies outside the cells of table `kn`.
    pub proof fn lemma_table_cells_apart<const TB: usize>(
        &self,
        reg: TripleBufferWriterRegistry<TB>,
        ke: int,
        kn: int,
        k: int,
        t: int,
        cnt: int,
    )
        requires
            self.wf(),
            reg.wf(),
            self.placed_on(reg),
            0 <= ke < LUT_COUNT,
            0 <= kn < LUT_COUNT,
            ke != kn,
            0 <= k < 3,
            0 <= t < self.table_seq()[ke].size_spec(),
            0 <= cnt <= self.table_seq()[kn].size_spec(),
        ensures
            !tb_in_region(
                tb_base(self.table_seq()[ke].buffer().start(), self.table_seq()[ke].buffer().cap(), k)
                    + self.table_seq()[ke].tb_start() + t,
                self.table_seq()[kn].buffer().start(),
                self.table_seq()[kn].buffer().cap(),
                self.table_seq()[kn].tb_start(),
                cnt,
            ),
    {
        let te = self.table_seq()[ke];
        let tn = self.table_seq()[kn];
        let a = self.def_seq()[ke].tb_id;
        let b = self.def_seq()[kn].tb_id;
        assert(reg.id_ok(a));
        assert(reg.id_ok(b));
        reg.lemma_disjoint(a, b);
        reg.lemma_inside(a);
        reg.lemma_inside(b);
        reg.tb_for(a).lemma_layout();
        reg.tb_for(b).lemma_layout();
        if te.buffer() == tn.buffer() {
            if ke < kn {
                assert(te.tb_end() <= tn.tb_start());
            } else {
                assert(tn.tb_end() <= te.tb_start());
            }
            lemma_in_region_at(te.buffer().start(), te.buffer().cap(), k, te.tb_start() + t, tn.tb_start(), cnt);
        }
    }

    /// Cell `x` lies in no table's cells in any of the three buffers.
    pub open spec fn off_tables(&self, x: int) -> bool {
        forall|k: int|
            0 <= k < LUT_COUNT ==> !tb_in_region(
                x,
                (#[trigger] self.table_seq()[k]).buffer().start(),
                self.table_seq()[k].buffer().cap(),
                self.table_seq()[k].tb_start(),
                self.table_seq()[k].size_spec(),
            )
    }

    /// Copies every table of `source` into the table registered here under the
    /// same id.
    pub fn copy_from<const TB_COUNT_M: usize, const LUT_COUNT_M: usize>(
        &self,
        mem: &mut AtomicBuffer,
        tb_registry: &TripleBufferWriterRegistry<TB_COUNT>,
        source: &LutWriterRegistry<TB_COUNT_M, LUT_COUNT_M>,
        source_mem: &AtomicBuffer,
    )
        requires
            self.wf(),
            source.wf(),
            TB_COUNT_M <= TB_COUNT,
            LUT_COUNT_M <= LUT_COUNT,
            tb_registry.wf(),
            tb_registry.control_ok(old(mem)@),
            self.placed_on(*tb_registry),
            forall|i: int| 0 <= i < LUT_COUNT_M ==> (#[trigger] source.table_seq()[i]).buffer().valid(source_mem@),
            forall|i: int|
                0 <= i < LUT_COUNT_M ==> {
                    let src = #[trigger] source.table_seq()[i];
                    let dst = self.table_for(source.def_seq()[i].id);
                    &&& src.size_spec() <= dst.size_spec()
                    &&& src.buffer().cap() <= dst.buffer().cap()
                },
        ensures
            final(mem)@.len() == old(mem)@.len(),
            tb_registry.control_ok(final(mem)@),
            unchanged_outside(old(mem)@, final(mem)@, tb_registry.start(), tb_registry.end()),
            forall|x: TripleBufferId|
                tb_registry.id_ok(x) ==> (#[trigger] tb_inv(final(mem)@, tb_registry.tb_for(x).start()) <==> tb_inv(
                    old(mem)@,
                    tb_registry.tb_for(x).start(),
                )),
            forall|x: int| 0 <= x < old(mem)@.len() && self.off_tables(x) ==> #[trigger] final(mem)@[x] == old(mem)@[x],
            forall|i: int| 0 <= i < LUT_COUNT_M ==> #[trigger] self.table_copied(source, i, source_mem@, final(mem)@),
            forall|i: int| 0 <= i < LUT_COUNT_M ==> #[trigger] self.tail_kept(source, i, old(mem)@, final(mem)@),
    {
        let mut i: usize = 0;
        while i < LUT_COUNT_M
            invariant
                self.wf(),
                source.wf(),
                LUT_COUNT_M <= LUT_COUNT,
                tb_registry.wf(),
                tb_registry.control_ok(mem@),
                mem@.len() == old(mem)@.len(),
                unchanged_outside(old(mem)@, mem@, tb_registry.start(), tb_registry.end()),
                forall|x: TripleBufferId|
                    tb_registry.id_ok(x) ==> (#[trigger] tb_inv(mem@, tb_registry.tb_for(x).start()) <==> tb_inv(
                        old(mem)@,
                        tb_registry.tb_for(x).start(),
                    )),
                forall|x: int| 0 <= x < old(mem)@.len() && self.off_tables(x) ==> #[trigger] mem@[x] == old(mem)@[x],
                self.placed_on(*tb_registry),
                forall|i: int| 0 <= i < LUT_COUNT_M ==> (#[trigger] source.table_seq()[i]).buffer().valid(source_mem@),
                forall|i: int|
                    0 <= i < LUT_COUNT_M ==> {
                        let src = #[trigger] source.table_seq()[i];
                        let dst = self.table_for(source.def_seq()[i].id);
                        &&& src.size_spec() <= dst.size_spec()
                        &&& src.buffer().cap() <= dst.buffer().cap()
                    },
                i <= LUT_COUNT_M,
                forall|j: int| 0 <= j < i ==> #[trigger] self.table_copied(source, j, source_mem@, mem@),
                forall|j: int| 0 <= j < LUT_COUNT_M ==> #[trigger] self.tail_kept(source, j, old(mem)@, mem@),
            decreases LUT_COUNT_M - i,
        {
            let id = source.defs[i].id;
            proof {
                source.lemma_table_for_def(i as int);
            }
            let src = source.get(id);
            let dst = self.get(id);
            let ghost ma = mem@;
            let ghost k = self.index()[id.0 as int]->0 as int;
            let ghost tid = self.def_seq()[k].tb_id;
            proof {
                assert(self.table_seq()[k].wf());
                assert(tb_registry.id_ok(tid));
                tb_registry.lemma_inside(tid);
                dst.buffer().lemma_layout();
                assert(dst.tb_start() + src.size_spec() <= dst.buffer().cap());
            }
            dst.copy_from(mem, src, source_mem);
            proof {
                let b = dst.buffer();
                assert(unchanged_outside(ma, mem@, b.start() + 4, b.end())) by {
                    assert forall|j: int| 0 <= j < ma.len() && !(b.start() + 4 <= j < b.end()) implies #[trigger] mem@[j] == ma[j] by {
                        assert(!tb_in_region(j, b.start(), b.cap(), dst.tb_start(), src.size_spec()));
                    }
                }
                tb_registry.lemma_write_inside(ma, mem@, tid, b.start() + 4, b.end());
                assert forall|x: int| 0 <= x < old(mem)@.len() && self.off_tables(x) implies #[trigger] mem@[x] == old(mem)@[x] by {
                    assert(!tb_in_region(
                        x,
                        self.table_seq()[k].buffer().start(),
                        self.table_seq()[k].buffer().cap(),
                        self.table_seq()[k].tb_start(),
                        self.table_seq()[k].size_spec(),
                    ));
                    assert(!tb_in_region(x, b.start(), b.cap(), dst.tb_start(), src.size_spec()));
                    assert(mem@[x] == ma[x]);
                }
                lemma_unchanged_widen(ma, mem@, b.start() + 4, b.end(), tb_registry.start(), tb_registry.end());
                lemma_unchanged_trans(old(mem)@, ma, mem@, tb_registry.start(), tb_registry.end());
                assert(*dst == self.table_seq()[k]);
                assert(self.table_copied(source, i as int, source_mem@, mem@));
                assert forall|j: int| 0 <= j < i + 1 implies #[trigger] self.table_copied(source, j, source_mem@, mem@) by {
                    if j < i {
                        let jd = source.def_seq()[j].id;
                        source.lemma_table_for_def(j);
                        let ke = self.index()[jd.0 as int]->0 as int;
                        assert(source.def_seq()[j].id != source.def_seq()[i as int].id);
                        assert(self.def_seq()[ke].id.0 == jd.0);
                        assert(ke != k);
                        let te = self.table_seq()[ke];
                        let se = source.table_seq()[j];
                        assert(self.table_copied(source, j, source_mem@, ma));
                        assert(self.table_for(jd) == te);
                        assert forall|kk: int, t: int| 0 <= kk < 3 && 0 <= t < se.size_spec() implies #[trigger] mem@[tb_base(
                            te.buffer().start(),
                            te.buffer().cap(),
                            kk,
                        ) + te.tb_start() + t] == source_mem@[tb_base(se.buffer().start(), se.buffer().cap(), kk)
                            + se.tb_start() + t] by {
                            self.lemma_table_cells_apart(*tb_registry, ke, k, kk, t, src.size_spec());
                            let ety = self.def_seq()[ke].tb_id;
                            assert(tb_registry.id_ok(ety));
                            tb_registry.lemma_inside(ety);
                            te.buffer().lemma_layout();
                            assert(te.buffer().valid(ma));
                            let x = tb_base(te.buffer().start(), te.buffer().cap(), kk) + te.tb_start() + t;
                            assert(x < ma.len());
                            assert(!tb_in_region(x, dst.buffer().start(), dst.buffer().cap(), dst.tb_start(), src.size_spec()));
                            assert(mem@[x] == ma[x]);
                            assert(ma[tb_base(te.buffer().start(), te.buffer().cap(), kk) + te.tb_start() + t]
                                == source_mem@[tb_base(se.buffer().start(), se.buffer().cap(), kk) + se.tb_start() + t]);
                        }
                    }
                }
                assert forall|j: int| 0 <= j < LUT_COUNT_M implies #[trigger] self.tail_kept(source, j, old(mem)@, mem@) by {
                    let jd = source.def_seq()[j].id;
                    source.lemma_table_for_def(j);
                    let ke = self.index()[jd.0 as int]->0 as int;
                    let te = self.table_seq()[ke];
                    let se = source.table_seq()[j];
                    assert(self.def_seq()[ke].id.0 == jd.0);
                    assert(self.table_for(jd) == te);
                    assert(self.tail_kept(source, j, old(mem)@, ma));
                    assert forall|kk: int, t: int| 0 <= kk < 3 && se.size_spec() <= t < te.size_spec() implies #[trigger] mem@[tb_base(
                        te.buffer().start(),
                        te.buffer().cap(),
                        kk,
                    ) + te.tb_start() + t] == old(mem)@[tb_base(te.buffer().start(), te.buffer().cap(), kk) + te.tb_start() + t] by {
                        let ety = self.def_seq()[ke].tb_id;
                        assert(tb_registry.id_ok(ety));
                        tb_registry.lemma_inside(ety);
                        te.buffer().lemma_layout();
                        assert(te.buffer().valid(ma));
                        let x = tb_base(te.buffer().start(), te.buffer().cap(), kk) + te.tb_start() + t;
                        if ke == k {
                            lemma_in_region_at(b.start(), b.cap(), kk, te.tb_start() + t, dst.tb_start(), src.size_spec());
                        } else {
                            self.lemma_table_cells_apart(*tb_registry, ke, k, kk, t, src.size_spec());
                        }
                        assert(!tb_in_region(x, dst.buffer().start(), dst.buffer().cap(), dst.tb_start(), src.size_spec()));
                        assert(mem@[x] == ma[x]);
                    }
                }
            }
            i = i + 1;
        }
    }
}

pub proof fn lemma_lut_load_prefix(defs: Seq<LutDef>, i: int, tb: TripleBufferId)
    requires
        0 <= i <= defs.len(),
    ensures
        lut_load(defs.take(i), tb) <= lut_load(defs, tb),
    decreases defs.len() - i,
{
    if i < defs.len() {
        lemma_lut_load_prefix(defs, i + 1, tb);
        lemma_lut_load_step(defs, i, tb);
    } else {
        assert(defs.take(i) =~= defs);
    }
}

/// Tables laid out from `lut_start` take apart cells on a shared buffer.
/// Tables on the same buffer are packed in definition order.
proof fn lemma_lut_order<const TB: usize>(reg: TripleBufferWriterRegistry<TB>, d: Seq<LutDef>, ds: int, ex: Seq<usize>, i: int, j: int)
    requires
        0 <= i < j < d.len(),
        d[i].tb_id == d[j].tb_id,
    ensures
        lut_start(reg, d, ds, ex, i) + d[i].size <= lut_start(reg, d, ds, ex, j),
{
    let b = d[j].tb_id;
    lemma_lut_load_step(d, i, b);
    lemma_lut_load_prefix(d.take(j), i + 1, b);
    assert(d.take(j).take(i + 1) =~= d.take(i + 1));
}

/// Where clearing table `i` writes: past its buffer's control cells and
/// inside its buffer.
proof fn lemma_clear_range<const TB: usize>(reg: TripleBufferWriterRegistry<TB>, d: Seq<LutDef>, ds: int, ex: Seq<usize>, m0: Seq<i32>, i: int)
    requires
        lut_registry_ok(m0, reg, d, ds, ex),
        0 <= ds,
        0 <= i < d.len(),
    ensures
        reg.id_ok(d[i].tb_id),
        reg.tb_for(d[i].tb_id).start() + 4 <= reg.tb_for(d[i].tb_id).writer_base(m0) + lut_start(reg, d, ds, ex, i),
        reg.tb_for(d[i].tb_id).writer_base(m0) + lut_start(reg, d, ds, ex, i) + d[i].size <= reg.tb_for(d[i].tb_id).end(),
        reg.tb_for(d[i].tb_id).end() <= m0.len(),
        0 <= reg.tb_for(d[i].tb_id).start(),
{
    let bi = d[i].tb_id;
    let tb = reg.tb_for(bi);
    assert(reg.id_ok(bi));
    reg.lemma_inside(bi);
    tb.lemma_layout();
    lemma_lut_load_nonneg(d.take(i), bi);
    assert(tb.valid(m0));
    assert(0 <= tb_writer_id(m0, tb.start()) < 3);
}

/// Clearing table `i` in its buffer's writer area keeps every buffer's
/// control cells and the tables cleared before it.
#[verifier::spinoff_prover]
proof fn lemma_clear_step<const TB: usize>(
    reg: TripleBufferWriterRegistry<TB>,
    d: Seq<LutDef>,
    ds: int,
    ex: Seq<usize>,
    m0: Seq<i32>,
    ma: Seq<i32>,
    m1: Seq<i32>,
    i: int,
)
    requires
        lut_registry_ok(m0, reg, d, ds, ex),
        0 <= ds,
        0 <= i < d.len(),
        ma.len() == m0.len(),
        forall|x: TripleBufferId, c: int|
            #![trigger ma[reg.tb_for(x).start() + c]]
            reg.id_ok(x) && 0 <= c < 4 ==> ma[reg.tb_for(x).start() + c] == m0[reg.tb_for(x).start() + c],
        forall|j: int, t: int|
            0 <= j < i && 0 <= t < d[j].size ==> #[trigger] ma[reg.tb_for(d[j].tb_id).writer_base(m0) + lut_start(reg, d, ds, ex, j)
                + t] == 0,
        m1 == write_cells(
            ma,
            reg.tb_for(d[i].tb_id).writer_base(ma) + lut_start(reg, d, ds, ex, i),
            Seq::new(d[i].size as nat, |t: int| 0i32),
        ),
    ensures
        m1.len() == m0.len(),
        forall|x: TripleBufferId, c: int|
            #![trigger m1[reg.tb_for(x).start() + c]]
            reg.id_ok(x) && 0 <= c < 4 ==> m1[reg.tb_for(x).start() + c] == m0[reg.tb_for(x).start() + c],
        forall|j: int, t: int|
            0 <= j < i + 1 && 0 <= t < d[j].size ==> #[trigger] m1[reg.tb_for(d[j].tb_id).writer_base(m0) + lut_start(reg, d, ds, ex, j)
                + t] == 0,
{
    let bi = d[i].tb_id;
    let tb = reg.tb_for(bi);
    lemma_clear_range(reg, d, ds, ex, m0, i);
    assert(ma[tb.start() + 1] == m0[tb.start() + 1]);
    assert(tb.writer_base(ma) == tb.writer_base(m0));
    let lo = tb.writer_base(m0) + lut_start(reg, d, ds, ex, i);
    let z = Seq::new(d[i].size as nat, |t: int| 0i32);
    lemma_write_cells_unchanged(ma, lo, z);
    assert forall|x: TripleBufferId, c: int|
        #![trigger m1[reg.tb_for(x).start() + c]]
        reg.id_ok(x) && 0 <= c < 4 implies m1[reg.tb_for(x).start() + c] == m0[reg.tb_for(x).start() + c] by {
        reg.lemma_disjoint(x, bi);
        reg.lemma_inside(x);
        reg.tb_for(x).lemma_layout();
        assert(ma[reg.tb_for(x).start() + c] == m0[reg.tb_for(x).start() + c]);
    }
    lemma_clear_tables(reg, d, ds, ex, m0, ma, m1, i);
}

#[verifier::spinoff_prover]
proof fn lemma_clear_tables<const TB: usize>(
    reg: TripleBufferWriterRegistry<TB>,
    d: Seq<LutDef>,
    ds: int,
    ex: Seq<usize>,
    m0: Seq<i32>,
    ma: Seq<i32>,
    m1: Seq<i32>,
    i: int,
)
    requires
        lut_registry_ok(m0, reg, d, ds, ex),
        0 <= ds,
        0 <= i < d.len(),
        ma.len() == m0.len(),
        forall|j: int, t: int|
            0 <= j < i && 0 <= t < d[j].size ==> #[trigger] ma[reg.tb_for(d[j].tb_id).writer_base(m0) + lut_start(reg, d, ds, ex, j)
                + t] == 0,
        m1 == write_cells(
            ma,
            reg.tb_for(d[i].tb_id).writer_base(m0) + lut_start(reg, d, ds, ex, i),
            Seq::new(d[i].size as nat, |t: int| 0i32),
        ),
    ensures
        forall|j: int, t: int|
            0 <= j < i + 1 && 0 <= t < d[j].size ==> #[trigger] m1[reg.tb_for(d[j].tb_id).writer_base(m0) + lut_start(reg, d, ds, ex, j)
                + t] == 0,
{
    let bi = d[i].tb_id;
    let lo = reg.tb_for(bi).writer_base(m0) + lut_start(reg, d, ds, ex, i);
    lemma_clear_range(reg, d, ds, ex, m0, i);
    assert forall|j: int, t: int|
        0 <= j < i + 1 && 0 <= t < d[j].size implies #[trigger] m1[reg.tb_for(d[j].tb_id).writer_base(m0) + lut_start(reg, d, ds, ex, j)
            + t] == 0 by {
        let p = reg.tb_for(d[j].tb_id).writer_base(m0) + lut_start(reg, d, ds, ex, j) + t;
        lemma_clear_cell(reg, d, ds, ex, m0, i, j, t);
        if j != i {
            assert(ma[p] == 0);
        }
    }
}

/// Cell `t` of table `j` lies in the span cleared for table `i` exactly when
/// `j` is `i`, and inside the memory.
#[verifier::spinoff_prover]
#[verifier::rlimit(80)]
proof fn lemma_clear_cell<const TB: usize>(
    reg: TripleBufferWriterRegistry<TB>,
    d: Seq<LutDef>,
    ds: int,
    ex: Seq<usize>,
    m0: Seq<i32>,
    i: int,
    j: int,
    t: int,
)
    requires
        lut_registry_ok(m0, reg, d, ds, ex),
        0 <= ds,
        0 <= j <= i < d.len(),
        0 <= t < d[j].size,
    ensures
        ({
            let lo = reg.tb_for(d[i].tb_id).writer_base(m0) + lut_start(reg, d, ds, ex, i);
            let p = reg.tb_for(d[j].tb_id).writer_base(m0) + lut_start(reg, d, ds, ex, j) + t;
            &&& 0 <= p < m0.len()
            &&& (lo <= p < lo + d[i].size) == (j == i)
            &&& j == i ==> p - lo == t
        }),
{
    let bi = d[i].tb_id;
    let bj = d[j].tb_id;
    lemma_clear_range(reg, d, ds, ex, m0, i);
    lemma_clear_range(reg, d, ds, ex, m0, j);
    reg.lemma_inside(bj);
    if j != i {
        if bj == bi {
            lemma_lut_order(reg, d, ds, ex, j, i);
        } else {
            reg.lemma_disjoint(bj, bi);
        }
    }
}

proof fn lemma_lut_apart<const TB: usize>(
    reg: TripleBufferWriterRegistry<TB>,
    d: Seq<LutDef>,
    ds: int,
    ex: Seq<usize>,
    ts: Seq<LutWriter>,
)
    requires
        reg.wf(),
        ts.len() == d.len(),
        forall|j: int|
            0 <= j < d.len() ==> {
                &&& reg.id_ok(d[j].tb_id)
                &&& (#[trigger] ts[j]).wf()
                &&& ts[j].buffer() == reg.tb_for(d[j].tb_id)
                &&& ts[j].size_spec() == d[j].size
                &&& ts[j].tb_start() == lut_start(reg, d, ds, ex, j)
            },
    ensures
        forall|i: int, j: int|
            0 <= i < j < d.len() && (#[trigger] ts[i]).buffer() == (#[trigger] ts[j]).buffer() ==> ts[i].tb_end()
                <= ts[j].tb_start(),
{
    assert forall|i: int, j: int|
        0 <= i < j < d.len() && (#[trigger] ts[i]).buffer() == (#[trigger] ts[j]).buffer() implies ts[i].tb_end()
            <= ts[j].tb_start() by {
        let a = d[i].tb_id;
        let b = d[j].tb_id;
        reg.lemma_disjoint(a, b);
        reg.lemma_inside(a);
        reg.lemma_inside(b);
        reg.tb_for(a).lemma_layout();
        reg.tb_for(b).lemma_layout();
        if a != b {
            assert(false);
        }
        lemma_lut_load_step(d, i, b);
        lemma_lut_load_prefix(d.take(j), i + 1, b);
        assert(d.take(j).take(i + 1) =~= d.take(i + 1));
    }
}

/// The offsets as a vector.
fn extra_tb_start_offsets_vec<const TB: usize>(a: &[usize; TB]) -> (r: Vec<usize>)
    ensures
        r@ == a@,
{
    let mut v: Vec<usize> = Vec::new();
    let mut k: usize = 0;
    while k < TB
        invariant
            k <= TB,
            v@ == a@.take(k as int),
        decreases TB - k,
    {
        v.push(a[k]);
        proof {
            assert(a@.take(k + 1) =~= a@.take(k as int).push(a@[k as int]));
        }
        k = k + 1;
    }
    proof {
        assert(a@.take(TB as int) =~= a@);
    }
    v
}

} // verus!
