use crate::primitives::triple_buffer_def::{DEFAULT_TB_RAW, TripleBufferDef, TripleBufferId};
use crate::primitives::triple_buffer_reader::TripleBufferReader;
use crate::primitives::triple_buffer_reader_registry::TripleBufferReaderRegistry;
use crate::primitives::triple_buffer_writer::{
    TripleBufferWriter,
    lemma_bind_resyncs,
    lemma_resync_in_sync,
    lemma_resynced_frame,
    tb_base,
    tb_fresh,
    tb_in_sync,
    tb_inv,
    tb_published_id,
    tb_resynced_at,
    tb_size,
    tb_writer_id,
};
use crate::primitives::types::{AtomicBuffer, lemma_distinct_cover, unchanged_outside};
use vstd::prelude::*;

verus! {

/// Cells that the triple buffers of `defs` take together.
pub open spec fn tbs_size(defs: Seq<TripleBufferDef>) -> int
    decreases defs.len(),
{
    if defs.len() == 0 {
        0
    } else {
        tbs_size(defs.drop_last()) + tb_size(defs.last().buffer_capacity as int)
    }
}

/// A prefix of the definitions takes no more cells than all of them.
pub proof fn lemma_tbs_size_prefix(defs: Seq<TripleBufferDef>, i: int)
    requires
        0 <= i <= defs.len(),
    ensures
        0 <= tbs_size(defs.take(i)) <= tbs_size(defs),
    decreases defs.len() - i,
{
    lemma_tbs_size_nonneg(defs.take(i));
    if i < defs.len() {
        lemma_tbs_size_prefix(defs, i + 1);
        assert(defs.take(i + 1).drop_last() =~= defs.take(i));
        assert(defs.take(i + 1).last() == defs[i]);
    } else {
        assert(defs.take(i) =~= defs);
        lemma_tbs_size_nonneg(defs);
    }
}

pub proof fn lemma_tbs_size_nonneg(defs: Seq<TripleBufferDef>)
    ensures
        0 <= tbs_size(defs),
    decreases defs.len(),
{
    if defs.len() > 0 {
        lemma_tbs_size_nonneg(defs.drop_last());
    }
}

/// The ids of `defs` are a permutation of `[0, defs.len())`.
pub open spec fn ids_perm(defs: Seq<TripleBufferDef>) -> bool {
    &&& forall|i: int| 0 <= i < defs.len() ==> (#[trigger] defs[i]).id.0 < defs.len()
    &&& forall|i: int, j: int| 0 <= i < j < defs.len() ==> (#[trigger] defs[i]).id != (#[trigger] defs[j]).id
}

/// First cell of the triple buffer of `defs[i]`.
pub open spec fn tb_region_start(defs: Seq<TripleBufferDef>, start: int, default_cap: int, i: int) -> int {
    start + tb_size(default_cap) + tbs_size(defs.take(i))
}

/// Where `create()` may lay the registry out, and what binding needs: valid
/// buffer indices in every control block.
pub open spec fn tb_registry_ok(mem: Seq<i32>, defs: Seq<TripleBufferDef>, start: int, default_cap: int, bind: bool) -> bool {
    &&& 0 < defs.len() < 0xffff
    &&& ids_perm(defs)
    &&& 0 < default_cap <= u32::MAX
    &&& forall|i: int| 0 <= i < defs.len() ==> 0 < (#[trigger] defs[i]).buffer_capacity <= u32::MAX
    &&& 0 <= start
    &&& start + tb_size(default_cap) + tbs_size(defs) <= mem.len()
    &&& bind ==> {
        &&& 0 <= tb_published_id(mem, start) < 3
        &&& 0 <= tb_writer_id(mem, start) < 3
        &&& forall|i: int|
            0 <= i < defs.len() ==> {
                &&& 0 <= tb_published_id(mem, #[trigger] tb_region_start(defs, start, default_cap, i)) < 3
                &&& 0 <= tb_writer_id(mem, tb_region_start(defs, start, default_cap, i)) < 3
            }
    }
}

/// Registry of `N` triple-buffer writers with user-assigned ids forming a
/// permutation of `[0, N)`, plus the default triple buffer.
///
/// # Memory Layout (MEM plane)
/// The default buffer first, then one buffer per definition, in definition order.
#[derive(Clone)]
pub struct TripleBufferWriterRegistry<const N: usize> {
    mem_start_offset: usize,
    mem_end_offset: usize,
    id_index: Vec<Option<u16>>,
    defs: Vec<TripleBufferDef>,
    default_tb: TripleBufferWriter,
    tbs: Vec<TripleBufferWriter>,
}

impl<const N: usize> TripleBufferWriterRegistry<N> {
    pub closed spec fn start(&self) -> int {
        self.mem_start_offset as int
    }

    pub closed spec fn end(&self) -> int {
        self.mem_end_offset as int
    }

    /// Id to definition position.
    pub closed spec fn index(&self) -> Seq<Option<u16>> {
        self.id_index@
    }

    pub closed spec fn def_seq(&self) -> Seq<TripleBufferDef> {
        self.defs@
    }

    pub closed spec fn default_buffer(&self) -> TripleBufferWriter {
        self.default_tb
    }

    /// The buffers, in definition order.
    pub closed spec fn buffers(&self) -> Seq<TripleBufferWriter> {
        self.tbs@
    }

    pub open spec fn wf(&self) -> bool {
        let defs = self.def_seq();
        &&& defs.len() == N
        &&& self.index().len() == N
        &&& self.buffers().len() == N
        &&& 0 < N < 0xffff
        &&& ids_perm(defs)
        &&& forall|i: int| 0 <= i < N ==> self.index()[(#[trigger] defs[i]).id.0 as int] == Some(i as u16)
        &&& forall|k: int|
            0 <= k < N ==> (#[trigger] self.index()[k]) is Some && (self.index()[k]->0 as int) < N
                && defs[self.index()[k]->0 as int].id.0 == k
        &&& self.default_buffer().wf()
        &&& self.default_buffer().start() == self.start()
        &&& forall|i: int|
            0 <= i < N ==> {
                &&& (#[trigger] self.buffers()[i]).wf()
                &&& self.buffers()[i].start() == tb_region_start(defs, self.start(), self.default_buffer().cap(), i)
                &&& self.buffers()[i].cap() == defs[i].buffer_capacity
            }
        &&& self.end() == self.start() + tb_size(self.default_buffer().cap()) + tbs_size(defs)
    }

    /// The buffer that `get(id)` returns.
    pub open spec fn tb_for(&self, id: TripleBufferId) -> TripleBufferWriter {
        if id.0 == DEFAULT_TB_RAW {
            self.default_buffer()
        } else {
            self.buffers()[self.index()[id.0 as int]->0 as int]
        }
    }

    /// `id` names the default buffer or a registered one.
    pub open spec fn id_ok(&self, id: TripleBufferId) -> bool {
        id.0 == DEFAULT_TB_RAW || id.0 < N
    }

    /// Every registered buffer lies in `mem` with a valid writer index.
    pub open spec fn control_ok(&self, mem: Seq<i32>) -> bool {
        forall|id: TripleBufferId|
            self.id_ok(id) ==> {
                &&& (#[trigger] self.tb_for(id)).valid(mem)
                &&& 0 <= tb_writer_id(mem, self.tb_for(id).start()) < 3
            }
    }

    /// `new` is `old` with every registered buffer resynced: its writer
    /// buffer refilled from its published one, all else kept.
    pub open spec fn resynced(&self, old: Seq<i32>, new: Seq<i32>) -> bool {
        &&& unchanged_outside(old, new, self.start(), self.end())
        &&& forall|x: TripleBufferId|
            self.id_ok(x) ==> #[trigger] tb_resynced_at(old, new, self.tb_for(x).start(), self.tb_for(x).cap())
    }

    /// Every registered buffer's writer buffer holds what its published
    /// buffer holds.
    pub open spec fn in_sync(&self, mem: Seq<i32>) -> bool {
        forall|x: TripleBufferId| self.id_ok(x) ==> #[trigger] tb_in_sync(mem, self.tb_for(x).start(), self.tb_for(x).cap())
    }

    /// Every registered buffer but the default one is in sync.
    pub open spec fn users_in_sync(&self, mem: Seq<i32>) -> bool {
        forall|x: TripleBufferId|
            self.id_ok(x) && x.0 != DEFAULT_TB_RAW ==> #[trigger] tb_in_sync(mem, self.tb_for(x).start(), self.tb_for(x).cap())
    }

    /// A buffer whose cells are all unchanged stays in sync.
    pub proof fn lemma_in_sync_frame(&self, m1: Seq<i32>, m2: Seq<i32>, x: TripleBufferId)
        requires
            self.wf(),
            self.id_ok(x),
            tb_inv(m1, self.tb_for(x).start()),
            forall|i: int| self.tb_for(x).start() <= i < self.tb_for(x).end() ==> #[trigger] m2[i] == m1[i],
        ensures
            tb_in_sync(m1, self.tb_for(x).start(), self.tb_for(x).cap()) ==> tb_in_sync(m2, self.tb_for(x).start(), self.tb_for(x).cap()),
    {
        let b = self.tb_for(x);
        self.lemma_inside(x);
        b.lemma_layout();
        let st = b.start();
        let cap = b.cap();
        assert(m2[st + 1] == m1[st + 1]);
        assert(m2[st + 2] == m1[st + 2]);
        if tb_in_sync(m1, st, cap) {
            assert forall|t: int| 0 <= t < cap implies #[trigger] m2[tb_base(st, cap, tb_writer_id(m2, st)) + t] == m2[tb_base(
                st,
                cap,
                tb_published_id(m2, st),
            ) + t] by {
                assert(m1[tb_base(st, cap, tb_writer_id(m1, st)) + t] == m1[tb_base(st, cap, tb_published_id(m1, st)) + t]);
            }
        }
    }

    /// Two registries laid out from the same start, definitions and default
    /// capacity place every buffer alike.
    pub proof fn lemma_same_layout(&self, other: &Self, x: TripleBufferId)
        requires
            self.wf(),
            other.wf(),
            self.start() == other.start(),
            self.def_seq() == other.def_seq(),
            self.default_buffer().cap() == other.default_buffer().cap(),
            self.id_ok(x),
        ensures
            other.id_ok(x),
            self.tb_for(x).start() == other.tb_for(x).start(),
            self.tb_for(x).cap() == other.tb_for(x).cap(),
    {
        if x.0 != DEFAULT_TB_RAW {
            let a = self.index()[x.0 as int]->0 as int;
            let b = other.index()[x.0 as int]->0 as int;
            let d = self.def_seq();
            if a != b {
                if a < b {
                    assert(d[a].id != d[b].id);
                } else {
                    assert(d[b].id != d[a].id);
                }
            }
        }
    }

    /// Resyncing buffers that are all in sync changes nothing.
    pub proof fn lemma_resynced_in_sync(&self, old: Seq<i32>, new: Seq<i32>)
        requires
            self.wf(),
            self.resynced(old, new),
            self.in_sync(old),
        ensures
            new == old,
    {
        let d = self.def_seq();
        let st = self.start();
        let dc = self.default_buffer().cap();
        self.lemma_resynced_prefix(old, new, N as int);
        assert(d.take(N as int) =~= d);
        assert forall|j: int| 0 <= j < old.len() implies #[trigger] new[j] == old[j] by {
            if st <= j < self.end() {
                assert(j < tb_region_start(d, st, dc, N as int));
            }
        }
        assert(new =~= old);
    }

    /// The cells up to the buffer of definition `i` stay when every buffer
    /// was in sync.
    proof fn lemma_resynced_prefix(&self, old: Seq<i32>, new: Seq<i32>, i: int)
        requires
            self.wf(),
            self.resynced(old, new),
            self.in_sync(old),
            0 <= i <= N,
        ensures
            forall|j: int|
                self.start() <= j < tb_region_start(self.def_seq(), self.start(), self.default_buffer().cap(), i)
                    ==> #[trigger] new[j] == old[j],
        decreases i,
    {
        let d = self.def_seq();
        let st = self.start();
        let dc = self.default_buffer().cap();
        if i == 0 {
            let dflt = TripleBufferId(DEFAULT_TB_RAW);
            self.default_buffer().lemma_layout();
            assert(self.tb_for(dflt) == self.default_buffer());
            assert(tb_resynced_at(old, new, st, dc));
            lemma_resync_in_sync(old, new, st, dc);
            assert(d.take(0) =~= Seq::<TripleBufferDef>::empty());
        } else {
            self.lemma_resynced_prefix(old, new, i - 1);
            let k = i - 1;
            let x = d[k].id;
            self.lemma_tb_for_def(k);
            assert(self.id_ok(x));
            assert(self.buffers()[k].wf());
            self.buffers()[k].lemma_layout();
            let s = tb_region_start(d, st, dc, k);
            let c = d[k].buffer_capacity as int;
            assert(tb_resynced_at(old, new, s, c));
            lemma_resync_in_sync(old, new, s, c);
            assert(d.take(k + 1).drop_last() =~= d.take(k));
            assert(d.take(k + 1).last() == d[k]);
            assert(tb_region_start(d, st, dc, i) == s + tb_size(c));
        }
    }

    /// Every registered buffer lies inside the registry's region.
    pub proof fn lemma_inside(&self, id: TripleBufferId)
        requires
            self.wf(),
            self.id_ok(id),
        ensures
            self.tb_for(id).wf(),
            self.start() <= self.tb_for(id).start(),
            self.tb_for(id).end() <= self.end(),
            self.tb_for(id).end() == self.tb_for(id).start() + tb_size(self.tb_for(id).cap()),
            id.0 != DEFAULT_TB_RAW ==> self.start() + tb_size(self.default_buffer().cap()) <= self.tb_for(id).start(),
    {
        self.default_buffer().lemma_layout();
        lemma_tbs_size_nonneg(self.def_seq());
        if id.0 != DEFAULT_TB_RAW {
            let k = self.index()[id.0 as int]->0 as int;
            let d = self.def_seq();
            assert(self.buffers()[k].wf());
            self.buffers()[k].lemma_layout();
            lemma_tbs_size_prefix(d, k + 1);
            lemma_tbs_size_prefix(d, k);
            assert(d.take(k + 1).drop_last() =~= d.take(k));
            assert(d.take(k + 1).last() == d[k]);
        }
    }

    /// Two registered buffers are the same or lie apart.
    pub proof fn lemma_disjoint(&self, x: TripleBufferId, y: TripleBufferId)
        requires
            self.wf(),
            self.id_ok(x),
            self.id_ok(y),
        ensures
            self.tb_for(x) == self.tb_for(y) || self.tb_for(x).end() <= self.tb_for(y).start()
                || self.tb_for(y).end() <= self.tb_for(x).start(),
            x != y ==> self.tb_for(x).end() <= self.tb_for(y).start() || self.tb_for(y).end() <= self.tb_for(x).start(),
    {
        self.lemma_inside(x);
        self.lemma_inside(y);
        self.default_buffer().lemma_layout();
        if x.0 != DEFAULT_TB_RAW && y.0 != DEFAULT_TB_RAW {
            let d = self.def_seq();
            let a = self.index()[x.0 as int]->0 as int;
            let b = self.index()[y.0 as int]->0 as int;
            if a < b {
                lemma_tbs_size_prefix(d.take(b), a + 1);
                assert(d.take(b).take(a + 1) =~= d.take(a + 1));
                assert(d.take(a + 1).drop_last() =~= d.take(a));
                assert(d.take(a + 1).last() == d[a]);
                assert(self.buffers()[a].wf());
                self.buffers()[a].lemma_layout();
            } else if b < a {
                lemma_tbs_size_prefix(d.take(a), b + 1);
                assert(d.take(a).take(b + 1) =~= d.take(b + 1));
                assert(d.take(b + 1).drop_last() =~= d.take(b));
                assert(d.take(b + 1).last() == d[b]);
                assert(self.buffers()[b].wf());
                self.buffers()[b].lemma_layout();
            }
        }
    }

    /// Writing cells inside the buffer area of one registered buffer keeps
    /// every registered buffer's control cells.
    pub proof fn lemma_write_inside(&self, m1: Seq<i32>, m2: Seq<i32>, y: TripleBufferId, lo: int, hi: int)
        requires
            self.wf(),
            self.control_ok(m1),
            self.id_ok(y),
            self.tb_for(y).start() + 4 <= lo,
            hi <= self.tb_for(y).end(),
            unchanged_outside(m1, m2, lo, hi),
        ensures
            self.control_ok(m2),
            forall|x: TripleBufferId|
                self.id_ok(x) ==> (#[trigger] tb_inv(m2, self.tb_for(x).start()) <==> tb_inv(
                    m1,
                    self.tb_for(x).start(),
                )),
    {
        assert forall|x: TripleBufferId| self.id_ok(x) implies {
            &&& m2[self.tb_for(x).start()] == m1[self.tb_for(x).start()]
            &&& m2[self.tb_for(x).start() + 1] == m1[self.tb_for(x).start() + 1]
            &&& m2[self.tb_for(x).start() + 2] == m1[self.tb_for(x).start() + 2]
            &&& m2[self.tb_for(x).start() + 3] == m1[self.tb_for(x).start() + 3]
        } by {
            self.lemma_disjoint(x, y);
            self.lemma_inside(x);
            self.tb_for(x).lemma_layout();
            assert(self.tb_for(x).valid(m1));
        }
        assert forall|x: TripleBufferId| self.id_ok(x) implies {
            &&& (#[trigger] self.tb_for(x)).valid(m2)
            &&& 0 <= tb_writer_id(m2, self.tb_for(x).start()) < 3
        } by {
            assert(self.tb_for(x).valid(m1));
            assert(m2[self.tb_for(x).start() + 1] == m1[self.tb_for(x).start() + 1]);
        }
    }

    /// A change outside the registry's region keeps every control cell.
    pub proof fn lemma_outside(&self, m1: Seq<i32>, m2: Seq<i32>, lo: int, hi: int)
        requires
            self.wf(),
            self.control_ok(m1),
            unchanged_outside(m1, m2, lo, hi),
            hi <= self.start() || self.end() <= lo,
        ensures
            self.control_ok(m2),
            forall|x: TripleBufferId|
                self.id_ok(x) ==> (#[trigger] tb_inv(m2, self.tb_for(x).start()) <==> tb_inv(
                    m1,
                    self.tb_for(x).start(),
                )),
    {
        assert forall|x: TripleBufferId| self.id_ok(x) implies {
            &&& m2[self.tb_for(x).start()] == m1[self.tb_for(x).start()]
            &&& m2[self.tb_for(x).start() + 1] == m1[self.tb_for(x).start() + 1]
            &&& m2[self.tb_for(x).start() + 2] == m1[self.tb_for(x).start() + 2]
            &&& m2[self.tb_for(x).start() + 3] == m1[self.tb_for(x).start() + 3]
        } by {
            self.lemma_inside(x);
            self.tb_for(x).lemma_layout();
            assert(self.tb_for(x).valid(m1));
        }
        assert forall|x: TripleBufferId| self.id_ok(x) implies {
            &&& (#[trigger] self.tb_for(x)).valid(m2)
            &&& 0 <= tb_writer_id(m2, self.tb_for(x).start()) < 3
        } by {
            assert(self.tb_for(x).valid(m1));
            assert(m2[self.tb_for(x).start() + 1] == m1[self.tb_for(x).start() + 1]);
        }
    }

    /// The buffer of `defs[i]` is the one registered under its id.
    pub proof fn lemma_tb_for_def(&self, i: int)
        requires
            self.wf(),
            0 <= i < N,
        ensures
            self.tb_for(self.def_seq()[i].id) == self.buffers()[i],
            self.tb_for(self.def_seq()[i].id).cap() == self.def_seq()[i].buffer_capacity,
    {
        assert(self.index()[self.def_seq()[i].id.0 as int] == Some(i as u16));
    }

    pub fn new(
        mem: &mut AtomicBuffer,
        defs: [TripleBufferDef; N],
        mem_start_offset: usize,
        default_tb_capacity: u32,
    ) -> (r: Self)
        requires
            tb_registry_ok(old(mem)@, defs@, mem_start_offset as int, default_tb_capacity as int, false),
        ensures
            r.wf(),
            r.start() == mem_start_offset,
            r.def_seq() == defs@,
            r.default_buffer().cap() == default_tb_capacity,
            r.end() <= final(mem)@.len(),
            unchanged_outside(old(mem)@, final(mem)@, r.start(), r.end()),
            tb_inv(final(mem)@, r.default_buffer().start()),
            forall|i: int| 0 <= i < N ==> tb_inv(final(mem)@, (#[trigger] r.buffers()[i]).start()),
            forall|x: TripleBufferId| r.id_ok(x) ==> #[trigger] tb_fresh(final(mem)@, r.tb_for(x).start()),
            r.control_ok(final(mem)@),
    {
        Self::create(mem, defs, mem_start_offset, default_tb_capacity, false)
    }

    pub fn bind(
        mem: &mut AtomicBuffer,
        defs: [TripleBufferDef; N],
        mem_start_offset: usize,
        default_tb_capacity: u32,
    ) -> (r: Self)
        requires
            tb_registry_ok(old(mem)@, defs@, mem_start_offset as int, default_tb_capacity as int, true),
        ensures
            r.wf(),
            r.start() == mem_start_offset,
            r.def_seq() == defs@,
            r.default_buffer().cap() == default_tb_capacity,
            r.end() <= final(mem)@.len(),
            unchanged_outside(old(mem)@, final(mem)@, r.start(), r.end()),
    {
        Self::create(mem, defs, mem_start_offset, default_tb_capacity, true)
    }

    pub fn create(
        mem: &mut AtomicBuffer,
        defs: [TripleBufferDef; N],
        mem_start_offset: usize,
        default_tb_capacity: u32,
        bind: bool,
    ) -> (r: Self)
        requires
            tb_registry_ok(old(mem)@, defs@, mem_start_offset as int, default_tb_capacity as int, bind),
        ensures
            r.wf(),
            r.start() == mem_start_offset,
            r.def_seq() == defs@,
            r.default_buffer().cap() == default_tb_capacity,
            r.end() <= final(mem)@.len(),
            unchanged_outside(old(mem)@, final(mem)@, r.start(), r.end()),
            !bind ==> tb_inv(final(mem)@, r.default_buffer().start()),
            !bind ==> forall|i: int| 0 <= i < N ==> tb_inv(final(mem)@, (#[trigger] r.buffers()[i]).start()),
            !bind ==> forall|x: TripleBufferId| r.id_ok(x) ==> #[trigger] tb_fresh(final(mem)@, r.tb_for(x).start()),
            !bind ==> forall|j: int|
                r.start() + 4 <= j < r.start() + tb_size(default_tb_capacity as int) ==> #[trigger] final(mem)@[j] == old(mem)@[j],
            !bind ==> forall|x: TripleBufferId, j: int|
                #![trigger r.tb_for(x), final(mem)@[j]]
                r.id_ok(x) && r.tb_for(x).start() + 4 <= j < r.tb_for(x).end() ==> final(mem)@[j] == old(mem)@[j],
            r.control_ok(final(mem)@),
            bind ==> r.resynced(old(mem)@, final(mem)@),
    {
        let _len = mem.len();
        let ghost d = defs@;
        let ghost start = mem_start_offset as int;
        let ghost dcap = default_tb_capacity as int;
        proof {
            lemma_tbs_size_nonneg(d);
        }
        let mut offsets: Vec<usize> = Vec::new();
        let mut cursor: usize = mem_start_offset + TripleBufferWriter::calculate_size_on_mem(default_tb_capacity as usize);
        let mut i: usize = 0;
        while i < N
            invariant
                tb_registry_ok(old(mem)@, d, start, dcap, bind),
                d == defs@,
                start == mem_start_offset,
                dcap == default_tb_capacity,
                _len == old(mem)@.len(),
                i <= N,
                offsets@.len() == i,
                cursor == tb_region_start(d, start, dcap, i as int),
                forall|k: int| 0 <= k < i ==> #[trigger] offsets@[k] == tb_region_start(d, start, dcap, k),
            decreases N - i,
        {
            proof {
                lemma_tbs_size_prefix(d, i + 1);
                assert(d.take(i + 1).drop_last() =~= d.take(i as int));
            }
            offsets.push(cursor);
            cursor = cursor + TripleBufferWriter::calculate_size_on_mem(defs[i].buffer_capacity);
            i = i + 1;
        }
        let mut id_index: Vec<Option<u16>> = Vec::new();
        let mut k: usize = 0;
        while k < N
            invariant
                k <= N,
                id_index@.len() == k,
                forall|j: int| 0 <= j < k ==> #[trigger] id_index@[j] is None,
            decreases N - k,
        {
            id_index.push(None);
            k = k + 1;
        }
        let mut i: usize = 0;
        while i < N
            invariant
                tb_registry_ok(old(mem)@, d, start, dcap, bind),
                d == defs@,
                i <= N,
                id_index@.len() == N,
                forall|j: int| 0 <= j < i ==> id_index@[(#[trigger] d[j]).id.0 as int] == Some(j as u16),
                forall|x: int|
                    0 <= x < N && #[trigger] id_index@[x] is Some ==> (id_index@[x]->0 as int) < i
                        && d[id_index@[x]->0 as int].id.0 == x,
            decreases N - i,
        {
            let id = defs[i].id;
            id_index.set(id.0 as usize, Some(i as u16));
            proof {
                assert forall|j: int| 0 <= j < i + 1 implies id_index@[(#[trigger] d[j]).id.0 as int] == Some(j as u16) by {
                    if j < i {
                        assert(d[j].id != d[i as int].id);
                    }
                }
            }
            i = i + 1;
        }
        proof {
            let ids = Seq::new(N as nat, |j: int| d[j].id.0 as int);
            assert forall|a: int, b: int| 0 <= a < b < ids.len() implies ids[a] != ids[b] by {
                assert(d[a].id != d[b].id);
            }
            lemma_distinct_cover(ids, N as int);
            assert forall|x: int| 0 <= x < N implies (#[trigger] id_index@[x]) is Some by {
                assert(ids.contains(x));
                let j = choose|j: int| 0 <= j < ids.len() && ids[j] == x;
                assert(id_index@[d[j].id.0 as int] == Some(j as u16));
            }
        }
        let ghost m0 = mem@;
        let default_tb = TripleBufferWriter::create(mem, mem_start_offset, default_tb_capacity, bind);
        proof {
            if bind {
                assert(mem@[start + 1] == m0[start + 1]);
                lemma_bind_resyncs(m0, start, dcap);
            }
        }
        let mut tbs: Vec<TripleBufferWriter> = Vec::new();
        let mut i: usize = 0;
        while i < N
            invariant
                tb_registry_ok(m0, d, start, dcap, bind),
                d == defs@,
                start == mem_start_offset,
                dcap == default_tb_capacity,
                m0 == old(mem)@,
                i <= N,
                offsets@.len() == N,
                forall|k: int| 0 <= k < N ==> #[trigger] offsets@[k] == tb_region_start(d, start, dcap, k),
                tbs@.len() == i,
                default_tb.wf(),
                default_tb.start() == start,
                default_tb.cap() == dcap,
                forall|k: int|
                    0 <= k < i ==> {
                        &&& (#[trigger] tbs@[k]).wf()
                        &&& tbs@[k].start() == tb_region_start(d, start, dcap, k)
                        &&& tbs@[k].cap() == d[k].buffer_capacity
                    },
                unchanged_outside(m0, mem@, start, tb_region_start(d, start, dcap, i as int)),
                0 <= tb_writer_id(mem@, start) < 3,
                forall|k: int| 0 <= k < i ==> 0 <= #[trigger] tb_writer_id(mem@, tb_region_start(d, start, dcap, k)) < 3,
                !bind ==> tb_inv(mem@, start),
                !bind ==> forall|k: int| 0 <= k < i ==> tb_inv(mem@, (#[trigger] tbs@[k]).start()),
                !bind ==> tb_fresh(mem@, start),
                !bind ==> forall|k: int| 0 <= k < i ==> tb_fresh(mem@, (#[trigger] tbs@[k]).start()),
                !bind ==> forall|j: int| start + 4 <= j < start + tb_size(dcap) ==> #[trigger] mem@[j] == m0[j],
                !bind ==> forall|k: int, j: int|
                    0 <= k < i && (#[trigger] tbs@[k]).start() + 4 <= j < tbs@[k].start() + tb_size(tbs@[k].cap())
                        ==> #[trigger] mem@[j] == m0[j],
                bind ==> tb_resynced_at(m0, mem@, start, dcap),
                bind ==> forall|k: int|
                    0 <= k < i ==> #[trigger] tb_resynced_at(m0, mem@, tb_region_start(d, start, dcap, k), d[k].buffer_capacity as int),
            decreases N - i,
        {
            let ghost ma = mem@;
            let ghost rs = tb_region_start(d, start, dcap, i as int);
            proof {
                lemma_tbs_size_prefix(d, i + 1);
                assert(d.take(i + 1).drop_last() =~= d.take(i as int));
                lemma_tbs_size_prefix(d, i as int);
                assert(rs + tb_size(d[i as int].buffer_capacity as int) == tb_region_start(d, start, dcap, i + 1));
                assert(rs + tb_size(d[i as int].buffer_capacity as int) <= m0.len());
                if bind {
                    assert(0 <= tb_published_id(m0, rs) < 3);
                    assert(ma[rs + 1] == m0[rs + 1]);
                    assert(ma[rs + 2] == m0[rs + 2]);
                }
            }
            let tb = TripleBufferWriter::create(mem, offsets[i], defs[i].buffer_capacity as u32, bind);
            proof {
                assert(ma[start + 1] == mem@[start + 1]) by {
                    assert(start + 4 <= rs);
                }
                if bind {
                    assert(mem@[rs + 1] == ma[rs + 1]);
                }
                assert forall|k: int| 0 <= k < i implies 0 <= #[trigger] tb_writer_id(mem@, tb_region_start(d, start, dcap, k)) < 3 by {
                    let s = tb_region_start(d, start, dcap, k);
                    lemma_tbs_size_prefix(d.take(i as int), k + 1);
                    assert(d.take(i as int).take(k + 1) =~= d.take(k + 1));
                    assert(d.take(k + 1).drop_last() =~= d.take(k));
                    assert(d.take(k + 1).last() == d[k]);
                    lemma_tbs_size_nonneg(d.take(k));
                    assert(tbs_size(d.take(k + 1)) == tbs_size(d.take(k)) + tb_size(d[k].buffer_capacity as int));
                    assert(tbs_size(d.take(k + 1)) <= tbs_size(d.take(i as int)));
                    assert(s + 4 <= rs);
                    assert(0 <= tb_writer_id(ma, s) < 3);
                    assert(ma[s + 1] == mem@[s + 1]);
                }
                if !bind {
                    assert(ma[start] == mem@[start]);
                    assert(ma[start + 1] == mem@[start + 1]);
                    assert(ma[start + 2] == mem@[start + 2]);
                    assert(ma[start + 3] == mem@[start + 3]);
                    assert forall|k: int| 0 <= k < i implies tb_inv(mem@, (#[trigger] tbs@[k]).start()) by {
                        let s = tbs@[k].start();
                        lemma_tbs_size_prefix(d.take(i as int), k + 1);
                        assert(d.take(i as int).take(k + 1) =~= d.take(k + 1));
                        assert(d.take(k + 1).drop_last() =~= d.take(k));
                        assert(d.take(k + 1).last() == d[k]);
                        assert(tbs_size(d.take(k + 1)) == tbs_size(d.take(k)) + tb_size(d[k].buffer_capacity as int));
                        assert(tbs_size(d.take(k + 1)) <= tbs_size(d.take(i as int)));
                        assert(s + 4 <= rs);
                        lemma_tbs_size_nonneg(d.take(k));
                        assert(0 <= s);
                        assert(ma[s] == mem@[s]);
                        assert(ma[s + 1] == mem@[s + 1]);
                        assert(ma[s + 2] == mem@[s + 2]);
                        assert(ma[s + 3] == mem@[s + 3]);
                    }
                    assert forall|k: int| 0 <= k < i + 1 implies tb_fresh(mem@, (#[trigger] tbs@.push(tb)[k]).start()) by {
                        if k < i {
                            assert(tb_inv(mem@, tbs@[k].start()));
                            let s = tbs@[k].start();
                            lemma_tbs_size_prefix(d.take(i as int), k + 1);
                            assert(d.take(i as int).take(k + 1) =~= d.take(k + 1));
                            assert(d.take(k + 1).drop_last() =~= d.take(k));
                            assert(d.take(k + 1).last() == d[k]);
                            assert(tbs_size(d.take(k + 1)) == tbs_size(d.take(k)) + tb_size(d[k].buffer_capacity as int));
                            assert(tbs_size(d.take(k + 1)) <= tbs_size(d.take(i as int)));
                            assert(s + 4 <= rs);
                            lemma_tbs_size_nonneg(d.take(k));
                            assert(ma[s] == mem@[s]);
                            assert(ma[s + 1] == mem@[s + 1]);
                            assert(ma[s + 2] == mem@[s + 2]);
                            assert(ma[s + 3] == mem@[s + 3]);
                            assert(tb_fresh(ma, s));
                        } else {
                            assert(tbs@.push(tb)[k] == tb);
                        }
                    }
                    assert forall|k: int, j: int|
                        0 <= k < i + 1 && (#[trigger] tbs@.push(tb)[k]).start() + 4 <= j < tbs@.push(tb)[k].start() + tb_size(
                            tbs@.push(tb)[k].cap(),
                        ) implies #[trigger] mem@[j] == m0[j] by {
                        if k < i {
                            lemma_tbs_size_prefix(d.take(i as int), k + 1);
                            assert(d.take(i as int).take(k + 1) =~= d.take(k + 1));
                            assert(d.take(k + 1).drop_last() =~= d.take(k));
                            assert(d.take(k + 1).last() == d[k]);
                            assert(tbs_size(d.take(k + 1)) == tbs_size(d.take(k)) + tb_size(d[k].buffer_capacity as int));
                            assert(tbs_size(d.take(k + 1)) <= tbs_size(d.take(i as int)));
                            assert(tbs@[k].start() + 4 <= j < tbs@[k].start() + tb_size(tbs@[k].cap()));
                            lemma_tbs_size_nonneg(d.take(k));
                            assert(tbs@[k].start() == tb_region_start(d, start, dcap, k));
                            assert(j < rs);
                            assert(0 <= j);
                            assert(rs < mem@.len());
                            assert(mem@[j] == ma[j]);
                        } else {
                            assert(tbs@.push(tb)[k] == tb);
                            tb.lemma_layout();
                            assert(tb.start() == rs);
                            assert(rs + 4 <= j < mem@.len());
                            lemma_tbs_size_nonneg(d.take(i as int));
                            assert(mem@[j] == ma[j]);
                        }
                    }
                }
                if bind {
                    let mb = mem@;
                    let cap = d[i as int].buffer_capacity as int;
                    lemma_bind_resyncs(ma, rs, cap);
                    lemma_tbs_size_nonneg(d.take(i as int));
                    lemma_resynced_frame(ma, m0, mb, mb, rs, cap);
                    lemma_resynced_frame(m0, m0, ma, mb, start, dcap);
                    assert forall|k: int| 0 <= k < i + 1 implies #[trigger] tb_resynced_at(
                        m0,
                        mb,
                        tb_region_start(d, start, dcap, k),
                        d[k].buffer_capacity as int,
                    ) by {
                        if k < i {
                            let sk = tb_region_start(d, start, dcap, k);
                            lemma_tbs_size_prefix(d.take(i as int), k + 1);
                            assert(d.take(i as int).take(k + 1) =~= d.take(k + 1));
                            assert(d.take(k + 1).drop_last() =~= d.take(k));
                            assert(d.take(k + 1).last() == d[k]);
                            assert(tbs_size(d.take(k + 1)) == tbs_size(d.take(k)) + tb_size(d[k].buffer_capacity as int));
                            lemma_tbs_size_nonneg(d.take(k));
                            lemma_resynced_frame(m0, m0, ma, mb, sk, d[k].buffer_capacity as int);
                        }
                    }
                }
            }
            tbs.push(tb);
            i = i + 1;
        }
        proof {
            assert(d.take(N as int) =~= d);
        }
        let mut def_vec: Vec<TripleBufferDef> = Vec::new();
        let mut i: usize = 0;
        while i < N
            invariant
                d == defs@,
                i <= N,
                def_vec@ == d.take(i as int),
            decreases N - i,
        {
            def_vec.push(defs[i]);
            proof {
                assert(d.take(i + 1) =~= d.take(i as int).push(d[i as int]));
            }
            i = i + 1;
        }
        proof {
            assert(d.take(N as int) =~= d);
        }
        let r = TripleBufferWriterRegistry {
            mem_start_offset,
            mem_end_offset: cursor,
            id_index,
            defs: def_vec,
            default_tb,
            tbs,
        };
        proof {
            assert forall|id: TripleBufferId| r.id_ok(id) implies {
                &&& (#[trigger] r.tb_for(id)).valid(mem@)
                &&& 0 <= tb_writer_id(mem@, r.tb_for(id).start()) < 3
            } by {
                r.lemma_inside(id);
                if id.0 != DEFAULT_TB_RAW {
                    let k = r.index()[id.0 as int]->0 as int;
                    assert(0 <= tb_writer_id(mem@, tb_region_start(d, start, dcap, k)) < 3);
                }
            }
            if !bind {
                assert forall|x: TripleBufferId, j: int|
                    #![trigger r.tb_for(x), mem@[j]]
                    r.id_ok(x) && r.tb_for(x).start() + 4 <= j < r.tb_for(x).end() implies mem@[j] == m0[j] by {
                    r.lemma_inside(x);
                    if x.0 != DEFAULT_TB_RAW {
                        let k = r.index()[x.0 as int]->0 as int;
                        assert(tbs@[k].start() + 4 <= j < tbs@[k].start() + tb_size(tbs@[k].cap()));
                    }
                }
            }
            if bind {
                assert forall|x: TripleBufferId| r.id_ok(x) implies #[trigger] tb_resynced_at(
                    m0,
                    mem@,
                    r.tb_for(x).start(),
                    r.tb_for(x).cap(),
                ) by {
                    if x.0 != DEFAULT_TB_RAW {
                        let k = r.index()[x.0 as int]->0 as int;
                        assert(tb_resynced_at(m0, mem@, tb_region_start(d, start, dcap, k), d[k].buffer_capacity as int));
                    }
                }
            }
        }
        r
    }
}


impl<const N: usize> TripleBufferWriterRegistry<N> {
    pub fn calculate_size_on_mem(default_tb_capacity: usize, defs: &[TripleBufferDef; N]) -> (r: usize)
        requires
            tb_size(default_tb_capacity as int) + tbs_size(defs@) <= usize::MAX,
        ensures
            r == tb_size(default_tb_capacity as int) + tbs_size(defs@),
    {
        let ghost d = defs@;
        proof {
            lemma_tbs_size_nonneg(d);
        }
        let mut size: usize = TripleBufferWriter::calculate_size_on_mem(default_tb_capacity);
        let mut i: usize = 0;
        while i < N
            invariant
                d == defs@,
                tb_size(default_tb_capacity as int) + tbs_size(d) <= usize::MAX,
                i <= N,
                size == tb_size(default_tb_capacity as int) + tbs_size(d.take(i as int)),
            decreases N - i,
        {
            proof {
                lemma_tbs_size_prefix(d, i + 1);
                assert(d.take(i + 1).drop_last() =~= d.take(i as int));
            }
            size = size + TripleBufferWriter::calculate_size_on_mem(defs[i].buffer_capacity);
            i = i + 1;
        }
        proof {
            assert(d.take(N as int) =~= d);
        }
        size
    }

    /// The consumer-side registry over the same buffers.
    pub fn to_reader(&self) -> (r: TripleBufferReaderRegistry<N>)
        requires
            self.wf(),
        ensures
            r.wf(),
            r.index() == self.index(),
            r.start() == self.start(),
            r.default_buffer().start() == self.default_buffer().start(),
            r.default_buffer().cap() == self.default_buffer().cap(),
            r.default_buffer().wf(),
            forall|i: int|
                0 <= i < N ==> (#[trigger] r.buffers()[i]).start() == self.buffers()[i].start()
                    && r.buffers()[i].cap() == self.buffers()[i].cap() && r.buffers()[i].wf(),
    {
        let mut index: Vec<Option<u16>> = Vec::new();
        let mut readers: Vec<TripleBufferReader> = Vec::new();
        let mut i: usize = 0;
        while i < N
            invariant
                self.wf(),
                i <= N,
                index@ == self.index().take(i as int),
                readers@.len() == i,
                forall|k: int|
                    0 <= k < i ==> (#[trigger] readers@[k]).start() == self.buffers()[k].start()
                        && readers@[k].cap() == self.buffers()[k].cap() && readers@[k].wf(),
            decreases N - i,
        {
            index.push(self.id_index[i]);
            readers.push(self.tbs[i].to_reader());
            proof {
                assert(self.index().take(i + 1) =~= self.index().take(i as int).push(self.index()[i as int]));
            }
            i = i + 1;
        }
        proof {
            assert(self.index().take(N as int) =~= self.index());
        }
        TripleBufferReaderRegistry::bind(index, self.default_tb.to_reader(), readers, self.mem_start_offset)
    }

    #[inline]
    pub fn mem_start_offset(&self) -> (r: usize)
        ensures
            r == self.start(),
    {
        self.mem_start_offset
    }

    #[inline]
    pub fn mem_end_offset(&self) -> (r: usize)
        ensures
            r == self.end(),
    {
        self.mem_end_offset
    }

    /// Cells the registry spans.
    #[inline]
    pub fn len(&self) -> (r: usize)
        requires
            self.wf(),
        ensures
            r == self.end() - self.start(),
    {
        proof {
            lemma_tbs_size_nonneg(self.def_seq());
            self.default_buffer().lemma_layout();
        }
        self.mem_end_offset - self.mem_start_offset
    }

    /// The buffer registered under `id` (the default buffer for the default id).
    #[inline]
    pub fn get(&self, id: TripleBufferId) -> (r: &TripleBufferWriter)
        requires
            self.wf(),
            id.0 == DEFAULT_TB_RAW || id.0 < N,
        ensures
            *r == self.tb_for(id),
    {
        if id.is_default() {
            return &self.default_tb;
        }
        let index = self.id_index[id.0 as usize].unwrap();
        &self.tbs[index as usize]
    }

    /// Position of the definition registered under `id`.
    #[inline]
    pub(crate) fn index_of(&self, id: TripleBufferId) -> (r: u16)
        requires
            self.wf(),
            id.0 < N,
        ensures
            r < N,
            self.def_seq()[r as int].id == id,
            self.tb_for(id) == self.buffers()[r as int],
    {
        self.id_index[id.0 as usize].unwrap()
    }

    /// Copies the control cells of the default buffer and of every buffer of
    /// `source` into the buffer registered here under the same id; every
    /// other cell stays.
    pub fn copy_metadata_regions_from<const M: usize>(
        &self,
        mem: &mut AtomicBuffer,
        source: &TripleBufferWriterRegistry<M>,
        source_mem: &AtomicBuffer,
    )
        requires
            self.wf(),
            source.wf(),
            self.end() <= old(mem)@.len(),
            source.end() <= source_mem@.len(),
            M <= N,
            source.default_buffer().cap() <= self.default_buffer().cap(),
            forall|i: int|
                0 <= i < M ==> (#[trigger] source.buffers()[i]).cap() <= self.tb_for(source.def_seq()[i].id).cap(),
        ensures
            final(mem)@.len() == old(mem)@.len(),
            unchanged_outside(old(mem)@, final(mem)@, self.start(), self.end()),
            forall|x: TripleBufferId, c: int|
                self.id_ok(x) && 0 <= c < 4 ==> #[trigger] final(mem)@[self.tb_for(x).start() + c] == if source.id_ok(x) {
                    source_mem@[source.tb_for(x).start() + c]
                } else {
                    old(mem)@[self.tb_for(x).start() + c]
                },
            forall|x: TripleBufferId, j: int|
                #![trigger self.tb_for(x), final(mem)@[j]]
                self.id_ok(x) && self.tb_for(x).start() + 4 <= j < self.tb_for(x).end() ==> final(mem)@[j] == old(mem)@[j],
    {
        proof {
            self.default_buffer().lemma_layout();
            source.default_buffer().lemma_layout();
            lemma_tbs_size_nonneg(self.def_seq());
            lemma_tbs_size_nonneg(source.def_seq());
        }
        let ghost m0 = mem@;
        self.default_tb.copy_metadata_from(mem, &source.default_tb, source_mem);
        let ghost m1 = mem@;
        let ghost ds = self.default_buffer().start();
        proof {
            let dflt = TripleBufferId(DEFAULT_TB_RAW);
            assert forall|x: TripleBufferId, c: int| self.id_ok(x) && 0 <= c < 4 implies #[trigger] m1[self.tb_for(x).start() + c]
                == if x.0 == DEFAULT_TB_RAW {
                source_mem@[source.tb_for(x).start() + c]
            } else {
                m0[self.tb_for(x).start() + c]
            } by {
                self.lemma_disjoint(x, dflt);
                self.lemma_inside(x);
                if x.0 == DEFAULT_TB_RAW {
                    assert(x == dflt);
                }
            }
            assert forall|x: TripleBufferId, j: int|
                #![trigger self.tb_for(x), m1[j]]
                self.id_ok(x) && self.tb_for(x).start() + 4 <= j < self.tb_for(x).end() implies m1[j] == m0[j] by {
                self.lemma_disjoint(x, dflt);
                self.lemma_inside(x);
                self.tb_for(x).lemma_layout();
            }
        }
        let mut i: usize = 0;
        while i < M
            invariant
                self.wf(),
                source.wf(),
                self.end() <= mem@.len(),
                source.end() <= source_mem@.len(),
                M <= N,
                forall|i: int|
                    0 <= i < M ==> (#[trigger] source.buffers()[i]).cap() <= self.tb_for(source.def_seq()[i].id).cap(),
                i <= M,
                mem@.len() == m0.len(),
                m0 == old(mem)@,
                unchanged_outside(m0, mem@, self.start(), self.end()),
                forall|x: TripleBufferId, c: int|
                    self.id_ok(x) && 0 <= c < 4 ==> #[trigger] mem@[self.tb_for(x).start() + c] == if x.0 == DEFAULT_TB_RAW
                        || (x.0 < M && (source.index()[x.0 as int]->0 as int) < i) {
                        source_mem@[source.tb_for(x).start() + c]
                    } else {
                        m0[self.tb_for(x).start() + c]
                    },
                forall|x: TripleBufferId, j: int|
                    #![trigger self.tb_for(x), mem@[j]]
                    self.id_ok(x) && self.tb_for(x).start() + 4 <= j < self.tb_for(x).end() ==> mem@[j] == m0[j],
            decreases M - i,
        {
            let id = source.defs[i].id;
            proof {
                source.lemma_tb_for_def(i as int);
            }
            let src = source.get(id);
            let dst = self.get(id);
            proof {
                let k = self.index()[id.0 as int]->0 as int;
                self.lemma_tb_for_def(k);
                self.lemma_inside(id);
                source.lemma_inside(id);
                dst.lemma_layout();
                src.lemma_layout();
            }
            let ghost ma = mem@;
            dst.copy_metadata_from(mem, src, source_mem);
            proof {
                let mb = mem@;
                assert(source.index()[id.0 as int] == Some(i as u16));
                assert forall|x: TripleBufferId, c: int| self.id_ok(x) && 0 <= c < 4 implies #[trigger] mb[self.tb_for(x).start() + c]
                    == if x.0 == DEFAULT_TB_RAW || (x.0 < M && (source.index()[x.0 as int]->0 as int) < i + 1) {
                    source_mem@[source.tb_for(x).start() + c]
                } else {
                    m0[self.tb_for(x).start() + c]
                } by {
                    self.lemma_disjoint(x, id);
                    self.lemma_inside(x);
                    if x == id {
                        assert(mb[self.tb_for(x).start() + c] == source_mem@[source.tb_for(x).start() + c]);
                    } else {
                        let p = self.tb_for(x).start() + c;
                        self.tb_for(x).lemma_layout();
                        assert(self.tb_for(id).start() + 4 <= self.tb_for(id).end());
                        assert(self.tb_for(x).start() + 4 <= self.tb_for(x).end());
                        assert(p < self.tb_for(id).start() || self.tb_for(id).start() + 4 <= p);
                        assert(*dst == self.tb_for(id));
                        assert(mb[p] == ma[p]);
                        if x.0 < M && (source.index()[x.0 as int]->0 as int) == i {
                            assert(source.def_seq()[i as int].id.0 == x.0);
                            assert(false);
                        }
                    }
                }
                assert forall|j: int| 0 <= j < m0.len() && !(self.start() <= j < self.end()) implies #[trigger] mb[j] == m0[j] by {
                    assert(mb[j] == ma[j]);
                }
                assert forall|x: TripleBufferId, j: int|
                    #![trigger self.tb_for(x), mb[j]]
                    self.id_ok(x) && self.tb_for(x).start() + 4 <= j < self.tb_for(x).end() implies mb[j] == m0[j] by {
                    self.lemma_disjoint(x, id);
                    self.lemma_inside(x);
                    self.tb_for(x).lemma_layout();
                    assert(self.tb_for(id).start() + 4 <= self.tb_for(id).end());
                    assert(*dst == self.tb_for(id));
                    assert(mb[j] == ma[j]);
                    assert(ma[j] == m0[j]);
                }
            }
            i = i + 1;
        }
        proof {
            assert forall|x: TripleBufferId, c: int| self.id_ok(x) && 0 <= c < 4 implies #[trigger] mem@[self.tb_for(x).start() + c]
                == if source.id_ok(x) {
                source_mem@[source.tb_for(x).start() + c]
            } else {
                m0[self.tb_for(x).start() + c]
            } by {
                if x.0 != DEFAULT_TB_RAW && x.0 < M {
                    assert(source.index()[x.0 as int] is Some);
                }
            }
        }
    }
}
} // verus!
