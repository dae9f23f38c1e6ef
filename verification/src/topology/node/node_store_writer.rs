use crate::constants::NODE_STRIDE;
use crate::errors::slot_allocator_error::SlotAllocatorError;
use crate::primitives::entry_store_writer::{EntryStoreWriter, lemma_frame_trans, set_cell, zeros};
use crate::primitives::slot::{SlotId, encode_slot, norm_slot};
use crate::primitives::triple_buffer_writer::{TripleBufferWriter, tb_base, tb_in_region};
use crate::primitives::types::{AtomicBuffer, unchanged_outside};
use crate::topology::node::node_handle::NodeHandle;
use crate::topology::node::node_store_config::NodeStoreConfig;
use crate::topology::node::node_store_reader::NodeStoreReader;
use crate::topology::node::node_writer::{NodeWriter, with_kind};
use vstd::prelude::*;

verus! {

/// The core cells of a freshly inserted node.
pub open spec fn node_init(kind: i32, next: i32, prev: i32) -> Seq<i32> {
    seq![with_kind(0i32, kind), next, prev, 0i32, 0i32, 0i32, 0i32, 0i32]
}

/// The node views after linking a new node `n` (index) right after node index
/// `p`, whose old successor cell held `nx`.
pub open spec fn linked_after(c: Seq<Seq<i32>>, p: int, n: int, kind: i32) -> Seq<Seq<i32>> {
    let nx = c[p][1];
    let c1 = c.update(n, node_init(kind, norm_slot(nx), (p + 1) as i32));
    let c2 = set_cell(c1, p, 1, (n + 1) as i32);
    if nx > 0 {
        set_cell(c2, nx - 1, 2, (n + 1) as i32)
    } else {
        c2
    }
}

/// The node views after linking a new node `n` right before node index `q`,
/// whose old predecessor cell held `pv`.
pub open spec fn linked_before(c: Seq<Seq<i32>>, q: int, n: int, kind: i32) -> Seq<Seq<i32>> {
    let pv = c[q][2];
    let c1 = c.update(n, node_init(kind, (q + 1) as i32, norm_slot(pv)));
    let c2 = set_cell(c1, q, 2, (n + 1) as i32);
    if pv > 0 {
        set_cell(c2, pv - 1, 1, (n + 1) as i32)
    } else {
        c2
    }
}

/// The node views after unlinking node index `i` from its neighbours.
pub open spec fn unlinked(c: Seq<Seq<i32>>, i: int) -> Seq<Seq<i32>> {
    let nx = c[i][1];
    let pv = c[i][2];
    let c1 = if pv > 0 {
        set_cell(c, pv - 1, 1, norm_slot(nx))
    } else {
        c
    };
    if nx > 0 {
        set_cell(c1, nx - 1, 2, norm_slot(pv))
    } else {
        c1
    }
}

/// Producer-side doubly-linked list of nodes over an entry store.
///
/// Core layout per node: see `NodeWriter`. `remove_node()` unlinks the node and
/// retires its slot; it does not touch synapses (see `NetworkWriter::remove_node()`).
/// Slots are 1-based; 0 means "no slot". Retired slots are not reallocated
/// before the consumer has acknowledged the `publish()` that follows.
#[derive(Clone, Copy)]
pub struct NodeStoreWriter {
    pub(crate) nodes: EntryStoreWriter,
}

impl NodeStoreWriter {
    pub closed spec fn store(&self) -> EntryStoreWriter {
        self.nodes
    }

    pub open spec fn valid(&self, mem: Seq<i32>) -> bool {
        &&& self.store().valid(mem)
        &&& self.store().cfg().core_stride == NODE_STRIDE
    }

    /// The underlying entry store.
    pub(crate) fn entries(&self) -> (r: &EntryStoreWriter)
        ensures
            *r == self.store(),
    {
        &self.nodes
    }

    pub open spec fn inv(&self, mem: Seq<i32>) -> bool {
        self.store().inv(mem)
    }

    pub open spec fn cap(&self) -> int {
        self.store().cap()
    }

    /// Core cells of every node slot (index `s - 1` for slot `s`).
    pub open spec fn view(&self, mem: Seq<i32>) -> Seq<Seq<i32>> {
        self.store().core_view(mem)
    }

    /// Allocator state, metadata and attributes are as in `old`, and nothing
    /// outside the store moved.
    pub open spec fn same_except_core(&self, old: Seq<i32>, new: Seq<i32>) -> bool {
        &&& self.store().meta_view(new) == self.store().meta_view(old)
        &&& self.store().attr_view(new) == self.store().attr_view(old)
        &&& self.store().slots().allocated(new) == self.store().slots().allocated(old)
        &&& self.store().slots().deferred(new) == self.store().slots().deferred(old)
        &&& self.store().slots().free_order(new) == self.store().slots().free_order(old)
        &&& self.store().slots().entries(new) == self.store().slots().entries(old)
        &&& self.store().slots().writer_gen(new) == self.store().slots().writer_gen(old)
        &&& self.store().slots().ack_gen(new) == self.store().slots().ack_gen(old)
        &&& self.store().buffer().writer_base(new) == self.store().buffer().writer_base(old)
        &&& self.store().frame(old, new)
    }

    pub fn new(
        mem: &mut AtomicBuffer,
        tb: TripleBufferWriter,
        config: NodeStoreConfig,
        mem_start_offset: usize,
        tb_start_offset: usize,
    ) -> (w: Self)
        requires
            EntryStoreWriter::layout_ok(old(mem)@, tb, config.entry_config(), mem_start_offset as int, tb_start_offset as int),
        ensures
            w.valid(final(mem)@),
            w.store().buffer() == tb,
            w.store().cfg() == config.entry_config(),
            w.store().start() == mem_start_offset,
            w.store().tb_start() == tb_start_offset,
            w.store().fresh(old(mem)@, final(mem)@),
    {
        Self::create(mem, tb, config, mem_start_offset, tb_start_offset, false)
    }

    pub fn bind(
        mem: &mut AtomicBuffer,
        tb: TripleBufferWriter,
        config: NodeStoreConfig,
        mem_start_offset: usize,
        tb_start_offset: usize,
    ) -> (w: Self)
        requires
            EntryStoreWriter::layout_ok(old(mem)@, tb, config.entry_config(), mem_start_offset as int, tb_start_offset as int),
        ensures
            w.valid(final(mem)@),
            w.store().buffer() == tb,
            w.store().cfg() == config.entry_config(),
            w.store().start() == mem_start_offset,
            w.store().tb_start() == tb_start_offset,
            final(mem)@ == old(mem)@,
    {
        Self::create(mem, tb, config, mem_start_offset, tb_start_offset, true)
    }

    pub fn create(
        mem: &mut AtomicBuffer,
        tb: TripleBufferWriter,
        config: NodeStoreConfig,
        mem_start_offset: usize,
        tb_start_offset: usize,
        bind: bool,
    ) -> (w: Self)
        requires
            EntryStoreWriter::layout_ok(old(mem)@, tb, config.entry_config(), mem_start_offset as int, tb_start_offset as int),
        ensures
            w.valid(final(mem)@),
            w.store().buffer() == tb,
            w.store().cfg() == config.entry_config(),
            w.store().start() == mem_start_offset,
            w.store().tb_start() == tb_start_offset,
            bind ==> final(mem)@ == old(mem)@,
            !bind ==> w.store().fresh(old(mem)@, final(mem)@),
    {
        let c = config.to_entry_store_config();
        NodeStoreWriter { nodes: EntryStoreWriter::create(mem, tb, c, mem_start_offset, tb_start_offset, bind) }
    }

    #[inline]
    pub fn calculate_size_on_mem(config: &NodeStoreConfig) -> (r: usize)
        requires
            config.entry_config().mem_size() <= usize::MAX,
        ensures
            r == config.entry_config().mem_size(),
    {
        EntryStoreWriter::calculate_size_on_mem(&config.to_entry_store_config())
    }

    #[inline]
    pub fn calculate_size_on_tb(config: &NodeStoreConfig) -> (r: usize)
        requires
            NODE_STRIDE + config.meta_stride <= usize::MAX,
            config.entry_config().tb_size() <= usize::MAX,
        ensures
            r == config.entry_config().tb_size(),
    {
        EntryStoreWriter::calculate_size_on_tb(&config.to_entry_store_config())
    }

    pub fn to_reader(&self, mem: &AtomicBuffer) -> (r: NodeStoreReader)
        requires
            self.valid(mem@),
        ensures
            r.store().buffer().start() == self.store().buffer().start(),
            r.store().buffer().cap() == self.store().buffer().cap(),
            r.store().staging().start() == self.store().slots().staging().start(),
            r.store().staging().cap() == self.store().cap(),
            r.store().staging().wf(),
            r.store().cfg() == self.store().cfg(),
            r.store().start() == self.store().start(),
            r.store().attrs_start() == self.store().attrs_start(),
            r.store().end() == self.store().end(),
            r.store().tb_start() == self.store().tb_start(),
            r.store().tb_end() == self.store().tb_end(),
            r.store().consistent(),
    {
        NodeStoreReader::bind(self.nodes.to_reader(mem))
    }

    #[inline]
    pub fn len(&self, mem: &AtomicBuffer) -> (r: usize)
        requires
            self.valid(mem@),
            self.inv(mem@),
        ensures
            r == self.cap() - self.store().slots().free_order(mem@).len(),
    {
        self.nodes.len(mem)
    }

    #[inline]
    pub fn mem_start_offset(&self) -> (r: usize)
        ensures
            r == self.store().start(),
    {
        self.nodes.mem_start_offset()
    }

    #[inline]
    pub fn mem_end_offset(&self) -> (r: usize)
        ensures
            r == self.store().end(),
    {
        self.nodes.mem_end_offset()
    }

    #[inline]
    pub fn tb_start_offset(&self) -> (r: usize)
        ensures
            r == self.store().tb_start(),
    {
        self.nodes.tb_start_offset()
    }

    #[inline]
    pub fn tb_end_offset(&self) -> (r: usize)
        ensures
            r == self.store().tb_end(),
    {
        self.nodes.tb_end_offset()
    }

    #[inline]
    pub fn capacity(&self) -> (r: usize)
        ensures
            r == self.cap(),
    {
        self.nodes.capacity()
    }

    /// Structural access to a live node.
    #[inline]
    pub fn get_node(&'_ self, mem: &AtomicBuffer, slot: SlotId) -> (r: NodeWriter<'_>)
        requires
            self.valid(mem@),
            self.inv(mem@),
            slot.raw() <= self.cap(),
            self.store().active(mem@, slot.raw() as int),
        ensures
            r.valid(mem@),
            r.cells(mem@) == self.view(mem@)[slot.raw() - 1],
            r.entry().meta_zone().view(mem@) == self.store().meta_view(mem@)[slot.raw() - 1],
            r.entry().attr_zone().view(mem@) == self.store().attr_view(mem@)[slot.raw() - 1],
    {
        NodeWriter::new(self.nodes.get(mem, slot))
    }

    /// User access to a live node: core read-only, metadata and attributes writable.
    #[inline]
    pub fn get_node_handle(&'_ self, mem: &AtomicBuffer, slot: SlotId) -> (r: NodeHandle<'_>)
        requires
            self.valid(mem@),
            self.inv(mem@),
            slot.raw() <= self.cap(),
            self.store().active(mem@, slot.raw() as int),
        ensures
            r.valid(mem@),
            r.cells(mem@) == self.view(mem@)[slot.raw() - 1],
            r.entry().meta_zone().view(mem@) == self.store().meta_view(mem@)[slot.raw() - 1],
            r.entry().attr_zone().view(mem@) == self.store().attr_view(mem@)[slot.raw() - 1],
    {
        NodeHandle::new(self.nodes.get_handle(mem, slot))
    }
}


impl NodeStoreWriter {
    /// Inserts an unlinked node with no synapses.
    pub fn insert_node(&self, mem: &mut AtomicBuffer, kind: i32) -> (r: Option<SlotId>)
        requires
            self.valid(old(mem)@),
            self.inv(old(mem)@),
            0 <= kind < 256,
        ensures
            self.valid(final(mem)@),
            self.inv(final(mem)@),
            self.store().insert_result(old(mem)@, final(mem)@, r),
            r matches Some(s) ==> self.view(final(mem)@) == self.view(old(mem)@).update(
                s.raw() - 1,
                node_init(kind, 0, 0),
            ),
    {
        self.insert_orphaned_node(mem, kind, None, None)
    }

    /// Inserts a node right after `prev_slot` in its chain.
    pub fn insert_node_after(&self, mem: &mut AtomicBuffer, prev_slot: SlotId, kind: i32) -> (r: Option<SlotId>)
        requires
            self.valid(old(mem)@),
            self.inv(old(mem)@),
            0 <= kind < 256,
            prev_slot.raw() <= self.cap(),
            self.view(old(mem)@)[prev_slot.raw() - 1][1] <= self.cap(),
        ensures
            self.valid(final(mem)@),
            self.inv(final(mem)@),
            self.store().insert_result(old(mem)@, final(mem)@, r),
            r matches Some(s) ==> self.view(final(mem)@) == linked_after(
                self.view(old(mem)@),
                prev_slot.raw() - 1,
                s.raw() - 1,
                kind,
            ),
    {
        let ghost m0 = mem@;
        let prev_next = self.nodes.core_cell(mem, prev_slot, 1);
        let prev_next_slot = SlotId::from_i32(prev_next);
        let result = self.insert_orphaned_node(mem, kind, prev_next_slot, Some(prev_slot));
        let new_slot = match result {
            None => {
                return None;
            },
            Some(s) => s,
        };
        let ghost m1 = mem@;
        self.nodes.set_core_cell(mem, prev_slot, 1, new_slot.to_i32());
        let ghost m2 = mem@;
        match prev_next_slot {
            Some(ns) => {
                self.nodes.set_core_cell(mem, ns, 2, new_slot.to_i32());
            },
            None => {},
        }
        proof {
            lemma_frame_trans(self.nodes, m0, m1, m2);
            lemma_frame_trans(self.nodes, m0, m2, mem@);
            assert(self.view(mem@) =~= linked_after(self.view(m0), prev_slot.raw() - 1, new_slot.raw() - 1, kind));
        }
        Some(new_slot)
    }

    /// Inserts a node right before `next_slot` in its chain.
    pub fn insert_node_before(&self, mem: &mut AtomicBuffer, next_slot: SlotId, kind: i32) -> (r: Option<SlotId>)
        requires
            self.valid(old(mem)@),
            self.inv(old(mem)@),
            0 <= kind < 256,
            next_slot.raw() <= self.cap(),
            self.view(old(mem)@)[next_slot.raw() - 1][2] <= self.cap(),
        ensures
            self.valid(final(mem)@),
            self.inv(final(mem)@),
            self.store().insert_result(old(mem)@, final(mem)@, r),
            r matches Some(s) ==> self.view(final(mem)@) == linked_before(
                self.view(old(mem)@),
                next_slot.raw() - 1,
                s.raw() - 1,
                kind,
            ),
    {
        let ghost m0 = mem@;
        let next_prev = self.nodes.core_cell(mem, next_slot, 2);
        let next_prev_slot = SlotId::from_i32(next_prev);
        let result = self.insert_orphaned_node(mem, kind, Some(next_slot), next_prev_slot);
        let new_slot = match result {
            None => {
                return None;
            },
            Some(s) => s,
        };
        let ghost m1 = mem@;
        self.nodes.set_core_cell(mem, next_slot, 2, new_slot.to_i32());
        let ghost m2 = mem@;
        match next_prev_slot {
            Some(ps) => {
                self.nodes.set_core_cell(mem, ps, 1, new_slot.to_i32());
            },
            None => {},
        }
        proof {
            lemma_frame_trans(self.nodes, m0, m1, m2);
            lemma_frame_trans(self.nodes, m0, m2, mem@);
            assert(self.view(mem@) =~= linked_before(self.view(m0), next_slot.raw() - 1, new_slot.raw() - 1, kind));
        }
        Some(new_slot)
    }

    /// Unlinks the node from its chain and retires its slot. Synapses that
    /// reference the node are left as they are.
    pub fn remove_node(&self, mem: &mut AtomicBuffer, slot: SlotId) -> (r: Result<(), SlotAllocatorError>)
        requires
            self.valid(old(mem)@),
            self.inv(old(mem)@),
            slot.raw() <= self.cap(),
            self.view(old(mem)@)[slot.raw() - 1][1] <= self.cap(),
            self.view(old(mem)@)[slot.raw() - 1][2] <= self.cap(),
        ensures
            self.valid(final(mem)@),
            self.inv(final(mem)@),
            self.store().remove_result(old(mem)@, final(mem)@, slot, r),
            r is Ok ==> self.view(final(mem)@) == unlinked(self.view(old(mem)@), slot.raw() - 1),
    {
        let ghost m0 = mem@;
        let next_v = self.nodes.core_cell(mem, slot, 1);
        let prev_v = self.nodes.core_cell(mem, slot, 2);
        let prev_slot = SlotId::from_i32(prev_v);
        let next_slot = SlotId::from_i32(next_v);
        match self.nodes.remove(mem, slot) {
            Err(e) => {
                return Err(e);
            },
            Ok(()) => {},
        }
        let ghost m1 = mem@;
        match prev_slot {
            Some(p) => {
                self.nodes.set_core_cell(mem, p, 1, SlotId::option_to_i32(next_slot));
            },
            None => {},
        }
        let ghost m2 = mem@;
        match next_slot {
            Some(nx) => {
                self.nodes.set_core_cell(mem, nx, 2, SlotId::option_to_i32(prev_slot));
            },
            None => {},
        }
        proof {
            lemma_frame_trans(self.nodes, m0, m1, m2);
            lemma_frame_trans(self.nodes, m0, m2, mem@);
            assert(self.view(mem@) =~= unlinked(self.view(m0), slot.raw() - 1));
        }
        Ok(())
    }

    /// Reclaims acknowledged retired slots and advances the generation.
    pub fn publish(&self, mem: &mut AtomicBuffer)
        requires
            self.valid(old(mem)@),
            self.inv(old(mem)@),
        ensures
            self.valid(final(mem)@),
            self.inv(final(mem)@),
            self.store().slots().publish_result(old(mem)@, final(mem)@),
            self.view(final(mem)@) == self.view(old(mem)@),
            self.store().meta_view(final(mem)@) == self.store().meta_view(old(mem)@),
            self.store().attr_view(final(mem)@) == self.store().attr_view(old(mem)@),
            self.store().buffer().writer_base(final(mem)@) == self.store().buffer().writer_base(old(mem)@),
            self.store().frame(old(mem)@, final(mem)@),
            unchanged_outside(old(mem)@, final(mem)@, self.store().start(), self.store().attrs_start()),
    {
        self.nodes.publish(mem)
    }

    /// Takes over the nodes of `source` (see `EntryStoreWriter::copy_from()`).
    pub fn copy_from(&self, mem: &mut AtomicBuffer, source: &Self, source_mem: &AtomicBuffer)
        requires
            self.valid(old(mem)@),
            source.valid(source_mem@),
            source.inv(source_mem@),
            source.cap() <= self.cap(),
            source.store().buffer().cap() <= self.store().buffer().cap(),
            self.store().tb_start() + source.cap() * source.store().block() <= self.store().buffer().cap(),
            source.cap() * source.store().cfg().attr_stride <= self.cap() * self.store().cfg().attr_stride,
        ensures
            self.valid(final(mem)@),
            final(mem)@.len() == old(mem)@.len(),
            self.store().slots().copy_result(&source.store().slots(), source_mem@, old(mem)@, final(mem)@),
            forall|k: int, t: int|
                0 <= k < 3 && 0 <= t < source.cap() * source.store().block() ==> #[trigger] final(mem)@[tb_base(
                    self.store().buffer().start(),
                    self.store().buffer().cap(),
                    k,
                ) + self.store().tb_start() + t] == source_mem@[tb_base(
                    source.store().buffer().start(),
                    source.store().buffer().cap(),
                    k,
                ) + source.store().tb_start() + t],
            forall|t: int|
                0 <= t < source.cap() * source.store().cfg().attr_stride ==> #[trigger] final(mem)@[self.store().attrs_start()
                    + t] == source_mem@[source.store().attrs_start() + t],
            forall|j: int|
                0 <= j < old(mem)@.len() && !(self.store().start() <= j < self.store().end()) && !tb_in_region(
                    j,
                    self.store().buffer().start(),
                    self.store().buffer().cap(),
                    self.store().tb_start(),
                    source.cap() * source.store().block(),
                ) ==> #[trigger] final(mem)@[j] == old(mem)@[j],
    {
        self.nodes.copy_from(mem, &source.nodes, source_mem)
    }

    fn insert_orphaned_node(
        &self,
        mem: &mut AtomicBuffer,
        kind: i32,
        next_ptr: Option<SlotId>,
        prev_ptr: Option<SlotId>,
    ) -> (r: Option<SlotId>)
        requires
            self.valid(old(mem)@),
            self.inv(old(mem)@),
            0 <= kind < 256,
        ensures
            self.valid(final(mem)@),
            self.inv(final(mem)@),
            self.store().insert_result(old(mem)@, final(mem)@, r),
            r matches Some(s) ==> self.view(final(mem)@) == self.view(old(mem)@).update(
                s.raw() - 1,
                node_init(kind, encode_slot(next_ptr), encode_slot(prev_ptr)),
            ),
    {
        let ghost m0 = mem@;
        let result = self.nodes.insert(mem);
        let s = match result {
            None => {
                return None;
            },
            Some(s) => s,
        };
        let ghost m1 = mem@;
        let c = self.nodes.core_cell(mem, s, 0);
        self.nodes.set_core_cell(mem, s, 0, (c & 0xFF_FFFFi32) | (kind << 24u32));
        let ghost m2 = mem@;
        self.nodes.set_core_cell(mem, s, 1, SlotId::option_to_i32(next_ptr));
        let ghost m3 = mem@;
        self.nodes.set_core_cell(mem, s, 2, SlotId::option_to_i32(prev_ptr));
        let ghost m4 = mem@;
        self.nodes.set_core_cell(mem, s, 3, 0);
        let ghost m5 = mem@;
        self.nodes.set_core_cell(mem, s, 4, 0);
        let ghost m6 = mem@;
        self.nodes.set_core_cell(mem, s, 5, 0);
        let ghost m7 = mem@;
        self.nodes.set_core_cell(mem, s, 6, 0);
        proof {
            let w = self.nodes;
            lemma_frame_trans(w, m1, m2, m3);
            lemma_frame_trans(w, m1, m3, m4);
            lemma_frame_trans(w, m1, m4, m5);
            lemma_frame_trans(w, m1, m5, m6);
            lemma_frame_trans(w, m1, m6, m7);
            lemma_frame_trans(w, m1, m7, mem@);
            lemma_frame_trans(w, m0, m1, mem@);
            let i = s.raw() - 1;
            assert(self.view(mem@)[i] =~= node_init(kind, encode_slot(next_ptr), encode_slot(prev_ptr)));
            assert(self.view(mem@) =~= self.view(m0).update(i, node_init(kind, encode_slot(next_ptr), encode_slot(prev_ptr))));
        }
        Some(s)
    }
}

} // verus!
