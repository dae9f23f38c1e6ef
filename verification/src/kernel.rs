use crate::constants::{KERNEL_MAGIC, KERNEL_VERSION};
use crate::control_plane::ControlPlane;
use crate::epoch::{Epoch, lemma_config_sizes};
use crate::primitives::entry_store_writer_registry::lemma_es_nonneg;
use crate::epoch_mirror::EpochMirror;
use crate::errors::kernel_error::KernelError;
use crate::kernel_config::{
    KernelConfig,
    config_verdict,
    find_lut_def,
    find_store_def,
    find_tb_def,
    lemma_find_lut_def,
    lemma_find_store_def,
    lemma_find_tb_def,
    lut_defs_verdict,
    store_defs_verdict,
    tb_defs_verdict,
};
use crate::primitives::entry_store_def::EntryStoreDef;
use crate::primitives::lut_def::LutDef;
use crate::primitives::triple_buffer_def::TripleBufferDef;
use crate::primitives::types::AtomicBuffer;
use crate::serialized_kernel::SerializedKernel;
use crate::errors::slot_allocator_error::SlotAllocatorError;
use crate::primitives::entry_store_def::EntryStoreId;
use crate::primitives::entry_store_writer::EntryStoreWriter;
use crate::primitives::lut_def::LutId;
use crate::primitives::lut_writer::LutWriter;
use crate::primitives::slot::SlotId;
use crate::primitives::tb_writer::TbWriter;
use crate::primitives::triple_buffer_def::{DEFAULT_TB_RAW, TripleBufferId};
use crate::primitives::triple_buffer_writer::{TripleBufferWriter, lemma_publish_in_sync, tb_after_publish, tb_buf, tb_in_sync, tb_inv, tb_new_data, tb_published_id, tb_shared_id, tb_writer_id};
use crate::primitives::triple_buffer_writer_registry::{TripleBufferWriterRegistry, lemma_tbs_size_nonneg, tb_region_start};
use crate::primitives::slot_allocator::count_set;
use crate::topology::network::list_shape::chain_from;
use crate::topology::network::network_writer::{
    NetworkWriter,
    connected_nodes,
    connected_syns,
    kept,
    detached_nodes,
    detached_syns,
    out_list,
};
use crate::topology::network::synapse_handle::SynapseView;
use crate::topology::node::node_handle::NodeHandle;
use crate::topology::node::node_store_writer::{linked_after, linked_before, node_init};
use std::collections::VecDeque;
use vstd::prelude::*;

verus! {

/// Cells in front of the epoch: the magic number and the version.
pub const HEADERS_SIZE: usize = 2;

/// Producer-side entry point to the synaptic graph.
///
/// Owns the graph memory, the active graph writer, the control plane, and the
/// deferred-deletion queue. Provides a unified API for building and mutating
/// the graph topology.
///
/// # Lifecycle
/// 1. Create via [`new()`] or restore via [`load_serialized()`].
/// 2. Mutate: insert/remove nodes, connect/disconnect synapses, write attributes.
/// 3. Call [`publish()`] to deploy structural changes to the consumer and reclaim
///    generation-acknowledged deferred deletions.
/// 4. Call [`publish_tb(id)`] to independently deploy user TB updates.
/// 5. Call [`grow()`] when utilization exceeds the target threshold. This
///    allocates a new, larger memory plane, migrates all state, and hot-swaps
///    the consumer's mirror via the [`ControlPlane`].
/// 6. Call [`serialize()`] to take a snapshot for persistence.
///
/// # Memory Model
/// - **Structural changes** (nodes, synapses, topology metadata) are written to
///   the default triple buffer and become visible to the consumer after
///   [`publish()`].
/// - **User TB changes** become visible to the consumer after [`publish_tb(id)`].
/// - **Attributes** (node and synapse) and **mem metadata** are written to the
///   direct plane and are visible to the consumer immediately.
/// - **Deferred deletions** (removed nodes, disconnected synapses) are staged in a
///   generation-gated buffer and reclaimed during [`publish()`] once the consumer
///   has acknowledged the relevant generation.
pub struct Kernel<const TB_COUNT: usize, const STORE_COUNT: usize, const LUT_COUNT: usize> {
    config: KernelConfig<TB_COUNT, STORE_COUNT, LUT_COUNT>,
    mem: AtomicBuffer,
    control_plane: ControlPlane<TB_COUNT, STORE_COUNT, LUT_COUNT>,
    active_epoch: Epoch<TB_COUNT, STORE_COUNT, LUT_COUNT>,
    readers_pending_deletion: VecDeque<(Box<EpochMirror<TB_COUNT, STORE_COUNT, LUT_COUNT>>, AtomicBuffer, i32)>,
}

impl<const TB_COUNT: usize, const STORE_COUNT: usize, const LUT_COUNT: usize> Kernel<TB_COUNT, STORE_COUNT, LUT_COUNT> {
    pub closed spec fn cfg(&self) -> KernelConfig<TB_COUNT, STORE_COUNT, LUT_COUNT> {
        self.config
    }

    /// The memory plane.
    pub closed spec fn mem_view(&self) -> Seq<i32> {
        self.mem@
    }

    /// The active epoch's layout.
    pub closed spec fn epoch(&self) -> Epoch<TB_COUNT, STORE_COUNT, LUT_COUNT> {
        self.active_epoch
    }

    pub closed spec fn plane(&self) -> ControlPlane<TB_COUNT, STORE_COUNT, LUT_COUNT> {
        self.control_plane
    }

    /// The deletion stamps of the retired mirrors, oldest first.
    pub closed spec fn pending(&self) -> Seq<i32> {
        stamps_of(self.readers_pending_deletion@)
    }

    /// The kernel's memory carries its headers and a valid epoch laid out as
    /// its configuration says, and the consumer is handed a mirror of that
    /// epoch.
    pub open spec fn layout_wf(&self) -> bool {
        let mem = self.mem_view();
        &&& self.cfg().layout_ok()
        &&& HEADERS_SIZE + self.cfg().epoch_size() <= mem.len()
        &&& mem[0] == KERNEL_MAGIC
        &&& mem[1] == KERNEL_VERSION
        &&& self.epoch().laid_out(self.cfg(), HEADERS_SIZE as int)
        &&& self.epoch().valid(mem)
        &&& self.epoch().mirrored_by(self.plane().current())
        &&& stamps_ordered(self.pending(), self.plane().writer_gen() as int)
    }

    /// Laid out, and every allocator, triple buffer and link consistent.
    pub open spec fn wf(&self) -> bool {
        &&& self.layout_wf()
        &&& self.epoch().inv(self.mem_view())
    }

    /// The network of the active epoch.
    pub open spec fn net(&self) -> NetworkWriter {
        self.epoch().network
    }

    /// The network's synapse lists are well formed (see
    /// `NetworkWriter::shaped`).
    pub open spec fn shaped(&self) -> bool {
        self.net().shaped(self.mem_view())
    }

    /// The network's node chains are well formed (see
    /// `NetworkWriter::chained`).
    pub open spec fn chained(&self) -> bool {
        self.net().chained(self.mem_view())
    }

    /// What `grow()` keeps of `old`: see `Epoch::grown`.
    pub open spec fn grown_from(&self, old: Self) -> bool {
        self.epoch().grown(&old.epoch(), old.mem_view(), self.mem_view())
    }

    /// Everything but the memory plane is as in `other`.
    pub open spec fn same_but_mem(&self, other: Self) -> bool {
        &&& self.cfg() == other.cfg()
        &&& self.epoch() == other.epoch()
        &&& self.plane() == other.plane()
        &&& self.pending() == other.pending()
        &&& self.mem_view().len() == other.mem_view().len()
    }

    /// A kernel of `config` on unused memory: the two header cells must be
    /// zero (the plane is not already a kernel's) and the plane large enough.
    /// The epoch region but for the user triple buffers is cleared before the
    /// epoch is laid out, so the new kernel is empty whatever the plane held
    /// there; the user buffers keep their data cells but for the tables laid
    /// on them, and cells past the epoch are left alone.
    pub fn new_from_mem(mem: AtomicBuffer, config: KernelConfig<TB_COUNT, STORE_COUNT, LUT_COUNT>) -> (r: Self)
        requires
            config.layout_ok(),
            HEADERS_SIZE + config.epoch_size() <= mem@.len(),
            mem@[0] == 0 && mem@[1] == 0,
        ensures
            r.wf(),
            r.cfg() == config,
            r.mem_view().len() == mem@.len(),
            r.net().ns().empty_slots(r.mem_view()),
            r.net().synapse_store().empty_slots(r.mem_view()),
            r.shaped(),
            r.chained(),
            r.plane().writer_gen() == 0,
            r.plane().ack_gen() == 0,
            r.pending().len() == 0,
            forall|j: int| HEADERS_SIZE + config.epoch_size() <= j < mem@.len() ==> #[trigger] r.mem_view()[j] == mem@[j],
    {
        proof {
            lemma_config_sizes(config);
        }
        let ghost m0 = mem@;
        let mut mem = mem;
        let size: usize = Self::calculate_size_on_mem(&config);
        let dcap = Epoch::<TB_COUNT, STORE_COUNT, LUT_COUNT>::default_tb_capacity(&config);
        proof {
            lemma_tbs_size_nonneg(config.tb_defs@);
        }
        let users_start = HEADERS_SIZE + config.mem_metadata_size + TripleBufferWriter::calculate_size_on_mem(dcap);
        let users_end = HEADERS_SIZE + config.mem_metadata_size + TripleBufferWriterRegistry::<TB_COUNT>::calculate_size_on_mem(
            dcap,
            &config.tb_defs,
        );
        Self::clear_region(&mut mem, HEADERS_SIZE, users_start);
        Self::clear_region(&mut mem, users_end, size);
        Self::stamp_mem(&mut mem);
        let epoch = Epoch::<TB_COUNT, STORE_COUNT, LUT_COUNT>::create(&mut mem, &config, HEADERS_SIZE, false);
        let mirror = Box::new(epoch.to_mirror(&mem));
        let control_plane = ControlPlane::new(mirror);
        let r = Kernel { config, mem, control_plane, active_epoch: epoch, readers_pending_deletion: VecDeque::new() };
        proof {
            assert(r.pending() =~= Seq::<i32>::empty());
            r.net().lemma_empty_shape(r.mem_view());
        }
        r
    }

    /// A kernel of `config` on a new, zeroed memory plane.
    pub fn new(config: KernelConfig<TB_COUNT, STORE_COUNT, LUT_COUNT>) -> (r: Self)
        requires
            config.layout_ok(),
        ensures
            r.wf(),
            r.cfg() == config,
            r.mem_view().len() == HEADERS_SIZE + config.epoch_size(),
            r.net().ns().empty_slots(r.mem_view()),
            r.net().synapse_store().empty_slots(r.mem_view()),
            r.shaped(),
            r.chained(),
            r.plane().writer_gen() == 0,
            r.plane().ack_gen() == 0,
            r.pending().len() == 0,
    {
        proof {
            lemma_config_sizes(config);
        }
        let mem = Self::create_mem(Self::calculate_size_on_mem(&config));
        Self::new_from_mem(mem, config)
    }

    /// A kernel over a snapshot: the headers must identify kernel memory of
    /// this version, and the triple buffers' control blocks must be valid.
    /// The memory is the snapshot with every triple buffer's writer buffer
    /// refilled from its published one, so the published state is what is
    /// restored; a snapshot whose buffers are in sync comes back cell for cell.
    /// The metadata and the network's allocators are always the snapshot's.
    pub fn load_serialized(serialized_kernel: SerializedKernel<TB_COUNT, STORE_COUNT, LUT_COUNT>) -> (r: Self)
        requires
            serialized_kernel.config.layout_ok(),
            serialized_kernel.mem@[0] == KERNEL_MAGIC,
            serialized_kernel.mem@[1] == KERNEL_VERSION,
            HEADERS_SIZE + serialized_kernel.config.epoch_size() <= serialized_kernel.mem@.len(),
            Epoch::<TB_COUNT, STORE_COUNT, LUT_COUNT>::bind_ok(
                serialized_kernel.mem@,
                serialized_kernel.config,
                HEADERS_SIZE as int,
            ),
        ensures
            r.layout_wf(),
            r.cfg() == serialized_kernel.config,
            r.mem_view().len() == serialized_kernel.mem@.len(),
            r.plane().writer_gen() == 0,
            r.plane().ack_gen() == 0,
            r.pending().len() == 0,
            r.epoch().tb_registry.resynced(serialized_kernel.mem@, r.mem_view()),
            r.epoch().tb_registry.in_sync(serialized_kernel.mem@) ==> r.mem_view() == serialized_kernel.mem@,
            r.epoch().tb_registry.in_sync(serialized_kernel.mem@) ==> r.net().nodes(r.mem_view()) == r.net().nodes(
                serialized_kernel.mem@,
            ) && r.net().syns(r.mem_view()) == r.net().syns(serialized_kernel.mem@),
            tb_inv(serialized_kernel.mem@, r.epoch().default_tb().start()) && tb_in_sync(
                serialized_kernel.mem@,
                r.epoch().default_tb().start(),
                r.epoch().default_tb().cap(),
            ) ==> r.net().nodes(r.mem_view()) == r.net().nodes(serialized_kernel.mem@) && r.net().syns(r.mem_view())
                == r.net().syns(serialized_kernel.mem@),
            r.epoch().mem_metadata.view(r.mem_view()) == r.epoch().mem_metadata.view(serialized_kernel.mem@),
            r.net().ns().slots().allocated(r.mem_view()) == r.net().ns().slots().allocated(serialized_kernel.mem@),
            r.net().ns().slots().deferred(r.mem_view()) == r.net().ns().slots().deferred(serialized_kernel.mem@),
            r.net().ns().slots().writer_gen(r.mem_view()) == r.net().ns().slots().writer_gen(serialized_kernel.mem@),
            r.net().ns().slots().ack_gen(r.mem_view()) == r.net().ns().slots().ack_gen(serialized_kernel.mem@),
            r.net().ns().slots().inv(r.mem_view()) ==> r.net().ns().slots().free_order(r.mem_view()) == r.net().ns().slots().free_order(
                serialized_kernel.mem@,
            ) && r.net().ns().slots().entries(r.mem_view()) == r.net().ns().slots().entries(serialized_kernel.mem@),
            r.net().synapse_store().slots().allocated(r.mem_view()) == r.net().synapse_store().slots().allocated(
                serialized_kernel.mem@,
            ),
            r.net().synapse_store().slots().deferred(r.mem_view()) == r.net().synapse_store().slots().deferred(
                serialized_kernel.mem@,
            ),
            r.net().synapse_store().slots().writer_gen(r.mem_view()) == r.net().synapse_store().slots().writer_gen(
                serialized_kernel.mem@,
            ),
            r.net().synapse_store().slots().ack_gen(r.mem_view()) == r.net().synapse_store().slots().ack_gen(
                serialized_kernel.mem@,
            ),
            r.net().synapse_store().slots().inv(r.mem_view()) ==> r.net().synapse_store().slots().free_order(r.mem_view())
                == r.net().synapse_store().slots().free_order(serialized_kernel.mem@) && r.net().synapse_store().slots().entries(
                r.mem_view(),
            ) == r.net().synapse_store().slots().entries(serialized_kernel.mem@),
    {
        proof {
            lemma_config_sizes(serialized_kernel.config);
        }
        let config = serialized_kernel.config;
        let mut mem = serialized_kernel.mem;
        let ghost m0 = mem@;
        let writer = Epoch::<TB_COUNT, STORE_COUNT, LUT_COUNT>::create(&mut mem, &config, HEADERS_SIZE, true);
        proof {
            if writer.tb_registry.in_sync(m0) {
                writer.tb_registry.lemma_resynced_in_sync(m0, mem@);
            }
        }
        let reader = Box::new(writer.to_mirror(&mem));
        let control_plane = ControlPlane::new(reader);
        let r = Kernel { config, mem, control_plane, active_epoch: writer, readers_pending_deletion: VecDeque::new() };
        proof {
            assert(r.pending() =~= Seq::<i32>::empty());
            writer.lemma_load_views(m0, r.mem_view());
            if tb_inv(m0, writer.default_tb().start()) && tb_in_sync(m0, writer.default_tb().start(), writer.default_tb().cap()) {
                writer.lemma_load_graph(m0, r.mem_view());
            }
        }
        r
    }

    /// Loading the snapshot of a kernel whose triple buffers are all in sync
    /// (as `serialize()` leaves them when the user buffers were) gives back
    /// the kernel's memory cell for cell: `r` is what `load_serialized(sk)`
    /// returned.
    pub proof fn lemma_round_trip(k: Self, sk: SerializedKernel<TB_COUNT, STORE_COUNT, LUT_COUNT>, r: Self)
        requires
            k.wf(),
            sk.config == k.cfg(),
            sk.mem@ == k.mem_view(),
            k.epoch().tb_registry.in_sync(k.mem_view()),
            r.layout_wf(),
            r.cfg() == sk.config,
            r.epoch().tb_registry.in_sync(sk.mem@) ==> r.mem_view() == sk.mem@,
        ensures
            r.mem_view() == k.mem_view(),
    {
        let a = k.epoch().tb_registry;
        let b = r.epoch().tb_registry;
        assert forall|x: TripleBufferId| b.id_ok(x) implies #[trigger] tb_in_sync(sk.mem@, b.tb_for(x).start(), b.tb_for(x).cap()) by {
            a.lemma_same_layout(&b, x);
            assert(tb_in_sync(k.mem_view(), a.tb_for(x).start(), a.tb_for(x).cap()));
        }
    }

    /// A zeroed memory plane of `size` cells.
    fn create_mem(size: usize) -> (r: AtomicBuffer)
        ensures
            r@.len() == size,
            forall|j: int| 0 <= j < size ==> #[trigger] r@[j] == 0,
    {
        let mut mem: AtomicBuffer = Vec::new();
        let mut i: usize = 0;
        while i < size
            invariant
                i <= size,
                mem@.len() == i,
                forall|j: int| 0 <= j < i ==> #[trigger] mem@[j] == 0,
            decreases size - i,
        {
            mem.push(0);
            i = i + 1;
        }
        mem
    }

    /// A zeroed memory plane of `size` cells carrying the headers.
    fn create_mem_stamp(size: usize) -> (r: AtomicBuffer)
        requires
            size >= HEADERS_SIZE,
        ensures
            r@.len() == size,
            r@[0] == KERNEL_MAGIC,
            r@[1] == KERNEL_VERSION,
            forall|j: int| HEADERS_SIZE <= j < size ==> #[trigger] r@[j] == 0,
    {
        let mut mem = Self::create_mem(size);
        Self::stamp_mem(&mut mem);
        mem
    }

    /// Zeroes cells `lo` to `hi`.
    fn clear_region(mem: &mut AtomicBuffer, lo: usize, hi: usize)
        requires
            lo <= hi <= old(mem)@.len(),
        ensures
            final(mem)@.len() == old(mem)@.len(),
            forall|j: int| lo <= j < hi ==> #[trigger] final(mem)@[j] == 0,
            forall|j: int| 0 <= j < old(mem)@.len() && !(lo <= j < hi) ==> #[trigger] final(mem)@[j] == old(mem)@[j],
    {
        let mut i: usize = lo;
        while i < hi
            invariant
                lo <= i <= hi,
                hi <= mem@.len(),
                mem@.len() == old(mem)@.len(),
                forall|j: int| lo <= j < i ==> #[trigger] mem@[j] == 0,
                forall|j: int| 0 <= j < old(mem)@.len() && !(lo <= j < i) ==> #[trigger] mem@[j] == old(mem)@[j],
            decreases hi - i,
        {
            mem.set(i, 0);
            i = i + 1;
        }
    }

    /// Writes the headers.
    fn stamp_mem(mem: &mut AtomicBuffer)
        requires
            old(mem)@.len() >= HEADERS_SIZE,
        ensures
            final(mem)@ == old(mem)@.update(0, KERNEL_MAGIC).update(1, KERNEL_VERSION),
    {
        mem.set(0, KERNEL_MAGIC);
        mem.set(1, KERNEL_VERSION);
    }

    /// Cells a kernel of `config` takes on the memory plane.
    pub fn calculate_size_on_mem(config: &KernelConfig<TB_COUNT, STORE_COUNT, LUT_COUNT>) -> (r: usize)
        requires
            config.layout_ok(),
        ensures
            r == HEADERS_SIZE + config.epoch_size(),
    {
        HEADERS_SIZE + Epoch::<TB_COUNT, STORE_COUNT, LUT_COUNT>::calculate_size_on_mem(config)
    }
}

impl<const TB_COUNT: usize, const STORE_COUNT: usize, const LUT_COUNT: usize> Kernel<TB_COUNT, STORE_COUNT, LUT_COUNT> {
    /// Checks that every old triple buffer has a counterpart in `tb_defs`
    /// that is no smaller.
    fn validate_tb_defs_compatibility(&self, tb_defs: &[TripleBufferDef; TB_COUNT]) -> (r: Result<(), KernelError>)
        ensures
            r == tb_defs_verdict(self.cfg().tb_defs@, tb_defs@),
    {
        let ghost old_defs = self.config.tb_defs@;
        let ghost new_defs = tb_defs@;
        let mut i: usize = 0;
        proof {
            assert(old_defs.skip(0) =~= old_defs);
        }
        while i < TB_COUNT
            invariant
                old_defs == self.config.tb_defs@,
                new_defs == tb_defs@,
                i <= TB_COUNT,
                tb_defs_verdict(old_defs, new_defs) == tb_defs_verdict(old_defs.skip(i as int), new_defs),
            decreases TB_COUNT - i,
        {
            let old_def = self.config.tb_defs[i];
            let mut k: usize = 0;
            while k < TB_COUNT
                invariant
                    new_defs == tb_defs@,
                    k <= TB_COUNT,
                    forall|j: int| 0 <= j < k ==> (#[trigger] new_defs[j]).id != old_def.id,
                ensures
                    k <= TB_COUNT,
                    forall|j: int| 0 <= j < k ==> (#[trigger] new_defs[j]).id != old_def.id,
                    k < TB_COUNT ==> new_defs[k as int].id == old_def.id,
                decreases TB_COUNT - k,
            {
                if tb_defs[k].id == old_def.id {
                    break;
                }
                k = k + 1;
            }
            proof {
                lemma_find_tb_def(new_defs, old_def.id, k as int);
                let rest = old_defs.skip(i as int);
                assert(rest[0] == old_def);
                assert(rest.drop_first() =~= old_defs.skip(i + 1));
            }
            if k == TB_COUNT {
                return Err(KernelError::SchemaMismatch);
            }
            if tb_defs[k].buffer_capacity < old_def.buffer_capacity {
                return Err(KernelError::InsufficientCapacity);
            }
            i = i + 1;
        }
        proof {
            assert(old_defs.skip(TB_COUNT as int).len() == 0);
        }
        Ok(())
    }

    /// Checks that every old store has a counterpart in `store_defs` on the
    /// same buffer, with the same strides and no smaller capacity.
    fn validate_store_defs_compatibility(&self, store_defs: &[EntryStoreDef; STORE_COUNT]) -> (r: Result<(), KernelError>)
        ensures
            r == store_defs_verdict(self.cfg().store_defs@, store_defs@),
    {
        let ghost old_defs = self.config.store_defs@;
        let ghost new_defs = store_defs@;
        let mut i: usize = 0;
        proof {
            assert(old_defs.skip(0) =~= old_defs);
        }
        while i < STORE_COUNT
            invariant
                old_defs == self.config.store_defs@,
                new_defs == store_defs@,
                i <= STORE_COUNT,
                store_defs_verdict(old_defs, new_defs) == store_defs_verdict(old_defs.skip(i as int), new_defs),
            decreases STORE_COUNT - i,
        {
            let old_def = self.config.store_defs[i];
            let mut k: usize = 0;
            while k < STORE_COUNT
                invariant
                    new_defs == store_defs@,
                    k <= STORE_COUNT,
                    forall|j: int| 0 <= j < k ==> (#[trigger] new_defs[j]).id != old_def.id,
                ensures
                    k <= STORE_COUNT,
                    forall|j: int| 0 <= j < k ==> (#[trigger] new_defs[j]).id != old_def.id,
                    k < STORE_COUNT ==> new_defs[k as int].id == old_def.id,
                decreases STORE_COUNT - k,
            {
                if store_defs[k].id == old_def.id {
                    break;
                }
                k = k + 1;
            }
            proof {
                lemma_find_store_def(new_defs, old_def.id, k as int);
                let rest = old_defs.skip(i as int);
                assert(rest[0] == old_def);
                assert(rest.drop_first() =~= old_defs.skip(i + 1));
            }
            if k == STORE_COUNT {
                return Err(KernelError::SchemaMismatch);
            }
            let new_def = store_defs[k];
            if new_def.tb_id != old_def.tb_id || new_def.config.core_stride != old_def.config.core_stride
                || new_def.config.meta_stride != old_def.config.meta_stride || new_def.config.attr_stride
                != old_def.config.attr_stride {
                return Err(KernelError::SchemaMismatch);
            }
            if new_def.config.capacity < old_def.config.capacity {
                return Err(KernelError::InsufficientCapacity);
            }
            i = i + 1;
        }
        proof {
            assert(old_defs.skip(STORE_COUNT as int).len() == 0);
        }
        Ok(())
    }

    /// Checks that every old table has a counterpart in `lut_defs` on the
    /// same buffer and no smaller.
    fn validate_lut_defs_compatibility(&self, lut_defs: &[LutDef; LUT_COUNT]) -> (r: Result<(), KernelError>)
        ensures
            r == lut_defs_verdict(self.cfg().lut_defs@, lut_defs@),
    {
        let ghost old_defs = self.config.lut_defs@;
        let ghost new_defs = lut_defs@;
        let mut i: usize = 0;
        proof {
            assert(old_defs.skip(0) =~= old_defs);
        }
        while i < LUT_COUNT
            invariant
                old_defs == self.config.lut_defs@,
                new_defs == lut_defs@,
                i <= LUT_COUNT,
                lut_defs_verdict(old_defs, new_defs) == lut_defs_verdict(old_defs.skip(i as int), new_defs),
            decreases LUT_COUNT - i,
        {
            let old_def = self.config.lut_defs[i];
            let mut k: usize = 0;
            while k < LUT_COUNT
                invariant
                    new_defs == lut_defs@,
                    k <= LUT_COUNT,
                    forall|j: int| 0 <= j < k ==> (#[trigger] new_defs[j]).id != old_def.id,
                ensures
                    k <= LUT_COUNT,
                    forall|j: int| 0 <= j < k ==> (#[trigger] new_defs[j]).id != old_def.id,
                    k < LUT_COUNT ==> new_defs[k as int].id == old_def.id,
                decreases LUT_COUNT - k,
            {
                if lut_defs[k].id == old_def.id {
                    break;
                }
                k = k + 1;
            }
            proof {
                lemma_find_lut_def(new_defs, old_def.id, k as int);
                let rest = old_defs.skip(i as int);
                assert(rest[0] == old_def);
                assert(rest.drop_first() =~= old_defs.skip(i + 1));
            }
            if k == LUT_COUNT {
                return Err(KernelError::SchemaMismatch);
            }
            if lut_defs[k].tb_id != old_def.tb_id {
                return Err(KernelError::SchemaMismatch);
            }
            if lut_defs[k].size < old_def.size {
                return Err(KernelError::InsufficientCapacity);
            }
            i = i + 1;
        }
        proof {
            assert(old_defs.skip(LUT_COUNT as int).len() == 0);
        }
        Ok(())
    }
}

/// The slot of a successful insertion.
pub open spec fn ok_slot(r: Result<SlotId, KernelError>) -> Option<SlotId> {
    match r {
        Ok(s) => Some(s),
        Err(_) => None,
    }
}

impl<const TB_COUNT: usize, const STORE_COUNT: usize, const LUT_COUNT: usize> Kernel<TB_COUNT, STORE_COUNT, LUT_COUNT> {
    /// The control plane the consumer acquires its mirror from.
    pub fn get_control_plane(&self) -> (r: &ControlPlane<TB_COUNT, STORE_COUNT, LUT_COUNT>)
        ensures
            *r == self.plane(),
    {
        &self.control_plane
    }

    pub fn mem_metadata_capacity(&self) -> (r: usize)
        requires
            self.layout_wf(),
        ensures
            r == self.cfg().mem_metadata_size,
    {
        self.active_epoch.mem_metadata.capacity()
    }

    /// Metadata cell `offset`.
    pub fn mem_read_meta(&self, offset: usize) -> (r: i32)
        requires
            self.layout_wf(),
            offset < self.cfg().mem_metadata_size,
        ensures
            r == self.mem_view()[HEADERS_SIZE + offset],
    {
        self.active_epoch.mem_metadata.read(&self.mem, offset)
    }

    /// Writes metadata cell `offset`; the consumer sees it at once.
    pub fn mem_write_meta(&mut self, offset: usize, value: i32)
        requires
            old(self).wf(),
            offset < old(self).cfg().mem_metadata_size,
        ensures
            final(self).wf(),
            final(self).same_but_mem(*old(self)),
            final(self).mem_view() == old(self).mem_view().update(HEADERS_SIZE + offset, value),
    {
        let ghost m0 = self.mem@;
        self.active_epoch.mem_metadata.write(&mut self.mem, offset, value);
        proof {
            self.active_epoch.mem_metadata.lemma_wf();
            self.active_epoch.lemma_step_metadata(m0, self.mem@);
        }
    }

    /// The writer of user triple buffer `tb_id`.
    pub fn get_user_tb(&self, tb_id: TripleBufferId) -> (r: TbWriter<'_>)
        requires
            self.layout_wf(),
            tb_id.0 < TB_COUNT,
        ensures
            r.buffer() == self.epoch().tb_registry.tb_for(tb_id),
    {
        TbWriter::bind(self.active_epoch.tb_registry.get(tb_id))
    }

    /// The writer of entry store `store_id`.
    pub fn get_entry_store(&self, store_id: EntryStoreId) -> (r: &EntryStoreWriter)
        requires
            self.layout_wf(),
            store_id.0 < STORE_COUNT,
        ensures
            *r == self.epoch().store_registry.store_for(store_id),
    {
        self.active_epoch.store_registry.get(store_id)
    }

    /// The writer of lookup table `lut_id`.
    pub fn get_lut(&self, lut_id: LutId) -> (r: &LutWriter)
        requires
            self.layout_wf(),
            lut_id.0 < LUT_COUNT,
        ensures
            *r == self.epoch().lut_registry.table_for(lut_id),
    {
        self.active_epoch.lut_registry.get(lut_id)
    }

    pub fn node_capacity(&self) -> (r: usize)
        ensures
            r == self.net().nc(),
    {
        self.active_epoch.network.node_capacity()
    }

    /// Node slots taken, live or retired.
    pub fn node_count(&self) -> (r: usize)
        requires
            self.wf(),
        ensures
            r == self.net().nc() - self.net().ns().slots().free_order(self.mem_view()).len(),
            r == count_set(self.net().ns().slots().allocated(self.mem_view())),
    {
        proof {
            self.net().ns().lemma_wf();
            self.net().ns().slots().lemma_count_allocated(self.mem_view());
        }
        self.active_epoch.network.node_count(&self.mem)
    }

    pub fn synapse_capacity(&self) -> (r: usize)
        ensures
            r == self.net().sc(),
    {
        self.active_epoch.network.synapse_capacity()
    }

    /// Synapse slots taken, live or retired.
    pub fn synapse_count(&self) -> (r: usize)
        requires
            self.wf(),
        ensures
            r == self.net().sc() - self.net().synapse_store().slots().free_order(self.mem_view()).len(),
            r == count_set(self.net().synapse_store().slots().allocated(self.mem_view())),
    {
        proof {
            self.net().synapse_store().lemma_wf();
            self.net().synapse_store().slots().lemma_count_allocated(self.mem_view());
        }
        self.active_epoch.network.synapse_count(&self.mem)
    }

    /// A handle on live node `slot`.
    pub fn get_node(&self, slot: SlotId) -> (r: NodeHandle<'_>)
        requires
            self.wf(),
            slot.raw() <= self.net().nc(),
            self.net().ns().active(self.mem_view(), slot.raw() as int),
        ensures
            r.valid(self.mem_view()),
            r.cells(self.mem_view()) == self.net().nodes(self.mem_view())[slot.raw() - 1],
    {
        self.active_epoch.network.get_node_handle(&self.mem, slot)
    }

    /// A view of live synapse `slot`.
    pub fn get_synapse(&self, slot: SlotId) -> (r: SynapseView<'_>)
        requires
            self.wf(),
            slot.raw() <= self.net().sc(),
            self.net().synapse_store().active(self.mem_view(), slot.raw() as int),
        ensures
            r.valid(self.mem_view()),
            r.cells(self.mem_view()) == self.net().syns(self.mem_view())[slot.raw() - 1],
    {
        self.active_epoch.network.get_synapse_handle(&self.mem, slot)
    }

    /// A copy of the memory plane, for telemetry and debugging.
    pub fn get_mem(&self) -> (r: AtomicBuffer)
        ensures
            r@ == self.mem_view(),
    {
        self.mem.clone()
    }
}

impl<const TB_COUNT: usize, const STORE_COUNT: usize, const LUT_COUNT: usize> Kernel<TB_COUNT, STORE_COUNT, LUT_COUNT> {
    /// Inserts an unlinked node of `kind`.
    pub fn insert_node(&mut self, kind: i32) -> (r: Result<SlotId, KernelError>)
        requires
            old(self).wf(),
            0 <= kind < 256,
        ensures
            final(self).wf(),
            final(self).same_but_mem(*old(self)),
            old(self).net().ns().insert_result(old(self).mem_view(), final(self).mem_view(), ok_slot(r)),
            r matches Err(e) ==> e == KernelError::CapacityExhausted,
            r matches Ok(s) ==> old(self).net().nodes(final(self).mem_view()) == old(self).net().nodes(
                old(self).mem_view(),
            ).update(s.raw() - 1, node_init(kind, 0, 0)),
            old(self).net().syns(final(self).mem_view()) == old(self).net().syns(old(self).mem_view()),
            old(self).shaped() ==> final(self).shaped(),
            old(self).chained() ==> final(self).chained(),
    {
        let ghost m0 = self.mem@;
        let r = self.active_epoch.network.insert_node(&mut self.mem, kind);
        proof {
            self.active_epoch.lemma_step_network(m0, self.mem@);
            self.active_epoch.mem_metadata.lemma_wf();
            assert(self.mem@[0] == m0[0] && self.mem@[1] == m0[1]);
        }
        match r {
            Some(slot) => Ok(slot),
            None => Err(KernelError::CapacityExhausted),
        }
    }

    /// Inserts a node of `kind` right after `prev_slot` in its chain.
    pub fn insert_node_after(&mut self, prev_slot: SlotId, kind: i32) -> (r: Result<SlotId, KernelError>)
        requires
            old(self).wf(),
            0 <= kind < 256,
            prev_slot.raw() <= old(self).net().nc(),
        ensures
            final(self).wf(),
            final(self).same_but_mem(*old(self)),
            old(self).net().ns().insert_result(old(self).mem_view(), final(self).mem_view(), ok_slot(r)),
            r matches Err(e) ==> e == KernelError::CapacityExhausted,
            r matches Ok(s) ==> old(self).net().nodes(final(self).mem_view()) == linked_after(
                old(self).net().nodes(old(self).mem_view()),
                prev_slot.raw() - 1,
                s.raw() - 1,
                kind,
            ),
            old(self).net().syns(final(self).mem_view()) == old(self).net().syns(old(self).mem_view()),
            old(self).shaped() ==> final(self).shaped(),
            old(self).chained() && old(self).net().ns().active(old(self).mem_view(), prev_slot.raw() as int) ==> final(self).chained(),
    {
        let ghost m0 = self.mem@;
        let r = self.active_epoch.network.insert_node_after(&mut self.mem, prev_slot, kind);
        proof {
            self.active_epoch.lemma_step_network(m0, self.mem@);
            self.active_epoch.mem_metadata.lemma_wf();
            assert(self.mem@[0] == m0[0] && self.mem@[1] == m0[1]);
        }
        match r {
            Some(slot) => Ok(slot),
            None => Err(KernelError::CapacityExhausted),
        }
    }

    /// Inserts a node of `kind` right before `next_slot` in its chain.
    pub fn insert_node_before(&mut self, next_slot: SlotId, kind: i32) -> (r: Result<SlotId, KernelError>)
        requires
            old(self).wf(),
            0 <= kind < 256,
            next_slot.raw() <= old(self).net().nc(),
        ensures
            final(self).wf(),
            final(self).same_but_mem(*old(self)),
            old(self).net().ns().insert_result(old(self).mem_view(), final(self).mem_view(), ok_slot(r)),
            r matches Err(e) ==> e == KernelError::CapacityExhausted,
            r matches Ok(s) ==> old(self).net().nodes(final(self).mem_view()) == linked_before(
                old(self).net().nodes(old(self).mem_view()),
                next_slot.raw() - 1,
                s.raw() - 1,
                kind,
            ),
            old(self).net().syns(final(self).mem_view()) == old(self).net().syns(old(self).mem_view()),
            old(self).shaped() ==> final(self).shaped(),
            old(self).chained() && old(self).net().ns().active(old(self).mem_view(), next_slot.raw() as int) ==> final(self).chained(),
    {
        let ghost m0 = self.mem@;
        let r = self.active_epoch.network.insert_node_before(&mut self.mem, next_slot, kind);
        proof {
            self.active_epoch.lemma_step_network(m0, self.mem@);
            self.active_epoch.mem_metadata.lemma_wf();
            assert(self.mem@[0] == m0[0] && self.mem@[1] == m0[1]);
        }
        match r {
            Some(slot) => Ok(slot),
            None => Err(KernelError::CapacityExhausted),
        }
    }

    /// Disconnects every synapse of node `slot`, unlinks it and retires it.
    pub fn remove_node(&mut self, slot: SlotId) -> (r: Result<(), SlotAllocatorError>)
        requires
            old(self).wf(),
            slot.raw() <= old(self).net().nc(),
        ensures
            final(self).wf(),
            final(self).same_but_mem(*old(self)),
            old(self).net().retire_only(old(self).mem_view(), final(self).mem_view()),
            r is Ok ==> {
                let i = slot.raw() - 1;
                let net = old(self).net();
                &&& net.ns().active(old(self).mem_view(), slot.raw() as int)
                &&& net.ns().slots().deferred(final(self).mem_view())[i]
                &&& net.ns().slots().entries(final(self).mem_view()) == net.ns().slots().entries(old(self).mem_view()).push(
                    seq![slot.raw() as i32, net.ns().slots().writer_gen(old(self).mem_view())],
                )
            },
            !old(self).net().ns().active(old(self).mem_view(), slot.raw() as int) ==> r is Err,
            r is Err ==> r == Err::<(), SlotAllocatorError>(SlotAllocatorError::InvalidSlot) || r == Err::<
                (),
                SlotAllocatorError,
            >(SlotAllocatorError::DoubleFree),
            old(self).net().nodes(old(self).mem_view())[slot.raw() - 1][3] <= 0 && old(self).net().nodes(
                old(self).mem_view(),
            )[slot.raw() - 1][5] <= 0 ==> (r is Ok <==> old(self).net().ns().active(old(self).mem_view(), slot.raw() as int)),
            old(self).shaped() ==> final(self).shaped(),
            old(self).shaped() ==> (r is Ok <==> old(self).net().ns().active(old(self).mem_view(), slot.raw() as int)),
            old(self).shaped() && r is Ok ==> old(self).net().nodes(final(self).mem_view())[slot.raw() - 1][3] <= 0
                && old(self).net().nodes(final(self).mem_view())[slot.raw() - 1][5] <= 0,
            old(self).shaped() && r is Ok ==> forall|j: int|
                0 <= j < old(self).net().sc() && old(self).net().synapse_store().active(old(self).mem_view(), j + 1) && (old(
                    self,
                ).net().syns(old(self).mem_view())[j][1] == slot.raw() || old(self).net().syns(old(self).mem_view())[j][2]
                    == slot.raw()) ==> #[trigger] old(self).net().synapse_store().slots().deferred(final(self).mem_view())[j],
            old(self).chained() ==> final(self).chained(),
    {
        let ghost m0 = self.mem@;
        let r = self.active_epoch.network.remove_node(&mut self.mem, slot);
        proof {
            self.active_epoch.lemma_step_network(m0, self.mem@);
            self.active_epoch.mem_metadata.lemma_wf();
            assert(self.mem@[0] == m0[0] && self.mem@[1] == m0[1]);
        }
        r
    }

    /// Removes every node of the chain that starts at `head_slot`.
    pub fn remove_chain(&mut self, head_slot: SlotId) -> (r: Result<(), SlotAllocatorError>)
        requires
            old(self).wf(),
            head_slot.raw() <= old(self).net().nc(),
        ensures
            final(self).wf(),
            final(self).same_but_mem(*old(self)),
            old(self).net().retire_only(old(self).mem_view(), final(self).mem_view()),
            !old(self).net().ns().active(old(self).mem_view(), head_slot.raw() as int) ==> r is Err,
            r is Err ==> r == Err::<(), SlotAllocatorError>(SlotAllocatorError::InvalidSlot) || r == Err::<
                (),
                SlotAllocatorError,
            >(SlotAllocatorError::DoubleFree),
            r is Ok ==> old(self).net().ns().active(old(self).mem_view(), head_slot.raw() as int) && old(
                self,
            ).net().ns().slots().deferred(final(self).mem_view())[head_slot.raw() - 1],
            old(self).net().nodes(old(self).mem_view())[head_slot.raw() - 1][1] <= 0 && old(self).net().nodes(
                old(self).mem_view(),
            )[head_slot.raw() - 1][3] <= 0 && old(self).net().nodes(old(self).mem_view())[head_slot.raw() - 1][5] <= 0
                ==> (r is Ok <==> old(self).net().ns().active(old(self).mem_view(), head_slot.raw() as int)),
            old(self).shaped() ==> final(self).shaped(),
            old(self).chained() ==> final(self).chained(),
            old(self).shaped() && old(self).chained() ==> (r is Ok <==> old(self).net().ns().active(
                old(self).mem_view(),
                head_slot.raw() as int,
            )),
            old(self).shaped() && old(self).chained() && r is Ok ==> forall|l: Seq<int>|
                #[trigger] chain_from(old(self).net().nodes(old(self).mem_view()), l) && l[0] == head_slot.raw() - 1 ==> forall|
                    k: int,
                |
                    0 <= k < l.len() ==> #[trigger] old(self).net().ns().slots().deferred(final(self).mem_view())[l[k]],
    {
        let ghost m0 = self.mem@;
        let r = self.active_epoch.network.remove_chain(&mut self.mem, head_slot);
        proof {
            self.active_epoch.lemma_step_network(m0, self.mem@);
            self.active_epoch.mem_metadata.lemma_wf();
            assert(self.mem@[0] == m0[0] && self.mem@[1] == m0[1]);
        }
        r
    }

    /// Creates a synapse of `kind` from `source_slot` to `target_slot`.
    pub fn connect(&mut self, source_slot: SlotId, target_slot: SlotId, kind: i32) -> (r: Result<SlotId, KernelError>)
        requires
            old(self).wf(),
            source_slot.raw() <= old(self).net().nc(),
            target_slot.raw() <= old(self).net().nc(),
            0 <= kind < 256,
        ensures
            final(self).wf(),
            final(self).same_but_mem(*old(self)),
            old(self).net().synapse_store().insert_effect(old(self).mem_view(), final(self).mem_view(), ok_slot(r)),
            r matches Err(e) ==> e == KernelError::CapacityExhausted,
            r matches Ok(x) ==> {
                let net = old(self).net();
                let nv = net.nodes(old(self).mem_view());
                let s = source_slot.raw() - 1;
                let t = target_slot.raw() - 1;
                &&& net.syns(final(self).mem_view()) == connected_syns(
                    net.syns(old(self).mem_view()),
                    x.raw() - 1,
                    kind,
                    s,
                    t,
                    nv[s][4],
                    nv[t][6],
                )
                &&& net.nodes(final(self).mem_view()) == connected_nodes(nv, x.raw() - 1, s, t)
            },
            old(self).shaped() && old(self).net().ns().active(old(self).mem_view(), source_slot.raw() as int) && old(
                self,
            ).net().ns().active(old(self).mem_view(), target_slot.raw() as int) ==> final(self).shaped(),
            old(self).chained() ==> final(self).chained(),
    {
        let ghost m0 = self.mem@;
        let r = self.active_epoch.network.connect(&mut self.mem, source_slot, target_slot, kind);
        proof {
            self.active_epoch.lemma_step_network(m0, self.mem@);
            self.active_epoch.mem_metadata.lemma_wf();
            assert(self.mem@[0] == m0[0] && self.mem@[1] == m0[1]);
        }
        match r {
            Some(slot) => Ok(slot),
            None => Err(KernelError::CapacityExhausted),
        }
    }

    /// On well-formed lists a live node has an outgoing list, so
    /// `disconnect()` may be called on it.
    pub proof fn lemma_disconnect_ready(&self, source_slot: SlotId)
        requires
            self.wf(),
            self.shaped(),
            1 <= source_slot.raw() <= self.net().nc(),
            self.net().ns().active(self.mem_view(), source_slot.raw() as int),
        ensures
            exists|l: Seq<int>|
                #[trigger] out_list(self.net().nodes(self.mem_view()), self.net().syns(self.mem_view()), source_slot.raw() as int, l),
    {
        self.net().lemma_live_out_list(self.mem_view(), source_slot.raw() as int);
    }

    /// Disconnects every synapse from `source_slot` to `target_slot`.
    pub fn disconnect(&mut self, source_slot: SlotId, target_slot: SlotId) -> (r: Result<(), SlotAllocatorError>)
        requires
            old(self).wf(),
            source_slot.raw() <= old(self).net().nc(),
            exists|l: Seq<int>|
                #[trigger] out_list(
                    old(self).net().nodes(old(self).mem_view()),
                    old(self).net().syns(old(self).mem_view()),
                    source_slot.raw() as int,
                    l,
                ),
        ensures
            final(self).wf(),
            final(self).same_but_mem(*old(self)),
            old(self).net().retire_only(old(self).mem_view(), final(self).mem_view()),
            r is Ok ==> forall|l: Seq<int>, j: int|
                #[trigger] out_list(
                    old(self).net().nodes(old(self).mem_view()),
                    old(self).net().syns(old(self).mem_view()),
                    source_slot.raw() as int,
                    l,
                ) && 0 <= j < old(self).net().sc() ==> #[trigger] old(self).net().synapse_store().slots().deferred(
                    final(self).mem_view(),
                )[j] == (old(self).net().synapse_store().slots().deferred(old(self).mem_view())[j] || (l.contains(j)
                    && #[trigger] old(self).net().syns(old(self).mem_view())[j][2] == target_slot.raw())),
            forall|l: Seq<int>|
                #[trigger] out_list(
                    old(self).net().nodes(old(self).mem_view()),
                    old(self).net().syns(old(self).mem_view()),
                    source_slot.raw() as int,
                    l,
                ) ==> (r is Ok <==> old(self).net().matching_live(old(self).mem_view(), l, target_slot.raw() as int)),
            r is Err ==> r == Err::<(), SlotAllocatorError>(SlotAllocatorError::InvalidSlot) || r == Err::<
                (),
                SlotAllocatorError,
            >(SlotAllocatorError::DoubleFree),
            old(self).shaped() ==> final(self).shaped(),
            old(self).shaped() && old(self).net().ns().active(old(self).mem_view(), source_slot.raw() as int) ==> r is Ok,
            old(self).shaped() && old(self).net().ns().active(old(self).mem_view(), source_slot.raw() as int) ==> forall|
                l: Seq<int>,
            |
                #[trigger] out_list(
                    old(self).net().nodes(old(self).mem_view()),
                    old(self).net().syns(old(self).mem_view()),
                    source_slot.raw() as int,
                    l,
                ) ==> out_list(
                    old(self).net().nodes(final(self).mem_view()),
                    old(self).net().syns(final(self).mem_view()),
                    source_slot.raw() as int,
                    kept(l, old(self).net().syns(old(self).mem_view()), target_slot.raw() as int),
                ),
            old(self).chained() ==> final(self).chained(),
    {
        let ghost m0 = self.mem@;
        let r = self.active_epoch.network.disconnect(&mut self.mem, source_slot, target_slot);
        proof {
            self.active_epoch.lemma_step_network(m0, self.mem@);
            self.active_epoch.mem_metadata.lemma_wf();
            assert(self.mem@[0] == m0[0] && self.mem@[1] == m0[1]);
            let net = self.active_epoch.network;
            if r is Ok {
                assert forall|l: Seq<int>, j: int|
                    #[trigger] out_list(net.nodes(m0), net.syns(m0), source_slot.raw() as int, l) && 0 <= j < net.sc() implies
                    #[trigger] net.synapse_store().slots().deferred(self.mem@)[j] == (net.synapse_store().slots().deferred(m0)[j]
                        || (l.contains(j) && net.syns(m0)[j][2] == target_slot.raw())) by {
                    assert(out_list(net.nodes(m0), net.syns(m0), source_slot.raw() as int, l));
                    let a = net.synapse_store().slots().deferred(self.mem@)[j];
                    let b = net.syns(m0)[j][2];
                    assert(a == (net.synapse_store().slots().deferred(m0)[j] || (l.contains(j) && b == target_slot.raw())));
                }
            }
        }
        r
    }

    /// Detaches synapse `slot` from both its lists and retires it.
    pub fn disconnect_synapse(&mut self, slot: SlotId) -> (r: Result<(), SlotAllocatorError>)
        requires
            old(self).wf(),
            slot.raw() <= old(self).net().sc(),
            old(self).net().syns(old(self).mem_view())[slot.raw() - 1][1] > 0,
            old(self).net().syns(old(self).mem_view())[slot.raw() - 1][2] > 0,
        ensures
            final(self).wf(),
            final(self).same_but_mem(*old(self)),
            old(self).net().synapse_store().remove_effect(old(self).mem_view(), final(self).mem_view(), slot, r),
            r is Ok ==> {
                let net = old(self).net();
                &&& net.syns(final(self).mem_view()) == detached_syns(net.syns(old(self).mem_view()), slot.raw() - 1)
                &&& net.nodes(final(self).mem_view()) == detached_nodes(
                    net.nodes(old(self).mem_view()),
                    net.syns(old(self).mem_view()),
                    slot.raw() - 1,
                )
            },
            old(self).shaped() ==> final(self).shaped(),
            old(self).chained() ==> final(self).chained(),
    {
        let ghost m0 = self.mem@;
        let r = self.active_epoch.network.disconnect_synapse(&mut self.mem, slot);
        proof {
            self.active_epoch.lemma_step_network(m0, self.mem@);
            self.active_epoch.mem_metadata.lemma_wf();
            assert(self.mem@[0] == m0[0] && self.mem@[1] == m0[1]);
        }
        r
    }
}

/// The deletion stamps of a queue of retired mirrors.
pub open spec fn stamps_of<const TB: usize, const ST: usize, const LU: usize>(
    q: Seq<(Box<EpochMirror<TB, ST, LU>>, AtomicBuffer, i32)>,
) -> Seq<i32> {
    q.map_values(|e: (Box<EpochMirror<TB, ST, LU>>, AtomicBuffer, i32)| e.2)
}

/// Frees the retired mirrors at the front of the queue whose stamps the
/// consumer's acknowledgement `ack` has reached.
fn reclaim_acknowledged<const TB: usize, const ST: usize, const LU: usize>(
    pending: &mut VecDeque<(Box<EpochMirror<TB, ST, LU>>, AtomicBuffer, i32)>,
    ack: i32,
)
    ensures
        exists|k: int| reclaim_stop(stamps_of(old(pending)@), ack, k) && stamps_of(final(pending)@) == stamps_of(old(pending)@).skip(k),
{
    broadcast use vstd::std_specs::vecdeque::group_vec_dequeue_axioms;

    let ghost p0 = stamps_of(pending@);
    let ghost mut k: int = 0;
    proof {
        assert(p0.skip(0) =~= p0);
    }
    loop
        invariant_except_break
            0 <= k <= p0.len(),
            stamps_of(pending@) == p0.skip(k),
            forall|j: int| 0 <= j < k ==> #[trigger] p0[j].wrapping_sub(ack) <= 0,
        invariant
            p0 == stamps_of(old(pending)@),
        ensures
            exists|k: int| reclaim_stop(p0, ack, k) && stamps_of(pending@) == p0.skip(k),
        decreases pending@.len(),
    {
        let n = pending.len();
        proof {
            assert(n == pending@.len());
            assert(stamps_of(pending@).len() == pending@.len());
            assert(p0.skip(k).len() == p0.len() - k);
        }
        if n == 0 {
            proof {
                assert(k == p0.len());
                assert(reclaim_stop(p0, ack, k));
            }
            break;
        }
        let stamp = pending[0].2;
        proof {
            assert(stamps_of(pending@)[0] == stamp);
            assert(p0[k] == stamp);
        }
        if stamp.wrapping_sub(ack) > 0 {
            proof {
                assert(reclaim_stop(p0, ack, k));
            }
            break;
        }
        let ghost before = pending@;
        let _reclaimed = pending.pop_front();
        proof {
            assert(stamps_of(pending@) =~= stamps_of(before).skip(1));
            assert(stamps_of(pending@) =~= p0.skip(k + 1));
            k = k + 1;
        }
    }
}

/// The stamps ascend, oldest first, and none is past the writer generation
/// `writer_gen`.
pub open spec fn stamps_ordered(stamps: Seq<i32>, writer_gen: int) -> bool {
    &&& forall|i: int, j: int| 0 <= i < j < stamps.len() ==> #[trigger] stamps[i] < #[trigger] stamps[j]
    &&& forall|i: int| 0 <= i < stamps.len() ==> #[trigger] stamps[i] <= writer_gen
}

/// A retired mirror is freed exactly when the consumer has acknowledged its
/// stamp: with ascending stamps and generations that have not wrapped
/// (non-negative), the first `k` mirrors that `publish()` frees are exactly
/// those whose stamp `ack` has reached, so mirror `i` is freed if and only if
/// its stamp is acknowledged, and every mirror retired before a freed one is
/// freed too.
pub proof fn lemma_freed_iff_acknowledged(stamps: Seq<i32>, writer_gen: int, ack: i32, k: int, i: int)
    requires
        stamps_ordered(stamps, writer_gen),
        reclaim_stop(stamps, ack, k),
        forall|j: int| 0 <= j < stamps.len() ==> 0 <= #[trigger] stamps[j],
        0 <= ack,
        0 <= i < stamps.len(),
    ensures
        i < k <==> stamps[i].wrapping_sub(ack) <= 0,
        i < k <==> stamps[i] <= ack,
        i < k ==> forall|j: int| 0 <= j <= i ==> #[trigger] stamps[j].wrapping_sub(ack) <= 0,
{
    assert forall|j: int| 0 <= j < stamps.len() implies #[trigger] stamps[j].wrapping_sub(ack) == stamps[j] - ack by {
        assert(0 <= stamps[j]);
    }
    assert(stamps[i].wrapping_sub(ack) == stamps[i] - ack);
    if k < stamps.len() {
        assert(stamps[k].wrapping_sub(ack) == stamps[k] - ack);
        if k < i {
            assert(stamps[k] < stamps[i]);
        }
    }
}

/// The retired mirrors whose stamps are among the first `k` are exactly the
/// ones the consumer's acknowledgement `ack` has reached, going oldest first
/// and stopping at the first it has not.
pub open spec fn reclaim_stop(stamps: Seq<i32>, ack: i32, k: int) -> bool {
    &&& 0 <= k <= stamps.len()
    &&& forall|j: int| 0 <= j < k ==> #[trigger] stamps[j].wrapping_sub(ack) <= 0
    &&& k < stamps.len() ==> stamps[k].wrapping_sub(ack) > 0
}

impl<const TB_COUNT: usize, const STORE_COUNT: usize, const LUT_COUNT: usize> Kernel<TB_COUNT, STORE_COUNT, LUT_COUNT> {
    /// Deploys the structural changes to the consumer (see `Epoch::publish`)
    /// and frees the retired mirrors whose generation the consumer has
    /// acknowledged.
    pub fn publish(&mut self)
        requires
            old(self).wf(),
        ensures
            final(self).wf(),
            final(self).cfg() == old(self).cfg(),
            final(self).epoch() == old(self).epoch(),
            final(self).plane() == old(self).plane(),
            final(self).mem_view().len() == old(self).mem_view().len(),
            forall|i: int|
                0 <= i < STORE_COUNT ==> (#[trigger] old(self).epoch().store_registry.store_seq()[i]).slots().publish_result(
                    old(self).mem_view(),
                    final(self).mem_view(),
                ),
            old(self).net().ns().slots().publish_result(old(self).mem_view(), final(self).mem_view()),
            old(self).net().synapse_store().slots().publish_result(old(self).mem_view(), final(self).mem_view()),
            old(self).net().nodes(final(self).mem_view()) == old(self).net().nodes(old(self).mem_view()),
            old(self).net().syns(final(self).mem_view()) == old(self).net().syns(old(self).mem_view()),
            ({
                let d = old(self).epoch().default_tb();
                &&& tb_new_data(final(self).mem_view(), d.start())
                &&& tb_buf(final(self).mem_view(), d.start(), d.cap(), tb_shared_id(final(self).mem_view(), d.start()))
                    == tb_buf(old(self).mem_view(), d.start(), d.cap(), tb_writer_id(old(self).mem_view(), d.start()))
            }),
            exists|k: int|
                reclaim_stop(old(self).pending(), old(self).plane().ack_gen(), k) && final(self).pending() == old(
                    self,
                ).pending().skip(k),
            old(self).shaped() ==> final(self).shaped(),
            old(self).chained() ==> final(self).chained(),
            tb_in_sync(final(self).mem_view(), old(self).epoch().default_tb().start(), old(self).epoch().default_tb().cap()),
            old(self).epoch().tb_registry.users_in_sync(old(self).mem_view()) ==> final(self).epoch().tb_registry.in_sync(
                final(self).mem_view(),
            ),
    {
        let ghost m0 = self.mem@;
        self.active_epoch.publish(&mut self.mem);
        proof {
            self.active_epoch.network.lemma_publish_shape(m0, self.mem@);
            self.active_epoch.mem_metadata.lemma_wf();
            self.active_epoch.default_tb().lemma_layout();
            assert(self.mem@[0] == m0[0] && self.mem@[1] == m0[1]);
        }
        let ack = self.control_plane.get_reader_ack_generation();
        let ghost q0 = self.readers_pending_deletion@;
        reclaim_acknowledged(&mut self.readers_pending_deletion, ack);
        proof {
            let k = choose|k: int| reclaim_stop(stamps_of(q0), ack, k) && stamps_of(self.readers_pending_deletion@) == stamps_of(q0).skip(k);
            assert(old(self).pending() == stamps_of(q0));
            assert(reclaim_stop(old(self).pending(), old(self).plane().ack_gen(), k));
            assert(self.pending() == old(self).pending().skip(k));
        }
    }

    /// A second `publish()` with no acknowledgement in between reclaims
    /// nothing: `k1` and `k2` are what two successive `publish()` calls on
    /// `k0` left; every allocator holds the same slots in both, so the node
    /// and synapse counts agree, and every node and synapse reads the same.
    pub proof fn lemma_double_publish(k0: Self, k1: Self, k2: Self)
        requires
            k0.wf(),
            k1.epoch() == k0.epoch(),
            k0.net().ns().slots().publish_result(k0.mem_view(), k1.mem_view()),
            k0.net().ns().slots().publish_result(k1.mem_view(), k2.mem_view()),
            k0.net().synapse_store().slots().publish_result(k0.mem_view(), k1.mem_view()),
            k0.net().synapse_store().slots().publish_result(k1.mem_view(), k2.mem_view()),
            forall|i: int|
                0 <= i < STORE_COUNT ==> (#[trigger] k0.epoch().store_registry.store_seq()[i]).slots().publish_result(
                    k0.mem_view(),
                    k1.mem_view(),
                ),
            forall|i: int|
                0 <= i < STORE_COUNT ==> (#[trigger] k0.epoch().store_registry.store_seq()[i]).slots().publish_result(
                    k1.mem_view(),
                    k2.mem_view(),
                ),
            k0.net().nodes(k1.mem_view()) == k0.net().nodes(k0.mem_view()),
            k0.net().nodes(k2.mem_view()) == k0.net().nodes(k1.mem_view()),
            k0.net().syns(k1.mem_view()) == k0.net().syns(k0.mem_view()),
            k0.net().syns(k2.mem_view()) == k0.net().syns(k1.mem_view()),
        ensures
            k0.net().nodes(k2.mem_view()) == k0.net().nodes(k0.mem_view()),
            k0.net().syns(k2.mem_view()) == k0.net().syns(k0.mem_view()),
            k0.net().nc() - k0.net().ns().slots().free_order(k2.mem_view()).len() == k0.net().nc()
                - k0.net().ns().slots().free_order(k1.mem_view()).len(),
            k0.net().sc() - k0.net().synapse_store().slots().free_order(k2.mem_view()).len() == k0.net().sc()
                - k0.net().synapse_store().slots().free_order(k1.mem_view()).len(),
            k0.net().ns().slots().free_order(k2.mem_view()) == k0.net().ns().slots().free_order(k1.mem_view()),
            k0.net().ns().slots().entries(k2.mem_view()) == k0.net().ns().slots().entries(k1.mem_view()),
            forall|j: int|
                0 <= j < k0.net().nc() ==> #[trigger] k0.net().ns().slots().allocated(k2.mem_view())[j] == k0.net().ns().slots().allocated(
                    k1.mem_view(),
                )[j] && k0.net().ns().slots().deferred(k2.mem_view())[j] == k0.net().ns().slots().deferred(k1.mem_view())[j],
            k0.net().synapse_store().slots().free_order(k2.mem_view()) == k0.net().synapse_store().slots().free_order(k1.mem_view()),
            k0.net().synapse_store().slots().entries(k2.mem_view()) == k0.net().synapse_store().slots().entries(k1.mem_view()),
            forall|j: int|
                0 <= j < k0.net().sc() ==> #[trigger] k0.net().synapse_store().slots().allocated(k2.mem_view())[j]
                    == k0.net().synapse_store().slots().allocated(k1.mem_view())[j] && k0.net().synapse_store().slots().deferred(
                    k2.mem_view(),
                )[j] == k0.net().synapse_store().slots().deferred(k1.mem_view())[j],
            forall|i: int|
                0 <= i < STORE_COUNT ==> (#[trigger] k0.epoch().store_registry.store_seq()[i]).slots().free_order(k2.mem_view())
                    == k0.epoch().store_registry.store_seq()[i].slots().free_order(k1.mem_view())
                    && k0.epoch().store_registry.store_seq()[i].slots().entries(k2.mem_view())
                    == k0.epoch().store_registry.store_seq()[i].slots().entries(k1.mem_view()),
    {
        let n = k0.net();
        n.ns().slots().lemma_publish_twice(k0.mem_view(), k1.mem_view(), k2.mem_view());
        n.synapse_store().slots().lemma_publish_twice(k0.mem_view(), k1.mem_view(), k2.mem_view());
        assert forall|j: int| 0 <= j < n.nc() implies #[trigger] n.ns().slots().allocated(k2.mem_view())[j] == n.ns().slots().allocated(
            k1.mem_view(),
        )[j] && n.ns().slots().deferred(k2.mem_view())[j] == n.ns().slots().deferred(k1.mem_view())[j] by {
            n.ns().lemma_wf();
        }
        assert forall|j: int| 0 <= j < n.sc() implies #[trigger] n.synapse_store().slots().allocated(k2.mem_view())[j]
            == n.synapse_store().slots().allocated(k1.mem_view())[j] && n.synapse_store().slots().deferred(k2.mem_view())[j]
            == n.synapse_store().slots().deferred(k1.mem_view())[j] by {
            n.synapse_store().lemma_wf();
        }
        assert forall|i: int| 0 <= i < STORE_COUNT implies (#[trigger] k0.epoch().store_registry.store_seq()[i]).slots().free_order(
            k2.mem_view(),
        ) == k0.epoch().store_registry.store_seq()[i].slots().free_order(k1.mem_view())
            && k0.epoch().store_registry.store_seq()[i].slots().entries(k2.mem_view())
            == k0.epoch().store_registry.store_seq()[i].slots().entries(k1.mem_view()) by {
            k0.epoch().store_registry.store_seq()[i].slots().lemma_publish_twice(k0.mem_view(), k1.mem_view(), k2.mem_view());
        }
    }

    /// Deploys the writer buffer of user triple buffer `tb_id`.
    pub fn publish_tb(&mut self, tb_id: TripleBufferId)
        requires
            old(self).wf(),
            tb_id.0 < TB_COUNT,
        ensures
            final(self).wf(),
            final(self).same_but_mem(*old(self)),
            final(self).mem_view() == tb_after_publish(
                old(self).mem_view(),
                old(self).epoch().tb_registry.tb_for(tb_id).start(),
                old(self).epoch().tb_registry.tb_for(tb_id).cap(),
            ),
            tb_in_sync(
                final(self).mem_view(),
                old(self).epoch().tb_registry.tb_for(tb_id).start(),
                old(self).epoch().tb_registry.tb_for(tb_id).cap(),
            ),
    {
        let ghost m0 = self.mem@;
        self.active_epoch.publish_tb(&mut self.mem, tb_id);
        proof {
            let u = self.active_epoch.tb_registry.tb_for(tb_id);
            self.active_epoch.tb_registry.lemma_inside(tb_id);
            self.active_epoch.tb_registry.lemma_inside(TripleBufferId(DEFAULT_TB_RAW));
            u.lemma_layout();
            self.active_epoch.mem_metadata.lemma_wf();
            assert(self.mem@[0] == m0[0] && self.mem@[1] == m0[1]);
            lemma_publish_in_sync(m0, u.start(), u.cap());
        }
    }

    /// Publishes, then snapshots the configuration and the memory plane.
    pub fn serialize(&mut self) -> (r: SerializedKernel<TB_COUNT, STORE_COUNT, LUT_COUNT>)
        requires
            old(self).wf(),
        ensures
            final(self).wf(),
            final(self).cfg() == old(self).cfg(),
            final(self).epoch() == old(self).epoch(),
            final(self).plane() == old(self).plane(),
            old(self).net().nodes(final(self).mem_view()) == old(self).net().nodes(old(self).mem_view()),
            old(self).net().syns(final(self).mem_view()) == old(self).net().syns(old(self).mem_view()),
            r.config == old(self).cfg(),
            r.mem@ == final(self).mem_view(),
            tb_inv(r.mem@, old(self).epoch().default_tb().start()),
            tb_in_sync(r.mem@, old(self).epoch().default_tb().start(), old(self).epoch().default_tb().cap()),
            old(self).epoch().tb_registry.users_in_sync(old(self).mem_view()) ==> final(self).epoch().tb_registry.in_sync(
                r.mem@,
            ),
    {
        self.publish();
        let mem = self.mem.clone();
        SerializedKernel { config: self.config, mem }
    }

    /// The consumer's step: acknowledges the current generation, takes the
    /// current mirror and swaps in its latest default buffer.
    pub(crate) fn consume(&mut self) -> (r: &EpochMirror<TB_COUNT, STORE_COUNT, LUT_COUNT>)
        requires
            old(self).wf(),
            old(self).epoch().gens_ackable(old(self).mem_view()),
        ensures
            final(self).wf(),
            final(self).cfg() == old(self).cfg(),
            final(self).epoch() == old(self).epoch(),
            final(self).pending() == old(self).pending(),
            final(self).plane().current() == old(self).plane().current(),
            final(self).plane().writer_gen() == old(self).plane().writer_gen(),
            final(self).plane().ack_gen() == old(self).plane().writer_gen(),
            final(self).mem_view() == old(self).plane().current().after_swap(old(self).mem_view()),
            *r == old(self).plane().current(),
    {
        let ghost m0 = self.mem@;
        let mirror = self.control_plane.acquire_mirror();
        proof {
            self.active_epoch.lemma_swap_ok(*mirror, m0);
        }
        let _ = mirror.swap(&mut self.mem);
        proof {
            let ns = self.active_epoch.network.ns();
            let ss = self.active_epoch.network.synapse_store();
            ns.lemma_wf();
            ss.lemma_wf();
            ns.slots().lemma_writer_gen_cell(m0);
            ss.slots().lemma_writer_gen_cell(m0);
            self.active_epoch.tb_registry.lemma_inside(TripleBufferId(DEFAULT_TB_RAW));
            lemma_es_nonneg(self.active_epoch.store_registry.def_seq(), TripleBufferId(DEFAULT_TB_RAW));
            self.active_epoch.lemma_after_swap(*mirror, m0);
            self.active_epoch.mem_metadata.lemma_wf();
            self.active_epoch.default_tb().lemma_layout();
            self.active_epoch.lemma_swap_ok(*mirror, m0);
            assert(self.mem@[0] == m0[0] && self.mem@[1] == m0[1]);
        }
        mirror
    }
}

impl<const TB_COUNT: usize, const STORE_COUNT: usize, const LUT_COUNT: usize> Kernel<TB_COUNT, STORE_COUNT, LUT_COUNT> {
    /// Checks that `config` can replace the current configuration: same
    /// network strides, no smaller capacities or metadata, then stores,
    /// triple buffers and tables carried over.
    fn validate_config_compatibility(&self, config: &KernelConfig<TB_COUNT, STORE_COUNT, LUT_COUNT>) -> (r: Result<(), KernelError>)
        requires
            self.layout_wf(),
        ensures
            r == config_verdict(self.cfg(), *config, self.net().nc(), self.net().sc()),
    {
        let new_nc = &config.network_config;
        let old_nc = &self.config.network_config;
        if new_nc.node_meta_stride != old_nc.node_meta_stride || new_nc.node_attr_stride != old_nc.node_attr_stride
            || new_nc.synapse_meta_stride != old_nc.synapse_meta_stride || new_nc.synapse_attr_stride
            != old_nc.synapse_attr_stride {
            return Err(KernelError::SchemaMismatch);
        }
        let node_capacity = self.node_capacity();
        let synapse_capacity = self.synapse_capacity();
        if config.network_config.node_capacity < node_capacity as u32 || config.network_config.synapse_capacity
            < synapse_capacity as u32 || config.mem_metadata_size < self.config.mem_metadata_size {
            return Err(KernelError::InsufficientCapacity);
        }
        match self.validate_store_defs_compatibility(&config.store_defs) {
            Err(e) => {
                return Err(e);
            },
            Ok(()) => {},
        }
        match self.validate_tb_defs_compatibility(&config.tb_defs) {
            Err(e) => {
                return Err(e);
            },
            Ok(()) => {},
        }
        self.validate_lut_defs_compatibility(&config.lut_defs)
    }

    /// A new memory plane laid out for `config`, with the state of the active
    /// epoch copied in, and the consumer's mirror of it.
    fn migrate(&self, config: &KernelConfig<TB_COUNT, STORE_COUNT, LUT_COUNT>) -> (r: (
        AtomicBuffer,
        Epoch<TB_COUNT, STORE_COUNT, LUT_COUNT>,
        Box<EpochMirror<TB_COUNT, STORE_COUNT, LUT_COUNT>>,
    ))
        requires
            self.wf(),
            config.layout_ok(),
            config_verdict(self.cfg(), *config, self.net().nc(), self.net().sc()) is Ok,
        ensures
            r.1.laid_out(*config, HEADERS_SIZE as int),
            r.0@.len() == HEADERS_SIZE + config.epoch_size(),
            r.0@[0] == KERNEL_MAGIC,
            r.0@[1] == KERNEL_VERSION,
            r.1.valid(r.0@),
            r.1.mirrored_by(*r.2),
            r.1.grown(&self.active_epoch, self.mem@, r.0@),
            r.1.can_take(&self.active_epoch),
            forall|i: int|
                0 <= i < STORE_COUNT ==> r.1.store_registry.store_for(self.active_epoch.store_registry.def_seq()[i].id).slots().holds_copy_of(
                    &(#[trigger] self.active_epoch.store_registry.store_seq()[i]).slots(),
                    self.mem@,
                    r.0@,
                ),
    {
        proof {
            lemma_config_sizes(*config);
        }
        let size = Self::calculate_size_on_mem(config);
        let mut mem = Self::create_mem_stamp(size);
        let new_writer = Epoch::<TB_COUNT, STORE_COUNT, LUT_COUNT>::create(&mut mem, config, HEADERS_SIZE, false);
        proof {
            new_writer.lemma_can_take(&self.active_epoch, *config, self.config, mem@, self.mem@, HEADERS_SIZE as int);
        }
        let ghost m1 = mem@;
        new_writer.copy_from(&mut mem, &self.active_epoch, &self.mem);
        proof {
            assert forall|i: int| 0 <= i < STORE_COUNT implies new_writer.store_registry.store_for(
                self.active_epoch.store_registry.def_seq()[i].id,
            ).slots().holds_copy_of(&(#[trigger] self.active_epoch.store_registry.store_seq()[i]).slots(), self.mem@, mem@) by {
                let id = self.active_epoch.store_registry.def_seq()[i].id;
                assert(id.0 < STORE_COUNT);
                let j = new_writer.store_registry.index()[id.0 as int]->0 as int;
                assert(new_writer.store_registry.store_seq()[j].slots().fresh(m1));
            }
            assert(mem@[0] == m1[0] && mem@[1] == m1[1]);
            new_writer.lemma_grown(&self.active_epoch, *config, self.config, self.mem@, m1, mem@);
        }
        let new_reader = Box::new(new_writer.to_mirror(&mem));
        (mem, new_writer, new_reader)
    }

    /// Replaces the memory plane by a larger one laid out for `config`,
    /// migrates all state into it and hot-swaps the consumer's mirror; the
    /// old mirror is queued for deletion, stamped with the new generation.
    /// Fails, changing nothing, when `config` cannot carry the current state.
    #[verifier::spinoff_prover]
    pub fn grow(&mut self, config: KernelConfig<TB_COUNT, STORE_COUNT, LUT_COUNT>) -> (r: Result<(), KernelError>)
        requires
            old(self).wf(),
            config.layout_ok(),
            old(self).plane().writer_gen() < i32::MAX,
        ensures
            r == config_verdict(old(self).cfg(), config, old(self).net().nc(), old(self).net().sc()),
            r is Err ==> *final(self) == *old(self),
            r is Ok ==> {
                &&& final(self).layout_wf()
                &&& final(self).cfg() == config
                &&& final(self).epoch().laid_out(config, HEADERS_SIZE as int)
                &&& final(self).mem_view().len() == HEADERS_SIZE + config.epoch_size()
                &&& final(self).epoch().mirrored_by(final(self).plane().current())
                &&& final(self).plane().writer_gen() == old(self).plane().writer_gen() + 1
                &&& final(self).plane().ack_gen() == old(self).plane().ack_gen()
                &&& final(self).pending() == old(self).pending().push((old(self).plane().writer_gen() + 1) as i32)
                &&& final(self).grown_from(*old(self))
                &&& final(self).wf()
            },
            r is Ok && old(self).shaped() ==> final(self).shaped(),
            r is Ok && old(self).chained() ==> final(self).chained(),
            r is Ok ==> forall|i: int|
                0 <= i < STORE_COUNT ==> final(self).epoch().store_registry.store_for(
                    old(self).epoch().store_registry.def_seq()[i].id,
                ).slots().holds_copy_of(
                    &(#[trigger] old(self).epoch().store_registry.store_seq()[i]).slots(),
                    old(self).mem_view(),
                    final(self).mem_view(),
                ),
    {
        let v = self.validate_config_compatibility(&config);
        if v.is_err() {
            return v;
        }
        let (mem, new_writer, new_reader) = self.migrate(&config);
        self.config = config;
        self.active_epoch = new_writer;
        let mut old_mem = mem;
        std::mem::swap(&mut self.mem, &mut old_mem);
        let ghost q0 = self.readers_pending_deletion@;
        let (old_reader, stamp) = self.control_plane.swap_epoch(new_reader);
        self.readers_pending_deletion.push_back((old_reader, old_mem, stamp));
        proof {
            assert(stamps_of(self.readers_pending_deletion@) =~= stamps_of(q0).push(stamp));
            assert(stamps_ordered(self.pending(), self.plane().writer_gen() as int));
            self.active_epoch.network.lemma_grow_shape(&old(self).active_epoch.network, old(self).mem@, self.mem@);
        }
        v
    }
}

/// A snapshot of a well-formed kernel can be loaded: its memory carries the
/// headers, is large enough for its configuration, and every triple buffer's
/// control block is valid.
pub proof fn lemma_snapshot_loadable<const TB: usize, const ST: usize, const LU: usize>(k: Kernel<TB, ST, LU>)
    requires
        k.wf(),
    ensures
        k.mem_view()[0] == KERNEL_MAGIC,
        k.mem_view()[1] == KERNEL_VERSION,
        HEADERS_SIZE + k.cfg().epoch_size() <= k.mem_view().len(),
        Epoch::<TB, ST, LU>::bind_ok(k.mem_view(), k.cfg(), HEADERS_SIZE as int),
{
    let e = k.epoch();
    let reg = e.tb_registry;
    let mem = k.mem_view();
    let cfg = k.cfg();
    let start = HEADERS_SIZE + cfg.mem_metadata_size;
    let dflt = TripleBufferId(DEFAULT_TB_RAW);
    lemma_config_sizes(cfg);
    reg.lemma_inside(dflt);
    assert(tb_inv(mem, reg.tb_for(dflt).start()));
    assert forall|i: int| 0 <= i < TB implies {
        &&& 0 <= tb_published_id(mem, #[trigger] tb_region_start(cfg.tb_defs@, start, cfg.default_tb_capacity(), i)) < 3
        &&& 0 <= tb_writer_id(mem, tb_region_start(cfg.tb_defs@, start, cfg.default_tb_capacity(), i)) < 3
    } by {
        let id = reg.def_seq()[i].id;
        assert(reg.index()[id.0 as int] == Some(i as u16));
        assert(reg.id_ok(id));
        assert(tb_inv(mem, reg.tb_for(id).start()));
    }
}

} // verus!
