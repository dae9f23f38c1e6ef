use crate::constants::{NODE_STRIDE, SYNAPSE_STRIDE};
use crate::errors::kernel_error::KernelError;
use crate::metadata::mem_metadata_writer::is_pow2_usize;
use crate::primitives::entry_store_def::{EntryStoreDef, EntryStoreId};
use crate::primitives::entry_store_writer_registry::{es_ids_perm, es_load, es_mem};
use crate::primitives::lut_def::{LutDef, LutId};
use crate::primitives::lut_writer_registry::{lut_ids_perm, lut_load};
use crate::primitives::triple_buffer_def::{DEFAULT_TB_RAW, TripleBufferDef, TripleBufferId};
use crate::primitives::triple_buffer_writer::tb_size;
use crate::primitives::triple_buffer_writer_registry::{ids_perm, tbs_size};
use crate::primitives::types::is_pow2_u32;
use crate::topology::network::network_config::NetworkConfig;
use vstd::prelude::*;

verus! {

/// Cells the network takes on the memory plane.
pub open spec fn network_mem_size(c: NetworkConfig) -> int {
    c.node_config().entry_config().mem_size() + c.synapse_config().mem_size()
}

/// Cells the network takes on its triple buffer.
pub open spec fn network_tb_size(c: NetworkConfig) -> int {
    c.node_config().entry_config().tb_size() + c.synapse_config().tb_size()
}

/// A store configuration that an entry store can be laid out with.
pub open spec fn store_shape_ok(capacity: u32, core_stride: usize, meta_stride: usize) -> bool {
    &&& is_pow2_u32(capacity)
    &&& capacity <= 0x4000_0000
    &&& core_stride + meta_stride <= usize::MAX
}

/// Configuration for memory sizing of a Kernel.
///
/// Defines the capacities and metadata sizes used to pre-compute the required
/// memory pool sizes ahead of initialization.
///
/// # Fields
/// - `mem_metadata_size`: Power-of-2 size of the global metadata region residing
///    on the `mem` (direct) plane.
/// - `tb_defs`: Definitions for `TB_COUNT` user-allocated triple-buffers.
///   IDs must form a permutation of `[0, TB_COUNT-1]`.
///   The kernel-internal default TB is managed separately and is not to be included
///   in this array.
/// - `store_defs`: Definitions for `STORE_COUNT` user-allocated entity stores.
///   IDs must form a permutation of `[0, STORE_COUNT-1]`.
/// - `lut_defs`: Definitions for `LUT_COUNT` user-allocated LUTs.
///   IDs must form a permutation of `[0, LUT_COUNT-1]`.
/// - `network_config`: Network configuration of strides, node counts and synapse counts.
#[derive(Clone, Copy)]
pub struct KernelConfig<const TB_COUNT: usize, const STORE_COUNT: usize, const LUT_COUNT: usize> {
    pub mem_metadata_size: usize,
    pub tb_defs: [TripleBufferDef; TB_COUNT],
    pub store_defs: [EntryStoreDef; STORE_COUNT],
    pub lut_defs: [LutDef; LUT_COUNT],
    pub network_config: NetworkConfig,
}

impl<const TB_COUNT: usize, const STORE_COUNT: usize, const LUT_COUNT: usize> KernelConfig<TB_COUNT, STORE_COUNT, LUT_COUNT> {
    /// Capacity of the kernel's default triple buffer: the network's blocks,
    /// then the blocks of the stores and the tables placed on it.
    pub open spec fn default_tb_capacity(&self) -> int {
        let dflt = TripleBufferId(DEFAULT_TB_RAW);
        network_tb_size(self.network_config) + es_load(self.store_defs@, dflt) + lut_load(self.lut_defs@, dflt)
    }

    /// Cells one epoch takes on the memory plane: metadata, triple buffers,
    /// entry stores, then the network.
    pub open spec fn epoch_size(&self) -> int {
        self.mem_metadata_size + tb_size(self.default_tb_capacity()) + tbs_size(self.tb_defs@) + es_mem(self.store_defs@)
            + network_mem_size(self.network_config)
    }

    /// `id` names the default buffer or one of the user buffers.
    pub open spec fn tb_id_ok(&self, id: TripleBufferId) -> bool {
        id.0 == DEFAULT_TB_RAW || id.0 < TB_COUNT
    }

    /// A configuration the kernel can lay out: ids forming permutations,
    /// power-of-two capacities, every store and table on an existing buffer
    /// that has room for all of them, and sizes that fit the machine.
    pub open spec fn layout_ok(&self) -> bool {
        let nc = self.network_config;
        &&& 0 < TB_COUNT < 0xffff
        &&& 0 < STORE_COUNT < 0xffff
        &&& 0 < LUT_COUNT < 0xffff
        &&& is_pow2_usize(self.mem_metadata_size)
        &&& ids_perm(self.tb_defs@)
        &&& es_ids_perm(self.store_defs@)
        &&& lut_ids_perm(self.lut_defs@)
        &&& forall|k: int| 0 <= k < TB_COUNT ==> 0 < (#[trigger] self.tb_defs@[k]).buffer_capacity <= u32::MAX
        &&& forall|k: int|
            0 <= k < TB_COUNT ==> es_load(self.store_defs@, (#[trigger] self.tb_defs@[k]).id) + lut_load(
                self.lut_defs@,
                self.tb_defs@[k].id,
            ) <= self.tb_defs@[k].buffer_capacity
        &&& forall|i: int|
            0 <= i < STORE_COUNT ==> {
                let d = #[trigger] self.store_defs@[i];
                &&& self.tb_id_ok(d.tb_id)
                &&& store_shape_ok(d.config.capacity, d.config.core_stride, d.config.meta_stride)
            }
        &&& forall|i: int| 0 <= i < LUT_COUNT ==> self.tb_id_ok((#[trigger] self.lut_defs@[i]).tb_id)
        &&& store_shape_ok(nc.node_capacity, NODE_STRIDE, nc.node_meta_stride)
        &&& store_shape_ok(nc.synapse_capacity, SYNAPSE_STRIDE, nc.synapse_meta_stride)
        &&& 0 < self.default_tb_capacity() <= u32::MAX
        &&& self.epoch_size() + 2 <= usize::MAX
    }
}

/// Position of the first triple-buffer definition with id `id`.
pub open spec fn find_tb_def(defs: Seq<TripleBufferDef>, id: TripleBufferId) -> Option<int>
    decreases defs.len(),
{
    if defs.len() == 0 {
        None
    } else if defs[0].id == id {
        Some(0)
    } else {
        match find_tb_def(defs.drop_first(), id) {
            Some(k) => Some(k + 1),
            None => None,
        }
    }
}

/// Position of the first store definition with id `id`.
pub open spec fn find_store_def(defs: Seq<EntryStoreDef>, id: EntryStoreId) -> Option<int>
    decreases defs.len(),
{
    if defs.len() == 0 {
        None
    } else if defs[0].id == id {
        Some(0)
    } else {
        match find_store_def(defs.drop_first(), id) {
            Some(k) => Some(k + 1),
            None => None,
        }
    }
}

/// Position of the first table definition with id `id`.
pub open spec fn find_lut_def(defs: Seq<LutDef>, id: LutId) -> Option<int>
    decreases defs.len(),
{
    if defs.len() == 0 {
        None
    } else if defs[0].id == id {
        Some(0)
    } else {
        match find_lut_def(defs.drop_first(), id) {
            Some(k) => Some(k + 1),
            None => None,
        }
    }
}

/// `find_tb_def` gives the first position with the id, or none.
pub proof fn lemma_find_tb_def(defs: Seq<TripleBufferDef>, id: TripleBufferId, k: int)
    requires
        0 <= k <= defs.len(),
        forall|j: int| 0 <= j < k ==> (#[trigger] defs[j]).id != id,
        k < defs.len() ==> defs[k].id == id,
    ensures
        find_tb_def(defs, id) == if k < defs.len() {
            Some(k)
        } else {
            None::<int>
        },
    decreases k,
{
    if k > 0 {
        lemma_find_tb_def(defs.drop_first(), id, k - 1);
    }
}

/// `find_store_def` gives the first position with the id, or none.
pub proof fn lemma_find_store_def(defs: Seq<EntryStoreDef>, id: EntryStoreId, k: int)
    requires
        0 <= k <= defs.len(),
        forall|j: int| 0 <= j < k ==> (#[trigger] defs[j]).id != id,
        k < defs.len() ==> defs[k].id == id,
    ensures
        find_store_def(defs, id) == if k < defs.len() {
            Some(k)
        } else {
            None::<int>
        },
    decreases k,
{
    if k > 0 {
        lemma_find_store_def(defs.drop_first(), id, k - 1);
    }
}

/// `find_lut_def` gives the first position with the id, or none.
pub proof fn lemma_find_lut_def(defs: Seq<LutDef>, id: LutId, k: int)
    requires
        0 <= k <= defs.len(),
        forall|j: int| 0 <= j < k ==> (#[trigger] defs[j]).id != id,
        k < defs.len() ==> defs[k].id == id,
    ensures
        find_lut_def(defs, id) == if k < defs.len() {
            Some(k)
        } else {
            None::<int>
        },
    decreases k,
{
    if k > 0 {
        lemma_find_lut_def(defs.drop_first(), id, k - 1);
    }
}

/// Verdict on the old triple buffers against the new definitions, taken in
/// the order of the old ones: the first that has no counterpart is a schema
/// mismatch, the first that would shrink lacks capacity.
pub open spec fn tb_defs_verdict(old: Seq<TripleBufferDef>, new: Seq<TripleBufferDef>) -> Result<(), KernelError>
    decreases old.len(),
{
    if old.len() == 0 {
        Ok(())
    } else {
        match find_tb_def(new, old[0].id) {
            None => Err(KernelError::SchemaMismatch),
            Some(k) => if new[k].buffer_capacity < old[0].buffer_capacity {
                Err(KernelError::InsufficientCapacity)
            } else {
                tb_defs_verdict(old.drop_first(), new)
            },
        }
    }
}

/// Verdict on the old stores against the new definitions: a store must keep
/// its buffer and its three strides, and may only grow.
pub open spec fn store_defs_verdict(old: Seq<EntryStoreDef>, new: Seq<EntryStoreDef>) -> Result<(), KernelError>
    decreases old.len(),
{
    if old.len() == 0 {
        Ok(())
    } else {
        match find_store_def(new, old[0].id) {
            None => Err(KernelError::SchemaMismatch),
            Some(k) => {
                let n = new[k];
                let o = old[0];
                if n.tb_id != o.tb_id || n.config.core_stride != o.config.core_stride || n.config.meta_stride
                    != o.config.meta_stride || n.config.attr_stride != o.config.attr_stride {
                    Err(KernelError::SchemaMismatch)
                } else if n.config.capacity < o.config.capacity {
                    Err(KernelError::InsufficientCapacity)
                } else {
                    store_defs_verdict(old.drop_first(), new)
                }
            },
        }
    }
}

/// Verdict on the old tables against the new definitions: a table must stay
/// on its buffer and may only grow.
pub open spec fn lut_defs_verdict(old: Seq<LutDef>, new: Seq<LutDef>) -> Result<(), KernelError>
    decreases old.len(),
{
    if old.len() == 0 {
        Ok(())
    } else {
        match find_lut_def(new, old[0].id) {
            None => Err(KernelError::SchemaMismatch),
            Some(k) => if new[k].tb_id != old[0].tb_id {
                Err(KernelError::SchemaMismatch)
            } else if new[k].size < old[0].size {
                Err(KernelError::InsufficientCapacity)
            } else {
                lut_defs_verdict(old.drop_first(), new)
            },
        }
    }
}

/// Verdict of `grow()` on replacing `old` (whose network has the given
/// capacities) by `new`: network strides first, then capacities and the
/// metadata size, then stores, triple buffers and tables.
pub open spec fn config_verdict<const TB: usize, const ST: usize, const LU: usize>(
    old: KernelConfig<TB, ST, LU>,
    new: KernelConfig<TB, ST, LU>,
    node_capacity: int,
    synapse_capacity: int,
) -> Result<(), KernelError> {
    let n = new.network_config;
    let o = old.network_config;
    if n.node_meta_stride != o.node_meta_stride || n.node_attr_stride != o.node_attr_stride || n.synapse_meta_stride
        != o.synapse_meta_stride || n.synapse_attr_stride != o.synapse_attr_stride {
        Err(KernelError::SchemaMismatch)
    } else if n.node_capacity < node_capacity || n.synapse_capacity < synapse_capacity
        || new.mem_metadata_size < old.mem_metadata_size {
        Err(KernelError::InsufficientCapacity)
    } else if store_defs_verdict(old.store_defs@, new.store_defs@) is Err {
        store_defs_verdict(old.store_defs@, new.store_defs@)
    } else if tb_defs_verdict(old.tb_defs@, new.tb_defs@) is Err {
        tb_defs_verdict(old.tb_defs@, new.tb_defs@)
    } else {
        lut_defs_verdict(old.lut_defs@, new.lut_defs@)
    }
}

/// `new_def` carries `old_def` over: same id, buffer and strides, no smaller.
pub open spec fn store_kept(old_def: EntryStoreDef, new_def: EntryStoreDef) -> bool {
    &&& new_def.id == old_def.id
    &&& new_def.tb_id == old_def.tb_id
    &&& new_def.config.core_stride == old_def.config.core_stride
    &&& new_def.config.meta_stride == old_def.config.meta_stride
    &&& new_def.config.attr_stride == old_def.config.attr_stride
    &&& new_def.config.capacity >= old_def.config.capacity
}

/// `new_def` carries `old_def` over: same id and buffer, no smaller.
pub open spec fn lut_kept(old_def: LutDef, new_def: LutDef) -> bool {
    &&& new_def.id == old_def.id
    &&& new_def.tb_id == old_def.tb_id
    &&& new_def.size >= old_def.size
}

/// A position found by id holds that id.
pub proof fn lemma_find_store_some(defs: Seq<EntryStoreDef>, id: EntryStoreId)
    ensures
        find_store_def(defs, id) matches Some(k) ==> 0 <= k < defs.len() && defs[k].id == id,
    decreases defs.len(),
{
    if defs.len() > 0 && defs[0].id != id {
        lemma_find_store_some(defs.drop_first(), id);
    }
}

pub proof fn lemma_find_tb_some(defs: Seq<TripleBufferDef>, id: TripleBufferId)
    ensures
        find_tb_def(defs, id) matches Some(k) ==> 0 <= k < defs.len() && defs[k].id == id,
    decreases defs.len(),
{
    if defs.len() > 0 && defs[0].id != id {
        lemma_find_tb_some(defs.drop_first(), id);
    }
}

pub proof fn lemma_find_lut_some(defs: Seq<LutDef>, id: LutId)
    ensures
        find_lut_def(defs, id) matches Some(k) ==> 0 <= k < defs.len() && defs[k].id == id,
    decreases defs.len(),
{
    if defs.len() > 0 && defs[0].id != id {
        lemma_find_lut_some(defs.drop_first(), id);
    }
}

/// A passing verdict finds, for every old store, one that carries it over.
pub proof fn lemma_store_verdict_ok(old: Seq<EntryStoreDef>, new: Seq<EntryStoreDef>, i: int)
    requires
        store_defs_verdict(old, new) is Ok,
        0 <= i < old.len(),
    ensures
        exists|k: int| 0 <= k < new.len() && store_kept(old[i], #[trigger] new[k]),
    decreases i,
{
    lemma_find_store_some(new, old[0].id);
    if i == 0 {
        let k = find_store_def(new, old[0].id)->0;
        assert(store_kept(old[0], new[k]));
    } else {
        lemma_store_verdict_ok(old.drop_first(), new, i - 1);
    }
}

/// A passing verdict finds, for every old buffer, one no smaller.
pub proof fn lemma_tb_verdict_ok(old: Seq<TripleBufferDef>, new: Seq<TripleBufferDef>, i: int)
    requires
        tb_defs_verdict(old, new) is Ok,
        0 <= i < old.len(),
    ensures
        exists|k: int|
            0 <= k < new.len() && (#[trigger] new[k]).id == old[i].id && new[k].buffer_capacity >= old[i].buffer_capacity,
    decreases i,
{
    lemma_find_tb_some(new, old[0].id);
    if i == 0 {
        let k = find_tb_def(new, old[0].id)->0;
        assert(new[k].id == old[0].id);
    } else {
        lemma_tb_verdict_ok(old.drop_first(), new, i - 1);
    }
}

/// A passing verdict finds, for every old table, one that carries it over.
pub proof fn lemma_lut_verdict_ok(old: Seq<LutDef>, new: Seq<LutDef>, i: int)
    requires
        lut_defs_verdict(old, new) is Ok,
        0 <= i < old.len(),
    ensures
        exists|k: int| 0 <= k < new.len() && lut_kept(old[i], #[trigger] new[k]),
    decreases i,
{
    lemma_find_lut_some(new, old[0].id);
    if i == 0 {
        let k = find_lut_def(new, old[0].id)->0;
        assert(lut_kept(old[0], new[k]));
    } else {
        lemma_lut_verdict_ok(old.drop_first(), new, i - 1);
    }
}

/// `new` carries `old_def` over: some new definition has its id and buffer
/// and is no smaller.
pub open spec fn lut_successor(old_def: LutDef, new: Seq<LutDef>) -> bool {
    exists|k: int| 0 <= k < new.len() && lut_kept(old_def, #[trigger] new[k])
}

/// With distinct ids, the definition found by the id of entry `k` is entry `k`.
proof fn lemma_find_lut_distinct(defs: Seq<LutDef>, k: int)
    requires
        0 <= k < defs.len(),
        forall|a: int, b: int| 0 <= a < b < defs.len() ==> (#[trigger] defs[a]).id != (#[trigger] defs[b]).id,
    ensures
        find_lut_def(defs, defs[k].id) == Some(k),
{
    assert forall|j: int| 0 <= j < k implies (#[trigger] defs[j]).id != defs[k].id by {
        assert(defs[j].id != defs[k].id);
    }
    lemma_find_lut_def(defs, defs[k].id, k);
}

/// Growing keeps the tables exactly when every old table has, under its id,
/// a new definition on the same buffer that is no smaller. A refusal is one
/// of two: for capacity, naming an old table whose counterpart on its buffer
/// is smaller; for the schema, naming an old table with no counterpart on
/// its buffer.
pub proof fn lemma_lut_verdict(old: Seq<LutDef>, new: Seq<LutDef>)
    requires
        forall|a: int, b: int| 0 <= a < b < new.len() ==> (#[trigger] new[a]).id != (#[trigger] new[b]).id,
    ensures
        (lut_defs_verdict(old, new) is Ok) <==> (forall|i: int| 0 <= i < old.len() ==> #[trigger] lut_successor(old[i], new)),
        lut_defs_verdict(old, new) is Ok || lut_defs_verdict(old, new) == Err::<(), KernelError>(
            KernelError::InsufficientCapacity,
        ) || lut_defs_verdict(old, new) == Err::<(), KernelError>(KernelError::SchemaMismatch),
        lut_defs_verdict(old, new) == Err::<(), KernelError>(KernelError::InsufficientCapacity) ==> exists|i: int, k: int|
            #![trigger old[i], new[k]]
            0 <= i < old.len() && 0 <= k < new.len() && new[k].id == old[i].id && new[k].tb_id == old[i].tb_id
                && new[k].size < old[i].size,
        lut_defs_verdict(old, new) == Err::<(), KernelError>(KernelError::SchemaMismatch) ==> exists|i: int|
            #![trigger old[i]]
            0 <= i < old.len() && forall|k: int|
                0 <= k < new.len() && (#[trigger] new[k]).id == old[i].id ==> new[k].tb_id != old[i].tb_id,
    decreases old.len(),
{
    if old.len() > 0 {
        let o = old[0];
        let rest = old.drop_first();
        lemma_lut_verdict(rest, new);
        lemma_find_lut_some(new, o.id);
        // Any definition with the id of `o` is the one found.
        assert forall|k: int| 0 <= k < new.len() && (#[trigger] new[k]).id == o.id implies find_lut_def(new, o.id) == Some(
            k,
        ) by {
            lemma_find_lut_distinct(new, k);
        }
        assert forall|i: int| 0 <= i < rest.len() implies #[trigger] rest[i] == old[i + 1] by {}
        match find_lut_def(new, o.id) {
            None => {
                assert(!(lut_successor(old[0], new)));
            },
            Some(f) => {
                if new[f].tb_id != o.tb_id || new[f].size < o.size {
                    assert(!(lut_successor(old[0], new)));
                    if new[f].tb_id == o.tb_id {
                        assert(new[f].id == old[0].id);
                    }
                } else {
                    assert(lut_kept(old[0], new[f]));
                    if lut_defs_verdict(rest, new) is Ok {
                        assert forall|i: int| 0 <= i < old.len() implies #[trigger] lut_successor(old[i], new) by {
                            if i > 0 {
                                assert(old[i] == rest[i - 1]);
                                assert(lut_successor(rest[i - 1], new));
                            }
                        }
                    } else {
                        if (forall|i: int| 0 <= i < old.len() ==> #[trigger] lut_successor(old[i], new)) {
                            assert forall|i: int| 0 <= i < rest.len() implies #[trigger] lut_successor(rest[i], new) by {
                                assert(rest[i] == old[i + 1]);
                                assert(lut_successor(old[i + 1], new));
                            }
                        }
                        if lut_defs_verdict(rest, new) == Err::<(), KernelError>(KernelError::InsufficientCapacity) {
                            let (i, k) = choose|i: int, k: int|
                                #![trigger rest[i], new[k]]
                                0 <= i < rest.len() && 0 <= k < new.len() && new[k].id == rest[i].id && new[k].tb_id
                                    == rest[i].tb_id && new[k].size < rest[i].size;
                            assert(old[i + 1] == rest[i]);
                        }
                        if lut_defs_verdict(rest, new) == Err::<(), KernelError>(KernelError::SchemaMismatch) {
                            let i = choose|i: int|
                                #![trigger rest[i]]
                                0 <= i < rest.len() && forall|k: int|
                                    0 <= k < new.len() && (#[trigger] new[k]).id == rest[i].id ==> new[k].tb_id != rest[i].tb_id;
                            assert(old[i + 1] == rest[i]);
                        }
                    }
                }
            },
        }
    }
}

/// In particular, growing to the same table definitions never fails on the
/// tables.
pub proof fn lemma_lut_verdict_same(defs: Seq<LutDef>)
    requires
        forall|a: int, b: int| 0 <= a < b < defs.len() ==> (#[trigger] defs[a]).id != (#[trigger] defs[b]).id,
    ensures
        lut_defs_verdict(defs, defs) is Ok,
{
    assert forall|i: int| 0 <= i < defs.len() implies #[trigger] lut_successor(defs[i], defs) by {
        assert(lut_kept(defs[i], defs[i]));
    }
    lemma_lut_verdict(defs, defs);
}

/// `new_def` keeps the buffer and the three strides of `old_def`.
pub open spec fn same_store_shape(old_def: EntryStoreDef, new_def: EntryStoreDef) -> bool {
    &&& new_def.tb_id == old_def.tb_id
    &&& new_def.config.core_stride == old_def.config.core_stride
    &&& new_def.config.meta_stride == old_def.config.meta_stride
    &&& new_def.config.attr_stride == old_def.config.attr_stride
}

/// `new` carries `old_def` over: some new definition has its id, buffer and
/// strides and is no smaller.
pub open spec fn store_successor(old_def: EntryStoreDef, new: Seq<EntryStoreDef>) -> bool {
    exists|k: int| 0 <= k < new.len() && store_kept(old_def, #[trigger] new[k])
}

/// With distinct ids, the definition found by the id of entry `k` is entry `k`.
proof fn lemma_find_store_distinct(defs: Seq<EntryStoreDef>, k: int)
    requires
        0 <= k < defs.len(),
        forall|a: int, b: int| 0 <= a < b < defs.len() ==> (#[trigger] defs[a]).id != (#[trigger] defs[b]).id,
    ensures
        find_store_def(defs, defs[k].id) == Some(k),
{
    assert forall|j: int| 0 <= j < k implies (#[trigger] defs[j]).id != defs[k].id by {
        assert(defs[j].id != defs[k].id);
    }
    lemma_find_store_def(defs, defs[k].id, k);
}

/// Growing keeps the stores exactly when every old store has, under its id,
/// a new definition on the same buffer with the same strides that is no
/// smaller. A refusal is one of two: for capacity, naming an old store whose
/// counterpart on its buffer is smaller; for the schema, naming an old store
/// with no counterpart of its buffer and strides.
pub proof fn lemma_store_verdict(old: Seq<EntryStoreDef>, new: Seq<EntryStoreDef>)
    requires
        forall|a: int, b: int| 0 <= a < b < new.len() ==> (#[trigger] new[a]).id != (#[trigger] new[b]).id,
    ensures
        (store_defs_verdict(old, new) is Ok) <==> (forall|i: int| 0 <= i < old.len() ==> #[trigger] store_successor(old[i], new)),
        store_defs_verdict(old, new) is Ok || store_defs_verdict(old, new) == Err::<(), KernelError>(
            KernelError::InsufficientCapacity,
        ) || store_defs_verdict(old, new) == Err::<(), KernelError>(KernelError::SchemaMismatch),
        store_defs_verdict(old, new) == Err::<(), KernelError>(KernelError::InsufficientCapacity) ==> exists|i: int, k: int|
            #![trigger old[i], new[k]]
            0 <= i < old.len() && 0 <= k < new.len() && new[k].id == old[i].id && new[k].tb_id == old[i].tb_id
                && new[k].config.capacity < old[i].config.capacity,
        store_defs_verdict(old, new) == Err::<(), KernelError>(KernelError::SchemaMismatch) ==> exists|i: int|
            #![trigger old[i]]
            0 <= i < old.len() && forall|k: int|
                0 <= k < new.len() && (#[trigger] new[k]).id == old[i].id ==> !same_store_shape(old[i], new[k]),
    decreases old.len(),
{
    if old.len() > 0 {
        let o = old[0];
        let rest = old.drop_first();
        lemma_store_verdict(rest, new);
        lemma_find_store_some(new, o.id);
        // Any definition with the id of `o` is the one found.
        assert forall|k: int| 0 <= k < new.len() && (#[trigger] new[k]).id == o.id implies find_store_def(new, o.id) == Some(
            k,
        ) by {
            lemma_find_store_distinct(new, k);
        }
        assert forall|i: int| 0 <= i < rest.len() implies #[trigger] rest[i] == old[i + 1] by {}
        match find_store_def(new, o.id) {
            None => {
                assert(!(store_successor(old[0], new)));
            },
            Some(f) => {
                if !same_store_shape(o, new[f]) || new[f].config.capacity < o.config.capacity {
                    assert(!(store_successor(old[0], new)));
                    if same_store_shape(o, new[f]) {
                        assert(new[f].id == old[0].id);
                    }
                } else {
                    assert(store_kept(old[0], new[f]));
                    if store_defs_verdict(rest, new) is Ok {
                        assert forall|i: int| 0 <= i < old.len() implies #[trigger] store_successor(old[i], new) by {
                            if i > 0 {
                                assert(old[i] == rest[i - 1]);
                                assert(store_successor(rest[i - 1], new));
                            }
                        }
                    } else {
                        if (forall|i: int| 0 <= i < old.len() ==> #[trigger] store_successor(old[i], new)) {
                            assert forall|i: int| 0 <= i < rest.len() implies #[trigger] store_successor(rest[i], new) by {
                                assert(rest[i] == old[i + 1]);
                                assert(store_successor(old[i + 1], new));
                            }
                        }
                        if store_defs_verdict(rest, new) == Err::<(), KernelError>(KernelError::InsufficientCapacity) {
                            let (i, k) = choose|i: int, k: int|
                                #![trigger rest[i], new[k]]
                                0 <= i < rest.len() && 0 <= k < new.len() && new[k].id == rest[i].id && new[k].tb_id
                                    == rest[i].tb_id && new[k].config.capacity < rest[i].config.capacity;
                            assert(old[i + 1] == rest[i]);
                        }
                        if store_defs_verdict(rest, new) == Err::<(), KernelError>(KernelError::SchemaMismatch) {
                            let i = choose|i: int|
                                #![trigger rest[i]]
                                0 <= i < rest.len() && forall|k: int|
                                    0 <= k < new.len() && (#[trigger] new[k]).id == rest[i].id ==> !same_store_shape(rest[i], new[k]);
                            assert(old[i + 1] == rest[i]);
                        }
                    }
                }
            },
        }
    }
}

/// In particular, growing to the same store definitions never fails on the
/// stores.
pub proof fn lemma_store_verdict_same(defs: Seq<EntryStoreDef>)
    requires
        forall|a: int, b: int| 0 <= a < b < defs.len() ==> (#[trigger] defs[a]).id != (#[trigger] defs[b]).id,
    ensures
        store_defs_verdict(defs, defs) is Ok,
{
    assert forall|i: int| 0 <= i < defs.len() implies #[trigger] store_successor(defs[i], defs) by {
        assert(store_kept(defs[i], defs[i]));
    }
    lemma_store_verdict(defs, defs);
}

/// `new_def` carries `old_def` over: same id, no smaller.
pub open spec fn tb_kept(old_def: TripleBufferDef, new_def: TripleBufferDef) -> bool {
    &&& new_def.id == old_def.id
    &&& new_def.buffer_capacity >= old_def.buffer_capacity
}

/// `new` carries `old_def` over: some new definition has its id and is no
/// smaller.
pub open spec fn tb_successor(old_def: TripleBufferDef, new: Seq<TripleBufferDef>) -> bool {
    exists|k: int| 0 <= k < new.len() && tb_kept(old_def, #[trigger] new[k])
}

/// With distinct ids, the definition found by the id of entry `k` is entry `k`.
proof fn lemma_find_tb_distinct(defs: Seq<TripleBufferDef>, k: int)
    requires
        0 <= k < defs.len(),
        forall|a: int, b: int| 0 <= a < b < defs.len() ==> (#[trigger] defs[a]).id != (#[trigger] defs[b]).id,
    ensures
        find_tb_def(defs, defs[k].id) == Some(k),
{
    assert forall|j: int| 0 <= j < k implies (#[trigger] defs[j]).id != defs[k].id by {
        assert(defs[j].id != defs[k].id);
    }
    lemma_find_tb_def(defs, defs[k].id, k);
}

/// Growing keeps the triple buffers exactly when every old buffer has, under
/// its id, a new definition that is no smaller. A refusal is one of two: for
/// capacity, naming an old buffer whose counterpart is smaller; for the
/// schema, naming an old buffer whose id is gone.
pub proof fn lemma_tb_verdict(old: Seq<TripleBufferDef>, new: Seq<TripleBufferDef>)
    requires
        forall|a: int, b: int| 0 <= a < b < new.len() ==> (#[trigger] new[a]).id != (#[trigger] new[b]).id,
    ensures
        (tb_defs_verdict(old, new) is Ok) <==> (forall|i: int| 0 <= i < old.len() ==> #[trigger] tb_successor(old[i], new)),
        tb_defs_verdict(old, new) is Ok || tb_defs_verdict(old, new) == Err::<(), KernelError>(
            KernelError::InsufficientCapacity,
        ) || tb_defs_verdict(old, new) == Err::<(), KernelError>(KernelError::SchemaMismatch),
        tb_defs_verdict(old, new) == Err::<(), KernelError>(KernelError::InsufficientCapacity) ==> exists|i: int, k: int|
            #![trigger old[i], new[k]]
            0 <= i < old.len() && 0 <= k < new.len() && new[k].id == old[i].id && new[k].buffer_capacity
                < old[i].buffer_capacity,
        tb_defs_verdict(old, new) == Err::<(), KernelError>(KernelError::SchemaMismatch) ==> exists|i: int|
            #![trigger old[i]]
            0 <= i < old.len() && forall|k: int|
                0 <= k < new.len() ==> (#[trigger] new[k]).id != old[i].id,
    decreases old.len(),
{
    if old.len() > 0 {
        let o = old[0];
        let rest = old.drop_first();
        lemma_tb_verdict(rest, new);
        lemma_find_tb_some(new, o.id);
        // Any definition with the id of `o` is the one found.
        assert forall|k: int| 0 <= k < new.len() && (#[trigger] new[k]).id == o.id implies find_tb_def(new, o.id) == Some(
            k,
        ) by {
            lemma_find_tb_distinct(new, k);
        }
        assert forall|i: int| 0 <= i < rest.len() implies #[trigger] rest[i] == old[i + 1] by {}
        match find_tb_def(new, o.id) {
            None => {
                assert(!(tb_successor(old[0], new)));
            },
            Some(f) => {
                if new[f].buffer_capacity < o.buffer_capacity {
                    assert(!(tb_successor(old[0], new)));
                    assert(new[f].id == old[0].id);
                } else {
                    assert(tb_kept(old[0], new[f]));
                    if tb_defs_verdict(rest, new) is Ok {
                        assert forall|i: int| 0 <= i < old.len() implies #[trigger] tb_successor(old[i], new) by {
                            if i > 0 {
                                assert(old[i] == rest[i - 1]);
                                assert(tb_successor(rest[i - 1], new));
                            }
                        }
                    } else {
                        if (forall|i: int| 0 <= i < old.len() ==> #[trigger] tb_successor(old[i], new)) {
                            assert forall|i: int| 0 <= i < rest.len() implies #[trigger] tb_successor(rest[i], new) by {
                                assert(rest[i] == old[i + 1]);
                                assert(tb_successor(old[i + 1], new));
                            }
                        }
                        if tb_defs_verdict(rest, new) == Err::<(), KernelError>(KernelError::InsufficientCapacity) {
                            let (i, k) = choose|i: int, k: int|
                                #![trigger rest[i], new[k]]
                                0 <= i < rest.len() && 0 <= k < new.len() && new[k].id == rest[i].id
                                    && new[k].buffer_capacity < rest[i].buffer_capacity;
                            assert(old[i + 1] == rest[i]);
                        }
                        if tb_defs_verdict(rest, new) == Err::<(), KernelError>(KernelError::SchemaMismatch) {
                            let i = choose|i: int|
                                #![trigger rest[i]]
                                0 <= i < rest.len() && forall|k: int|
                                    0 <= k < new.len() ==> (#[trigger] new[k]).id != rest[i].id;
                            assert(old[i + 1] == rest[i]);
                        }
                    }
                }
            },
        }
    }
}

/// In particular, growing to the same buffer definitions never fails on the
/// buffers.
pub proof fn lemma_tb_verdict_same(defs: Seq<TripleBufferDef>)
    requires
        forall|a: int, b: int| 0 <= a < b < defs.len() ==> (#[trigger] defs[a]).id != (#[trigger] defs[b]).id,
    ensures
        tb_defs_verdict(defs, defs) is Ok,
{
    assert forall|i: int| 0 <= i < defs.len() implies #[trigger] tb_successor(defs[i], defs) by {
        assert(tb_kept(defs[i], defs[i]));
    }
    lemma_tb_verdict(defs, defs);
}

/// `grow()` accepts `new` in place of `old`, whose network holds
/// `node_capacity` nodes and `synapse_capacity` synapses, exactly when the
/// network's strides stay, its capacities and the metadata do not shrink
/// below what is held, and every old store, triple buffer and table is
/// carried over under its id. Every refusal is for capacity or for the
/// schema.
pub proof fn lemma_config_verdict<const TB: usize, const ST: usize, const LU: usize>(
    old: KernelConfig<TB, ST, LU>,
    new: KernelConfig<TB, ST, LU>,
    node_capacity: int,
    synapse_capacity: int,
)
    requires
        new.layout_ok(),
    ensures
        (config_verdict(old, new, node_capacity, synapse_capacity) is Ok) <==> {
            let n = new.network_config;
            let o = old.network_config;
            &&& n.node_meta_stride == o.node_meta_stride
            &&& n.node_attr_stride == o.node_attr_stride
            &&& n.synapse_meta_stride == o.synapse_meta_stride
            &&& n.synapse_attr_stride == o.synapse_attr_stride
            &&& node_capacity <= n.node_capacity
            &&& synapse_capacity <= n.synapse_capacity
            &&& old.mem_metadata_size <= new.mem_metadata_size
            &&& forall|i: int| 0 <= i < ST ==> #[trigger] store_successor(old.store_defs@[i], new.store_defs@)
            &&& forall|i: int| 0 <= i < TB ==> #[trigger] tb_successor(old.tb_defs@[i], new.tb_defs@)
            &&& forall|i: int| 0 <= i < LU ==> #[trigger] lut_successor(old.lut_defs@[i], new.lut_defs@)
        },
        config_verdict(old, new, node_capacity, synapse_capacity) is Ok || config_verdict(
            old,
            new,
            node_capacity,
            synapse_capacity,
        ) == Err::<(), KernelError>(KernelError::InsufficientCapacity) || config_verdict(
            old,
            new,
            node_capacity,
            synapse_capacity,
        ) == Err::<(), KernelError>(KernelError::SchemaMismatch),
{
    lemma_store_verdict(old.store_defs@, new.store_defs@);
    lemma_tb_verdict(old.tb_defs@, new.tb_defs@);
    lemma_lut_verdict(old.lut_defs@, new.lut_defs@);
}

/// Growing a kernel to its own configuration is accepted whenever its
/// network fits that configuration.
pub proof fn lemma_config_verdict_same<const TB: usize, const ST: usize, const LU: usize>(
    c: KernelConfig<TB, ST, LU>,
    node_capacity: int,
    synapse_capacity: int,
)
    requires
        c.layout_ok(),
        node_capacity <= c.network_config.node_capacity,
        synapse_capacity <= c.network_config.synapse_capacity,
    ensures
        config_verdict(c, c, node_capacity, synapse_capacity) is Ok,
{
    lemma_store_verdict_same(c.store_defs@);
    lemma_tb_verdict_same(c.tb_defs@);
    lemma_lut_verdict_same(c.lut_defs@);
}

/// Removing a store from the list removes its blocks from the load.
pub proof fn lemma_es_load_remove(s: Seq<EntryStoreDef>, k: int, tb: TripleBufferId)
    requires
        0 <= k < s.len(),
    ensures
        es_load(s, tb) == es_load(s.remove(k), tb) + if s[k].tb_id == tb {
            s[k].config.tb_size()
        } else {
            0
        },
    decreases s.len(),
{
    if k == s.len() - 1 {
        assert(s.remove(k) =~= s.drop_last());
    } else {
        lemma_es_load_remove(s.drop_last(), k, tb);
        assert(s.drop_last().remove(k) =~= s.remove(k).drop_last());
        assert(s.remove(k).last() == s.last());
    }
}

/// Removing a table from the list removes its cells from the load.
pub proof fn lemma_lut_load_remove(s: Seq<LutDef>, k: int, tb: TripleBufferId)
    requires
        0 <= k < s.len(),
    ensures
        lut_load(s, tb) == lut_load(s.remove(k), tb) + if s[k].tb_id == tb {
            s[k].size as int
        } else {
            0
        },
    decreases s.len(),
{
    if k == s.len() - 1 {
        assert(s.remove(k) =~= s.drop_last());
    } else {
        lemma_lut_load_remove(s.drop_last(), k, tb);
        assert(s.drop_last().remove(k) =~= s.remove(k).drop_last());
        assert(s.remove(k).last() == s.last());
    }
}

/// Stores carried over (old store `i` to new store `pos[i]`) to a list with
/// distinct ids load every buffer no less.
pub proof fn lemma_es_load_mono(old: Seq<EntryStoreDef>, new: Seq<EntryStoreDef>, pos: Seq<int>, tb: TripleBufferId)
    requires
        pos.len() == old.len(),
        forall|i: int| 0 <= i < old.len() ==> 0 <= #[trigger] pos[i] < new.len() && store_kept(old[i], new[pos[i]]),
        forall|i: int, j: int| 0 <= i < j < old.len() ==> (#[trigger] old[i]).id != (#[trigger] old[j]).id,
        forall|i: int, j: int| 0 <= i < j < new.len() ==> (#[trigger] new[i]).id != (#[trigger] new[j]).id,
    ensures
        es_load(old, tb) <= es_load(new, tb),
    decreases old.len(),
{
    if old.len() == 0 {
        crate::primitives::entry_store_writer_registry::lemma_es_nonneg(new, tb);
    } else {
        let n0 = old.len() - 1;
        let k = pos[n0];
        let old2 = old.drop_last();
        let new2 = new.remove(k);
        let pos2 = Seq::new(old2.len(), |i: int| if pos[i] < k { pos[i] } else { pos[i] - 1 });
        assert forall|i: int| 0 <= i < old2.len() implies 0 <= #[trigger] pos2[i] < new2.len() && store_kept(old2[i], new2[pos2[i]]) by {
            assert(old2[i] == old[i]);
            assert(old[i].id != old[n0].id);
            assert(pos[i] != k);
        }
        assert forall|i: int, j: int| 0 <= i < j < new2.len() implies (#[trigger] new2[i]).id != (#[trigger] new2[j]).id by {
            let a = if i < k { i } else { i + 1 };
            let b = if j < k { j } else { j + 1 };
            assert(new2[i] == new[a]);
            assert(new2[j] == new[b]);
        }
        lemma_es_load_mono(old2, new2, pos2, tb);
        lemma_es_load_remove(new, k, tb);
        assert(old2 =~= old.drop_last());
        let c = old[n0].config;
        let d = new[k].config;
        assert(c.capacity * (c.core_stride + c.meta_stride) <= d.capacity * (d.core_stride + d.meta_stride)) by (nonlinear_arith)
            requires
                c.capacity <= d.capacity,
                c.core_stride + c.meta_stride == d.core_stride + d.meta_stride,
                0 <= c.core_stride + c.meta_stride,
        ;
    }
}

/// Tables carried over (old table `i` to new table `pos[i]`) to a list with
/// distinct ids load every buffer no less.
pub proof fn lemma_lut_load_mono(old: Seq<LutDef>, new: Seq<LutDef>, pos: Seq<int>, tb: TripleBufferId)
    requires
        pos.len() == old.len(),
        forall|i: int| 0 <= i < old.len() ==> 0 <= #[trigger] pos[i] < new.len() && lut_kept(old[i], new[pos[i]]),
        forall|i: int, j: int| 0 <= i < j < old.len() ==> (#[trigger] old[i]).id != (#[trigger] old[j]).id,
        forall|i: int, j: int| 0 <= i < j < new.len() ==> (#[trigger] new[i]).id != (#[trigger] new[j]).id,
    ensures
        lut_load(old, tb) <= lut_load(new, tb),
    decreases old.len(),
{
    if old.len() == 0 {
        crate::primitives::lut_writer_registry::lemma_lut_load_nonneg(new, tb);
    } else {
        let n0 = old.len() - 1;
        let k = pos[n0];
        let old2 = old.drop_last();
        let new2 = new.remove(k);
        let pos2 = Seq::new(old2.len(), |i: int| if pos[i] < k { pos[i] } else { pos[i] - 1 });
        assert forall|i: int| 0 <= i < old2.len() implies 0 <= #[trigger] pos2[i] < new2.len() && lut_kept(old2[i], new2[pos2[i]]) by {
            assert(old2[i] == old[i]);
            assert(old[i].id != old[n0].id);
            assert(pos[i] != k);
        }
        assert forall|i: int, j: int| 0 <= i < j < new2.len() implies (#[trigger] new2[i]).id != (#[trigger] new2[j]).id by {
            let a = if i < k { i } else { i + 1 };
            let b = if j < k { j } else { j + 1 };
            assert(new2[i] == new[a]);
            assert(new2[j] == new[b]);
        }
        lemma_lut_load_mono(old2, new2, pos2, tb);
        lemma_lut_load_remove(new, k, tb);
        assert(old2 =~= old.drop_last());
    }
}

} // verus!
