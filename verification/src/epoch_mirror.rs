use crate::metadata::mem_metadata_reader::MemMetadataReader;
use crate::primitives::entry_store_def::EntryStoreId;
use crate::primitives::entry_store_reader::EntryStoreReader;
use crate::primitives::entry_store_reader_registry::EntryStoreReaderRegistry;
use crate::primitives::lut_def::LutId;
use crate::primitives::lut_reader::LutReader;
use crate::primitives::lut_reader_registry::LutReaderRegistry;
use crate::primitives::triple_buffer_def::{DEFAULT_TB_RAW, TripleBufferId};
use crate::primitives::triple_buffer_reader::TripleBufferReader;
use crate::primitives::triple_buffer_reader_registry::TripleBufferReaderRegistry;
use crate::primitives::triple_buffer_writer::{tb_after_swap, tb_inv, tb_new_data};
use crate::primitives::types::AtomicBuffer;
use crate::topology::network::network_reader::NetworkReader;
use vstd::prelude::*;

verus! {

/// `mem` after the reader acknowledged the generation of the staging buffer
/// whose generation cells start at `s`: the acknowledgement cell takes the
/// writer generation minus one.
pub open spec fn acked(mem: Seq<i32>, s: int) -> Seq<i32> {
    mem.update(s + 1, (mem[s] - 1) as i32)
}

/// Consumer-side view of one epoch: readers over the metadata, the triple
/// buffers, the entry stores, the lookup tables and the network, all laid out
/// as the producer's `Epoch` that made it.
pub struct EpochMirror<const TB_COUNT: usize, const STORE_COUNT: usize, const LUT_COUNT: usize> {
    pub mem_metadata: MemMetadataReader,
    pub tb_registry: TripleBufferReaderRegistry<TB_COUNT>,
    pub store_registry: EntryStoreReaderRegistry<TB_COUNT, STORE_COUNT>,
    pub lut_registry: LutReaderRegistry<TB_COUNT, LUT_COUNT>,
    pub network: NetworkReader,
}

impl<const TB_COUNT: usize, const STORE_COUNT: usize, const LUT_COUNT: usize> EpochMirror<TB_COUNT, STORE_COUNT, LUT_COUNT> {
    /// The default triple buffer, which carries the network.
    pub open spec fn default_tb(&self) -> TripleBufferReader {
        self.tb_registry.default_buffer()
    }

    /// First generation cell of the node store's staging buffer.
    pub open spec fn node_gens(&self) -> int {
        self.network.node_store().store().staging().start()
    }

    /// First generation cell of the synapse store's staging buffer.
    pub open spec fn synapse_gens(&self) -> int {
        self.network.synapse_store().staging().start()
    }

    /// What `swap()` needs: a consistent default buffer, the network's
    /// generation cells in `mem` apart from each other and from the buffer's
    /// control cells, and writer generations that can be decremented.
    pub open spec fn swap_ok(&self, mem: Seq<i32>) -> bool {
        let d = self.default_tb();
        let ns = self.node_gens();
        let ss = self.synapse_gens();
        &&& d.valid(mem)
        &&& d.inv(mem)
        &&& self.network.node_store().store().staging().valid(mem)
        &&& self.network.synapse_store().staging().valid(mem)
        &&& (d.start() + 4 <= ns || ns + 2 <= d.start())
        &&& (d.start() + 4 <= ss || ss + 2 <= d.start())
        &&& (ns + 2 <= ss || ss + 2 <= ns)
        &&& mem[ns] != i32::MIN
        &&& mem[ss] != i32::MIN
    }

    /// What `swap()` leaves: the default buffer swapped, then the node and
    /// synapse generations acknowledged.
    pub open spec fn after_swap(&self, mem: Seq<i32>) -> Seq<i32> {
        acked(acked(tb_after_swap(mem, self.default_tb().start()), self.node_gens()), self.synapse_gens())
    }

    /// Takes the latest published default buffer (if any) and acknowledges
    /// the network's published generations, which lets the producer reclaim
    /// the slots it retired before them.
    pub fn swap(&self, mem: &mut AtomicBuffer) -> (r: bool)
        requires
            self.tb_registry.wf(),
            self.swap_ok(old(mem)@),
        ensures
            r == tb_new_data(old(mem)@, self.default_tb().start()),
            final(mem)@ == self.after_swap(old(mem)@),
            tb_inv(tb_after_swap(old(mem)@, self.default_tb().start()), self.default_tb().start()),
    {
        let tb = self.tb_registry.get(TripleBufferId::default_tb());
        let r = tb.swap(mem);
        proof {
            let d = self.default_tb();
            let m0 = old(mem)@;
            d.lemma_layout();
            self.network.node_store().store().staging().lemma_layout();
            self.network.synapse_store().staging().lemma_layout();
            assert(mem@[self.node_gens()] == m0[self.node_gens()]);
            assert(mem@[self.synapse_gens()] == m0[self.synapse_gens()]);
            let m1 = acked(mem@, self.node_gens());
            assert(m1[self.synapse_gens()] == m0[self.synapse_gens()]);
        }
        self.network.ack_generation(mem);
        r
    }

    /// Takes the latest published buffer of user triple buffer `tb_id`.
    pub fn swap_tb(&self, mem: &mut AtomicBuffer, tb_id: TripleBufferId) -> (r: bool)
        requires
            self.tb_registry.wf(),
            tb_id.0 < TB_COUNT,
            self.tb_registry.tb_for(tb_id).valid(old(mem)@),
            self.tb_registry.tb_for(tb_id).inv(old(mem)@),
        ensures
            r == tb_new_data(old(mem)@, self.tb_registry.tb_for(tb_id).start()),
            final(mem)@ == tb_after_swap(old(mem)@, self.tb_registry.tb_for(tb_id).start()),
    {
        self.tb_registry.get(tb_id).swap(mem)
    }

    /// Reads metadata cell `offset`.
    pub fn mem_read_meta(&self, mem: &AtomicBuffer, offset: usize) -> (r: i32)
        requires
            self.mem_metadata.valid(mem@),
            offset < self.mem_metadata.cap(),
        ensures
            r == self.mem_metadata.view(mem@)[offset as int],
    {
        self.mem_metadata.read(mem, offset)
    }

    /// The reader of user triple buffer `tb_id`.
    pub fn get_user_tb(&self, tb_id: TripleBufferId) -> (r: &TripleBufferReader)
        requires
            self.tb_registry.wf(),
            tb_id.0 < TB_COUNT,
        ensures
            *r == self.tb_registry.tb_for(tb_id),
    {
        self.tb_registry.get(tb_id)
    }

    /// The reader of entry store `store_id`.
    pub fn get_entry_store(&self, store_id: EntryStoreId) -> (r: &EntryStoreReader)
        requires
            self.store_registry.wf(),
            store_id.0 < STORE_COUNT,
        ensures
            *r == self.store_registry.store_for(store_id),
    {
        self.store_registry.get(store_id)
    }

    /// The reader of lookup table `lut_id`.
    pub fn get_lut(&self, lut_id: LutId) -> (r: &LutReader)
        requires
            self.lut_registry.wf(),
            lut_id.0 < LUT_COUNT,
        ensures
            *r == self.lut_registry.table_for(lut_id),
    {
        self.lut_registry.get(lut_id)
    }

    /// The network reader.
    pub fn get_network(&self) -> (r: &NetworkReader)
        ensures
            *r == self.network,
    {
        &self.network
    }
}

} // verus!
