use crate::constants::{NODE_STRIDE, SYNAPSE_STRIDE};
use crate::primitives::entry_store_reader::EntryStoreReader;
use crate::primitives::slot::SlotId;
use crate::primitives::types::AtomicBuffer;
use crate::topology::network::synapse_reader::SynapseReader;
use crate::topology::node::node_reader::NodeReader;
use crate::topology::node::node_store_reader::NodeStoreReader;
use vstd::prelude::*;

verus! {

/// Consumer-side mirror of the node and synapse topology.
///
/// Callers walk the graph from nodes they know are alive, following next
/// pointers through the node store and synapse heads into the synapse lists.
/// There is no liveness check on random access: a slot returns whatever
/// entity last occupied it. Created by `NetworkWriter::to_reader()`.
#[derive(Clone, Copy)]
pub struct NetworkReader {
    node_chain: NodeStoreReader,
    pub(crate) synapses: EntryStoreReader,
}

impl NetworkReader {
    pub closed spec fn node_store(&self) -> NodeStoreReader {
        self.node_chain
    }

    pub closed spec fn synapse_store(&self) -> EntryStoreReader {
        self.synapses
    }

    pub(crate) fn bind(node_chain: NodeStoreReader, synapses: EntryStoreReader) -> (r: Self)
        ensures
            r.node_store() == node_chain,
            r.synapse_store() == synapses,
    {
        NetworkReader { node_chain, synapses }
    }

    #[inline]
    pub fn mem_end_offset(&self) -> (r: usize)
        ensures
            r == self.synapse_store().end(),
    {
        self.synapses.mem_end_offset()
    }

    #[inline]
    pub fn tb_start_offset(&self) -> (r: usize)
        ensures
            r == self.node_store().store().tb_start(),
    {
        self.node_chain.tb_start_offset()
    }

    #[inline]
    pub fn tb_end_offset(&self) -> (r: usize)
        ensures
            r == self.synapse_store().tb_end(),
    {
        self.synapses.tb_end_offset()
    }

    #[inline]
    pub fn node_capacity(&self) -> (r: usize)
        ensures
            r == self.node_store().store().cap(),
    {
        self.node_chain.capacity()
    }

    #[inline]
    pub fn synapse_capacity(&self) -> (r: usize)
        ensures
            r == self.synapse_store().cap(),
    {
        self.synapses.capacity()
    }

    #[inline]
    pub fn get_node(&'_ self, mem: &AtomicBuffer, slot: SlotId) -> (r: NodeReader<'_>)
        requires
            self.node_store().store().consistent(),
            self.node_store().store().cfg().core_stride == NODE_STRIDE,
            slot.raw() <= self.node_store().store().cap(),
            self.node_store().store().end() <= mem@.len(),
        ensures
            r.entry().core_zone().buffer() == self.node_store().store().buffer(),
            r.entry().core_zone().zone_start() == self.node_store().store().tb_start() + (slot.raw() - 1)
                * self.node_store().store().block(),
            r.entry().core_zone().width() == NODE_STRIDE,
            r.entry().attr_zone().valid(mem@),
    {
        self.node_chain.get_node(mem, slot)
    }

    #[inline]
    pub fn get_synapse(&'_ self, mem: &AtomicBuffer, slot: SlotId) -> (r: SynapseReader<'_>)
        requires
            self.synapse_store().consistent(),
            self.synapse_store().cfg().core_stride == SYNAPSE_STRIDE,
            slot.raw() <= self.synapse_store().cap(),
            self.synapse_store().end() <= mem@.len(),
        ensures
            r.entry().core_zone().buffer() == self.synapse_store().buffer(),
            r.entry().core_zone().zone_start() == self.synapse_store().tb_start() + (slot.raw() - 1)
                * self.synapse_store().block(),
            r.entry().core_zone().width() == SYNAPSE_STRIDE,
            r.entry().attr_zone().valid(mem@),
    {
        SynapseReader::new(self.synapses.get(mem, slot))
    }

    /// Acknowledges the published generations of both node and synapse removals.
    #[inline]
    pub fn ack_generation(&self, mem: &mut AtomicBuffer)
        requires
            self.node_store().store().staging().valid(old(mem)@),
            self.synapse_store().staging().valid(old(mem)@),
            old(mem)@[self.node_store().store().staging().start()] != i32::MIN,
            ({
                let ns = self.node_store().store().staging().start();
                let m1 = old(mem)@.update(ns + 1, (old(mem)@[ns] - 1) as i32);
                m1[self.synapse_store().staging().start()] != i32::MIN
            }),
        ensures
            ({
                let ns = self.node_store().store().staging().start();
                let ss = self.synapse_store().staging().start();
                let m1 = old(mem)@.update(ns + 1, (old(mem)@[ns] - 1) as i32);
                final(mem)@ == m1.update(ss + 1, (m1[ss] - 1) as i32)
            }),
    {
        self.node_chain.ack_generation(mem);
        self.synapses.ack_generation(mem);
    }
}

} // verus!
