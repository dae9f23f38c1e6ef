use crate::constants::NODE_STRIDE;
use crate::primitives::entry_store_reader::EntryStoreReader;
use crate::primitives::slot::SlotId;
use crate::primitives::types::AtomicBuffer;
use crate::topology::node::node_reader::NodeReader;
use vstd::prelude::*;

verus! {

/// Consumer-side mirror of a node store: read-only traversal of the nodes.
///
/// Slots are 1-based; 0 means "no slot". Created by `NodeStoreWriter::to_reader()`.
#[derive(Clone, Copy)]
pub struct NodeStoreReader {
    pub(crate) nodes: EntryStoreReader,
}

impl NodeStoreReader {
    pub closed spec fn store(&self) -> EntryStoreReader {
        self.nodes
    }

    pub(crate) fn bind(es: EntryStoreReader) -> (r: Self)
        ensures
            r.store() == es,
    {
        NodeStoreReader { nodes: es }
    }

    #[inline]
    pub fn tb_start_offset(&self) -> (r: usize)
        ensures
            r == self.store().tb_start(),
    {
        self.nodes.tb_start_offset()
    }

    #[inline]
    pub fn tb_end_offset(&self) -> (r: usize)
        ensures
            r == self.store().tb_end(),
    {
        self.nodes.tb_end_offset()
    }

    #[inline]
    pub fn capacity(&self) -> (r: usize)
        ensures
            r == self.store().cap(),
    {
        self.nodes.capacity()
    }

    /// The node in `slot`, as the reader buffer holds it.
    #[inline]
    pub fn get_node(&'_ self, mem: &AtomicBuffer, slot: SlotId) -> (r: NodeReader<'_>)
        requires
            self.store().consistent(),
            self.store().cfg().core_stride == NODE_STRIDE,
            slot.raw() <= self.store().cap(),
            self.store().end() <= mem@.len(),
        ensures
            r.entry().core_zone().buffer() == self.store().buffer(),
            r.entry().core_zone().zone_start() == self.store().tb_start() + (slot.raw() - 1)
                * self.store().block(),
            r.entry().core_zone().width() == NODE_STRIDE,
            r.entry().meta_zone().zone_start() == self.store().tb_start() + (slot.raw() - 1)
                * self.store().block() + NODE_STRIDE,
            r.entry().meta_zone().width() == self.store().cfg().meta_stride,
            r.entry().attr_zone().start() == self.store().attrs_start() + (slot.raw() - 1)
                * self.store().cfg().attr_stride,
            r.entry().attr_zone().width() == self.store().cfg().attr_stride,
            r.entry().attr_zone().valid(mem@),
    {
        NodeReader::new(self.nodes.get(mem, slot))
    }

    /// Acknowledges the writer's published generation of node removals.
    #[inline]
    pub fn ack_generation(&self, mem: &mut AtomicBuffer)
        requires
            self.store().staging().valid(old(mem)@),
            old(mem)@[self.store().staging().start()] != i32::MIN,
        ensures
            final(mem)@ == old(mem)@.update(
                self.store().staging().start() + 1,
                (old(mem)@[self.store().staging().start()] - 1) as i32,
            ),
            final(mem)@.len() == old(mem)@.len(),
    {
        self.nodes.ack_generation(mem)
    }
}

} // verus!
