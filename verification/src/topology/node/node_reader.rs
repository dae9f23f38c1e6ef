use crate::constants::NODE_STRIDE;
use crate::primitives::entry_reader::EntryReader;
use crate::primitives::slot::{SlotId, decodes};
use crate::primitives::types::AtomicBuffer;
use crate::topology::node::node_writer::{kind_of, lemma_kind_range};
use vstd::prelude::*;

verus! {

/// Consumer-side read-only facade for a graph node; same core layout as
/// `NodeWriter`.
pub struct NodeReader<'a> {
    entry: EntryReader<'a>,
}

impl<'a> NodeReader<'a> {
    pub closed spec fn entry(&self) -> EntryReader<'a> {
        self.entry
    }

    /// The entry's zones lie inside `mem` and its core zone has the fixed width.
    pub open spec fn valid(&self, mem: Seq<i32>) -> bool {
        &&& self.entry().valid(mem)
        &&& self.entry().core_zone().width() == NODE_STRIDE
    }

    /// The core cells of the entry.
    pub open spec fn cells(&self, mem: Seq<i32>) -> Seq<i32> {
        self.entry().core_zone().view(mem)
    }

    pub fn new(entry: EntryReader<'a>) -> (r: Self)
        ensures
            r.entry() == entry,
    {
        NodeReader { entry }
    }

    #[inline]
    pub fn get_kind(&self, mem: &AtomicBuffer) -> (r: i32)
        requires
            self.valid(mem@),
        ensures
            r == kind_of(self.cells(mem@)[0]),
            0 <= r < 256,
    {
        let v = self.entry.core_read(mem, 0);
        proof {
            lemma_kind_range(v);
        }
        ((v as u32) >> 24u32) as i32
    }

    #[inline]
    pub fn get_next_ptr(&self, mem: &AtomicBuffer) -> (r: Option<SlotId>)
        requires
            self.valid(mem@),
        ensures
            decodes(r, self.cells(mem@)[1]),
    {
        SlotId::from_i32(self.entry.core_read(mem, 1))
    }

    #[inline]
    pub fn get_prev_ptr(&self, mem: &AtomicBuffer) -> (r: Option<SlotId>)
        requires
            self.valid(mem@),
        ensures
            decodes(r, self.cells(mem@)[2]),
    {
        SlotId::from_i32(self.entry.core_read(mem, 2))
    }

    #[inline]
    pub fn get_outgoing_synapse_head(&self, mem: &AtomicBuffer) -> (r: Option<SlotId>)
        requires
            self.valid(mem@),
        ensures
            decodes(r, self.cells(mem@)[3]),
    {
        SlotId::from_i32(self.entry.core_read(mem, 3))
    }

    #[inline]
    pub fn get_outgoing_synapse_tail(&self, mem: &AtomicBuffer) -> (r: Option<SlotId>)
        requires
            self.valid(mem@),
        ensures
            decodes(r, self.cells(mem@)[4]),
    {
        SlotId::from_i32(self.entry.core_read(mem, 4))
    }

    #[inline]
    pub fn get_incoming_synapse_head(&self, mem: &AtomicBuffer) -> (r: Option<SlotId>)
        requires
            self.valid(mem@),
        ensures
            decodes(r, self.cells(mem@)[5]),
    {
        SlotId::from_i32(self.entry.core_read(mem, 5))
    }

    #[inline]
    pub fn get_incoming_synapse_tail(&self, mem: &AtomicBuffer) -> (r: Option<SlotId>)
        requires
            self.valid(mem@),
        ensures
            decodes(r, self.cells(mem@)[6]),
    {
        SlotId::from_i32(self.entry.core_read(mem, 6))
    }

    #[inline]
    pub fn get_meta(&self, mem: &AtomicBuffer, offset: usize) -> (r: i32)
        requires
            self.valid(mem@),
            offset < self.entry().meta_zone().width(),
        ensures
            r == self.entry().meta_zone().view(mem@)[offset as int],
    {
        self.entry.meta_read(mem, offset)
    }

    #[inline]
    pub fn get_meta_all(&self, mem: &AtomicBuffer, out: &mut [i32])
        requires
            self.valid(mem@),
            old(out)@.len() == self.entry().meta_zone().width(),
        ensures
            final(out)@ == self.entry().meta_zone().view(mem@),
    {
        self.entry.meta_read_all(mem, out)
    }

    #[inline]
    pub fn attr_read(&self, mem: &AtomicBuffer, offset: usize) -> (r: i32)
        requires
            self.valid(mem@),
            offset < self.entry().attr_zone().width(),
        ensures
            r == self.entry().attr_zone().view(mem@)[offset as int],
    {
        self.entry.attr_read(mem, offset)
    }

    #[inline]
    pub fn attr_read_all(&self, mem: &AtomicBuffer, out: &mut [i32])
        requires
            self.valid(mem@),
            old(out)@.len() == self.entry().attr_zone().width(),
        ensures
            final(out)@ == self.entry().attr_zone().view(mem@),
    {
        self.entry.attr_read_all(mem, out)
    }
}

} // verus!
