use crate::constants::SYNAPSE_STRIDE;
use crate::primitives::entry_writer::EntryWriter;
use crate::primitives::slot::{SlotId, decodes, encode_slot};
use crate::primitives::types::{AtomicBuffer, write_cells};
use crate::topology::node::node_writer::{kind_of, lemma_kind_range, with_kind};
use vstd::prelude::*;

verus! {

/// Producer-side structural facade for a graph synapse.
///
/// # Core Layout (8x i32)
/// - `0`: `kind` in the top byte; the lower 24 bits are kept for internal flags.
/// - `1`: `source_ptr` (node slot)
/// - `2`: `target_ptr` (node slot)
/// - `3`: `outgoing_next_ptr` (next synapse leaving the source)
/// - `4`: `outgoing_prev_ptr`
/// - `5`: `incoming_next_ptr` (next synapse entering the target)
/// - `6`: `incoming_prev_ptr`
/// - `7`: reserved
pub struct SynapseWriter<'a> {
    entry: EntryWriter<'a>,
}

impl<'a> SynapseWriter<'a> {
    pub closed spec fn entry(&self) -> EntryWriter<'a> {
        self.entry
    }

    /// The entry's zones lie inside `mem` and its core zone has the fixed width.
    pub open spec fn valid(&self, mem: Seq<i32>) -> bool {
        &&& self.entry().valid(mem)
        &&& self.entry().core_zone().width() == SYNAPSE_STRIDE
    }

    /// The core cells of the entry.
    pub open spec fn cells(&self, mem: Seq<i32>) -> Seq<i32> {
        self.entry().core_zone().view(mem)
    }

    pub fn new(entry: EntryWriter<'a>) -> (r: Self)
        ensures
            r.entry() == entry,
    {
        SynapseWriter { entry }
    }

    #[inline]
    pub fn get_kind(&self, mem: &AtomicBuffer) -> (r: i32)
        requires
            self.valid(mem@),
        ensures
            r == kind_of(self.cells(mem@)[0]),
            0 <= r < 256,
    {
        let v = self.entry.core_read(mem, 0);
        proof {
            lemma_kind_range(v);
        }
        ((v as u32) >> 24u32) as i32
    }

    #[inline]
    pub fn set_kind(&self, mem: &mut AtomicBuffer, value: i32)
        requires
            self.valid(old(mem)@),
            0 <= value < 256,
        ensures
            final(mem)@ == old(mem)@.update(
                self.entry().core_zone().base(old(mem)@),
                with_kind(self.cells(old(mem)@)[0], value),
            ),
    {
        let bitmask = self.entry.core_read(mem, 0) & 0xFF_FFFFi32;
        self.entry.core_write(mem, 0, bitmask | (value << 24u32))
    }

    /// The synapse's source node; set on every live synapse.
    #[inline]
    pub fn get_source_ptr(&self, mem: &AtomicBuffer) -> (r: SlotId)
        requires
            self.valid(mem@),
            self.cells(mem@)[1] > 0,
        ensures
            r.raw() == self.cells(mem@)[1],
    {
        SlotId::from_i32(self.entry.core_read(mem, 1)).unwrap()
    }

    /// The synapse's target node; set on every live synapse.
    #[inline]
    pub fn get_target_ptr(&self, mem: &AtomicBuffer) -> (r: SlotId)
        requires
            self.valid(mem@),
            self.cells(mem@)[2] > 0,
        ensures
            r.raw() == self.cells(mem@)[2],
    {
        SlotId::from_i32(self.entry.core_read(mem, 2)).unwrap()
    }

    #[inline]
    pub fn get_outgoing_next_ptr(&self, mem: &AtomicBuffer) -> (r: Option<SlotId>)
        requires
            self.valid(mem@),
        ensures
            decodes(r, self.cells(mem@)[3]),
    {
        SlotId::from_i32(self.entry.core_read(mem, 3))
    }

    #[inline]
    pub fn get_outgoing_prev_ptr(&self, mem: &AtomicBuffer) -> (r: Option<SlotId>)
        requires
            self.valid(mem@),
        ensures
            decodes(r, self.cells(mem@)[4]),
    {
        SlotId::from_i32(self.entry.core_read(mem, 4))
    }

    #[inline]
    pub fn get_incoming_next_ptr(&self, mem: &AtomicBuffer) -> (r: Option<SlotId>)
        requires
            self.valid(mem@),
        ensures
            decodes(r, self.cells(mem@)[5]),
    {
        SlotId::from_i32(self.entry.core_read(mem, 5))
    }

    #[inline]
    pub fn get_incoming_prev_ptr(&self, mem: &AtomicBuffer) -> (r: Option<SlotId>)
        requires
            self.valid(mem@),
        ensures
            decodes(r, self.cells(mem@)[6]),
    {
        SlotId::from_i32(self.entry.core_read(mem, 6))
    }

    #[inline]
    pub fn set_source_ptr(&self, mem: &mut AtomicBuffer, value: SlotId)
        requires
            self.valid(old(mem)@),
        ensures
            final(mem)@ == old(mem)@.update(self.entry().core_zone().base(old(mem)@) + 1, value.raw() as i32),
    {
        self.entry.core_write(mem, 1, value.to_i32())
    }

    #[inline]
    pub fn set_target_ptr(&self, mem: &mut AtomicBuffer, value: SlotId)
        requires
            self.valid(old(mem)@),
        ensures
            final(mem)@ == old(mem)@.update(self.entry().core_zone().base(old(mem)@) + 2, value.raw() as i32),
    {
        self.entry.core_write(mem, 2, value.to_i32())
    }

    #[inline]
    pub fn set_outgoing_next_ptr(&self, mem: &mut AtomicBuffer, value: Option<SlotId>)
        requires
            self.valid(old(mem)@),
        ensures
            final(mem)@ == old(mem)@.update(self.entry().core_zone().base(old(mem)@) + 3, encode_slot(value)),
    {
        self.entry.core_write(mem, 3, SlotId::option_to_i32(value))
    }

    #[inline]
    pub fn set_outgoing_prev_ptr(&self, mem: &mut AtomicBuffer, value: Option<SlotId>)
        requires
            self.valid(old(mem)@),
        ensures
            final(mem)@ == old(mem)@.update(self.entry().core_zone().base(old(mem)@) + 4, encode_slot(value)),
    {
        self.entry.core_write(mem, 4, SlotId::option_to_i32(value))
    }

    #[inline]
    pub fn set_incoming_next_ptr(&self, mem: &mut AtomicBuffer, value: Option<SlotId>)
        requires
            self.valid(old(mem)@),
        ensures
            final(mem)@ == old(mem)@.update(self.entry().core_zone().base(old(mem)@) + 5, encode_slot(value)),
    {
        self.entry.core_write(mem, 5, SlotId::option_to_i32(value))
    }

    #[inline]
    pub fn set_incoming_prev_ptr(&self, mem: &mut AtomicBuffer, value: Option<SlotId>)
        requires
            self.valid(old(mem)@),
        ensures
            final(mem)@ == old(mem)@.update(self.entry().core_zone().base(old(mem)@) + 6, encode_slot(value)),
    {
        self.entry.core_write(mem, 6, SlotId::option_to_i32(value))
    }

    #[inline]
    pub fn get_meta(&self, mem: &AtomicBuffer, offset: usize) -> (r: i32)
        requires
            self.valid(mem@),
            offset < self.entry().meta_zone().width(),
        ensures
            r == self.entry().meta_zone().view(mem@)[offset as int],
    {
        self.entry.meta_read(mem, offset)
    }

    #[inline]
    pub fn get_meta_all(&self, mem: &AtomicBuffer, out: &mut [i32])
        requires
            self.valid(mem@),
            old(out)@.len() == self.entry().meta_zone().width(),
        ensures
            final(out)@ == self.entry().meta_zone().view(mem@),
    {
        self.entry.meta_read_all(mem, out)
    }

    #[inline]
    pub fn set_meta(&self, mem: &mut AtomicBuffer, offset: usize, value: i32)
        requires
            self.valid(old(mem)@),
            offset < self.entry().meta_zone().width(),
        ensures
            final(mem)@ == old(mem)@.update(self.entry().meta_zone().base(old(mem)@) + offset, value),
    {
        self.entry.meta_write(mem, offset, value)
    }

    #[inline]
    pub fn set_meta_all(&self, mem: &mut AtomicBuffer, data: &[i32])
        requires
            self.valid(old(mem)@),
            data@.len() == self.entry().meta_zone().width(),
        ensures
            final(mem)@ == write_cells(old(mem)@, self.entry().meta_zone().base(old(mem)@), data@),
    {
        self.entry.meta_write_all(mem, data)
    }

    #[inline]
    pub fn attr_read(&self, mem: &AtomicBuffer, offset: usize) -> (r: i32)
        requires
            self.valid(mem@),
            offset < self.entry().attr_zone().width(),
        ensures
            r == self.entry().attr_zone().view(mem@)[offset as int],
    {
        self.entry.attr_read(mem, offset)
    }

    #[inline]
    pub fn attr_write(&self, mem: &mut AtomicBuffer, offset: usize, value: i32)
        requires
            self.valid(old(mem)@),
            offset < self.entry().attr_zone().width(),
        ensures
            final(mem)@ == old(mem)@.update(self.entry().attr_zone().start() + offset, value),
    {
        self.entry.attr_write(mem, offset, value)
    }

    #[inline]
    pub fn attr_and(&self, mem: &mut AtomicBuffer, offset: usize, value: i32) -> (r: i32)
        requires
            self.valid(old(mem)@),
            offset < self.entry().attr_zone().width(),
        ensures
            r == old(mem)@[self.entry().attr_zone().start() + offset],
            final(mem)@ == old(mem)@.update(self.entry().attr_zone().start() + offset, r & value),
    {
        self.entry.attr_and(mem, offset, value)
    }

    #[inline]
    pub fn attr_or(&self, mem: &mut AtomicBuffer, offset: usize, value: i32) -> (r: i32)
        requires
            self.valid(old(mem)@),
            offset < self.entry().attr_zone().width(),
        ensures
            r == old(mem)@[self.entry().attr_zone().start() + offset],
            final(mem)@ == old(mem)@.update(self.entry().attr_zone().start() + offset, r | value),
    {
        self.entry.attr_or(mem, offset, value)
    }

    #[inline]
    pub fn attr_read_all(&self, mem: &AtomicBuffer, out: &mut [i32])
        requires
            self.valid(mem@),
            old(out)@.len() == self.entry().attr_zone().width(),
        ensures
            final(out)@ == self.entry().attr_zone().view(mem@),
    {
        self.entry.attr_read_all(mem, out)
    }

    #[inline]
    pub fn attr_write_all(&self, mem: &mut AtomicBuffer, data: &[i32])
        requires
            self.valid(old(mem)@),
            data@.len() == self.entry().attr_zone().width(),
        ensures
            final(mem)@ == write_cells(old(mem)@, self.entry().attr_zone().start(), data@),
    {
        self.entry.attr_write_all(mem, data)
    }

    #[inline]
    pub fn attr_clear_all(&self, mem: &mut AtomicBuffer)
        requires
            self.valid(old(mem)@),
        ensures
            final(mem)@ == write_cells(
                old(mem)@,
                self.entry().attr_zone().start(),
                Seq::new(self.entry().attr_zone().width() as nat, |i: int| 0i32),
            ),
    {
        self.entry.attr_clear_all(mem)
    }
}

} // verus!
