use crate::constants::NODE_STRIDE;
use crate::primitives::entry_writer::EntryWriter;
use crate::primitives::slot::{SlotId, decodes, encode_slot};
use crate::primitives::types::{AtomicBuffer, write_cells};
use vstd::prelude::*;

verus! {

/// The kind stored in the top byte of a core cell.
pub open spec fn kind_of(v: i32) -> i32 {
    ((v as u32) >> 24u32) as i32
}

/// `v` with its top byte replaced by `kind`; the lower 24 bits are kept.
pub open spec fn with_kind(v: i32, kind: i32) -> i32 {
    (v & 0xFF_FFFFi32) | (kind << 24u32)
}

/// Writing a kind and reading it back gives the kind; the lower bits stay.
pub proof fn lemma_kind_roundtrip(v: i32, kind: i32)
    requires
        0 <= kind < 256,
    ensures
        kind_of(with_kind(v, kind)) == kind,
        with_kind(v, kind) & 0xFF_FFFFi32 == v & 0xFF_FFFFi32,
{
    assert((((((v & 0xFF_FFFFi32) | (kind << 24u32)) as u32) >> 24u32) as i32) == kind) by (bit_vector)
        requires
            0 <= kind < 256,
    ;
    assert((((v & 0xFF_FFFFi32) | (kind << 24u32)) & 0xFF_FFFFi32) == (v & 0xFF_FFFFi32)) by (bit_vector)
        requires
            0 <= kind < 256,
    ;
}

/// A kind is one byte.
pub proof fn lemma_kind_range(v: i32)
    ensures
        0 <= kind_of(v) < 256,
{
    assert(0 <= (((v as u32) >> 24u32) as i32) < 256) by (bit_vector);
}

/// Producer-side structural facade for a graph node.
///
/// # Core Layout (8x i32)
/// - `0`: `kind` in the top byte; the lower 24 bits are kept for internal flags.
/// - `1`: `next_ptr`
/// - `2`: `prev_ptr`
/// - `3`: `outgoing_synapse_head`
/// - `4`: `outgoing_synapse_tail`
/// - `5`: `incoming_synapse_head`
/// - `6`: `incoming_synapse_tail`
/// - `7`: reserved
///
/// Followed by `meta_stride` cells of topology metadata.
pub struct NodeWriter<'a> {
    entry: EntryWriter<'a>,
}

impl<'a> NodeWriter<'a> {
    pub closed spec fn entry(&self) -> EntryWriter<'a> {
        self.entry
    }

    /// The entry's zones lie inside `mem` and its core zone has the fixed width.
    pub open spec fn valid(&self, mem: Seq<i32>) -> bool {
        &&& self.entry().valid(mem)
        &&& self.entry().core_zone().width() == NODE_STRIDE
    }

    /// The core cells of the entry.
    pub open spec fn cells(&self, mem: Seq<i32>) -> Seq<i32> {
        self.entry().core_zone().view(mem)
    }

    pub fn new(entry: EntryWriter<'a>) -> (r: Self)
        ensures
            r.entry() == entry,
    {
        NodeWriter { entry }
    }

    #[inline]
    pub fn get_kind(&self, mem: &AtomicBuffer) -> (r: i32)
        requires
            self.valid(mem@),
        ensures
            r == kind_of(self.cells(mem@)[0]),
            0 <= r < 256,
    {
        let v = self.entry.core_read(mem, 0);
        proof {
            lemma_kind_range(v);
        }
        ((v as u32) >> 24u32) as i32
    }

    #[inline]
    pub fn set_kind(&self, mem: &mut AtomicBuffer, value: i32)
        requires
            self.valid(old(mem)@),
            0 <= value < 256,
        ensures
            final(mem)@ == old(mem)@.update(
                self.entry().core_zone().base(old(mem)@),
                with_kind(self.cells(old(mem)@)[0], value),
            ),
    {
        let bitmask = self.entry.core_read(mem, 0) & 0xFF_FFFFi32;
        self.entry.core_write(mem, 0, bitmask | (value << 24u32))
    }

    #[inline]
    pub fn get_next_ptr(&self, mem: &AtomicBuffer) -> (r: Option<SlotId>)
        requires
            self.valid(mem@),
        ensures
            decodes(r, self.cells(mem@)[1]),
    {
        SlotId::from_i32(self.entry.core_read(mem, 1))
    }

    #[inline]
    pub fn get_prev_ptr(&self, mem: &AtomicBuffer) -> (r: Option<SlotId>)
        requires
            self.valid(mem@),
        ensures
            decodes(r, self.cells(mem@)[2]),
    {
        SlotId::from_i32(self.entry.core_read(mem, 2))
    }

    #[inline]
    pub fn get_outgoing_synapse_head(&self, mem: &AtomicBuffer) -> (r: Option<SlotId>)
        requires
            self.valid(mem@),
        ensures
            decodes(r, self.cells(mem@)[3]),
    {
        SlotId::from_i32(self.entry.core_read(mem, 3))
    }

    #[inline]
    pub fn get_outgoing_synapse_tail(&self, mem: &AtomicBuffer) -> (r: Option<SlotId>)
        requires
            self.valid(mem@),
        ensures
            decodes(r, self.cells(mem@)[4]),
    {
        SlotId::from_i32(self.entry.core_read(mem, 4))
    }

    #[inline]
    pub fn get_incoming_synapse_head(&self, mem: &AtomicBuffer) -> (r: Option<SlotId>)
        requires
            self.valid(mem@),
        ensures
            decodes(r, self.cells(mem@)[5]),
    {
        SlotId::from_i32(self.entry.core_read(mem, 5))
    }

    #[inline]
    pub fn get_incoming_synapse_tail(&self, mem: &AtomicBuffer) -> (r: Option<SlotId>)
        requires
            self.valid(mem@),
        ensures
            decodes(r, self.cells(mem@)[6]),
    {
        SlotId::from_i32(self.entry.core_read(mem, 6))
    }

    #[inline]
    pub fn set_next_ptr(&self, mem: &mut AtomicBuffer, value: Option<SlotId>)
        requires
            self.valid(old(mem)@),
        ensures
            final(mem)@ == old(mem)@.update(self.entry().core_zone().base(old(mem)@) + 1, encode_slot(value)),
    {
        self.entry.core_write(mem, 1, SlotId::option_to_i32(value))
    }

    #[inline]
    pub fn set_prev_ptr(&self, mem: &mut AtomicBuffer, value: Option<SlotId>)
        requires
            self.valid(old(mem)@),
        ensures
            final(mem)@ == old(mem)@.update(self.entry().core_zone().base(old(mem)@) + 2, encode_slot(value)),
    {
        self.entry.core_write(mem, 2, SlotId::option_to_i32(value))
    }

    #[inline]
    pub fn set_outgoing_synapse_head(&self, mem: &mut AtomicBuffer, value: Option<SlotId>)
        requires
            self.valid(old(mem)@),
        ensures
            final(mem)@ == old(mem)@.update(self.entry().core_zone().base(old(mem)@) + 3, encode_slot(value)),
    {
        self.entry.core_write(mem, 3, SlotId::option_to_i32(value))
    }

    #[inline]
    pub fn set_outgoing_synapse_tail(&self, mem: &mut AtomicBuffer, value: Option<SlotId>)
        requires
            self.valid(old(mem)@),
        ensures
            final(mem)@ == old(mem)@.update(self.entry().core_zone().base(old(mem)@) + 4, encode_slot(value)),
    {
        self.entry.core_write(mem, 4, SlotId::option_to_i32(value))
    }

    #[inline]
    pub fn set_incoming_synapse_head(&self, mem: &mut AtomicBuffer, value: Option<SlotId>)
        requires
            self.valid(old(mem)@),
        ensures
            final(mem)@ == old(mem)@.update(self.entry().core_zone().base(old(mem)@) + 5, encode_slot(value)),
    {
        self.entry.core_write(mem, 5, SlotId::option_to_i32(value))
    }

    #[inline]
    pub fn set_incoming_synapse_tail(&self, mem: &mut AtomicBuffer, value: Option<SlotId>)
        requires
            self.valid(old(mem)@),
        ensures
            final(mem)@ == old(mem)@.update(self.entry().core_zone().base(old(mem)@) + 6, encode_slot(value)),
    {
        self.entry.core_write(mem, 6, SlotId::option_to_i32(value))
    }

    #[inline]
    pub fn get_meta(&self, mem: &AtomicBuffer, offset: usize) -> (r: i32)
        requires
            self.valid(mem@),
            offset < self.entry().meta_zone().width(),
        ensures
            r == self.entry().meta_zone().view(mem@)[offset as int],
    {
        self.entry.meta_read(mem, offset)
    }

    #[inline]
    pub fn get_meta_all(&self, mem: &AtomicBuffer, out: &mut [i32])
        requires
            self.valid(mem@),
            old(out)@.len() == self.entry().meta_zone().width(),
        ensures
            final(out)@ == self.entry().meta_zone().view(mem@),
    {
        self.entry.meta_read_all(mem, out)
    }

    #[inline]
    pub fn set_meta(&self, mem: &mut AtomicBuffer, offset: usize, value: i32)
        requires
            self.valid(old(mem)@),
            offset < self.entry().meta_zone().width(),
        ensures
            final(mem)@ == old(mem)@.update(self.entry().meta_zone().base(old(mem)@) + offset, value),
    {
        self.entry.meta_write(mem, offset, value)
    }

    #[inline]
    pub fn set_meta_all(&self, mem: &mut AtomicBuffer, data: &[i32])
        requires
            self.valid(old(mem)@),
            data@.len() == self.entry().meta_zone().width(),
        ensures
            final(mem)@ == write_cells(old(mem)@, self.entry().meta_zone().base(old(mem)@), data@),
    {
        self.entry.meta_write_all(mem, data)
    }

    #[inline]
    pub fn attr_read(&self, mem: &AtomicBuffer, offset: usize) -> (r: i32)
        requires
            self.valid(mem@),
            offset < self.entry().attr_zone().width(),
        ensures
            r == self.entry().attr_zone().view(mem@)[offset as int],
    {
        self.entry.attr_read(mem, offset)
    }

    #[inline]
    pub fn attr_write(&self, mem: &mut AtomicBuffer, offset: usize, value: i32)
        requires
            self.valid(old(mem)@),
            offset < self.entry().attr_zone().width(),
        ensures
            final(mem)@ == old(mem)@.update(self.entry().attr_zone().start() + offset, value),
    {
        self.entry.attr_write(mem, offset, value)
    }

    #[inline]
    pub fn attr_and(&self, mem: &mut AtomicBuffer, offset: usize, value: i32) -> (r: i32)
        requires
            self.valid(old(mem)@),
            offset < self.entry().attr_zone().width(),
        ensures
            r == old(mem)@[self.entry().attr_zone().start() + offset],
            final(mem)@ == old(mem)@.update(self.entry().attr_zone().start() + offset, r & value),
    {
        self.entry.attr_and(mem, offset, value)
    }

    #[inline]
    pub fn attr_or(&self, mem: &mut AtomicBuffer, offset: usize, value: i32) -> (r: i32)
        requires
            self.valid(old(mem)@),
            offset < self.entry().attr_zone().width(),
        ensures
            r == old(mem)@[self.entry().attr_zone().start() + offset],
            final(mem)@ == old(mem)@.update(self.entry().attr_zone().start() + offset, r | value),
    {
        self.entry.attr_or(mem, offset, value)
    }

    #[inline]
    pub fn attr_read_all(&self, mem: &AtomicBuffer, out: &mut [i32])
        requires
            self.valid(mem@),
            old(out)@.len() == self.entry().attr_zone().width(),
        ensures
            final(out)@ == self.entry().attr_zone().view(mem@),
    {
        self.entry.attr_read_all(mem, out)
    }

    #[inline]
    pub fn attr_write_all(&self, mem: &mut AtomicBuffer, data: &[i32])
        requires
            self.valid(old(mem)@),
            data@.len() == self.entry().attr_zone().width(),
        ensures
            final(mem)@ == write_cells(old(mem)@, self.entry().attr_zone().start(), data@),
    {
        self.entry.attr_write_all(mem, data)
    }

    #[inline]
    pub fn attr_clear_all(&self, mem: &mut AtomicBuffer)
        requires
            self.valid(old(mem)@),
        ensures
            final(mem)@ == write_cells(
                old(mem)@,
                self.entry().attr_zone().start(),
                Seq::new(self.entry().attr_zone().width() as nat, |i: int| 0i32),
            ),
    {
        self.entry.attr_clear_all(mem)
    }
}

} // verus!
