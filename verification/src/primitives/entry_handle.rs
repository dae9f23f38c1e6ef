use crate::primitives::mem_zone_writer::MemZoneWriter;
use crate::primitives::tb_zone_view::TbZoneView;
use crate::primitives::tb_zone_writer::TbZoneWriter;
use crate::primitives::types::{AtomicBuffer, write_cells};
use vstd::prelude::*;

verus! {

/// Producer-side user handle on an entry: the `core` zone is read-only (only
/// the kernel mutates structure), the `meta` and `attr` zones are writable.
pub struct EntryHandle<'a> {
    core: TbZoneView<'a>,
    meta: TbZoneWriter<'a>,
    attr: MemZoneWriter,
}

impl<'a> EntryHandle<'a> {
    pub closed spec fn core_zone(&self) -> TbZoneView<'a> {
        self.core
    }

    pub closed spec fn meta_zone(&self) -> TbZoneWriter<'a> {
        self.meta
    }

    pub closed spec fn attr_zone(&self) -> MemZoneWriter {
        self.attr
    }

    /// All three zones lie inside `mem`.
    pub open spec fn valid(&self, mem: Seq<i32>) -> bool {
        &&& self.core_zone().valid(mem)
        &&& self.meta_zone().valid(mem)
        &&& self.attr_zone().valid(mem)
    }

    pub fn new(core: TbZoneView<'a>, meta: TbZoneWriter<'a>, attributes: MemZoneWriter) -> (r: Self)
        ensures
            r.core_zone() == core,
            r.meta_zone() == meta,
            r.attr_zone() == attributes,
    {
        EntryHandle { core, meta, attr: attributes }
    }

    #[inline]
    pub fn core_read(&self, mem: &AtomicBuffer, offset: usize) -> (r: i32)
        requires
            self.valid(mem@),
            offset < self.core_zone().width(),
        ensures
            r == self.core_zone().view(mem@)[offset as int],
    {
        self.core.read(mem, offset)
    }

    #[inline]
    pub fn core_read_all(&self, mem: &AtomicBuffer, out: &mut [i32])
        requires
            self.valid(mem@),
            old(out)@.len() == self.core_zone().width(),
        ensures
            final(out)@ == self.core_zone().view(mem@),
    {
        self.core.read_all(mem, out)
    }

    #[inline]
    pub fn meta_read(&self, mem: &AtomicBuffer, offset: usize) -> (r: i32)
        requires
            self.valid(mem@),
            offset < self.meta_zone().width(),
        ensures
            r == self.meta_zone().view(mem@)[offset as int],
    {
        self.meta.read(mem, offset)
    }

    #[inline]
    pub fn meta_read_all(&self, mem: &AtomicBuffer, out: &mut [i32])
        requires
            self.valid(mem@),
            old(out)@.len() == self.meta_zone().width(),
        ensures
            final(out)@ == self.meta_zone().view(mem@),
    {
        self.meta.read_all(mem, out)
    }

    #[inline]
    pub fn meta_write(&self, mem: &mut AtomicBuffer, offset: usize, value: i32)
        requires
            self.valid(old(mem)@),
            offset < self.meta_zone().width(),
        ensures
            final(mem)@ == old(mem)@.update(self.meta_zone().base(old(mem)@) + offset, value),
    {
        self.meta.write(mem, offset, value)
    }

    #[inline]
    pub fn meta_write_all(&self, mem: &mut AtomicBuffer, data: &[i32])
        requires
            self.valid(old(mem)@),
            data@.len() == self.meta_zone().width(),
        ensures
            final(mem)@ == write_cells(old(mem)@, self.meta_zone().base(old(mem)@), data@),
    {
        self.meta.write_all(mem, data)
    }

    #[inline]
    pub fn attr_read(&self, mem: &AtomicBuffer, offset: usize) -> (r: i32)
        requires
            self.valid(mem@),
            offset < self.attr_zone().width(),
        ensures
            r == self.attr_zone().view(mem@)[offset as int],
    {
        self.attr.read(mem, offset)
    }

    #[inline]
    pub fn attr_read_all(&self, mem: &AtomicBuffer, out: &mut [i32])
        requires
            self.valid(mem@),
            old(out)@.len() == self.attr_zone().width(),
        ensures
            final(out)@ == self.attr_zone().view(mem@),
    {
        self.attr.read_all(mem, out)
    }

    #[inline]
    pub fn attr_write(&self, mem: &mut AtomicBuffer, offset: usize, value: i32)
        requires
            self.valid(old(mem)@),
            offset < self.attr_zone().width(),
        ensures
            final(mem)@ == old(mem)@.update(self.attr_zone().start() + offset, value),
    {
        self.attr.write(mem, offset, value)
    }

    #[inline]
    pub fn attr_and(&self, mem: &mut AtomicBuffer, offset: usize, value: i32) -> (r: i32)
        requires
            self.valid(old(mem)@),
            offset < self.attr_zone().width(),
        ensures
            r == old(mem)@[self.attr_zone().start() + offset],
            final(mem)@ == old(mem)@.update(self.attr_zone().start() + offset, r & value),
    {
        self.attr.and(mem, offset, value)
    }

    #[inline]
    pub fn attr_or(&self, mem: &mut AtomicBuffer, offset: usize, value: i32) -> (r: i32)
        requires
            self.valid(old(mem)@),
            offset < self.attr_zone().width(),
        ensures
            r == old(mem)@[self.attr_zone().start() + offset],
            final(mem)@ == old(mem)@.update(self.attr_zone().start() + offset, r | value),
    {
        self.attr.or(mem, offset, value)
    }

    #[inline]
    pub fn attr_write_all(&self, mem: &mut AtomicBuffer, data: &[i32])
        requires
            self.valid(old(mem)@),
            data@.len() == self.attr_zone().width(),
        ensures
            final(mem)@ == write_cells(old(mem)@, self.attr_zone().start(), data@),
    {
        self.attr.write_all(mem, data)
    }

    #[inline]
    pub fn attr_clear_all(&self, mem: &mut AtomicBuffer)
        requires
            self.valid(old(mem)@),
        ensures
            final(mem)@ == write_cells(
                old(mem)@,
                self.attr_zone().start(),
                Seq::new(self.attr_zone().width() as nat, |i: int| 0i32),
            ),
    {
        self.attr.clear(mem)
    }
}

} // verus!
