use crate::primitives::mem_zone_reader::MemZoneReader;
use crate::primitives::tb_zone_reader::TbZoneReader;
use crate::primitives::types::{AtomicBuffer};
use vstd::prelude::*;

verus! {

/// Consumer-side structural facade for an entry spanning three zones: `core`
/// and `meta` on the triple-buffer plane, `attr` on the mem plane.
///
/// Read-only: structural mutation is prohibited on the reading plane.
pub struct EntryReader<'a> {
    core: TbZoneReader<'a>,
    meta: TbZoneReader<'a>,
    attr: MemZoneReader,
}

impl<'a> EntryReader<'a> {
    pub closed spec fn core_zone(&self) -> TbZoneReader<'a> {
        self.core
    }

    pub closed spec fn meta_zone(&self) -> TbZoneReader<'a> {
        self.meta
    }

    pub closed spec fn attr_zone(&self) -> MemZoneReader {
        self.attr
    }

    /// All three zones lie inside `mem`.
    pub open spec fn valid(&self, mem: Seq<i32>) -> bool {
        &&& self.core_zone().valid(mem)
        &&& self.meta_zone().valid(mem)
        &&& self.attr_zone().valid(mem)
    }

    pub fn new(core: TbZoneReader<'a>, meta: TbZoneReader<'a>, attributes: MemZoneReader) -> (r: Self)
        ensures
            r.core_zone() == core,
            r.meta_zone() == meta,
            r.attr_zone() == attributes,
    {
        EntryReader { core, meta, attr: attributes }
    }

    #[inline]
    pub fn core_read(&self, mem: &AtomicBuffer, offset: usize) -> (r: i32)
        requires
            self.valid(mem@),
            offset < self.core_zone().width(),
        ensures
            r == self.core_zone().view(mem@)[offset as int],
    {
        self.core.read(mem, offset)
    }

    #[inline]
    pub fn core_read_all(&self, mem: &AtomicBuffer, out: &mut [i32])
        requires
            self.valid(mem@),
            old(out)@.len() == self.core_zone().width(),
        ensures
            final(out)@ == self.core_zone().view(mem@),
    {
        self.core.read_all(mem, out)
    }

    #[inline]
    pub fn meta_read(&self, mem: &AtomicBuffer, offset: usize) -> (r: i32)
        requires
            self.valid(mem@),
            offset < self.meta_zone().width(),
        ensures
            r == self.meta_zone().view(mem@)[offset as int],
    {
        self.meta.read(mem, offset)
    }

    #[inline]
    pub fn meta_read_all(&self, mem: &AtomicBuffer, out: &mut [i32])
        requires
            self.valid(mem@),
            old(out)@.len() == self.meta_zone().width(),
        ensures
            final(out)@ == self.meta_zone().view(mem@),
    {
        self.meta.read_all(mem, out)
    }

    #[inline]
    pub fn attr_read(&self, mem: &AtomicBuffer, offset: usize) -> (r: i32)
        requires
            self.valid(mem@),
            offset < self.attr_zone().width(),
        ensures
            r == self.attr_zone().view(mem@)[offset as int],
    {
        self.attr.read(mem, offset)
    }

    #[inline]
    pub fn attr_read_all(&self, mem: &AtomicBuffer, out: &mut [i32])
        requires
            self.valid(mem@),
            old(out)@.len() == self.attr_zone().width(),
        ensures
            final(out)@ == self.attr_zone().view(mem@),
    {
        self.attr.read_all(mem, out)
    }
}

} // verus!
