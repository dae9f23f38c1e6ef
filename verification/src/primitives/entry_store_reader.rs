use crate::primitives::entry_reader::EntryReader;
use crate::primitives::entry_store_config::{EntryStoreConfig, entry_mem_size, entry_tb_size};
use crate::primitives::mem_zone_reader::MemZoneReader;
use crate::primitives::slot::SlotId;
use crate::primitives::slot_allocator::SlotAllocator;
use crate::primitives::staging_buffer_reader::StagingBufferReader;
use crate::primitives::tb_zone_reader::TbZoneReader;
use crate::primitives::triple_buffer_reader::TripleBufferReader;
use crate::primitives::triple_buffer_writer::tb_reader_id;
use crate::primitives::types::{AtomicBuffer, cells};
use vstd::prelude::*;

verus! {

/// Consumer side of an entity store: read-only access to the per-slot zones
/// and the acknowledgement of deferred-deletion generations.
#[derive(Clone, Copy)]
pub struct EntryStoreReader {
    tb: TripleBufferReader,
    staging_buffer_reader: StagingBufferReader,
    config: EntryStoreConfig,
    mem_start_offset: usize,
    mem_attrs_start_offset: usize,
    mem_end_offset: usize,
    tb_start_offset: usize,
    tb_end_offset: usize,
}

impl EntryStoreReader {
    pub closed spec fn buffer(&self) -> TripleBufferReader {
        self.tb
    }

    pub closed spec fn staging(&self) -> StagingBufferReader {
        self.staging_buffer_reader
    }

    pub closed spec fn cfg(&self) -> EntryStoreConfig {
        self.config
    }

    pub closed spec fn start(&self) -> int {
        self.mem_start_offset as int
    }

    pub closed spec fn attrs_start(&self) -> int {
        self.mem_attrs_start_offset as int
    }

    pub closed spec fn end(&self) -> int {
        self.mem_end_offset as int
    }

    pub closed spec fn tb_start(&self) -> int {
        self.tb_start_offset as int
    }

    pub closed spec fn tb_end(&self) -> int {
        self.tb_end_offset as int
    }

    pub open spec fn cap(&self) -> int {
        self.cfg().capacity as int
    }

    pub open spec fn block(&self) -> int {
        self.cfg().core_stride + self.cfg().meta_stride
    }

    /// The recorded regions agree with the configuration, as for a reader made
    /// by `EntryStoreWriter::to_reader()`.
    pub open spec fn consistent(&self) -> bool {
        &&& self.tb_end() == self.tb_start() + self.cap() * self.block()
        &&& self.end() == self.attrs_start() + self.cap() * self.cfg().attr_stride
        &&& self.tb_end() <= self.buffer().cap()
        &&& self.buffer().wf()
        &&& self.block() <= usize::MAX
    }

    /// First cell (in the reader buffer) of the block of slot index `i`.
    pub open spec fn block_base(&self, mem: Seq<i32>, i: int) -> int {
        self.buffer().reader_base(mem) + self.tb_start() + i * self.block()
    }

    /// The core zones of all slots in the reader buffer.
    pub open spec fn core_view(&self, mem: Seq<i32>) -> Seq<Seq<i32>> {
        Seq::new(
            self.cap() as nat,
            |i: int| cells(mem, self.block_base(mem, i), self.cfg().core_stride as int),
        )
    }

    /// The meta zones of all slots in the reader buffer.
    pub open spec fn meta_view(&self, mem: Seq<i32>) -> Seq<Seq<i32>> {
        Seq::new(
            self.cap() as nat,
            |i: int|
                cells(
                    mem,
                    self.block_base(mem, i) + self.cfg().core_stride,
                    self.cfg().meta_stride as int,
                ),
        )
    }

    /// The attribute zones of all slots.
    pub open spec fn attr_view(&self, mem: Seq<i32>) -> Seq<Seq<i32>> {
        Seq::new(
            self.cap() as nat,
            |i: int|
                cells(
                    mem,
                    self.attrs_start() + i * self.cfg().attr_stride,
                    self.cfg().attr_stride as int,
                ),
        )
    }

    pub fn bind(
        mem: &AtomicBuffer,
        tb: TripleBufferReader,
        staging_buffer_reader: StagingBufferReader,
        config: EntryStoreConfig,
        mem_start_offset: usize,
        mem_attrs_start_offset: usize,
        mem_end_offset: usize,
        tb_start_offset: usize,
        tb_end_offset: usize,
    ) -> (r: Self)
        requires
            mem_end_offset <= mem@.len(),
            tb_end_offset <= tb.cap(),
        ensures
            r.buffer() == tb,
            r.staging() == staging_buffer_reader,
            r.cfg() == config,
            r.start() == mem_start_offset,
            r.attrs_start() == mem_attrs_start_offset,
            r.end() == mem_end_offset,
            r.tb_start() == tb_start_offset,
            r.tb_end() == tb_end_offset,
    {
        EntryStoreReader {
            tb,
            staging_buffer_reader,
            config,
            mem_start_offset,
            mem_attrs_start_offset,
            mem_end_offset,
            tb_start_offset,
            tb_end_offset,
        }
    }

    pub fn calculate_size_on_mem(config: &EntryStoreConfig) -> (r: usize)
        requires
            config.mem_size() <= usize::MAX,
        ensures
            r == entry_mem_size(config.capacity as int, config.attr_stride as int),
    {
        config.size_on_mem()
    }

    #[inline]
    pub(crate) fn calculate_struct_zone_base(tb_start_offset: usize, slot: SlotId, config: &EntryStoreConfig) -> (r: usize)
        requires
            tb_start_offset + (slot.raw() - 1) * (config.core_stride + config.meta_stride) <= usize::MAX,
            config.core_stride + config.meta_stride <= usize::MAX,
        ensures
            r == tb_start_offset + (slot.raw() - 1) * (config.core_stride + config.meta_stride),
    {
        let s = slot.to_usize() - 1;
        proof {
            assert(0 <= s * (config.core_stride + config.meta_stride)) by (nonlinear_arith)
                requires
                    0 <= s,
                    0 <= config.core_stride + config.meta_stride,
            ;
        }
        tb_start_offset + s * (config.core_stride + config.meta_stride)
    }

    #[inline]
    pub(crate) fn calculate_attr_zone_base(mem_attrs_start_offset: usize, slot: SlotId, config: &EntryStoreConfig) -> (r: usize)
        requires
            mem_attrs_start_offset + (slot.raw() - 1) * config.attr_stride <= usize::MAX,
        ensures
            r == mem_attrs_start_offset + (slot.raw() - 1) * config.attr_stride,
    {
        let s = slot.to_usize() - 1;
        proof {
            assert(0 <= s * config.attr_stride) by (nonlinear_arith)
                requires
                    0 <= s,
                    0 <= config.attr_stride,
            ;
        }
        mem_attrs_start_offset + s * config.attr_stride
    }

    pub fn calculate_size_on_tb(config: &EntryStoreConfig) -> (r: usize)
        requires
            config.core_stride + config.meta_stride <= usize::MAX,
            config.tb_size() <= usize::MAX,
        ensures
            r == entry_tb_size(config.capacity as int, config.core_stride as int, config.meta_stride as int),
    {
        config.size_on_tb()
    }

    pub fn mem_start_offset(&self) -> (r: usize)
        ensures
            r == self.start(),
    {
        self.mem_start_offset
    }

    pub fn mem_end_offset(&self) -> (r: usize)
        ensures
            r == self.end(),
    {
        self.mem_end_offset
    }

    pub fn tb_start_offset(&self) -> (r: usize)
        ensures
            r == self.tb_start(),
    {
        self.tb_start_offset
    }

    pub fn tb_end_offset(&self) -> (r: usize)
        ensures
            r == self.tb_end(),
    {
        self.tb_end_offset
    }

    pub fn capacity(&self) -> (r: usize)
        ensures
            r == self.cap(),
    {
        self.config.capacity as usize
    }

    /// The zones of `slot`. No liveness check: whatever entity last occupied
    /// the slot is visible.
    #[inline]
    pub fn get(&'_ self, mem: &AtomicBuffer, slot: SlotId) -> (r: EntryReader<'_>)
        requires
            self.consistent(),
            slot.raw() <= self.cap(),
            self.end() <= mem@.len(),
        ensures
            r.core_zone().buffer() == self.buffer(),
            r.meta_zone().buffer() == self.buffer(),
            r.core_zone().zone_start() == self.tb_start() + (slot.raw() - 1) * self.block(),
            r.core_zone().width() == self.cfg().core_stride,
            r.meta_zone().zone_start() == self.tb_start() + (slot.raw() - 1) * self.block()
                + self.cfg().core_stride,
            r.meta_zone().width() == self.cfg().meta_stride,
            r.attr_zone().start() == self.attrs_start() + (slot.raw() - 1) * self.cfg().attr_stride,
            r.attr_zone().width() == self.cfg().attr_stride,
            r.attr_zone().valid(mem@),
    {
        let _s = slot.get();
        let tb_start_offset = self.get_entry_tb_base(slot);
        let mem_start_offset = self.get_entry_mem_base(slot);
        proof {
            lemma_block_fits((slot.raw() - 1) as int, self.cap(), self.block());
            lemma_block_fits((slot.raw() - 1) as int, self.cap(), self.cfg().attr_stride as int);
        }
        EntryReader::new(
            TbZoneReader::new(&self.tb, self.config.core_stride, tb_start_offset),
            TbZoneReader::new(&self.tb, self.config.meta_stride, tb_start_offset + self.config.core_stride),
            MemZoneReader::new(mem, self.config.attr_stride, mem_start_offset),
        )
    }

    /// Acknowledges the writer's published generations, releasing deferred slots.
    pub fn ack_generation(&self, mem: &mut AtomicBuffer)
        requires
            self.staging().valid(old(mem)@),
            old(mem)@[self.staging().start()] != i32::MIN,
        ensures
            final(mem)@ == old(mem)@.update(
                self.staging().start() + 1,
                (old(mem)@[self.staging().start()] - 1) as i32,
            ),
            final(mem)@.len() == old(mem)@.len(),
    {
        self.staging_buffer_reader.ack(mem)
    }

    fn get_entry_tb_base(&self, slot: SlotId) -> (r: usize)
        requires
            self.consistent(),
            slot.raw() <= self.cap(),
        ensures
            r == self.tb_start() + (slot.raw() - 1) * self.block(),
    {
        let _s = slot.get();
        proof {
            lemma_block_fits((slot.raw() - 1) as int, self.cap(), self.block());
        }
        Self::calculate_struct_zone_base(self.tb_start_offset, slot, &self.config)
    }

    fn get_entry_mem_base(&self, slot: SlotId) -> (r: usize)
        requires
            self.consistent(),
            slot.raw() <= self.cap(),
        ensures
            r == self.attrs_start() + (slot.raw() - 1) * self.cfg().attr_stride,
    {
        let _s = slot.get();
        proof {
            lemma_block_fits((slot.raw() - 1) as int, self.cap(), self.cfg().attr_stride as int);
        }
        Self::calculate_attr_zone_base(self.mem_attrs_start_offset, slot, &self.config)
    }
}

proof fn lemma_block_fits(a: int, cap: int, s: int)
    requires
        0 <= a < cap,
        0 <= s,
    ensures
        0 <= a * s,
        a * s + s <= cap * s,
{
    assert(a * s + s <= cap * s) by (nonlinear_arith)
        requires
            a < cap,
            0 <= s,
    ;
    assert(0 <= a * s) by (nonlinear_arith)
        requires
            0 <= a,
            0 <= s,
    ;
}

} // verus!
