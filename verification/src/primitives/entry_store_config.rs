use crate::primitives::slot_allocator::{SlotAllocator, slot_allocator_size};
use vstd::prelude::*;

verus! {

/// Cells an entry store takes on the memory plane: its slot allocator, then
/// `capacity` attribute blocks.
pub open spec fn entry_mem_size(capacity: int, attr_stride: int) -> int {
    slot_allocator_size(capacity) + capacity * attr_stride
}

/// Cells an entry store takes on its triple buffer: `capacity` core+meta blocks.
pub open spec fn entry_tb_size(capacity: int, core_stride: int, meta_stride: int) -> int {
    capacity * (core_stride + meta_stride)
}

/// Strides and capacity of an entry store.
#[derive(Clone, Copy)]
pub struct EntryStoreConfig {
    pub core_stride: usize,
    pub meta_stride: usize,
    pub attr_stride: usize,
    pub capacity: u32,
}

impl EntryStoreConfig {
    pub open spec fn mem_size(&self) -> int {
        entry_mem_size(self.capacity as int, self.attr_stride as int)
    }

    pub open spec fn tb_size(&self) -> int {
        entry_tb_size(self.capacity as int, self.core_stride as int, self.meta_stride as int)
    }

    pub fn size_on_mem(&self) -> (r: usize)
        requires
            self.mem_size() <= usize::MAX,
        ensures
            r == self.mem_size(),
    {
        proof {
            assert(0 <= self.capacity * self.attr_stride) by (nonlinear_arith)
                requires
                    0 <= self.capacity,
                    0 <= self.attr_stride,
            ;
        }
        SlotAllocator::calculate_size_on_mem(self.capacity as usize) + self.capacity as usize
            * self.attr_stride
    }

    pub fn size_on_tb(&self) -> (r: usize)
        requires
            self.core_stride + self.meta_stride <= usize::MAX,
            self.tb_size() <= usize::MAX,
        ensures
            r == self.tb_size(),
    {
        self.capacity as usize * (self.core_stride + self.meta_stride)
    }
}

} // verus!
