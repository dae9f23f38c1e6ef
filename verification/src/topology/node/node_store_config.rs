use crate::constants::NODE_STRIDE;
use crate::primitives::entry_store_config::EntryStoreConfig;
use vstd::prelude::*;

verus! {

/// Strides and capacity of a node store; the core stride is fixed.
#[derive(Clone, Copy)]
pub struct NodeStoreConfig {
    pub meta_stride: usize,
    pub attr_stride: usize,
    pub capacity: u32,
}

impl NodeStoreConfig {
    pub open spec fn entry_config(&self) -> EntryStoreConfig {
        EntryStoreConfig {
            core_stride: NODE_STRIDE,
            meta_stride: self.meta_stride,
            attr_stride: self.attr_stride,
            capacity: self.capacity,
        }
    }

    pub fn to_entry_store_config(&self) -> (r: EntryStoreConfig)
        ensures
            r == self.entry_config(),
    {
        EntryStoreConfig {
            core_stride: NODE_STRIDE,
            meta_stride: self.meta_stride,
            attr_stride: self.attr_stride,
            capacity: self.capacity,
        }
    }
}

} // verus!
