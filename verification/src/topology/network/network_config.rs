use crate::constants::SYNAPSE_STRIDE;
use crate::primitives::entry_store_config::EntryStoreConfig;
use crate::topology::node::node_store_config::NodeStoreConfig;
use vstd::prelude::*;

verus! {

/// Capacities and strides of a network's node and synapse stores.
#[derive(Clone, Copy)]
pub struct NetworkConfig {
    pub node_capacity: u32,
    pub node_meta_stride: usize,
    pub node_attr_stride: usize,
    pub synapse_capacity: u32,
    pub synapse_meta_stride: usize,
    pub synapse_attr_stride: usize,
}

impl NetworkConfig {
    pub open spec fn node_config(&self) -> NodeStoreConfig {
        NodeStoreConfig {
            meta_stride: self.node_meta_stride,
            attr_stride: self.node_attr_stride,
            capacity: self.node_capacity,
        }
    }

    pub open spec fn synapse_config(&self) -> EntryStoreConfig {
        EntryStoreConfig {
            core_stride: SYNAPSE_STRIDE,
            meta_stride: self.synapse_meta_stride,
            attr_stride: self.synapse_attr_stride,
            capacity: self.synapse_capacity,
        }
    }

    pub fn to_node_store_config(&self) -> (r: NodeStoreConfig)
        ensures
            r == self.node_config(),
    {
        NodeStoreConfig {
            meta_stride: self.node_meta_stride,
            attr_stride: self.node_attr_stride,
            capacity: self.node_capacity,
        }
    }

    pub fn to_synapse_entry_store_config(&self) -> (r: EntryStoreConfig)
        ensures
            r == self.synapse_config(),
    {
        EntryStoreConfig {
            core_stride: SYNAPSE_STRIDE,
            meta_stride: self.synapse_meta_stride,
            attr_stride: self.synapse_attr_stride,
            capacity: self.synapse_capacity,
        }
    }
}

} // verus!
