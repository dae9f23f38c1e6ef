use crate::primitives::entry_store_config::EntryStoreConfig;
use crate::primitives::triple_buffer_def::TripleBufferId;
use vstd::prelude::*;

verus! {

/// Typed identifier for an entry store within an `EntryStoreWriterRegistry`.
///
/// IDs occupy the range `[0, N-1]` where `N` is the registry's `STORE_COUNT`.
#[derive(Copy, Clone, Debug, PartialEq, Eq, Structural, Hash, PartialOrd, Ord)]
pub struct EntryStoreId(pub u16);

/// Definition of a user-allocated entry store within the registry.
///
/// # Fields
/// - `id`: Unique identifier in `[0, N-1]`.
/// - `tb_id`: Triple buffer holding the core and meta zones. `TripleBufferId`'s
///   default value is valid here.
/// - `config`: Strides and capacity.
#[derive(Clone, Copy)]
pub struct EntryStoreDef {
    pub id: EntryStoreId,
    pub tb_id: TripleBufferId,
    pub config: EntryStoreConfig,
}

impl EntryStoreDef {
    pub fn new(id: EntryStoreId, tb_id: TripleBufferId, config: EntryStoreConfig) -> (r: Self)
        ensures
            r.id == id,
            r.tb_id == tb_id,
            r.config == config,
    {
        EntryStoreDef { id, tb_id, config }
    }

    pub fn config(&self) -> (r: EntryStoreConfig)
        ensures
            r == self.config,
    {
        self.config
    }

    pub fn size_on_mem(&self) -> (r: usize)
        requires
            self.config.mem_size() <= usize::MAX,
        ensures
            r == self.config.mem_size(),
    {
        self.config.size_on_mem()
    }

    pub fn size_on_tb(&self) -> (r: usize)
        requires
            self.config.core_stride + self.config.meta_stride <= usize::MAX,
            self.config.tb_size() <= usize::MAX,
        ensures
            r == self.config.tb_size(),
    {
        self.config.size_on_tb()
    }
}

} // verus!
