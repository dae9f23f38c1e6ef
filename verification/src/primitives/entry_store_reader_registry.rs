use crate::primitives::entry_store_def::EntryStoreId;
use crate::primitives::entry_store_reader::EntryStoreReader;
use vstd::prelude::*;

verus! {

/// Registry of `N` entry-store readers, the consumer-side mirror of
/// `EntryStoreWriterRegistry`.
#[derive(Clone)]
pub struct EntryStoreReaderRegistry<const TB_COUNT: usize, const STORE_COUNT: usize> {
    id_index: Vec<Option<u16>>,
    stores: Vec<EntryStoreReader>,
    mem_start_offset: usize,
    mem_end_offset: usize,
    default_tb_start_offset: usize,
    default_tb_end_offset: usize,
    extra_tb_start_offsets: Vec<usize>,
    extra_tb_end_offsets: Vec<usize>,
}

impl<const TB_COUNT: usize, const STORE_COUNT: usize> EntryStoreReaderRegistry<TB_COUNT, STORE_COUNT> {
    pub closed spec fn index(&self) -> Seq<Option<u16>> {
        self.id_index@
    }

    pub closed spec fn store_seq(&self) -> Seq<EntryStoreReader> {
        self.stores@
    }

    pub closed spec fn start(&self) -> int {
        self.mem_start_offset as int
    }

    pub closed spec fn end(&self) -> int {
        self.mem_end_offset as int
    }

    pub closed spec fn default_start(&self) -> int {
        self.default_tb_start_offset as int
    }

    pub closed spec fn default_end(&self) -> int {
        self.default_tb_end_offset as int
    }

    pub closed spec fn extra_starts(&self) -> Seq<usize> {
        self.extra_tb_start_offsets@
    }

    pub closed spec fn extra_ends(&self) -> Seq<usize> {
        self.extra_tb_end_offsets@
    }

    /// Every id in `[0, N)` names one of the stores.
    pub open spec fn wf(&self) -> bool {
        &&& self.index().len() == STORE_COUNT
        &&& self.store_seq().len() == STORE_COUNT
        &&& forall|k: int|
            0 <= k < STORE_COUNT ==> (#[trigger] self.index()[k]) is Some && (self.index()[k]->0 as int) < STORE_COUNT
    }

    /// The store that `get(id)` returns.
    pub open spec fn store_for(&self, id: EntryStoreId) -> EntryStoreReader {
        self.store_seq()[self.index()[id.0 as int]->0 as int]
    }

    pub fn bind(
        id_index: Vec<Option<u16>>,
        stores: Vec<EntryStoreReader>,
        mem_start_offset: usize,
        mem_end_offset: usize,
        default_tb_start_offset: usize,
        default_tb_end_offset: usize,
        extra_tb_start_offsets: Vec<usize>,
        extra_tb_end_offsets: Vec<usize>,
    ) -> (r: Self)
        requires
            0 < STORE_COUNT < 0xffff,
        ensures
            r.index() == id_index@,
            r.store_seq() == stores@,
            r.start() == mem_start_offset,
            r.end() == mem_end_offset,
            r.default_start() == default_tb_start_offset,
            r.default_end() == default_tb_end_offset,
            r.extra_starts() == extra_tb_start_offsets@,
            r.extra_ends() == extra_tb_end_offsets@,
    {
        EntryStoreReaderRegistry {
            id_index,
            stores,
            mem_start_offset,
            mem_end_offset,
            default_tb_start_offset,
            default_tb_end_offset,
            extra_tb_start_offsets,
            extra_tb_end_offsets,
        }
    }

    #[inline]
    pub fn mem_start_offset(&self) -> (r: usize)
        ensures
            r == self.start(),
    {
        self.mem_start_offset
    }

    #[inline]
    pub fn mem_end_offset(&self) -> (r: usize)
        ensures
            r == self.end(),
    {
        self.mem_end_offset
    }

    #[inline]
    pub fn default_tb_start_offset(&self) -> (r: usize)
        ensures
            r == self.default_start(),
    {
        self.default_tb_start_offset
    }

    #[inline]
    pub fn default_tb_end_offset(&self) -> (r: usize)
        ensures
            r == self.default_end(),
    {
        self.default_tb_end_offset
    }

    #[inline]
    pub fn extra_tb_start_offsets(&self) -> (r: Vec<usize>)
        ensures
            r@ == self.extra_starts(),
    {
        self.extra_tb_start_offsets.clone()
    }

    #[inline]
    pub fn extra_tb_end_offsets(&self) -> (r: Vec<usize>)
        ensures
            r@ == self.extra_ends(),
    {
        self.extra_tb_end_offsets.clone()
    }

    /// Cells the registry spans on the memory plane.
    #[inline]
    pub fn len(&self) -> (r: usize)
        requires
            self.start() <= self.end(),
        ensures
            r == self.end() - self.start(),
    {
        self.mem_end_offset - self.mem_start_offset
    }

    #[inline]
    pub fn get(&self, id: EntryStoreId) -> (r: &EntryStoreReader)
        requires
            self.wf(),
            id.0 < STORE_COUNT,
        ensures
            *r == self.store_for(id),
    {
        let index = self.id_index[id.0 as usize].unwrap();
        &self.stores[index as usize]
    }
}

} // verus!
