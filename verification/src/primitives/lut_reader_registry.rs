use crate::primitives::lut_def::LutId;
use crate::primitives::lut_reader::LutReader;
use vstd::prelude::*;

verus! {

/// Registry of `N` lookup-table readers, the consumer-side mirror of
/// `LutWriterRegistry`.
#[derive(Clone)]
pub struct LutReaderRegistry<const TB_COUNT: usize, const LUT_COUNT: usize> {
    id_index: Vec<Option<u16>>,
    tables: Vec<LutReader>,
    default_tb_start_offset: usize,
    default_tb_end_offset: usize,
    extra_tb_start_offsets: Vec<usize>,
    extra_tb_end_offsets: Vec<usize>,
}

impl<const TB_COUNT: usize, const LUT_COUNT: usize> LutReaderRegistry<TB_COUNT, LUT_COUNT> {
    pub closed spec fn index(&self) -> Seq<Option<u16>> {
        self.id_index@
    }

    pub closed spec fn table_seq(&self) -> Seq<LutReader> {
        self.tables@
    }

    pub closed spec fn default_start(&self) -> int {
        self.default_tb_start_offset as int
    }

    pub closed spec fn default_end(&self) -> int {
        self.default_tb_end_offset as int
    }

    pub closed spec fn extra_starts(&self) -> Seq<usize> {
        self.extra_tb_start_offsets@
    }

    pub closed spec fn extra_ends(&self) -> Seq<usize> {
        self.extra_tb_end_offsets@
    }

    /// Every id in `[0, N)` names one of the tables.
    pub open spec fn wf(&self) -> bool {
        &&& self.index().len() == LUT_COUNT
        &&& self.table_seq().len() == LUT_COUNT
        &&& forall|k: int|
            0 <= k < LUT_COUNT ==> (#[trigger] self.index()[k]) is Some && (self.index()[k]->0 as int) < LUT_COUNT
    }

    /// The table that `get(id)` returns.
    pub open spec fn table_for(&self, id: LutId) -> LutReader {
        self.table_seq()[self.index()[id.0 as int]->0 as int]
    }

    pub fn bind(
        id_index: Vec<Option<u16>>,
        tables: Vec<LutReader>,
        default_tb_start_offset: usize,
        default_tb_end_offset: usize,
        extra_tb_start_offsets: Vec<usize>,
        extra_tb_end_offsets: Vec<usize>,
    ) -> (r: Self)
        requires
            0 < LUT_COUNT < 0xffff,
        ensures
            r.index() == id_index@,
            r.table_seq() == tables@,
            r.default_start() == default_tb_start_offset,
            r.default_end() == default_tb_end_offset,
            r.extra_starts() == extra_tb_start_offsets@,
            r.extra_ends() == extra_tb_end_offsets@,
    {
        LutReaderRegistry {
            id_index,
            tables,
            default_tb_start_offset,
            default_tb_end_offset,
            extra_tb_start_offsets,
            extra_tb_end_offsets,
        }
    }

    #[inline]
    pub fn default_tb_start_offset(&self) -> (r: usize)
        ensures
            r == self.default_start(),
    {
        self.default_tb_start_offset
    }

    #[inline]
    pub fn default_tb_end_offset(&self) -> (r: usize)
        ensures
            r == self.default_end(),
    {
        self.default_tb_end_offset
    }

    #[inline]
    pub fn extra_tb_start_offsets(&self) -> (r: Vec<usize>)
        ensures
            r@ == self.extra_starts(),
    {
        self.extra_tb_start_offsets.clone()
    }

    #[inline]
    pub fn extra_tb_end_offsets(&self) -> (r: Vec<usize>)
        ensures
            r@ == self.extra_ends(),
    {
        self.extra_tb_end_offsets.clone()
    }

    #[inline]
    pub fn get(&self, id: LutId) -> (r: &LutReader)
        requires
            self.wf(),
            id.0 < LUT_COUNT,
        ensures
            *r == self.table_for(id),
    {
        let index = self.id_index[id.0 as usize].unwrap();
        &self.tables[index as usize]
    }
}

} // verus!
