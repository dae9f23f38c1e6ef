use crate::primitives::triple_buffer_def::{DEFAULT_TB_RAW, TripleBufferId};
use crate::primitives::triple_buffer_reader::TripleBufferReader;
use vstd::prelude::*;

verus! {

/// Registry of `N` triple-buffer readers, the consumer-side mirror of
/// `TripleBufferWriterRegistry`, plus the default triple buffer.
#[derive(Clone)]
pub struct TripleBufferReaderRegistry<const N: usize> {
    id_index: Vec<Option<u16>>,
    default_tb: TripleBufferReader,
    tbs: Vec<TripleBufferReader>,
    mem_start_offset: usize,
    mem_end_offset: usize,
}

impl<const N: usize> TripleBufferReaderRegistry<N> {
    pub closed spec fn start(&self) -> int {
        self.mem_start_offset as int
    }

    pub closed spec fn end(&self) -> int {
        self.mem_end_offset as int
    }

    pub closed spec fn index(&self) -> Seq<Option<u16>> {
        self.id_index@
    }

    pub closed spec fn default_buffer(&self) -> TripleBufferReader {
        self.default_tb
    }

    pub closed spec fn buffers(&self) -> Seq<TripleBufferReader> {
        self.tbs@
    }

    /// Every id in `[0, N)` names one of the buffers.
    pub open spec fn wf(&self) -> bool {
        &&& self.index().len() == N
        &&& self.buffers().len() == N
        &&& forall|k: int|
            0 <= k < N ==> (#[trigger] self.index()[k]) is Some && (self.index()[k]->0 as int) < N
    }

    /// The buffer that `get(id)` returns.
    pub open spec fn tb_for(&self, id: TripleBufferId) -> TripleBufferReader {
        if id.0 == DEFAULT_TB_RAW {
            self.default_buffer()
        } else {
            self.buffers()[self.index()[id.0 as int]->0 as int]
        }
    }

    pub(crate) fn bind(
        id_index: Vec<Option<u16>>,
        default_tb: TripleBufferReader,
        tbs: Vec<TripleBufferReader>,
        mem_start_offset: usize,
    ) -> (r: Self)
        requires
            0 < N < 0xffff,
            tbs@.len() == N,
        ensures
            r.index() == id_index@,
            r.default_buffer() == default_tb,
            r.buffers() == tbs@,
            r.start() == mem_start_offset,
            r.end() == tbs@[N - 1].end(),
    {
        let mem_end_offset = tbs[N - 1].mem_end_offset();
        TripleBufferReaderRegistry { id_index, default_tb, tbs, mem_start_offset, mem_end_offset }
    }

    #[inline]
    pub fn mem_start_offset(&self) -> (r: usize)
        ensures
            r == self.start(),
    {
        self.mem_start_offset
    }

    #[inline]
    pub fn mem_end_offset(&self) -> (r: usize)
        ensures
            r == self.end(),
    {
        self.mem_end_offset
    }

    /// Cells the registry spans.
    #[inline]
    pub fn len(&self) -> (r: usize)
        requires
            self.start() <= self.end(),
        ensures
            r == self.end() - self.start(),
    {
        self.mem_end_offset - self.mem_start_offset
    }

    #[inline]
    pub fn get(&self, id: TripleBufferId) -> (r: &TripleBufferReader)
        requires
            self.wf(),
            id.0 == DEFAULT_TB_RAW || id.0 < N,
        ensures
            *r == self.tb_for(id),
    {
        if id.is_default() {
            return &self.default_tb;
        }
        let index = self.id_index[id.0 as usize].unwrap();
        &self.tbs[index as usize]
    }
}

} // verus!
