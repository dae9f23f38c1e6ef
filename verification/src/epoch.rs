use crate::constants::{NODE_STRIDE, SYNAPSE_STRIDE};
use crate::epoch_mirror::{EpochMirror, acked};
use crate::kernel_config::{
    KernelConfig,
    config_verdict,
    lemma_es_load_mono,
    lemma_lut_load_mono,
    lemma_lut_verdict_ok,
    lemma_store_verdict_ok,
    lemma_tb_verdict_ok,
    lut_kept,
    network_mem_size,
    network_tb_size,
    store_kept,
    tb_defs_verdict,
};
use crate::metadata::mem_metadata_writer::MemMetadataWriter;
use crate::primitives::entry_store_def::EntryStoreDef;
use crate::primitives::entry_store_writer::zeros;
use crate::primitives::entry_store_writer_registry::{
    EntryStoreWriterRegistry,
    es_base,
    es_load,
    es_mem,
    es_registry_ok,
    es_tb_start,
    lemma_es_nonneg,
    lemma_es_prefix,
    lemma_es_step,
};
use crate::primitives::lut_def::LutDef;
use crate::primitives::lut_writer_registry::{
    LutWriterRegistry,
    lemma_lut_load_nonneg,
    lemma_lut_load_prefix,
    lemma_lut_load_step,
    lut_base,
    lut_load,
    lut_registry_ok,
    lut_start,
};
use crate::primitives::triple_buffer_def::{DEFAULT_TB_RAW, TripleBufferId};
use crate::primitives::triple_buffer_writer::{
    TripleBufferWriter,
    lemma_in_region_at,
    lemma_publish_in_sync,
    lemma_tb_inv_frame,
    tb_base,
    tb_after_publish,
    tb_after_swap,
    tb_buf,
    tb_in_sync,
    tb_in_region,
    tb_inv,
    tb_new_data,
    tb_published_id,
    tb_resynced_at,
    tb_shared_id,
    tb_size,
    tb_writer_id,
};
use crate::primitives::triple_buffer_writer_registry::{
    TripleBufferWriterRegistry,
    lemma_tbs_size_nonneg,
    tb_region_start,
    tb_registry_ok,
    tbs_size,
};
use crate::primitives::types::{AtomicBuffer, cells, is_pow2_u32, lemma_unchanged_trans, lemma_unchanged_widen, unchanged_outside};
use crate::topology::network::network_writer::{NetworkWriter, lemma_links_extend, lemma_links_zero};
use vstd::prelude::*;

verus! {

/// The producer's side of one generation of kernel memory: metadata, triple
/// buffers, entry stores, lookup tables and the network, laid out one after
/// the other on the memory plane from a start offset.
///
/// # Memory Layout
/// Memory plane: metadata, the triple buffers (default first), the stores'
/// allocators and attributes, then the network's.
/// Default triple buffer: the network's blocks, then the blocks of the stores
/// and the tables placed on it. User triple buffers: the stores' blocks, then
/// the tables.
pub struct Epoch<const TB_COUNT: usize, const STORE_COUNT: usize, const LUT_COUNT: usize> {
    pub mem_metadata: MemMetadataWriter,
    pub tb_registry: TripleBufferWriterRegistry<TB_COUNT>,
    pub store_registry: EntryStoreWriterRegistry<TB_COUNT, STORE_COUNT>,
    pub lut_registry: LutWriterRegistry<TB_COUNT, LUT_COUNT>,
    pub network: NetworkWriter,
}

impl<const TB_COUNT: usize, const STORE_COUNT: usize, const LUT_COUNT: usize> Epoch<TB_COUNT, STORE_COUNT, LUT_COUNT> {
    /// The default triple buffer, which carries the network.
    pub open spec fn default_tb(&self) -> TripleBufferWriter {
        self.tb_registry.default_buffer()
    }

    /// Where the epoch ends on the memory plane.
    pub open spec fn end(&self) -> int {
        self.network.synapse_store().end()
    }

    /// The parts lie in `mem`, one after the other, every store and table on
    /// the registry buffer its definition names and the network on the
    /// default one.
    pub open spec fn valid(&self, mem: Seq<i32>) -> bool {
        &&& self.mem_metadata.valid(mem)
        &&& self.tb_registry.wf()
        &&& self.tb_registry.control_ok(mem)
        &&& self.store_registry.wf()
        &&& self.store_registry.placed_on(self.tb_registry)
        &&& forall|i: int| 0 <= i < STORE_COUNT ==> (#[trigger] self.store_registry.store_seq()[i]).valid(mem)
        &&& self.lut_registry.wf()
        &&& self.lut_registry.placed_on(self.tb_registry)
        &&& self.network.valid(mem)
        &&& self.network.ns().buffer() == self.default_tb()
        &&& self.mem_metadata.end() <= self.tb_registry.start()
        &&& self.tb_registry.end() <= self.store_registry.start()
        &&& self.store_registry.end() <= self.network.ns().start()
    }

    /// Every allocator and every triple buffer is consistent, and the
    /// network's links are in range and connected.
    pub open spec fn inv(&self, mem: Seq<i32>) -> bool {
        &&& self.network.inv(mem)
        &&& self.network.linked(mem)
        &&& forall|i: int| 0 <= i < STORE_COUNT ==> (#[trigger] self.store_registry.store_seq()[i]).inv(mem)
        &&& forall|id: TripleBufferId| self.tb_registry.id_ok(id) ==> #[trigger] tb_inv(mem, self.tb_registry.tb_for(id).start())
    }

    /// The epoch is laid out from `start` as `config` says.
    pub open spec fn laid_out(&self, config: KernelConfig<TB_COUNT, STORE_COUNT, LUT_COUNT>, start: int) -> bool {
        &&& self.mem_metadata.start() == start
        &&& self.mem_metadata.cap() == config.mem_metadata_size
        &&& self.tb_registry.start() == start + config.mem_metadata_size
        &&& self.tb_registry.def_seq() == config.tb_defs@
        &&& self.default_tb().cap() == config.default_tb_capacity()
        &&& self.store_registry.def_seq() == config.store_defs@
        &&& self.store_registry.start() == self.tb_registry.end()
        &&& self.lut_registry.def_seq() == config.lut_defs@
        &&& self.network.ns().start() == self.store_registry.end()
        &&& self.network.ns().cfg() == config.network_config.node_config().entry_config()
        &&& self.network.synapse_store().cfg() == config.network_config.synapse_config()
        &&& self.end() == start + config.epoch_size()
    }

    /// What binding an epoch to existing memory needs: valid buffer indices
    /// in the control block of every triple buffer.
    pub open spec fn bind_ok(mem: Seq<i32>, config: KernelConfig<TB_COUNT, STORE_COUNT, LUT_COUNT>, start: int) -> bool {
        tb_registry_ok(
            mem,
            config.tb_defs@,
            start + config.mem_metadata_size,
            config.default_tb_capacity(),
            true,
        )
    }

    /// Cells one epoch of `config` takes on the memory plane.
    pub fn calculate_size_on_mem(config: &KernelConfig<TB_COUNT, STORE_COUNT, LUT_COUNT>) -> (r: usize)
        requires
            config.layout_ok(),
        ensures
            r == config.epoch_size(),
    {
        proof {
            lemma_config_sizes(*config);
        }
        let nc = config.network_config;
        let dcap = Self::default_tb_capacity(config);
        config.mem_metadata_size + TripleBufferWriterRegistry::<TB_COUNT>::calculate_size_on_mem(dcap, &config.tb_defs)
            + EntryStoreWriterRegistry::<TB_COUNT, STORE_COUNT>::calculate_size_on_mem(&config.store_defs)
            + NetworkWriter::calculate_size_on_mem(&nc)
    }

    /// Capacity of the default triple buffer of `config`.
    pub(crate) fn default_tb_capacity(config: &KernelConfig<TB_COUNT, STORE_COUNT, LUT_COUNT>) -> (r: usize)
        requires
            config.layout_ok(),
        ensures
            r == config.default_tb_capacity(),
    {
        proof {
            lemma_config_sizes(*config);
        }
        let nc = config.network_config;
        NetworkWriter::calculate_size_on_tb(&nc) + EntryStoreWriterRegistry::<TB_COUNT, STORE_COUNT>::calculate_size_on_default_tb(
            &config.store_defs,
        ) + LutWriterRegistry::<TB_COUNT, LUT_COUNT>::calculate_size_on_default_tb(&config.lut_defs)
    }
}

/// Whether cell `j` lies in the user triple buffers of an epoch of `config`
/// laid out from `start`.
pub open spec fn in_user_buffers<const TB: usize, const ST: usize, const LU: usize>(
    config: KernelConfig<TB, ST, LU>,
    start: int,
    j: int,
) -> bool {
    let lo = start + config.mem_metadata_size + tb_size(config.default_tb_capacity());
    lo <= j < lo + tbs_size(config.tb_defs@)
}

/// The cells an epoch of `config` laid out from `start` takes are zero on
/// `mem`, but for those of the user triple buffers, which may hold anything.
pub open spec fn zeroed_but_user_buffers<const TB: usize, const ST: usize, const LU: usize>(
    mem: Seq<i32>,
    config: KernelConfig<TB, ST, LU>,
    start: int,
) -> bool {
    forall|j: int| start <= j < start + config.epoch_size() && !in_user_buffers(config, start, j) ==> #[trigger] mem[j] == 0
}

/// On every buffer the stores' blocks come before the tables.
pub open spec fn stores_before_tables<const TB: usize, const ST: usize, const LU: usize>(
    st: EntryStoreWriterRegistry<TB, ST>,
    lut: LutWriterRegistry<TB, LU>,
) -> bool {
    forall|k: int, l: int|
        0 <= k < ST && 0 <= l < LU && (#[trigger] st.store_seq()[k]).buffer() == (#[trigger] lut.table_seq()[l]).buffer()
            ==> st.store_seq()[k].tb_end() <= lut.table_seq()[l].tb_start()
}

/// Where the stores of `defs` placed on buffer `tb` end there: the default
/// buffer carries the network's blocks first.
pub open spec fn stores_limit(net_tb: int, defs: Seq<EntryStoreDef>, tb: TripleBufferId) -> int {
    (if tb.0 == DEFAULT_TB_RAW {
        net_tb
    } else {
        0
    }) + es_load(defs, tb)
}

/// The data cells of the default buffer of `reg` are zero.
pub open spec fn default_data_zero<const TB: usize>(reg: TripleBufferWriterRegistry<TB>, mem: Seq<i32>) -> bool {
    forall|j: int|
        reg.start() + 4 <= j < reg.start() + tb_size(reg.default_buffer().cap()) ==> #[trigger] mem[j] == 0
}

/// Every registry buffer is consistent.
pub open spec fn all_tb_inv<const TB: usize>(reg: TripleBufferWriterRegistry<TB>, mem: Seq<i32>) -> bool {
    forall|id: TripleBufferId| reg.id_ok(id) ==> #[trigger] tb_inv(mem, reg.tb_for(id).start())
}

impl<const TB_COUNT: usize, const STORE_COUNT: usize, const LUT_COUNT: usize> Epoch<TB_COUNT, STORE_COUNT, LUT_COUNT> {
    /// Lays out the metadata and the triple buffers.
    fn create_buffers(
        mem: &mut AtomicBuffer,
        config: &KernelConfig<TB_COUNT, STORE_COUNT, LUT_COUNT>,
        mem_start_offset: usize,
        bind: bool,
    ) -> (r: (MemMetadataWriter, TripleBufferWriterRegistry<TB_COUNT>))
        requires
            config.layout_ok(),
            mem_start_offset + config.epoch_size() <= old(mem)@.len(),
            !bind ==> zeroed_but_user_buffers(old(mem)@, *config, mem_start_offset as int),
            bind ==> Self::bind_ok(old(mem)@, *config, mem_start_offset as int),
        ensures
            final(mem)@.len() == old(mem)@.len(),
            r.0.valid(final(mem)@),
            r.0.start() == mem_start_offset,
            r.0.cap() == config.mem_metadata_size,
            r.1.wf(),
            r.1.start() == mem_start_offset + config.mem_metadata_size,
            r.1.def_seq() == config.tb_defs@,
            r.1.default_buffer().cap() == config.default_tb_capacity(),
            r.1.control_ok(final(mem)@),
            r.1.end() + es_mem(config.store_defs@) + network_mem_size(config.network_config) == mem_start_offset
                + config.epoch_size(),
            unchanged_outside(old(mem)@, final(mem)@, mem_start_offset as int, r.1.end()),
            !bind ==> all_tb_inv(r.1, final(mem)@),
            !bind ==> default_data_zero(r.1, final(mem)@),
            !bind ==> forall|j: int|
                r.1.end() <= j < mem_start_offset + config.epoch_size() ==> #[trigger] final(mem)@[j] == 0,
            !bind ==> forall|i: int| 0 <= i < r.0.cap() ==> #[trigger] r.0.view(final(mem)@)[i] == 0,
            bind ==> r.1.resynced(old(mem)@, final(mem)@),
    {
        let _len = mem.len();
        let ghost m0 = mem@;
        let ghost start = mem_start_offset as int;
        proof {
            lemma_config_sizes(*config);
            assert(config.mem_metadata_size <= config.epoch_size());
        }
        let dcap = Self::default_tb_capacity(config);
        let mem_metadata = MemMetadataWriter::create(mem, mem_start_offset, config.mem_metadata_size, bind);
        let ghost m1 = mem@;
        let tb_start = mem_start_offset + config.mem_metadata_size;
        proof {
            mem_metadata.lemma_wf();
            if bind {
                assert(m1 == m0);
            }
            assert(tb_registry_ok(m1, config.tb_defs@, tb_start as int, dcap as int, bind));
        }
        let tb_registry = TripleBufferWriterRegistry::<TB_COUNT>::create(mem, config.tb_defs, tb_start, dcap as u32, bind);
        proof {
            let m2 = mem@;
            let reg = tb_registry;
            assert(unchanged_outside(m0, m1, start, start + config.mem_metadata_size));
            assert(unchanged_outside(m0, m2, start, reg.end()));
            if !bind {
                assert forall|id: TripleBufferId| reg.id_ok(id) implies #[trigger] tb_inv(m2, reg.tb_for(id).start()) by {
                    if id.0 != DEFAULT_TB_RAW {
                        assert(tb_inv(m2, reg.buffers()[reg.index()[id.0 as int]->0 as int].start()));
                    }
                }
                assert forall|j: int| reg.start() + 4 <= j < reg.start() + tb_size(reg.default_buffer().cap()) implies #[trigger] m2[j] == 0 by {
                    assert(m2[j] == m1[j]);
                }
                assert forall|i: int| 0 <= i < mem_metadata.cap() implies #[trigger] mem_metadata.view(m2)[i] == 0 by {
                    assert(m2[start + i] == m1[start + i]);
                    assert(m1[start + i] == m0[start + i]);
                }
            }
        }
        (mem_metadata, tb_registry)
    }

    /// Lays out the entry stores right behind the triple buffers: from
    /// `net_tb` on the default buffer, from 0 on the others.
    fn create_store_registry(
        mem: &mut AtomicBuffer,
        config: &KernelConfig<TB_COUNT, STORE_COUNT, LUT_COUNT>,
        tb_registry: &TripleBufferWriterRegistry<TB_COUNT>,
        bind: bool,
    ) -> (r: EntryStoreWriterRegistry<TB_COUNT, STORE_COUNT>)
        requires
            config.layout_ok(),
            tb_registry.wf(),
            tb_registry.def_seq() == config.tb_defs@,
            tb_registry.default_buffer().cap() == config.default_tb_capacity(),
            tb_registry.control_ok(old(mem)@),
            tb_registry.end() + es_mem(config.store_defs@) + network_mem_size(config.network_config) <= old(mem)@.len(),
        ensures
            final(mem)@.len() == old(mem)@.len(),
            r.wf(),
            r.placed_on(*tb_registry),
            r.def_seq() == config.store_defs@,
            r.start() == tb_registry.end(),
            r.end() == tb_registry.end() + es_mem(config.store_defs@),
            tb_registry.control_ok(final(mem)@),
            unchanged_outside(old(mem)@, final(mem)@, r.start(), r.end()),
            !bind ==> forall|i: int| 0 <= i < STORE_COUNT ==> (#[trigger] r.store_seq()[i]).empty_slots(final(mem)@),
            forall|k: int| 0 <= k < TB_COUNT ==> #[trigger] r.extra_ends()[k] == es_load(config.store_defs@, tb_registry.def_seq()[k].id),
            forall|k: int|
                0 <= k < STORE_COUNT ==> (#[trigger] r.store_seq()[k]).buffer() == tb_registry.default_buffer()
                    ==> network_tb_size(config.network_config) <= r.store_seq()[k].tb_start(),
            forall|k: int|
                0 <= k < STORE_COUNT ==> (#[trigger] r.store_seq()[k]).tb_end() <= stores_limit(
                    network_tb_size(config.network_config),
                    config.store_defs@,
                    config.store_defs@[k].tb_id,
                ),
            bind ==> final(mem)@ == old(mem)@,
    {
        let ghost m2 = mem@;
        let ghost reg = *tb_registry;
        let ghost sd = config.store_defs@;
        proof {
            lemma_config_sizes(*config);
        }
        let nc = config.network_config;
        let net_tb = NetworkWriter::calculate_size_on_tb(&nc);
        let store_start = tb_registry.mem_end_offset();
        let store_extra = [0usize; TB_COUNT];
        proof {
            assert forall|k: int| 0 <= k < TB_COUNT implies #[trigger] store_extra@[k] == 0 by {
            }
            assert forall|i: int| 0 <= i < STORE_COUNT implies {
                let c = (#[trigger] sd[i]).config;
                &&& reg.id_ok(sd[i].tb_id)
                &&& is_pow2_u32(c.capacity)
                &&& c.capacity <= 0x4000_0000
                &&& c.core_stride + c.meta_stride <= usize::MAX
                &&& es_tb_start(reg, sd, net_tb as int, store_extra@, i) + c.tb_size() <= reg.tb_for(sd[i].tb_id).cap()
            } by {
                lemma_store_fits(*config, reg, net_tb as int, store_extra@, i);
            }
            assert(es_registry_ok(m2, reg, sd, store_start as int, net_tb as int, store_extra@));
        }
        let r = EntryStoreWriterRegistry::<TB_COUNT, STORE_COUNT>::create(
            mem,
            tb_registry,
            config.store_defs,
            store_start,
            net_tb,
            store_extra,
            bind,
        );
        proof {
            assert forall|k: int| 0 <= k < TB_COUNT implies #[trigger] r.extra_ends()[k] == es_load(sd, reg.def_seq()[k].id) by {
                assert(store_extra@[k] == 0);
            }
            let dflt = TripleBufferId(DEFAULT_TB_RAW);
            assert forall|k: int|
                0 <= k < STORE_COUNT && (#[trigger] r.store_seq()[k]).buffer() == reg.default_buffer() implies network_tb_size(
                nc,
            ) <= r.store_seq()[k].tb_start() by {
                let y = sd[k].tb_id;
                assert(reg.id_ok(y));
                reg.lemma_disjoint(y, dflt);
                reg.lemma_inside(y);
                reg.tb_for(y).lemma_layout();
                assert(reg.tb_for(dflt) == reg.default_buffer());
                if y.0 != DEFAULT_TB_RAW {
                    assert(y != dflt);
                    assert(false);
                }
                lemma_es_nonneg(sd.take(k), y);
            }
            assert forall|k: int| 0 <= k < STORE_COUNT implies (#[trigger] r.store_seq()[k]).tb_end() <= stores_limit(
                network_tb_size(nc),
                sd,
                sd[k].tb_id,
            ) by {
                let y = sd[k].tb_id;
                r.store_seq()[k].lemma_wf();
                lemma_es_step(sd, k, y);
                lemma_es_prefix(sd, k + 1, STORE_COUNT as int, y);
                assert(sd.take(STORE_COUNT as int) =~= sd);
                if y.0 != DEFAULT_TB_RAW {
                    assert(store_extra@[reg.index()[y.0 as int]->0 as int] == 0);
                }
            }
        }
        r
    }

    /// Lays out the tables behind the stores on every buffer.
    fn create_lut_registry(
        mem: &mut AtomicBuffer,
        config: &KernelConfig<TB_COUNT, STORE_COUNT, LUT_COUNT>,
        tb_registry: &TripleBufferWriterRegistry<TB_COUNT>,
        ends: Vec<usize>,
        bind: bool,
    ) -> (r: LutWriterRegistry<TB_COUNT, LUT_COUNT>)
        requires
            config.layout_ok(),
            tb_registry.wf(),
            tb_registry.def_seq() == config.tb_defs@,
            tb_registry.default_buffer().cap() == config.default_tb_capacity(),
            tb_registry.control_ok(old(mem)@),
            ends@.len() == TB_COUNT,
            forall|k: int| 0 <= k < TB_COUNT ==> #[trigger] ends@[k] == es_load(config.store_defs@, tb_registry.def_seq()[k].id),
        ensures
            final(mem)@.len() == old(mem)@.len(),
            r.wf(),
            r.placed_on(*tb_registry),
            r.def_seq() == config.lut_defs@,
            tb_registry.control_ok(final(mem)@),
            unchanged_outside(old(mem)@, final(mem)@, tb_registry.start(), tb_registry.end()),
            forall|j: int| 0 <= j < old(mem)@.len() ==> #[trigger] final(mem)@[j] == old(mem)@[j] || final(mem)@[j] == 0,
            forall|x: TripleBufferId|
                tb_registry.id_ok(x) ==> (#[trigger] tb_inv(final(mem)@, tb_registry.tb_for(x).start()) <==> tb_inv(
                    old(mem)@,
                    tb_registry.tb_for(x).start(),
                )),
            forall|k: int|
                0 <= k < LUT_COUNT ==> (#[trigger] r.table_seq()[k]).buffer() == tb_registry.default_buffer()
                    ==> network_tb_size(config.network_config) <= r.table_seq()[k].tb_start(),
            forall|k: int|
                0 <= k < LUT_COUNT ==> stores_limit(
                    network_tb_size(config.network_config),
                    config.store_defs@,
                    config.lut_defs@[k].tb_id,
                ) <= (#[trigger] r.table_seq()[k]).tb_start(),
            bind ==> final(mem)@ == old(mem)@,
    {
        let ghost m3 = mem@;
        let ghost reg = *tb_registry;
        let ghost ld = config.lut_defs@;
        proof {
            lemma_config_sizes(*config);
        }
        let nc = config.network_config;
        let net_tb = NetworkWriter::calculate_size_on_tb(&nc);
        let store_default = EntryStoreWriterRegistry::<TB_COUNT, STORE_COUNT>::calculate_size_on_default_tb(&config.store_defs);
        let mut lut_extra = [0usize; TB_COUNT];
        let mut k: usize = 0;
        while k < TB_COUNT
            invariant
                k <= TB_COUNT,
                ends@.len() == TB_COUNT,
                forall|j: int| 0 <= j < k ==> #[trigger] lut_extra@[j] == ends@[j],
            decreases TB_COUNT - k,
        {
            lut_extra.set(k, ends[k]);
            k = k + 1;
        }
        proof {
            assert forall|k: int| 0 <= k < TB_COUNT implies #[trigger] lut_extra@[k] == es_load(config.store_defs@, reg.def_seq()[k].id) by {
                assert(lut_extra@[k] == ends@[k]);
            }
            assert forall|i: int| 0 <= i < LUT_COUNT implies {
                &&& reg.id_ok((#[trigger] ld[i]).tb_id)
                &&& lut_start(reg, ld, net_tb + store_default, lut_extra@, i) + ld[i].size <= reg.tb_for(ld[i].tb_id).cap()
            } by {
                lemma_lut_fits(*config, reg, net_tb as int, lut_extra@, i);
            }
            assert(lut_registry_ok(m3, reg, ld, net_tb + store_default, lut_extra@));
        }
        let r = LutWriterRegistry::<TB_COUNT, LUT_COUNT>::create(
            mem,
            tb_registry,
            config.lut_defs,
            net_tb + store_default,
            lut_extra,
            bind,
        );
        proof {
            let dflt = TripleBufferId(DEFAULT_TB_RAW);
            assert forall|k: int|
                0 <= k < LUT_COUNT && (#[trigger] r.table_seq()[k]).buffer() == reg.default_buffer() implies network_tb_size(
                nc,
            ) <= r.table_seq()[k].tb_start() by {
                let y = ld[k].tb_id;
                assert(reg.id_ok(y));
                reg.lemma_disjoint(y, dflt);
                reg.lemma_inside(y);
                reg.tb_for(y).lemma_layout();
                assert(reg.tb_for(dflt) == reg.default_buffer());
                if y.0 != DEFAULT_TB_RAW {
                    assert(y != dflt);
                    assert(false);
                }
                lemma_lut_load_nonneg(ld.take(k), y);
            }
            assert forall|k: int| 0 <= k < LUT_COUNT implies stores_limit(network_tb_size(nc), config.store_defs@, ld[k].tb_id)
                <= (#[trigger] r.table_seq()[k]).tb_start() by {
                let y = ld[k].tb_id;
                assert(reg.id_ok(y));
                lemma_lut_load_nonneg(ld.take(k), y);
                if y.0 != DEFAULT_TB_RAW {
                    let j = reg.index()[y.0 as int]->0 as int;
                    assert(reg.def_seq()[j].id.0 == y.0);
                    assert(reg.def_seq()[j].id == y);
                    assert(lut_extra@[j] == es_load(config.store_defs@, y));
                }
            }
        }
        r
    }

    /// Lays out the entry stores right behind the triple buffers, and the
    /// tables behind the stores on every buffer.
    fn create_stores(
        mem: &mut AtomicBuffer,
        config: &KernelConfig<TB_COUNT, STORE_COUNT, LUT_COUNT>,
        tb_registry: &TripleBufferWriterRegistry<TB_COUNT>,
        bind: bool,
    ) -> (r: (EntryStoreWriterRegistry<TB_COUNT, STORE_COUNT>, LutWriterRegistry<TB_COUNT, LUT_COUNT>))
        requires
            config.layout_ok(),
            tb_registry.wf(),
            tb_registry.def_seq() == config.tb_defs@,
            tb_registry.default_buffer().cap() == config.default_tb_capacity(),
            tb_registry.control_ok(old(mem)@),
            tb_registry.end() + es_mem(config.store_defs@) + network_mem_size(config.network_config) <= old(mem)@.len(),
        ensures
            final(mem)@.len() == old(mem)@.len(),
            r.0.wf(),
            r.0.placed_on(*tb_registry),
            r.0.def_seq() == config.store_defs@,
            r.0.start() == tb_registry.end(),
            r.0.end() == tb_registry.end() + es_mem(config.store_defs@),
            forall|i: int| 0 <= i < STORE_COUNT ==> (#[trigger] r.0.store_seq()[i]).valid(final(mem)@),
            r.1.wf(),
            r.1.placed_on(*tb_registry),
            r.1.def_seq() == config.lut_defs@,
            tb_registry.control_ok(final(mem)@),
            unchanged_outside(old(mem)@, final(mem)@, tb_registry.start(), r.0.end()),
            all_tb_inv(*tb_registry, old(mem)@) ==> all_tb_inv(*tb_registry, final(mem)@),
            default_data_zero(*tb_registry, old(mem)@) ==> default_data_zero(*tb_registry, final(mem)@),
            !bind ==> forall|i: int| 0 <= i < STORE_COUNT ==> (#[trigger] r.0.store_seq()[i]).slots().inv(final(mem)@),
            !bind ==> forall|i: int| 0 <= i < STORE_COUNT ==> (#[trigger] r.0.store_seq()[i]).slots().fresh(final(mem)@),
            forall|k: int|
                0 <= k < STORE_COUNT ==> (#[trigger] r.0.store_seq()[k]).buffer() == tb_registry.default_buffer()
                    ==> network_tb_size(config.network_config) <= r.0.store_seq()[k].tb_start(),
            forall|k: int|
                0 <= k < LUT_COUNT ==> (#[trigger] r.1.table_seq()[k]).buffer() == tb_registry.default_buffer()
                    ==> network_tb_size(config.network_config) <= r.1.table_seq()[k].tb_start(),
            stores_before_tables(r.0, r.1),
            bind ==> final(mem)@ == old(mem)@,
    {
        let ghost m2 = mem@;
        let ghost reg = *tb_registry;
        let st = Self::create_store_registry(mem, config, tb_registry, bind);
        let ghost m3 = mem@;
        let ends = st.extra_tb_end_offsets();
        let lut = Self::create_lut_registry(mem, config, tb_registry, ends, bind);
        proof {
            let m4 = mem@;
            lemma_stores_frame(reg, st, m2, m3, m4, bind);
            assert forall|k: int, l: int|
                0 <= k < STORE_COUNT && 0 <= l < LUT_COUNT && (#[trigger] st.store_seq()[k]).buffer()
                    == (#[trigger] lut.table_seq()[l]).buffer() implies st.store_seq()[k].tb_end()
                <= lut.table_seq()[l].tb_start() by {
                let a = config.store_defs@[k].tb_id;
                let b = config.lut_defs@[l].tb_id;
                assert(reg.id_ok(a));
                assert(reg.id_ok(b));
                reg.lemma_disjoint(a, b);
                reg.lemma_inside(a);
                reg.tb_for(a).lemma_layout();
            }
        }
        (st, lut)
    }
}

impl<const TB_COUNT: usize, const STORE_COUNT: usize, const LUT_COUNT: usize> Epoch<TB_COUNT, STORE_COUNT, LUT_COUNT> {
    /// Lays an epoch of `config` out from `mem_start_offset`. With `bind`
    /// the epoch adopts what `mem` holds; otherwise `mem` must be zero there
    /// and the epoch starts empty.
    pub fn create(
        mem: &mut AtomicBuffer,
        config: &KernelConfig<TB_COUNT, STORE_COUNT, LUT_COUNT>,
        mem_start_offset: usize,
        bind: bool,
    ) -> (r: Self)
        requires
            config.layout_ok(),
            mem_start_offset + config.epoch_size() <= old(mem)@.len(),
            !bind ==> zeroed_but_user_buffers(old(mem)@, *config, mem_start_offset as int),
            bind ==> Self::bind_ok(old(mem)@, *config, mem_start_offset as int),
        ensures
            r.valid(final(mem)@),
            r.laid_out(*config, mem_start_offset as int),
            !bind ==> r.inv(final(mem)@),
            !bind ==> r.network.ns().empty_slots(final(mem)@),
            !bind ==> r.network.synapse_store().empty_slots(final(mem)@),
            !bind ==> forall|i: int| 0 <= i < r.mem_metadata.cap() ==> #[trigger] r.mem_metadata.view(final(mem)@)[i] == 0,
            r.net_blocks_first(),
            stores_before_tables(r.store_registry, r.lut_registry),
            !bind ==> forall|j: int| r.default_tb().start() + 4 <= j < r.default_tb().end() ==> #[trigger] final(mem)@[j] == 0,
            !bind ==> forall|i: int| 0 <= i < STORE_COUNT ==> (#[trigger] r.store_registry.store_seq()[i]).slots().fresh(final(mem)@),
            bind ==> r.tb_registry.resynced(old(mem)@, final(mem)@),
            unchanged_outside(old(mem)@, final(mem)@, mem_start_offset as int, mem_start_offset + config.epoch_size()),
    {
        let ghost m0 = mem@;
        let (mem_metadata, tb_registry) = Self::create_buffers(mem, config, mem_start_offset, bind);
        let ghost m1 = mem@;
        let (store_registry, lut_registry) = Self::create_stores(mem, config, &tb_registry, bind);
        let ghost m2 = mem@;
        let nc = config.network_config;
        let net_start = store_registry.mem_end_offset();
        let tb = tb_registry.get(TripleBufferId::default_tb());
        proof {
            lemma_config_sizes(*config);
            tb_registry.lemma_inside(TripleBufferId(DEFAULT_TB_RAW));
            tb_registry.default_buffer().lemma_layout();
            lemma_network_layout(*config, *tb, m2, net_start as int);
        }
        let network = NetworkWriter::create(mem, *tb, nc, net_start, 0, bind);
        let r = Epoch { mem_metadata, tb_registry, store_registry, lut_registry, network };
        proof {
            let m3 = mem@;
            lemma_create_done(r, *config, mem_start_offset as int, m0, m1, m2, m3, bind);
            network.ns().lemma_wf();
            network.synapse_store().lemma_wf();
            assert(network.synapse_store().tb_end() == network_tb_size(nc));
            if !bind {
                assert forall|i: int| 0 <= i < STORE_COUNT implies (#[trigger] store_registry.store_seq()[i]).slots().fresh(m3) by {
                    let si = store_registry.store_seq()[i];
                    store_registry.lemma_stores_apart(i, i);
                    si.lemma_wf();
                    si.slots().lemma_wf();
                    assert forall|x: int| si.slots().start() <= x < si.slots().end() implies #[trigger] m3[x] == m2[x] by {
                    }
                    si.slots().lemma_frame(m2, m3);
                }
                mem_metadata.lemma_wf();
                assert forall|i: int| 0 <= i < mem_metadata.cap() implies #[trigger] mem_metadata.view(m3)[i] == 0 by {
                    let j = mem_metadata.start() + i;
                    assert(mem_metadata.view(m1)[i] == 0);
                    assert(m2[j] == m1[j]);
                    assert(m3[j] == m2[j]);
                }
            }
        }
        r
    }
}

/// The network fits behind the stores and at the start of the default buffer.
proof fn lemma_network_layout<const TB: usize, const ST: usize, const LU: usize>(
    config: KernelConfig<TB, ST, LU>,
    tb: TripleBufferWriter,
    mem: Seq<i32>,
    net_start: int,
)
    requires
        config.layout_ok(),
        tb.valid(mem),
        tb.cap() == config.default_tb_capacity(),
        tb.end() <= net_start,
        net_start + network_mem_size(config.network_config) <= mem.len(),
    ensures
        NetworkWriter::layout_ok(mem, tb, config.network_config, net_start, 0),
{
    lemma_config_sizes(config);
    let nc = config.network_config;
    let n = nc.node_config().entry_config();
    let s = nc.synapse_config();
    lemma_es_nonneg(config.store_defs@, TripleBufferId(DEFAULT_TB_RAW));
    lemma_lut_load_nonneg(config.lut_defs@, TripleBufferId(DEFAULT_TB_RAW));
    assert(0 <= n.capacity * (n.core_stride + n.meta_stride)) by (nonlinear_arith);
    assert(0 <= s.capacity * (s.core_stride + s.meta_stride)) by (nonlinear_arith);
    assert(0 <= n.capacity * n.attr_stride) by (nonlinear_arith);
    assert(0 <= s.capacity * s.attr_stride) by (nonlinear_arith);
}

/// What the three steps of `create()` leave add up to a laid out, valid
/// epoch, and an empty consistent one on zeroed memory.
proof fn lemma_create_done<const TB: usize, const ST: usize, const LU: usize>(
    r: Epoch<TB, ST, LU>,
    config: KernelConfig<TB, ST, LU>,
    start: int,
    m0: Seq<i32>,
    m1: Seq<i32>,
    m2: Seq<i32>,
    m3: Seq<i32>,
    bind: bool,
)
    requires
        config.layout_ok(),
        0 <= start,
        start + config.epoch_size() <= m0.len(),
        !bind ==> zeroed_but_user_buffers(m0, config, start),
        m1.len() == m0.len(),
        r.mem_metadata.valid(m1),
        r.mem_metadata.start() == start,
        r.mem_metadata.cap() == config.mem_metadata_size,
        r.tb_registry.wf(),
        r.tb_registry.start() == start + config.mem_metadata_size,
        r.tb_registry.def_seq() == config.tb_defs@,
        r.default_tb().cap() == config.default_tb_capacity(),
        r.tb_registry.end() + es_mem(config.store_defs@) + network_mem_size(config.network_config) == start
            + config.epoch_size(),
        unchanged_outside(m0, m1, start, r.tb_registry.end()),
        !bind ==> all_tb_inv(r.tb_registry, m1),
        !bind ==> default_data_zero(r.tb_registry, m1),
        !bind ==> forall|j: int| r.tb_registry.end() <= j < start + config.epoch_size() ==> #[trigger] m1[j] == 0,
        m2.len() == m1.len(),
        r.store_registry.wf(),
        r.store_registry.placed_on(r.tb_registry),
        r.store_registry.def_seq() == config.store_defs@,
        r.store_registry.start() == r.tb_registry.end(),
        r.store_registry.end() == r.tb_registry.end() + es_mem(config.store_defs@),
        forall|i: int| 0 <= i < ST ==> (#[trigger] r.store_registry.store_seq()[i]).valid(m2),
        r.lut_registry.wf(),
        r.lut_registry.placed_on(r.tb_registry),
        r.lut_registry.def_seq() == config.lut_defs@,
        r.tb_registry.control_ok(m2),
        unchanged_outside(m1, m2, r.tb_registry.start(), r.store_registry.end()),
        all_tb_inv(r.tb_registry, m1) ==> all_tb_inv(r.tb_registry, m2),
        default_data_zero(r.tb_registry, m1) ==> default_data_zero(r.tb_registry, m2),
        !bind ==> forall|i: int| 0 <= i < ST ==> (#[trigger] r.store_registry.store_seq()[i]).slots().inv(m2),
        r.network.valid(m3),
        r.network.ns().buffer() == r.default_tb(),
        r.network.ns().cfg() == config.network_config.node_config().entry_config(),
        r.network.synapse_store().cfg() == config.network_config.synapse_config(),
        r.network.ns().start() == r.store_registry.end(),
        r.network.ns().tb_start() == 0,
        bind ==> m3 == m2,
        !bind ==> {
            &&& r.network.ns().empty_slots(m3)
            &&& r.network.synapse_store().empty_slots(m3)
            &&& unchanged_outside(m2, m3, r.network.ns().start(), r.network.synapse_store().attrs_start())
        },
    ensures
        r.valid(m3),
        r.laid_out(config, start),
        !bind ==> r.inv(m3),
        !bind ==> forall|j: int| r.default_tb().start() + 4 <= j < r.default_tb().end() ==> #[trigger] m3[j] == 0,
        unchanged_outside(m0, m3, start, start + config.epoch_size()),
{
    let reg = r.tb_registry;
    let st = r.store_registry;
    let ns = r.network.ns();
    let ss = r.network.synapse_store();
    let d = r.default_tb();
    let dflt = TripleBufferId(DEFAULT_TB_RAW);
    lemma_config_sizes(config);
    r.mem_metadata.lemma_wf();
    reg.lemma_inside(dflt);
    d.lemma_layout();
    lemma_es_nonneg(st.def_seq(), dflt);
    ns.lemma_wf();
    ns.slots().lemma_wf();
    ss.lemma_wf();
    ss.slots().lemma_wf();
    assert(ns.end() == ns.start() + config.network_config.node_config().entry_config().mem_size());
    assert(ss.end() == ss.start() + config.network_config.synapse_config().mem_size());
    assert(r.end() == start + config.epoch_size());
    assert(unchanged_outside(m2, m3, ns.start(), ss.end()));
    assert(unchanged_outside(m0, m3, start, start + config.epoch_size())) by {
        assert forall|i: int| 0 <= i < m0.len() && !(start <= i < start + config.epoch_size()) implies #[trigger] m3[i] == m0[i] by {
            assert(m1[i] == m0[i]);
            assert(m2[i] == m1[i]);
            assert(m3[i] == m2[i]);
        }
    }
    if !bind {
        reg.lemma_outside(m2, m3, ns.start(), ss.end());
    }
    assert forall|i: int| 0 <= i < ST implies (#[trigger] st.store_seq()[i]).valid(m3) by {
        assert(st.store_seq()[i].valid(m2));
    }
    assert(r.valid(m3));
    if !bind {
        assert(all_tb_inv(reg, m3)) by {
            assert forall|id: TripleBufferId| reg.id_ok(id) implies #[trigger] tb_inv(m3, reg.tb_for(id).start()) by {
                assert(tb_inv(m2, reg.tb_for(id).start()));
            }
        }
        assert(tb_inv(m3, d.start())) by {
            assert(tb_inv(m3, reg.tb_for(dflt).start()));
        }
        assert forall|i: int| 0 <= i < ST implies (#[trigger] st.store_seq()[i]).inv(m3) by {
            let si = st.store_seq()[i];
            st.lemma_stores_apart(i, i);
            si.lemma_wf();
            si.slots().lemma_wf();
            assert forall|x: int| si.slots().start() <= x < si.slots().end() implies #[trigger] m3[x] == m2[x] by {
            }
            si.slots().lemma_frame(m2, m3);
            assert(reg.id_ok(st.def_seq()[i].tb_id));
            assert(tb_inv(m3, reg.tb_for(st.def_seq()[i].tb_id).start()));
        }
        // Every block of the network lies in the zeroed data cells of the default buffer.
        assert forall|j: int| d.start() + 4 <= j < d.end() implies #[trigger] m3[j] == 0 by {
            assert(m2[j] == 0);
        }
        assert forall|i: int| 0 <= i < ns.cap() implies #[trigger] r.network.nodes(m3)[i] == zeros(crate::constants::NODE_STRIDE as int) by {
            let c = cells(m3, ns.block_base(m3, i), ns.cfg().core_stride as int);
            assert forall|t: int| 0 <= t < ns.cfg().core_stride implies #[trigger] c[t] == 0i32 by {
                ns.lemma_block_cell_range(m3, i, t);
            }
            assert(c =~= zeros(crate::constants::NODE_STRIDE as int));
        }
        assert forall|i: int| 0 <= i < ss.cap() implies #[trigger] r.network.syns(m3)[i] == zeros(crate::constants::SYNAPSE_STRIDE as int) by {
            let c = cells(m3, ss.block_base(m3, i), ss.cfg().core_stride as int);
            assert forall|t: int| 0 <= t < ss.cfg().core_stride implies #[trigger] c[t] == 0i32 by {
                ss.lemma_block_cell_range(m3, i, t);
            }
            assert(c =~= zeros(crate::constants::SYNAPSE_STRIDE as int));
        }
        lemma_links_zero(r.network.nodes(m3), r.network.syns(m3), r.network.nc(), r.network.sc());
    }
}

impl<const TB_COUNT: usize, const STORE_COUNT: usize, const LUT_COUNT: usize> Epoch<TB_COUNT, STORE_COUNT, LUT_COUNT> {
    /// A change confined to `[lo, hi)`, a part of the memory plane past the
    /// triple buffers and apart from the network's region, keeps the
    /// network, the buffers and the validity of every part.
    pub proof fn lemma_step_outside_network(&self, m1: Seq<i32>, m2: Seq<i32>, lo: int, hi: int)
        requires
            self.valid(m1),
            self.inv(m1),
            m2.len() == m1.len(),
            unchanged_outside(m1, m2, lo, hi),
            self.tb_registry.end() <= lo,
            hi <= self.network.ns().start(),
        ensures
            self.valid(m2),
            self.network.inv(m2),
            self.network.linked(m2),
            self.network.nodes(m2) == self.network.nodes(m1),
            self.network.syns(m2) == self.network.syns(m1),
            self.network.nodes_same(m1, m2),
            self.network.syns_same(m1, m2),
            all_tb_inv(self.tb_registry, m2),
    {
        let reg = self.tb_registry;
        reg.lemma_inside(TripleBufferId(DEFAULT_TB_RAW));
        self.default_tb().lemma_layout();
        reg.lemma_outside(m1, m2, lo, hi);
        assert(tb_inv(m1, reg.tb_for(TripleBufferId(DEFAULT_TB_RAW)).start()));
        self.network.ns().lemma_wf();
        self.network.synapse_store().lemma_wf();
        assert forall|x: int| self.network.ns().start() <= x < self.network.synapse_store().end() implies #[trigger] m2[x] == m1[x] by {
        }
        assert forall|x: int| self.default_tb().start() <= x < self.default_tb().end() implies #[trigger] m2[x] == m1[x] by {
        }
        lemma_network_untouched(self.network, m1, m2);
        assert forall|i: int| 0 <= i < STORE_COUNT implies (#[trigger] self.store_registry.store_seq()[i]).valid(m2) by {
            assert(self.store_registry.store_seq()[i].valid(m1));
        }
        assert forall|id: TripleBufferId| reg.id_ok(id) implies #[trigger] tb_inv(m2, reg.tb_for(id).start()) by {
            assert(tb_inv(m1, reg.tb_for(id).start()));
        }
    }

    /// A change confined to the network's region keeps the stores' allocators
    /// and the buffers' control cells.
    pub proof fn lemma_step_inside_network(&self, m1: Seq<i32>, m2: Seq<i32>)
        requires
            self.valid(m1),
            self.inv(m1),
            m2.len() == m1.len(),
            unchanged_outside(m1, m2, self.network.ns().start(), self.network.synapse_store().end()),
        ensures
            self.tb_registry.control_ok(m2),
            all_tb_inv(self.tb_registry, m2),
            forall|i: int|
                0 <= i < STORE_COUNT ==> {
                    let si = #[trigger] self.store_registry.store_seq()[i];
                    &&& si.valid(m2)
                    &&& si.inv(m2)
                    &&& si.slots().allocated(m2) == si.slots().allocated(m1)
                    &&& si.slots().deferred(m2) == si.slots().deferred(m1)
                    &&& si.slots().free_order(m2) == si.slots().free_order(m1)
                    &&& si.slots().entries(m2) == si.slots().entries(m1)
                    &&& si.slots().writer_gen(m2) == si.slots().writer_gen(m1)
                    &&& si.slots().ack_gen(m2) == si.slots().ack_gen(m1)
                },
    {
        let reg = self.tb_registry;
        let st = self.store_registry;
        reg.lemma_inside(TripleBufferId(DEFAULT_TB_RAW));
        self.default_tb().lemma_layout();
        self.network.ns().lemma_wf();
        self.network.synapse_store().lemma_wf();
        lemma_es_nonneg(st.def_seq(), TripleBufferId(DEFAULT_TB_RAW));
        reg.lemma_outside(m1, m2, self.network.ns().start(), self.network.synapse_store().end());
        assert forall|id: TripleBufferId| reg.id_ok(id) implies #[trigger] tb_inv(m2, reg.tb_for(id).start()) by {
            assert(tb_inv(m1, reg.tb_for(id).start()));
        }
        assert forall|i: int| 0 <= i < STORE_COUNT implies {
            let si = #[trigger] st.store_seq()[i];
            &&& si.valid(m2)
            &&& si.inv(m2)
            &&& si.slots().allocated(m2) == si.slots().allocated(m1)
            &&& si.slots().deferred(m2) == si.slots().deferred(m1)
            &&& si.slots().free_order(m2) == si.slots().free_order(m1)
            &&& si.slots().entries(m2) == si.slots().entries(m1)
            &&& si.slots().writer_gen(m2) == si.slots().writer_gen(m1)
            &&& si.slots().ack_gen(m2) == si.slots().ack_gen(m1)
        } by {
            let si = st.store_seq()[i];
            st.lemma_stores_apart(i, i);
            si.lemma_wf();
            si.slots().lemma_wf();
            assert(si.valid(m1) && si.inv(m1));
            assert forall|x: int| si.slots().start() <= x < si.slots().end() implies #[trigger] m2[x] == m1[x] by {
            }
            si.slots().lemma_frame(m1, m2);
            assert(reg.id_ok(st.def_seq()[i].tb_id));
            assert(tb_inv(m2, reg.tb_for(st.def_seq()[i].tb_id).start()));
        }
    }
}

impl<const TB_COUNT: usize, const STORE_COUNT: usize, const LUT_COUNT: usize> Epoch<TB_COUNT, STORE_COUNT, LUT_COUNT> {
    /// Publishing the default buffer keeps every part valid and consistent,
    /// leaves the allocators and the network's views as they were, and hands
    /// the writer's buffer to the reader.
    pub proof fn lemma_step_default_publish(&self, m2: Seq<i32>, m3: Seq<i32>)
        requires
            self.valid(m2),
            self.inv(m2),
            m3 == tb_after_publish(m2, self.default_tb().start(), self.default_tb().cap()),
            tb_inv(m3, self.default_tb().start()),
        ensures
            self.valid(m3),
            self.inv(m3),
            self.network.nodes(m3) == self.network.nodes(m2),
            self.network.syns(m3) == self.network.syns(m2),
            self.network.nodes_same(m2, m3),
            self.network.syns_same(m2, m3),
            forall|i: int|
                0 <= i < STORE_COUNT ==> {
                    let si = #[trigger] self.store_registry.store_seq()[i];
                    &&& si.slots().allocated(m3) == si.slots().allocated(m2)
                    &&& si.slots().deferred(m3) == si.slots().deferred(m2)
                    &&& si.slots().free_order(m3) == si.slots().free_order(m2)
                    &&& si.slots().entries(m3) == si.slots().entries(m2)
                    &&& si.slots().writer_gen(m3) == si.slots().writer_gen(m2)
                    &&& si.slots().ack_gen(m3) == si.slots().ack_gen(m2)
                },
            tb_new_data(m3, self.default_tb().start()),
            tb_buf(m3, self.default_tb().start(), self.default_tb().cap(), tb_shared_id(m3, self.default_tb().start()))
                == tb_buf(m2, self.default_tb().start(), self.default_tb().cap(), tb_writer_id(m2, self.default_tb().start())),
            unchanged_outside(m2, m3, self.default_tb().start(), self.default_tb().end()),
    {
        let reg = self.tb_registry;
        let st = self.store_registry;
        let d = self.default_tb();
        let dflt = TripleBufferId(DEFAULT_TB_RAW);
        reg.lemma_inside(dflt);
        d.lemma_layout();
        assert(tb_inv(m2, reg.tb_for(dflt).start()));
        let c = tb_writer_id(m2, d.start());
        let sh = tb_shared_id(m2, d.start());
        assert(unchanged_outside(m2, m3, d.start(), d.end()));
        assert forall|id: TripleBufferId| reg.id_ok(id) implies {
            &&& (#[trigger] reg.tb_for(id)).valid(m3)
            &&& 0 <= tb_writer_id(m3, reg.tb_for(id).start()) < 3
            &&& tb_inv(m3, reg.tb_for(id).start())
        } by {
            reg.lemma_disjoint(id, dflt);
            reg.lemma_inside(id);
            reg.tb_for(id).lemma_layout();
            assert(reg.tb_for(id).valid(m2));
            assert(tb_inv(m2, reg.tb_for(id).start()));
            if reg.tb_for(id) != d {
                lemma_tb_inv_frame(m2, m3, reg.tb_for(id).start());
            }
        }
        assert(reg.control_ok(m3));
        lemma_es_nonneg(st.def_seq(), dflt);
        assert forall|i: int| 0 <= i < STORE_COUNT implies {
            let si = #[trigger] st.store_seq()[i];
            &&& si.valid(m3)
            &&& si.inv(m3)
            &&& si.slots().allocated(m3) == si.slots().allocated(m2)
            &&& si.slots().deferred(m3) == si.slots().deferred(m2)
            &&& si.slots().free_order(m3) == si.slots().free_order(m2)
            &&& si.slots().entries(m3) == si.slots().entries(m2)
            &&& si.slots().writer_gen(m3) == si.slots().writer_gen(m2)
            &&& si.slots().ack_gen(m3) == si.slots().ack_gen(m2)
        } by {
            let si = st.store_seq()[i];
            st.lemma_stores_apart(i, i);
            si.lemma_wf();
            si.slots().lemma_wf();
            assert(si.valid(m2) && si.inv(m2));
            assert forall|x: int| si.slots().start() <= x < si.slots().end() implies #[trigger] m3[x] == m2[x] by {
            }
            si.slots().lemma_frame(m2, m3);
            assert(reg.id_ok(st.def_seq()[i].tb_id));
            assert(tb_inv(m3, reg.tb_for(st.def_seq()[i].tb_id).start()));
        }
        let ns = self.network.ns();
        let ss = self.network.synapse_store();
        ns.lemma_wf();
        ss.lemma_wf();
        ns.lemma_tb_publish_views(m2);
        ss.lemma_tb_publish_views(m2);
        ns.slots().lemma_frame(m2, m3);
        ss.slots().lemma_frame(m2, m3);
        assert(tb_buf(m3, d.start(), d.cap(), tb_shared_id(m3, d.start())) =~= tb_buf(m2, d.start(), d.cap(), c));
    }
}

impl<const TB_COUNT: usize, const STORE_COUNT: usize, const LUT_COUNT: usize> Epoch<TB_COUNT, STORE_COUNT, LUT_COUNT> {
    /// Deploys the structural changes: every store and the network reclaim
    /// their acknowledged retired slots and advance their generations, then
    /// the default triple buffer hands its writer buffer to the reader.
    pub fn publish(&self, mem: &mut AtomicBuffer)
        requires
            self.valid(old(mem)@),
            self.inv(old(mem)@),
        ensures
            self.valid(final(mem)@),
            self.inv(final(mem)@),
            forall|i: int|
                0 <= i < STORE_COUNT ==> (#[trigger] self.store_registry.store_seq()[i]).slots().publish_result(
                    old(mem)@,
                    final(mem)@,
                ),
            self.network.ns().slots().publish_result(old(mem)@, final(mem)@),
            self.network.synapse_store().slots().publish_result(old(mem)@, final(mem)@),
            self.network.nodes(final(mem)@) == self.network.nodes(old(mem)@),
            self.network.syns(final(mem)@) == self.network.syns(old(mem)@),
            tb_new_data(final(mem)@, self.default_tb().start()),
            tb_buf(
                final(mem)@,
                self.default_tb().start(),
                self.default_tb().cap(),
                tb_shared_id(final(mem)@, self.default_tb().start()),
            ) == tb_buf(old(mem)@, self.default_tb().start(), self.default_tb().cap(), tb_writer_id(old(mem)@, self.default_tb().start())),
            forall|j: int| 0 <= j < self.mem_metadata.end() ==> #[trigger] final(mem)@[j] == old(mem)@[j],
            final(mem)@.len() == old(mem)@.len(),
            tb_in_sync(final(mem)@, self.default_tb().start(), self.default_tb().cap()),
            self.tb_registry.users_in_sync(old(mem)@) ==> self.tb_registry.in_sync(final(mem)@),
    {
        let ghost m0 = mem@;
        proof {
            lemma_es_nonneg(self.store_registry.def_seq(), TripleBufferId(DEFAULT_TB_RAW));
        }
        self.store_registry.publish_all(mem);
        let ghost m1 = mem@;
        proof {
            self.lemma_step_outside_network(m0, m1, self.store_registry.start(), self.store_registry.end());
        }
        self.network.publish(mem);
        let ghost m2 = mem@;
        proof {
            assert(self.valid(m1)) by {
                assert forall|i: int| 0 <= i < STORE_COUNT implies (#[trigger] self.store_registry.store_seq()[i]).valid(m1) by {
                }
            }
            assert(self.inv(m1));
            self.lemma_step_inside_network(m1, m2);
            assert(self.valid(m2));
            assert(self.inv(m2));
        }
        let tb = self.tb_registry.get(TripleBufferId::default_tb());
        proof {
            self.tb_registry.lemma_inside(TripleBufferId(DEFAULT_TB_RAW));
            assert(tb_inv(m2, self.tb_registry.tb_for(TripleBufferId(DEFAULT_TB_RAW)).start()));
        }
        tb.publish(mem);
        proof {
            let m3 = mem@;
            self.lemma_step_default_publish(m2, m3);
            let d = self.default_tb();
            d.lemma_layout();
            self.network.ns().lemma_wf();
            self.network.synapse_store().lemma_wf();
            assert(unchanged_outside(m0, m1, self.store_registry.start(), self.store_registry.end()));
            assert(unchanged_outside(m1, m2, self.network.ns().start(), self.network.synapse_store().end()));
            assert forall|x: int| d.start() <= x < d.end() implies #[trigger] m2[x] == m0[x] by {
                assert(m1[x] == m0[x]);
                assert(m2[x] == m1[x]);
            }
            self.mem_metadata.lemma_wf();
            assert forall|x: int| 0 <= x < self.mem_metadata.end() implies #[trigger] m3[x] == m0[x] by {
                assert(m1[x] == m0[x]);
                assert(m2[x] == m1[x]);
            }
            assert(tb_buf(m2, d.start(), d.cap(), tb_writer_id(m2, d.start())) =~= tb_buf(
                m0,
                d.start(),
                d.cap(),
                tb_writer_id(m0, d.start()),
            )) by {
                assert(m2[d.start() + 1] == m0[d.start() + 1]);
            }
        }
        proof {
            let m3 = mem@;
            let d = self.default_tb();
            let reg = self.tb_registry;
            let dflt = TripleBufferId(DEFAULT_TB_RAW);
            reg.lemma_inside(dflt);
            d.lemma_layout();
            lemma_publish_in_sync(m2, d.start(), d.cap());
            if reg.users_in_sync(m0) {
                assert forall|x: TripleBufferId| reg.id_ok(x) implies #[trigger] tb_in_sync(m3, reg.tb_for(x).start(), reg.tb_for(x).cap()) by {
                    if x.0 != DEFAULT_TB_RAW {
                        reg.lemma_disjoint(x, dflt);
                        reg.lemma_inside(x);
                        reg.tb_for(x).lemma_layout();
                        self.network.ns().lemma_wf();
                        self.network.synapse_store().lemma_wf();
                        assert forall|i: int| reg.tb_for(x).start() <= i < reg.tb_for(x).end() implies #[trigger] m3[i] == m0[i] by {
                            assert(m1[i] == m0[i]);
                            assert(m2[i] == m1[i]);
                        }
                        reg.lemma_in_sync_frame(m0, m3, x);
                    }
                }
            }
        }
    }
}

impl<const TB_COUNT: usize, const STORE_COUNT: usize, const LUT_COUNT: usize> Epoch<TB_COUNT, STORE_COUNT, LUT_COUNT> {
    /// A change confined to the cells of user buffer `id` keeps the network,
    /// the allocators and every other buffer.
    pub proof fn lemma_step_user_buffer(&self, id: TripleBufferId, m2: Seq<i32>, m3: Seq<i32>)
        requires
            self.valid(m2),
            self.inv(m2),
            id.0 < TB_COUNT,
            m3.len() == m2.len(),
            unchanged_outside(m2, m3, self.tb_registry.tb_for(id).start(), self.tb_registry.tb_for(id).end()),
            tb_inv(m3, self.tb_registry.tb_for(id).start()),
        ensures
            self.valid(m3),
            self.inv(m3),
            self.network.nodes(m3) == self.network.nodes(m2),
            self.network.syns(m3) == self.network.syns(m2),
            self.network.nodes_same(m2, m3),
            self.network.syns_same(m2, m3),
            forall|i: int|
                0 <= i < STORE_COUNT ==> {
                    let si = #[trigger] self.store_registry.store_seq()[i];
                    &&& si.slots().allocated(m3) == si.slots().allocated(m2)
                    &&& si.slots().deferred(m3) == si.slots().deferred(m2)
                    &&& si.slots().free_order(m3) == si.slots().free_order(m2)
                    &&& si.slots().entries(m3) == si.slots().entries(m2)
                    &&& si.slots().writer_gen(m3) == si.slots().writer_gen(m2)
                    &&& si.slots().ack_gen(m3) == si.slots().ack_gen(m2)
                },
    {
        let reg = self.tb_registry;
        let st = self.store_registry;
        let u = reg.tb_for(id);
        let dflt = TripleBufferId(DEFAULT_TB_RAW);
        reg.lemma_inside(dflt);
        reg.lemma_inside(id);
        u.lemma_layout();
        self.default_tb().lemma_layout();
        reg.lemma_disjoint(id, dflt);
        assert(u != self.default_tb()) by {
            assert(reg.start() + tb_size(self.default_tb().cap()) <= u.start());
        }
        assert forall|x: TripleBufferId| reg.id_ok(x) implies {
            &&& (#[trigger] reg.tb_for(x)).valid(m3)
            &&& 0 <= tb_writer_id(m3, reg.tb_for(x).start()) < 3
            &&& tb_inv(m3, reg.tb_for(x).start())
        } by {
            reg.lemma_disjoint(id, x);
            reg.lemma_inside(x);
            reg.tb_for(x).lemma_layout();
            assert(reg.tb_for(x).valid(m2));
            assert(tb_inv(m2, reg.tb_for(x).start()));
            if reg.tb_for(x) != u {
                lemma_tb_inv_frame(m2, m3, reg.tb_for(x).start());
            }
        }
        lemma_es_nonneg(st.def_seq(), dflt);
        assert forall|i: int| 0 <= i < STORE_COUNT implies {
            let si = #[trigger] st.store_seq()[i];
            &&& si.valid(m3)
            &&& si.inv(m3)
            &&& si.slots().allocated(m3) == si.slots().allocated(m2)
            &&& si.slots().deferred(m3) == si.slots().deferred(m2)
            &&& si.slots().free_order(m3) == si.slots().free_order(m2)
            &&& si.slots().entries(m3) == si.slots().entries(m2)
            &&& si.slots().writer_gen(m3) == si.slots().writer_gen(m2)
            &&& si.slots().ack_gen(m3) == si.slots().ack_gen(m2)
        } by {
            let si = st.store_seq()[i];
            st.lemma_stores_apart(i, i);
            si.lemma_wf();
            si.slots().lemma_wf();
            assert(si.valid(m2) && si.inv(m2));
            assert forall|x: int| si.slots().start() <= x < si.slots().end() implies #[trigger] m3[x] == m2[x] by {
            }
            si.slots().lemma_frame(m2, m3);
            assert(reg.id_ok(st.def_seq()[i].tb_id));
            assert(tb_inv(m3, reg.tb_for(st.def_seq()[i].tb_id).start()));
        }
        self.network.ns().lemma_wf();
        self.network.synapse_store().lemma_wf();
        assert(tb_inv(m2, reg.tb_for(dflt).start()));
        assert forall|x: int| self.network.ns().start() <= x < self.network.synapse_store().end() implies #[trigger] m3[x] == m2[x] by {
        }
        assert forall|x: int| self.default_tb().start() <= x < self.default_tb().end() implies #[trigger] m3[x] == m2[x] by {
        }
        lemma_network_untouched(self.network, m2, m3);
    }

    /// Deploys the writer buffer of user triple buffer `tb_id` to the reader.
    pub fn publish_tb(&self, mem: &mut AtomicBuffer, tb_id: TripleBufferId)
        requires
            self.valid(old(mem)@),
            self.inv(old(mem)@),
            tb_id.0 < TB_COUNT,
        ensures
            self.valid(final(mem)@),
            self.inv(final(mem)@),
            final(mem)@ == tb_after_publish(
                old(mem)@,
                self.tb_registry.tb_for(tb_id).start(),
                self.tb_registry.tb_for(tb_id).cap(),
            ),
    {
        let tb = self.tb_registry.get(tb_id);
        proof {
            self.tb_registry.lemma_inside(tb_id);
            assert(tb_inv(old(mem)@, self.tb_registry.tb_for(tb_id).start()));
        }
        tb.publish(mem);
        proof {
            let u = self.tb_registry.tb_for(tb_id);
            u.lemma_layout();
            assert(unchanged_outside(old(mem)@, mem@, u.start(), u.end()));
            self.lemma_step_user_buffer(tb_id, old(mem)@, mem@);
        }
    }
}

impl<const TB_COUNT: usize, const STORE_COUNT: usize, const LUT_COUNT: usize> Epoch<TB_COUNT, STORE_COUNT, LUT_COUNT> {
    /// A network operation, which keeps to the network's frame, keeps every
    /// other part of the epoch.
    /// A memory that differs from `sm` only inside the triple buffers shows
    /// the same metadata and the same network allocators.
    pub proof fn lemma_load_views(&self, sm: Seq<i32>, m: Seq<i32>)
        requires
            self.valid(m),
            self.tb_registry.resynced(sm, m),
        ensures
            self.mem_metadata.view(m) == self.mem_metadata.view(sm),
            self.network.ns().slots().allocated(m) == self.network.ns().slots().allocated(sm),
            self.network.ns().slots().deferred(m) == self.network.ns().slots().deferred(sm),
            self.network.ns().slots().writer_gen(m) == self.network.ns().slots().writer_gen(sm),
            self.network.ns().slots().ack_gen(m) == self.network.ns().slots().ack_gen(sm),
            self.network.ns().slots().inv(m) ==> self.network.ns().slots().free_order(m) == self.network.ns().slots().free_order(sm)
                && self.network.ns().slots().entries(m) == self.network.ns().slots().entries(sm),
            self.network.synapse_store().slots().allocated(m) == self.network.synapse_store().slots().allocated(sm),
            self.network.synapse_store().slots().deferred(m) == self.network.synapse_store().slots().deferred(sm),
            self.network.synapse_store().slots().writer_gen(m) == self.network.synapse_store().slots().writer_gen(sm),
            self.network.synapse_store().slots().ack_gen(m) == self.network.synapse_store().slots().ack_gen(sm),
            self.network.synapse_store().slots().inv(m) ==> self.network.synapse_store().slots().free_order(m)
                == self.network.synapse_store().slots().free_order(sm) && self.network.synapse_store().slots().entries(m)
                == self.network.synapse_store().slots().entries(sm),
    {
        let ns = self.network.ns();
        let ss = self.network.synapse_store();
        ns.lemma_wf();
        ss.lemma_wf();
        self.mem_metadata.lemma_wf();
        self.tb_registry.lemma_inside(TripleBufferId(DEFAULT_TB_RAW));
        assert(self.mem_metadata.view(m) =~= self.mem_metadata.view(sm));
        lemma_es_nonneg(self.store_registry.def_seq(), TripleBufferId(DEFAULT_TB_RAW));
        assert(self.tb_registry.end() <= ns.start());
        assert forall|i: int| ns.slots().start() <= i < ns.slots().end() implies #[trigger] sm[i] == m[i] by {}
        assert forall|i: int| ss.slots().start() <= i < ss.slots().end() implies #[trigger] sm[i] == m[i] by {}
        ns.slots().lemma_frame(m, sm);
        ss.slots().lemma_frame(m, sm);
    }

    /// Loading memory whose default buffer is in sync leaves that buffer as
    /// it was, so every node and synapse reads as on the snapshot.
    pub proof fn lemma_load_graph(&self, sm: Seq<i32>, m: Seq<i32>)
        requires
            self.valid(m),
            self.valid(sm),
            self.tb_registry.resynced(sm, m),
            tb_in_sync(sm, self.default_tb().start(), self.default_tb().cap()),
            tb_inv(sm, self.default_tb().start()),
        ensures
            self.network.nodes(m) == self.network.nodes(sm),
            self.network.syns(m) == self.network.syns(sm),
    {
        let reg = self.tb_registry;
        let dflt = TripleBufferId(DEFAULT_TB_RAW);
        let d = self.default_tb();
        reg.lemma_inside(dflt);
        d.lemma_layout();
        assert(reg.tb_for(dflt) == d);
        assert(tb_resynced_at(sm, m, d.start(), d.cap()));
        assert(m[d.start() + 1] == sm[d.start() + 1]);
        assert forall|x: int| d.start() + 4 <= x < d.end() implies #[trigger] m[x] == sm[x] by {
            let off = x - d.start() - 4;
            let c = d.cap();
            let k: int = if off < c {
                0
            } else if off < 2 * c {
                1
            } else {
                2
            };
            let t = off - k * c;
            assert(x == tb_base(d.start(), c, k) + t);
            assert(0 <= t < c);
            assert(m[tb_base(d.start(), c, k) + t] == if k == tb_writer_id(sm, d.start()) {
                sm[tb_base(d.start(), c, tb_published_id(sm, d.start())) + t]
            } else {
                sm[tb_base(d.start(), c, k) + t]
            });
            if k == tb_writer_id(sm, d.start()) {
                assert(sm[tb_base(d.start(), c, tb_writer_id(sm, d.start())) + t] == sm[tb_base(
                    d.start(),
                    c,
                    tb_published_id(sm, d.start()),
                ) + t]);
            }
        }
        lemma_store_views_untouched_but_control(self.network.ns(), sm, m);
        lemma_store_views_untouched_but_control(self.network.synapse_store(), sm, m);
    }

    pub proof fn lemma_step_network(&self, m1: Seq<i32>, m2: Seq<i32>)
        requires
            self.valid(m1),
            self.inv(m1),
            self.network.frame(m1, m2),
            self.network.valid(m2),
            self.network.inv(m2),
            self.network.linked(m2),
        ensures
            self.valid(m2),
            self.inv(m2),
            forall|i: int|
                0 <= i < STORE_COUNT ==> {
                    let si = #[trigger] self.store_registry.store_seq()[i];
                    &&& si.slots().allocated(m2) == si.slots().allocated(m1)
                    &&& si.slots().deferred(m2) == si.slots().deferred(m1)
                    &&& si.slots().free_order(m2) == si.slots().free_order(m1)
                    &&& si.slots().entries(m2) == si.slots().entries(m1)
                    &&& si.slots().writer_gen(m2) == si.slots().writer_gen(m1)
                    &&& si.slots().ack_gen(m2) == si.slots().ack_gen(m1)
                },
            forall|j: int| 0 <= j < self.mem_metadata.end() ==> #[trigger] m2[j] == m1[j],
    {
        let reg = self.tb_registry;
        let st = self.store_registry;
        let d = self.default_tb();
        let dflt = TripleBufferId(DEFAULT_TB_RAW);
        let ns = self.network.ns();
        let ss = self.network.synapse_store();
        reg.lemma_inside(dflt);
        d.lemma_layout();
        ns.lemma_wf();
        ss.lemma_wf();
        self.mem_metadata.lemma_wf();
        lemma_es_nonneg(st.def_seq(), dflt);
        assert(tb_inv(m1, reg.tb_for(dflt).start()));
        let wb = d.writer_base(m1);
        assert(d.start() + 4 <= wb && wb + d.cap() <= d.end());
        // Everything before the network's memory region, outside the default
        // buffer's data cells, is untouched.
        assert forall|x: int| 0 <= x < ns.start() && !(d.start() + 4 <= x < d.end()) implies #[trigger] m2[x] == m1[x] by {
        }
        assert forall|x: TripleBufferId| reg.id_ok(x) implies {
            &&& (#[trigger] reg.tb_for(x)).valid(m2)
            &&& 0 <= tb_writer_id(m2, reg.tb_for(x).start()) < 3
            &&& tb_inv(m2, reg.tb_for(x).start())
        } by {
            reg.lemma_disjoint(x, dflt);
            reg.lemma_inside(x);
            reg.tb_for(x).lemma_layout();
            assert(reg.tb_for(x).valid(m1));
            assert(tb_inv(m1, reg.tb_for(x).start()));
            lemma_tb_inv_frame(m1, m2, reg.tb_for(x).start());
        }
        assert forall|i: int| 0 <= i < STORE_COUNT implies {
            let si = #[trigger] st.store_seq()[i];
            &&& si.valid(m2)
            &&& si.inv(m2)
            &&& si.slots().allocated(m2) == si.slots().allocated(m1)
            &&& si.slots().deferred(m2) == si.slots().deferred(m1)
            &&& si.slots().free_order(m2) == si.slots().free_order(m1)
            &&& si.slots().entries(m2) == si.slots().entries(m1)
            &&& si.slots().writer_gen(m2) == si.slots().writer_gen(m1)
            &&& si.slots().ack_gen(m2) == si.slots().ack_gen(m1)
        } by {
            let si = st.store_seq()[i];
            st.lemma_stores_apart(i, i);
            si.lemma_wf();
            si.slots().lemma_wf();
            assert(si.valid(m1) && si.inv(m1));
            assert forall|x: int| si.slots().start() <= x < si.slots().end() implies #[trigger] m2[x] == m1[x] by {
            }
            si.slots().lemma_frame(m1, m2);
            assert(reg.id_ok(st.def_seq()[i].tb_id));
            assert(tb_inv(m2, reg.tb_for(st.def_seq()[i].tb_id).start()));
        }
    }

    /// A write to the metadata cells keeps every other part of the epoch.
    pub proof fn lemma_step_metadata(&self, m1: Seq<i32>, m2: Seq<i32>)
        requires
            self.valid(m1),
            self.inv(m1),
            m2.len() == m1.len(),
            unchanged_outside(m1, m2, self.mem_metadata.start(), self.mem_metadata.end()),
        ensures
            self.valid(m2),
            self.inv(m2),
            self.network.nodes(m2) == self.network.nodes(m1),
            self.network.syns(m2) == self.network.syns(m1),
            self.network.nodes_same(m1, m2),
            self.network.syns_same(m1, m2),
    {
        let reg = self.tb_registry;
        let st = self.store_registry;
        let dflt = TripleBufferId(DEFAULT_TB_RAW);
        reg.lemma_inside(dflt);
        self.default_tb().lemma_layout();
        self.mem_metadata.lemma_wf();
        lemma_es_nonneg(st.def_seq(), dflt);
        reg.lemma_outside(m1, m2, self.mem_metadata.start(), self.mem_metadata.end());
        assert forall|id: TripleBufferId| reg.id_ok(id) implies #[trigger] tb_inv(m2, reg.tb_for(id).start()) by {
            assert(tb_inv(m1, reg.tb_for(id).start()));
        }
        assert forall|i: int| 0 <= i < STORE_COUNT implies {
            let si = #[trigger] st.store_seq()[i];
            &&& si.valid(m2)
            &&& si.inv(m2)
        } by {
            let si = st.store_seq()[i];
            st.lemma_stores_apart(i, i);
            si.lemma_wf();
            si.slots().lemma_wf();
            assert(si.valid(m1) && si.inv(m1));
            assert forall|x: int| si.slots().start() <= x < si.slots().end() implies #[trigger] m2[x] == m1[x] by {
            }
            si.slots().lemma_frame(m1, m2);
            assert(reg.id_ok(st.def_seq()[i].tb_id));
            assert(tb_inv(m2, reg.tb_for(st.def_seq()[i].tb_id).start()));
        }
        self.network.ns().lemma_wf();
        self.network.synapse_store().lemma_wf();
        assert(tb_inv(m1, reg.tb_for(dflt).start()));
        assert forall|x: int| self.network.ns().start() <= x < self.network.synapse_store().end() implies #[trigger] m2[x] == m1[x] by {
        }
        assert forall|x: int| self.default_tb().start() <= x < self.default_tb().end() implies #[trigger] m2[x] == m1[x] by {
        }
        lemma_network_untouched(self.network, m1, m2);
    }
}

impl<const TB_COUNT: usize, const STORE_COUNT: usize, const LUT_COUNT: usize> Epoch<TB_COUNT, STORE_COUNT, LUT_COUNT> {
    /// `m` reads the cells this epoch writes.
    pub open spec fn mirrored_by(&self, m: EpochMirror<TB_COUNT, STORE_COUNT, LUT_COUNT>) -> bool {
        &&& m.tb_registry.wf()
        &&& m.default_tb().wf()
        &&& m.default_tb().start() == self.default_tb().start()
        &&& m.default_tb().cap() == self.default_tb().cap()
        &&& m.tb_registry.index() == self.tb_registry.index()
        &&& forall|i: int|
            0 <= i < TB_COUNT ==> (#[trigger] m.tb_registry.buffers()[i]).start() == self.tb_registry.buffers()[i].start()
                && m.tb_registry.buffers()[i].cap() == self.tb_registry.buffers()[i].cap()
                && m.tb_registry.buffers()[i].wf()
        &&& m.mem_metadata.wf()
        &&& m.mem_metadata.start() == self.mem_metadata.start()
        &&& m.mem_metadata.cap() == self.mem_metadata.cap()
        &&& m.store_registry.wf()
        &&& m.store_registry.index() == self.store_registry.index()
        &&& m.lut_registry.wf()
        &&& m.lut_registry.index() == self.lut_registry.index()
        &&& m.network.node_store().store().staging().wf()
        &&& m.node_gens() == self.network.ns().slots().staging().start()
        &&& m.network.node_store().store().staging().cap() == self.network.ns().cap()
        &&& m.network.synapse_store().staging().wf()
        &&& m.synapse_gens() == self.network.synapse_store().slots().staging().start()
        &&& m.network.synapse_store().staging().cap() == self.network.synapse_store().cap()
    }

    /// The consumer's mirror of this epoch.
    pub fn to_mirror(&self, mem: &AtomicBuffer) -> (r: EpochMirror<TB_COUNT, STORE_COUNT, LUT_COUNT>)
        requires
            self.valid(mem@),
        ensures
            self.mirrored_by(r),
    {
        proof {
            self.mem_metadata.lemma_wf();
        }
        let tb_registry = self.tb_registry.to_reader();
        let store_registry = self.store_registry.to_reader(mem);
        let lut_registry = self.lut_registry.to_reader();
        let network = self.network.to_reader(mem);
        let mem_metadata = self.mem_metadata.to_reader();
        EpochMirror { mem_metadata, tb_registry, store_registry, lut_registry, network }
    }

    /// The writer generations of the network can be acknowledged.
    pub open spec fn gens_ackable(&self, mem: Seq<i32>) -> bool {
        &&& self.network.ns().slots().writer_gen(mem) != i32::MIN
        &&& self.network.synapse_store().slots().writer_gen(mem) != i32::MIN
    }

    /// A mirror of a valid, consistent epoch can swap.
    pub proof fn lemma_swap_ok(&self, m: EpochMirror<TB_COUNT, STORE_COUNT, LUT_COUNT>, mem: Seq<i32>)
        requires
            self.valid(mem),
            self.inv(mem),
            self.mirrored_by(m),
            self.gens_ackable(mem),
        ensures
            m.swap_ok(mem),
    {
        let reg = self.tb_registry;
        let d = self.default_tb();
        let dflt = TripleBufferId(DEFAULT_TB_RAW);
        let ns = self.network.ns();
        let ss = self.network.synapse_store();
        reg.lemma_inside(dflt);
        d.lemma_layout();
        m.default_tb().lemma_layout();
        ns.lemma_wf();
        ss.lemma_wf();
        ns.slots().lemma_wf();
        ss.slots().lemma_wf();
        ns.slots().staging().lemma_wf();
        ss.slots().staging().lemma_wf();
        m.network.node_store().store().staging().lemma_layout();
        m.network.synapse_store().staging().lemma_layout();
        lemma_es_nonneg(self.store_registry.def_seq(), dflt);
        assert(tb_inv(mem, reg.tb_for(dflt).start()));
        assert(ns.slots().writer_gen(mem) == mem[m.node_gens()]) by {
            ns.slots().lemma_writer_gen_cell(mem);
        }
        assert(ss.slots().writer_gen(mem) == mem[m.synapse_gens()]) by {
            ss.slots().lemma_writer_gen_cell(mem);
        }
    }
}

impl<const TB_COUNT: usize, const STORE_COUNT: usize, const LUT_COUNT: usize> Epoch<TB_COUNT, STORE_COUNT, LUT_COUNT> {
    /// The consumer's swap keeps the epoch valid and consistent: the network
    /// reads the same, and its allocators learn the acknowledged generations.
    pub proof fn lemma_after_swap(&self, m: EpochMirror<TB_COUNT, STORE_COUNT, LUT_COUNT>, mem: Seq<i32>)
        requires
            self.valid(mem),
            self.inv(mem),
            self.mirrored_by(m),
            self.gens_ackable(mem),
            tb_inv(tb_after_swap(mem, self.default_tb().start()), self.default_tb().start()),
        ensures
            ({
                let m2 = m.after_swap(mem);
                let ns = self.network.ns().slots();
                let ss = self.network.synapse_store().slots();
                &&& self.valid(m2)
                &&& self.inv(m2)
                &&& self.network.nodes(m2) == self.network.nodes(mem)
                &&& self.network.syns(m2) == self.network.syns(mem)
                &&& ns.allocated(m2) == ns.allocated(mem)
                &&& ns.deferred(m2) == ns.deferred(mem)
                &&& ns.free_order(m2) == ns.free_order(mem)
                &&& ns.entries(m2) == ns.entries(mem)
                &&& ns.writer_gen(m2) == ns.writer_gen(mem)
                &&& ns.ack_gen(m2) == ns.writer_gen(mem) - 1
                &&& ss.allocated(m2) == ss.allocated(mem)
                &&& ss.deferred(m2) == ss.deferred(mem)
                &&& ss.free_order(m2) == ss.free_order(mem)
                &&& ss.entries(m2) == ss.entries(mem)
                &&& ss.writer_gen(m2) == ss.writer_gen(mem)
                &&& ss.ack_gen(m2) == ss.writer_gen(mem) - 1
            }),
    {
        let reg = self.tb_registry;
        let st = self.store_registry;
        let d = self.default_tb();
        let dflt = TripleBufferId(DEFAULT_TB_RAW);
        let nst = self.network.ns();
        let sst = self.network.synapse_store();
        let ns = nst.slots();
        let ss = sst.slots();
        self.lemma_swap_ok(m, mem);
        let m1 = tb_after_swap(mem, d.start());
        let ma = acked(m1, m.node_gens());
        let m2 = acked(ma, m.synapse_gens());
        reg.lemma_inside(dflt);
        d.lemma_layout();
        nst.lemma_wf();
        sst.lemma_wf();
        ns.lemma_wf();
        ss.lemma_wf();
        ns.lemma_writer_gen_cell(mem);
        ss.lemma_writer_gen_cell(mem);
        ns.lemma_writer_gen_cell(m2);
        ss.lemma_writer_gen_cell(m2);
        lemma_es_nonneg(st.def_seq(), dflt);
        assert(tb_inv(mem, reg.tb_for(dflt).start()));
        assert(m2.len() == mem.len());
        // Only two control cells of the default buffer and the two
        // acknowledgement cells change.
        assert forall|x: int|
            0 <= x < mem.len() && x != d.start() && x != d.start() + 3 && x != m.node_gens() + 1 && x
                != m.synapse_gens() + 1 implies #[trigger] m2[x] == mem[x] by {
        }
        assert(m2[m.node_gens() + 1] == mem[m.node_gens()] - 1);
        assert(m2[m.synapse_gens() + 1] == mem[m.synapse_gens()] - 1);
        assert(m2[d.start()] == m1[d.start()]);
        assert(m2[d.start() + 1] == mem[d.start() + 1]);
        assert(m2[d.start() + 2] == mem[d.start() + 2]);
        assert(m2[d.start() + 3] == m1[d.start() + 3]);
        assert(tb_inv(m2, d.start())) by {
            assert(m1[d.start() + 1] == mem[d.start() + 1]);
            assert(m1[d.start() + 2] == mem[d.start() + 2]);
        }
        // Every other buffer keeps its control cells.
        assert forall|x: TripleBufferId| reg.id_ok(x) implies {
            &&& (#[trigger] reg.tb_for(x)).valid(m2)
            &&& 0 <= tb_writer_id(m2, reg.tb_for(x).start()) < 3
            &&& tb_inv(m2, reg.tb_for(x).start())
        } by {
            reg.lemma_disjoint(x, dflt);
            reg.lemma_inside(x);
            reg.tb_for(x).lemma_layout();
            assert(reg.tb_for(x).valid(mem));
            assert(tb_inv(mem, reg.tb_for(x).start()));
            if reg.tb_for(x) != d {
                lemma_tb_inv_frame(mem, m2, reg.tb_for(x).start());
            }
        }
        assert forall|i: int| 0 <= i < STORE_COUNT implies {
            let si = #[trigger] st.store_seq()[i];
            &&& si.valid(m2)
            &&& si.inv(m2)
        } by {
            let si = st.store_seq()[i];
            st.lemma_stores_apart(i, i);
            si.lemma_wf();
            si.slots().lemma_wf();
            assert(si.valid(mem) && si.inv(mem));
            assert forall|x: int| si.slots().start() <= x < si.slots().end() implies #[trigger] m2[x] == mem[x] by {
            }
            si.slots().lemma_frame(mem, m2);
            assert(reg.id_ok(st.def_seq()[i].tb_id));
            assert(tb_inv(m2, reg.tb_for(st.def_seq()[i].tb_id).start()));
        }
        // The network's allocators see the acknowledgements only.
        assert forall|x: int| ns.start() <= x < ns.end() && x != ns.staging().start() + 1 implies #[trigger] m2[x] == mem[x] by {
        }
        assert forall|x: int| ss.start() <= x < ss.end() && x != ss.staging().start() + 1 implies #[trigger] m2[x] == mem[x] by {
        }
        ns.lemma_ack_cell(mem, m2);
        ss.lemma_ack_cell(mem, m2);
        // The network's blocks read the same: the writer index is untouched.
        assert forall|x: int| d.start() + 4 <= x < d.end() implies #[trigger] m2[x] == mem[x] by {
        }
        lemma_store_views_untouched_but_control(nst, mem, m2);
        lemma_store_views_untouched_but_control(sst, mem, m2);
    }
}

/// A change that spares a store's triple buffer but for the state and reader
/// cells leaves the store's block views as they were.
pub proof fn lemma_store_views_untouched_but_control(
    st: crate::primitives::entry_store_writer::EntryStoreWriter,
    m1: Seq<i32>,
    m2: Seq<i32>,
)
    requires
        st.valid(m1),
        tb_inv(m1, st.buffer().start()),
        m2.len() == m1.len(),
        m2[st.buffer().start() + 1] == m1[st.buffer().start() + 1],
        forall|x: int| st.buffer().start() + 4 <= x < st.buffer().end() ==> #[trigger] m2[x] == m1[x],
    ensures
        st.core_view(m2) == st.core_view(m1),
        st.meta_view(m2) == st.meta_view(m1),
        st.buffer().writer_base(m2) == st.buffer().writer_base(m1),
{
    let b = st.buffer();
    st.lemma_wf();
    b.lemma_layout();
    assert forall|i: int| 0 <= i < st.cap() implies #[trigger] st.core_view(m2)[i] == st.core_view(m1)[i] by {
        let a2 = cells(m2, st.block_base(m2, i), st.cfg().core_stride as int);
        let a1 = cells(m1, st.block_base(m1, i), st.cfg().core_stride as int);
        assert forall|t: int| 0 <= t < st.cfg().core_stride implies #[trigger] a2[t] == a1[t] by {
            st.lemma_block_cell_range(m1, i, t);
        }
        assert(a2 =~= a1);
    }
    assert forall|i: int| 0 <= i < st.cap() implies #[trigger] st.meta_view(m2)[i] == st.meta_view(m1)[i] by {
        let a2 = cells(m2, st.block_base(m2, i) + st.cfg().core_stride, st.cfg().meta_stride as int);
        let a1 = cells(m1, st.block_base(m1, i) + st.cfg().core_stride, st.cfg().meta_stride as int);
        assert forall|t: int| 0 <= t < st.cfg().meta_stride implies #[trigger] a2[t] == a1[t] by {
            st.lemma_block_cell_range(m1, i, st.cfg().core_stride + t);
        }
        assert(a2 =~= a1);
    }
    assert(st.core_view(m2) =~= st.core_view(m1));
    assert(st.meta_view(m2) =~= st.meta_view(m1));
}

impl<const TB_COUNT: usize, const STORE_COUNT: usize, const LUT_COUNT: usize> Epoch<TB_COUNT, STORE_COUNT, LUT_COUNT> {
    /// The node and synapse blocks of this epoch and of `source` have the same
    /// zones.
    pub open spec fn same_strides(&self, source: &Self) -> bool {
        &&& self.network.ns().cfg().core_stride == source.network.ns().cfg().core_stride
        &&& self.network.ns().cfg().meta_stride == source.network.ns().cfg().meta_stride
        &&& self.network.synapse_store().cfg().core_stride == source.network.synapse_store().cfg().core_stride
        &&& self.network.synapse_store().cfg().meta_stride == source.network.synapse_store().cfg().meta_stride
        &&& self.network.ns().cfg().attr_stride == source.network.ns().cfg().attr_stride
        &&& self.network.synapse_store().cfg().attr_stride == source.network.synapse_store().cfg().attr_stride
    }

    /// On the default buffer the network's blocks come first: every store and
    /// table placed there starts past them.
    pub open spec fn net_blocks_first(&self) -> bool {
        let d = self.default_tb();
        let e = self.network.synapse_store().tb_end();
        &&& forall|k: int|
            0 <= k < STORE_COUNT ==> (#[trigger] self.store_registry.store_seq()[k]).buffer() == d ==> e
                <= self.store_registry.store_seq()[k].tb_start()
        &&& forall|k: int|
            0 <= k < LUT_COUNT ==> (#[trigger] self.lut_registry.table_seq()[k]).buffer() == d ==> e
                <= self.lut_registry.table_seq()[k].tb_start()
    }

    /// What growing from `source` (on `sm`) leaves on `new`: the metadata
    /// cells of `source` first and zeros after them, every node and synapse
    /// slot of `source` reading the same and the slots past them empty, the
    /// network's allocators holding what the source's held, the attributes,
    /// stores and tables of `source` carried over (see `contents_carried`),
    /// and a consistent epoch.
    pub open spec fn grown(&self, source: &Self, sm: Seq<i32>, new: Seq<i32>) -> bool {
        let n = self.network;
        let sn = source.network;
        &&& forall|i: int|
            0 <= i < self.mem_metadata.cap() ==> #[trigger] self.mem_metadata.view(new)[i] == if i < source.mem_metadata.cap() {
                source.mem_metadata.view(sm)[i]
            } else {
                0
            }
        &&& self.same_strides(source)
        &&& forall|i: int| 0 <= i < sn.nc() ==> #[trigger] n.nodes(new)[i] == sn.nodes(sm)[i]
        &&& forall|i: int| 0 <= i < sn.nc() ==> #[trigger] n.ns().meta_view(new)[i] == sn.ns().meta_view(sm)[i]
        &&& forall|i: int| 0 <= i < sn.sc() ==> #[trigger] n.syns(new)[i] == sn.syns(sm)[i]
        &&& forall|i: int|
            0 <= i < sn.sc() ==> #[trigger] n.synapse_store().meta_view(new)[i] == sn.synapse_store().meta_view(sm)[i]
        &&& forall|i: int| sn.nc() <= i < n.nc() ==> #[trigger] n.nodes(new)[i] == zeros(NODE_STRIDE as int)
        &&& forall|i: int| sn.sc() <= i < n.sc() ==> #[trigger] n.syns(new)[i] == zeros(SYNAPSE_STRIDE as int)
        &&& n.ns().slots().writer_gen(new) == sn.ns().slots().writer_gen(sm)
        &&& n.ns().slots().ack_gen(new) == sn.ns().slots().ack_gen(sm)
        &&& n.synapse_store().slots().writer_gen(new) == sn.synapse_store().slots().writer_gen(sm)
        &&& n.synapse_store().slots().ack_gen(new) == sn.synapse_store().slots().ack_gen(sm)
        &&& n.ns().slots().holds_copy_of(&sn.ns().slots(), sm, new)
        &&& n.synapse_store().slots().holds_copy_of(&sn.synapse_store().slots(), sm, new)
        &&& self.contents_carried(source, sm, new)
        &&& self.inv(new)
    }

    /// What taking `source` (on `sm`) over leaves on `new`, with `old` the
    /// memory before: the network's allocators hold what the source's held,
    /// every node and synapse slot of the source reads the same, and the
    /// metadata cells of the source come first in the metadata.
    pub open spec fn took_over(&self, source: &Self, sm: Seq<i32>, old: Seq<i32>, new: Seq<i32>) -> bool {
        let n = self.network;
        let sn = source.network;
        &&& n.ns().slots().copy_result(&sn.ns().slots(), sm, old, new)
        &&& n.synapse_store().slots().copy_result(&sn.synapse_store().slots(), sm, old, new)
        &&& self.same_strides(source) ==> {
            &&& forall|i: int| 0 <= i < sn.nc() ==> #[trigger] n.nodes(new)[i] == sn.nodes(sm)[i]
            &&& forall|i: int| 0 <= i < sn.nc() ==> #[trigger] n.ns().meta_view(new)[i] == sn.ns().meta_view(sm)[i]
            &&& forall|i: int| 0 <= i < sn.sc() ==> #[trigger] n.syns(new)[i] == sn.syns(sm)[i]
            &&& forall|i: int|
                0 <= i < sn.sc() ==> #[trigger] n.synapse_store().meta_view(new)[i] == sn.synapse_store().meta_view(sm)[i]
        }
        &&& forall|i: int|
            0 <= i < self.mem_metadata.cap() ==> #[trigger] self.mem_metadata.view(new)[i] == if i < source.mem_metadata.cap() {
                source.mem_metadata.view(sm)[i]
            } else {
                self.mem_metadata.view(old)[i]
            }
    }

    /// Every store here holds the copy of the store of `source` under its id.
    pub open spec fn stores_took_over(&self, source: &Self, sm: Seq<i32>, old: Seq<i32>, new: Seq<i32>) -> bool {
        forall|i: int|
            0 <= i < STORE_COUNT ==> self.store_registry.store_for(source.store_registry.def_seq()[i].id).slots().copy_result(
                &(#[trigger] source.store_registry.store_seq()[i]).slots(),
                sm,
                old,
                new,
            )
    }

    /// Every store of `source` has its blocks, in all three buffers, copied
    /// onto `m` into the store registered here under its id.
    pub open spec fn blocks_copied(&self, source: &Self, sm: Seq<i32>, m: Seq<i32>) -> bool {
        forall|i: int|
            0 <= i < STORE_COUNT ==> {
                let src = #[trigger] source.store_registry.store_seq()[i];
                let dst = self.store_registry.store_for(source.store_registry.def_seq()[i].id);
                forall|k: int, t: int|
                    0 <= k < 3 && 0 <= t < src.cap() * src.block() ==> #[trigger] m[tb_base(
                        dst.buffer().start(),
                        dst.buffer().cap(),
                        k,
                    ) + dst.tb_start() + t] == sm[tb_base(src.buffer().start(), src.buffer().cap(), k) + src.tb_start()
                        + t]
            }
    }

    /// Cell `x` lies outside the windows of the default buffer into which the
    /// network of `source` is copied.
    pub open spec fn off_net_copy(&self, source: &Self, x: int) -> bool {
        let d = self.default_tb();
        let n = self.network;
        let sn = source.network;
        &&& !tb_in_region(x, d.start(), d.cap(), n.ns().tb_start(), sn.nc() * sn.ns().block())
        &&& !tb_in_region(x, d.start(), d.cap(), n.synapse_store().tb_start(), sn.sc() * sn.synapse_store().block())
    }

    /// `source` fits into this epoch part by part: every buffer, store and
    /// table of `source` has one here under the same id that is no smaller
    /// and has the same strides, and the network and metadata are no smaller.
    pub open spec fn can_take(&self, source: &Self) -> bool {
        &&& source.mem_metadata.cap() <= self.mem_metadata.cap()
        &&& source.default_tb().cap() <= self.default_tb().cap()
        &&& forall|i: int|
            0 <= i < TB_COUNT ==> (#[trigger] source.tb_registry.buffers()[i]).cap() <= self.tb_registry.tb_for(
                source.tb_registry.def_seq()[i].id,
            ).cap()
        &&& forall|i: int|
            0 <= i < STORE_COUNT ==> {
                let src = #[trigger] source.store_registry.store_seq()[i];
                let dst = self.store_registry.store_for(source.store_registry.def_seq()[i].id);
                &&& src.cap() <= dst.cap()
                &&& src.buffer().cap() <= dst.buffer().cap()
                &&& dst.tb_start() + src.cap() * src.block() <= dst.buffer().cap()
                &&& dst.tb_start() + src.cap() * src.block() <= dst.tb_end()
                &&& src.cap() * src.cfg().attr_stride <= dst.cap() * dst.cfg().attr_stride
                &&& src.cfg().core_stride == dst.cfg().core_stride
                &&& src.cfg().meta_stride == dst.cfg().meta_stride
                &&& src.cfg().attr_stride == dst.cfg().attr_stride
                &&& dst.buffer() == self.tb_registry.tb_for(source.store_registry.def_seq()[i].tb_id)
            }
        &&& forall|i: int|
            0 <= i < LUT_COUNT ==> {
                let src = #[trigger] source.lut_registry.table_seq()[i];
                let dst = self.lut_registry.table_for(source.lut_registry.def_seq()[i].id);
                &&& src.size_spec() <= dst.size_spec()
                &&& src.buffer().cap() <= dst.buffer().cap()
                &&& dst.buffer() == self.tb_registry.tb_for(source.lut_registry.def_seq()[i].tb_id)
            }
        &&& self.network.can_take(&source.network)
    }

    /// Takes over the tables of `source`.
    fn copy_tables(&self, mem: &mut AtomicBuffer, source: &Self, source_mem: &AtomicBuffer)
        requires
            self.valid(old(mem)@),
            source.valid(source_mem@),
            self.can_take(source),
        ensures
            final(mem)@.len() == old(mem)@.len(),
            self.tb_registry.control_ok(final(mem)@),
            all_tb_inv(self.tb_registry, old(mem)@) ==> all_tb_inv(self.tb_registry, final(mem)@),
            unchanged_outside(old(mem)@, final(mem)@, self.tb_registry.start(), self.tb_registry.end()),
            forall|x: int| 0 <= x < old(mem)@.len() && self.lut_registry.off_tables(x) ==> #[trigger] final(mem)@[x] == old(mem)@[x],
            forall|i: int|
                0 <= i < LUT_COUNT ==> #[trigger] self.lut_registry.table_copied(&source.lut_registry, i, source_mem@, final(mem)@),
    {
        proof {
            assert forall|i: int| 0 <= i < LUT_COUNT implies (#[trigger] source.lut_registry.table_seq()[i]).buffer().valid(
                source_mem@,
            ) by {
                assert(source.tb_registry.id_ok(source.lut_registry.def_seq()[i].tb_id));
            }
        }
        self.lut_registry.copy_from(mem, &self.tb_registry, &source.lut_registry, source_mem);
    }

    /// Takes over the stores of `source`.
    fn copy_stores(&self, mem: &mut AtomicBuffer, Ghost(m0): Ghost<Seq<i32>>, source: &Self, source_mem: &AtomicBuffer)
        requires
            self.valid(m0),
            old(mem)@.len() == m0.len(),
            self.tb_registry.control_ok(old(mem)@),
            source.valid(source_mem@),
            source.inv(source_mem@),
            self.can_take(source),
        ensures
            final(mem)@.len() == old(mem)@.len(),
            self.tb_registry.control_ok(final(mem)@),
            all_tb_inv(self.tb_registry, old(mem)@) ==> all_tb_inv(self.tb_registry, final(mem)@),
            unchanged_outside(old(mem)@, final(mem)@, self.tb_registry.start(), self.store_registry.end()),
            forall|x: int|
                0 <= x < old(mem)@.len() && self.store_registry.off_store_blocks(x) ==> #[trigger] final(mem)@[x] == old(mem)@[x],
            forall|x: int|
                0 <= x < old(mem)@.len() && self.store_registry.off_store_spans(x) ==> #[trigger] final(mem)@[x] == old(mem)@[x],
            self.stores_took_over(source, source_mem@, old(mem)@, final(mem)@),
            self.blocks_copied(source, source_mem@, final(mem)@),
            forall|i: int|
                0 <= i < STORE_COUNT ==> {
                    let src = #[trigger] source.store_registry.store_seq()[i];
                    let dst = self.store_registry.store_for(source.store_registry.def_seq()[i].id);
                    forall|t: int|
                        0 <= t < src.cap() * src.cfg().attr_stride ==> #[trigger] final(mem)@[dst.attrs_start() + t]
                            == source_mem@[src.attrs_start() + t]
                },
    {
        proof {
            assert forall|k: int| 0 <= k < STORE_COUNT implies (#[trigger] self.store_registry.store_seq()[k]).valid(mem@) by {
                assert(self.store_registry.store_seq()[k].valid(m0));
            }
        }
        let ghost m1 = mem@;
        self.store_registry.copy_from(mem, &source.store_registry, source_mem);
        proof {
            self.lemma_order(m0);
            lemma_store_copy_frame(self.tb_registry, self.store_registry, self.store_registry.end(), m1, mem@);
        }
    }

    /// Takes over the network and the metadata of `source`, then the control
    /// cells of its triple buffers.
    fn copy_rest(&self, mem: &mut AtomicBuffer, Ghost(m0): Ghost<Seq<i32>>, source: &Self, source_mem: &AtomicBuffer)
        requires
            self.valid(m0),
            old(mem)@.len() == m0.len(),
            self.tb_registry.control_ok(old(mem)@),
            source.valid(source_mem@),
            source.inv(source_mem@),
            self.can_take(source),
        ensures
            final(mem)@.len() == old(mem)@.len(),
            self.valid(final(mem)@),
            all_tb_inv(self.tb_registry, old(mem)@) ==> all_tb_inv(self.tb_registry, final(mem)@),
            unchanged_outside(old(mem)@, final(mem)@, self.mem_metadata.start(), self.end()),
            self.took_over(source, source_mem@, old(mem)@, final(mem)@),
            self.gaps_kept(source, old(mem)@, final(mem)@),
            forall|x: int|
                self.store_registry.start() <= x < self.store_registry.end() ==> #[trigger] final(mem)@[x] == old(mem)@[x],
            forall|id: TripleBufferId, x: int|
                #![trigger self.tb_registry.tb_for(id), final(mem)@[x]]
                self.tb_registry.id_ok(id) && self.tb_registry.tb_for(id).start() + 4 <= x < self.tb_registry.tb_for(id).end()
                    && self.off_net_copy(source, x) ==> final(mem)@[x] == old(mem)@[x],
            forall|id: TripleBufferId|
                self.tb_registry.id_ok(id) && source.tb_registry.id_ok(id) ==> #[trigger] tb_writer_id(
                    final(mem)@,
                    self.tb_registry.tb_for(id).start(),
                ) == tb_writer_id(source_mem@, source.tb_registry.tb_for(id).start()),
            self.same_strides(source) ==> forall|i: int|
                0 <= i < source.network.nc() ==> #[trigger] self.network.ns().attr_view(final(mem)@)[i]
                    == source.network.ns().attr_view(source_mem@)[i],
            self.same_strides(source) ==> forall|i: int|
                0 <= i < source.network.sc() ==> #[trigger] self.network.synapse_store().attr_view(final(mem)@)[i]
                    == source.network.synapse_store().attr_view(source_mem@)[i],
    {
        let ghost m1 = mem@;
        let ghost reg = self.tb_registry;
        let ghost dflt = TripleBufferId(DEFAULT_TB_RAW);
        proof {
            self.network.ns().lemma_wf();
            self.network.synapse_store().lemma_wf();
            assert(self.network.valid(mem@));
        }
        self.network.copy_from(mem, &source.network, source_mem);
        let ghost m2 = mem@;
        proof {
            self.lemma_order(m0);
            lemma_network_copy_frame(reg, self.network.ns().start(), self.end(), m1, m2);
            self.mem_metadata.lemma_wf();
        }
        self.mem_metadata.copy_from(mem, &source.mem_metadata, source_mem);
        let ghost m3 = mem@;
        proof {
            assert(unchanged_outside(m2, m3, self.mem_metadata.start(), reg.start()));
            lemma_metadata_copy_frame(reg, self.mem_metadata.start(), m2, m3);
            self.tb_registry.lemma_inside(TripleBufferId(DEFAULT_TB_RAW));
            source.tb_registry.lemma_inside(TripleBufferId(DEFAULT_TB_RAW));
            lemma_es_nonneg(self.store_registry.def_seq(), TripleBufferId(DEFAULT_TB_RAW));
            lemma_es_nonneg(source.store_registry.def_seq(), TripleBufferId(DEFAULT_TB_RAW));
            source.network.ns().lemma_wf();
            source.network.synapse_store().lemma_wf();
        }
        self.tb_registry.copy_metadata_regions_from(mem, &source.tb_registry, source_mem);
        proof {
            let m4 = mem@;
            let sreg = source.tb_registry;
            assert forall|x: TripleBufferId| reg.id_ok(x) implies {
                &&& (#[trigger] reg.tb_for(x)).valid(m4)
                &&& 0 <= tb_writer_id(m4, reg.tb_for(x).start()) < 3
            } by {
                assert(reg.tb_for(x).valid(m3));
                assert(m4[reg.tb_for(x).start() + 1] == if sreg.id_ok(x) {
                    source_mem@[sreg.tb_for(x).start() + 1]
                } else {
                    m3[reg.tb_for(x).start() + 1]
                });
                if sreg.id_ok(x) {
                    assert(sreg.tb_for(x).valid(source_mem@));
                }
            }
            assert forall|k: int| 0 <= k < STORE_COUNT implies (#[trigger] self.store_registry.store_seq()[k]).valid(m4) by {
                assert(self.store_registry.store_seq()[k].valid(m0));
            }
            if all_tb_inv(reg, m1) {
                assert forall|x: TripleBufferId| reg.id_ok(x) implies #[trigger] tb_inv(m4, reg.tb_for(x).start()) by {
                    let a = reg.tb_for(x).start();
                    if sreg.id_ok(x) {
                        let b = sreg.tb_for(x).start();
                        assert(tb_inv(source_mem@, b));
                        assert(m4[a + 0] == source_mem@[b + 0]);
                        assert(m4[a + 1] == source_mem@[b + 1]);
                        assert(m4[a + 2] == source_mem@[b + 2]);
                        assert(m4[a + 3] == source_mem@[b + 3]);
                    } else {
                        assert(tb_inv(m3, a));
                        assert(m4[a + 0] == m3[a + 0]);
                        assert(m4[a + 1] == m3[a + 1]);
                        assert(m4[a + 2] == m3[a + 2]);
                        assert(m4[a + 3] == m3[a + 3]);
                    }
                }
            }
            assert forall|j: int| 0 <= j < m1.len() && !(self.mem_metadata.start() <= j < self.end()) implies #[trigger] m4[j]
                == m1[j] by {
                assert(m2[j] == m1[j]);
                assert(m3[j] == m2[j]);
            }
            let d = reg.default_buffer();
            let sd = sreg.default_buffer();
            assert(reg.tb_for(dflt) == d);
            assert(sreg.tb_for(dflt) == sd);
            assert(m4[d.start() + 1] == source_mem@[sd.start() + 1]);
            assert forall|j: int| d.start() + 4 <= j < d.end() implies #[trigger] m4[j] == m3[j] by {
                assert(reg.tb_for(dflt).start() + 4 <= j < reg.tb_for(dflt).end());
            }
            self.lemma_rest_took_over(source, source_mem@, m1, m2, m3, m4);
            self.lemma_rest_gaps(source, source_mem@, m1, m2, m3, m4);
            assert forall|x: int| self.store_registry.start() <= x < self.store_registry.end() implies #[trigger] m4[x] == m1[x] by {
                assert(m2[x] == m1[x]);
                assert(m3[x] == m2[x]);
            }
            assert forall|id: TripleBufferId, x: int|
                #![trigger reg.tb_for(id), m4[x]]
                reg.id_ok(id) && reg.tb_for(id).start() + 4 <= x < reg.tb_for(id).end() && self.off_net_copy(source, x) implies m4[x]
                == m1[x] by {
                reg.lemma_inside(id);
                assert(m2[x] == m1[x]);
                assert(m3[x] == m2[x]);
            }
            assert forall|id: TripleBufferId| reg.id_ok(id) && sreg.id_ok(id) implies #[trigger] tb_writer_id(m4, reg.tb_for(id).start())
                == tb_writer_id(source_mem@, sreg.tb_for(id).start()) by {
                assert(m4[reg.tb_for(id).start() + 1] == source_mem@[sreg.tb_for(id).start() + 1]);
            }
            if self.same_strides(source) {
                lemma_unchanged_widen(m2, m3, self.mem_metadata.start(), reg.start(), self.mem_metadata.start(), reg.end());
                lemma_unchanged_widen(m3, m4, reg.start(), reg.end(), self.mem_metadata.start(), reg.end());
                lemma_unchanged_trans(m2, m3, m4, self.mem_metadata.start(), reg.end());
                self.lemma_net_attrs_carried(source, source_mem@, m1, m2, m3, m4);
            }
        }
    }

    /// The network's attribute cells, copied on `m2` and left alone since,
    /// read on `m4` as on `sm`.
    proof fn lemma_net_attrs_carried(&self, source: &Self, sm: Seq<i32>, m1: Seq<i32>, m2: Seq<i32>, m3: Seq<i32>, m4: Seq<i32>)
        requires
            self.valid(m1),
            source.valid(sm),
            self.same_strides(source),
            self.network.can_take(&source.network),
            m2.len() == m1.len(),
            m3.len() == m1.len(),
            m4.len() == m1.len(),
            forall|t: int|
                0 <= t < source.network.nc() * source.network.ns().cfg().attr_stride ==> #[trigger] m2[self.network.ns().attrs_start()
                    + t] == sm[source.network.ns().attrs_start() + t],
            forall|t: int|
                0 <= t < source.network.sc() * source.network.synapse_store().cfg().attr_stride ==> #[trigger] m2[self.network.synapse_store().attrs_start()
                    + t] == sm[source.network.synapse_store().attrs_start() + t],
            unchanged_outside(m2, m4, self.mem_metadata.start(), self.tb_registry.end()),
        ensures
            forall|i: int|
                0 <= i < source.network.nc() ==> #[trigger] self.network.ns().attr_view(m4)[i]
                    == source.network.ns().attr_view(sm)[i],
            forall|i: int|
                0 <= i < source.network.sc() ==> #[trigger] self.network.synapse_store().attr_view(m4)[i]
                    == source.network.synapse_store().attr_view(sm)[i],
    {
        let n = self.network.ns();
        let y = self.network.synapse_store();
        let sn = source.network.ns();
        let sy = source.network.synapse_store();
        self.lemma_order(m1);
        n.lemma_wf();
        y.lemma_wf();
        sn.lemma_wf();
        sy.lemma_wf();
        assert forall|t: int| 0 <= t < sn.cap() * sn.cfg().attr_stride implies #[trigger] m4[n.attrs_start() + t]
            == sm[sn.attrs_start() + t] by {
            assert(m2[n.attrs_start() + t] == sm[sn.attrs_start() + t]);
        }
        assert forall|t: int| 0 <= t < sy.cap() * sy.cfg().attr_stride implies #[trigger] m4[y.attrs_start() + t]
            == sm[sy.attrs_start() + t] by {
            assert(m2[y.attrs_start() + t] == sm[sy.attrs_start() + t]);
        }
        n.lemma_attrs_carried(&sn, m4, sm);
        y.lemma_attrs_carried(&sy, m4, sm);
    }

    /// Takes over the state of `source` (on `source_mem`): its tables, its
    /// stores, its network, its metadata and the control cells of its triple
    /// buffers. Cells outside this epoch stay.
    pub fn copy_from(&self, mem: &mut AtomicBuffer, source: &Self, source_mem: &AtomicBuffer)
        requires
            self.valid(old(mem)@),
            source.valid(source_mem@),
            source.inv(source_mem@),
            self.can_take(source),
        ensures
            final(mem)@.len() == old(mem)@.len(),
            self.valid(final(mem)@),
            all_tb_inv(self.tb_registry, old(mem)@) ==> all_tb_inv(self.tb_registry, final(mem)@),
            unchanged_outside(old(mem)@, final(mem)@, self.mem_metadata.start(), self.end()),
            self.took_over(source, source_mem@, old(mem)@, final(mem)@),
            self.net_blocks_first() ==> self.gaps_kept(source, old(mem)@, final(mem)@),
            self.stores_took_over(source, source_mem@, old(mem)@, final(mem)@),
            self.net_blocks_first() && stores_before_tables(self.store_registry, self.lut_registry) && self.same_strides(source)
                ==> self.contents_carried(source, source_mem@, final(mem)@),
    {
        let ghost m0 = mem@;
        self.copy_tables(mem, source, source_mem);
        let ghost m1 = mem@;
        self.copy_stores(mem, Ghost(m0), source, source_mem);
        let ghost m2 = mem@;
        self.copy_rest(mem, Ghost(m0), source, source_mem);
        proof {
            let m3 = mem@;
            self.lemma_order(m0);
            assert(unchanged_outside(m0, m2, self.tb_registry.start(), self.store_registry.end()));
            self.lemma_took_over_frame(source, source_mem@, m0, m2, m3);
            if self.net_blocks_first() {
                self.lemma_gaps_through_tables_and_stores(source, m0, m1, m2, m3);
            }
            self.lemma_stores_took_over_frame(source, source_mem@, m0, m1, m2, m3);
            if self.net_blocks_first() && stores_before_tables(self.store_registry, self.lut_registry) && self.same_strides(source) {
                assert(self.valid(m1));
                assert(self.valid(m2));
                self.lemma_tables_carried(source, source_mem@, m1, m2, m3);
                self.lemma_stores_carried(source, source_mem@, m2, m3);
            }
            assert forall|j: int| 0 <= j < m0.len() && !(self.mem_metadata.start() <= j < self.end()) implies #[trigger] m3[j]
                == m0[j] by {
                assert(m1[j] == m0[j]);
                assert(m2[j] == m1[j]);
            }
        }
    }
}

impl<const TB_COUNT: usize, const STORE_COUNT: usize, const LUT_COUNT: usize> Epoch<TB_COUNT, STORE_COUNT, LUT_COUNT> {
    /// What growing from `source` (on `sm`) keeps on `new` besides the
    /// network's cores and metadata: the attributes of every node and synapse
    /// slot of `source`; the core, meta and attribute cells of every slot of
    /// every store of `source`, in the store registered here under its id;
    /// and every cell of every table of `source`, in the table registered here
    /// under its id.
    pub open spec fn contents_carried(&self, source: &Self, sm: Seq<i32>, new: Seq<i32>) -> bool {
        let n = self.network;
        let sn = source.network;
        let ss = source.store_registry;
        let sl = source.lut_registry;
        &&& forall|i: int| 0 <= i < sn.nc() ==> #[trigger] n.ns().attr_view(new)[i] == sn.ns().attr_view(sm)[i]
        &&& forall|i: int|
            0 <= i < sn.sc() ==> #[trigger] n.synapse_store().attr_view(new)[i] == sn.synapse_store().attr_view(sm)[i]
        &&& forall|s: int, i: int|
            0 <= s < STORE_COUNT && 0 <= i < ss.store_seq()[s].cap() ==> #[trigger] self.store_registry.store_for(
                ss.def_seq()[s].id,
            ).core_view(new)[i] == ss.store_seq()[s].core_view(sm)[i]
        &&& forall|s: int, i: int|
            0 <= s < STORE_COUNT && 0 <= i < ss.store_seq()[s].cap() ==> #[trigger] self.store_registry.store_for(
                ss.def_seq()[s].id,
            ).meta_view(new)[i] == ss.store_seq()[s].meta_view(sm)[i]
        &&& forall|s: int, i: int|
            0 <= s < STORE_COUNT && 0 <= i < ss.store_seq()[s].cap() ==> #[trigger] self.store_registry.store_for(
                ss.def_seq()[s].id,
            ).attr_view(new)[i] == ss.store_seq()[s].attr_view(sm)[i]
        &&& forall|l: int, t: int|
            0 <= l < LUT_COUNT && 0 <= t < sl.table_seq()[l].size_spec() ==> #[trigger] self.lut_registry.table_for(
                sl.def_seq()[l].id,
            ).view(new)[t] == sl.table_seq()[l].view(sm)[t]
    }

    /// A cell at offset `off` of copy `k` of registry buffer `id`, past the
    /// network's blocks when that buffer is the default one, is a data cell of
    /// the buffer outside the windows the network of `source` is copied into.
    proof fn lemma_off_net_copy(&self, source: &Self, sm: Seq<i32>, m: Seq<i32>, id: TripleBufferId, k: int, off: int)
        requires
            self.valid(m),
            source.valid(sm),
            self.network.can_take(&source.network),
            self.tb_registry.id_ok(id),
            0 <= k < 3,
            0 <= off < self.tb_registry.tb_for(id).cap(),
            id.0 == DEFAULT_TB_RAW ==> self.network.synapse_store().tb_end() <= off,
        ensures
            ({
                let b = self.tb_registry.tb_for(id);
                let x = tb_base(b.start(), b.cap(), k) + off;
                &&& b.start() + 4 <= x < b.end()
                &&& self.off_net_copy(source, x)
            }),
    {
        let reg = self.tb_registry;
        let dflt = TripleBufferId(DEFAULT_TB_RAW);
        let b = reg.tb_for(id);
        let d = self.default_tb();
        let n = self.network.ns();
        let y = self.network.synapse_store();
        let sn = source.network;
        reg.lemma_inside(id);
        reg.lemma_inside(dflt);
        reg.lemma_disjoint(id, dflt);
        b.lemma_layout();
        d.lemma_layout();
        n.lemma_wf();
        y.lemma_wf();
        sn.ns().lemma_wf();
        sn.synapse_store().lemma_wf();
        assert(reg.tb_for(dflt) == d);
        let cn = sn.nc() * sn.ns().block();
        let cs = sn.sc() * sn.synapse_store().block();
        assert(0 <= sn.nc() * sn.ns().block()) by (nonlinear_arith)
            requires
                0 <= sn.nc(),
                0 <= sn.ns().block(),
        ;
        assert(0 <= sn.sc() * sn.synapse_store().block()) by (nonlinear_arith)
            requires
                0 <= sn.sc(),
                0 <= sn.synapse_store().block(),
        ;
        if id.0 == DEFAULT_TB_RAW {
            lemma_in_region_at(d.start(), d.cap(), k, off, n.tb_start(), cn);
            lemma_in_region_at(d.start(), d.cap(), k, off, y.tb_start(), cs);
        }
    }

    /// A cell at offset `off` of copy `k` of registry buffer `id`, at or past
    /// the end of the blocks of every store on that buffer, lies off every
    /// store's blocks and outside the store registry's region.
    proof fn lemma_off_store_spans(&self, m: Seq<i32>, id: TripleBufferId, k: int, off: int)
        requires
            self.valid(m),
            self.tb_registry.id_ok(id),
            0 <= k < 3,
            0 <= off < self.tb_registry.tb_for(id).cap(),
            forall|s: int|
                0 <= s < STORE_COUNT && (#[trigger] self.store_registry.store_seq()[s]).buffer() == self.tb_registry.tb_for(id)
                    ==> self.store_registry.store_seq()[s].tb_end() <= off,
        ensures
            self.store_registry.off_store_spans(
                tb_base(self.tb_registry.tb_for(id).start(), self.tb_registry.tb_for(id).cap(), k) + off,
            ),
    {
        let reg = self.tb_registry;
        let b = reg.tb_for(id);
        let x = tb_base(b.start(), b.cap(), k) + off;
        reg.lemma_inside(id);
        b.lemma_layout();
        assert forall|s: int| 0 <= s < STORE_COUNT implies !tb_in_region(
            x,
            (#[trigger] self.store_registry.store_seq()[s]).buffer().start(),
            self.store_registry.store_seq()[s].buffer().cap(),
            self.store_registry.store_seq()[s].tb_start(),
            self.store_registry.store_seq()[s].tb_end() - self.store_registry.store_seq()[s].tb_start(),
        ) by {
            let st = self.store_registry.store_seq()[s];
            let sid = self.store_registry.def_seq()[s].tb_id;
            assert(reg.id_ok(sid));
            reg.lemma_disjoint(id, sid);
            reg.lemma_inside(sid);
            st.lemma_wf();
            st.buffer().lemma_layout();
            if st.buffer() == b {
                lemma_in_region_at(b.start(), b.cap(), k, off, st.tb_start(), st.tb_end() - st.tb_start());
            }
        }
    }
}

impl<const TB_COUNT: usize, const STORE_COUNT: usize, const LUT_COUNT: usize> Epoch<TB_COUNT, STORE_COUNT, LUT_COUNT> {
    /// Table `l` of `source`, copied on `m1`, spared by the store copy (to
    /// `m2`) and by the rest (to `m3`), reads on `m3` as on `sm` once the
    /// writer indices were taken over.
    #[verifier::spinoff_prover]
    proof fn lemma_table_carried(&self, source: &Self, sm: Seq<i32>, m1: Seq<i32>, m2: Seq<i32>, m3: Seq<i32>, l: int)
        requires
            self.valid(m1),
            source.valid(sm),
            tb_inv(sm, source.tb_registry.tb_for(source.lut_registry.def_seq()[l].tb_id).start()),
            self.network.can_take(&source.network),
            ({
                let src = source.lut_registry.table_seq()[l];
                let dst = self.lut_registry.table_for(source.lut_registry.def_seq()[l].id);
                &&& src.size_spec() <= dst.size_spec()
                &&& dst.buffer() == self.tb_registry.tb_for(source.lut_registry.def_seq()[l].tb_id)
            }),
            self.net_blocks_first(),
            stores_before_tables(self.store_registry, self.lut_registry),
            0 <= l < LUT_COUNT,
            m2.len() == m1.len(),
            m3.len() == m1.len(),
            self.lut_registry.table_copied(&source.lut_registry, l, sm, m1),
            forall|x: int| 0 <= x < m1.len() && self.store_registry.off_store_spans(x) ==> #[trigger] m2[x] == m1[x],
            forall|id: TripleBufferId, x: int|
                #![trigger self.tb_registry.tb_for(id), m3[x]]
                self.tb_registry.id_ok(id) && self.tb_registry.tb_for(id).start() + 4 <= x < self.tb_registry.tb_for(id).end()
                    && self.off_net_copy(source, x) ==> m3[x] == m2[x],
            forall|id: TripleBufferId|
                self.tb_registry.id_ok(id) && source.tb_registry.id_ok(id) ==> #[trigger] tb_writer_id(
                    m3,
                    self.tb_registry.tb_for(id).start(),
                ) == tb_writer_id(sm, source.tb_registry.tb_for(id).start()),
        ensures
            forall|t: int|
                0 <= t < source.lut_registry.table_seq()[l].size_spec() ==> #[trigger] self.lut_registry.table_for(
                    source.lut_registry.def_seq()[l].id,
                ).view(m3)[t] == source.lut_registry.table_seq()[l].view(sm)[t],
    {
        let reg = self.tb_registry;
        let sl = source.lut_registry;
        let src = sl.table_seq()[l];
        let j = self.lut_registry.index()[sl.def_seq()[l].id.0 as int]->0 as int;
        let dst = self.lut_registry.table_seq()[j];
        let id = sl.def_seq()[l].tb_id;
        assert(source.tb_registry.id_ok(id));
        assert(reg.id_ok(id));
        assert(dst.buffer() == reg.tb_for(id));
        assert(dst.wf());
        assert forall|k: int, t: int| 0 <= k < 3 && 0 <= t < src.size_spec() implies #[trigger] m3[tb_base(
            dst.buffer().start(),
            dst.buffer().cap(),
            k,
        ) + dst.tb_start() + t] == sm[tb_base(src.buffer().start(), src.buffer().cap(), k) + src.tb_start() + t] by {
            self.lemma_table_cell(source, sm, m1, m2, m3, id, j, k, t);
        }
        self.lut_registry.lemma_copied_view(&sl, l, sm, m3);
    }

    /// Every table of `source`, copied on `m1` and spared since, reads on
    /// `m3` as on `sm`.
    #[verifier::spinoff_prover]
    proof fn lemma_tables_carried(&self, source: &Self, sm: Seq<i32>, m1: Seq<i32>, m2: Seq<i32>, m3: Seq<i32>)
        requires
            self.valid(m1),
            source.valid(sm),
            source.inv(sm),
            self.can_take(source),
            self.net_blocks_first(),
            stores_before_tables(self.store_registry, self.lut_registry),
            m2.len() == m1.len(),
            m3.len() == m1.len(),
            forall|l: int| 0 <= l < LUT_COUNT ==> #[trigger] self.lut_registry.table_copied(&source.lut_registry, l, sm, m1),
            forall|x: int| 0 <= x < m1.len() && self.store_registry.off_store_spans(x) ==> #[trigger] m2[x] == m1[x],
            forall|id: TripleBufferId, x: int|
                #![trigger self.tb_registry.tb_for(id), m3[x]]
                self.tb_registry.id_ok(id) && self.tb_registry.tb_for(id).start() + 4 <= x < self.tb_registry.tb_for(id).end()
                    && self.off_net_copy(source, x) ==> m3[x] == m2[x],
            forall|id: TripleBufferId|
                self.tb_registry.id_ok(id) && source.tb_registry.id_ok(id) ==> #[trigger] tb_writer_id(
                    m3,
                    self.tb_registry.tb_for(id).start(),
                ) == tb_writer_id(sm, source.tb_registry.tb_for(id).start()),
        ensures
            forall|l: int, t: int|
                0 <= l < LUT_COUNT && 0 <= t < source.lut_registry.table_seq()[l].size_spec() ==> #[trigger] self.lut_registry.table_for(
                    source.lut_registry.def_seq()[l].id,
                ).view(m3)[t] == source.lut_registry.table_seq()[l].view(sm)[t],
    {
        let sl = source.lut_registry;
        assert forall|l: int, t: int|
            0 <= l < LUT_COUNT && 0 <= t < sl.table_seq()[l].size_spec() implies #[trigger] self.lut_registry.table_for(
            sl.def_seq()[l].id,
        ).view(m3)[t] == sl.table_seq()[l].view(sm)[t] by {
            let id = sl.def_seq()[l].tb_id;
            assert(source.tb_registry.id_ok(id));
            assert(tb_inv(sm, source.tb_registry.tb_for(id).start()));
            assert(self.lut_registry.table_copied(&sl, l, sm, m1));
            self.lemma_table_carried(source, sm, m1, m2, m3, l);
        }
    }

    /// Every store of `source`, its blocks and attribute cells copied on `m2`
    /// and spared since, reads on `m3` as on `sm`.
    #[verifier::spinoff_prover]
    proof fn lemma_stores_carried(&self, source: &Self, sm: Seq<i32>, m2: Seq<i32>, m3: Seq<i32>)
        requires
            self.valid(m2),
            self.valid(m3),
            source.valid(sm),
            source.inv(sm),
            self.can_take(source),
            self.net_blocks_first(),
            m3.len() == m2.len(),
            self.blocks_copied(source, sm, m2),
            forall|i: int|
                0 <= i < STORE_COUNT ==> {
                    let src = #[trigger] source.store_registry.store_seq()[i];
                    let dst = self.store_registry.store_for(source.store_registry.def_seq()[i].id);
                    forall|t: int|
                        0 <= t < src.cap() * src.cfg().attr_stride ==> #[trigger] m2[dst.attrs_start() + t]
                            == sm[src.attrs_start() + t]
                },
            forall|x: int| self.store_registry.start() <= x < self.store_registry.end() ==> #[trigger] m3[x] == m2[x],
            forall|id: TripleBufferId, x: int|
                #![trigger self.tb_registry.tb_for(id), m3[x]]
                self.tb_registry.id_ok(id) && self.tb_registry.tb_for(id).start() + 4 <= x < self.tb_registry.tb_for(id).end()
                    && self.off_net_copy(source, x) ==> m3[x] == m2[x],
            forall|id: TripleBufferId|
                self.tb_registry.id_ok(id) && source.tb_registry.id_ok(id) ==> #[trigger] tb_writer_id(
                    m3,
                    self.tb_registry.tb_for(id).start(),
                ) == tb_writer_id(sm, source.tb_registry.tb_for(id).start()),
        ensures
            forall|s: int, i: int|
                0 <= s < STORE_COUNT && 0 <= i < source.store_registry.store_seq()[s].cap() ==> #[trigger] self.store_registry.store_for(
                    source.store_registry.def_seq()[s].id,
                ).core_view(m3)[i] == source.store_registry.store_seq()[s].core_view(sm)[i],
            forall|s: int, i: int|
                0 <= s < STORE_COUNT && 0 <= i < source.store_registry.store_seq()[s].cap() ==> #[trigger] self.store_registry.store_for(
                    source.store_registry.def_seq()[s].id,
                ).meta_view(m3)[i] == source.store_registry.store_seq()[s].meta_view(sm)[i],
            forall|s: int, i: int|
                0 <= s < STORE_COUNT && 0 <= i < source.store_registry.store_seq()[s].cap() ==> #[trigger] self.store_registry.store_for(
                    source.store_registry.def_seq()[s].id,
                ).attr_view(m3)[i] == source.store_registry.store_seq()[s].attr_view(sm)[i],
    {
        let ss = source.store_registry;
        assert forall|s: int, i: int|
            0 <= s < STORE_COUNT && 0 <= i < ss.store_seq()[s].cap() implies #[trigger] self.store_registry.store_for(
            ss.def_seq()[s].id,
        ).core_view(m3)[i] == ss.store_seq()[s].core_view(sm)[i] by {
            self.lemma_store_carried(source, sm, m2, m3, s);
        }
        assert forall|s: int, i: int|
            0 <= s < STORE_COUNT && 0 <= i < ss.store_seq()[s].cap() implies #[trigger] self.store_registry.store_for(
            ss.def_seq()[s].id,
        ).meta_view(m3)[i] == ss.store_seq()[s].meta_view(sm)[i] by {
            self.lemma_store_carried(source, sm, m2, m3, s);
        }
        assert forall|s: int, i: int|
            0 <= s < STORE_COUNT && 0 <= i < ss.store_seq()[s].cap() implies #[trigger] self.store_registry.store_for(
            ss.def_seq()[s].id,
        ).attr_view(m3)[i] == ss.store_seq()[s].attr_view(sm)[i] by {
            self.lemma_store_carried(source, sm, m2, m3, s);
        }
    }

    /// Cell `t` of copy `k` of table `j`, on registry buffer `id`, is a data
    /// cell of that buffer off every store's blocks and outside the windows
    /// the network of `source` is copied into.
    proof fn lemma_table_cell(
        &self,
        source: &Self,
        sm: Seq<i32>,
        m: Seq<i32>,
        m2: Seq<i32>,
        m3: Seq<i32>,
        id: TripleBufferId,
        j: int,
        k: int,
        t: int,
    )
        requires
            self.valid(m),
            forall|x: int| 0 <= x < m.len() && self.store_registry.off_store_spans(x) ==> #[trigger] m2[x] == m[x],
            forall|id: TripleBufferId, x: int|
                #![trigger self.tb_registry.tb_for(id), m3[x]]
                self.tb_registry.id_ok(id) && self.tb_registry.tb_for(id).start() + 4 <= x < self.tb_registry.tb_for(id).end()
                    && self.off_net_copy(source, x) ==> m3[x] == m2[x],
            source.valid(sm),
            self.network.can_take(&source.network),
            self.net_blocks_first(),
            stores_before_tables(self.store_registry, self.lut_registry),
            self.tb_registry.id_ok(id),
            0 <= j < LUT_COUNT,
            self.lut_registry.table_seq()[j].buffer() == self.tb_registry.tb_for(id),
            0 <= k < 3,
            0 <= t < self.lut_registry.table_seq()[j].size_spec(),
        ensures
            ({
                let b = self.tb_registry.tb_for(id);
                let c = tb_base(b.start(), b.cap(), k) + self.lut_registry.table_seq()[j].tb_start() + t;
                m3[c] == m[c]
            }),
    {
        let reg = self.tb_registry;
        let dst = self.lut_registry.table_seq()[j];
        let off = dst.tb_start() + t;
        assert(dst.wf());
        assert forall|s: int|
            0 <= s < STORE_COUNT && (#[trigger] self.store_registry.store_seq()[s]).buffer() == reg.tb_for(id) implies self.store_registry.store_seq()[s].tb_end()
            <= off by {
            assert(self.store_registry.store_seq()[s].buffer() == self.lut_registry.table_seq()[j].buffer());
        }
        self.lemma_off_store_spans(m, id, k, off);
        if id.0 == DEFAULT_TB_RAW {
            assert(reg.tb_for(id) == self.default_tb());
            assert(self.lut_registry.table_seq()[j].buffer() == self.default_tb());
        }
        self.lemma_off_net_copy(source, sm, m, id, k, off);
        assert(reg.tb_for(id).valid(m));
        let c = tb_base(reg.tb_for(id).start(), reg.tb_for(id).cap(), k) + off;
        reg.lemma_inside(id);
        reg.tb_for(id).lemma_layout();
        assert(m2[c] == m[c]);
        assert(m3[c] == m2[c]);
    }

    /// Store `s` of `source`, its blocks copied and its attribute cells copied
    /// on `m2` and both spared by the rest (to `m3`), reads on `m3` as on `sm`
    /// once the writer indices were taken over.
    #[verifier::spinoff_prover]
    proof fn lemma_store_carried(&self, source: &Self, sm: Seq<i32>, m2: Seq<i32>, m3: Seq<i32>, s: int)
        requires
            self.valid(m2),
            self.valid(m3),
            source.valid(sm),
            source.inv(sm),
            self.can_take(source),
            self.net_blocks_first(),
            0 <= s < STORE_COUNT,
            m3.len() == m2.len(),
            self.blocks_copied(source, sm, m2),
            ({
                let src = source.store_registry.store_seq()[s];
                let dst = self.store_registry.store_for(source.store_registry.def_seq()[s].id);
                forall|t: int|
                    0 <= t < src.cap() * src.cfg().attr_stride ==> #[trigger] m2[dst.attrs_start() + t] == sm[src.attrs_start() + t]
            }),
            forall|x: int| self.store_registry.start() <= x < self.store_registry.end() ==> #[trigger] m3[x] == m2[x],
            forall|id: TripleBufferId, x: int|
                #![trigger self.tb_registry.tb_for(id), m3[x]]
                self.tb_registry.id_ok(id) && self.tb_registry.tb_for(id).start() + 4 <= x < self.tb_registry.tb_for(id).end()
                    && self.off_net_copy(source, x) ==> m3[x] == m2[x],
            forall|id: TripleBufferId|
                self.tb_registry.id_ok(id) && source.tb_registry.id_ok(id) ==> #[trigger] tb_writer_id(
                    m3,
                    self.tb_registry.tb_for(id).start(),
                ) == tb_writer_id(sm, source.tb_registry.tb_for(id).start()),
        ensures
            ({
                let src = source.store_registry.store_seq()[s];
                let dst = self.store_registry.store_for(source.store_registry.def_seq()[s].id);
                &&& forall|i: int| 0 <= i < src.cap() ==> #[trigger] dst.core_view(m3)[i] == src.core_view(sm)[i]
                &&& forall|i: int| 0 <= i < src.cap() ==> #[trigger] dst.meta_view(m3)[i] == src.meta_view(sm)[i]
                &&& forall|i: int| 0 <= i < src.cap() ==> #[trigger] dst.attr_view(m3)[i] == src.attr_view(sm)[i]
            }),
    {
        let reg = self.tb_registry;
        let ss = source.store_registry;
        let src = ss.store_seq()[s];
        let j = self.store_registry.index()[ss.def_seq()[s].id.0 as int]->0 as int;
        let dst = self.store_registry.store_seq()[j];
        let id = ss.def_seq()[s].tb_id;
        assert(source.tb_registry.id_ok(id));
        assert(reg.id_ok(id));
        assert(dst.buffer() == reg.tb_for(id));
        dst.lemma_wf();
        src.lemma_wf();
        assert forall|k: int, t: int| 0 <= k < 3 && 0 <= t < src.cap() * src.block() implies #[trigger] m3[tb_base(
            dst.buffer().start(),
            dst.buffer().cap(),
            k,
        ) + dst.tb_start() + t] == sm[tb_base(src.buffer().start(), src.buffer().cap(), k) + src.tb_start() + t] by {
            let off = dst.tb_start() + t;
            if id.0 == DEFAULT_TB_RAW {
                assert(reg.tb_for(id) == self.default_tb());
                assert(self.store_registry.store_seq()[j].buffer() == self.default_tb());
            }
            self.lemma_off_net_copy(source, sm, m2, id, k, off);
            let c = tb_base(dst.buffer().start(), dst.buffer().cap(), k) + off;
            assert(m3[c] == m2[c]);
        }
        assert(tb_inv(sm, source.tb_registry.tb_for(id).start()));
        dst.lemma_views_carried(&src, m3, sm);
        self.store_registry.lemma_stores_apart(j, j);
        assert forall|t: int| 0 <= t < src.cap() * src.cfg().attr_stride implies #[trigger] m3[dst.attrs_start() + t]
            == sm[src.attrs_start() + t] by {
            assert(m2[dst.attrs_start() + t] == sm[src.attrs_start() + t]);
        }
        dst.lemma_attrs_carried(&src, m3, sm);
    }
}

/// The network's blocks, copied from `src` into every buffer on `m2` and left
/// alone since, read on `m4` as they read on `sm`, once the writer index was
/// taken over: every node and synapse slot of `src` keeps its core and meta
/// cells.
proof fn lemma_network_carried(dst: NetworkWriter, src: NetworkWriter, m2: Seq<i32>, m4: Seq<i32>, sm: Seq<i32>)
    requires
        dst.valid(m2),
        src.valid(sm),
        src.inv(sm),
        dst.can_take(&src),
        dst.ns().cfg().core_stride == src.ns().cfg().core_stride,
        dst.ns().cfg().meta_stride == src.ns().cfg().meta_stride,
        dst.synapse_store().cfg().core_stride == src.synapse_store().cfg().core_stride,
        dst.synapse_store().cfg().meta_stride == src.synapse_store().cfg().meta_stride,
        m4.len() == m2.len(),
        forall|j: int| dst.ns().buffer().start() + 4 <= j < dst.ns().buffer().end() ==> #[trigger] m4[j] == m2[j],
        tb_writer_id(m4, dst.ns().buffer().start()) == tb_writer_id(sm, src.ns().buffer().start()),
        forall|k: int, t: int|
            0 <= k < 3 && 0 <= t < src.nc() * src.ns().block() ==> #[trigger] m2[tb_base(
                dst.ns().buffer().start(),
                dst.ns().buffer().cap(),
                k,
            ) + dst.ns().tb_start() + t] == sm[tb_base(src.ns().buffer().start(), src.ns().buffer().cap(), k)
                + src.ns().tb_start() + t],
        forall|k: int, t: int|
            0 <= k < 3 && 0 <= t < src.sc() * src.synapse_store().block() ==> #[trigger] m2[tb_base(
                dst.ns().buffer().start(),
                dst.ns().buffer().cap(),
                k,
            ) + dst.synapse_store().tb_start() + t] == sm[tb_base(src.ns().buffer().start(), src.ns().buffer().cap(), k)
                + src.synapse_store().tb_start() + t],
    ensures
        forall|i: int| 0 <= i < src.nc() ==> #[trigger] dst.nodes(m4)[i] == src.nodes(sm)[i],
        forall|i: int| 0 <= i < src.nc() ==> #[trigger] dst.ns().meta_view(m4)[i] == src.ns().meta_view(sm)[i],
        forall|i: int| 0 <= i < src.sc() ==> #[trigger] dst.syns(m4)[i] == src.syns(sm)[i],
        forall|i: int| 0 <= i < src.sc() ==> #[trigger] dst.synapse_store().meta_view(m4)[i] == src.synapse_store().meta_view(
            sm,
        )[i],
{
    let n = dst.ns();
    let y = dst.synapse_store();
    let d = n.buffer();
    n.lemma_wf();
    y.lemma_wf();
    src.ns().lemma_wf();
    src.synapse_store().lemma_wf();
    assert(0 <= src.nc() * src.ns().block()) by (nonlinear_arith)
        requires
            0 <= src.nc(),
            0 <= src.ns().block(),
    ;
    assert(0 <= src.sc() * src.synapse_store().block()) by (nonlinear_arith)
        requires
            0 <= src.sc(),
            0 <= src.synapse_store().block(),
    ;
    assert forall|k: int, t: int|
        0 <= k < 3 && 0 <= t < src.nc() * src.ns().block() implies #[trigger] m4[tb_base(d.start(), d.cap(), k) + n.tb_start()
            + t] == sm[tb_base(src.ns().buffer().start(), src.ns().buffer().cap(), k) + src.ns().tb_start() + t] by {
        assert(m2[tb_base(d.start(), d.cap(), k) + n.tb_start() + t] == sm[tb_base(
            src.ns().buffer().start(),
            src.ns().buffer().cap(),
            k,
        ) + src.ns().tb_start() + t]);
    }
    assert forall|k: int, t: int|
        0 <= k < 3 && 0 <= t < src.sc() * src.synapse_store().block() implies #[trigger] m4[tb_base(d.start(), d.cap(), k)
            + y.tb_start() + t] == sm[tb_base(src.ns().buffer().start(), src.ns().buffer().cap(), k) + src.synapse_store().tb_start()
            + t] by {
        assert(m2[tb_base(d.start(), d.cap(), k) + y.tb_start() + t] == sm[tb_base(
            src.ns().buffer().start(),
            src.ns().buffer().cap(),
            k,
        ) + src.synapse_store().tb_start() + t]);
    }
    n.lemma_views_carried(&src.ns(), m4, sm);
    y.lemma_views_carried(&src.synapse_store(), m4, sm);
}

impl<const TB_COUNT: usize, const STORE_COUNT: usize, const LUT_COUNT: usize> Epoch<TB_COUNT, STORE_COUNT, LUT_COUNT> {
    /// The network copy (`m1` to `m2`), the metadata copy (to `m3`) and the
    /// copy of the control cells (to `m4`) together take `source` over.
    proof fn lemma_rest_took_over(&self, source: &Self, sm: Seq<i32>, m1: Seq<i32>, m2: Seq<i32>, m3: Seq<i32>, m4: Seq<i32>)
        requires
            self.valid(m1),
            source.valid(sm),
            source.inv(sm),
            source.mem_metadata.cap() <= self.mem_metadata.cap(),
            self.network.can_take(&source.network),
            m2.len() == m1.len(),
            m3.len() == m1.len(),
            m4.len() == m1.len(),
            unchanged_outside(m1, m2, self.tb_registry.start(), self.end()),
            self.network.ns().slots().copy_result(&source.network.ns().slots(), sm, m1, m2),
            self.network.synapse_store().slots().copy_result(&source.network.synapse_store().slots(), sm, m1, m2),
            forall|k: int, t: int|
                0 <= k < 3 && 0 <= t < source.network.nc() * source.network.ns().block() ==> #[trigger] m2[tb_base(
                    self.network.ns().buffer().start(),
                    self.network.ns().buffer().cap(),
                    k,
                ) + self.network.ns().tb_start() + t] == sm[tb_base(
                    source.network.ns().buffer().start(),
                    source.network.ns().buffer().cap(),
                    k,
                ) + source.network.ns().tb_start() + t],
            forall|k: int, t: int|
                0 <= k < 3 && 0 <= t < source.network.sc() * source.network.synapse_store().block() ==> #[trigger] m2[tb_base(
                    self.network.ns().buffer().start(),
                    self.network.ns().buffer().cap(),
                    k,
                ) + self.network.synapse_store().tb_start() + t] == sm[tb_base(
                    source.network.ns().buffer().start(),
                    source.network.ns().buffer().cap(),
                    k,
                ) + source.network.synapse_store().tb_start() + t],
            forall|i: int| 0 <= i < m3.len() ==> #[trigger] m3[i] == if self.mem_metadata.start() <= i < self.mem_metadata.start()
                + source.mem_metadata.cap() {
                sm[i - self.mem_metadata.start() + source.mem_metadata.start()]
            } else {
                m2[i]
            },
            unchanged_outside(m3, m4, self.tb_registry.start(), self.tb_registry.end()),
            m4[self.default_tb().start() + 1] == sm[source.default_tb().start() + 1],
            forall|j: int| self.default_tb().start() + 4 <= j < self.default_tb().end() ==> #[trigger] m4[j] == m3[j],
        ensures
            self.took_over(source, sm, m1, m4),
    {
        self.lemma_order(m1);
        self.mem_metadata.lemma_wf();
        source.mem_metadata.lemma_wf();
        let meta = self.mem_metadata;
        let smeta = source.mem_metadata;
        let reg_start = self.tb_registry.start();
        assert(unchanged_outside(m2, m3, meta.start(), reg_start));
        assert forall|i: int| 0 <= i < meta.cap() implies #[trigger] meta.view(m4)[i] == if i < smeta.cap() {
            smeta.view(sm)[i]
        } else {
            meta.view(m1)[i]
        } by {
            let j = meta.start() + i;
            assert(m4[j] == m3[j]);
            assert(m2[j] == m1[j]);
        }
        self.lemma_rest_slots(source, sm, m1, m2, m3, m4);
        if self.same_strides(source) {
            let d = self.default_tb();
            self.tb_registry.lemma_inside(TripleBufferId(DEFAULT_TB_RAW));
            d.lemma_layout();
            assert forall|j: int| d.start() + 4 <= j < d.end() implies #[trigger] m4[j] == m2[j] by {
                assert(m3[j] == m2[j]);
            }
            lemma_network_carried(self.network, source.network, m2, m4, sm);
        }
    }

    /// A take-over stays one when the memory before it differed only in the
    /// buffers and the stores.
    proof fn lemma_took_over_frame(&self, source: &Self, sm: Seq<i32>, m0: Seq<i32>, m1: Seq<i32>, m2: Seq<i32>)
        requires
            self.valid(m0),
            self.valid(m1),
            self.valid(m2),
            unchanged_outside(m0, m1, self.tb_registry.start(), self.store_registry.end()),
            self.took_over(source, sm, m1, m2),
        ensures
            self.took_over(source, sm, m0, m2),
    {
        self.lemma_order(m0);
        let n = self.network;
        let sn = source.network;
        n.ns().lemma_wf();
        n.synapse_store().lemma_wf();
        n.ns().slots().lemma_wf();
        n.synapse_store().slots().lemma_wf();
        self.mem_metadata.lemma_wf();
        n.ns().slots().lemma_copy_result_frame(&sn.ns().slots(), sm, m0, m1, m2, m2);
        n.synapse_store().slots().lemma_copy_result_frame(&sn.synapse_store().slots(), sm, m0, m1, m2, m2);
        assert forall|i: int| 0 <= i < self.mem_metadata.cap() implies #[trigger] self.mem_metadata.view(m1)[i]
            == self.mem_metadata.view(m0)[i] by {
            assert(m1[self.mem_metadata.start() + i] == m0[self.mem_metadata.start() + i]);
        }
    }

    /// A fresh epoch of a configuration that passed the verdict, having taken
    /// `source` over, has grown from it.
    pub proof fn lemma_grown(
        &self,
        source: &Self,
        new_cfg: KernelConfig<TB_COUNT, STORE_COUNT, LUT_COUNT>,
        old_cfg: KernelConfig<TB_COUNT, STORE_COUNT, LUT_COUNT>,
        sm: Seq<i32>,
        fresh: Seq<i32>,
        new: Seq<i32>,
    )
        requires
            self.laid_out(new_cfg, self.mem_metadata.start()),
            source.laid_out(old_cfg, source.mem_metadata.start()),
            config_verdict(old_cfg, new_cfg, source.network.nc(), source.network.sc()) is Ok,
            self.network.ns().slots().fresh(fresh),
            self.network.synapse_store().slots().fresh(fresh),
            forall|i: int| 0 <= i < self.mem_metadata.cap() ==> #[trigger] self.mem_metadata.view(fresh)[i] == 0,
            self.took_over(source, sm, fresh, new),
            self.valid(new),
            source.valid(sm),
            self.can_take(source),
            self.gaps_kept(source, fresh, new),
            forall|j: int| self.default_tb().start() + 4 <= j < self.default_tb().end() ==> #[trigger] fresh[j] == 0,
            source.inv(sm),
            all_tb_inv(self.tb_registry, new),
            self.stores_took_over(source, sm, fresh, new),
            forall|i: int| 0 <= i < STORE_COUNT ==> (#[trigger] self.store_registry.store_seq()[i]).slots().fresh(fresh),
            self.net_blocks_first(),
            stores_before_tables(self.store_registry, self.lut_registry),
            self.net_blocks_first() && stores_before_tables(self.store_registry, self.lut_registry) && self.same_strides(source)
                ==> self.contents_carried(source, sm, new),
        ensures
            self.grown(source, sm, new),
    {
        assert(self.same_strides(source));
        self.lemma_grown_zeros(source, sm, fresh, new);
        self.lemma_grown_consistent(source, sm, fresh, new);
        assert forall|i: int| 0 <= i < self.mem_metadata.cap() implies #[trigger] self.mem_metadata.view(new)[i] == if i
            < source.mem_metadata.cap() {
            source.mem_metadata.view(sm)[i]
        } else {
            0
        } by {
            if i >= source.mem_metadata.cap() {
                assert(self.mem_metadata.view(fresh)[i] == 0);
            }
        }
    }

    /// The grown epoch is consistent.
    proof fn lemma_grown_consistent(&self, source: &Self, sm: Seq<i32>, fresh: Seq<i32>, new: Seq<i32>)
        requires
            self.valid(new),
            source.valid(sm),
            source.inv(sm),
            self.can_take(source),
            all_tb_inv(self.tb_registry, new),
            self.took_over(source, sm, fresh, new),
            self.stores_took_over(source, sm, fresh, new),
            self.network.ns().slots().fresh(fresh),
            self.network.synapse_store().slots().fresh(fresh),
            forall|i: int| 0 <= i < STORE_COUNT ==> (#[trigger] self.store_registry.store_seq()[i]).slots().fresh(fresh),
            self.same_strides(source),
            forall|i: int|
                source.network.nc() <= i < self.network.nc() ==> #[trigger] self.network.nodes(new)[i] == zeros(
                    NODE_STRIDE as int,
                ),
            forall|i: int|
                source.network.sc() <= i < self.network.sc() ==> #[trigger] self.network.syns(new)[i] == zeros(
                    SYNAPSE_STRIDE as int,
                ),
        ensures
            self.inv(new),
    {
        let reg = self.tb_registry;
        let dflt = TripleBufferId(DEFAULT_TB_RAW);
        let n = self.network;
        let sn = source.network;
        assert(reg.tb_for(dflt) == self.default_tb());
        assert(tb_inv(new, reg.tb_for(dflt).start()));
        assert(n.ns().slots().holds_copy_of(&sn.ns().slots(), sm, new));
        assert(n.synapse_store().slots().holds_copy_of(&sn.synapse_store().slots(), sm, new));
        assert(n.inv(new));
        n.ns().lemma_wf();
        n.synapse_store().lemma_wf();
        sn.ns().lemma_wf();
        sn.synapse_store().lemma_wf();
        assert(sn.linked(sm));
        lemma_links_extend(sn.nodes(sm), sn.syns(sm), sn.nc(), sn.sc(), n.nodes(new), n.syns(new), n.nc(), n.sc());
        let st = self.store_registry;
        let ss = source.store_registry;
        assert forall|k: int| 0 <= k < STORE_COUNT implies (#[trigger] st.store_seq()[k]).inv(new) by {
            let id = st.def_seq()[k].id;
            st.lemma_store_for_def(k);
            assert(id.0 < STORE_COUNT);
            let i = ss.index()[id.0 as int]->0 as int;
            assert(ss.def_seq()[i].id.0 == id.0);
            assert(ss.def_seq()[i].id == id);
            assert(st.store_for(id) == st.store_seq()[k]);
            assert(st.store_for(ss.def_seq()[i].id).slots().copy_result(&ss.store_seq()[i].slots(), sm, fresh, new));
            assert(reg.id_ok(st.def_seq()[k].tb_id));
            assert(tb_inv(new, reg.tb_for(st.def_seq()[k].tb_id).start()));
        }
    }

    /// The node and synapse slots past those of `source` read as zeros, the
    /// blocks there having been zero and kept.
    proof fn lemma_grown_zeros(&self, source: &Self, sm: Seq<i32>, fresh: Seq<i32>, new: Seq<i32>)
        requires
            self.valid(new),
            source.valid(sm),
            self.can_take(source),
            self.same_strides(source),
            self.gaps_kept(source, fresh, new),
            forall|j: int| self.default_tb().start() + 4 <= j < self.default_tb().end() ==> #[trigger] fresh[j] == 0,
        ensures
            forall|i: int| source.network.nc() <= i < self.network.nc() ==> #[trigger] self.network.nodes(new)[i] == zeros(
                NODE_STRIDE as int,
            ),
            forall|i: int| source.network.sc() <= i < self.network.sc() ==> #[trigger] self.network.syns(new)[i] == zeros(
                SYNAPSE_STRIDE as int,
            ),
    {
        let d = self.default_tb();
        let n = self.network.ns();
        let y = self.network.synapse_store();
        let sn = source.network;
        self.lemma_order(new);
        self.tb_registry.lemma_inside(TripleBufferId(DEFAULT_TB_RAW));
        assert(self.tb_registry.tb_for(TripleBufferId(DEFAULT_TB_RAW)) == d);
        d.lemma_layout();
        n.lemma_wf();
        y.lemma_wf();
        let w = tb_writer_id(new, d.start());
        assert(0 <= w < 3);
        assert forall|i: int| sn.nc() <= i < self.network.nc() implies #[trigger] self.network.nodes(new)[i] == zeros(
            NODE_STRIDE as int,
        ) by {
            let b = n.block();
            let c = cells(new, n.block_base(new, i), n.cfg().core_stride as int);
            assert forall|t: int| 0 <= t < n.cfg().core_stride implies #[trigger] c[t] == 0i32 by {
                assert(sn.nc() * b + 0 <= i * b + t < n.cap() * b) by (nonlinear_arith)
                    requires
                        sn.nc() <= i < n.cap(),
                        0 <= t < b,
                ;
                let off = n.tb_start() + i * b + t;
                assert(n.block_base(new, i) + t == tb_base(d.start(), d.cap(), w) + off);
                assert(new[tb_base(d.start(), d.cap(), w) + off] == fresh[tb_base(d.start(), d.cap(), w) + off]);
            }
            assert(c =~= zeros(NODE_STRIDE as int));
        }
        assert forall|i: int| sn.sc() <= i < self.network.sc() implies #[trigger] self.network.syns(new)[i] == zeros(
            SYNAPSE_STRIDE as int,
        ) by {
            let b = y.block();
            let c = cells(new, y.block_base(new, i), y.cfg().core_stride as int);
            assert forall|t: int| 0 <= t < y.cfg().core_stride implies #[trigger] c[t] == 0i32 by {
                assert(sn.sc() * b + 0 <= i * b + t < y.cap() * b) by (nonlinear_arith)
                    requires
                        sn.sc() <= i < y.cap(),
                        0 <= t < b,
                ;
                let off = y.tb_start() + i * b + t;
                assert(y.block_base(new, i) + t == tb_base(d.start(), d.cap(), w) + off);
                assert(new[tb_base(d.start(), d.cap(), w) + off] == fresh[tb_base(d.start(), d.cap(), w) + off]);
            }
            assert(c =~= zeros(SYNAPSE_STRIDE as int));
        }
    }

    /// The node and synapse blocks past those of `source`, in all three
    /// buffers, read on `new` as on `old`.
    pub open spec fn gaps_kept(&self, source: &Self, old: Seq<i32>, new: Seq<i32>) -> bool {
        let d = self.default_tb();
        let n = self.network.ns();
        let y = self.network.synapse_store();
        &&& forall|k: int, off: int|
            0 <= k < 3 && n.tb_start() + source.network.nc() * source.network.ns().block() <= off < n.tb_end() ==> #[trigger] new[tb_base(
                d.start(),
                d.cap(),
                k,
            ) + off] == old[tb_base(d.start(), d.cap(), k) + off]
        &&& forall|k: int, off: int|
            0 <= k < 3 && y.tb_start() + source.network.sc() * source.network.synapse_store().block() <= off < y.tb_end()
                ==> #[trigger] new[tb_base(d.start(), d.cap(), k) + off] == old[tb_base(d.start(), d.cap(), k) + off]
    }

    /// Copying tables (`m0` to `m1`) and stores (to `m2`) leaves the network's
    /// blocks alone.
    proof fn lemma_gaps_through_tables_and_stores(&self, source: &Self, m0: Seq<i32>, m1: Seq<i32>, m2: Seq<i32>, m3: Seq<i32>)
        requires
            self.valid(m0),
            self.net_blocks_first(),
            m1.len() == m0.len(),
            m2.len() == m0.len(),
            forall|x: int| 0 <= x < m0.len() && self.lut_registry.off_tables(x) ==> #[trigger] m1[x] == m0[x],
            forall|x: int| 0 <= x < m1.len() && self.store_registry.off_store_blocks(x) ==> #[trigger] m2[x] == m1[x],
            self.gaps_kept(source, m2, m3),
        ensures
            self.gaps_kept(source, m0, m3),
    {
        let d = self.default_tb();
        let n = self.network.ns();
        let y = self.network.synapse_store();
        self.lemma_order(m0);
        n.lemma_wf();
        y.lemma_wf();
        assert forall|k: int, off: int| 0 <= k < 3 && n.tb_start() <= off < y.tb_end() implies #[trigger] m2[tb_base(
            d.start(),
            d.cap(),
            k,
        ) + off] == m0[tb_base(d.start(), d.cap(), k) + off] by {
            self.lemma_net_cell_apart(m0, k, off);
            let x = tb_base(d.start(), d.cap(), k) + off;
            assert(m1[x] == m0[x]);
            assert(m2[x] == m1[x]);
        }
        assert forall|k: int, off: int|
            0 <= k < 3 && n.tb_start() + source.network.nc() * source.network.ns().block() <= off < n.tb_end() implies #[trigger] m3[tb_base(
            d.start(),
            d.cap(),
            k,
        ) + off] == m0[tb_base(d.start(), d.cap(), k) + off] by {
            assert(m3[tb_base(d.start(), d.cap(), k) + off] == m2[tb_base(d.start(), d.cap(), k) + off]);
            assert(0 <= source.network.nc() * source.network.ns().block()) by (nonlinear_arith)
                requires
                    0 <= source.network.nc(),
                    0 <= source.network.ns().block(),
            ;
        }
        assert forall|k: int, off: int|
            0 <= k < 3 && y.tb_start() + source.network.sc() * source.network.synapse_store().block() <= off < y.tb_end()
                implies #[trigger] m3[tb_base(d.start(), d.cap(), k) + off] == m0[tb_base(d.start(), d.cap(), k) + off] by {
            assert(m3[tb_base(d.start(), d.cap(), k) + off] == m2[tb_base(d.start(), d.cap(), k) + off]);
            assert(0 <= source.network.sc() * source.network.synapse_store().block()) by (nonlinear_arith)
                requires
                    0 <= source.network.sc(),
                    0 <= source.network.synapse_store().block(),
            ;
        }
    }

    /// The stores' copies survive the table copy before them and the rest
    /// after them.
    proof fn lemma_stores_took_over_frame(&self, source: &Self, sm: Seq<i32>, m0: Seq<i32>, m1: Seq<i32>, m2: Seq<i32>, m3: Seq<i32>)
        requires
            self.valid(m0),
            source.valid(sm),
            m1.len() == m0.len(),
            m2.len() == m0.len(),
            m3.len() == m0.len(),
            unchanged_outside(m0, m1, self.tb_registry.start(), self.tb_registry.end()),
            forall|x: int| self.store_registry.start() <= x < self.store_registry.end() ==> #[trigger] m3[x] == m2[x],
            self.stores_took_over(source, sm, m1, m2),
        ensures
            self.stores_took_over(source, sm, m0, m3),
    {
        self.lemma_order(m0);
        let st = self.store_registry;
        let ss = source.store_registry;
        assert forall|i: int| 0 <= i < STORE_COUNT implies st.store_for(ss.def_seq()[i].id).slots().copy_result(
            &(#[trigger] ss.store_seq()[i]).slots(),
            sm,
            m0,
            m3,
        ) by {
            let id = ss.def_seq()[i].id;
            ss.lemma_store_for_def(i);
            assert(id.0 < STORE_COUNT);
            let k = st.index()[id.0 as int]->0 as int;
            st.lemma_stores_apart(k, k);
            let dst = st.store_seq()[k];
            dst.lemma_wf();
            dst.slots().lemma_wf();
            assert(dst.valid(m0));
            assert forall|x: int| dst.slots().start() <= x < dst.slots().end() implies #[trigger] m1[x] == m0[x] by {
            }
            assert forall|x: int| dst.slots().start() <= x < dst.slots().end() implies #[trigger] m3[x] == m2[x] by {
            }
            dst.slots().lemma_copy_result_frame(&ss.store_seq()[i].slots(), sm, m0, m1, m2, m3);
        }
    }

    /// The network copy, the metadata copy and the copy of the control cells
    /// leave the blocks past those of `source` alone.
    proof fn lemma_rest_gaps(&self, source: &Self, sm: Seq<i32>, m1: Seq<i32>, m2: Seq<i32>, m3: Seq<i32>, m4: Seq<i32>)
        requires
            self.valid(m1),
            source.valid(sm),
            self.can_take(source),
            m2.len() == m1.len(),
            m3.len() == m1.len(),
            m4.len() == m1.len(),
            forall|x: int|
                0 <= x < m1.len() && !(self.network.ns().start() <= x < self.network.synapse_store().end()) && !tb_in_region(
                    x,
                    self.network.ns().buffer().start(),
                    self.network.ns().buffer().cap(),
                    self.network.ns().tb_start(),
                    source.network.nc() * source.network.ns().block(),
                ) && !tb_in_region(
                    x,
                    self.network.ns().buffer().start(),
                    self.network.ns().buffer().cap(),
                    self.network.synapse_store().tb_start(),
                    source.network.sc() * source.network.synapse_store().block(),
                ) ==> #[trigger] m2[x] == m1[x],
            unchanged_outside(m2, m3, self.mem_metadata.start(), self.tb_registry.start()),
            forall|j: int| self.default_tb().start() + 4 <= j < self.default_tb().end() ==> #[trigger] m4[j] == m3[j],
        ensures
            self.gaps_kept(source, m1, m4),
    {
        self.lemma_order(m1);
        let d = self.default_tb();
        let n = self.network.ns();
        let y = self.network.synapse_store();
        let sn = source.network;
        self.tb_registry.lemma_inside(TripleBufferId(DEFAULT_TB_RAW));
        d.lemma_layout();
        n.lemma_wf();
        y.lemma_wf();
        sn.ns().lemma_wf();
        sn.synapse_store().lemma_wf();
        let cn = sn.nc() * sn.ns().block();
        let cs = sn.sc() * sn.synapse_store().block();
        assert(0 <= sn.nc() * sn.ns().block()) by (nonlinear_arith)
            requires
                0 <= sn.nc(),
                0 <= sn.ns().block(),
        ;
        assert(0 <= sn.sc() * sn.synapse_store().block()) by (nonlinear_arith)
            requires
                0 <= sn.sc(),
                0 <= sn.synapse_store().block(),
        ;
        assert forall|k: int, off: int| 0 <= k < 3 && n.tb_start() <= off < y.tb_end() implies {
            let x = #[trigger] (tb_base(d.start(), d.cap(), k) + off);
            (n.tb_start() + cn <= off < n.tb_end() || y.tb_start() + cs <= off < y.tb_end()) ==> m4[x] == m1[x]
        } by {
            let x = tb_base(d.start(), d.cap(), k) + off;
            if n.tb_start() + cn <= off < n.tb_end() || y.tb_start() + cs <= off < y.tb_end() {
                lemma_in_region_at(d.start(), d.cap(), k, off, n.tb_start(), cn);
                lemma_in_region_at(d.start(), d.cap(), k, off, y.tb_start(), cs);
                assert(m2[x] == m1[x]);
                assert(m3[x] == m2[x]);
                assert(m4[x] == m3[x]);
            }
        }
    }

    /// The network's allocators keep their copy through the metadata copy
    /// and the copy of the control cells.
    proof fn lemma_rest_slots(&self, source: &Self, sm: Seq<i32>, m1: Seq<i32>, m2: Seq<i32>, m3: Seq<i32>, m4: Seq<i32>)
        requires
            self.valid(m1),
            m2.len() == m1.len(),
            m3.len() == m1.len(),
            m4.len() == m1.len(),
            self.network.ns().slots().copy_result(&source.network.ns().slots(), sm, m1, m2),
            self.network.synapse_store().slots().copy_result(&source.network.synapse_store().slots(), sm, m1, m2),
            unchanged_outside(m2, m3, self.mem_metadata.start(), self.tb_registry.start()),
            unchanged_outside(m3, m4, self.tb_registry.start(), self.tb_registry.end()),
        ensures
            self.network.ns().slots().copy_result(&source.network.ns().slots(), sm, m1, m4),
            self.network.synapse_store().slots().copy_result(&source.network.synapse_store().slots(), sm, m1, m4),
    {
        self.lemma_order(m1);
        let n = self.network;
        let sn = source.network;
        n.ns().lemma_wf();
        n.synapse_store().lemma_wf();
        n.ns().slots().lemma_wf();
        n.synapse_store().slots().lemma_wf();
        assert forall|i: int| n.ns().slots().start() <= i < n.ns().slots().end() implies #[trigger] m4[i] == m2[i] by {
            assert(m3[i] == m2[i]);
        }
        assert forall|i: int| n.synapse_store().slots().start() <= i < n.synapse_store().slots().end() implies #[trigger] m4[i]
            == m2[i] by {
            assert(m3[i] == m2[i]);
        }
        n.ns().slots().lemma_copy_result_frame(&sn.ns().slots(), sm, m1, m1, m2, m4);
        n.synapse_store().slots().lemma_copy_result_frame(&sn.synapse_store().slots(), sm, m1, m1, m2, m4);
    }
}

impl<const TB_COUNT: usize, const STORE_COUNT: usize, const LUT_COUNT: usize> Epoch<TB_COUNT, STORE_COUNT, LUT_COUNT> {
    /// A cell of the default buffer before every store and table placed on
    /// it lies outside what copying tables and stores writes.
    pub proof fn lemma_net_cell_apart(&self, m: Seq<i32>, k: int, off: int)
        requires
            self.valid(m),
            self.net_blocks_first(),
            0 <= k < 3,
            0 <= off < self.network.synapse_store().tb_end(),
        ensures
            ({
                let x = tb_base(self.default_tb().start(), self.default_tb().cap(), k) + off;
                &&& self.lut_registry.off_tables(x)
                &&& self.store_registry.off_store_blocks(x)
                &&& self.default_tb().start() + 4 <= x < self.default_tb().end()
            }),
    {
        let reg = self.tb_registry;
        let d = self.default_tb();
        let dflt = TripleBufferId(DEFAULT_TB_RAW);
        self.lemma_order(m);
        reg.lemma_inside(dflt);
        d.lemma_layout();
        self.network.ns().lemma_wf();
        self.network.synapse_store().lemma_wf();
        assert(reg.tb_for(dflt) == d);
        let x = tb_base(d.start(), d.cap(), k) + off;
        assert forall|t: int| 0 <= t < LUT_COUNT implies !tb_in_region(
            x,
            (#[trigger] self.lut_registry.table_seq()[t]).buffer().start(),
            self.lut_registry.table_seq()[t].buffer().cap(),
            self.lut_registry.table_seq()[t].tb_start(),
            self.lut_registry.table_seq()[t].size_spec(),
        ) by {
            let tab = self.lut_registry.table_seq()[t];
            let y = self.lut_registry.def_seq()[t].tb_id;
            assert(reg.id_ok(y));
            reg.lemma_disjoint(y, dflt);
            reg.lemma_inside(y);
            reg.tb_for(y).lemma_layout();
            if tab.buffer() == d {
                lemma_in_region_at(d.start(), d.cap(), k, off, tab.tb_start(), tab.size_spec());
            }
        }
        assert forall|t: int| 0 <= t < STORE_COUNT implies !tb_in_region(
            x,
            (#[trigger] self.store_registry.store_seq()[t]).buffer().start(),
            self.store_registry.store_seq()[t].buffer().cap(),
            self.store_registry.store_seq()[t].tb_start(),
            self.store_registry.store_seq()[t].buffer().cap() - self.store_registry.store_seq()[t].tb_start(),
        ) by {
            let st = self.store_registry.store_seq()[t];
            let y = self.store_registry.def_seq()[t].tb_id;
            assert(reg.id_ok(y));
            reg.lemma_disjoint(y, dflt);
            reg.lemma_inside(y);
            reg.tb_for(y).lemma_layout();
            st.lemma_wf();
            if st.buffer() == d {
                lemma_in_region_at(d.start(), d.cap(), k, off, st.tb_start(), st.buffer().cap() - st.tb_start());
            }
        }
    }
}

/// Control cells that stay keep every control block valid.
proof fn lemma_controls_kept<const TB: usize>(reg: TripleBufferWriterRegistry<TB>, m1: Seq<i32>, m2: Seq<i32>)
    requires
        reg.wf(),
        reg.control_ok(m1),
        m1.len() == m2.len(),
        forall|x: TripleBufferId, c: int|
            reg.id_ok(x) && 0 <= c < 4 ==> #[trigger] m2[reg.tb_for(x).start() + c] == m1[reg.tb_for(x).start() + c],
    ensures
        reg.control_ok(m2),
        all_tb_inv(reg, m1) ==> all_tb_inv(reg, m2),
{
    assert forall|x: TripleBufferId| reg.id_ok(x) implies {
        &&& (#[trigger] reg.tb_for(x)).valid(m2)
        &&& 0 <= tb_writer_id(m2, reg.tb_for(x).start()) < 3
    } by {
        assert(reg.tb_for(x).valid(m1));
        assert(m2[reg.tb_for(x).start() + 1] == m1[reg.tb_for(x).start() + 1]);
    }
    if all_tb_inv(reg, m1) {
        assert forall|x: TripleBufferId| reg.id_ok(x) implies #[trigger] tb_inv(m2, reg.tb_for(x).start()) by {
            reg.lemma_inside(x);
            reg.tb_for(x).lemma_layout();
            assert(reg.tb_for(x).valid(m1));
            assert(tb_inv(m1, reg.tb_for(x).start()));
            assert forall|y: int| reg.tb_for(x).start() <= y < reg.tb_for(x).start() + 4 implies #[trigger] m2[y] == m1[y] by {
                assert(m2[reg.tb_for(x).start() + (y - reg.tb_for(x).start())] == m1[reg.tb_for(x).start() + (y
                    - reg.tb_for(x).start())]);
            }
            lemma_tb_inv_frame(m1, m2, reg.tb_for(x).start());
        }
    }
}

impl<const TB_COUNT: usize, const STORE_COUNT: usize, const LUT_COUNT: usize> Epoch<TB_COUNT, STORE_COUNT, LUT_COUNT> {
    /// The parts of a valid epoch lie in order on the memory plane.
    pub proof fn lemma_order(&self, mem: Seq<i32>)
        requires
            self.valid(mem),
        ensures
            0 <= self.mem_metadata.start() <= self.mem_metadata.end(),
            self.mem_metadata.end() <= self.tb_registry.start(),
            self.tb_registry.start() <= self.tb_registry.end(),
            self.tb_registry.end() <= self.store_registry.start(),
            self.store_registry.start() <= self.store_registry.end(),
            self.store_registry.end() <= self.network.ns().start(),
            self.network.ns().start() <= self.end(),
            self.end() <= mem.len(),
            self.network.ns().buffer() == self.tb_registry.default_buffer(),
    {
        self.mem_metadata.lemma_wf();
        self.tb_registry.lemma_inside(TripleBufferId(DEFAULT_TB_RAW));
        self.store_registry.lemma_stores_apart(0, 0);
        self.store_registry.store_seq()[0].lemma_wf();
        self.network.ns().lemma_wf();
        self.network.synapse_store().lemma_wf();
    }
}

/// A copy that changes only cells off the stores keeps every buffer's
/// control cells and every cell outside `[reg.start(), hi)`.
proof fn lemma_store_copy_frame<const TB: usize, const ST: usize>(
    reg: TripleBufferWriterRegistry<TB>,
    st: EntryStoreWriterRegistry<TB, ST>,
    hi: int,
    m1: Seq<i32>,
    m2: Seq<i32>,
)
    requires
        reg.wf(),
        st.wf(),
        st.placed_on(reg),
        reg.end() <= st.start(),
        st.start() <= st.end(),
        st.end() <= hi,
        reg.control_ok(m1),
        m1.len() == m2.len(),
        forall|x: int| 0 <= x < m1.len() && st.off_stores(x) ==> #[trigger] m2[x] == m1[x],
    ensures
        reg.control_ok(m2),
        all_tb_inv(reg, m1) ==> all_tb_inv(reg, m2),
        unchanged_outside(m1, m2, reg.start(), hi),
{
    reg.lemma_inside(TripleBufferId(DEFAULT_TB_RAW));
    reg.default_buffer().lemma_layout();
    assert forall|j: int| 0 <= j < m1.len() && !(reg.start() <= j < hi) implies #[trigger] m2[j] == m1[j] by {
        assert forall|k: int| 0 <= k < ST implies !((#[trigger] st.store_seq()[k]).buffer().start() + 4 <= j
            < st.store_seq()[k].buffer().end()) by {
            let y = st.def_seq()[k].tb_id;
            assert(reg.id_ok(y));
            reg.lemma_inside(y);
            reg.tb_for(y).lemma_layout();
        }
        assert(st.off_stores(j));
    }
    assert forall|x: TripleBufferId, c: int| reg.id_ok(x) && 0 <= c < 4 implies #[trigger] m2[reg.tb_for(x).start() + c]
        == m1[reg.tb_for(x).start() + c] by {
        let j = reg.tb_for(x).start() + c;
        reg.lemma_inside(x);
        reg.tb_for(x).lemma_layout();
        assert(reg.tb_for(x).valid(m1));
        assert forall|k: int| 0 <= k < ST implies !((#[trigger] st.store_seq()[k]).buffer().start() + 4 <= j
            < st.store_seq()[k].buffer().end()) by {
            let y = st.def_seq()[k].tb_id;
            assert(reg.id_ok(y));
            reg.lemma_inside(y);
            reg.tb_for(y).lemma_layout();
            reg.lemma_disjoint(x, y);
        }
        assert(st.off_stores(j));
    }
    lemma_controls_kept(reg, m1, m2);
}

/// A copy confined to `[lo, hi)`, past the buffers, and to the default
/// buffer's area keeps every buffer's control cells and every cell outside
/// `[reg.start(), hi)`.
proof fn lemma_network_copy_frame<const TB: usize>(reg: TripleBufferWriterRegistry<TB>, lo: int, hi: int, m1: Seq<i32>, m2: Seq<i32>)
    requires
        reg.wf(),
        reg.control_ok(m1),
        m1.len() == m2.len(),
        reg.end() <= lo,
        lo <= hi,
        forall|x: int|
            0 <= x < m1.len() && !(lo <= x < hi) && !(reg.default_buffer().start() + 4 <= x < reg.default_buffer().end())
                ==> #[trigger] m2[x] == m1[x],
    ensures
        reg.control_ok(m2),
        all_tb_inv(reg, m1) ==> all_tb_inv(reg, m2),
        unchanged_outside(m1, m2, reg.start(), hi),
{
    let dflt = TripleBufferId(DEFAULT_TB_RAW);
    reg.lemma_inside(dflt);
    reg.default_buffer().lemma_layout();
    assert forall|x: TripleBufferId, c: int| reg.id_ok(x) && 0 <= c < 4 implies #[trigger] m2[reg.tb_for(x).start() + c]
        == m1[reg.tb_for(x).start() + c] by {
        reg.lemma_inside(x);
        reg.lemma_disjoint(x, dflt);
        reg.tb_for(x).lemma_layout();
        assert(reg.tb_for(x).valid(m1));
    }
    lemma_controls_kept(reg, m1, m2);
}

/// A copy confined to cells before the buffers keeps every buffer's control
/// cells.
proof fn lemma_metadata_copy_frame<const TB: usize>(reg: TripleBufferWriterRegistry<TB>, lo: int, m1: Seq<i32>, m2: Seq<i32>)
    requires
        reg.wf(),
        reg.control_ok(m1),
        m1.len() == m2.len(),
        unchanged_outside(m1, m2, lo, reg.start()),
    ensures
        reg.control_ok(m2),
        all_tb_inv(reg, m1) ==> all_tb_inv(reg, m2),
{
    assert forall|x: TripleBufferId, c: int| reg.id_ok(x) && 0 <= c < 4 implies #[trigger] m2[reg.tb_for(x).start() + c]
        == m1[reg.tb_for(x).start() + c] by {
        reg.lemma_inside(x);
        reg.tb_for(x).lemma_layout();
        assert(reg.tb_for(x).valid(m1));
    }
    lemma_controls_kept(reg, m1, m2);
}

/// A buffer registered under the same id in a registry of definitions that
/// passed the verdict is no smaller.
pub proof fn lemma_tb_caps_grow<const TB: usize>(old_reg: TripleBufferWriterRegistry<TB>, new_reg: TripleBufferWriterRegistry<TB>)
    requires
        old_reg.wf(),
        new_reg.wf(),
        tb_defs_verdict(old_reg.def_seq(), new_reg.def_seq()) is Ok,
        old_reg.default_buffer().cap() <= new_reg.default_buffer().cap(),
    ensures
        forall|x: TripleBufferId| old_reg.id_ok(x) ==> #[trigger] old_reg.tb_for(x).cap() <= new_reg.tb_for(x).cap(),
{
    assert forall|x: TripleBufferId| old_reg.id_ok(x) implies #[trigger] old_reg.tb_for(x).cap() <= new_reg.tb_for(x).cap() by {
        if x.0 != DEFAULT_TB_RAW {
            let j = old_reg.index()[x.0 as int]->0 as int;
            let od = old_reg.def_seq();
            let nd = new_reg.def_seq();
            assert(od[j].id.0 == x.0);
            assert(od[j].id == x);
            lemma_tb_verdict_ok(od, nd, j);
            let k = choose|k: int| 0 <= k < nd.len() && (#[trigger] nd[k]).id == od[j].id && nd[k].buffer_capacity >= od[j].buffer_capacity;
            let k2 = new_reg.index()[x.0 as int]->0 as int;
            assert(nd[k2].id.0 == x.0);
            assert(nd[k2].id == x);
            if k != k2 {
                if k < k2 {
                    assert(nd[k].id != nd[k2].id);
                } else {
                    assert(nd[k2].id != nd[k].id);
                }
            }
        }
    }
}

/// Carried-over definitions load the default buffer no less.
pub proof fn lemma_default_cap_grows<const TB: usize, const ST: usize, const LU: usize>(
    old_cfg: KernelConfig<TB, ST, LU>,
    new_cfg: KernelConfig<TB, ST, LU>,
)
    requires
        old_cfg.layout_ok(),
        new_cfg.layout_ok(),
        config_verdict(old_cfg, new_cfg, old_cfg.network_config.node_capacity as int, old_cfg.network_config.synapse_capacity as int) is Ok,
    ensures
        old_cfg.default_tb_capacity() <= new_cfg.default_tb_capacity(),
        forall|x: TripleBufferId| #[trigger] es_load(old_cfg.store_defs@, x) <= es_load(new_cfg.store_defs@, x),
        forall|x: TripleBufferId| #[trigger] lut_load(old_cfg.lut_defs@, x) <= lut_load(new_cfg.lut_defs@, x),
{
    let os = old_cfg.store_defs@;
    let ns = new_cfg.store_defs@;
    let ol = old_cfg.lut_defs@;
    let nl = new_cfg.lut_defs@;
    let spos = Seq::new(os.len(), |i: int| choose|k: int| 0 <= k < ns.len() && store_kept(os[i], #[trigger] ns[k]));
    assert forall|i: int| 0 <= i < os.len() implies 0 <= #[trigger] spos[i] < ns.len() && store_kept(os[i], ns[spos[i]]) by {
        lemma_store_verdict_ok(os, ns, i);
    }
    let lpos = Seq::new(ol.len(), |i: int| choose|k: int| 0 <= k < nl.len() && lut_kept(ol[i], #[trigger] nl[k]));
    assert forall|i: int| 0 <= i < ol.len() implies 0 <= #[trigger] lpos[i] < nl.len() && lut_kept(ol[i], nl[lpos[i]]) by {
        lemma_lut_verdict_ok(ol, nl, i);
    }
    assert forall|x: TripleBufferId| #[trigger] es_load(os, x) <= es_load(ns, x) by {
        lemma_es_load_mono(os, ns, spos, x);
    }
    assert forall|x: TripleBufferId| #[trigger] lut_load(ol, x) <= lut_load(nl, x) by {
        lemma_lut_load_mono(ol, nl, lpos, x);
    }
    let dflt = TripleBufferId(DEFAULT_TB_RAW);
    assert(es_load(os, dflt) <= es_load(ns, dflt));
    assert(lut_load(ol, dflt) <= lut_load(nl, dflt));
    let on = old_cfg.network_config;
    let nn = new_cfg.network_config;
    assert(on.node_capacity * (crate::constants::NODE_STRIDE + on.node_meta_stride) <= nn.node_capacity * (
    crate::constants::NODE_STRIDE + nn.node_meta_stride)) by (nonlinear_arith)
        requires
            on.node_capacity <= nn.node_capacity,
            on.node_meta_stride == nn.node_meta_stride,
    ;
    assert(on.synapse_capacity * (crate::constants::SYNAPSE_STRIDE + on.synapse_meta_stride) <= nn.synapse_capacity * (
    crate::constants::SYNAPSE_STRIDE + nn.synapse_meta_stride)) by (nonlinear_arith)
        requires
            on.synapse_capacity <= nn.synapse_capacity,
            on.synapse_meta_stride == nn.synapse_meta_stride,
    ;
}

impl<const TB_COUNT: usize, const STORE_COUNT: usize, const LUT_COUNT: usize> Epoch<TB_COUNT, STORE_COUNT, LUT_COUNT> {
    /// An epoch of a configuration that passed the verdict against the
    /// configuration of `source` can take `source` over.
    #[verifier::spinoff_prover]
    #[verifier::rlimit(40)]
    pub proof fn lemma_can_take(
        &self,
        source: &Self,
        new_cfg: KernelConfig<TB_COUNT, STORE_COUNT, LUT_COUNT>,
        old_cfg: KernelConfig<TB_COUNT, STORE_COUNT, LUT_COUNT>,
        new_mem: Seq<i32>,
        old_mem: Seq<i32>,
        start: int,
    )
        requires
            new_cfg.layout_ok(),
            old_cfg.layout_ok(),
            self.laid_out(new_cfg, start),
            source.laid_out(old_cfg, start),
            self.valid(new_mem),
            source.valid(old_mem),
            config_verdict(old_cfg, new_cfg, source.network.nc(), source.network.sc()) is Ok,
        ensures
            self.can_take(source),
    {
        let nreg = self.tb_registry;
        let oreg = source.tb_registry;
        let dflt = TripleBufferId(DEFAULT_TB_RAW);
        lemma_default_cap_grows(old_cfg, new_cfg);
        lemma_tb_caps_grow(oreg, nreg);
        // Entry stores.
        assert forall|i: int| 0 <= i < STORE_COUNT implies {
            let src = #[trigger] source.store_registry.store_seq()[i];
            let dst = self.store_registry.store_for(source.store_registry.def_seq()[i].id);
            &&& src.cap() <= dst.cap()
            &&& src.buffer().cap() <= dst.buffer().cap()
            &&& dst.tb_start() + src.cap() * src.block() <= dst.buffer().cap()
            &&& dst.tb_start() + src.cap() * src.block() <= dst.tb_end()
            &&& src.cap() * src.cfg().attr_stride <= dst.cap() * dst.cfg().attr_stride
            &&& src.cfg().core_stride == dst.cfg().core_stride
            &&& src.cfg().meta_stride == dst.cfg().meta_stride
            &&& src.cfg().attr_stride == dst.cfg().attr_stride
            &&& dst.buffer() == self.tb_registry.tb_for(source.store_registry.def_seq()[i].tb_id)
        } by {
            let os = old_cfg.store_defs@;
            let ns = new_cfg.store_defs@;
            let src = source.store_registry.store_seq()[i];
            let id = os[i].id;
            let k2 = self.store_registry.index()[id.0 as int]->0 as int;
            self.store_registry.lemma_store_for_def(k2);
            assert(ns[k2].id.0 == id.0);
            assert(ns[k2].id == id);
            let dst = self.store_registry.store_seq()[k2];
            lemma_store_verdict_ok(os, ns, i);
            let k = choose|k: int| 0 <= k < ns.len() && store_kept(os[i], #[trigger] ns[k]);
            if k != k2 {
                if k < k2 {
                    assert(ns[k].id != ns[k2].id);
                } else {
                    assert(ns[k2].id != ns[k].id);
                }
            }
            assert(store_kept(os[i], ns[k2]));
            assert(oreg.id_ok(os[i].tb_id));
            assert(src.buffer() == oreg.tb_for(os[i].tb_id));
            assert(dst.buffer() == nreg.tb_for(ns[k2].tb_id));
            dst.lemma_wf();
            src.lemma_wf();
            let c = src.cfg();
            let d = dst.cfg();
            assert(c.capacity * (c.core_stride + c.meta_stride) <= d.capacity * (d.core_stride + d.meta_stride)) by (nonlinear_arith)
                requires
                    c.capacity <= d.capacity,
                    c.core_stride + c.meta_stride == d.core_stride + d.meta_stride,
                    0 <= c.core_stride + c.meta_stride,
            ;
            assert(c.capacity * c.attr_stride <= d.capacity * d.attr_stride) by (nonlinear_arith)
                requires
                    c.capacity <= d.capacity,
                    c.attr_stride == d.attr_stride,
            ;
        }
        // Lookup tables.
        assert forall|i: int| 0 <= i < LUT_COUNT implies {
            let src = #[trigger] source.lut_registry.table_seq()[i];
            let dst = self.lut_registry.table_for(source.lut_registry.def_seq()[i].id);
            &&& src.size_spec() <= dst.size_spec()
            &&& src.buffer().cap() <= dst.buffer().cap()
            &&& dst.buffer() == self.tb_registry.tb_for(source.lut_registry.def_seq()[i].tb_id)
        } by {
            let ol = old_cfg.lut_defs@;
            let nl = new_cfg.lut_defs@;
            let id = ol[i].id;
            let k2 = self.lut_registry.index()[id.0 as int]->0 as int;
            self.lut_registry.lemma_table_for_def(k2);
            assert(nl[k2].id.0 == id.0);
            assert(nl[k2].id == id);
            lemma_lut_verdict_ok(ol, nl, i);
            let k = choose|k: int| 0 <= k < nl.len() && lut_kept(ol[i], #[trigger] nl[k]);
            if k != k2 {
                if k < k2 {
                    assert(nl[k].id != nl[k2].id);
                } else {
                    assert(nl[k2].id != nl[k].id);
                }
            }
            assert(lut_kept(ol[i], nl[k2]));
            assert(oreg.id_ok(ol[i].tb_id));
        }
        // User buffers.
        assert forall|i: int| 0 <= i < TB_COUNT implies (#[trigger] oreg.buffers()[i]).cap() <= nreg.tb_for(
            oreg.def_seq()[i].id,
        ).cap() by {
            oreg.lemma_tb_for_def(i);
            assert(oreg.id_ok(oreg.def_seq()[i].id));
        }
        // The network.
        let on = source.network;
        let nn = self.network;
        on.ns().lemma_wf();
        nn.ns().lemma_wf();
        on.synapse_store().lemma_wf();
        nn.synapse_store().lemma_wf();
        let a = on.ns().cfg();
        let b = nn.ns().cfg();
        assert(a.capacity * (a.core_stride + a.meta_stride) <= b.capacity * (b.core_stride + b.meta_stride)) by (nonlinear_arith)
            requires
                a.capacity <= b.capacity,
                a.core_stride + a.meta_stride == b.core_stride + b.meta_stride,
                0 <= a.core_stride + a.meta_stride,
        ;
        assert(a.capacity * a.attr_stride <= b.capacity * b.attr_stride) by (nonlinear_arith)
            requires
                a.capacity <= b.capacity,
                a.attr_stride == b.attr_stride,
        ;
        let c = on.synapse_store().cfg();
        let d = nn.synapse_store().cfg();
        assert(c.capacity * (c.core_stride + c.meta_stride) <= d.capacity * (d.core_stride + d.meta_stride)) by (nonlinear_arith)
            requires
                c.capacity <= d.capacity,
                c.core_stride + c.meta_stride == d.core_stride + d.meta_stride,
                0 <= c.core_stride + c.meta_stride,
        ;
        assert(c.capacity * c.attr_stride <= d.capacity * d.attr_stride) by (nonlinear_arith)
            requires
                c.capacity <= d.capacity,
                c.attr_stride == d.attr_stride,
        ;
    }
}

/// A change that spares the network's memory region and its triple buffer
/// leaves the network as it was.
pub proof fn lemma_network_untouched(net: NetworkWriter, m1: Seq<i32>, m2: Seq<i32>)
    requires
        net.valid(m1),
        net.inv(m1),
        m2.len() == m1.len(),
        forall|x: int| net.ns().start() <= x < net.synapse_store().end() ==> #[trigger] m2[x] == m1[x],
        forall|x: int| net.ns().buffer().start() <= x < net.ns().buffer().end() ==> #[trigger] m2[x] == m1[x],
    ensures
        net.valid(m2),
        net.inv(m2),
        net.nodes(m2) == net.nodes(m1),
        net.syns(m2) == net.syns(m1),
        net.nodes_same(m1, m2),
        net.syns_same(m1, m2),
        net.linked(m1) ==> net.linked(m2),
{
    let ns = net.ns();
    let ss = net.synapse_store();
    let b = ns.buffer();
    ns.lemma_wf();
    ss.lemma_wf();
    b.lemma_layout();
    ns.slots().lemma_frame(m1, m2);
    ss.slots().lemma_frame(m1, m2);
    assert(m2[b.start()] == m1[b.start()]);
    assert(m2[b.start() + 1] == m1[b.start() + 1]);
    assert(m2[b.start() + 2] == m1[b.start() + 2]);
    assert(m2[b.start() + 3] == m1[b.start() + 3]);
    lemma_store_views_untouched(ns, m1, m2);
    lemma_store_views_untouched(ss, m1, m2);
}

/// A change that spares a store's memory region and its triple buffer
/// leaves its views as they were.
pub proof fn lemma_store_views_untouched(st: crate::primitives::entry_store_writer::EntryStoreWriter, m1: Seq<i32>, m2: Seq<i32>)
    requires
        st.valid(m1),
        tb_inv(m1, st.buffer().start()),
        m2.len() == m1.len(),
        forall|x: int| st.start() <= x < st.end() ==> #[trigger] m2[x] == m1[x],
        forall|x: int| st.buffer().start() <= x < st.buffer().end() ==> #[trigger] m2[x] == m1[x],
    ensures
        st.core_view(m2) == st.core_view(m1),
        st.meta_view(m2) == st.meta_view(m1),
        st.attr_view(m2) == st.attr_view(m1),
        st.buffer().writer_base(m2) == st.buffer().writer_base(m1),
{
    let b = st.buffer();
    st.lemma_wf();
    b.lemma_layout();
    assert(m2[b.start() + 1] == m1[b.start() + 1]);
    assert forall|i: int| 0 <= i < st.cap() implies #[trigger] st.core_view(m2)[i] == st.core_view(m1)[i] by {
        let a2 = cells(m2, st.block_base(m2, i), st.cfg().core_stride as int);
        let a1 = cells(m1, st.block_base(m1, i), st.cfg().core_stride as int);
        assert forall|t: int| 0 <= t < st.cfg().core_stride implies #[trigger] a2[t] == a1[t] by {
            st.lemma_block_cell_range(m1, i, t);
        }
        assert(a2 =~= a1);
    }
    assert forall|i: int| 0 <= i < st.cap() implies #[trigger] st.meta_view(m2)[i] == st.meta_view(m1)[i] by {
        let a2 = cells(m2, st.block_base(m2, i) + st.cfg().core_stride, st.cfg().meta_stride as int);
        let a1 = cells(m1, st.block_base(m1, i) + st.cfg().core_stride, st.cfg().meta_stride as int);
        assert forall|t: int| 0 <= t < st.cfg().meta_stride implies #[trigger] a2[t] == a1[t] by {
            st.lemma_block_cell_range(m1, i, st.cfg().core_stride + t);
        }
        assert(a2 =~= a1);
    }
    assert forall|i: int| 0 <= i < st.cap() implies #[trigger] st.attr_view(m2)[i] == st.attr_view(m1)[i] by {
        let a2 = cells(m2, st.attr_base(i), st.cfg().attr_stride as int);
        let a1 = cells(m1, st.attr_base(i), st.cfg().attr_stride as int);
        assert forall|t: int| 0 <= t < st.cfg().attr_stride implies #[trigger] a2[t] == a1[t] by {
            st.lemma_attr_cell_range(i, t);
        }
        assert(a2 =~= a1);
    }
    assert(st.core_view(m2) =~= st.core_view(m1));
    assert(st.meta_view(m2) =~= st.meta_view(m1));
    assert(st.attr_view(m2) =~= st.attr_view(m1));
}

/// What the tables' creation leaves of the stores and the buffers.
proof fn lemma_stores_frame<const TB: usize, const ST: usize>(
    reg: TripleBufferWriterRegistry<TB>,
    st: EntryStoreWriterRegistry<TB, ST>,
    m2: Seq<i32>,
    m3: Seq<i32>,
    m4: Seq<i32>,
    bind: bool,
)
    requires
        reg.wf(),
        reg.control_ok(m2),
        st.wf(),
        st.placed_on(reg),
        st.start() == reg.end(),
        st.end() <= m2.len(),
        m3.len() == m2.len(),
        m4.len() == m2.len(),
        unchanged_outside(m2, m3, st.start(), st.end()),
        !bind ==> forall|i: int| 0 <= i < ST ==> (#[trigger] st.store_seq()[i]).empty_slots(m3),
        unchanged_outside(m3, m4, reg.start(), reg.end()),
        forall|j: int| 0 <= j < m3.len() ==> #[trigger] m4[j] == m3[j] || m4[j] == 0,
        forall|x: TripleBufferId|
            reg.id_ok(x) ==> (#[trigger] tb_inv(m4, reg.tb_for(x).start()) <==> tb_inv(m3, reg.tb_for(x).start())),
    ensures
        forall|i: int| 0 <= i < ST ==> (#[trigger] st.store_seq()[i]).valid(m4),
        unchanged_outside(m2, m4, reg.start(), st.end()),
        all_tb_inv(reg, m2) ==> all_tb_inv(reg, m4),
        default_data_zero(reg, m2) ==> default_data_zero(reg, m4),
        !bind ==> forall|i: int| 0 <= i < ST ==> (#[trigger] st.store_seq()[i]).slots().inv(m4),
        !bind ==> forall|i: int| 0 <= i < ST ==> (#[trigger] st.store_seq()[i]).slots().fresh(m4),
{
    reg.lemma_inside(TripleBufferId(DEFAULT_TB_RAW));
    reg.default_buffer().lemma_layout();
    lemma_es_nonneg(st.def_seq(), TripleBufferId(DEFAULT_TB_RAW));
    assert(reg.start() <= reg.end());
    assert(st.start() <= st.end());
    assert forall|i: int| 0 <= i < m2.len() && !(reg.start() <= i < st.end()) implies #[trigger] m4[i] == m2[i] by {
        assert(m3[i] == m2[i]);
        assert(m4[i] == m3[i]);
    }
    reg.lemma_outside(m2, m3, st.start(), st.end());
    assert forall|i: int| 0 <= i < ST implies (#[trigger] st.store_seq()[i]).valid(m4) by {
        st.lemma_stores_apart(i, i);
        assert(reg.id_ok(st.def_seq()[i].tb_id));
        reg.lemma_inside(st.def_seq()[i].tb_id);
    }
    if !bind {
        assert forall|i: int| 0 <= i < ST implies (#[trigger] st.store_seq()[i]).slots().inv(m4) && st.store_seq()[i].slots().fresh(
            m4,
        ) by {
            let si = st.store_seq()[i];
            st.lemma_stores_apart(i, i);
            si.lemma_wf();
            si.slots().lemma_wf();
            assert(si.empty_slots(m3));
            assert forall|x: int| si.slots().start() <= x < si.slots().end() implies #[trigger] m4[x] == m3[x] by {
            }
            si.slots().lemma_frame(m3, m4);
        }
    }
    if all_tb_inv(reg, m2) {
        assert forall|id: TripleBufferId| reg.id_ok(id) implies #[trigger] tb_inv(m4, reg.tb_for(id).start()) by {
            assert(tb_inv(m2, reg.tb_for(id).start()));
            assert(tb_inv(m3, reg.tb_for(id).start()));
        }
    }
    if default_data_zero(reg, m2) {
        reg.lemma_inside(TripleBufferId(DEFAULT_TB_RAW));
        assert forall|j: int| reg.start() + 4 <= j < reg.start() + tb_size(reg.default_buffer().cap()) implies #[trigger] m4[j] == 0 by {
            assert(m3[j] == m2[j]);
            assert(m4[j] == m3[j] || m4[j] == 0);
        }
    }
}

/// Every store's blocks fit the buffer its definition names, when the
/// stores start at `net_tb` on the default buffer and at 0 on the others.
pub proof fn lemma_store_fits<const TB: usize, const ST: usize, const LU: usize>(
    config: KernelConfig<TB, ST, LU>,
    reg: TripleBufferWriterRegistry<TB>,
    net_tb: int,
    extra: Seq<usize>,
    i: int,
)
    requires
        config.layout_ok(),
        reg.wf(),
        reg.def_seq() == config.tb_defs@,
        reg.default_buffer().cap() == config.default_tb_capacity(),
        net_tb == network_tb_size(config.network_config),
        extra.len() == TB,
        forall|k: int| 0 <= k < TB ==> #[trigger] extra[k] == 0,
        0 <= i < ST,
    ensures
        reg.id_ok(config.store_defs@[i].tb_id),
        es_tb_start(reg, config.store_defs@, net_tb, extra, i) + config.store_defs@[i].config.tb_size() <= reg.tb_for(
            config.store_defs@[i].tb_id,
        ).cap(),
{
    let sd = config.store_defs@;
    let x = sd[i].tb_id;
    let dflt = TripleBufferId(DEFAULT_TB_RAW);
    assert(config.tb_id_ok(sd[i].tb_id));
    lemma_es_step(sd, i, x);
    lemma_es_prefix(sd, i + 1, ST as int, x);
    assert(sd.take(ST as int) =~= sd);
    lemma_lut_load_nonneg(config.lut_defs@, x);
    if x.0 != DEFAULT_TB_RAW {
        let k = reg.index()[x.0 as int]->0 as int;
        assert(reg.def_seq()[k].id.0 == x.0);
        assert(reg.def_seq()[k].id == x);
        assert(es_load(sd, config.tb_defs@[k].id) + lut_load(config.lut_defs@, config.tb_defs@[k].id)
            <= config.tb_defs@[k].buffer_capacity);
    }
}

/// Every table fits the buffer its definition names, when the tables follow
/// the stores on every buffer.
pub proof fn lemma_lut_fits<const TB: usize, const ST: usize, const LU: usize>(
    config: KernelConfig<TB, ST, LU>,
    reg: TripleBufferWriterRegistry<TB>,
    net_tb: int,
    extra: Seq<usize>,
    i: int,
)
    requires
        config.layout_ok(),
        reg.wf(),
        reg.def_seq() == config.tb_defs@,
        reg.default_buffer().cap() == config.default_tb_capacity(),
        net_tb == network_tb_size(config.network_config),
        extra.len() == TB,
        forall|k: int| 0 <= k < TB ==> #[trigger] extra[k] == es_load(config.store_defs@, reg.def_seq()[k].id),
        0 <= i < LU,
    ensures
        reg.id_ok(config.lut_defs@[i].tb_id),
        lut_start(reg, config.lut_defs@, net_tb + es_load(config.store_defs@, TripleBufferId(DEFAULT_TB_RAW)), extra, i)
            + config.lut_defs@[i].size <= reg.tb_for(config.lut_defs@[i].tb_id).cap(),
{
    let ld = config.lut_defs@;
    let x = ld[i].tb_id;
    assert(config.tb_id_ok(ld[i].tb_id));
    lemma_lut_load_step(ld, i, x);
    lemma_lut_load_prefix(ld, i + 1, x);
    lemma_es_nonneg(config.store_defs@, x);
    if x.0 != DEFAULT_TB_RAW {
        let k = reg.index()[x.0 as int]->0 as int;
        assert(reg.def_seq()[k].id.0 == x.0);
        assert(reg.def_seq()[k].id == x);
        assert(es_load(config.store_defs@, config.tb_defs@[k].id) + lut_load(ld, config.tb_defs@[k].id)
            <= config.tb_defs@[k].buffer_capacity);
    }
}

/// The sizes a valid configuration is made of are non-negative and fit.
pub proof fn lemma_config_sizes<const TB: usize, const ST: usize, const LU: usize>(config: KernelConfig<TB, ST, LU>)
    requires
        config.layout_ok(),
    ensures
        0 <= network_tb_size(config.network_config),
        0 <= network_mem_size(config.network_config),
        0 <= es_mem(config.store_defs@),
        0 <= tbs_size(config.tb_defs@),
        0 <= es_load(config.store_defs@, TripleBufferId(DEFAULT_TB_RAW)),
        0 <= lut_load(config.lut_defs@, TripleBufferId(DEFAULT_TB_RAW)),
        0 <= config.mem_metadata_size,
        0 < tb_size(config.default_tb_capacity()),
        config.epoch_size() <= usize::MAX,
        forall|i: int| 0 <= i < ST ==> (#[trigger] config.store_defs@[i]).config.core_stride + config.store_defs@[i].config.meta_stride <= usize::MAX,
        crate::constants::NODE_STRIDE + config.network_config.node_meta_stride <= usize::MAX,
        crate::constants::SYNAPSE_STRIDE + config.network_config.synapse_meta_stride <= usize::MAX,
{
    let nc = config.network_config;
    let dflt = TripleBufferId(DEFAULT_TB_RAW);
    lemma_es_nonneg(config.store_defs@, dflt);
    lemma_lut_load_nonneg(config.lut_defs@, dflt);
    lemma_tbs_size_nonneg(config.tb_defs@);
    let n = nc.node_config().entry_config();
    let s = nc.synapse_config();
    assert(0 <= n.capacity * (n.core_stride + n.meta_stride)) by (nonlinear_arith);
    assert(0 <= s.capacity * (s.core_stride + s.meta_stride)) by (nonlinear_arith);
    assert(0 <= n.capacity * n.attr_stride) by (nonlinear_arith);
    assert(0 <= s.capacity * s.attr_stride) by (nonlinear_arith);
    assert forall|i: int| 0 <= i < ST implies (#[trigger] config.store_defs@[i]).config.core_stride
        + config.store_defs@[i].config.meta_stride <= usize::MAX by {
    }
}

} // verus!
