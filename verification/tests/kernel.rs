use lib::epoch::Epoch;
use lib::epoch_consumer::EpochConsumer;
use lib::errors::kernel_error::KernelError;
use lib::kernel::{HEADERS_SIZE, Kernel};
use lib::kernel_config::KernelConfig;
use lib::constants::{KERNEL_MAGIC, KERNEL_VERSION};
use lib::primitives::entry_store_config::EntryStoreConfig;
use lib::primitives::entry_store_def::{EntryStoreDef, EntryStoreId};
use lib::primitives::lut_def::{LutDef, LutId};
use lib::primitives::triple_buffer_def::{TripleBufferDef, TripleBufferId, DEFAULT_TB_RAW};
use lib::topology::network::network_config::NetworkConfig;

fn config(node_capacity: u32, synapse_capacity: u32, store_capacity: u32, lut_size: usize) -> KernelConfig<1, 1, 1> {
    KernelConfig {
        mem_metadata_size: 8,
        tb_defs: [TripleBufferDef { id: TripleBufferId(0), buffer_capacity: 256 }],
        store_defs: [EntryStoreDef {
            id: EntryStoreId(0),
            tb_id: TripleBufferId(DEFAULT_TB_RAW),
            config: EntryStoreConfig { core_stride: 2, meta_stride: 1, attr_stride: 1, capacity: store_capacity },
        }],
        lut_defs: [LutDef { id: LutId(0), tb_id: TripleBufferId(0), size: lut_size }],
        network_config: NetworkConfig {
            node_capacity,
            node_meta_stride: 2,
            node_attr_stride: 2,
            synapse_capacity,
            synapse_meta_stride: 1,
            synapse_attr_stride: 1,
        },
    }
}

#[test]
fn new_kernel_is_empty_and_stamped() {
    let cfg = config(4, 8, 4, 16);
    let kernel = Kernel::new(cfg);
    assert_eq!(kernel.node_capacity(), 4);
    assert_eq!(kernel.synapse_capacity(), 8);
    assert_eq!(kernel.node_count(), 0);
    assert_eq!(kernel.synapse_count(), 0);
    assert_eq!(kernel.mem_metadata_capacity(), 8);
    let mem = kernel.get_mem();
    assert_eq!(mem[0], KERNEL_MAGIC);
    assert_eq!(mem[1], KERNEL_VERSION);
    assert_eq!(mem.len(), Kernel::<1, 1, 1>::calculate_size_on_mem(&cfg));
    assert_eq!(kernel.get_control_plane().get_writer_generation(), 0);
    assert_eq!(kernel.get_control_plane().get_reader_ack_generation(), 0);
}

#[test]
fn insert_nodes_until_capacity_exhausted() {
    let mut kernel = Kernel::new(config(2, 4, 4, 16));
    let a = kernel.insert_node(3).unwrap();
    let b = kernel.insert_node_after(a, 4).unwrap();
    assert_eq!(kernel.node_count(), 2);
    assert_eq!(kernel.insert_node(1), Err(KernelError::CapacityExhausted));
    let mem = kernel.get_mem();
    let na = kernel.get_node(a);
    assert_eq!(na.get_kind(&mem), 3);
    assert_eq!(na.get_next_ptr(&mem).map(|s| s.get()), Some(b.get()));
    let nb = kernel.get_node(b);
    assert_eq!(nb.get_kind(&mem), 4);
    assert_eq!(nb.get_prev_ptr(&mem).map(|s| s.get()), Some(a.get()));
}

#[test]
fn insert_before_links_chain() {
    let mut kernel = Kernel::new(config(4, 4, 4, 16));
    let b = kernel.insert_node(1).unwrap();
    let a = kernel.insert_node_before(b, 2).unwrap();
    let mem = kernel.get_mem();
    assert_eq!(kernel.get_node(a).get_next_ptr(&mem).map(|s| s.get()), Some(b.get()));
    assert_eq!(kernel.get_node(b).get_prev_ptr(&mem).map(|s| s.get()), Some(a.get()));
    assert!(kernel.get_node(a).get_prev_ptr(&mem).is_none());
}

#[test]
fn connect_and_disconnect_synapse() {
    let mut kernel = Kernel::new(config(4, 4, 4, 16));
    let a = kernel.insert_node(1).unwrap();
    let b = kernel.insert_node(2).unwrap();
    let s = kernel.connect(a, b, 7).unwrap();
    assert_eq!(kernel.synapse_count(), 1);
    let mem = kernel.get_mem();
    let view = kernel.get_synapse(s);
    assert_eq!(view.get_kind(&mem), 7);
    assert_eq!(view.get_source_ptr(&mem).get(), a.get());
    assert_eq!(view.get_target_ptr(&mem).get(), b.get());
    assert_eq!(kernel.get_node(a).get_outgoing_synapse_head(&mem).map(|x| x.get()), Some(s.get()));
    assert_eq!(kernel.get_node(b).get_incoming_synapse_head(&mem).map(|x| x.get()), Some(s.get()));
    assert_eq!(kernel.disconnect_synapse(s), Ok(()));
    let mem = kernel.get_mem();
    assert!(kernel.get_node(a).get_outgoing_synapse_head(&mem).is_none());
    assert!(kernel.get_node(b).get_incoming_synapse_head(&mem).is_none());
    // Retired, not yet reclaimed.
    assert_eq!(kernel.synapse_count(), 1);
}

#[test]
fn synapses_exhaust_capacity() {
    let mut kernel = Kernel::new(config(4, 2, 4, 16));
    let a = kernel.insert_node(1).unwrap();
    let b = kernel.insert_node(1).unwrap();
    kernel.connect(a, b, 1).unwrap();
    kernel.connect(b, a, 1).unwrap();
    assert_eq!(kernel.connect(a, b, 1), Err(KernelError::CapacityExhausted));
}

#[test]
fn disconnect_removes_all_synapses_between_two_nodes() {
    let mut kernel = Kernel::new(config(4, 8, 4, 16));
    let a = kernel.insert_node(1).unwrap();
    let b = kernel.insert_node(1).unwrap();
    let c = kernel.insert_node(1).unwrap();
    kernel.connect(a, b, 1).unwrap();
    let keep = kernel.connect(a, c, 1).unwrap();
    kernel.connect(a, b, 2).unwrap();
    assert_eq!(kernel.disconnect(a, b), Ok(()));
    let mem = kernel.get_mem();
    assert_eq!(kernel.get_node(a).get_outgoing_synapse_head(&mem).map(|x| x.get()), Some(keep.get()));
    assert!(kernel.get_node(b).get_incoming_synapse_head(&mem).is_none());
}

#[test]
fn removed_node_slot_is_reclaimed_only_after_acknowledgement() {
    let mut kernel = Kernel::new(config(2, 4, 4, 16));
    let a = kernel.insert_node(1).unwrap();
    let _b = kernel.insert_node(1).unwrap();
    assert_eq!(kernel.remove_node(a), Ok(()));
    // Not acknowledged yet: still taken.
    kernel.publish();
    assert_eq!(kernel.node_count(), 2);
    assert_eq!(kernel.insert_node(1), Err(KernelError::CapacityExhausted));
    // The consumer acquires its mirror, acknowledging what was published.
    let mut consumer = EpochConsumer::new();
    let _mirror = consumer.acquire_mirror(&mut kernel);
    kernel.publish();
    assert_eq!(kernel.node_count(), 1);
    let again = kernel.insert_node(5).unwrap();
    assert_eq!(again.get(), a.get());
}

#[test]
fn remove_chain_retires_every_node_of_the_chain() {
    let mut kernel = Kernel::new(config(4, 4, 4, 16));
    let a = kernel.insert_node(1).unwrap();
    let b = kernel.insert_node_after(a, 1).unwrap();
    let _c = kernel.insert_node_after(b, 1).unwrap();
    let d = kernel.insert_node(1).unwrap();
    kernel.connect(a, d, 1).unwrap();
    assert_eq!(kernel.remove_chain(a), Ok(()));
    let mem = kernel.get_mem();
    assert!(kernel.get_node(d).get_incoming_synapse_head(&mem).is_none());
}

#[test]
fn metadata_is_written_and_read_back() {
    let mut kernel = Kernel::new(config(4, 4, 4, 16));
    kernel.mem_write_meta(3, 99);
    assert_eq!(kernel.mem_read_meta(3), 99);
    assert_eq!(kernel.get_mem()[HEADERS_SIZE + 3], 99);
}

#[test]
fn consumer_sees_published_nodes() {
    let mut kernel = Kernel::new(config(4, 4, 4, 16));
    let a = kernel.insert_node(9).unwrap();
    kernel.publish();
    let mut consumer = EpochConsumer::new();
    let mirror = consumer.acquire_mirror(&mut kernel);
    let reader = mirror.get_network();
    assert_eq!(reader.node_capacity(), 4);
    assert_eq!(kernel.get_control_plane().get_reader_ack_generation(), 0);
    let mem = kernel.get_mem();
    let _ = (a, mem);
}

#[test]
fn serialize_then_load_keeps_the_graph() {
    let mut kernel = Kernel::new(config(4, 4, 4, 16));
    let a = kernel.insert_node(6).unwrap();
    let b = kernel.insert_node(2).unwrap();
    let s = kernel.connect(a, b, 3).unwrap();
    kernel.mem_write_meta(0, 11);
    let snapshot = kernel.serialize();
    assert_eq!(snapshot.mem, kernel.get_mem());
    let loaded = Kernel::load_serialized(snapshot);
    assert_eq!(loaded.mem_read_meta(0), 11);
    assert_eq!(loaded.node_capacity(), 4);
    let mem = loaded.get_mem();
    assert_eq!(mem[0], KERNEL_MAGIC);
    let _ = (a, b, s);
}

#[test]
fn grow_rejects_schema_changes_and_shrinking() {
    let mut kernel = Kernel::new(config(4, 4, 4, 16));
    let mut strides = config(8, 8, 4, 16);
    strides.network_config.node_meta_stride = 3;
    assert_eq!(kernel.grow(strides), Err(KernelError::SchemaMismatch));
    assert_eq!(kernel.grow(config(2, 4, 4, 16)), Err(KernelError::InsufficientCapacity));
    assert_eq!(kernel.grow(config(4, 4, 2, 16)), Err(KernelError::InsufficientCapacity));
    assert_eq!(kernel.grow(config(4, 4, 4, 8)), Err(KernelError::InsufficientCapacity));
    let mut moved = config(4, 4, 4, 16);
    moved.lut_defs[0].tb_id = TripleBufferId(DEFAULT_TB_RAW);
    assert_eq!(kernel.grow(moved), Err(KernelError::SchemaMismatch));
    let mut renamed = config(4, 4, 4, 16);
    renamed.store_defs[0].config.attr_stride = 2;
    assert_eq!(kernel.grow(renamed), Err(KernelError::SchemaMismatch));
    let mut smaller_tb = config(4, 4, 4, 16);
    smaller_tb.tb_defs[0].buffer_capacity = 128;
    assert_eq!(kernel.grow(smaller_tb), Err(KernelError::InsufficientCapacity));
    assert_eq!(kernel.get_control_plane().get_writer_generation(), 0);
}

#[test]
fn grow_migrates_the_graph_and_swaps_the_mirror() {
    let mut kernel = Kernel::new(config(4, 4, 4, 16));
    let a = kernel.insert_node(6).unwrap();
    let b = kernel.insert_node(2).unwrap();
    kernel.connect(a, b, 3).unwrap();
    kernel.mem_write_meta(1, 5);
    assert_eq!(kernel.grow(config(8, 8, 8, 32)), Ok(()));
    assert_eq!(kernel.node_capacity(), 8);
    assert_eq!(kernel.synapse_capacity(), 8);
    assert_eq!(kernel.get_control_plane().get_writer_generation(), 1);
    assert_eq!(kernel.mem_read_meta(1), 5);
    let mem = kernel.get_mem();
    assert_eq!(kernel.get_node(a).get_kind(&mem), 6);
    assert_eq!(kernel.get_node(b).get_kind(&mem), 2);
    assert_eq!(kernel.node_count(), 2);
    assert_eq!(kernel.synapse_count(), 1);
}

#[test]
fn consumer_acknowledges_the_generation_swapped_in_by_grow() {
    let mut kernel = Kernel::new(config(4, 4, 4, 16));
    assert_eq!(kernel.grow(config(8, 8, 8, 32)), Ok(()));
    assert_eq!(kernel.get_control_plane().get_writer_generation(), 1);
    assert_eq!(kernel.get_control_plane().get_reader_ack_generation(), 0);
    let mut consumer = EpochConsumer::new();
    let mirror = consumer.acquire_mirror(&mut kernel);
    assert_eq!(mirror.get_network().node_capacity(), 8);
    assert_eq!(kernel.get_control_plane().get_reader_ack_generation(), 1);
}

#[test]
fn remove_node_retires_its_synapses_and_unhooks_the_neighbours() {
    let mut kernel = Kernel::new(config(4, 8, 4, 16));
    let a = kernel.insert_node(1).unwrap();
    let b = kernel.insert_node(1).unwrap();
    let c = kernel.insert_node(1).unwrap();
    kernel.connect(a, b, 1).unwrap();
    kernel.connect(c, a, 1).unwrap();
    let bc = kernel.connect(b, c, 1).unwrap();
    kernel.connect(a, c, 1).unwrap();
    assert_eq!(kernel.remove_node(a), Ok(()));
    let mem = kernel.get_mem();
    assert!(kernel.get_node(a).get_outgoing_synapse_head(&mem).is_none());
    assert!(kernel.get_node(a).get_incoming_synapse_head(&mem).is_none());
    assert!(kernel.get_node(b).get_incoming_synapse_head(&mem).is_none());
    assert_eq!(kernel.get_node(b).get_outgoing_synapse_head(&mem).map(|x| x.get()), Some(bc.get()));
    assert!(kernel.get_node(c).get_outgoing_synapse_head(&mem).is_none());
    assert_eq!(kernel.get_node(c).get_incoming_synapse_head(&mem).map(|x| x.get()), Some(bc.get()));
    assert_eq!(kernel.get_node(c).get_incoming_synapse_tail(&mem).map(|x| x.get()), Some(bc.get()));
    // Retired, not yet reclaimed.
    assert_eq!(kernel.synapse_count(), 4);
    // A retired node cannot be removed twice.
    assert!(kernel.remove_node(a).is_err());
}

#[test]
fn remove_chain_with_synapses_succeeds_for_a_live_head() {
    let mut kernel = Kernel::new(config(4, 8, 4, 16));
    let a = kernel.insert_node(1).unwrap();
    let b = kernel.insert_node_after(a, 1).unwrap();
    let c = kernel.insert_node_before(a, 1).unwrap();
    let d = kernel.insert_node(1).unwrap();
    kernel.connect(a, b, 1).unwrap();
    kernel.connect(b, d, 1).unwrap();
    kernel.connect(d, a, 1).unwrap();
    kernel.connect(c, a, 1).unwrap();
    assert_eq!(kernel.remove_chain(a), Ok(()));
    let mem = kernel.get_mem();
    assert!(kernel.get_node(d).get_incoming_synapse_head(&mem).is_none());
    assert!(kernel.get_node(d).get_outgoing_synapse_head(&mem).is_none());
    assert!(kernel.get_node(c).get_outgoing_synapse_head(&mem).is_none());
    assert!(kernel.get_node(c).get_next_ptr(&mem).is_none());
    assert!(kernel.remove_node(b).is_err());
    assert_eq!(kernel.remove_node(c), Ok(()));
}

#[test]
fn disconnect_without_matching_synapses_is_a_no_op() {
    let mut kernel = Kernel::new(config(4, 8, 4, 16));
    let a = kernel.insert_node(1).unwrap();
    let b = kernel.insert_node(1).unwrap();
    let c = kernel.insert_node(1).unwrap();
    let ab = kernel.connect(a, b, 1).unwrap();
    assert_eq!(kernel.disconnect(a, c), Ok(()));
    let mem = kernel.get_mem();
    assert_eq!(kernel.get_node(a).get_outgoing_synapse_head(&mem).map(|x| x.get()), Some(ab.get()));
    assert_eq!(kernel.synapse_count(), 1);
}

#[test]
fn grow_keeps_pending_retirements_after_the_ring_wrapped() {
    let mut kernel = Kernel::new(config(4, 4, 4, 16));
    let mut consumer = EpochConsumer::new();
    for _ in 0..6 {
        let n = kernel.insert_node(1).unwrap();
        assert_eq!(kernel.remove_node(n), Ok(()));
        kernel.publish();
        let _m = consumer.acquire_mirror(&mut kernel);
        kernel.publish();
        assert_eq!(kernel.node_count(), 0);
    }
    let p = kernel.insert_node(1).unwrap();
    let q = kernel.insert_node(1).unwrap();
    let r = kernel.insert_node(1).unwrap();
    assert_eq!(kernel.remove_node(p), Ok(()));
    assert_eq!(kernel.remove_node(q), Ok(()));
    assert_eq!(kernel.node_count(), 3);
    assert_eq!(kernel.grow(config(8, 8, 8, 32)), Ok(()));
    assert_eq!(kernel.node_count(), 3);
    assert!(kernel.remove_node(p).is_err());
    kernel.publish();
    let _m = consumer.acquire_mirror(&mut kernel);
    kernel.publish();
    assert_eq!(kernel.node_count(), 1);
    let mem = kernel.get_mem();
    assert_eq!(kernel.get_node(r).get_kind(&mem), 1);
}

#[test]
fn load_serialized_restores_nodes_synapses_and_allocators() {
    let mut kernel = Kernel::new(config(4, 4, 4, 16));
    let a = kernel.insert_node(6).unwrap();
    let b = kernel.insert_node_after(a, 2).unwrap();
    let s = kernel.connect(a, b, 3).unwrap();
    let snapshot = kernel.serialize();
    let mut loaded = Kernel::load_serialized(snapshot);
    assert_eq!(loaded.get_mem(), kernel.get_mem());
    assert_eq!(loaded.node_count(), 2);
    assert_eq!(loaded.synapse_count(), 1);
    let mem = loaded.get_mem();
    assert_eq!(loaded.get_node(a).get_kind(&mem), 6);
    assert_eq!(loaded.get_node(a).get_next_ptr(&mem).map(|x| x.get()), Some(b.get()));
    assert_eq!(loaded.get_node(a).get_outgoing_synapse_head(&mem).map(|x| x.get()), Some(s.get()));
    assert_eq!(loaded.get_synapse(s).get_target_ptr(&mem).get(), b.get());
    // The restored allocators hand out the next free slots.
    let c = loaded.insert_node(1).unwrap();
    assert!(c.get() != a.get() && c.get() != b.get());
    assert_eq!(loaded.remove_node(a), Ok(()));
}

#[test]
fn new_from_mem_accepts_a_used_plane_with_clear_headers() {
    let cfg = config(4, 4, 4, 16);
    let size = Kernel::<1, 1, 1>::calculate_size_on_mem(&cfg);
    let mut mem = vec![7i32; size + 3];
    mem[0] = 0;
    mem[1] = 0;
    let mut kernel = Kernel::new_from_mem(mem, cfg);
    let plane = kernel.get_mem();
    assert_eq!(plane[0], KERNEL_MAGIC);
    assert_eq!(plane[1], KERNEL_VERSION);
    assert_eq!(plane.len(), size + 3);
    assert_eq!(plane[size], 7);
    // The user buffer keeps its data cells past its table (240 in each of
    // its three buffers); the rest of the epoch is laid out afresh.
    let kept = plane[HEADERS_SIZE..size].iter().filter(|&&v| v == 7).count();
    assert!(kept >= 3 * (256 - 16));
    assert_eq!(kernel.get_lut(LutId(0)).read(&plane, 0), 0);
    assert_eq!(kernel.node_count(), 0);
    assert_eq!(kernel.synapse_count(), 0);
    assert_eq!(kernel.node_capacity(), 4);
    let a = kernel.insert_node(2).unwrap();
    let b = kernel.insert_node(3).unwrap();
    let s = kernel.connect(a, b, 1).unwrap();
    let plane = kernel.get_mem();
    assert_eq!(kernel.get_node(a).get_outgoing_synapse_head(&plane).map(|x| x.get()), Some(s.get()));
    assert_eq!(kernel.remove_node(a), Ok(()));
}

#[test]
fn epoch_copy_carries_tables_stores_and_attributes() {
    let old_cfg = config(4, 4, 4, 16);
    let new_cfg = config(8, 8, 8, 32);
    let mut old_mem = vec![0i32; HEADERS_SIZE + Epoch::<1, 1, 1>::calculate_size_on_mem(&old_cfg)];
    let old = Epoch::<1, 1, 1>::create(&mut old_mem, &old_cfg, HEADERS_SIZE, false);
    let lut = old.lut_registry.get(LutId(0));
    lut.write(&mut old_mem, 3, 42);
    lut.write(&mut old_mem, 15, -5);
    let store = old.store_registry.get(EntryStoreId(0));
    let slot = store.insert(&mut old_mem).unwrap();
    let entry = store.get(&old_mem, slot);
    entry.core_write(&mut old_mem, 1, 7);
    entry.meta_write(&mut old_mem, 0, 8);
    entry.attr_write(&mut old_mem, 0, 9);
    let node = old.network.insert_node(&mut old_mem, 6).unwrap();
    old.network.get_node(&old_mem, node).attr_write(&mut old_mem, 1, 11);

    let mut new_mem = vec![0i32; HEADERS_SIZE + Epoch::<1, 1, 1>::calculate_size_on_mem(&new_cfg)];
    let grown = Epoch::<1, 1, 1>::create(&mut new_mem, &new_cfg, HEADERS_SIZE, false);
    let lut2 = grown.lut_registry.get(LutId(0));
    lut2.write(&mut new_mem, 20, 77);
    grown.copy_from(&mut new_mem, &old, &old_mem);

    assert_eq!(lut2.read(&new_mem, 3), 42);
    assert_eq!(lut2.read(&new_mem, 15), -5);
    assert_eq!(lut2.read(&new_mem, 16), 0);
    // Cells past the old table's size keep what the new table held.
    assert_eq!(lut2.read(&new_mem, 20), 77);
    let store2 = grown.store_registry.get(EntryStoreId(0));
    assert!(store2.is_active_slot(&new_mem, slot));
    let e2 = store2.get(&new_mem, slot);
    assert_eq!(e2.core_read(&new_mem, 1), 7);
    assert_eq!(e2.meta_read(&new_mem, 0), 8);
    assert_eq!(e2.attr_read(&new_mem, 0), 9);
    let n2 = grown.network.get_node(&new_mem, node);
    assert_eq!(n2.get_kind(&new_mem), 6);
    assert_eq!(n2.attr_read(&new_mem, 1), 11);
}
