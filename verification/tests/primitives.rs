use lib::errors::free_list_error::FreeListError;
use lib::errors::ring_buffer_error::RingBufferError;
use lib::errors::slot_allocator_error::SlotAllocatorError;
use lib::primitives::bitmap::Bitmap;
use lib::primitives::ring_buffer::RingBuffer;
use lib::primitives::simple_free_list::SimpleFreeList;
use lib::primitives::slot::SlotId;
use lib::primitives::slot_allocator::SlotAllocator;
use lib::primitives::staging_buffer_writer::StagingBufferWriter;
use lib::primitives::triple_buffer_def::{TripleBufferDef, TripleBufferId};
use lib::primitives::triple_buffer_writer::TripleBufferWriter;
use lib::primitives::triple_buffer_writer_registry::TripleBufferWriterRegistry;

fn zeroed(n: usize) -> Vec<i32> {
    vec![0; n]
}

#[test]
fn bitmap_on_off_roundtrip() {
    let mut mem = zeroed(64);
    let bm = Bitmap::new(&mut mem, 3, 64);
    assert!(bm.is_off(&mem, 37));
    bm.on(&mut mem, 37);
    assert!(bm.is_on(&mem, 37));
    assert!(bm.is_off(&mem, 36));
    bm.off(&mut mem, 37);
    assert!(bm.is_off(&mem, 37));
    bm.on(&mut mem, 0);
    bm.on(&mut mem, 63);
    bm.clear(&mut mem);
    assert!(bm.is_off(&mem, 0));
    assert!(bm.is_off(&mem, 63));
    assert_eq!(mem[0], 0);
}

#[test]
fn bitmap_size_is_one_word_per_32_bits() {
    assert_eq!(Bitmap::calculate_size_on_mem(64), 2);
    assert_eq!(Bitmap::calculate_size_on_mem(1), 1);
}

#[test]
fn ring_buffer_is_fifo_and_reports_full() {
    let mut mem = zeroed(64);
    let rb: RingBuffer<2> = RingBuffer::new(&mut mem, 0, 4);
    assert_eq!(rb.pending_count(&mem), 0);
    assert!(rb.read(&mut mem).is_none());
    for i in 0..4 {
        assert_eq!(rb.write(&mut mem, &[i, 10 * i]), Ok(()));
    }
    assert_eq!(rb.write(&mut mem, &[9, 9]), Err(RingBufferError::Full));
    assert_eq!(rb.pending_count(&mem), 4);
    assert_eq!(rb.peek(&mem), Some(vec![0, 0]));
    for i in 0..4 {
        assert_eq!(rb.read(&mut mem), Some(vec![i, 10 * i]));
    }
    assert!(rb.read(&mut mem).is_none());
    // Wrapping around keeps the order.
    for i in 0..3 {
        rb.write(&mut mem, &[i + 100, 0]).unwrap();
    }
    assert_eq!(rb.read(&mut mem), Some(vec![100, 0]));
    rb.write(&mut mem, &[200, 0]).unwrap();
    assert_eq!(rb.read(&mut mem), Some(vec![101, 0]));
    assert_eq!(rb.read(&mut mem), Some(vec![102, 0]));
    assert_eq!(rb.read(&mut mem), Some(vec![200, 0]));
}

#[test]
fn free_list_hands_out_every_slot_once_then_runs_dry() {
    let mut mem = zeroed(64);
    let fl = SimpleFreeList::new(&mut mem, 0, 8);
    let mut seen = Vec::new();
    for _ in 0..8 {
        let s = fl.allocate(&mut mem).unwrap();
        assert!(!seen.contains(&s.get()));
        assert!(s.get() >= 1 && s.get() <= 8);
        seen.push(s.get());
    }
    assert!(fl.allocate(&mut mem).is_none());
    assert_eq!(fl.free_count(&mem), 0);
    assert_eq!(fl.alloc_count(&mem), 8);
}

#[test]
fn free_list_free_then_allocate_returns_same_slot() {
    let mut mem = zeroed(64);
    let fl = SimpleFreeList::new(&mut mem, 2, 8);
    let a = fl.allocate(&mut mem).unwrap();
    let b = fl.allocate(&mut mem).unwrap();
    assert_eq!(a.get(), 1);
    assert_eq!(b.get(), 2);
    assert_eq!(fl.free(&mut mem, a), Ok(()));
    assert!(fl.is_free(&mem, a));
    let c = fl.allocate(&mut mem).unwrap();
    assert_eq!(c.get(), a.get());
    assert!(fl.is_allocated(&mem, c));
}

#[test]
fn free_list_rejects_double_free() {
    let mut mem = zeroed(64);
    let fl = SimpleFreeList::new(&mut mem, 0, 4);
    let a = fl.allocate(&mut mem).unwrap();
    assert_eq!(fl.free(&mut mem, a), Ok(()));
    assert_eq!(fl.free(&mut mem, a), Err(FreeListError::DoubleFree));
}

#[test]
fn slot_ids_are_one_based() {
    assert!(SlotId::new(0).is_none());
    assert_eq!(SlotId::new(5).unwrap().get(), 5);
    assert!(SlotId::from_i32(-1).is_none());
    assert_eq!(SlotId::option_to_i32(None), 0);
    assert_eq!(SlotId::option_to_i32(SlotId::new(7)), 7);
}

#[test]
fn slot_allocator_keeps_retired_slots_until_acknowledged() {
    let mut mem = zeroed(256);
    let sa = SlotAllocator::new(&mut mem, 0, 4);
    let a = sa.allocate(&mut mem).unwrap();
    assert!(sa.is_active(&mem, a));
    assert_eq!(sa.defer_free(&mut mem, a), Ok(()));
    assert!(sa.is_deferred(&mem, a));
    assert_eq!(sa.deferred_count(&mem), 1);
    // The consumer has not acknowledged the generation yet.
    sa.publish(&mut mem);
    assert!(sa.is_deferred(&mem, a));
    assert!(sa.is_allocated(&mem, a));
    // Acknowledge: the reader copies writer generation - 1.
    let reader = sa.to_staging_buffer_reader();
    reader.ack(&mut mem);
    sa.publish(&mut mem);
    assert!(!sa.is_deferred(&mem, a));
    assert!(sa.is_free(&mem, a));
    assert_eq!(sa.deferred_count(&mem), 0);
}

#[test]
fn slot_allocator_rejects_double_retire_and_unallocated() {
    let mut mem = zeroed(256);
    let sa = SlotAllocator::new(&mut mem, 0, 4);
    let never = SlotId::new(3).unwrap();
    assert_eq!(sa.defer_free(&mut mem, never), Err(SlotAllocatorError::InvalidSlot));
    let a = sa.allocate(&mut mem).unwrap();
    assert_eq!(sa.defer_free(&mut mem, a), Ok(()));
    assert_eq!(sa.defer_free(&mut mem, a), Err(SlotAllocatorError::DoubleFree));
}

#[test]
fn triple_buffer_publish_then_swap_delivers_the_writer_data() {
    let mut mem = zeroed(4 + 3 * 8);
    let w = TripleBufferWriter::new(&mut mem, 0, 8);
    let r = w.to_reader();
    w.write(&mut mem, 3, 42);
    w.write(&mut mem, 7, -5);
    assert_eq!(r.read(&mem, 3), 0);
    assert!(!r.swap(&mut mem));
    w.publish(&mut mem);
    // The writer keeps its data in its new buffer.
    assert_eq!(w.read(&mem, 3), 42);
    assert!(r.swap(&mut mem));
    assert_eq!(r.read(&mem, 3), 42);
    assert_eq!(r.read(&mem, 7), -5);
    // A second swap without a publish changes nothing.
    assert!(!r.swap(&mut mem));
    assert_eq!(r.read(&mem, 3), 42);
}

#[test]
fn triple_buffer_reader_keeps_old_data_until_next_publish() {
    let mut mem = zeroed(4 + 3 * 4);
    let w = TripleBufferWriter::new(&mut mem, 0, 4);
    let r = w.to_reader();
    w.write(&mut mem, 0, 1);
    w.publish(&mut mem);
    r.swap(&mut mem);
    w.write(&mut mem, 0, 2);
    assert_eq!(r.read(&mem, 0), 1);
    w.publish(&mut mem);
    assert_eq!(r.read(&mem, 0), 1);
    r.swap(&mut mem);
    assert_eq!(r.read(&mem, 0), 2);
}

#[test]
fn tb_registry_new_keeps_the_data_cells() {
    let defs = [TripleBufferDef { id: TripleBufferId(0), buffer_capacity: 4 }];
    let size = TripleBufferWriterRegistry::<1>::calculate_size_on_mem(2, &defs);
    assert_eq!(size, 10 + 16);
    let mut mem = vec![7i32; size];
    let reg = TripleBufferWriterRegistry::<1>::new(&mut mem, defs, 0, 2);
    let user = reg.get(TripleBufferId(0));
    assert_eq!(user.mem_start_offset(), 10);
    // Control cells are initialised, data cells are left as they were.
    assert_eq!(mem[10], 1);
    assert_eq!(mem[11], 0);
    assert_eq!(mem[12], 0);
    assert_eq!(mem[13], 2);
    for j in 14..26 {
        assert_eq!(mem[j], 7);
    }
    for j in 4..10 {
        assert_eq!(mem[j], 7);
    }
}

#[test]
fn staging_drain_yields_the_acknowledged_run_in_push_order() {
    let size = StagingBufferWriter::calculate_size_on_mem(4);
    let mut mem = vec![0i32; size];
    let sb = StagingBufferWriter::new(&mut mem, 0, 4);
    let reader = sb.to_reader();
    assert_eq!(sb.push(&mut mem, SlotId::new(5).unwrap()), Ok(()));
    sb.publish(&mut mem);
    assert_eq!(sb.push(&mut mem, SlotId::new(6).unwrap()), Ok(()));
    sb.publish(&mut mem);
    assert_eq!(sb.push(&mut mem, SlotId::new(7).unwrap()), Ok(()));
    // The reader acknowledges generation 2: entries stamped 1 and 2 drain.
    reader.ack(&mut mem);
    assert_eq!(sb.reader_ack_generation(&mem), 2);
    let mut it = sb.drain(&mem);
    assert_eq!(it.next(&mut mem).map(|s| s.get()), Some(5));
    assert_eq!(it.next(&mut mem).map(|s| s.get()), Some(6));
    assert!(it.next(&mut mem).is_none());
    assert!(it.next(&mut mem).is_none());
    assert_eq!(sb.len(&mem), 1);
}
