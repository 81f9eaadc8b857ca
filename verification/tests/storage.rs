use ecs_jobs::storage::{ChunkPtr, ComponentStorage, Storage};

#[test]
fn alloc_chunk_hands_out_consecutive_chunks() {
    let mut storage: ComponentStorage<u32> = ComponentStorage::new();
    let first = storage.alloc_chunk();
    let second = storage.alloc_chunk();
    assert_eq!(first.index, 0);
    assert_eq!(second.index, 1);
}

#[test]
fn slots_hold_what_was_stored() {
    let mut storage: ComponentStorage<u32> = ComponentStorage::new();
    storage.resize(2);
    assert_eq!(storage.slot(0, 3), None);
    storage.set_slot(0, 3, 77);
    storage.set_slot(1, 0, 88);
    assert_eq!(storage.slot(0, 3), Some(77));
    assert_eq!(storage.slot(1, 0), Some(88));
    assert_eq!(storage.slot(1, 1), None);
}

#[test]
fn fill_slots_copies_a_stream_window() {
    let mut storage: ComponentStorage<u32> = ComponentStorage::new();
    storage.resize(1);
    let stream = vec![10, 20, 30, 40, 50];
    storage.fill_slots(0, 4, &stream, 1, 3);
    assert_eq!(storage.slot(0, 4), Some(20));
    assert_eq!(storage.slot(0, 5), Some(30));
    assert_eq!(storage.slot(0, 6), Some(40));
    assert_eq!(storage.slot(0, 3), None);
    assert_eq!(storage.slot(0, 7), None);
}

#[test]
fn shift_moves_a_run_backward() {
    let mut storage: ComponentStorage<u32> = ComponentStorage::new();
    storage.resize(1);
    for (slot, value) in [(2, 2u32), (3, 3), (4, 4)] {
        storage.set_slot(0, slot, value);
    }
    // Move slots 3..5 down by two, as compaction does.
    storage.shift(ChunkPtr { index: 0 }, 3..5, 2);
    assert_eq!(storage.slot(0, 1), Some(3));
    assert_eq!(storage.slot(0, 2), Some(4));
    assert_eq!(storage.slot(0, 3), Some(3));
    assert_eq!(storage.slot(0, 4), Some(4));
}
