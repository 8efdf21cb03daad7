use versioned_store::sparce_buffer::HandleError;
use versioned_store::{handle_t, SparceBuffer};

#[test]
fn size_tracks_allocations_and_frees() {
    let mut buf: SparceBuffer<u64> = SparceBuffer::new();
    assert_eq!(buf.Size(), 0);
    let h1 = buf.Allocate(10);
    let h2 = buf.Allocate(20);
    let h3 = buf.Allocate(30);
    assert_eq!(buf.Size(), 3);
    assert_eq!(buf.Free(h2), Ok(()));
    assert_eq!(buf.Size(), 2);
    assert_eq!(buf.Free(h1), Ok(()));
    assert_eq!(buf.Free(h3), Ok(()));
    assert_eq!(buf.Size(), 0);
}

#[test]
fn iterate_yields_exactly_the_live_values() {
    let mut buf: SparceBuffer<u64> = SparceBuffer::new();
    let h1 = buf.Allocate(10);
    let _h2 = buf.Allocate(20);
    let h3 = buf.Allocate(30);
    let _h4 = buf.Allocate(40);
    buf.Free(h1).unwrap();
    buf.Free(h3).unwrap();
    let mut it = buf.Iter();
    let mut seen: Vec<u64> = Vec::new();
    while let Some(v) = it.next(&buf) {
        seen.push(*v);
    }
    assert_eq!(seen.len(), buf.Size());
    assert_eq!(seen, vec![20, 40]);
}

#[test]
fn iterate_on_empty_buffer_yields_nothing() {
    let buf: SparceBuffer<u64> = SparceBuffer::new();
    let mut it = buf.Iter();
    assert!(it.next(&buf).is_none());
}

#[test]
fn allocation_prefers_smallest_instance() {
    let mut buf: SparceBuffer<u64> = SparceBuffer::new();
    let h1 = buf.Allocate(1);
    let h2 = buf.Allocate(2);
    assert_eq!(h1.Instance(), 0);
    assert_eq!(h2.Instance(), 1);
    buf.Free(h1).unwrap();
    let h3 = buf.Allocate(3);
    // the freed smallest slot is handed out again
    assert_eq!(h3.Instance(), 0);
}

#[test]
fn get_reads_and_set_overwrites() {
    let mut buf: SparceBuffer<u64> = SparceBuffer::new();
    let h = buf.Allocate(5);
    assert_eq!(buf.get(h), Ok(&5));
    assert_eq!(buf.set(h, 6), Ok(()));
    assert_eq!(buf.get(h), Ok(&6));
}

#[test]
fn stale_handle_is_detected_after_reuse() {
    let mut buf: SparceBuffer<u64> = SparceBuffer::new();
    let h1 = buf.Allocate(1);
    buf.Free(h1).unwrap();
    let h2 = buf.Allocate(2);
    // same physical slot, new generation
    assert_eq!(h1.Node(), h2.Node());
    assert_eq!(h1.Instance(), h2.Instance());
    assert_ne!(h1.Generation(), h2.Generation());
    assert_eq!(buf.get(h1), Err(HandleError::StaleGeneration));
    assert_eq!(buf.get(h2), Ok(&2));
}

#[test]
fn freeing_null_is_a_no_op() {
    let mut buf: SparceBuffer<u64> = SparceBuffer::new();
    assert_eq!(buf.Free(handle_t::null()), Ok(()));
    assert_eq!(buf.Size(), 0);
}

#[test]
fn double_free_is_rejected() {
    let mut buf: SparceBuffer<u64> = SparceBuffer::new();
    let h = buf.Allocate(1);
    assert_eq!(buf.Free(h), Ok(()));
    assert_eq!(buf.Free(h), Err(HandleError::SlotFree));
}

#[test]
fn out_of_range_node_is_rejected() {
    let buf: SparceBuffer<u64> = SparceBuffer::new();
    let h = handle_t::<u64>::from(1, 255, 0);
    assert_eq!(buf.get(h), Err(HandleError::OutOfRange));
}

#[test]
fn stale_free_is_rejected_and_changes_nothing() {
    let mut buf: SparceBuffer<u64> = SparceBuffer::new();
    let h1 = buf.Allocate(1);
    buf.Free(h1).unwrap();
    let h2 = buf.Allocate(2);
    assert_eq!(buf.Free(h1), Err(HandleError::StaleGeneration));
    assert_eq!(buf.get(h2), Ok(&2));
    assert_eq!(buf.Size(), 1);
}

#[test]
fn exhausting_the_arena_returns_the_null_handle() {
    let mut buf: SparceBuffer<u32> = SparceBuffer::new();
    for i in 0..(255 * 32) {
        let h = buf.Allocate(i);
        assert!(!h.IsNull());
    }
    assert_eq!(buf.Size(), 255 * 32);
    let h = buf.Allocate(0);
    assert!(h.IsNull());
    // freeing one slot makes allocation possible again
    let h2 = buf.Allocate(1);
    assert!(h2.IsNull());
    let some = handle_t::<u32>::from(1, 10, 10);
    buf.Free(some).unwrap();
    let h3 = buf.Allocate(2);
    assert!(!h3.IsNull());
    assert_eq!(h3.Node(), 10);
    assert_eq!(h3.Instance(), 10);
}

#[test]
fn interleaved_allocs_and_frees_keep_the_count_exact() {
    let mut buf: SparceBuffer<usize> = SparceBuffer::new();
    let mut live = Vec::new();
    let mut expected: usize = 0;
    for round in 0..50 {
        for i in 0..10 {
            live.push(buf.Allocate(round * 100 + i));
            expected += 1;
        }
        for _ in 0..7 {
            let h = live.remove(live.len() / 2);
            buf.Free(h).unwrap();
            expected -= 1;
        }
        assert_eq!(buf.Size(), expected);
    }
    let mut it = buf.Iter();
    let mut yielded = 0;
    while it.next(&buf).is_some() {
        yielded += 1;
    }
    assert_eq!(yielded, expected);
}

#[test]
fn a_full_node_spills_into_the_next() {
    let mut buf: SparceBuffer<u64> = SparceBuffer::new();
    let mut handles = Vec::new();
    for i in 0..32 {
        let h = buf.Allocate(i);
        assert_eq!(h.Node(), 0);
        handles.push(h);
    }
    let h = buf.Allocate(99);
    assert_eq!(h.Node(), 1);
    assert_eq!(buf.Size(), 33);
    // freeing a slot threads node 0 back onto the free list
    buf.Free(handles[7]).unwrap();
    let h2 = buf.Allocate(7);
    assert_eq!(h2.Node(), 0);
    assert_eq!(h2.Instance(), 7);
}
