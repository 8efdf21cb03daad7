use versioned_store::sparce_buffer::HandleError;
use versioned_store::{handle_t, SparceBufferRc};

#[test]
fn allocate_then_free_releases_the_slot() {
    let mut buf: SparceBufferRc<u64> = SparceBufferRc::new();
    let h = buf.Allocate(7);
    assert_eq!(buf.Get(h), Ok(&7));
    // one allocation, no extra reference: a single free releases
    assert_eq!(buf.Free(h), Ok(true));
    assert!(buf.Get(h).is_err());
    // the slot is back on the free bitmask: it is handed out again
    let h2 = buf.Allocate(8);
    assert_eq!(h2.Node(), h.Node());
    assert_eq!(h2.Instance(), h.Instance());
    assert_ne!(h2.Generation(), h.Generation());
}

#[test]
fn bump_ref_defers_release_until_both_frees() {
    let mut buf: SparceBufferRc<u64> = SparceBufferRc::new();
    let h = buf.Allocate(7);
    buf.BumpRef(h);
    // first free lowers the count but must NOT release the slot
    assert_eq!(buf.Free(h), Ok(false));
    assert_eq!(buf.Get(h), Ok(&7));
    // second free releases it
    assert_eq!(buf.Free(h), Ok(true));
    assert!(buf.Get(h).is_err());
}

#[test]
fn bump_ref_on_missing_slot_is_a_no_op() {
    let mut buf: SparceBufferRc<u64> = SparceBufferRc::new();
    let stray = handle_t::<u64>::from(1, 3, 4);
    buf.BumpRef(stray);
    assert_eq!(buf.Free(stray), Err(HandleError::OutOfRange));
}

#[test]
fn freeing_null_counted_handle_is_a_no_op() {
    let mut buf: SparceBufferRc<u64> = SparceBufferRc::new();
    assert_eq!(buf.Free(handle_t::null()), Ok(false));
}

#[test]
fn stale_counted_handle_is_detected_after_reuse() {
    let mut buf: SparceBufferRc<u64> = SparceBufferRc::new();
    let h1 = buf.Allocate(1);
    assert_eq!(buf.Free(h1), Ok(true));
    let h2 = buf.Allocate(2);
    assert_eq!(buf.Get(h1), Err(HandleError::StaleGeneration));
    assert_eq!(buf.Get(h2), Ok(&2));
}

#[test]
fn set_overwrites_without_touching_the_count() {
    let mut buf: SparceBufferRc<u64> = SparceBufferRc::new();
    let h = buf.Allocate(1);
    buf.BumpRef(h);
    assert_eq!(buf.set(h, 9), Ok(()));
    assert_eq!(buf.Get(h), Ok(&9));
    assert_eq!(buf.Free(h), Ok(false));
    assert_eq!(buf.Free(h), Ok(true));
}

#[test]
fn nodes_are_created_on_demand() {
    let mut buf: SparceBufferRc<u64> = SparceBufferRc::new();
    for i in 0..32 {
        let h = buf.Allocate(i);
        assert_eq!(h.Node(), 0);
    }
    let h = buf.Allocate(99);
    assert_eq!(h.Node(), 1);
    assert_eq!(buf.Get(h), Ok(&99));
}

#[test]
fn exhausting_all_nodes_returns_the_null_handle() {
    let mut buf: SparceBufferRc<u32> = SparceBufferRc::new();
    let mut last = handle_t::<u32>::null();
    for i in 0..(255 * 32) {
        let h = buf.Allocate(i);
        assert!(!h.IsNull());
        last = h;
    }
    let h = buf.Allocate(0);
    assert!(h.IsNull());
    // releasing a slot makes allocation possible again
    assert_eq!(buf.Free(last), Ok(true));
    let h2 = buf.Allocate(7);
    assert!(!h2.IsNull());
    assert_eq!(buf.Get(h2), Ok(&7));
}
