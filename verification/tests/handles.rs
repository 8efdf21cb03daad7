use versioned_store::handle_t;

#[test]
fn pack_and_unpack_fields() {
    let h = handle_t::<u32>::from(1, 5, 7);
    assert_eq!(h.Generation(), 1);
    assert_eq!(h.Node(), 5);
    assert_eq!(h.Instance(), 7);
    assert!(!h.IsNull());
}

#[test]
fn packed_layout_is_gen_node_instance() {
    // generation in the top 3 bits, node in the next 8, instance in the
    // low 5 of the 16-bit value
    let h = handle_t::<u32>::from(2, 3, 4);
    let raw = h.Value() as u16;
    assert_eq!(raw, (2u16 << 13) | (3u16 << 5) | 4u16);
}

#[test]
fn null_handle_is_all_zero() {
    let n = handle_t::<u32>::null();
    assert!(n.IsNull());
    assert_eq!(n.Value(), 0);
    assert_eq!(n.Generation(), 0);
    assert_eq!(n.Node(), 0);
    assert_eq!(n.Instance(), 0);
}

#[test]
fn zero_fields_pack_to_null() {
    let h = handle_t::<u32>::from(0, 0, 0);
    assert!(h.IsNull());
}

#[test]
fn new_wraps_raw_value() {
    let h = handle_t::<u32>::new(1234);
    assert_eq!(h.Value(), 1234);
}

#[test]
fn equality_goes_by_raw_value() {
    let a = handle_t::<u32>::from(1, 2, 3);
    let b = handle_t::<u32>::from(1, 2, 3);
    let c = handle_t::<u32>::from(1, 2, 4);
    assert_eq!(a, b);
    assert_ne!(a, c);
}

#[test]
fn highest_fields_fit() {
    let h = handle_t::<u32>::from(7, 255, 31);
    assert_eq!(h.Generation(), 7);
    assert_eq!(h.Node(), 255);
    assert_eq!(h.Instance(), 31);
}
