use versioned_store::{handle_t, LinkTable, SparceBuffer};

#[derive(Debug)]
struct Pose;
#[derive(Debug)]
struct Drawable;

#[test]
fn linked_handles_come_back_in_order() {
    let mut table: LinkTable<Drawable, Pose> = LinkTable::new();
    let d = handle_t::<Drawable>::from(1, 0, 0);
    let p1 = handle_t::<Pose>::from(1, 0, 1);
    let p2 = handle_t::<Pose>::from(1, 0, 2);
    table.Link(d, p1);
    table.Link(d, p2);
    assert_eq!(table.GetLinkedHandles(d), vec![p1, p2]);
}

#[test]
fn unlinked_handle_has_no_links() {
    let table: LinkTable<Drawable, Pose> = LinkTable::new();
    let d = handle_t::<Drawable>::from(1, 0, 0);
    assert_eq!(table.GetLinkedHandles(d), Vec::<handle_t<Pose>>::new());
}

#[test]
fn links_are_scoped_to_the_left_handle() {
    let mut table: LinkTable<Drawable, Pose> = LinkTable::new();
    let d1 = handle_t::<Drawable>::from(1, 0, 0);
    let d2 = handle_t::<Drawable>::from(1, 0, 1);
    let p1 = handle_t::<Pose>::from(1, 0, 1);
    let p2 = handle_t::<Pose>::from(1, 0, 2);
    table.Link(d1, p1);
    table.Link(d2, p2);
    assert_eq!(table.GetLinkedHandles(d1), vec![p1]);
    assert_eq!(table.GetLinkedHandles(d2), vec![p2]);
}

#[test]
fn links_address_real_arena_values() {
    let mut poses: SparceBuffer<u64> = SparceBuffer::new();
    let mut drawables: SparceBuffer<u32> = SparceBuffer::new();
    let mut table: LinkTable<u32, u64> = LinkTable::new();
    let d = drawables.Allocate(7);
    let p = poses.Allocate(700);
    table.Link(d, p);
    let linked = table.GetLinkedHandles(d);
    assert_eq!(linked.len(), 1);
    assert_eq!(poses.get(linked[0]), Ok(&700));
}
