use versioned_store::{Commit, Trie};

#[test]
fn empty_trie_resolves_nothing() {
    let t: Trie<u64> = Trie::new();
    assert_eq!(t.get(0), None);
    assert_eq!(t.get(1), None);
    assert_eq!(t.get(-1), None);
    assert_eq!(t.get(i64::MAX), None);
}

#[test]
fn commit_roundtrip_reads_back_the_value() {
    let mut t: Trie<u64> = Trie::new();
    let mut c = Commit::new();
    c.write(42, 1000);
    let root = t.ApplyCommit(c);
    assert!(!root.IsNull());
    assert_eq!(t.get(42), Some(&1000));
    assert_eq!(t.get(43), None);
}

#[test]
fn prior_snapshot_keeps_its_reading() {
    let mut t: Trie<u64> = Trie::new();
    let mut c0 = Commit::new();
    c0.write(7, 70);
    t.ApplyCommit(c0);
    let snap = t.Snapshot();
    let mut c1 = Commit::new();
    c1.write(7, 71);
    c1.write(8, 80);
    let root = t.ApplyCommit(c1);
    assert!(!root.IsNull());
    // the new root sees the commit
    assert_eq!(t.get(7), Some(&71));
    assert_eq!(t.get(8), Some(&80));
    // the retained snapshot still resolves its pre-commit values
    assert_eq!(t.get_at(snap, 7), Some(&70));
    assert_eq!(t.get_at(snap, 8), None);
    t.ReleaseSnapshot(snap);
    assert_eq!(t.get(7), Some(&71));
}

#[test]
fn colliding_low_bytes_split_into_a_deeper_node() {
    // 0x0001 and 0x0101 share their lowest-order byte and part ways on
    // the second
    let mut t: Trie<u64> = Trie::new();
    let mut c = Commit::new();
    c.write(0x0001, 1);
    c.write(0x0101, 2);
    let root = t.ApplyCommit(c);
    assert!(!root.IsNull());
    assert_eq!(t.get(0x0001), Some(&1));
    assert_eq!(t.get(0x0101), Some(&2));
    assert_eq!(t.get(0x0201), None);
}

#[test]
fn deep_collisions_split_until_bytes_diverge() {
    let mut t: Trie<u64> = Trie::new();
    // the two keys share bytes 0 through 6 and part ways only at the
    // most significant byte, forcing the longest split chain
    let k1: i64 = 0x0122_3344_5566_7788;
    let k2: i64 = 0x0222_3344_5566_7788;
    let k3: i64 = 0x0122_3344_5566_7789;
    let mut c = Commit::new();
    c.write(k1, 1);
    c.write(k2, 2);
    c.write(k3, 3);
    t.ApplyCommit(c);
    assert_eq!(t.get(k1), Some(&1));
    assert_eq!(t.get(k2), Some(&2));
    assert_eq!(t.get(k3), Some(&3));
}

#[test]
fn later_write_to_the_same_key_wins() {
    let mut t: Trie<u64> = Trie::new();
    let mut c = Commit::new();
    c.write(5, 50);
    c.write(5, 51);
    t.ApplyCommit(c);
    assert_eq!(t.get(5), Some(&51));
}

#[test]
fn empty_commit_still_makes_a_fresh_root() {
    let mut t: Trie<u64> = Trie::new();
    let before = t.Snapshot();
    let root = t.ApplyCommit(Commit::new());
    assert!(!root.IsNull());
    assert_ne!(root.Value(), before.Value());
    t.ReleaseSnapshot(before);
}

#[test]
fn negative_and_boundary_keys_work() {
    let mut t: Trie<i64> = Trie::new();
    let mut c = Commit::new();
    c.write(-1, 10);
    c.write(i64::MIN, 20);
    c.write(i64::MAX, 30);
    c.write(0, 40);
    t.ApplyCommit(c);
    assert_eq!(t.get(-1), Some(&10));
    assert_eq!(t.get(i64::MIN), Some(&20));
    assert_eq!(t.get(i64::MAX), Some(&30));
    assert_eq!(t.get(0), Some(&40));
}

#[test]
fn diff_reports_exactly_the_changed_key() {
    let mut t: Trie<u64> = Trie::new();
    let mut c0 = Commit::new();
    c0.write(1, 100);
    c0.write(2, 200);
    c0.write(300, 330);
    t.ApplyCommit(c0);
    let old = t.Snapshot();
    let mut c1 = Commit::new();
    c1.write(2, 201);
    let new = t.ApplyCommit(c1);
    let d = t.diff(old, new);
    assert_eq!(d.len(), 1);
    assert_eq!(d[0].0, 2);
    // the pre-image and post-image value handles are live and distinct
    assert!(!d[0].1.IsNull());
    assert!(!d[0].2.IsNull());
    assert_ne!(d[0].1, d[0].2);
    t.ReleaseSnapshot(old);
}

#[test]
fn diff_reports_additions_with_a_null_pre_image() {
    let mut t: Trie<u64> = Trie::new();
    let mut c0 = Commit::new();
    c0.write(1, 100);
    t.ApplyCommit(c0);
    let old = t.Snapshot();
    let mut c1 = Commit::new();
    c1.write(9, 900);
    let new = t.ApplyCommit(c1);
    let d = t.diff(old, new);
    assert_eq!(d.len(), 1);
    assert_eq!(d[0].0, 9);
    assert!(d[0].1.IsNull());
    assert!(!d[0].2.IsNull());
    t.ReleaseSnapshot(old);
}

#[test]
fn diff_against_null_reports_everything() {
    let mut t: Trie<u64> = Trie::new();
    let mut c = Commit::new();
    c.write(3, 30);
    c.write(4, 40);
    let root = t.ApplyCommit(c);
    let d = t.diff(versioned_store::handle_t::null(), root);
    let mut keys: Vec<i64> = d.iter().map(|e| e.0).collect();
    keys.sort();
    assert_eq!(keys, vec![3, 4]);
    for e in &d {
        assert!(e.1.IsNull());
        assert!(!e.2.IsNull());
    }
}

#[test]
fn diff_of_identical_roots_is_empty() {
    let mut t: Trie<u64> = Trie::new();
    let mut c = Commit::new();
    c.write(3, 30);
    let root = t.ApplyCommit(c);
    assert_eq!(t.diff(root, root).len(), 0);
}

#[test]
fn diff_callback_sees_every_entry() {
    let mut t: Trie<u64> = Trie::new();
    let mut c0 = Commit::new();
    c0.write(5, 50);
    t.ApplyCommit(c0);
    let old = t.Snapshot();
    let mut c1 = Commit::new();
    c1.write(5, 51);
    c1.write(6, 60);
    let new = t.ApplyCommit(c1);
    let mut seen: Vec<i64> = Vec::new();
    t.Diff(old, new, |k, _a, _b| seen.push(k));
    seen.sort();
    assert_eq!(seen, vec![5, 6]);
    t.ReleaseSnapshot(old);
}

#[test]
fn two_snapshots_survive_two_commits() {
    let mut t: Trie<u64> = Trie::new();
    let mut c0 = Commit::new();
    c0.write(1, 10);
    t.ApplyCommit(c0);
    let s1 = t.Snapshot();
    let mut c1 = Commit::new();
    c1.write(1, 11);
    t.ApplyCommit(c1);
    let s2 = t.Snapshot();
    let mut c2 = Commit::new();
    c2.write(1, 12);
    t.ApplyCommit(c2);
    assert_eq!(t.get_at(s1, 1), Some(&10));
    assert_eq!(t.get_at(s2, 1), Some(&11));
    assert_eq!(t.get(1), Some(&12));
    t.ReleaseSnapshot(s1);
    assert_eq!(t.get_at(s2, 1), Some(&11));
    t.ReleaseSnapshot(s2);
    assert_eq!(t.get(1), Some(&12));
}

#[test]
fn exhausting_the_value_arena_fails_the_commit_cleanly() {
    let mut t: Trie<u64> = Trie::new();
    let mut failed = false;
    for i in 0..10000 {
        let mut c = Commit::new();
        c.write(1, i);
        let root = t.ApplyCommit(c);
        if root.IsNull() {
            failed = true;
            // the trie still reads its last committed value
            assert_eq!(t.get(1), Some(&(i - 1)));
            break;
        }
        assert_eq!(t.get(1), Some(&i));
    }
    assert!(failed);
}
