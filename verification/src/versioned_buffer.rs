//! A copy-on-write persistent trie over 64-bit keys.
//!
//! A [`Trie`] is a 256-way radix trie: a node at level `L` branches on byte
//! `L` of the key (byte 0 is the least significant), so two distinct keys
//! part ways after at most 8 levels.  Trie nodes live in one
//! reference-counted arena, leaf values in another; a node is shared by
//! every version of the trie that has not replaced it.
//!
//! [`Trie::ApplyCommit`] folds a batch of pending writes into a brand-new
//! root.  For each write it copies the path from the root to the key —
//! every node along the way is rebuilt as a fresh allocation whose untouched
//! children are the very child handles of the old node, reference counts
//! raised — and never mutates an allocated node.  A version that was
//! retained through [`Trie::Snapshot`] therefore keeps resolving every key
//! exactly as before, whatever later commits do.  Superseded roots are
//! released back to the arena when no snapshot holds them; reclamation of
//! the interior nodes of a fully dead version is deferred (their counts
//! keep the sharing degree, but no cascading collection runs), a deliberate
//! trade of arena space for a small trusted surface.

use vstd::prelude::*;
use vstd::multiset::Multiset;
use crate::handle::{gen_bits, handle_t, inst_bits, node_bits};
use crate::sparce_buffer::{full_dom, key_of, lemma_full_dom, HandleError};
use crate::sparce_buffer_rc::SparceBufferRc;

verus! {

/// The `(node, instance)` slot pair encoded in a raw handle value.
pub open spec fn raw_key(raw: u16) -> (int, int) {
    (node_bits(raw) as int, inst_bits(raw) as int)
}

/// A raw handle value addresses a live slot of `a` and carries its current
/// generation.
pub open spec fn raw_live<T>(a: SparceBufferRc<T>, raw: u16) -> bool {
    &&& raw != 0
    &&& node_bits(raw) < 255
    &&& a@.dom().contains(raw_key(raw))
    &&& gen_bits(raw) == a.gen_at(raw_key(raw).0, raw_key(raw).1)
}

/// Byte `level` of a key; byte 0 is the least significant.
pub open spec fn key_byte(key: i64, level: int) -> u8 {
    (((key as u64) >> ((8 * level) as u64)) & 0xff) as u8
}

/// Distinct keys differ in at least one of their 8 bytes.
pub proof fn lemma_key_bytes_determine(k1: i64, k2: i64)
    requires
        forall|l: int| 0 <= l < 8 ==> key_byte(k1, l) == key_byte(k2, l),
    ensures
        k1 == k2,
{
    assert(key_byte(k1, 0) == key_byte(k2, 0) && key_byte(k1, 1) == key_byte(k2, 1) && key_byte(
        k1,
        2,
    ) == key_byte(k2, 2) && key_byte(k1, 3) == key_byte(k2, 3) && key_byte(k1, 4) == key_byte(
        k2,
        4,
    ) && key_byte(k1, 5) == key_byte(k2, 5) && key_byte(k1, 6) == key_byte(k2, 6) && key_byte(
        k1,
        7,
    ) == key_byte(k2, 7));
    let a = k1 as u64;
    let b = k2 as u64;
    assert((((a >> 0) & 0xff) as u8 == ((b >> 0) & 0xff) as u8 && ((a >> 8) & 0xff) as u8 == ((b
        >> 8) & 0xff) as u8 && ((a >> 16) & 0xff) as u8 == ((b >> 16) & 0xff) as u8 && ((a >> 24)
        & 0xff) as u8 == ((b >> 24) & 0xff) as u8 && ((a >> 32) & 0xff) as u8 == ((b >> 32)
        & 0xff) as u8 && ((a >> 40) & 0xff) as u8 == ((b >> 40) & 0xff) as u8 && ((a >> 48)
        & 0xff) as u8 == ((b >> 48) & 0xff) as u8 && ((a >> 56) & 0xff) as u8 == ((b >> 56)
        & 0xff) as u8) ==> a == b) by (bit_vector);
    assert(a == b);
    assert(k1 as u64 == k2 as u64 ==> k1 == k2) by (bit_vector);
}

/// One entry of a trie node: nothing, a child node one level down, or a
/// leaf holding a key and the handle of its value.
pub enum TrieValue<T> {
    Empty,
    Trie(handle_t<TrieNode<T>>),
    Leaf { key: i64, value: handle_t<T> },
}

impl<T> Copy for TrieValue<T> {

}

impl<T> Clone for TrieValue<T> {
    fn clone(&self) -> (r: Self)
        ensures
            r == *self,
    {
        *self
    }
}

/// A trie node: 256 entries indexed by one key byte, and the level — the
/// byte position — this node branches on.
pub struct TrieNode<T> {
    pub children: Vec<TrieValue<T>>,
    pub level: u8,
}

impl<T> TrieNode<T> {
    /// The index in the children array a key maps to at this node: the
    /// key's byte at this node's level.
    pub fn KeyIndex(&self, key: i64) -> (b: usize)
        requires
            self.level <= 7,
        ensures
            b == key_byte(key, self.level as int),
            b < 256,
    {
        let sh: u64 = 8 * (self.level as u64);
        let b = (((key as u64) >> sh) & 0xff) as usize;
        proof {
            let k = key as u64;
            assert((k >> sh) & 0xff < 256) by (bit_vector);
        }
        b
    }
}

/// A trie node subtree rooted at the slot `raw` addresses is well formed:
/// the slot is live, the node records its level, and every leaf of the
/// subtree hangs on the byte path that leads to it — `pre` lists the bytes
/// that lead to this node.
pub open spec fn node_ok<T>(
    na: SparceBufferRc<TrieNode<T>>,
    da: SparceBufferRc<T>,
    raw: u16,
    level: int,
    pre: Seq<int>,
) -> bool
    decreases 8 - level, 1int,
{
    &&& 0 <= level <= 7
    &&& pre.len() == level
    &&& raw_live(na, raw)
    &&& na@[raw_key(raw)].level == level
    &&& na@[raw_key(raw)].children@.len() == 256
    &&& forall|b: int|
        0 <= b < 256 ==> child_ok(na, da, #[trigger] na@[raw_key(raw)].children@[b], b, level, pre)
}

/// Well-formedness of one entry of a node at `level` reached over `pre`.
pub open spec fn child_ok<T>(
    na: SparceBufferRc<TrieNode<T>>,
    da: SparceBufferRc<T>,
    tv: TrieValue<T>,
    b: int,
    level: int,
    pre: Seq<int>,
) -> bool
    decreases 8 - level, 0int,
{
    match tv {
        TrieValue::Empty => true,
        TrieValue::Leaf { key, value } => {
            &&& key_byte(key, level) == b
            &&& forall|l: int| 0 <= l < level ==> key_byte(key, l) == pre[l]
            &&& raw_live(da, value.raw())
        },
        TrieValue::Trie(c) => {
            &&& level < 7
            &&& node_ok(na, da, c.raw(), level + 1, pre.push(b))
        },
    }
}

/// The value handle the subtree at `raw` resolves `key` to, following one
/// key byte per level.
pub open spec fn trie_at<T>(
    na: SparceBufferRc<TrieNode<T>>,
    raw: u16,
    level: int,
    key: i64,
) -> Option<handle_t<T>>
    decreases 8 - level,
{
    if level < 0 || level > 7 {
        None
    } else {
        match na@[raw_key(raw)].children@[key_byte(key, level) as int] {
            TrieValue::Empty => None,
            TrieValue::Leaf { key: lk, value } => if lk == key {
                Some(value)
            } else {
                None
            },
            TrieValue::Trie(c) => trie_at(na, c.raw(), level + 1, key),
        }
    }
}

/// The value handle one node entry resolves `key` to: what `trie_at` sees
/// after choosing the entry.
pub open spec fn tv_at<T>(
    na: SparceBufferRc<TrieNode<T>>,
    tv: TrieValue<T>,
    level: int,
    key: i64,
) -> Option<handle_t<T>> {
    match tv {
        TrieValue::Empty => None,
        TrieValue::Leaf { key: lk, value } => if lk == key {
            Some(value)
        } else {
            None
        },
        TrieValue::Trie(c) => trie_at(na, c.raw(), level + 1, key),
    }
}

/// One arena state extends another: every slot of the old state is still
/// there, with the same value and generation tag (reference counts are free
/// to move).
pub open spec fn extends<T>(a2: SparceBufferRc<T>, a1: SparceBufferRc<T>) -> bool {
    forall|p: (int, int)|
        #[trigger] a1@.dom().contains(p) ==> a2@.dom().contains(p) && a2@[p] == a1@[p]
            && a2.gen_at(p.0, p.1) == a1.gen_at(p.0, p.1)
}

/// Well-formedness and resolution both survive an extension of the two
/// arenas: a subtree never reads slots outside the old state.
pub proof fn lemma_frame_extend<T>(
    na1: SparceBufferRc<TrieNode<T>>,
    na2: SparceBufferRc<TrieNode<T>>,
    da1: SparceBufferRc<T>,
    da2: SparceBufferRc<T>,
    raw: u16,
    level: int,
    pre: Seq<int>,
)
    requires
        node_ok(na1, da1, raw, level, pre),
        extends(na2, na1),
        extends(da2, da1),
    ensures
        node_ok(na2, da2, raw, level, pre),
        forall|key: i64| trie_at(na2, raw, level, key) == trie_at(na1, raw, level, key),
    decreases 8 - level,
{
    assert forall|b: int| 0 <= b < 256 implies child_ok(
        na2,
        da2,
        #[trigger] na2@[raw_key(raw)].children@[b],
        b,
        level,
        pre,
    ) by {
        match na1@[raw_key(raw)].children@[b] {
            TrieValue::Empty => {},
            TrieValue::Leaf { key, value } => {},
            TrieValue::Trie(c) => {
                lemma_frame_extend(na1, na2, da1, da2, c.raw(), level + 1, pre.push(b));
            },
        }
    }
    assert forall|key: i64| trie_at(na2, raw, level, key) == trie_at(
        na1,
        raw,
        level,
        key,
    ) by {
        let b = key_byte(key, level) as int;
        assert(na2@[raw_key(raw)] == na1@[raw_key(raw)]);
        match na1@[raw_key(raw)].children@[b] {
            TrieValue::Empty => {
                assert(trie_at(na1, raw, level, key) is None);
                assert(trie_at(na2, raw, level, key) is None);
            },
            TrieValue::Leaf { key: lk, value } => {
                assert(trie_at(na2, raw, level, key) == trie_at(na1, raw, level, key));
            },
            TrieValue::Trie(c) => {
                assert(child_ok(na1, da1, na1@[raw_key(raw)].children@[b], b, level, pre));
                lemma_frame_extend(na1, na2, da1, da2, c.raw(), level + 1, pre.push(b));
                assert(trie_at(na1, raw, level, key) == trie_at(na1, c.raw(), level + 1, key));
                assert(trie_at(na2, raw, level, key) == trie_at(na2, c.raw(), level + 1, key));
            },
        }
    }
}

/// Well-formedness and resolution survive the release of a slot that held
/// a level-0 node: no subtree at `level` contains such a slot but its own
/// root, and `raw` is not it.
pub proof fn lemma_frame_release_root<T>(
    na1: SparceBufferRc<TrieNode<T>>,
    na2: SparceBufferRc<TrieNode<T>>,
    da1: SparceBufferRc<T>,
    da2: SparceBufferRc<T>,
    s: (int, int),
    raw: u16,
    level: int,
    pre: Seq<int>,
)
    requires
        node_ok(na1, da1, raw, level, pre),
        raw_key(raw) != s,
        na1@.dom().contains(s),
        na1@[s].level == 0,
        na2@ == na1@.remove(s),
        forall|p: (int, int)|
            p != s && #[trigger] na1@.dom().contains(p) ==> na2.gen_at(p.0, p.1) == na1.gen_at(
                p.0,
                p.1,
            ),
        extends(da2, da1),
    ensures
        node_ok(na2, da2, raw, level, pre),
        forall|key: i64| trie_at(na2, raw, level, key) == trie_at(na1, raw, level, key),
    decreases 8 - level,
{
    assert(na2@[raw_key(raw)] == na1@[raw_key(raw)]);
    assert forall|b: int| 0 <= b < 256 implies child_ok(
        na2,
        da2,
        #[trigger] na2@[raw_key(raw)].children@[b],
        b,
        level,
        pre,
    ) by {
        match na1@[raw_key(raw)].children@[b] {
            TrieValue::Empty => {},
            TrieValue::Leaf { key, value } => {},
            TrieValue::Trie(c) => {
                assert(child_ok(na1, da1, na1@[raw_key(raw)].children@[b], b, level, pre));
                assert(node_ok(na1, da1, c.raw(), level + 1, pre.push(b)));
                // the child holds a node of level `level + 1 >= 1`, so its
                // slot cannot be the released level-0 slot
                assert(na1@[raw_key(c.raw())].level == level + 1);
                lemma_frame_release_root(na1, na2, da1, da2, s, c.raw(), level + 1, pre.push(b));
            },
        }
    }
    assert forall|key: i64| trie_at(na2, raw, level, key) == trie_at(
        na1,
        raw,
        level,
        key,
    ) by {
        let b = key_byte(key, level) as int;
        assert(na2@[raw_key(raw)] == na1@[raw_key(raw)]);
        match na1@[raw_key(raw)].children@[b] {
            TrieValue::Empty => {
                assert(trie_at(na1, raw, level, key) is None);
                assert(trie_at(na2, raw, level, key) is None);
            },
            TrieValue::Leaf { key: lk, value } => {
                assert(trie_at(na2, raw, level, key) == trie_at(na1, raw, level, key));
            },
            TrieValue::Trie(c) => {
                assert(child_ok(na1, da1, na1@[raw_key(raw)].children@[b], b, level, pre));
                assert(node_ok(na1, da1, c.raw(), level + 1, pre.push(b)));
                assert(na1@[raw_key(c.raw())].level == level + 1);
                lemma_frame_release_root(na1, na2, da1, da2, s, c.raw(), level + 1, pre.push(b));
                assert(trie_at(na1, raw, level, key) == trie_at(na1, c.raw(), level + 1, key));
                assert(trie_at(na2, raw, level, key) == trie_at(na2, c.raw(), level + 1, key));
            },
        }
    }
}

/// One entry's well-formedness and resolution survive an extension of the
/// two arenas.
pub proof fn lemma_child_frame_extend<T>(
    na1: SparceBufferRc<TrieNode<T>>,
    na2: SparceBufferRc<TrieNode<T>>,
    da1: SparceBufferRc<T>,
    da2: SparceBufferRc<T>,
    tv: TrieValue<T>,
    b: int,
    level: int,
    pre: Seq<int>,
)
    requires
        child_ok(na1, da1, tv, b, level, pre),
        0 <= level <= 7,
        extends(na2, na1),
        extends(da2, da1),
    ensures
        child_ok(na2, da2, tv, b, level, pre),
        forall|key: i64| tv_at(na2, tv, level, key) == tv_at(na1, tv, level, key),
{
    match tv {
        TrieValue::Empty => {},
        TrieValue::Leaf { key, value } => {},
        TrieValue::Trie(c) => {
            lemma_frame_extend(na1, na2, da1, da2, c.raw(), level + 1, pre.push(b));
        },
    }
}

/// Whatever a well-formed subtree resolves a key to is a live value slot.
pub proof fn lemma_trie_at_live<T>(
    na: SparceBufferRc<TrieNode<T>>,
    da: SparceBufferRc<T>,
    raw: u16,
    level: int,
    pre: Seq<int>,
    key: i64,
)
    requires
        node_ok(na, da, raw, level, pre),
        trie_at(na, raw, level, key) is Some,
    ensures
        raw_live(da, trie_at(na, raw, level, key)->Some_0.raw()),
    decreases 8 - level,
{
    let b = key_byte(key, level) as int;
    match na@[raw_key(raw)].children@[b] {
        TrieValue::Empty => {},
        TrieValue::Leaf { key: lk, value } => {},
        TrieValue::Trie(c) => {
            lemma_trie_at_live(na, da, c.raw(), level + 1, pre.push(b), key);
        },
    }
}

/// The value one version holds at a key: the resolution of the root slot
/// `raw` through the node arena, read out of the data arena.
pub open spec fn read_raw<T>(
    na: SparceBufferRc<TrieNode<T>>,
    da: SparceBufferRc<T>,
    raw: u16,
    key: i64,
) -> Option<T> {
    match trie_at(na, raw, 0, key) {
        Some(vh) => Some(da@[raw_key(vh.raw())]),
        None => None,
    }
}

/// A whole version's reads survive an extension of the two arenas.
pub proof fn lemma_read_frame_extend<T>(
    na1: SparceBufferRc<TrieNode<T>>,
    na2: SparceBufferRc<TrieNode<T>>,
    da1: SparceBufferRc<T>,
    da2: SparceBufferRc<T>,
    raw: u16,
)
    requires
        node_ok(na1, da1, raw, 0, Seq::empty()),
        extends(na2, na1),
        extends(da2, da1),
    ensures
        node_ok(na2, da2, raw, 0, Seq::empty()),
        forall|k: i64| #[trigger] read_raw(na2, da2, raw, k) == read_raw(na1, da1, raw, k),
{
    lemma_frame_extend(na1, na2, da1, da2, raw, 0, Seq::empty());
    assert forall|k: i64| #[trigger] read_raw(na2, da2, raw, k) == read_raw(na1, da1, raw, k) by {
        if trie_at(na1, raw, 0, k) is Some {
            lemma_trie_at_live(na1, da1, raw, 0, Seq::empty(), k);
        }
    }
}

/// A whole version's reads survive the release of a slot that held a
/// level-0 node of another version.
pub proof fn lemma_read_frame_release<T>(
    na1: SparceBufferRc<TrieNode<T>>,
    na2: SparceBufferRc<TrieNode<T>>,
    da1: SparceBufferRc<T>,
    da2: SparceBufferRc<T>,
    s: (int, int),
    raw: u16,
)
    requires
        node_ok(na1, da1, raw, 0, Seq::empty()),
        raw_key(raw) != s,
        na1@.dom().contains(s),
        na1@[s].level == 0,
        na2@ == na1@.remove(s),
        forall|p: (int, int)|
            p != s && #[trigger] na1@.dom().contains(p) ==> na2.gen_at(p.0, p.1) == na1.gen_at(
                p.0,
                p.1,
            ),
        extends(da2, da1),
    ensures
        node_ok(na2, da2, raw, 0, Seq::empty()),
        forall|k: i64| #[trigger] read_raw(na2, da2, raw, k) == read_raw(na1, da1, raw, k),
{
    lemma_frame_release_root(na1, na2, da1, da2, s, raw, 0, Seq::empty());
    assert forall|k: i64| #[trigger] read_raw(na2, da2, raw, k) == read_raw(na1, da1, raw, k) by {
        if trie_at(na1, raw, 0, k) is Some {
            lemma_trie_at_live(na1, da1, raw, 0, Seq::empty(), k);
        }
    }
}

/// A key whose byte at an earlier position disagrees with the path that
/// leads to a subtree resolves to nothing in that subtree: every leaf
/// below carries the path's bytes.
pub proof fn lemma_off_byte_none<T>(
    na: SparceBufferRc<TrieNode<T>>,
    da: SparceBufferRc<T>,
    raw: u16,
    level: int,
    pre: Seq<int>,
    key: i64,
    l0: int,
)
    requires
        node_ok(na, da, raw, level, pre),
        0 <= l0 < level,
        key_byte(key, l0) != pre[l0],
    ensures
        trie_at(na, raw, level, key) is None,
    decreases 8 - level,
{
    let b = key_byte(key, level) as int;
    match na@[raw_key(raw)].children@[b] {
        TrieValue::Empty => {},
        TrieValue::Leaf { key: lk, value } => {
            if lk == key {
                assert(key_byte(lk, l0) == pre[l0]);
            }
        },
        TrieValue::Trie(c) => {
            lemma_off_byte_none(na, da, c.raw(), level + 1, pre.push(b), key, l0);
        },
    }
}

/// Two raw values that address the same live slot of one arena are the
/// same value: liveness fixes the generation.
pub proof fn lemma_live_same_slot<T>(a: SparceBufferRc<T>, r1: u16, r2: u16)
    requires
        raw_live(a, r1),
        raw_live(a, r2),
        raw_key(r1) == raw_key(r2),
    ensures
        r1 == r2,
{
    crate::handle::lemma_raw_fields_determine(r1, r2);
}

/// Slots holding level-0 nodes — the slots roots live in — keep their
/// reference counts across an operation: only such slots are guarded by
/// snapshot accounting.
pub open spec fn rc0_frame<T>(
    a2: SparceBufferRc<TrieNode<T>>,
    a1: SparceBufferRc<TrieNode<T>>,
) -> bool {
    forall|p: (int, int)|
        #[trigger] a1@.dom().contains(p) && a1@[p].level == 0 ==> a2.rc_at(p.0, p.1) == a1.rc_at(
            p.0,
            p.1,
        )
}

/// A batch of pending writes, applied in order by
/// [`Trie::ApplyCommit`]: the later of two writes to one key wins.
pub struct Commit<T> {
    pending_writes: Vec<(i64, T)>,
}

impl<T> View for Commit<T> {
    type V = Seq<(i64, T)>;

    closed spec fn view(&self) -> Seq<(i64, T)> {
        self.pending_writes@
    }
}

impl<T> Commit<T> {
    /// An empty batch.
    pub fn new() -> (r: Self)
        ensures
            r@ == Seq::<(i64, T)>::empty(),
    {
        Commit { pending_writes: Vec::new() }
    }

    /// Appends one pending write.
    pub fn write(&mut self, key: i64, value: T)
        ensures
            final(self)@ == old(self)@.push((key, value)),
    {
        self.pending_writes.push((key, value));
    }
}

/// The value the write batch leaves at `key`: the last write to that key,
/// if any.
pub open spec fn commit_find<T>(writes: Seq<(i64, T)>, key: i64) -> Option<T>
    decreases writes.len(),
{
    if writes.len() == 0 {
        None
    } else if writes.last().0 == key {
        Some(writes.last().1)
    } else {
        commit_find(writes.drop_last(), key)
    }
}

/// A versioned key/value store: a persistent trie whose nodes live in one
/// reference-counted arena and whose leaf values live in another.
pub struct Trie<T> {
    node_allocator: SparceBufferRc<TrieNode<T>>,
    data_allocator: SparceBufferRc<T>,
    root_node: handle_t<TrieNode<T>>,
    snaps: Ghost<Multiset<u16>>,
}

impl<T: Copy> Trie<T> {
    /// The raw handle value of the current root.
    pub closed spec fn spec_root(self) -> u16 {
        self.root_node.raw()
    }

    /// How many outstanding snapshots hold the root `raw`.
    pub closed spec fn snap_count(self, raw: u16) -> nat {
        self.snaps@.count(raw)
    }

    /// A root raw value that may be read through: the current root or one
    /// retained by an outstanding snapshot.
    pub open spec fn retained(self, raw: u16) -> bool {
        raw == self.spec_root() || self.snap_count(raw) > 0
    }

    /// The value version `raw` holds at `key`.
    pub closed spec fn read_at(self, raw: u16, key: i64) -> Option<T> {
        read_raw(self.node_allocator, self.data_allocator, raw, key)
    }

    /// The value a value handle resolves to.
    pub closed spec fn value_of(self, vh: handle_t<T>) -> T {
        self.data_allocator@[key_of(vh)]
    }

    /// How many node-arena slots are occupied.
    pub closed spec fn node_slots_used(self) -> nat {
        self.node_allocator@.dom().len()
    }

    /// How many data-arena slots are occupied.
    pub closed spec fn data_slots_used(self) -> nat {
        self.data_allocator@.dom().len()
    }

    /// The entry at byte `b` of the node the root raw value `raw` names.
    pub closed spec fn child_entry(self, raw: u16, b: int) -> TrieValue<T> {
        self.node_allocator@[raw_key(raw)].children@[b]
    }

    /// The value the current version holds at `key`.
    pub open spec fn read(self, key: i64) -> Option<T> {
        self.read_at(self.spec_root(), key)
    }

    /// Well-formedness: both arenas are well formed, the current root and
    /// every snapshotted root head a well-formed tree, and each such root
    /// slot's reference count covers the trie's own reference plus every
    /// outstanding snapshot.
    pub closed spec fn wf(self) -> bool {
        &&& self.node_allocator.wf()
        &&& self.data_allocator.wf()
        &&& node_ok(self.node_allocator, self.data_allocator, self.spec_root(), 0, Seq::empty())
        &&& self.node_allocator.rc_at(raw_key(self.spec_root()).0, raw_key(self.spec_root()).1)
            >= 1 + self.snaps@.count(self.spec_root())
        &&& 1 + self.snaps@.count(self.spec_root()) <= u64::MAX
        &&& forall|r: u16|
            #[trigger] self.snaps@.count(r) > 0 ==> node_ok(
                self.node_allocator,
                self.data_allocator,
                r,
                0,
                Seq::empty(),
            )
        &&& forall|r: u16|
            #[trigger] self.snaps@.count(r) > 0 ==> self.node_allocator.rc_at(
                raw_key(r).0,
                raw_key(r).1,
            ) >= self.snaps@.count(r) + if r == self.spec_root() {
                1int
            } else {
                0int
            } && self.snaps@.count(r) + 1 <= u64::MAX
    }

    /// Extending both arenas while keeping every root slot's count leaves
    /// the trie well formed and every retained version reading as before.
    proof fn lemma_wf_after_extend(t1: Trie<T>, t2: Trie<T>)
        requires
            t1.wf(),
            t2.node_allocator.wf(),
            t2.data_allocator.wf(),
            extends(t2.node_allocator, t1.node_allocator),
            extends(t2.data_allocator, t1.data_allocator),
            rc0_frame(t2.node_allocator, t1.node_allocator),
            t2.root_node == t1.root_node,
            t2.snaps == t1.snaps,
        ensures
            t2.wf(),
            forall|raw: u16, k: i64|
                t1.retained(raw) ==> #[trigger] t2.read_at(raw, k) == t1.read_at(raw, k),
    {
        assert forall|raw: u16, k: i64| t1.retained(raw) implies #[trigger] t2.read_at(raw, k)
            == t1.read_at(raw, k) by {
            lemma_read_frame_extend(
                t1.node_allocator,
                t2.node_allocator,
                t1.data_allocator,
                t2.data_allocator,
                raw,
            );
        }
        lemma_read_frame_extend(
            t1.node_allocator,
            t2.node_allocator,
            t1.data_allocator,
            t2.data_allocator,
            t1.spec_root(),
        );
        let rs = raw_key(t1.spec_root());
        assert(t1.node_allocator@.dom().contains(rs) && t1.node_allocator@[rs].level == 0);
        assert(t2.node_allocator.rc_at(rs.0, rs.1) == t1.node_allocator.rc_at(rs.0, rs.1));
        assert forall|raw: u16| #[trigger] t2.snaps@.count(raw) > 0 implies node_ok(
            t2.node_allocator,
            t2.data_allocator,
            raw,
            0,
            Seq::empty(),
        ) && t2.node_allocator.rc_at(raw_key(raw).0, raw_key(raw).1) >= t2.snaps@.count(raw)
            + if raw == t2.spec_root() {
            1int
        } else {
            0int
        } by {
            lemma_read_frame_extend(
                t1.node_allocator,
                t2.node_allocator,
                t1.data_allocator,
                t2.data_allocator,
                raw,
            );
            let p = raw_key(raw);
            assert(t1.node_allocator@.dom().contains(p) && t1.node_allocator@[p].level == 0);
            assert(t2.node_allocator.rc_at(p.0, p.1) == t1.node_allocator.rc_at(p.0, p.1));
        }
        assert(t2.wf());
    }

    /// A fresh trie: an empty root node and nothing stored.
    pub fn new() -> (r: Self)
        ensures
            r.wf(),
            forall|k: i64| r.read(k) is None,
            r.snap_count(r.spec_root()) == 0,
            forall|raw: u16| r.snap_count(raw) == 0,
    {
        let mut node_allocator: SparceBufferRc<TrieNode<T>> = SparceBufferRc::new();
        let data_allocator: SparceBufferRc<T> = SparceBufferRc::new();
        let mut children: Vec<TrieValue<T>> = Vec::new();
        let mut b: usize = 0;
        while b < 256
            invariant
                b <= 256,
                children@.len() == b,
                forall|j: int| 0 <= j < b ==> #[trigger] children@[j] is Empty,
            decreases 256 - b,
        {
            children.push(TrieValue::Empty);
            b += 1;
        }
        let root_node = node_allocator.Allocate(TrieNode { children, level: 0 });
        proof {
            lemma_full_dom();
            assert(!root_node.spec_is_null());
        }
        let r = Trie { node_allocator, data_allocator, root_node, snaps: Ghost(Multiset::empty()) };
        proof {
            assert(r.spec_root() == root_node.raw());
            assert(raw_key(r.spec_root()) == key_of(root_node));
            assert(node_ok(r.node_allocator, r.data_allocator, r.spec_root(), 0, Seq::empty()));
            assert forall|k: i64| r.read(k) is None by {
                assert(r.node_allocator@[raw_key(r.spec_root())].children@[key_byte(k, 0) as int]
                    is Empty);
            }
        }
        r
    }

    /// The current root.  The root's reference count is raised: the caller
    /// now retains this version, and it stays readable across later
    /// commits until released through [`Trie::ReleaseSnapshot`].
    pub fn Snapshot(&mut self) -> (r: handle_t<TrieNode<T>>)
        requires
            old(self).wf(),
            old(self).snap_count(old(self).spec_root()) + 2 <= u64::MAX,
        ensures
            final(self).wf(),
            r.raw() == old(self).spec_root(),
            final(self).spec_root() == old(self).spec_root(),
            final(self).snap_count(r.raw()) == old(self).snap_count(r.raw()) + 1,
            forall|raw: u16|
                raw != r.raw() ==> final(self).snap_count(raw) == old(self).snap_count(raw),
            forall|raw: u16, k: i64|
                old(self).retained(raw) ==> final(self).read_at(raw, k) == old(self).read_at(
                    raw,
                    k,
                ),
    {
        let r = self.root_node;
        proof {
            assert(raw_live(self.node_allocator, r.raw()));
            assert(self.node_allocator.live(r)) by {
                crate::handle::lemma_field_ranges(r.raw());
            }
        }
        self.node_allocator.BumpRef(r);
        proof {
            self.snaps@ = self.snaps@.insert(r.raw());
            old(self).node_allocator.lemma_dom_in_range();
            assert(extends(self.node_allocator, old(self).node_allocator));
            assert(extends(self.data_allocator, old(self).data_allocator));
            assert forall|raw: u16|
                #[trigger] self.snaps@.count(raw) > 0 implies node_ok(
                self.node_allocator,
                self.data_allocator,
                raw,
                0,
                Seq::empty(),
            ) by {
                if raw == r.raw() {
                    lemma_frame_extend(
                        old(self).node_allocator,
                        self.node_allocator,
                        old(self).data_allocator,
                        self.data_allocator,
                        raw,
                        0,
                        Seq::empty(),
                    );
                } else {
                    assert(old(self).snaps@.count(raw) > 0);
                    lemma_frame_extend(
                        old(self).node_allocator,
                        self.node_allocator,
                        old(self).data_allocator,
                        self.data_allocator,
                        raw,
                        0,
                        Seq::empty(),
                    );
                }
            }
            lemma_frame_extend(
                old(self).node_allocator,
                self.node_allocator,
                old(self).data_allocator,
                self.data_allocator,
                old(self).spec_root(),
                0,
                Seq::empty(),
            );
            assert forall|raw: u16, k: i64| old(self).retained(raw) implies self.read_at(raw, k)
                == old(self).read_at(raw, k) by {
                lemma_frame_extend(
                    old(self).node_allocator,
                    self.node_allocator,
                    old(self).data_allocator,
                    self.data_allocator,
                    raw,
                    0,
                    Seq::empty(),
                );
            }
            assert(self.wf());
        }
        r
    }

    /// Releases one retention of the version rooted at `h`, the explicit
    /// counterpart of [`Trie::Snapshot`].
    ///
    /// The root slot's reference count drops by one; when the count
    /// reaches zero — the version is neither the current one nor otherwise
    /// retained — the root's slot returns to the arena.  Every other
    /// retained version, and the current contents, read exactly as before.
    pub fn ReleaseSnapshot(&mut self, h: handle_t<TrieNode<T>>)
        requires
            old(self).wf(),
            old(self).snap_count(h.raw()) >= 1,
        ensures
            final(self).wf(),
            final(self).spec_root() == old(self).spec_root(),
            final(self).snap_count(h.raw()) == old(self).snap_count(h.raw()) - 1,
            forall|raw: u16|
                raw != h.raw() ==> final(self).snap_count(raw) == old(self).snap_count(raw),
            forall|k: i64| final(self).read(k) == old(self).read(k),
            forall|raw: u16, k: i64|
                old(self).snap_count(raw) > 0 && (raw != h.raw() || old(self).snap_count(raw) > 1)
                    ==> final(self).read_at(raw, k) == old(self).read_at(raw, k),
    {
        proof {
            self.snaps@ = self.snaps@.remove(h.raw());
        }
        let ghost t1x = Trie {
            node_allocator: old(self).node_allocator,
            data_allocator: old(self).data_allocator,
            root_node: old(self).root_node,
            snaps: Ghost(old(self).snaps@.remove(h.raw())),
        };
        let ghost mid = *self;
        proof {
            assert(node_ok(
                self.node_allocator,
                self.data_allocator,
                h.raw(),
                0,
                Seq::empty(),
            ));
            assert(self.node_allocator.live(h));
            old(self).node_allocator.lemma_dom_in_range();
        }
        let _ = self.node_allocator.Free(h);
        proof {
            let s = raw_key(h.raw());
            let rc0 = old(self).node_allocator.rc_at(s.0, s.1);
            let cnt = old(self).snaps@.count(h.raw());
            let extra: int = if h.raw() == old(self).spec_root() {
                1
            } else {
                0
            };
            assert(rc0 >= cnt + extra);
            // the ghost trie with one retention removed is well formed too
            assert(t1x.wf());
            if rc0 == 1 {
                // the last retention is gone and the version is not the
                // current one: its root slot is reclaimed
                assert(cnt == 1 && extra == 0);
                assert(self.node_allocator@ == mid.node_allocator@.remove(s));
                assert forall|raw: u16| raw == t1x.spec_root() || #[trigger] t1x.snaps@.count(raw)
                    > 0 implies raw_key(raw) != s && node_ok(
                    self.node_allocator,
                    self.data_allocator,
                    raw,
                    0,
                    Seq::empty(),
                ) && forall|k: i64|
                    #[trigger] read_raw(self.node_allocator, self.data_allocator, raw, k)
                        == read_raw(t1x.node_allocator, t1x.data_allocator, raw, k) by {
                    assert(node_ok(
                        t1x.node_allocator,
                        t1x.data_allocator,
                        raw,
                        0,
                        Seq::empty(),
                    ));
                    if raw_key(raw) == s {
                        lemma_live_same_slot(old(self).node_allocator, raw, h.raw());
                        assert(raw == h.raw());
                        if raw == t1x.spec_root() {
                            assert(extra == 1);
                        } else {
                            assert(t1x.snaps@.count(h.raw()) == 0);
                        }
                        assert(false);
                    }
                    lemma_read_frame_release(
                        mid.node_allocator,
                        self.node_allocator,
                        mid.data_allocator,
                        self.data_allocator,
                        s,
                        raw,
                    );
                }
                assert forall|raw: u16| #[trigger] self.snaps@.count(raw) > 0 implies self
                    .node_allocator.rc_at(raw_key(raw).0, raw_key(raw).1) >= self.snaps@.count(raw)
                    + if raw == self.spec_root() {
                    1int
                } else {
                    0int
                } by {
                    assert(raw_key(raw) != s) by {
                        if raw_key(raw) == s {
                            lemma_live_same_slot(old(self).node_allocator, raw, h.raw());
                        }
                    }
                    assert(self.node_allocator.rc_at(raw_key(raw).0, raw_key(raw).1) == old(
                        self,
                    ).node_allocator.rc_at(raw_key(raw).0, raw_key(raw).1));
                }
                assert(raw_key(self.spec_root()) != s);
                assert(self.node_allocator.rc_at(
                    raw_key(self.spec_root()).0,
                    raw_key(self.spec_root()).1,
                ) == old(self).node_allocator.rc_at(
                    raw_key(self.spec_root()).0,
                    raw_key(self.spec_root()).1,
                ));
                assert(self.wf());
            } else {
                // other retentions remain: only the count moves
                assert(extends(self.node_allocator, mid.node_allocator));
                assert(extends(self.node_allocator, t1x.node_allocator));
                assert forall|raw: u16| raw == t1x.spec_root() || #[trigger] t1x.snaps@.count(raw)
                    > 0 implies node_ok(
                    self.node_allocator,
                    self.data_allocator,
                    raw,
                    0,
                    Seq::empty(),
                ) && forall|k: i64|
                    #[trigger] read_raw(self.node_allocator, self.data_allocator, raw, k)
                        == read_raw(t1x.node_allocator, t1x.data_allocator, raw, k) by {
                    assert(node_ok(
                        t1x.node_allocator,
                        t1x.data_allocator,
                        raw,
                        0,
                        Seq::empty(),
                    ));
                    lemma_read_frame_extend(
                        t1x.node_allocator,
                        self.node_allocator,
                        t1x.data_allocator,
                        self.data_allocator,
                        raw,
                    );
                }
                assert forall|raw: u16| #[trigger] self.snaps@.count(raw) > 0 implies self
                    .node_allocator.rc_at(raw_key(raw).0, raw_key(raw).1) >= self.snaps@.count(raw)
                    + if raw == self.spec_root() {
                    1int
                } else {
                    0int
                } by {
                    if raw_key(raw) == s {
                        lemma_live_same_slot(old(self).node_allocator, raw, h.raw());
                        assert(raw == h.raw());
                        assert(self.node_allocator.rc_at(raw_key(raw).0, raw_key(raw).1) == rc0
                            - 1);
                    } else {
                        assert(self.node_allocator.rc_at(raw_key(raw).0, raw_key(raw).1) == old(
                            self,
                        ).node_allocator.rc_at(raw_key(raw).0, raw_key(raw).1));
                    }
                }
                if raw_key(self.spec_root()) == s {
                    lemma_live_same_slot(old(self).node_allocator, self.spec_root(), h.raw());
                }
                assert(self.wf());
            }
            assert forall|k: i64| final(self).read(k) == old(self).read(k) by {
                assert(old(self).spec_root() == t1x.spec_root());
            }
            assert forall|raw: u16, k: i64|
                old(self).snap_count(raw) > 0 && (raw != h.raw() || old(self).snap_count(raw)
                    > 1) implies #[trigger] final(self).read_at(raw, k) == old(self).read_at(
                raw,
                k,
            ) by {
                assert(t1x.snaps@.count(raw) > 0);
            }
        }
    }

    /// Reads the value the current version holds at `key`.
    pub fn get(&self, key: i64) -> (r: Option<&T>)
        requires
            self.wf(),
        ensures
            match r {
                Some(v) => self.read(key) == Some(*v),
                None => self.read(key) is None,
            },
    {
        self.get_node(self.root_node, key, Ghost(0), Ghost(Seq::empty()))
    }

    /// Reads the value a retained version — the current root or a live
    /// snapshot — holds at `key`.
    pub fn get_at(&self, root: handle_t<TrieNode<T>>, key: i64) -> (r: Option<&T>)
        requires
            self.wf(),
            self.retained(root.raw()),
        ensures
            match r {
                Some(v) => self.read_at(root.raw(), key) == Some(*v),
                None => self.read_at(root.raw(), key) is None,
            },
    {
        self.get_node(root, key, Ghost(0), Ghost(Seq::empty()))
    }

    /// Walks one subtree down the key's byte path.
    fn get_node(
        &self,
        h: handle_t<TrieNode<T>>,
        key: i64,
        Ghost(level): Ghost<int>,
        Ghost(pre): Ghost<Seq<int>>,
    ) -> (r: Option<&T>)
        requires
            self.node_allocator.wf(),
            self.data_allocator.wf(),
            node_ok(self.node_allocator, self.data_allocator, h.raw(), level, pre),
        ensures
            match r {
                Some(v) => trie_at(self.node_allocator, h.raw(), level, key) matches Some(vh)
                    && self.value_of(vh) == *v,
                None => trie_at(self.node_allocator, h.raw(), level, key) is None,
            },
        decreases 8 - level,
    {
        proof {
            crate::handle::lemma_field_ranges(h.raw());
            assert(self.node_allocator.live(h));
        }
        let node = match self.node_allocator.Get(h) {
            Ok(n) => n,
            Err(_) => {
                proof {
                    assert(false);
                }
                return None;
            },
        };
        let b = node.KeyIndex(key);
        match &node.children[b] {
            TrieValue::Empty => None,
            TrieValue::Leaf { key: lk, value } => {
                if *lk == key {
                    proof {
                        let vh = *value;
                        assert(raw_live(self.data_allocator, vh.raw()));
                        crate::handle::lemma_field_ranges(vh.raw());
                        assert(self.data_allocator.live(vh));
                    }
                    match self.data_allocator.Get(*value) {
                        Ok(v) => Some(v),
                        Err(_) => {
                            proof {
                                assert(false);
                            }
                            None
                        },
                    }
                } else {
                    None
                }
            },
            TrieValue::Trie(c) => {
                let ch = *c;
                self.get_node(ch, key, Ghost(level + 1), Ghost(pre.push(key_byte(key, level) as int)))
            },
        }
    }

    /// The child index `key` selects at byte position `level`.
    fn key_index(key: i64, level: u8) -> (b: usize)
        requires
            level <= 7,
        ensures
            b == key_byte(key, level as int),
            b < 256,
    {
        let sh: u64 = 8 * (level as u64);
        let b = (((key as u64) >> sh) & 0xff) as usize;
        proof {
            let k = key as u64;
            assert((k >> sh) & 0xff < 256) by (bit_vector);
        }
        b
    }

    /// The raw value handle a version resolves `key` to, with 0 for
    /// "nothing": the null root resolves nothing.
    pub closed spec fn side_raw(self, h: handle_t<TrieNode<T>>, key: i64) -> int {
        if h.spec_is_null() {
            0
        } else {
            match trie_at(self.node_allocator, h.raw(), 0, key) {
                Some(vh) => vh.raw() as int,
                None => 0,
            }
        }
    }

    /// The raw value handle one 256-entry layer resolves `key` to, with 0
    /// for "nothing".
    pub closed spec fn kids_raw(self, l: Seq<TrieValue<T>>, lvl: int, key: i64) -> int {
        match tv_at(self.node_allocator, l[key_byte(key, lvl) as int], lvl, key) {
            Some(vh) => vh.raw() as int,
            None => 0,
        }
    }

    /// The raw value handle one entry resolves `key` to, with 0 for
    /// "nothing".
    pub closed spec fn tv_raw(self, tv: TrieValue<T>, lvl: int, key: i64) -> int {
        match tv_at(self.node_allocator, tv, lvl, key) {
            Some(vh) => vh.raw() as int,
            None => 0,
        }
    }

    /// Expands one entry into the 256-entry layer one level down: a child
    /// node's entries, a lone leaf at its byte, or an all-empty layer.
    fn expand_entry(
        &self,
        tv: TrieValue<T>,
        lvl: u8,
        Ghost(pre): Ghost<Seq<int>>,
    ) -> (r: Vec<TrieValue<T>>)
        requires
            self.node_allocator.wf(),
            self.data_allocator.wf(),
            lvl <= 7,
            pre.len() == lvl,
            match tv {
                TrieValue::Empty => true,
                TrieValue::Leaf { key, value } => raw_live(
                    self.data_allocator,
                    value.raw(),
                ) && forall|l: int| 0 <= l < lvl ==> key_byte(key, l) == pre[l],
                TrieValue::Trie(c) => node_ok(
                    self.node_allocator,
                    self.data_allocator,
                    c.raw(),
                    lvl as int,
                    pre,
                ),
            },
        ensures
            r@.len() == 256,
            forall|b2: int|
                0 <= b2 < 256 ==> child_ok(
                    self.node_allocator,
                    self.data_allocator,
                    #[trigger] r@[b2],
                    b2,
                    lvl as int,
                    pre,
                ),
            tv is Trie ==> forall|k: i64|
                #[trigger] self.kids_raw(r@, lvl as int, k) == match trie_at(
                    self.node_allocator,
                    (tv->Trie_0).raw(),
                    lvl as int,
                    k,
                ) {
                    Some(vh) => vh.raw() as int,
                    None => 0,
                },
            !(tv is Trie) ==> forall|k: i64|
                #[trigger] self.kids_raw(r@, lvl as int, k) == self.tv_raw(tv, lvl as int - 1, k),
    {
        match tv {
            TrieValue::Empty => {
                let r = Self::empty_children();
                proof {
                    assert forall|k: i64| #[trigger] self.kids_raw(r@, lvl as int, k)
                        == self.tv_raw(tv, lvl as int - 1, k) by {
                        assert(r@[key_byte(k, lvl as int) as int] is Empty);
                    }
                }
                r
            },
            TrieValue::Leaf { key, value } => {
                let mut r = Self::empty_children();
                let bx = Self::key_index(key, lvl);
                r.set(bx, TrieValue::Leaf { key, value });
                proof {
                    assert forall|k: i64| #[trigger] self.kids_raw(r@, lvl as int, k)
                        == self.tv_raw(tv, lvl as int - 1, k) by {
                        let kb = key_byte(k, lvl as int) as int;
                        if kb == bx as int {
                            assert(r@[kb] == TrieValue::Leaf { key, value });
                        } else {
                            assert(r@[kb] is Empty);
                            assert(k != key);
                        }
                    }
                }
                r
            },
            TrieValue::Trie(c) => {
                proof {
                    assert(self.node_allocator.live(c));
                }
                let mut r: Vec<TrieValue<T>> = Vec::new();
                match self.node_allocator.Get(c) {
                    Ok(node) => {
                        let mut i: usize = 0;
                        while i < 256
                            invariant
                                i <= 256,
                                r@.len() == i,
                                node.children@.len() == 256,
                                forall|j: int| 0 <= j < i ==> r@[j] == node.children@[j],
                            decreases 256 - i,
                        {
                            r.push(node.children[i]);
                            i += 1;
                        }
                    },
                    Err(_) => {
                        proof {
                            assert(false);
                        }
                    },
                }
                proof {
                    assert(r@ =~= self.node_allocator@[raw_key(c.raw())].children@);
                    assert forall|k: i64| #[trigger] self.kids_raw(r@, lvl as int, k)
                        == match trie_at(self.node_allocator, c.raw(), lvl as int, k) {
                        Some(vh) => vh.raw() as int,
                        None => 0,
                    } by {
                        assert(trie_at(self.node_allocator, c.raw(), lvl as int, k) == tv_at(
                            self.node_allocator,
                            self.node_allocator@[raw_key(c.raw())].children@[key_byte(
                                k,
                                lvl as int,
                            ) as int],
                            lvl as int,
                            k,
                        ));
                    }
                }
                r
            },
        }
    }

    /// The differences one 256-entry layer shows against another, keys in
    /// ascending byte order at this level.
    fn diff_children(
        &self,
        la: &Vec<TrieValue<T>>,
        lb: &Vec<TrieValue<T>>,
        lvl: u8,
        Ghost(pre): Ghost<Seq<int>>,
    ) -> (r: Vec<(i64, handle_t<T>, handle_t<T>)>)
        requires
            self.node_allocator.wf(),
            self.data_allocator.wf(),
            lvl <= 7,
            pre.len() == lvl,
            la@.len() == 256,
            lb@.len() == 256,
            forall|b2: int|
                0 <= b2 < 256 ==> child_ok(
                    self.node_allocator,
                    self.data_allocator,
                    #[trigger] la@[b2],
                    b2,
                    lvl as int,
                    pre,
                ),
            forall|b2: int|
                0 <= b2 < 256 ==> child_ok(
                    self.node_allocator,
                    self.data_allocator,
                    #[trigger] lb@[b2],
                    b2,
                    lvl as int,
                    pre,
                ),
        ensures
            forall|i: int|
                0 <= i < r@.len() ==> {
                    let e = #[trigger] r@[i];
                    &&& self.kids_raw(la@, lvl as int, e.0) != self.kids_raw(lb@, lvl as int, e.0)
                    &&& e.1.raw() as int == self.kids_raw(la@, lvl as int, e.0)
                    &&& e.2.raw() as int == self.kids_raw(lb@, lvl as int, e.0)
                },
            forall|k: i64|
                self.kids_raw(la@, lvl as int, k) != self.kids_raw(lb@, lvl as int, k)
                    ==> exists|i: int| 0 <= i < r@.len() && (#[trigger] r@[i]).0 == k,
            forall|i: int, j: int| 0 <= i < j < r@.len() ==> (#[trigger] r@[i]).0 != (
            #[trigger] r@[j]).0,
        decreases 8 - lvl, 1int,
    {
        let mut acc: Vec<(i64, handle_t<T>, handle_t<T>)> = Vec::new();
        let mut b2: usize = 0;
        while b2 < 256
            invariant
                b2 <= 256,
                self.node_allocator.wf(),
                self.data_allocator.wf(),
                lvl <= 7,
                pre.len() == lvl,
                la@.len() == 256,
                lb@.len() == 256,
                forall|bb: int|
                    0 <= bb < 256 ==> child_ok(
                        self.node_allocator,
                        self.data_allocator,
                        #[trigger] la@[bb],
                        bb,
                        lvl as int,
                        pre,
                    ),
                forall|bb: int|
                    0 <= bb < 256 ==> child_ok(
                        self.node_allocator,
                        self.data_allocator,
                        #[trigger] lb@[bb],
                        bb,
                        lvl as int,
                        pre,
                    ),
                forall|i: int|
                    0 <= i < acc@.len() ==> {
                        let e = #[trigger] acc@[i];
                        &&& key_byte(e.0, lvl as int) < b2
                        &&& self.kids_raw(la@, lvl as int, e.0) != self.kids_raw(
                            lb@,
                            lvl as int,
                            e.0,
                        )
                        &&& e.1.raw() as int == self.kids_raw(la@, lvl as int, e.0)
                        &&& e.2.raw() as int == self.kids_raw(lb@, lvl as int, e.0)
                    },
                forall|k: i64|
                    key_byte(k, lvl as int) < b2 && self.kids_raw(la@, lvl as int, k)
                        != self.kids_raw(lb@, lvl as int, k) ==> exists|i: int|
                        0 <= i < acc@.len() && (#[trigger] acc@[i]).0 == k,
                forall|i: int, j: int|
                    0 <= i < j < acc@.len() ==> (#[trigger] acc@[i]).0 != (#[trigger] acc@[j]).0,
            decreases 256 - b2,
        {
            let ghost acc0 = acc@;
            let sub = self.diff_tv(la[b2], lb[b2], lvl, Ghost(b2 as int), Ghost(pre));
            let mut s: usize = 0;
            while s < sub.len()
                invariant
                    s <= sub.len(),
                    acc@.len() == acc0.len() + s,
                    forall|i: int| 0 <= i < acc0.len() ==> #[trigger] acc@[i] == acc0[i],
                    forall|i: int|
                        acc0.len() <= i < acc@.len() ==> #[trigger] acc@[i] == sub@[i - acc0.len()],
                decreases sub.len() - s,
            {
                let e = sub[s];
                acc.push(e);
                s += 1;
            }
            proof {
                let bi = b2 as int;
                assert forall|i: int| 0 <= i < acc@.len() implies {
                    let e = #[trigger] acc@[i];
                    &&& key_byte(e.0, lvl as int) < bi + 1
                    &&& self.kids_raw(la@, lvl as int, e.0) != self.kids_raw(lb@, lvl as int, e.0)
                    &&& e.1.raw() as int == self.kids_raw(la@, lvl as int, e.0)
                    &&& e.2.raw() as int == self.kids_raw(lb@, lvl as int, e.0)
                } by {
                    if i >= acc0.len() {
                        let e = sub@[i - acc0.len()];
                        assert(key_byte(e.0, lvl as int) == bi);
                        assert(self.kids_raw(la@, lvl as int, e.0) == self.tv_raw(
                            la@[bi],
                            lvl as int,
                            e.0,
                        ));
                        assert(self.kids_raw(lb@, lvl as int, e.0) == self.tv_raw(
                            lb@[bi],
                            lvl as int,
                            e.0,
                        ));
                    }
                }
                assert forall|k: i64|
                    key_byte(k, lvl as int) < bi + 1 && self.kids_raw(la@, lvl as int, k)
                        != self.kids_raw(lb@, lvl as int, k) implies exists|i: int|
                    0 <= i < acc@.len() && (#[trigger] acc@[i]).0 == k by {
                    if key_byte(k, lvl as int) == bi {
                        assert(self.kids_raw(la@, lvl as int, k) == self.tv_raw(
                            la@[bi],
                            lvl as int,
                            k,
                        ));
                        assert(self.kids_raw(lb@, lvl as int, k) == self.tv_raw(
                            lb@[bi],
                            lvl as int,
                            k,
                        ));
                        let i = choose|i: int| 0 <= i < sub@.len() && (#[trigger] sub@[i]).0 == k;
                        assert(acc@[acc0.len() + i].0 == k);
                    } else {
                        let i = choose|i: int| 0 <= i < acc0.len() && (#[trigger] acc0[i]).0 == k;
                        assert(acc@[i].0 == k);
                    }
                }
                assert forall|i: int, j: int| 0 <= i < j < acc@.len() implies (
                #[trigger] acc@[i]).0 != (#[trigger] acc@[j]).0 by {
                    if i < acc0.len() && j >= acc0.len() {
                        assert(key_byte(acc@[i].0, lvl as int) < bi);
                        assert(key_byte(acc@[j].0, lvl as int) == bi);
                    }
                }
            }
            b2 += 1;
        }
        acc
    }

    /// The differences one entry shows against another, at entry position
    /// `b` of a layer at `lvl`: every emitted key selects byte `b` here.
    /// Entries naming the same subtree on both sides are pruned whole —
    /// identical handles resolve every key identically.
    fn diff_tv(
        &self,
        ea: TrieValue<T>,
        eb: TrieValue<T>,
        lvl: u8,
        Ghost(b): Ghost<int>,
        Ghost(pre): Ghost<Seq<int>>,
    ) -> (r: Vec<(i64, handle_t<T>, handle_t<T>)>)
        requires
            self.node_allocator.wf(),
            self.data_allocator.wf(),
            lvl <= 7,
            pre.len() == lvl,
            0 <= b < 256,
            child_ok(self.node_allocator, self.data_allocator, ea, b, lvl as int, pre),
            child_ok(self.node_allocator, self.data_allocator, eb, b, lvl as int, pre),
        ensures
            forall|i: int|
                0 <= i < r@.len() ==> {
                    let e = #[trigger] r@[i];
                    &&& key_byte(e.0, lvl as int) == b
                    &&& self.tv_raw(ea, lvl as int, e.0) != self.tv_raw(eb, lvl as int, e.0)
                    &&& e.1.raw() as int == self.tv_raw(ea, lvl as int, e.0)
                    &&& e.2.raw() as int == self.tv_raw(eb, lvl as int, e.0)
                },
            forall|k: i64|
                self.tv_raw(ea, lvl as int, k) != self.tv_raw(eb, lvl as int, k) ==> exists|i: int|
                    0 <= i < r@.len() && (#[trigger] r@[i]).0 == k,
            forall|i: int, j: int| 0 <= i < j < r@.len() ==> (#[trigger] r@[i]).0 != (
            #[trigger] r@[j]).0,
        decreases 8 - lvl, 0int,
    {
        let is_trie = match (&ea, &eb) {
            (TrieValue::Trie(c1), TrieValue::Trie(c2)) => {
                if *c1 == *c2 {
                    // shared subtree: no key can differ below it
                    proof {
                        assert forall|k: i64| self.tv_raw(ea, lvl as int, k) == self.tv_raw(
                            eb,
                            lvl as int,
                            k,
                        ) by {
                            assert(c1.raw() == c2.raw());
                        }
                    }
                    return Vec::new();
                }
                true
            },
            (TrieValue::Trie(_), _) => true,
            (_, TrieValue::Trie(_)) => true,
            _ => false,
        };
        if is_trie {
            proof {
                assert(lvl < 7);
            }
            let la = self.expand_entry(ea, lvl + 1, Ghost(pre.push(b)));
            let lb = self.expand_entry(eb, lvl + 1, Ghost(pre.push(b)));
            let r = self.diff_children(&la, &lb, lvl + 1, Ghost(pre.push(b)));
            proof {
                assert forall|k: i64| #[trigger] self.kids_raw(la@, lvl + 1, k) == self.tv_raw(
                    ea,
                    lvl as int,
                    k,
                ) by {}
                assert forall|k: i64| #[trigger] self.kids_raw(lb@, lvl + 1, k) == self.tv_raw(
                    eb,
                    lvl as int,
                    k,
                ) by {}
                assert forall|k: i64|
                    self.tv_raw(ea, lvl as int, k) != self.tv_raw(eb, lvl as int, k) implies exists|
                    i: int,
                |
                    0 <= i < r@.len() && (#[trigger] r@[i]).0 == k by {
                    assert(self.kids_raw(la@, lvl + 1, k) != self.kids_raw(lb@, lvl + 1, k));
                }
                assert forall|i: int| 0 <= i < r@.len() implies key_byte(
                    (#[trigger] r@[i]).0,
                    lvl as int,
                ) == b by {
                    let e = r@[i];
                    assert(self.kids_raw(la@, lvl + 1, e.0) != self.kids_raw(lb@, lvl + 1, e.0));
                    assert(self.tv_raw(ea, lvl as int, e.0) != self.tv_raw(eb, lvl as int, e.0));
                    assert(key_byte(e.0, lvl as int) == b) by {
                        if key_byte(e.0, lvl as int) != b {
                            assert(self.tv_raw(ea, lvl as int, e.0) == 0 && self.tv_raw(
                                eb,
                                lvl as int,
                                e.0,
                            ) == 0) by {
                                match ea {
                                    TrieValue::Empty => {},
                                    TrieValue::Leaf { key, value } => {
                                        assert(key_byte(key, lvl as int) == b);
                                    },
                                    TrieValue::Trie(c1) => {
                                        lemma_off_byte_none(
                                            self.node_allocator,
                                            self.data_allocator,
                                            c1.raw(),
                                            lvl + 1,
                                            pre.push(b),
                                            e.0,
                                            lvl as int,
                                        );
                                    },
                                }
                                match eb {
                                    TrieValue::Empty => {},
                                    TrieValue::Leaf { key, value } => {
                                        assert(key_byte(key, lvl as int) == b);
                                    },
                                    TrieValue::Trie(c2) => {
                                        lemma_off_byte_none(
                                            self.node_allocator,
                                            self.data_allocator,
                                            c2.raw(),
                                            lvl + 1,
                                            pre.push(b),
                                            e.0,
                                            lvl as int,
                                        );
                                    },
                                }
                            }
                        }
                    }
                }
            }
            r
        } else {
            match (ea, eb) {
                (TrieValue::Empty, TrieValue::Empty) => Vec::new(),
                (TrieValue::Leaf { key: k1, value: v1 }, TrieValue::Empty) => {
                    let mut r: Vec<(i64, handle_t<T>, handle_t<T>)> = Vec::new();
                    r.push((k1, v1, handle_t::null()));
                    proof {
                        assert(r@[0].0 == k1);
                        assert forall|k: i64|
                            self.tv_raw(ea, lvl as int, k) != self.tv_raw(
                                eb,
                                lvl as int,
                                k,
                            ) implies exists|i: int|
                            0 <= i < r@.len() && (#[trigger] r@[i]).0 == k by {
                            assert(k == k1);
                        }
                    }
                    r
                },
                (TrieValue::Empty, TrieValue::Leaf { key: k2, value: v2 }) => {
                    let mut r: Vec<(i64, handle_t<T>, handle_t<T>)> = Vec::new();
                    r.push((k2, handle_t::null(), v2));
                    proof {
                        assert(r@[0].0 == k2);
                        assert forall|k: i64|
                            self.tv_raw(ea, lvl as int, k) != self.tv_raw(
                                eb,
                                lvl as int,
                                k,
                            ) implies exists|i: int|
                            0 <= i < r@.len() && (#[trigger] r@[i]).0 == k by {
                            assert(k == k2);
                        }
                    }
                    r
                },
                (
                    TrieValue::Leaf { key: k1, value: v1 },
                    TrieValue::Leaf { key: k2, value: v2 },
                ) => {
                    let mut r: Vec<(i64, handle_t<T>, handle_t<T>)> = Vec::new();
                    if k1 == k2 {
                        if !(v1 == v2) {
                            r.push((k1, v1, v2));
                            proof {
                                assert(r@[0].0 == k1);
                            }
                        }
                        proof {
                            assert forall|k: i64|
                                self.tv_raw(ea, lvl as int, k) != self.tv_raw(
                                    eb,
                                    lvl as int,
                                    k,
                                ) implies exists|i: int|
                                0 <= i < r@.len() && (#[trigger] r@[i]).0 == k by {
                                assert(k == k1);
                                assert(r@[0].0 == k);
                            }
                        }
                    } else {
                        r.push((k1, v1, handle_t::null()));
                        r.push((k2, handle_t::null(), v2));
                        proof {
                            assert(r@[0].0 == k1 && r@[1].0 == k2);
                            assert forall|k: i64|
                                self.tv_raw(ea, lvl as int, k) != self.tv_raw(
                                    eb,
                                    lvl as int,
                                    k,
                                ) implies exists|i: int|
                                0 <= i < r@.len() && (#[trigger] r@[i]).0 == k by {
                                assert(k == k1 || k == k2);
                            }
                        }
                    }
                    r
                },
                _ => {
                    proof {
                        assert(false);
                    }
                    Vec::new()
                },
            }
        }
    }

    /// The differences between two versions, at the level of value
    /// handles: one entry `(key, left, right)` for every key the two roots
    /// resolve to different value handles, with the null handle standing
    /// for "absent".  A null root on either side stands for the empty
    /// version, so everything on the other side is reported.  Subtrees the
    /// two versions share — the same node handle — are pruned whole, the
    /// payoff of structural sharing.  Keys come out in ascending byte-path
    /// order, least significant byte first.
    pub fn diff(
        &self,
        a: handle_t<TrieNode<T>>,
        b: handle_t<TrieNode<T>>,
    ) -> (r: Vec<(i64, handle_t<T>, handle_t<T>)>)
        requires
            self.wf(),
            a.spec_is_null() || self.retained(a.raw()),
            b.spec_is_null() || self.retained(b.raw()),
        ensures
            forall|i: int|
                0 <= i < r@.len() ==> {
                    let e = #[trigger] r@[i];
                    &&& self.side_raw(a, e.0) != self.side_raw(b, e.0)
                    &&& e.1.raw() as int == self.side_raw(a, e.0)
                    &&& e.2.raw() as int == self.side_raw(b, e.0)
                },
            forall|k: i64|
                self.side_raw(a, k) != self.side_raw(b, k) ==> exists|i: int|
                    0 <= i < r@.len() && (#[trigger] r@[i]).0 == k,
            forall|i: int, j: int| 0 <= i < j < r@.len() ==> (#[trigger] r@[i]).0 != (
            #[trigger] r@[j]).0,
    {
        if a == b {
            proof {
                assert(forall|k: i64| self.side_raw(a, k) == self.side_raw(b, k));
            }
            return Vec::new();
        }
        let ta = if a.IsNull() {
            TrieValue::Empty
        } else {
            TrieValue::Trie(a)
        };
        let tb = if b.IsNull() {
            TrieValue::Empty
        } else {
            TrieValue::Trie(b)
        };
        let la = self.expand_entry(ta, 0, Ghost(Seq::empty()));
        let lb = self.expand_entry(tb, 0, Ghost(Seq::empty()));
        let r = self.diff_children(&la, &lb, 0, Ghost(Seq::empty()));
        proof {
            assert forall|k: i64| #[trigger] self.kids_raw(la@, 0, k) == self.side_raw(a, k) by {
                if a.spec_is_null() {
                    assert(self.tv_raw(TrieValue::Empty, -1, k) == 0);
                }
            }
            assert forall|k: i64| #[trigger] self.kids_raw(lb@, 0, k) == self.side_raw(b, k) by {
                if b.spec_is_null() {
                    assert(self.tv_raw(TrieValue::Empty, -1, k) == 0);
                }
            }
            assert forall|k: i64|
                self.side_raw(a, k) != self.side_raw(b, k) implies exists|i: int|
                0 <= i < r@.len() && (#[trigger] r@[i]).0 == k by {
                assert(self.kids_raw(la@, 0, k) != self.kids_raw(lb@, 0, k));
            }
        }
        r
    }

    /// Invokes `cb` once for every key whose value differs between the two
    /// versions — `a` the pre-image, `b` the post-image — handing it the
    /// key and the two value handles, the null handle standing for
    /// "absent".  The differences themselves are exactly those of
    /// [`Trie::diff`].
    pub fn Diff<F: FnMut(i64, handle_t<T>, handle_t<T>)>(
        &self,
        a: handle_t<TrieNode<T>>,
        b: handle_t<TrieNode<T>>,
        cb: F,
    )
        requires
            self.wf(),
            a.spec_is_null() || self.retained(a.raw()),
            b.spec_is_null() || self.retained(b.raw()),
            forall|k: i64, x: handle_t<T>, y: handle_t<T>| #[trigger] cb.requires((k, x, y)),
    {
        let mut cb = cb;
        let entries = self.diff(a, b);
        let mut i: usize = 0;
        while i < entries.len()
            invariant
                forall|k: i64, x: handle_t<T>, y: handle_t<T>| #[trigger] cb.requires((k, x, y)),
            decreases entries.len() - i,
        {
            let e = entries[i];
            cb(e.0, e.1, e.2);
            i += 1;
        }
    }

    /// Folds a batch of pending writes into a brand-new root and installs
    /// it as the current version.
    ///
    /// The returned handle is the fresh root; the batch's writes are
    /// applied in order, the later of two writes to one key winning, and
    /// every key the batch does not touch reads exactly as before.  A
    /// version retained through [`Trie::Snapshot`] keeps all its readings.
    /// Entries the written keys do not select at the root are shared — the
    /// same child handles — between the old and the new root.  The
    /// superseded root's slot is released unless a snapshot still holds
    /// it.  The null handle reports arena exhaustion: the batch then needed
    /// more slots than the arenas had left, and the trie stands unchanged.
    #[verifier::rlimit(100)]
    pub fn ApplyCommit(&mut self, commit: Commit<T>) -> (r: handle_t<TrieNode<T>>)
        requires
            old(self).wf(),
        ensures
            final(self).wf(),
            forall|raw: u16| final(self).snap_count(raw) == old(self).snap_count(raw),
            forall|raw: u16, k: i64|
                old(self).snap_count(raw) > 0 ==> final(self).read_at(raw, k) == old(self).read_at(
                    raw,
                    k,
                ),
            r.spec_is_null() ==> {
                &&& final(self).spec_root() == old(self).spec_root()
                &&& forall|k: i64| final(self).read(k) == old(self).read(k)
                &&& old(self).node_slots_used() + 1 + 16 * commit@.len() >= 255 * 32 || old(
                    self,
                ).data_slots_used() + commit@.len() >= 255 * 32
            },
            !r.spec_is_null() ==> {
                &&& final(self).spec_root() == r.raw()
                &&& r.raw() != old(self).spec_root()
                &&& forall|k: i64|
                    final(self).read(k) == match commit_find(commit@, k) {
                        Some(v) => Some(v),
                        None => old(self).read(k),
                    }
                &&& forall|bb: int|
                    0 <= bb < 256 && (forall|j: int|
                        0 <= j < commit@.len() ==> key_byte(#[trigger] commit@[j].0, 0) as int
                            != bb) ==> final(self).child_entry(final(self).spec_root(), bb) == old(
                        self,
                    ).child_entry(old(self).spec_root(), bb)
            },
    {
        let mut cur = self.CopyNode(self.root_node, Ghost(0), Ghost(Seq::empty()));
        proof {
            lemma_full_dom();
            old(self).node_allocator.lemma_view_in_full_dom();
            old(self).data_allocator.lemma_view_in_full_dom();
            assert forall|raw: u16| old(self).retained(raw) implies node_ok(
                self.node_allocator,
                self.data_allocator,
                raw,
                0,
                Seq::empty(),
            ) && forall|k: i64|
                #[trigger] read_raw(self.node_allocator, self.data_allocator, raw, k) == old(
                self,
            ).read_at(raw, k) by {
                lemma_read_frame_extend(
                    old(self).node_allocator,
                    self.node_allocator,
                    old(self).data_allocator,
                    self.data_allocator,
                    raw,
                );
            }
            if cur.spec_is_null() {
                assert(old(self).node_allocator@.dom().len() + 1 >= 255 * 32);
                assert(16 * commit@.len() >= 0);
                Self::lemma_wf_after_extend(*old(self), *self);
            }
        }
        if cur.IsNull() {
            return cur;
        }
        proof {
            assert(old(self).retained(old(self).spec_root()));
            assert forall|k: i64|
                #[trigger] read_raw(self.node_allocator, self.data_allocator, cur.raw(), k) == old(
                self,
            ).read(k) by {
                assert(trie_at(self.node_allocator, cur.raw(), 0, k) == trie_at(
                    old(self).node_allocator,
                    old(self).spec_root(),
                    0,
                    k,
                ));
                if trie_at(old(self).node_allocator, old(self).spec_root(), 0, k) is Some {
                    lemma_trie_at_live(
                        old(self).node_allocator,
                        old(self).data_allocator,
                        old(self).spec_root(),
                        0,
                        Seq::empty(),
                        k,
                    );
                }
            }
            assert(commit.pending_writes@.take(0) =~= Seq::<(i64, T)>::empty());
        }
        let mut i: usize = 0;
        let ghost w = commit.pending_writes@;
        while i < commit.pending_writes.len()
            invariant
                i <= commit.pending_writes.len(),
                commit.pending_writes@ == w,
                old(self).wf(),
                self.node_allocator.wf(),
                self.data_allocator.wf(),
                extends(self.node_allocator, old(self).node_allocator),
                extends(self.data_allocator, old(self).data_allocator),
                rc0_frame(self.node_allocator, old(self).node_allocator),
                self.root_node == old(self).root_node,
                self.snaps == old(self).snaps,
                node_ok(self.node_allocator, self.data_allocator, cur.raw(), 0, Seq::empty()),
                self.node_allocator@[raw_key(cur.raw())].level == 0,
                self.node_allocator.rc_at(raw_key(cur.raw()).0, raw_key(cur.raw()).1) == 1,
                !old(self).node_allocator@.dom().contains(raw_key(cur.raw())),
                self.node_allocator@.dom().len() <= old(self).node_allocator@.dom().len() + 1 + 16
                    * i,
                self.data_allocator@.dom().len() <= old(self).data_allocator@.dom().len() + i,
                forall|k: i64|
                    #[trigger] read_raw(self.node_allocator, self.data_allocator, cur.raw(), k)
                        == match commit_find(w.take(i as int), k) {
                        Some(v) => Some(v),
                        None => old(self).read(k),
                    },
                forall|raw: u16|
                    #[trigger] old(self).retained(raw) ==> node_ok(
                        self.node_allocator,
                        self.data_allocator,
                        raw,
                        0,
                        Seq::empty(),
                    ),
                forall|raw: u16, k: i64|
                    old(self).retained(raw) ==> #[trigger] read_raw(
                        self.node_allocator,
                        self.data_allocator,
                        raw,
                        k,
                    ) == old(self).read_at(raw, k),
                forall|bb: int|
                    0 <= bb < 256 && (forall|j: int|
                        0 <= j < i ==> key_byte(#[trigger] w[j].0, 0) as int != bb)
                        ==> self.node_allocator@[raw_key(cur.raw())].children@[bb] == old(
                        self,
                    ).node_allocator@[raw_key(old(self).spec_root())].children@[bb],
            decreases commit.pending_writes.len() - i,
        {
            let kv = commit.pending_writes[i];
            let ghost prev = *self;
            let ghost prev_cur = cur;
            let next = self.put_from(cur, kv.0, kv.1);
            proof {
                assert forall|raw: u16| old(self).retained(raw) implies node_ok(
                    self.node_allocator,
                    self.data_allocator,
                    raw,
                    0,
                    Seq::empty(),
                ) && forall|k: i64|
                    #[trigger] read_raw(self.node_allocator, self.data_allocator, raw, k) == old(
                    self,
                ).read_at(raw, k) by {
                    lemma_read_frame_extend(
                        prev.node_allocator,
                        self.node_allocator,
                        prev.data_allocator,
                        self.data_allocator,
                        raw,
                    );
                }
            }
            if next.IsNull() {
                proof {
                    lemma_full_dom();
                    if self.node_allocator@.dom() == full_dom() {
                        assert(self.node_allocator@.dom().len() == 255 * 32);
                        assert(old(self).node_allocator@.dom().len() + 1 + 16 * (i + 1) >= 255
                            * 32);
                        assert(16 * (i + 1) <= 16 * commit@.len()) by (nonlinear_arith)
                            requires
                                i + 1 <= commit@.len(),
                        ;
                    } else {
                        assert(self.data_allocator@.dom().len() == 255 * 32);
                    }
                    Self::lemma_wf_after_extend(*old(self), *self);
                }
                return handle_t::null();
            }
            // the superseded intermediate version dies here: give its root
            // slot back to the arena
            let ghost mid2 = *self;
            let _ = self.node_allocator.Free(cur);
            proof {
                let s = raw_key(prev_cur.raw());
                old(self).node_allocator.lemma_dom_in_range();
                prev.node_allocator.lemma_dom_in_range();
                mid2.node_allocator.lemma_dom_in_range();
                assert(prev.node_allocator@.dom().contains(s));
                assert(prev.node_allocator@[s].level == 0);
                assert(mid2.node_allocator.live(prev_cur));
                assert(mid2.node_allocator.rc_at(s.0, s.1) == 1);
                assert(self.node_allocator@ == mid2.node_allocator@.remove(s));
                assert(extends(self.node_allocator, old(self).node_allocator));
                assert(rc0_frame(self.node_allocator, old(self).node_allocator));
                assert(raw_key(next.raw()) != s);
                lemma_read_frame_release(
                    mid2.node_allocator,
                    self.node_allocator,
                    mid2.data_allocator,
                    self.data_allocator,
                    s,
                    next.raw(),
                );
                assert forall|raw: u16| old(self).retained(raw) implies node_ok(
                    self.node_allocator,
                    self.data_allocator,
                    raw,
                    0,
                    Seq::empty(),
                ) && forall|k: i64|
                    #[trigger] read_raw(self.node_allocator, self.data_allocator, raw, k) == old(
                    self,
                ).read_at(raw, k) by {
                    assert(raw_key(raw) != s);
                    lemma_read_frame_release(
                        mid2.node_allocator,
                        self.node_allocator,
                        mid2.data_allocator,
                        self.data_allocator,
                        s,
                        raw,
                    );
                }
                // the folded reads move one write forward
                assert(w.take(i + 1).drop_last() =~= w.take(i as int));
                assert(w.take(i + 1).last() == (kv.0, kv.1));
                assert forall|k: i64|
                    #[trigger] read_raw(self.node_allocator, self.data_allocator, next.raw(), k)
                        == match commit_find(w.take(i + 1), k) {
                    Some(v) => Some(v),
                    None => old(self).read(k),
                } by {
                    if k == kv.0 {
                        assert(read_raw(
                            self.node_allocator,
                            self.data_allocator,
                            next.raw(),
                            k,
                        ) == Some(kv.1));
                    } else {
                        assert(read_raw(mid2.node_allocator, mid2.data_allocator, next.raw(), k)
                            == read_raw(prev.node_allocator, prev.data_allocator, prev_cur.raw(), k));
                    }
                }
            }
            proof {
                let ns = raw_key(next.raw());
                mid2.node_allocator.lemma_view_in_full_dom();
                assert(self.node_allocator@.dom() =~= mid2.node_allocator@.dom().remove(
                    raw_key(prev_cur.raw()),
                ));
                assert(self.node_allocator@.dom().len() == mid2.node_allocator@.dom().len() - 1);
                assert(!old(self).node_allocator@.dom().contains(ns)) by {
                    if old(self).node_allocator@.dom().contains(ns) {
                        assert(prev.node_allocator@.dom().contains(ns));
                    }
                }
                assert(ns != raw_key(prev_cur.raw()));
                assert(self.node_allocator@[ns].level == 0);
                assert(self.node_allocator.rc_at(ns.0, ns.1) == 1);
            }
            cur = next;
            i += 1;
        }
        // install the new version: the old root loses the trie's own
        // reference and is reclaimed unless a snapshot retains it
        let ghost pre_fin = *self;
        let ghost old_root_raw = old(self).spec_root();
        let freed = self.node_allocator.Free(self.root_node);
        proof {
            assert(w.take(commit.pending_writes@.len() as int) =~= commit@);
            let s = raw_key(old_root_raw);
            old(self).node_allocator.lemma_dom_in_range();
            pre_fin.node_allocator.lemma_dom_in_range();
            assert(pre_fin.node_allocator@.dom().contains(s));
            assert(pre_fin.node_allocator@[s].level == 0);
            assert(pre_fin.node_allocator.live(old(self).root_node));
            let rc0 = pre_fin.node_allocator.rc_at(s.0, s.1);
            assert(rc0 == old(self).node_allocator.rc_at(s.0, s.1));
            assert(rc0 >= 1 + old(self).snaps@.count(old_root_raw));
            if rc0 == 1 {
                // no snapshot holds the superseded root: its slot is gone
                assert(old(self).snaps@.count(old_root_raw) == 0);
                assert(self.node_allocator@ == pre_fin.node_allocator@.remove(s));
                assert(raw_key(cur.raw()) != s);
                lemma_read_frame_release(
                    pre_fin.node_allocator,
                    self.node_allocator,
                    pre_fin.data_allocator,
                    self.data_allocator,
                    s,
                    cur.raw(),
                );
                assert forall|raw: u16| old(self).snaps@.count(raw) > 0 implies node_ok(
                    self.node_allocator,
                    self.data_allocator,
                    raw,
                    0,
                    Seq::empty(),
                ) && forall|k: i64|
                    #[trigger] read_raw(self.node_allocator, self.data_allocator, raw, k) == old(
                    self,
                ).read_at(raw, k) by {
                    assert(old(self).retained(raw));
                    if raw_key(raw) == s {
                        lemma_live_same_slot(pre_fin.node_allocator, raw, old_root_raw);
                        assert(raw == old_root_raw);
                        assert(false);
                    }
                    lemma_read_frame_release(
                        pre_fin.node_allocator,
                        self.node_allocator,
                        pre_fin.data_allocator,
                        self.data_allocator,
                        s,
                        raw,
                    );
                }
            } else {
                assert(extends(self.node_allocator, pre_fin.node_allocator));
                lemma_read_frame_extend(
                    pre_fin.node_allocator,
                    self.node_allocator,
                    pre_fin.data_allocator,
                    self.data_allocator,
                    cur.raw(),
                );
                assert forall|raw: u16| old(self).snaps@.count(raw) > 0 implies node_ok(
                    self.node_allocator,
                    self.data_allocator,
                    raw,
                    0,
                    Seq::empty(),
                ) && forall|k: i64|
                    #[trigger] read_raw(self.node_allocator, self.data_allocator, raw, k) == old(
                    self,
                ).read_at(raw, k) by {
                    assert(old(self).retained(raw));
                    lemma_read_frame_extend(
                        pre_fin.node_allocator,
                        self.node_allocator,
                        pre_fin.data_allocator,
                        self.data_allocator,
                        raw,
                    );
                }
            }
        }
        self.root_node = cur;
        proof {
            // the fresh root is no snapshot: a snapshotted raw value is
            // live in the old state, and the fresh slot was not
            assert forall|raw: u16| #[trigger] self.snaps@.count(raw) > 0 implies raw
                != cur.raw() by {
                assert(node_ok(
                    old(self).node_allocator,
                    old(self).data_allocator,
                    raw,
                    0,
                    Seq::empty(),
                ));
                assert(old(self).node_allocator@.dom().contains(raw_key(raw)));
            }
            assert(self.snaps@.count(cur.raw()) == 0);
            assert(raw_key(cur.raw()) != raw_key(old_root_raw));
            assert(pre_fin.node_allocator@.dom().contains(raw_key(cur.raw())));
            assert(self.node_allocator.rc_at(raw_key(cur.raw()).0, raw_key(cur.raw()).1) == 1);
            // the counts of the remaining snapshot roots are still covered
            assert forall|raw: u16| #[trigger] self.snaps@.count(raw) > 0 implies self
                .node_allocator.rc_at(raw_key(raw).0, raw_key(raw).1) >= self.snaps@.count(raw)
                + if raw == self.spec_root() {
                1int
            } else {
                0int
            } by {
                if raw == old_root_raw {
                    assert(self.node_allocator.rc_at(raw_key(raw).0, raw_key(raw).1) >= old(
                        self,
                    ).node_allocator.rc_at(raw_key(raw).0, raw_key(raw).1) - 1);
                } else {
                    assert(raw_key(raw) != raw_key(old_root_raw)) by {
                        if raw_key(raw) == raw_key(old_root_raw) {
                            lemma_live_same_slot(pre_fin.node_allocator, raw, old_root_raw);
                        }
                    }
                    assert(self.node_allocator.rc_at(raw_key(raw).0, raw_key(raw).1) == old(
                        self,
                    ).node_allocator.rc_at(raw_key(raw).0, raw_key(raw).1));
                }
            }
            assert(self.wf());
        }
        cur
    }

    /// Writes one key into the version rooted at `root`, producing a fresh
    /// root whose tree holds the new value and shares every untouched
    /// subtree with the old one.  The null handle reports a full arena; the
    /// trie's contents are then untouched.
    fn put_from(
        &mut self,
        root: handle_t<TrieNode<T>>,
        key: i64,
        value: T,
    ) -> (r: handle_t<TrieNode<T>>)
        requires
            old(self).node_allocator.wf(),
            old(self).data_allocator.wf(),
            node_ok(
                old(self).node_allocator,
                old(self).data_allocator,
                root.raw(),
                0,
                Seq::empty(),
            ),
        ensures
            final(self).node_allocator.wf(),
            final(self).data_allocator.wf(),
            extends(final(self).node_allocator, old(self).node_allocator),
            extends(final(self).data_allocator, old(self).data_allocator),
            final(self).root_node == old(self).root_node,
            final(self).snaps == old(self).snaps,
            rc0_frame(final(self).node_allocator, old(self).node_allocator),
            final(self).node_allocator@.dom().len() <= old(self).node_allocator@.dom().len() + 16,
            final(self).data_allocator@.dom().len() <= old(self).data_allocator@.dom().len() + 1,
            r.spec_is_null() ==> final(self).node_allocator@.dom() == full_dom() || final(self).data_allocator@.dom() == full_dom(),
            !r.spec_is_null() ==> {
                &&& node_ok(
                    final(self).node_allocator,
                    final(self).data_allocator,
                    r.raw(),
                    0,
                    Seq::empty(),
                )
                &&& !old(self).node_allocator@.dom().contains(raw_key(r.raw()))
                &&& final(self).node_allocator@[raw_key(r.raw())].level == 0
                &&& final(self).node_allocator.rc_at(raw_key(r.raw()).0, raw_key(r.raw()).1) == 1
                &&& forall|k: i64|
                    k != key ==> #[trigger] read_raw(
                        final(self).node_allocator,
                        final(self).data_allocator,
                        r.raw(),
                        k,
                    ) == read_raw(
                        old(self).node_allocator,
                        old(self).data_allocator,
                        root.raw(),
                        k,
                    )
                &&& read_raw(
                    final(self).node_allocator,
                    final(self).data_allocator,
                    r.raw(),
                    key,
                ) == Some(value)
                &&& forall|bb: int|
                    0 <= bb < 256 && bb != key_byte(key, 0) as int ==> final(self).node_allocator@[raw_key(r.raw())].children@[bb] == old(self).node_allocator@[raw_key(root.raw())].children@[bb]
            },
    {
        let vh = self.data_allocator.Allocate(value);
        if vh.IsNull() {
            return handle_t::null();
        }
        let ghost mid = *self;
        proof {
            old(self).data_allocator.lemma_dom_in_range();
            old(self).data_allocator.lemma_view_in_full_dom();
            assert(extends(mid.data_allocator, old(self).data_allocator));
            assert(mid.data_allocator@.dom() =~= old(self).data_allocator@.dom().insert(
                key_of(vh),
            ));
            lemma_frame_extend(
                old(self).node_allocator,
                mid.node_allocator,
                old(self).data_allocator,
                mid.data_allocator,
                root.raw(),
                0,
                Seq::empty(),
            );
            assert(raw_live(mid.data_allocator, vh.raw()));
        }
        let r = self.put_rec(root, key, vh, Ghost(0), Ghost(Seq::empty()));
        proof {
            assert(extends(self.data_allocator, old(self).data_allocator));
            if !r.spec_is_null() {
                assert(self.data_allocator@[raw_key(vh.raw())] == value);
                assert forall|k: i64| k != key implies #[trigger] read_raw(
                    self.node_allocator,
                    self.data_allocator,
                    r.raw(),
                    k,
                ) == read_raw(
                    old(self).node_allocator,
                    old(self).data_allocator,
                    root.raw(),
                    k,
                ) by {
                    assert(trie_at(self.node_allocator, r.raw(), 0, k) == trie_at(
                        mid.node_allocator,
                        root.raw(),
                        0,
                        k,
                    ));
                    assert(trie_at(mid.node_allocator, root.raw(), 0, k) == trie_at(
                        old(self).node_allocator,
                        root.raw(),
                        0,
                        k,
                    ));
                    if trie_at(old(self).node_allocator, root.raw(), 0, k) is Some {
                        let ovh = trie_at(old(self).node_allocator, root.raw(), 0, k)->Some_0;
                        lemma_trie_at_live(
                            old(self).node_allocator,
                            old(self).data_allocator,
                            root.raw(),
                            0,
                            Seq::empty(),
                            k,
                        );
                        assert(self.data_allocator@[raw_key(ovh.raw())] == old(self).data_allocator@[raw_key(ovh.raw())]);
                    }
                }
            }
        }
        r
    }

    /// A fresh 256-entry children array, all entries empty.
    fn empty_children() -> (r: Vec<TrieValue<T>>)
        ensures
            r@.len() == 256,
            forall|j: int| 0 <= j < 256 ==> #[trigger] r@[j] is Empty,
    {
        let mut children: Vec<TrieValue<T>> = Vec::new();
        let mut b: usize = 0;
        while b < 256
            invariant
                b <= 256,
                children@.len() == b,
                forall|j: int| 0 <= j < b ==> #[trigger] children@[j] is Empty,
            decreases 256 - b,
        {
            children.push(TrieValue::Empty);
            b += 1;
        }
        children
    }

    /// Allocates a node with the given entries at the given level.  The
    /// null handle reports a full node arena.
    fn alloc_node(
        &mut self,
        children: Vec<TrieValue<T>>,
        lvl: u8,
        Ghost(level): Ghost<int>,
        Ghost(pre): Ghost<Seq<int>>,
    ) -> (r: handle_t<TrieNode<T>>)
        requires
            old(self).node_allocator.wf(),
            old(self).data_allocator.wf(),
            children@.len() == 256,
            lvl == level,
            0 <= level <= 7,
            pre.len() == level,
            forall|bb: int|
                0 <= bb < 256 ==> child_ok(
                    old(self).node_allocator,
                    old(self).data_allocator,
                    #[trigger] children@[bb],
                    bb,
                    level,
                    pre,
                ),
        ensures
            final(self).node_allocator.wf(),
            final(self).data_allocator.wf(),
            extends(final(self).node_allocator, old(self).node_allocator),
            final(self).data_allocator == old(self).data_allocator,
            final(self).root_node == old(self).root_node,
            final(self).snaps == old(self).snaps,
            rc0_frame(final(self).node_allocator, old(self).node_allocator),
            final(self).node_allocator@.dom().len() <= old(self).node_allocator@.dom().len() + 1,
            r.spec_is_null() ==> final(self).node_allocator@.dom() == full_dom() && *final(self)
                == *old(self),
            !r.spec_is_null() ==> {
                &&& node_ok(
                    final(self).node_allocator,
                    final(self).data_allocator,
                    r.raw(),
                    level,
                    pre,
                )
                &&& !old(self).node_allocator@.dom().contains(raw_key(r.raw()))
                &&& final(self).node_allocator@[raw_key(r.raw())].level == level
                &&& final(self).node_allocator.rc_at(raw_key(r.raw()).0, raw_key(r.raw()).1) == 1
                &&& final(self).node_allocator@[raw_key(r.raw())].children@ == children@
            },
    {
        let ghost ch = children@;
        let r = self.node_allocator.Allocate(TrieNode { children, level: lvl });
        if r.IsNull() {
            return r;
        }
        proof {
            old(self).node_allocator.lemma_dom_in_range();
            old(self).node_allocator.lemma_view_in_full_dom();
            assert(extends(self.node_allocator, old(self).node_allocator));
            assert(self.node_allocator@.dom() =~= old(self).node_allocator@.dom().insert(
                raw_key(r.raw()),
            ));
            let rk = raw_key(r.raw());
            assert(raw_live(self.node_allocator, r.raw()));
            assert forall|bb: int| 0 <= bb < 256 implies child_ok(
                self.node_allocator,
                self.data_allocator,
                #[trigger] self.node_allocator@[rk].children@[bb],
                bb,
                level,
                pre,
            ) by {
                lemma_child_frame_extend(
                    old(self).node_allocator,
                    self.node_allocator,
                    old(self).data_allocator,
                    self.data_allocator,
                    ch[bb],
                    bb,
                    level,
                    pre,
                );
            }
            assert(node_ok(self.node_allocator, self.data_allocator, r.raw(), level, pre));
        }
        r
    }

    /// The first byte position at or after `start` where the two keys
    /// disagree.  Distinct keys always disagree somewhere in their 8 bytes.
    fn find_divergence(key: i64, lk: i64, start: u8) -> (ld: u8)
        requires
            key != lk,
            1 <= start <= 8,
            forall|l: int| 0 <= l < start ==> key_byte(key, l) == key_byte(lk, l),
        ensures
            start <= ld <= 7,
            key_byte(key, ld as int) != key_byte(lk, ld as int),
            forall|l: int| 0 <= l < ld ==> key_byte(key, l) == key_byte(lk, l),
    {
        let mut ld: u8 = start;
        while ld < 8
            invariant
                key != lk,
                start <= ld <= 8,
                forall|l: int| 0 <= l < ld ==> key_byte(key, l) == key_byte(lk, l),
            decreases 8 - ld,
        {
            if Self::key_index(key, ld) != Self::key_index(lk, ld) {
                return ld;
            }
            ld += 1;
        }
        proof {
            lemma_key_bytes_determine(key, lk);
        }
        0
    }

    /// Rebuilds the path from the node at `h` down to `key`, producing a
    /// fresh node whose subtree holds `vh` at `key` and everything else the
    /// old subtree held, sharing every untouched entry with the original.
    /// The null handle reports a full node arena; the trie's contents are
    /// then untouched.
    #[verifier::rlimit(100)]
    fn put_rec(
        &mut self,
        h: handle_t<TrieNode<T>>,
        key: i64,
        vh: handle_t<T>,
        Ghost(level): Ghost<int>,
        Ghost(pre): Ghost<Seq<int>>,
    ) -> (r: handle_t<TrieNode<T>>)
        requires
            old(self).node_allocator.wf(),
            old(self).data_allocator.wf(),
            node_ok(old(self).node_allocator, old(self).data_allocator, h.raw(), level, pre),
            forall|l: int| 0 <= l < level ==> key_byte(key, l) == pre[l],
            raw_live(old(self).data_allocator, vh.raw()),
        ensures
            final(self).node_allocator.wf(),
            final(self).data_allocator.wf(),
            extends(final(self).node_allocator, old(self).node_allocator),
            extends(final(self).data_allocator, old(self).data_allocator),
            final(self).data_allocator@.dom() == old(self).data_allocator@.dom(),
            final(self).root_node == old(self).root_node,
            final(self).snaps == old(self).snaps,
            rc0_frame(final(self).node_allocator, old(self).node_allocator),
            final(self).node_allocator@.dom().len() <= old(self).node_allocator@.dom().len() + 2
                * (8 - level),
            r.spec_is_null() ==> final(self).node_allocator@.dom() == full_dom(),
            !r.spec_is_null() ==> {
                &&& node_ok(
                    final(self).node_allocator,
                    final(self).data_allocator,
                    r.raw(),
                    level,
                    pre,
                )
                &&& !old(self).node_allocator@.dom().contains(raw_key(r.raw()))
                &&& final(self).node_allocator@[raw_key(r.raw())].level == level
                &&& final(self).node_allocator.rc_at(raw_key(r.raw()).0, raw_key(r.raw()).1) == 1
                &&& forall|k: i64|
                    #[trigger] trie_at(final(self).node_allocator, r.raw(), level, k) == if k
                        == key {
                        Some(vh)
                    } else {
                        trie_at(old(self).node_allocator, h.raw(), level, k)
                    }
                &&& forall|bb: int|
                    0 <= bb < 256 && bb != key_byte(key, level) as int
                        ==> final(self).node_allocator@[raw_key(r.raw())].children@[bb]
                        == old(self).node_allocator@[raw_key(h.raw())].children@[bb]
            },
        decreases 8 - level,
    {
        proof {
            assert(old(self).node_allocator.live(h));
        }
        let lvl: u8;
        let tv: TrieValue<T>;
        match self.node_allocator.Get(h) {
            Ok(node) => {
                lvl = node.level;
                let bx = node.KeyIndex(key);
                tv = node.children[bx];
            },
            Err(_) => {
                proof {
                    assert(false);
                }
                return handle_t::null();
            },
        }
        let b = Self::key_index(key, lvl);
        let ghost bi = b as int;
        proof {
            assert(child_ok(
                old(self).node_allocator,
                old(self).data_allocator,
                tv,
                bi,
                level,
                pre,
            ));
        }
        match tv {
            TrieValue::Empty => {
                let tv_new = TrieValue::Leaf { key, value: vh };
                proof {
                    assert(child_ok(
                        old(self).node_allocator,
                        old(self).data_allocator,
                        tv_new,
                        bi,
                        level,
                        pre,
                    ));
                }
                let r = self.copy_with(h, b, tv_new, Ghost(level), Ghost(pre));
                proof {
                    if !r.spec_is_null() {
                        assert forall|k: i64|
                            #[trigger] trie_at(self.node_allocator, r.raw(), level, k) == if k
                            == key {
                            Some(vh)
                        } else {
                            trie_at(old(self).node_allocator, h.raw(), level, k)
                        } by {
                            if key_byte(k, level) as int == bi && k != key {
                                assert(trie_at(old(self).node_allocator, h.raw(), level, k)
                                    == tv_at(old(self).node_allocator, tv, level, k));
                            }
                        }
                    }
                }
                r
            },
            TrieValue::Leaf { key: lk, value: lv } => {
                if lk == key {
                    // same key: the fresh value supersedes the old one in
                    // this version; the old version keeps its own value
                    let tv_new = TrieValue::Leaf { key, value: vh };
                    proof {
                        assert(child_ok(
                            old(self).node_allocator,
                            old(self).data_allocator,
                            tv_new,
                            bi,
                            level,
                            pre,
                        ));
                    }
                    let r = self.copy_with(h, b, tv_new, Ghost(level), Ghost(pre));
                    proof {
                        if !r.spec_is_null() {
                            assert forall|k: i64|
                                #[trigger] trie_at(self.node_allocator, r.raw(), level, k) == if k
                                == key {
                                Some(vh)
                            } else {
                                trie_at(old(self).node_allocator, h.raw(), level, k)
                            } by {
                                if key_byte(k, level) as int == bi && k != key {
                                    assert(trie_at(old(self).node_allocator, h.raw(), level, k)
                                        == tv_at(old(self).node_allocator, tv, level, k));
                                }
                            }
                        }
                    }
                    r
                } else {
                    // collision: grow a chain of single-entry nodes down to
                    // the byte where the two keys part ways, ending in a
                    // node holding both leaves
                    proof {
                        if level == 7 {
                            assert(forall|l: int|
                                0 <= l < 8 ==> key_byte(key, l) == key_byte(lk, l));
                            lemma_key_bytes_determine(key, lk);
                        }
                    }
                    let ld = Self::find_divergence(key, lk, lvl + 1);
                    let ghost pre_bot = Seq::new(ld as nat, |l: int| key_byte(key, l) as int);
                    let mut children = Self::empty_children();
                    let bk = Self::key_index(key, ld);
                    let bl = Self::key_index(lk, ld);
                    children.set(bk, TrieValue::Leaf { key, value: vh });
                    children.set(bl, TrieValue::Leaf { key: lk, value: lv });
                    proof {
                        assert forall|bb: int| 0 <= bb < 256 implies child_ok(
                            old(self).node_allocator,
                            old(self).data_allocator,
                            #[trigger] children@[bb],
                            bb,
                            ld as int,
                            pre_bot,
                        ) by {
                            assert(raw_live(old(self).data_allocator, lv.raw()));
                        }
                    }
                    let mut child = self.alloc_node(
                        children,
                        ld,
                        Ghost(ld as int),
                        Ghost(pre_bot),
                    );
                    if child.IsNull() {
                        return child;
                    }
                    // the old leaf's value is now also referenced from the
                    // new bottom node
                    self.data_allocator.BumpRef(lv);
                    let ghost mid0 = *self;
                    proof {
                        old(self).node_allocator.lemma_dom_in_range();
                        old(self).data_allocator.lemma_dom_in_range();
                        assert(extends(mid0.node_allocator, old(self).node_allocator));
                        assert(extends(mid0.data_allocator, old(self).data_allocator));
                        lemma_frame_extend(
                            self.node_allocator,
                            self.node_allocator,
                            mid0.data_allocator,
                            self.data_allocator,
                            child.raw(),
                            ld as int,
                            pre_bot,
                        );
                    }
                    let mut l: u8 = ld;
                    while l > lvl + 1
                        invariant
                            self.node_allocator.wf(),
                            self.data_allocator.wf(),
                            lvl + 1 <= l <= ld,
                            ld <= 7,
                            0 <= level < 7,
                            lvl == level,
                            extends(self.node_allocator, old(self).node_allocator),
                            extends(self.data_allocator, old(self).data_allocator),
                            self.data_allocator@.dom() == old(self).data_allocator@.dom(),
                            self.root_node == old(self).root_node,
                            self.snaps == old(self).snaps,
                            rc0_frame(self.node_allocator, old(self).node_allocator),
                            self.node_allocator@.dom().len() <= old(self).node_allocator@.dom().len() + 1 + (ld - l),
                            node_ok(
                                self.node_allocator,
                                self.data_allocator,
                                child.raw(),
                                l as int,
                                Seq::new(l as nat, |j: int| key_byte(key, j) as int),
                            ),
                            !old(self).node_allocator@.dom().contains(raw_key(child.raw())),
                            forall|l2: int| 0 <= l2 < ld ==> key_byte(key, l2) == key_byte(lk, l2),
                            forall|k: i64|
                                #[trigger] trie_at(
                                    self.node_allocator,
                                    child.raw(),
                                    l as int,
                                    k,
                                ) == if k == key {
                                    Some(vh)
                                } else if k == lk {
                                    Some(lv)
                                } else {
                                    None::<handle_t<T>>
                                },
                        decreases l,
                    {
                        let ghost prev = *self;
                        let ghost prev_child = child;
                        l -= 1;
                        let mut wrap = Self::empty_children();
                        let bw = Self::key_index(key, l);
                        wrap.set(bw, TrieValue::Trie(child));
                        let ghost pre_l = Seq::new(l as nat, |j: int| key_byte(key, j) as int);
                        proof {
                            assert(Seq::new((l + 1) as nat, |j: int| key_byte(key, j) as int)
                                =~= pre_l.push(key_byte(key, l as int) as int));
                            assert forall|bb: int| 0 <= bb < 256 implies child_ok(
                                prev.node_allocator,
                                prev.data_allocator,
                                #[trigger] wrap@[bb],
                                bb,
                                l as int,
                                pre_l,
                            ) by {}
                        }
                        let nh = self.alloc_node(wrap, l, Ghost(l as int), Ghost(pre_l));
                        if nh.IsNull() {
                            return nh;
                        }
                        proof {
                            lemma_frame_extend(
                                prev.node_allocator,
                                self.node_allocator,
                                prev.data_allocator,
                                self.data_allocator,
                                prev_child.raw(),
                                (l + 1) as int,
                                pre_l.push(key_byte(key, l as int) as int),
                            );
                            assert forall|k: i64|
                                #[trigger] trie_at(
                                    self.node_allocator,
                                    nh.raw(),
                                    l as int,
                                    k,
                                ) == if k == key {
                                Some(vh)
                            } else if k == lk {
                                Some(lv)
                            } else {
                                None::<handle_t<T>>
                            } by {
                                let bb = key_byte(k, l as int) as int;
                                if bb == key_byte(key, l as int) as int {
                                    assert(trie_at(self.node_allocator, nh.raw(), l as int, k)
                                        == trie_at(
                                        self.node_allocator,
                                        prev_child.raw(),
                                        (l + 1) as int,
                                        k,
                                    ));
                                } else {
                                    assert(self.node_allocator@[raw_key(nh.raw())].children@[bb]
                                        is Empty);
                                    if k == key {
                                        assert(false);
                                    }
                                    if k == lk {
                                        assert(key_byte(lk, l as int) == key_byte(key, l as int));
                                        assert(false);
                                    }
                                }
                            }
                        }
                        child = nh;
                    }
                    // graft the chain in place of the old leaf
                    let ghost mid1 = *self;
                    let tv_new = TrieValue::Trie(child);
                    proof {
                        assert(pre =~= Seq::new(level as nat, |j: int| key_byte(key, j) as int));
                        assert(pre.push(bi) =~= Seq::new(
                            (lvl + 1) as nat,
                            |j: int| key_byte(key, j) as int,
                        ));
                        assert(child_ok(
                            mid1.node_allocator,
                            mid1.data_allocator,
                            tv_new,
                            bi,
                            level,
                            pre,
                        ));
                        lemma_frame_extend(
                            old(self).node_allocator,
                            mid1.node_allocator,
                            old(self).data_allocator,
                            mid1.data_allocator,
                            h.raw(),
                            level,
                            pre,
                        );
                    }
                    let r = self.copy_with(h, b, tv_new, Ghost(level), Ghost(pre));
                    proof {
                        if !r.spec_is_null() {
                            lemma_child_frame_extend(
                                mid1.node_allocator,
                                self.node_allocator,
                                mid1.data_allocator,
                                self.data_allocator,
                                tv_new,
                                bi,
                                level,
                                pre,
                            );
                            assert forall|k: i64|
                                #[trigger] trie_at(self.node_allocator, r.raw(), level, k) == if k
                                == key {
                                Some(vh)
                            } else {
                                trie_at(old(self).node_allocator, h.raw(), level, k)
                            } by {
                                let bb = key_byte(k, level) as int;
                                if bb == bi {
                                    assert(tv_at(self.node_allocator, tv_new, level, k) == trie_at(
                                        self.node_allocator,
                                        child.raw(),
                                        (lvl + 1) as int,
                                        k,
                                    ));
                                    assert(trie_at(old(self).node_allocator, h.raw(), level, k)
                                        == tv_at(old(self).node_allocator, tv, level, k));
                                    if k != key && k != lk {
                                        assert(tv_at(old(self).node_allocator, tv, level, k)
                                            is None);
                                    }
                                } else {
                                    assert(trie_at(mid1.node_allocator, h.raw(), level, k)
                                        == trie_at(old(self).node_allocator, h.raw(), level, k));
                                }
                            }
                        }
                    }
                    r
                }
            },
            TrieValue::Trie(c) => {
                let nc = self.put_rec(c, key, vh, Ghost(level + 1), Ghost(pre.push(bi)));
                if nc.IsNull() {
                    return nc;
                }
                let ghost mid1 = *self;
                let tv_new = TrieValue::Trie(nc);
                proof {
                    assert(child_ok(
                        mid1.node_allocator,
                        mid1.data_allocator,
                        tv_new,
                        bi,
                        level,
                        pre,
                    ));
                    lemma_frame_extend(
                        old(self).node_allocator,
                        mid1.node_allocator,
                        old(self).data_allocator,
                        mid1.data_allocator,
                        h.raw(),
                        level,
                        pre,
                    );
                }
                let r = self.copy_with(h, b, tv_new, Ghost(level), Ghost(pre));
                proof {
                    if !r.spec_is_null() {
                        lemma_child_frame_extend(
                            mid1.node_allocator,
                            self.node_allocator,
                            mid1.data_allocator,
                            self.data_allocator,
                            tv_new,
                            bi,
                            level,
                            pre,
                        );
                        assert forall|k: i64|
                            #[trigger] trie_at(self.node_allocator, r.raw(), level, k) == if k
                            == key {
                            Some(vh)
                        } else {
                            trie_at(old(self).node_allocator, h.raw(), level, k)
                        } by {
                            let bb = key_byte(k, level) as int;
                            if bb == bi {
                                assert(tv_at(self.node_allocator, tv_new, level, k) == trie_at(
                                    self.node_allocator,
                                    nc.raw(),
                                    level + 1,
                                    k,
                                ));
                                assert(trie_at(old(self).node_allocator, h.raw(), level, k)
                                    == trie_at(old(self).node_allocator, c.raw(), level + 1, k));
                            } else {
                                assert(trie_at(mid1.node_allocator, h.raw(), level, k) == trie_at(
                                    old(self).node_allocator,
                                    h.raw(),
                                    level,
                                    k,
                                ));
                            }
                        }
                    }
                }
                r
            },
        }
    }

    /// Allocates a copy of the node at `h` whose entry `b` is replaced by
    /// `tv_new`, raising the counts of every entry the copy shares with the
    /// original.  The null handle reports a full node arena.
    #[verifier::rlimit(100)]
    fn copy_with(
        &mut self,
        h: handle_t<TrieNode<T>>,
        b: usize,
        tv_new: TrieValue<T>,
        Ghost(level): Ghost<int>,
        Ghost(pre): Ghost<Seq<int>>,
    ) -> (r: handle_t<TrieNode<T>>)
        requires
            old(self).node_allocator.wf(),
            old(self).data_allocator.wf(),
            node_ok(old(self).node_allocator, old(self).data_allocator, h.raw(), level, pre),
            b < 256,
            child_ok(
                old(self).node_allocator,
                old(self).data_allocator,
                tv_new,
                b as int,
                level,
                pre,
            ),
        ensures
            final(self).node_allocator.wf(),
            final(self).data_allocator.wf(),
            extends(final(self).node_allocator, old(self).node_allocator),
            extends(final(self).data_allocator, old(self).data_allocator),
            final(self).data_allocator@.dom() == old(self).data_allocator@.dom(),
            final(self).root_node == old(self).root_node,
            final(self).snaps == old(self).snaps,
            rc0_frame(final(self).node_allocator, old(self).node_allocator),
            final(self).node_allocator@.dom().len() <= old(self).node_allocator@.dom().len() + 1,
            r.spec_is_null() ==> final(self).node_allocator@.dom() == full_dom(),
            !r.spec_is_null() ==> {
                &&& node_ok(
                    final(self).node_allocator,
                    final(self).data_allocator,
                    r.raw(),
                    level,
                    pre,
                )
                &&& !old(self).node_allocator@.dom().contains(raw_key(r.raw()))
                &&& final(self).node_allocator@[raw_key(r.raw())].level == level
                &&& final(self).node_allocator.rc_at(raw_key(r.raw()).0, raw_key(r.raw()).1) == 1
                &&& forall|bb: int|
                    0 <= bb < 256 && bb != b ==> final(self).node_allocator@[raw_key(
                        r.raw(),
                    )].children@[bb] == old(self).node_allocator@[raw_key(h.raw())].children@[bb]
                &&& final(self).node_allocator@[raw_key(r.raw())].children@[b as int] == tv_new
                &&& forall|k: i64|
                    #[trigger] trie_at(final(self).node_allocator, r.raw(), level, k) == if key_byte(
                        k,
                        level,
                    ) as int == b as int {
                        tv_at(final(self).node_allocator, tv_new, level, k)
                    } else {
                        trie_at(old(self).node_allocator, h.raw(), level, k)
                    }
            },
    {
        proof {
            assert(old(self).node_allocator.live(h));
        }
        let mut children: Vec<TrieValue<T>> = Vec::new();
        let lvl: u8;
        match self.node_allocator.Get(h) {
            Ok(node) => {
                lvl = node.level;
                let mut i: usize = 0;
                while i < 256
                    invariant
                        i <= 256,
                        children@.len() == i,
                        node.children@.len() == 256,
                        forall|j: int| 0 <= j < i ==> children@[j] == node.children@[j],
                    decreases 256 - i,
                {
                    children.push(node.children[i]);
                    i += 1;
                }
            },
            Err(_) => {
                proof {
                    assert(false);
                }
                return handle_t::null();
            },
        }
        children.set(b, tv_new);
        let r = self.node_allocator.Allocate(TrieNode { children, level: lvl });
        if r.IsNull() {
            return r;
        }
        let ghost mid = *self;
        proof {
            old(self).node_allocator.lemma_dom_in_range();
            old(self).node_allocator.lemma_view_in_full_dom();
            assert(extends(mid.node_allocator, old(self).node_allocator));
            assert(mid.node_allocator@.dom() =~= old(self).node_allocator@.dom().insert(
                raw_key(r.raw()),
            ));
        }
        // the kept entries are now shared by the copy and the original:
        // raise each one's count
        let mut i: usize = 0;
        while i < 256
            invariant
                mid.node_allocator.wf(),
                mid.data_allocator.wf(),
                self.node_allocator.wf(),
                self.data_allocator.wf(),
                self.node_allocator@ == mid.node_allocator@,
                self.data_allocator@ == mid.data_allocator@,
                self.node_allocator.num_nodes() == mid.node_allocator.num_nodes(),
                self.data_allocator.num_nodes() == mid.data_allocator.num_nodes(),
                forall|p: (int, int)|
                    #[trigger] mid.node_allocator@.dom().contains(p)
                        ==> self.node_allocator.gen_at(p.0, p.1) == mid.node_allocator.gen_at(
                        p.0,
                        p.1,
                    ),
                forall|p: (int, int)|
                    #[trigger] mid.data_allocator@.dom().contains(p)
                        ==> self.data_allocator.gen_at(p.0, p.1) == mid.data_allocator.gen_at(
                        p.0,
                        p.1,
                    ),
                rc0_frame(self.node_allocator, old(self).node_allocator),
                self.node_allocator.rc_at(raw_key(r.raw()).0, raw_key(r.raw()).1) == 1,
                self.node_allocator@.dom().contains(raw_key(r.raw())),
                !old(self).node_allocator@.dom().contains(raw_key(r.raw())),
                self.root_node == mid.root_node,
                self.snaps == mid.snaps,
                old(self).node_allocator.wf(),
                old(self).data_allocator.wf(),
                node_ok(old(self).node_allocator, old(self).data_allocator, h.raw(), level, pre),
                extends(mid.node_allocator, old(self).node_allocator),
                old(self).node_allocator.live(h),
            decreases 256 - i,
        {
            if i != b {
                let tv = match self.node_allocator.Get(h) {
                    Ok(node) => node.children[i],
                    Err(_) => {
                        proof {
                            assert(self.node_allocator.live(h)) by {
                                assert(extends(self.node_allocator, old(self).node_allocator));
                            }
                            assert(false);
                        }
                        TrieValue::Empty
                    },
                };
                proof {
                    mid.node_allocator.lemma_dom_in_range();
                    mid.data_allocator.lemma_dom_in_range();
                    assert(child_ok(
                        old(self).node_allocator,
                        old(self).data_allocator,
                        tv,
                        i as int,
                        level,
                        pre,
                    ));
                }
                match tv {
                    TrieValue::Empty => {},
                    TrieValue::Trie(c) => {
                        proof {
                            // a live interior child holds a node of level
                            // `level + 1`, never a level-0 slot, and never
                            // the freshly allocated copy
                            assert(old(self).node_allocator@[raw_key(c.raw())].level == level + 1);
                            assert(old(self).node_allocator@.dom().contains(raw_key(c.raw())));
                            assert(raw_key(c.raw()) != raw_key(r.raw()));
                            assert(key_of(c) == raw_key(c.raw()));
                        }
                        self.node_allocator.BumpRef(c);
                        proof {
                            assert(self.node_allocator.rc_at(
                                raw_key(r.raw()).0,
                                raw_key(r.raw()).1,
                            ) == 1);
                        }
                    },
                    TrieValue::Leaf { key: _, value } => {
                        self.data_allocator.BumpRef(value);
                    },
                }
            }
            i += 1;
        }
        proof {
            assert(extends(self.node_allocator, mid.node_allocator));
            assert(extends(self.node_allocator, old(self).node_allocator));
            assert(extends(self.data_allocator, old(self).data_allocator));
            assert(self.data_allocator@.dom() =~= old(self).data_allocator@.dom());
            let rk = raw_key(r.raw());
            assert(self.node_allocator@.dom().contains(rk));
            assert(raw_live(self.node_allocator, r.raw()));
            assert(self.node_allocator@[rk].children@.len() == 256);
            assert forall|bb: int| 0 <= bb < 256 implies child_ok(
                self.node_allocator,
                self.data_allocator,
                #[trigger] self.node_allocator@[rk].children@[bb],
                bb,
                level,
                pre,
            ) by {
                if bb == b as int {
                    lemma_child_frame_extend(
                        old(self).node_allocator,
                        self.node_allocator,
                        old(self).data_allocator,
                        self.data_allocator,
                        tv_new,
                        bb,
                        level,
                        pre,
                    );
                } else {
                    let tv = old(self).node_allocator@[raw_key(h.raw())].children@[bb];
                    assert(self.node_allocator@[rk].children@[bb] == tv);
                    assert(child_ok(
                        old(self).node_allocator,
                        old(self).data_allocator,
                        tv,
                        bb,
                        level,
                        pre,
                    ));
                    lemma_child_frame_extend(
                        old(self).node_allocator,
                        self.node_allocator,
                        old(self).data_allocator,
                        self.data_allocator,
                        tv,
                        bb,
                        level,
                        pre,
                    );
                }
            }
            assert(node_ok(self.node_allocator, self.data_allocator, r.raw(), level, pre));
            assert forall|k: i64|
                #[trigger] trie_at(self.node_allocator, r.raw(), level, k) == if key_byte(
                k,
                level,
            ) as int == b as int {
                tv_at(self.node_allocator, tv_new, level, k)
            } else {
                trie_at(old(self).node_allocator, h.raw(), level, k)
            } by {
                let bb = key_byte(k, level) as int;
                let tv = self.node_allocator@[rk].children@[bb];
                assert(trie_at(self.node_allocator, r.raw(), level, k) == tv_at(
                    self.node_allocator,
                    tv,
                    level,
                    k,
                ));
                if bb != b as int {
                    let tvh = old(self).node_allocator@[raw_key(h.raw())].children@[bb];
                    assert(tv == tvh);
                    assert(child_ok(
                        old(self).node_allocator,
                        old(self).data_allocator,
                        tvh,
                        bb,
                        level,
                        pre,
                    ));
                    lemma_child_frame_extend(
                        old(self).node_allocator,
                        self.node_allocator,
                        old(self).data_allocator,
                        self.data_allocator,
                        tvh,
                        bb,
                        level,
                        pre,
                    );
                    assert(trie_at(old(self).node_allocator, h.raw(), level, k) == tv_at(
                        old(self).node_allocator,
                        tvh,
                        level,
                        k,
                    ));
                }
            }
        }
        r
    }

    /// Allocates a copy of the node at `h` — same level, same 256 entries —
    /// raising the count of every shared entry.  The null handle reports a
    /// full node arena.
    fn CopyNode(
        &mut self,
        h: handle_t<TrieNode<T>>,
        Ghost(level): Ghost<int>,
        Ghost(pre): Ghost<Seq<int>>,
    ) -> (r: handle_t<TrieNode<T>>)
        requires
            old(self).node_allocator.wf(),
            old(self).data_allocator.wf(),
            node_ok(old(self).node_allocator, old(self).data_allocator, h.raw(), level, pre),
        ensures
            final(self).node_allocator.wf(),
            final(self).data_allocator.wf(),
            extends(final(self).node_allocator, old(self).node_allocator),
            extends(final(self).data_allocator, old(self).data_allocator),
            final(self).data_allocator@.dom() == old(self).data_allocator@.dom(),
            final(self).root_node == old(self).root_node,
            final(self).snaps == old(self).snaps,
            rc0_frame(final(self).node_allocator, old(self).node_allocator),
            final(self).node_allocator@.dom().len() <= old(self).node_allocator@.dom().len() + 1,
            r.spec_is_null() ==> final(self).node_allocator@.dom() == full_dom(),
            !r.spec_is_null() ==> {
                &&& node_ok(
                    final(self).node_allocator,
                    final(self).data_allocator,
                    r.raw(),
                    level,
                    pre,
                )
                &&& !old(self).node_allocator@.dom().contains(raw_key(r.raw()))
                &&& final(self).node_allocator@[raw_key(r.raw())].level == level
                &&& final(self).node_allocator.rc_at(raw_key(r.raw()).0, raw_key(r.raw()).1) == 1
                &&& forall|bb: int|
                    0 <= bb < 256 ==> final(self).node_allocator@[raw_key(r.raw())].children@[bb]
                        == old(self).node_allocator@[raw_key(h.raw())].children@[bb]
                &&& forall|k: i64|
                    #[trigger] trie_at(final(self).node_allocator, r.raw(), level, k) == trie_at(
                        old(self).node_allocator,
                        h.raw(),
                        level,
                        k,
                    )
            },
    {
        proof {
            assert(old(self).node_allocator.live(h));
        }
        let tv0 = match self.node_allocator.Get(h) {
            Ok(node) => node.children[0],
            Err(_) => {
                proof {
                    assert(false);
                }
                TrieValue::Empty
            },
        };
        proof {
            assert(child_ok(
                self.node_allocator,
                self.data_allocator,
                tv0,
                0,
                level,
                pre,
            ));
        }
        let r = self.copy_with(h, 0, tv0, Ghost(level), Ghost(pre));
        if r.IsNull() {
            return r;
        }
        let ghost mid = *self;
        // entry 0 of the copy is also shared with the original
        match tv0 {
            TrieValue::Empty => {},
            TrieValue::Trie(c) => {
                proof {
                    assert(child_ok(
                        old(self).node_allocator,
                        old(self).data_allocator,
                        tv0,
                        0,
                        level,
                        pre,
                    ));
                    assert(old(self).node_allocator@[raw_key(c.raw())].level == level + 1);
                    old(self).node_allocator.lemma_dom_in_range();
                }
                self.node_allocator.BumpRef(c);
            },
            TrieValue::Leaf { key: _, value } => {
                self.data_allocator.BumpRef(value);
            },
        }
        proof {
            mid.node_allocator.lemma_dom_in_range();
            mid.data_allocator.lemma_dom_in_range();
            assert(extends(self.node_allocator, mid.node_allocator));
            assert(extends(self.node_allocator, old(self).node_allocator));
            assert(extends(self.data_allocator, old(self).data_allocator));
            assert(self.data_allocator@.dom() =~= old(self).data_allocator@.dom());
            lemma_frame_extend(
                mid.node_allocator,
                self.node_allocator,
                mid.data_allocator,
                self.data_allocator,
                r.raw(),
                level,
                pre,
            );
            let rk = raw_key(r.raw());
            assert forall|k: i64|
                #[trigger] trie_at(self.node_allocator, r.raw(), level, k) == trie_at(
                old(self).node_allocator,
                h.raw(),
                level,
                k,
            ) by {
                let bb = key_byte(k, level) as int;
                if bb == 0 {
                    assert(trie_at(mid.node_allocator, r.raw(), level, k) == tv_at(
                        mid.node_allocator,
                        tv0,
                        level,
                        k,
                    ));
                    assert(child_ok(
                        old(self).node_allocator,
                        old(self).data_allocator,
                        tv0,
                        0,
                        level,
                        pre,
                    ));
                    lemma_child_frame_extend(
                        old(self).node_allocator,
                        mid.node_allocator,
                        old(self).data_allocator,
                        mid.data_allocator,
                        tv0,
                        0,
                        level,
                        pre,
                    );
                    assert(trie_at(old(self).node_allocator, h.raw(), level, k) == tv_at(
                        old(self).node_allocator,
                        tv0,
                        level,
                        k,
                    ));
                }
            }
        }
        r
    }
}

} // verus!
