//! A fixed-capacity slot arena.
//!
//! A `SparceBuffer<T>` owns 255 nodes of 32 value slots each.  Every node
//! keeps a 32-bit bitmask (bit set = slot free) and a per-slot generation
//! tag in `1..=7`; nodes with at least one free slot are threaded onto a
//! free-node list through a side array of `next` links.  `Allocate` hands
//! out a [`handle_t`] carrying the slot's current generation; `Free` bumps
//! the generation, so a stale handle kept across a free and a reuse of the
//! slot is detected and rejected rather than aliasing the new occupant.
//!
//! The arena's abstract state is the map from `(node, instance)` pairs to
//! the live values; every operation states its effect on that map.

use vstd::prelude::*;
use vstd::set_lib::lemma_len_subset;
use crate::handle::handle_t;

verus! {

/// Number of nodes a `SparceBuffer` owns.
pub const NODE_COUNT: usize = 255;

/// Number of value slots in one node.
pub const NODE_SIZE: usize = 32;

/// The largest number of live values an arena can hold.
pub const CAPACITY: usize = 255 * 32;

/// Sentinel node index marking the end of the free-node list.
pub const NULL_INDEX: u8 = 255;

/// Why a handle was rejected by a checked arena operation.
#[derive(Debug, Clone, Copy, PartialEq, Eq, Structural)]
pub enum HandleError {
    /// The handle's node index lies outside the arena.
    OutOfRange,
    /// The addressed slot holds no value.
    SlotFree,
    /// The slot is live, but was freed and reused since the handle was
    /// issued: the generations differ.
    StaleGeneration,
}

/// Whether bit `i` of `mask` is set.
pub open spec fn nth_bit(mask: u32, i: u32) -> bool {
    (mask >> i) & 1 == 1
}

/// Clearing bit `i` leaves every other bit alone.
pub(crate) proof fn lemma_clear_bit(mask: u32, i: u32)
    by (bit_vector)
    requires
        i < 32,
    ensures
        !nth_bit(mask & !(1u32 << i), i),
        forall|j: u32| j < 32 && j != i ==> nth_bit(mask & !(1u32 << i), j) == nth_bit(mask, j),
{
}

/// Setting bit `i` leaves every other bit alone.
pub(crate) proof fn lemma_set_bit(mask: u32, i: u32)
    by (bit_vector)
    requires
        i < 32,
    ensures
        nth_bit(mask | (1u32 << i), i),
        forall|j: u32| j < 32 && j != i ==> nth_bit(mask | (1u32 << i), j) == nth_bit(mask, j),
        mask | (1u32 << i) != 0,
{
}

/// The set of all `(node, instance)` pairs an arena can address.
pub open spec fn full_dom() -> Set<(int, int)> {
    Set::new(|p: (int, int)| 0 <= p.0 < 255 && 0 <= p.1 < 32)
}

/// The pairs of `full_dom` whose node index lies below `n`.
spec fn dom_upto(n: int) -> Set<(int, int)> {
    Set::new(|p: (int, int)| 0 <= p.0 < n && 0 <= p.1 < 32)
}

/// The pairs with node index exactly `n` and instance index below `m`.
spec fn row_upto(n: int, m: int) -> Set<(int, int)> {
    Set::new(|p: (int, int)| p.0 == n && 0 <= p.1 < m)
}

proof fn lemma_row_upto(n: int, m: int)
    requires
        0 <= m <= 32,
    ensures
        row_upto(n, m).finite(),
        row_upto(n, m).len() == m,
    decreases m,
{
    if m == 0 {
        assert(row_upto(n, 0) =~= Set::empty());
    } else {
        lemma_row_upto(n, m - 1);
        assert(row_upto(n, m) =~= row_upto(n, m - 1).insert((n, m - 1)));
    }
}

pub(crate) proof fn lemma_disjoint_union_len<A>(s1: Set<A>, s2: Set<A>)
    requires
        s1.finite(),
        s2.finite(),
        s1.disjoint(s2),
    ensures
        s1.union(s2).finite(),
        s1.union(s2).len() == s1.len() + s2.len(),
    decreases s2.len(),
{
    if s2.len() == 0 {
        assert(s2 =~= Set::empty());
        assert(s1.union(s2) =~= s1);
    } else {
        let a = s2.choose();
        lemma_disjoint_union_len(s1, s2.remove(a));
        assert(s1.union(s2) =~= s1.union(s2.remove(a)).insert(a));
    }
}

proof fn lemma_dom_upto(n: int)
    requires
        0 <= n <= 255,
    ensures
        dom_upto(n).finite(),
        dom_upto(n).len() == n * 32,
    decreases n,
{
    if n == 0 {
        assert(dom_upto(0) =~= Set::empty());
    } else {
        lemma_dom_upto(n - 1);
        lemma_row_upto(n - 1, 32);
        assert(dom_upto(n - 1).disjoint(row_upto(n - 1, 32)));
        lemma_disjoint_union_len(dom_upto(n - 1), row_upto(n - 1, 32));
        assert(dom_upto(n) =~= dom_upto(n - 1).union(row_upto(n - 1, 32)));
    }
}

/// `full_dom` holds one pair per slot of the arena: 255 × 32 of them.
pub proof fn lemma_full_dom()
    ensures
        full_dom().finite(),
        full_dom().len() == 255 * 32,
{
    lemma_dom_upto(255);
    assert(full_dom() =~= dom_upto(255));
}

/// The `(node, instance)` pair a handle addresses.
pub open spec fn key_of<T>(h: handle_t<T>) -> (int, int) {
    (h.spec_node() as int, h.spec_inst() as int)
}

/// One value slot: its current generation tag and its occupant, if any.
struct Slot<T> {
    gen: u8,
    value: Option<T>,
}

/// A block of 32 value slots with the free bitmask over them.
pub struct Node<T> {
    data: Vec<Slot<T>>,
    free: u32,
}

/// A restartable cursor over the live values of a [`SparceBuffer`], visiting
/// slots in ascending `(node, instance)` order.
pub struct SparceBufferIter {
    node: usize,
    inst: usize,
    iter_count: usize,
    seen: Ghost<Set<(int, int)>>,
}

impl SparceBufferIter {
    /// The keys yielded so far.
    pub closed spec fn seen(self) -> Set<(int, int)> {
        self.seen@
    }

    /// The number of values yielded so far.
    pub closed spec fn count(self) -> nat {
        self.iter_count as nat
    }

    /// The cursor is positioned inside `buf` and has yielded exactly the
    /// live slots lexicographically before its position.
    pub open spec fn valid_for<T>(self, buf: SparceBuffer<T>) -> bool {
        &&& self.cursor_node() <= 255
        &&& self.cursor_inst() < 32
        &&& self.seen() == Set::new(
            |p: (int, int)|
                buf@.dom().contains(p) && (p.0 < self.cursor_node() || (p.0 == self.cursor_node()
                    && p.1 < self.cursor_inst())),
        )
        &&& self.count() == self.seen().len()
    }

    /// The node index the cursor stands at.
    pub closed spec fn cursor_node(self) -> int {
        self.node as int
    }

    /// The instance index the cursor stands at.
    pub closed spec fn cursor_inst(self) -> int {
        self.inst as int
    }

    /// Yields the next live value of `buf` in ascending `(node, instance)`
    /// order, or `None` once every live value has been yielded — at which
    /// point the yield count equals the number of live values.
    #[verifier::rlimit(100)]
    pub fn next<'a, T>(&mut self, buf: &'a SparceBuffer<T>) -> (r: Option<&'a T>)
        requires
            buf.wf(),
            old(self).valid_for(*buf),
        ensures
            final(self).valid_for(*buf),
            r is None <==> old(self).seen() == buf@.dom(),
            r is None ==> final(self).seen() == old(self).seen() && final(self).count() == old(
                self,
            ).count() && final(self).count() == buf@.dom().len(),
            r is Some ==> exists|p: (int, int)|
                {
                    &&& buf@.dom().contains(p)
                    &&& !old(self).seen().contains(p)
                    &&& r->Some_0 == &buf@[p]
                    &&& final(self).seen() == #[trigger] old(self).seen().insert(p)
                    &&& final(self).count() == old(self).count() + 1
                    &&& forall|q: (int, int)|
                        buf@.dom().contains(q) && !old(self).seen().contains(q) && q != p ==> (p.0
                            < q.0 || (p.0 == q.0 && p.1 < q.1))
                },
    {
        proof {
            buf.lemma_view_in_full_dom();
            lemma_len_subset(old(self).seen(), buf@.dom());
        }
        while self.node < 255
            invariant
                buf.wf(),
                old(self).valid_for(*buf),
                self.node <= 255,
                self.inst < 32,
                self.iter_count == old(self).iter_count,
                self.seen@ == old(self).seen@,
                old(self).seen() == Set::new(
                    |p: (int, int)|
                        buf@.dom().contains(p) && (p.0 < self.node as int || (p.0 == self.node
                            as int && p.1 < self.inst as int)),
                ),
            decreases 255 - self.node, 32 - self.inst,
        {
            let n = self.node;
            let i = self.inst;
            let ghost pk: (int, int) = (n as int, i as int);
            if self.inst + 1 < 32 {
                self.inst = self.inst + 1;
            } else {
                self.inst = 0;
                self.node = self.node + 1;
            }
            match &buf.buffer[n].data[i].value {
                Some(v) => {
                    proof {
                        buf.lemma_view_in_full_dom();
                        lemma_len_subset(old(self).seen(), buf@.dom());
                        assert(self.iter_count <= 255 * 32);
                        assert(buf@.dom().contains(pk));
                        assert(!old(self).seen().contains(pk));
                        self.seen@ = self.seen@.insert(pk);
                        assert(self.seen@ =~= Set::new(
                            |p: (int, int)|
                                buf@.dom().contains(p) && (p.0 < self.node as int || (p.0
                                    == self.node as int && p.1 < self.inst as int)),
                        ));
                        assert(self.seen@ == old(self).seen().insert(pk));
                    }
                    self.iter_count = self.iter_count + 1;
                    return Some(v);
                },
                None => {
                    proof {
                        assert(!buf@.dom().contains(pk));
                        assert(old(self).seen() =~= Set::new(
                            |p: (int, int)|
                                buf@.dom().contains(p) && (p.0 < self.node as int || (p.0
                                    == self.node as int && p.1 < self.inst as int)),
                        ));
                    }
                },
            }
        }
        proof {
            assert(old(self).seen() =~= buf@.dom());
        }
        None
    }
}

/// A fixed-capacity arena of 255 × 32 value slots addressed by generational
/// handles.
pub struct SparceBuffer<T> {
    buffer: Vec<Node<T>>,
    next: Vec<u8>,
    free_list: u8,
    alloc_count: usize,
    free_order: Ghost<Seq<u8>>,
}

impl<T> View for SparceBuffer<T> {
    type V = Map<(int, int), T>;

    /// The abstract contents: each occupied `(node, instance)` pair mapped
    /// to its value.
    closed spec fn view(&self) -> Map<(int, int), T> {
        Map::new(
            |p: (int, int)|
                0 <= p.0 < 255 && 0 <= p.1 < 32 && self.buffer@[p.0].data@[p.1].value is Some,
            |p: (int, int)| self.buffer@[p.0].data@[p.1].value->Some_0,
        )
    }
}

impl<T> SparceBuffer<T> {
    /// The generation tag currently stored at a slot.
    pub closed spec fn gen_at(self, n: int, i: int) -> u8 {
        self.buffer@[n].data@[i].gen
    }

    /// The number of live values.
    pub closed spec fn spec_size(self) -> nat {
        self.alloc_count as nat
    }

    /// A handle addresses a live slot and carries its current generation.
    pub open spec fn live(self, h: handle_t<T>) -> bool {
        &&& !h.spec_is_null()
        &&& h.spec_node() < 255
        &&& self@.dom().contains(key_of(h))
        &&& h.spec_gen() == self.gen_at(h.spec_node() as int, h.spec_inst() as int)
    }

    /// Structural well-formedness of the arena.
    pub closed spec fn wf(self) -> bool {
        &&& self.buffer@.len() == 255
        &&& self.next@.len() == 255
        &&& forall|n: int| 0 <= n < 255 ==> (#[trigger] self.buffer@[n]).data@.len() == 32
        &&& forall|n: int, i: int|
            0 <= n < 255 && 0 <= i < 32 ==> (nth_bit(self.buffer@[n].free, i as u32) <==> (
            #[trigger] self.buffer@[n].data@[i]).value is None)
        &&& forall|n: int, i: int|
            0 <= n < 255 && 0 <= i < 32 ==> 1 <= (#[trigger] self.buffer@[n].data@[i]).gen <= 7
        &&& self.alloc_count == self@.dom().len()
        &&& self.wf_free_list()
    }

    /// The free-node list: `free_order` spells out the chain that starts at
    /// `free_list` and runs through `next`, and holds exactly the nodes with
    /// a free slot.
    spec fn wf_free_list(self) -> bool {
        let s = self.free_order@;
        &&& forall|j: int| 0 <= j < s.len() ==> (#[trigger] s[j]) < 255
        &&& forall|j1: int, j2: int| 0 <= j1 < j2 < s.len() ==> #[trigger] s[j1] != #[trigger] s[j2]
        &&& self.free_list == if s.len() == 0 {
            255u8
        } else {
            s[0]
        }
        &&& forall|j: int|
            0 <= j < s.len() ==> self.next@[#[trigger] s[j] as int] == if j + 1 < s.len() {
                s[j + 1]
            } else {
                255u8
            }
        &&& forall|n: u8| n < 255 ==> (s.contains(n) <==> self.buffer@[n as int].free != 0)
    }

    /// The abstract contents never leave the addressable range.
    pub proof fn lemma_view_in_full_dom(self)
        ensures
            self@.dom().subset_of(full_dom()),
            self@.dom().finite(),
            self@.dom().len() <= 255 * 32,
    {
        lemma_full_dom();
        lemma_len_subset(self@.dom(), full_dom());
    }

    /// The live count is the cardinality of the abstract contents.
    pub proof fn lemma_size_is_live_count(self)
        requires
            self.wf(),
        ensures
            self.spec_size() == self@.dom().len(),
    {
    }

    /// A handle whose generation disagrees with its slot's current tag is
    /// dead, whatever the slot now holds: freeing a handle bumps the tag,
    /// so the freed handle — and any copy of it — is rejected even after
    /// the slot is reused for a new value.
    pub proof fn lemma_stale_handle_rejected(self, h: handle_t<T>)
        requires
            h.spec_gen() != self.gen_at(h.spec_node() as int, h.spec_inst() as int),
        ensures
            !self.live(h),
    {
    }

    /// A fresh arena: every slot free, every generation 1, all 255 nodes on
    /// the free-node list in ascending order.
    pub fn new() -> (r: Self)
        ensures
            r.wf(),
            r@ == Map::<(int, int), T>::empty(),
            r.spec_size() == 0,
            forall|n: int, i: int| 0 <= n < 255 && 0 <= i < 32 ==> r.gen_at(n, i) == 1,
    {
        let mut buffer: Vec<Node<T>> = Vec::new();
        let mut n: usize = 0;
        while n < 255
            invariant
                n <= 255,
                buffer@.len() == n,
                forall|k: int|
                    0 <= k < n ==> (#[trigger] buffer@[k]).data@.len() == 32 && buffer@[k].free
                        == 0xffff_ffffu32,
                forall|k: int, i: int|
                    0 <= k < n && 0 <= i < 32 ==> (#[trigger] buffer@[k].data@[i]).value is None
                        && buffer@[k].data@[i].gen == 1,
            decreases 255 - n,
        {
            let mut data: Vec<Slot<T>> = Vec::new();
            let mut i: usize = 0;
            while i < 32
                invariant
                    i <= 32,
                    data@.len() == i,
                    forall|j: int|
                        0 <= j < i ==> (#[trigger] data@[j]).value is None && data@[j].gen == 1,
                decreases 32 - i,
            {
                data.push(Slot { gen: 1, value: None });
                i += 1;
            }
            buffer.push(Node { data, free: 0xffff_ffff });
            n += 1;
        }
        let mut next: Vec<u8> = Vec::new();
        let mut n: usize = 0;
        while n < 255
            invariant
                n <= 255,
                next@.len() == n,
                forall|k: int|
                    0 <= k < n ==> #[trigger] next@[k] == if k + 1 < 255 {
                        (k + 1) as u8
                    } else {
                        255u8
                    },
            decreases 255 - n,
        {
            if n + 1 < 255 {
                next.push((n + 1) as u8);
            } else {
                next.push(255);
            }
            n += 1;
        }
        let r = SparceBuffer {
            buffer,
            next,
            free_list: 0,
            alloc_count: 0,
            free_order: Ghost(Seq::new(255, |j: int| j as u8)),
        };
        proof {
            assert forall|j: u32| j < 32 implies nth_bit(0xffff_ffffu32, j) by {
                assert(j < 32 ==> nth_bit(0xffff_ffffu32, j)) by (bit_vector);
            }
            assert forall|m: u8| m < 255 implies r.free_order@.contains(m) by {
                assert(r.free_order@[m as int] == m);
            }
            assert(r@.dom() =~= Set::<(int, int)>::empty());
            assert(r@ =~= Map::<(int, int), T>::empty());
        }
        r
    }

    /// A fresh cursor over the live values, starting before the first slot.
    pub fn Iter(&self) -> (it: SparceBufferIter)
        ensures
            it.valid_for(*self),
            it.seen() == Set::<(int, int)>::empty(),
            it.count() == 0,
    {
        let it = SparceBufferIter { node: 0, inst: 0, iter_count: 0, seen: Ghost(Set::empty()) };
        proof {
            assert(it.seen@ =~= Set::new(
                |p: (int, int)|
                    self@.dom().contains(p) && (p.0 < it.node as int || (p.0 == it.node as int
                        && p.1 < it.inst as int)),
            ));
        }
        it
    }

    /// The number of live values: allocations minus frees.
    pub fn Size(&self) -> (r: usize)
        ensures
            r == self.spec_size(),
    {
        self.alloc_count
    }

    /// Allocates a slot for `value` and returns its handle.
    ///
    /// Fails — returning the null handle and changing nothing — exactly when
    /// every slot of the arena is occupied.  On success the returned handle
    /// is fresh (its slot was not live), addresses the smallest free
    /// instance index of its node, and the contents gain exactly that one
    /// entry; no generation changes.
    pub fn Allocate(&mut self, value: T) -> (h: handle_t<T>)
        requires
            old(self).wf(),
        ensures
            final(self).wf(),
            h.spec_is_null() <==> old(self)@.dom() == full_dom(),
            h.spec_is_null() ==> *final(self) == *old(self),
            !h.spec_is_null() ==> {
                &&& !old(self)@.dom().contains(key_of(h))
                &&& final(self)@ == old(self)@.insert(key_of(h), value)
                &&& final(self).live(h)
                &&& final(self).spec_size() == old(self).spec_size() + 1
                &&& forall|n: int, i: int|
                    0 <= n < 255 && 0 <= i < 32 ==> final(self).gen_at(n, i) == old(self).gen_at(
                        n,
                        i,
                    )
                &&& forall|j: int|
                    0 <= j < key_of(h).1 ==> old(self)@.dom().contains((key_of(h).0, j))
            },
    {
        proof {
            self.lemma_view_in_full_dom();
        }
        if self.free_list == NULL_INDEX {
            proof {
                let s = self.free_order@;
                assert(s.len() == 0) by {
                    if s.len() > 0 {
                        assert(s[0] < 255);
                    }
                }
                assert forall|p: (int, int)| full_dom().contains(p) implies self@.dom().contains(
                    p,
                ) by {
                    let n = p.0;
                    let iu: u32 = p.1 as u32;
                    assert(!s.contains((n as u8)));
                    assert(self.buffer@[n].free == 0);
                    assert(!nth_bit(0u32, iu)) by (bit_vector);
                }
                assert(self@.dom() =~= full_dom());
            }
            return handle_t::null();
        }
        let n = self.free_list as usize;
        proof {
            let s = self.free_order@;
            assert(s.len() > 0 && s[0] == self.free_list);
            assert(s.contains(s[0]));
        }
        let mask = self.buffer[n].free;
        let mut i: u32 = 0;
        proof {
            assert(mask >> 0u32 == mask) by (bit_vector);
        }
        while (mask >> i) & 1 != 1
            invariant
                i <= 31,
                mask >> i != 0,
                forall|j: u32| j < i ==> !nth_bit(mask, j),
            decreases 32 - i,
        {
            proof {
                let ii = i;
                assert(ii < 31 && (mask >> ii) & 1 != 1 && mask >> ii != 0 ==> mask >> (ii + 1)
                    != 0) by (bit_vector);
                assert(ii == 31 && mask >> ii != 0 ==> (mask >> ii) & 1 == 1) by (bit_vector);
            }
            i += 1;
        }
        let ghost old_dom = self@.dom();
        let ghost k: (int, int) = (n as int, i as int);
        proof {
            assert(nth_bit(mask, i));
            assert(self.buffer@[n as int].data@[i as int].value is None);
            assert(!old_dom.contains(k));
            // the arena is not full: k is missing from the contents
            assert(old_dom != full_dom());
            lemma_full_dom();
            self.lemma_view_in_full_dom();
            old_dom.lemma_subset_not_in_lt(full_dom(), k);
            assert(self.alloc_count < 255 * 32);
        }
        let g = self.buffer[n].data[i as usize].gen;
        self.buffer[n].data[i as usize].value = Some(value);
        let new_mask = mask & !(1u32 << i);
        self.buffer[n].free = new_mask;
        self.alloc_count = self.alloc_count + 1;
        let result = handle_t::<T>::from(g, self.free_list, i as u8);
        proof {
            lemma_clear_bit(mask, i);
        }
        if new_mask == 0 {
            // the node is now full: unlink it from the free-node list
            self.free_list = self.next[n];
            proof {
                self.free_order@ = self.free_order@.drop_first();
            }
        }
        proof {
            let s = old(self).free_order@;
            let s2 = self.free_order@;
            assert forall|m: u8| m < 255 implies (s2.contains(m) <==> self.buffer@[m as int].free
                != 0) by {
                if m as int == n as int {
                    if new_mask == 0 {
                        if s2.contains(m) {
                            let j = choose|j: int| 0 <= j < s2.len() && s2[j] == m;
                            assert(s[j + 1] == m && s[0] == m);
                        }
                    } else {
                        assert(s.contains(m) && s[0] == m);
                        assert(s2 == s && s2[0] == m);
                    }
                } else {
                    if new_mask == 0 {
                        if s.contains(m) {
                            let j = choose|j: int| 0 <= j < s.len() && s[j] == m;
                            assert(j != 0);
                            assert(s2[j - 1] == m);
                        }
                        if s2.contains(m) {
                            let j = choose|j: int| 0 <= j < s2.len() && s2[j] == m;
                            assert(s[j + 1] == m);
                        }
                    }
                }
            }
            assert(self@ =~= old(self)@.insert(k, value));
            assert(old_dom.insert(k) =~= self@.dom());
            assert forall|j: int| 0 <= j < i implies old_dom.contains((n as int, j)) by {
                assert(!nth_bit(mask, j as u32));
            }
            assert(!result.spec_is_null());
            assert(self.wf());
        }
        result
    }

    /// Releases the slot a handle addresses.
    ///
    /// Freeing the null handle is an accepted no-op.  Freeing a live handle
    /// removes its entry from the contents and bumps the slot's generation
    /// (wrapping from 7 back to 1, never through 0), so the freed handle
    /// itself goes stale at once.  Any other handle is rejected, naming the
    /// reason, and nothing changes.
    #[verifier::rlimit(60)]
    pub fn Free(&mut self, h: handle_t<T>) -> (r: Result<(), HandleError>)
        requires
            old(self).wf(),
        ensures
            final(self).wf(),
            r is Ok <==> h.spec_is_null() || old(self).live(h),
            h.spec_is_null() ==> *final(self) == *old(self),
            r is Err ==> *final(self) == *old(self),
            r == Err::<(), HandleError>(HandleError::OutOfRange) <==> !h.spec_is_null()
                && h.spec_node() == 255,
            r == Err::<(), HandleError>(HandleError::SlotFree) <==> !h.spec_is_null()
                && h.spec_node() < 255 && !old(self)@.dom().contains(key_of(h)),
            r == Err::<(), HandleError>(HandleError::StaleGeneration) <==> !h.spec_is_null()
                && h.spec_node() < 255 && old(self)@.dom().contains(key_of(h)) && h.spec_gen()
                != old(self).gen_at(key_of(h).0, key_of(h).1),
            old(self).live(h) ==> {
                &&& final(self)@ == old(self)@.remove(key_of(h))
                &&& final(self).spec_size() == old(self).spec_size() - 1
                &&& final(self).gen_at(key_of(h).0, key_of(h).1) != h.spec_gen()
                &&& 1 <= final(self).gen_at(key_of(h).0, key_of(h).1) <= 7
                &&& forall|n: int, i: int|
                    0 <= n < 255 && 0 <= i < 32 && (n, i) != key_of(h) ==> final(self).gen_at(n, i)
                        == old(self).gen_at(n, i)
            },
    {
        if h.IsNull() {
            return Ok(());
        }
        let n = h.Node();
        if n == 255 {
            return Err(HandleError::OutOfRange);
        }
        let i = h.Instance();
        let nu = n as usize;
        let iu = i as usize;
        if self.buffer[nu].data[iu].value.is_none() {
            proof {
                assert(!self@.dom().contains(key_of(h)));
            }
            return Err(HandleError::SlotFree);
        }
        let g = self.buffer[nu].data[iu].gen;
        if g != h.Generation() {
            return Err(HandleError::StaleGeneration);
        }
        let ghost k: (int, int) = (nu as int, iu as int);
        let mask = self.buffer[nu].free;
        proof {
            assert(self@.dom().contains(k));
            assert(!nth_bit(mask, i as u32));
            self.lemma_view_in_full_dom();
            if self@.dom().len() == 0 {
                self@.dom().lemma_len0_is_empty();
            }
        }
        let bumped: u8 = if g == 7 {
            1
        } else {
            g + 1
        };
        self.buffer[nu].data[iu] = Slot { gen: bumped, value: None };
        let new_mask = mask | (1u32 << (i as u32));
        self.buffer[nu].free = new_mask;
        self.alloc_count = self.alloc_count - 1;
        proof {
            lemma_set_bit(mask, i as u32);
        }
        if mask == 0 {
            // first free slot of a full node: thread it back onto the list
            self.next[nu] = self.free_list;
            self.free_list = n;
            proof {
                self.free_order@ = seq![n].add(old(self).free_order@);
            }
        }
        proof {
            let s = old(self).free_order@;
            let s2 = self.free_order@;
            if mask == 0 {
                assert(!s.contains(n));
                assert forall|j: int| 0 <= j < s2.len() implies (#[trigger] s2[j]) < 255 by {
                    if j > 0 {
                        assert(s2[j] == s[j - 1]);
                    }
                }
                assert forall|j: int|
                    0 <= j < s2.len() implies self.next@[#[trigger] s2[j] as int] == if j + 1
                    < s2.len() {
                    s2[j + 1]
                } else {
                    255u8
                } by {
                    if j > 0 {
                        assert(s2[j] == s[j - 1] && s[j - 1] != n);
                    }
                }
                assert forall|m: u8| m < 255 implies (s2.contains(m)
                    <==> self.buffer@[m as int].free != 0) by {
                    if m == n {
                        assert(s2[0] == n);
                    } else {
                        if s.contains(m) {
                            let j = choose|j: int| 0 <= j < s.len() && s[j] == m;
                            assert(s2[j + 1] == m);
                        }
                        if s2.contains(m) {
                            let j = choose|j: int| 0 <= j < s2.len() && s2[j] == m;
                            assert(j != 0 && s[j - 1] == m);
                        }
                    }
                }
            } else {
                assert(s.contains(n) && s2 == s);
            }
            old(self).lemma_view_in_full_dom();
            assert(self@ =~= old(self)@.remove(k));
            assert(self@.dom() =~= old(self)@.dom().remove(k));
            assert(self.wf());
        }
        Ok(())
    }

    /// Reads the value a live handle addresses; rejects any other handle
    /// with the reason.
    pub fn get(&self, h: handle_t<T>) -> (r: Result<&T, HandleError>)
        requires
            self.wf(),
        ensures
            r is Ok <==> self.live(h),
            self.live(h) ==> r == Ok::<&T, HandleError>(&self@[key_of(h)]),
            !h.spec_is_null() && h.spec_node() == 255 <==> r == Err::<&T, HandleError>(
                HandleError::OutOfRange,
            ),
            h.spec_is_null() || (h.spec_node() < 255 && !self@.dom().contains(key_of(h))) <==> r
                == Err::<&T, HandleError>(HandleError::SlotFree),
            !h.spec_is_null() && h.spec_node() < 255 && self@.dom().contains(key_of(h))
                && h.spec_gen() != self.gen_at(key_of(h).0, key_of(h).1) <==> r == Err::<
                &T,
                HandleError,
            >(HandleError::StaleGeneration),
    {
        if h.IsNull() {
            return Err(HandleError::SlotFree);
        }
        let n = h.Node();
        if n == 255 {
            return Err(HandleError::OutOfRange);
        }
        let i = h.Instance();
        match &self.buffer[n as usize].data[i as usize].value {
            None => Err(HandleError::SlotFree),
            Some(v) => {
                if self.buffer[n as usize].data[i as usize].gen != h.Generation() {
                    Err(HandleError::StaleGeneration)
                } else {
                    Ok(v)
                }
            },
        }
    }

    /// Overwrites the value a live handle addresses; rejects any other
    /// handle with the reason and changes nothing.
    pub fn set(&mut self, h: handle_t<T>, value: T) -> (r: Result<(), HandleError>)
        requires
            old(self).wf(),
        ensures
            final(self).wf(),
            r is Ok <==> old(self).live(h),
            r is Err ==> *final(self) == *old(self),
            old(self).live(h) ==> {
                &&& final(self)@ == old(self)@.insert(key_of(h), value)
                &&& final(self).spec_size() == old(self).spec_size()
                &&& forall|n: int, i: int|
                    0 <= n < 255 && 0 <= i < 32 ==> final(self).gen_at(n, i) == old(self).gen_at(
                        n,
                        i,
                    )
            },
    {
        if h.IsNull() {
            return Err(HandleError::SlotFree);
        }
        let n = h.Node();
        if n == 255 {
            return Err(HandleError::OutOfRange);
        }
        let i = h.Instance();
        let nu = n as usize;
        let iu = i as usize;
        if self.buffer[nu].data[iu].value.is_none() {
            return Err(HandleError::SlotFree);
        }
        if self.buffer[nu].data[iu].gen != h.Generation() {
            return Err(HandleError::StaleGeneration);
        }
        self.buffer[nu].data[iu].value = Some(value);
        proof {
            assert(self@ =~= old(self)@.insert(key_of(h), value));
            assert(self@.dom() =~= old(self)@.dom());
            assert(self.wf());
        }
        Ok(())
    }
}

} // verus!
