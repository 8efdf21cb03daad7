//! A reference-counted slot arena.
//!
//! A `SparceBufferRc<T>` hands out the same generational handles as
//! [`crate::sparce_buffer::SparceBuffer`], but every slot carries a
//! reference count so that several owners — in this crate, several trie
//! versions — can share one value.  `Allocate` seeds the count at 1,
//! `BumpRef` raises it, and `Free` lowers it; the slot returns to the free
//! bitmask only when the count reaches zero.
//!
//! Nodes are created on demand, up to the 255 the 8-bit node field of a
//! handle can address, and nodes with a free slot are threaded onto a free
//! list through a `next` field living in the node itself, not in a side
//! array.  A node leaves the list when its bitmask reaches zero and is
//! threaded back on when a release gives it its first free slot again.

use vstd::prelude::*;
use vstd::set_lib::lemma_len_subset;
use crate::handle::handle_t;
use crate::sparce_buffer::{full_dom, key_of, lemma_clear_bit, lemma_full_dom, lemma_set_bit,
    nth_bit, HandleError};

verus! {

/// Sentinel `next` value marking the end of the threaded free list.
pub const RC_NULL_NEXT: i32 = -1;

/// One reference-counted slot: generation tag, count and occupant.
struct RcSlot<T> {
    gen: u8,
    rc: u64,
    value: Option<T>,
}

/// A block of 32 reference-counted slots, its free bitmask, and the `next`
/// link threading the free list through the nodes themselves.
struct RcNode<T> {
    data: Vec<RcSlot<T>>,
    free: u32,
    next: i32,
}

/// A growable arena of reference-counted slots addressed by generational
/// handles.
pub struct SparceBufferRc<T> {
    nodes: Vec<RcNode<T>>,
    free_list: i32,
    free_order: Ghost<Seq<u8>>,
}

impl<T> View for SparceBufferRc<T> {
    type V = Map<(int, int), T>;

    /// The abstract contents: each occupied `(node, instance)` pair mapped
    /// to its value.
    closed spec fn view(&self) -> Map<(int, int), T> {
        Map::new(
            |p: (int, int)|
                0 <= p.0 < self.nodes@.len() && 0 <= p.1 < 32
                    && self.nodes@[p.0].data@[p.1].value is Some,
            |p: (int, int)| self.nodes@[p.0].data@[p.1].value->Some_0,
        )
    }
}

impl<T> SparceBufferRc<T> {
    /// The number of nodes created so far.
    pub closed spec fn num_nodes(self) -> int {
        self.nodes@.len() as int
    }

    /// The generation tag currently stored at a slot.
    pub closed spec fn gen_at(self, n: int, i: int) -> u8 {
        self.nodes@[n].data@[i].gen
    }

    /// The reference count currently stored at a slot.
    pub closed spec fn rc_at(self, n: int, i: int) -> u64 {
        self.nodes@[n].data@[i].rc
    }

    /// A handle addresses a live slot and carries its current generation.
    pub open spec fn live(self, h: handle_t<T>) -> bool {
        &&& !h.spec_is_null()
        &&& h.spec_node() < 255
        &&& self@.dom().contains(key_of(h))
        &&& h.spec_gen() == self.gen_at(h.spec_node() as int, h.spec_inst() as int)
    }

    /// Structural well-formedness of the arena.
    pub closed spec fn wf(self) -> bool {
        &&& self.nodes@.len() <= 255
        &&& forall|n: int|
            0 <= n < self.nodes@.len() ==> (#[trigger] self.nodes@[n]).data@.len() == 32
        &&& forall|n: int, i: int|
            0 <= n < self.nodes@.len() && 0 <= i < 32 ==> (nth_bit(self.nodes@[n].free, i as u32)
                <==> (#[trigger] self.nodes@[n].data@[i]).value is None)
        &&& forall|n: int, i: int|
            0 <= n < self.nodes@.len() && 0 <= i < 32 ==> 1 <= (
            #[trigger] self.nodes@[n].data@[i]).gen <= 7
        &&& forall|n: int, i: int|
            0 <= n < self.nodes@.len() && 0 <= i < 32 ==> ((#[trigger] self.nodes@[n].data@[i]).value
                is Some ==> self.nodes@[n].data@[i].rc >= 1)
        &&& self.wf_free_list()
    }

    /// The free list: `free_order` spells out the chain that starts at
    /// `free_list` and runs through the nodes' own `next` fields, and holds
    /// exactly the created nodes with a free slot.
    spec fn wf_free_list(self) -> bool {
        let s = self.free_order@;
        &&& forall|j: int| 0 <= j < s.len() ==> (#[trigger] s[j]) < self.nodes@.len()
        &&& forall|j1: int, j2: int| 0 <= j1 < j2 < s.len() ==> #[trigger] s[j1] != #[trigger] s[j2]
        &&& self.free_list == if s.len() == 0 {
            RC_NULL_NEXT
        } else {
            s[0] as i32
        }
        &&& forall|j: int|
            0 <= j < s.len() ==> self.nodes@[#[trigger] s[j] as int].next == if j + 1 < s.len() {
                s[j + 1] as i32
            } else {
                RC_NULL_NEXT
            }
        &&& forall|n: u8|
            n < self.nodes@.len() ==> (s.contains(n) <==> self.nodes@[n as int].free != 0)
    }

    /// Every key of the abstract contents addresses a created node and a
    /// slot index inside it.
    pub proof fn lemma_dom_in_range(self)
        ensures
            forall|p: (int, int)|
                #[trigger] self@.dom().contains(p) ==> 0 <= p.0 < self.num_nodes() && 0 <= p.1
                    < 32,
    {
    }

    /// The abstract contents never leave the addressable range.
    pub proof fn lemma_view_in_full_dom(self)
        requires
            self.wf(),
        ensures
            self@.dom().subset_of(full_dom()),
            self@.dom().finite(),
            self@.dom().len() <= 255 * 32,
    {
        lemma_full_dom();
        lemma_len_subset(self@.dom(), full_dom());
    }

    /// A fresh arena with no nodes and nothing allocated.
    pub fn new() -> (r: Self)
        ensures
            r.wf(),
            r@ == Map::<(int, int), T>::empty(),
            r.num_nodes() == 0,
    {
        let r = SparceBufferRc {
            nodes: Vec::new(),
            free_list: RC_NULL_NEXT,
            free_order: Ghost(Seq::empty()),
        };
        proof {
            assert(r@.dom() =~= Set::<(int, int)>::empty());
            assert(r@ =~= Map::<(int, int), T>::empty());
        }
        r
    }

    /// Allocates a slot for `value`, seeding its reference count at 1, and
    /// returns its handle.
    ///
    /// A new node is created when every existing node is full; the arena
    /// only fails — returning the null handle and changing nothing — once
    /// all 255 nodes the handle encoding can address are occupied in every
    /// slot.  On success the handle is fresh, the contents gain exactly its
    /// entry, and no other slot's count or generation changes.
    #[verifier::rlimit(60)]
    pub fn Allocate(&mut self, value: T) -> (h: handle_t<T>)
        requires
            old(self).wf(),
        ensures
            final(self).wf(),
            h.spec_is_null() <==> old(self)@.dom() == full_dom(),
            h.spec_is_null() ==> *final(self) == *old(self),
            !h.spec_is_null() ==> {
                &&& !old(self)@.dom().contains(key_of(h))
                &&& final(self)@ == old(self)@.insert(key_of(h), value)
                &&& final(self).live(h)
                &&& final(self).rc_at(key_of(h).0, key_of(h).1) == 1
                &&& forall|n: int, i: int|
                    0 <= n < old(self).num_nodes() && 0 <= i < 32 ==> final(self).gen_at(n, i)
                        == old(self).gen_at(n, i)
                &&& forall|n: int, i: int|
                    0 <= n < old(self).num_nodes() && 0 <= i < 32 && (n, i) != key_of(h) ==> final(self).rc_at(n, i) == old(self).rc_at(n, i)
            },
    {
        if self.free_list == RC_NULL_NEXT {
            if self.nodes.len() == 255 {
                proof {
                    let s = self.free_order@;
                    assert(s.len() == 0) by {
                        if s.len() > 0 {
                            assert(s[0] < self.nodes@.len());
                        }
                    }
                    assert forall|p: (int, int)| full_dom().contains(p) implies self@.dom()
                        .contains(p) by {
                        let iu: u32 = p.1 as u32;
                        assert(!s.contains((p.0 as u8)));
                        assert(self.nodes@[p.0].free == 0);
                        assert(!nth_bit(0u32, iu)) by (bit_vector);
                    }
                    assert(self@.dom() =~= full_dom());
                }
                return handle_t::null();
            }
            let mut data: Vec<RcSlot<T>> = Vec::new();
            let mut i: usize = 0;
            while i < 32
                invariant
                    i <= 32,
                    data@.len() == i,
                    forall|j: int|
                        0 <= j < i ==> (#[trigger] data@[j]).value is None && data@[j].gen == 1
                            && data@[j].rc == 0,
                decreases 32 - i,
            {
                data.push(RcSlot { gen: 1, rc: 0, value: None });
                i += 1;
            }
            let idx = self.nodes.len();
            self.nodes.push(RcNode { data, free: 0xffff_ffff, next: RC_NULL_NEXT });
            self.free_list = idx as i32;
            proof {
                self.free_order@ = seq![idx as u8];
                assert forall|j: u32| j < 32 implies nth_bit(0xffff_ffffu32, j) by {
                    assert(j < 32 ==> nth_bit(0xffff_ffffu32, j)) by (bit_vector);
                }
                assert(self@ =~= old(self)@);
                assert forall|n: u8| n < self.nodes@.len() implies (self.free_order@.contains(n)
                    <==> self.nodes@[n as int].free != 0) by {
                    if n < idx as u8 {
                        assert(!old(self).free_order@.contains(n));
                        assert(self.nodes@[n as int].free == 0);
                        if self.free_order@.contains(n) {
                            let j = choose|j: int|
                                0 <= j < self.free_order@.len() && self.free_order@[j] == n;
                            assert(j == 0);
                        }
                    } else {
                        assert(self.free_order@[0] == idx as u8);
                    }
                }
                assert(self.wf());
            }
        }
        let ghost mid = *self;
        let n = self.free_list as usize;
        proof {
            let s = self.free_order@;
            assert(s.len() > 0 && s[0] as i32 == self.free_list);
            assert(s.contains(s[0]));
        }
        let mask = self.nodes[n].free;
        let mut i: u32 = 0;
        proof {
            assert(mask >> 0u32 == mask) by (bit_vector);
        }
        while (mask >> i) & 1 != 1
            invariant
                i <= 31,
                mask >> i != 0,
                forall|j: u32| j < i ==> !nth_bit(mask, j),
            decreases 32 - i,
        {
            proof {
                let ii = i;
                assert(ii < 31 && (mask >> ii) & 1 != 1 && mask >> ii != 0 ==> mask >> (ii + 1)
                    != 0) by (bit_vector);
                assert(ii == 31 && mask >> ii != 0 ==> (mask >> ii) & 1 == 1) by (bit_vector);
            }
            i += 1;
        }
        let ghost k: (int, int) = (n as int, i as int);
        proof {
            assert(nth_bit(mask, i));
            assert(self.nodes@[n as int].data@[i as int].value is None);
            assert(!self@.dom().contains(k));
        }
        let g = self.nodes[n].data[i as usize].gen;
        self.nodes[n].data[i as usize] = RcSlot { gen: g, rc: 1, value: Some(value) };
        let new_mask = mask & !(1u32 << i);
        self.nodes[n].free = new_mask;
        let result = handle_t::<T>::from(g, n as u8, i as u8);
        proof {
            lemma_clear_bit(mask, i);
        }
        if new_mask == 0 {
            // the node is now full: unlink it from the free list
            self.free_list = self.nodes[n].next;
            self.nodes[n].next = RC_NULL_NEXT;
            proof {
                self.free_order@ = self.free_order@.drop_first();
            }
        }
        proof {
            let s = mid.free_order@;
            let s2 = self.free_order@;
            assert forall|j: int|
                0 <= j < s2.len() implies self.nodes@[#[trigger] s2[j] as int].next == if j + 1
                < s2.len() {
                s2[j + 1] as i32
            } else {
                RC_NULL_NEXT
            } by {
                if new_mask == 0 {
                    assert(s2[j] == s[j + 1] && s[j + 1] != s[0]);
                } else {
                    assert(s2[j] == s[j]);
                    if j > 0 {
                        assert(s[j] != s[0]);
                    }
                }
            }
            assert forall|m: u8| m < self.nodes@.len() implies (s2.contains(m)
                <==> self.nodes@[m as int].free != 0) by {
                if m as int == n as int {
                    if new_mask == 0 {
                        if s2.contains(m) {
                            let j = choose|j: int| 0 <= j < s2.len() && s2[j] == m;
                            assert(s[j + 1] == m && s[0] == m);
                        }
                    } else {
                        assert(s.contains(m) && s[0] == m);
                        assert(s2 == s && s2[0] == m);
                    }
                } else {
                    if new_mask == 0 {
                        if s.contains(m) {
                            let j = choose|j: int| 0 <= j < s.len() && s[j] == m;
                            assert(j != 0);
                            assert(s2[j - 1] == m);
                        }
                        if s2.contains(m) {
                            let j = choose|j: int| 0 <= j < s2.len() && s2[j] == m;
                            assert(s[j + 1] == m);
                        }
                    }
                }
            }
            assert(self@ =~= mid@.insert(k, value));
            // a node created on demand adds no entry: the contents at `mid`
            // are still the caller's
            assert(mid@ =~= old(self)@);
            assert(!result.spec_is_null());
            assert(self.wf());
        }
        result
    }

    /// Reads the value a live handle addresses; rejects any other handle
    /// with the reason.
    pub fn Get(&self, h: handle_t<T>) -> (r: Result<&T, HandleError>)
        requires
            self.wf(),
        ensures
            r is Ok <==> self.live(h),
            self.live(h) ==> r == Ok::<&T, HandleError>(&self@[key_of(h)]),
    {
        if h.IsNull() {
            return Err(HandleError::SlotFree);
        }
        let n = h.Node() as usize;
        if n >= self.nodes.len() {
            return Err(HandleError::OutOfRange);
        }
        let i = h.Instance() as usize;
        match &self.nodes[n].data[i].value {
            None => Err(HandleError::SlotFree),
            Some(v) => {
                if self.nodes[n].data[i].gen != h.Generation() {
                    Err(HandleError::StaleGeneration)
                } else {
                    Ok(v)
                }
            },
        }
    }

    /// Overwrites the value a live handle addresses, leaving its count and
    /// generation alone; rejects any other handle and changes nothing.
    pub fn set(&mut self, h: handle_t<T>, value: T) -> (r: Result<(), HandleError>)
        requires
            old(self).wf(),
        ensures
            final(self).wf(),
            r is Ok <==> old(self).live(h),
            r is Err ==> *final(self) == *old(self),
            old(self).live(h) ==> {
                &&& final(self)@ == old(self)@.insert(key_of(h), value)
                &&& final(self).num_nodes() == old(self).num_nodes()
                &&& forall|n: int, i: int|
                    0 <= n < old(self).num_nodes() && 0 <= i < 32 ==> final(self).gen_at(n, i)
                        == old(self).gen_at(n, i) && final(self).rc_at(n, i) == old(self).rc_at(
                        n,
                        i,
                    )
            },
    {
        if h.IsNull() {
            return Err(HandleError::SlotFree);
        }
        let n = h.Node() as usize;
        if n >= self.nodes.len() {
            return Err(HandleError::OutOfRange);
        }
        let i = h.Instance() as usize;
        if self.nodes[n].data[i].value.is_none() {
            return Err(HandleError::SlotFree);
        }
        if self.nodes[n].data[i].gen != h.Generation() {
            return Err(HandleError::StaleGeneration);
        }
        let g = self.nodes[n].data[i].gen;
        let rc = self.nodes[n].data[i].rc;
        self.nodes[n].data[i] = RcSlot { gen: g, rc, value: Some(value) };
        proof {
            assert(self@ =~= old(self)@.insert(key_of(h), value));
            assert(self.wf());
        }
        Ok(())
    }

    /// Raises the reference count of the slot a live handle addresses.
    ///
    /// On a handle that addresses no live slot — the null handle, a missing
    /// node, a free slot, a stale generation — this is the documented
    /// defensive no-op.  The count saturates at its maximum rather than
    /// wrapping.
    pub fn BumpRef(&mut self, h: handle_t<T>)
        requires
            old(self).wf(),
        ensures
            final(self).wf(),
            !old(self).live(h) ==> *final(self) == *old(self),
            old(self).live(h) ==> {
                &&& final(self)@ == old(self)@
                &&& final(self).num_nodes() == old(self).num_nodes()
                &&& ({
                    let rc0 = old(self).rc_at(key_of(h).0, key_of(h).1);
                    final(self).rc_at(key_of(h).0, key_of(h).1) as int == if rc0 == u64::MAX {
                        rc0 as int
                    } else {
                        rc0 + 1
                    }
                })
                &&& forall|n: int, i: int|
                    0 <= n < old(self).num_nodes() && 0 <= i < 32 && (n, i) != key_of(h) ==> final(self).rc_at(n, i) == old(self).rc_at(n, i)
                &&& forall|n: int, i: int|
                    0 <= n < old(self).num_nodes() && 0 <= i < 32 ==> final(self).gen_at(n, i)
                        == old(self).gen_at(n, i)
            },
    {
        if h.IsNull() {
            return ;
        }
        let n = h.Node() as usize;
        if n >= self.nodes.len() {
            return ;
        }
        let i = h.Instance() as usize;
        if self.nodes[n].data[i].value.is_none() {
            return ;
        }
        if self.nodes[n].data[i].gen != h.Generation() {
            return ;
        }
        let rc = self.nodes[n].data[i].rc;
        if rc < u64::MAX {
            self.nodes[n].data[i].rc = rc + 1;
        }
        proof {
            assert(self@ =~= old(self)@);
            assert(self.wf());
        }
    }

    /// Lowers the reference count of the slot a live handle addresses.
    ///
    /// `Ok(false)` leaves the slot live with its count lowered by one.
    /// `Ok(true)` says the count reached zero: the slot was released — its
    /// entry leaves the contents, its bit returns to the free bitmask, its
    /// generation is bumped (wrapping from 7 back to 1), and its node is
    /// threaded back onto the free list if the release gave it its first
    /// free slot.  Freeing the null handle is an accepted no-op; any other
    /// dead handle is rejected, naming the reason, and nothing changes.
    #[verifier::rlimit(60)]
    pub fn Free(&mut self, h: handle_t<T>) -> (r: Result<bool, HandleError>)
        requires
            old(self).wf(),
        ensures
            final(self).wf(),
            r is Ok <==> h.spec_is_null() || old(self).live(h),
            h.spec_is_null() ==> *final(self) == *old(self) && r == Ok::<bool, HandleError>(false),
            r is Err ==> *final(self) == *old(self),
            old(self).live(h) ==> {
                &&& final(self).num_nodes() == old(self).num_nodes()
                &&& r == Ok::<bool, HandleError>(old(self).rc_at(key_of(h).0, key_of(h).1) == 1)
                &&& old(self).rc_at(key_of(h).0, key_of(h).1) > 1 ==> {
                    &&& final(self)@ == old(self)@
                    &&& final(self).rc_at(key_of(h).0, key_of(h).1) == old(self).rc_at(
                        key_of(h).0,
                        key_of(h).1,
                    ) - 1
                    &&& forall|n: int, i: int|
                        0 <= n < old(self).num_nodes() && 0 <= i < 32 ==> final(self).gen_at(n, i)
                            == old(self).gen_at(n, i)
                }
                &&& old(self).rc_at(key_of(h).0, key_of(h).1) == 1 ==> {
                    &&& final(self)@ == old(self)@.remove(key_of(h))
                    &&& final(self).gen_at(key_of(h).0, key_of(h).1) != h.spec_gen()
                    &&& forall|n: int, i: int|
                        0 <= n < old(self).num_nodes() && 0 <= i < 32 && (n, i) != key_of(h)
                            ==> final(self).gen_at(n, i) == old(self).gen_at(n, i)
                }
                &&& forall|n: int, i: int|
                    0 <= n < old(self).num_nodes() && 0 <= i < 32 && (n, i) != key_of(h) ==> final(self).rc_at(n, i) == old(self).rc_at(n, i)
            },
    {
        if h.IsNull() {
            return Ok(false);
        }
        let n = h.Node() as usize;
        if n >= self.nodes.len() {
            return Err(HandleError::OutOfRange);
        }
        let i = h.Instance() as usize;
        if self.nodes[n].data[i].value.is_none() {
            return Err(HandleError::SlotFree);
        }
        if self.nodes[n].data[i].gen != h.Generation() {
            return Err(HandleError::StaleGeneration);
        }
        let rc = self.nodes[n].data[i].rc;
        if rc > 1 {
            self.nodes[n].data[i].rc = rc - 1;
            proof {
                assert(self@ =~= old(self)@);
                assert(self.wf());
            }
            return Ok(false);
        }
        // the last reference is gone: release the slot
        let g = self.nodes[n].data[i].gen;
        let bumped: u8 = if g == 7 {
            1
        } else {
            g + 1
        };
        let ghost k: (int, int) = (n as int, i as int);
        let mask = self.nodes[n].free;
        proof {
            assert(!nth_bit(mask, h.spec_inst() as u32));
        }
        self.nodes[n].data[i] = RcSlot { gen: bumped, rc: 0, value: None };
        let new_mask = mask | (1u32 << (i as u32));
        self.nodes[n].free = new_mask;
        proof {
            lemma_set_bit(mask, i as u32);
        }
        if mask == 0 {
            // first free slot of a full node: thread it back onto the list
            self.nodes[n].next = self.free_list;
            self.free_list = n as i32;
            proof {
                self.free_order@ = seq![n as u8].add(old(self).free_order@);
            }
        }
        proof {
            let s = old(self).free_order@;
            let s2 = self.free_order@;
            if mask == 0 {
                assert(!s.contains(n as u8));
                assert forall|j: int| 0 <= j < s2.len() implies (#[trigger] s2[j])
                    < self.nodes@.len() by {
                    if j > 0 {
                        assert(s2[j] == s[j - 1]);
                    }
                }
                assert forall|j: int|
                    0 <= j < s2.len() implies self.nodes@[#[trigger] s2[j] as int].next == if j + 1
                    < s2.len() {
                    s2[j + 1] as i32
                } else {
                    RC_NULL_NEXT
                } by {
                    if j > 0 {
                        assert(s2[j] == s[j - 1] && s[j - 1] != n as u8);
                    }
                }
                assert forall|m: u8| m < self.nodes@.len() implies (s2.contains(m)
                    <==> self.nodes@[m as int].free != 0) by {
                    if m as int == n as int {
                        assert(s2[0] == n as u8);
                    } else {
                        if s.contains(m) {
                            let j = choose|j: int| 0 <= j < s.len() && s[j] == m;
                            assert(s2[j + 1] == m);
                        }
                        if s2.contains(m) {
                            let j = choose|j: int| 0 <= j < s2.len() && s2[j] == m;
                            assert(j != 0 && s[j - 1] == m);
                        }
                    }
                }
            } else {
                assert(s.contains(n as u8) && s2 == s);
            }
            assert(self@ =~= old(self)@.remove(k));
            assert(self.wf());
        }
        Ok(true)
    }
}

} // verus!
