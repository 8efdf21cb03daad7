//! Links between handles of different value types.
//!
//! Handles are scoped to their value type: a `handle_t<A>` and a
//! `handle_t<B>` live in different arenas even when their raw values
//! coincide.  A `LinkTable<A, B>` associates handles across that boundary —
//! a drawable with its pose, say — keyed by the raw value of the left-hand
//! handle.

use vstd::prelude::*;
use crate::handle::handle_t;

verus! {

/// The links recorded for `raw`: the first entry that carries it, or
/// nothing.
pub open spec fn find_links<A, B>(
    s: Seq<(handle_t<A>, Vec<handle_t<B>>)>,
    raw: u16,
) -> Seq<handle_t<B>>
    decreases s.len(),
{
    if s.len() == 0 {
        Seq::empty()
    } else if s[0].0.raw() == raw {
        s[0].1@
    } else {
        find_links(s.drop_first(), raw)
    }
}

/// Updating the first entry that carries `raw` rewrites that key's links
/// and no other's.
proof fn lemma_find_update<A, B>(
    s: Seq<(handle_t<A>, Vec<handle_t<B>>)>,
    i: int,
    e: (handle_t<A>, Vec<handle_t<B>>),
    raw: u16,
)
    requires
        0 <= i < s.len(),
        s[i].0.raw() == raw,
        e.0.raw() == raw,
        forall|j: int| 0 <= j < i ==> (#[trigger] s[j]).0.raw() != raw,
    ensures
        find_links(s.update(i, e), raw) == e.1@,
        forall|r2: u16| r2 != raw ==> find_links(s.update(i, e), r2) == find_links(s, r2),
    decreases s.len(),
{
    let s2 = s.update(i, e);
    if i == 0 {
        assert(s2[0] == e);
        assert(s2.drop_first() =~= s.drop_first());
        assert(find_links(s2, raw) == e.1@);
        assert forall|r2: u16| r2 != raw implies find_links(s2, r2) == find_links(s, r2) by {
            assert(find_links(s2, r2) == find_links(s2.drop_first(), r2));
            assert(find_links(s, r2) == find_links(s.drop_first(), r2));
        }
    } else {
        assert(s2[0] == s[0]);
        assert(s2.drop_first() =~= s.drop_first().update(i - 1, e));
        assert(s.drop_first()[i - 1] == s[i]);
        assert forall|j: int| 0 <= j < i - 1 implies (#[trigger] s.drop_first()[j]).0.raw()
            != raw by {
            assert(s.drop_first()[j] == s[j + 1]);
        }
        lemma_find_update(s.drop_first(), i - 1, e, raw);
        assert(s2[0].0.raw() != raw);
        assert(find_links(s2, raw) == find_links(s2.drop_first(), raw));
        assert(find_links(s2, raw) == e.1@);
        assert forall|r2: u16| r2 != raw implies find_links(s2, r2) == find_links(s, r2) by {
            if s[0].0.raw() == r2 {
                assert(find_links(s2, r2) == s2[0].1@);
            } else {
                assert(find_links(s2, r2) == find_links(s2.drop_first(), r2));
                assert(find_links(s, r2) == find_links(s.drop_first(), r2));
            }
        }
    }
}

/// Appending an entry for a key no earlier entry carries gives that key
/// the new links and leaves every other key alone.
proof fn lemma_find_push<A, B>(
    s: Seq<(handle_t<A>, Vec<handle_t<B>>)>,
    e: (handle_t<A>, Vec<handle_t<B>>),
    raw: u16,
)
    requires
        e.0.raw() == raw,
        forall|j: int| 0 <= j < s.len() ==> (#[trigger] s[j]).0.raw() != raw,
    ensures
        find_links(s.push(e), raw) == e.1@,
        forall|r2: u16| r2 != raw ==> find_links(s.push(e), r2) == find_links(s, r2),
    decreases s.len(),
{
    let s2 = s.push(e);
    if s.len() == 0 {
        assert(s2[0] == e);
        assert(find_links(s2, raw) == e.1@);
        assert forall|r2: u16| r2 != raw implies find_links(s2, r2) == find_links(s, r2) by {
            assert(s2.drop_first() =~= Seq::<(handle_t<A>, Vec<handle_t<B>>)>::empty());
            assert(find_links(s2, r2) == find_links(s2.drop_first(), r2));
        }
    } else {
        assert(s2[0] == s[0]);
        assert(s2.drop_first() =~= s.drop_first().push(e));
        assert forall|j: int| 0 <= j < s.drop_first().len() implies (#[trigger] s.drop_first()[j]).0.raw()
            != raw by {
            assert(s.drop_first()[j] == s[j + 1]);
        }
        lemma_find_push(s.drop_first(), e, raw);
        assert(s2[0].0.raw() != raw);
        assert(find_links(s2, raw) == find_links(s2.drop_first(), raw));
        assert forall|r2: u16| r2 != raw implies find_links(s2, r2) == find_links(s, r2) by {
            if s[0].0.raw() == r2 {
                assert(find_links(s2, r2) == s2[0].1@);
            } else {
                assert(find_links(s2, r2) == find_links(s2.drop_first(), r2));
                assert(find_links(s, r2) == find_links(s.drop_first(), r2));
            }
        }
    }
}

/// A table associating the handles of one value type with handles of
/// another.
pub struct LinkTable<A, B> {
    links: Vec<(handle_t<A>, Vec<handle_t<B>>)>,
}

impl<A, B> LinkTable<A, B> {
    /// The links recorded for a left-hand raw handle value.
    pub closed spec fn links_of(self, raw: u16) -> Seq<handle_t<B>> {
        find_links(self.links@, raw)
    }

    /// An empty table.
    pub fn new() -> (r: Self)
        ensures
            forall|raw: u16| r.links_of(raw) == Seq::<handle_t<B>>::empty(),
    {
        LinkTable { links: Vec::new() }
    }

    /// Records a link from `h1` to `h2`, after any links `h1` already has.
    pub fn Link(&mut self, h1: handle_t<A>, h2: handle_t<B>)
        ensures
            final(self).links_of(h1.raw()) == old(self).links_of(h1.raw()).push(h2),
            forall|raw: u16|
                raw != h1.raw() ==> final(self).links_of(raw) == old(self).links_of(raw),
    {
        let ghost s0 = self.links@;
        let mut i: usize = 0;
        while i < self.links.len()
            invariant
                self.links@ == s0,
                old(self).links@ == s0,
                i <= s0.len(),
                forall|j: int| 0 <= j < i ==> (#[trigger] s0[j]).0.raw() != h1.raw(),
            decreases s0.len() - i,
        {
            if self.links[i].0 == h1 {
                self.links[i].1.push(h2);
                proof {
                    let e = self.links@[i as int];
                    assert(self.links@ =~= s0.update(i as int, e));
                    assert(e.1@ == s0[i as int].1@.push(h2));
                    lemma_find_update(s0, i as int, e, h1.raw());
                    assert(find_links(s0, h1.raw()) == s0[i as int].1@) by {
                        lemma_find_at(s0, i as int, h1.raw());
                    }
                }
                return ;
            }
            i += 1;
        }
        let mut v: Vec<handle_t<B>> = Vec::new();
        v.push(h2);
        self.links.push((h1, v));
        proof {
            let e = self.links@[s0.len() as int];
            assert(self.links@ =~= s0.push(e));
            lemma_find_push(s0, e, h1.raw());
            assert(find_links(s0, h1.raw()) =~= Seq::<handle_t<B>>::empty()) by {
                lemma_find_none(s0, h1.raw());
            }
            assert(e.1@ =~= Seq::<handle_t<B>>::empty().push(h2));
        }
    }

    /// Every handle linked from `h1`, in the order the links were made.
    pub fn GetLinkedHandles(&self, h1: handle_t<A>) -> (r: Vec<handle_t<B>>)
        ensures
            r@ == self.links_of(h1.raw()),
    {
        let mut i: usize = 0;
        while i < self.links.len()
            invariant
                i <= self.links@.len(),
                forall|j: int| 0 <= j < i ==> (#[trigger] self.links@[j]).0.raw() != h1.raw(),
            decreases self.links@.len() - i,
        {
            if self.links[i].0 == h1 {
                let src = &self.links[i].1;
                let mut r: Vec<handle_t<B>> = Vec::new();
                let mut j: usize = 0;
                while j < src.len()
                    invariant
                        j <= src@.len(),
                        r@ == src@.take(j as int),
                    decreases src@.len() - j,
                {
                    r.push(src[j]);
                    proof {
                        assert(r@ =~= src@.take(j + 1));
                    }
                    j += 1;
                }
                proof {
                    assert(r@ =~= src@);
                    lemma_find_at(self.links@, i as int, h1.raw());
                }
                return r;
            }
            i += 1;
        }
        proof {
            lemma_find_none(self.links@, h1.raw());
        }
        Vec::new()
    }
}

/// The first entry carrying `raw` determines that key's links.
proof fn lemma_find_at<A, B>(s: Seq<(handle_t<A>, Vec<handle_t<B>>)>, i: int, raw: u16)
    requires
        0 <= i < s.len(),
        s[i].0.raw() == raw,
        forall|j: int| 0 <= j < i ==> (#[trigger] s[j]).0.raw() != raw,
    ensures
        find_links(s, raw) == s[i].1@,
    decreases s.len(),
{
    if i > 0 {
        lemma_find_at(s.drop_first(), i - 1, raw);
    }
}

/// A key no entry carries has no links.
proof fn lemma_find_none<A, B>(s: Seq<(handle_t<A>, Vec<handle_t<B>>)>, raw: u16)
    requires
        forall|j: int| 0 <= j < s.len() ==> (#[trigger] s[j]).0.raw() != raw,
    ensures
        find_links(s, raw) == Seq::<handle_t<B>>::empty(),
    decreases s.len(),
{
    if s.len() > 0 {
        lemma_find_none(s.drop_first(), raw);
    }
}

} // verus!
