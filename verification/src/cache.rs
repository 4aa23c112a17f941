//! The page cache proper: the LRU-bounded mapping from logical page index to
//! the frame tracker holding that page's bytes, with dirty-page tracking.

use vstd::prelude::*;
use std::collections::HashMap;
use crate::PAGE_CACHE_SIZE;
use crate::frame::FrameTracker;
use crate::recency::{lru_entries, lru_capacity, entries_have_key, keys_distinct, lru_new};

verus! {

/// The LRU-bounded page cache. `lru` holds `(page index, frame handle)`
/// entries in recency order and decides eviction; `frames` holds the frame
/// tracker of each resident page; `dirty` lists the resident pages whose
/// frame differs from the backing medium; `next_handle` is the frame
/// allocator's high-water mark, so every live handle is below it and fresh
/// handles never collide with live ones.
pub struct PageCache {
    pub(crate) lru: lru::LruCache<usize, usize, std::collections::hash_map::RandomState>,
    pub(crate) frames: HashMap<usize, FrameTracker>,
    pub(crate) dirty: Vec<usize>,
    pub(crate) next_handle: usize,
    pub(crate) cap: usize,
}

impl PageCache {
    /// The recency entries, most recently used first.
    pub open(crate) spec fn entries(self) -> Seq<(usize, usize)> {
        lru_entries(self.lru)
    }

    /// The bytes of each resident page.
    pub open(crate) spec fn resident(self) -> Map<usize, Seq<u8>> {
        Map::new(
            |p: usize| self.frames@.contains_key(p),
            |p: usize| self.frames@[p].bytes(),
        )
    }

    /// The frame handle of a resident page.
    pub open(crate) spec fn handle_of(self, p: usize) -> usize {
        self.frames@[p].id()
    }

    /// Whether page `p` is marked dirty.
    pub open(crate) spec fn dirty_has(self, p: usize) -> bool {
        list_has(self.dirty@, p)
    }

    /// The set of dirty pages.
    pub open spec fn dirty_set(self) -> Set<usize> {
        Set::new(|p: usize| self.dirty_has(p))
    }

    /// The configured capacity: the number of frames the cache may hold.
    pub open(crate) spec fn capacity(self) -> nat {
        self.cap as nat
    }

    /// Well-formedness: the recency entries and the frame map cover the same
    /// pages and agree on handles; entries stay within capacity; live frame
    /// handles are pairwise distinct and below the allocation mark; every
    /// frame holds exactly one page's worth of bytes; and every dirty page
    /// is resident.
    pub open(crate) spec fn wf(self) -> bool {
        &&& 1 <= self.cap
        &&& lru_capacity(self.lru) == self.cap as nat
        &&& keys_distinct(self.entries())
        &&& self.entries().len() <= self.cap
        &&& forall|p: usize| #[trigger] self.frames@.contains_key(p) <==> entries_have_key(self.entries(), p)
        &&& forall|i: int| 0 <= i < self.entries().len() ==> self.frames@.contains_key(
            (#[trigger] self.entries()[i]).0,
        ) && self.frames@[self.entries()[i].0].id() == self.entries()[i].1
        &&& forall|p: usize| #[trigger] self.frames@.contains_key(p) ==> self.frames@[p].bytes().len()
            == PAGE_CACHE_SIZE && self.frames@[p].id() < self.next_handle
        &&& forall|p1: usize, p2: usize| #[trigger] self.frames@.contains_key(p1)
            && #[trigger] self.frames@.contains_key(p2) && p1 != p2 ==> self.frames@[p1].id()
            != self.frames@[p2].id()
        &&& forall|i: int, j: int| 0 <= i < j < self.dirty@.len() ==> self.dirty@[i] != self.dirty@[j]
        &&& forall|i: int| 0 <= i < self.dirty@.len() ==> self.frames@.contains_key(
            #[trigger] self.dirty@[i],
        )
    }

    /// An empty cache bounded to `cap` frames.
    pub fn new(cap: usize) -> (r: PageCache)
        requires
            1 <= cap,
        ensures
            r.wf(),
            r.capacity() == cap,
            r.entries().len() == 0,
            r.resident() == Map::<usize, Seq<u8>>::empty(),
            r.dirty_set() == Set::<usize>::empty(),
    {
        let r = PageCache {
            lru: lru_new(cap),
            frames: HashMap::new(),
            dirty: Vec::new(),
            next_handle: 0,
            cap,
        };
        proof {
            broadcast use vstd::std_specs::hash::group_hash_axioms;

            assert(r.resident() =~= Map::<usize, Seq<u8>>::empty());
            assert(r.dirty_set() =~= Set::<usize>::empty());
        }
        r
    }
}

/// Whether `p` occurs in `s`.
pub open spec fn list_has(s: Seq<usize>, p: usize) -> bool {
    exists|i: int| 0 <= i < s.len() && s[i] == p
}

/// Marks page `k` dirty, keeping the dirty list free of duplicates.
pub(crate) fn mark_dirty(d: &mut Vec<usize>, k: usize)
    requires
        forall|i: int, j: int| 0 <= i < j < old(d)@.len() ==> old(d)@[i] != old(d)@[j],
    ensures
        forall|i: int, j: int| 0 <= i < j < final(d)@.len() ==> final(d)@[i] != final(d)@[j],
        forall|p: usize| #[trigger] list_has(final(d)@, p) <==> (p == k || list_has(old(d)@, p)),
{
    let mut i: usize = 0;
    while i < d.len()
        invariant
            i <= d@.len(),
            d@ == old(d)@,
            forall|a: int, b: int| 0 <= a < b < d@.len() ==> d@[a] != d@[b],
            forall|j: int| 0 <= j < i ==> d@[j] != k,
        decreases d@.len() - i,
    {
        if d[i] == k {
            proof {
                assert(list_has(d@, k)) by {
                    assert(d@[i as int] == k);
                }
            }
            return ;
        }
        i += 1;
    }
    d.push(k);
    proof {
        let pre = old(d)@;
        assert forall|a: int, b: int| 0 <= a < b < d@.len() implies d@[a] != d@[b] by {
            if b == pre.len() {
                assert(pre[a] != k);
            } else {
                assert(pre[a] != pre[b]);
            }
        }
        assert forall|p: usize| #[trigger] list_has(d@, p) implies (p == k || list_has(pre, p)) by {
            let w = choose|w: int| 0 <= w < d@.len() && d@[w] == p;
            if w < pre.len() {
                assert(pre[w] == p);
            }
        }
        assert forall|p: usize| p == k || list_has(pre, p) implies #[trigger] list_has(d@, p) by {
            if p == k {
                assert(d@[pre.len() as int] == k);
            } else {
                let w = choose|w: int| 0 <= w < pre.len() && pre[w] == p;
                assert(d@[w] == p);
            }
        }
    }
}

/// Removes page `k` from the dirty list, if present.
pub(crate) fn clear_dirty(d: &mut Vec<usize>, k: usize)
    requires
        forall|i: int, j: int| 0 <= i < j < old(d)@.len() ==> old(d)@[i] != old(d)@[j],
    ensures
        forall|i: int, j: int| 0 <= i < j < final(d)@.len() ==> final(d)@[i] != final(d)@[j],
        forall|p: usize| #[trigger] list_has(final(d)@, p) <==> (p != k && list_has(old(d)@, p)),
{
    let mut i: usize = 0;
    while i < d.len()
        invariant
            i <= d@.len(),
            d@ == old(d)@,
            forall|a: int, b: int| 0 <= a < b < d@.len() ==> d@[a] != d@[b],
            forall|j: int| 0 <= j < i ==> d@[j] != k,
        decreases d@.len() - i,
    {
        if d[i] == k {
            let ghost pre = d@;
            let ghost iw: int = i as int;
            d.swap_remove(i);
            proof {
                assert(d@ == pre.update(iw, pre.last()).drop_last());
                assert(pre[iw] == k);
                assert forall|a: int, b: int| 0 <= a < b < d@.len() implies d@[a] != d@[b] by {
                    assert(d@[a] == if a == iw { pre.last() } else { pre[a] });
                    assert(d@[b] == if b == iw { pre.last() } else { pre[b] });
                }
                assert forall|p: usize| #[trigger] list_has(d@, p) implies (p != k && list_has(
                    pre,
                    p,
                )) by {
                    let w = choose|w: int| 0 <= w < d@.len() && d@[w] == p;
                    if w == iw {
                        assert(pre[pre.len() - 1] == p);
                        assert(iw < pre.len() - 1 ==> pre[iw] != pre[pre.len() - 1]);
                    } else {
                        assert(pre[w] == p);
                        assert(w != iw ==> pre[w] != pre[iw]);
                    }
                }
                assert forall|p: usize| p != k && list_has(pre, p) implies #[trigger] list_has(
                    d@,
                    p,
                ) by {
                    let w = choose|w: int| 0 <= w < pre.len() && pre[w] == p;
                    if w == pre.len() - 1 {
                        assert(w != iw);
                        assert(d@[iw] == p);
                    } else {
                        assert(d@[w] == p);
                    }
                }
            }
            return ;
        }
        i += 1;
    }
    proof {
        assert forall|p: usize| #[trigger] list_has(d@, p) implies p != k by {
            let w = choose|w: int| 0 <= w < d@.len() && d@[w] == p;
        }
    }
}

} // verus!
