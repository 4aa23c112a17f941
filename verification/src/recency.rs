//! Trusted boundary around `lru::LruCache`, the bounded recency structure
//! that decides which cached page is evicted first.
//!
//! The cache is modelled by a sequence of `(page index, frame handle)`
//! entries ordered from most- to least-recently used, together with the
//! capacity the cache was constructed with.

use vstd::prelude::*;

verus! {

#[verifier::external_type_specification]
#[verifier::external_body]
#[verifier::reject_recursive_types(K)]
#[verifier::reject_recursive_types(V)]
#[verifier::reject_recursive_types(S)]
pub struct ExLruCache<K, V, S>(lru::LruCache<K, V, S>);

/// The entries of the recency structure, most recently used first,
/// as `(page index, frame handle)` pairs.
pub uninterp spec fn lru_entries(c: lru::LruCache<usize, usize, std::collections::hash_map::RandomState>) -> Seq<(usize, usize)>;

/// The capacity the recency structure was constructed with.
pub uninterp spec fn lru_capacity(c: lru::LruCache<usize, usize, std::collections::hash_map::RandomState>) -> nat;

/// Whether some entry of `es` carries the page index `k`.
pub open spec fn entries_have_key(es: Seq<(usize, usize)>, k: usize) -> bool {
    exists|j: int| 0 <= j < es.len() && (#[trigger] es[j]).0 == k
}

/// Whether the page indices of `es` are pairwise distinct.
pub open spec fn keys_distinct(es: Seq<(usize, usize)>) -> bool {
    forall|i: int, j: int| 0 <= i < j < es.len() ==> (#[trigger] es[i]).0 != (#[trigger] es[j]).0
}

/// Relies on `lru::LruCache::with_hasher`: builds an empty cache of the
/// given capacity.
#[verifier::external_body]
pub(crate) fn lru_new(cap: usize) -> (c: lru::LruCache<usize, usize, std::collections::hash_map::RandomState>)
    requires
        1 <= cap,
    ensures
        lru_entries(c) == Seq::<(usize, usize)>::empty(),
        lru_capacity(c) == cap,
{
    lru::LruCache::with_hasher(
        core::num::NonZeroUsize::new(cap).unwrap(),
        std::collections::hash_map::RandomState::new(),
    )
}

/// Relies on `lru::LruCache::len`: the number of entries held.
#[verifier::external_body]
pub(crate) fn lru_len(c: &lru::LruCache<usize, usize, std::collections::hash_map::RandomState>) -> (n: usize)
    ensures
        n == lru_entries(*c).len(),
{
    c.len()
}

/// Relies on `lru::LruCache::pop`: removes the entry with the given key, if
/// any, and returns its value; the relative order of the other entries is
/// unchanged.
#[verifier::external_body]
pub(crate) fn lru_pop(c: &mut lru::LruCache<usize, usize, std::collections::hash_map::RandomState>, k: usize) -> (r: Option<usize>)
    ensures
        lru_capacity(*final(c)) == lru_capacity(*old(c)),
        entries_have_key(lru_entries(*old(c)), k) ==> exists|i: int|
            {
                &&& 0 <= i < lru_entries(*old(c)).len()
                &&& lru_entries(*old(c))[i].0 == k
                &&& r == Some(lru_entries(*old(c))[i].1)
                &&& lru_entries(*final(c)) == lru_entries(*old(c)).remove(i)
            },
        !entries_have_key(lru_entries(*old(c)), k) ==> r == None::<usize>
            && lru_entries(*final(c)) == lru_entries(*old(c)),
{
    c.pop(&k)
}

/// Relies on `lru::LruCache::push`: inserts a key-value pair as the most
/// recently used entry. If the key is already present its value is replaced
/// and the old pair is returned; otherwise, if the cache is full, the least
/// recently used entry is removed and returned.
#[verifier::external_body]
pub(crate) fn lru_push(c: &mut lru::LruCache<usize, usize, std::collections::hash_map::RandomState>, k: usize, v: usize) -> (r: Option<
    (usize, usize),
>)
    ensures
        lru_capacity(*final(c)) == lru_capacity(*old(c)),
        entries_have_key(lru_entries(*old(c)), k) ==> exists|i: int|
            {
                &&& 0 <= i < lru_entries(*old(c)).len()
                &&& lru_entries(*old(c))[i].0 == k
                &&& r == Some((k, lru_entries(*old(c))[i].1))
                &&& lru_entries(*final(c)) == seq![(k, v)] + lru_entries(*old(c)).remove(i)
            },
        !entries_have_key(lru_entries(*old(c)), k) && lru_entries(*old(c)).len() < lru_capacity(
            *old(c),
        ) ==> r == None::<(usize, usize)> && lru_entries(*final(c)) == seq![(k, v)] + lru_entries(
            *old(c),
        ),
        !entries_have_key(lru_entries(*old(c)), k) && lru_entries(*old(c)).len()
            == lru_capacity(*old(c)) && lru_entries(*old(c)).len() > 0 ==> r == Some(
            lru_entries(*old(c)).last(),
        ) && lru_entries(*final(c)) == seq![(k, v)] + lru_entries(*old(c)).drop_last(),
{
    c.push(k, v)
}

/// Relies on `lru::LruCache::pop_lru`: removes and returns the least
/// recently used entry, or `None` if the cache is empty.
#[verifier::external_body]
pub(crate) fn lru_pop_lru(c: &mut lru::LruCache<usize, usize, std::collections::hash_map::RandomState>) -> (r: Option<(usize, usize)>)
    ensures
        lru_capacity(*final(c)) == lru_capacity(*old(c)),
        lru_entries(*old(c)).len() > 0 ==> r == Some(lru_entries(*old(c)).last()) && lru_entries(
            *final(c),
        ) == lru_entries(*old(c)).drop_last(),
        lru_entries(*old(c)).len() == 0 ==> r == None::<(usize, usize)> && lru_entries(*final(c))
            == lru_entries(*old(c)),
{
    c.pop_lru()
}

} // verus!
