//! The laws the cache upholds, stated over the device's specification
//! model and proved once and for all.

use vstd::prelude::*;
use crate::{PAGE_CACHE_SIZE, update_range};
use crate::interface::LowBlockDevice;
use crate::device::{GenericBlockDevice, lemma_page_split, lemma_abs_index};
use crate::recency::{entries_have_key, keys_distinct};

verus! {

/// The pages named by a sequence of recency entries.
spec fn key_set(es: Seq<(usize, usize)>) -> Set<usize> {
    Set::new(|p: usize| entries_have_key(es, p))
}

/// A sequence of entries with pairwise distinct keys names exactly as many
/// pages as it has entries.
proof fn lemma_key_set_card(es: Seq<(usize, usize)>)
    requires
        keys_distinct(es),
    ensures
        key_set(es).finite(),
        key_set(es).len() == es.len(),
    decreases es.len(),
{
    if es.len() == 0 {
        assert(key_set(es) =~= Set::<usize>::empty());
    } else {
        let es2 = es.drop_last();
        assert(keys_distinct(es2)) by {
            assert forall|i: int, j: int| 0 <= i < j < es2.len() implies (#[trigger] es2[i]).0 != (
            #[trigger] es2[j]).0 by {
                assert(es2[i] == es[i]);
                assert(es2[j] == es[j]);
            }
        }
        lemma_key_set_card(es2);
        let last = es.last().0;
        assert(!key_set(es2).contains(last)) by {
            if entries_have_key(es2, last) {
                let w = choose|w: int| 0 <= w < es2.len() && (#[trigger] es2[w]).0 == last;
                assert(es[w].0 == es[es.len() - 1].0);
            }
        }
        assert(key_set(es) =~= key_set(es2).insert(last)) by {
            assert forall|p: usize| key_set(es).contains(p) implies key_set(es2).insert(
                last,
            ).contains(p) by {
                let w = choose|w: int| 0 <= w < es.len() && (#[trigger] es[w]).0 == p;
                if w < es.len() - 1 {
                    assert(es2[w].0 == p);
                }
            }
            assert forall|p: usize| key_set(es2).insert(last).contains(p) implies key_set(
                es,
            ).contains(p) by {
                if p == last {
                    assert(es[es.len() - 1].0 == p);
                } else {
                    let w = choose|w: int| 0 <= w < es2.len() && (#[trigger] es2[w]).0 == p;
                    assert(es[w].0 == p);
                }
            }
        }
    }
}

/// Capacity invariant: however the device has been exercised, the number of
/// resident cache pages never exceeds the configured capacity. Every public
/// operation preserves `wf`, of which this is a consequence.
pub proof fn law_capacity_invariant<T: LowBlockDevice>(dev: GenericBlockDevice<T>)
    requires
        dev.wf(),
    ensures
        dev.resident().dom().finite(),
        dev.resident().dom().len() <= dev.capacity(),
{
    let es = dev.cache.entries();
    lemma_key_set_card(es);
    assert(dev.resident().dom() =~= key_set(es));
}

/// Read-after-write: writing bytes `b` at offset `o` of contents `c` and
/// then reading the same range returns exactly `b`. The write contract
/// turns the contents into `update_range(c, o, b)`, and the read contract
/// returns `subrange` of the contents, whether or not pages were evicted
/// and reloaded in between.
pub proof fn law_read_after_write(c: Seq<u8>, o: int, b: Seq<u8>)
    requires
        0 <= o,
        o + b.len() <= c.len(),
    ensures
        update_range(c, o, b).subrange(o, o + b.len()) == b,
{
    assert(update_range(c, o, b).subrange(o, o + b.len()) =~= b);
}

/// Eviction durability: a page that is not resident reads entirely from
/// the medium. Since every operation preserves the device contents, the
/// write-back performed by eviction must have completed before the page
/// left the cache — its pre-eviction writes are on the medium.
pub proof fn law_eviction_durability<T: LowBlockDevice>(dev: GenericBlockDevice<T>, p: usize)
    requires
        dev.wf(),
        !dev.resident().contains_key(p),
        ((p as int) + 1) * (PAGE_CACHE_SIZE as int) <= dev.size_spec(),
    ensures
        dev.content().subrange(
            (p as int) * (PAGE_CACHE_SIZE as int),
            ((p as int) + 1) * (PAGE_CACHE_SIZE as int),
        ) == dev.medium().subrange(
            (p as int) * (PAGE_CACHE_SIZE as int),
            ((p as int) + 1) * (PAGE_CACHE_SIZE as int),
        ),
{
    let base = (p as int) * (PAGE_CACHE_SIZE as int);
    assert forall|x: int| base <= x < base + PAGE_CACHE_SIZE implies #[trigger] dev.content()[x]
        == dev.medium()[x] by {
        lemma_abs_index(p as int, x - base);
    }
    assert(dev.content().subrange(
        (p as int) * (PAGE_CACHE_SIZE as int),
        ((p as int) + 1) * (PAGE_CACHE_SIZE as int),
    ) =~= dev.medium().subrange(
        (p as int) * (PAGE_CACHE_SIZE as int),
        ((p as int) + 1) * (PAGE_CACHE_SIZE as int),
    ));
}

/// No frame aliasing: two distinct resident pages never share a physical
/// frame handle.
pub proof fn law_no_frame_aliasing<T: LowBlockDevice>(
    dev: GenericBlockDevice<T>,
    p1: usize,
    p2: usize,
)
    requires
        dev.wf(),
        dev.resident().contains_key(p1),
        dev.resident().contains_key(p2),
        p1 != p2,
    ensures
        dev.handle_of(p1) != dev.handle_of(p2),
{
}

/// Idempotent flush: a device whose dirty set is empty — as it is right
/// after a flush — has nothing left to write: its medium already equals its
/// contents, and the flush contract then leaves the device untouched, so a
/// second flush performs no further transport I/O.
pub proof fn law_flush_idempotent<T: LowBlockDevice>(dev: GenericBlockDevice<T>)
    requires
        dev.wf(),
        dev.dirty_set() == Set::<usize>::empty(),
    ensures
        dev.medium() == dev.content(),
{
    assert forall|i: int| 0 <= i < dev.medium().len() implies dev.content()[i] == dev.medium()[i]
    by {
        lemma_page_split(i);
        let pg = (i / (PAGE_CACHE_SIZE as int)) as usize;
        if dev.resident().contains_key(pg) {
            assert(!dev.dirty_set().contains(pg));
            assert(dev.resident()[pg] == dev.medium().subrange(
                (pg as int) * (PAGE_CACHE_SIZE as int),
                ((pg as int) + 1) * (PAGE_CACHE_SIZE as int),
            ));
        }
    }
    assert(dev.medium() =~= dev.content());
}

} // verus!
