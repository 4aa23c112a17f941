//! The generic block device: byte-granular reads, writes and flush over a
//! sector-granular transport, decomposed into page-sized accesses through
//! the LRU page cache.

use vstd::prelude::*;
use crate::{DevError, PAGE_CACHE_SIZE, SECTOR_SIZE, SECTORS_PER_PAGE, update_range};
use crate::interface::LowBlockDevice;
use crate::cache::{PageCache, mark_dirty, clear_dirty};
use crate::frame::FrameTracker;
use crate::recency::{
    lru_entries, lru_capacity, entries_have_key, lru_len, lru_pop, lru_push, lru_pop_lru,
};

verus! {

/// Splits a byte address into its page index and intra-page offset.
pub(crate) proof fn lemma_page_split(i: int)
    requires
        0 <= i,
    ensures
        i == (i / (PAGE_CACHE_SIZE as int)) * (PAGE_CACHE_SIZE as int) + i % (
        PAGE_CACHE_SIZE as int),
        0 <= i % (PAGE_CACHE_SIZE as int) < PAGE_CACHE_SIZE,
        0 <= i / (PAGE_CACHE_SIZE as int),
{
    vstd::arithmetic::div_mod::lemma_fundamental_div_mod(i, PAGE_CACHE_SIZE as int);
    vstd::arithmetic::div_mod::lemma_mod_bound(i, PAGE_CACHE_SIZE as int);
}

/// The byte address `p * PAGE_CACHE_SIZE + j` lies in page `p` at offset `j`.
pub(crate) proof fn lemma_abs_index(p: int, j: int)
    requires
        0 <= p,
        0 <= j < PAGE_CACHE_SIZE,
    ensures
        (p * (PAGE_CACHE_SIZE as int) + j) / (PAGE_CACHE_SIZE as int) == p,
        (p * (PAGE_CACHE_SIZE as int) + j) % (PAGE_CACHE_SIZE as int) == j,
{
    vstd::arithmetic::div_mod::lemma_fundamental_div_mod_converse(
        p * (PAGE_CACHE_SIZE as int) + j,
        PAGE_CACHE_SIZE as int,
        p,
        j,
    );
}

/// Writing a further slice of `b` right after an already written prefix of
/// `b` is one longer prefix write.
pub(crate) proof fn lemma_update_range_chain(c: Seq<u8>, off: int, b: Seq<u8>, n1: int, n2: int)
    requires
        0 <= off,
        off + b.len() <= c.len(),
        0 <= n1 <= n2 <= b.len(),
    ensures
        update_range(update_range(c, off, b.take(n1)), off + n1, b.subrange(n1, n2))
            == update_range(c, off, b.take(n2)),
{
    let lhs = update_range(update_range(c, off, b.take(n1)), off + n1, b.subrange(n1, n2));
    let rhs = update_range(c, off, b.take(n2));
    assert forall|i: int| 0 <= i < c.len() implies lhs[i] == rhs[i] by {
        if off + n1 <= i < off + n2 {
            assert(lhs[i] == b.subrange(n1, n2)[i - (off + n1)]);
        } else if off <= i < off + n1 {
            assert(lhs[i] == b.take(n1)[i - off]);
        }
    }
    assert(lhs =~= rhs);
}

/// The public facade: a low-level transport combined with the page cache,
/// exposing byte-granular read, write, flush and size — the block-device
/// interface the filesystem layer consumes, carried here as inherent
/// methods with contracts rather than as a separate trait.
pub struct GenericBlockDevice<T: LowBlockDevice> {
    pub(crate) transport: T,
    pub(crate) cache: PageCache,
}

impl<T: LowBlockDevice> GenericBlockDevice<T> {
    /// The bytes the backing medium holds.
    pub open(crate) spec fn medium(self) -> Seq<u8> {
        self.transport.medium()
    }

    /// The bytes of each resident cached page.
    pub open(crate) spec fn resident(self) -> Map<usize, Seq<u8>> {
        self.cache.resident()
    }

    /// The set of dirty pages.
    pub open(crate) spec fn dirty_set(self) -> Set<usize> {
        self.cache.dirty_set()
    }

    /// The configured cache capacity, in frames.
    pub open(crate) spec fn capacity(self) -> nat {
        self.cache.capacity()
    }

    /// The frame handle of a resident page.
    pub open(crate) spec fn handle_of(self, p: usize) -> usize {
        self.cache.handle_of(p)
    }

    /// The device size in bytes.
    pub open spec fn size_spec(self) -> int {
        self.medium().len() as int
    }

    /// The bytes a caller observes: the cached bytes of resident pages, the
    /// medium's bytes everywhere else.
    pub open spec fn content(self) -> Seq<u8> {
        Seq::new(
            self.medium().len(),
            |i: int|
                {
                    let p = (i / (PAGE_CACHE_SIZE as int)) as usize;
                    if self.resident().contains_key(p) {
                        self.resident()[p][i % (PAGE_CACHE_SIZE as int)]
                    } else {
                        self.medium()[i]
                    }
                },
        )
    }

    /// Whether the frame-handle counter has reached its machine limit; only
    /// then may an operation report `ResourceExhausted`.
    pub open(crate) spec fn handles_exhausted(self) -> bool {
        self.cache.next_handle == usize::MAX
    }

    /// Whether every page the byte range `[offset, offset + len)` touches
    /// is resident in the cache.
    pub open spec fn range_resident(self, offset: int, len: int) -> bool {
        forall|p: int|
            offset / (PAGE_CACHE_SIZE as int) <= p <= (offset + len - 1) / (
            PAGE_CACHE_SIZE as int) ==> #[trigger] self.resident().contains_key(p as usize)
    }

    /// Well-formedness: the cache is well formed, the medium is a whole
    /// number of pages no longer than the address space, every resident page
    /// lies within the medium, and every resident page that is not dirty
    /// agrees with the medium (so flushing the dirty pages synchronizes the
    /// whole device).
    pub open(crate) spec fn wf(self) -> bool {
        &&& self.cache.wf()
        &&& self.medium().len() as int % (PAGE_CACHE_SIZE as int) == 0
        &&& self.medium().len() <= usize::MAX
        &&& forall|p: usize| #[trigger] self.resident().contains_key(p) ==> ((p as int) + 1) * (
        PAGE_CACHE_SIZE as int) <= self.medium().len()
        &&& forall|p: usize| #[trigger] self.resident().contains_key(p) && !self.dirty_set().contains(
            p,
        ) ==> self.resident()[p] == self.medium().subrange(
            (p as int) * (PAGE_CACHE_SIZE as int),
            ((p as int) + 1) * (PAGE_CACHE_SIZE as int),
        )
    }

    /// Combines a transport with an empty page cache of `cache_frames`
    /// frames. The medium must be a whole number of pages.
    pub fn new(transport: T, cache_frames: usize) -> (r: GenericBlockDevice<T>)
        requires
            1 <= cache_frames,
            transport.medium().len() as int % (PAGE_CACHE_SIZE as int) == 0,
            transport.medium().len() <= usize::MAX,
        ensures
            r.wf(),
            r.medium() == transport.medium(),
            r.content() == transport.medium(),
            r.resident() == Map::<usize, Seq<u8>>::empty(),
            r.dirty_set() == Set::<usize>::empty(),
            r.capacity() == cache_frames,
    {
        let r = GenericBlockDevice { transport, cache: PageCache::new(cache_frames) };
        proof {
            assert forall|i: int| 0 <= i < r.medium().len() implies r.content()[i] == r.medium()[i]
            by {
                lemma_page_split(i);
            }
            assert(r.content() =~= r.medium());
        }
        r
    }

    /// The device size in bytes: the transport's sector capacity times the
    /// sector size. Queried from the transport, not cached.
    pub fn size(&self) -> (r: usize)
        requires
            self.wf(),
        ensures
            r == self.size_spec(),
            r == self.content().len(),
    {
        let c = self.transport.capacity();
        proof {
            let len = self.medium().len() as int;
            vstd::arithmetic::div_mod::lemma_fundamental_div_mod(len, SECTOR_SIZE as int);
            vstd::arithmetic::div_mod::lemma_mod_mod(len, SECTOR_SIZE as int, SECTORS_PER_PAGE as int);
            vstd::arithmetic::div_mod::lemma_mod_bound(len, SECTOR_SIZE as int);
        }
        c * SECTOR_SIZE
    }

    /// Resident page `p` shows through `content()` exactly as its cached bytes.
    pub(crate) proof fn lemma_resident_page(self, p: usize)
        requires
            self.wf(),
            self.resident().contains_key(p),
        ensures
            forall|j: int| 0 <= j < PAGE_CACHE_SIZE ==> self.content()[(p as int) * (
            PAGE_CACHE_SIZE as int) + j] == self.resident()[p][j],
    {
        assert forall|j: int| 0 <= j < PAGE_CACHE_SIZE implies self.content()[(p as int) * (
        PAGE_CACHE_SIZE as int) + j] == self.resident()[p][j] by {
            lemma_abs_index(p as int, j);
        }
    }

    /// A page inside the device lies below the page count, so its whole
    /// byte range lies inside the medium.
    pub(crate) proof fn lemma_page_in_range(self, i: int)
        requires
            self.wf(),
            0 <= i < self.medium().len(),
        ensures
            ((i / (PAGE_CACHE_SIZE as int)) + 1) * (PAGE_CACHE_SIZE as int) <= self.medium().len(),
    {
        let len = self.medium().len() as int;
        vstd::arithmetic::div_mod::lemma_fundamental_div_mod(len, PAGE_CACHE_SIZE as int);
        lemma_page_split(i);
    }

    /// Writes the frame of the victim page back, one sector at a time, then
    /// drops the victim from the cache and the dirty list. On a transport
    /// failure the victim is re-inserted and marked dirty, so no partial
    /// entry and no lost bytes remain; either way the device contents are
    /// unchanged.
    fn evict_one(&mut self) -> (r: Result<(), DevError>)
        requires
            old(self).wf(),
            old(self).cache.entries().len() > 0,
        ensures
            final(self).wf(),
            final(self).medium().len() == old(self).medium().len(),
            final(self).content() == old(self).content(),
            final(self).capacity() == old(self).capacity(),
            final(self).cache.next_handle == old(self).cache.next_handle,
            r is Ok ==> final(self).cache.entries().len() == old(self).cache.entries().len() - 1,
            r is Err ==> final(self).cache.entries().len() == old(self).cache.entries().len(),
            r is Err ==> final(self).resident() == old(self).resident(),
            forall|p: usize| #[trigger] final(self).resident().contains_key(p) ==> old(
                self,
            ).resident().contains_key(p),
            forall|p: usize| old(self).dirty_set().contains(p)
                && #[trigger] final(self).resident().contains_key(p)
                ==> final(self).dirty_set().contains(p),
            r matches Err(e) ==> e == DevError::IoError,
    {
        broadcast use vstd::std_specs::hash::group_hash_axioms;

        let ghost dev0 = *old(self);
        let ghost es0 = dev0.cache.entries();
        let got = lru_pop_lru(&mut self.cache.lru);
        let victim_pair = got.unwrap();
        let victim = victim_pair.0;
        let vh = victim_pair.1;
        proof {
            assert((victim, vh) == es0.last());
            assert(entries_have_key(es0, victim)) by {
                assert(es0[es0.len() - 1].0 == victim);
            }
            assert(dev0.cache.frames@.contains_key(victim));
            assert(((victim as int) + 1) * (PAGE_CACHE_SIZE as int) <= dev0.medium().len()) by {
                assert(dev0.resident().contains_key(victim));
            }
        }
        let got_ft = self.cache.frames.remove(&victim);
        let ft = got_ft.unwrap();
        proof {
            assert(ft == dev0.cache.frames@[victim]);
            assert(ft.bytes().len() == PAGE_CACHE_SIZE);
        }
        let mut sector = make_sector();
        let mut s: usize = 0;
        while s < SECTORS_PER_PAGE
            invariant
                dev0 == *old(self),
                dev0.wf(),
                s <= SECTORS_PER_PAGE,
                es0 == dev0.cache.entries(),
                es0.len() > 0,
                (victim, vh) == es0.last(),
                dev0.cache.frames@.contains_key(victim),
                ft == dev0.cache.frames@[victim],
                ft.bytes().len() == PAGE_CACHE_SIZE,
                ((victim as int) + 1) * (PAGE_CACHE_SIZE as int) <= dev0.medium().len(),
                lru_entries(self.cache.lru) == es0.drop_last(),
                lru_capacity(self.cache.lru) == lru_capacity(dev0.cache.lru),
                self.cache.frames@ == dev0.cache.frames@.remove(victim),
                self.cache.dirty@ == dev0.cache.dirty@,
                self.cache.next_handle == dev0.cache.next_handle,
                self.cache.cap == dev0.cache.cap,
                self.medium().len() == dev0.medium().len(),
                sector@.len() == SECTOR_SIZE,
                forall|x: int| 0 <= x < self.medium().len() && !((victim as int) * (
                PAGE_CACHE_SIZE as int) <= x < (victim as int) * (PAGE_CACHE_SIZE as int) + (
                s as int) * (SECTOR_SIZE as int)) ==> self.medium()[x] == dev0.medium()[x],
                forall|x: int| (victim as int) * (PAGE_CACHE_SIZE as int) <= x < (victim as int) * (
                PAGE_CACHE_SIZE as int) + (s as int) * (SECTOR_SIZE as int) ==> self.medium()[x]
                    == ft.bytes()[x - (victim as int) * (PAGE_CACHE_SIZE as int)],
            decreases SECTORS_PER_PAGE - s,
        {
            let mut j: usize = 0;
            while j < SECTOR_SIZE
                invariant
                    j <= SECTOR_SIZE,
                    s < SECTORS_PER_PAGE,
                    sector@.len() == SECTOR_SIZE,
                    ft.bytes().len() == PAGE_CACHE_SIZE,
                    forall|x: int| 0 <= x < j ==> sector@[x] == ft.bytes()[(s as int) * (
                    SECTOR_SIZE as int) + x],
                decreases SECTOR_SIZE - j,
            {
                let b = ft.read_byte(s * SECTOR_SIZE + j);
                sector[j] = b;
                j += 1;
            }
            let ghost med_pre = self.medium();
            let block = victim * SECTORS_PER_PAGE + s;
            match self.transport.write_block(block, &sector) {
                Ok(()) => {},
                Err(_) => {
                    // Restore the victim so no partial entry remains; its
                    // cached bytes now differ from the garbled medium page,
                    // so it must be marked dirty.
                    self.cache.frames.insert(victim, ft);
                    let ghost es_mid = lru_entries(self.cache.lru);
                    let _ = lru_push(&mut self.cache.lru, victim, vh);
                    proof {
                        assert(!entries_have_key(es_mid, victim)) by {
                            if entries_have_key(es_mid, victim) {
                                let w = choose|w: int|
                                    0 <= w < es_mid.len() && (#[trigger] es_mid[w]).0 == victim;
                                assert(es_mid[w] == es0[w]);
                                assert(es0[w].0 == victim);
                                assert(es0[es0.len() - 1].0 == victim);
                            }
                        }
                        assert(es_mid == es0.drop_last());
                        assert(es0.len() <= dev0.cache.cap);
                        assert(lru_capacity(self.cache.lru) == dev0.cache.cap as nat);
                        assert(es_mid.len() < lru_capacity(self.cache.lru));
                    }
                    mark_dirty(&mut self.cache.dirty, victim);
                    proof {
                        self.lemma_restore_after_failed_writeback(dev0, victim, vh, ft);
                    }
                    return Err(DevError::IoError);
                },
            }
            proof {
                assert forall|x: int| (victim as int) * (PAGE_CACHE_SIZE as int) <= x < (
                victim as int) * (PAGE_CACHE_SIZE as int) + ((s as int) + 1) * (
                SECTOR_SIZE as int) implies self.medium()[x] == ft.bytes()[x - (victim as int) * (
                PAGE_CACHE_SIZE as int)] by {
                    let base = (victim as int) * (PAGE_CACHE_SIZE as int);
                    let bstart = (block as int) * (SECTOR_SIZE as int);
                    assert(bstart == base + (s as int) * (SECTOR_SIZE as int));
                    if x >= bstart {
                        assert(self.medium()[x] == sector@[x - bstart]);
                    } else {
                        assert(self.medium()[x] == med_pre[x]);
                    }
                }
            }
            s += 1;
        }
        clear_dirty(&mut self.cache.dirty, victim);
        proof {
            self.lemma_state_after_writeback(dev0, victim, ft);
        }
        Ok(())
    }

    /// Two device states with the same medium and the same resident pages
    /// show the same contents.
    proof fn lemma_content_congruence(a: GenericBlockDevice<T>, b: GenericBlockDevice<T>)
        requires
            a.medium() == b.medium(),
            a.resident() == b.resident(),
        ensures
            a.content() == b.content(),
    {
        assert(a.content() =~= b.content());
    }

    /// Makes page `page_id` resident, reading it from the medium on a miss
    /// and evicting the least recently used page first when the cache is
    /// full. The device contents are unchanged; errors leave no partial
    /// entry behind.
    fn ensure_resident(&mut self, page_id: usize) -> (r: Result<(), DevError>)
        requires
            old(self).wf(),
            ((page_id as int) + 1) * (PAGE_CACHE_SIZE as int) <= old(self).medium().len(),
        ensures
            final(self).wf(),
            final(self).medium().len() == old(self).medium().len(),
            final(self).content() == old(self).content(),
            final(self).capacity() == old(self).capacity(),
            r is Ok ==> final(self).resident().contains_key(page_id),
            old(self).resident().contains_key(page_id) ==> r is Ok && final(self).resident()
                == old(self).resident(),
            r is Err ==> final(self).resident() == old(self).resident(),
            forall|p: usize| p != page_id && #[trigger] final(self).resident().contains_key(p)
                ==> old(self).resident().contains_key(p),
            forall|p: usize| old(self).dirty_set().contains(p)
                && #[trigger] final(self).resident().contains_key(p)
                ==> final(self).dirty_set().contains(p),
            r matches Err(e) ==> e != DevError::OutOfRange,
            r == Err::<(), DevError>(DevError::ResourceExhausted)
                ==> final(self).handles_exhausted(),
    {
        broadcast use vstd::std_specs::hash::group_hash_axioms;

        let ghost dev0 = *old(self);
        let ghost es0 = dev0.cache.entries();
        // Cache hit: only promote the page to most recently used.
        if self.cache.frames.contains_key(&page_id) {
            let got = lru_pop(&mut self.cache.lru, page_id);
            proof {
                assert(entries_have_key(es0, page_id));
            }
            let handle = got.unwrap();
            let ghost es_mid = lru_entries(self.cache.lru);
            let ghost w = choose|w: int|
                {
                    &&& 0 <= w < es0.len()
                    &&& (#[trigger] es0[w]).0 == page_id
                    &&& got == Some(es0[w].1)
                    &&& es_mid == es0.remove(w)
                };
            proof {
                assert(!entries_have_key(es_mid, page_id)) by {
                    if entries_have_key(es_mid, page_id) {
                        let v = choose|v: int|
                            0 <= v < es_mid.len() && (#[trigger] es_mid[v]).0 == page_id;
                        if v < w {
                            assert(es0[v].0 == page_id);
                        } else {
                            assert(es0[v + 1].0 == page_id);
                        }
                    }
                }
                assert(es_mid.len() < lru_capacity(self.cache.lru));
            }
            let _ = lru_push(&mut self.cache.lru, page_id, handle);
            proof {
                self.lemma_state_after_promote(dev0, page_id, handle, w);
                Self::lemma_content_congruence(*self, dev0);
            }
            return Ok(());
        }
        // Miss: acquire a fresh frame and fill it from the medium.
        proof {
            assert(!dev0.resident().contains_key(page_id));
        }
        if self.cache.next_handle == usize::MAX {
            return Err(DevError::ResourceExhausted);
        }
        let handle = self.cache.next_handle;
        let mut ft = FrameTracker::new(handle);
        let mut sector = make_sector();
        let mut s: usize = 0;
        while s < SECTORS_PER_PAGE
            invariant
                dev0 == *old(self),
                dev0.wf(),
                !dev0.resident().contains_key(page_id),
                s <= SECTORS_PER_PAGE,
                ((page_id as int) + 1) * (PAGE_CACHE_SIZE as int) <= dev0.medium().len(),
                self.cache == dev0.cache,
                self.medium() == dev0.medium(),
                handle == dev0.cache.next_handle,
                handle < usize::MAX,
                ft.id() == handle,
                ft.bytes().len() == PAGE_CACHE_SIZE,
                sector@.len() == SECTOR_SIZE,
                forall|x: int| 0 <= x < (s as int) * (SECTOR_SIZE as int) ==> ft.bytes()[x]
                    == dev0.medium()[(page_id as int) * (PAGE_CACHE_SIZE as int) + x],
            decreases SECTORS_PER_PAGE - s,
        {
            let block = page_id * SECTORS_PER_PAGE + s;
            match self.transport.read_block(block, &mut sector) {
                Ok(()) => {},
                Err(_) => {
                    // No entry was inserted; the cache and contents stand
                    // as before the miss.
                    proof {
                        Self::lemma_content_congruence(*self, dev0);
                    }
                    return Err(DevError::IoError);
                },
            }
            let ghost ft_pre = ft;
            let mut j: usize = 0;
            while j < SECTOR_SIZE
                invariant
                    j <= SECTOR_SIZE,
                    s < SECTORS_PER_PAGE,
                    sector@.len() == SECTOR_SIZE,
                    ft.id() == ft_pre.id(),
                    ft.bytes().len() == PAGE_CACHE_SIZE,
                    forall|x: int| 0 <= x < ft.bytes().len() && !((s as int) * (
                    SECTOR_SIZE as int) <= x < (s as int) * (SECTOR_SIZE as int) + j)
                        ==> ft.bytes()[x] == ft_pre.bytes()[x],
                    forall|x: int| 0 <= x < j ==> ft.bytes()[(s as int) * (SECTOR_SIZE as int) + x]
                        == sector@[x],
                decreases SECTOR_SIZE - j,
            {
                let b = sector[j];
                ft.write_byte(s * SECTOR_SIZE + j, b);
                j += 1;
            }
            proof {
                let base = (page_id as int) * (PAGE_CACHE_SIZE as int);
                let bstart = (block as int) * (SECTOR_SIZE as int);
                assert(bstart == base + (s as int) * (SECTOR_SIZE as int));
                assert forall|x: int| 0 <= x < ((s as int) + 1) * (SECTOR_SIZE as int) implies
                    ft.bytes()[x] == dev0.medium()[base + x] by {
                    if x < (s as int) * (SECTOR_SIZE as int) {
                        assert(ft.bytes()[x] == ft_pre.bytes()[x]);
                    } else {
                        assert(ft.bytes()[x] == sector@[x - (s as int) * (SECTOR_SIZE as int)]);
                        assert(sector@[x - (s as int) * (SECTOR_SIZE as int)] == dev0.medium()[
                            bstart + (x - (s as int) * (SECTOR_SIZE as int))
                        ]);
                    }
                }
            }
            s += 1;
        }
        proof {
            assert(self.resident() == dev0.resident());
            assert(self.dirty_set() == dev0.dirty_set());
            assert forall|p: usize| #[trigger] self.resident().contains_key(p) implies ((
            p as int) + 1) * (PAGE_CACHE_SIZE as int) <= self.medium().len() by {
                assert(dev0.resident().contains_key(p));
            }
            assert forall|p: usize| #[trigger] self.resident().contains_key(p)
                && !self.dirty_set().contains(p) implies self.resident()[p]
                == self.medium().subrange(
                (p as int) * (PAGE_CACHE_SIZE as int),
                ((p as int) + 1) * (PAGE_CACHE_SIZE as int),
            ) by {
                assert(dev0.resident().contains_key(p) && !dev0.dirty_set().contains(p));
            }
            assert(self.wf());
            Self::lemma_content_congruence(*self, dev0);
        }
        // Make room, writing the least recently used page back first.
        if lru_len(&self.cache.lru) == self.cache.cap {
            match self.evict_one() {
                Ok(()) => {},
                Err(e) => {
                    return Err(e);
                },
            }
        }
        proof {
            assert(!self.cache.frames@.contains_key(page_id)) by {
                if self.cache.frames@.contains_key(page_id) {
                    assert(self.resident().contains_key(page_id));
                    assert(dev0.resident().contains_key(page_id));
                }
            }
            assert(!entries_have_key(self.cache.entries(), page_id));
            assert(self.cache.entries().len() < self.cache.cap);
            assert(!self.resident().contains_key(page_id));
            assert forall|j: int| 0 <= j < PAGE_CACHE_SIZE implies ft.bytes()[j]
                == self.content()[(page_id as int) * (PAGE_CACHE_SIZE as int) + j] by {
                lemma_abs_index(page_id as int, j);
                assert(!dev0.resident().contains_key(page_id));
                assert(dev0.content()[(page_id as int) * (PAGE_CACHE_SIZE as int) + j]
                    == dev0.medium()[(page_id as int) * (PAGE_CACHE_SIZE as int) + j]);
            }
        }
        let ghost dev1 = *self;
        self.cache.next_handle = handle + 1;
        let _ = lru_push(&mut self.cache.lru, page_id, handle);
        self.cache.frames.insert(page_id, ft);
        proof {
            self.lemma_state_after_insert(dev1, page_id, handle, ft);
            assert(!dev0.dirty_set().contains(page_id)) by {
                if dev0.cache.dirty_has(page_id) {
                    let w = choose|w: int|
                        0 <= w < dev0.cache.dirty@.len() && dev0.cache.dirty@[w] == page_id;
                    assert(dev0.cache.frames@.contains_key(page_id));
                }
            }
            assert forall|p: usize| dev0.dirty_set().contains(p)
                && #[trigger] self.resident().contains_key(p) implies self.dirty_set().contains(
                p,
            ) by {
                assert(p != page_id);
                assert(dev1.resident().contains_key(p));
            }
        }
        Ok(())
    }

    /// After promoting a hit page in the recency structure the cache is
    /// still well formed; nothing observable changed.
    proof fn lemma_state_after_promote(
        self,
        dev0: GenericBlockDevice<T>,
        page_id: usize,
        handle: usize,
        w: int,
    )
        requires
            dev0.wf(),
            0 <= w < dev0.cache.entries().len(),
            dev0.cache.entries()[w].0 == page_id,
            dev0.cache.entries()[w].1 == handle,
            self.cache.entries() == seq![(page_id, handle)] + dev0.cache.entries().remove(w),
            lru_capacity(self.cache.lru) == lru_capacity(dev0.cache.lru),
            self.cache.frames == dev0.cache.frames,
            self.cache.dirty == dev0.cache.dirty,
            self.cache.next_handle == dev0.cache.next_handle,
            self.cache.cap == dev0.cache.cap,
            self.medium() == dev0.medium(),
        ensures
            self.wf(),
            self.resident() == dev0.resident(),
            self.resident().contains_key(page_id),
            self.dirty_set() == dev0.dirty_set(),
            self.capacity() == dev0.capacity(),
    {
        let es0 = dev0.cache.entries();
        let es1 = self.cache.entries();
        assert(self.dirty_set() =~= dev0.dirty_set());
        let mid = es0.remove(w);
        assert(es1.len() == es0.len());
        // every index of the promoted sequence carries an entry of the old one
        assert forall|i: int| 0 <= i < es1.len() implies exists|j: int|
            0 <= j < es0.len() && #[trigger] es1[i] == es0[j] by {
            if i == 0 {
                assert(es1[0] == es0[w]);
            } else if i - 1 < w {
                assert(es1[i] == es0[i - 1]);
            } else {
                assert(es1[i] == es0[i]);
            }
        }
        assert forall|i: int, j: int| 0 <= i < j < es1.len() implies es1[i].0 != es1[j].0 by {
            let a = if i == 0 {
                w
            } else if i - 1 < w {
                i - 1
            } else {
                i
            };
            let b = if j - 1 < w {
                j - 1
            } else {
                j
            };
            assert(es1[i] == es0[a]);
            assert(es1[j] == es0[b]);
            assert(a != b);
        }
        assert forall|p: usize| #[trigger] self.cache.frames@.contains_key(p) implies
            entries_have_key(es1, p) by {
            let v = choose|v: int| 0 <= v < es0.len() && (#[trigger] es0[v]).0 == p;
            if v == w {
                assert(es1[0].0 == p);
            } else if v < w {
                assert(es1[v + 1].0 == p);
            } else {
                assert(es1[v].0 == p);
            }
        }
        assert forall|p: usize| entries_have_key(es1, p) implies self.cache.frames@.contains_key(
            p,
        ) by {
            let v = choose|v: int| 0 <= v < es1.len() && (#[trigger] es1[v]).0 == p;
            if v == 0 {
                assert(es0[w].0 == p);
            } else if v - 1 < w {
                assert(es0[v - 1].0 == p);
            } else {
                assert(es0[v].0 == p);
            }
        }
        assert forall|i: int| 0 <= i < es1.len() implies self.cache.frames@.contains_key(
            (#[trigger] es1[i]).0,
        ) && self.cache.frames@[es1[i].0].id() == es1[i].1 by {
            if i == 0 {
                assert(es1[0] == es0[w]);
            } else if i - 1 < w {
                assert(es1[i] == es0[i - 1]);
            } else {
                assert(es1[i] == es0[i]);
            }
        }
        assert(self.resident() =~= dev0.resident());
        assert(entries_have_key(es1, page_id)) by {
            assert(es1[0].0 == page_id);
        }
    }

    /// After inserting a freshly filled frame for an absent page the cache
    /// is well formed and the contents are unchanged: the new page is clean
    /// and carries exactly the medium's bytes.
    proof fn lemma_state_after_insert(
        self,
        dev1: GenericBlockDevice<T>,
        page_id: usize,
        handle: usize,
        ft: FrameTracker,
    )
        requires
            dev1.wf(),
            !dev1.cache.frames@.contains_key(page_id),
            !entries_have_key(dev1.cache.entries(), page_id),
            ((page_id as int) + 1) * (PAGE_CACHE_SIZE as int) <= dev1.medium().len(),
            dev1.cache.entries().len() < dev1.cache.cap,
            handle == dev1.cache.next_handle,
            handle < usize::MAX,
            ft.id() == handle,
            ft.bytes().len() == PAGE_CACHE_SIZE,
            forall|j: int| 0 <= j < PAGE_CACHE_SIZE ==> ft.bytes()[j] == dev1.content()[(
            page_id as int) * (PAGE_CACHE_SIZE as int) + j],
            self.cache.entries() == seq![(page_id, handle)] + dev1.cache.entries(),
            lru_capacity(self.cache.lru) == lru_capacity(dev1.cache.lru),
            self.cache.frames@ == dev1.cache.frames@.insert(page_id, ft),
            self.cache.dirty == dev1.cache.dirty,
            self.cache.next_handle == handle + 1,
            self.cache.cap == dev1.cache.cap,
            self.medium() == dev1.medium(),
        ensures
            self.wf(),
            self.content() == dev1.content(),
            self.resident().contains_key(page_id),
            self.dirty_set() == dev1.dirty_set(),
            forall|p: usize| p != page_id ==> (#[trigger] self.resident().contains_key(p)
                <==> dev1.resident().contains_key(p)),
            self.capacity() == dev1.capacity(),
    {
        assert(self.dirty_set() =~= dev1.dirty_set());
        let es1 = dev1.cache.entries();
        let es2 = self.cache.entries();
        assert forall|i: int, j: int| 0 <= i < j < es2.len() implies es2[i].0 != es2[j].0 by {
            if i == 0 {
                assert(es2[j] == es1[j - 1]);
                if es2[j].0 == page_id {
                    assert(entries_have_key(es1, page_id)) by {
                        assert(es1[j - 1].0 == page_id);
                    }
                }
            } else {
                assert(es2[i] == es1[i - 1]);
                assert(es2[j] == es1[j - 1]);
            }
        }
        assert forall|p: usize| #[trigger] self.cache.frames@.contains_key(p) implies
            entries_have_key(es2, p) by {
            if p == page_id {
                assert(es2[0].0 == p);
            } else {
                assert(dev1.cache.frames@.contains_key(p));
                let v = choose|v: int| 0 <= v < es1.len() && (#[trigger] es1[v]).0 == p;
                assert(es2[v + 1].0 == p);
            }
        }
        assert forall|p: usize| entries_have_key(es2, p) implies self.cache.frames@.contains_key(
            p,
        ) by {
            let v = choose|v: int| 0 <= v < es2.len() && (#[trigger] es2[v]).0 == p;
            if v > 0 {
                assert(es1[v - 1].0 == p);
            }
        }
        assert forall|i: int| 0 <= i < es2.len() implies self.cache.frames@.contains_key(
            (#[trigger] es2[i]).0,
        ) && self.cache.frames@[es2[i].0].id() == es2[i].1 by {
            if i > 0 {
                assert(es2[i] == es1[i - 1]);
                assert(es1[i - 1].0 != page_id) by {
                    if es1[i - 1].0 == page_id {
                        assert(entries_have_key(es1, page_id));
                    }
                }
            }
        }
        assert forall|p: usize| #[trigger] self.resident().contains_key(p) implies ((p as int)
            + 1) * (PAGE_CACHE_SIZE as int) <= self.medium().len() by {
            if p != page_id {
                assert(dev1.resident().contains_key(p));
            }
        }
        // the dirty list does not mention the new page
        assert forall|i: int| 0 <= i < self.cache.dirty@.len() implies self.cache.frames@.contains_key(
            #[trigger] self.cache.dirty@[i],
        ) by {
            assert(dev1.cache.frames@.contains_key(self.cache.dirty@[i]));
        }
        assert(!dev1.cache.dirty_has(page_id)) by {
            if dev1.cache.dirty_has(page_id) {
                let v = choose|v: int|
                    0 <= v < dev1.cache.dirty@.len() && dev1.cache.dirty@[v] == page_id;
                assert(dev1.cache.frames@.contains_key(page_id));
            }
        }
        // the new page is clean and agrees with the medium byte for byte
        assert forall|j: int| 0 <= j < PAGE_CACHE_SIZE implies ft.bytes()[j] == self.medium()[(
        page_id as int) * (PAGE_CACHE_SIZE as int) + j] by {
            lemma_abs_index(page_id as int, j);
            assert(!dev1.resident().contains_key(page_id));
            assert(dev1.content()[(page_id as int) * (PAGE_CACHE_SIZE as int) + j]
                == dev1.medium()[(page_id as int) * (PAGE_CACHE_SIZE as int) + j]);
        }
        assert forall|p: usize| #[trigger] self.resident().contains_key(p)
            && !self.dirty_set().contains(p) implies self.resident()[p] == self.medium().subrange(
            (p as int) * (PAGE_CACHE_SIZE as int),
            ((p as int) + 1) * (PAGE_CACHE_SIZE as int),
        ) by {
            if p == page_id {
                assert(self.resident()[p] =~= self.medium().subrange(
                    (p as int) * (PAGE_CACHE_SIZE as int),
                    ((p as int) + 1) * (PAGE_CACHE_SIZE as int),
                ));
            } else {
                assert(dev1.resident().contains_key(p));
                assert(dev1.cache.dirty_has(p) == self.cache.dirty_has(p));
                assert(dev1.resident()[p] == self.resident()[p]);
            }
        }
        assert forall|i: int| 0 <= i < self.medium().len() implies self.content()[i]
            == dev1.content()[i] by {
            lemma_page_split(i);
            let pg = (i / (PAGE_CACHE_SIZE as int)) as usize;
            if pg == page_id {
                assert(self.resident().contains_key(pg));
                assert(self.resident()[pg] == ft.bytes());
                assert(ft.bytes()[i % (PAGE_CACHE_SIZE as int)] == dev1.content()[(
                page_id as int) * (PAGE_CACHE_SIZE as int) + i % (PAGE_CACHE_SIZE as int)]);
            } else {
                assert(self.resident().contains_key(pg) == dev1.resident().contains_key(pg));
                if dev1.resident().contains_key(pg) {
                    assert(self.resident()[pg] == dev1.resident()[pg]);
                }
            }
        }
        assert(self.content() =~= dev1.content());
    }

    /// Reads `buf.len()` bytes starting at byte `offset` into `buf`,
    /// filling and evicting cache pages as needed. The device contents are
    /// unchanged; a range beyond the device size is refused whole.
    pub fn read(&mut self, buf: &mut Vec<u8>, offset: usize) -> (r: Result<usize, DevError>)
        requires
            old(self).wf(),
        ensures
            final(self).wf(),
            final(self).size_spec() == old(self).size_spec(),
            final(self).content() == old(self).content(),
            final(self).capacity() == old(self).capacity(),
            final(buf).len() == old(buf).len(),
            r matches Ok(n) ==> n == old(buf).len() && offset + old(buf).len() <= old(
                self,
            ).size_spec() && final(buf)@ == old(self).content().subrange(
                offset as int,
                offset + old(buf).len(),
            ),
            (r == Err::<usize, DevError>(DevError::OutOfRange)) <==> offset + old(buf).len() > old(
                self,
            ).size_spec(),
            offset + old(buf).len() <= old(self).size_spec() && old(self).range_resident(
                offset as int,
                old(buf).len() as int,
            ) ==> r is Ok,
            r is Ok && old(buf).len() > 0 ==> final(self).resident().contains_key(
                ((offset as int + old(buf).len() - 1) / (PAGE_CACHE_SIZE as int)) as usize,
            ),
            offset + old(buf).len() > old(self).size_spec() ==> final(buf)@ == old(buf)@,
            r == Err::<usize, DevError>(DevError::ResourceExhausted)
                ==> final(self).handles_exhausted(),
    {
        broadcast use vstd::std_specs::hash::group_hash_axioms;

        let ghost dev0 = *old(self);
        let len = buf.len();
        let total = self.size();
        let ghost all_res = offset + len <= dev0.size_spec() && dev0.range_resident(
            offset as int,
            len as int,
        );
        if offset > total || len > total - offset {
            return Err(DevError::OutOfRange);
        }
        let mut count: usize = 0;
        while count < len
            invariant
                dev0 == *old(self),
                self.wf(),
                self.medium().len() == dev0.medium().len(),
                self.content() == dev0.content(),
                self.capacity() == dev0.capacity(),
                count <= len,
                len == old(buf)@.len(),
                buf@.len() == len,
                offset + len <= dev0.medium().len(),
                all_res == (offset + len <= dev0.size_spec() && dev0.range_resident(
                    offset as int,
                    len as int,
                )),
                all_res ==> self.resident() == dev0.resident(),
                count > 0 ==> self.resident().contains_key(
                    (((offset as int) + count - 1) / (PAGE_CACHE_SIZE as int)) as usize,
                ),
                forall|x: int| 0 <= x < count ==> buf@[x] == dev0.content()[offset + x],
            decreases len - count,
        {
            let cur = offset + count;
            let page_id = cur / PAGE_CACHE_SIZE;
            let intra = cur % PAGE_CACHE_SIZE;
            proof {
                lemma_page_split(cur as int);
                self.lemma_page_in_range(cur as int);
                if all_res {
                    vstd::arithmetic::div_mod::lemma_div_is_ordered(
                        offset as int,
                        cur as int,
                        PAGE_CACHE_SIZE as int,
                    );
                    vstd::arithmetic::div_mod::lemma_div_is_ordered(
                        cur as int,
                        offset as int + len - 1,
                        PAGE_CACHE_SIZE as int,
                    );
                    assert(self.resident().contains_key(page_id));
                }
            }
            match self.ensure_resident(page_id) {
                Ok(()) => {},
                Err(e) => {
                    return Err(e);
                },
            }
            let chunk = if PAGE_CACHE_SIZE - intra < len - count {
                PAGE_CACHE_SIZE - intra
            } else {
                len - count
            };
            proof {
                self.lemma_resident_page(page_id);
            }
            let ghost buf_pre = buf@;
            let got_ft = self.cache.frames.get(&page_id);
            let ft = got_ft.unwrap();
            let mut j: usize = 0;
            while j < chunk
                invariant
                    j <= chunk,
                    intra + chunk <= PAGE_CACHE_SIZE,
                    count + chunk <= len,
                    buf@.len() == len,
                    buf_pre.len() == len,
                    ft.bytes().len() == PAGE_CACHE_SIZE,
                    forall|x: int| 0 <= x < j ==> buf@[count + x] == #[trigger] ft.bytes()[intra
                        + x],
                    forall|x: int| 0 <= x < buf@.len() && !(count <= x < count + j)
                        ==> #[trigger] buf@[x] == buf_pre[x],
                decreases chunk - j,
            {
                let b = ft.read_byte(intra + j);
                buf[count + j] = b;
                j += 1;
            }
            proof {
                assert(ft == self.cache.frames@[page_id]);
                assert(ft.bytes() == self.resident()[page_id]);
                assert forall|x: int| 0 <= x < count + chunk implies buf@[x] == dev0.content()[
                    offset + x
                ] by {
                    if x >= count {
                        assert(buf@[x] == ft.bytes()[intra + (x - count)]);
                        assert(self.content()[(page_id as int) * (PAGE_CACHE_SIZE as int) + (
                        intra + (x - count))] == self.resident()[page_id][intra + (x - count)]);
                    } else {
                        assert(buf@[x] == buf_pre[x]);
                    }
                }
            }
            proof {
                lemma_abs_index(page_id as int, intra + chunk - 1);
            }
            count += chunk;
        }
        proof {
            assert(buf@ =~= dev0.content().subrange(offset as int, offset + len));
        }
        Ok(len)
    }

    /// Writes `buf` at byte `offset`, filling pages from the medium before
    /// a partial overwrite so no byte outside the written range changes,
    /// and marking every touched page dirty. A range beyond the device size
    /// is refused whole; after a transport failure some prefix of the write
    /// has been applied and the rest of the device is untouched.
    pub fn write(&mut self, buf: &Vec<u8>, offset: usize) -> (r: Result<usize, DevError>)
        requires
            old(self).wf(),
        ensures
            final(self).wf(),
            final(self).size_spec() == old(self).size_spec(),
            final(self).capacity() == old(self).capacity(),
            r matches Ok(n) ==> n == buf.len() && offset + buf.len() <= old(self).size_spec()
                && final(self).content() == update_range(
                old(self).content(),
                offset as int,
                buf@,
            ),
            (r == Err::<usize, DevError>(DevError::OutOfRange)) <==> offset + buf.len() > old(
                self,
            ).size_spec(),
            r is Err ==> exists|n: int|
                0 <= n <= buf.len() && final(self).content() == update_range(
                    old(self).content(),
                    offset as int,
                    #[trigger] buf@.take(n),
                ),
            offset + buf.len() <= old(self).size_spec() && old(self).range_resident(
                offset as int,
                buf.len() as int,
            ) ==> r is Ok,
            r is Ok && buf.len() > 0 ==> final(self).resident().contains_key(
                ((offset as int + buf.len() - 1) / (PAGE_CACHE_SIZE as int)) as usize,
            ),
            r is Ok && buf.len() > 0 ==> forall|p: int|
                (offset as int) / (PAGE_CACHE_SIZE as int) <= p <= (offset as int + buf.len() - 1)
                    / (PAGE_CACHE_SIZE as int) && #[trigger] final(self).resident().contains_key(
                    p as usize,
                ) ==> final(self).dirty_set().contains(p as usize),
            r == Err::<usize, DevError>(DevError::ResourceExhausted)
                ==> final(self).handles_exhausted(),
    {
        broadcast use vstd::std_specs::hash::group_hash_axioms;

        let ghost dev0 = *old(self);
        let len = buf.len();
        let total = self.size();
        let ghost all_res = offset + len <= dev0.size_spec() && dev0.range_resident(
            offset as int,
            len as int,
        );
        if offset > total || len > total - offset {
            proof {
                assert(self.content() =~= update_range(dev0.content(), offset as int, buf@.take(0)));
            }
            return Err(DevError::OutOfRange);
        }
        let mut count: usize = 0;
        while count < len
            invariant
                dev0 == *old(self),
                self.wf(),
                self.medium().len() == dev0.medium().len(),
                self.capacity() == dev0.capacity(),
                count <= len,
                len == buf@.len(),
                offset + len <= dev0.medium().len(),
                all_res == (offset + len <= dev0.size_spec() && dev0.range_resident(
                    offset as int,
                    len as int,
                )),
                all_res ==> forall|p: usize| #[trigger] self.resident().contains_key(p)
                    <==> dev0.resident().contains_key(p),
                count == len || count == 0 || ((offset as int) + count) % (PAGE_CACHE_SIZE as int)
                    == 0,
                count > 0 ==> self.resident().contains_key(
                    (((offset as int) + count - 1) / (PAGE_CACHE_SIZE as int)) as usize,
                ),
                count > 0 ==> forall|p: int|
                    (offset as int) / (PAGE_CACHE_SIZE as int) <= p <= ((offset as int) + count
                        - 1) / (PAGE_CACHE_SIZE as int)
                        && #[trigger] self.resident().contains_key(p as usize)
                        ==> self.dirty_set().contains(p as usize),
                self.content() == update_range(dev0.content(), offset as int, buf@.take(count as int)),
            decreases len - count,
        {
            let cur = offset + count;
            let page_id = cur / PAGE_CACHE_SIZE;
            let intra = cur % PAGE_CACHE_SIZE;
            proof {
                lemma_page_split(cur as int);
                self.lemma_page_in_range(cur as int);
                if all_res {
                    vstd::arithmetic::div_mod::lemma_div_is_ordered(
                        offset as int,
                        cur as int,
                        PAGE_CACHE_SIZE as int,
                    );
                    vstd::arithmetic::div_mod::lemma_div_is_ordered(
                        cur as int,
                        offset as int + len - 1,
                        PAGE_CACHE_SIZE as int,
                    );
                    assert(self.resident().contains_key(page_id));
                }
            }
            let ghost dev_pre = *self;
            match self.ensure_resident(page_id) {
                Ok(()) => {},
                Err(e) => {
                    proof {
                        assert(0 <= count as int <= buf@.len() && self.content() == update_range(
                            dev0.content(),
                            offset as int,
                            buf@.take(count as int),
                        ));
                    }
                    return Err(e);
                },
            }
            let chunk = if PAGE_CACHE_SIZE - intra < len - count {
                PAGE_CACHE_SIZE - intra
            } else {
                len - count
            };
            let ghost dev_a = *self;
            let got_ft = self.cache.frames.remove(&page_id);
            let mut ft = got_ft.unwrap();
            let ghost ft0 = ft;
            let mut j: usize = 0;
            while j < chunk
                invariant
                    j <= chunk,
                    intra + chunk <= PAGE_CACHE_SIZE,
                    count + chunk <= len,
                    len == buf@.len(),
                    ft.id() == ft0.id(),
                    ft.bytes().len() == ft0.bytes().len(),
                    ft0.bytes().len() == PAGE_CACHE_SIZE,
                    forall|x: int| 0 <= x < ft.bytes().len() && !(intra <= x < intra + j)
                        ==> #[trigger] ft.bytes()[x] == ft0.bytes()[x],
                    forall|x: int| 0 <= x < j ==> #[trigger] ft.bytes()[intra + x] == buf@[count
                        + x],
                decreases chunk - j,
            {
                let b = buf[count + j];
                ft.write_byte(intra + j, b);
                j += 1;
            }
            self.cache.frames.insert(page_id, ft);
            mark_dirty(&mut self.cache.dirty, page_id);
            proof {
                self.lemma_state_after_write_chunk(
                    dev_a,
                    page_id,
                    ft0,
                    ft,
                    intra as int,
                    buf@.subrange(count as int, count + chunk),
                );
                lemma_update_range_chain(
                    dev0.content(),
                    offset as int,
                    buf@,
                    count as int,
                    count + chunk,
                );
                lemma_abs_index(page_id as int, intra + chunk - 1);
                if intra + chunk == PAGE_CACHE_SIZE {
                    vstd::arithmetic::div_mod::lemma_mod_multiples_basic(
                        page_id as int + 1,
                        PAGE_CACHE_SIZE as int,
                    );
                }
                // every page this call has touched and kept resident is dirty
                assert forall|p: int|
                    (offset as int) / (PAGE_CACHE_SIZE as int) <= p <= ((offset as int) + count
                        + chunk - 1) / (PAGE_CACHE_SIZE as int)
                        && #[trigger] self.resident().contains_key(p as usize) implies
                    self.dirty_set().contains(p as usize) by {
                    if p == page_id {
                        assert(self.dirty_set().contains(page_id));
                    } else {
                        assert(p < page_id);
                        if count == 0 {
                            assert(page_id == (offset as int) / (PAGE_CACHE_SIZE as int));
                            assert(false);
                        } else {
                            lemma_abs_index(page_id as int - 1, PAGE_CACHE_SIZE as int - 1);
                            assert(((offset as int) + count - 1) / (PAGE_CACHE_SIZE as int)
                                == page_id - 1);
                            assert(dev_a.resident().contains_key(p as usize));
                            assert(dev_pre.resident().contains_key(p as usize));
                            assert(dev_pre.dirty_set().contains(p as usize));
                            assert(dev_a.dirty_set().contains(p as usize));
                        }
                    }
                }
            }
            count += chunk;
        }
        proof {
            assert(buf@.take(len as int) == buf@);
        }
        Ok(len)
    }

    /// Writes every dirty page back to the medium, synchronously, and
    /// empties the dirty set: after a successful flush the medium holds
    /// exactly the device contents. With nothing dirty the device, its
    /// cache and the medium are left untouched. A transport failure leaves
    /// the remaining pages dirty and the contents unchanged.
    pub fn flush(&mut self) -> (r: Result<(), DevError>)
        requires
            old(self).wf(),
        ensures
            final(self).wf(),
            final(self).size_spec() == old(self).size_spec(),
            final(self).content() == old(self).content(),
            final(self).capacity() == old(self).capacity(),
            r is Ok ==> final(self).dirty_set() == Set::<usize>::empty() && final(self).medium()
                == old(self).content(),
            old(self).dirty_set() == Set::<usize>::empty() ==> *final(self) == *old(self) && r
                is Ok,
            r matches Err(e) ==> e == DevError::IoError,
    {
        broadcast use vstd::std_specs::hash::group_hash_axioms;

        let ghost dev0 = *old(self);
        if self.cache.dirty.is_empty() {
            proof {
                self.lemma_synced_when_clean();
            }
            return Ok(());
        }
        while self.cache.dirty.len() > 0
            invariant
                dev0 == *old(self),
                dev0.cache.dirty@.len() > 0,
                self.wf(),
                self.medium().len() == dev0.medium().len(),
                self.content() == dev0.content(),
                self.capacity() == dev0.capacity(),
            decreases self.cache.dirty@.len(),
        {
            let di = self.cache.dirty.len() - 1;
            let page = self.cache.dirty[di];
            proof {
                assert(crate::cache::list_has(self.cache.dirty@, page)) by {
                    assert(self.cache.dirty@[di as int] == page);
                }
                assert(self.cache.frames@.contains_key(page));
                assert(self.resident().contains_key(page));
            }
            let ghost dev_a = *self;
            let ghost ft = self.cache.frames@[page];
            let mut sector = make_sector();
            let mut s: usize = 0;
            while s < SECTORS_PER_PAGE
                invariant
                    dev0 == *old(self),
                    dev0.cache.dirty@.len() > 0,
                    dev_a.wf(),
                    dev_a.medium().len() == dev0.medium().len(),
                    dev_a.content() == dev0.content(),
                    dev_a.capacity() == dev0.capacity(),
                    s <= SECTORS_PER_PAGE,
                    dev_a.cache.frames@.contains_key(page),
                    dev_a.cache.dirty_has(page),
                    ft == dev_a.cache.frames@[page],
                    ft.bytes().len() == PAGE_CACHE_SIZE,
                    ((page as int) + 1) * (PAGE_CACHE_SIZE as int) <= dev_a.medium().len(),
                    self.cache == dev_a.cache,
                    self.medium().len() == dev_a.medium().len(),
                    sector@.len() == SECTOR_SIZE,
                    forall|x: int| 0 <= x < self.medium().len() && !((page as int) * (
                    PAGE_CACHE_SIZE as int) <= x < (page as int) * (PAGE_CACHE_SIZE as int) + (
                    s as int) * (SECTOR_SIZE as int)) ==> self.medium()[x] == dev_a.medium()[x],
                    forall|x: int| (page as int) * (PAGE_CACHE_SIZE as int) <= x < (page as int) * (
                    PAGE_CACHE_SIZE as int) + (s as int) * (SECTOR_SIZE as int)
                        ==> self.medium()[x] == ft.bytes()[x - (page as int) * (
                    PAGE_CACHE_SIZE as int)],
                decreases SECTORS_PER_PAGE - s,
            {
                let mut j: usize = 0;
                {
                    let got_ft = self.cache.frames.get(&page);
                    let ft_ref = got_ft.unwrap();
                    while j < SECTOR_SIZE
                        invariant
                            j <= SECTOR_SIZE,
                            s < SECTORS_PER_PAGE,
                            sector@.len() == SECTOR_SIZE,
                            ft_ref == &ft,
                            ft.bytes().len() == PAGE_CACHE_SIZE,
                            forall|x: int| 0 <= x < j ==> sector@[x] == ft.bytes()[(s as int) * (
                            SECTOR_SIZE as int) + x],
                        decreases SECTOR_SIZE - j,
                    {
                        let b = ft_ref.read_byte(s * SECTOR_SIZE + j);
                        sector[j] = b;
                        j += 1;
                    }
                }
                let ghost med_pre = self.medium();
                let block = page * SECTORS_PER_PAGE + s;
                match self.transport.write_block(block, &sector) {
                    Ok(()) => {},
                    Err(_) => {
                        // The page stays dirty and keeps shadowing the
                        // partially rewritten medium page, so the contents
                        // are unchanged.
                        proof {
                            self.lemma_flush_page_partial(dev_a, page);
                            assert(crate::cache::list_has(
                                dev0.cache.dirty@,
                                dev0.cache.dirty@[0],
                            ));
                            assert(dev0.dirty_set().contains(dev0.cache.dirty@[0]));
                        }
                        return Err(DevError::IoError);
                    },
                }
                proof {
                    assert forall|x: int| (page as int) * (PAGE_CACHE_SIZE as int) <= x < (
                    page as int) * (PAGE_CACHE_SIZE as int) + ((s as int) + 1) * (
                    SECTOR_SIZE as int) implies self.medium()[x] == ft.bytes()[x - (page as int)
                        * (PAGE_CACHE_SIZE as int)] by {
                        let base = (page as int) * (PAGE_CACHE_SIZE as int);
                        let bstart = (block as int) * (SECTOR_SIZE as int);
                        assert(bstart == base + (s as int) * (SECTOR_SIZE as int));
                        if x >= bstart {
                            assert(self.medium()[x] == sector@[x - bstart]);
                        } else {
                            assert(self.medium()[x] == med_pre[x]);
                        }
                    }
                }
                s += 1;
            }
            self.cache.dirty.pop();
            proof {
                assert forall|i: int, j2: int| 0 <= i < j2 < self.cache.dirty@.len() implies
                    self.cache.dirty@[i] != self.cache.dirty@[j2] by {
                    assert(self.cache.dirty@[i] == dev_a.cache.dirty@[i]);
                    assert(self.cache.dirty@[j2] == dev_a.cache.dirty@[j2]);
                }
                assert forall|p: usize| #[trigger] crate::cache::list_has(self.cache.dirty@, p)
                    implies (p != page && crate::cache::list_has(dev_a.cache.dirty@, p)) by {
                    let w = choose|w: int|
                        0 <= w < self.cache.dirty@.len() && self.cache.dirty@[w] == p;
                    assert(dev_a.cache.dirty@[w] == p);
                    assert(dev_a.cache.dirty@[w] != dev_a.cache.dirty@[di as int]);
                }
                assert forall|p: usize| p != page && crate::cache::list_has(dev_a.cache.dirty@, p)
                    implies #[trigger] crate::cache::list_has(self.cache.dirty@, p) by {
                    let w = choose|w: int|
                        0 <= w < dev_a.cache.dirty@.len() && dev_a.cache.dirty@[w] == p;
                    assert(w != di as int);
                    assert(self.cache.dirty@[w] == p);
                }
                self.lemma_flush_page_done(dev_a, page, ft);
            }
        }
        proof {
            self.lemma_synced_when_clean();
            assert(crate::cache::list_has(dev0.cache.dirty@, dev0.cache.dirty@[0]));
            assert(dev0.dirty_set().contains(dev0.cache.dirty@[0]));
        }
        Ok(())
    }

    /// With an empty dirty list every resident page agrees with the medium,
    /// so the medium already holds the whole device contents.
    proof fn lemma_synced_when_clean(self)
        requires
            self.wf(),
            self.cache.dirty@.len() == 0,
        ensures
            self.dirty_set() == Set::<usize>::empty(),
            self.medium() == self.content(),
    {
        assert(self.dirty_set() =~= Set::<usize>::empty());
        assert forall|i: int| 0 <= i < self.medium().len() implies self.content()[i]
            == self.medium()[i] by {
            lemma_page_split(i);
            let pg = (i / (PAGE_CACHE_SIZE as int)) as usize;
            if self.resident().contains_key(pg) {
                assert(!self.dirty_set().contains(pg));
                assert(self.resident()[pg] == self.medium().subrange(
                    (pg as int) * (PAGE_CACHE_SIZE as int),
                    ((pg as int) + 1) * (PAGE_CACHE_SIZE as int),
                ));
                assert(self.resident()[pg][i % (PAGE_CACHE_SIZE as int)] == self.medium()[i]);
            }
        }
        assert(self.medium() =~= self.content());
    }

    /// A transport failure in the middle of a page write-back garbles only
    /// that page's medium range; the page is still resident and dirty, so
    /// the device stays well formed with unchanged contents.
    proof fn lemma_flush_page_partial(self, dev_a: GenericBlockDevice<T>, page: usize)
        requires
            dev_a.wf(),
            dev_a.cache.frames@.contains_key(page),
            dev_a.cache.dirty_has(page),
            self.cache == dev_a.cache,
            self.medium().len() == dev_a.medium().len(),
            forall|x: int| 0 <= x < self.medium().len() && !((page as int) * (
            PAGE_CACHE_SIZE as int) <= x < ((page as int) + 1) * (PAGE_CACHE_SIZE as int))
                ==> self.medium()[x] == dev_a.medium()[x],
        ensures
            self.wf(),
            self.content() == dev_a.content(),
    {
        assert(self.resident() == dev_a.resident());
        assert(self.dirty_set() == dev_a.dirty_set());
        assert(self.dirty_set().contains(page));
        assert forall|p: usize| #[trigger] self.resident().contains_key(p) implies ((p as int) + 1)
            * (PAGE_CACHE_SIZE as int) <= self.medium().len() by {
            assert(dev_a.resident().contains_key(p));
        }
        assert forall|p: usize| #[trigger] self.resident().contains_key(p)
            && !self.dirty_set().contains(p) implies self.resident()[p] == self.medium().subrange(
            (p as int) * (PAGE_CACHE_SIZE as int),
            ((p as int) + 1) * (PAGE_CACHE_SIZE as int),
        ) by {
            assert(p != page);
            assert(dev_a.resident()[p] == dev_a.medium().subrange(
                (p as int) * (PAGE_CACHE_SIZE as int),
                ((p as int) + 1) * (PAGE_CACHE_SIZE as int),
            ));
            assert forall|x: int| (p as int) * (PAGE_CACHE_SIZE as int) <= x < ((p as int) + 1) * (
            PAGE_CACHE_SIZE as int) implies #[trigger] self.medium()[x] == dev_a.medium()[x] by {
                assert(((p as int) + 1) * (PAGE_CACHE_SIZE as int) <= self.medium().len());
            }
            assert(self.medium().subrange(
                (p as int) * (PAGE_CACHE_SIZE as int),
                ((p as int) + 1) * (PAGE_CACHE_SIZE as int),
            ) =~= dev_a.medium().subrange(
                (p as int) * (PAGE_CACHE_SIZE as int),
                ((p as int) + 1) * (PAGE_CACHE_SIZE as int),
            ));
        }
        assert forall|i: int| 0 <= i < self.medium().len() implies self.content()[i]
            == dev_a.content()[i] by {
            lemma_page_split(i);
            let pg = (i / (PAGE_CACHE_SIZE as int)) as usize;
            if !self.resident().contains_key(pg) {
                assert(pg != page);
                assert(!((page as int) * (PAGE_CACHE_SIZE as int) <= i < ((page as int) + 1) * (
                PAGE_CACHE_SIZE as int))) by {
                    if (page as int) * (PAGE_CACHE_SIZE as int) <= i < ((page as int) + 1) * (
                    PAGE_CACHE_SIZE as int) {
                        lemma_abs_index(page as int, i - (page as int) * (PAGE_CACHE_SIZE as int));
                    }
                }
            }
        }
        assert(self.content() =~= dev_a.content());
    }

    /// After a completed page write-back the page's bytes stand on the
    /// medium and the page leaves the dirty list; the device stays well
    /// formed with unchanged contents.
    proof fn lemma_flush_page_done(
        self,
        dev_a: GenericBlockDevice<T>,
        page: usize,
        ft: FrameTracker,
    )
        requires
            dev_a.wf(),
            dev_a.cache.frames@.contains_key(page),
            ft == dev_a.cache.frames@[page],
            self.cache.lru == dev_a.cache.lru,
            self.cache.frames == dev_a.cache.frames,
            self.cache.next_handle == dev_a.cache.next_handle,
            self.cache.cap == dev_a.cache.cap,
            forall|i: int, j: int| 0 <= i < j < self.cache.dirty@.len() ==> self.cache.dirty@[i]
                != self.cache.dirty@[j],
            forall|p: usize| #[trigger] crate::cache::list_has(self.cache.dirty@, p) <==> (p != page
                && crate::cache::list_has(dev_a.cache.dirty@, p)),
            self.medium().len() == dev_a.medium().len(),
            ((page as int) + 1) * (PAGE_CACHE_SIZE as int) <= self.medium().len(),
            forall|x: int| 0 <= x < self.medium().len() && !((page as int) * (
            PAGE_CACHE_SIZE as int) <= x < ((page as int) + 1) * (PAGE_CACHE_SIZE as int))
                ==> self.medium()[x] == dev_a.medium()[x],
            forall|x: int| (page as int) * (PAGE_CACHE_SIZE as int) <= x < ((page as int) + 1) * (
            PAGE_CACHE_SIZE as int) ==> self.medium()[x] == ft.bytes()[x - (page as int) * (
            PAGE_CACHE_SIZE as int)],
        ensures
            self.wf(),
            self.content() == dev_a.content(),
    {
        assert(self.resident() == dev_a.resident());
        assert forall|i: int| 0 <= i < self.cache.dirty@.len() implies self.cache.frames@.contains_key(
            #[trigger] self.cache.dirty@[i],
        ) by {
            let p = self.cache.dirty@[i];
            assert(crate::cache::list_has(self.cache.dirty@, p));
            assert(crate::cache::list_has(dev_a.cache.dirty@, p));
            let w = choose|w: int| 0 <= w < dev_a.cache.dirty@.len() && dev_a.cache.dirty@[w] == p;
            assert(dev_a.cache.frames@.contains_key(p));
        }
        assert forall|p: usize| #[trigger] self.resident().contains_key(p) implies ((p as int) + 1)
            * (PAGE_CACHE_SIZE as int) <= self.medium().len() by {
            assert(dev_a.resident().contains_key(p));
        }
        assert forall|p: usize| #[trigger] self.resident().contains_key(p)
            && !self.dirty_set().contains(p) implies self.resident()[p] == self.medium().subrange(
            (p as int) * (PAGE_CACHE_SIZE as int),
            ((p as int) + 1) * (PAGE_CACHE_SIZE as int),
        ) by {
            if p == page {
                assert(self.resident()[page] == ft.bytes());
                assert(ft.bytes().len() == PAGE_CACHE_SIZE);
                assert(self.resident()[p] =~= self.medium().subrange(
                    (p as int) * (PAGE_CACHE_SIZE as int),
                    ((p as int) + 1) * (PAGE_CACHE_SIZE as int),
                ));
            } else {
                assert(!dev_a.cache.dirty_has(p));
                assert(dev_a.resident()[p] == dev_a.medium().subrange(
                    (p as int) * (PAGE_CACHE_SIZE as int),
                    ((p as int) + 1) * (PAGE_CACHE_SIZE as int),
                ));
                assert forall|x: int| (p as int) * (PAGE_CACHE_SIZE as int) <= x < ((p as int) + 1)
                    * (PAGE_CACHE_SIZE as int) implies #[trigger] self.medium()[x]
                    == dev_a.medium()[x] by {
                    assert(((p as int) + 1) * (PAGE_CACHE_SIZE as int) <= self.medium().len());
                }
                assert(self.medium().subrange(
                    (p as int) * (PAGE_CACHE_SIZE as int),
                    ((p as int) + 1) * (PAGE_CACHE_SIZE as int),
                ) =~= dev_a.medium().subrange(
                    (p as int) * (PAGE_CACHE_SIZE as int),
                    ((p as int) + 1) * (PAGE_CACHE_SIZE as int),
                ));
            }
        }
        assert forall|i: int| 0 <= i < self.medium().len() implies self.content()[i]
            == dev_a.content()[i] by {
            lemma_page_split(i);
            let pg = (i / (PAGE_CACHE_SIZE as int)) as usize;
            if !self.resident().contains_key(pg) {
                assert(pg != page);
                assert(!((page as int) * (PAGE_CACHE_SIZE as int) <= i < ((page as int) + 1) * (
                PAGE_CACHE_SIZE as int))) by {
                    if (page as int) * (PAGE_CACHE_SIZE as int) <= i < ((page as int) + 1) * (
                    PAGE_CACHE_SIZE as int) {
                        lemma_abs_index(page as int, i - (page as int) * (PAGE_CACHE_SIZE as int));
                    }
                }
            }
        }
        assert(self.content() =~= dev_a.content());
    }

    /// After overwriting `b.len()` bytes of resident page `page_id` at
    /// offset `intra` and marking it dirty, the device is well formed and
    /// its contents carry exactly that byte-range update.
    proof fn lemma_state_after_write_chunk(
        self,
        dev_a: GenericBlockDevice<T>,
        page_id: usize,
        ft0: FrameTracker,
        ft: FrameTracker,
        intra: int,
        b: Seq<u8>,
    )
        requires
            dev_a.wf(),
            dev_a.cache.frames@.contains_key(page_id),
            ft0 == dev_a.cache.frames@[page_id],
            ft.id() == ft0.id(),
            ft.bytes().len() == ft0.bytes().len(),
            0 <= intra,
            intra + b.len() <= PAGE_CACHE_SIZE,
            forall|x: int| 0 <= x < ft.bytes().len() && !(intra <= x < intra + b.len())
                ==> ft.bytes()[x] == ft0.bytes()[x],
            forall|x: int| 0 <= x < b.len() ==> ft.bytes()[intra + x] == b[x],
            self.cache.lru == dev_a.cache.lru,
            self.cache.frames@ == dev_a.cache.frames@.remove(page_id).insert(page_id, ft),
            self.cache.next_handle == dev_a.cache.next_handle,
            self.cache.cap == dev_a.cache.cap,
            forall|i: int, j: int| 0 <= i < j < self.cache.dirty@.len() ==> self.cache.dirty@[i]
                != self.cache.dirty@[j],
            forall|p: usize| #[trigger] crate::cache::list_has(self.cache.dirty@, p) <==> (p
                == page_id || crate::cache::list_has(dev_a.cache.dirty@, p)),
            self.medium() == dev_a.medium(),
        ensures
            self.wf(),
            self.content() == update_range(
                dev_a.content(),
                (page_id as int) * (PAGE_CACHE_SIZE as int) + intra,
                b,
            ),
            forall|p: usize| #[trigger] self.resident().contains_key(p)
                <==> dev_a.resident().contains_key(p),
            self.dirty_set().contains(page_id),
            forall|p: usize| dev_a.dirty_set().contains(p) ==> #[trigger] self.dirty_set().contains(
                p,
            ),
            self.capacity() == dev_a.capacity(),
    {
        assert(self.cache.frames@ =~= dev_a.cache.frames@.insert(page_id, ft));
        assert forall|p: usize| #[trigger] self.cache.frames@.contains_key(p) <==>
            dev_a.cache.frames@.contains_key(p) by {}
        assert forall|i: int| 0 <= i < self.cache.entries().len() implies
            self.cache.frames@.contains_key((#[trigger] self.cache.entries()[i]).0)
            && self.cache.frames@[self.cache.entries()[i].0].id() == self.cache.entries()[i].1 by {
            assert(self.cache.entries() == dev_a.cache.entries());
        }
        assert forall|i: int| 0 <= i < self.cache.dirty@.len() implies self.cache.frames@.contains_key(
            #[trigger] self.cache.dirty@[i],
        ) by {
            let p = self.cache.dirty@[i];
            assert(crate::cache::list_has(self.cache.dirty@, p));
            if p != page_id {
                assert(crate::cache::list_has(dev_a.cache.dirty@, p));
                let w = choose|w: int|
                    0 <= w < dev_a.cache.dirty@.len() && dev_a.cache.dirty@[w] == p;
                assert(dev_a.cache.frames@.contains_key(p));
            }
        }
        assert forall|p: usize| #[trigger] self.resident().contains_key(p) implies ((p as int) + 1)
            * (PAGE_CACHE_SIZE as int) <= self.medium().len() by {
            assert(dev_a.resident().contains_key(p));
        }
        assert(self.dirty_set().contains(page_id));
        assert forall|p: usize| #[trigger] self.resident().contains_key(p)
            && !self.dirty_set().contains(p) implies self.resident()[p] == self.medium().subrange(
            (p as int) * (PAGE_CACHE_SIZE as int),
            ((p as int) + 1) * (PAGE_CACHE_SIZE as int),
        ) by {
            assert(p != page_id);
            assert(dev_a.resident().contains_key(p));
            assert(!dev_a.cache.dirty_has(p));
            assert(self.resident()[p] == dev_a.resident()[p]);
        }
        let base = (page_id as int) * (PAGE_CACHE_SIZE as int);
        assert forall|i: int| 0 <= i < self.medium().len() implies self.content()[i]
            == update_range(dev_a.content(), base + intra, b)[i] by {
            lemma_page_split(i);
            let pg = (i / (PAGE_CACHE_SIZE as int)) as usize;
            if pg == page_id {
                lemma_abs_index(page_id as int, i % (PAGE_CACHE_SIZE as int));
                assert(self.resident().contains_key(pg));
                assert(self.resident()[pg] == ft.bytes());
                assert(dev_a.resident()[pg] == ft0.bytes());
                assert(dev_a.content()[i] == ft0.bytes()[i % (PAGE_CACHE_SIZE as int)]) by {
                    dev_a.lemma_resident_page(page_id);
                }
            } else {
                assert(!(base + intra <= i < base + intra + b.len())) by {
                    if base + intra <= i < base + intra + b.len() {
                        lemma_abs_index(page_id as int, i - base);
                    }
                }
                assert(self.resident().contains_key(pg) == dev_a.resident().contains_key(pg));
                if dev_a.resident().contains_key(pg) {
                    assert(self.resident()[pg] == dev_a.resident()[pg]);
                }
            }
        }
        assert(self.content() =~= update_range(dev_a.content(), base + intra, b));
    }

    /// After a failed write-back the victim is back in place, marked dirty,
    /// and the device is well formed with unchanged contents.
    proof fn lemma_restore_after_failed_writeback(
        self,
        dev0: GenericBlockDevice<T>,
        victim: usize,
        vh: usize,
        ft: FrameTracker,
    )
        requires
            dev0.wf(),
            dev0.cache.entries().len() > 0,
            (victim, vh) == dev0.cache.entries().last(),
            ft == dev0.cache.frames@[victim],
            dev0.cache.frames@.contains_key(victim),
            self.cache.entries() == seq![(victim, vh)] + dev0.cache.entries().drop_last(),
            lru_capacity(self.cache.lru) == lru_capacity(dev0.cache.lru),
            self.cache.frames@ == dev0.cache.frames@.remove(victim).insert(victim, ft),
            forall|i: int, j: int| 0 <= i < j < self.cache.dirty@.len()
                ==> self.cache.dirty@[i] != self.cache.dirty@[j],
            forall|p: usize| #[trigger] crate::cache::list_has(self.cache.dirty@, p) <==> (p
                == victim || crate::cache::list_has(dev0.cache.dirty@, p)),
            self.cache.next_handle == dev0.cache.next_handle,
            self.cache.cap == dev0.cache.cap,
            self.medium().len() == dev0.medium().len(),
            forall|x: int| 0 <= x < self.medium().len() && !((victim as int) * (
            PAGE_CACHE_SIZE as int) <= x < ((victim as int) + 1) * (PAGE_CACHE_SIZE as int))
                ==> self.medium()[x] == dev0.medium()[x],
        ensures
            self.wf(),
            self.content() == dev0.content(),
            self.cache.entries().len() == dev0.cache.entries().len(),
            self.resident() == dev0.resident(),
            forall|p: usize| dev0.dirty_set().contains(p) ==> #[trigger] self.dirty_set().contains(
                p,
            ),
            self.capacity() == dev0.capacity(),
    {
        let es0 = dev0.cache.entries();
        let es1 = self.cache.entries();
        assert(self.cache.frames@ =~= dev0.cache.frames@);
        assert(self.resident() =~= dev0.resident());
        // keys of es1 are the keys of es0
        assert forall|p: usize| entries_have_key(es1, p) implies entries_have_key(es0, p) by {
            let w = choose|w: int| 0 <= w < es1.len() && (#[trigger] es1[w]).0 == p;
            if w == 0 {
                assert(es0[es0.len() - 1].0 == p);
            } else {
                assert(es0[w - 1].0 == p);
            }
        }
        assert forall|p: usize| entries_have_key(es0, p) implies entries_have_key(es1, p) by {
            let w = choose|w: int| 0 <= w < es0.len() && (#[trigger] es0[w]).0 == p;
            if w == es0.len() - 1 {
                assert(es1[0].0 == p);
            } else {
                assert(es1[w + 1].0 == p);
            }
        }
        // distinct keys
        assert forall|i: int, j: int| 0 <= i < j < es1.len() implies es1[i].0 != es1[j].0 by {
            if i == 0 {
                assert(es1[j] == es0[j - 1]);
                assert(es0[j - 1].0 != es0[es0.len() - 1].0);
            } else {
                assert(es1[i] == es0[i - 1]);
                assert(es1[j] == es0[j - 1]);
            }
        }
        // values sync
        assert forall|i: int| 0 <= i < es1.len() implies self.cache.frames@.contains_key(
            (#[trigger] es1[i]).0,
        ) && self.cache.frames@[es1[i].0].id() == es1[i].1 by {
            if i == 0 {
                assert(es0[es0.len() - 1].0 == victim);
            } else {
                assert(es1[i] == es0[i - 1]);
            }
        }
        // dirty pages are resident
        assert forall|i: int| 0 <= i < self.cache.dirty@.len() implies self.cache.frames@.contains_key(
            #[trigger] self.cache.dirty@[i],
        ) by {
            let p = self.cache.dirty@[i];
            assert(crate::cache::list_has(self.cache.dirty@, p));
            if p != victim {
                assert(crate::cache::list_has(dev0.cache.dirty@, p));
                let w = choose|w: int|
                    0 <= w < dev0.cache.dirty@.len() && dev0.cache.dirty@[w] == p;
                assert(dev0.cache.frames@.contains_key(p));
            }
        }
        // clean resident pages still agree with the medium
        assert forall|p: usize| #[trigger] self.resident().contains_key(p)
            && !self.dirty_set().contains(p) implies self.resident()[p] == self.medium().subrange(
            (p as int) * (PAGE_CACHE_SIZE as int),
            ((p as int) + 1) * (PAGE_CACHE_SIZE as int),
        ) by {
            assert(p != victim);
            assert(!dev0.cache.dirty_has(p));
            assert(dev0.resident()[p] == dev0.medium().subrange(
                (p as int) * (PAGE_CACHE_SIZE as int),
                ((p as int) + 1) * (PAGE_CACHE_SIZE as int),
            ));
            assert forall|x: int| (p as int) * (PAGE_CACHE_SIZE as int) <= x < ((p as int) + 1)
                * (PAGE_CACHE_SIZE as int) implies #[trigger] self.medium()[x]
                == dev0.medium()[x] by {
                assert(((p as int) + 1) * (PAGE_CACHE_SIZE as int) <= self.medium().len());
            }
            assert(self.medium().subrange(
                (p as int) * (PAGE_CACHE_SIZE as int),
                ((p as int) + 1) * (PAGE_CACHE_SIZE as int),
            ) =~= dev0.medium().subrange(
                (p as int) * (PAGE_CACHE_SIZE as int),
                ((p as int) + 1) * (PAGE_CACHE_SIZE as int),
            ));
        }
        // contents unchanged
        assert forall|i: int| 0 <= i < self.medium().len() implies self.content()[i]
            == dev0.content()[i] by {
            lemma_page_split(i);
            let pg = (i / (PAGE_CACHE_SIZE as int)) as usize;
            if !self.resident().contains_key(pg) {
                assert(pg != victim);
                assert(!((victim as int) * (PAGE_CACHE_SIZE as int) <= i < ((victim as int) + 1)
                    * (PAGE_CACHE_SIZE as int))) by {
                    if (victim as int) * (PAGE_CACHE_SIZE as int) <= i < ((victim as int) + 1) * (
                    PAGE_CACHE_SIZE as int) {
                        lemma_abs_index(victim as int, i - (victim as int) * (
                        PAGE_CACHE_SIZE as int));
                    }
                }
            }
        }
        assert(self.content() =~= dev0.content());
    }

    /// After a completed write-back the victim page is gone from the cache
    /// and the dirty list, its bytes stand on the medium, and the device is
    /// well formed with unchanged contents.
    proof fn lemma_state_after_writeback(
        self,
        dev0: GenericBlockDevice<T>,
        victim: usize,
        ft: FrameTracker,
    )
        requires
            dev0.wf(),
            dev0.cache.entries().len() > 0,
            victim == dev0.cache.entries().last().0,
            ft == dev0.cache.frames@[victim],
            dev0.cache.frames@.contains_key(victim),
            self.cache.entries() == dev0.cache.entries().drop_last(),
            lru_capacity(self.cache.lru) == lru_capacity(dev0.cache.lru),
            self.cache.frames@ == dev0.cache.frames@.remove(victim),
            forall|i: int, j: int| 0 <= i < j < self.cache.dirty@.len()
                ==> self.cache.dirty@[i] != self.cache.dirty@[j],
            forall|p: usize| #[trigger] crate::cache::list_has(self.cache.dirty@, p) <==> (p
                != victim && crate::cache::list_has(dev0.cache.dirty@, p)),
            self.cache.next_handle == dev0.cache.next_handle,
            self.cache.cap == dev0.cache.cap,
            self.medium().len() == dev0.medium().len(),
            ((victim as int) + 1) * (PAGE_CACHE_SIZE as int) <= self.medium().len(),
            forall|x: int| 0 <= x < self.medium().len() && !((victim as int) * (
            PAGE_CACHE_SIZE as int) <= x < ((victim as int) + 1) * (PAGE_CACHE_SIZE as int))
                ==> self.medium()[x] == dev0.medium()[x],
            forall|x: int| (victim as int) * (PAGE_CACHE_SIZE as int) <= x < ((victim as int) + 1)
                * (PAGE_CACHE_SIZE as int) ==> self.medium()[x] == ft.bytes()[x - (victim as int)
                * (PAGE_CACHE_SIZE as int)],
        ensures
            self.wf(),
            self.content() == dev0.content(),
            self.cache.entries().len() == dev0.cache.entries().len() - 1,
            forall|p: usize| #[trigger] self.resident().contains_key(p)
                ==> dev0.resident().contains_key(p),
            forall|p: usize| dev0.dirty_set().contains(p)
                && #[trigger] self.resident().contains_key(p) ==> self.dirty_set().contains(p),
            self.capacity() == dev0.capacity(),
    {
        let es0 = dev0.cache.entries();
        let es1 = self.cache.entries();
        assert forall|p: usize| dev0.dirty_set().contains(p)
            && #[trigger] self.resident().contains_key(p) implies self.dirty_set().contains(p) by {
            assert(self.cache.frames@.contains_key(p));
            assert(p != victim);
        }
        assert forall|i: int, j: int| 0 <= i < j < es1.len() implies es1[i].0 != es1[j].0 by {
            assert(es1[i] == es0[i]);
            assert(es1[j] == es0[j]);
        }
        assert forall|p: usize| #[trigger] self.resident().contains_key(p) implies ((p as int) + 1)
            * (PAGE_CACHE_SIZE as int) <= self.medium().len() by {
            assert(dev0.cache.frames@.contains_key(p));
            assert(dev0.resident().contains_key(p));
        }
        // domain sync
        assert forall|p: usize| #[trigger] self.cache.frames@.contains_key(p) implies
            entries_have_key(es1, p) by {
            assert(p != victim);
            assert(dev0.cache.frames@.contains_key(p));
            let w = choose|w: int| 0 <= w < es0.len() && (#[trigger] es0[w]).0 == p;
            assert(w != es0.len() - 1);
            assert(es1[w].0 == p);
        }
        assert forall|p: usize| entries_have_key(es1, p) implies
            self.cache.frames@.contains_key(p) by {
            let w = choose|w: int| 0 <= w < es1.len() && (#[trigger] es1[w]).0 == p;
            assert(es0[w].0 == p);
            assert(es0[w].0 != es0[es0.len() - 1].0);
        }
        // values sync
        assert forall|i: int| 0 <= i < es1.len() implies self.cache.frames@.contains_key(
            (#[trigger] es1[i]).0,
        ) && self.cache.frames@[es1[i].0].id() == es1[i].1 by {
            assert(es1[i] == es0[i]);
            assert(es0[i].0 != es0[es0.len() - 1].0);
        }
        // dirty pages are resident
        assert forall|i: int| 0 <= i < self.cache.dirty@.len() implies self.cache.frames@.contains_key(
            #[trigger] self.cache.dirty@[i],
        ) by {
            let p = self.cache.dirty@[i];
            assert(crate::cache::list_has(self.cache.dirty@, p));
            assert(crate::cache::list_has(dev0.cache.dirty@, p));
            let w = choose|w: int| 0 <= w < dev0.cache.dirty@.len() && dev0.cache.dirty@[w] == p;
            assert(dev0.cache.frames@.contains_key(p));
        }
        // clean resident pages still agree with the medium
        assert forall|p: usize| #[trigger] self.resident().contains_key(p)
            && !self.dirty_set().contains(p) implies self.resident()[p] == self.medium().subrange(
            (p as int) * (PAGE_CACHE_SIZE as int),
            ((p as int) + 1) * (PAGE_CACHE_SIZE as int),
        ) by {
            assert(p != victim);
            assert(dev0.resident().contains_key(p));
            assert(!dev0.cache.dirty_has(p) ==> dev0.resident()[p] == dev0.medium().subrange(
                (p as int) * (PAGE_CACHE_SIZE as int),
                ((p as int) + 1) * (PAGE_CACHE_SIZE as int),
            ));
            assert(!self.cache.dirty_has(p));
            assert(!dev0.cache.dirty_has(p));
            assert forall|x: int| (p as int) * (PAGE_CACHE_SIZE as int) <= x < ((p as int) + 1)
                * (PAGE_CACHE_SIZE as int) implies #[trigger] self.medium()[x]
                == dev0.medium()[x] by {
                assert(((p as int) + 1) * (PAGE_CACHE_SIZE as int) <= self.medium().len());
            }
            assert(self.medium().subrange(
                (p as int) * (PAGE_CACHE_SIZE as int),
                ((p as int) + 1) * (PAGE_CACHE_SIZE as int),
            ) =~= dev0.medium().subrange(
                (p as int) * (PAGE_CACHE_SIZE as int),
                ((p as int) + 1) * (PAGE_CACHE_SIZE as int),
            ));
        }
        // contents unchanged: the victim page now reads from the medium,
        // where its cached bytes were just written
        assert forall|i: int| 0 <= i < self.medium().len() implies self.content()[i]
            == dev0.content()[i] by {
            lemma_page_split(i);
            let pg = (i / (PAGE_CACHE_SIZE as int)) as usize;
            if pg == victim {
                lemma_abs_index(victim as int, i % (PAGE_CACHE_SIZE as int));
                assert(!self.resident().contains_key(victim));
                assert(dev0.resident().contains_key(victim));
                assert(self.medium()[i] == ft.bytes()[i % (PAGE_CACHE_SIZE as int)]);
            } else {
                assert(!((victim as int) * (PAGE_CACHE_SIZE as int) <= i < ((victim as int) + 1)
                    * (PAGE_CACHE_SIZE as int))) by {
                    if (victim as int) * (PAGE_CACHE_SIZE as int) <= i < ((victim as int) + 1) * (
                    PAGE_CACHE_SIZE as int) {
                        lemma_abs_index(victim as int, i - (victim as int) * (
                        PAGE_CACHE_SIZE as int));
                    }
                }
                assert(self.medium()[i] == dev0.medium()[i]);
                assert(self.resident().contains_key(pg) == dev0.resident().contains_key(pg));
            }
        }
        assert(self.content() =~= dev0.content());
    }
}

/// One zeroed sector buffer.
fn make_sector() -> (r: Vec<u8>)
    ensures
        r@.len() == SECTOR_SIZE,
{
    let mut v: Vec<u8> = Vec::new();
    while v.len() < SECTOR_SIZE
        invariant
            v@.len() <= SECTOR_SIZE,
        decreases SECTOR_SIZE - v@.len(),
    {
        v.push(0u8);
    }
    v
}

} // verus!
