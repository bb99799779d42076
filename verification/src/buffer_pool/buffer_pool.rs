//! The buffer pool: a bounded cache of disk pages. A lookup that hits is
//! served from a resident frame; a miss reserves a frame (evicting a cold
//! page if none is free), installs a directory entry, loads the page image
//! from the reader, and serves the freshly filled frame. A served page is
//! borrowed through a guard for as long as the caller reads it.

use vstd::prelude::*;

verus! {

use crate::buffer_pool::clock::{lemma_find_victim_from_properties, RETRIES};
use crate::buffer_pool::page_hash_map::{
    BufferPoolPageHashMap,
    InsertPageError,
    InsertPageResult,
    chain_ok_at,
    chains_ok,
    frame_at,
    insert_probe_from,
    lemma_insert_probe_found,
    live_at,
    page_id_at,
    resident_in,
    slots_unique_ids,
};
use crate::page::{Page, PageId, SIZE, page_layout_well_formed};
use crate::persist::{spec_store_well_formed, Reader};

/// Where a served page came from: a frame that was already resident, or one
/// filled from disk by this very call.
pub enum BufferPoolPage<'a> {
    PageFromPool(&'a Page),
    PageFromDisk(&'a Page),
}

/// Borrows the served page for the caller; while the guard lives, the pool
/// is borrowed and no eviction can touch the frame.
pub struct ReadPageGuard<'a> {
    buffer_pool_page: BufferPoolPage<'a>,
}

impl<'a> ReadPageGuard<'a> {
    /// The page this guard serves.
    pub closed spec fn spec_page(&self) -> Page {
        match self.buffer_pool_page {
            BufferPoolPage::PageFromPool(p) => *p,
            BufferPoolPage::PageFromDisk(p) => *p,
        }
    }

    /// Whether the page was already resident when the guard was made.
    pub closed spec fn spec_from_pool(&self) -> bool {
        self.buffer_pool_page is PageFromPool
    }

    fn new_page_from_pool(page_guard: &'a Page) -> (r: Self)
        ensures
            r.spec_page() == *page_guard,
            r.spec_from_pool(),
    {
        Self { buffer_pool_page: BufferPoolPage::PageFromPool(page_guard) }
    }

    fn new_page_from_disk(page_guard: &'a Page) -> (r: Self)
        ensures
            r.spec_page() == *page_guard,
            !r.spec_from_pool(),
    {
        Self { buffer_pool_page: BufferPoolPage::PageFromDisk(page_guard) }
    }

    /// Borrows the served page.
    pub fn get(&'a self) -> (r: &'a Page)
        ensures
            *r == self.spec_page(),
    {
        match &self.buffer_pool_page {
            BufferPoolPage::PageFromPool(page) => *page,
            BufferPoolPage::PageFromDisk(page) => *page,
        }
    }

    /// Whether the page was served from the pool rather than read from disk
    /// by the call that made this guard.
    pub fn is_from_pool(&self) -> (r: bool)
        ensures
            r == self.spec_from_pool(),
    {
        match &self.buffer_pool_page {
            BufferPoolPage::PageFromPool(_) => true,
            BufferPoolPage::PageFromDisk(_) => false,
        }
    }
}

#[derive(Debug, PartialEq, Eq, Structural)]
pub enum GetPageError {
    FailedToInsert(InsertPageError),
    FailedToReadFromDisk,
}

/// The pool: the page directory over its frames, bound to the reader that
/// loads missing pages.
pub struct BufferPool {
    page_map: BufferPoolPageHashMap,
    reader: Reader,
}

impl BufferPool {
    /// The directory with its frames, free list and clock.
    pub closed spec fn spec_map(&self) -> BufferPoolPageHashMap {
        self.page_map
    }

    /// The reader serving page images.
    pub closed spec fn spec_reader(&self) -> Reader {
        self.reader
    }

    /// How many frames the pool holds.
    pub open spec fn spec_size(&self) -> nat {
        self.spec_map().spec_size()
    }

    /// Whether `page_id` is resident in some frame.
    pub open spec fn is_resident(&self, page_id: PageId) -> bool {
        self.spec_map().is_resident(page_id)
    }

    /// The pool invariant: the directory is well formed, no page is
    /// resident twice, every resident page can be found by probing, every
    /// frame holds a well-formed page, and the backing store consists of
    /// well-formed page images.
    pub open spec fn inv(&self) -> bool {
        &&& self.spec_map().wf()
        &&& self.spec_map().unique_ids()
        &&& self.spec_map().chain_ok()
        &&& forall|f: int|
            0 <= f < self.spec_size() ==> (#[trigger] self.spec_map().frames_model()[f]).wf()
        &&& self.spec_reader()@.len() <= u64::MAX
        &&& spec_store_well_formed(self.spec_reader()@)
    }

    /// Builds a pool of `size` frames over `reader`'s page images.
    pub fn new(size: usize, reader: Reader) -> (r: BufferPool)
        requires
            1 <= size,
            20 * size <= usize::MAX,
            reader@.len() <= u64::MAX,
            spec_store_well_formed(reader@),
        ensures
            r.inv(),
            r.spec_size() == size,
            r.spec_reader()@ == reader@,
            forall|id: PageId| !r.is_resident(id),
            forall|k: int| 0 <= k < 2 * size ==> r.spec_map().slots_model()[k] is None,
            r.spec_map().free_model().len() == size,
            forall|i: int| 0 <= i < size ==> r.spec_map().free_model()[i] == i,
            forall|k: int| 0 <= k < 2 * size ==> r.spec_map().clock_bits()[k] == (false, false),
            r.spec_map().clock_hand() == 0,
    {
        let r = BufferPool { page_map: BufferPoolPageHashMap::new(size), reader };
        proof {
            let slots = r.spec_map().slots_model();
            let frames = r.spec_map().frames_model();
            assert forall|id: PageId| !r.is_resident(id) by {
                if resident_in(slots, frames, id) {
                    let k = choose|k: int|
                        0 <= k < slots.len() && live_at(slots, k) && #[trigger] page_id_at(
                            slots,
                            frames,
                            k,
                        ) == id;
                    assert(slots[k] is None);
                }
            }
            assert forall|k: int| 0 <= k < slots.len() && #[trigger] live_at(slots, k) implies
                chain_ok_at(slots, frames, size as nat, k) by {
                assert(slots[k] is None);
            }
        }
        r
    }

    /// How many pages the backing store holds.
    pub fn page_count(&self) -> (r: u64)
        requires
            self.inv(),
        ensures
            r == self.spec_reader().spec_page_count(),
    {
        self.reader.page_count()
    }

    /// After reserving a frame, the directory slots the install works on
    /// still have intact chains and unique ids, hold no more residents than
    /// before, and keep live frames in range.
    proof fn lemma_after_alloc(m: BufferPoolPageHashMap)
        requires
            m.wf(),
            m.chain_ok(),
            m.unique_ids(),
            m.spec_alloc_ok(),
        ensures
            m.spec_slots_after_alloc().len() == m.slots_model().len(),
            chains_ok(m.spec_slots_after_alloc(), m.frames_model(), m.spec_size()),
            slots_unique_ids(m.spec_slots_after_alloc(), m.frames_model()),
            forall|id: PageId|
                #[trigger] resident_in(m.spec_slots_after_alloc(), m.frames_model(), id)
                    ==> m.is_resident(id),
            forall|j: int|
                0 <= j < m.slots_model().len() && #[trigger] m.slots_model()[j] is Some
                    ==> m.spec_slots_after_alloc()[j] is Some,
            forall|j: int|
                0 <= j < m.spec_slots_after_alloc().len() && #[trigger] live_at(
                    m.spec_slots_after_alloc(),
                    j,
                ) ==> 0 <= frame_at(m.spec_slots_after_alloc(), j) < m.frames_model().len(),
    {
        let slots = m.slots_model();
        let frames = m.frames_model();
        let after = m.spec_slots_after_alloc();
        if m.free_model().len() > 0 {
            assert(after == slots);
            assert forall|j: int| 0 <= j < after.len() && #[trigger] live_at(after, j) implies 0
                <= frame_at(after, j) < frames.len() by {
                assert(m.slot_is_live(j) && m.live_frame(j) == frame_at(after, j));
            }
        } else {
            let v = m.spec_sweep().0->0;
            m.lemma_clock_model();
            m.spec_clock().lemma_wf_hand_range();
            lemma_find_victim_from_properties(
                m.clock_bits(),
                m.clock_hand(),
                (RETRIES * (2 * m.spec_size())) as nat,
            );
            assert(m.spec_sweep().1[v] == (true, false));
            assert(crate::buffer_pool::clock::find_victim_from(
                m.clock_bits(),
                m.clock_hand(),
                (RETRIES * (2 * m.spec_size())) as nat,
            ).1[v].0 == m.clock_bits()[v].0);
            assert(m.clock_bits()[v].0);
            assert(m.slot_is_live(v));
            assert(slots[v] is Some);
            BufferPoolPageHashMap::lemma_residency_after_tombstone(
                slots,
                frames,
                m.spec_size(),
                v,
            );
            assert(after == slots.update(v, Some(None)));
            assert forall|j: int| 0 <= j < after.len() && #[trigger] live_at(after, j) implies 0
                <= frame_at(after, j) < frames.len() by {
                assert(j != v);
                assert(after[j] == slots[j]);
                assert(m.slot_is_live(j) && m.live_frame(j) == frame_at(after, j));
            }
        }
    }

    /// Serves page `page_id`: a hit borrows the resident frame and marks it
    /// accessed; a miss reserves a frame, installs the page, loads its image
    /// from the reader and serves it. The guard's page always carries
    /// `page_id`. `FailedToReadFromDisk` reports an id beyond the store;
    /// `FailedToInsert` reports that no frame could be reserved, leaving
    /// nothing newly resident.
    pub fn get<'a>(&'a mut self, page_id: PageId) -> (r: Result<ReadPageGuard<'a>, GetPageError>)
        requires
            old(self).inv(),
        ensures
            final(self).inv(),
            final(self).spec_size() == old(self).spec_size(),
            final(self).spec_reader() == old(self).spec_reader(),
            !(r matches Err(GetPageError::FailedToInsert(_))),
            match r {
                Ok(guard) => {
                    &&& guard.spec_page().id == page_id
                    &&& guard.spec_page().wf()
                    &&& final(self).is_resident(page_id)
                    &&& exists|k: int|
                        0 <= k < final(self).spec_map().slots_model().len() && final(self).spec_map().slot_is_live(k) && #[trigger] final(self).spec_map().slot_page_id(
                            k,
                        ) == page_id && guard.spec_page() == final(self).spec_map().frames_model()[
                            final(self).spec_map().live_frame(k)
                        ]
                    &&& (old(self).is_resident(page_id) ==> guard.spec_from_pool() && final(self).spec_map().slots_model() == old(self).spec_map().slots_model() && final(self).spec_map().frames_model() == old(self).spec_map().frames_model() && final(self).spec_map().free_model() == old(self).spec_map().free_model())
                    &&& (!old(self).is_resident(page_id) ==> !guard.spec_from_pool())
                    &&& (old(self).spec_map().free_model().len() > 0 ==> forall|id2: PageId|
                        #[trigger] old(self).is_resident(id2) ==> final(self).is_resident(id2))
                    &&& (!guard.spec_from_pool() ==> !old(self).is_resident(page_id)
                        && guard.spec_page().data@ == old(self).spec_reader().spec_image(page_id)
                        && page_id < old(self).spec_reader().spec_page_count())
                },
                Err(GetPageError::FailedToReadFromDisk) => {
                    &&& !old(self).is_resident(page_id)
                    &&& page_id >= old(self).spec_reader().spec_page_count()
                    &&& final(self).spec_map().slots_model() == old(self).spec_map().slots_model()
                    &&& final(self).spec_map().frames_model() == old(self).spec_map().frames_model()
                    &&& final(self).spec_map().free_model() == old(self).spec_map().free_model()
                },
                Err(GetPageError::FailedToInsert(_)) => true,
            },
    {
        let ghost pre = *old(self);

        let hit = self.page_map.read_page(&page_id);
        match hit {
            Some(frame_index) => {
                proof {
                    pre.spec_map().lemma_lookup_found_matches(page_id);
                    let k = pre.spec_map().spec_lookup(page_id)->0;
                    assert(pre.spec_map().slot_page_id(k) == page_id);
                    assert(frame_index as int == pre.spec_map().live_frame(k));
                    assert(page_id_at(
                        pre.spec_map().slots_model(),
                        pre.spec_map().frames_model(),
                        k,
                    ) == page_id);
                    assert(pre.spec_map().is_resident(page_id));
                    assert(self.page_map.frames_model()[frame_index as int].id == page_id);
                    assert(self.page_map.frames_model()[frame_index as int].wf());
                    assert(self.page_map.slot_is_live(k) && self.page_map.slot_page_id(k)
                        == page_id && self.page_map.live_frame(k) == frame_index as int);
                }
                let page = self.page_map.frame(frame_index);
                return Ok(ReadPageGuard::new_page_from_pool(page));
            },
            None => {},
        }
        proof {
            if pre.spec_map().is_resident(page_id) {
                pre.spec_map().lemma_resident_found(page_id);
            }
            assert(!pre.spec_map().is_resident(page_id));
        }

        if page_id >= self.reader.page_count() {
            return Err(GetPageError::FailedToReadFromDisk);
        }

        let insert_result = self.page_map.insert_page(&page_id);
        let ghost n = pre.spec_map().spec_size();
        let ghost slots0 = pre.spec_map().spec_slots_after_alloc();
        let ghost frames0 = pre.spec_map().frames_model();

        match insert_result {
            Err(e) => {
                proof {
                    assert(false);
                }
                return Err(GetPageError::FailedToInsert(e));
            },
            Ok(InsertPageResult::ExistingPage(frame_index)) => {
                // An existing entry after a missed lookup would mean the
                // page was resident all along.
                proof {
                    Self::lemma_after_alloc(pre.spec_map());
                    let k = pre.spec_map().spec_install_slot(page_id);
                    lemma_insert_probe_found(
                        slots0,
                        frames0,
                        page_id,
                        crate::util::page_hash::home_slot(page_id, n),
                        2 * n,
                    );
                    assert(page_id_at(slots0, frames0, k) == page_id && live_at(slots0, k));
                    assert(resident_in(slots0, frames0, page_id));
                    assert(pre.spec_map().is_resident(page_id));
                    assert(false);
                }
                let page = self.page_map.frame(frame_index);
                return Ok(ReadPageGuard::new_page_from_pool(page));
            },
            Ok(InsertPageResult::NewPage(frame_index)) => {
                let ghost k = pre.spec_map().spec_install_slot(page_id);
                let ghost installed = *self;
                proof {
                    Self::lemma_after_alloc(pre.spec_map());
                    lemma_insert_probe_found(
                        slots0,
                        frames0,
                        page_id,
                        crate::util::page_hash::home_slot(page_id, n),
                        2 * n,
                    );
                    assert(0 <= k < slots0.len());
                    assert(installed.spec_map().slots_model() == slots0.update(
                        k,
                        Some(Some(frame_index as int)),
                    ));
                    assert(installed.spec_map().slot_is_live(k));
                    assert(installed.spec_map().live_frame(k) == frame_index as int);
                    assert(0 <= frame_index < installed.spec_map().frames_model().len());
                }

                let read_result = self.reader.read_page(
                    page_id,
                    self.page_map.frame_mut(frame_index),
                );
                if read_result.is_err() {
                    proof {
                        assert(false);
                    }
                    return Err(GetPageError::FailedToReadFromDisk);
                }
                let ghost loaded = *self;
                proof {
                    assert(loaded.spec_map().frames_model()[frame_index as int].data@
                        == pre.spec_reader().spec_image(page_id));
                    assert(page_layout_well_formed(
                        pre.spec_reader().spec_image(page_id),
                    ));
                }
                let frame = self.page_map.frame_mut(frame_index);
                frame.id = page_id;
                frame.refresh_metadata();
                proof {
                    BufferPoolPageHashMap::lemma_wf_frame_update(
                        installed.spec_map(),
                        self.spec_map(),
                    );
                    self.lemma_after_fill(pre, installed, page_id, k, frame_index as int);
                    assert(self.page_map.slot_is_live(k) && self.page_map.slot_page_id(k)
                        == page_id && self.page_map.live_frame(k) == frame_index as int);
                }
                let page = self.page_map.frame(frame_index);
                return Ok(ReadPageGuard::new_page_from_disk(page));
            },
        }
    }

    /// No page is ever resident twice: under the pool invariant — which
    /// `new` establishes and `get` preserves — no two live directory
    /// entries hold pages with the same id.
    pub proof fn lemma_no_page_resident_twice(&self, k1: int, k2: int)
        requires
            self.inv(),
            0 <= k1 < self.spec_map().slots_model().len(),
            0 <= k2 < self.spec_map().slots_model().len(),
            k1 != k2,
            self.spec_map().slot_is_live(k1),
            self.spec_map().slot_is_live(k2),
        ensures
            self.spec_map().slot_page_id(k1) != self.spec_map().slot_page_id(k2),
    {
        assert(page_id_at(
            self.spec_map().slots_model(),
            self.spec_map().frames_model(),
            k1,
        ) != page_id_at(self.spec_map().slots_model(), self.spec_map().frames_model(), k2));
    }

    /// A resident page stays a hit: as long as the pool invariant holds and
    /// `page_id` is resident — as it is right after a successful `get` —
    /// the next lookup for it finds a live entry carrying exactly that id,
    /// so the next `get` is served from the pool without a disk read.
    pub proof fn lemma_resident_page_hits(&self, page_id: PageId)
        requires
            self.inv(),
            self.is_resident(page_id),
        ensures
            self.spec_map().spec_lookup(page_id) is Some,
            self.spec_map().slot_page_id(self.spec_map().spec_lookup(page_id)->0) == page_id,
    {
        self.spec_map().lemma_resident_found(page_id);
    }

    /// Once the freshly installed entry's frame carries the loaded image and
    /// the page's id, the whole pool invariant holds again.
    proof fn lemma_after_fill(
        &self,
        pre: Self,
        installed: Self,
        page_id: PageId,
        k: int,
        f: int,
    )
        requires
            pre.inv(),
            !pre.is_resident(page_id),
            pre.spec_map().spec_alloc_ok(),
            insert_probe_from(
                pre.spec_map().spec_slots_after_alloc(),
                pre.spec_map().frames_model(),
                page_id,
                crate::util::page_hash::home_slot(page_id, pre.spec_map().spec_size()),
                2 * pre.spec_map().spec_size(),
            ) == Some((k, false)),
            0 <= k < pre.spec_map().spec_slots_after_alloc().len(),
            installed.spec_map().wf(),
            installed.spec_map().spec_size() == pre.spec_map().spec_size(),
            installed.spec_map().slots_model() == pre.spec_map().spec_slots_after_alloc().update(
                k,
                Some(Some(f)),
            ),
            installed.spec_map().frames_model() == pre.spec_map().frames_model(),
            self.spec_map().wf(),
            self.spec_map().spec_size() == installed.spec_map().spec_size(),
            self.spec_map().slots_model() == installed.spec_map().slots_model(),
            self.spec_map().free_model() == installed.spec_map().free_model(),
            self.spec_map().frames_model().len() == installed.spec_map().frames_model().len(),
            0 <= f < installed.spec_map().frames_model().len(),
            forall|g: int|
                0 <= g < installed.spec_map().frames_model().len() && g != f
                    ==> #[trigger] self.spec_map().frames_model()[g]
                    == installed.spec_map().frames_model()[g],
            self.spec_map().frames_model()[f].id == page_id,
            self.spec_map().frames_model()[f].wf(),
            self.spec_reader() == pre.spec_reader(),
        ensures
            self.inv(),
            self.is_resident(page_id),
            pre.spec_map().free_model().len() > 0 ==> forall|id2: PageId|
                #[trigger] pre.is_resident(id2) ==> self.is_resident(id2),
    {
        let n = pre.spec_map().spec_size();
        let slots0 = pre.spec_map().spec_slots_after_alloc();
        let frames0 = pre.spec_map().frames_model();
        let slots1 = self.spec_map().slots_model();
        let frames1 = self.spec_map().frames_model();
        Self::lemma_after_alloc(pre.spec_map());
        assert(slots1 == slots0.update(k, Some(Some(f))));
        assert(live_at(slots1, k) && frame_at(slots1, k) == f);
        lemma_insert_probe_found(
            slots0,
            frames0,
            page_id,
            crate::util::page_hash::home_slot(page_id, n),
            2 * n,
        );
        assert(!live_at(slots0, k));
        BufferPoolPageHashMap::lemma_new_entry_chain(
            slots0,
            frames0,
            slots1,
            frames1,
            n,
            page_id,
            k,
        );
        assert forall|j: int|
            0 <= j < slots1.len() && j != k && #[trigger] live_at(slots1, j) implies frame_at(
            slots1,
            j,
        ) != f by {
            assert(self.spec_map().slot_is_live(j) && self.spec_map().slot_is_live(k));
            assert(self.spec_map().live_frame(j) != self.spec_map().live_frame(k));
        }
        if resident_in(slots0, frames0, page_id) {
            assert(pre.spec_map().is_resident(page_id));
        }
        BufferPoolPageHashMap::lemma_residency_after_install(
            slots0,
            frames0,
            slots1,
            frames1,
            n,
            k,
            f,
            page_id,
        );
        assert forall|g: int| 0 <= g < self.spec_size() implies (
        #[trigger] self.spec_map().frames_model()[g]).wf() by {
            if g != f {
                assert(self.spec_map().frames_model()[g] == pre.spec_map().frames_model()[g]);
            }
        }
        if pre.spec_map().free_model().len() > 0 {
            assert(slots0 == pre.spec_map().slots_model());
            assert forall|id2: PageId| #[trigger] pre.is_resident(id2) implies self.is_resident(
                id2,
            ) by {
                assert(resident_in(slots0, frames0, id2));
                assert(resident_in(slots1, frames1, id2));
            }
        }
    }
}

} // verus!
