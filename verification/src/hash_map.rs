//! A page table that stores pages indirectly: an open-addressing key array
//! of `2N` slots maps page ids to one of `N` page cells, with frame numbers
//! handed out by a free list. Deleted keys become tombstones so that probe
//! chains stay walkable; their page cells are freed for reuse.

use vstd::prelude::*;

verus! {

use crate::page::{Page, PageId};
use crate::util::free_list::ConcurrentFreeList;
use crate::util::page_hash::{home_slot, home_slot_exec};

/// A key slot: which page id it names, which page cell holds the page, and
/// whether the key has been deleted.
pub struct KeyOrThumbstone {
    page_id: PageId,
    page_index: usize,
    is_thumbstone: bool,
}

impl KeyOrThumbstone {
    /// The id this key names.
    pub closed spec fn spec_page_id(&self) -> PageId {
        self.page_id
    }

    /// The page cell this key points at.
    pub closed spec fn spec_page_index(&self) -> int {
        self.page_index as int
    }

    /// Whether the key is a tombstone.
    pub closed spec fn spec_is_thumbstone(&self) -> bool {
        self.is_thumbstone
    }

    fn mark_thumbstone(&mut self)
        ensures
            final(self).spec_page_id() == old(self).spec_page_id(),
            final(self).spec_page_index() == old(self).spec_page_index(),
            final(self).spec_is_thumbstone(),
    {
        self.is_thumbstone = true;
    }
}

/// Whether key slot `k` is live: filled and not a tombstone.
pub open spec fn key_live_at(keys: Seq<Option<KeyOrThumbstone>>, k: int) -> bool {
    keys[k] matches Some(e) && !e.spec_is_thumbstone()
}

/// The walk shared by lookup and delete: a live key for `id` stops it as a
/// find (`true`); an empty slot stops it empty-handed (`false`); tombstones
/// and live keys for other ids are walked past.
pub open spec fn key_find_probe(
    keys: Seq<Option<KeyOrThumbstone>>,
    id: PageId,
    k: int,
    steps: nat,
) -> Option<(int, bool)>
    decreases steps,
{
    if steps == 0 {
        None
    } else {
        let ki = k % (keys.len() as int);
        if keys[ki] is None {
            Some((ki, false))
        } else if key_live_at(keys, ki) && keys[ki]->0.spec_page_id() == id {
            Some((ki, true))
        } else {
            key_find_probe(keys, id, k + 1, (steps - 1) as nat)
        }
    }
}

/// The insert walk: any writable slot — empty, tombstone, or a live key for
/// the same id — stops it; live keys for other ids are walked past.
pub open spec fn key_insert_probe(
    keys: Seq<Option<KeyOrThumbstone>>,
    id: PageId,
    k: int,
    steps: nat,
) -> Option<int>
    decreases steps,
{
    if steps == 0 {
        None
    } else {
        let ki = k % (keys.len() as int);
        if key_live_at(keys, ki) && keys[ki]->0.spec_page_id() != id {
            key_insert_probe(keys, id, k + 1, (steps - 1) as nat)
        } else {
            Some(ki)
        }
    }
}

/// Whether some live key names `page.id` and its cell holds exactly `page`.
pub open spec fn holds_page(
    keys: Seq<Option<KeyOrThumbstone>>,
    pages: Seq<Option<Page>>,
    page: Page,
) -> bool {
    exists|k: int|
        0 <= k < keys.len() && ((#[trigger] keys[k]) matches Some(e) && !e.spec_is_thumbstone()
            && e.spec_page_id() == page.id && pages[e.spec_page_index()] == Some(page))
}

/// What deleting `id` does to the key slots and the free list, given
/// whether the call reported success: a found live key is tombstoned and
/// its cell freed, probing into an empty slot changes nothing, and only a
/// probe that laps the whole key array fails.
pub open spec fn spec_delete_outcome(
    pre_keys: Seq<Option<KeyOrThumbstone>>,
    pre_free: Seq<usize>,
    post_keys: Seq<Option<KeyOrThumbstone>>,
    post_free: Seq<usize>,
    n: nat,
    id: PageId,
    deleted_ok: bool,
) -> bool {
    match key_find_probe(pre_keys, id, home_slot(id, n), 2 * n) {
        Some(p) => {
            &&& deleted_ok
            &&& (p.1 ==> post_keys[p.0] is Some && post_keys[p.0]->0.spec_is_thumbstone()
                && post_keys[p.0]->0.spec_page_id() == id
                && post_keys[p.0]->0.spec_page_index() == pre_keys[p.0]->0.spec_page_index()
                && post_free == seq![pre_keys[p.0]->0.spec_page_index() as usize] + pre_free && (
            forall|j: int|
                0 <= j < pre_keys.len() && j != p.0 ==> #[trigger] post_keys[j] == pre_keys[j]))
            &&& (!p.1 ==> post_keys == pre_keys && post_free == pre_free)
        },
        None => !deleted_ok && post_keys == pre_keys && post_free == pre_free,
    }
}

/// Whether a lookup of `id` is owed a page: its find probe ends on a live
/// key whose cell holds a page carrying `id`.
pub open spec fn find_serves(
    keys: Seq<Option<KeyOrThumbstone>>,
    pages: Seq<Option<Page>>,
    n: nat,
    id: PageId,
) -> bool {
    key_find_probe(keys, id, home_slot(id, n), 2 * n) matches Some(q) && q.1
        && pages[keys[q.0]->0.spec_page_index()] is Some
        && pages[keys[q.0]->0.spec_page_index()]->0.id == id
}

/// The table: `2N` key slots over `N` page cells plus the free list of
/// unused cells.
pub struct LinearIndirectPageHashMap {
    size: usize,
    free_list: ConcurrentFreeList,
    page_keys: Vec<Option<KeyOrThumbstone>>,
    pages: Vec<Option<Page>>,
}

impl LinearIndirectPageHashMap {
    /// Number of page cells `N`.
    pub closed spec fn spec_size(&self) -> nat {
        self.size as nat
    }

    /// The key slots.
    pub closed spec fn keys_model(&self) -> Seq<Option<KeyOrThumbstone>> {
        self.page_keys@
    }

    /// The page cells.
    pub closed spec fn pages_model(&self) -> Seq<Option<Page>> {
        self.pages@
    }

    /// The free list's contents, next cell handed out first.
    pub closed spec fn free_model(&self) -> Seq<usize> {
        self.free_list@
    }

    pub open spec fn wf(&self) -> bool {
        &&& 1 <= self.spec_size()
        &&& 20 * self.spec_size() <= usize::MAX
        &&& self.keys_model().len() == 2 * self.spec_size()
        &&& self.pages_model().len() == self.spec_size()
        &&& forall|k: int|
            0 <= k < self.keys_model().len() && (#[trigger] self.keys_model()[k]) is Some ==> 0
                <= self.keys_model()[k]->0.spec_page_index() < self.spec_size()
        &&& forall|i: int|
            0 <= i < self.free_model().len() ==> 0 <= #[trigger] self.free_model()[i]
                < self.spec_size()
    }

    /// Builds a table for `size` pages: `2 * size` empty key slots, `size`
    /// empty page cells, every cell index free.
    pub fn new(size: usize) -> (r: Self)
        requires
            1 <= size,
            20 * size <= usize::MAX,
        ensures
            r.wf(),
            r.spec_size() == size,
            forall|k: int| 0 <= k < 2 * size ==> r.keys_model()[k] is None,
            forall|i: int| 0 <= i < size ==> r.pages_model()[i] is None,
            r.free_model().len() == size,
            forall|i: int| 0 <= i < size ==> r.free_model()[i] == i,
    {
        let mut elements: Vec<usize> = Vec::new();
        let mut i: usize = 0;
        while i < size
            invariant
                i <= size,
                elements@.len() == i,
                forall|j: int| 0 <= j < i ==> elements@[j] == j,
            decreases size - i,
        {
            elements.push(i);
            i += 1;
        }

        let keys_size = size * 2;
        let mut page_keys: Vec<Option<KeyOrThumbstone>> = Vec::new();
        let mut k: usize = 0;
        while k < keys_size
            invariant
                k <= keys_size,
                page_keys@.len() == k,
                forall|j: int| 0 <= j < k ==> page_keys@[j] is None,
            decreases keys_size - k,
        {
            page_keys.push(None);
            k += 1;
        }

        let mut pages: Vec<Option<Page>> = Vec::new();
        let mut p: usize = 0;
        while p < size
            invariant
                p <= size,
                pages@.len() == p,
                forall|j: int| 0 <= j < p ==> pages@[j] is None,
            decreases size - p,
        {
            pages.push(None);
            p += 1;
        }

        Self { size, free_list: ConcurrentFreeList::new(elements), page_keys, pages }
    }

    /// Whether writing a key for `page_id` at `page_key_index` is allowed:
    /// the slot must be empty, a tombstone, or a live key for the same id.
    fn prepare_store_page(&self, page_id: PageId, page_key_index: usize) -> (r: Result<(), ()>)
        requires
            self.wf(),
            page_key_index < self.keys_model().len(),
        ensures
            r is Ok <==> !(key_live_at(self.keys_model(), page_key_index as int)
                && self.keys_model()[page_key_index as int]->0.spec_page_id() != page_id),
    {
        match &self.page_keys[page_key_index] {
            Some(page_key_write) => {
                if !page_key_write.is_thumbstone && page_key_write.page_id != page_id {
                    Err(())
                } else {
                    Ok(())
                }
            },
            None => Ok(()),
        }
    }

    /// Writes `page` into cell `allocated_slot` and points the key slot at
    /// it; nothing else moves.
    fn store_page(&mut self, allocated_slot: usize, page: Page, page_key_index: usize)
        requires
            old(self).wf(),
            allocated_slot < old(self).spec_size(),
            page_key_index < old(self).keys_model().len(),
        ensures
            final(self).wf(),
            final(self).spec_size() == old(self).spec_size(),
            final(self).free_model() == old(self).free_model(),
            final(self).pages_model() == old(self).pages_model().update(
                allocated_slot as int,
                Some(page),
            ),
            final(self).keys_model().len() == old(self).keys_model().len(),
            final(self).keys_model()[page_key_index as int] matches Some(e)
                && e.spec_page_id() == page.id && e.spec_page_index() == allocated_slot
                && !e.spec_is_thumbstone(),
            forall|j: int|
                0 <= j < old(self).keys_model().len() && j != page_key_index
                    ==> #[trigger] final(self).keys_model()[j] == old(self).keys_model()[j],
    {
        let page_id = page.id;

        self.pages[allocated_slot] = Some(page);
        self.page_keys[page_key_index] = Some(
            KeyOrThumbstone { page_id, is_thumbstone: false, page_index: allocated_slot },
        );
        proof {
            assert forall|j: int|
                0 <= j < self.keys_model().len() && (#[trigger] self.keys_model()[j]) is Some
                implies 0 <= self.keys_model()[j]->0.spec_page_index() < self.spec_size() by {
                if j != page_key_index {
                    assert(self.keys_model()[j] == old(self).keys_model()[j]);
                }
            }
            assert(self.free_model() == old(self).free_model());
            assert forall|i: int| 0 <= i < self.free_model().len() implies 0
                <= #[trigger] self.free_model()[i] < self.spec_size() by {
                assert(self.free_model()[i] == old(self).free_model()[i]);
            }
        }
    }

    /// Inserts `page` under its id. Fails with the page handed back when no
    /// cell is free or the probe laps the key array; otherwise the first
    /// writable slot on the id's probe chain takes the key, and the page
    /// sits in the freshly allocated cell.
    pub fn insert(&mut self, page: Page) -> (r: Result<(), Page>)
        requires
            old(self).wf(),
        ensures
            final(self).wf(),
            final(self).spec_size() == old(self).spec_size(),
            match r {
                Ok(()) => {
                    &&& old(self).free_model().len() > 0
                    &&& key_insert_probe(
                        old(self).keys_model(),
                        page.id,
                        home_slot(page.id, old(self).spec_size()),
                        2 * old(self).spec_size(),
                    ) matches Some(k) && final(self).keys_model()[k] matches Some(e)
                        && e.spec_page_id() == page.id && !e.spec_is_thumbstone()
                        && e.spec_page_index() == old(self).free_model()[0] && final(self).pages_model() == old(self).pages_model().update(
                        old(self).free_model()[0] as int,
                        Some(page),
                    ) && (forall|j: int|
                        0 <= j < old(self).keys_model().len() && j != k
                            ==> #[trigger] final(self).keys_model()[j] == old(self).keys_model()[j])
                    &&& final(self).free_model() == old(self).free_model().drop_first()
                },
                Err(p) => {
                    &&& p == page
                    &&& final(self).keys_model() == old(self).keys_model()
                    &&& final(self).pages_model() == old(self).pages_model()
                    &&& (old(self).free_model().len() == 0 ==> final(self).free_model() == old(self).free_model())
                    &&& (old(self).free_model().len() > 0 ==> key_insert_probe(
                        old(self).keys_model(),
                        page.id,
                        home_slot(page.id, old(self).spec_size()),
                        2 * old(self).spec_size(),
                    ) is None && final(self).free_model() == old(self).free_model().drop_first())
                },
            },
    {
        let allocated_slot = match self.free_list.allocate_page() {
            Ok(a) => a,
            Err(()) => {
                return Err(page);
            },
        };
        let ghost popped = *self;

        let key = home_slot_exec(&page.id, self.size);
        let keys_size = self.size * 2;

        let mut k = key;

        loop
            invariant
                *self == popped,
                self.wf(),
                allocated_slot.free_list_id < self.spec_size(),
                allocated_slot.free_list_id == old(self).free_model()[0],
                old(self).free_model().len() > 0,
                self.keys_model() == old(self).keys_model(),
                self.pages_model() == old(self).pages_model(),
                self.free_model() == old(self).free_model().drop_first(),
                self.spec_size() == old(self).spec_size(),
                keys_size == 2 * self.spec_size(),
                key == home_slot(page.id, self.spec_size()),
                key < self.spec_size(),
                key <= k < key + keys_size,
                key_insert_probe(
                    self.keys_model(),
                    page.id,
                    key as int,
                    2 * self.spec_size(),
                ) == key_insert_probe(
                    self.keys_model(),
                    page.id,
                    k as int,
                    (key + keys_size - k) as nat,
                ),
            decreases key + keys_size - k,
        {
            let k_idx = k % keys_size;
            let ghost fuel = (key + keys_size - k) as nat;

            let can_write = match self.prepare_store_page(page.id, k_idx) {
                Ok(()) => true,
                Err(()) => false,
            };

            if can_write {
                proof {
                    assert(key_insert_probe(self.keys_model(), page.id, k as int, fuel) == Some(
                        k_idx as int,
                    ));
                }
                self.store_page(allocated_slot.free_list_id, page, k_idx);
                return Ok(());
            }
            proof {
                assert(key_insert_probe(self.keys_model(), page.id, k as int, fuel)
                    == key_insert_probe(
                    self.keys_model(),
                    page.id,
                    k as int + 1,
                    (fuel - 1) as nat,
                ));
            }
            k += 1;

            if k == key + keys_size {
                proof {
                    assert(key_insert_probe(self.keys_model(), page.id, k as int, 0) is None);
                }
                return Err(page);
            }
        }
    }

    /// Deletes `page_id`'s key if it is live: the key becomes a tombstone
    /// and its cell index returns to the free list. Probing past an empty
    /// slot means the id is absent, which also counts as done; only a probe
    /// that laps the key array fails.
    pub fn delete(&mut self, page_id: &PageId) -> (r: Result<(), ()>)
        requires
            old(self).wf(),
        ensures
            final(self).wf(),
            final(self).spec_size() == old(self).spec_size(),
            final(self).pages_model() == old(self).pages_model(),
            spec_delete_outcome(
                old(self).keys_model(),
                old(self).free_model(),
                final(self).keys_model(),
                final(self).free_model(),
                old(self).spec_size(),
                *page_id,
                r is Ok,
            ),
    {
        let key = home_slot_exec(page_id, self.size);
        let keys_size = self.size * 2;

        let mut k = key;

        loop
            invariant
                *self == *old(self),
                self.wf(),
                keys_size == 2 * self.spec_size(),
                key == home_slot(*page_id, self.spec_size()),
                key < self.spec_size(),
                key <= k < key + keys_size,
                key_find_probe(
                    self.keys_model(),
                    *page_id,
                    key as int,
                    2 * self.spec_size(),
                ) == key_find_probe(
                    self.keys_model(),
                    *page_id,
                    k as int,
                    (key + keys_size - k) as nat,
                ),
            decreases key + keys_size - k,
        {
            let k_idx = k % keys_size;
            let ghost fuel = (key + keys_size - k) as nat;

            let found: Option<bool> = match &self.page_keys[k_idx] {
                Some(page_key) => {
                    if !page_key.is_thumbstone && page_key.page_id == *page_id {
                        Some(true)
                    } else {
                        None
                    }
                },
                None => Some(false),
            };

            match found {
                Some(true) => {
                    proof {
                        assert(key_find_probe(self.keys_model(), *page_id, k as int, fuel)
                            == Some((k_idx as int, true)));
                    }
                    let ghost pre = *self;
                    let page_index: usize = match &mut self.page_keys[k_idx] {
                        Some(page_key) => {
                            page_key.mark_thumbstone();
                            page_key.page_index
                        },
                        None => {
                            proof {
                                assert(false);
                            }
                            return Err(());
                        },
                    };
                    proof {
                        assert(self.keys_model()[k_idx as int] matches Some(e)
                            && e.spec_is_thumbstone());
                    }
                    proof {
                        assert(pre.keys_model()[k_idx as int]->0.spec_page_index()
                            == page_index as int);
                        assert(0 <= page_index < self.spec_size());
                        assert forall|j: int|
                            0 <= j < self.keys_model().len() && (
                            #[trigger] self.keys_model()[j]) is Some implies 0
                            <= self.keys_model()[j]->0.spec_page_index() < self.spec_size() by {
                            if j != k_idx {
                                assert(self.keys_model()[j] == pre.keys_model()[j]);
                            }
                        }
                    }
                    self.free_list.deallocate_page(
                        crate::util::free_list::AllocatedPage { free_list_id: page_index },
                    );
                    proof {
                        assert(self.free_model() == seq![page_index] + pre.free_model());
                        assert forall|i: int| 0 <= i < self.free_model().len() implies 0
                            <= #[trigger] self.free_model()[i] < self.spec_size() by {
                            if i > 0 {
                                assert(self.free_model()[i] == pre.free_model()[i - 1]);
                            }
                        }
                    }
                    return Ok(());
                },
                Some(false) => {
                    proof {
                        assert(key_find_probe(self.keys_model(), *page_id, k as int, fuel)
                            == Some((k_idx as int, false)));
                    }
                    return Ok(());
                },
                None => {
                    proof {
                        assert(key_find_probe(self.keys_model(), *page_id, k as int, fuel)
                            == key_find_probe(
                            self.keys_model(),
                            *page_id,
                            k as int + 1,
                            (fuel - 1) as nat,
                        ));
                    }
                    k += 1;

                    if k == key + keys_size {
                        return Err(());
                    }
                },
            }
        }
    }

    /// Deletes whatever page sits in cell `page_index`, by its id. An empty
    /// cell has nothing to delete.
    pub fn delete_by_index(&mut self, page_index: usize) -> (r: Result<(), ()>)
        requires
            old(self).wf(),
            page_index < old(self).spec_size(),
        ensures
            final(self).wf(),
            final(self).spec_size() == old(self).spec_size(),
            final(self).pages_model() == old(self).pages_model(),
            old(self).pages_model()[page_index as int] is None ==> r is Err && *final(self) == *old(self),
            old(self).pages_model()[page_index as int] matches Some(pg) ==> spec_delete_outcome(
                old(self).keys_model(),
                old(self).free_model(),
                final(self).keys_model(),
                final(self).free_model(),
                old(self).spec_size(),
                pg.id,
                r is Ok,
            ),
    {
        let page_id: PageId = match &self.pages[page_index] {
            Some(page) => page.id,
            None => {
                return Err(());
            },
        };

        self.delete(&page_id)
    }

    /// Looks `page_id` up: a live key for it names a cell, and the page in
    /// that cell is served together with its cell index, provided it indeed
    /// carries the id.
    pub fn get(&self, page_id: PageId) -> (r: Option<(&Page, usize)>)
        requires
            self.wf(),
        ensures
            find_serves(self.keys_model(), self.pages_model(), self.spec_size(), page_id)
                ==> r is Some,
            match r {
                Some(p) => {
                    &&& key_find_probe(
                        self.keys_model(),
                        page_id,
                        home_slot(page_id, self.spec_size()),
                        2 * self.spec_size(),
                    ) matches Some(q) && q.1 && p.1 as int
                        == self.keys_model()[q.0]->0.spec_page_index() && p.1 < self.spec_size()
                    &&& self.pages_model()[p.1 as int] == Some(*p.0)
                    &&& p.0.id == page_id
                },
                None => key_find_probe(
                    self.keys_model(),
                    page_id,
                    home_slot(page_id, self.spec_size()),
                    2 * self.spec_size(),
                ) matches Some(q) ==> (q.1 ==> {
                    let idx = self.keys_model()[q.0]->0.spec_page_index();
                    self.pages_model()[idx] is None || self.pages_model()[idx]->0.id != page_id
                }),
            },
    {
        let key = home_slot_exec(&page_id, self.size);
        let keys_size = self.size * 2;

        let mut k = key;

        loop
            invariant
                self.wf(),
                keys_size == 2 * self.spec_size(),
                key == home_slot(page_id, self.spec_size()),
                key < self.spec_size(),
                key <= k < key + keys_size,
                key_find_probe(
                    self.keys_model(),
                    page_id,
                    key as int,
                    2 * self.spec_size(),
                ) == key_find_probe(
                    self.keys_model(),
                    page_id,
                    k as int,
                    (key + keys_size - k) as nat,
                ),
            decreases key + keys_size - k,
        {
            let k_idx = k % keys_size;
            let ghost fuel = (key + keys_size - k) as nat;

            let found: Option<usize> = match &self.page_keys[k_idx] {
                Some(page_key) => {
                    if !page_key.is_thumbstone && page_key.page_id == page_id {
                        Some(page_key.page_index)
                    } else {
                        None
                    }
                },
                None => {
                    proof {
                        assert(key_find_probe(self.keys_model(), page_id, k as int, fuel) == Some(
                            (k_idx as int, false),
                        ));
                    }
                    return None;
                },
            };

            match found {
                Some(page_index) => {
                    proof {
                        assert(key_find_probe(self.keys_model(), page_id, k as int, fuel) == Some(
                            (k_idx as int, true),
                        ));
                    }
                    match &self.pages[page_index] {
                        Some(page) => {
                            if page.id == page_id {
                                return Some((page, page_index));
                            } else {
                                return None;
                            }
                        },
                        None => {
                            return None;
                        },
                    }
                },
                None => {
                    proof {
                        assert(key_find_probe(self.keys_model(), page_id, k as int, fuel)
                            == key_find_probe(
                            self.keys_model(),
                            page_id,
                            k as int + 1,
                            (fuel - 1) as nat,
                        ));
                    }
                    k += 1;

                    if k == key + keys_size {
                        return None;
                    }
                },
            }
        }
    }
}

} // verus!
