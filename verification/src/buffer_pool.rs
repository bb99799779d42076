//! The indirect-table pool: pages owned by a `LinearIndirectPageHashMap`,
//! with a one-bit-per-cell access bitmap and a clock hand that sweeps cells
//! for eviction candidates when an insert finds the table full.

pub mod buffer_pool;
pub mod clock;
pub mod page_hash_map;

use vstd::prelude::*;

verus! {

use crate::buffer_pool::clock::{lemma_and_mask_bits, lemma_or_mask_bits, nth_bit};
use crate::hash_map::{find_serves, key_insert_probe, LinearIndirectPageHashMap};
use crate::util::page_hash::home_slot;
use crate::page::{Page, PageId};

/// Whether the access bit of page cell `i` is set in the packed bitmap.
pub open spec fn cell_accessed(cells: Seq<u8>, i: int) -> bool {
    nth_bit(cells[i / 8], (i % 8) as u8)
}

/// The pool: the page table, an access bit per page cell, and the rotating
/// eviction hand.
pub struct BufferPool {
    page_map: LinearIndirectPageHashMap,
    size: usize,
    clock: usize,
    read_indicator: Vec<u8>,
}

impl BufferPool {
    /// The page table.
    pub closed spec fn spec_map(&self) -> LinearIndirectPageHashMap {
        self.page_map
    }

    /// Number of page cells.
    pub closed spec fn spec_size(&self) -> nat {
        self.size as nat
    }

    /// The packed access bitmap.
    pub closed spec fn cells(&self) -> Seq<u8> {
        self.read_indicator@
    }

    /// The eviction hand's position.
    pub closed spec fn hand(&self) -> int {
        self.clock as int
    }

    pub open spec fn wf(&self) -> bool {
        &&& self.spec_map().wf()
        &&& self.spec_map().spec_size() == self.spec_size()
        &&& self.cells().len() == self.spec_size() as int / 8 + 1
        &&& 0 <= self.hand() < self.spec_size()
    }

    /// Builds a pool of `size` page cells with an empty table, all access
    /// bits clear and the hand at cell zero.
    pub fn new(size: usize) -> (r: BufferPool)
        requires
            1 <= size,
            20 * size <= usize::MAX,
        ensures
            r.wf(),
            r.spec_size() == size,
            forall|k: int| 0 <= k < 2 * size ==> r.spec_map().keys_model()[k] is None,
    {
        let cells_len = size / 8 + 1;
        let mut read_indicator: Vec<u8> = Vec::new();
        let mut i: usize = 0;
        while i < cells_len
            invariant
                i <= cells_len,
                read_indicator@.len() == i,
            decreases cells_len - i,
        {
            read_indicator.push(0u8);
            i += 1;
        }
        BufferPool {
            size,
            page_map: LinearIndirectPageHashMap::new(size),
            clock: 0,
            read_indicator,
        }
    }

    /// Looks `page_id` up in the table; a found page gets its cell's access
    /// bit set and is served by reference. The table itself never changes.
    pub fn get(&mut self, page_id: PageId) -> (r: Option<&Page>)
        requires
            old(self).wf(),
        ensures
            final(self).wf(),
            final(self).spec_map() == old(self).spec_map(),
            final(self).spec_size() == old(self).spec_size(),
            final(self).hand() == old(self).hand(),
            find_serves(
                old(self).spec_map().keys_model(),
                old(self).spec_map().pages_model(),
                old(self).spec_map().spec_size(),
                page_id,
            ) ==> r is Some,
            match r {
                Some(p) => p.id == page_id && (exists|i: int|
                    0 <= i < old(self).spec_size() && old(self).spec_map().pages_model()[i]
                        == Some(*p) && cell_accessed(final(self).cells(), i) && (forall|j: int|
                        0 <= j < old(self).spec_size() && j != i ==> #[trigger] cell_accessed(
                            final(self).cells(),
                            j,
                        ) == cell_accessed(old(self).cells(), j))),
                None => final(self).cells() == old(self).cells(),
            },
    {
        match self.page_map.get(page_id) {
            Some((page, page_index)) => {
                let ghost pre = *old(self);
                let cell_index = page_index / 8;
                let shift = page_index % 8;
                proof {
                    assert(page_index / 8 < self.cells().len());
                }
                let v = self.read_indicator[cell_index];
                self.read_indicator[cell_index] = v | (1u8 << shift);
                proof {
                    lemma_or_mask_bits(v, (page_index % 8) as u8);
                    assert(cell_accessed(self.cells(), page_index as int));
                    assert forall|j: int|
                        0 <= j < pre.spec_size() && j != page_index implies #[trigger] cell_accessed(
                        self.cells(),
                        j,
                    ) == cell_accessed(pre.cells(), j) by {
                        if j / 8 == page_index as int / 8 {
                            lemma_distinct_positions_one(j, page_index as int);
                        } else {
                            assert(self.cells()[j / 8] == pre.cells()[j / 8]);
                        }
                    }
                }
                Some(page)
            },
            None => None,
        }
    }

    /// Adds `page` to the table. When the table is full, sweeps the access
    /// bitmap with the clock hand — evicting the first cell found without
    /// its access bit, clearing the bits of cells that had one — and
    /// retries, up to ten rounds, before handing the page back.
    pub fn add(&mut self, page: Page) -> (r: Result<(), Page>)
        requires
            old(self).wf(),
        ensures
            final(self).wf(),
            final(self).spec_size() == old(self).spec_size(),
            old(self).spec_map().free_model().len() > 0 && key_insert_probe(
                old(self).spec_map().keys_model(),
                page.id,
                home_slot(page.id, old(self).spec_map().spec_size()),
                2 * old(self).spec_map().spec_size(),
            ) is Some ==> r is Ok,
            match r {
                Ok(()) => crate::hash_map::holds_page(
                    final(self).spec_map().keys_model(),
                    final(self).spec_map().pages_model(),
                    page,
                ),
                Err(p) => p == page,
            },
    {
        let ghost the_page = page;

        let ghost m0 = self.page_map;
        let first_try = self.page_map.insert(page);
        let mut pending: Option<Page>;
        match first_try {
            Ok(()) => {
                proof {
                    lemma_inserted_ok(m0, self.page_map, the_page);
                }
                return Ok(());
            },
            Err(failed_page) => {
                pending = Some(failed_page);
            },
        }

        let mut round: usize = 0;
        proof {
            assert(!(m0.free_model().len() > 0 && key_insert_probe(
                m0.keys_model(),
                the_page.id,
                home_slot(the_page.id, m0.spec_size()),
                2 * m0.spec_size(),
            ) is Some));
        }
        while round < 10 && pending.is_some()
            invariant
                self.wf(),
                self.spec_size() == old(self).spec_size(),
                m0 == old(self).spec_map(),
                the_page == page,
                !(m0.free_model().len() > 0 && key_insert_probe(
                    m0.keys_model(),
                    the_page.id,
                    home_slot(the_page.id, m0.spec_size()),
                    2 * m0.spec_size(),
                ) is Some),
                pending matches Some(p) ==> p == the_page,
                pending is None ==> crate::hash_map::holds_page(
                    self.spec_map().keys_model(),
                    self.spec_map().pages_model(),
                    the_page,
                ),
            decreases 10 - round,
        {
            let sweep_budget = 5 * self.size;
            let mut step: usize = 0;
            let mut evicted = false;
            while step < sweep_budget && !evicted
                invariant
                    self.wf(),
                    self.spec_size() == old(self).spec_size(),
                    sweep_budget == 5 * self.spec_size(),
                decreases sweep_budget - step,
            {
                let clock_page_index = self.clock;
                self.clock = if clock_page_index + 1 == self.size {
                    0
                } else {
                    clock_page_index + 1
                };

                let cell_index = clock_page_index / 8;
                let shift = clock_page_index % 8;
                proof {
                    assert(clock_page_index / 8 < self.cells().len());
                }
                let bitmap_cell_value = self.read_indicator[cell_index];
                let accessed = (bitmap_cell_value >> shift) & 1 == 1;

                if !accessed {
                    let _ = self.page_map.delete_by_index(clock_page_index);
                    evicted = true;
                } else {
                    self.read_indicator[cell_index] = bitmap_cell_value & !(1u8 << shift);
                    proof {
                        lemma_and_mask_bits(bitmap_cell_value, (clock_page_index % 8) as u8);
                    }
                }
                step += 1;
            }

            match pending.take() {
                Some(retry_page) => {
                    let ghost m1 = self.page_map;
                    match self.page_map.insert(retry_page) {
                        Ok(()) => {
                            proof {
                                lemma_inserted_ok(m1, self.page_map, the_page);
                            }
                        },
                        Err(failed_page) => {
                            pending = Some(failed_page);
                        },
                    }
                },
                None => {},
            }
            round += 1;
        }

        match pending {
            Some(failed_page) => Err(failed_page),
            None => Ok(()),
        }
    }
}

/// Bits of distinct cell indices that share a byte sit at distinct
/// positions.
proof fn lemma_distinct_positions_one(j: int, i: int)
    requires
        0 <= j,
        0 <= i,
        j != i,
        j / 8 == i / 8,
    ensures
        j % 8 != i % 8,
{
    vstd::arithmetic::div_mod::lemma_fundamental_div_mod(j, 8);
    vstd::arithmetic::div_mod::lemma_fundamental_div_mod(i, 8);
}

/// What a successful insert leaves behind: a live key for the page's id
/// whose cell holds the page.
proof fn lemma_inserted_ok(m0: LinearIndirectPageHashMap, m1: LinearIndirectPageHashMap, page: Page)
    requires
        m0.wf(),
        m1.wf(),
        m1.spec_size() == m0.spec_size(),
        m0.free_model().len() > 0,
        crate::hash_map::key_insert_probe(
            m0.keys_model(),
            page.id,
            crate::util::page_hash::home_slot(page.id, m0.spec_size()),
            2 * m0.spec_size(),
        ) matches Some(k) && m1.keys_model()[k] matches Some(e) && e.spec_page_id() == page.id
            && !e.spec_is_thumbstone() && e.spec_page_index() == m0.free_model()[0]
            && m1.pages_model() == m0.pages_model().update(
            m0.free_model()[0] as int,
            Some(page),
        ),
    ensures
        crate::hash_map::holds_page(m1.keys_model(), m1.pages_model(), page),
{
    let probe = crate::hash_map::key_insert_probe(
        m0.keys_model(),
        page.id,
        crate::util::page_hash::home_slot(page.id, m0.spec_size()),
        2 * m0.spec_size(),
    );
    let k = probe->0;
    lemma_key_insert_probe_in_range(
        m0.keys_model(),
        page.id,
        crate::util::page_hash::home_slot(page.id, m0.spec_size()),
        (2 * m0.spec_size()) as nat,
    );
    assert(0 <= k < m1.keys_model().len());
    assert((m1.keys_model()[k]) matches Some(e) && !e.spec_is_thumbstone() && e.spec_page_id()
        == page.id && m1.pages_model()[e.spec_page_index()] == Some(page));
}

/// A successful insert probe names a key slot inside the array.
proof fn lemma_key_insert_probe_in_range(
    keys: Seq<Option<crate::hash_map::KeyOrThumbstone>>,
    id: PageId,
    k: int,
    steps: nat,
)
    requires
        keys.len() > 0,
    ensures
        crate::hash_map::key_insert_probe(keys, id, k, steps) matches Some(ki) ==> 0 <= ki
            < keys.len(),
    decreases steps,
{
    if steps > 0 {
        let ki = k % (keys.len() as int);
        if crate::hash_map::key_live_at(keys, ki) && keys[ki]->0.spec_page_id() != id {
            lemma_key_insert_probe_in_range(keys, id, k + 1, (steps - 1) as nat);
        }
    }
}

} // verus!
