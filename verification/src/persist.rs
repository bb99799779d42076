//! The random-access page source the pool loads missing pages from. The
//! backing store is a flat sequence of `SIZE`-byte page images: page id `i`
//! names the bytes at offset `SIZE * i`.

use vstd::prelude::*;

verus! {

use crate::page::{
    page_layout_well_formed,
    lemma_used_data_nonneg,
    spec_slot_count,
    spec_slot_length,
    spec_used_data,
    Page,
    PageId,
    HEADER_SIZE,
    SIZE,
    SLOT_SIZE,
};

/// Whether every whole page image in `data` is layout well formed: what the
/// pool requires of its backing store.
pub open spec fn spec_store_well_formed(data: Seq<u8>) -> bool {
    forall|i: int|
        0 <= i < data.len() as int / SIZE as int ==> #[trigger] page_layout_well_formed(
            data.subrange(SIZE * i, SIZE * (i + 1)),
        )
}

/// Checks one page image at `offset`: the slot count its header declares,
/// with the tuple data those slots record, must fit inside the page.
fn page_image_well_formed(data: &Vec<u8>, offset: usize) -> (r: bool)
    requires
        offset + SIZE <= data@.len(),
    ensures
        r == page_layout_well_formed(data@.subrange(offset as int, offset as int + SIZE)),
{
    let dlen = data.len();
    let ghost img = data@.subrange(offset as int, offset as int + SIZE);
    let n = ((data[offset + 2] as u16) * 256 + (data[offset + 3] as u16)) as usize;
    proof {
        assert(img.len() == SIZE);
        assert(img[2] == data@[offset + 2] && img[3] == data@[offset + 3]);
        assert(spec_slot_count(img) == n);
    }

    if HEADER_SIZE + SLOT_SIZE * n > SIZE {
        proof {
            lemma_used_data_nonneg(img, n as int);
        }
        return false;
    }

    let mut used: usize = 0;
    let mut i: usize = 0;
    while i < n
        invariant
            i <= n,
            n as int <= (SIZE - HEADER_SIZE) as int / SLOT_SIZE as int,
            HEADER_SIZE + SLOT_SIZE * n <= SIZE,
            offset + SIZE <= data@.len(),
            dlen == data@.len(),
            img == data@.subrange(offset as int, offset as int + SIZE),
            n == spec_slot_count(img),
            used == spec_used_data(img, i as int),
            used <= i * 0xffff,
        decreases n - i,
    {
        proof {
            assert(HEADER_SIZE + SLOT_SIZE * i + 3 < SIZE);
            assert(img[HEADER_SIZE + SLOT_SIZE * (i as int) + 2] == data@[offset + HEADER_SIZE
                + SLOT_SIZE * (i as int) + 2]);
            assert(img[HEADER_SIZE + SLOT_SIZE * (i as int) + 3] == data@[offset + HEADER_SIZE
                + SLOT_SIZE * (i as int) + 3]);
        }
        let length = ((data[offset + HEADER_SIZE + SLOT_SIZE * i + 2] as u16) * 256 + (data[offset
            + HEADER_SIZE + SLOT_SIZE * i + 3] as u16)) as usize;
        proof {
            assert(spec_slot_length(img, i as int) == length);
            assert(spec_used_data(img, i as int + 1) == used + length);
        }
        used = used + length;
        i += 1;
    }

    HEADER_SIZE + SLOT_SIZE * n + used <= SIZE
}

/// Serves fixed-size page images out of an in-memory copy of the backing
/// store's bytes.
pub struct Reader {
    data: Vec<u8>,
}

impl Reader {
    /// The backing store's bytes.
    pub closed spec fn view(&self) -> Seq<u8> {
        self.data@
    }

    /// How many whole page images the store holds.
    pub open spec fn spec_page_count(&self) -> int {
        self@.len() as int / SIZE as int
    }

    /// The image of page `page_id`.
    pub open spec fn spec_image(&self, page_id: PageId) -> Seq<u8> {
        self@.subrange(SIZE * page_id as int, SIZE * (page_id as int + 1))
    }

    /// Wraps the backing store's bytes.
    pub fn new(data: Vec<u8>) -> (r: Reader)
        ensures
            r@ == data@,
    {
        Reader { data }
    }

    /// Total pages present in the store.
    pub fn page_count(&self) -> (r: u64)
        requires
            self@.len() <= u64::MAX,
        ensures
            r == self.spec_page_count(),
    {
        (self.data.len() as u64) / (SIZE as u64)
    }

    /// Checks the invariant the pool demands of a backing store: every
    /// whole page image is layout well formed. Meant for whoever loads a
    /// store from outside before handing it to the pool.
    pub fn store_well_formed(&self) -> (r: bool)
        ensures
            r == spec_store_well_formed(self@),
    {
        let dlen = self.data.len();
        let count = dlen / SIZE;
        proof {
            assert(count * SIZE <= self@.len()) by (nonlinear_arith)
                requires
                    count == self@.len() as int / SIZE as int,
                    SIZE > 0,
            ;
        }
        let mut i: usize = 0;
        while i < count
            invariant
                i <= count,
                count == self@.len() as int / SIZE as int,
                count * SIZE <= self@.len(),
                dlen == self@.len(),
                forall|j: int|
                    0 <= j < i ==> #[trigger] page_layout_well_formed(
                        self@.subrange(SIZE * j, SIZE * (j + 1)),
                    ),
            decreases count - i,
        {
            proof {
                assert(i * SIZE + SIZE <= count * SIZE) by (nonlinear_arith)
                    requires
                        i < count,
                        SIZE > 0,
                ;
            }
            if !page_image_well_formed(&self.data, i * SIZE) {
                proof {
                    assert(i * SIZE == SIZE * (i as int) && i * SIZE + SIZE == SIZE * (i as int
                        + 1)) by (nonlinear_arith);
                    assert(!page_layout_well_formed(
                        self@.subrange(SIZE * (i as int), SIZE * (i as int + 1)),
                    ));
                }
                return false;
            }
            proof {
                assert(i * SIZE == SIZE * (i as int) && i * SIZE + SIZE == SIZE * (i as int + 1))
                    by (nonlinear_arith);
            }
            i += 1;
        }
        true
    }

    /// Fills `page`'s byte buffer with the image of `page_id`; everything
    /// else about `page` stays. Fails exactly when the store ends before
    /// that image does, leaving `page` alone.
    pub fn read_page(&self, page_id: PageId, page: &mut Page) -> (r: Result<(), ()>)
        requires
            old(page).data@.len() == SIZE,
            self@.len() <= u64::MAX,
        ensures
            final(page).id == old(page).id,
            final(page).slots == old(page).slots,
            final(page).free_space == old(page).free_space,
            final(page).data@.len() == SIZE,
            match r {
                Ok(()) => page_id < self.spec_page_count() && final(page).data@ == self.spec_image(
                    page_id,
                ),
                Err(()) => page_id >= self.spec_page_count() && final(page).data@ == old(
                    page,
                ).data@,
            },
    {
        let count = (self.data.len() as u64) / (SIZE as u64);
        if page_id >= count {
            return Err(());
        }

        let offset = (page_id as usize) * SIZE;
        proof {
            assert(offset + SIZE <= self@.len()) by (nonlinear_arith)
                requires
                    offset == page_id * SIZE,
                    page_id < self@.len() as int / SIZE as int,
                    SIZE > 0,
            ;
        }
        let mut i: usize = 0;
        while i < SIZE
            invariant
                i <= SIZE,
                offset == page_id * SIZE,
                offset + SIZE <= self@.len(),
                self@.len() <= usize::MAX,
                page.data@.len() == SIZE,
                page.id == old(page).id,
                page.slots == old(page).slots,
                page.free_space == old(page).free_space,
                forall|j: int| 0 <= j < i ==> page.data@[j] == self@[offset + j],
            decreases SIZE - i,
        {
            let b = self.data[offset + i];
            page.data[i] = b;
            i += 1;
        }
        proof {
            assert(SIZE * (page_id as int + 1) == offset + SIZE) by (nonlinear_arith)
                requires
                    offset == page_id * SIZE,
            ;
            assert(0 <= SIZE * (page_id as int) <= SIZE * (page_id as int + 1) <= self@.len())
                by (nonlinear_arith)
                requires
                    offset == page_id * SIZE,
                    offset + SIZE <= self@.len(),
            ;
            assert(SIZE * (page_id as int + 1) - SIZE * (page_id as int) == SIZE)
                by (nonlinear_arith);
            assert(self.spec_image(page_id).len() == SIZE);
            let ghost image = self.spec_image(page_id);
            assert forall|j: int| 0 <= j < SIZE implies page.data@[j] == image[j] by {
                assert(page.data@[j] == self@[offset + j]);
                assert(image[j] == self@[SIZE * (page_id as int) + j]);
            }
            assert(page.data@ =~= self.spec_image(page_id));
        }
        Ok(())
    }
}

} // verus!
