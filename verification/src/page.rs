//! Fixed-size page frames and their slotted-tuple layout. A page is `SIZE`
//! bytes: a four-byte header (two version bytes, then the slot count as a
//! big-endian `u16`), a slot array growing forward from the header, and tuple
//! data growing backward from the end of the page.

use vstd::prelude::*;

verus! {

use crate::tuple::{
    spec_parse_ok,
    spec_parsed_values,
    spec_tuple_bytes,
    spec_values_valid,
    Tuple,
    TupleToDataError,
};

/// Bytes in one page frame.
pub const SIZE: usize = 1024 * 8;

/// Bytes in the page header: version and slot count, two bytes each.
pub const HEADER_SIZE: usize = 4;

/// Bytes in one entry of the slot array.
pub const SLOT_SIZE: usize = 5;

pub type SlotId = u16;

pub type TupleLength = u16;

/// Identifier of a page on disk.
pub type PageId = u64;

/// The number encoded by two big-endian bytes.
pub open spec fn spec_u16_from_be(b0: u8, b1: u8) -> int {
    b0 * 256 + b1
}

/// The slot count stored in the page header.
pub open spec fn spec_slot_count(data: Seq<u8>) -> int {
    spec_u16_from_be(data[2], data[3])
}

/// The id recorded in slot `i` of the slot array.
pub open spec fn spec_slot_id(data: Seq<u8>, i: int) -> int {
    spec_u16_from_be(data[4 + 5 * i], data[4 + 5 * i + 1])
}

/// The tuple length recorded in slot `i` of the slot array.
pub open spec fn spec_slot_length(data: Seq<u8>, i: int) -> int {
    spec_u16_from_be(data[4 + 5 * i + 2], data[4 + 5 * i + 3])
}

/// Total bytes of tuple data recorded by the first `n` slots.
pub open spec fn spec_used_data(data: Seq<u8>, n: int) -> int
    decreases n,
{
    if n <= 0 {
        0
    } else {
        spec_used_data(data, n - 1) + spec_slot_length(data, n - 1)
    }
}

/// The header describes a layout that fits in the page: slot array and tuple
/// data together leave the free gap non-negative.
pub open spec fn page_layout_well_formed(data: Seq<u8>) -> bool {
    &&& data.len() == SIZE
    &&& HEADER_SIZE + SLOT_SIZE * spec_slot_count(data) + spec_used_data(
        data,
        spec_slot_count(data),
    ) <= SIZE
}

/// Recorded tuple data never has negative total length.
pub proof fn lemma_used_data_nonneg(data: Seq<u8>, n: int)
    ensures
        spec_used_data(data, n) >= 0,
    decreases n,
{
    if n > 0 {
        lemma_used_data_nonneg(data, n - 1);
    }
}

/// Entry of the slot array: which tuple id lives in this slot and how many
/// bytes of tuple data it owns.
pub struct Slot {
    pub id: SlotId,
    pub length: TupleLength,
    pub is_thumbstone: u8,
}

impl Slot {
    /// A live slot for tuple `id` covering `length` bytes.
    pub fn new(id: SlotId, length: TupleLength) -> (r: Slot)
        ensures
            r.id == id,
            r.length == length,
            r.is_thumbstone == 0,
    {
        Slot { id, length, is_thumbstone: 0 }
    }

    /// Decodes a slot array entry from its five bytes.
    pub fn read(slot_data: &[u8]) -> (r: Slot)
        requires
            slot_data@.len() >= SLOT_SIZE,
        ensures
            r.id == spec_u16_from_be(slot_data@[0], slot_data@[1]),
            r.length == spec_u16_from_be(slot_data@[2], slot_data@[3]),
            r.is_thumbstone == slot_data@[4],
    {
        Slot {
            id: (slot_data[0] as u16) * 256 + (slot_data[1] as u16),
            length: (slot_data[2] as u16) * 256 + (slot_data[3] as u16),
            is_thumbstone: slot_data[4],
        }
    }

    /// Encodes the slot as its five on-page bytes.
    pub fn to_data(&self) -> (r: [u8; 5])
        ensures
            r@[0] == self.id / 256,
            r@[1] == self.id % 256,
            r@[2] == self.length / 256,
            r@[3] == self.length % 256,
            r@[4] == self.is_thumbstone,
            spec_u16_from_be(r@[0], r@[1]) == self.id,
            spec_u16_from_be(r@[2], r@[3]) == self.length,
    {
        [
            (self.id / 256) as u8,
            (self.id % 256) as u8,
            (self.length / 256) as u8,
            (self.length % 256) as u8,
            self.is_thumbstone,
        ]
    }

    /// The slot's tuple length as a count of bytes.
    pub fn length(&self) -> (r: usize)
        ensures
            r == self.length as usize,
    {
        self.length as usize
    }
}

/// One page frame: its disk identity, raw bytes, and the cached layout
/// numbers recomputed from the header.
#[derive(Debug)]
pub struct Page {
    pub id: PageId,
    pub data: Vec<u8>,
    pub free_space: usize,
    pub slots: usize,
}

impl Page {
    /// The cached slot count and free-space figures agree with the bytes.
    pub open spec fn wf(&self) -> bool {
        &&& page_layout_well_formed(self.data@)
        &&& self.slots == spec_slot_count(self.data@)
        &&& self.free_space == SIZE - HEADER_SIZE - SLOT_SIZE * self.slots - spec_used_data(
            self.data@,
            self.slots as int,
        )
    }

    /// A blank page: version bytes `[0, 1]`, no slots, all free space.
    pub fn new() -> (r: Page)
        ensures
            r.wf(),
            r.id == 0,
            r.slots == 0,
            r.free_space == SIZE - HEADER_SIZE,
            r.data@.len() == SIZE,
            r.data@[1] == 1,
            forall|i: int| 0 <= i < SIZE && i != 1 ==> r.data@[i] == 0,
    {
        let mut data: Vec<u8> = Vec::new();
        let mut i: usize = 0;
        while i < SIZE
            invariant
                i <= SIZE,
                data@.len() == i,
                forall|j: int| 0 <= j < i ==> data@[j] == 0u8,
            decreases SIZE - i,
        {
            data.push(0u8);
            i += 1;
        }
        data[1] = 1;

        let r = Page { id: 0, data, free_space: SIZE - HEADER_SIZE, slots: 0 };
        r
    }

    /// Adopts `data` as the page bytes and recomputes the layout numbers from
    /// its header.
    pub fn from_data(data: Vec<u8>) -> (r: Page)
        requires
            page_layout_well_formed(data@),
        ensures
            r.wf(),
            r.id == 0,
            r.data@ == data@,
    {
        let (slots, free_space) = compute_layout(&data);

        Page { id: 0, data, free_space, slots }
    }

    /// Whether the row fits: its bytes plus one slot entry within the free
    /// gap. Fails exactly when the row itself cannot be serialised.
    pub fn has_space(&self, tuple: &Tuple) -> (r: Result<bool, TupleToDataError>)
        ensures
            match r {
                Ok(b) => spec_values_valid(tuple.values@) && b == (spec_tuple_bytes(
                    tuple.values@,
                ).len() + SLOT_SIZE <= self.free_space),
                Err(_) => !spec_values_valid(tuple.values@),
            },
    {
        let tuple_data = match tuple.to_data() {
            Ok(d) => d,
            Err(e) => {
                return Err(e);
            },
        };

        if self.free_space < SLOT_SIZE {
            Ok(false)
        } else {
            Ok(tuple_data.len() <= self.free_space - SLOT_SIZE)
        }
    }

    /// Appends the row: a new slot entry goes at the end of the slot array,
    /// the row's bytes go at the front of the data area, and the header's
    /// slot count grows by one. Everything else on the page stays. Fails
    /// exactly when the row cannot be serialised, leaving the page alone.
    pub fn write(&mut self, tuple: &Tuple) -> (r: Result<Slot, TupleToDataError>)
        requires
            old(self).wf(),
            spec_values_valid(tuple.values@) ==> spec_tuple_bytes(tuple.values@).len()
                <= TupleLength::MAX,
            spec_values_valid(tuple.values@) ==> SLOT_SIZE + spec_tuple_bytes(tuple.values@).len()
                <= old(self).free_space,
        ensures
            final(self).id == old(self).id,
            match r {
                Err(_) => !spec_values_valid(tuple.values@) && *final(self) == *old(self),
                Ok(slot) => {
                    &&& spec_values_valid(tuple.values@)
                    &&& slot.id == old(self).slots
                    &&& slot.length == spec_tuple_bytes(tuple.values@).len()
                    &&& slot.is_thumbstone == 0
                    &&& final(self).wf()
                    &&& final(self).slots == old(self).slots + 1
                    &&& final(self).free_space == old(self).free_space - SLOT_SIZE
                        - spec_tuple_bytes(tuple.values@).len()
                    &&& final(self).data@.len() == SIZE
                    &&& spec_slot_id(final(self).data@, old(self).slots as int) == old(self).slots
                    &&& spec_slot_length(final(self).data@, old(self).slots as int)
                        == spec_tuple_bytes(tuple.values@).len()
                    &&& final(self).data@.subrange(
                        SIZE - spec_used_data(old(self).data@, old(self).slots as int)
                            - spec_tuple_bytes(tuple.values@).len(),
                        SIZE - spec_used_data(old(self).data@, old(self).slots as int),
                    ) == spec_tuple_bytes(tuple.values@)
                    &&& forall|b: int|
                        0 <= b < SIZE && !(2 <= b < HEADER_SIZE) && !(HEADER_SIZE + SLOT_SIZE
                            * old(self).slots <= b < HEADER_SIZE + SLOT_SIZE * old(self).slots
                            + SLOT_SIZE) && !(SIZE - spec_used_data(
                            old(self).data@,
                            old(self).slots as int,
                        ) - spec_tuple_bytes(tuple.values@).len() <= b < SIZE - spec_used_data(
                            old(self).data@,
                            old(self).slots as int,
                        )) ==> final(self).data@[b] == old(self).data@[b]
                },
            },
    {
        let tuple_data = match tuple.to_data() {
            Ok(d) => d,
            Err(e) => {
                return Err(e);
            },
        };
        let ghost pre = *old(self);
        let ghost used0 = spec_used_data(pre.data@, pre.slots as int);
        proof {
            lemma_used_data_nonneg(pre.data@, pre.slots as int);
        }

        let tuple_len = tuple_data.len();
        let existing_data_length = SIZE - HEADER_SIZE - SLOT_SIZE * self.slots
            - self.free_space;
        proof {
            assert(existing_data_length == used0);
        }

        let slot_start = self.slots * SLOT_SIZE + HEADER_SIZE;
        let data_start = SIZE - existing_data_length;

        let slot = Slot::new(self.slots as SlotId, tuple_len as TupleLength);
        let slot_data = slot.to_data();

        let new_slots = self.slots + 1;
        self.slots = new_slots;
        self.free_space = self.free_space - (SLOT_SIZE + tuple_len);

        self.data[2] = ((new_slots as u16) / 256) as u8;
        self.data[3] = ((new_slots as u16) % 256) as u8;
        self.data[slot_start] = slot_data[0];
        self.data[slot_start + 1] = slot_data[1];
        self.data[slot_start + 2] = slot_data[2];
        self.data[slot_start + 3] = slot_data[3];
        self.data[slot_start + 4] = slot_data[4];

        let ghost mid_data = self.data@;
        proof {
            assert(data_start - tuple_len >= HEADER_SIZE + SLOT_SIZE * (pre.slots + 1));
            assert(mid_data[2] == ((new_slots as u16) / 256) as u8);
            assert(mid_data[3] == ((new_slots as u16) % 256) as u8);
            assert(mid_data[slot_start as int] == slot_data@[0]);
            assert(mid_data[slot_start as int + 1] == slot_data@[1]);
            assert(mid_data[slot_start as int + 2] == slot_data@[2]);
            assert(mid_data[slot_start as int + 3] == slot_data@[3]);
            assert(mid_data[slot_start as int + 4] == slot_data@[4]);
            assert(forall|b: int|
                0 <= b < SIZE && b != 2 && b != 3 && !(slot_start <= b < slot_start + 5)
                    ==> mid_data[b] == pre.data@[b]);
        }
        let mut q: usize = 0;
        while q < tuple_len
            invariant
                q <= tuple_len,
                tuple_len == tuple_data@.len(),
                data_start - tuple_len >= HEADER_SIZE + SLOT_SIZE * (pre.slots + 1),
                data_start <= SIZE,
                self.data@.len() == SIZE,
                self.id == pre.id,
                self.slots == pre.slots + 1,
                self.free_space == pre.free_space - (SLOT_SIZE + tuple_len),
                forall|b: int|
                    0 <= b < SIZE && !(data_start - tuple_len <= b < data_start)
                        ==> self.data@[b] == mid_data[b],
                forall|p: int|
                    0 <= p < q ==> self.data@[data_start - tuple_len + p] == tuple_data@[p],
            decreases tuple_len - q,
        {
            let b = tuple_data[q];
            self.data[data_start - tuple_len + q] = b;
            q += 1;
        }

        proof {
            let n = pre.slots as int;
            let newd = self.data@;
            assert(spec_slot_count(newd) == n + 1) by {
                assert(newd[2] == ((n + 1) as u16 / 256) as u8);
                assert(newd[3] == ((n + 1) as u16 % 256) as u8);
            }
            assert(spec_slot_id(newd, n) == pre.slots && spec_slot_length(newd, n) == tuple_len)
                by {
                assert(newd[4 + 5 * n] == mid_data[4 + 5 * n]);
                assert(newd[4 + 5 * n + 1] == mid_data[4 + 5 * n + 1]);
                assert(newd[4 + 5 * n + 2] == mid_data[4 + 5 * n + 2]);
                assert(newd[4 + 5 * n + 3] == mid_data[4 + 5 * n + 3]);
            }
            assert forall|i: int| 0 <= i < n implies spec_slot_length(newd, i)
                == spec_slot_length(pre.data@, i) by {
                assert(newd[4 + 5 * i + 2] == mid_data[4 + 5 * i + 2]);
                assert(mid_data[4 + 5 * i + 2] == pre.data@[4 + 5 * i + 2]);
                assert(newd[4 + 5 * i + 3] == mid_data[4 + 5 * i + 3]);
                assert(mid_data[4 + 5 * i + 3] == pre.data@[4 + 5 * i + 3]);
            }
            lemma_used_data_congruence(newd, pre.data@, n);
            assert(spec_used_data(newd, n + 1) == used0 + tuple_len);
            assert forall|b: int|
                0 <= b < SIZE && !(2 <= b < HEADER_SIZE) && !(HEADER_SIZE + SLOT_SIZE * n <= b
                    < HEADER_SIZE + SLOT_SIZE * n + SLOT_SIZE) && !(SIZE - used0 - tuple_len <= b
                    < SIZE - used0) implies newd[b] == pre.data@[b] by {
                assert(newd[b] == mid_data[b]);
                assert(mid_data[b] == pre.data@[b]);
            }
            assert(self.data@.subrange(
                SIZE - used0 - tuple_len,
                SIZE - used0,
            ) =~= tuple_data@);
        }

        Ok(slot)
    }

    /// Finds the slot recorded for `slot_id`, scanning the slot array in
    /// order while adding up tuple lengths, and parses that slot's bytes
    /// under `types`. An id no slot records cannot be read.
    pub fn read<'a>(&'a self, slot_id: SlotId, types: &'a [&'a str]) -> (r: Result<
        Tuple<'a>,
        &'static str,
    >)
        requires
            self.wf(),
            spec_find_slot(self.data@, self.slots as int, slot_id) matches Some(f)
                ==> spec_parse_ok(
                types@,
                self.data@.subrange(
                    SIZE - f.1,
                    SIZE - f.1 + spec_slot_length(self.data@, f.0),
                ),
                0,
            ),
        ensures
            match r {
                Ok(t) => spec_find_slot(self.data@, self.slots as int, slot_id) matches Some(f)
                    && t.types == types && spec_parsed_values(
                    t.values@,
                    types@,
                    self.data@.subrange(
                        SIZE - f.1,
                        SIZE - f.1 + spec_slot_length(self.data@, f.0),
                    ),
                    0,
                ),
                Err(_) => spec_find_slot(self.data@, self.slots as int, slot_id) is None,
            },
    {
        let mut data_offset: usize = 0;
        let n = self.slots;
        let mut i: usize = 0;

        proof {
            lemma_used_data_nonneg(self.data@, n as int);
        }
        while i < n
            invariant
                i <= n,
                n == self.slots,
                self.wf(),
                data_offset == spec_used_data(self.data@, i as int),
                data_offset <= spec_used_data(self.data@, n as int),
                spec_find_slot(self.data@, n as int, slot_id) == spec_find_slot_from(
                    self.data@,
                    n as int,
                    slot_id,
                    i as int,
                    data_offset as int,
                ),
                spec_find_slot(self.data@, n as int, slot_id) matches Some(f) ==> spec_parse_ok(
                    types@,
                    self.data@.subrange(
                        SIZE - f.1,
                        SIZE - f.1 + spec_slot_length(self.data@, f.0),
                    ),
                    0,
                ),
            decreases n - i,
        {
            proof {
                lemma_used_data_prefix_bound(self.data@, i as int + 1, n as int);
            }
            let entry_start = HEADER_SIZE + SLOT_SIZE * i;
            let slot = Slot::read(
                slice_of(&self.data, entry_start, entry_start + SLOT_SIZE),
            );
            proof {
                assert(slot.id == spec_slot_id(self.data@, i as int) && slot.length
                    == spec_slot_length(self.data@, i as int));
            }
            data_offset = data_offset + slot.length();

            if slot.id == slot_id {
                proof {
                    assert(spec_find_slot(self.data@, n as int, slot_id) == Some(
                        (i as int, data_offset as int),
                    ));
                }
                let data_length = SIZE;
                let tuple_slice = slice_of(
                    &self.data,
                    data_length - data_offset,
                    data_length - data_offset + slot.length(),
                );
                proof {
                    assert(tuple_slice@ == self.data@.subrange(
                        SIZE - data_offset,
                        SIZE - data_offset + spec_slot_length(self.data@, i as int),
                    ));
                    assert(spec_parse_ok(types@, tuple_slice@, 0));
                }
                return Ok(Tuple::read(types, tuple_slice));
            }
            i += 1;
        }

        Err("Cannot read tuple")
    }

    /// The raw bytes of every recorded tuple, in slot order: what a scan of
    /// the page would visit.
    pub fn read_iterator(&self) -> (r: Vec<Vec<u8>>)
        requires
            self.wf(),
        ensures
            r@.len() == self.slots,
            forall|i: int|
                0 <= i < self.slots ==> (#[trigger] r@[i])@ == self.data@.subrange(
                    SIZE - spec_used_data(self.data@, i + 1),
                    SIZE - spec_used_data(self.data@, i + 1) + spec_slot_length(self.data@, i),
                ),
    {
        let mut out: Vec<Vec<u8>> = Vec::new();
        let mut data_offset: usize = 0;
        let n = self.slots;
        let mut i: usize = 0;

        while i < n
            invariant
                i <= n,
                n == self.slots,
                self.wf(),
                data_offset == spec_used_data(self.data@, i as int),
                out@.len() == i,
                forall|j: int|
                    0 <= j < i ==> (#[trigger] out@[j])@ == self.data@.subrange(
                        SIZE - spec_used_data(self.data@, j + 1),
                        SIZE - spec_used_data(self.data@, j + 1) + spec_slot_length(
                            self.data@,
                            j,
                        ),
                    ),
            decreases n - i,
        {
            proof {
                lemma_used_data_nonneg(self.data@, i as int);
                lemma_used_data_prefix_bound(self.data@, i as int + 1, n as int);
            }
            let entry_start = HEADER_SIZE + SLOT_SIZE * i;
            let slot = Slot::read(
                slice_of(&self.data, entry_start, entry_start + SLOT_SIZE),
            );
            data_offset = data_offset + slot.length();

            let tuple_bytes = copy_range(
                &self.data,
                SIZE - data_offset,
                SIZE - data_offset + slot.length(),
            );
            out.push(tuple_bytes);
            i += 1;
        }

        out
    }

    /// Recomputes the cached slot count and free space from the page bytes,
    /// leaving the bytes and the id alone.
    pub fn refresh_metadata(&mut self)
        requires
            page_layout_well_formed(old(self).data@),
        ensures
            final(self).wf(),
            final(self).data@ == old(self).data@,
            final(self).id == old(self).id,
    {
        let (slots, free_space) = compute_layout(&self.data);
        self.slots = slots;
        self.free_space = free_space;
    }
}

/// The slot the page records for `slot_id`, scanning from slot `i` with
/// `offset` tuple bytes already accounted for: the matching slot's index and
/// the data total through it, which places its bytes at the end of the page
/// minus that total.
pub open spec fn spec_find_slot_from(
    data: Seq<u8>,
    n: int,
    slot_id: SlotId,
    i: int,
    offset: int,
) -> Option<(int, int)>
    decreases n - i,
{
    if i < 0 || i >= n {
        None
    } else {
        let off2 = offset + spec_slot_length(data, i);
        if spec_slot_id(data, i) == slot_id {
            Some((i, off2))
        } else {
            spec_find_slot_from(data, n, slot_id, i + 1, off2)
        }
    }
}

/// The slot the page records for `slot_id`, scanned from the first slot.
pub open spec fn spec_find_slot(data: Seq<u8>, n: int, slot_id: SlotId) -> Option<(int, int)> {
    spec_find_slot_from(data, n, slot_id, 0, 0)
}

/// Borrows the bytes `[from, to)` of `v`.
fn slice_of(v: &Vec<u8>, from: usize, to: usize) -> (r: &[u8])
    requires
        from <= to <= v@.len(),
    ensures
        r@ == v@.subrange(from as int, to as int),
{
    &v.as_slice()[from..to]
}

/// Copies the bytes `[from, to)` of `v` out.
fn copy_range(v: &Vec<u8>, from: usize, to: usize) -> (r: Vec<u8>)
    requires
        from <= to <= v@.len(),
    ensures
        r@ == v@.subrange(from as int, to as int),
{
    let mut out: Vec<u8> = Vec::new();
    let mut i: usize = from;
    while i < to
        invariant
            from <= i <= to <= v@.len(),
            out@.len() == i - from,
            forall|j: int| 0 <= j < i - from ==> out@[j] == v@[from + j],
        decreases to - i,
    {
        out.push(v[i]);
        i += 1;
    }
    proof {
        assert(out@ =~= v@.subrange(from as int, to as int));
    }
    out
}

/// Two byte images whose slot array entries record the same lengths record
/// the same data total.
pub proof fn lemma_used_data_congruence(d1: Seq<u8>, d2: Seq<u8>, n: int)
    requires
        forall|i: int| 0 <= i < n ==> spec_slot_length(d1, i) == spec_slot_length(d2, i),
    ensures
        spec_used_data(d1, n) == spec_used_data(d2, n),
    decreases n,
{
    if n > 0 {
        lemma_used_data_congruence(d1, d2, n - 1);
    }
}

/// Reads the slot count from the header and folds the slot lengths into the
/// page's free-space figure.
fn compute_layout(data: &Vec<u8>) -> (r: (usize, usize))
    requires
        page_layout_well_formed(data@),
    ensures
        r.0 == spec_slot_count(data@),
        r.1 == SIZE - HEADER_SIZE - SLOT_SIZE * spec_slot_count(data@) - spec_used_data(
            data@,
            spec_slot_count(data@),
        ),
{
    let slots = ((data[2] as u16) * 256 + (data[3] as u16)) as usize;
    proof {
        lemma_used_data_nonneg(data@, slots as int);
        lemma_used_data_prefix_bound(data@, slots as int, slots as int);
    }

    let mut data_size: usize = 0;
    let mut i: usize = 0;
    while i < slots
        invariant
            i <= slots,
            page_layout_well_formed(data@),
            slots == spec_slot_count(data@),
            data_size == spec_used_data(data@, i as int),
            data_size <= spec_used_data(data@, slots as int),
        decreases slots - i,
    {
        let length = ((data[HEADER_SIZE + SLOT_SIZE * i + 2] as u16) * 256 + (data[HEADER_SIZE
            + SLOT_SIZE * i + 3] as u16)) as usize;
        proof {
            assert(spec_used_data(data@, i + 1) == spec_used_data(data@, i as int)
                + spec_slot_length(data@, i as int));
            lemma_used_data_prefix_bound(data@, i + 1, slots as int);
        }
        data_size = data_size + length;
        i += 1;
    }

    (slots, SIZE - HEADER_SIZE - SLOT_SIZE * slots - data_size)
}

/// The data total over a prefix of the slots never exceeds the total over all
/// of them.
pub proof fn lemma_used_data_prefix_bound(data: Seq<u8>, i: int, n: int)
    requires
        i <= n,
    ensures
        spec_used_data(data, i) <= spec_used_data(data, n),
    decreases n - i,
{
    if i < n {
        lemma_used_data_prefix_bound(data, i + 1, n);
    }
}

} // verus!
