//! The page directory: an open-addressing table with `2N` slots over `N`
//! page frames, linearly probed from a hashed home slot. Each slot is empty,
//! a tombstone left by an eviction, or a live entry owning one frame. A
//! frame index is always in exactly one place: on the free list or owned by
//! one live entry. Eviction victims come from the clock's second-chance
//! sweep.

use vstd::prelude::*;

verus! {

use crate::buffer_pool::clock::{
    Clock,
    find_victim_from,
    lemma_find_victim_from_properties,
    RETRIES,
};
use crate::page::{Page, PageId};
use crate::util::free_list::{AllocatedPage, ConcurrentFreeList};
use crate::util::page_hash::{home_slot, home_slot_exec};
use vstd::arithmetic::div_mod::{lemma_mod_multiples_vanish, lemma_small_mod};
use vstd::seq_lib::*;
use vstd::set_lib::{lemma_int_range, lemma_len_subset, lemma_set_subset_finite, set_int_range};

/// A directory slot's record: `None` inside means the entry was evicted and
/// the slot is a tombstone that probing must walk past.
pub struct Entry {
    allocated_page: Option<AllocatedPage>,
}

impl Entry {
    /// The frame this entry owns, if it is live.
    pub closed spec fn spec_frame(&self) -> Option<int> {
        match self.allocated_page {
            Some(a) => Some(a.free_list_id as int),
            None => None,
        }
    }

    /// Whether the entry is a tombstone.
    pub fn is_thumbstone(&self) -> (r: bool)
        ensures
            r == (self.spec_frame() is None),
    {
        self.allocated_page.is_none()
    }
}

/// Outcome of a successful install: either this call created the entry and
/// its frame (named by index) still awaits the page bytes, or another id
/// lookup found the page already resident.
pub enum InsertPageResult {
    NewPage(usize),
    ExistingPage(usize),
}

/// Like `InsertPageResult`, but naming the directory slot chosen by the
/// probe rather than the frame behind it.
pub enum InsertPageResultInternal {
    NewPage(usize),
    ExistingPage(usize),
}

#[derive(Debug, PartialEq, Eq, Structural)]
pub enum InsertPageError {
    NoFreeSlot,
    FailedToInsert,
}

/// Whether slot `k` holds a live entry for `id`: the page resident in the
/// slot's frame carries that id.
pub open spec fn slot_matches(
    slots: Seq<Option<Option<int>>>,
    frames: Seq<Page>,
    k: int,
    id: PageId,
) -> bool {
    slots[k] matches Some(Some(f)) && frames[f].id == id
}

/// The lookup probe: starting at unreduced position `k`, it walks one slot
/// per unit of fuel. A live entry for `id` stops it with that slot; an empty
/// slot or running out of fuel stops it with nothing; any other slot (a
/// tombstone, or a live entry for another id) is walked past.
pub open spec fn read_probe_from(
    slots: Seq<Option<Option<int>>>,
    frames: Seq<Page>,
    id: PageId,
    k: int,
    steps: nat,
) -> Option<int>
    decreases steps,
{
    if steps == 0 {
        None
    } else {
        let ki = k % (slots.len() as int);
        if slot_matches(slots, frames, ki, id) {
            Some(ki)
        } else if slots[ki] is Some {
            read_probe_from(slots, frames, id, k + 1, (steps - 1) as nat)
        } else {
            None
        }
    }
}

/// The install probe: like the lookup probe it walks past live entries for
/// other ids, but a tombstone or empty slot stops it as the place to install
/// (`false`), while a live entry for `id` stops it as already resident
/// (`true`). Only fuel running out leaves it empty-handed.
pub open spec fn insert_probe_from(
    slots: Seq<Option<Option<int>>>,
    frames: Seq<Page>,
    id: PageId,
    k: int,
    steps: nat,
) -> Option<(int, bool)>
    decreases steps,
{
    if steps == 0 {
        None
    } else {
        let ki = k % (slots.len() as int);
        if slot_matches(slots, frames, ki, id) {
            Some((ki, true))
        } else if slots[ki] matches Some(Some(_)) {
            insert_probe_from(slots, frames, id, k + 1, (steps - 1) as nat)
        } else {
            Some((ki, false))
        }
    }
}

/// How many probe steps separate `home` from slot `k`, walking forward with
/// wraparound over `n2` slots.
pub open spec fn probe_dist(home: int, k: int, n2: int) -> int {
    if k >= home {
        k - home
    } else {
        k + n2 - home
    }
}

/// Whatever slot the install probe settles on lies on the walked path: some
/// step count `t0` reaches it, and every slot strictly before it on the path
/// is live.
pub proof fn lemma_insert_probe_path(
    slots: Seq<Option<Option<int>>>,
    frames: Seq<Page>,
    id: PageId,
    start: int,
    steps: nat,
) -> (t0: int)
    requires
        slots.len() > 0,
        start >= 0,
    ensures
        insert_probe_from(slots, frames, id, start, steps) matches Some(p) ==> 0 <= t0 < steps
            && p.0 == (start + t0) % (slots.len() as int) && (forall|t: int|
            0 <= t < t0 ==> #[trigger] slots[(start + t) % (slots.len() as int)] matches Some(
                Some(_),
            )),
    decreases steps,
{
    let n2 = slots.len() as int;
    if steps == 0 {
        0
    } else {
        let ki = start % n2;
        if slot_matches(slots, frames, ki, id) || !(slots[ki] matches Some(Some(_))) {
            0
        } else {
            let t0p = lemma_insert_probe_path(slots, frames, id, start + 1, (steps - 1) as nat);
            if insert_probe_from(slots, frames, id, start, steps) is Some {
                let p = insert_probe_from(slots, frames, id, start, steps)->0;
                assert(p.0 == (start + 1 + t0p) % n2);
                assert forall|t: int| 0 <= t < t0p + 1 implies #[trigger] slots[(start + t) % n2]
                    matches Some(Some(_)) by {
                    if t == 0 {
                        assert(slots[start % n2] matches Some(Some(_)));
                    } else {
                        assert(slots[(start + 1 + (t - 1)) % n2] matches Some(Some(_)));
                    }
                }
                assert(start + 1 + t0p == start + (t0p + 1));
            }
            t0p + 1
        }
    }
}

/// Whatever slot the install probe settles on is in range, and its verdict
/// describes that slot truthfully: `true` only on a live entry for the id,
/// `false` only on an empty slot or tombstone.
pub proof fn lemma_insert_probe_found(
    slots: Seq<Option<Option<int>>>,
    frames: Seq<Page>,
    id: PageId,
    k: int,
    steps: nat,
)
    requires
        slots.len() > 0,
    ensures
        match insert_probe_from(slots, frames, id, k, steps) {
            Some(p) => 0 <= p.0 < slots.len() && (p.1 ==> slot_matches(slots, frames, p.0, id)) && (
            !p.1 ==> !(slots[p.0] matches Some(Some(_)))),
            None => true,
        },
    decreases steps,
{
    if steps > 0 {
        let ki = k % (slots.len() as int);
        if !slot_matches(slots, frames, ki, id) && (slots[ki] matches Some(Some(_))) {
            lemma_insert_probe_found(slots, frames, id, k + 1, (steps - 1) as nat);
        }
    }
}

/// Whether slot `k` of `slots` is live.
pub open spec fn live_at(slots: Seq<Option<Option<int>>>, k: int) -> bool {
    slots[k] matches Some(Some(_))
}

/// The frame owned by live slot `k` of `slots`.
pub open spec fn frame_at(slots: Seq<Option<Option<int>>>, k: int) -> int {
    slots[k]->Some_0->Some_0
}

/// The page id resident in live slot `k`, read from its frame.
pub open spec fn page_id_at(slots: Seq<Option<Option<int>>>, frames: Seq<Page>, k: int) -> PageId {
    frames[frame_at(slots, k)].id
}

/// No two live slots hold pages with the same id.
pub open spec fn slots_unique_ids(slots: Seq<Option<Option<int>>>, frames: Seq<Page>) -> bool {
    forall|k1: int, k2: int|
        0 <= k1 < slots.len() && 0 <= k2 < slots.len() && k1 != k2 && live_at(slots, k1) && live_at(
            slots,
            k2,
        ) ==> #[trigger] page_id_at(slots, frames, k1) != #[trigger] page_id_at(slots, frames, k2)
}

/// Whether some live slot holds the page `page_id`.
pub open spec fn resident_in(
    slots: Seq<Option<Option<int>>>,
    frames: Seq<Page>,
    page_id: PageId,
) -> bool {
    exists|k: int|
        0 <= k < slots.len() && live_at(slots, k) && #[trigger] page_id_at(slots, frames, k)
            == page_id
}

/// Live slot `k` can be reached by probing in a directory over `n` frames:
/// every slot between its page's home slot and `k` is occupied, so the probe
/// never stops early on an empty slot.
pub open spec fn chain_ok_at(
    slots: Seq<Option<Option<int>>>,
    frames: Seq<Page>,
    n: nat,
    k: int,
) -> bool {
    forall|t: int|
        0 <= t < probe_dist(home_slot(page_id_at(slots, frames, k), n), k, slots.len() as int)
            ==> #[trigger] slots[(home_slot(page_id_at(slots, frames, k), n) + t) % (
        slots.len() as int)] is Some
}

/// Probe reachability holds of every live slot.
pub open spec fn chains_ok(slots: Seq<Option<Option<int>>>, frames: Seq<Page>, n: nat) -> bool {
    forall|k: int| 0 <= k < slots.len() && #[trigger] live_at(slots, k) ==> chain_ok_at(
        slots,
        frames,
        n,
        k,
    )
}

/// A probe step of less than a lap lands on the slot its offset names.
pub proof fn lemma_wrap_position(home: int, t: int, n2: int)
    requires
        0 <= home < n2,
        0 <= t < n2,
    ensures
        (home + t) % n2 == if home + t < n2 {
            home + t
        } else {
            home + t - n2
        },
        0 <= (home + t) % n2 < n2,
        probe_dist(home, (home + t) % n2, n2) == t,
{
    if home + t < n2 {
        lemma_small_mod((home + t) as nat, n2 as nat);
    } else {
        lemma_mod_multiples_vanish(1, home + t - n2, n2);
        lemma_small_mod((home + t - n2) as nat, n2 as nat);
    }
}

/// Walking `probe_dist(home, s, n2)` steps from `home` lands on `s`.
pub proof fn lemma_position_of_dist(home: int, s: int, n2: int)
    requires
        0 <= home < n2,
        0 <= s < n2,
    ensures
        0 <= probe_dist(home, s, n2) < n2,
        (home + probe_dist(home, s, n2)) % n2 == s,
{
    lemma_wrap_position(home, probe_dist(home, s, n2), n2);
}

/// The directory: `2N` probed slots, the `N` frames they own, the free list
/// of unowned frames, and the eviction clock.
pub struct BufferPoolPageHashMap {
    size: usize,
    free_list: ConcurrentFreeList,
    clock: Clock,
    page_keys: Vec<Option<Entry>>,
    frames: Vec<Page>,
}

impl BufferPoolPageHashMap {
    /// Number of frames `N`.
    pub closed spec fn spec_size(&self) -> nat {
        self.size as nat
    }

    /// Directory slots: `None` is empty, `Some(None)` a tombstone,
    /// `Some(Some(f))` a live entry owning frame `f`.
    pub closed spec fn slots_model(&self) -> Seq<Option<Option<int>>> {
        Seq::new(
            self.page_keys@.len(),
            |k: int|
                match self.page_keys@[k] {
                    Some(e) => Some(e.spec_frame()),
                    None => None,
                },
        )
    }

    /// The frames owned by the arena, by frame index.
    pub closed spec fn frames_model(&self) -> Seq<Page> {
        self.frames@
    }

    /// The free list's contents, next frame to be handed out first.
    pub closed spec fn free_model(&self) -> Seq<usize> {
        self.free_list@
    }

    /// The eviction clock itself.
    pub closed spec fn spec_clock(&self) -> Clock {
        self.clock
    }

    /// The clock's `(filled, accessed)` pair per directory slot.
    pub closed spec fn clock_bits(&self) -> Seq<(bool, bool)> {
        self.clock.slots_model()
    }

    /// The clock hand's position.
    pub closed spec fn clock_hand(&self) -> int {
        self.clock.hand()
    }

    /// The clock accessors read the clock itself.
    pub proof fn lemma_clock_model(&self)
        ensures
            self.clock_bits() == self.spec_clock().slots_model(),
            self.clock_hand() == self.spec_clock().hand(),
    {
    }

    /// Whether directory slot `k` is live.
    pub open spec fn slot_is_live(&self, k: int) -> bool {
        self.slots_model()[k] matches Some(Some(_))
    }

    /// The frame owned by live slot `k`.
    pub open spec fn live_frame(&self, k: int) -> int {
        self.slots_model()[k]->Some_0->Some_0
    }

    /// The page id resident in live slot `k`, read from its frame.
    pub open spec fn slot_page_id(&self, k: int) -> PageId {
        self.frames_model()[self.live_frame(k)].id
    }

    /// Whether some live slot owns frame `f`.
    pub open spec fn frame_is_live(&self, f: int) -> bool {
        exists|k: int|
            0 <= k < self.slots_model().len() && self.slot_is_live(k) && #[trigger] self.live_frame(
                k,
            ) == f
    }

    /// Whether frame `f` sits on the free list.
    pub open spec fn frame_is_free(&self, f: int) -> bool {
        exists|i: int| 0 <= i < self.free_model().len() && #[trigger] self.free_model()[i] == f
    }

    /// Structural well-formedness, with every frame in exactly one place.
    pub open spec fn wf(&self) -> bool {
        self.wf_except_partition() && (forall|f: int|
            0 <= f < self.spec_size() ==> (#[trigger] self.frame_is_free(f) <==> !self.frame_is_live(
                f,
            )))
    }

    /// Well-formedness while the caller holds frame `x` outside both the
    /// free list and the directory, mid-install.
    pub open spec fn wf_holding(&self, x: int) -> bool {
        &&& self.wf_except_partition()
        &&& 0 <= x < self.spec_size()
        &&& !self.frame_is_free(x)
        &&& !self.frame_is_live(x)
        &&& forall|f: int|
            0 <= f < self.spec_size() && f != x ==> (#[trigger] self.frame_is_free(f)
                <==> !self.frame_is_live(f))
    }

    /// All well-formedness clauses except the frame partition.
    pub open spec fn wf_except_partition(&self) -> bool {
        &&& 1 <= self.spec_size()
        &&& 20 * self.spec_size() <= usize::MAX
        &&& self.slots_model().len() == 2 * self.spec_size()
        &&& self.frames_model().len() == self.spec_size()
        &&& forall|k: int|
            0 <= k < self.slots_model().len() && self.slot_is_live(k) ==> 0
                <= #[trigger] self.live_frame(k) < self.spec_size()
        &&& forall|k1: int, k2: int|
            0 <= k1 < self.slots_model().len() && 0 <= k2 < self.slots_model().len() && k1 != k2
                && self.slot_is_live(k1) && self.slot_is_live(k2) ==> #[trigger] self.live_frame(k1)
                != #[trigger] self.live_frame(k2)
        &&& forall|i: int|
            0 <= i < self.free_model().len() ==> 0 <= #[trigger] self.free_model()[i]
                < self.spec_size()
        &&& forall|i: int, j: int|
            0 <= i < j < self.free_model().len() ==> #[trigger] self.free_model()[i]
                != #[trigger] self.free_model()[j]
        &&& self.spec_clock().wf()
        &&& self.spec_clock().spec_size() == 2 * self.spec_size()
        &&& self.clock_bits().len() == 2 * self.spec_size()
        &&& forall|k: int|
            0 <= k < self.slots_model().len() ==> (#[trigger] self.clock_bits()[k].0
                <==> self.slot_is_live(k))
    }

    /// Structural well-formedness carries over to any state with the same
    /// size, slots, free list and frame count whose clock is intact and
    /// whose filled bits agree with the old ones.
    proof fn lemma_structural_wf_transfer(pre: Self, post: Self)
        requires
            pre.wf(),
            post.spec_size() == pre.spec_size(),
            post.slots_model() == pre.slots_model(),
            post.frames_model().len() == pre.frames_model().len(),
            post.free_model() == pre.free_model(),
            post.spec_clock().wf(),
            post.spec_clock().spec_size() == pre.spec_clock().spec_size(),
            forall|k: int|
                0 <= k < post.clock_bits().len() ==> (#[trigger] post.clock_bits()[k].0
                    <==> pre.clock_bits()[k].0),
        ensures
            post.wf(),
    {
        assert forall|k: int| 0 <= k < post.slots_model().len() implies (post.slot_is_live(k)
            <==> pre.slot_is_live(k)) && #[trigger] post.live_frame(k) == pre.live_frame(k) by {
            assert(post.slots_model()[k] == pre.slots_model()[k]);
        }
        assert forall|k: int|
            0 <= k < post.slots_model().len() && post.slot_is_live(k) implies 0
            <= #[trigger] post.live_frame(k) < post.spec_size() by {
            assert(pre.slot_is_live(k) && pre.live_frame(k) == post.live_frame(k));
        }
        assert forall|k1: int, k2: int|
            0 <= k1 < post.slots_model().len() && 0 <= k2 < post.slots_model().len() && k1 != k2
                && post.slot_is_live(k1) && post.slot_is_live(k2) implies #[trigger] post.live_frame(
            k1,
        ) != #[trigger] post.live_frame(k2) by {
            assert(pre.slot_is_live(k1) && pre.slot_is_live(k2));
            assert(pre.live_frame(k1) != pre.live_frame(k2));
        }
        assert forall|i: int| 0 <= i < post.free_model().len() implies 0
            <= #[trigger] post.free_model()[i] < post.spec_size() by {
            assert(post.free_model()[i] == pre.free_model()[i]);
        }
        assert forall|f: int| 0 <= f < post.spec_size() implies (#[trigger] post.frame_is_free(f)
            <==> !post.frame_is_live(f)) by {
            assert(pre.frame_is_free(f) <==> !pre.frame_is_live(f));
            if post.frame_is_free(f) {
                let i = choose|i: int|
                    0 <= i < post.free_model().len() && #[trigger] post.free_model()[i] == f;
                assert(pre.free_model()[i] == f);
                assert(pre.frame_is_free(f));
            }
            if pre.frame_is_free(f) {
                let i = choose|i: int|
                    0 <= i < pre.free_model().len() && #[trigger] pre.free_model()[i] == f;
                assert(post.free_model()[i] == f);
                assert(post.frame_is_free(f));
            }
            if post.frame_is_live(f) {
                let k0 = choose|k0: int|
                    0 <= k0 < post.slots_model().len() && post.slot_is_live(k0)
                        && #[trigger] post.live_frame(k0) == f;
                assert(pre.slot_is_live(k0) && pre.live_frame(k0) == f);
                assert(pre.frame_is_live(f));
            }
            if pre.frame_is_live(f) {
                let k0 = choose|k0: int|
                    0 <= k0 < pre.slots_model().len() && pre.slot_is_live(k0)
                        && #[trigger] pre.live_frame(k0) == f;
                assert(post.slot_is_live(k0) && post.live_frame(k0) == f);
                assert(post.frame_is_live(f));
            }
        }
        assert forall|k: int| 0 <= k < post.slots_model().len() implies (
        #[trigger] post.clock_bits()[k].0 <==> post.slot_is_live(k)) by {
            assert(pre.clock_bits()[k].0 <==> pre.slot_is_live(k));
        }
    }

    /// The eviction sweep that `try_allocate_page` falls back to, applied to
    /// the current clock state.
    pub open spec fn spec_sweep(&self) -> (Option<int>, Seq<(bool, bool)>, int) {
        find_victim_from(
            self.clock_bits(),
            self.clock_hand(),
            (RETRIES * (2 * self.spec_size())) as nat,
        )
    }

    /// Whether reserving a frame succeeds: the free list has one, or the
    /// sweep finds a victim.
    pub open spec fn spec_alloc_ok(&self) -> bool {
        self.free_model().len() > 0 || self.spec_sweep().0 is Some
    }

    /// The frame that reserving yields: the free list's head, else the
    /// victim entry's frame.
    pub open spec fn spec_alloc_frame(&self) -> int {
        if self.free_model().len() > 0 {
            self.free_model()[0] as int
        } else {
            self.live_frame(self.spec_sweep().0->0)
        }
    }

    /// The directory slots after reserving: unchanged, unless the victim's
    /// slot became a tombstone.
    pub open spec fn spec_slots_after_alloc(&self) -> Seq<Option<Option<int>>> {
        if self.free_model().len() > 0 {
            self.slots_model()
        } else {
            self.slots_model().update(self.spec_sweep().0->0, Some(None))
        }
    }

    /// The free list after reserving.
    pub open spec fn spec_free_after_alloc(&self) -> Seq<usize> {
        if self.free_model().len() > 0 {
            self.free_model().drop_first()
        } else {
            self.free_model()
        }
    }

    /// The clock bits after reserving: untouched on a free-list hit, else
    /// the sweep's state with the victim's filled bit cleared.
    pub open spec fn spec_clock_bits_after_alloc(&self) -> Seq<(bool, bool)> {
        if self.free_model().len() > 0 {
            self.clock_bits()
        } else {
            self.spec_sweep().1.update(
                self.spec_sweep().0->0,
                (false, self.spec_sweep().1[self.spec_sweep().0->0].1),
            )
        }
    }

    /// The clock hand after reserving.
    pub open spec fn spec_clock_hand_after_alloc(&self) -> int {
        if self.free_model().len() > 0 {
            self.clock_hand()
        } else {
            self.spec_sweep().2
        }
    }

    /// Popping the free list's head leaves the directory well formed with
    /// that frame held by the caller.
    proof fn lemma_pop_wf_holding(pre: Self, post: Self, x: int)
        requires
            pre.wf(),
            pre.free_model().len() > 0,
            x == pre.free_model()[0],
            post.spec_size() == pre.spec_size(),
            post.slots_model() == pre.slots_model(),
            post.frames_model().len() == pre.frames_model().len(),
            post.free_model() == pre.free_model().drop_first(),
            post.spec_clock() == pre.spec_clock(),
        ensures
            post.wf_holding(x),
    {
        assert(pre.frame_is_free(x));
        assert(0 <= x < post.spec_size());
        assert forall|k: int| 0 <= k < post.slots_model().len() implies (post.slot_is_live(k)
            <==> pre.slot_is_live(k)) && #[trigger] post.live_frame(k) == pre.live_frame(k) by {
            assert(post.slots_model()[k] == pre.slots_model()[k]);
        }
        assert forall|f: int| 0 <= f < post.spec_size() implies (#[trigger] post.frame_is_live(f)
            <==> pre.frame_is_live(f)) by {
            if post.frame_is_live(f) {
                let k0 = choose|k0: int|
                    0 <= k0 < post.slots_model().len() && post.slot_is_live(k0)
                        && #[trigger] post.live_frame(k0) == f;
                assert(pre.slot_is_live(k0) && pre.live_frame(k0) == f);
            }
            if pre.frame_is_live(f) {
                let k0 = choose|k0: int|
                    0 <= k0 < pre.slots_model().len() && pre.slot_is_live(k0)
                        && #[trigger] pre.live_frame(k0) == f;
                assert(post.slot_is_live(k0) && post.live_frame(k0) == f);
            }
        }
        assert(!pre.frame_is_live(x));
        assert(!post.frame_is_live(x));
        assert(!post.frame_is_free(x)) by {
            if post.frame_is_free(x) {
                let i = choose|i: int|
                    0 <= i < post.free_model().len() && #[trigger] post.free_model()[i] == x;
                assert(pre.free_model()[i + 1] == x);
                assert(pre.free_model()[0] == pre.free_model()[i + 1]);
                assert(false);
            }
        }
        assert forall|f: int| 0 <= f < post.spec_size() && f != x implies (
        #[trigger] post.frame_is_free(f) <==> !post.frame_is_live(f)) by {
            assert(pre.frame_is_free(f) <==> !pre.frame_is_live(f));
            if post.frame_is_free(f) {
                let i = choose|i: int|
                    0 <= i < post.free_model().len() && #[trigger] post.free_model()[i] == f;
                assert(pre.free_model()[i + 1] == f);
                assert(pre.frame_is_free(f));
            }
            if pre.frame_is_free(f) {
                let i = choose|i: int|
                    0 <= i < pre.free_model().len() && #[trigger] pre.free_model()[i] == f;
                assert(i != 0);
                assert(post.free_model()[i - 1] == f);
                assert(post.frame_is_free(f));
            }
        }
        assert forall|k: int| 0 <= k < post.slots_model().len() implies (
        #[trigger] post.clock_bits()[k].0 <==> post.slot_is_live(k)) by {
            assert(pre.clock_bits()[k].0 <==> pre.slot_is_live(k));
        }
        assert forall|k1: int, k2: int|
            0 <= k1 < post.slots_model().len() && 0 <= k2 < post.slots_model().len() && k1 != k2
                && post.slot_is_live(k1) && post.slot_is_live(k2) implies #[trigger] post.live_frame(
            k1,
        ) != #[trigger] post.live_frame(k2) by {
            assert(pre.live_frame(k1) != pre.live_frame(k2));
        }
        assert forall|i: int| 0 <= i < post.free_model().len() implies 0
            <= #[trigger] post.free_model()[i] < post.spec_size() by {
            assert(post.free_model()[i] == pre.free_model()[i + 1]);
        }
        assert forall|i: int, j: int|
            0 <= i < j < post.free_model().len() implies #[trigger] post.free_model()[i]
            != #[trigger] post.free_model()[j] by {
            assert(pre.free_model()[i + 1] != pre.free_model()[j + 1]);
        }
    }

    /// Tombstoning the sweep's victim leaves the directory well formed with
    /// the victim's frame held by the caller.
    proof fn lemma_evict_wf_holding(pre: Self, post: Self, v: int, x: int)
        requires
            pre.wf(),
            0 <= v < pre.slots_model().len(),
            pre.slot_is_live(v),
            x == pre.live_frame(v),
            post.spec_size() == pre.spec_size(),
            post.slots_model() == pre.slots_model().update(v, Some(None)),
            post.frames_model().len() == pre.frames_model().len(),
            post.free_model() == pre.free_model(),
            post.spec_clock().wf(),
            post.spec_clock().spec_size() == pre.spec_clock().spec_size(),
            forall|j: int|
                0 <= j < post.clock_bits().len() && j != v ==> (#[trigger] post.clock_bits()[j].0
                    <==> pre.clock_bits()[j].0),
            !post.clock_bits()[v].0,
        ensures
            post.wf_holding(x),
    {
        assert(0 <= x < post.spec_size());
        assert forall|k: int| 0 <= k < post.slots_model().len() && k != v implies (
        post.slot_is_live(k) <==> pre.slot_is_live(k)) && #[trigger] post.live_frame(k)
            == pre.live_frame(k) by {
            assert(post.slots_model()[k] == pre.slots_model()[k]);
        }
        assert(!post.slot_is_live(v));
        assert(!post.frame_is_live(x)) by {
            if post.frame_is_live(x) {
                let k0 = choose|k0: int|
                    0 <= k0 < post.slots_model().len() && post.slot_is_live(k0)
                        && #[trigger] post.live_frame(k0) == x;
                assert(k0 != v);
                assert(pre.slot_is_live(k0) && pre.live_frame(k0) == x);
                assert(pre.live_frame(k0) != pre.live_frame(v));
                assert(false);
            }
        }
        assert(!post.frame_is_free(x)) by {
            assert(pre.frame_is_live(x));
            assert(!pre.frame_is_free(x));
            if post.frame_is_free(x) {
                let i = choose|i: int|
                    0 <= i < post.free_model().len() && #[trigger] post.free_model()[i] == x;
                assert(pre.free_model()[i] == x);
                assert(pre.frame_is_free(x));
                assert(false);
            }
        }
        assert forall|f: int| 0 <= f < post.spec_size() && f != x implies (
        #[trigger] post.frame_is_free(f) <==> !post.frame_is_live(f)) by {
            assert(pre.frame_is_free(f) <==> !pre.frame_is_live(f));
            if post.frame_is_free(f) {
                let i = choose|i: int|
                    0 <= i < post.free_model().len() && #[trigger] post.free_model()[i] == f;
                assert(pre.free_model()[i] == f);
                assert(pre.frame_is_free(f));
            }
            if pre.frame_is_free(f) {
                let i = choose|i: int|
                    0 <= i < pre.free_model().len() && #[trigger] pre.free_model()[i] == f;
                assert(post.free_model()[i] == f);
                assert(post.frame_is_free(f));
            }
            if post.frame_is_live(f) {
                let k0 = choose|k0: int|
                    0 <= k0 < post.slots_model().len() && post.slot_is_live(k0)
                        && #[trigger] post.live_frame(k0) == f;
                assert(k0 != v);
                assert(pre.slot_is_live(k0) && pre.live_frame(k0) == f);
                assert(pre.frame_is_live(f));
            }
            if pre.frame_is_live(f) && !post.frame_is_live(f) {
                let k0 = choose|k0: int|
                    0 <= k0 < pre.slots_model().len() && pre.slot_is_live(k0)
                        && #[trigger] pre.live_frame(k0) == f;
                if k0 != v {
                    assert(post.slot_is_live(k0) && post.live_frame(k0) == f);
                    assert(false);
                } else {
                    assert(f == x);
                    assert(false);
                }
            }
        }
        assert forall|k: int| 0 <= k < post.slots_model().len() implies (
        #[trigger] post.clock_bits()[k].0 <==> post.slot_is_live(k)) by {
            if k != v {
                assert(pre.clock_bits()[k].0 <==> pre.slot_is_live(k));
            }
        }
        assert forall|k1: int, k2: int|
            0 <= k1 < post.slots_model().len() && 0 <= k2 < post.slots_model().len() && k1 != k2
                && post.slot_is_live(k1) && post.slot_is_live(k2) implies #[trigger] post.live_frame(
            k1,
        ) != #[trigger] post.live_frame(k2) by {
            assert(k1 != v && k2 != v);
            assert(pre.live_frame(k1) != pre.live_frame(k2));
        }
        assert forall|i: int| 0 <= i < post.free_model().len() implies 0
            <= #[trigger] post.free_model()[i] < post.spec_size() by {
            assert(post.free_model()[i] == pre.free_model()[i]);
        }
        assert forall|i: int, j: int|
            0 <= i < j < post.free_model().len() implies #[trigger] post.free_model()[i]
            != #[trigger] post.free_model()[j] by {
            assert(pre.free_model()[i] != pre.free_model()[j]);
        }
    }

    /// Handing a held frame back to the free list restores full
    /// well-formedness.
    proof fn lemma_release_wf(pre: Self, post: Self, x: usize)
        requires
            pre.wf_holding(x as int),
            post.spec_size() == pre.spec_size(),
            post.slots_model() == pre.slots_model(),
            post.frames_model().len() == pre.frames_model().len(),
            post.free_model() == seq![x] + pre.free_model(),
            post.spec_clock() == pre.spec_clock(),
        ensures
            post.wf(),
    {
        assert forall|k: int| 0 <= k < post.slots_model().len() implies (post.slot_is_live(k)
            <==> pre.slot_is_live(k)) && #[trigger] post.live_frame(k) == pre.live_frame(k) by {
            assert(post.slots_model()[k] == pre.slots_model()[k]);
        }
        assert forall|f: int| 0 <= f < post.spec_size() implies (#[trigger] post.frame_is_live(f)
            <==> pre.frame_is_live(f)) by {
            if post.frame_is_live(f) {
                let k0 = choose|k0: int|
                    0 <= k0 < post.slots_model().len() && post.slot_is_live(k0)
                        && #[trigger] post.live_frame(k0) == f;
                assert(pre.slot_is_live(k0) && pre.live_frame(k0) == f);
            }
            if pre.frame_is_live(f) {
                let k0 = choose|k0: int|
                    0 <= k0 < pre.slots_model().len() && pre.slot_is_live(k0)
                        && #[trigger] pre.live_frame(k0) == f;
                assert(post.slot_is_live(k0) && post.live_frame(k0) == f);
            }
        }
        assert forall|f: int| 0 <= f < post.spec_size() implies (#[trigger] post.frame_is_free(f)
            <==> !post.frame_is_live(f)) by {
            if f == x as int {
                assert(post.free_model()[0] == x);
                assert(post.frame_is_free(f));
                assert(!pre.frame_is_live(f));
            } else {
                assert(pre.frame_is_free(f) <==> !pre.frame_is_live(f));
                if post.frame_is_free(f) {
                    let i = choose|i: int|
                        0 <= i < post.free_model().len() && #[trigger] post.free_model()[i] == f;
                    assert(i != 0);
                    assert(pre.free_model()[i - 1] == f);
                    assert(pre.frame_is_free(f));
                }
                if pre.frame_is_free(f) {
                    let i = choose|i: int|
                        0 <= i < pre.free_model().len() && #[trigger] pre.free_model()[i] == f;
                    assert(post.free_model()[i + 1] == f);
                    assert(post.frame_is_free(f));
                }
            }
        }
        assert forall|k: int| 0 <= k < post.slots_model().len() implies (
        #[trigger] post.clock_bits()[k].0 <==> post.slot_is_live(k)) by {
            assert(pre.clock_bits()[k].0 <==> pre.slot_is_live(k));
        }
        assert forall|k1: int, k2: int|
            0 <= k1 < post.slots_model().len() && 0 <= k2 < post.slots_model().len() && k1 != k2
                && post.slot_is_live(k1) && post.slot_is_live(k2) implies #[trigger] post.live_frame(
            k1,
        ) != #[trigger] post.live_frame(k2) by {
            assert(pre.live_frame(k1) != pre.live_frame(k2));
        }
        assert forall|i: int| 0 <= i < post.free_model().len() implies 0
            <= #[trigger] post.free_model()[i] < post.spec_size() by {
            if i != 0 {
                assert(post.free_model()[i] == pre.free_model()[i - 1]);
            }
        }
        assert forall|i: int, j: int|
            0 <= i < j < post.free_model().len() implies #[trigger] post.free_model()[i]
            != #[trigger] post.free_model()[j] by {
            if i == 0 {
                assert(post.free_model()[j] == pre.free_model()[j - 1]);
                assert(!pre.frame_is_free(x as int));
                if post.free_model()[j] == x {
                    assert(pre.frame_is_free(x as int));
                }
            } else {
                assert(pre.free_model()[i - 1] != pre.free_model()[j - 1]);
            }
        }
    }

    /// Writing a held frame into a non-live slot restores full
    /// well-formedness, provided the slot's filled bit was set with it.
    proof fn lemma_install_wf(pre: Self, post: Self, x: int, k: int)
        requires
            pre.wf_holding(x),
            0 <= k < pre.slots_model().len(),
            !pre.slot_is_live(k),
            post.spec_size() == pre.spec_size(),
            post.slots_model() == pre.slots_model().update(k, Some(Some(x))),
            post.frames_model().len() == pre.frames_model().len(),
            post.free_model() == pre.free_model(),
            post.spec_clock().wf(),
            post.spec_clock().spec_size() == pre.spec_clock().spec_size(),
            forall|j: int|
                0 <= j < post.clock_bits().len() && j != k ==> (#[trigger] post.clock_bits()[j].0
                    <==> pre.clock_bits()[j].0),
            post.clock_bits()[k].0,
        ensures
            post.wf(),
    {
        assert forall|j: int| 0 <= j < post.slots_model().len() && j != k implies (
        post.slot_is_live(j) <==> pre.slot_is_live(j)) && #[trigger] post.live_frame(j)
            == pre.live_frame(j) by {
            assert(post.slots_model()[j] == pre.slots_model()[j]);
        }
        assert(post.slot_is_live(k) && post.live_frame(k) == x);
        assert forall|j: int|
            0 <= j < post.slots_model().len() && post.slot_is_live(j) implies 0
            <= #[trigger] post.live_frame(j) < post.spec_size() by {
            if j != k {
                assert(pre.slot_is_live(j) && pre.live_frame(j) == post.live_frame(j));
            }
        }
        assert forall|k1: int, k2: int|
            0 <= k1 < post.slots_model().len() && 0 <= k2 < post.slots_model().len() && k1 != k2
                && post.slot_is_live(k1) && post.slot_is_live(k2) implies #[trigger] post.live_frame(
            k1,
        ) != #[trigger] post.live_frame(k2) by {
            if k1 == k {
                assert(pre.slot_is_live(k2) && pre.live_frame(k2) == post.live_frame(k2));
                if post.live_frame(k2) == x {
                    assert(pre.frame_is_live(x));
                }
            } else if k2 == k {
                assert(pre.slot_is_live(k1) && pre.live_frame(k1) == post.live_frame(k1));
                if post.live_frame(k1) == x {
                    assert(pre.frame_is_live(x));
                }
            } else {
                assert(pre.live_frame(k1) != pre.live_frame(k2));
            }
        }
        assert forall|f: int| 0 <= f < post.spec_size() implies (#[trigger] post.frame_is_free(f)
            <==> !post.frame_is_live(f)) by {
            if f == x {
                assert(post.frame_is_live(f));
                if post.frame_is_free(f) {
                    let i = choose|i: int|
                        0 <= i < post.free_model().len() && #[trigger] post.free_model()[i] == f;
                    assert(pre.free_model()[i] == f);
                    assert(pre.frame_is_free(x));
                }
            } else {
                assert(pre.frame_is_free(f) <==> !pre.frame_is_live(f));
                if post.frame_is_free(f) {
                    let i = choose|i: int|
                        0 <= i < post.free_model().len() && #[trigger] post.free_model()[i] == f;
                    assert(pre.free_model()[i] == f);
                    assert(pre.frame_is_free(f));
                }
                if pre.frame_is_free(f) {
                    let i = choose|i: int|
                        0 <= i < pre.free_model().len() && #[trigger] pre.free_model()[i] == f;
                    assert(post.free_model()[i] == f);
                    assert(post.frame_is_free(f));
                }
                if post.frame_is_live(f) {
                    let k0 = choose|k0: int|
                        0 <= k0 < post.slots_model().len() && post.slot_is_live(k0)
                            && #[trigger] post.live_frame(k0) == f;
                    assert(k0 != k);
                    assert(pre.slot_is_live(k0) && pre.live_frame(k0) == f);
                    assert(pre.frame_is_live(f));
                }
                if pre.frame_is_live(f) {
                    let k0 = choose|k0: int|
                        0 <= k0 < pre.slots_model().len() && pre.slot_is_live(k0)
                            && #[trigger] pre.live_frame(k0) == f;
                    assert(post.slot_is_live(k0) && post.live_frame(k0) == f);
                    assert(post.frame_is_live(f));
                }
            }
        }
        assert forall|j: int| 0 <= j < post.slots_model().len() implies (
        #[trigger] post.clock_bits()[j].0 <==> post.slot_is_live(j)) by {
            if j != k {
                assert(pre.clock_bits()[j].0 <==> pre.slot_is_live(j));
            }
        }
    }

    /// Reserves a frame for an install: pops the free list, or on an empty
    /// list evicts the sweep's victim, tombstoning its slot and clearing its
    /// filled bit. `Err` means both failed; the sweep's second-chance
    /// clearing still sticks.
    fn try_allocate_page(&mut self) -> (r: Result<AllocatedPage, ()>)
        requires
            old(self).wf(),
        ensures
            final(self).spec_size() == old(self).spec_size(),
            final(self).frames_model() == old(self).frames_model(),
            match r {
                Ok(a) => {
                    &&& final(self).wf_holding(a.free_list_id as int)
                    &&& old(self).spec_alloc_ok()
                    &&& a.free_list_id as int == old(self).spec_alloc_frame()
                    &&& final(self).slots_model() == old(self).spec_slots_after_alloc()
                    &&& final(self).free_model() == old(self).spec_free_after_alloc()
                    &&& final(self).clock_bits() == old(self).spec_clock_bits_after_alloc()
                    &&& final(self).clock_hand() == old(self).spec_clock_hand_after_alloc()
                },
                Err(()) => {
                    &&& !old(self).spec_alloc_ok()
                    &&& final(self).wf()
                    &&& final(self).slots_model() == old(self).slots_model()
                    &&& final(self).free_model() == old(self).free_model()
                    &&& final(self).clock_bits() == old(self).spec_sweep().1
                    &&& final(self).clock_hand() == old(self).spec_sweep().2
                },
            },
    {
        let ghost pre = *old(self);
        match self.free_list.allocate_page() {
            Ok(allocated_page) => {
                proof {
                    assert(self.slots_model() =~= pre.slots_model());
                    Self::lemma_pop_wf_holding(
                        pre,
                        *self,
                        allocated_page.free_list_id as int,
                    );
                }
                Ok(allocated_page)
            },
            Err(()) => {
                let ghost sweep = pre.spec_sweep();
                let ghost fuel = (RETRIES * (2 * pre.spec_size())) as nat;
                proof {
                    pre.spec_clock().lemma_wf_hand_range();
                    lemma_find_victim_from_properties(pre.clock_bits(), pre.clock_hand(), fuel);
                    assert(sweep == find_victim_from(pre.clock_bits(), pre.clock_hand(), fuel));
                }
                let victim_key_index = match self.clock.find_victim_key() {
                    Ok(v) => v,
                    Err(()) => {
                        proof {
                            assert(self.slots_model() =~= pre.slots_model());
                            assert(self.free_model() == pre.free_model());
                            Self::lemma_structural_wf_transfer(pre, *self);
                        }
                        return Err(());
                    },
                };
                let ghost mid = *self;
                proof {
                    assert(mid.slots_model() =~= pre.slots_model());
                    assert(mid.clock_bits() == sweep.1);
                    assert(sweep.1[victim_key_index as int] == (true, false));
                    assert(find_victim_from(pre.clock_bits(), pre.clock_hand(), fuel).1[
                        victim_key_index as int].0 == pre.clock_bits()[victim_key_index as int].0);
                    assert(pre.clock_bits()[victim_key_index as int].0);
                    assert(pre.slot_is_live(victim_key_index as int));
                    assert(mid.slot_is_live(victim_key_index as int));
                }

                let frame_taken: usize = match &self.page_keys[victim_key_index] {
                    Some(entry) => match &entry.allocated_page {
                        Some(allocated) => allocated.free_list_id,
                        None => {
                            proof {
                                assert(false);
                            }
                            return Err(());
                        },
                    },
                    None => {
                        proof {
                            assert(false);
                        }
                        return Err(());
                    },
                };
                proof {
                    assert(mid.live_frame(victim_key_index as int) == frame_taken as int);
                    assert(pre.live_frame(victim_key_index as int) == frame_taken as int);
                }

                self.page_keys[victim_key_index] = Some(Entry { allocated_page: None });
                self.clock.track_delete(&victim_key_index);
                proof {
                    assert(self.slots_model() =~= pre.slots_model().update(
                        victim_key_index as int,
                        Some(None),
                    ));
                    assert(self.clock_bits() =~= sweep.1.update(
                        victim_key_index as int,
                        (false, sweep.1[victim_key_index as int].1),
                    ));
                    assert(self.free_model() == pre.free_model());
                    Self::lemma_evict_wf_holding(
                        pre,
                        *self,
                        victim_key_index as int,
                        frame_taken as int,
                    );
                }

                Ok(AllocatedPage { free_list_id: frame_taken })
            },
        }
    }

    /// Builds a directory for `size` frames: `2 * size` empty slots, every
    /// frame index free, every clock bit clear.
    pub fn new(size: usize) -> (r: Self)
        requires
            1 <= size,
            20 * size <= usize::MAX,
        ensures
            r.wf(),
            r.spec_size() == size,
            forall|k: int| 0 <= k < 2 * size ==> r.slots_model()[k] is None,
            r.free_model().len() == size,
            forall|i: int| 0 <= i < size ==> r.free_model()[i] == i,
            r.frames_model().len() == size,
            forall|f: int|
                0 <= f < size ==> (#[trigger] r.frames_model()[f]).id == 0
                    && r.frames_model()[f].wf(),
            forall|k: int| 0 <= k < 2 * size ==> r.clock_bits()[k] == (false, false),
            r.clock_hand() == 0,
    {
        let mut elements: Vec<usize> = Vec::new();
        let mut i: usize = 0;
        while i < size
            invariant
                i <= size,
                elements@.len() == i,
                forall|j: int| 0 <= j < i ==> elements@[j] == j,
            decreases size - i,
        {
            elements.push(i);
            i += 1;
        }
        let free_list = ConcurrentFreeList::new(elements);

        let keys_size = size * 2;
        let mut page_keys: Vec<Option<Entry>> = Vec::new();
        let mut k: usize = 0;
        while k < keys_size
            invariant
                k <= keys_size,
                keys_size == 2 * size,
                page_keys@.len() == k,
                forall|j: int| 0 <= j < k ==> page_keys@[j] is None,
            decreases keys_size - k,
        {
            page_keys.push(None);
            k += 1;
        }

        let mut frames: Vec<Page> = Vec::new();
        let mut f: usize = 0;
        while f < size
            invariant
                f <= size,
                frames@.len() == f,
                forall|j: int|
                    0 <= j < f ==> (#[trigger] frames@[j]).id == 0 && frames@[j].wf(),
            decreases size - f,
        {
            frames.push(Page::new());
            f += 1;
        }

        let r = Self { size, free_list, clock: Clock::new(size * 2), page_keys, frames };
        proof {
            assert forall|fx: int| 0 <= fx < r.spec_size() implies (#[trigger] r.frame_is_free(fx)
                <==> !r.frame_is_live(fx)) by {
                assert(r.free_model()[fx] == fx);
                assert(r.frame_is_free(fx));
            }
        }
        r
    }

    /// Borrows frame `i` of the arena.
    pub fn frame(&self, i: usize) -> (r: &Page)
        requires
            i < self.frames_model().len(),
        ensures
            *r == self.frames_model()[i as int],
    {
        &self.frames[i]
    }

    /// Borrows frame `i` of the arena mutably. Only the frame changes: the
    /// directory slots, free list and clock stay as they were.
    pub fn frame_mut(&mut self, i: usize) -> (r: &mut Page)
        requires
            i < old(self).frames_model().len(),
        ensures
            *r == old(self).frames_model()[i as int],
            final(self).frames_model() == old(self).frames_model().update(
                i as int,
                *final(r),
            ),
            final(self).spec_size() == old(self).spec_size(),
            final(self).slots_model() == old(self).slots_model(),
            final(self).free_model() == old(self).free_model(),
            final(self).clock_bits() == old(self).clock_bits(),
            final(self).clock_hand() == old(self).clock_hand(),
            final(self).spec_clock() == old(self).spec_clock(),
    {
        &mut self.frames[i]
    }

    /// The slot the install probe for `page_id` settles on, judged on the
    /// directory as it stands once a frame has been reserved.
    pub open spec fn spec_install_probe(&self, page_id: PageId) -> Option<(int, bool)> {
        insert_probe_from(
            self.spec_slots_after_alloc(),
            self.frames_model(),
            page_id,
            home_slot(page_id, self.spec_size()),
            2 * self.spec_size(),
        )
    }

    /// No two live entries hold pages with the same id.
    pub open spec fn unique_ids(&self) -> bool {
        slots_unique_ids(self.slots_model(), self.frames_model())
    }

    /// Whether some live entry holds the page `page_id`.
    pub open spec fn is_resident(&self, page_id: PageId) -> bool {
        resident_in(self.slots_model(), self.frames_model(), page_id)
    }

    /// Probe reachability holds of every live slot.
    pub open spec fn chain_ok(&self) -> bool {
        chains_ok(self.slots_model(), self.frames_model(), self.spec_size())
    }

    /// While walking toward a live entry for `page_id` along its intact
    /// probe chain, the lookup probe cannot come up empty.
    proof fn lemma_lookup_reaches(&self, page_id: PageId, s: int, t: int)
        requires
            self.wf_except_partition(),
            0 <= s < self.slots_model().len(),
            self.slot_is_live(s),
            self.slot_page_id(s) == page_id,
            chain_ok_at(self.slots_model(), self.frames_model(), self.spec_size(), s),
            0 <= t <= probe_dist(
                home_slot(page_id, self.spec_size()),
                s,
                self.slots_model().len() as int,
            ),
        ensures
            read_probe_from(
                self.slots_model(),
                self.frames_model(),
                page_id,
                home_slot(page_id, self.spec_size()) + t,
                (self.slots_model().len() - t) as nat,
            ) is Some,
        decreases probe_dist(
            home_slot(page_id, self.spec_size()),
            s,
            self.slots_model().len() as int,
        ) - t,
    {
        let n2 = self.slots_model().len() as int;
        let home = home_slot(page_id, self.spec_size());
        let d0 = probe_dist(home, s, n2);
        lemma_position_of_dist(home, s, n2);
        lemma_wrap_position(home, t, n2);
        let ki = (home + t) % n2;
        if slot_matches(self.slots_model(), self.frames_model(), ki, page_id) {
            assert(read_probe_from(
                self.slots_model(),
                self.frames_model(),
                page_id,
                home + t,
                (n2 - t) as nat,
            ) == Some(ki));
        } else {
            assert(t != d0);
            assert(page_id_at(self.slots_model(), self.frames_model(), s) == page_id);
            assert(self.slots_model()[(home_slot(
                page_id_at(self.slots_model(), self.frames_model(), s),
                self.spec_size(),
            ) + t) % (self.slots_model().len() as int)] is Some);
            assert(self.slots_model()[ki] is Some);
            self.lemma_lookup_reaches(page_id, s, t + 1);
            assert(read_probe_from(
                self.slots_model(),
                self.frames_model(),
                page_id,
                home + t,
                (n2 - t) as nat,
            ) == read_probe_from(
                self.slots_model(),
                self.frames_model(),
                page_id,
                home + t + 1,
                (n2 - t - 1) as nat,
            ));
        }
    }

    /// A resident page is found: if a live entry for `page_id` sits on an
    /// intact probe chain, the lookup probe ends at a live entry for it.
    pub proof fn lemma_resident_found(&self, page_id: PageId)
        requires
            self.wf(),
            self.chain_ok(),
            self.is_resident(page_id),
        ensures
            self.spec_lookup(page_id) is Some,
            self.slot_is_live(self.spec_lookup(page_id)->0),
            0 <= self.spec_lookup(page_id)->0 < self.slots_model().len(),
            self.slot_page_id(self.spec_lookup(page_id)->0) == page_id,
    {
        let s = choose|s: int|
            0 <= s < self.slots_model().len() && live_at(self.slots_model(), s)
                && #[trigger] page_id_at(self.slots_model(), self.frames_model(), s) == page_id;
        assert(self.slot_is_live(s) && self.slot_page_id(s) == page_id);
        assert(self.chain_ok());
        assert(chain_ok_at(self.slots_model(), self.frames_model(), self.spec_size(), s));
        self.lemma_lookup_reaches(page_id, s, 0);
        self.lemma_lookup_found_matches(page_id);
    }

    /// Whatever slot the lookup probe ends at is in range and holds a live
    /// entry for the id looked up.
    pub proof fn lemma_lookup_found_matches(&self, page_id: PageId)
        requires
            self.wf_except_partition(),
        ensures
            self.spec_lookup(page_id) matches Some(k) ==> 0 <= k < self.slots_model().len()
                && self.slot_is_live(k) && self.slot_page_id(k) == page_id,
    {
        Self::lemma_read_probe_found(
            self.slots_model(),
            self.frames_model(),
            page_id,
            home_slot(page_id, self.spec_size()),
            2 * self.spec_size(),
        );
    }

    /// Whatever slot the lookup probe ends at matches the id looked up.
    proof fn lemma_read_probe_found(
        slots: Seq<Option<Option<int>>>,
        frames: Seq<Page>,
        id: PageId,
        k: int,
        steps: nat,
    )
        requires
            slots.len() > 0,
        ensures
            read_probe_from(slots, frames, id, k, steps) matches Some(ki) ==> 0 <= ki < slots.len()
                && slot_matches(slots, frames, ki, id),
        decreases steps,
    {
        if steps > 0 {
            let ki = k % (slots.len() as int);
            if !slot_matches(slots, frames, ki, id) && slots[ki] is Some {
                Self::lemma_read_probe_found(slots, frames, id, k + 1, (steps - 1) as nat);
            }
        }
    }

    /// Turning one live or tombstone slot into a tombstone only removes
    /// residents: chains and uniqueness survive, and whatever is resident
    /// afterwards was before.
    pub proof fn lemma_residency_after_tombstone(
        slots: Seq<Option<Option<int>>>,
        frames: Seq<Page>,
        n: nat,
        v: int,
    )
        requires
            chains_ok(slots, frames, n),
            slots_unique_ids(slots, frames),
            0 <= v < slots.len(),
            slots[v] is Some,
        ensures
            chains_ok(slots.update(v, Some(None)), frames, n),
            slots_unique_ids(slots.update(v, Some(None)), frames),
            forall|id: PageId|
                #[trigger] resident_in(slots.update(v, Some(None)), frames, id) ==> resident_in(
                    slots,
                    frames,
                    id,
                ),
    {
        let post = slots.update(v, Some(None));
        assert forall|k: int| 0 <= k < post.len() && k != v implies (live_at(post, k) <==> live_at(
            slots,
            k,
        )) && #[trigger] frame_at(post, k) == frame_at(slots, k) && (live_at(post, k)
            ==> page_id_at(post, frames, k) == page_id_at(slots, frames, k)) by {
            assert(post[k] == slots[k]);
        }
        assert(!live_at(post, v));
        assert forall|k: int| 0 <= k < post.len() && #[trigger] live_at(post, k) implies
            chain_ok_at(post, frames, n, k) by {
            assert(k != v);
            assert(live_at(slots, k));
            assert(chain_ok_at(slots, frames, n, k));
            let home = home_slot(page_id_at(post, frames, k), n);
            let n2 = post.len() as int;
            assert forall|t: int|
                0 <= t < probe_dist(home, k, n2) implies #[trigger] post[(home + t) % n2] is Some by {
                assert(slots[(home + t) % n2] is Some);
                if (home + t) % n2 == v {
                    assert(post[v] == Some(None::<int>));
                }
            }
        }
        assert forall|k1: int, k2: int|
            0 <= k1 < post.len() && 0 <= k2 < post.len() && k1 != k2 && live_at(post, k1)
                && live_at(post, k2) implies #[trigger] page_id_at(post, frames, k1)
            != #[trigger] page_id_at(post, frames, k2) by {
            assert(page_id_at(slots, frames, k1) != page_id_at(slots, frames, k2));
        }
        assert forall|id: PageId| #[trigger] resident_in(post, frames, id) implies resident_in(
            slots,
            frames,
            id,
        ) by {
            if resident_in(post, frames, id) {
                let k = choose|k: int|
                    0 <= k < post.len() && live_at(post, k) && #[trigger] page_id_at(
                        post,
                        frames,
                        k,
                    ) == id;
                assert(k != v);
                assert(live_at(slots, k) && page_id_at(slots, frames, k) == id);
            }
        }
    }

    /// A probe that comes up empty walked over live entries only.
    proof fn lemma_insert_probe_none_all_live(
        slots: Seq<Option<Option<int>>>,
        frames: Seq<Page>,
        id: PageId,
        start: int,
        steps: nat,
    )
        requires
            slots.len() > 0,
            insert_probe_from(slots, frames, id, start, steps) is None,
        ensures
            forall|t: int|
                0 <= t < steps ==> #[trigger] live_at(slots, (start + t) % (slots.len() as int)),
        decreases steps,
    {
        let n2 = slots.len() as int;
        if steps > 0 {
            let ki = start % n2;
            Self::lemma_insert_probe_none_all_live(slots, frames, id, start + 1, (steps
                - 1) as nat);
            assert forall|t: int| 0 <= t < steps implies #[trigger] live_at(
                slots,
                (start + t) % n2,
            ) by {
                if t == 0 {
                    assert(slots[ki] matches Some(Some(_)));
                } else {
                    assert(live_at(slots, (start + 1 + (t - 1)) % n2));
                }
            }
        }
    }

    /// The install probe's full budget of one lap always settles somewhere:
    /// an empty-handed probe would mean all `2N` slots are live, but live
    /// slots own distinct frames and there are only `N` frames.
    pub proof fn lemma_install_probe_settles(
        slots: Seq<Option<Option<int>>>,
        frames: Seq<Page>,
        n: nat,
        id: PageId,
        start: int,
    )
        requires
            n >= 1,
            slots.len() == 2 * n,
            0 <= start < slots.len(),
            forall|k: int|
                0 <= k < slots.len() && #[trigger] live_at(slots, k) ==> 0 <= frame_at(slots, k)
                    < n,
            forall|k1: int, k2: int|
                0 <= k1 < slots.len() && 0 <= k2 < slots.len() && k1 != k2 && live_at(slots, k1)
                    && live_at(slots, k2) ==> #[trigger] frame_at(slots, k1)
                    != #[trigger] frame_at(slots, k2),
        ensures
            insert_probe_from(slots, frames, id, start, 2 * n) is Some,
    {
        let n2 = slots.len() as int;
        if insert_probe_from(slots, frames, id, start, 2 * n) is None {
            Self::lemma_insert_probe_none_all_live(slots, frames, id, start, 2 * n);
            assert forall|s: int| 0 <= s < n2 implies #[trigger] live_at(slots, s) by {
                lemma_position_of_dist(start, s, n2);
                assert(live_at(slots, (start + probe_dist(start, s, n2)) % n2));
            }
            let owners = Seq::new(slots.len(), |k: int| frame_at(slots, k));
            assert(owners.no_duplicates()) by {
                assert forall|k1: int, k2: int|
                    0 <= k1 < owners.len() && 0 <= k2 < owners.len() && k1 != k2 implies
                    owners[k1] != owners[k2] by {
                    assert(frame_at(slots, k1) != frame_at(slots, k2));
                }
            }
            owners.unique_seq_to_set();
            assert(owners.to_set().len() == 2 * n);
            assert(owners.to_set().subset_of(set_int_range(0, n as int))) by {
                assert forall|e: int| owners.to_set().contains(e) implies set_int_range(
                    0,
                    n as int,
                ).contains(e) by {
                    let k = choose|k: int| 0 <= k < owners.len() && owners[k] == e;
                    assert(live_at(slots, k));
                    assert(0 <= frame_at(slots, k) < n);
                }
            }
            lemma_int_range(0, n as int);
            lemma_len_subset(owners.to_set(), set_int_range(0, n as int));
            assert(2 * n <= n);
            assert(false);
        }
    }

    /// A sweep aimed at a filled slot whose accessed bit is clear returns a
    /// victim before walking past it.
    proof fn lemma_sweep_hits(slots: Seq<(bool, bool)>, hand: int, fuel: nat, j: int)
        requires
            0 <= hand < slots.len(),
            0 <= j < slots.len(),
            slots[j].0,
            !slots[j].1,
            fuel >= probe_dist(hand, j, slots.len() as int) + 1,
        ensures
            find_victim_from(slots, hand, fuel).0 is Some,
        decreases probe_dist(hand, j, slots.len() as int),
    {
        let len = slots.len() as int;
        let d = probe_dist(hand, j, len);
        let next = if hand + 1 == len {
            0
        } else {
            hand + 1
        };
        if d == 0 {
            assert(hand == j);
        } else {
            assert(probe_dist(next, j, len) == d - 1);
            if !slots[hand].0 {
                Self::lemma_sweep_hits(slots, next, (fuel - 1) as nat, j);
            } else if !slots[hand].1 {
            } else {
                assert(hand != j);
                let slots2 = slots.update(hand, (true, false));
                assert(slots2[j].0 && !slots2[j].1);
                assert(probe_dist(next, j, slots2.len() as int) == d - 1);
                Self::lemma_sweep_hits(slots2, next, (fuel - 1) as nat, j);
            }
        }
    }

    /// A sweep aimed at any filled slot returns a victim within two laps:
    /// the first lap at worst spends the slot's second chance, the next one
    /// claims it.
    proof fn lemma_sweep_reaches(slots: Seq<(bool, bool)>, hand: int, fuel: nat, j: int)
        requires
            0 <= hand < slots.len(),
            0 <= j < slots.len(),
            slots[j].0,
            fuel >= probe_dist(hand, j, slots.len() as int) + 1 + slots.len(),
        ensures
            find_victim_from(slots, hand, fuel).0 is Some,
        decreases probe_dist(hand, j, slots.len() as int),
    {
        let len = slots.len() as int;
        let d = probe_dist(hand, j, len);
        let next = if hand + 1 == len {
            0
        } else {
            hand + 1
        };
        if d == 0 {
            assert(hand == j);
            if !slots[hand].1 {
            } else {
                let slots2 = slots.update(hand, (true, false));
                assert(slots2[j].0 && !slots2[j].1);
                if len == 1 {
                    assert(next == j);
                    assert(probe_dist(next, j, len) == 0);
                } else {
                    assert(probe_dist(next, j, len) == len - 1);
                }
                Self::lemma_sweep_hits(slots2, next, (fuel - 1) as nat, j);
            }
        } else {
            assert(probe_dist(next, j, len) == d - 1);
            if !slots[hand].0 {
                Self::lemma_sweep_reaches(slots, next, (fuel - 1) as nat, j);
            } else if !slots[hand].1 {
            } else {
                assert(hand != j);
                let slots2 = slots.update(hand, (true, false));
                assert(slots2[j].0);
                assert(probe_dist(next, j, slots2.len() as int) == d - 1);
                Self::lemma_sweep_reaches(slots2, next, (fuel - 1) as nat, j);
            }
        }
    }

    /// Reserving a frame cannot fail while the free list is empty: every
    /// frame is then owned by a live entry, some slot is filled, and the
    /// sweep's budget of ten laps always suffices to pick a victim. So a
    /// well-formed directory never reports `NoFreeSlot`.
    pub proof fn lemma_alloc_always_succeeds(&self)
        requires
            self.wf(),
        ensures
            self.spec_alloc_ok(),
    {
        if self.free_model().len() == 0 {
            assert(!self.frame_is_free(0));
            assert(self.frame_is_live(0));
            let k = choose|k: int|
                0 <= k < self.slots_model().len() && self.slot_is_live(k)
                    && #[trigger] self.live_frame(k) == 0;
            assert(self.clock_bits()[k].0);
            self.spec_clock().lemma_wf_hand_range();
            let len = self.clock_bits().len() as int;
            assert(probe_dist(self.clock_hand(), k, len) + 1 + len <= 2 * len);
            assert((RETRIES * (2 * self.spec_size())) as nat >= 2 * len);
            Self::lemma_sweep_reaches(
                self.clock_bits(),
                self.clock_hand(),
                (RETRIES * (2 * self.spec_size())) as nat,
                k,
            );
        }
    }

    /// Every frame index is in exactly one place: on the free list or owned
    /// by one live directory entry, never both and never neither.
    pub proof fn lemma_frame_partition(&self)
        requires
            self.wf(),
        ensures
            forall|f: int|
                0 <= f < self.spec_size() ==> (#[trigger] self.frame_is_free(f)
                    || self.frame_is_live(f)),
            forall|f: int|
                0 <= f < self.spec_size() ==> !(#[trigger] self.frame_is_free(f)
                    && self.frame_is_live(f)),
    {
    }

    /// The frames owned by live directory entries, as a set of indices.
    pub open spec fn live_frame_set(&self) -> Set<int> {
        Set::new(|f: int| 0 <= f < self.spec_size() && self.frame_is_live(f))
    }

    /// The frame partition, counted: the free list and the live entries
    /// together account for exactly the `N` frames.
    pub proof fn lemma_frame_partition_count(&self)
        requires
            self.wf(),
        ensures
            self.live_frame_set().finite(),
            self.free_model().len() + self.live_frame_set().len() == self.spec_size(),
    {
        let n = self.spec_size() as int;
        let free_seq = Seq::new(self.free_model().len(), |i: int| self.free_model()[i] as int);
        assert(free_seq.no_duplicates()) by {
            assert forall|i: int, j: int|
                0 <= i < free_seq.len() && 0 <= j < free_seq.len() && i != j implies free_seq[i]
                != free_seq[j] by {
                if i < j {
                    assert(self.free_model()[i] != self.free_model()[j]);
                } else {
                    assert(self.free_model()[j] != self.free_model()[i]);
                }
            }
        }
        free_seq.unique_seq_to_set();
        let fs = free_seq.to_set();
        let ls = self.live_frame_set();
        lemma_int_range(0, n);
        lemma_set_subset_finite(set_int_range(0, n), ls);
        assert(ls.subset_of(set_int_range(0, n)));
        lemma_set_subset_finite(set_int_range(0, n), fs);
        assert(fs.disjoint(ls)) by {
            assert forall|e: int| !(fs.contains(e) && ls.contains(e)) by {
                if fs.contains(e) && ls.contains(e) {
                    let i = choose|i: int| 0 <= i < free_seq.len() && free_seq[i] == e;
                    assert(self.free_model()[i] == e);
                    assert(self.frame_is_free(e));
                    assert(!self.frame_is_live(e));
                }
            }
        }
        assert(fs + ls =~= set_int_range(0, n)) by {
            assert forall|e: int| fs.contains(e) implies set_int_range(0, n).contains(e) by {
                let i = choose|i: int| 0 <= i < free_seq.len() && free_seq[i] == e;
                assert(0 <= self.free_model()[i] < n);
            }
            assert forall|e: int| set_int_range(0, n).contains(e) implies (fs + ls).contains(
                e,
            ) by {
                if self.frame_is_free(e) {
                    let i = choose|i: int|
                        0 <= i < self.free_model().len() && #[trigger] self.free_model()[i] == e;
                    assert(free_seq[i] == e);
                    assert(free_seq.contains(e));
                    assert(fs.contains(e));
                } else {
                    assert(self.frame_is_live(e));
                    assert(ls.contains(e));
                }
            }
        }
        vstd::set_lib::lemma_set_disjoint_lens(fs, ls);
        assert((fs + ls).len() == n);
    }

    /// A probe chain that laps the whole directory over live entries for
    /// other ids ends in `FailedToInsert` territory rather than wedging:
    /// the install probe reports failure after exactly one lap.
    pub proof fn lemma_insert_probe_exhausted(
        slots: Seq<Option<Option<int>>>,
        frames: Seq<Page>,
        id: PageId,
        start: int,
        steps: nat,
    )
        requires
            slots.len() > 0,
            forall|k: int|
                0 <= k < slots.len() ==> #[trigger] live_at(slots, k) && page_id_at(
                    slots,
                    frames,
                    k,
                ) != id,
        ensures
            insert_probe_from(slots, frames, id, start, steps) is None,
        decreases steps,
    {
        if steps > 0 {
            let ki = start % (slots.len() as int);
            assert(live_at(slots, ki) && page_id_at(slots, frames, ki) != id);
            assert(!slot_matches(slots, frames, ki, id));
            Self::lemma_insert_probe_exhausted(slots, frames, id, start + 1, (steps - 1) as nat);
        }
    }

    /// Rewriting frame contents cannot break structural well-formedness:
    /// only the directory's bookkeeping matters to it.
    pub proof fn lemma_wf_frame_update(pre: Self, post: Self)
        requires
            pre.wf(),
            post.spec_size() == pre.spec_size(),
            post.slots_model() == pre.slots_model(),
            post.free_model() == pre.free_model(),
            post.spec_clock() == pre.spec_clock(),
            post.frames_model().len() == pre.frames_model().len(),
        ensures
            post.wf(),
    {
        Self::lemma_structural_wf_transfer(pre, post);
    }

    /// A freshly installed entry sits at the end of an intact probe chain:
    /// the install probe only walked over live slots to reach its slot.
    pub proof fn lemma_new_entry_chain(
        slots0: Seq<Option<Option<int>>>,
        frames0: Seq<Page>,
        slots1: Seq<Option<Option<int>>>,
        frames1: Seq<Page>,
        n: nat,
        page_id: PageId,
        k: int,
    )
        requires
            n >= 1,
            slots0.len() == 2 * n,
            insert_probe_from(slots0, frames0, page_id, home_slot(page_id, n), 2 * n) matches Some(
                p,
            ) && p.0 == k,
            slots1.len() == slots0.len(),
            forall|j: int|
                0 <= j < slots0.len() && #[trigger] slots0[j] is Some ==> slots1[j] is Some,
            live_at(slots1, k),
            0 <= k < slots1.len(),
            page_id_at(slots1, frames1, k) == page_id,
        ensures
            chain_ok_at(slots1, frames1, n, k),
    {
        let n2 = slots0.len() as int;
        let home = home_slot(page_id, n);
        let t0 = lemma_insert_probe_path(slots0, frames0, page_id, home, (2 * n) as nat);
        lemma_wrap_position(home, t0, n2);
        assert(probe_dist(home, k, n2) == t0);
        assert forall|t: int|
            0 <= t < probe_dist(home_slot(page_id_at(slots1, frames1, k), n), k, n2) implies
            #[trigger] slots1[(home_slot(page_id_at(slots1, frames1, k), n) + t) % n2] is Some by {
            assert(slots0[(home + t) % n2] matches Some(Some(_)));
            lemma_wrap_position(home, t, n2);
        }
    }

    /// Installing a new entry for a page that was absent, then writing its
    /// id into the entry's frame, keeps every probe chain intact and all ids
    /// unique, and makes the page resident.
    pub proof fn lemma_residency_after_install(
        slots0: Seq<Option<Option<int>>>,
        frames0: Seq<Page>,
        slots1: Seq<Option<Option<int>>>,
        frames1: Seq<Page>,
        n: nat,
        k: int,
        f: int,
        page_id: PageId,
    )
        requires
            chains_ok(slots0, frames0, n),
            slots_unique_ids(slots0, frames0),
            !resident_in(slots0, frames0, page_id),
            0 <= k < slots0.len(),
            0 <= f < frames0.len(),
            slots1 == slots0.update(k, Some(Some(f))),
            frames1.len() == frames0.len(),
            forall|g: int|
                0 <= g < frames0.len() && g != f ==> #[trigger] frames1[g] == frames0[g],
            frames1[f].id == page_id,
            !live_at(slots0, k),
            chain_ok_at(slots1, frames1, n, k),
            forall|j: int|
                0 <= j < slots0.len() && #[trigger] live_at(slots0, j) ==> 0 <= frame_at(slots0, j)
                    < frames0.len(),
            forall|j: int|
                0 <= j < slots1.len() && j != k && #[trigger] live_at(slots1, j) ==> frame_at(
                    slots1,
                    j,
                ) != f,
        ensures
            chains_ok(slots1, frames1, n),
            slots_unique_ids(slots1, frames1),
            resident_in(slots1, frames1, page_id),
            forall|id2: PageId|
                #[trigger] resident_in(slots0, frames0, id2) ==> resident_in(slots1, frames1, id2),
    {
        let n2 = slots1.len() as int;
        assert(live_at(slots1, k) && frame_at(slots1, k) == f);
        assert(page_id_at(slots1, frames1, k) == page_id);
        assert(resident_in(slots1, frames1, page_id));
        assert forall|j: int| 0 <= j < n2 && j != k implies (live_at(slots1, j) <==> live_at(
            slots0,
            j,
        )) && #[trigger] frame_at(slots1, j) == frame_at(slots0, j) by {
            assert(slots1[j] == slots0[j]);
        }
        assert forall|j: int| 0 <= j < n2 && j != k && live_at(slots1, j) implies
            #[trigger] page_id_at(slots1, frames1, j) == page_id_at(slots0, frames0, j)
            && page_id_at(slots1, frames1, j) != page_id by {
            assert(frame_at(slots1, j) != f);
            assert(live_at(slots0, j));
            assert(0 <= frame_at(slots0, j) < frames0.len());
            assert(frames1[frame_at(slots1, j)] == frames0[frame_at(slots0, j)]);
            if page_id_at(slots0, frames0, j) == page_id {
                assert(resident_in(slots0, frames0, page_id));
            }
        }
        assert forall|j: int| 0 <= j < n2 && #[trigger] live_at(slots1, j) implies chain_ok_at(
            slots1,
            frames1,
            n,
            j,
        ) by {
            if j != k {
                assert(live_at(slots0, j));
                assert(chain_ok_at(slots0, frames0, n, j));
                assert(page_id_at(slots1, frames1, j) == page_id_at(slots0, frames0, j));
                let home = home_slot(page_id_at(slots1, frames1, j), n);
                assert forall|t: int|
                    0 <= t < probe_dist(home, j, n2) implies #[trigger] slots1[(home + t)
                    % n2] is Some by {
                    assert(slots0[(home + t) % n2] is Some);
                    if (home + t) % n2 == k {
                        assert(slots1[k] is Some);
                    }
                }
            }
        }
        assert forall|k1: int, k2: int|
            0 <= k1 < n2 && 0 <= k2 < n2 && k1 != k2 && live_at(slots1, k1) && live_at(slots1, k2)
                implies #[trigger] page_id_at(slots1, frames1, k1) != #[trigger] page_id_at(
            slots1,
            frames1,
            k2,
        ) by {
            if k1 == k {
                assert(page_id_at(slots1, frames1, k2) != page_id);
            } else if k2 == k {
                assert(page_id_at(slots1, frames1, k1) != page_id);
            } else {
                assert(page_id_at(slots0, frames0, k1) != page_id_at(slots0, frames0, k2));
            }
        }
        assert forall|id2: PageId| #[trigger] resident_in(slots0, frames0, id2) implies
            resident_in(slots1, frames1, id2) by {
            let k2 = choose|k2: int|
                0 <= k2 < slots0.len() && live_at(slots0, k2) && #[trigger] page_id_at(
                    slots0,
                    frames0,
                    k2,
                ) == id2;
            assert(k2 != k);
            assert(live_at(slots1, k2) && frame_at(slots1, k2) == frame_at(slots0, k2));
            assert(page_id_at(slots1, frames1, k2) == id2);
        }
    }

    /// The slot index inside a successful install probe's result.
    pub open spec fn spec_install_slot(&self, page_id: PageId) -> int {
        let p = self.spec_install_probe(page_id)->0;
        p.0
    }

    /// Walks the install probe for `page_id` over the current directory
    /// state without touching anything, and reports the slot it settles on.
    fn try_insert_page(&self, page_id: &PageId) -> (r: Result<InsertPageResultInternal, ()>)
        requires
            self.wf_except_partition(),
        ensures
            match r {
                Ok(InsertPageResultInternal::NewPage(k)) => k < self.slots_model().len()
                    && insert_probe_from(
                    self.slots_model(),
                    self.frames_model(),
                    *page_id,
                    home_slot(*page_id, self.spec_size()),
                    2 * self.spec_size(),
                ) == Some((k as int, false)),
                Ok(InsertPageResultInternal::ExistingPage(k)) => k < self.slots_model().len()
                    && insert_probe_from(
                    self.slots_model(),
                    self.frames_model(),
                    *page_id,
                    home_slot(*page_id, self.spec_size()),
                    2 * self.spec_size(),
                ) == Some((k as int, true)),
                Err(()) => insert_probe_from(
                    self.slots_model(),
                    self.frames_model(),
                    *page_id,
                    home_slot(*page_id, self.spec_size()),
                    2 * self.spec_size(),
                ) is None,
            },
    {
        let key = home_slot_exec(page_id, self.size);
        let keys_size = self.size * 2;

        let mut k = key;

        loop
            invariant
                self.wf_except_partition(),
                keys_size == 2 * self.spec_size(),
                key == home_slot(*page_id, self.spec_size()),
                key < self.spec_size(),
                key <= k < key + keys_size,
                insert_probe_from(
                    self.slots_model(),
                    self.frames_model(),
                    *page_id,
                    home_slot(*page_id, self.spec_size()),
                    2 * self.spec_size(),
                ) == insert_probe_from(
                    self.slots_model(),
                    self.frames_model(),
                    *page_id,
                    k as int,
                    (key + keys_size - k) as nat,
                ),
            decreases key + keys_size - k,
        {
            let k_idx = k % keys_size;
            let ghost fuel = (key + keys_size - k) as nat;
            proof {
                assert(k_idx as int == (k as int) % (self.slots_model().len() as int));
            }

            // None: walk on (a live entry for another id); Some((_, true)):
            // already resident; Some((_, false)): install here.
            let verdict: Option<(usize, bool)> = match &self.page_keys[k_idx] {
                Some(entry) => match &entry.allocated_page {
                    Some(allocated) => {
                        proof {
                            assert(self.slots_model()[k_idx as int] == Some(
                                Some(allocated.free_list_id as int),
                            ));
                            assert(self.slot_is_live(k_idx as int));
                            assert(self.live_frame(k_idx as int) == allocated.free_list_id as int);
                        }
                        if self.frames[allocated.free_list_id].id == *page_id {
                            Some((k_idx, true))
                        } else {
                            None
                        }
                    },
                    None => Some((k_idx, false)),
                },
                None => Some((k_idx, false)),
            };

            match verdict {
                Some((slot, true)) => {
                    proof {
                        assert(slot_matches(
                            self.slots_model(),
                            self.frames_model(),
                            k_idx as int,
                            *page_id,
                        ));
                        assert(insert_probe_from(
                            self.slots_model(),
                            self.frames_model(),
                            *page_id,
                            k as int,
                            fuel,
                        ) == Some((k_idx as int, true)));
                    }
                    return Ok(InsertPageResultInternal::ExistingPage(slot));
                },
                Some((slot, false)) => {
                    proof {
                        assert(!slot_matches(
                            self.slots_model(),
                            self.frames_model(),
                            k_idx as int,
                            *page_id,
                        ));
                        assert(!(self.slots_model()[k_idx as int] matches Some(Some(_))));
                        assert(insert_probe_from(
                            self.slots_model(),
                            self.frames_model(),
                            *page_id,
                            k as int,
                            fuel,
                        ) == Some((k_idx as int, false)));
                    }
                    return Ok(InsertPageResultInternal::NewPage(slot));
                },
                None => {
                    proof {
                        assert(!slot_matches(
                            self.slots_model(),
                            self.frames_model(),
                            k_idx as int,
                            *page_id,
                        ));
                        assert(self.slots_model()[k_idx as int] matches Some(Some(_)));
                        assert(insert_probe_from(
                            self.slots_model(),
                            self.frames_model(),
                            *page_id,
                            k as int,
                            fuel,
                        ) == insert_probe_from(
                            self.slots_model(),
                            self.frames_model(),
                            *page_id,
                            k as int + 1,
                            (fuel - 1) as nat,
                        ));
                    }
                    k += 1;

                    if k == key + keys_size {
                        return Err(());
                    }
                },
            }
        }
    }

    /// Installs `page_id`: reserves a frame (evicting if need be), probes
    /// for a slot, and either creates a live entry whose frame awaits the
    /// page bytes (`NewPage`), finds the page already resident and hands the
    /// reserved frame back (`ExistingPage`), or fails. `NoFreeSlot` means no
    /// frame could be reserved; `FailedToInsert` means the probe lapped the
    /// whole directory, and the reserved frame went back to the free list.
    pub fn insert_page(&mut self, page_id: &PageId) -> (r: Result<
        InsertPageResult,
        InsertPageError,
    >)
        requires
            old(self).wf(),
        ensures
            final(self).wf(),
            final(self).spec_size() == old(self).spec_size(),
            final(self).frames_model() == old(self).frames_model(),
            r is Ok,
            match r {
                Err(_) => true,
                Ok(InsertPageResult::ExistingPage(f)) => {
                    &&& old(self).spec_alloc_ok()
                    &&& old(self).spec_install_probe(*page_id) matches Some((k, true))
                    &&& old(self).spec_slots_after_alloc()[old(self).spec_install_slot(*page_id)]
                        == Some(Some(f as int))
                    &&& final(self).slots_model() == old(self).spec_slots_after_alloc()
                    &&& final(self).free_model() == seq![old(self).spec_alloc_frame() as usize]
                        + old(self).spec_free_after_alloc()
                    &&& final(self).clock_bits() == old(self).spec_clock_bits_after_alloc().update(
                        old(self).spec_install_slot(*page_id),
                        (true, true),
                    )
                    &&& final(self).clock_hand() == old(self).spec_clock_hand_after_alloc()
                },
                Ok(InsertPageResult::NewPage(f)) => {
                    &&& old(self).spec_alloc_ok()
                    &&& old(self).spec_install_probe(*page_id) matches Some((k, false))
                    &&& f as int == old(self).spec_alloc_frame()
                    &&& final(self).slots_model() == old(self).spec_slots_after_alloc().update(
                        old(self).spec_install_slot(*page_id),
                        Some(Some(f as int)),
                    )
                    &&& final(self).free_model() == old(self).spec_free_after_alloc()
                    &&& final(self).clock_bits() == old(self).spec_clock_bits_after_alloc().update(
                        old(self).spec_install_slot(*page_id),
                        (true, true),
                    )
                    &&& final(self).clock_hand() == old(self).spec_clock_hand_after_alloc()
                },
            },
    {
        let ghost pre = *old(self);
        let allocated_page = match self.try_allocate_page() {
            Ok(a) => a,
            Err(()) => {
                // A well-formed directory always reserves a frame: either
                // the free list has one, or every frame is live and the
                // sweep finds a victim.
                proof {
                    pre.lemma_alloc_always_succeeds();
                    assert(false);
                }
                return Err(InsertPageError::NoFreeSlot);
            },
        };
        let ghost mid = *self;
        let ghost x = allocated_page.free_list_id;
        proof {
            assert(mid.wf_holding(x as int));
            assert(mid.slots_model() == pre.spec_slots_after_alloc());
            assert(mid.frames_model() == pre.frames_model());
            assert(mid.spec_size() == pre.spec_size());
            assert(insert_probe_from(
                mid.slots_model(),
                mid.frames_model(),
                *page_id,
                home_slot(*page_id, mid.spec_size()),
                2 * mid.spec_size(),
            ) == pre.spec_install_probe(*page_id));
        }

        let insert_result = self.try_insert_page(page_id);

        match insert_result {
            Ok(InsertPageResultInternal::NewPage(k)) => {
                proof {
                    lemma_insert_probe_found(
                        mid.slots_model(),
                        mid.frames_model(),
                        *page_id,
                        home_slot(*page_id, mid.spec_size()),
                        2 * mid.spec_size(),
                    );
                    assert(!mid.slot_is_live(k as int));
                }
                self.page_keys[k] = Some(Entry { allocated_page: Some(allocated_page) });
                let ghost staged = *self;
                proof {
                    assert(staged.slots_model() =~= mid.slots_model().update(
                        k as int,
                        Some(Some(x as int)),
                    ));
                }
                self.clock.track_insert(&k);
                proof {
                    assert(self.slots_model() == staged.slots_model());
                    assert(self.free_model() == mid.free_model());
                    assert(self.clock_bits() =~= mid.clock_bits().update(k as int, (true, true)));
                    Self::lemma_install_wf(mid, *self, x as int, k as int);
                }
                Ok(InsertPageResult::NewPage(allocated_page.free_list_id))
            },
            Ok(InsertPageResultInternal::ExistingPage(k)) => {
                proof {
                    lemma_insert_probe_found(
                        mid.slots_model(),
                        mid.frames_model(),
                        *page_id,
                        home_slot(*page_id, mid.spec_size()),
                        2 * mid.spec_size(),
                    );
                    assert(slot_matches(
                        mid.slots_model(),
                        mid.frames_model(),
                        k as int,
                        *page_id,
                    ));
                    assert(mid.slot_is_live(k as int));
                }
                let frame_index: usize = match &self.page_keys[k] {
                    Some(entry) => match &entry.allocated_page {
                        Some(allocated) => allocated.free_list_id,
                        None => {
                            proof {
                                assert(false);
                            }
                            return Err(InsertPageError::FailedToInsert);
                        },
                    },
                    None => {
                        proof {
                            assert(false);
                        }
                        return Err(InsertPageError::FailedToInsert);
                    },
                };
                proof {
                    assert(mid.slots_model()[k as int] == Some(Some(frame_index as int)));
                }
                self.free_list.deallocate_page(allocated_page);
                let ghost released = *self;
                proof {
                    assert(released.slots_model() =~= mid.slots_model());
                    assert(released.free_model() == seq![x] + mid.free_model());
                    Self::lemma_release_wf(mid, released, x);
                }
                self.clock.track_read(&k);
                proof {
                    assert(self.slots_model() =~= released.slots_model());
                    assert(self.free_model() == released.free_model());
                    assert(released.clock_bits()[k as int].0);
                    assert(self.clock_bits() =~= released.clock_bits().update(
                        k as int,
                        (true, true),
                    ));
                    Self::lemma_structural_wf_transfer(released, *self);
                }
                Ok(InsertPageResult::ExistingPage(frame_index))
            },
            Err(()) => {
                // The probe cannot lap the whole directory: at most half
                // its slots can be live.
                proof {
                    assert forall|k: int|
                        0 <= k < mid.slots_model().len() && #[trigger] live_at(
                            mid.slots_model(),
                            k,
                        ) implies 0 <= frame_at(mid.slots_model(), k) < mid.spec_size() by {
                        assert(mid.slot_is_live(k));
                        assert(mid.live_frame(k) == frame_at(mid.slots_model(), k));
                    }
                    assert forall|k1: int, k2: int|
                        0 <= k1 < mid.slots_model().len() && 0 <= k2 < mid.slots_model().len()
                            && k1 != k2 && live_at(mid.slots_model(), k1) && live_at(
                            mid.slots_model(),
                            k2,
                        ) implies #[trigger] frame_at(mid.slots_model(), k1)
                        != #[trigger] frame_at(mid.slots_model(), k2) by {
                        assert(mid.live_frame(k1) != mid.live_frame(k2));
                    }
                    Self::lemma_install_probe_settles(
                        mid.slots_model(),
                        mid.frames_model(),
                        mid.spec_size(),
                        *page_id,
                        home_slot(*page_id, mid.spec_size()),
                    );
                    assert(false);
                }
                self.free_list.deallocate_page(allocated_page);
                Err(InsertPageError::FailedToInsert)
            },
        }
    }

    /// The result the lookup probe for `page_id` reaches on the current
    /// directory state, with its full budget of one lap over all slots.
    pub open spec fn spec_lookup(&self, page_id: PageId) -> Option<int> {
        read_probe_from(
            self.slots_model(),
            self.frames_model(),
            page_id,
            home_slot(page_id, self.spec_size()),
            2 * self.spec_size(),
        )
    }

    /// Looks `page_id` up, walking the probe chain from its home slot.
    /// `Some(f)` names the frame the page is resident in, and the found
    /// slot's accessed bit is set; a miss changes nothing.
    pub fn read_page(&mut self, page_id: &PageId) -> (r: Option<usize>)
        requires
            old(self).wf(),
        ensures
            final(self).wf(),
            final(self).spec_size() == old(self).spec_size(),
            final(self).slots_model() == old(self).slots_model(),
            final(self).frames_model() == old(self).frames_model(),
            final(self).free_model() == old(self).free_model(),
            final(self).clock_hand() == old(self).clock_hand(),
            match r {
                Some(f) => old(self).spec_lookup(*page_id) is Some && f as int == old(
                    self,
                ).live_frame(old(self).spec_lookup(*page_id)->0) && final(self).clock_bits() == old(
                    self,
                ).clock_bits().update(old(self).spec_lookup(*page_id)->0, (true, true)),
                None => old(self).spec_lookup(*page_id) is None && final(self).clock_bits() == old(
                    self,
                ).clock_bits(),
            },
    {
        let key = home_slot_exec(page_id, self.size);
        let keys_size = self.size * 2;

        let mut k = key;

        loop
            invariant
                *self == *old(self),
                self.wf(),
                keys_size == 2 * self.spec_size(),
                key == home_slot(*page_id, self.spec_size()),
                key < self.spec_size(),
                key <= k < key + keys_size,
                old(self).spec_lookup(*page_id) == read_probe_from(
                    self.slots_model(),
                    self.frames_model(),
                    *page_id,
                    k as int,
                    (key + keys_size - k) as nat,
                ),
            decreases key + keys_size - k,
        {
            let k_idx = k % keys_size;
            let ghost fuel = (key + keys_size - k) as nat;
            proof {
                assert(k_idx as int == (k as int) % (self.slots_model().len() as int));
            }

            let outcome: Option<usize> = match &self.page_keys[k_idx] {
                Some(entry) => match &entry.allocated_page {
                    Some(allocated) => {
                        proof {
                            assert(self.slots_model()[k_idx as int] == Some(
                                Some(allocated.free_list_id as int),
                            ));
                            assert(self.slot_is_live(k_idx as int));
                        }
                        proof {
                            assert(self.live_frame(k_idx as int) == allocated.free_list_id as int);
                        }
                        if self.frames[allocated.free_list_id].id == *page_id {
                            Some(allocated.free_list_id)
                        } else {
                            None
                        }
                    },
                    None => None,
                },
                None => {
                    proof {
                        assert(self.slots_model()[k_idx as int] is None);
                        assert(read_probe_from(
                            self.slots_model(),
                            self.frames_model(),
                            *page_id,
                            k as int,
                            fuel,
                        ) is None);
                    }
                    return None;
                },
            };

            match outcome {
                Some(frame_index) => {
                    proof {
                        assert(slot_matches(
                            self.slots_model(),
                            self.frames_model(),
                            k_idx as int,
                            *page_id,
                        ));
                        assert(read_probe_from(
                            self.slots_model(),
                            self.frames_model(),
                            *page_id,
                            k as int,
                            fuel,
                        ) == Some(k_idx as int));
                        assert(self.slot_is_live(k_idx as int) && self.live_frame(k_idx as int)
                            == frame_index as int);
                    }
                    let ghost pre = *self;
                    self.clock.track_read(&k_idx);
                    proof {
                        assert(self.slots_model() =~= pre.slots_model());
                        assert(self.free_model() == pre.free_model());
                        assert(self.frames_model() == pre.frames_model());
                        assert(pre.clock_bits()[k_idx as int].0);
                        assert(self.clock_bits() =~= pre.clock_bits().update(
                            k_idx as int,
                            (true, true),
                        ));
                        Self::lemma_structural_wf_transfer(pre, *self);
                    }
                    return Some(frame_index);
                },
                None => {
                    proof {
                        assert(!slot_matches(
                            self.slots_model(),
                            self.frames_model(),
                            k_idx as int,
                            *page_id,
                        ));
                        assert(self.slots_model()[k_idx as int] is Some);
                        assert(read_probe_from(
                            self.slots_model(),
                            self.frames_model(),
                            *page_id,
                            k as int,
                            fuel,
                        ) == read_probe_from(
                            self.slots_model(),
                            self.frames_model(),
                            *page_id,
                            k as int + 1,
                            (fuel - 1) as nat,
                        ));
                    }
                    k += 1;

                    if k == key + keys_size {
                        proof {
                            assert(read_probe_from(
                                self.slots_model(),
                                self.frames_model(),
                                *page_id,
                                k as int,
                                0,
                            ) is None);
                        }
                        return None;
                    }
                },
            }
        }
    }
}

} // verus!
