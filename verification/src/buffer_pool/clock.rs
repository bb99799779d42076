//! CLOCK (second-chance) eviction state. For every directory slot the clock
//! keeps two bits, packed four slots to a byte cell: an *accessed* bit at
//! position `2k` and a *filled* bit at position `2k + 1`. `find_victim_key`
//! sweeps a rotating hand over the slots, clearing accessed bits once before
//! picking the first filled, non-accessed slot as the eviction victim.

use vstd::prelude::*;

verus! {

use vstd::arithmetic::div_mod::lemma_fundamental_div_mod;

/// Bits per bitmap cell.
pub const BITMAP_CELL_SIZE: usize = 8;

/// Full sweeps the victim search may make before giving up.
pub const RETRIES: usize = 10;

/// Whether bit `pos` of `cell` is set.
pub open spec fn nth_bit(cell: u8, pos: u8) -> bool {
    (cell >> pos) & 1 == 1
}

/// The *accessed* bit of slot `k` in the packed bitmap.
pub open spec fn spec_accessed(cells: Seq<u8>, k: int) -> bool {
    nth_bit(cells[2 * k / 8], ((2 * k) % 8) as u8)
}

/// The *filled* bit of slot `k` in the packed bitmap.
pub open spec fn spec_filled(cells: Seq<u8>, k: int) -> bool {
    nth_bit(cells[2 * k / 8], ((2 * k + 1) % 8) as u8)
}

/// The victim search, one step per unit of fuel, starting with the hand at
/// `hand`. Each slot is a `(filled, accessed)` pair. A filled, non-accessed
/// slot stops the sweep; a filled, accessed slot loses its accessed bit (its
/// second chance) and the hand moves on. Returns the victim found, the slots
/// as the sweep leaves them, and the final hand position.
pub open spec fn find_victim_from(slots: Seq<(bool, bool)>, hand: int, fuel: nat) -> (Option<
    int,
>, Seq<(bool, bool)>, int)
    decreases fuel,
{
    if fuel == 0 || slots.len() == 0 {
        (None, slots, hand)
    } else {
        let next = if hand + 1 == slots.len() {
            0
        } else {
            hand + 1
        };
        if !slots[hand].0 {
            find_victim_from(slots, next, (fuel - 1) as nat)
        } else if !slots[hand].1 {
            (Some(hand), slots, next)
        } else {
            find_victim_from(slots.update(hand, (true, false)), next, (fuel - 1) as nat)
        }
    }
}

/// Per-slot access and occupancy bits for the page directory, plus the
/// rotating hand of the eviction sweep.
pub struct Clock {
    size: usize,
    clock: usize,
    read_indicator: Vec<u8>,
}

impl Clock {
    /// How many slots the clock tracks.
    pub closed spec fn spec_size(&self) -> nat {
        self.size as nat
    }

    /// Current hand position.
    pub closed spec fn hand(&self) -> int {
        self.clock as int
    }

    /// The packed bitmap cells.
    pub closed spec fn cells(&self) -> Seq<u8> {
        self.read_indicator@
    }

    /// The `(filled, accessed)` pair of every tracked slot.
    pub open spec fn slots_model(&self) -> Seq<(bool, bool)> {
        Seq::new(
            self.spec_size(),
            |k: int| (spec_filled(self.cells(), k), spec_accessed(self.cells(), k)),
        )
    }

    pub closed spec fn wf(&self) -> bool {
        &&& self.read_indicator@.len() == (2 * self.size + BITMAP_CELL_SIZE - 1) as int
            / BITMAP_CELL_SIZE as int
        &&& (self.size > 0 ==> self.clock < self.size)
        &&& (self.size == 0 ==> self.clock == 0)
        &&& RETRIES * self.size <= usize::MAX
    }

    /// A well-formed clock keeps its hand on a tracked slot.
    pub proof fn lemma_wf_hand_range(&self)
        requires
            self.wf(),
        ensures
            self.spec_size() > 0 ==> 0 <= self.hand() < self.spec_size(),
            self.spec_size() == 0 ==> self.hand() == 0,
            self.slots_model().len() == self.spec_size(),
    {
    }

    /// Builds a clock for `size` slots with every bit clear and the hand at
    /// slot zero.
    pub fn new(size: usize) -> (r: Self)
        requires
            RETRIES * size <= usize::MAX,
        ensures
            r.wf(),
            r.spec_size() == size,
            r.hand() == 0,
            forall|k: int|
                0 <= k < size ==> r.slots_model()[k] == (false, false),
    {
        let inidicators_length = (2 * size + BITMAP_CELL_SIZE - 1) / BITMAP_CELL_SIZE;

        let mut read_indicator: Vec<u8> = Vec::new();
        let mut i: usize = 0;
        while i < inidicators_length
            invariant
                i <= inidicators_length,
                read_indicator@.len() == i,
                forall|c: int| 0 <= c < i ==> read_indicator@[c] == 0u8,
            decreases inidicators_length - i,
        {
            read_indicator.push(0u8);
            i += 1;
        }
        let r = Self { size, clock: 0, read_indicator };
        proof {
            assert forall|k: int| 0 <= k < size implies r.slots_model()[k] == (false, false) by {
                lemma_slot_cell_bounds(k, size as int);
                let c = r.cells()[2 * k / 8];
                let pa = ((2 * k) % 8) as u8;
                let pf = ((2 * k + 1) % 8) as u8;
                assert((0u8 >> pa) & 1 == 0 && (0u8 >> pf) & 1 == 0) by (bit_vector);
            }
        }
        r
    }

    /// Sets the accessed bit of `hash_map_index`; every other slot keeps its
    /// bits, and the hand does not move.
    pub fn track_read(&mut self, hash_map_index: &usize)
        requires
            old(self).wf(),
            *hash_map_index < old(self).spec_size(),
        ensures
            final(self).wf(),
            final(self).spec_size() == old(self).spec_size(),
            final(self).hand() == old(self).hand(),
            final(self).slots_model() == old(self).slots_model().update(
                *hash_map_index as int,
                (spec_filled(old(self).cells(), *hash_map_index as int), true),
            ),
    {
        let ghost pre = *self;
        let index = 2 * *hash_map_index;

        let cell_index = index / BITMAP_CELL_SIZE;
        proof {
            lemma_slot_cell_bounds(*hash_map_index as int, self.size as int);
        }
        let shift = index % BITMAP_CELL_SIZE;
        let v = self.read_indicator[cell_index];
        self.read_indicator[cell_index] = v | (1u8 << shift);
        proof {
            let k = *hash_map_index as int;
            lemma_or_mask_bits(v, (((2 * k) % 8) as u8) as u8);
            lemma_model_update(pre, *self, k, true, false, false, false);
        }
    }

    /// Sets both the accessed and the filled bit of `hash_map_index`; every
    /// other slot keeps its bits, and the hand does not move.
    pub fn track_insert(&mut self, hash_map_index: &usize)
        requires
            old(self).wf(),
            *hash_map_index < old(self).spec_size(),
        ensures
            final(self).wf(),
            final(self).spec_size() == old(self).spec_size(),
            final(self).hand() == old(self).hand(),
            final(self).slots_model() == old(self).slots_model().update(
                *hash_map_index as int,
                (true, true),
            ),
    {
        let ghost pre = *self;
        let index = 2 * *hash_map_index;

        let cell_index = index / BITMAP_CELL_SIZE;
        proof {
            lemma_slot_cell_bounds(*hash_map_index as int, self.size as int);
        }
        let shift = index % BITMAP_CELL_SIZE;
        let v = self.read_indicator[cell_index];
        self.read_indicator[cell_index] = v | (0b11u8 << shift);
        proof {
            let k = *hash_map_index as int;
            lemma_or_pair_mask_bits(v, (((2 * k) % 8) as u8) as u8);
            lemma_model_update(pre, *self, k, true, false, true, false);
        }
    }

    /// Clears the filled bit of `hash_map_index`; every other slot keeps its
    /// bits, the slot's accessed bit stays, and the hand does not move.
    pub fn track_delete(&mut self, hash_map_index: &usize)
        requires
            old(self).wf(),
            *hash_map_index < old(self).spec_size(),
        ensures
            final(self).wf(),
            final(self).spec_size() == old(self).spec_size(),
            final(self).hand() == old(self).hand(),
            final(self).slots_model() == old(self).slots_model().update(
                *hash_map_index as int,
                (false, spec_accessed(old(self).cells(), *hash_map_index as int)),
            ),
    {
        let ghost pre = *self;
        let index = 2 * *hash_map_index + 1;

        let cell_index = index / BITMAP_CELL_SIZE;
        proof {
            lemma_slot_cell_bounds(*hash_map_index as int, self.size as int);
            assert((2 * (*hash_map_index as int) + 1) / 8 == 2 * (*hash_map_index as int) / 8
                && (2 * (*hash_map_index as int) + 1) % 8 == (2 * (*hash_map_index as int)) % 8
                + 1) by {
                lemma_fundamental_div_mod(2 * (*hash_map_index as int), 8);
                lemma_fundamental_div_mod(2 * (*hash_map_index as int) + 1, 8);
            }
        }
        let shift = index % BITMAP_CELL_SIZE;
        let v = self.read_indicator[cell_index];
        self.read_indicator[cell_index] = v & !(1u8 << shift);
        proof {
            let k = *hash_map_index as int;
            lemma_and_mask_bits(v, (((2 * k + 1) % 8) as u8) as u8);
            lemma_model_update(pre, *self, k, false, false, false, true);
        }
    }

    /// Clears the accessed bit of `hash_map_index` (takes its second chance
    /// away); every other slot keeps its bits, and the hand does not move.
    fn mark_unread(&mut self, hash_map_index: &usize)
        requires
            old(self).wf(),
            *hash_map_index < old(self).spec_size(),
        ensures
            final(self).wf(),
            final(self).spec_size() == old(self).spec_size(),
            final(self).hand() == old(self).hand(),
            final(self).slots_model() == old(self).slots_model().update(
                *hash_map_index as int,
                (spec_filled(old(self).cells(), *hash_map_index as int), false),
            ),
    {
        let ghost pre = *self;
        let index = 2 * *hash_map_index;

        let cell_index = index / BITMAP_CELL_SIZE;
        proof {
            lemma_slot_cell_bounds(*hash_map_index as int, self.size as int);
        }
        let shift = index % BITMAP_CELL_SIZE;
        let v = self.read_indicator[cell_index];
        self.read_indicator[cell_index] = v & !(1u8 << shift);
        proof {
            let k = *hash_map_index as int;
            lemma_and_mask_bits(v, (((2 * k) % 8) as u8) as u8);
            lemma_model_update(pre, *self, k, false, true, false, false);
        }
    }

    /// Reads slot `hash_map_index`'s bits as `(filled, accessed)`.
    fn hash_key_status(&self, hash_map_index: &usize) -> (r: (bool, bool))
        requires
            self.wf(),
            *hash_map_index < self.spec_size(),
        ensures
            r.0 == spec_filled(self.cells(), *hash_map_index as int),
            r.1 == spec_accessed(self.cells(), *hash_map_index as int),
    {
        proof {
            lemma_slot_cell_bounds(*hash_map_index as int, self.size as int);
            assert((2 * (*hash_map_index as int) + 1) / 8 == 2 * (*hash_map_index as int) / 8
                && (2 * (*hash_map_index as int) + 1) % 8 == (2 * (*hash_map_index as int)) % 8
                + 1) by {
                lemma_fundamental_div_mod(2 * (*hash_map_index as int), 8);
                lemma_fundamental_div_mod(2 * (*hash_map_index as int) + 1, 8);
            }
        }
        let bitmap_cell_value = self.read_indicator[2 * *hash_map_index / BITMAP_CELL_SIZE];

        let filled_shift = (2 * *hash_map_index + 1) % BITMAP_CELL_SIZE;
        let hash_key_filled = (bitmap_cell_value >> filled_shift) & 1 == 1;

        let accessed_shift = (2 * *hash_map_index) % BITMAP_CELL_SIZE;
        let hash_key_accessed = (bitmap_cell_value >> accessed_shift) & 1 == 1;

        (hash_key_filled, hash_key_accessed)
    }

    /// Runs the victim sweep, exactly as `find_victim_from` describes it on
    /// the current slot bits and hand, with `RETRIES` full rotations of fuel.
    /// `Ok(k)` is the victim slot; `Err(())` means the sweep exhausted its
    /// budget without finding a filled, non-accessed slot.
    pub fn find_victim_key(&mut self) -> (r: Result<usize, ()>)
        requires
            old(self).wf(),
        ensures
            final(self).wf(),
            final(self).spec_size() == old(self).spec_size(),
            final(self).slots_model() == find_victim_from(
                old(self).slots_model(),
                old(self).hand(),
                (RETRIES * old(self).spec_size()) as nat,
            ).1,
            final(self).hand() == find_victim_from(
                old(self).slots_model(),
                old(self).hand(),
                (RETRIES * old(self).spec_size()) as nat,
            ).2,
            match r {
                Ok(k) => find_victim_from(
                    old(self).slots_model(),
                    old(self).hand(),
                    (RETRIES * old(self).spec_size()) as nat,
                ).0 == Some(k as int),
                Err(()) => find_victim_from(
                    old(self).slots_model(),
                    old(self).hand(),
                    (RETRIES * old(self).spec_size()) as nat,
                ).0 is None,
            },
    {
        let ghost slots0 = old(self).slots_model();
        let ghost hand0 = old(self).hand();
        proof {
            assert(self.slots_model() == slots0);
            assert(self.hand() == hand0);
        }
        let budget = RETRIES * self.size;
        let mut attempt: usize = 0;
        while attempt < budget
            invariant
                self.wf(),
                slots0 == old(self).slots_model(),
                hand0 == old(self).hand(),
                self.spec_size() == old(self).spec_size(),
                self.size == old(self).size,
                attempt <= budget,
                budget == RETRIES * self.size,
                find_victim_from(slots0, hand0, budget as nat) == find_victim_from(
                    self.slots_model(),
                    self.hand(),
                    (budget - attempt) as nat,
                ),
            decreases budget - attempt,
        {
            let ghost pre_model = self.slots_model();
            let ghost pre_hand = self.hand();
            let clock = self.clock;
            self.clock = if clock + 1 == self.size {
                0
            } else {
                clock + 1
            };
            let (hash_key_filled, hash_key_accessed) = self.hash_key_status(&clock);

            proof {
                assert(self.slots_model() =~= pre_model);
                assert(pre_model[clock as int] == (hash_key_filled, hash_key_accessed));
            }
            if !hash_key_filled {
                attempt += 1;
                continue;
            }
            if !hash_key_accessed {
                proof {
                    assert(find_victim_from(pre_model, pre_hand, (budget - attempt) as nat) == (
                    Some(clock as int),
                    pre_model,
                    self.hand(),
                    ));
                }
                return Ok(clock);
            } else {
                let hand_after = self.clock;
                self.mark_unread(&clock);
                proof {
                    assert(self.slots_model() =~= pre_model.update(
                        clock as int,
                        (true, false),
                    ));
                    assert(find_victim_from(pre_model, pre_hand, (budget - attempt) as nat)
                        == find_victim_from(
                        self.slots_model(),
                        self.hand(),
                        (budget - attempt - 1) as nat,
                    ));
                }
                attempt += 1;
            }
        }

        Err(())
    }
}

/// What any victim sweep guarantees: it never changes which slots are
/// filled, a returned victim is a filled slot whose accessed bit is clear in
/// the final state, and the hand stays in range.
pub proof fn lemma_find_victim_from_properties(slots: Seq<(bool, bool)>, hand: int, fuel: nat)
    requires
        slots.len() == 0 || 0 <= hand < slots.len(),
    ensures
        find_victim_from(slots, hand, fuel).1.len() == slots.len(),
        forall|k: int|
            0 <= k < slots.len() ==> #[trigger] find_victim_from(slots, hand, fuel).1[k].0
                == slots[k].0,
        find_victim_from(slots, hand, fuel).0 matches Some(v) ==> 0 <= v < slots.len()
            && find_victim_from(slots, hand, fuel).1[v] == (true, false),
        slots.len() == 0 ==> find_victim_from(slots, hand, fuel).2 == hand,
        slots.len() > 0 ==> 0 <= find_victim_from(slots, hand, fuel).2 < slots.len(),
    decreases fuel,
{
    if fuel == 0 || slots.len() == 0 {
    } else {
        let next = if hand + 1 == slots.len() {
            0
        } else {
            hand + 1
        };
        if !slots[hand].0 {
            lemma_find_victim_from_properties(slots, next, (fuel - 1) as nat);
        } else if !slots[hand].1 {
        } else {
            lemma_find_victim_from_properties(slots.update(hand, (true, false)), next, (fuel
                - 1) as nat);
        }
    }
}

/// On a quiescent clock — no slot holds an accessed bit — the victim sweep
/// is a plain rotation: it changes nothing and picks the first filled slot
/// at or after the hand, so repeated sweeps walk the filled slots in
/// deterministic rotation order.
pub proof fn lemma_quiescent_sweep(slots: Seq<(bool, bool)>, hand: int, fuel: nat)
    requires
        slots.len() == 0 || 0 <= hand < slots.len(),
        forall|k: int| 0 <= k < slots.len() ==> !(#[trigger] slots[k]).1,
    ensures
        find_victim_from(slots, hand, fuel).1 == slots,
        find_victim_from(slots, hand, fuel).0 matches Some(v) ==> slots[v].0 && (forall|d: int|
            0 <= d < (if v >= hand {
                v - hand
            } else {
                v + slots.len() - hand
            }) ==> !(#[trigger] slots[(hand + d) % (slots.len() as int)]).0),
    decreases fuel,
{
    if fuel == 0 || slots.len() == 0 {
    } else {
        let len = slots.len() as int;
        let next = if hand + 1 == len {
            0
        } else {
            hand + 1
        };
        if !slots[hand].0 {
            lemma_quiescent_sweep(slots, next, (fuel - 1) as nat);
            if find_victim_from(slots, hand, fuel).0 is Some {
                let v = find_victim_from(slots, hand, fuel).0->0;
                lemma_find_victim_from_properties(slots, hand, fuel);
                assert(0 <= v < len);
                assert(find_victim_from(slots, next, (fuel - 1) as nat).0 == Some(v));
                let vd = if v >= hand {
                    v - hand
                } else {
                    v + len - hand
                };
                let vd2 = if v >= next {
                    v - next
                } else {
                    v + len - next
                };
                assert(slots[v].0);
                assert(v != hand);
                assert(vd2 == vd - 1);
                assert forall|d: int| 0 <= d < vd implies !(#[trigger] slots[(hand + d)
                    % len]).0 by {
                    if d == 0 {
                        assert(hand % len == hand) by {
                            vstd::arithmetic::div_mod::lemma_small_mod(hand as nat, len as nat);
                        }
                    } else {
                        assert(!slots[(next + (d - 1)) % len].0);
                        if next == 0 && hand + 1 == len {
                            assert((hand + d) % len == (d - 1) % len) by {
                                vstd::arithmetic::div_mod::lemma_mod_multiples_vanish(
                                    1,
                                    d - 1,
                                    len,
                                );
                            }
                        } else {
                            assert(hand + d == next + (d - 1));
                        }
                    }
                }
            }
        } else {
            assert(!slots[hand].1);
            assert(find_victim_from(slots, hand, fuel) == (Some(hand), slots, next));
        }
    }
}

/// Slot `k`'s bits live in a cell inside the bitmap whenever `k < size`.
proof fn lemma_slot_cell_bounds(k: int, size: int)
    requires
        0 <= k < size,
    ensures
        0 <= 2 * k / 8 < (2 * size + 7) / 8,
        0 <= (2 * k) % 8 < 8,
        (2 * k) % 8 % 2 == 0,
        (2 * k + 1) / 8 == 2 * k / 8,
        (2 * k + 1) % 8 == (2 * k) % 8 + 1,
{
    lemma_fundamental_div_mod(2 * k, 8);
    lemma_fundamental_div_mod(2 * k + 1, 8);
    lemma_fundamental_div_mod(2 * size + 7, 8);
    assert((2 * k) % 8 % 2 == 0) by {
        let q = 2 * k / 8;
        assert(2 * k == 8 * q + (2 * k) % 8);
    }
}

/// Distinct slots that share a cell use distinct bit positions.
pub proof fn lemma_distinct_positions(j: int, k: int)
    requires
        0 <= j,
        0 <= k,
        j != k,
        2 * j / 8 == 2 * k / 8,
    ensures
        (2 * j) % 8 != (2 * k) % 8,
{
    lemma_fundamental_div_mod(2 * j, 8);
    lemma_fundamental_div_mod(2 * k, 8);
}

/// Setting one bit by `or` leaves every other bit of the cell alone.
pub proof fn lemma_or_mask_bits(v: u8, s: u8)
    requires
        s < 8,
    ensures
        nth_bit(v | (1u8 << s), s),
        forall|t: u8| t < 8 && t != s ==> nth_bit(v | (1u8 << s), t) == nth_bit(v, t),
{
    assert(((v | (1u8 << s)) >> s) & 1 == 1) by (bit_vector)
        requires
            s < 8,
    ;
    assert forall|t: u8| t < 8 && t != s implies nth_bit(v | (1u8 << s), t) == nth_bit(v, t) by {
        assert(((v | (1u8 << s)) >> t) & 1 == (v >> t) & 1) by (bit_vector)
            requires
                s < 8 && t < 8 && t != s,
        ;
    }
}

/// Setting a two-bit group by `or` leaves every bit outside the group alone.
proof fn lemma_or_pair_mask_bits(v: u8, s: u8)
    requires
        s < 8,
        s % 2 == 0,
    ensures
        nth_bit(v | (0b11u8 << s), s),
        nth_bit(v | (0b11u8 << s), (s + 1) as u8),
        forall|t: u8|
            t < 8 && t != s && t != s + 1 ==> nth_bit(v | (0b11u8 << s), t) == nth_bit(v, t),
{
    assert(((v | (0b11u8 << s)) >> s) & 1 == 1 && ((v | (0b11u8 << s)) >> (s + 1)) & 1 == 1)
        by (bit_vector)
        requires
            s < 8 && s % 2 == 0,
    ;
    assert forall|t: u8| t < 8 && t != s && t != s + 1 implies nth_bit(v | (0b11u8 << s), t)
        == nth_bit(v, t) by {
        assert(((v | (0b11u8 << s)) >> t) & 1 == (v >> t) & 1) by (bit_vector)
            requires
                s < 8 && t < 8 && t != s && t != s + 1,
        ;
    }
}

/// Clearing one bit by `and` with the inverted mask leaves every other bit of
/// the cell alone.
pub proof fn lemma_and_mask_bits(v: u8, s: u8)
    requires
        s < 8,
    ensures
        !nth_bit(v & !(1u8 << s), s),
        forall|t: u8| t < 8 && t != s ==> nth_bit(v & !(1u8 << s), t) == nth_bit(v, t),
{
    assert(((v & !(1u8 << s)) >> s) & 1 == 0) by (bit_vector)
        requires
            s < 8,
    ;
    assert forall|t: u8| t < 8 && t != s implies nth_bit(v & !(1u8 << s), t) == nth_bit(v, t) by {
        assert(((v & !(1u8 << s)) >> t) & 1 == (v >> t) & 1) by (bit_vector)
            requires
                s < 8 && t < 8 && t != s,
        ;
    }
}

/// After one of the bit operations rewrote slot `k`'s cell, the slot model is
/// the old model with entry `k` replaced. The four flags say which of the two
/// bits were set or cleared by the operation.
proof fn lemma_model_update(
    pre: Clock,
    post: Clock,
    k: int,
    set_accessed: bool,
    clear_accessed: bool,
    set_filled: bool,
    clear_filled: bool,
)
    requires
        pre.wf(),
        0 <= k < pre.spec_size(),
        post.spec_size() == pre.spec_size(),
        post.hand() == pre.hand(),
        post.cells().len() == pre.cells().len(),
        forall|c: int|
            0 <= c < pre.cells().len() && c != 2 * k / 8 ==> post.cells()[c] == pre.cells()[c],
        spec_accessed(post.cells(), k) == if set_accessed {
            true
        } else if clear_accessed {
            false
        } else {
            spec_accessed(pre.cells(), k)
        },
        spec_filled(post.cells(), k) == if set_filled {
            true
        } else if clear_filled {
            false
        } else {
            spec_filled(pre.cells(), k)
        },
        forall|t: u8|
            t < 8 && t != ((2 * k) % 8) as u8 && t != ((2 * k + 1) % 8) as u8 ==> #[trigger] nth_bit(
                post.cells()[2 * k / 8],
                t,
            ) == nth_bit(pre.cells()[2 * k / 8], t),
    ensures
        post.slots_model() == pre.slots_model().update(
            k,
            (spec_filled(post.cells(), k), spec_accessed(post.cells(), k)),
        ),
{
    assert forall|j: int| 0 <= j < pre.spec_size() && j != k implies spec_accessed(post.cells(), j)
        == spec_accessed(pre.cells(), j) && spec_filled(post.cells(), j) == spec_filled(
        pre.cells(),
        j,
    ) by {
        lemma_slot_cell_bounds(j, pre.spec_size() as int);
        lemma_slot_cell_bounds(k, pre.spec_size() as int);
        if 2 * j / 8 == 2 * k / 8 {
            lemma_distinct_positions(j, k);
        }
    }
    assert(post.slots_model() =~= pre.slots_model().update(
        k,
        (spec_filled(post.cells(), k), spec_accessed(post.cells(), k)),
    ));
}

} // verus!
