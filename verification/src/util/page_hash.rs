//! The hash that spreads page ids over directory slots.

use vstd::prelude::*;

verus! {

use crate::page::PageId;

/// The digest that the directory's hash assigns to a page id.
pub uninterp spec fn slot_hash_of(page_id: u64) -> u64;

/// Relies on twox_hash::XxHash3_64::oneshot over the page id's eight
/// big-endian bytes: an unseeded digest that depends on those bytes alone.
#[verifier::external_body]
pub(crate) fn hash_page_id(page_id: &PageId) -> (r: u64)
    ensures
        r == slot_hash_of(*page_id),
{
    twox_hash::XxHash3_64::oneshot(&page_id.to_be_bytes())
}

/// The home slot that probing for `page_id` starts from, in a directory
/// sized for `size` frames.
pub open spec fn home_slot(page_id: PageId, size: nat) -> int {
    slot_hash_of(page_id) as int % size as int
}

/// Computes the home slot of `page_id`.
pub(crate) fn home_slot_exec(page_id: &PageId, size: usize) -> (r: usize)
    requires
        size >= 1,
    ensures
        r == home_slot(*page_id, size as nat),
        r < size,
{
    (hash_page_id(page_id) % (size as u64)) as usize
}

} // verus!
