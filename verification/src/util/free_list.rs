//! Allocator for the pool's page frames: a LIFO list of currently-unused
//! frame indices. Frames enter the list at construction, leave it through
//! `allocate_page`, and return through `deallocate_page`.

use vstd::prelude::*;

verus! {

/// A frame index checked out of the free list. The frame it names stays
/// reserved until the index is handed back through `deallocate_page` or
/// installed into a directory entry.
#[derive(Clone, Copy)]
pub struct AllocatedPage {
    pub free_list_id: usize,
}

/// LIFO list of free frame indices. The next index to be handed out sits at
/// the front of the view.
pub struct ConcurrentFreeList {
    /// Stored in reverse pop order: the last element is handed out first.
    stack: Vec<usize>,
}

impl ConcurrentFreeList {
    /// The indices currently free, first to be popped at position 0.
    pub closed spec fn view(&self) -> Seq<usize> {
        self.stack@.reverse()
    }

    /// Builds a list holding `elements`, popped front first.
    pub fn new(elements: Vec<usize>) -> (r: Self)
        ensures
            r@ == elements@,
    {
        let mut stack: Vec<usize> = Vec::new();
        let n = elements.len();
        let mut i: usize = 0;
        while i < n
            invariant
                i <= n,
                n == elements@.len(),
                stack@.len() == i,
                forall|j: int| 0 <= j < i ==> stack@[j] == elements@[n - 1 - j],
            decreases n - i,
        {
            stack.push(elements[n - 1 - i]);
            i += 1;
        }
        proof {
            assert(stack@.reverse() =~= elements@);
        }
        Self { stack }
    }

    /// Pops the front index; reports `Err` exactly when the list is empty.
    pub fn allocate_page(&mut self) -> (r: Result<AllocatedPage, ()>)
        ensures
            match r {
                Ok(a) => old(self)@.len() > 0 && a.free_list_id == old(self)@[0] && final(self)@
                    == old(self)@.drop_first(),
                Err(()) => old(self)@.len() == 0 && final(self)@ == old(self)@,
            },
    {
        let ghost pre = self.stack@;
        match self.stack.pop() {
            Some(index) => {
                proof {
                    assert(self.stack@.reverse() =~= pre.reverse().drop_first());
                }
                Ok(AllocatedPage { free_list_id: index })
            },
            None => {
                proof {
                    assert(pre.reverse().len() == 0);
                }
                Err(())
            },
        }
    }

    /// Pushes the index back; it becomes the next one handed out.
    pub fn deallocate_page(&mut self, page: AllocatedPage)
        ensures
            final(self)@ == seq![page.free_list_id] + old(self)@,
    {
        let ghost pre = self.stack@;
        self.stack.push(page.free_list_id);
        proof {
            assert(self.stack@.reverse() =~= seq![page.free_list_id] + pre.reverse());
        }
    }

    /// How many frame indices are currently free.
    pub fn len(&self) -> (r: usize)
        ensures
            r == self@.len(),
    {
        self.stack.len()
    }
}

} // verus!
