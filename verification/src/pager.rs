//! The page allocator: a monotone counter plus the list of reclaimed pages.
//!
//! `node_count` counts the live pages; reclaimed pages sit in `free_pages`.
//! An allocation prefers popping a reclaimed page and only then extends the
//! file, so the allocated span is always `node_count + free_pages.len()`
//! pages long and a fresh allocation never collides with a live page.

use vstd::prelude::*;

verus! {

/// The page-allocation state persisted in the metadata envelope.
#[derive(Debug)]
pub struct Pager {
    pub node_count: u64,
    pub free_pages: Vec<u64>,
}

impl Pager {
    /// The number of pages the backing file spans: live and reclaimed.
    pub open spec fn allocated(self) -> int {
        self.node_count + self.free_pages@.len()
    }

    /// A fresh allocator with nothing allocated.
    pub fn new() -> (r: Pager)
        ensures
            r.node_count == 0,
            r.free_pages@ == Seq::<u64>::empty(),
    {
        Pager { node_count: 0, free_pages: Vec::new() }
    }

    /// The transition one allocation makes: the popped reclaimed page, or
    /// the next fresh page number, with the live count bumped.
    pub open spec fn one_alloc(a: Pager, b: Pager, p: u64) -> bool {
        &&& b.node_count == if a.node_count < u64::MAX {
            (a.node_count + 1) as u64
        } else {
            u64::MAX
        }
        &&& if a.free_pages@.len() > 0 {
            p == a.free_pages@.last() && b.free_pages@ == a.free_pages@.drop_last()
        } else {
            p == a.node_count && b.free_pages@ == a.free_pages@
        }
    }

    /// Allocate a page: pop a reclaimed page if any, else extend the span.
    pub(crate) fn alloc_page(&mut self) -> (p: u64)
        ensures
            Pager::one_alloc(*old(self), *final(self), p),
    {
        let p = match self.free_pages.pop() {
            Some(q) => q,
            None => self.node_count,
        };
        if self.node_count < u64::MAX {
            self.node_count = self.node_count + 1;
        }
        p
    }

    /// Reclaim a page freed by a merge or a root collapse.
    pub(crate) fn free_page(&mut self, p: u64)
        ensures
            final(self).free_pages@ == old(self).free_pages@.push(p),
            final(self).node_count == if old(self).node_count > 0 {
                (old(self).node_count - 1) as u64
            } else {
                0u64
            },
    {
        self.free_pages.push(p);
        if self.node_count > 0 {
            self.node_count = self.node_count - 1;
        }
    }
}

} // verus!
