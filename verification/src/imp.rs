//! The page source: a grow-only heap handing out 64 KiB pages.
//!
//! Memory is obtained in whole pages from a fixed budget, never returned,
//! by advancing a bump offset — the static-array flavor of backend, which
//! also models a linear memory that can only grow. The first page starts
//! just past address `PAGE_SIZE`, so no cell address is ever null.

use vstd::prelude::*;

verus! {

/// The default heap budget in bytes: 32 MiB. A build may pick any budget up
/// to `MAX_HEAP_BYTES`; that bound is a machine limit of the model, chosen so
/// that every address computation (frontiers, split positions, refill
/// requests) stays well inside `usize` even on 32-bit machines.
pub const DEFAULT_HEAP_BYTES: usize = 33554432;

/// A grow-only source of pages with a fixed budget.
pub struct PageSource {
    /// Bytes handed out so far; a multiple of the page size.
    offset: usize,
    /// The budget in bytes.
    limit: usize,
}

impl PageSource {
    /// A sound source: whole pages handed out, within the budget, and the
    /// budget within the model's address bound.
    pub open spec fn wf(self) -> bool {
        &&& self.offset() as int % crate::PAGE_SIZE as int == 0
        &&& self.offset() <= self.limit()
        &&& self.limit() <= crate::MAX_HEAP_BYTES
    }

    /// Bytes handed out so far.
    pub closed spec fn offset(self) -> usize {
        self.offset
    }

    /// The budget in bytes.
    pub closed spec fn limit(self) -> usize {
        self.limit
    }

    /// One past the highest address handed out: all cells lie below this.
    pub open spec fn frontier(self) -> int {
        crate::PAGE_SIZE + self.offset()
    }

    /// A fresh source with the given budget.
    pub fn new(limit: usize) -> (r: PageSource)
        requires
            limit <= crate::MAX_HEAP_BYTES,
        ensures
            r.wf(),
            r.offset() == 0,
            r.limit() == limit,
    {
        PageSource { offset: 0, limit }
    }

    /// Hand out `pages` fresh pages, or refuse when they would exceed the
    /// budget. The returned address is page-aligned and the pages are the
    /// region from it to the new frontier.
    pub fn alloc_pages(&mut self, pages: usize) -> (r: Option<usize>)
        requires
            old(self).wf(),
            pages >= 1,
        ensures
            final(self).wf(),
            final(self).limit() == old(self).limit(),
            r is None ==> *final(self) == *old(self) && pages * crate::PAGE_SIZE > old(
                self,
            ).limit() - old(self).offset(),
            r is Some ==> {
                &&& pages * crate::PAGE_SIZE <= old(self).limit() - old(self).offset()
                &&& r->0 == crate::PAGE_SIZE + old(self).offset()
                &&& r->0 as int == old(self).frontier()
                &&& final(self).offset() == old(self).offset() + pages * crate::PAGE_SIZE
                &&& final(self).frontier() == old(self).frontier() + pages * crate::PAGE_SIZE
                &&& r->0 as int % crate::PAGE_SIZE as int == 0
            },
    {
        let avail: usize = self.limit - self.offset;
        if pages > avail / crate::PAGE_SIZE {
            proof {
                let pi = crate::PAGE_SIZE as int;
                vstd::arithmetic::div_mod::lemma_fundamental_div_mod(avail as int, pi);
                assert(pages * pi > avail as int) by (nonlinear_arith)
                    requires
                        pages > avail as int / pi,
                        avail == pi * (avail as int / pi) + avail as int % pi,
                        0 <= avail as int % pi < pi,
                        pi > 0;
            }
            None
        } else {
            proof {
                let pi = crate::PAGE_SIZE as int;
                vstd::arithmetic::div_mod::lemma_fundamental_div_mod(avail as int, pi);
                assert(pages * pi <= avail as int) by (nonlinear_arith)
                    requires
                        pages <= avail as int / pi,
                        avail == pi * (avail as int / pi) + avail as int % pi,
                        0 <= avail as int % pi,
                        pi > 0;
                vstd::arithmetic::div_mod::lemma_mod_multiples_basic(pages as int, pi);
                vstd::arithmetic::div_mod::lemma_add_mod_noop(
                    self.offset as int,
                    (pages * crate::PAGE_SIZE) as int,
                    pi,
                );
            }
            let grown: usize = pages * crate::PAGE_SIZE;
            let r: usize = crate::PAGE_SIZE + self.offset;
            self.offset = self.offset + grown;
            Some(r)
        }
    }
}

} // verus!
