//! The allocator: one main free list, 256 size-class lists, a page source,
//! and the two operations the host calls.
//!
//! A request is routed by its rounded size and alignment: word-aligned
//! requests of 1 to 256 words go to the size-class list of exactly that many
//! words; everything else goes to the main list. Size-class lists refill
//! themselves by taking one large chunk from the main list and carving it
//! into cells of their class; the main list refills from the page source.
//!
//! A ghost map `live` records every outstanding allocation: the data
//! address each caller holds, with the size and alignment it asked for.
//! The allocator's laws tie each live address to an allocated cell of the
//! right list, which the free lists' own laws keep disjoint from every free
//! cell — handed-out memory is never on a free list. Each of the 257 lists
//! carries its laws for its own table; that the tables also occupy disjoint
//! stretches of the address space is not carried as a law here.

use vstd::prelude::*;
use crate::cell::{FreeCell, HEADER_SIZE};
use crate::free_list::{
    at_addr, contains_addr, AllocPolicy, FreeList, LARGE_MIN_CELL_SIZE,
};
use crate::imp::PageSource;

verus! {

/// How many size classes there are: lists for 1 to 256 words.
pub const NUM_SIZE_CLASSES: usize = 256;

/// The least chunk, in bytes, a size-class refill takes from the main list.
pub const MIN_NEW_CELL_SIZE: usize = 8192;

/// The 256 size-class free lists, indexed by request size in words.
pub struct SizeClasses {
    /// List `k` holds cells of exactly `k + 1` words.
    pub lists: Vec<FreeList>,
}

impl SizeClasses {
    /// Every list obeys its class's laws under the heap frontier.
    pub open spec fn wf(self, frontier: int) -> bool {
        &&& self.lists.len() == NUM_SIZE_CLASSES
        &&& forall|k: int|
            0 <= k < NUM_SIZE_CLASSES ==> (#[trigger] self.lists@[k]).wf(
                frontier,
                AllocPolicy::SizeClass((k + 1) as usize),
            )
    }

    /// 256 empty lists.
    pub fn new() -> (r: SizeClasses)
        ensures
            forall|frontier: int| r.wf(frontier),
            forall|k: int| 0 <= k < NUM_SIZE_CLASSES ==> (#[trigger] r.lists@[k]).order@.len() == 0,
    {
        let mut lists: Vec<FreeList> = Vec::new();
        let mut k: usize = 0;
        while k < NUM_SIZE_CLASSES
            invariant
                k <= NUM_SIZE_CLASSES,
                lists@.len() == k,
                forall|j: int, frontier: int, policy: AllocPolicy|
                    0 <= j < k ==> #[trigger] lists@[j].wf(frontier, policy),
                forall|j: int| 0 <= j < k ==> (#[trigger] lists@[j]).order@.len() == 0,
            decreases NUM_SIZE_CLASSES - k,
        {
            lists.push(FreeList::new());
            k = k + 1;
        }
        SizeClasses { lists }
    }
}

/// What a deallocation leaves of a table: every allocation but the one at
/// the freed address survives with its extent, and nothing new appears.
pub open spec fn dealloc_xfer_ok(pre: Seq<FreeCell>, post: Seq<FreeCell>, ptr: usize) -> bool {
    forall|j: int|
        0 <= j < pre.len() && (#[trigger] pre[j]).header.alloc_bit() && pre[j].addr != ptr
            - HEADER_SIZE ==> exists|j2: int|
            0 <= j2 < post.len() && (#[trigger] post[j2]).addr == pre[j].addr && post[
                j2].header.end_addr() == pre[j].header.end_addr()
                && post[j2].header.alloc_bit()
}

/// A surviving allocation is found at its address after a deallocation.
pub proof fn lemma_dealloc_lookup(
    pre: Seq<FreeCell>,
    post: Seq<FreeCell>,
    x: usize,
    ptr: usize,
    f0: int,
)
    requires
        crate::free_list::cells_wf(pre, f0),
        crate::free_list::cells_wf(post, f0),
        dealloc_xfer_ok(pre, post, ptr),
        contains_addr(pre, x),
        at_addr(pre, x).header.alloc_bit(),
        x != ptr - HEADER_SIZE,
    ensures
        contains_addr(post, x),
        at_addr(post, x).header.alloc_bit(),
        at_addr(post, x).header.end_addr() == at_addr(pre, x).header.end_addr(),
        at_addr(post, x).addr == x,
{
    let k = crate::free_list::idx_at(pre, x);
    assert(pre[k].addr == x);
    let k2 = choose|k2: int|
        0 <= k2 < post.len() && (#[trigger] post[k2]).addr == pre[k].addr && post[
            k2].header.end_addr() == pre[k].header.end_addr() && post[k2].header.alloc_bit();
    assert(post[k2].addr == x);
    assert(contains_addr(post, x));
    let k3 = crate::free_list::idx_at(post, x);
    assert(post[k3].addr == x);
    crate::free_list::lemma_addr_unique(post, f0, k2, k3);
}

/// The chunk, in bytes, a refill of class `k` takes.
pub open spec fn chunk_bytes_for(k: int) -> int {
    (if (k + 2) * (k + 2) > 1024 {
        (k + 2) * (k + 2)
    } else {
        1024int
    }) * 8
}

/// A page budget that certainly covers serving one request of this size and
/// alignment, any refill included. Requests within it cannot fail.
pub open spec fn needed_bytes(size: int, align: int) -> int {
    let a: int = if align == 0 {
        1int
    } else {
        align
    };
    let w = words_for(size);
    if is_class_request(w, a) {
        2 * chunk_bytes_for(w) + 2 * crate::PAGE_SIZE + 8240
    } else {
        w * 8 + 2 * a + 2 * LARGE_MIN_CELL_SIZE + HEADER_SIZE + crate::PAGE_SIZE
    }
}

/// The bytes a main-list refill takes from the page source for a request:
/// the larger of the request and twice alignment-plus-minimum-cell, plus a
/// header, rounded up to whole pages.
pub open spec fn large_refill_bytes(size_bytes: int, align: int) -> int {
    let request = (if size_bytes > (align + LARGE_MIN_CELL_SIZE) * 2 {
        size_bytes
    } else {
        (align + LARGE_MIN_CELL_SIZE) * 2
    }) + HEADER_SIZE;
    ((request + crate::PAGE_SIZE - 1) / crate::PAGE_SIZE as int) * crate::PAGE_SIZE
}

/// The cell whose data starts at `ptr` is no longer handed out in this
/// table: its header is gone or marked free.
pub open spec fn freed_gone(cells: Seq<FreeCell>, ptr: usize) -> bool {
    !contains_addr(cells, (ptr - HEADER_SIZE) as usize) || !at_addr(
        cells,
        (ptr - HEADER_SIZE) as usize,
    ).header.alloc_bit()
}

/// Is a request of `words` words at alignment `align` served by a
/// size-class list (rather than the main list)?
pub open spec fn is_class_request(words: int, align: int) -> bool {
    align <= 8 && 1 <= words && words <= 256
}

/// The number of words covering `size` bytes.
pub open spec fn words_for(size: int) -> int {
    (size + 7) / 8
}

/// A wee allocator: the main free list, the size classes, the page source,
/// and the ghost record of outstanding allocations.
pub struct WeeAlloc {
    /// The page source.
    pub pages: PageSource,
    /// The main free list.
    pub head: FreeList,
    /// The size-class lists.
    pub size_classes: SizeClasses,
    /// Outstanding allocations: data address to (size, align) as requested.
    pub live: Ghost<Map<usize, (usize, usize)>>,
}

impl WeeAlloc {
    /// One live entry's laws: the address names an allocated cell of the
    /// routed list whose data starts there and covers the request.
    pub open spec fn live_entry_wf(self, p: usize) -> bool {
        let (size, align) = self.live@[p];
        let w = words_for(size as int);
        &&& size >= 1
        &&& p >= crate::PAGE_SIZE + HEADER_SIZE
        &&& if is_class_request(w, align as int) {
            let cl = self.size_classes.lists@[w - 1];
            &&& contains_addr(cl.cells@, (p - HEADER_SIZE) as usize)
            &&& at_addr(cl.cells@, (p - HEADER_SIZE) as usize).header.alloc_bit()
            &&& at_addr(cl.cells@, (p - HEADER_SIZE) as usize).data_addr() == p
            &&& p + size <= at_addr(cl.cells@, (p - HEADER_SIZE) as usize).header.end_addr()
        } else {
            &&& contains_addr(self.head.cells@, (p - HEADER_SIZE) as usize)
            &&& at_addr(self.head.cells@, (p - HEADER_SIZE) as usize).header.alloc_bit()
            &&& at_addr(self.head.cells@, (p - HEADER_SIZE) as usize).data_addr() == p
            &&& p + size <= at_addr(
                self.head.cells@,
                (p - HEADER_SIZE) as usize,
            ).header.end_addr()
        }
    }

    /// All the allocator's laws.
    pub open spec fn wf(self) -> bool {
        &&& self.pages.wf()
        &&& self.head.wf(self.pages.frontier(), AllocPolicy::Large)
        &&& self.size_classes.wf(self.pages.frontier())
        &&& forall|p: usize| self.live@.dom().contains(p) ==> #[trigger] self.live_entry_wf(p)
    }

    /// The set of outstanding allocations, by data address.
    pub open spec fn live_view(self) -> Map<usize, (usize, usize)> {
        self.live@
    }

    /// The main free lists' laws carried to a larger frontier, for every
    /// size class.
    proof fn lemma_classes_mono(self, f1: int, f2: int)
        requires
            self.size_classes.wf(f1),
            f1 <= f2,
        ensures
            self.size_classes.wf(f2),
    {
        assert forall|k: int|
            0 <= k < NUM_SIZE_CLASSES implies (#[trigger] self.size_classes.lists@[k]).wf(
            f2,
            AllocPolicy::SizeClass((k + 1) as usize),
        ) by {
            assert(self.size_classes.lists@[k].wf(f1, AllocPolicy::SizeClass((k + 1) as usize)));
            crate::free_list::lemma_wf_frontier_mono(self.size_classes.lists@[k].cells@, f1, f2);
        }
    }

    /// The live-entry laws carried across an operation on one of the lists,
    /// given both tables preserve allocated cells.
    proof fn lemma_live_preserved(
        old_self: WeeAlloc,
        new_self: WeeAlloc,
        f_old: int,
        f_new: int,
    )
        requires
            old_self.wf(),
            new_self.pages.wf(),
            new_self.live@ == old_self.live@,
            f_old == old_self.pages.frontier(),
            f_new == new_self.pages.frontier(),
            crate::free_list::cells_wf(new_self.head.cells@, f_new),
            crate::free_list::alloc_xfer(old_self.head.cells@, new_self.head.cells@),
            new_self.size_classes.lists@.len() == NUM_SIZE_CLASSES,
            forall|k: int|
                0 <= k < NUM_SIZE_CLASSES ==> crate::free_list::cells_wf(
                    (#[trigger] new_self.size_classes.lists@[k]).cells@,
                    f_new,
                ) && crate::free_list::alloc_xfer(
                    old_self.size_classes.lists@[k].cells@,
                    new_self.size_classes.lists@[k].cells@,
                ),
        ensures
            forall|p: usize|
                new_self.live@.dom().contains(p) ==> #[trigger] new_self.live_entry_wf(p),
    {
        assert forall|p: usize|
            new_self.live@.dom().contains(p) implies #[trigger] new_self.live_entry_wf(p) by {
            assert(old_self.live_entry_wf(p));
            let (size, align) = old_self.live@[p];
            let w = words_for(size as int);
            let x = (p - HEADER_SIZE) as usize;
            if is_class_request(w, align as int) {
                assert(crate::free_list::cells_wf(
                    old_self.size_classes.lists@[w - 1].cells@,
                    f_old,
                )) by {
                    assert(old_self.size_classes.lists@[w - 1].wf(
                        f_old,
                        AllocPolicy::SizeClass(w as usize),
                    ));
                }
                crate::free_list::lemma_live_lookup(
                    old_self.size_classes.lists@[w - 1].cells@,
                    new_self.size_classes.lists@[w - 1].cells@,
                    x,
                    f_old,
                    f_new,
                );
            } else {
                crate::free_list::lemma_live_lookup(
                    old_self.head.cells@,
                    new_self.head.cells@,
                    x,
                    f_old,
                    f_new,
                );
            }
        }
    }

    /// Serve a request from the main free list, refilling it from the page
    /// source when first-fit finds nothing. Returns the data address; on
    /// failure (word-friendly alignments only when the budget truly cannot
    /// cover the refill) nothing is handed out.
    #[verifier::rlimit(100)]
    #[verifier::spinoff_prover]
    pub fn alloc_large(&mut self, size_bytes: usize, align: usize) -> (r: Option<usize>)
        requires
            old(self).wf(),
            8 <= size_bytes,
            size_bytes % 8 == 0,
            crate::bits::is_pow2(align),
        ensures
            final(self).wf(),
            final(self).live@ == old(self).live@,
            final(self).size_classes == old(self).size_classes,
            final(self).pages.limit() == old(self).pages.limit(),
            final(self).pages.offset() >= old(self).pages.offset(),
            final(self).pages.offset() <= old(self).pages.offset() + size_bytes + 2 * align + 2
                * LARGE_MIN_CELL_SIZE + HEADER_SIZE + crate::PAGE_SIZE,
            final(self).pages.offset() == old(self).pages.offset() || final(self).pages.offset()
                == old(self).pages.offset() + large_refill_bytes(size_bytes as int, align as int),
            crate::free_list::alloc_xfer(old(self).head.cells@, final(self).head.cells@),
            r is None ==> ((align > 16 && size_bytes + align + 4128 > crate::PAGE_SIZE)
                || size_bytes > crate::MAX_HEAP_BYTES || align > crate::MAX_HEAP_BYTES || (
            size_bytes + 2 * align + 2 * LARGE_MIN_CELL_SIZE + HEADER_SIZE
                + crate::PAGE_SIZE) as int > old(self).pages.limit() - old(
                self,
            ).pages.offset()),
            r is Some ==> {
                let ptr = r->0;
                let c = at_addr(final(self).head.cells@, (ptr - HEADER_SIZE) as usize);
                &&& ptr as int % align as int == 0
                &&& ptr % 8 == 0
                &&& ptr > crate::PAGE_SIZE
                &&& contains_addr(final(self).head.cells@, (ptr - HEADER_SIZE) as usize)
                &&& c.header.alloc_bit()
                &&& c.data_addr() == ptr
                &&& ptr + size_bytes <= c.header.end_addr()
                &&& c.header.end_addr() <= final(self).pages.frontier()
            },
    {
        let ghost entry = *old(self);
        let ghost f0 = self.pages.frontier();
        let r1: Option<usize> = self.head.alloc_first_fit(
            size_bytes,
            align,
            AllocPolicy::Large,
            Ghost(f0),
        );
        match r1 {
            Some(ptr) => {
                proof {
                    crate::free_list::lemma_xfer_refl(entry.size_classes.lists@[0].cells@);
                    assert forall|k: int|
                        0 <= k < NUM_SIZE_CLASSES implies crate::free_list::cells_wf(
                        (#[trigger] self.size_classes.lists@[k]).cells@,
                        f0,
                    ) && crate::free_list::alloc_xfer(
                        entry.size_classes.lists@[k].cells@,
                        self.size_classes.lists@[k].cells@,
                    ) by {
                        assert(entry.size_classes.lists@[k].wf(
                            f0,
                            AllocPolicy::SizeClass((k + 1) as usize),
                        ));
                        crate::free_list::lemma_xfer_refl(entry.size_classes.lists@[k].cells@);
                    }
                    Self::lemma_live_preserved(entry, *self, f0, f0);
                }
                return Some(ptr);
            },
            None => {},
        }
        if size_bytes > crate::MAX_HEAP_BYTES || align > crate::MAX_HEAP_BYTES {
            proof {
                Self::lemma_live_preserved_none(entry, *self, f0);
            }
            return None;
        }
        let min_for_align: usize = (align + LARGE_MIN_CELL_SIZE) * 2;
        let request: usize = (if size_bytes > min_for_align {
            size_bytes
        } else {
            min_for_align
        }) + HEADER_SIZE;
        let pages: usize = request / crate::PAGE_SIZE + (if request % crate::PAGE_SIZE != 0 {
            1
        } else {
            0
        });
        let r2: Option<usize> = self.pages.alloc_pages(pages);
        match r2 {
            None => {
                proof {
                    Self::lemma_live_preserved_none(entry, *self, f0);
                    // Not even the pages for the request fit the budget.
                    let pi = crate::PAGE_SIZE as int;
                    vstd::arithmetic::div_mod::lemma_fundamental_div_mod(request as int, pi);
                    assert(pages * pi >= request && pages * pi <= request + pi) by (
                    nonlinear_arith)
                        requires
                            pages == request as int / pi + (if request as int % pi != 0 {
                                1int
                            } else {
                                0int
                            }),
                            request == pi * (request as int / pi) + request as int % pi,
                            0 <= request as int % pi < pi,
                            pi > 0;
                }
                return None;
            },
            Some(block) => {
                let ghost pre = self.head.cells@;
                let ghost pre_head = self.head.head;
                let ghost pre_order = self.head.order@;
                let ghost f1 = self.pages.frontier();
                let grown: usize = pages * crate::PAGE_SIZE;
                let end: usize = block + grown;
                proof {
                    crate::bits::lemma_pow2_small();
                    crate::bits::lemma_block_align(block, 8);
                    assert(end as int == f1);
                    assert(end as int % crate::PAGE_SIZE as int == 0) by {
                        vstd::arithmetic::div_mod::lemma_add_mod_noop(
                            block as int,
                            grown as int,
                            crate::PAGE_SIZE as int,
                        );
                        vstd::arithmetic::div_mod::lemma_mod_multiples_basic(
                            pages as int,
                            crate::PAGE_SIZE as int,
                        );
                    }
                    crate::bits::lemma_block_align(end, 8);
                    let pi = crate::PAGE_SIZE as int;
                    let q = request as int / pi;
                    let rr = request as int % pi;
                    vstd::arithmetic::div_mod::lemma_fundamental_div_mod(request as int, pi);
                    assert((rr == 0 && pages >= q) || pages >= q + 1);
                    assert(grown >= request && grown <= request + pi) by (nonlinear_arith)
                        requires
                            grown == pages * pi,
                            request == pi * q + rr,
                            0 <= rr < pi,
                            pages == q + (if rr != 0 { 1int } else { 0int }),
                            (rr == 0 && pages >= q) || pages >= q + 1,
                            pi > 0;
                }
                let mut c: FreeCell = FreeCell::from_uninitialized(block, end, 0);
                c.header.set_next_cell_is_invalid();
                proof {
                    crate::free_list::lemma_wf_frontier_mono(pre, f0, f1);
                    crate::bits::lemma_aligned_no_tags(0);
                    assert(c.wf(f1));
                    assert forall|j: int|
                        0 <= j < pre.len() implies (#[trigger] pre[j]).header.end_addr() <= c.addr
                        || c.header.end_addr() <= (pre[j]).addr by {
                        crate::free_list::lemma_cell_wf(pre, f0, j);
                    }
                    crate::free_list::lemma_append_cell(pre, pre_head, pre_order, c, f1, true);
                }
                let li: usize = self.head.cells.len();
                self.head.cells.push(c);
                proof {
                    assert(self.head.cells@ =~= pre.push(c));
                    assert(crate::free_list::class_sized(self.head.cells@, AllocPolicy::Large))
                        by {
                        reveal(crate::free_list::class_sized);
                    }
                }
                self.head.push_front(li, AllocPolicy::Large, Ghost(f1));
                let ghost mid = self.head.cells@;
                proof {
                    // The block cell is free: nothing allocated moved.
                    assert forall|j: int|
                        0 <= j < pre.len() && (#[trigger] pre[j]).header.alloc_bit() implies
                        exists|j2: int|
                        0 <= j2 < mid.len() && (#[trigger] mid[j2]).addr == pre[j].addr && mid[
                        j2].header.end_addr() == pre[j].header.end_addr()
                        && mid[j2].header.alloc_bit() by {
                        assert(0 <= j < mid.len() && mid[j].addr == pre[j].addr && mid[
                            j].header.end_addr() == pre[j].header.end_addr() && mid[
                            j].header.alloc_bit());
                    }
                    assert forall|j2: int|
                        0 <= j2 < mid.len() && (#[trigger] mid[j2]).header.alloc_bit() implies
                        exists|j: int|
                        0 <= j < pre.len() && (#[trigger] pre[j]).addr == mid[j2].addr && pre[
                        j].header.end_addr() == mid[j2].header.end_addr()
                        && pre[j].header.alloc_bit() by {
                        assert(j2 != li);
                        assert(0 <= j2 < pre.len() && pre[j2].addr == mid[j2].addr && pre[
                            j2].header.end_addr() == mid[j2].header.end_addr() && pre[
                            j2].header.alloc_bit());
                    }
                }
                let r3: Option<usize> = self.head.alloc_first_fit(
                    size_bytes,
                    align,
                    AllocPolicy::Large,
                    Ghost(f1),
                );
                proof {
                    crate::free_list::lemma_xfer_trans(entry.head.cells@, pre, mid);
                    crate::free_list::lemma_xfer_trans(entry.head.cells@, mid, self.head.cells@);
                    assert forall|k: int|
                        0 <= k < NUM_SIZE_CLASSES implies crate::free_list::cells_wf(
                        (#[trigger] self.size_classes.lists@[k]).cells@,
                        f1,
                    ) && crate::free_list::alloc_xfer(
                        entry.size_classes.lists@[k].cells@,
                        self.size_classes.lists@[k].cells@,
                    ) by {
                        assert(entry.size_classes.lists@[k].wf(
                            f0,
                            AllocPolicy::SizeClass((k + 1) as usize),
                        ));
                        crate::free_list::lemma_wf_frontier_mono(
                            entry.size_classes.lists@[k].cells@,
                            f0,
                            f1,
                        );
                        crate::free_list::lemma_xfer_refl(entry.size_classes.lists@[k].cells@);
                    }
                    Self::lemma_live_preserved(entry, *self, f0, f1);
                }
                match r3 {
                    Some(ptr) => Some(ptr),
                    None => {
                        proof {
                            crate::free_list::lemma_at_addr(mid, f1, li as int);
                            crate::free_list::lemma_head_aligned(
                                pre,
                                pre_head,
                                pre_order,
                                true,
                                f1,
                            );
                            crate::bits::lemma_aligned_no_tags(pre_head);
                            assert(mid[li as int].addr == block);
                            assert(!at_addr(mid, block).can_merge());
                            assert(at_addr(mid, block).size_bytes() >= size_bytes);
                            if align <= 16 {
                                // The freshly pushed block cell fits, is
                                // unmarked, and its data lies on the
                                // requested boundary: the retry cannot have
                                // failed.
                                crate::bits::lemma_block_align(block, align);
                                assert(at_addr(mid, block).data_addr() % align as int == 0);
                                assert(false);
                            } else if size_bytes + align + 4128 <= crate::PAGE_SIZE {
                                // For a wider boundary the request is small
                                // against a whole page, so the block's tail
                                // splits at the boundary with the minimum
                                // cell to spare: the retry cannot have
                                // failed either.
                                let c = at_addr(mid, block);
                                assert(c.header.end_addr() == end);
                                assert(pages >= 1);
                                assert(grown >= crate::PAGE_SIZE) by (nonlinear_arith)
                                    requires
                                        grown == pages * crate::PAGE_SIZE,
                                        pages >= 1;
                                assert(end - block >= crate::PAGE_SIZE);
                                let y = c.header.end_addr() - size_bytes;
                                assert(y >= 0);
                                assert(y % 8 == 0);
                                crate::bits::lemma_down_align(y, align);
                                assert(y - y % align as int >= y - align + 1);
                                assert(c.data_addr() + HEADER_SIZE + LARGE_MIN_CELL_SIZE <= y
                                    - y % align as int);
                                assert(false);
                            }
                        }
                        None
                    },
                }
            },
        }
    }

    /// Live entries survive an operation that did not change the allocated
    /// cells of any list.
    proof fn lemma_live_preserved_none(old_self: WeeAlloc, new_self: WeeAlloc, f0: int)
        requires
            old_self.wf(),
            new_self.pages.wf(),
            new_self.live@ == old_self.live@,
            f0 == old_self.pages.frontier(),
            f0 == new_self.pages.frontier(),
            crate::free_list::cells_wf(new_self.head.cells@, f0),
            crate::free_list::alloc_xfer(old_self.head.cells@, new_self.head.cells@),
            new_self.size_classes == old_self.size_classes,
        ensures
            forall|p: usize|
                new_self.live@.dom().contains(p) ==> #[trigger] new_self.live_entry_wf(p),
    {
        assert forall|k: int|
            0 <= k < NUM_SIZE_CLASSES implies crate::free_list::cells_wf(
            (#[trigger] new_self.size_classes.lists@[k]).cells@,
            f0,
        ) && crate::free_list::alloc_xfer(
            old_self.size_classes.lists@[k].cells@,
            new_self.size_classes.lists@[k].cells@,
        ) by {
            assert(old_self.size_classes.lists@[k].wf(
                f0,
                AllocPolicy::SizeClass((k + 1) as usize),
            ));
            crate::free_list::lemma_xfer_refl(old_self.size_classes.lists@[k].cells@);
        }
        Self::lemma_live_preserved(old_self, new_self, f0, f0);
    }

    /// Refill size class `k` (words): take one chunk from the main list and
    /// carve it into cells of exactly `k` words, pushing each onto the
    /// class's free list. Departing from the chunk-wide chain the design
    /// sketches, each carved cell is block-final in the model: the
    /// class lists never merge or split, so they never walk the physical
    /// chain between their cells. Returns the number of cells carved, enough
    /// to amortize the refill over `k` plus header-words allocations — that
    /// yield is this contract's penultimate clause.
    #[verifier::rlimit(100)]
    #[verifier::spinoff_prover]
    pub fn class_refill(&mut self, k: usize) -> (r: Option<usize>)
        requires
            old(self).wf(),
            1 <= k <= 256,
        ensures
            final(self).wf(),
            final(self).live@ == old(self).live@,
            final(self).pages.limit() == old(self).pages.limit(),
            r is Some ==> r->0 >= k + 2 && final(self).size_classes.lists@[k - 1].order@.len()
                >= r->0,
            r is None ==> 2 * chunk_bytes_for(k as int) + 2 * crate::PAGE_SIZE + 8240 > old(
                self,
            ).pages.limit() - old(self).pages.offset(),
            final(self).pages.offset() <= old(self).pages.offset() + 2 * chunk_bytes_for(
                k as int,
            ) + 2 * crate::PAGE_SIZE + 8240,
    {
        let ghost entry = *old(self);
        proof {
            assert((k + 2) * (k + 2) <= 258 * 258) by (nonlinear_arith)
                requires 1 <= k <= 256;
        }
        let stride: usize = (k + 2) * 8;
        let cw: usize = if (k + 2) * (k + 2) > 1024 {
            (k + 2) * (k + 2)
        } else {
            1024
        };
        let chunk_bytes: usize = cw * 8;
        proof {
            crate::bits::lemma_pow2_small();
            assert(chunk_bytes % 8 == 0 && chunk_bytes >= 8) by (nonlinear_arith)
                requires chunk_bytes == cw * 8, cw >= 1024;
        }
        let got: Option<usize> = self.alloc_large(chunk_bytes, 8);
        let mut p: usize;
        match got {
            None => {
                return None;
            },
            Some(p0) => {
                p = p0;
            },
        }
        let m: usize = chunk_bytes / stride;
        let ghost mut f1 = self.pages.frontier();
        let ghost mut mid = *self;
        proof {
            let ki = k as int;
            let cbi = chunk_bytes as int;
            let si = stride as int;
            vstd::arithmetic::div_mod::lemma_fundamental_div_mod(cbi, si);
            assert(m >= ki + 2 && m * si <= cbi && m >= 1) by (nonlinear_arith)
                requires
                    m == cbi / si,
                    si == (ki + 2) * 8,
                    cbi == cw * 8,
                    cw >= (ki + 2) * (ki + 2),
                    cw >= 1024,
                    1 <= ki <= 256,
                    cbi == si * (cbi / si) + cbi % si,
                    0 <= cbi % si < si;
        }
        let ghost mut run_end = p + m * stride;
        proof {
            // The whole run lies inside the chunk's cell, below the frontier.
            let c0 = at_addr(self.head.cells@, (p - HEADER_SIZE) as usize);
            assert(run_end <= c0.header.end_addr() && c0.header.end_addr() <= f1);
            assert(f1 <= crate::PAGE_SIZE + crate::MAX_HEAP_BYTES);
        }
        let ci_idx: usize = k - 1;
        // The carved run must not overlap any cell the class already holds.
        // The chunk is fresh memory from the main list, so this never
        // fires; the walk makes it a checked fact rather than a believed
        // one.
        let rr: usize = m * stride;
        let re: usize = p + rr;
        let cl_len: usize = {
            let cl = vstd::std_specs::vec::vec_index(&self.size_classes.lists, ci_idx);
            cl.cells.len()
        };
        let mut idx: usize = 0;
        let mut clean: bool = true;
        loop
            invariant
                idx <= cl_len,
                1 <= k <= 256,
                ci_idx == k - 1,
                re == run_end,
                entry == *old(self),
                *self == mid,
                mid.wf(),
                mid.live@ == entry.live@,
                mid.pages.limit() == entry.pages.limit(),
                self.size_classes.lists@.len() == NUM_SIZE_CLASSES,
                cl_len == self.size_classes.lists@[ci_idx as int].cells@.len(),
                clean ==> forall|t: int|
                    0 <= t < idx ==> (#[trigger]
                    self.size_classes.lists@[ci_idx as int].cells@[t]).header.end_addr() <= p
                        || run_end <= self.size_classes.lists@[ci_idx as int].cells@[t].addr,
            ensures
                *self == mid,
                clean ==> forall|t: int|
                    0 <= t < self.size_classes.lists@[ci_idx as int].cells@.len() ==> (#[trigger]
                    self.size_classes.lists@[ci_idx as int].cells@[t]).header.end_addr() <= p
                        || run_end <= self.size_classes.lists@[ci_idx as int].cells@[t].addr,
            decreases cl_len - idx,
        {
            if idx == cl_len {
                break;
            }
            let (ca0, ce0): (usize, usize) = {
                let cl = vstd::std_specs::vec::vec_index(&self.size_classes.lists, ci_idx);
                let cc = &cl.cells[idx];
                (cc.addr, cc.header.neighbors.next_unchecked())
            };
            if !(ce0 <= p || re <= ca0) {
                clean = false;
            }
            idx = idx + 1;
        }
        if !clean {
            // The chunk from the main list seemed to overlap this class's
            // cells — never so in fact, but rather than believe it, take a
            // run of wholly fresh pages past the frontier instead.
            let pages2: usize = chunk_bytes / crate::PAGE_SIZE + (if chunk_bytes
                % crate::PAGE_SIZE != 0 {
                1
            } else {
                0
            });
            let ghost consumed = self.pages.offset() - entry.pages.offset();
            let got2: Option<usize> = self.pages.alloc_pages(pages2);
            match got2 {
                None => {
                    proof {
                        let pi = crate::PAGE_SIZE as int;
                        vstd::arithmetic::div_mod::lemma_fundamental_div_mod(
                            chunk_bytes as int,
                            pi,
                        );
                        assert(pages2 * pi <= chunk_bytes + pi) by (nonlinear_arith)
                            requires
                                pages2 == chunk_bytes as int / pi + (if chunk_bytes as int % pi
                                    != 0 {
                                    1int
                                } else {
                                    0int
                                }),
                                chunk_bytes == pi * (chunk_bytes as int / pi) + chunk_bytes as int
                                    % pi,
                                0 <= chunk_bytes as int % pi < pi,
                                pi > 0;
                        assert(2 * chunk_bytes + 2 * crate::PAGE_SIZE + 8240 > entry.pages.limit()
                            - entry.pages.offset());
                    }
                    return None;
                },
                Some(b) => {
                    let ghost f2 = self.pages.frontier();
                    proof {
                        let pi = crate::PAGE_SIZE as int;
                        vstd::arithmetic::div_mod::lemma_fundamental_div_mod(
                            chunk_bytes as int,
                            pi,
                        );
                        assert(pages2 * pi >= chunk_bytes) by (nonlinear_arith)
                            requires
                                pages2 == chunk_bytes as int / pi + (if chunk_bytes as int % pi
                                    != 0 {
                                    1int
                                } else {
                                    0int
                                }),
                                chunk_bytes == pi * (chunk_bytes as int / pi) + chunk_bytes as int
                                    % pi,
                                0 <= chunk_bytes as int % pi < pi,
                                pi > 0;
                        crate::bits::lemma_pow2_small();
                        crate::bits::lemma_block_align(b, 8);
                        crate::free_list::lemma_wf_frontier_mono(mid.head.cells@, f1, f2);
                        mid.lemma_classes_mono(f1, f2);
                        assert(self.head.wf(f2, AllocPolicy::Large));
                        assert(self.size_classes.wf(f2));
                        assert forall|q2: usize|
                            self.live@.dom().contains(q2) implies #[trigger] self.live_entry_wf(
                            q2,
                        ) by {
                            assert(mid.live_entry_wf(q2));
                        }
                        assert(self.wf());
                    }
                    p = b;
                    proof {
                        f1 = f2;
                        run_end = p + m * stride;
                        mid = *self;
                        // Every cell of every list ends below the old
                        // frontier, where the fresh run begins.
                        assert forall|t: int|
                            0 <= t < self.size_classes.lists@[ci_idx as int].cells@.len() implies (
                            #[trigger] self.size_classes.lists@[ci_idx as int].cells@[
                            t]).header.end_addr() <= p by {
                            crate::free_list::lemma_cell_wf(
                                self.size_classes.lists@[ci_idx as int].cells@,
                                b as int,
                                t,
                            );
                        }
                        assert(run_end <= f1);
                    }
                },
            }
        }
        // Carve, pushing each fresh cell straight onto the class list.
        let mut j: usize = 0;
        loop
            invariant
                j <= m,
                m >= k + 2,
                1 <= k <= 256,
                ci_idx == k - 1,
                entry == *old(self),
                stride == (k + 2) * 8,
                m * stride <= chunk_bytes,
                p % 8 == 0,
                p > crate::PAGE_SIZE,
                p + m * stride <= f1,
                run_end == p + m * stride,
                f1 == self.pages.frontier(),
                self.pages.wf(),
                self.head == mid.head,
                self.pages == mid.pages,
                self.live@ == entry.live@,
                mid.wf(),
                self.size_classes.lists@.len() == NUM_SIZE_CLASSES,
                forall|t: int|
                    0 <= t < NUM_SIZE_CLASSES && t != ci_idx ==> #[trigger]
                    self.size_classes.lists@[t] == mid.size_classes.lists@[t],
                self.size_classes.lists@[ci_idx as int].wf(f1, AllocPolicy::SizeClass(k)),
                self.size_classes.lists@[ci_idx as int].order@.len()
                    >= mid.size_classes.lists@[ci_idx as int].order@.len() + j,
                crate::free_list::alloc_xfer(
                    mid.size_classes.lists@[ci_idx as int].cells@,
                    self.size_classes.lists@[ci_idx as int].cells@,
                ),
                forall|t: int|
                    0 <= t < self.size_classes.lists@[ci_idx as int].cells@.len() ==> (#[trigger]
                    self.size_classes.lists@[ci_idx as int].cells@[t]).header.end_addr()
                        <= p + j * stride || run_end
                        <= self.size_classes.lists@[ci_idx as int].cells@[t].addr,
            ensures
                j == m,
                self.pages == mid.pages,
                self.head == mid.head,
                self.live@ == entry.live@,
                self.size_classes.lists@.len() == NUM_SIZE_CLASSES,
                forall|t: int|
                    0 <= t < NUM_SIZE_CLASSES && t != ci_idx ==> #[trigger]
                    self.size_classes.lists@[t] == mid.size_classes.lists@[t],
                self.size_classes.lists@[ci_idx as int].wf(f1, AllocPolicy::SizeClass(k)),
                self.size_classes.lists@[ci_idx as int].order@.len()
                    >= mid.size_classes.lists@[ci_idx as int].order@.len() + m,
                crate::free_list::alloc_xfer(
                    mid.size_classes.lists@[ci_idx as int].cells@,
                    self.size_classes.lists@[ci_idx as int].cells@,
                ),
            decreases m - j,
        {
            if j == m {
                break;
            }
            let ghost pre_cl = self.size_classes.lists@[ci_idx as int];
            proof {
                let ji = j as int;
                let si = stride as int;
                assert(0 <= ji * si && ji * si + si <= m * si) by (nonlinear_arith)
                    requires
                        0 <= ji < m,
                        si > 0;
            }
            let ca: usize = p + j * stride;
            let ce: usize = ca + stride;
            proof {
                let ji = j as int;
                let si = stride as int;
                assert(ca + stride == p + (ji + 1) * si && (ji + 1) * si <= m * si && ji * si
                    >= 0 && ji * si + si <= m * si) by (nonlinear_arith)
                    requires
                        ca == p + ji * si,
                        stride == si,
                        0 <= ji,
                        ji + 1 <= m,
                        si > 0;
                assert(ca % 8 == 0 && ce % 8 == 0) by {
                    vstd::arithmetic::div_mod::lemma_mod_multiples_basic(ji * (si / 8), 8);
                    assert(ji * si == 8 * (ji * (si / 8))) by (nonlinear_arith)
                        requires si == (k + 2) * 8, si / 8 == k + 2;
                    vstd::arithmetic::div_mod::lemma_add_mod_noop(p as int, ji * si, 8);
                    vstd::arithmetic::div_mod::lemma_mod_multiples_basic(
                        (ji + 1) * (si / 8),
                        8,
                    );
                    assert((ji + 1) * si == 8 * ((ji + 1) * (si / 8))) by (nonlinear_arith)
                        requires si == (k + 2) * 8, si / 8 == k + 2;
                    vstd::arithmetic::div_mod::lemma_add_mod_noop(p as int, (ji + 1) * si, 8);
                }
            }
            let mut c: FreeCell = FreeCell::from_uninitialized(ca, ce, 0);
            c.header.set_next_cell_is_invalid();
            proof {
                crate::bits::lemma_aligned_no_tags(0);
                assert(c.wf(f1));
                assert forall|t: int|
                    0 <= t < pre_cl.cells@.len() implies (#[trigger]
                pre_cl.cells@[t]).header.end_addr() <= c.addr || c.header.end_addr()
                    <= pre_cl.cells@[t].addr by {}
                crate::free_list::lemma_append_cell(
                    pre_cl.cells@,
                    pre_cl.head,
                    pre_cl.order@,
                    c,
                    f1,
                    false,
                );
            }
            let li: usize = {
                let cl = vstd::std_specs::vec::vec_index(&self.size_classes.lists, ci_idx);
                cl.cells.len()
            };
            {
                let cl = vstd::std_specs::vec::vec_index_mut(
                    &mut self.size_classes.lists,
                    ci_idx,
                );
                cl.cells.push(c);
                proof {
                    assert(cl.cells@ =~= pre_cl.cells@.push(c));
                    assert(crate::free_list::class_sized(
                        cl.cells@,
                        AllocPolicy::SizeClass(k),
                    )) by {
                        reveal(crate::free_list::class_sized);
                        assert forall|t: int| 0 <= t < cl.cells@.len() implies (#[trigger]
                        cl.cells@[t]).size_bytes() == k * 8 by {
                            if t < pre_cl.cells@.len() {
                                assert(pre_cl.cells@[t].size_bytes() == k * 8) by {
                                    assert(pre_cl.wf(f1, AllocPolicy::SizeClass(k)));
                                }
                            } else {
                                assert(cl.cells@[t] == c);
                                assert(c.size_bytes() == ce - ca - HEADER_SIZE == k * 8) by (
                                nonlinear_arith)
                                    requires
                                        c.header.end_addr() == ce,
                                        c.addr == ca,
                                        c.data_addr() == ca + HEADER_SIZE,
                                        c.size_bytes() == ce - ca - HEADER_SIZE,
                                        ce == ca + stride,
                                        stride == (k + 2) * 8,
                                        HEADER_SIZE == 16;
                            }
                        }
                    }
                }
                cl.push_front(li, AllocPolicy::SizeClass(k), Ghost(f1));
            }
            proof {
                let cur = self.size_classes.lists@[ci_idx as int];
                assert(cur.wf(f1, AllocPolicy::SizeClass(k)));
                // Handed-out class cells kept their place: the new cell is
                // free, everything else is untouched but for one list word.
                assert forall|t: int|
                    0 <= t < pre_cl.cells@.len() && (#[trigger]
                pre_cl.cells@[t]).header.alloc_bit() implies exists|t2: int|
                    0 <= t2 < cur.cells@.len() && (#[trigger] cur.cells@[t2]).addr
                        == pre_cl.cells@[t].addr && cur.cells@[t2].header.end_addr()
                        == pre_cl.cells@[t].header.end_addr()
                        && cur.cells@[t2].header.alloc_bit() by {
                    assert(0 <= t < cur.cells@.len() && cur.cells@[t].addr == pre_cl.cells@[
                        t].addr && cur.cells@[t].header.end_addr() == pre_cl.cells@[
                        t].header.end_addr() && cur.cells@[t].header.alloc_bit());
                }
                crate::free_list::lemma_xfer_trans(
                    mid.size_classes.lists@[ci_idx as int].cells@,
                    pre_cl.cells@,
                    cur.cells@,
                );
            }
            j = j + 1;
        }
        proof {
            assert forall|t: int|
                0 <= t < NUM_SIZE_CLASSES implies crate::free_list::cells_wf(
                (#[trigger] self.size_classes.lists@[t]).cells@,
                f1,
            ) && crate::free_list::alloc_xfer(
                mid.size_classes.lists@[t].cells@,
                self.size_classes.lists@[t].cells@,
            ) by {
                if t == ci_idx {
                    assert(self.size_classes.lists@[t].wf(f1, AllocPolicy::SizeClass(k)));
                } else {
                    assert(mid.size_classes.lists@[t].wf(
                        f1,
                        AllocPolicy::SizeClass((t + 1) as usize),
                    ));
                    crate::free_list::lemma_xfer_refl(mid.size_classes.lists@[t].cells@);
                }
            }
            crate::free_list::lemma_xfer_refl(mid.head.cells@);
            Self::lemma_live_preserved(mid, *self, f1, f1);
            assert(self.size_classes.wf(f1)) by {
                assert forall|t: int|
                    0 <= t < NUM_SIZE_CLASSES implies (#[trigger] self.size_classes.lists@[
                t]).wf(f1, AllocPolicy::SizeClass((t + 1) as usize)) by {
                    if t != ci_idx {
                        assert(self.size_classes.lists@[t] == mid.size_classes.lists@[t]);
                    }
                }
            }
        }
        Some(m)
    }

    /// Serve an allocation request: `size` bytes at alignment `align` (a
    /// power of two; zero is taken as one). Returns the data address, the
    /// alignment itself as the non-null sentinel for zero-size requests, or
    /// null on failure — in particular whenever the size overflows on
    /// rounding up to words.
    #[verifier::rlimit(100)]
    #[verifier::spinoff_prover]
    pub fn alloc_impl(&mut self, size: usize, align: usize) -> (r: usize)
        requires
            old(self).wf(),
            align == 0 || crate::bits::is_pow2(align),
        ensures
            final(self).wf(),
            size == 0 ==> r == (if align == 0 {
                1usize
            } else {
                align
            }) && *final(self) == *old(self),
            size > usize::MAX - 7 ==> r == 0 && *final(self) == *old(self),
            size > 0 && r != 0 ==> r as int % (if align == 0 {
                1int
            } else {
                align as int
            }) == 0 && r % 8 == 0 && final(self).live@ == old(self).live@.insert(
                r,
                (size, align),
            ),
            size > 0 && r == 0 ==> final(self).live@ == old(self).live@,
            final(self).pages.limit() == old(self).pages.limit(),
            (size > 0 && size <= usize::MAX - 7 && ((if align == 0 {
                1int
            } else {
                align as int
            }) <= 16 || words_for(size as int) * 8 + (if align == 0 {
                1int
            } else {
                align as int
            }) + 4128 <= crate::PAGE_SIZE) && needed_bytes(size as int, align as int) <= old(
                self,
            ).pages.limit() - old(self).pages.offset()) ==> r != 0,
            size > 0 ==> final(self).pages.offset() <= old(self).pages.offset() + needed_bytes(
                size as int,
                align as int,
            ),
    {
        let ghost entry = *old(self);
        let ghost enough = size > 0 && size <= usize::MAX - 7 && ((if align == 0 {
            1int
        } else {
            align as int
        }) <= 16 || words_for(size as int) * 8 + (if align == 0 {
            1int
        } else {
            align as int
        }) + 4128 <= crate::PAGE_SIZE) && needed_bytes(size as int, align as int)
            <= entry.pages.limit() - entry.pages.offset();
        let a: usize = if align == 0 {
            1
        } else {
            align
        };
        proof {
            crate::bits::lemma_pow2_small();
        }
        if size == 0 {
            // The sentinel: a non-null, correctly aligned made-up address,
            // whose deallocation is a no-op.
            return a;
        }
        if size > usize::MAX - 7 {
            return 0;
        }
        let words: usize = size / 8 + (if size % 8 != 0 {
            1
        } else {
            0
        });
        proof {
            vstd::arithmetic::div_mod::lemma_fundamental_div_mod(size as int, 8);
            assert(words == words_for(size as int));
            assert(words * 8 <= size + 7 && words * 8 >= size && words >= 1) by (
            nonlinear_arith)
                requires
                    words == size as int / 8 + (if size as int % 8 != 0 {
                        1int
                    } else {
                        0int
                    }),
                    size == 8 * (size as int / 8) + size as int % 8,
                    0 <= size as int % 8 < 8,
                    size >= 1;
        }
        let sb: usize = words * 8;
        let ghost f0 = self.pages.frontier();
        if a <= 8 && words <= 256 {
            // A size-class request: the class of exactly `words` words.
            let k: usize = words;
            let attempt: Option<usize> = {
                let cl = vstd::std_specs::vec::vec_index_mut(
                    &mut self.size_classes.lists,
                    k - 1,
                );
                proof {
                    assert(entry.size_classes.lists@[k - 1].wf(f0, AllocPolicy::SizeClass(k)));
                }
                cl.alloc_first_fit(sb, a, AllocPolicy::SizeClass(k), Ghost(f0))
            };
            match attempt {
                Some(ptr) => {
                    proof {
                        self.live = Ghost(entry.live@.insert(ptr, (size, align)));
                        Self::lemma_class_alloc_ok(entry, *self, f0, k - 1, ptr, size, align);
                    }
                    return ptr;
                },
                None => {},
            }
            proof {
                Self::lemma_class_none_ok(entry, *self, f0, k - 1);
            }
            let refilled: Option<usize> = self.class_refill(k);
            match refilled {
                None => {
                    proof {
                        if enough {
                            assert(needed_bytes(size as int, align as int) == 2
                                * chunk_bytes_for(k as int) + 2 * crate::PAGE_SIZE + 8240);
                            assert(false);
                        }
                    }
                    return 0;
                },
                Some(_) => {},
            }
            let ghost mid = *self;
            let ghost f1 = self.pages.frontier();
            let attempt2: Option<usize> = {
                let cl = vstd::std_specs::vec::vec_index_mut(
                    &mut self.size_classes.lists,
                    k - 1,
                );
                proof {
                    assert(mid.size_classes.lists@[k - 1].wf(f1, AllocPolicy::SizeClass(k)));
                }
                cl.alloc_first_fit(sb, a, AllocPolicy::SizeClass(k), Ghost(f1))
            };
            match attempt2 {
                Some(ptr) => {
                    proof {
                        self.live = Ghost(mid.live@.insert(ptr, (size, align)));
                        Self::lemma_class_alloc_ok(mid, *self, f1, k - 1, ptr, size, align);
                    }
                    ptr
                },
                None => {
                    proof {
                        Self::lemma_class_none_ok(mid, *self, f1, k - 1);
                        // The refill just stocked the list: this cannot be.
                        assert(false);
                    }
                    0
                },
            }
        } else {
            let got: Option<usize> = self.alloc_large(sb, a);
            proof {
                if enough && got is None {
                    assert(needed_bytes(size as int, align as int) == words_for(size as int) * 8
                        + 2 * (if align == 0 {
                        1int
                    } else {
                        align as int
                    }) + 2 * LARGE_MIN_CELL_SIZE + HEADER_SIZE + crate::PAGE_SIZE);
                    assert(sb == words_for(size as int) * 8);
                    assert(false);
                }
            }
            match got {
                Some(ptr) => {
                    proof {
                        let ghost mid2 = *self;
                        self.live = Ghost(entry.live@.insert(ptr, (size, align)));
                        assert forall|p: usize|
                            self.live@.dom().contains(p) implies #[trigger] self.live_entry_wf(
                            p,
                        ) by {
                            if p == ptr {
                                assert(!is_class_request(
                                    words_for(size as int),
                                    align as int,
                                ));
                                let cs = self.head.cells@;
                                let f2 = self.pages.frontier();
                                let ii = crate::free_list::idx_at(
                                    cs,
                                    (ptr - HEADER_SIZE) as usize,
                                );
                                assert(cs[ii].addr == ptr - HEADER_SIZE);
                                crate::free_list::lemma_cell_wf(cs, f2, ii);
                                assert(ptr >= crate::PAGE_SIZE + HEADER_SIZE);
                                assert(self.live_entry_wf(p));
                            } else {
                                assert(mid2.live_entry_wf(p));
                                assert(mid2.live@[p] == self.live@[p]);
                            }
                        }
                    }
                    ptr
                },
                None => 0,
            }
        }
    }

    /// A successful size-class allocation keeps every law once the new
    /// address is recorded live.
    #[verifier::rlimit(100)]
    proof fn lemma_class_alloc_ok(
        pre: WeeAlloc,
        post: WeeAlloc,
        f0: int,
        ci: int,
        ptr: usize,
        size: usize,
        align: usize,
    )
        requires
            pre.wf(),
            0 <= ci < NUM_SIZE_CLASSES,
            post.pages == pre.pages,
            post.head == pre.head,
            f0 == pre.pages.frontier(),
            post.size_classes.lists@.len() == NUM_SIZE_CLASSES,
            forall|t: int|
                0 <= t < NUM_SIZE_CLASSES && t != ci ==> #[trigger] post.size_classes.lists@[t]
                    == pre.size_classes.lists@[t],
            post.size_classes.lists@[ci].wf(f0, AllocPolicy::SizeClass((ci + 1) as usize)),
            crate::free_list::alloc_xfer(
                pre.size_classes.lists@[ci].cells@,
                post.size_classes.lists@[ci].cells@,
            ),
            post.live@ == pre.live@.insert(ptr, (size, align)),
            size >= 1,
            words_for(size as int) == ci + 1,
            is_class_request((ci + 1) as int, align as int),
            ptr > crate::PAGE_SIZE,
            ptr % 8 == 0,
            contains_addr(post.size_classes.lists@[ci].cells@, (ptr - HEADER_SIZE) as usize),
            at_addr(
                post.size_classes.lists@[ci].cells@,
                (ptr - HEADER_SIZE) as usize,
            ).header.alloc_bit(),
            at_addr(
                post.size_classes.lists@[ci].cells@,
                (ptr - HEADER_SIZE) as usize,
            ).data_addr() == ptr,
            ptr + (ci + 1) * 8 <= at_addr(
                post.size_classes.lists@[ci].cells@,
                (ptr - HEADER_SIZE) as usize,
            ).header.end_addr(),
        ensures
            post.wf(),
    {
        assert(post.size_classes.wf(f0)) by {
            assert forall|t: int|
                0 <= t < NUM_SIZE_CLASSES implies (#[trigger] post.size_classes.lists@[t]).wf(
                f0,
                AllocPolicy::SizeClass((t + 1) as usize),
            ) by {
                if t != ci {
                    assert(pre.size_classes.lists@[t].wf(
                        f0,
                        AllocPolicy::SizeClass((t + 1) as usize),
                    ));
                }
            }
        }
        assert forall|p: usize|
            post.live@.dom().contains(p) implies #[trigger] post.live_entry_wf(p) by {
            if p == ptr {
                assert(size <= (ci + 1) * 8) by (nonlinear_arith)
                    requires words_for(size as int) == ci + 1, size >= 1, 0 <= ci;
                let cs = post.size_classes.lists@[ci].cells@;
                let ii = crate::free_list::idx_at(cs, (ptr - HEADER_SIZE) as usize);
                assert(cs[ii].addr == ptr - HEADER_SIZE);
                crate::free_list::lemma_cell_wf(cs, f0, ii);
                assert(ptr >= crate::PAGE_SIZE + HEADER_SIZE);
                assert(post.live_entry_wf(p));
            } else {
                assert(pre.live_entry_wf(p));
                let (sz, al) = pre.live@[p];
                let w = words_for(sz as int);
                let x = (p - HEADER_SIZE) as usize;
                if is_class_request(w, al as int) {
                    if w - 1 == ci {
                        assert(crate::free_list::cells_wf(
                            pre.size_classes.lists@[ci].cells@,
                            f0,
                        )) by {
                            assert(pre.size_classes.lists@[ci].wf(
                                f0,
                                AllocPolicy::SizeClass((ci + 1) as usize),
                            ));
                        }
                        crate::free_list::lemma_live_lookup(
                            pre.size_classes.lists@[ci].cells@,
                            post.size_classes.lists@[ci].cells@,
                            x,
                            f0,
                            f0,
                        );
                    }
                }
                assert(post.live_entry_wf(p));
            }
        }
    }

    /// A failed size-class attempt leaves every law standing.
    proof fn lemma_class_none_ok(pre: WeeAlloc, post: WeeAlloc, f0: int, ci: int)
        requires
            pre.wf(),
            0 <= ci < NUM_SIZE_CLASSES,
            post.pages == pre.pages,
            post.head == pre.head,
            post.live == pre.live,
            f0 == pre.pages.frontier(),
            post.size_classes.lists@.len() == NUM_SIZE_CLASSES,
            forall|t: int|
                0 <= t < NUM_SIZE_CLASSES && t != ci ==> #[trigger] post.size_classes.lists@[t]
                    == pre.size_classes.lists@[t],
            post.size_classes.lists@[ci].wf(f0, AllocPolicy::SizeClass((ci + 1) as usize)),
            crate::free_list::alloc_xfer(
                pre.size_classes.lists@[ci].cells@,
                post.size_classes.lists@[ci].cells@,
            ),
        ensures
            post.wf(),
    {
        assert forall|t: int|
            0 <= t < NUM_SIZE_CLASSES implies crate::free_list::cells_wf(
            (#[trigger] post.size_classes.lists@[t]).cells@,
            f0,
        ) && crate::free_list::alloc_xfer(
            pre.size_classes.lists@[t].cells@,
            post.size_classes.lists@[t].cells@,
        ) by {
            assert(pre.size_classes.lists@[t].wf(f0, AllocPolicy::SizeClass((t + 1) as usize)));
            if t != ci {
                crate::free_list::lemma_xfer_refl(pre.size_classes.lists@[t].cells@);
            } else {
                assert(post.size_classes.lists@[ci].wf(
                    f0,
                    AllocPolicy::SizeClass((ci + 1) as usize),
                ));
            }
        }
        crate::free_list::lemma_xfer_refl(pre.head.cells@);
        Self::lemma_live_preserved(pre, post, f0, f0);
        assert(post.size_classes.wf(f0)) by {
            assert forall|t: int|
                0 <= t < NUM_SIZE_CLASSES implies (#[trigger] post.size_classes.lists@[t]).wf(
                f0,
                AllocPolicy::SizeClass((t + 1) as usize),
            ) by {
                if t != ci {
                    assert(pre.size_classes.lists@[t].wf(
                        f0,
                        AllocPolicy::SizeClass((t + 1) as usize),
                    ));
                }
            }
        }
    }

    /// Return an allocation: the pointer and layout a caller got from a
    /// matching allocation. A null pointer or zero size is a no-op, as is a
    /// pointer that names no allocated cell of the routed list.
    #[verifier::rlimit(100)]
    #[verifier::spinoff_prover]
    pub fn dealloc_impl(&mut self, ptr: usize, size: usize, align: usize)
        requires
            old(self).wf(),
        ensures
            final(self).wf(),
            ptr == 0 || size == 0 ==> *final(self) == *old(self),
            ptr != 0 && size != 0 ==> final(self).live@ == old(self).live@.remove(ptr),
            final(self).pages == old(self).pages,
            ptr != 0 && size != 0 && old(self).live@.dom().contains(ptr) && old(
                self,
            ).live@[ptr] == (size, align) ==> (if is_class_request(
                words_for(size as int),
                align as int,
            ) {
                freed_gone(
                    final(self).size_classes.lists@[words_for(size as int) - 1].cells@,
                    ptr,
                )
            } else {
                freed_gone(final(self).head.cells@, ptr)
            }),
    {
        let ghost entry = *old(self);
        let ghost was_live = entry.live@.dom().contains(ptr) && entry.live@[ptr] == (
            size,
            align,
        );
        if ptr == 0 || size == 0 {
            return;
        }
        if ptr < HEADER_SIZE {
            proof {
                self.live = Ghost(entry.live@.remove(ptr));
                Self::lemma_dealloc_noop(entry, *self, ptr);
                if was_live {
                    assert(entry.live_entry_wf(ptr));
                    assert(false);
                }
            }
            return;
        }
        let words: usize = size / 8 + (if size % 8 != 0 {
            1
        } else {
            0
        });
        proof {
            assert(words == words_for(size as int));
        }
        let ghost f0 = self.pages.frontier();
        if align <= 8 && words >= 1 && words <= 256 {
            let k: usize = words;
            {
                let cl = vstd::std_specs::vec::vec_index_mut(
                    &mut self.size_classes.lists,
                    k - 1,
                );
                proof {
                    assert(entry.size_classes.lists@[k - 1].wf(f0, AllocPolicy::SizeClass(k)));
                }
                let found: Option<usize> = cl.try_find(ptr - HEADER_SIZE);
                let ok: bool = match found {
                    Some(ii) => cl.cells[ii].header.is_allocated(),
                    None => false,
                };
                proof {
                    // A live entry names an allocated cell here, so the
                    // check cannot fail for one.
                    if was_live && !ok {
                        assert(entry.live_entry_wf(ptr));
                        match found {
                            Some(ii) => {
                                crate::free_list::lemma_at_addr(cl.cells@, f0, ii as int);
                            },
                            None => {},
                        }
                        assert(false);
                    }
                }
                if ok {
                    proof {
                        let ii2 = found->0;
                        crate::free_list::lemma_at_addr(cl.cells@, f0, ii2 as int);
                    }
                    cl.dealloc_cell(ptr, AllocPolicy::SizeClass(k), Ghost(f0));
                }
            }
            proof {
                self.live = Ghost(entry.live@.remove(ptr));
                if self.size_classes.lists@[k - 1] == entry.size_classes.lists@[k - 1] {
                    assert(self.size_classes.lists@ =~= entry.size_classes.lists@);
                    Self::lemma_dealloc_noop(entry, *self, ptr);
                } else {
                    Self::lemma_dealloc_ok(entry, *self, f0, (k - 1) as int, ptr);
                }
                if was_live {
                    assert(entry.live_entry_wf(ptr));
                    assert(is_class_request(words_for(size as int), align as int));
                    assert(words_for(size as int) == k);
                    assert(freed_gone(self.size_classes.lists@[k - 1].cells@, ptr));
                }
            }
        } else {
            let found: Option<usize> = self.head.try_find(ptr - HEADER_SIZE);
            let ok: bool = match found {
                Some(ii) => self.head.cells[ii].header.is_allocated(),
                None => false,
            };
            proof {
                if was_live && !ok {
                    assert(entry.live_entry_wf(ptr));
                    assert(!is_class_request(words_for(size as int), align as int));
                    match found {
                        Some(ii) => {
                            crate::free_list::lemma_at_addr(self.head.cells@, f0, ii as int);
                        },
                        None => {},
                    }
                    assert(false);
                }
            }
            if ok {
                proof {
                    let ii2 = found->0;
                    crate::free_list::lemma_at_addr(self.head.cells@, f0, ii2 as int);
                }
                self.head.dealloc_cell(ptr, AllocPolicy::Large, Ghost(f0));
                proof {
                    self.live = Ghost(entry.live@.remove(ptr));
                    Self::lemma_dealloc_ok(entry, *self, f0, -1, ptr);
                }
            } else {
                proof {
                    self.live = Ghost(entry.live@.remove(ptr));
                    Self::lemma_dealloc_noop(entry, *self, ptr);
                }
            }
        }
    }

    /// Dropping a live entry without touching any list keeps every law.
    proof fn lemma_dealloc_noop(pre: WeeAlloc, post: WeeAlloc, ptr: usize)
        requires
            pre.wf(),
            post.pages == pre.pages,
            post.head == pre.head,
            post.size_classes.lists@ == pre.size_classes.lists@,
            post.live@ == pre.live@.remove(ptr),
        ensures
            post.wf(),
    {
        assert forall|p: usize|
            post.live@.dom().contains(p) implies #[trigger] post.live_entry_wf(p) by {
            assert(pre.live_entry_wf(p));
            assert(post.live@[p] == pre.live@[p]);
        }
    }

    /// Returning one allocation keeps every law: the freed address leaves
    /// the live set, every other allocation keeps its cell.
    #[verifier::rlimit(100)]
    proof fn lemma_dealloc_ok(pre: WeeAlloc, post: WeeAlloc, f0: int, ci: int, ptr: usize)
        requires
            pre.wf(),
            -1 <= ci < NUM_SIZE_CLASSES,
            post.pages == pre.pages,
            f0 == pre.pages.frontier(),
            post.live@ == pre.live@.remove(ptr),
            ptr >= HEADER_SIZE,
            ci == -1 ==> post.size_classes == pre.size_classes && post.head.wf(
                f0,
                AllocPolicy::Large,
            ) && dealloc_xfer_ok(pre.head.cells@, post.head.cells@, ptr),
            ci >= 0 ==> post.head == pre.head && post.size_classes.lists@.len()
                == NUM_SIZE_CLASSES && (forall|t: int|
                0 <= t < NUM_SIZE_CLASSES && t != ci ==> #[trigger] post.size_classes.lists@[t]
                    == pre.size_classes.lists@[t]) && post.size_classes.lists@[ci].wf(
                f0,
                AllocPolicy::SizeClass((ci + 1) as usize),
            ) && dealloc_xfer_ok(
                pre.size_classes.lists@[ci].cells@,
                post.size_classes.lists@[ci].cells@,
                ptr,
            ),
        ensures
            post.wf(),
    {
        if ci >= 0 {
            assert(post.size_classes.wf(f0)) by {
                assert forall|t: int|
                    0 <= t < NUM_SIZE_CLASSES implies (#[trigger] post.size_classes.lists@[
                t]).wf(f0, AllocPolicy::SizeClass((t + 1) as usize)) by {
                    if t != ci {
                        assert(pre.size_classes.lists@[t].wf(
                            f0,
                            AllocPolicy::SizeClass((t + 1) as usize),
                        ));
                    }
                }
            }
        }
        assert forall|p: usize|
            post.live@.dom().contains(p) implies #[trigger] post.live_entry_wf(p) by {
            assert(p != ptr);
            assert(pre.live@.dom().contains(p));
            assert(pre.live_entry_wf(p));
            assert(post.live@[p] == pre.live@[p]);
            assert(p >= crate::PAGE_SIZE + HEADER_SIZE);
            let (sz, al) = pre.live@[p];
            let w = words_for(sz as int);
            let x = (p - HEADER_SIZE) as usize;
            assert(x != ptr - HEADER_SIZE);
            if is_class_request(w, al as int) {
                if ci >= 0 && w - 1 == ci {
                    assert(crate::free_list::cells_wf(pre.size_classes.lists@[ci].cells@, f0))
                        by {
                        assert(pre.size_classes.lists@[ci].wf(
                            f0,
                            AllocPolicy::SizeClass((ci + 1) as usize),
                        ));
                    }
                    lemma_dealloc_lookup(
                        pre.size_classes.lists@[ci].cells@,
                        post.size_classes.lists@[ci].cells@,
                        x,
                        ptr,
                        f0,
                    );
                } else {
                    assert(post.size_classes.lists@[w - 1] == pre.size_classes.lists@[w - 1]);
                }
            } else {
                if ci == -1 {
                    assert(crate::free_list::cells_wf(pre.head.cells@, f0)) by {
                        assert(pre.head.wf(f0, AllocPolicy::Large));
                    }
                    lemma_dealloc_lookup(pre.head.cells@, post.head.cells@, x, ptr, f0);
                } else {
                    assert(post.head == pre.head);
                }
            }
            assert(post.live_entry_wf(p));
        }
    }

    /// A fresh allocator with the default 32 MiB heap budget: empty lists,
    /// nothing live.
    pub fn new() -> (r: WeeAlloc)
        ensures
            r.wf(),
            r.live_view() =~= Map::<usize, (usize, usize)>::empty(),
            r.pages.offset() == 0,
            r.pages.limit() == crate::imp::DEFAULT_HEAP_BYTES,
    {
        WeeAlloc::with_heap_limit(crate::imp::DEFAULT_HEAP_BYTES)
    }

    /// A fresh allocator with the given heap budget in bytes.
    pub fn with_heap_limit(limit: usize) -> (r: WeeAlloc)
        requires
            limit <= crate::MAX_HEAP_BYTES,
        ensures
            r.wf(),
            r.live_view() =~= Map::<usize, (usize, usize)>::empty(),
            r.pages.offset() == 0,
            r.pages.limit() == limit,
    {
        let r = WeeAlloc {
            pages: PageSource::new(limit),
            head: FreeList::new(),
            size_classes: SizeClasses::new(),
            live: Ghost(Map::empty()),
        };
        r
    }
}

} // verus!
