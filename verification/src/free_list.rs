//! Free lists over tables of cells, and the laws that hold at every API
//! boundary.
//!
//! A `FreeList` owns a table of cells (one record per live cell, free or
//! allocated) and threads the free ones on a singly-linked list through
//! their `next free` words. A ghost sequence `order` names the free cells in
//! list order; its distinctness is the no-cycle law, and it gives every walk
//! its termination measure.
//!
//! The table laws say that the physical doubly-linked chain is consistent
//! (`next` of `prev` and `prev` of `next` come back), that every block ends
//! in a cell with `NEXT_INVALID`, and that cell extents never overlap. The
//! list laws say that the head and the `next free` words spell out exactly
//! `order`, that every listed cell is free, that every free cell is listed,
//! and that `CAN_MERGE` is set only towards a free physical predecessor that
//! is also the next cell of the list.

use vstd::prelude::*;
use crate::cell::{FreeCell, HEADER_SIZE};

verus! {

/// Policy knobs distinguishing the main free list from a size-class list.
#[derive(Clone, Copy, PartialEq, Eq, Structural, Debug)]
pub enum AllocPolicy {
    /// The main list: large or odd requests, splitting and merging allowed.
    Large,
    /// A size-class list for cells of exactly this many words; no merging.
    SizeClass(usize),
}

/// Minimum data size, in bytes, of a cell split off the main free list: twice
/// the number of size classes, in words.
pub const LARGE_MIN_CELL_SIZE: usize = 4096;

impl AllocPolicy {
    /// The least data size, in bytes, a split may leave behind.
    pub fn min_cell_size(&self, alloc_size: usize) -> (r: usize)
        ensures
            r == self.min_cell_size_spec(alloc_size),
    {
        match self {
            AllocPolicy::Large => LARGE_MIN_CELL_SIZE,
            AllocPolicy::SizeClass(_) => alloc_size,
        }
    }

    /// Spec view of `min_cell_size`.
    pub open spec fn min_cell_size_spec(self, alloc_size: usize) -> usize {
        match self {
            AllocPolicy::Large => LARGE_MIN_CELL_SIZE,
            AllocPolicy::SizeClass(_) => alloc_size,
        }
    }

    /// Whether freed cells merge with free physical neighbors. True only for
    /// the main list: size-class cells would just split again.
    pub fn should_merge_adjacent_free_cells(&self) -> (r: bool)
        ensures
            r == self.merge_spec(),
    {
        match self {
            AllocPolicy::Large => true,
            AllocPolicy::SizeClass(_) => false,
        }
    }

    /// Spec view of `should_merge_adjacent_free_cells`.
    pub open spec fn merge_spec(self) -> bool {
        self is Large
    }
}

/// The table laws: every cell well-formed, the physical chain consistent,
/// blocks ended by `NEXT_INVALID`, extents disjoint.
#[verifier::opaque]
pub open spec fn cells_wf(cells: Seq<FreeCell>, frontier: int) -> bool {
    &&& forall|i: int| 0 <= i < cells.len() ==> (#[trigger] cells[i]).wf(frontier)
    &&& forall|i: int|
        0 <= i < cells.len() && !(#[trigger] cells[i]).header.invalid_bit() ==> i + 1
            < cells.len() && cells[i + 1].addr == cells[i].header.end_addr()
    &&& forall|i: int|
        0 <= i < cells.len() ==> (#[trigger] cells[i]).header.prev_addr() == (if i > 0 && !cells[
            i - 1].header.invalid_bit() {
            cells[i - 1].addr
        } else {
            0usize
        })
    &&& forall|i: int, j: int|
        0 <= i < cells.len() && 0 <= j < cells.len() && i != j ==> (#[trigger] cells[
            i]).header.end_addr() <= (#[trigger] cells[j]).addr || cells[j].header.end_addr()
            <= cells[i].addr
}

/// Does the table hold a cell with this header address?
pub open spec fn contains_addr(cells: Seq<FreeCell>, addr: usize) -> bool {
    exists|i: int| 0 <= i < cells.len() && (#[trigger] cells[i]).addr == addr
}

/// The index of the cell with this header address.
pub open spec fn idx_at(cells: Seq<FreeCell>, addr: usize) -> int {
    choose|i: int| 0 <= i < cells.len() && (#[trigger] cells[i]).addr == addr
}

/// The cell with this header address.
pub open spec fn at_addr(cells: Seq<FreeCell>, addr: usize) -> FreeCell {
    cells[idx_at(cells, addr)]
}

/// Under the table laws, addresses name cells uniquely.
pub proof fn lemma_addr_unique(cells: Seq<FreeCell>, frontier: int, i: int, j: int)
    requires
        cells_wf(cells, frontier),
        0 <= i < cells.len(),
        0 <= j < cells.len(),
        cells[i].addr == cells[j].addr,
    ensures
        i == j,
{
    reveal(cells_wf);
    if i != j {
        assert(cells[i].wf(frontier));
        assert(cells[j].wf(frontier));
    }
}

/// Under the table laws, a contained address names exactly the chosen cell.
pub proof fn lemma_at_addr(cells: Seq<FreeCell>, frontier: int, i: int)
    requires
        cells_wf(cells, frontier),
        0 <= i < cells.len(),
    ensures
        contains_addr(cells, cells[i].addr),
        idx_at(cells, cells[i].addr) == i,
        at_addr(cells, cells[i].addr) == cells[i],
{
    assert(contains_addr(cells, cells[i].addr));
    let k = idx_at(cells, cells[i].addr);
    lemma_addr_unique(cells, frontier, i, k);
}

/// No two cells share a header address.
#[verifier::opaque]
pub open spec fn addrs_unique(cells: Seq<FreeCell>) -> bool {
    forall|i: int, j: int|
        0 <= i < cells.len() && 0 <= j < cells.len() && i != j ==> (#[trigger] cells[i]).addr != (
        #[trigger] cells[j]).addr
}

/// The table laws make addresses unique.
pub proof fn lemma_unique_from_wf(cells: Seq<FreeCell>, frontier: int)
    requires
        cells_wf(cells, frontier),
    ensures
        addrs_unique(cells),
{
    reveal(addrs_unique);
    assert forall|i: int, j: int|
        0 <= i < cells.len() && 0 <= j < cells.len() && i != j implies (#[trigger] cells[i]).addr
        != (#[trigger] cells[j]).addr by {
        if cells[i].addr == cells[j].addr {
            lemma_addr_unique(cells, frontier, i, j);
        }
    }
}

/// Replacing a cell by one at the same address leaves lookups of every other
/// address unchanged.
pub proof fn lemma_at_update(cells: Seq<FreeCell>, i: int, c: FreeCell)
    requires
        addrs_unique(cells),
        0 <= i < cells.len(),
        c.addr == cells[i].addr,
    ensures
        addrs_unique(cells.update(i, c)),
        forall|x: usize| contains_addr(cells.update(i, c), x) == contains_addr(cells, x),
        forall|x: usize|
            x != c.addr && contains_addr(cells, x) ==> #[trigger] at_addr(cells.update(i, c), x)
                == at_addr(cells, x) && idx_at(cells.update(i, c), x) == idx_at(cells, x),
        contains_addr(cells.update(i, c), c.addr),
        at_addr(cells.update(i, c), c.addr) == c,
        idx_at(cells.update(i, c), c.addr) == i,
{
    reveal(addrs_unique);
    let upd = cells.update(i, c);
    assert forall|x: usize| contains_addr(upd, x) == contains_addr(cells, x) by {
        if contains_addr(upd, x) {
            let k = choose|k: int| 0 <= k < upd.len() && (#[trigger] upd[k]).addr == x;
            assert(cells[k].addr == x);
        }
        if contains_addr(cells, x) {
            let k = choose|k: int| 0 <= k < cells.len() && (#[trigger] cells[k]).addr == x;
            assert(upd[k].addr == x);
        }
    }
    assert forall|x: usize|
        x != c.addr && contains_addr(cells, x) implies #[trigger] at_addr(upd, x) == at_addr(
        cells, x) && idx_at(upd, x) == idx_at(cells, x) by {
        let k = idx_at(cells, x);
        assert(cells[k].addr == x);
        assert(upd[k].addr == x);
        let k2 = idx_at(upd, x);
        assert(upd[k2].addr == x);
        if k2 != k {
            assert(cells[k2].addr == upd[k2].addr);
        }
    }
    let k3 = idx_at(upd, c.addr);
    assert(upd[i].addr == c.addr);
    if k3 != i {
        assert(cells[k3].addr == upd[k3].addr);
    }
}

/// Inserting a cell at a fresh address leaves lookups of every other address
/// unchanged.
pub proof fn lemma_at_insert(cells: Seq<FreeCell>, i: int, c: FreeCell)
    requires
        addrs_unique(cells),
        0 <= i <= cells.len(),
        forall|j: int| 0 <= j < cells.len() ==> (#[trigger] cells[j]).addr != c.addr,
    ensures
        addrs_unique(cells.insert(i, c)),
        forall|x: usize|
            x != c.addr ==> contains_addr(cells.insert(i, c), x) == contains_addr(cells, x),
        forall|x: usize|
            x != c.addr && contains_addr(cells, x) ==> #[trigger] at_addr(cells.insert(i, c), x)
                == at_addr(cells, x),
        contains_addr(cells.insert(i, c), c.addr),
        at_addr(cells.insert(i, c), c.addr) == c,
        idx_at(cells.insert(i, c), c.addr) == i,
{
    reveal(addrs_unique);
    let ins = cells.insert(i, c);
    assert(ins.len() == cells.len() + 1);
    assert(forall|j: int| 0 <= j < i ==> ins[j] == cells[j]);
    assert(ins[i] == c);
    assert(forall|j: int| i < j < ins.len() ==> ins[j] == cells[j - 1]);
    assert forall|x: usize|
        x != c.addr implies contains_addr(ins, x) == contains_addr(cells, x) by {
        if contains_addr(ins, x) {
            let k = choose|k: int| 0 <= k < ins.len() && (#[trigger] ins[k]).addr == x;
            if k < i {
                assert(cells[k].addr == x);
            } else if k > i {
                assert(cells[k - 1].addr == x);
            }
        }
        if contains_addr(cells, x) {
            let k = choose|k: int| 0 <= k < cells.len() && (#[trigger] cells[k]).addr == x;
            if k < i {
                assert(ins[k].addr == x);
            } else {
                assert(ins[k + 1].addr == x);
            }
        }
    }
    assert forall|x: usize|
        x != c.addr && contains_addr(cells, x) implies #[trigger] at_addr(ins, x) == at_addr(
        cells, x) by {
        let k = idx_at(cells, x);
        assert(cells[k].addr == x);
        if k < i {
            assert(ins[k].addr == x);
        } else {
            assert(ins[k + 1].addr == x);
        }
        assert(contains_addr(ins, x));
        let k2 = idx_at(ins, x);
        assert(ins[k2].addr == x);
        if k2 < i {
            assert(at_addr(ins, x) == cells[k2]);
            lemma_unique_pick(cells, k, k2);
        } else if k2 == i {
            assert(false);
        } else {
            assert(at_addr(ins, x) == cells[k2 - 1]);
            lemma_unique_pick(cells, k, k2 - 1);
        }
    }
    assert(ins[i].addr == c.addr);
    assert(contains_addr(ins, c.addr));
    let k3 = idx_at(ins, c.addr);
    assert(ins[k3].addr == c.addr);
    if k3 < i {
        assert(cells[k3].addr == c.addr);
        assert(false);
    } else if k3 > i {
        assert(cells[k3 - 1].addr == c.addr);
        assert(false);
    }
}

/// Two positions holding the same address are the same position.
pub proof fn lemma_unique_pick(cells: Seq<FreeCell>, i: int, j: int)
    requires
        addrs_unique(cells),
        0 <= i < cells.len(),
        0 <= j < cells.len(),
        cells[i].addr == cells[j].addr,
    ensures
        i == j,
{
    reveal(addrs_unique);
}

/// The list laws over a ghost order: the head and the `next free` words spell
/// out `order`, entries are distinct (hence no cycles) and free, and
/// `CAN_MERGE` points at a free physical predecessor that is the next list
/// entry.
#[verifier::opaque]
pub open spec fn list_core(
    cells: Seq<FreeCell>,
    head: usize,
    order: Seq<usize>,
    merge_allowed: bool,
) -> bool {
    &&& head == (if order.len() == 0 {
        0usize
    } else {
        order[0]
    })
    &&& forall|p: int, q: int|
        0 <= p < q < order.len() ==> #[trigger] order[p] != #[trigger] order[q]
    &&& forall|p: int| 0 <= p < order.len() ==> contains_addr(cells, #[trigger] order[p])
    &&& forall|p: int|
        0 <= p < order.len() ==> !at_addr(cells, #[trigger] order[p]).header.alloc_bit()
    &&& forall|p: int|
        0 <= p < order.len() ==> at_addr(cells, #[trigger] order[p]).next_free_addr() == (if p + 1
            < order.len() {
            order[p + 1]
        } else {
            0usize
        })
    &&& forall|p: int|
        0 <= p < order.len() && at_addr(cells, #[trigger] order[p]).can_merge() ==> {
            let c = at_addr(cells, order[p]);
            &&& merge_allowed
            &&& c.header.prev_addr() != 0
            &&& c.next_free_addr() == c.header.prev_addr()
            &&& contains_addr(cells, c.header.prev_addr())
            &&& !at_addr(cells, c.header.prev_addr()).header.alloc_bit()
        }
}

/// Every free cell of the table stands in the order.
#[verifier::opaque]
pub open spec fn list_complete(cells: Seq<FreeCell>, order: Seq<usize>) -> bool {
    forall|i: int|
        0 <= i < cells.len() && !(#[trigger] cells[i]).header.alloc_bit() ==> order.contains(
            cells[i].addr)
}

/// For a size-class list of `w` words, every cell of the table has exactly
/// `w` words of data.
#[verifier::opaque]
pub open spec fn class_sized(cells: Seq<FreeCell>, policy: AllocPolicy) -> bool {
    match policy {
        AllocPolicy::Large => true,
        AllocPolicy::SizeClass(w) => forall|i: int|
            0 <= i < cells.len() ==> (#[trigger] cells[i]).size_bytes() == w * 8,
    }
}

/// A table update that changes only a cell's `next free` word keeps the
/// table laws, provided the new word is a word-aligned address with no
/// reserved bit.
pub proof fn lemma_wf_nfr_update(cells: Seq<FreeCell>, frontier: int, i: int, c: FreeCell, policy: AllocPolicy)
    requires
        cells_wf(cells, frontier),
        class_sized(cells, policy),
        0 <= i < cells.len(),
        c.addr == cells[i].addr,
        c.header == cells[i].header,
        c.next_free_raw & 2 == 0,
        (c.next_free_raw & !3usize) % 8 == 0,
    ensures
        cells_wf(cells.update(i, c), frontier),
        class_sized(cells.update(i, c), policy),
{
    reveal(cells_wf);
    reveal(class_sized);
    let upd = cells.update(i, c);
    assert forall|j: int| 0 <= j < upd.len() implies (#[trigger] upd[j]).wf(frontier) by {
        assert(cells[j].wf(frontier));
    }
    assert forall|j: int|
        0 <= j < upd.len() && !(#[trigger] upd[j]).header.invalid_bit() implies j + 1 < upd.len()
        && upd[j + 1].addr == upd[j].header.end_addr() by {
        assert(cells[j].wf(frontier));
        assert(!cells[j].header.invalid_bit());
    }
    if policy is SizeClass {
        assert forall|j: int| 0 <= j < upd.len() implies (#[trigger] upd[j]).size_bytes()
            == cells[j].size_bytes() by {}
    }
}

/// Tables with pointwise-equal addresses answer lookups at the same index.
pub proof fn lemma_lookup_pointwise(a: Seq<FreeCell>, b: Seq<FreeCell>)
    requires
        addrs_unique(a),
        a.len() == b.len(),
        forall|j: int| 0 <= j < a.len() ==> (#[trigger] b[j]).addr == a[j].addr,
    ensures
        addrs_unique(b),
        forall|x: usize| contains_addr(b, x) == contains_addr(a, x),
        forall|x: usize|
            contains_addr(a, x) ==> #[trigger] idx_at(b, x) == idx_at(a, x) && 0 <= idx_at(a, x)
                < a.len() && a[idx_at(a, x)].addr == x,
{
    reveal(addrs_unique);
    assert forall|x: usize| contains_addr(b, x) == contains_addr(a, x) by {
        if contains_addr(b, x) {
            let k = choose|k: int| 0 <= k < b.len() && (#[trigger] b[k]).addr == x;
            assert(a[k].addr == x);
        }
        if contains_addr(a, x) {
            let k = choose|k: int| 0 <= k < a.len() && (#[trigger] a[k]).addr == x;
            assert(b[k].addr == x);
        }
    }
    assert forall|x: usize| contains_addr(a, x) implies #[trigger] idx_at(b, x) == idx_at(a, x)
        && 0 <= idx_at(a, x) < a.len() && a[idx_at(a, x)].addr == x by {
        let k = idx_at(a, x);
        assert(a[k].addr == x);
        assert(b[k].addr == x);
        assert(contains_addr(b, x));
        let k2 = idx_at(b, x);
        assert(b[k2].addr == x);
        if k2 != k {
            assert(a[k2].addr == x);
        }
    }
}

/// Removing one position of a duplicate-free sequence keeps every other value.
pub proof fn lemma_remove_keeps(order: Seq<usize>, p: int, x: usize)
    requires
        0 <= p < order.len(),
        order.contains(x),
        x != order[p],
    ensures
        order.remove(p).contains(x),
{
    let q = choose|q: int| 0 <= q < order.len() && order[q] == x;
    if q < p {
        assert(order.remove(p)[q] == x);
    } else {
        assert(order.remove(p)[q - 1] == x);
    }
}

/// The head of a law-abiding list is a word-aligned address (or null).
pub proof fn lemma_head_aligned(
    cells: Seq<FreeCell>,
    head: usize,
    order: Seq<usize>,
    merge_allowed: bool,
    frontier: int,
)
    requires
        cells_wf(cells, frontier),
        list_core(cells, head, order, merge_allowed),
    ensures
        head % 8 == 0,
        head & 3 == 0,
        head & !3usize == head,
{
    reveal(cells_wf);
    reveal(list_core);
    if order.len() > 0 {
        assert(contains_addr(cells, order[0]));
        let k = idx_at(cells, order[0]);
        assert(cells[k].addr == order[0]);
        assert(cells[k].wf(frontier));
    }
    crate::bits::lemma_aligned_no_tags(head);
}

/// Putting a fresh free cell in front of the list keeps the list laws and
/// completes them for that cell.
pub proof fn lemma_push_front_list(
    oldcells: Seq<FreeCell>,
    oldhead: usize,
    oldorder: Seq<usize>,
    i: int,
    c: FreeCell,
    frontier: int,
    merge_allowed: bool,
)
    requires
        cells_wf(oldcells, frontier),
        list_core(oldcells, oldhead, oldorder, merge_allowed),
        forall|j: int|
            0 <= j < oldcells.len() && j != i && !(#[trigger] oldcells[j]).header.alloc_bit()
                ==> oldorder.contains(oldcells[j].addr),
        0 <= i < oldcells.len(),
        c.addr == oldcells[i].addr,
        c.header == oldcells[i].header,
        !c.header.alloc_bit(),
        !c.can_merge(),
        c.next_free_addr() == oldhead,
        !oldorder.contains(c.addr),
    ensures
        list_core(
            oldcells.update(i, c),
            c.addr,
            seq![c.addr].add(oldorder),
            merge_allowed,
        ),
        list_complete(oldcells.update(i, c), seq![c.addr].add(oldorder)),
{
    reveal(list_core);
    reveal(list_complete);
    let cells = oldcells.update(i, c);
    let order = seq![c.addr].add(oldorder);
    let a = c.addr;
    lemma_unique_from_wf(oldcells, frontier);
    lemma_at_update(oldcells, i, c);
    assert(order.len() == oldorder.len() + 1);
    assert(order[0] == a);
    assert(forall|p: int| 1 <= p < order.len() ==> order[p] == oldorder[p - 1]);
    assert(at_addr(cells, a) == c);
    assert forall|p: int, q: int|
        0 <= p < q < order.len() implies #[trigger] order[p] != #[trigger] order[q] by {
        if p == 0 {
            assert(oldorder.contains(oldorder[q - 1]));
        }
    }
    assert forall|p: int|
        0 <= p < order.len() implies contains_addr(cells, #[trigger] order[p]) && !at_addr(
        cells,
        order[p],
    ).header.alloc_bit() && at_addr(cells, order[p]).next_free_addr() == (if p + 1 < order.len() {
        order[p + 1]
    } else {
        0usize
    }) by {
        if p == 0 {
            assert(c.next_free_addr() == oldhead);
        } else {
            assert(oldorder.contains(oldorder[p - 1]));
            assert(order[p] != a);
            assert(at_addr(cells, order[p]) == at_addr(oldcells, order[p]));
        }
    }
    assert forall|p: int|
        0 <= p < order.len() && at_addr(cells, #[trigger] order[p]).can_merge() implies {
        let cc = at_addr(cells, order[p]);
        &&& merge_allowed
        &&& cc.header.prev_addr() != 0
        &&& cc.next_free_addr() == cc.header.prev_addr()
        &&& contains_addr(cells, cc.header.prev_addr())
        &&& !at_addr(cells, cc.header.prev_addr()).header.alloc_bit()
    } by {
        if p == 0 {
            assert(!c.can_merge());
        } else {
            assert(oldorder.contains(oldorder[p - 1]));
            assert(order[p] != a);
            let cc = at_addr(oldcells, order[p]);
            assert(at_addr(cells, order[p]) == cc);
            if cc.can_merge() {
                if cc.header.prev_addr() == a {
                    assert(at_addr(cells, cc.header.prev_addr()) == c);
                } else {
                    assert(at_addr(cells, cc.header.prev_addr()) == at_addr(
                        oldcells,
                        cc.header.prev_addr(),
                    ));
                }
            }
        }
    }
    assert forall|i2: int|
        0 <= i2 < cells.len() && !(#[trigger] cells[i2]).header.alloc_bit() implies order.contains(
        cells[i2].addr) by {
        if i2 == i {
            assert(order[0] == a);
        } else {
            assert(oldorder.contains(oldcells[i2].addr));
            let q = choose|q: int| 0 <= q < oldorder.len() && oldorder[q] == oldcells[i2].addr;
            assert(order[q + 1] == cells[i2].addr);
        }
    }
}

/// Each cell of a law-abiding table is itself well-formed.
pub proof fn lemma_cell_wf(cells: Seq<FreeCell>, frontier: int, i: int)
    requires
        cells_wf(cells, frontier),
        0 <= i < cells.len(),
    ensures
        cells[i].wf(frontier),
{
    reveal(cells_wf);
}

/// Each order entry names a free cell of the table, at a word-aligned
/// nonzero address, whose `next free` word names the following entry.
pub proof fn lemma_order_cell(
    cells: Seq<FreeCell>,
    head: usize,
    order: Seq<usize>,
    merge_allowed: bool,
    frontier: int,
    q: int,
)
    requires
        cells_wf(cells, frontier),
        list_core(cells, head, order, merge_allowed),
        0 <= q < order.len(),
    ensures
        contains_addr(cells, order[q]),
        order[q] % 8 == 0,
        order[q] != 0,
        !at_addr(cells, order[q]).header.alloc_bit(),
        at_addr(cells, order[q]).next_free_addr() == (if q + 1 < order.len() {
            order[q + 1]
        } else {
            0usize
        }),
        at_addr(cells, order[q]).addr == order[q],
        0 <= idx_at(cells, order[q]) < cells.len(),
        at_addr(cells, order[q]).wf(frontier),
{
    reveal(cells_wf);
    reveal(list_core);
    let k = idx_at(cells, order[q]);
    assert(cells[k].addr == order[q]);
    assert(cells[k].wf(frontier));
}

/// Order entries are pairwise distinct.
pub proof fn lemma_order_distinct(
    cells: Seq<FreeCell>,
    head: usize,
    order: Seq<usize>,
    merge_allowed: bool,
    q: int,
    r: int,
)
    requires
        list_core(cells, head, order, merge_allowed),
        0 <= q < r < order.len(),
    ensures
        order[q] != order[r],
{
    reveal(list_core);
}

/// The head names the first order entry, or is null.
pub proof fn lemma_head(cells: Seq<FreeCell>, head: usize, order: Seq<usize>, merge_allowed: bool)
    requires
        list_core(cells, head, order, merge_allowed),
    ensures
        head == (if order.len() == 0 {
            0usize
        } else {
            order[0]
        }),
{
    reveal(list_core);
}

/// The deferred-merge facts at one order position.
pub proof fn lemma_order_mark(
    cells: Seq<FreeCell>,
    head: usize,
    order: Seq<usize>,
    merge_allowed: bool,
    q: int,
)
    requires
        list_core(cells, head, order, merge_allowed),
        0 <= q < order.len(),
        at_addr(cells, order[q]).can_merge(),
    ensures
        merge_allowed,
        at_addr(cells, order[q]).header.prev_addr() != 0,
        at_addr(cells, order[q]).next_free_addr() == at_addr(
            cells,
            order[q],
        ).header.prev_addr(),
        contains_addr(cells, at_addr(cells, order[q]).header.prev_addr()),
        !at_addr(cells, at_addr(cells, order[q]).header.prev_addr()).header.alloc_bit(),
{
    reveal(list_core);
}

/// What allocation leaves on a cell: only the `ALLOCATED` flag turns on.
pub open spec fn same_but_allocated(a: FreeCell, b: FreeCell) -> bool {
    &&& b.addr == a.addr
    &&& b.next_free_raw == a.next_free_raw
    &&& b.header.end_addr() == a.header.end_addr()
    &&& b.header.invalid_bit() == a.header.invalid_bit()
    &&& b.header.neighbors.prev_raw() == a.header.neighbors.prev_raw()
    &&& b.header.alloc_bit()
}

/// The shape of a whole-cell allocation: the cell at table index `i` (order
/// position `p`) turns allocated; when `p > 0` the slot cell at table index
/// `pi` (order position `p - 1`) gets the removed cell's `next free` address;
/// nothing else moves.
pub open spec fn alloc_whole_shape(
    oldcells: Seq<FreeCell>,
    oldorder: Seq<usize>,
    newcells: Seq<FreeCell>,
    p: int,
    i: int,
    pi: int,
) -> bool {
    &&& 0 <= p < oldorder.len()
    &&& 0 <= i < oldcells.len()
    &&& oldcells[i].addr == oldorder[p]
    &&& !oldcells[i].can_merge()
    &&& (forall|q: int| 0 <= q < p ==> !at_addr(oldcells, #[trigger] oldorder[q]).can_merge())
    &&& (p > 0 ==> 0 <= pi < oldcells.len() && oldcells[pi].addr == oldorder[p - 1])
    &&& newcells.len() == oldcells.len()
    &&& same_but_allocated(oldcells[i], newcells[i])
    &&& (p > 0 ==> newcells[pi] == (FreeCell {
        next_free_raw: oldcells[i].next_free_addr(),
        ..oldcells[pi]
    }))
    &&& (forall|j: int|
        0 <= j < oldcells.len() && j != i && (p == 0 || j != pi) ==> #[trigger] newcells[j]
            == oldcells[j])
}

/// Geometry is untouched by a whole-cell allocation: addresses, header words
/// and sizes agree pointwise, so the table laws and lookups carry over.
pub proof fn lemma_alloc_whole_cells(
    oldcells: Seq<FreeCell>,
    oldhead: usize,
    oldorder: Seq<usize>,
    newcells: Seq<FreeCell>,
    p: int,
    i: int,
    pi: int,
    frontier: int,
    merge_allowed: bool,
    policy: AllocPolicy,
)
    requires
        cells_wf(oldcells, frontier),
        list_core(oldcells, oldhead, oldorder, merge_allowed),
        class_sized(oldcells, policy),
        alloc_whole_shape(oldcells, oldorder, newcells, p, i, pi),
    ensures
        cells_wf(newcells, frontier),
        class_sized(newcells, policy),
        addrs_unique(oldcells),
        p > 0 ==> pi != i,
        forall|j: int|
            0 <= j < newcells.len() ==> (#[trigger] newcells[j]).addr == oldcells[j].addr
                && newcells[j].header.end_addr() == oldcells[j].header.end_addr()
                && newcells[j].header.invalid_bit() == oldcells[j].header.invalid_bit()
                && newcells[j].header.prev_addr() == oldcells[j].header.prev_addr()
                && newcells[j].size_bytes() == oldcells[j].size_bytes(),
        forall|x: usize| contains_addr(newcells, x) == contains_addr(oldcells, x),
        forall|x: usize|
            contains_addr(oldcells, x) ==> #[trigger] idx_at(newcells, x) == idx_at(oldcells, x)
                && 0 <= idx_at(oldcells, x) < oldcells.len() && oldcells[idx_at(
                oldcells,
                x,
            )].addr == x,
{
    reveal(cells_wf);
    reveal(class_sized);
    lemma_unique_from_wf(oldcells, frontier);
    if p > 0 {
        lemma_order_cell(oldcells, oldhead, oldorder, merge_allowed, frontier, p - 1);
        lemma_order_cell(oldcells, oldhead, oldorder, merge_allowed, frontier, p);
        assert(oldorder[p - 1] != oldorder[p]);
        assert(pi != i);
    }
    assert forall|j: int| 0 <= j < newcells.len() implies (#[trigger] newcells[j]).addr
        == oldcells[j].addr && newcells[j].header.end_addr() == oldcells[j].header.end_addr()
        && newcells[j].header.invalid_bit() == oldcells[j].header.invalid_bit()
        && newcells[j].header.prev_addr() == oldcells[j].header.prev_addr()
        && newcells[j].header.neighbors.prev_bit_1() == oldcells[j].header.neighbors.prev_bit_1()
        && newcells[j].header.neighbors.prev_bit_2() == oldcells[j].header.neighbors.prev_bit_2()
        && newcells[j].size_bytes() == oldcells[j].size_bytes() by {}
    lemma_lookup_pointwise(oldcells, newcells);
    assert forall|j: int| 0 <= j < newcells.len() implies (#[trigger] newcells[j]).wf(
        frontier,
    ) by {
        assert(oldcells[j].wf(frontier));
        if j == i {
        } else if p > 0 && j == pi {
            assert(oldcells[i].wf(frontier));
            crate::bits::lemma_aligned_no_tags(oldcells[i].next_free_addr());
        }
    }
}

/// The order past the removed position still names free cells linked in
/// order.
#[verifier::rlimit(60)]
pub proof fn lemma_alloc_whole_links(
    oldcells: Seq<FreeCell>,
    oldhead: usize,
    oldorder: Seq<usize>,
    newcells: Seq<FreeCell>,
    p: int,
    i: int,
    pi: int,
    frontier: int,
    merge_allowed: bool,
)
    requires
        cells_wf(oldcells, frontier),
        list_core(oldcells, oldhead, oldorder, merge_allowed),
        alloc_whole_shape(oldcells, oldorder, newcells, p, i, pi),
        forall|x: usize| contains_addr(newcells, x) == contains_addr(oldcells, x),
        forall|x: usize|
            contains_addr(oldcells, x) ==> #[trigger] idx_at(newcells, x) == idx_at(oldcells, x)
                && 0 <= idx_at(oldcells, x) < oldcells.len() && oldcells[idx_at(
                oldcells,
                x,
            )].addr == x,
        p > 0 ==> pi != i,
    ensures
        forall|q: int|
            0 <= q < oldorder.remove(p).len() ==> contains_addr(
                newcells,
                #[trigger] oldorder.remove(p)[q],
            ) && !at_addr(newcells, oldorder.remove(p)[q]).header.alloc_bit() && at_addr(
                newcells,
                oldorder.remove(p)[q],
            ).next_free_addr() == (if q + 1 < oldorder.remove(p).len() {
                oldorder.remove(p)[q + 1]
            } else {
                0usize
            }),
{
    reveal(list_core);
    let neworder = oldorder.remove(p);
    let nf = oldcells[i].next_free_addr();
    lemma_at_addr(oldcells, frontier, i);
    assert(at_addr(oldcells, oldorder[p]) == oldcells[i]);
    assert forall|q: int|
        0 <= q < neworder.len() implies contains_addr(newcells, #[trigger] neworder[q])
        && !at_addr(newcells, neworder[q]).header.alloc_bit() && at_addr(
        newcells,
        neworder[q],
    ).next_free_addr() == (if q + 1 < neworder.len() {
        neworder[q + 1]
    } else {
        0usize
    }) by {
        let oq: int = if q < p {
            q
        } else {
            q + 1
        };
        let a = oldorder[oq];
        assert(contains_addr(oldcells, a));
        let k = idx_at(oldcells, a);
        assert(oldcells[k].addr == a);
        assert(idx_at(newcells, a) == k);
        if k == i {
            lemma_addr_unique(oldcells, frontier, k, i);
            assert(oldorder[oq] == oldorder[p]);
            assert(false);
        }
        if q == p - 1 {
            assert(k == pi) by {
                lemma_addr_unique(oldcells, frontier, k, pi);
            }
            assert(at_addr(newcells, a).next_free_addr() == nf & !3usize);
            lemma_cell_wf(oldcells, frontier, i);
            crate::bits::lemma_aligned_no_tags(nf);
            if p < oldorder.len() - 1 {
                assert(nf == oldorder[p + 1]);
            } else {
                assert(nf == 0);
            }
        } else {
            assert(p == 0 || k != pi) by {
                if p > 0 && k == pi {
                    lemma_addr_unique(oldcells, frontier, k, pi);
                    assert(oldorder[oq] == oldorder[p - 1]);
                }
            }
            assert(newcells[k] == oldcells[k]);
        }
    }
}

/// Deferred-merge marks survive the allocation: each still points at a free
/// predecessor standing next in the list.
#[verifier::rlimit(60)]
pub proof fn lemma_alloc_whole_marks(
    oldcells: Seq<FreeCell>,
    oldhead: usize,
    oldorder: Seq<usize>,
    newcells: Seq<FreeCell>,
    p: int,
    i: int,
    pi: int,
    frontier: int,
    merge_allowed: bool,
)
    requires
        cells_wf(oldcells, frontier),
        list_core(oldcells, oldhead, oldorder, merge_allowed),
        alloc_whole_shape(oldcells, oldorder, newcells, p, i, pi),
        forall|x: usize| contains_addr(newcells, x) == contains_addr(oldcells, x),
        forall|x: usize|
            contains_addr(oldcells, x) ==> #[trigger] idx_at(newcells, x) == idx_at(oldcells, x)
                && 0 <= idx_at(oldcells, x) < oldcells.len() && oldcells[idx_at(
                oldcells,
                x,
            )].addr == x,
        p > 0 ==> pi != i,
    ensures
        forall|q: int|
            0 <= q < oldorder.remove(p).len() && at_addr(
                newcells,
                #[trigger] oldorder.remove(p)[q],
            ).can_merge() ==> {
                let cc = at_addr(newcells, oldorder.remove(p)[q]);
                &&& merge_allowed
                &&& cc.header.prev_addr() != 0
                &&& cc.next_free_addr() == cc.header.prev_addr()
                &&& contains_addr(newcells, cc.header.prev_addr())
                &&& !at_addr(newcells, cc.header.prev_addr()).header.alloc_bit()
            },
{
    reveal(list_core);
    let neworder = oldorder.remove(p);
    assert forall|q: int|
        0 <= q < neworder.len() && at_addr(newcells, #[trigger] neworder[q]).can_merge() implies {
        let cc = at_addr(newcells, neworder[q]);
        &&& merge_allowed
        &&& cc.header.prev_addr() != 0
        &&& cc.next_free_addr() == cc.header.prev_addr()
        &&& contains_addr(newcells, cc.header.prev_addr())
        &&& !at_addr(newcells, cc.header.prev_addr()).header.alloc_bit()
    } by {
        let oq: int = if q < p {
            q
        } else {
            q + 1
        };
        let a = oldorder[oq];
        assert(contains_addr(oldcells, a));
        let k = idx_at(oldcells, a);
        assert(oldcells[k].addr == a);
        assert(idx_at(newcells, a) == k);
        if k == i {
            lemma_addr_unique(oldcells, frontier, k, i);
            assert(false);
        }
        if q == p - 1 {
            assert(k == pi) by {
                lemma_addr_unique(oldcells, frontier, k, pi);
            }
            lemma_cell_wf(oldcells, frontier, i);
            crate::bits::lemma_aligned_no_tags(oldcells[i].next_free_addr());
            assert(!at_addr(newcells, a).can_merge());
        } else {
            assert(p == 0 || k != pi) by {
                if p > 0 && k == pi {
                    lemma_addr_unique(oldcells, frontier, k, pi);
                }
            }
            assert(newcells[k] == oldcells[k]);
            let cc = at_addr(oldcells, a);
            assert(cc.can_merge());
            let pa = cc.header.prev_addr();
            assert(contains_addr(oldcells, pa));
            let kp = idx_at(oldcells, pa);
            assert(oldcells[kp].addr == pa);
            assert(idx_at(newcells, pa) == kp);
            if kp == i {
                // The predecessor would be the cell just allocated; but then
                // this entry stood just before position `p`, where the walk
                // has already cleared every mark.
                assert(cc.next_free_addr() == pa == oldorder[p]);
                if oq + 1 < oldorder.len() {
                    assert(oldorder[oq + 1] == oldorder[p]);
                    assert(oq + 1 == p);
                    assert(!at_addr(oldcells, oldorder[oq]).can_merge());
                    assert(false);
                } else {
                    assert(cc.next_free_addr() == 0);
                    lemma_cell_wf(oldcells, frontier, i);
                    assert(false);
                }
            } else if p > 0 && kp == pi {
                assert(!at_addr(newcells, pa).header.alloc_bit());
            } else {
                assert(newcells[kp] == oldcells[kp]);
            }
        }
    }
}

/// Whole-cell allocation keeps every law of the list.
#[verifier::rlimit(60)]
pub proof fn lemma_alloc_whole(
    oldcells: Seq<FreeCell>,
    oldhead: usize,
    oldorder: Seq<usize>,
    newcells: Seq<FreeCell>,
    p: int,
    i: int,
    pi: int,
    frontier: int,
    merge_allowed: bool,
    policy: AllocPolicy,
)
    requires
        cells_wf(oldcells, frontier),
        list_core(oldcells, oldhead, oldorder, merge_allowed),
        list_complete(oldcells, oldorder),
        class_sized(oldcells, policy),
        alloc_whole_shape(oldcells, oldorder, newcells, p, i, pi),
    ensures
        cells_wf(newcells, frontier),
        list_core(
            newcells,
            if p == 0 {
                oldcells[i].next_free_addr()
            } else {
                oldhead
            },
            oldorder.remove(p),
            merge_allowed,
        ),
        list_complete(newcells, oldorder.remove(p)),
        class_sized(newcells, policy),
{
    let neworder = oldorder.remove(p);
    let newhead: usize = if p == 0 {
        oldcells[i].next_free_addr()
    } else {
        oldhead
    };
    let nf = oldcells[i].next_free_addr();
    lemma_alloc_whole_cells(
        oldcells,
        oldhead,
        oldorder,
        newcells,
        p,
        i,
        pi,
        frontier,
        merge_allowed,
        policy,
    );
    lemma_alloc_whole_links(
        oldcells,
        oldhead,
        oldorder,
        newcells,
        p,
        i,
        pi,
        frontier,
        merge_allowed,
    );
    lemma_alloc_whole_marks(
        oldcells,
        oldhead,
        oldorder,
        newcells,
        p,
        i,
        pi,
        frontier,
        merge_allowed,
    );
    // Completeness: the allocated cell is the only one taken off the order.
    assert forall|j: int|
        0 <= j < newcells.len() && !(#[trigger] newcells[j]).header.alloc_bit() implies
        neworder.contains(newcells[j].addr) by {
        reveal(list_complete);
        assert(p == 0 || newcells[pi].header.alloc_bit() == oldcells[pi].header.alloc_bit());
        if j != i && (p == 0 || j != pi) {
            assert(newcells[j] == oldcells[j]);
        }
        assert(!oldcells[j].header.alloc_bit());
        assert(oldorder.contains(oldcells[j].addr));
        if newcells[j].addr == oldorder[p] {
            assert(oldcells[j].addr == oldcells[i].addr);
            lemma_addr_unique(oldcells, frontier, i, j);
            assert(false);
        }
        lemma_remove_keeps(oldorder, p, oldcells[j].addr);
    }
    assert(list_core(newcells, newhead, neworder, merge_allowed)) by {
        reveal(list_core);
        if p == 0 {
            lemma_cell_wf(oldcells, frontier, i);
            lemma_at_addr(oldcells, frontier, i);
            assert(at_addr(oldcells, oldorder[0]) == oldcells[i]);
            if oldorder.len() > 1 {
                assert(nf == oldorder[1]);
            } else {
                assert(nf == 0);
            }
        }
        assert forall|q: int, r: int|
            0 <= q < r < neworder.len() implies #[trigger] neworder[q] != #[trigger] neworder[r]
        by {
            let oq: int = if q < p { q } else { q + 1 };
            let or: int = if r < p { r } else { r + 1 };
            assert(neworder[q] == oldorder[oq]);
            assert(neworder[r] == oldorder[or]);
        }
    }
    assert(list_complete(newcells, neworder)) by {
        reveal(list_complete);
    }
}

/// No cell's header stands strictly inside another cell's extent.
pub proof fn lemma_addr_fresh_in_extent(cells: Seq<FreeCell>, frontier: int, i: int, a: usize)
    requires
        cells_wf(cells, frontier),
        0 <= i < cells.len(),
        cells[i].addr < a < cells[i].header.end_addr(),
    ensures
        forall|j: int| 0 <= j < cells.len() ==> (#[trigger] cells[j]).addr != a,
        !contains_addr(cells, a),
{
    reveal(cells_wf);
    assert forall|j: int| 0 <= j < cells.len() implies (#[trigger] cells[j]).addr != a by {
        if j != i {
            assert(cells[j].wf(frontier));
            assert(cells[i].header.end_addr() <= cells[j].addr || cells[j].header.end_addr()
                <= cells[i].addr);
        }
    }
    if contains_addr(cells, a) {
        let k = choose|k: int| 0 <= k < cells.len() && (#[trigger] cells[k]).addr == a;
        assert(cells[k].addr == a);
    }
}

/// The index mapping of a split: entries up to the candidate stay, the new
/// cell stands just after it, later entries shift up by one.
pub open spec fn split_shape(
    oldcells: Seq<FreeCell>,
    newcells: Seq<FreeCell>,
    i: int,
    b: FreeCell,
    n: FreeCell,
) -> bool {
    &&& 0 <= i < oldcells.len()
    &&& newcells.len() == oldcells.len() + 1
    &&& newcells[i] == b
    &&& newcells[i + 1] == n
    &&& b.addr == oldcells[i].addr
    &&& (forall|j: int| 0 <= j < i ==> #[trigger] newcells[j] == oldcells[j])
    &&& (forall|j: int|
        i + 2 <= j < newcells.len() ==> (#[trigger] newcells[j]).addr == oldcells[j - 1].addr)
}

/// Where each old address is found after a split at `i`.
pub open spec fn split_idx_map(oldcells: Seq<FreeCell>, newcells: Seq<FreeCell>, i: int) -> bool {
    forall|x: usize|
        contains_addr(oldcells, x) ==> contains_addr(newcells, x) && #[trigger] idx_at(
            newcells,
            x,
        ) == (if idx_at(oldcells, x) <= i {
            idx_at(oldcells, x)
        } else {
            idx_at(oldcells, x) + 1
        }) && 0 <= idx_at(oldcells, x) < oldcells.len() && oldcells[idx_at(oldcells, x)].addr == x
}

/// Lookups after a split: old addresses shift past the insertion point, the
/// new cell's address is fresh.
pub proof fn lemma_split_lookup(
    oldcells: Seq<FreeCell>,
    newcells: Seq<FreeCell>,
    i: int,
    b: FreeCell,
    n: FreeCell,
    frontier: int,
)
    requires
        cells_wf(oldcells, frontier),
        split_shape(oldcells, newcells, i, b, n),
        oldcells[i].addr < n.addr < oldcells[i].header.end_addr(),
    ensures
        split_idx_map(oldcells, newcells, i),
        contains_addr(newcells, n.addr),
        idx_at(newcells, n.addr) == i + 1,
        at_addr(newcells, n.addr) == n,
        !contains_addr(oldcells, n.addr),
        forall|x: usize| #[trigger]
            contains_addr(newcells, x) ==> x == n.addr || contains_addr(oldcells, x),
{
    lemma_unique_from_wf(oldcells, frontier);
    lemma_addr_fresh_in_extent(oldcells, frontier, i, n.addr);
    reveal(addrs_unique);
    assert forall|x: usize|
        contains_addr(oldcells, x) implies contains_addr(newcells, x) && #[trigger] idx_at(
        newcells,
        x,
    ) == (if idx_at(oldcells, x) <= i {
        idx_at(oldcells, x)
    } else {
        idx_at(oldcells, x) + 1
    }) && 0 <= idx_at(oldcells, x) < oldcells.len() && oldcells[idx_at(oldcells, x)].addr == x by {
        let k = idx_at(oldcells, x);
        assert(oldcells[k].addr == x);
        let k2: int = if k <= i {
            k
        } else {
            k + 1
        };
        assert(newcells[k2].addr == x);
        assert(contains_addr(newcells, x));
        let k3 = idx_at(newcells, x);
        assert(newcells[k3].addr == x);
        if k3 != k2 {
            let back: int = if k3 <= i {
                k3
            } else if k3 == i + 1 {
                k3
            } else {
                k3 - 1
            };
            if k3 == i + 1 {
                assert(newcells[k3].addr == n.addr);
                assert(false);
            } else {
                assert(oldcells[back].addr == x);
                assert(back == k);
                assert(false);
            }
        }
    }
    assert forall|x: usize|
        contains_addr(oldcells, x) implies #[trigger] contains_addr(newcells, x) by {
        let k = idx_at(oldcells, x);
        assert(oldcells[k].addr == x);
        let k2: int = if k <= i {
            k
        } else {
            k + 1
        };
        assert(newcells[k2].addr == x);
    }
    assert(newcells[i + 1].addr == n.addr);
    assert(contains_addr(newcells, n.addr));
    let k4 = idx_at(newcells, n.addr);
    assert(newcells[k4].addr == n.addr);
    if k4 != i + 1 {
        let back: int = if k4 <= i {
            k4
        } else {
            k4 - 1
        };
        assert(oldcells[back].addr == n.addr);
        assert(false);
    }
    assert forall|x: usize| #[trigger] contains_addr(newcells, x) implies x == n.addr
        || contains_addr(oldcells, x) by {
        let k = choose|k: int| 0 <= k < newcells.len() && (#[trigger] newcells[k]).addr == x;
        if k != i + 1 {
            let back: int = if k <= i {
                k
            } else {
                k - 1
            };
            assert(oldcells[back].addr == x);
        }
    }
}

/// The cell records a split writes: the candidate `b` keeps its address and
/// list word but now ends at the new cell `n`, which takes the tail of the
/// candidate's extent, the candidate's `NEXT_INVALID` flag, and is handed
/// out allocated.
pub open spec fn split_fields(cand: FreeCell, b: FreeCell, n: FreeCell) -> bool {
    &&& !cand.header.alloc_bit()
    &&& b.header.end_addr() == n.addr
    &&& !b.header.invalid_bit()
    &&& !b.header.alloc_bit()
    &&& b.header.neighbors.prev_raw() == cand.header.neighbors.prev_raw()
    &&& b.next_free_addr() == cand.next_free_addr()
    &&& !b.can_merge()
    &&& b.next_free_raw & 2 == 0
    &&& n.header.end_addr() == cand.header.end_addr()
    &&& n.header.invalid_bit() == cand.header.invalid_bit()
    &&& n.header.alloc_bit()
    &&& n.header.prev_addr() == cand.addr
    &&& !n.header.neighbors.prev_bit_1()
    &&& !n.header.neighbors.prev_bit_2()
    &&& n.next_free_raw == 0
    &&& cand.data_addr() + HEADER_SIZE + 8 <= n.addr
    &&& n.addr % 8 == 0
    &&& n.addr + HEADER_SIZE + 8 <= cand.header.end_addr()
}

/// The old successor keeps everything but its back link, which now names
/// the new cell.
pub open spec fn split_succ_fixed(s0: FreeCell, s1: FreeCell, n: FreeCell) -> bool {
    &&& s1.addr == s0.addr
    &&& s1.header.end_addr() == s0.header.end_addr()
    &&& s1.header.invalid_bit() == s0.header.invalid_bit()
    &&& s1.header.alloc_bit() == s0.header.alloc_bit()
    &&& s1.header.prev_addr() == n.addr
    &&& !s1.header.neighbors.prev_bit_1()
    &&& !s1.header.neighbors.prev_bit_2()
    &&& s1.next_free_raw == s0.next_free_raw
}

/// When the candidate was not the last cell of its block, its old successor
/// (now one slot further down) points back at the new cell.
pub open spec fn split_tail_fixed(
    oldcells: Seq<FreeCell>,
    newcells: Seq<FreeCell>,
    i: int,
    n: FreeCell,
) -> bool {
    &&& (oldcells[i].header.invalid_bit() ==> forall|j: int|
        i + 2 <= j < newcells.len() ==> #[trigger] newcells[j] == oldcells[j - 1])
    &&& (!oldcells[i].header.invalid_bit() ==> i + 1 < oldcells.len() && split_succ_fixed(
        oldcells[i + 1],
        newcells[i + 2],
        n,
    ) && forall|j: int| i + 3 <= j < newcells.len() ==> #[trigger] newcells[j] == oldcells[j - 1])
}

/// The chain step at one index.
pub proof fn lemma_adj(cells: Seq<FreeCell>, frontier: int, j: int)
    requires
        cells_wf(cells, frontier),
        0 <= j < cells.len(),
    ensures
        !cells[j].header.invalid_bit() ==> j + 1 < cells.len() && cells[j + 1].addr == cells[
            j].header.end_addr(),
{
    reveal(cells_wf);
}

/// The back link at one index.
pub proof fn lemma_prev_of(cells: Seq<FreeCell>, frontier: int, j: int)
    requires
        cells_wf(cells, frontier),
        0 <= j < cells.len(),
    ensures
        cells[j].header.prev_addr() == (if j > 0 && !cells[j - 1].header.invalid_bit() {
            cells[j - 1].addr
        } else {
            0usize
        }),
{
    reveal(cells_wf);
}

/// Extent disjointness of one pair.
pub proof fn lemma_disjoint_pair(cells: Seq<FreeCell>, frontier: int, j: int, k: int)
    requires
        cells_wf(cells, frontier),
        0 <= j < cells.len(),
        0 <= k < cells.len(),
        j != k,
    ensures
        cells[j].header.end_addr() <= cells[k].addr || cells[k].header.end_addr() <= cells[
            j].addr,
{
    reveal(cells_wf);
}

/// One cell's laws after a split.
proof fn lemma_split_wf_at(
    oldcells: Seq<FreeCell>,
    newcells: Seq<FreeCell>,
    i: int,
    b: FreeCell,
    n: FreeCell,
    frontier: int,
    j: int,
)
    requires
        cells_wf(oldcells, frontier),
        split_shape(oldcells, newcells, i, b, n),
        split_fields(oldcells[i], b, n),
        split_tail_fixed(oldcells, newcells, i, n),
        0 <= j < newcells.len(),
    ensures
        newcells[j].wf(frontier),
{
    lemma_cell_wf(oldcells, frontier, i);
    crate::bits::lemma_aligned_no_tags(0);
    if j < i {
        lemma_cell_wf(oldcells, frontier, j);
    } else if j == i || j == i + 1 {
    } else {
        lemma_cell_wf(oldcells, frontier, j - 1);
    }
}

/// After a split every cell is well-formed.
proof fn lemma_split_wf_each(
    oldcells: Seq<FreeCell>,
    newcells: Seq<FreeCell>,
    i: int,
    b: FreeCell,
    n: FreeCell,
    frontier: int,
)
    requires
        cells_wf(oldcells, frontier),
        split_shape(oldcells, newcells, i, b, n),
        split_fields(oldcells[i], b, n),
        split_tail_fixed(oldcells, newcells, i, n),
    ensures
        forall|j: int| 0 <= j < newcells.len() ==> (#[trigger] newcells[j]).wf(frontier),
{
    assert forall|j: int| 0 <= j < newcells.len() implies (#[trigger] newcells[j]).wf(
        frontier,
    ) by {
        lemma_split_wf_at(oldcells, newcells, i, b, n, frontier, j);
    }
}

/// The chain step at one index after a split.
proof fn lemma_split_adjacent_at(
    oldcells: Seq<FreeCell>,
    newcells: Seq<FreeCell>,
    i: int,
    b: FreeCell,
    n: FreeCell,
    frontier: int,
    j: int,
)
    requires
        cells_wf(oldcells, frontier),
        split_shape(oldcells, newcells, i, b, n),
        split_fields(oldcells[i], b, n),
        split_tail_fixed(oldcells, newcells, i, n),
        0 <= j < newcells.len(),
        !newcells[j].header.invalid_bit(),
    ensures
        j + 1 < newcells.len() && newcells[j + 1].addr == newcells[j].header.end_addr(),
{
    let cand = oldcells[i];
    if j < i {
        assert(newcells[j] == oldcells[j]);
        lemma_adj(oldcells, frontier, j);
        if j + 1 < i {
            assert(newcells[j + 1] == oldcells[j + 1]);
        }
    } else if j == i {
    } else if j == i + 1 {
        assert(!cand.header.invalid_bit());
        lemma_adj(oldcells, frontier, i);
    } else {
        assert(newcells[j].addr == oldcells[j - 1].addr && newcells[j].header.invalid_bit()
            == oldcells[j - 1].header.invalid_bit() && newcells[j].header.end_addr()
            == oldcells[j - 1].header.end_addr()) by {
            if !cand.header.invalid_bit() && j == i + 2 {
            } else {
                assert(newcells[j] == oldcells[j - 1]);
            }
        }
        lemma_adj(oldcells, frontier, j - 1);
        assert(oldcells[j].addr == oldcells[j - 1].header.end_addr());
        assert(newcells[j + 1].addr == oldcells[j].addr);
    }
}

/// After a split the physical chain still steps cell to cell.
proof fn lemma_split_adjacent(
    oldcells: Seq<FreeCell>,
    newcells: Seq<FreeCell>,
    i: int,
    b: FreeCell,
    n: FreeCell,
    frontier: int,
)
    requires
        cells_wf(oldcells, frontier),
        split_shape(oldcells, newcells, i, b, n),
        split_fields(oldcells[i], b, n),
        split_tail_fixed(oldcells, newcells, i, n),
    ensures
        forall|j: int|
            0 <= j < newcells.len() && !(#[trigger] newcells[j]).header.invalid_bit() ==> j + 1
                < newcells.len() && newcells[j + 1].addr == newcells[j].header.end_addr(),
{
    assert forall|j: int|
        0 <= j < newcells.len() && !(#[trigger] newcells[j]).header.invalid_bit() implies j + 1
        < newcells.len() && newcells[j + 1].addr == newcells[j].header.end_addr() by {
        lemma_split_adjacent_at(oldcells, newcells, i, b, n, frontier, j);
    }
}

/// The back link at one index after a split.
proof fn lemma_split_prev_at(
    oldcells: Seq<FreeCell>,
    newcells: Seq<FreeCell>,
    i: int,
    b: FreeCell,
    n: FreeCell,
    frontier: int,
    j: int,
)
    requires
        cells_wf(oldcells, frontier),
        split_shape(oldcells, newcells, i, b, n),
        split_fields(oldcells[i], b, n),
        split_tail_fixed(oldcells, newcells, i, n),
        0 <= j < newcells.len(),
    ensures
        newcells[j].header.prev_addr() == (if j > 0 && !newcells[j - 1].header.invalid_bit() {
            newcells[j - 1].addr
        } else {
            0usize
        }),
{
    let cand = oldcells[i];
    if j < i {
        assert(newcells[j] == oldcells[j]);
        lemma_prev_of(oldcells, frontier, j);
        if j > 0 {
            assert(newcells[j - 1] == oldcells[j - 1]);
        }
    } else if j == i {
        lemma_prev_of(oldcells, frontier, i);
        if i > 0 {
            assert(newcells[i - 1] == oldcells[i - 1]);
        }
    } else if j == i + 1 {
        assert(newcells[i] == b);
    } else if j == i + 2 && !cand.header.invalid_bit() {
        assert(newcells[i + 1] == n);
    } else {
        assert(newcells[j] == oldcells[j - 1]);
        lemma_prev_of(oldcells, frontier, j - 1);
        if j - 1 == i + 1 {
            // The slot before holds the new cell, which ends and flags
            // exactly as the candidate did.
            assert(cand.header.invalid_bit());
            assert(oldcells[j - 1].header.prev_addr() == 0);
            assert(newcells[j - 1].header.invalid_bit());
        } else if j - 1 == i + 2 {
            assert(newcells[j - 1].header.invalid_bit() == oldcells[j - 2].header.invalid_bit()
                && newcells[j - 1].addr == oldcells[j - 2].addr) by {
                if !cand.header.invalid_bit() {
                } else {
                    assert(newcells[j - 1] == oldcells[j - 2]);
                }
            }
        } else {
            assert(newcells[j - 1] == oldcells[j - 2]);
        }
    }
}

/// After a split every back link matches the chain.
proof fn lemma_split_prev(
    oldcells: Seq<FreeCell>,
    newcells: Seq<FreeCell>,
    i: int,
    b: FreeCell,
    n: FreeCell,
    frontier: int,
)
    requires
        cells_wf(oldcells, frontier),
        split_shape(oldcells, newcells, i, b, n),
        split_fields(oldcells[i], b, n),
        split_tail_fixed(oldcells, newcells, i, n),
    ensures
        forall|j: int|
            0 <= j < newcells.len() ==> (#[trigger] newcells[j]).header.prev_addr() == (if j > 0
                && !newcells[j - 1].header.invalid_bit() {
                newcells[j - 1].addr
            } else {
                0usize
            }),
{
    assert forall|j: int|
        0 <= j < newcells.len() implies (#[trigger] newcells[j]).header.prev_addr() == (if j > 0
        && !newcells[j - 1].header.invalid_bit() {
        newcells[j - 1].addr
    } else {
        0usize
    }) by {
        lemma_split_prev_at(oldcells, newcells, i, b, n, frontier, j);
    }
}

/// Extent disjointness of one pair after a split.
proof fn lemma_split_disjoint_at(
    oldcells: Seq<FreeCell>,
    newcells: Seq<FreeCell>,
    i: int,
    b: FreeCell,
    n: FreeCell,
    frontier: int,
    j: int,
    k: int,
)
    requires
        cells_wf(oldcells, frontier),
        split_shape(oldcells, newcells, i, b, n),
        split_fields(oldcells[i], b, n),
        split_tail_fixed(oldcells, newcells, i, n),
        0 <= j < newcells.len(),
        0 <= k < newcells.len(),
        j != k,
    ensures
        newcells[j].header.end_addr() <= newcells[k].addr || newcells[k].header.end_addr()
            <= newcells[j].addr,
{
    let cand = oldcells[i];
    let oj: int = if j <= i {
        j
    } else {
        j - 1
    };
    let ok: int = if k <= i {
        k
    } else {
        k - 1
    };
    assert(newcells[j].addr == oldcells[oj].addr || j == i + 1) by {
        if j != i + 1 && j != i && j != oj && !(j == i + 2 && !cand.header.invalid_bit()) {
            assert(newcells[j] == oldcells[oj]);
        }
    }
    assert(newcells[k].addr == oldcells[ok].addr || k == i + 1) by {
        if k != i + 1 && k != i && k != ok && !(k == i + 2 && !cand.header.invalid_bit()) {
            assert(newcells[k] == oldcells[ok]);
        }
    }
    assert(newcells[j].header.end_addr() == oldcells[oj].header.end_addr() || j == i || j == i
        + 1) by {
        if j != i && j != i + 1 && !(j == i + 2 && !cand.header.invalid_bit()) && j != oj {
            assert(newcells[j] == oldcells[oj]);
        } else if j == i + 2 && !cand.header.invalid_bit() {
        } else if j < i {
            assert(newcells[j] == oldcells[j]);
        }
    }
    assert(newcells[k].header.end_addr() == oldcells[ok].header.end_addr() || k == i || k == i
        + 1) by {
        if k != i && k != i + 1 && !(k == i + 2 && !cand.header.invalid_bit()) && k != ok {
            assert(newcells[k] == oldcells[ok]);
        } else if k == i + 2 && !cand.header.invalid_bit() {
        } else if k < i {
            assert(newcells[k] == oldcells[k]);
        }
    }
    if oj != ok {
        lemma_disjoint_pair(oldcells, frontier, oj, ok);
    } else {
        // One of the pair is the tail cell carved from the other.
        assert(j == i + 1 || k == i + 1);
    }
}

/// After a split cell extents stay disjoint.
proof fn lemma_split_disjoint(
    oldcells: Seq<FreeCell>,
    newcells: Seq<FreeCell>,
    i: int,
    b: FreeCell,
    n: FreeCell,
    frontier: int,
)
    requires
        cells_wf(oldcells, frontier),
        split_shape(oldcells, newcells, i, b, n),
        split_fields(oldcells[i], b, n),
        split_tail_fixed(oldcells, newcells, i, n),
    ensures
        forall|j: int, k: int|
            0 <= j < newcells.len() && 0 <= k < newcells.len() && j != k ==> (#[trigger]
            newcells[j]).header.end_addr() <= (#[trigger] newcells[k]).addr
                || newcells[k].header.end_addr() <= newcells[j].addr,
{
    assert forall|j: int, k: int|
        0 <= j < newcells.len() && 0 <= k < newcells.len() && j != k implies (#[trigger]
        newcells[j]).header.end_addr() <= (#[trigger] newcells[k]).addr
        || newcells[k].header.end_addr() <= newcells[j].addr by {
        lemma_split_disjoint_at(oldcells, newcells, i, b, n, frontier, j, k);
    }
}

/// One order position after a split: still free, still linked the same.
#[verifier::rlimit(100)]
proof fn lemma_split_list_at(
    oldcells: Seq<FreeCell>,
    oldhead: usize,
    oldorder: Seq<usize>,
    newcells: Seq<FreeCell>,
    p: int,
    i: int,
    b: FreeCell,
    n: FreeCell,
    frontier: int,
    merge_allowed: bool,
    q: int,
)
    requires
        cells_wf(oldcells, frontier),
        list_core(oldcells, oldhead, oldorder, merge_allowed),
        split_shape(oldcells, newcells, i, b, n),
        split_fields(oldcells[i], b, n),
        split_tail_fixed(oldcells, newcells, i, n),
        oldcells[i].addr < n.addr < oldcells[i].header.end_addr(),
        0 <= p < oldorder.len(),
        oldorder[p] == oldcells[i].addr,
        !oldcells[i].can_merge(),
        forall|r: int| 0 <= r < p ==> !at_addr(oldcells, #[trigger] oldorder[r]).can_merge(),
        0 <= q < oldorder.len(),
    ensures
        contains_addr(newcells, oldorder[q]),
        !at_addr(newcells, oldorder[q]).header.alloc_bit(),
        at_addr(newcells, oldorder[q]).next_free_addr() == (if q + 1 < oldorder.len() {
            oldorder[q + 1]
        } else {
            0usize
        }),
        at_addr(newcells, oldorder[q]).can_merge() ==> {
            let cc = at_addr(newcells, oldorder[q]);
            &&& merge_allowed
            &&& cc.header.prev_addr() != 0
            &&& cc.next_free_addr() == cc.header.prev_addr()
            &&& contains_addr(newcells, cc.header.prev_addr())
            &&& !at_addr(newcells, cc.header.prev_addr()).header.alloc_bit()
        },
{
    let cand = oldcells[i];
    lemma_split_lookup(oldcells, newcells, i, b, n, frontier);
    lemma_order_cell(oldcells, oldhead, oldorder, merge_allowed, frontier, q);
    let a = oldorder[q];
    let k = idx_at(oldcells, a);
    assert(oldcells[k].addr == a);
    let km: int = if k <= i {
        k
    } else {
        k + 1
    };
    assert(idx_at(newcells, a) == km);
    let cc0 = at_addr(oldcells, a);
    let cc = at_addr(newcells, a);
    assert(cc0 == oldcells[k]);
    assert(cc == newcells[km]);
    // The cell's list-relevant fields are untouched by the split.
    assert(cc.header.alloc_bit() == cc0.header.alloc_bit() && cc.can_merge() == cc0.can_merge()
        && cc.next_free_addr() == cc0.next_free_addr()) by {
        if k == i {
            lemma_at_addr(oldcells, frontier, i);
            assert(cc0 == cand);
            assert(cc == b);
        } else if k == i + 1 && !cand.header.invalid_bit() {
        } else if k < i {
            assert(newcells[k] == oldcells[k]);
        } else {
            assert(newcells[k + 1] == oldcells[k]);
        }
    }
    if q + 1 < oldorder.len() {
        assert(cc0.next_free_addr() == oldorder[q + 1]);
    } else {
        assert(cc0.next_free_addr() == 0);
    }
    assert(cc.next_free_addr() == cc0.next_free_addr());
    if cc.can_merge() {
        assert(cc0.can_merge());
        // A marked cell cannot be the split candidate or its successor:
        // the candidate carries no mark, and a marked successor would have
        // stood just before the candidate in the list, already cleared.
        if k == i {
            lemma_at_addr(oldcells, frontier, i);
            assert(false);
        }
        let pa = cc0.header.prev_addr();
        lemma_order_mark(oldcells, oldhead, oldorder, merge_allowed, q);
        assert(merge_allowed && pa != 0 && cc0.next_free_addr() == pa && contains_addr(
            oldcells,
            pa,
        ) && !at_addr(oldcells, pa).header.alloc_bit());
        if k == i + 1 && !cand.header.invalid_bit() {
            lemma_prev_of(oldcells, frontier, i + 1);
            lemma_adj(oldcells, frontier, i);
            assert(pa == cand.addr);
            assert(oldorder[q + 1] == cand.addr);
            lemma_order_distinct(oldcells, oldhead, oldorder, merge_allowed, p, q + 1);
            if q + 1 != p {
                assert(false);
            }
            assert(!at_addr(oldcells, oldorder[q]).can_merge());
            assert(false);
        }
        if k > i && cand.header.invalid_bit() {
            assert(newcells[k + 1] == oldcells[k]);
        }
        // The mark's fields are identical in the new table.
        assert(cc.header.prev_addr() == pa) by {
            if k < i {
                assert(newcells[k] == oldcells[k]);
            } else if k == i + 1 {
                assert(cand.header.invalid_bit());
                assert(newcells[k + 1] == oldcells[k]);
            } else {
                assert(newcells[k + 1] == oldcells[k]);
            }
        }
        let kp = idx_at(oldcells, pa);
        assert(oldcells[kp].addr == pa);
        let kpm: int = if kp <= i {
            kp
        } else {
            kp + 1
        };
        assert(idx_at(newcells, pa) == kpm);
        assert(!at_addr(newcells, pa).header.alloc_bit()) by {
            if kp == i {
                lemma_at_addr(oldcells, frontier, i);
                assert(at_addr(newcells, pa) == b);
            } else if kp == i + 1 && !cand.header.invalid_bit() {
            } else if kp < i {
                assert(newcells[kp] == oldcells[kp]);
            } else {
                assert(newcells[kp + 1] == oldcells[kp]);
            }
        }
    }
}

/// A split keeps the list laws: the order itself does not change.
#[verifier::rlimit(100)]
pub proof fn lemma_split_list(
    oldcells: Seq<FreeCell>,
    oldhead: usize,
    oldorder: Seq<usize>,
    newcells: Seq<FreeCell>,
    p: int,
    i: int,
    b: FreeCell,
    n: FreeCell,
    frontier: int,
    merge_allowed: bool,
)
    requires
        cells_wf(oldcells, frontier),
        list_core(oldcells, oldhead, oldorder, merge_allowed),
        list_complete(oldcells, oldorder),
        split_shape(oldcells, newcells, i, b, n),
        split_fields(oldcells[i], b, n),
        split_tail_fixed(oldcells, newcells, i, n),
        oldcells[i].addr < n.addr < oldcells[i].header.end_addr(),
        0 <= p < oldorder.len(),
        oldorder[p] == oldcells[i].addr,
        !oldcells[i].can_merge(),
        forall|r: int| 0 <= r < p ==> !at_addr(oldcells, #[trigger] oldorder[r]).can_merge(),
    ensures
        list_core(newcells, oldhead, oldorder, merge_allowed),
        list_complete(newcells, oldorder),
{
    let cand = oldcells[i];
    lemma_split_lookup(oldcells, newcells, i, b, n, frontier);
    assert forall|q: int|
        0 <= q < oldorder.len() implies contains_addr(newcells, #[trigger] oldorder[q])
        && !at_addr(newcells, oldorder[q]).header.alloc_bit() && at_addr(
        newcells,
        oldorder[q],
    ).next_free_addr() == (if q + 1 < oldorder.len() {
        oldorder[q + 1]
    } else {
        0usize
    }) && (at_addr(newcells, oldorder[q]).can_merge() ==> {
        let cc = at_addr(newcells, oldorder[q]);
        &&& merge_allowed
        &&& cc.header.prev_addr() != 0
        &&& cc.next_free_addr() == cc.header.prev_addr()
        &&& contains_addr(newcells, cc.header.prev_addr())
        &&& !at_addr(newcells, cc.header.prev_addr()).header.alloc_bit()
    }) by {
        lemma_split_list_at(
            oldcells,
            oldhead,
            oldorder,
            newcells,
            p,
            i,
            b,
            n,
            frontier,
            merge_allowed,
            q,
        );
    }
    assert forall|j: int|
        0 <= j < newcells.len() && !(#[trigger] newcells[j]).header.alloc_bit() implies
        oldorder.contains(newcells[j].addr) by {
        reveal(list_complete);
        if j < i {
            assert(newcells[j] == oldcells[j]);
            assert(oldorder.contains(oldcells[j].addr));
        } else if j == i {
            assert(oldorder[p] == newcells[j].addr);
        } else if j == i + 1 {
            assert(false);
        } else {
            assert(newcells[j].addr == oldcells[j - 1].addr && newcells[j].header.alloc_bit()
                == oldcells[j - 1].header.alloc_bit()) by {
                if j == i + 2 && !cand.header.invalid_bit() {
                } else {
                    assert(newcells[j] == oldcells[j - 1]);
                }
            }
            assert(oldorder.contains(oldcells[j - 1].addr));
        }
    }
    assert(list_core(newcells, oldhead, oldorder, merge_allowed)) by {
        reveal(list_core);
    }
    assert(list_complete(newcells, oldorder)) by {
        reveal(list_complete);
    }
}

/// A split keeps the table laws.
pub proof fn lemma_split_cells(
    oldcells: Seq<FreeCell>,
    newcells: Seq<FreeCell>,
    i: int,
    b: FreeCell,
    n: FreeCell,
    frontier: int,
)
    requires
        cells_wf(oldcells, frontier),
        split_shape(oldcells, newcells, i, b, n),
        split_fields(oldcells[i], b, n),
        split_tail_fixed(oldcells, newcells, i, n),
    ensures
        cells_wf(newcells, frontier),
{
    lemma_split_wf_each(oldcells, newcells, i, b, n, frontier);
    lemma_split_adjacent(oldcells, newcells, i, b, n, frontier);
    lemma_split_prev(oldcells, newcells, i, b, n, frontier);
    lemma_split_disjoint(oldcells, newcells, i, b, n, frontier);
    assert(cells_wf(newcells, frontier)) by {
        reveal(cells_wf);
    }
}

/// The field changes of a deferred merge performed during a walk: the cell
/// at old table index `i` (order position `p`) folds into its physical
/// predecessor `i - 1`, which takes its end and `NEXT_INVALID` flag; the old
/// successor's back link and the preceding list slot are rewired. `pi` is
/// the old table index of the list slot (order position `p - 1`) when
/// `p > 0`.
pub open spec fn merge_shape(
    oldcells: Seq<FreeCell>,
    oldorder: Seq<usize>,
    newcells: Seq<FreeCell>,
    p: int,
    i: int,
    pi: int,
) -> bool {
    &&& 0 < i < oldcells.len()
    &&& newcells.len() == oldcells.len() - 1
    &&& (p > 0 ==> 0 <= pi < oldcells.len() && oldcells[pi].addr == oldorder[p - 1] && pi != i
        && pi != i - 1)
    &&& forall|j: int|
        0 <= j < newcells.len() ==> #[trigger] merge_cell_ok(oldcells, newcells, p, i, pi, j)
}

/// One record of the table after a deferred merge.
pub open spec fn merge_cell_ok(
    oldcells: Seq<FreeCell>,
    newcells: Seq<FreeCell>,
    p: int,
    i: int,
    pi: int,
    j: int,
) -> bool {
    let oj: int = if j <= i - 1 {
        j
    } else {
        j + 1
    };
    let a = oldcells[oj];
    let b = newcells[j];
    &&& b.addr == a.addr
    &&& b.header.end_addr() == (if j == i - 1 {
        oldcells[i].header.end_addr()
    } else {
        a.header.end_addr()
    })
    &&& b.header.invalid_bit() == (if j == i - 1 {
        oldcells[i].header.invalid_bit()
    } else {
        a.header.invalid_bit()
    })
    &&& b.header.alloc_bit() == a.header.alloc_bit()
    &&& (if j == i && !oldcells[i].header.invalid_bit() {
        b.header.prev_addr() == oldcells[i - 1].addr && !b.header.neighbors.prev_bit_1()
            && !b.header.neighbors.prev_bit_2()
    } else {
        b.header.neighbors.prev_raw() == a.header.neighbors.prev_raw()
    })
    &&& (if p > 0 && oj == pi {
        b.next_free_raw == oldcells[i - 1].addr
    } else {
        b.next_free_raw == a.next_free_raw
    })
}

/// The physical situation every merge needs: the cell at `i` follows a free
/// cell at `i - 1` within one block, and both are free.
pub open spec fn merge_ctx(cells: Seq<FreeCell>, i: int) -> bool {
    &&& 0 < i < cells.len()
    &&& !cells[i - 1].header.invalid_bit()
    &&& cells[i - 1].header.end_addr() == cells[i].addr
    &&& !cells[i - 1].header.alloc_bit()
    &&& !cells[i].header.alloc_bit()
}

/// The laws a deferred merge needs of its surroundings, all consequences of
/// the list and table laws at the marked cell.
pub proof fn lemma_merge_context(
    cells: Seq<FreeCell>,
    head: usize,
    order: Seq<usize>,
    frontier: int,
    p: int,
    i: int,
)
    requires
        cells_wf(cells, frontier),
        list_core(cells, head, order, true),
        0 <= p < order.len(),
        0 <= i < cells.len(),
        cells[i].addr == order[p],
        cells[i].can_merge(),
    ensures
        0 < i,
        p + 1 < order.len(),
        cells[i].header.prev_addr() == cells[i - 1].addr,
        order[p + 1] == cells[i - 1].addr,
        !cells[i - 1].header.alloc_bit(),
        !cells[i - 1].header.invalid_bit(),
        cells[i - 1].header.end_addr() == cells[i].addr,
        !cells[i].header.alloc_bit(),
{
    lemma_at_addr(cells, frontier, i);
    lemma_order_mark(cells, head, order, true, p);
    lemma_order_cell(cells, head, order, true, frontier, p);
    let pa = cells[i].header.prev_addr();
    assert(pa != 0);
    lemma_prev_of(cells, frontier, i);
    if i == 0 {
        assert(false);
    }
    assert(pa == cells[i - 1].addr);
    assert(!cells[i - 1].header.invalid_bit());
    lemma_adj(cells, frontier, i - 1);
    assert(cells[i].next_free_addr() == pa);
    lemma_cell_wf(cells, frontier, i - 1);
    if p + 1 >= order.len() {
        assert(cells[i].next_free_addr() == 0);
        assert(pa >= crate::PAGE_SIZE);
        assert(false);
    }
    let km = idx_at(cells, pa);
    assert(cells[km].addr == pa);
    lemma_addr_unique(cells, frontier, km, i - 1);
    assert(!at_addr(cells, pa).header.alloc_bit());
}

/// One cell's laws after a deferred merge.
proof fn lemma_merge_wf_at(
    oldcells: Seq<FreeCell>,
    oldhead: usize,
    oldorder: Seq<usize>,
    newcells: Seq<FreeCell>,
    p: int,
    i: int,
    pi: int,
    frontier: int,
    j: int,
)
    requires
        cells_wf(oldcells, frontier),
        merge_ctx(oldcells, i),
        merge_shape(oldcells, oldorder, newcells, p, i, pi),
        0 <= j < newcells.len(),
    ensures
        newcells[j].wf(frontier),
{
    assert(merge_cell_ok(oldcells, newcells, p, i, pi, j));
    let oj: int = if j <= i - 1 {
        j
    } else {
        j + 1
    };
    lemma_cell_wf(oldcells, frontier, oj);
    lemma_cell_wf(oldcells, frontier, i);
    lemma_cell_wf(oldcells, frontier, i - 1);
    if p > 0 && oj == pi {
        crate::bits::lemma_aligned_no_tags(oldcells[i - 1].addr);
    }
    if j == i && !oldcells[i].header.invalid_bit() {
        crate::bits::lemma_aligned_no_tags(oldcells[i - 1].addr);
    }
}

/// The chain step at one index after a deferred merge.
proof fn lemma_merge_adjacent_at(
    oldcells: Seq<FreeCell>,
    oldhead: usize,
    oldorder: Seq<usize>,
    newcells: Seq<FreeCell>,
    p: int,
    i: int,
    pi: int,
    frontier: int,
    j: int,
)
    requires
        cells_wf(oldcells, frontier),
        merge_ctx(oldcells, i),
        merge_shape(oldcells, oldorder, newcells, p, i, pi),
        0 <= j < newcells.len(),
        !newcells[j].header.invalid_bit(),
    ensures
        j + 1 < newcells.len() && newcells[j + 1].addr == newcells[j].header.end_addr(),
{
    assert(merge_cell_ok(oldcells, newcells, p, i, pi, j));
    assert(merge_cell_ok(oldcells, newcells, p, i, pi, j + 1) || j + 1 >= newcells.len());
    if j < i - 1 {
        lemma_adj(oldcells, frontier, j);
    } else if j == i - 1 {
        lemma_adj(oldcells, frontier, i);
    } else {
        lemma_adj(oldcells, frontier, j + 1);
    }
}

/// The back link at one index after a deferred merge.
proof fn lemma_merge_prev_at(
    oldcells: Seq<FreeCell>,
    oldhead: usize,
    oldorder: Seq<usize>,
    newcells: Seq<FreeCell>,
    p: int,
    i: int,
    pi: int,
    frontier: int,
    j: int,
)
    requires
        cells_wf(oldcells, frontier),
        merge_ctx(oldcells, i),
        merge_shape(oldcells, oldorder, newcells, p, i, pi),
        0 <= j < newcells.len(),
    ensures
        newcells[j].header.prev_addr() == (if j > 0 && !newcells[j - 1].header.invalid_bit() {
            newcells[j - 1].addr
        } else {
            0usize
        }),
{
    assert(merge_cell_ok(oldcells, newcells, p, i, pi, j));
    if j > 0 {
        assert(merge_cell_ok(oldcells, newcells, p, i, pi, j - 1));
    }
    if j < i - 1 {
        lemma_prev_of(oldcells, frontier, j);
    } else if j == i - 1 {
        lemma_prev_of(oldcells, frontier, i - 1);
    } else if j == i {
        if oldcells[i].header.invalid_bit() {
            lemma_prev_of(oldcells, frontier, i + 1);
        }
    } else {
        lemma_prev_of(oldcells, frontier, j + 1);
    }
}

/// Extent disjointness of one pair after a deferred merge.
proof fn lemma_merge_disjoint_at(
    oldcells: Seq<FreeCell>,
    oldhead: usize,
    oldorder: Seq<usize>,
    newcells: Seq<FreeCell>,
    p: int,
    i: int,
    pi: int,
    frontier: int,
    j: int,
    k: int,
)
    requires
        cells_wf(oldcells, frontier),
        merge_ctx(oldcells, i),
        merge_shape(oldcells, oldorder, newcells, p, i, pi),
        0 <= j < newcells.len(),
        0 <= k < newcells.len(),
        j != k,
    ensures
        newcells[j].header.end_addr() <= newcells[k].addr || newcells[k].header.end_addr()
            <= newcells[j].addr,
{
    assert(merge_cell_ok(oldcells, newcells, p, i, pi, j));
    assert(merge_cell_ok(oldcells, newcells, p, i, pi, k));
    let oj: int = if j <= i - 1 {
        j
    } else {
        j + 1
    };
    let ok: int = if k <= i - 1 {
        k
    } else {
        k + 1
    };
    lemma_disjoint_pair(oldcells, frontier, oj, ok);
    lemma_cell_wf(oldcells, frontier, oj);
    lemma_cell_wf(oldcells, frontier, ok);
    if j == i - 1 {
        lemma_disjoint_pair(oldcells, frontier, i, ok);
        lemma_cell_wf(oldcells, frontier, i);
    }
    if k == i - 1 {
        lemma_disjoint_pair(oldcells, frontier, i, oj);
        lemma_cell_wf(oldcells, frontier, i);
    }
}

/// Lookups after a merge: addresses shift down past the removed cell, whose
/// own address is gone.
pub proof fn lemma_merge_lookup(
    oldcells: Seq<FreeCell>,
    newcells: Seq<FreeCell>,
    i: int,
    frontier: int,
)
    requires
        cells_wf(oldcells, frontier),
        0 < i < oldcells.len(),
        newcells.len() == oldcells.len() - 1,
        forall|j: int|
            0 <= j < newcells.len() ==> (#[trigger] newcells[j]).addr == oldcells[(if j <= i - 1 {
                j
            } else {
                j + 1
            })].addr,
    ensures
        forall|x: usize|
            x != oldcells[i].addr && contains_addr(oldcells, x) ==> contains_addr(newcells, x)
                && #[trigger] idx_at(newcells, x) == (if idx_at(oldcells, x) <= i - 1 {
                idx_at(oldcells, x)
            } else {
                idx_at(oldcells, x) - 1
            }) && 0 <= idx_at(oldcells, x) < oldcells.len() && oldcells[idx_at(oldcells, x)].addr
                == x && idx_at(oldcells, x) != i,
        !contains_addr(newcells, oldcells[i].addr),
        forall|x: usize| #[trigger]
            contains_addr(newcells, x) ==> contains_addr(oldcells, x) && x != oldcells[i].addr,
{
    lemma_unique_from_wf(oldcells, frontier);
    reveal(addrs_unique);
    assert forall|x: usize|
        x != oldcells[i].addr && contains_addr(oldcells, x) implies contains_addr(newcells, x)
        && #[trigger] idx_at(newcells, x) == (if idx_at(oldcells, x) <= i - 1 {
        idx_at(oldcells, x)
    } else {
        idx_at(oldcells, x) - 1
    }) && 0 <= idx_at(oldcells, x) < oldcells.len() && oldcells[idx_at(oldcells, x)].addr == x
        && idx_at(oldcells, x) != i by {
        let k = idx_at(oldcells, x);
        assert(oldcells[k].addr == x);
        assert(k != i);
        let k2: int = if k <= i - 1 {
            k
        } else {
            k - 1
        };
        assert(newcells[k2].addr == x);
        assert(contains_addr(newcells, x));
        let k3 = idx_at(newcells, x);
        assert(newcells[k3].addr == x);
        if k3 != k2 {
            let back: int = if k3 <= i - 1 {
                k3
            } else {
                k3 + 1
            };
            assert(oldcells[back].addr == x);
            assert(back == k);
            assert(false);
        }
    }
    assert forall|x: usize|
        x != oldcells[i].addr && contains_addr(oldcells, x) implies #[trigger] contains_addr(
        newcells,
        x,
    ) by {
        let k = idx_at(oldcells, x);
        assert(oldcells[k].addr == x);
        let k2: int = if k <= i - 1 {
            k
        } else {
            k - 1
        };
        assert(newcells[k2].addr == x);
    }
    if contains_addr(newcells, oldcells[i].addr) {
        let k = choose|k: int|
            0 <= k < newcells.len() && (#[trigger] newcells[k]).addr == oldcells[i].addr;
        let back: int = if k <= i - 1 {
            k
        } else {
            k + 1
        };
        assert(oldcells[back].addr == oldcells[i].addr);
        assert(false);
    }
    assert forall|x: usize| #[trigger] contains_addr(newcells, x) implies contains_addr(
        oldcells,
        x,
    ) && x != oldcells[i].addr by {
        let k = choose|k: int| 0 <= k < newcells.len() && (#[trigger] newcells[k]).addr == x;
        let back: int = if k <= i - 1 {
            k
        } else {
            k + 1
        };
        assert(oldcells[back].addr == x);
    }
}

/// One order position after a deferred merge: the surviving entries keep
/// their freedom and their links, with the slot before the removed entry
/// rewired to the merged cell.
#[verifier::rlimit(100)]
proof fn lemma_merge_list_at(
    oldcells: Seq<FreeCell>,
    oldhead: usize,
    oldorder: Seq<usize>,
    newcells: Seq<FreeCell>,
    p: int,
    i: int,
    pi: int,
    frontier: int,
    q: int,
)
    requires
        cells_wf(oldcells, frontier),
        list_core(oldcells, oldhead, oldorder, true),
        0 <= p < oldorder.len(),
        oldcells[i].addr == oldorder[p],
        oldcells[i].can_merge(),
        forall|r: int| 0 <= r < p ==> !at_addr(oldcells, #[trigger] oldorder[r]).can_merge(),
        merge_shape(oldcells, oldorder, newcells, p, i, pi),
        0 <= q < oldorder.remove(p).len(),
    ensures
        contains_addr(newcells, oldorder.remove(p)[q]),
        !at_addr(newcells, oldorder.remove(p)[q]).header.alloc_bit(),
        at_addr(newcells, oldorder.remove(p)[q]).next_free_addr() == (if q + 1
            < oldorder.remove(p).len() {
            oldorder.remove(p)[q + 1]
        } else {
            0usize
        }),
        at_addr(newcells, oldorder.remove(p)[q]).can_merge() ==> {
            let cc = at_addr(newcells, oldorder.remove(p)[q]);
            &&& cc.header.prev_addr() != 0
            &&& cc.next_free_addr() == cc.header.prev_addr()
            &&& contains_addr(newcells, cc.header.prev_addr())
            &&& !at_addr(newcells, cc.header.prev_addr()).header.alloc_bit()
        },
        q < p ==> !at_addr(newcells, oldorder.remove(p)[q]).can_merge(),
{
    lemma_merge_context(oldcells, oldhead, oldorder, frontier, p, i);
    assert forall|j: int| 0 <= j < newcells.len() implies (#[trigger] newcells[j]).addr
        == oldcells[(if j <= i - 1 {
        j
    } else {
        j + 1
    })].addr by {
        assert(merge_cell_ok(oldcells, newcells, p, i, pi, j));
    }
    lemma_merge_lookup(oldcells, newcells, i, frontier);
    let neworder = oldorder.remove(p);
    let oq: int = if q < p {
        q
    } else {
        q + 1
    };
    let a = oldorder[oq];
    lemma_order_cell(oldcells, oldhead, oldorder, true, frontier, oq);
    lemma_order_distinct(oldcells, oldhead, oldorder, true, if oq < p { oq } else { p }, if oq
        < p { p } else { oq });
    assert(a != oldorder[p]);
    let k = idx_at(oldcells, a);
    assert(oldcells[k].addr == a);
    assert(k != i);
    let km: int = if k <= i - 1 {
        k
    } else {
        k - 1
    };
    assert(idx_at(newcells, a) == km);
    let cc0 = at_addr(oldcells, a);
    let cc = at_addr(newcells, a);
    assert(cc0 == oldcells[k]);
    assert(cc == newcells[km]);
    assert(merge_cell_ok(oldcells, newcells, p, i, pi, km));
    assert(cc.header.alloc_bit() == cc0.header.alloc_bit());
    // The slot is the only entry whose list word changed; it now points at
    // the merged cell, with the mark cleared.
    if p > 0 && k == pi {
        assert(a == oldcells[pi].addr);
        assert(a == oldorder[p - 1]);
        assert(oq == p - 1) by {
            if oq != p - 1 {
                lemma_order_distinct(oldcells, oldhead, oldorder, true, if oq < p - 1 { oq }
                    else { p - 1 }, if oq < p - 1 { p - 1 } else { oq });
            }
        }
        assert(q == p - 1);
        assert(cc.next_free_raw == oldcells[i - 1].addr);
        lemma_cell_wf(oldcells, frontier, i - 1);
        crate::bits::lemma_aligned_no_tags(oldcells[i - 1].addr);
        assert(cc.next_free_addr() == oldcells[i - 1].addr);
        assert(neworder[q + 1] == oldorder[p + 1]);
        assert(!cc.can_merge());
    } else {
        assert(cc.next_free_raw == cc0.next_free_raw) by {
            if p > 0 {
                lemma_order_cell(oldcells, oldhead, oldorder, true, frontier, p - 1);
                let kpi = idx_at(oldcells, oldorder[p - 1]);
                if k != kpi {
                }
            }
        }
        if q + 1 < neworder.len() {
            assert(cc0.next_free_addr() == oldorder[oq + 1]);
            if oq + 1 == p {
                // The entry just before the removed one: its link named the
                // removed entry, so it must be the slot, handled above.
                assert(p > 0 && oq == p - 1);
                assert(oldcells[pi].addr == oldorder[p - 1] == a);
                lemma_addr_unique(oldcells, frontier, k, pi);
                assert(false);
            }
            assert(neworder[q + 1] == oldorder[oq + 1]);
        } else {
            if oq + 1 < oldorder.len() {
                assert(oq + 1 == p);
                assert(p > 0 && oq == p - 1);
                assert(oldcells[pi].addr == oldorder[p - 1] == a);
                lemma_addr_unique(oldcells, frontier, k, pi);
                assert(false);
            }
            assert(cc0.next_free_addr() == 0);
        }
        if cc.can_merge() {
            assert(cc0.can_merge());
            if q < p {
                assert(!at_addr(oldcells, oldorder[oq]).can_merge());
                assert(false);
            }
            lemma_order_mark(oldcells, oldhead, oldorder, true, oq);
            let pa = cc0.header.prev_addr();
            assert(cc.header.prev_addr() == pa) by {
                if km == i && !oldcells[i].header.invalid_bit() {
                    // This would make the marked entry the removed cell's
                    // old successor, whose link named the removed cell: it
                    // would stand just before position `p`, already cleared.
                    lemma_prev_of(oldcells, frontier, i + 1);
                    assert(pa == oldcells[i].addr);
                    assert(cc0.next_free_addr() == oldorder[p]);
                    assert(oq + 1 < oldorder.len() ==> oldorder[oq + 1] == oldorder[p]);
                    if oq + 1 < oldorder.len() {
                        lemma_order_distinct(oldcells, oldhead, oldorder, true, if oq + 1 < p {
                            oq + 1
                        } else { p }, if oq + 1 < p { p } else { oq + 1 });
                        assert(oq + 1 == p);
                        assert(false);
                    } else {
                        assert(cc0.next_free_addr() == 0);
                        lemma_cell_wf(oldcells, frontier, i);
                        assert(false);
                    }
                }
            }
            assert(pa != 0 && cc0.next_free_addr() == pa);
            let kp = idx_at(oldcells, pa);
            assert(oldcells[kp].addr == pa);
            assert(kp != i) by {
                if kp == i {
                    // Then the mark names the removed cell as predecessor:
                    // its link named the removed entry, so it stood just
                    // before `p`, already cleared.
                    assert(cc0.next_free_addr() == oldorder[p]);
                    if oq + 1 < oldorder.len() {
                        assert(oldorder[oq + 1] == oldorder[p]);
                        lemma_order_distinct(oldcells, oldhead, oldorder, true, if oq + 1 < p {
                            oq + 1
                        } else { p }, if oq + 1 < p { p } else { oq + 1 });
                        assert(oq + 1 == p);
                        assert(oq == p - 1 && q == p - 1);
                        assert(false);
                    } else {
                        lemma_cell_wf(oldcells, frontier, i);
                        assert(false);
                    }
                }
            }
            assert(pa != oldcells[i].addr) by {
                if pa == oldcells[i].addr {
                    lemma_addr_unique(oldcells, frontier, kp, i);
                }
            }
            let kpm: int = if kp <= i - 1 {
                kp
            } else {
                kp - 1
            };
            assert(idx_at(newcells, pa) == kpm);
            assert(merge_cell_ok(oldcells, newcells, p, i, pi, kpm));
            assert(!at_addr(newcells, pa).header.alloc_bit());
        }
    }
}

/// A merge keeps the table laws.
pub proof fn lemma_merge_tables(
    oldcells: Seq<FreeCell>,
    oldhead: usize,
    oldorder: Seq<usize>,
    newcells: Seq<FreeCell>,
    p: int,
    i: int,
    pi: int,
    frontier: int,
)
    requires
        cells_wf(oldcells, frontier),
        merge_ctx(oldcells, i),
        merge_shape(oldcells, oldorder, newcells, p, i, pi),
    ensures
        cells_wf(newcells, frontier),
{
    assert forall|j: int| 0 <= j < newcells.len() implies (#[trigger] newcells[j]).wf(frontier)
        && newcells[j].header.prev_addr() == (if j > 0 && !newcells[j - 1].header.invalid_bit() {
        newcells[j - 1].addr
    } else {
        0usize
    }) by {
        lemma_merge_wf_at(oldcells, oldhead, oldorder, newcells, p, i, pi, frontier, j);
        lemma_merge_prev_at(oldcells, oldhead, oldorder, newcells, p, i, pi, frontier, j);
    }
    assert forall|j: int|
        0 <= j < newcells.len() && !(#[trigger] newcells[j]).header.invalid_bit() implies j + 1
        < newcells.len() && newcells[j + 1].addr == newcells[j].header.end_addr() by {
        lemma_merge_adjacent_at(oldcells, oldhead, oldorder, newcells, p, i, pi, frontier, j);
    }
    assert forall|j: int, k: int|
        0 <= j < newcells.len() && 0 <= k < newcells.len() && j != k implies (#[trigger]
        newcells[j]).header.end_addr() <= (#[trigger] newcells[k]).addr
        || newcells[k].header.end_addr() <= newcells[j].addr by {
        lemma_merge_disjoint_at(oldcells, oldhead, oldorder, newcells, p, i, pi, frontier, j, k);
    }
    assert(cells_wf(newcells, frontier)) by {
        reveal(cells_wf);
    }
}

/// A deferred merge keeps every law; the order loses the merged-away entry.
#[verifier::rlimit(100)]
pub proof fn lemma_merge(
    oldcells: Seq<FreeCell>,
    oldhead: usize,
    oldorder: Seq<usize>,
    newcells: Seq<FreeCell>,
    p: int,
    i: int,
    pi: int,
    frontier: int,
)
    requires
        cells_wf(oldcells, frontier),
        list_core(oldcells, oldhead, oldorder, true),
        list_complete(oldcells, oldorder),
        0 <= p < oldorder.len(),
        oldcells[i].addr == oldorder[p],
        0 <= i < oldcells.len(),
        oldcells[i].can_merge(),
        forall|r: int| 0 <= r < p ==> !at_addr(oldcells, #[trigger] oldorder[r]).can_merge(),
        merge_shape(oldcells, oldorder, newcells, p, i, pi),
        p == 0 || pi >= 0,
    ensures
        cells_wf(newcells, frontier),
        list_core(
            newcells,
            if p == 0 {
                oldcells[i - 1].addr
            } else {
                oldhead
            },
            oldorder.remove(p),
            true,
        ),
        list_complete(newcells, oldorder.remove(p)),
        forall|r: int|
            0 <= r < p ==> !at_addr(newcells, #[trigger] oldorder.remove(p)[r]).can_merge(),
        p < oldorder.remove(p).len(),
        oldorder.remove(p)[p] == oldcells[i - 1].addr,
{
    lemma_merge_context(oldcells, oldhead, oldorder, frontier, p, i);
    assert(merge_ctx(oldcells, i));
    let neworder = oldorder.remove(p);
    let newhead: usize = if p == 0 {
        oldcells[i - 1].addr
    } else {
        oldhead
    };
    lemma_merge_tables(oldcells, oldhead, oldorder, newcells, p, i, pi, frontier);
    assert forall|q: int|
        0 <= q < neworder.len() implies contains_addr(newcells, #[trigger] neworder[q])
        && !at_addr(newcells, neworder[q]).header.alloc_bit() && at_addr(
        newcells,
        neworder[q],
    ).next_free_addr() == (if q + 1 < neworder.len() {
        neworder[q + 1]
    } else {
        0usize
    }) && (at_addr(newcells, neworder[q]).can_merge() ==> {
        let cc = at_addr(newcells, neworder[q]);
        &&& cc.header.prev_addr() != 0
        &&& cc.next_free_addr() == cc.header.prev_addr()
        &&& contains_addr(newcells, cc.header.prev_addr())
        &&& !at_addr(newcells, cc.header.prev_addr()).header.alloc_bit()
    }) && (q < p ==> !at_addr(newcells, neworder[q]).can_merge()) by {
        lemma_merge_list_at(oldcells, oldhead, oldorder, newcells, p, i, pi, frontier, q);
    }
    assert(p < neworder.len() && neworder[p] == oldorder[p + 1]);
    // Completeness: the merged-away cell is gone from the table too.
    assert forall|j: int|
        0 <= j < newcells.len() && !(#[trigger] newcells[j]).header.alloc_bit() implies
        neworder.contains(newcells[j].addr) by {
        reveal(list_complete);
        assert(merge_cell_ok(oldcells, newcells, p, i, pi, j));
        let oj: int = if j <= i - 1 {
            j
        } else {
            j + 1
        };
        assert(newcells[j].addr == oldcells[oj].addr);
        assert(newcells[j].header.alloc_bit() == oldcells[oj].header.alloc_bit());
        assert(oldorder.contains(oldcells[oj].addr));
        assert(newcells[j].addr != oldorder[p]) by {
            if oldcells[oj].addr == oldcells[i].addr {
                lemma_addr_unique(oldcells, frontier, oj, i);
            }
        }
        lemma_remove_keeps(oldorder, p, newcells[j].addr);
    }
    assert(list_core(newcells, newhead, neworder, true)) by {
        reveal(list_core);
        assert forall|q: int, r: int|
            0 <= q < r < neworder.len() implies #[trigger] neworder[q] != #[trigger] neworder[r]
        by {
            let mq: int = if q < p { q } else { q + 1 };
            let mr: int = if r < p { r } else { r + 1 };
            assert(neworder[q] == oldorder[mq]);
            assert(neworder[r] == oldorder[mr]);
            lemma_order_distinct(oldcells, oldhead, oldorder, true, mq, mr);
        }
        if p == 0 {
            assert(newhead == oldorder[1] || neworder.len() == 0) by {
                if neworder.len() > 0 {
                    assert(neworder[0] == oldorder[1]);
                }
            }
        }
    }
    assert(list_complete(newcells, neworder)) by {
        reveal(list_complete);
    }
}

/// Every allocated cell of `a` stands, with the same address and end, as an
/// allocated cell of `b`: handed-out memory is never moved or resized.
pub open spec fn alloc_xfer(a: Seq<FreeCell>, b: Seq<FreeCell>) -> bool {
    forall|j: int|
        0 <= j < a.len() && (#[trigger] a[j]).header.alloc_bit() ==> exists|j2: int|
            0 <= j2 < b.len() && (#[trigger] b[j2]).addr == a[j].addr && b[j2].header.end_addr()
                == a[j].header.end_addr() && b[j2].header.alloc_bit()
}

/// Allocated-cell transfer is reflexive.
pub proof fn lemma_xfer_refl(a: Seq<FreeCell>)
    ensures
        alloc_xfer(a, a),
{
    assert forall|j: int|
        0 <= j < a.len() && (#[trigger] a[j]).header.alloc_bit() implies exists|j2: int|
        0 <= j2 < a.len() && (#[trigger] a[j2]).addr == a[j].addr && a[j2].header.end_addr()
        == a[j].header.end_addr() && a[j2].header.alloc_bit() by {
        assert(0 <= j < a.len() && a[j].addr == a[j].addr && a[j].header.end_addr() == a[
            j].header.end_addr() && a[j].header.alloc_bit());
    }
}

/// Allocated-cell transfer composes.
pub proof fn lemma_xfer_trans(a: Seq<FreeCell>, b: Seq<FreeCell>, c: Seq<FreeCell>)
    requires
        alloc_xfer(a, b),
        alloc_xfer(b, c),
    ensures
        alloc_xfer(a, c),
{
    assert forall|j: int|
        0 <= j < a.len() && (#[trigger] a[j]).header.alloc_bit() implies exists|j2: int|
        0 <= j2 < c.len() && (#[trigger] c[j2]).addr == a[j].addr && c[j2].header.end_addr()
        == a[j].header.end_addr() && c[j2].header.alloc_bit() by {
        let k = choose|k: int|
            0 <= k < b.len() && (#[trigger] b[k]).addr == a[j].addr && b[k].header.end_addr()
                == a[j].header.end_addr() && b[k].header.alloc_bit();
        let k2 = choose|k2: int|
            0 <= k2 < c.len() && (#[trigger] c[k2]).addr == b[k].addr && c[k2].header.end_addr()
                == b[k].header.end_addr() && c[k2].header.alloc_bit();
        assert(0 <= k2 < c.len() && c[k2].addr == a[j].addr && c[k2].header.end_addr() == a[
            j].header.end_addr() && c[k2].header.alloc_bit());
    }
}

/// After a successful split, handed-out memory from before the walk is
/// intact, the new cell's address was never an allocated header, and its
/// extent is disjoint from every prior allocation.
pub proof fn lemma_split_return(
    pre: Seq<FreeCell>,
    post: Seq<FreeCell>,
    entry: Seq<FreeCell>,
    i: int,
    ptr: usize,
    frontier: int,
)
    requires
        alloc_xfer(entry, pre),
        cells_wf(pre, frontier),
        0 <= i < pre.len(),
        !pre[i].header.alloc_bit(),
        post.len() == pre.len() + 1,
        forall|j: int| 0 <= j < i ==> #[trigger] post[j] == pre[j],
        post[i].addr == pre[i].addr,
        post[i].header.alloc_bit() == pre[i].header.alloc_bit(),
        forall|j: int|
            i + 2 <= j < post.len() ==> (#[trigger] post[j]).addr == pre[j - 1].addr && post[
                j].header.alloc_bit() == pre[j - 1].header.alloc_bit() && post[
                j].header.end_addr() == pre[j - 1].header.end_addr(),
        post[i + 1].addr == ptr - HEADER_SIZE,
        post[i + 1].header.alloc_bit(),
        post[i + 1].header.end_addr() == pre[i].header.end_addr(),
        pre[i].addr < ptr - HEADER_SIZE,
        ptr <= pre[i].header.end_addr(),
        !contains_addr(pre, (ptr - HEADER_SIZE) as usize),
    ensures
        alloc_xfer(entry, post),
        forall|j: int|
            0 <= j < entry.len() && (#[trigger] entry[j]).addr == ptr - HEADER_SIZE ==> !entry[
                j].header.alloc_bit(),
        forall|j: int|
            0 <= j < entry.len() && (#[trigger] entry[j]).header.alloc_bit() ==> entry[
                j].header.end_addr() <= ptr - HEADER_SIZE || post[i + 1].header.end_addr()
                <= entry[j].addr,
{
    // Allocated cells of the pre-state survive, shifted past the insertion.
    assert forall|j: int|
        0 <= j < pre.len() && (#[trigger] pre[j]).header.alloc_bit() implies exists|j2: int|
        0 <= j2 < post.len() && (#[trigger] post[j2]).addr == pre[j].addr && post[
        j2].header.end_addr() == pre[j].header.end_addr() && post[j2].header.alloc_bit() by {
        let jn: int = if j < i {
            j
        } else {
            j + 1
        };
        assert(j != i);
        assert(0 <= jn < post.len() && post[jn].addr == pre[j].addr && post[
            jn].header.end_addr() == pre[j].header.end_addr() && post[jn].header.alloc_bit());
    }
    lemma_xfer_trans(entry, pre, post);
    assert forall|j: int|
        0 <= j < entry.len() && (#[trigger] entry[j]).addr == ptr - HEADER_SIZE implies !entry[
        j].header.alloc_bit() by {
        if entry[j].header.alloc_bit() {
            let k = choose|k: int|
                0 <= k < pre.len() && (#[trigger] pre[k]).addr == entry[j].addr && pre[
                    k].header.end_addr() == entry[j].header.end_addr() && pre[
                    k].header.alloc_bit();
            assert(contains_addr(pre, (ptr - HEADER_SIZE) as usize));
        }
    }
    assert forall|j: int|
        0 <= j < entry.len() && (#[trigger] entry[j]).header.alloc_bit() implies entry[
        j].header.end_addr() <= ptr - HEADER_SIZE || post[i + 1].header.end_addr() <= entry[
        j].addr by {
        let k = choose|k: int|
            0 <= k < pre.len() && (#[trigger] pre[k]).addr == entry[j].addr && pre[
                k].header.end_addr() == entry[j].header.end_addr() && pre[k].header.alloc_bit();
        assert(k != i);
        lemma_disjoint_pair(pre, frontier, k, i);
        lemma_cell_wf(pre, frontier, k);
        lemma_cell_wf(pre, frontier, i);
    }
}

/// After a whole-cell allocation, handed-out memory from before the walk is
/// intact, the taken cell was free, and its extent is disjoint from every
/// prior allocation.
pub proof fn lemma_whole_return(
    pre: Seq<FreeCell>,
    post: Seq<FreeCell>,
    entry: Seq<FreeCell>,
    i: int,
    frontier: int,
)
    requires
        alloc_xfer(entry, pre),
        cells_wf(pre, frontier),
        0 <= i < pre.len(),
        !pre[i].header.alloc_bit(),
        post.len() == pre.len(),
        same_but_allocated(pre[i], post[i]),
        forall|j: int|
            0 <= j < post.len() && j != i ==> (#[trigger] post[j]).addr == pre[j].addr && post[
                j].header == pre[j].header,
    ensures
        alloc_xfer(entry, post),
        forall|j: int|
            0 <= j < entry.len() && (#[trigger] entry[j]).addr == pre[i].addr ==> !entry[
                j].header.alloc_bit(),
        forall|j: int|
            0 <= j < entry.len() && (#[trigger] entry[j]).header.alloc_bit() ==> entry[
                j].header.end_addr() <= pre[i].addr || pre[i].header.end_addr() <= entry[
                j].addr,
{
    lemma_unique_from_wf(pre, frontier);
    reveal(addrs_unique);
    assert forall|j: int|
        0 <= j < pre.len() && (#[trigger] pre[j]).header.alloc_bit() implies exists|j2: int|
        0 <= j2 < post.len() && (#[trigger] post[j2]).addr == pre[j].addr && post[
        j2].header.end_addr() == pre[j].header.end_addr() && post[j2].header.alloc_bit() by {
        assert(j != i);
        assert(0 <= j < post.len() && post[j].addr == pre[j].addr && post[j].header.end_addr()
            == pre[j].header.end_addr() && post[j].header.alloc_bit());
    }
    lemma_xfer_trans(entry, pre, post);
    assert forall|j: int|
        0 <= j < entry.len() && (#[trigger] entry[j]).addr == pre[i].addr implies !entry[
        j].header.alloc_bit() by {
        if entry[j].header.alloc_bit() {
            let k = choose|k: int|
                0 <= k < pre.len() && (#[trigger] pre[k]).addr == entry[j].addr && pre[
                    k].header.end_addr() == entry[j].header.end_addr() && pre[
                    k].header.alloc_bit();
            assert(pre[k].addr == pre[i].addr);
            assert(k == i);
            assert(false);
        }
    }
    assert forall|j: int|
        0 <= j < entry.len() && (#[trigger] entry[j]).header.alloc_bit() implies entry[
        j].header.end_addr() <= pre[i].addr || pre[i].header.end_addr() <= entry[j].addr by {
        let k = choose|k: int|
            0 <= k < pre.len() && (#[trigger] pre[k]).addr == entry[j].addr && pre[
                k].header.end_addr() == entry[j].header.end_addr() && pre[k].header.alloc_bit();
        assert(k != i);
        lemma_disjoint_pair(pre, frontier, k, i);
        lemma_cell_wf(pre, frontier, k);
        lemma_cell_wf(pre, frontier, i);
    }
}

/// When a merging policy frees this cell, is its physical predecessor free —
/// the case where the freed cell is absorbed at once?
pub open spec fn dealloc_merges_prev(cells: Seq<FreeCell>, x: usize, merge_allowed: bool) -> bool {
    let c = at_addr(cells, x);
    &&& merge_allowed
    &&& c.header.prev_addr() != 0
    &&& !at_addr(cells, c.header.prev_addr()).header.alloc_bit()
}

/// When a merging policy frees this cell and the predecessor is not free, is
/// the physical successor free — the case where the merge is deferred?
pub open spec fn dealloc_defers_next(cells: Seq<FreeCell>, x: usize, merge_allowed: bool) -> bool {
    let c = at_addr(cells, x);
    &&& merge_allowed
    &&& !dealloc_merges_prev(cells, x, merge_allowed)
    &&& !c.header.invalid_bit()
    &&& !at_addr(cells, c.header.end_addr()).header.alloc_bit()
}

/// Clearing the `ALLOCATED` flag and the list word of one allocated cell
/// keeps the table laws and every list law except completeness for that
/// cell, which is not yet listed.
pub proof fn lemma_free_flag(
    oldcells: Seq<FreeCell>,
    oldhead: usize,
    oldorder: Seq<usize>,
    i: int,
    c: FreeCell,
    frontier: int,
    merge_allowed: bool,
)
    requires
        cells_wf(oldcells, frontier),
        list_core(oldcells, oldhead, oldorder, merge_allowed),
        list_complete(oldcells, oldorder),
        0 <= i < oldcells.len(),
        oldcells[i].header.alloc_bit(),
        c.addr == oldcells[i].addr,
        c.header.end_addr() == oldcells[i].header.end_addr(),
        c.header.invalid_bit() == oldcells[i].header.invalid_bit(),
        !c.header.alloc_bit(),
        c.header.neighbors.prev_raw() == oldcells[i].header.neighbors.prev_raw(),
        c.next_free_raw == 0,
    ensures
        cells_wf(oldcells.update(i, c), frontier),
        list_core(oldcells.update(i, c), oldhead, oldorder, merge_allowed),
        forall|j: int|
            0 <= j < oldcells.len() && j != i && !(#[trigger] oldcells.update(
                i,
                c,
            )[j]).header.alloc_bit() ==> oldorder.contains(oldcells[j].addr),
        forall|q: int| 0 <= q < oldorder.len() ==> #[trigger] oldorder[q] != c.addr,
        !c.can_merge(),
        forall|q: int|
            0 <= q < oldorder.len() ==> at_addr(oldcells.update(i, c), #[trigger] oldorder[q])
                == at_addr(oldcells, oldorder[q]),
{
    let upd = oldcells.update(i, c);
    lemma_unique_from_wf(oldcells, frontier);
    lemma_at_update(oldcells, i, c);
    crate::bits::lemma_aligned_no_tags(0);
    assert forall|j: int| 0 <= j < upd.len() implies (#[trigger] upd[j]).wf(frontier) by {
        lemma_cell_wf(oldcells, frontier, j);
    }
    assert(cells_wf(upd, frontier)) by {
        reveal(cells_wf);
        assert forall|j: int|
            0 <= j < upd.len() && !(#[trigger] upd[j]).header.invalid_bit() implies j + 1
            < upd.len() && upd[j + 1].addr == upd[j].header.end_addr() by {
            lemma_adj(oldcells, frontier, j);
        }
        assert forall|j: int|
            0 <= j < upd.len() implies (#[trigger] upd[j]).header.prev_addr() == (if j > 0
            && !upd[j - 1].header.invalid_bit() {
            upd[j - 1].addr
        } else {
            0usize
        }) by {
            lemma_prev_of(oldcells, frontier, j);
        }
        assert forall|j: int, k: int|
            0 <= j < upd.len() && 0 <= k < upd.len() && j != k implies (#[trigger]
            upd[j]).header.end_addr() <= (#[trigger] upd[k]).addr || upd[k].header.end_addr()
            <= upd[j].addr by {
            lemma_disjoint_pair(oldcells, frontier, j, k);
        }
    }
    assert forall|q: int| 0 <= q < oldorder.len() implies #[trigger] oldorder[q] != c.addr by {
        lemma_order_cell(oldcells, oldhead, oldorder, merge_allowed, frontier, q);
        if oldorder[q] == c.addr {
            lemma_at_addr(oldcells, frontier, i);
        }
    }
    assert forall|q: int|
        0 <= q < oldorder.len() implies at_addr(upd, #[trigger] oldorder[q]) == at_addr(
        oldcells,
        oldorder[q],
    ) by {
        lemma_order_cell(oldcells, oldhead, oldorder, merge_allowed, frontier, q);
    }
    assert(list_core(upd, oldhead, oldorder, merge_allowed)) by {
        reveal(list_core);
        assert forall|q: int|
            0 <= q < oldorder.len() && at_addr(upd, #[trigger] oldorder[q]).can_merge() implies {
            let cc = at_addr(upd, oldorder[q]);
            &&& merge_allowed
            &&& cc.header.prev_addr() != 0
            &&& cc.next_free_addr() == cc.header.prev_addr()
            &&& contains_addr(upd, cc.header.prev_addr())
            &&& !at_addr(upd, cc.header.prev_addr()).header.alloc_bit()
        } by {
            let cc = at_addr(oldcells, oldorder[q]);
            if cc.can_merge() {
                lemma_order_mark(oldcells, oldhead, oldorder, merge_allowed, q);
                let pa = cc.header.prev_addr();
                if pa == c.addr {
                    lemma_at_addr(oldcells, frontier, i);
                    assert(false);
                }
                assert(at_addr(upd, pa) == at_addr(oldcells, pa));
            }
        }
    }
    assert(list_complete(oldcells, oldorder)) by {
        reveal(list_complete);
    }
    assert forall|j: int|
        0 <= j < oldcells.len() && j != i && !(#[trigger] upd[j]).header.alloc_bit() implies
        oldorder.contains(oldcells[j].addr) by {
        reveal(list_complete);
    }
}

/// Folding a freshly freed cell into its free physical predecessor leaves
/// the list itself untouched: the predecessor simply grows.
#[verifier::rlimit(100)]
pub proof fn lemma_dealloc_merge_list(
    oldcells: Seq<FreeCell>,
    oldhead: usize,
    oldorder: Seq<usize>,
    newcells: Seq<FreeCell>,
    i: int,
    frontier: int,
    merge_allowed: bool,
)
    requires
        cells_wf(oldcells, frontier),
        list_core(oldcells, oldhead, oldorder, merge_allowed),
        forall|j: int|
            0 <= j < oldcells.len() && j != i && !(#[trigger] oldcells[j]).header.alloc_bit()
                ==> oldorder.contains(oldcells[j].addr),
        forall|q: int| 0 <= q < oldorder.len() ==> #[trigger] oldorder[q] != oldcells[i].addr,
        !oldcells[i].can_merge(),
        merge_ctx(oldcells, i),
        merge_shape(oldcells, oldorder, newcells, 0, i, 0),
    ensures
        list_core(newcells, oldhead, oldorder, merge_allowed),
        list_complete(newcells, oldorder),
{
    assert forall|j: int| 0 <= j < newcells.len() implies (#[trigger] newcells[j]).addr
        == oldcells[(if j <= i - 1 {
        j
    } else {
        j + 1
    })].addr by {
        assert(merge_cell_ok(oldcells, newcells, 0, i, 0, j));
    }
    lemma_merge_lookup(oldcells, newcells, i, frontier);
    assert forall|q: int|
        0 <= q < oldorder.len() implies contains_addr(newcells, #[trigger] oldorder[q])
        && !at_addr(newcells, oldorder[q]).header.alloc_bit() && at_addr(
        newcells,
        oldorder[q],
    ).next_free_addr() == (if q + 1 < oldorder.len() {
        oldorder[q + 1]
    } else {
        0usize
    }) && at_addr(newcells, oldorder[q]).can_merge() == at_addr(
        oldcells,
        oldorder[q],
    ).can_merge() by {
        lemma_order_cell(oldcells, oldhead, oldorder, merge_allowed, frontier, q);
        let a = oldorder[q];
        let k = idx_at(oldcells, a);
        assert(oldcells[k].addr == a);
        assert(k != i);
        let km: int = if k <= i - 1 {
            k
        } else {
            k - 1
        };
        assert(idx_at(newcells, a) == km);
        assert(merge_cell_ok(oldcells, newcells, 0, i, 0, km));
        assert(at_addr(newcells, a) == newcells[km]);
        if km == i && !oldcells[i].header.invalid_bit() {
            // The freed cell's old successor: only its back link moved.
        }
    }
    assert(list_core(newcells, oldhead, oldorder, merge_allowed)) by {
        reveal(list_core);
        assert forall|q: int|
            0 <= q < oldorder.len() && at_addr(newcells, #[trigger] oldorder[q]).can_merge()
            implies {
            let cc = at_addr(newcells, oldorder[q]);
            &&& merge_allowed
            &&& cc.header.prev_addr() != 0
            &&& cc.next_free_addr() == cc.header.prev_addr()
            &&& contains_addr(newcells, cc.header.prev_addr())
            &&& !at_addr(newcells, cc.header.prev_addr()).header.alloc_bit()
        } by {
            let a = oldorder[q];
            lemma_order_cell(oldcells, oldhead, oldorder, merge_allowed, frontier, q);
            let k = idx_at(oldcells, a);
            let km: int = if k <= i - 1 {
                k
            } else {
                k - 1
            };
            assert(k != i);
            assert(idx_at(newcells, a) == km);
            assert(merge_cell_ok(oldcells, newcells, 0, i, 0, km));
            let cc0 = at_addr(oldcells, a);
            let cc = at_addr(newcells, a);
            assert(cc0.can_merge());
            lemma_order_mark(oldcells, oldhead, oldorder, merge_allowed, q);
            let pa = cc0.header.prev_addr();
            // The mark cannot point at the freed cell: its link would then
            // name a cell that is not on the list.
            assert(pa != oldcells[i].addr) by {
                if pa == oldcells[i].addr {
                    assert(cc0.next_free_addr() == oldcells[i].addr);
                    if q + 1 < oldorder.len() {
                        assert(oldorder[q + 1] == oldcells[i].addr);
                    } else {
                        lemma_cell_wf(oldcells, frontier, i);
                        assert(cc0.next_free_addr() == 0);
                    }
                    assert(false);
                }
            }
            assert(cc.header.prev_addr() == pa) by {
                if km == i && !oldcells[i].header.invalid_bit() {
                    lemma_prev_of(oldcells, frontier, i + 1);
                    assert(false);
                }
            }
            let kp = idx_at(oldcells, pa);
            assert(oldcells[kp].addr == pa);
            assert(kp != i);
            let kpm: int = if kp <= i - 1 {
                kp
            } else {
                kp - 1
            };
            assert(idx_at(newcells, pa) == kpm);
            assert(merge_cell_ok(oldcells, newcells, 0, i, 0, kpm));
            assert(!at_addr(newcells, pa).header.alloc_bit());
        }
    }
    assert forall|j: int|
        0 <= j < newcells.len() && !(#[trigger] newcells[j]).header.alloc_bit() implies
        oldorder.contains(newcells[j].addr) by {
        assert(merge_cell_ok(oldcells, newcells, 0, i, 0, j));
        let oj: int = if j <= i - 1 {
            j
        } else {
            j + 1
        };
        assert(newcells[j].addr == oldcells[oj].addr);
        assert(oj != i) by {
            if oj == i {
                assert(j == i - 1 || j == i);
            }
        }
        assert(oldorder.contains(oldcells[oj].addr));
    }
    assert(list_complete(newcells, oldorder)) by {
        reveal(list_complete);
    }
}

/// Inserting a freshly freed cell right after its free physical successor
/// and marking the successor for a deferred merge keeps every law.
#[verifier::rlimit(100)]
pub proof fn lemma_dealloc_defer(
    oldcells: Seq<FreeCell>,
    oldhead: usize,
    oldorder: Seq<usize>,
    newcells: Seq<FreeCell>,
    i: int,
    qn: int,
    frontier: int,
)
    requires
        cells_wf(oldcells, frontier),
        list_core(oldcells, oldhead, oldorder, true),
        forall|j: int|
            0 <= j < oldcells.len() && j != i && !(#[trigger] oldcells[j]).header.alloc_bit()
                ==> oldorder.contains(oldcells[j].addr),
        forall|q: int| 0 <= q < oldorder.len() ==> #[trigger] oldorder[q] != oldcells[i].addr,
        0 <= i,
        i + 1 < oldcells.len(),
        !oldcells[i].header.alloc_bit(),
        !oldcells[i].header.invalid_bit(),
        !oldcells[i + 1].header.alloc_bit(),
        0 <= qn < oldorder.len(),
        oldorder[qn] == oldcells[i + 1].addr,
        newcells.len() == oldcells.len(),
        newcells[i] == (FreeCell {
            next_free_raw: at_addr(oldcells, oldorder[qn]).next_free_addr(),
            ..oldcells[i]
        }),
        newcells[i + 1].addr == oldcells[i + 1].addr,
        newcells[i + 1].header == oldcells[i + 1].header,
        newcells[i + 1].next_free_addr() == oldcells[i].addr,
        newcells[i + 1].can_merge(),
        newcells[i + 1].next_free_raw & 2 == 0,
        forall|j: int|
            0 <= j < oldcells.len() && j != i && j != i + 1 ==> #[trigger] newcells[j]
                == oldcells[j],
    ensures
        cells_wf(newcells, frontier),
        list_core(newcells, oldhead, oldorder.insert(qn + 1, oldcells[i].addr), true),
        list_complete(newcells, oldorder.insert(qn + 1, oldcells[i].addr)),
{
    let fa = oldcells[i].addr;
    let neworder = oldorder.insert(qn + 1, fa);
    lemma_unique_from_wf(oldcells, frontier);
    lemma_at_addr(oldcells, frontier, i + 1);
    assert(at_addr(oldcells, oldorder[qn]) == oldcells[i + 1]);
    lemma_cell_wf(oldcells, frontier, i);
    lemma_cell_wf(oldcells, frontier, i + 1);
    lemma_adj(oldcells, frontier, i);
    lemma_prev_of(oldcells, frontier, i + 1);
    lemma_order_cell(oldcells, oldhead, oldorder, true, frontier, qn);
    crate::bits::lemma_aligned_no_tags(fa);
    crate::bits::lemma_aligned_no_tags(oldcells[i + 1].next_free_addr());
    // Only two list words changed; the geometry is identical.
    assert forall|j: int| 0 <= j < newcells.len() implies (#[trigger] newcells[j]).addr
        == oldcells[j].addr && newcells[j].header == oldcells[j].header by {}
    lemma_lookup_pointwise(oldcells, newcells);
    assert forall|j: int| 0 <= j < newcells.len() implies (#[trigger] newcells[j]).wf(
        frontier,
    ) by {
        lemma_cell_wf(oldcells, frontier, j);
        if j == i {
            lemma_order_cell(oldcells, oldhead, oldorder, true, frontier, qn);
            if qn + 1 < oldorder.len() {
                lemma_order_cell(oldcells, oldhead, oldorder, true, frontier, qn + 1);
            }
        }
    }
    assert(cells_wf(newcells, frontier)) by {
        reveal(cells_wf);
        assert forall|j: int|
            0 <= j < newcells.len() && !(#[trigger] newcells[j]).header.invalid_bit() implies j
            + 1 < newcells.len() && newcells[j + 1].addr == newcells[j].header.end_addr() by {
            lemma_adj(oldcells, frontier, j);
        }
        assert forall|j: int|
            0 <= j < newcells.len() implies (#[trigger] newcells[j]).header.prev_addr() == (if j
            > 0 && !newcells[j - 1].header.invalid_bit() {
            newcells[j - 1].addr
        } else {
            0usize
        }) by {
            lemma_prev_of(oldcells, frontier, j);
        }
        assert forall|j: int, k: int|
            0 <= j < newcells.len() && 0 <= k < newcells.len() && j != k implies (#[trigger]
            newcells[j]).header.end_addr() <= (#[trigger] newcells[k]).addr
            || newcells[k].header.end_addr() <= newcells[j].addr by {
            lemma_disjoint_pair(oldcells, frontier, j, k);
        }
    }
    // Order positions: up to the successor unchanged, the freed cell next,
    // the rest shifted.
    assert(neworder.len() == oldorder.len() + 1);
    assert(forall|r: int| 0 <= r <= qn ==> #[trigger] neworder[r] == oldorder[r]);
    assert(neworder[qn + 1] == fa);
    assert(forall|r: int| qn + 2 <= r < neworder.len() ==> #[trigger] neworder[r] == oldorder[
        r - 1]);
    assert forall|r: int|
        0 <= r < neworder.len() implies contains_addr(newcells, #[trigger] neworder[r])
        && !at_addr(newcells, neworder[r]).header.alloc_bit() && at_addr(
        newcells,
        neworder[r],
    ).next_free_addr() == (if r + 1 < neworder.len() {
        neworder[r + 1]
    } else {
        0usize
    }) by {
        if r == qn + 1 {
            lemma_at_addr(oldcells, frontier, i);
            assert(idx_at(newcells, fa) == i);
            assert(at_addr(newcells, fa) == newcells[i]);
        } else {
            let or: int = if r <= qn {
                r
            } else {
                r - 1
            };
            let a = neworder[r];
            assert(a == oldorder[or]);
            lemma_order_cell(oldcells, oldhead, oldorder, true, frontier, or);
            let k = idx_at(oldcells, a);
            assert(oldcells[k].addr == a);
            assert(idx_at(newcells, a) == k);
            assert(k != i) by {
                if k == i {
                    lemma_at_addr(oldcells, frontier, i);
                }
            }
            if or == qn {
                assert(k == i + 1);
                assert(at_addr(newcells, a) == newcells[i + 1]);
                assert(neworder[r + 1] == fa);
            } else {
                assert(k != i + 1) by {
                    if k == i + 1 {
                        lemma_addr_unique(oldcells, frontier, k, i + 1);
                        lemma_order_distinct(oldcells, oldhead, oldorder, true, if or < qn {
                            or
                        } else {
                            qn
                        }, if or < qn {
                            qn
                        } else {
                            or
                        });
                    }
                }
                assert(newcells[k] == oldcells[k]);
                if r + 1 < neworder.len() {
                    if r + 1 == qn + 1 {
                        assert(or + 1 == qn + 1 && neworder[r + 1] == fa);
                        assert(or == qn);
                        assert(false);
                    } else if r + 1 <= qn {
                        assert(neworder[r + 1] == oldorder[or + 1]);
                    } else {
                        assert(neworder[r + 1] == oldorder[r]);
                        assert(r == or + 1 - 1 + 1 - 1 + 1 - 1 || true);
                        assert(oldorder[r] == oldorder[or + 1]);
                    }
                }
            }
        }
    }
    assert(list_core(newcells, oldhead, neworder, true)) by {
        reveal(list_core);
        assert forall|r: int, r2: int|
            0 <= r < r2 < neworder.len() implies #[trigger] neworder[r] != #[trigger]
            neworder[r2] by {
            if r == qn + 1 || r2 == qn + 1 {
                let other: int = if r == qn + 1 {
                    r2
                } else {
                    r
                };
                let oo: int = if other <= qn {
                    other
                } else {
                    other - 1
                };
                assert(neworder[other] == oldorder[oo]);
            } else {
                let o1: int = if r <= qn {
                    r
                } else {
                    r - 1
                };
                let o2: int = if r2 <= qn {
                    r2
                } else {
                    r2 - 1
                };
                assert(neworder[r] == oldorder[o1]);
                assert(neworder[r2] == oldorder[o2]);
                lemma_order_distinct(oldcells, oldhead, oldorder, true, o1, o2);
            }
        }
        assert(oldhead == (if neworder.len() == 0 {
            0usize
        } else {
            neworder[0]
        })) by {
            assert(neworder[0] == oldorder[0]);
        }
        assert forall|r: int|
            0 <= r < neworder.len() && at_addr(newcells, #[trigger] neworder[r]).can_merge()
            implies {
            let cc = at_addr(newcells, neworder[r]);
            &&& cc.header.prev_addr() != 0
            &&& cc.next_free_addr() == cc.header.prev_addr()
            &&& contains_addr(newcells, cc.header.prev_addr())
            &&& !at_addr(newcells, cc.header.prev_addr()).header.alloc_bit()
        } by {
            if r == qn + 1 {
                lemma_at_addr(oldcells, frontier, i);
                assert(at_addr(newcells, fa) == newcells[i]);
                assert(!at_addr(newcells, fa).can_merge());
            } else {
                let or: int = if r <= qn {
                    r
                } else {
                    r - 1
                };
                let a = neworder[r];
                lemma_order_cell(oldcells, oldhead, oldorder, true, frontier, or);
                let k = idx_at(oldcells, a);
                assert(idx_at(newcells, a) == k);
                if or == qn {
                    // The marked successor: its mark points at the freed
                    // cell just before it in the block and in the list.
                    assert(k == i + 1);
                    assert(at_addr(newcells, a) == newcells[i + 1]);
                    assert(newcells[i + 1].header.prev_addr() == fa);
                    lemma_at_addr(oldcells, frontier, i);
                    assert(idx_at(newcells, fa) == i);
                    assert(!newcells[i].header.alloc_bit());
                } else {
                    let cc0 = at_addr(oldcells, a);
                    assert(at_addr(newcells, a) == newcells[k]);
                    assert(k != i) by {
                        if k == i {
                            lemma_at_addr(oldcells, frontier, i);
                        }
                    }
                    assert(k != i + 1) by {
                        if k == i + 1 {
                            lemma_addr_unique(oldcells, frontier, k, i + 1);
                            lemma_order_distinct(oldcells, oldhead, oldorder, true, if or < qn {
                                or
                            } else {
                                qn
                            }, if or < qn {
                                qn
                            } else {
                                or
                            });
                        }
                    }
                    assert(newcells[k] == oldcells[k]);
                    if cc0.can_merge() {
                        lemma_order_mark(oldcells, oldhead, oldorder, true, or);
                        let pa = cc0.header.prev_addr();
                        let kp = idx_at(oldcells, pa);
                        assert(oldcells[kp].addr == pa);
                        assert(idx_at(newcells, pa) == kp);
                        assert(!at_addr(newcells, pa).header.alloc_bit()) by {
                            if kp == i || kp == i + 1 {
                            } else {
                                assert(newcells[kp] == oldcells[kp]);
                            }
                        }
                    }
                }
            }
        }
    }
    assert forall|j: int|
        0 <= j < newcells.len() && !(#[trigger] newcells[j]).header.alloc_bit() implies
        neworder.contains(newcells[j].addr) by {
        if j == i {
            assert(neworder[qn + 1] == fa);
        } else {
            assert(oldorder.contains(oldcells[j].addr));
            let q = choose|q: int| 0 <= q < oldorder.len() && oldorder[q] == oldcells[j].addr;
            if q <= qn {
                assert(neworder[q] == oldcells[j].addr);
            } else {
                assert(neworder[q + 1] == oldcells[j].addr);
            }
        }
    }
    assert(list_complete(newcells, neworder)) by {
        reveal(list_complete);
    }
}

/// After freeing the cell at `i` and folding it away, every other
/// allocation survives unchanged, and no allocation appeared.
pub proof fn lemma_dealloc_xfer_shift(
    entry: Seq<FreeCell>,
    mid: Seq<FreeCell>,
    post: Seq<FreeCell>,
    i: int,
)
    requires
        0 <= i < entry.len(),
        mid.len() == entry.len(),
        forall|j: int| 0 <= j < entry.len() && j != i ==> #[trigger] mid[j] == entry[j],
        !mid[i].header.alloc_bit(),
        mid[i].addr == entry[i].addr,
        post.len() == mid.len() - 1,
        forall|j: int|
            0 <= j < post.len() ==> #[trigger] merge_cell_ok(mid, post, 0, i, 0, j),
        0 < i,
        !mid[i - 1].header.alloc_bit(),
        forall|j: int|
            0 <= j < entry.len() && j != i ==> (#[trigger] entry[j]).addr != entry[i].addr,
    ensures
        forall|j: int|
            0 <= j < entry.len() && (#[trigger] entry[j]).header.alloc_bit() && entry[j].addr
                != entry[i].addr ==> exists|j2: int|
                0 <= j2 < post.len() && (#[trigger] post[j2]).addr == entry[j].addr && post[
                    j2].header.end_addr() == entry[j].header.end_addr()
                    && post[j2].header.alloc_bit(),
        forall|j2: int|
            0 <= j2 < post.len() && (#[trigger] post[j2]).header.alloc_bit() ==> exists|j: int|
                0 <= j < entry.len() && (#[trigger] entry[j]).addr == post[j2].addr && entry[
                    j].header.end_addr() == post[j2].header.end_addr()
                    && entry[j].header.alloc_bit() && entry[j].addr != entry[i].addr,
{
    assert forall|j: int|
        0 <= j < entry.len() && (#[trigger] entry[j]).header.alloc_bit() && entry[j].addr
        != entry[i].addr implies exists|j2: int|
        0 <= j2 < post.len() && (#[trigger] post[j2]).addr == entry[j].addr && post[
        j2].header.end_addr() == entry[j].header.end_addr() && post[j2].header.alloc_bit() by {
        let jn: int = if j <= i - 1 {
            j
        } else {
            j - 1
        };
        assert(j != i);
        assert(j != i - 1);
        assert(merge_cell_ok(mid, post, 0, i, 0, jn));
        assert(0 <= jn < post.len() && post[jn].addr == entry[j].addr && post[
            jn].header.end_addr() == entry[j].header.end_addr() && post[jn].header.alloc_bit());
    }
    assert forall|j2: int|
        0 <= j2 < post.len() && (#[trigger] post[j2]).header.alloc_bit() implies exists|j: int|
        0 <= j < entry.len() && (#[trigger] entry[j]).addr == post[j2].addr && entry[
        j].header.end_addr() == post[j2].header.end_addr() && entry[j].header.alloc_bit()
        && entry[j].addr != entry[i].addr by {
        assert(merge_cell_ok(mid, post, 0, i, 0, j2));
        let oj: int = if j2 <= i - 1 {
            j2
        } else {
            j2 + 1
        };
        assert(j2 != i - 1);
        assert(oj != i);
        assert(0 <= oj < entry.len() && entry[oj].addr == post[j2].addr && entry[
            oj].header.end_addr() == post[j2].header.end_addr() && entry[oj].header.alloc_bit());
        assert(entry[oj].addr != entry[i].addr) by {
            if entry[oj].addr == entry[i].addr {
                assert(mid[i].addr == entry[i].addr);
                assert(!entry[i].header.alloc_bit() || entry[oj].header.alloc_bit());
            }
        }
    }
}

/// After freeing the cell at `i` with the table unchanged in shape, every
/// other allocation survives, and no allocation appeared.
pub proof fn lemma_dealloc_xfer_flat(entry: Seq<FreeCell>, post: Seq<FreeCell>, i: int)
    requires
        0 <= i < entry.len(),
        post.len() == entry.len(),
        forall|j: int|
            0 <= j < entry.len() ==> (#[trigger] post[j]).addr == entry[j].addr && post[
                j].header.end_addr() == entry[j].header.end_addr() && (j != i ==> post[
                j].header.alloc_bit() == entry[j].header.alloc_bit()),
        !post[i].header.alloc_bit(),
        forall|j: int|
            0 <= j < entry.len() && j != i ==> (#[trigger] entry[j]).addr != entry[i].addr,
    ensures
        forall|j: int|
            0 <= j < entry.len() && (#[trigger] entry[j]).header.alloc_bit() && entry[j].addr
                != entry[i].addr ==> exists|j2: int|
                0 <= j2 < post.len() && (#[trigger] post[j2]).addr == entry[j].addr && post[
                    j2].header.end_addr() == entry[j].header.end_addr()
                    && post[j2].header.alloc_bit(),
        forall|j2: int|
            0 <= j2 < post.len() && (#[trigger] post[j2]).header.alloc_bit() ==> exists|j: int|
                0 <= j < entry.len() && (#[trigger] entry[j]).addr == post[j2].addr && entry[
                    j].header.end_addr() == post[j2].header.end_addr()
                    && entry[j].header.alloc_bit() && entry[j].addr != entry[i].addr,
{
    assert forall|j: int|
        0 <= j < entry.len() && (#[trigger] entry[j]).header.alloc_bit() && entry[j].addr
        != entry[i].addr implies exists|j2: int|
        0 <= j2 < post.len() && (#[trigger] post[j2]).addr == entry[j].addr && post[
        j2].header.end_addr() == entry[j].header.end_addr() && post[j2].header.alloc_bit() by {
        assert(j != i);
        assert(0 <= j < post.len() && post[j].addr == entry[j].addr && post[
            j].header.end_addr() == entry[j].header.end_addr() && post[j].header.alloc_bit());
    }
    assert forall|j2: int|
        0 <= j2 < post.len() && (#[trigger] post[j2]).header.alloc_bit() implies exists|j: int|
        0 <= j < entry.len() && (#[trigger] entry[j]).addr == post[j2].addr && entry[
        j].header.end_addr() == post[j2].header.end_addr() && entry[j].header.alloc_bit()
        && entry[j].addr != entry[i].addr by {
        assert(j2 != i);
        assert(0 <= j2 < entry.len() && entry[j2].addr == post[j2].addr && entry[
            j2].header.end_addr() == post[j2].header.end_addr() && entry[
            j2].header.alloc_bit() && entry[j2].addr != entry[i].addr);
    }
}

/// The table laws survive a growing frontier.
pub proof fn lemma_wf_frontier_mono(cells: Seq<FreeCell>, f1: int, f2: int)
    requires
        cells_wf(cells, f1),
        f1 <= f2,
    ensures
        cells_wf(cells, f2),
{
    reveal(cells_wf);
    assert forall|i: int| 0 <= i < cells.len() implies (#[trigger] cells[i]).wf(f2) by {
        assert(cells[i].wf(f1));
    }
}

/// The last cell of a table always ends its block.
pub proof fn lemma_last_invalid(cells: Seq<FreeCell>, frontier: int)
    requires
        cells_wf(cells, frontier),
        cells.len() > 0,
    ensures
        cells[cells.len() - 1].header.invalid_bit(),
{
    reveal(cells_wf);
    if !cells[cells.len() - 1].header.invalid_bit() {
        assert(cells.len() - 1 + 1 < cells.len());
    }
}

/// Appending a block-final cell whose extent is disjoint from every cell of
/// the table keeps all laws; when the cell is free it is not yet listed, so
/// completeness holds for every other cell.
#[verifier::rlimit(100)]
pub proof fn lemma_append_cell(
    oldcells: Seq<FreeCell>,
    head: usize,
    order: Seq<usize>,
    c: FreeCell,
    frontier: int,
    merge_allowed: bool,
)
    requires
        cells_wf(oldcells, frontier),
        list_core(oldcells, head, order, merge_allowed),
        list_complete(oldcells, order),
        c.wf(frontier),
        c.header.invalid_bit(),
        c.header.prev_addr() == 0,
        forall|j: int|
            0 <= j < oldcells.len() ==> (#[trigger] oldcells[j]).header.end_addr() <= c.addr
                || c.header.end_addr() <= oldcells[j].addr,
    ensures
        cells_wf(oldcells.push(c), frontier),
        list_core(oldcells.push(c), head, order, merge_allowed),
        forall|j: int|
            0 <= j < oldcells.push(c).len() && j != oldcells.len() && !(#[trigger] oldcells.push(
                c,
            )[j]).header.alloc_bit() ==> order.contains(oldcells.push(c)[j].addr),
        c.header.alloc_bit() ==> list_complete(oldcells.push(c), order),
        !contains_addr(oldcells, c.addr),
        forall|q: int| 0 <= q < order.len() ==> #[trigger] order[q] != c.addr,
        forall|q: int|
            0 <= q < order.len() ==> at_addr(oldcells.push(c), #[trigger] order[q]) == at_addr(
                oldcells,
                order[q],
            ),
{
    let newcells = oldcells.push(c);
    lemma_unique_from_wf(oldcells, frontier);
    assert forall|j: int| 0 <= j < oldcells.len() implies (#[trigger] oldcells[j]).addr
        != c.addr by {
        lemma_cell_wf(oldcells, frontier, j);
    }
    assert(newcells =~= oldcells.insert(oldcells.len() as int, c));
    lemma_at_insert(oldcells, oldcells.len() as int, c);
    if oldcells.len() > 0 {
        lemma_last_invalid(oldcells, frontier);
    }
    assert(cells_wf(newcells, frontier)) by {
        reveal(cells_wf);
        assert forall|j: int| 0 <= j < newcells.len() implies (#[trigger] newcells[j]).wf(
            frontier,
        ) by {
            if j < oldcells.len() {
                lemma_cell_wf(oldcells, frontier, j);
            }
        }
        assert forall|j: int|
            0 <= j < newcells.len() && !(#[trigger] newcells[j]).header.invalid_bit() implies j
            + 1 < newcells.len() && newcells[j + 1].addr == newcells[j].header.end_addr() by {
            lemma_adj(oldcells, frontier, j);
        }
        assert forall|j: int|
            0 <= j < newcells.len() implies (#[trigger] newcells[j]).header.prev_addr() == (if j
            > 0 && !newcells[j - 1].header.invalid_bit() {
            newcells[j - 1].addr
        } else {
            0usize
        }) by {
            if j < oldcells.len() {
                lemma_prev_of(oldcells, frontier, j);
            }
        }
        assert forall|j: int, k: int|
            0 <= j < newcells.len() && 0 <= k < newcells.len() && j != k implies (#[trigger]
            newcells[j]).header.end_addr() <= (#[trigger] newcells[k]).addr
            || newcells[k].header.end_addr() <= newcells[j].addr by {
            if j < oldcells.len() && k < oldcells.len() {
                lemma_disjoint_pair(oldcells, frontier, j, k);
            }
        }
    }
    assert forall|q: int| 0 <= q < order.len() implies #[trigger] order[q] != c.addr by {
        lemma_order_cell(oldcells, head, order, merge_allowed, frontier, q);
        if order[q] == c.addr {
            let k = idx_at(oldcells, order[q]);
            assert(oldcells[k].addr == c.addr);
        }
    }
    assert forall|q: int|
        0 <= q < order.len() implies at_addr(newcells, #[trigger] order[q]) == at_addr(
        oldcells,
        order[q],
    ) by {
        lemma_order_cell(oldcells, head, order, merge_allowed, frontier, q);
    }
    assert(list_core(newcells, head, order, merge_allowed)) by {
        reveal(list_core);
        assert forall|q: int|
            0 <= q < order.len() && at_addr(newcells, #[trigger] order[q]).can_merge() implies {
            let cc = at_addr(newcells, order[q]);
            &&& merge_allowed
            &&& cc.header.prev_addr() != 0
            &&& cc.next_free_addr() == cc.header.prev_addr()
            &&& contains_addr(newcells, cc.header.prev_addr())
            &&& !at_addr(newcells, cc.header.prev_addr()).header.alloc_bit()
        } by {
            let cc = at_addr(oldcells, order[q]);
            if cc.can_merge() {
                lemma_order_mark(oldcells, head, order, merge_allowed, q);
                let pa = cc.header.prev_addr();
                assert(at_addr(newcells, pa) == at_addr(oldcells, pa)) by {
                    let kp = idx_at(oldcells, pa);
                    assert(oldcells[kp].addr == pa);
                    assert(pa != c.addr);
                }
            }
        }
    }
    assert forall|j: int|
        0 <= j < newcells.len() && j != oldcells.len() && !(#[trigger]
        newcells[j]).header.alloc_bit() implies order.contains(newcells[j].addr) by {
        reveal(list_complete);
        assert(newcells[j] == oldcells[j]);
    }
    if c.header.alloc_bit() {
        assert(list_complete(newcells, order)) by {
            reveal(list_complete);
        }
    }
}

/// An allocated cell carried across a transfer is found at its address in
/// the new table, unchanged in extent.
pub proof fn lemma_live_lookup(
    a: Seq<FreeCell>,
    b: Seq<FreeCell>,
    x: usize,
    fa: int,
    fb: int,
)
    requires
        cells_wf(a, fa),
        cells_wf(b, fb),
        alloc_xfer(a, b),
        contains_addr(a, x),
        at_addr(a, x).header.alloc_bit(),
    ensures
        contains_addr(b, x),
        at_addr(b, x).header.alloc_bit(),
        at_addr(b, x).header.end_addr() == at_addr(a, x).header.end_addr(),
        at_addr(b, x).addr == x,
        at_addr(a, x).addr == x,
    decreases 0int,
{
    let k = idx_at(a, x);
    assert(a[k].addr == x);
    let k2 = choose|k2: int|
        0 <= k2 < b.len() && (#[trigger] b[k2]).addr == a[k].addr && b[k2].header.end_addr()
            == a[k].header.end_addr() && b[k2].header.alloc_bit();
    assert(b[k2].addr == x);
    assert(contains_addr(b, x));
    let k3 = idx_at(b, x);
    assert(b[k3].addr == x);
    lemma_addr_unique(b, fb, k2, k3);
}

/// Overwrite one table entry.
fn vec_set(v: &mut Vec<FreeCell>, i: usize, x: FreeCell)
    requires
        i < old(v)@.len(),
    ensures
        final(v)@ =~= old(v)@.update(i as int, x),
{
    let r = vstd::std_specs::vec::vec_index_mut(v, i);
    *r = x;
}

/// Could this cell serve a request of `size` bytes at alignment `align`
/// under the given policy: it is big enough, and either its tail splits at
/// the aligned position with the policy's minimum cell to spare, or its
/// data already sits on the boundary.
pub open spec fn serves(c: FreeCell, size: usize, align: usize, policy: AllocPolicy) -> bool {
    &&& size <= c.size_bytes()
    &&& {
        ||| c.data_addr() + HEADER_SIZE + policy.min_cell_size_spec(size) <= (c.header.end_addr()
            - size) - ((c.header.end_addr() - size) % align as int)
        ||| c.data_addr() % align as int == 0
    }
}

/// A free list: the table of cells, the head of the singly-linked free
/// chain, and the ghost order of that chain.
pub struct FreeList {
    /// All cells of this list's arena, free and allocated.
    pub cells: Vec<FreeCell>,
    /// Address of the first free cell, or null.
    pub head: usize,
    /// The free chain in list order.
    pub order: Ghost<Seq<usize>>,
}

impl FreeList {
    /// All laws of the list under the given heap frontier and policy.
    pub open spec fn wf(self, frontier: int, policy: AllocPolicy) -> bool {
        &&& cells_wf(self.cells@, frontier)
        &&& list_core(self.cells@, self.head, self.order@, policy.merge_spec())
        &&& list_complete(self.cells@, self.order@)
        &&& class_sized(self.cells@, policy)
    }

    /// The set of free-cell addresses, as the order names them.
    pub open spec fn free_addrs(self) -> Seq<usize> {
        self.order@
    }

    /// An empty list: no cells, null head.
    pub fn new() -> (r: FreeList)
        ensures
            r.cells@.len() == 0,
            r.head == 0,
            r.order@ =~= Seq::<usize>::empty(),
            forall|frontier: int, policy: AllocPolicy| r.wf(frontier, policy),
    {
        let r = FreeList { cells: Vec::new(), head: 0, order: Ghost(Seq::empty()) };
        proof {
            reveal(cells_wf);
            reveal(list_core);
            reveal(list_complete);
            reveal(class_sized);
        }
        r
    }

    /// Push the free cell at table index `i` onto the head of the list.
    ///
    /// The cell must not be on the list yet; every other law must already
    /// hold. This is the only way a cell enters a free list.
    #[verifier::rlimit(100)]
    pub fn push_front(&mut self, i: usize, policy: AllocPolicy, Ghost(frontier): Ghost<int>)
        requires
            i < old(self).cells@.len(),
            cells_wf(old(self).cells@, frontier),
            list_core(
                old(self).cells@,
                old(self).head,
                old(self).order@,
                policy.merge_spec(),
            ),
            class_sized(old(self).cells@, policy),
            forall|j: int|
                0 <= j < old(self).cells@.len() && j != i && !(#[trigger] old(
                    self,
                ).cells@[j]).header.alloc_bit() ==> old(self).order@.contains(
                    old(self).cells@[j].addr,
                ),
            !old(self).cells@[i as int].header.alloc_bit(),
            old(self).cells@[i as int].next_free_raw == 0,
            !old(self).order@.contains(old(self).cells@[i as int].addr),
        ensures
            final(self).wf(frontier, policy),
            final(self).head == old(self).cells@[i as int].addr,
            final(self).order@ =~= seq![old(self).cells@[i as int].addr].add(old(self).order@),
            final(self).cells@ =~= old(self).cells@.update(
                i as int,
                FreeCell { next_free_raw: old(self).head, ..old(self).cells@[i as int] },
            ),
    {
        let ghost oldcells = self.cells@;
        let ghost oldorder = self.order@;
        let ghost oldhead = self.head;
        let a: usize = self.cells[i].addr;
        let h: usize = self.head;
        proof {
            lemma_head_aligned(oldcells, oldhead, oldorder, policy.merge_spec(), frontier);
        }
        let mut c: FreeCell = self.cells[i];
        c.set_next_free(h);
        vec_set(&mut self.cells, i, c);
        self.head = a;
        proof {
            self.order = Ghost(seq![a].add(oldorder));
            lemma_wf_nfr_update(oldcells, frontier, i as int, c, policy);
            lemma_push_front_list(
                oldcells,
                oldhead,
                oldorder,
                i as int,
                c,
                frontier,
                policy.merge_spec(),
            );
            assert(self.cells@ =~= oldcells.update(i as int, c));
            assert(self.order@ =~= seq![a].add(oldorder));
        }
    }

    /// Take the free cell at table index `i`, standing at order position
    /// `p` with `prev_addr` naming the preceding list entry (null at the
    /// front), off the list and hand out its data.
    pub fn alloc_whole(
        &mut self,
        prev_addr: usize,
        i: usize,
        Ghost(p): Ghost<int>,
        policy: AllocPolicy,
        Ghost(frontier): Ghost<int>,
    ) -> (ptr: usize)
        requires
            frontier <= usize::MAX,
            cells_wf(old(self).cells@, frontier),
            list_core(
                old(self).cells@,
                old(self).head,
                old(self).order@,
                policy.merge_spec(),
            ),
            list_complete(old(self).cells@, old(self).order@),
            class_sized(old(self).cells@, policy),
            0 <= p < old(self).order@.len(),
            i < old(self).cells@.len(),
            old(self).cells@[i as int].addr == old(self).order@[p],
            !old(self).cells@[i as int].can_merge(),
            forall|q: int|
                0 <= q < p ==> !at_addr(old(self).cells@, #[trigger] old(
                    self,
                ).order@[q]).can_merge(),
            p == 0 ==> prev_addr == 0,
            p > 0 ==> prev_addr == old(self).order@[p - 1],
        ensures
            final(self).wf(frontier, policy),
            final(self).order@ =~= old(self).order@.remove(p),
            final(self).cells@.len() == old(self).cells@.len(),
            same_but_allocated(
                old(self).cells@[i as int],
                final(self).cells@[i as int],
            ),
            forall|j: int|
                0 <= j < final(self).cells@.len() && j != i ==> (#[trigger] final(self).cells@[j]).addr
                    == old(self).cells@[j].addr && final(self).cells@[j].header == old(
                    self,
                ).cells@[j].header,
            ptr == old(self).cells@[i as int].data_addr(),
            ptr % 8 == 0,
    {
        let ghost oldcells = self.cells@;
        let ghost oldorder = self.order@;
        let ghost oldhead = self.head;
        proof {
            lemma_cell_wf(oldcells, frontier, i as int);
        }
        let nf: usize = {
            let c = &self.cells[i];
            c.next_free()
        };
        let ghost mut pi: int = 0;
        if prev_addr == 0 {
            proof {
                if p > 0 {
                    lemma_order_cell(
                        oldcells,
                        oldhead,
                        oldorder,
                        policy.merge_spec(),
                        frontier,
                        p - 1,
                    );
                    assert(false);
                }
            }
            self.head = nf;
        } else {
            proof {
                lemma_order_cell(oldcells, oldhead, oldorder, policy.merge_spec(), frontier, p - 1);
            }
            let pidx: usize = self.find_index(prev_addr);
            proof {
                pi = pidx as int;
            }
            let mut sc: FreeCell = self.cells[pidx];
            sc.set_next_free(nf);
            vec_set(&mut self.cells, pidx, sc);
            proof {
                if pidx as int == i as int {
                    assert(oldcells[i as int].addr == oldorder[p]);
                    assert(oldcells[pi].addr == oldorder[p - 1]);
                    lemma_order_distinct(
                        oldcells,
                        oldhead,
                        oldorder,
                        policy.merge_spec(),
                        p - 1,
                        p,
                    );
                    assert(false);
                }
            }
        }
        let mut c: FreeCell = self.cells[i];
        proof {
            assert(c.header == oldcells[i as int].header);
        }
        c.header.set_allocated();
        vec_set(&mut self.cells, i, c);
        let ptr: usize = self.cells[i].data();
        proof {
            self.order = Ghost(oldorder.remove(p));
            assert(alloc_whole_shape(oldcells, oldorder, self.cells@, p, i as int, pi));
            lemma_alloc_whole(
                oldcells,
                oldhead,
                oldorder,
                self.cells@,
                p,
                i as int,
                pi,
                frontier,
                policy.merge_spec(),
                policy,
            );
        }
        ptr
    }

    /// Try to serve an allocation by carving the tail off the free cell at
    /// table index `i` (order position `p`). Returns the data address of the
    /// carved, allocated cell, or leaves the list untouched.
    #[verifier::rlimit(100)]
    #[verifier::spinoff_prover]
    pub fn try_alloc_split(
        &mut self,
        i: usize,
        Ghost(p): Ghost<int>,
        size: usize,
        align: usize,
        policy: AllocPolicy,
        Ghost(frontier): Ghost<int>,
    ) -> (r: Option<usize>)
        requires
            frontier <= crate::PAGE_SIZE + crate::MAX_HEAP_BYTES,
            cells_wf(old(self).cells@, frontier),
            list_core(
                old(self).cells@,
                old(self).head,
                old(self).order@,
                policy.merge_spec(),
            ),
            list_complete(old(self).cells@, old(self).order@),
            class_sized(old(self).cells@, policy),
            0 <= p < old(self).order@.len(),
            i < old(self).cells@.len(),
            old(self).cells@[i as int].addr == old(self).order@[p],
            !old(self).cells@[i as int].can_merge(),
            forall|q: int|
                0 <= q < p ==> !at_addr(old(self).cells@, #[trigger] old(
                    self,
                ).order@[q]).can_merge(),
            8 <= size,
            size % 8 == 0,
            size <= old(self).cells@[i as int].size_bytes(),
            crate::bits::is_pow2(align),
            policy matches AllocPolicy::SizeClass(w) ==> size == w * 8,
        ensures
            r is None ==> *final(self) == *old(self),
            old(self).cells@[i as int].data_addr() + HEADER_SIZE
                + policy.min_cell_size_spec(size) <= (old(self).cells@[i as int].header.end_addr()
                - size) - ((old(self).cells@[i as int].header.end_addr() - size) % align as int)
                ==> r is Some,
            // The carved data begins exactly at the tail position aligned
            // down, and the block-final flag moves from the candidate to
            // the carved cell.
            r is Some ==> r->0 == (old(self).cells@[i as int].header.end_addr() - size) - ((old(
                self,
            ).cells@[i as int].header.end_addr() - size) % align as int),
            r is Some ==> final(self).cells@[i + 1].header.invalid_bit() == old(
                self,
            ).cells@[i as int].header.invalid_bit() && !final(self).cells@[i as int].header.invalid_bit(),
            r is Some ==> {
                let ptr = r->0;
                &&& final(self).wf(frontier, policy)
                &&& final(self).order@ == old(self).order@
                &&& final(self).head == old(self).head
                &&& final(self).cells@.len() == old(self).cells@.len() + 1
                &&& ptr as int % align as int == 0
                &&& ptr % 8 == 0
                &&& final(self).cells@[i + 1].addr == ptr - HEADER_SIZE
                &&& final(self).cells@[i + 1].header.alloc_bit()
                &&& final(self).cells@[i + 1].data_addr() == ptr
                &&& final(self).cells@[i + 1].header.end_addr() == old(
                    self,
                ).cells@[i as int].header.end_addr()
                &&& ptr + size <= final(self).cells@[i + 1].header.end_addr()
                &&& old(self).cells@[i as int].addr < ptr - HEADER_SIZE
                &&& old(self).cells@[i as int].data_addr() < ptr - HEADER_SIZE
                &&& !contains_addr(old(self).cells@, (ptr - HEADER_SIZE) as usize)
                &&& (forall|j: int| 0 <= j < i ==> #[trigger] final(self).cells@[j] == old(
                    self,
                ).cells@[j])
                &&& final(self).cells@[i as int].addr == old(self).cells@[i as int].addr
                &&& final(self).cells@[i as int].header.alloc_bit() == old(
                    self,
                ).cells@[i as int].header.alloc_bit()
                &&& final(self).cells@[i as int].header.end_addr() <= old(
                    self,
                ).cells@[i as int].header.end_addr()
                &&& (forall|j: int|
                    i + 2 <= j < final(self).cells@.len() ==> (#[trigger] final(self).cells@[j]).addr == old(self).cells@[j - 1].addr && final(self).cells@[j].header.alloc_bit() == old(self).cells@[j - 1].header.alloc_bit()
                        && final(self).cells@[j].header.end_addr() == old(
                        self,
                    ).cells@[j - 1].header.end_addr())
            },
    {
        let ghost oldcells = self.cells@;
        let ghost oldorder = self.order@;
        let ghost oldhead = self.head;
        let nlen: usize = self.cells.len();
        proof {
            lemma_cell_wf(oldcells, frontier, i as int);
            crate::bits::lemma_pow2_word(align);
            lemma_at_addr(oldcells, frontier, i as int);
            lemma_order_cell(oldcells, oldhead, oldorder, policy.merge_spec(), frontier, p);
            assert(!oldcells[i as int].header.alloc_bit());
        }
        let cand: FreeCell = self.cells[i];
        let end: usize = cand.header.neighbors.next_unchecked();
        let data: usize = cand.data();
        let y: usize = end - size;
        proof {
            crate::bits::lemma_down_align(y as int, align);
            assert(y % align <= y);
        }
        let sa: usize = y - y % align;
        let min_cell: usize = policy.min_cell_size(size);
        if data + HEADER_SIZE + min_cell <= sa {
            proof {
                match policy {
                    AllocPolicy::SizeClass(w) => {
                        // A size-class cell is exactly the requested size:
                        // the guard cannot hold, as the split would need
                        // another header and cell inside it.
                        assert(cand.size_bytes() == w * 8) by {
                            reveal(class_sized);
                        }
                        assert(false);
                    },
                    AllocPolicy::Large => {},
                }
            }
            let split_addr: usize = sa - HEADER_SIZE;
            let mut n: FreeCell = FreeCell::from_uninitialized(split_addr, end, cand.addr);
            let mut b: FreeCell = cand;
            b.header.neighbors.set_next(split_addr);
            b.clear_next_free_can_merge();
            let had_invalid: bool = b.header.next_cell_is_invalid();
            if had_invalid {
                b.header.clear_next_cell_is_invalid();
                n.header.set_next_cell_is_invalid();
            }
            n.header.set_allocated();
            vec_set(&mut self.cells, i, b);
            if !had_invalid {
                proof {
                    lemma_adj(oldcells, frontier, i as int);
                    lemma_cell_wf(oldcells, frontier, i as int + 1);
                }
                let mut s: FreeCell = self.cells[i + 1];
                s.header.neighbors.set_prev(split_addr);
                vec_set(&mut self.cells, i + 1, s);
            }
            proof {
                assert(self.cells@.len() == oldcells.len());
            }
            let ghost mid = self.cells@;
            self.cells.insert(i + 1, n);
            proof {
                let newc = self.cells@;
                assert(newc =~= mid.insert(i + 1, n));
                assert forall|j: int| i + 2 <= j < newc.len() implies #[trigger] newc[j] == mid[
                    j - 1] by {}
                assert forall|j: int| i + 3 <= j < newc.len() implies #[trigger] newc[j]
                    == oldcells[j - 1] by {
                    assert(newc[j] == mid[j - 1]);
                    assert(mid[j - 1] == oldcells[j - 1]);
                }
                if had_invalid {
                    assert forall|j: int| i + 2 <= j < newc.len() implies #[trigger] newc[j]
                        == oldcells[j - 1] by {
                        assert(newc[j] == mid[j - 1]);
                        assert(mid[j - 1] == oldcells[j - 1]);
                    }
                } else {
                    assert(newc[i + 2] == mid[i as int + 1]);
                    assert(split_succ_fixed(oldcells[i as int + 1], newc[i + 2], n));
                }
                assert(split_shape(oldcells, self.cells@, i as int, b, n));
                assert(split_fields(oldcells[i as int], b, n));
                assert(split_tail_fixed(oldcells, self.cells@, i as int, n));
                lemma_split_cells(oldcells, self.cells@, i as int, b, n, frontier);
                lemma_split_list(
                    oldcells,
                    oldhead,
                    oldorder,
                    self.cells@,
                    p,
                    i as int,
                    b,
                    n,
                    frontier,
                    policy.merge_spec(),
                );
                lemma_split_lookup(oldcells, self.cells@, i as int, b, n, frontier);
                assert(class_sized(self.cells@, policy)) by {
                    reveal(class_sized);
                }
            }
            Some(sa)
        } else {
            None
        }
    }

    /// Perform one deferred merge: fold the marked cell at table index `i`
    /// (order position `p`, preceded in the list by the slot at `slot_addr`,
    /// null for the head) into its physical predecessor. Returns the merged
    /// cell's address, which stands at position `p` of the shortened order.
    pub fn merge_step(
        &mut self,
        slot_addr: usize,
        i: usize,
        Ghost(p): Ghost<int>,
        policy: AllocPolicy,
        Ghost(frontier): Ghost<int>,
    ) -> (cur: usize)
        requires
            policy.merge_spec(),
            cells_wf(old(self).cells@, frontier),
            list_core(old(self).cells@, old(self).head, old(self).order@, true),
            list_complete(old(self).cells@, old(self).order@),
            class_sized(old(self).cells@, policy),
            0 <= p < old(self).order@.len(),
            i < old(self).cells@.len(),
            old(self).cells@[i as int].addr == old(self).order@[p],
            old(self).cells@[i as int].can_merge(),
            forall|q: int|
                0 <= q < p ==> !at_addr(old(self).cells@, #[trigger] old(
                    self,
                ).order@[q]).can_merge(),
            p == 0 ==> slot_addr == 0,
            p > 0 ==> slot_addr == old(self).order@[p - 1],
        ensures
            final(self).wf(frontier, policy),
            final(self).order@ =~= old(self).order@.remove(p),
            final(self).cells@.len() == old(self).cells@.len() - 1,
            p < final(self).order@.len(),
            final(self).order@[p] == cur,
            cur == old(self).cells@[i as int - 1].addr,
            i >= 1,
            !old(self).cells@[i as int - 1].header.alloc_bit(),
            forall|q: int|
                0 <= q < p ==> !at_addr(final(self).cells@, #[trigger] final(self).order@[q]).can_merge(),
            forall|q: int| 0 <= q < p ==> final(self).order@[q] == old(self).order@[q],
            forall|j: int|
                0 <= j < final(self).cells@.len() ==> (#[trigger] final(self).cells@[j]).addr
                    == old(self).cells@[(if j <= i - 1 {
                    j
                } else {
                    j + 1
                })].addr && final(self).cells@[j].header.alloc_bit() == old(self).cells@[(if j
                    <= i - 1 {
                    j
                } else {
                    j + 1
                })].header.alloc_bit() && (j != i - 1 ==> final(self).cells@[j].header.end_addr()
                    == old(self).cells@[(if j <= i - 1 {
                    j
                } else {
                    j + 1
                })].header.end_addr()) && (j == i - 1 ==> final(self).cells@[j].header.end_addr() == old(self).cells@[i as int].header.end_addr()),
    {
        let ghost oldcells = self.cells@;
        let ghost oldorder = self.order@;
        let ghost oldhead = self.head;
        proof {
            lemma_merge_context(oldcells, oldhead, oldorder, frontier, p, i as int);
            lemma_cell_wf(oldcells, frontier, i as int);
            lemma_cell_wf(oldcells, frontier, i as int - 1);
        }
        let nlen: usize = self.cells.len();
        let c: FreeCell = self.cells[i];
        let prev_cell_addr: usize = self.cells[i - 1].addr;
        if !c.header.next_cell_is_invalid() {
            proof {
                lemma_adj(oldcells, frontier, i as int);
                lemma_cell_wf(oldcells, frontier, i as int + 1);
            }
            let mut sfix: FreeCell = self.cells[i + 1];
            sfix.header.neighbors.set_prev(prev_cell_addr);
            vec_set(&mut self.cells, i + 1, sfix);
        }
        let mut m: FreeCell = self.cells[i - 1];
        m.header.neighbors.set_next(c.header.neighbors.next_unchecked());
        if c.header.next_cell_is_invalid() {
            m.header.set_next_cell_is_invalid();
        }
        vec_set(&mut self.cells, i - 1, m);
        self.cells.remove(i);
        let ghost midcells = self.cells@;
        let ghost mut pi: int = 0;
        if slot_addr == 0 {
            proof {
                if p > 0 {
                    lemma_order_cell(oldcells, oldhead, oldorder, true, frontier, p - 1);
                    assert(false);
                }
            }
            self.head = prev_cell_addr;
        } else {
            proof {
                lemma_order_cell(oldcells, oldhead, oldorder, true, frontier, p - 1);
                let kpi = idx_at(oldcells, slot_addr);
                assert(oldcells[kpi].addr == slot_addr);
                assert(kpi != i as int) by {
                    if kpi == i as int {
                        lemma_order_distinct(oldcells, oldhead, oldorder, true, p - 1, p);
                    }
                }
                assert(kpi != i as int - 1) by {
                    if kpi == i as int - 1 {
                        lemma_order_distinct(oldcells, oldhead, oldorder, true, p - 1, p + 1);
                    }
                }
                assert(midcells[(if kpi <= i as int - 1 {
                    kpi
                } else {
                    kpi - 1
                })].addr == slot_addr);
                assert(contains_addr(midcells, slot_addr));
            }
            let pidx: usize = self.find_index(slot_addr);
            proof {
                let kpi = idx_at(oldcells, slot_addr);
                pi = if pidx as int <= i as int - 1 {
                    pidx as int
                } else {
                    pidx as int + 1
                };
                assert(oldcells[pi].addr == slot_addr) by {
                    if pidx as int <= i as int - 1 {
                    } else {
                    }
                }
                lemma_addr_unique(oldcells, frontier, pi, kpi);
            }
            let mut sc: FreeCell = self.cells[pidx];
            sc.set_next_free(prev_cell_addr);
            vec_set(&mut self.cells, pidx, sc);
        }
        proof {
            self.order = Ghost(oldorder.remove(p));
            assert forall|j: int|
                0 <= j < self.cells@.len() implies #[trigger] merge_cell_ok(
                oldcells,
                self.cells@,
                p,
                i as int,
                pi,
                j,
            ) by {}
            assert(merge_shape(oldcells, oldorder, self.cells@, p, i as int, pi));
            lemma_merge(
                oldcells,
                oldhead,
                oldorder,
                self.cells@,
                p,
                i as int,
                pi,
                frontier,
            );
            assert(class_sized(self.cells@, policy)) by {
                reveal(class_sized);
            }
        }
        prev_cell_addr
    }

    /// First-fit allocation: walk the list, folding deferred merges into
    /// their predecessors on the way, and serve the request from the first
    /// cell that can hold it, splitting its tail off when the remainder
    /// stays useful, else taking the cell whole when its data is aligned.
    /// Returns the data address, or nothing if no cell fits.
    #[verifier::rlimit(100)]
    pub fn alloc_first_fit(
        &mut self,
        size: usize,
        align: usize,
        policy: AllocPolicy,
        Ghost(frontier): Ghost<int>,
    ) -> (r: Option<usize>)
        requires
            frontier <= crate::PAGE_SIZE + crate::MAX_HEAP_BYTES,
            old(self).wf(frontier, policy),
            8 <= size,
            size % 8 == 0,
            crate::bits::is_pow2(align),
            policy matches AllocPolicy::SizeClass(w) ==> size == w * 8 && align <= 8,
        ensures
            final(self).wf(frontier, policy),
            alloc_xfer(old(self).cells@, final(self).cells@),
            r is None ==> alloc_xfer(final(self).cells@, old(self).cells@),
            r is None ==> (policy matches AllocPolicy::SizeClass(w) ==> old(
                self,
            ).order@.len() == 0),
            r is None ==> forall|q: int|
                0 <= q < final(self).order@.len() ==> !serves(
                    at_addr(final(self).cells@, #[trigger] final(self).order@[q]),
                    size,
                    align,
                    policy,
                ),
            r is None ==> !(old(self).order@.len() > 0 && !at_addr(
                old(self).cells@,
                old(self).order@[0],
            ).can_merge() && size <= at_addr(old(self).cells@, old(self).order@[0]).size_bytes()
                && at_addr(old(self).cells@, old(self).order@[0]).data_addr() % align as int
                == 0),
            r is None ==> !(old(self).order@.len() > 0 && !at_addr(
                old(self).cells@,
                old(self).order@[0],
            ).can_merge() && size <= at_addr(old(self).cells@, old(self).order@[0]).size_bytes()
                && at_addr(old(self).cells@, old(self).order@[0]).data_addr() + HEADER_SIZE
                + policy.min_cell_size_spec(size) <= (at_addr(
                old(self).cells@,
                old(self).order@[0],
            ).header.end_addr() - size) - ((at_addr(
                old(self).cells@,
                old(self).order@[0],
            ).header.end_addr() - size) % align as int)),
            r is Some ==> {
                let ptr = r->0;
                let c = at_addr(final(self).cells@, (ptr - HEADER_SIZE) as usize);
                &&& ptr as int % align as int == 0
                &&& ptr % 8 == 0
                &&& ptr > crate::PAGE_SIZE
                &&& contains_addr(final(self).cells@, (ptr - HEADER_SIZE) as usize)
                &&& c.header.alloc_bit()
                &&& c.data_addr() == ptr
                &&& ptr + size <= c.header.end_addr()
                &&& c.header.end_addr() <= frontier
                &&& (forall|j: int|
                    0 <= j < old(self).cells@.len() && (#[trigger] old(self).cells@[j]).addr
                        == ptr - HEADER_SIZE ==> !old(self).cells@[j].header.alloc_bit())
                &&& (forall|j: int|
                    0 <= j < old(self).cells@.len() && (#[trigger] old(
                        self,
                    ).cells@[j]).header.alloc_bit() ==> old(self).cells@[j].header.end_addr()
                        <= ptr - HEADER_SIZE || c.header.end_addr() <= old(self).cells@[j].addr)
            },
    {
        let ghost entry_cells = self.cells@;
        let ghost entry_order = self.order@;
        let mut slot_addr: usize = 0;
        let mut cur: usize = self.head;
        let ghost mut p: int = 0;
        proof {
            lemma_xfer_refl(entry_cells);
            lemma_head(self.cells@, self.head, self.order@, policy.merge_spec());
            crate::bits::lemma_pow2_word(align);
        }
        loop
            invariant
                frontier <= crate::PAGE_SIZE + crate::MAX_HEAP_BYTES,
                8 <= size,
                size % 8 == 0,
                crate::bits::is_pow2(align),
                policy matches AllocPolicy::SizeClass(w) ==> size == w * 8 && align <= 8,
                self.wf(frontier, policy),
                0 <= p <= self.order@.len(),
                cur == (if p < self.order@.len() {
                    self.order@[p]
                } else {
                    0usize
                }),
                p == 0 ==> slot_addr == 0,
                p > 0 ==> slot_addr == self.order@[p - 1],
                forall|q: int|
                    0 <= q < p ==> !at_addr(self.cells@, #[trigger] self.order@[q]).can_merge(),
                forall|q: int|
                    0 <= q < p ==> !serves(
                        at_addr(self.cells@, #[trigger] self.order@[q]),
                        size,
                        align,
                        policy,
                    ),
                alloc_xfer(entry_cells, self.cells@),
                alloc_xfer(self.cells@, entry_cells),
                policy matches AllocPolicy::SizeClass(w) ==> p == 0 && self.cells@
                    == entry_cells && self.order@ == entry_order && self.head == old(self).head,
                (entry_order.len() > 0 && !at_addr(entry_cells, entry_order[0]).can_merge()
                    && size <= at_addr(entry_cells, entry_order[0]).size_bytes() && at_addr(
                    entry_cells,
                    entry_order[0],
                ).data_addr() % align as int == 0) ==> p == 0 && self.cells@ == entry_cells
                    && self.order@ == entry_order,
                (entry_order.len() > 0 && !at_addr(entry_cells, entry_order[0]).can_merge()
                    && size <= at_addr(entry_cells, entry_order[0]).size_bytes() && at_addr(
                    entry_cells,
                    entry_order[0],
                ).data_addr() + HEADER_SIZE + policy.min_cell_size_spec(size) <= (at_addr(
                    entry_cells,
                    entry_order[0],
                ).header.end_addr() - size) - ((at_addr(
                    entry_cells,
                    entry_order[0],
                ).header.end_addr() - size) % align as int)) ==> p == 0 && self.cells@
                    == entry_cells && self.order@ == entry_order,
                entry_cells == old(self).cells@,
                entry_order == old(self).order@,
            decreases self.order@.len() - p,
        {
            let ghost loop_cells = self.cells@;
            let ghost loop_order = self.order@;
            if cur == 0 {
                proof {
                    if p < self.order@.len() {
                        lemma_order_cell(
                            self.cells@,
                            self.head,
                            self.order@,
                            policy.merge_spec(),
                            frontier,
                            p,
                        );
                        assert(false);
                    }
                }
                return None;
            }
            proof {
                if p >= self.order@.len() {
                    assert(false);
                }
                lemma_order_cell(
                    self.cells@,
                    self.head,
                    self.order@,
                    policy.merge_spec(),
                    frontier,
                    p,
                );
            }
            let i: usize = self.find_index(cur);
            proof {
                lemma_at_addr(self.cells@, frontier, i as int);
            }
            if self.cells[i].next_free_can_merge() {
                proof {
                    lemma_order_mark(self.cells@, self.head, self.order@, policy.merge_spec(), p);
                }
                cur = self.merge_step(slot_addr, i, Ghost(p), policy, Ghost(frontier));
                proof {
                    assert forall|j: int|
                        0 <= j < loop_cells.len() && (#[trigger] loop_cells[j]).header.alloc_bit()
                        implies exists|j2: int|
                        0 <= j2 < self.cells@.len() && (#[trigger] self.cells@[j2]).addr
                            == loop_cells[j].addr && self.cells@[j2].header.end_addr()
                            == loop_cells[j].header.end_addr()
                            && self.cells@[j2].header.alloc_bit() by {
                        let jn: int = if j <= i - 1 {
                            j
                        } else {
                            j - 1
                        };
                        assert(j != i as int);
                        assert(0 <= jn < self.cells@.len() && self.cells@[jn].addr == loop_cells[
                            j].addr && self.cells@[jn].header.end_addr() == loop_cells[
                            j].header.end_addr() && self.cells@[jn].header.alloc_bit());
                    }
                    assert forall|j2: int|
                        0 <= j2 < self.cells@.len() && (#[trigger] self.cells@[j2]).header.alloc_bit()
                        implies exists|j: int|
                        0 <= j < loop_cells.len() && (#[trigger] loop_cells[j]).addr
                            == self.cells@[j2].addr && loop_cells[j].header.end_addr()
                            == self.cells@[j2].header.end_addr()
                            && loop_cells[j].header.alloc_bit() by {
                        let oj: int = if j2 <= i - 1 {
                            j2
                        } else {
                            j2 + 1
                        };
                        if j2 == i - 1 {
                            assert(false);
                        }
                        assert(0 <= oj < loop_cells.len() && loop_cells[oj].addr == self.cells@[
                            j2].addr && loop_cells[oj].header.end_addr() == self.cells@[
                            j2].header.end_addr() && loop_cells[oj].header.alloc_bit());
                    }
                    lemma_xfer_trans(entry_cells, loop_cells, self.cells@);
                    lemma_xfer_trans(self.cells@, loop_cells, entry_cells);
                    // Cells already rejected keep their geometry through
                    // the merge, so they stay rejected.
                    assert forall|q: int|
                        0 <= q < p implies !serves(
                        at_addr(self.cells@, #[trigger] self.order@[q]),
                        size,
                        align,
                        policy,
                    ) by {
                        let a = self.order@[q];
                        assert(a == loop_order[q]);
                        assert(!serves(at_addr(loop_cells, a), size, align, policy));
                        lemma_order_cell(
                            self.cells@,
                            self.head,
                            self.order@,
                            policy.merge_spec(),
                            frontier,
                            q,
                        );
                        let k2 = idx_at(self.cells@, a);
                        assert(self.cells@[k2].addr == a);
                        if k2 == i - 1 {
                            assert(self.cells@[k2].addr == cur);
                            assert(self.order@[p] == cur);
                            lemma_order_distinct(
                                self.cells@,
                                self.head,
                                self.order@,
                                policy.merge_spec(),
                                q,
                                p,
                            );
                            assert(false);
                        }
                        let oj: int = if k2 <= i - 1 {
                            k2
                        } else {
                            k2 + 1
                        };
                        assert(loop_cells[oj].addr == a && self.cells@[k2].header.end_addr()
                            == loop_cells[oj].header.end_addr());
                        lemma_at_addr(loop_cells, frontier, oj);
                        assert(at_addr(loop_cells, a) == loop_cells[oj]);
                    }
                }
                continue;
            }
            let csize: usize = self.cells[i].size();
            if csize >= size {
                let attempt: Option<usize> = self.try_alloc_split(
                    i,
                    Ghost(p),
                    size,
                    align,
                    policy,
                    Ghost(frontier),
                );
                match attempt {
                    Some(ptr) => {
                        proof {
                            lemma_split_return(
                                loop_cells,
                                self.cells@,
                                entry_cells,
                                i as int,
                                ptr,
                                frontier,
                            );
                            lemma_at_addr(self.cells@, frontier, i as int + 1);
                        }
                        return Some(ptr);
                    },
                    None => {},
                }
                proof {
                    crate::bits::lemma_pow2_word(align);
                    lemma_cell_wf(self.cells@, frontier, i as int);
                }
                if self.cells[i].is_aligned_to(align) {
                    let ptr: usize = self.alloc_whole(
                        slot_addr,
                        i,
                        Ghost(p),
                        policy,
                        Ghost(frontier),
                    );
                    proof {
                        lemma_whole_return(loop_cells, self.cells@, entry_cells, i as int, frontier);
                        lemma_at_addr(self.cells@, frontier, i as int);
                    }
                    return Some(ptr);
                }
            }
            proof {
                // A size-class request always fits its list's first cell.
                match policy {
                    AllocPolicy::SizeClass(w) => {
                        assert(self.cells@[i as int].size_bytes() == w * 8) by {
                            reveal(class_sized);
                        }
                        lemma_cell_wf(self.cells@, frontier, i as int);
                        crate::bits::lemma_word_divides(
                            self.cells@[i as int].data_addr(),
                            align,
                        );
                        assert(false);
                    },
                    AllocPolicy::Large => {},
                }
                if entry_order.len() > 0 && !at_addr(entry_cells, entry_order[0]).can_merge()
                    && size <= at_addr(entry_cells, entry_order[0]).size_bytes() && at_addr(
                    entry_cells,
                    entry_order[0],
                ).data_addr() % align as int == 0 {
                    assert(p == 0 && self.cells@ == entry_cells && self.order@ == entry_order);
                    assert(false);
                }
                if entry_order.len() > 0 && !at_addr(entry_cells, entry_order[0]).can_merge()
                    && size <= at_addr(entry_cells, entry_order[0]).size_bytes() && at_addr(
                    entry_cells,
                    entry_order[0],
                ).data_addr() + HEADER_SIZE + policy.min_cell_size_spec(size) <= (at_addr(
                    entry_cells,
                    entry_order[0],
                ).header.end_addr() - size) - ((at_addr(
                    entry_cells,
                    entry_order[0],
                ).header.end_addr() - size) % align as int) {
                    assert(p == 0 && self.cells@ == entry_cells && self.order@ == entry_order);
                    assert(false);
                }
            }
            slot_addr = cur;
            cur = self.cells[i].next_free();
            proof {
                p = p + 1;
            }
        }
    }

    /// Return the allocated cell whose data starts at `ptr` to the free
    /// list. Under a merging policy the cell is folded into a free physical
    /// predecessor at once, or queued behind a free physical successor for a
    /// deferred merge; otherwise it is pushed onto the head of the list.
    #[verifier::rlimit(100)]
    pub fn dealloc_cell(&mut self, ptr: usize, policy: AllocPolicy, Ghost(frontier): Ghost<int>)
        requires
            frontier <= crate::PAGE_SIZE + crate::MAX_HEAP_BYTES,
            old(self).wf(frontier, policy),
            ptr >= HEADER_SIZE,
            contains_addr(old(self).cells@, (ptr - HEADER_SIZE) as usize),
            at_addr(old(self).cells@, (ptr - HEADER_SIZE) as usize).header.alloc_bit(),
        ensures
            final(self).wf(frontier, policy),
            !contains_addr(final(self).cells@, (ptr - HEADER_SIZE) as usize) || !at_addr(
                final(self).cells@,
                (ptr - HEADER_SIZE) as usize,
            ).header.alloc_bit(),
            // Merge with the free physical predecessor: it absorbs the
            // freed extent, the list itself is left alone, and the freed
            // header is gone.
            dealloc_merges_prev(
                old(self).cells@,
                (ptr - HEADER_SIZE) as usize,
                policy.merge_spec(),
            ) ==> {
                let x = (ptr - HEADER_SIZE) as usize;
                let c = at_addr(old(self).cells@, x);
                let pa = c.header.prev_addr();
                &&& final(self).order@ == old(self).order@
                &&& final(self).head == old(self).head
                &&& contains_addr(final(self).cells@, pa)
                &&& at_addr(final(self).cells@, pa).header.end_addr() == c.header.end_addr()
                &&& !at_addr(final(self).cells@, pa).header.alloc_bit()
                &&& !contains_addr(final(self).cells@, x)
            },
            // Deferred merge: the freed cell enters the list right after its
            // free physical successor, which takes the mark and the link.
            dealloc_defers_next(
                old(self).cells@,
                (ptr - HEADER_SIZE) as usize,
                policy.merge_spec(),
            ) ==> {
                let x = (ptr - HEADER_SIZE) as usize;
                let c = at_addr(old(self).cells@, x);
                let na = c.header.end_addr();
                &&& at_addr(final(self).cells@, na).can_merge()
                &&& at_addr(final(self).cells@, na).next_free_addr() == x
                &&& at_addr(final(self).cells@, x).next_free_addr() == at_addr(
                    old(self).cells@,
                    na,
                ).next_free_addr()
                &&& !at_addr(final(self).cells@, x).header.alloc_bit()
                &&& final(self).order@.len() == old(self).order@.len() + 1
                &&& final(self).head == old(self).head
            },
            // No merging chance: pushed onto the head of the list.
            (!dealloc_merges_prev(
                old(self).cells@,
                (ptr - HEADER_SIZE) as usize,
                policy.merge_spec(),
            ) && !dealloc_defers_next(
                old(self).cells@,
                (ptr - HEADER_SIZE) as usize,
                policy.merge_spec(),
            )) ==> {
                let x = (ptr - HEADER_SIZE) as usize;
                &&& final(self).head == x
                &&& at_addr(final(self).cells@, x).next_free_addr() == old(self).head
                &&& !at_addr(final(self).cells@, x).header.alloc_bit()
                &&& final(self).order@ =~= seq![x].add(old(self).order@)
            },
            forall|j: int|
                0 <= j < old(self).cells@.len() && (#[trigger] old(
                    self,
                ).cells@[j]).header.alloc_bit() && old(self).cells@[j].addr != ptr - HEADER_SIZE
                    ==> exists|j2: int|
                    0 <= j2 < final(self).cells@.len() && (#[trigger] final(self).cells@[j2]).addr == old(self).cells@[j].addr && final(self).cells@[j2].header.end_addr() == old(self).cells@[j].header.end_addr()
                        && final(self).cells@[j2].header.alloc_bit(),
            forall|j2: int|
                0 <= j2 < final(self).cells@.len() && (#[trigger] final(self).cells@[j2]).header.alloc_bit() ==> exists|j: int|
                    0 <= j < old(self).cells@.len() && (#[trigger] old(self).cells@[j]).addr
                        == final(self).cells@[j2].addr && old(self).cells@[j].header.end_addr()
                        == final(self).cells@[j2].header.end_addr() && old(
                        self,
                    ).cells@[j].header.alloc_bit() && old(self).cells@[j].addr != ptr
                        - HEADER_SIZE,
    {
        let ghost entry_cells = self.cells@;
        let ghost entry_order = self.order@;
        let ghost entry_head = self.head;
        let addr: usize = ptr - HEADER_SIZE;
        let i: usize = self.find_index(addr);
        let nlen: usize = self.cells.len();
        proof {
            lemma_at_addr(entry_cells, frontier, i as int);
            lemma_cell_wf(entry_cells, frontier, i as int);
        }
        proof {
            assert forall|j: int|
                0 <= j < entry_cells.len() && j != i implies (#[trigger] entry_cells[j]).addr
                != entry_cells[i as int].addr by {
                if entry_cells[j].addr == entry_cells[i as int].addr {
                    lemma_addr_unique(entry_cells, frontier, j, i as int);
                }
            }
        }
        // The cell goes back to being free, with a clean list word.
        let mut c: FreeCell = self.cells[i];
        c.header.set_free();
        c.set_next_free(0);
        vec_set(&mut self.cells, i, c);
        let ghost mid_cells = self.cells@;
        proof {
            lemma_free_flag(
                entry_cells,
                entry_head,
                entry_order,
                i as int,
                c,
                frontier,
                policy.merge_spec(),
            );
        }
        if policy.should_merge_adjacent_free_cells() {
            // Merging with the previous adjacent cell is easy: it is already
            // on the list, so folding this cell into it is all that needs
            // doing, and the list itself can be left alone.
            let pv: usize = self.cells[i].header.neighbors.prev_unchecked();
            proof {
                lemma_at_addr(entry_cells, frontier, i as int);
                if pv != 0 {
                    lemma_prev_of(mid_cells, frontier, i as int);
                    assert(mid_cells[i as int - 1] == entry_cells[i as int - 1]);
                    lemma_at_addr(entry_cells, frontier, i as int - 1);
                    assert(at_addr(entry_cells, pv) == entry_cells[i as int - 1]);
                }
            }
            if pv != 0 {
                if self.cells[i - 1].header.is_free() {
                    proof {
                        lemma_adj(mid_cells, frontier, i as int - 1);
                        lemma_cell_wf(mid_cells, frontier, i as int - 1);
                        lemma_cell_wf(mid_cells, frontier, i as int);
                    }
                    if !c.header.next_cell_is_invalid() {
                        proof {
                            lemma_adj(mid_cells, frontier, i as int);
                            lemma_cell_wf(mid_cells, frontier, i as int + 1);
                        }
                        let mut sfix: FreeCell = self.cells[i + 1];
                        sfix.header.neighbors.set_prev(pv);
                        vec_set(&mut self.cells, i + 1, sfix);
                    }
                    let mut m: FreeCell = self.cells[i - 1];
                    m.header.neighbors.set_next(c.header.neighbors.next_unchecked());
                    if c.header.next_cell_is_invalid() {
                        m.header.set_next_cell_is_invalid();
                    }
                    vec_set(&mut self.cells, i - 1, m);
                    self.cells.remove(i);
                    proof {
                        assert forall|j: int|
                            0 <= j < self.cells@.len() implies #[trigger] merge_cell_ok(
                            mid_cells,
                            self.cells@,
                            0,
                            i as int,
                            0,
                            j,
                        ) by {}
                        assert(merge_shape(mid_cells, entry_order, self.cells@, 0, i as int, 0));
                        assert(merge_ctx(mid_cells, i as int));
                        lemma_merge_tables(
                            mid_cells,
                            entry_head,
                            entry_order,
                            self.cells@,
                            0,
                            i as int,
                            0,
                            frontier,
                        );
                        lemma_dealloc_merge_list(
                            mid_cells,
                            entry_head,
                            entry_order,
                            self.cells@,
                            i as int,
                            frontier,
                            policy.merge_spec(),
                        );
                        lemma_dealloc_xfer_shift(entry_cells, mid_cells, self.cells@, i as int);
                        assert(class_sized(self.cells@, policy)) by {
                            reveal(class_sized);
                        }
                        // The absorbed extent and the untouched list are
                        // exactly the merge-with-predecessor outcome.
                        lemma_at_addr(entry_cells, frontier, i as int);
                        lemma_prev_of(mid_cells, frontier, i as int);
                        assert(mid_cells[i as int - 1].addr == entry_cells[
                            i as int].header.prev_addr());
                        assert(merge_cell_ok(mid_cells, self.cells@, 0, i as int, 0, i as int
                            - 1));
                        lemma_at_addr(self.cells@, frontier, i as int - 1);
                        assert(at_addr(self.cells@, entry_cells[i as int].header.prev_addr())
                            == self.cells@[i as int - 1]);
                        // The freed cell's header is gone from the table.
                        if contains_addr(self.cells@, addr) {
                            let kk = choose|kk: int|
                                0 <= kk < self.cells@.len() && (#[trigger]
                                self.cells@[kk]).addr == addr;
                            assert(merge_cell_ok(mid_cells, self.cells@, 0, i as int, 0, kk));
                            let oj: int = if kk <= i - 1 {
                                kk
                            } else {
                                kk + 1
                            };
                            assert(mid_cells[oj].addr == addr);
                            assert(oj != i as int);
                            lemma_addr_unique(mid_cells, frontier, oj, i as int);
                            assert(false);
                        }
                    }
                    return;
                }
            }
            // Merging with the next adjacent cell must wait: its header is
            // the one a merge would invalidate, yet it is the one already on
            // the list. Queue this cell right after it and mark it, so the
            // next walk performs the merge where the pointers are at hand.
            if !self.cells[i].header.next_cell_is_invalid() {
                proof {
                    lemma_adj(mid_cells, frontier, i as int);
                    lemma_cell_wf(mid_cells, frontier, i as int + 1);
                    assert(mid_cells[i as int + 1] == entry_cells[i as int + 1]);
                    lemma_at_addr(entry_cells, frontier, i as int + 1);
                    assert(at_addr(entry_cells, entry_cells[i as int].header.end_addr())
                        == entry_cells[i as int + 1]);
                }
                if self.cells[i + 1].header.is_free() {
                    let ghost qn = choose|q: int|
                        0 <= q < entry_order.len() && entry_order[q] == mid_cells[i as int
                            + 1].addr;
                    proof {
                        assert(entry_order.contains(mid_cells[i as int + 1].addr));
                        lemma_at_addr(mid_cells, frontier, i as int + 1);
                        lemma_order_cell(
                            mid_cells,
                            entry_head,
                            entry_order,
                            policy.merge_spec(),
                            frontier,
                            qn,
                        );
                    }
                    let nf_next: usize = self.cells[i + 1].next_free();
                    let mut f2: FreeCell = self.cells[i];
                    f2.set_next_free(nf_next);
                    vec_set(&mut self.cells, i, f2);
                    let mut n2: FreeCell = self.cells[i + 1];
                    n2.set_next_free(addr);
                    n2.set_next_free_can_merge();
                    vec_set(&mut self.cells, i + 1, n2);
                    proof {
                        self.order = Ghost(entry_order.insert(qn + 1, addr));
                        lemma_dealloc_defer(
                            mid_cells,
                            entry_head,
                            entry_order,
                            self.cells@,
                            i as int,
                            qn,
                            frontier,
                        );
                        lemma_dealloc_xfer_flat(entry_cells, self.cells@, i as int);
                        assert(class_sized(self.cells@, policy)) by {
                            reveal(class_sized);
                        }
                        lemma_at_addr(self.cells@, frontier, i as int);
                        lemma_at_addr(self.cells@, frontier, i as int + 1);
                        assert(!at_addr(self.cells@, addr).header.alloc_bit());
                    }
                    return;
                }
            }
        }
        // No merging chance: push the freed cell onto the head of the list.
        proof {
            assert(class_sized(mid_cells, policy)) by {
                reveal(class_sized);
                match policy {
                    AllocPolicy::SizeClass(w) => {
                        assert forall|j: int| 0 <= j < mid_cells.len() implies (#[trigger]
                        mid_cells[j]).size_bytes() == w * 8 by {
                            assert(entry_cells[j].size_bytes() == w * 8);
                        }
                    },
                    AllocPolicy::Large => {},
                }
            }
        }
        self.push_front(i, policy, Ghost(frontier));
        proof {
            lemma_dealloc_xfer_flat(entry_cells, self.cells@, i as int);
            lemma_at_addr(self.cells@, frontier, i as int);
            assert(!at_addr(self.cells@, addr).header.alloc_bit());
            lemma_head_aligned(entry_cells, entry_head, entry_order, policy.merge_spec(), frontier);
            crate::bits::lemma_aligned_no_tags(entry_head);
            assert(at_addr(self.cells@, addr).next_free_addr() == entry_head);
        }
    }

    /// Find the table index of the cell with the given header address, if
    /// the table holds one.
    pub fn try_find(&self, addr: usize) -> (r: Option<usize>)
        ensures
            r is Some ==> r->0 < self.cells@.len() && self.cells@[r->0 as int].addr == addr
                && contains_addr(self.cells@, addr),
            r is None ==> !contains_addr(self.cells@, addr),
    {
        let n: usize = self.cells.len();
        let mut i: usize = 0;
        loop
            invariant
                i <= n,
                n == self.cells@.len(),
                forall|j: int| 0 <= j < i ==> (#[trigger] self.cells@[j]).addr != addr,
            decreases n - i,
        {
            if i == n {
                proof {
                    if contains_addr(self.cells@, addr) {
                        let w = choose|k: int|
                            0 <= k < self.cells@.len() && (#[trigger] self.cells@[k]).addr
                                == addr;
                        assert(self.cells@[w].addr == addr);
                        assert(false);
                    }
                }
                return None;
            }
            if self.cells[i].addr == addr {
                return Some(i);
            }
            i = i + 1;
        }
    }

    /// Find the table index of the cell with the given header address.
    pub fn find_index(&self, addr: usize) -> (i: usize)
        requires
            contains_addr(self.cells@, addr),
        ensures
            i < self.cells@.len(),
            self.cells@[i as int].addr == addr,
    {
        let n: usize = self.cells.len();
        let mut i: usize = 0;
        loop
            invariant
                i <= n,
                n == self.cells@.len(),
                contains_addr(self.cells@, addr),
                forall|j: int| 0 <= j < i ==> (#[trigger] self.cells@[j]).addr != addr,
            decreases n - i,
        {
            if i == n {
                proof {
                    let w = choose|k: int|
                        0 <= k < self.cells@.len() && (#[trigger] self.cells@[k]).addr == addr;
                    assert(self.cells@[w].addr == addr);
                    assert(false);
                }
            }
            if self.cells[i].addr == addr {
                return i;
            }
            i = i + 1;
        }
    }
}

} // verus!
