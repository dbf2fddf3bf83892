//! Cells: the unit of allocator bookkeeping.
//!
//! A cell is a contiguous region of the heap: a two-word header followed by
//! the data a caller sees. The header's `next` word points at the byte just
//! past the cell and carries two flags in its low bits: `ALLOCATED` (bit 1)
//! and `NEXT_INVALID` (bit 2, set when the byte past the cell is not a valid
//! cell header, as at the end of a page block). The `prev` word points at the
//! preceding cell of the block, or is null.
//!
//! A free cell additionally stores a `next free` word threading the free
//! list; its bit 1 is `CAN_MERGE`, set only when the next free cell is also
//! the physical predecessor, recording a merge deferred to the next walk.
//!
//! The model keeps each cell as a record holding its own address beside the
//! header words; tables of cells and their laws live in `free_list`. The
//! model holds no data bytes, so the debug-build poisoning of freed data
//! regions has no statement here: a cell is its header, its address and its
//! extent.

use vstd::prelude::*;
use crate::bits;
use crate::neighbors::Neighbors;

verus! {

/// Size of a cell header in bytes: two machine words.
pub const HEADER_SIZE: usize = 16;

/// The `CAN_MERGE` flag in a free cell's `next free` word.
pub const NEXT_FREE_CELL_CAN_MERGE: usize = 0b01;

/// Mask recovering the address from a `next free` word.
pub const NEXT_FREE_MASK: usize = !0b11;

/// A cell header: the two tagged physical-neighbor words.
#[derive(Clone, Copy, PartialEq, Eq, Structural, Debug)]
pub struct CellHeader {
    /// Neighbor links; `next` bit 1 is `ALLOCATED`, `next` bit 2 is
    /// `NEXT_INVALID`.
    pub neighbors: Neighbors,
}

impl CellHeader {
    /// The `ALLOCATED` flag.
    pub open spec fn alloc_bit(self) -> bool {
        self.neighbors.next_bit_1()
    }

    /// The `NEXT_INVALID` flag.
    pub open spec fn invalid_bit(self) -> bool {
        self.neighbors.next_bit_2()
    }

    /// The address of the byte just past this cell.
    pub open spec fn end_addr(self) -> usize {
        self.neighbors.next_masked()
    }

    /// The address of the preceding cell of the block, or null.
    pub open spec fn prev_addr(self) -> usize {
        self.neighbors.prev_masked()
    }

    /// Is this cell currently handed out to a caller?
    pub fn is_allocated(&self) -> (r: bool)
        ensures
            r == self.alloc_bit(),
    {
        self.neighbors.get_next_bit_1()
    }

    /// Is this cell on some free list?
    pub fn is_free(&self) -> (r: bool)
        ensures
            r == !self.alloc_bit(),
    {
        !self.is_allocated()
    }

    /// Mark the cell as handed out.
    pub fn set_allocated(&mut self)
        ensures
            final(self).alloc_bit(),
            final(self).invalid_bit() == old(self).invalid_bit(),
            final(self).end_addr() == old(self).end_addr(),
            final(self).prev_addr() == old(self).prev_addr(),
            final(self).neighbors.prev_raw() == old(self).neighbors.prev_raw(),
    {
        self.neighbors.set_next_bit_1();
    }

    /// Mark the cell as free.
    pub fn set_free(&mut self)
        ensures
            !final(self).alloc_bit(),
            final(self).invalid_bit() == old(self).invalid_bit(),
            final(self).end_addr() == old(self).end_addr(),
            final(self).prev_addr() == old(self).prev_addr(),
            final(self).neighbors.prev_raw() == old(self).neighbors.prev_raw(),
    {
        self.neighbors.clear_next_bit_1();
    }

    /// Does invalid memory follow this cell?
    pub fn next_cell_is_invalid(&self) -> (r: bool)
        ensures
            r == self.invalid_bit(),
    {
        self.neighbors.get_next_bit_2()
    }

    /// Record that invalid memory follows this cell.
    pub fn set_next_cell_is_invalid(&mut self)
        ensures
            final(self).invalid_bit(),
            final(self).alloc_bit() == old(self).alloc_bit(),
            final(self).end_addr() == old(self).end_addr(),
            final(self).prev_addr() == old(self).prev_addr(),
            final(self).neighbors.prev_raw() == old(self).neighbors.prev_raw(),
    {
        self.neighbors.set_next_bit_2();
    }

    /// Record that a valid cell follows this cell.
    pub fn clear_next_cell_is_invalid(&mut self)
        ensures
            !final(self).invalid_bit(),
            final(self).alloc_bit() == old(self).alloc_bit(),
            final(self).end_addr() == old(self).end_addr(),
            final(self).prev_addr() == old(self).prev_addr(),
            final(self).neighbors.prev_raw() == old(self).neighbors.prev_raw(),
    {
        self.neighbors.clear_next_bit_2();
    }
}

/// One cell of the heap, as the model keeps it: its own address, the header,
/// and the `next free` word (meaningful only while the cell is free; for an
/// allocated cell the word is dead storage, as its bytes belong to the
/// caller's data).
#[derive(Clone, Copy, PartialEq, Eq, Structural, Debug)]
pub struct FreeCell {
    /// The address of this cell's header.
    pub addr: usize,
    /// The header.
    pub header: CellHeader,
    /// The tagged `next free` word.
    pub next_free_raw: usize,
}

impl FreeCell {
    /// The address of the cell's data, just past the header.
    pub open spec fn data_addr(self) -> int {
        self.addr + HEADER_SIZE
    }

    /// The cell's data size in bytes.
    pub open spec fn size_bytes(self) -> int {
        self.header.end_addr() - self.data_addr()
    }

    /// The next free cell's address, masked.
    pub open spec fn next_free_addr(self) -> usize {
        self.next_free_raw & NEXT_FREE_MASK
    }

    /// The `CAN_MERGE` flag.
    pub open spec fn can_merge(self) -> bool {
        self.next_free_raw & NEXT_FREE_CELL_CAN_MERGE != 0
    }

    /// A cell of its own: word-aligned, at least one word of data, lying
    /// between the first page and the heap frontier, with no stray bits in
    /// the `prev` and `next free` words.
    pub open spec fn wf(self, frontier: int) -> bool {
        &&& self.addr % 8 == 0
        &&& self.addr >= crate::PAGE_SIZE
        &&& self.header.end_addr() % 8 == 0
        &&& self.data_addr() + 8 <= self.header.end_addr()
        &&& self.header.end_addr() <= frontier
        &&& self.header.prev_addr() % 8 == 0
        &&& !self.header.neighbors.prev_bit_1()
        &&& !self.header.neighbors.prev_bit_2()
        &&& self.next_free_raw & 2 == 0
        &&& self.next_free_addr() % 8 == 0
    }

    /// Write a fresh free cell over uninitialized memory: header links set,
    /// flags clear, `next free` null.
    pub fn from_uninitialized(addr: usize, end: usize, prev: usize) -> (c: FreeCell)
        requires
            addr % 8 == 0,
            end % 8 == 0,
            prev % 8 == 0,
        ensures
            c.addr == addr,
            c.header.end_addr() == end,
            c.header.prev_addr() == prev,
            !c.header.alloc_bit(),
            !c.header.invalid_bit(),
            !c.header.neighbors.prev_bit_1(),
            !c.header.neighbors.prev_bit_2(),
            c.next_free_raw == 0,
    {
        let mut header = CellHeader { neighbors: crate::neighbors::Neighbors::default() };
        proof {
            bits::lemma_aligned_no_tags(0);
        }
        header.neighbors.set_next(end);
        header.neighbors.set_prev(prev);
        FreeCell { addr, header, next_free_raw: 0 }
    }

    /// Read the next free cell's address.
    pub fn next_free(&self) -> (r: usize)
        ensures
            r == self.next_free_addr(),
    {
        self.next_free_raw & NEXT_FREE_MASK
    }

    /// Read the `CAN_MERGE` flag.
    pub fn next_free_can_merge(&self) -> (r: bool)
        ensures
            r == self.can_merge(),
    {
        self.next_free_raw & NEXT_FREE_CELL_CAN_MERGE != 0
    }

    /// Set the `CAN_MERGE` flag, keeping the next free address.
    pub fn set_next_free_can_merge(&mut self)
        ensures
            final(self).can_merge(),
            final(self).next_free_addr() == old(self).next_free_addr(),
            final(self).next_free_raw & 2 == old(self).next_free_raw & 2,
            final(self).addr == old(self).addr,
            final(self).header == old(self).header,
    {
        proof {
            bits::lemma_bit_ops(self.next_free_raw);
        }
        self.next_free_raw = self.next_free_raw | NEXT_FREE_CELL_CAN_MERGE;
    }

    /// Clear the `CAN_MERGE` flag, keeping the next free address.
    pub fn clear_next_free_can_merge(&mut self)
        ensures
            !final(self).can_merge(),
            final(self).next_free_addr() == old(self).next_free_addr(),
            final(self).next_free_raw & 2 == old(self).next_free_raw & 2,
            final(self).addr == old(self).addr,
            final(self).header == old(self).header,
    {
        proof {
            bits::lemma_bit_ops(self.next_free_raw);
        }
        self.next_free_raw = self.next_free_raw & !NEXT_FREE_CELL_CAN_MERGE;
    }

    /// Overwrite the `next free` word with a word-aligned address, clearing
    /// the flags.
    pub fn set_next_free(&mut self, next: usize)
        requires
            next % 8 == 0,
        ensures
            final(self).next_free_raw == next,
            final(self).next_free_addr() == next,
            !final(self).can_merge(),
            final(self).next_free_raw & 2 == 0,
            final(self).addr == old(self).addr,
            final(self).header == old(self).header,
    {
        proof {
            bits::lemma_aligned_no_tags(next);
        }
        self.next_free_raw = next;
    }

    /// The cell's data size in bytes.
    pub fn size(&self) -> (r: usize)
        requires
            self.data_addr() <= self.header.end_addr(),
        ensures
            r == self.size_bytes(),
    {
        self.header.neighbors.next_unchecked() - (self.addr + HEADER_SIZE)
    }

    /// The cell's data address.
    pub fn data(&self) -> (r: usize)
        requires
            self.addr + HEADER_SIZE <= usize::MAX,
        ensures
            r == self.data_addr(),
    {
        self.addr + HEADER_SIZE
    }

    /// Is the cell's data aligned to the given alignment?
    pub fn is_aligned_to(&self, align: usize) -> (r: bool)
        requires
            align >= 1,
            self.addr + HEADER_SIZE <= usize::MAX,
        ensures
            r == (self.data_addr() % align as int == 0),
    {
        (self.addr + HEADER_SIZE) % align == 0
    }
}

} // verus!
