//! An intrusive pair of physical-neighbor links with two tag bits each.
//!
//! A cell header holds two words: the address of the byte just past the cell
//! (`next`) and the address of the preceding cell (`prev`). Because cells are
//! word-aligned, the two low bits of each word are free to carry flags; the
//! accessors here read and write one bit or the address without touching the
//! rest of the word.

use vstd::prelude::*;
use crate::bits;

verus! {

/// The first tag bit of a neighbor word.
pub const BIT_1: usize = 0b01;

/// The second tag bit of a neighbor word.
pub const BIT_2: usize = 0b10;

/// Mask keeping only the two tag bits.
pub const BITS_MASK: usize = 0b11;

/// Mask recovering the word-aligned address from a tagged word.
pub const PTR_MASK: usize = !0b11;

/// The two physical-neighbor words of a cell header, with their tag bits.
#[derive(Clone, Copy, PartialEq, Eq, Structural, Debug)]
pub struct Neighbors {
    next_raw: usize,
    prev_raw: usize,
}

impl Default for Neighbors {
    /// Both links null, all bits clear.
    fn default() -> (r: Self)
        ensures
            r.next_raw() == 0,
            r.prev_raw() == 0,
    {
        Neighbors { next_raw: 0, prev_raw: 0 }
    }
}

impl Neighbors {
    /// The raw tagged `next` word.
    pub closed spec fn next_raw(self) -> usize {
        self.next_raw
    }

    /// The raw tagged `prev` word.
    pub closed spec fn prev_raw(self) -> usize {
        self.prev_raw
    }

    /// The `next` address with the tag bits masked off.
    pub open spec fn next_masked(self) -> usize {
        self.next_raw() & PTR_MASK
    }

    /// The `prev` address with the tag bits masked off.
    pub open spec fn prev_masked(self) -> usize {
        self.prev_raw() & PTR_MASK
    }

    /// First tag bit of `next`, as a spec value.
    pub open spec fn next_bit_1(self) -> bool {
        self.next_raw() & BIT_1 != 0
    }

    /// Second tag bit of `next`, as a spec value.
    pub open spec fn next_bit_2(self) -> bool {
        self.next_raw() & BIT_2 != 0
    }

    /// First tag bit of `prev`, as a spec value.
    pub open spec fn prev_bit_1(self) -> bool {
        self.prev_raw() & BIT_1 != 0
    }

    /// Second tag bit of `prev`, as a spec value.
    pub open spec fn prev_bit_2(self) -> bool {
        self.prev_raw() & BIT_2 != 0
    }

    /// Read the first tag bit of `next`.
    pub fn get_next_bit_1(&self) -> (r: bool)
        ensures
            r == self.next_bit_1(),
    {
        self.next_raw & BIT_1 != 0
    }

    /// Read the second tag bit of `next`.
    pub fn get_next_bit_2(&self) -> (r: bool)
        ensures
            r == self.next_bit_2(),
    {
        self.next_raw & BIT_2 != 0
    }

    /// Read the first tag bit of `prev`.
    pub fn get_prev_bit_1(&self) -> (r: bool)
        ensures
            r == self.prev_bit_1(),
    {
        self.prev_raw & BIT_1 != 0
    }

    /// Read the second tag bit of `prev`.
    pub fn get_prev_bit_2(&self) -> (r: bool)
        ensures
            r == self.prev_bit_2(),
    {
        self.prev_raw & BIT_2 != 0
    }

    /// Set the first tag bit of `next`; the address and the other bit keep
    /// their values.
    pub fn set_next_bit_1(&mut self)
        ensures
            final(self).next_bit_1(),
            final(self).next_bit_2() == old(self).next_bit_2(),
            final(self).next_masked() == old(self).next_masked(),
            final(self).prev_raw() == old(self).prev_raw(),
    {
        proof {
            bits::lemma_bit_ops(self.next_raw);
        }
        self.next_raw = self.next_raw | BIT_1;
    }

    /// Set the second tag bit of `next`; the address and the other bit keep
    /// their values.
    pub fn set_next_bit_2(&mut self)
        ensures
            final(self).next_bit_2(),
            final(self).next_bit_1() == old(self).next_bit_1(),
            final(self).next_masked() == old(self).next_masked(),
            final(self).prev_raw() == old(self).prev_raw(),
    {
        proof {
            bits::lemma_bit_ops(self.next_raw);
        }
        self.next_raw = self.next_raw | BIT_2;
    }

    /// Set the first tag bit of `prev`; the address and the other bit keep
    /// their values.
    pub fn set_prev_bit_1(&mut self)
        ensures
            final(self).prev_bit_1(),
            final(self).prev_bit_2() == old(self).prev_bit_2(),
            final(self).prev_masked() == old(self).prev_masked(),
            final(self).next_raw() == old(self).next_raw(),
    {
        proof {
            bits::lemma_bit_ops(self.prev_raw);
        }
        self.prev_raw = self.prev_raw | BIT_1;
    }

    /// Set the second tag bit of `prev`; the address and the other bit keep
    /// their values.
    pub fn set_prev_bit_2(&mut self)
        ensures
            final(self).prev_bit_2(),
            final(self).prev_bit_1() == old(self).prev_bit_1(),
            final(self).prev_masked() == old(self).prev_masked(),
            final(self).next_raw() == old(self).next_raw(),
    {
        proof {
            bits::lemma_bit_ops(self.prev_raw);
        }
        self.prev_raw = self.prev_raw | BIT_2;
    }

    /// Clear the first tag bit of `next`; the address and the other bit keep
    /// their values.
    pub fn clear_next_bit_1(&mut self)
        ensures
            !final(self).next_bit_1(),
            final(self).next_bit_2() == old(self).next_bit_2(),
            final(self).next_masked() == old(self).next_masked(),
            final(self).prev_raw() == old(self).prev_raw(),
    {
        proof {
            bits::lemma_bit_ops(self.next_raw);
        }
        self.next_raw = self.next_raw & !BIT_1;
    }

    /// Clear the second tag bit of `next`; the address and the other bit keep
    /// their values.
    pub fn clear_next_bit_2(&mut self)
        ensures
            !final(self).next_bit_2(),
            final(self).next_bit_1() == old(self).next_bit_1(),
            final(self).next_masked() == old(self).next_masked(),
            final(self).prev_raw() == old(self).prev_raw(),
    {
        proof {
            bits::lemma_bit_ops(self.next_raw);
        }
        self.next_raw = self.next_raw & !BIT_2;
    }

    /// Clear the first tag bit of `prev`; the address and the other bit keep
    /// their values.
    pub fn clear_prev_bit_1(&mut self)
        ensures
            !final(self).prev_bit_1(),
            final(self).prev_bit_2() == old(self).prev_bit_2(),
            final(self).prev_masked() == old(self).prev_masked(),
            final(self).next_raw() == old(self).next_raw(),
    {
        proof {
            bits::lemma_bit_ops(self.prev_raw);
        }
        self.prev_raw = self.prev_raw & !BIT_1;
    }

    /// Clear the second tag bit of `prev`; the address and the other bit keep
    /// their values.
    pub fn clear_prev_bit_2(&mut self)
        ensures
            !final(self).prev_bit_2(),
            final(self).prev_bit_1() == old(self).prev_bit_1(),
            final(self).prev_masked() == old(self).prev_masked(),
            final(self).next_raw() == old(self).next_raw(),
    {
        proof {
            bits::lemma_bit_ops(self.prev_raw);
        }
        self.prev_raw = self.prev_raw & !BIT_2;
    }

    /// The `next` address, masked, without checking whether it is valid.
    pub fn next_unchecked(&self) -> (r: usize)
        ensures
            r == self.next_masked(),
    {
        self.next_raw & PTR_MASK
    }

    /// The `prev` address, masked, without checking whether it is valid.
    pub fn prev_unchecked(&self) -> (r: usize)
        ensures
            r == self.prev_masked(),
    {
        self.prev_raw & PTR_MASK
    }

    /// Install a word-aligned `next` address, preserving the tag bits.
    pub fn set_next(&mut self, next: usize)
        requires
            next % 8 == 0,
        ensures
            final(self).next_masked() == next,
            final(self).next_bit_1() == old(self).next_bit_1(),
            final(self).next_bit_2() == old(self).next_bit_2(),
            final(self).prev_raw() == old(self).prev_raw(),
    {
        proof {
            bits::lemma_set_masked(self.next_raw, next);
            bits::lemma_aligned_no_tags(next);
        }
        let old_bits: usize = self.next_raw & BITS_MASK;
        self.next_raw = next | old_bits;
    }

    /// Install a word-aligned `prev` address, preserving the tag bits.
    pub fn set_prev(&mut self, prev: usize)
        requires
            prev % 8 == 0,
        ensures
            final(self).prev_masked() == prev,
            final(self).prev_bit_1() == old(self).prev_bit_1(),
            final(self).prev_bit_2() == old(self).prev_bit_2(),
            final(self).next_raw() == old(self).next_raw(),
    {
        proof {
            bits::lemma_set_masked(self.prev_raw, prev);
            bits::lemma_aligned_no_tags(prev);
        }
        let old_bits: usize = self.prev_raw & BITS_MASK;
        self.prev_raw = prev | old_bits;
    }

    /// The raw `next` word, tag bits included.
    pub fn next_and_bits(&self) -> (r: usize)
        ensures
            r == self.next_raw(),
    {
        self.next_raw
    }

    /// The raw `prev` word, tag bits included.
    pub fn prev_and_bits(&self) -> (r: usize)
        ensures
            r == self.prev_raw(),
    {
        self.prev_raw
    }

    /// Overwrite the raw `next` word, tag bits included.
    pub fn set_next_and_bits(&mut self, next_and_bits: usize)
        ensures
            final(self).next_raw() == next_and_bits,
            final(self).prev_raw() == old(self).prev_raw(),
    {
        self.next_raw = next_and_bits;
    }

    /// Overwrite the raw `prev` word, tag bits included.
    pub fn set_prev_and_bits(&mut self, prev_and_bits: usize)
        ensures
            final(self).prev_raw() == prev_and_bits,
            final(self).next_raw() == old(self).next_raw(),
    {
        self.prev_raw = prev_and_bits;
    }
}

} // verus!
