//! Distinct scalar types for byte, word and page quantities.
//!
//! The allocator mixes three units of measure: bytes, machine words (8 bytes
//! in this model) and 64 KiB pages. Keeping them as distinct types prevents
//! unit-confusion bugs; the conversions and round-up operations here carry
//! exact contracts.

use vstd::prelude::*;

verus! {

/// The machine word size of the model, in bytes. Cell headers are two words,
/// and all cell addresses and sizes are multiples of this.
pub const WORD_SIZE: usize = 8;

/// A quantity of bytes.
#[derive(Clone, Copy, PartialEq, Eq, Structural, Debug)]
pub struct Bytes(pub usize);

/// A quantity of machine words.
#[derive(Clone, Copy, PartialEq, Eq, Structural, Debug)]
pub struct Words(pub usize);

/// A quantity of 64 KiB pages.
#[derive(Clone, Copy, PartialEq, Eq, Structural, Debug)]
pub struct Pages(pub usize);

/// Round-up conversion into a coarser unit: the result is the least quantity
/// of the target unit covering `self`.
pub trait RoundUpTo<T>: Sized {
    /// When the conversion is free of overflow.
    spec fn round_up_req(self) -> bool;

    /// What the conversion yields.
    spec fn round_up_spec(self) -> T;

    /// Convert, rounding up.
    fn round_up_to(self) -> (r: T)
        requires
            self.round_up_req(),
        ensures
            r == self.round_up_spec(),
    ;
}

impl Words {
    /// The same quantity in bytes.
    pub fn to_bytes(self) -> (r: Bytes)
        requires
            self.0 * WORD_SIZE <= usize::MAX,
        ensures
            r.0 == self.0 * WORD_SIZE,
    {
        Bytes(self.0 * WORD_SIZE)
    }
}

impl Pages {
    /// The same quantity in bytes.
    pub fn to_bytes(self) -> (r: Bytes)
        requires
            self.0 * crate::PAGE_SIZE <= usize::MAX,
        ensures
            r.0 == self.0 * crate::PAGE_SIZE,
    {
        Bytes(self.0 * crate::PAGE_SIZE)
    }

    /// The same quantity in machine words.
    pub fn to_words(self) -> (r: Words)
        requires
            self.0 * crate::PAGE_SIZE <= usize::MAX,
        ensures
            r.0 == self.0 * crate::PAGE_SIZE / WORD_SIZE as int,
    {
        proof {
            let n = self.0 as int;
            assert(n * crate::PAGE_SIZE == (n * 8192) * 8) by (nonlinear_arith);
            assert(((n * 8192) * 8) / 8 == n * 8192) by (nonlinear_arith);
            assert(n * 8192 <= n * crate::PAGE_SIZE) by (nonlinear_arith)
                requires n >= 0;
        }
        Words(self.0 * (crate::PAGE_SIZE / WORD_SIZE))
    }
}

impl RoundUpTo<Words> for Bytes {
    open spec fn round_up_req(self) -> bool {
        true
    }

    open spec fn round_up_spec(self) -> Words {
        Words(((self.0 + WORD_SIZE - 1) / WORD_SIZE as int) as usize)
    }

    fn round_up_to(self) -> (r: Words) {
        let whole: usize = self.0 / WORD_SIZE;
        if self.0 % WORD_SIZE == 0 {
            Words(whole)
        } else {
            Words(whole + 1)
        }
    }
}

impl RoundUpTo<Pages> for Bytes {
    open spec fn round_up_req(self) -> bool {
        true
    }

    open spec fn round_up_spec(self) -> Pages {
        Pages(((self.0 + crate::PAGE_SIZE - 1) / crate::PAGE_SIZE as int) as usize)
    }

    fn round_up_to(self) -> (r: Pages) {
        let whole: usize = self.0 / crate::PAGE_SIZE;
        if self.0 % crate::PAGE_SIZE == 0 {
            Pages(whole)
        } else {
            Pages(whole + 1)
        }
    }
}

impl RoundUpTo<Pages> for Words {
    open spec fn round_up_req(self) -> bool {
        self.0 * WORD_SIZE <= usize::MAX
    }

    open spec fn round_up_spec(self) -> Pages {
        Pages(((self.0 * WORD_SIZE + crate::PAGE_SIZE - 1) / crate::PAGE_SIZE as int) as usize)
    }

    fn round_up_to(self) -> (r: Pages) {
        let bytes: Bytes = Bytes(self.0 * WORD_SIZE);
        bytes.round_up_to()
    }
}

} // verus!
