//! A small first-fit free-list memory allocator, modelled over a word-addressed
//! heap and verified.
//!
//! The allocator manages memory obtained from a page source in 64 KiB pages.
//! Memory is divided into cells: a two-word header (physical neighbor links
//! with tag bits) followed by the data handed to callers. Free cells are
//! threaded on singly-linked free lists: one main list for large requests and
//! 256 size-class lists for small ones. The model keeps cells in tables of
//! plain records and addresses as plain integers, so every pointer step the
//! allocator takes is checked.

use vstd::prelude::*;

pub mod bits;
pub mod cell;
pub mod free_list;
pub mod imp;
pub mod neighbors;
pub mod splay;
pub mod trace;
pub mod units;
pub mod wee_alloc;

verus! {

/// The page size, in bytes, in which memory is obtained from the page source.
pub const PAGE_SIZE: usize = 65536;

/// The most heap the page source will ever hand out, in bytes: 1 GiB. The
/// bound is a machine limit of the model: every address computation
/// (frontiers, split positions, refill requests, which reach about twice
/// the frontier) must stay inside `usize` even on 32-bit machines.
pub const MAX_HEAP_BYTES: usize = 0x4000_0000;

} // verus!
