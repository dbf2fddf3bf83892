//! Allocation traces: recorded sequences of allocations and frees, replayed
//! against an allocator.
//!
//! A trace is a list of operations: `Alloc(n)` allocates `n` bytes at word
//! alignment and is implicitly numbered in order of appearance; `Free(i)`
//! frees the `i`-th such allocation, and is a no-op if that allocation
//! failed, was already freed, or never happened.

use vstd::prelude::*;
use vstd::string::StringSliceAdditionalSpecFns;
use crate::wee_alloc::WeeAlloc;

verus! {

/// One step of a trace.
#[derive(Clone, Copy, PartialEq, Eq, Structural, Debug)]
pub enum Operation {
    /// Allocate this many bytes.
    Alloc(usize),
    /// Free the n-th allocation made, or do nothing if it is gone.
    Free(usize),
}

/// A decimal digit byte.
pub open spec fn is_digit(b: u8) -> bool {
    48 <= b && b <= 57
}

/// Every byte a decimal digit.
pub open spec fn all_digits(s: Seq<u8>) -> bool {
    forall|i: int| 0 <= i < s.len() ==> is_digit(#[trigger] s[i])
}

/// The number a run of digit bytes spells.
pub open spec fn digits_val(s: Seq<u8>) -> int
    decreases s.len(),
{
    if s.len() == 0 {
        0
    } else {
        digits_val(s.drop_last()) * 10 + (s.last() - 48)
    }
}

/// Dropping trailing digits never increases the value.
pub proof fn lemma_digits_prefix(s: Seq<u8>, j: int)
    requires
        all_digits(s),
        0 <= j <= s.len(),
    ensures
        digits_val(s.subrange(0, j)) <= digits_val(s),
    decreases s.len() - j,
{
    if j < s.len() {
        lemma_digits_prefix(s, j + 1);
        assert(s.subrange(0, j + 1).drop_last() =~= s.subrange(0, j));
        assert(s.subrange(0, j + 1).last() == s[j]);
        assert(digits_val(s.subrange(0, j + 1)) == digits_val(s.subrange(0, j)) * 10 + (
        s[j] - 48));
        assert(is_digit(s[j]));
        assert(digits_val(s.subrange(0, j)) >= 0) by {
            lemma_digits_nonneg(s.subrange(0, j));
        }
    } else {
        assert(s.subrange(0, j) =~= s);
    }
}

/// A digit run's value is not negative.
pub proof fn lemma_digits_nonneg(s: Seq<u8>)
    requires
        all_digits(s),
    ensures
        digits_val(s) >= 0,
    decreases s.len(),
{
    if s.len() > 0 {
        assert(all_digits(s.drop_last()));
        lemma_digits_nonneg(s.drop_last());
        assert(is_digit(s.last()));
    }
}

/// The bytes `Alloc(`.
pub open spec fn alloc_prefix() -> Seq<u8> {
    seq![65u8, 108u8, 108u8, 111u8, 99u8, 40u8]
}

/// The bytes `Free(`.
pub open spec fn free_prefix() -> Seq<u8> {
    seq![70u8, 114u8, 101u8, 101u8, 40u8]
}

/// The line spells `<prefix><digits>),` with at least one digit.
pub open spec fn line_shape(s: Seq<u8>, prefix: Seq<u8>) -> bool {
    &&& s.len() >= prefix.len() + 3
    &&& s.subrange(0, prefix.len() as int) == prefix
    &&& s[s.len() - 2] == 41
    &&& s[s.len() - 1] == 44
    &&& all_digits(s.subrange(prefix.len() as int, s.len() - 2))
}

/// The number such a line names.
pub open spec fn line_val(s: Seq<u8>, prefix: Seq<u8>) -> int {
    digits_val(s.subrange(prefix.len() as int, s.len() - 2))
}

/// Parse the digit bytes of `bytes[lo..hi]`: the spelled number, or nothing
/// when the run is empty, holds a non-digit, or overflows.
fn parse_digits(bytes: &[u8], lo: usize, hi: usize) -> (r: Option<usize>)
    requires
        lo <= hi <= bytes@.len(),
    ensures
        r is Some <==> hi > lo && all_digits(bytes@.subrange(lo as int, hi as int))
            && digits_val(bytes@.subrange(lo as int, hi as int)) <= usize::MAX,
        r is Some ==> r->0 == digits_val(bytes@.subrange(lo as int, hi as int)),
{
    if lo == hi {
        return None;
    }
    let mut acc: usize = 0;
    let mut i: usize = lo;
    loop
        invariant
            lo <= i <= hi <= bytes@.len(),
            all_digits(bytes@.subrange(lo as int, i as int)),
            acc == digits_val(bytes@.subrange(lo as int, i as int)),
        ensures
            i == hi,
            all_digits(bytes@.subrange(lo as int, hi as int)),
            acc == digits_val(bytes@.subrange(lo as int, hi as int)),
        decreases hi - i,
    {
        if i == hi {
            break;
        }
        let b: u8 = bytes[i];
        if !(48 <= b && b <= 57) {
            proof {
                assert(bytes@.subrange(lo as int, hi as int)[i - lo] == bytes@[i as int]);
                assert(!all_digits(bytes@.subrange(lo as int, hi as int)));
            }
            return None;
        }
        let ghost pre = bytes@.subrange(lo as int, i as int);
        let ghost cur = bytes@.subrange(lo as int, i + 1);
        proof {
            assert(cur.drop_last() =~= pre);
            assert(cur.last() == bytes@[i as int]);
        }
        let scaled: Option<usize> = acc.checked_mul(10);
        let next: usize;
        match scaled {
            None => {
                proof {
                    assert(acc * 10 <= digits_val(bytes@.subrange(lo as int, i as int)) * 10 + (
                    bytes@[i as int] - 48));
                    lemma_overflow(bytes@, lo as int, hi as int, i as int, acc * 10);
                }
                return None;
            },
            Some(sc) => {
                let stepped: Option<usize> = sc.checked_add((b - 48) as usize);
                match stepped {
                    None => {
                        proof {
                            lemma_overflow(bytes@, lo as int, hi as int, i as int, acc * 10 + (
                            b - 48));
                        }
                        return None;
                    },
                    Some(v) => {
                        next = v;
                    },
                }
            },
        }
        acc = next;
        i = i + 1;
    }
    Some(acc)
}

/// A run whose value already exceeds `usize` at some digit spells a number
/// past `usize` in full.
proof fn lemma_overflow(s: Seq<u8>, lo: int, hi: int, i: int, partial: int)
    requires
        0 <= lo <= i < hi <= s.len(),
        all_digits(s.subrange(lo, i)),
        is_digit(s[i]),
        partial <= digits_val(s.subrange(lo, i)) * 10 + (s[i] - 48),
        partial > usize::MAX,
    ensures
        !(hi > lo && all_digits(s.subrange(lo, hi)) && digits_val(s.subrange(lo, hi))
            <= usize::MAX),
{
    if all_digits(s.subrange(lo, hi)) {
        let full = s.subrange(lo, hi);
        assert(full.subrange(0, i + 1 - lo) =~= s.subrange(lo, i + 1));
        assert(s.subrange(lo, i + 1).drop_last() =~= s.subrange(lo, i));
        assert(s.subrange(lo, i + 1).last() == s[i]);
        assert(digits_val(s.subrange(lo, i + 1)) == digits_val(s.subrange(lo, i)) * 10 + (
        s[i] - 48));
        lemma_digits_prefix(full, i + 1 - lo);
        assert(digits_val(full) >= digits_val(s.subrange(lo, i + 1)));
    }
}

/// Parse one trace line: `Alloc(<n>),` or `Free(<i>),`, comma included.
/// Anything else — a stray byte, an empty number, a number past `usize` —
/// is rejected.
pub fn parse_op(line: &str) -> (r: Option<Operation>)
    ensures
        line_shape(line.spec_bytes(), alloc_prefix()) && line_val(
            line.spec_bytes(),
            alloc_prefix(),
        ) <= usize::MAX ==> r == Some(
            Operation::Alloc(line_val(line.spec_bytes(), alloc_prefix()) as usize),
        ),
        line_shape(line.spec_bytes(), free_prefix()) && line_val(
            line.spec_bytes(),
            free_prefix(),
        ) <= usize::MAX ==> r == Some(
            Operation::Free(line_val(line.spec_bytes(), free_prefix()) as usize),
        ),
        !(line_shape(line.spec_bytes(), alloc_prefix()) && line_val(
            line.spec_bytes(),
            alloc_prefix(),
        ) <= usize::MAX) && !(line_shape(line.spec_bytes(), free_prefix()) && line_val(
            line.spec_bytes(),
            free_prefix(),
        ) <= usize::MAX) ==> r is None,
{
    let bytes: &[u8] = line.as_bytes();
    let n: usize = bytes.len();
    let ghost bs = line.spec_bytes();
    if n >= 9 && bytes[0] == 65 && bytes[1] == 108 && bytes[2] == 108 && bytes[3] == 111
        && bytes[4] == 99 && bytes[5] == 40 && bytes[n - 2] == 41 && bytes[n - 1] == 44 {
        proof {
            assert(bs.subrange(0, 6) =~= alloc_prefix());
        }
        let v: Option<usize> = parse_digits(bytes, 6, n - 2);
        match v {
            Some(x) => {
                proof {
                    assert(line_shape(bs, alloc_prefix()));
                    assert(!line_shape(bs, free_prefix()));
                }
                return Some(Operation::Alloc(x));
            },
            None => {
                proof {
                    assert(!line_shape(bs, alloc_prefix()) || line_val(bs, alloc_prefix())
                        > usize::MAX);
                    assert(!line_shape(bs, free_prefix()));
                }
                return None;
            },
        }
    }
    if n >= 8 && bytes[0] == 70 && bytes[1] == 114 && bytes[2] == 101 && bytes[3] == 101
        && bytes[4] == 40 && bytes[n - 2] == 41 && bytes[n - 1] == 44 {
        proof {
            assert(bs.subrange(0, 5) =~= free_prefix());
        }
        let v: Option<usize> = parse_digits(bytes, 5, n - 2);
        match v {
            Some(x) => {
                proof {
                    assert(line_shape(bs, free_prefix()));
                    assert(!line_shape(bs, alloc_prefix()));
                }
                return Some(Operation::Free(x));
            },
            None => {
                proof {
                    assert(!line_shape(bs, free_prefix()) || line_val(bs, free_prefix())
                        > usize::MAX);
                    assert(!line_shape(bs, alloc_prefix()));
                }
                return None;
            },
        }
    }
    proof {
        if line_shape(bs, alloc_prefix()) {
            assert(bs[0] == 65 && bs[1] == 108 && bs[2] == 108 && bs[3] == 111 && bs[4] == 99
                && bs[5] == 40);
            assert(false);
        }
        if line_shape(bs, free_prefix()) {
            assert(bs[0] == 70 && bs[1] == 114 && bs[2] == 101 && bs[3] == 101 && bs[4] == 40);
            assert(false);
        }
    }
    None
}

/// A recorded allocation trace.
pub struct Operations(pub Vec<Operation>);

impl Operations {
    /// Replay the trace against a fresh allocator with the default budget.
    pub fn run_single_threaded(&self)
    {
        let mut a = WeeAlloc::new();
        self.run_with_allocator(&mut a);
    }

    /// Replay the trace against the given allocator. Each `Alloc(n)` asks
    /// for `n` bytes at word alignment and records the result under the
    /// next number; each `Free(i)` returns allocation `i` with the layout
    /// it was made with, or does nothing when it failed, was already freed,
    /// or never happened. Every step is governed by the allocator's own
    /// contracts; the replay adds that the laws and the budget survive the
    /// whole trace.
    pub fn run_with_allocator(&self, a: &mut WeeAlloc)
        requires
            old(a).wf(),
        ensures
            final(a).wf(),
            final(a).pages.limit() == old(a).pages.limit(),
    {
        let mut allocs: Vec<Option<(usize, usize)>> = Vec::new();
        let n: usize = self.0.len();
        let mut i: usize = 0;
        proof {
            crate::bits::lemma_pow2_small();
        }
        loop
            invariant
                i <= n,
                n == self.0@.len(),
                a.wf(),
                a.pages.limit() == old(a).pages.limit(),
                crate::bits::is_pow2(8),
            decreases n - i,
        {
            if i == n {
                break;
            }
            let op: Operation = self.0[i];
            match op {
                Operation::Alloc(size) => {
                    let ptr: usize = a.alloc_impl(size, 8);
                    if ptr != 0 && size != 0 {
                        allocs.push(Some((ptr, size)));
                    } else {
                        allocs.push(None);
                    }
                },
                Operation::Free(idx) => {
                    if idx < allocs.len() {
                        let entry: Option<(usize, usize)> = allocs[idx];
                        match entry {
                            Some(pair) => {
                                a.dealloc_impl(pair.0, pair.1, 8);
                                *vstd::std_specs::vec::vec_index_mut(&mut allocs, idx) = None;
                            },
                            None => {},
                        }
                    }
                },
            }
            i = i + 1;
        }
    }
}

} // verus!
