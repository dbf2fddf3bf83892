//! Lemmas about the two low tag bits stolen from word-aligned addresses.
//!
//! Cell headers store a neighbor address together with two flag bits in one
//! word. These lemmas relate the masked address and the individual bits
//! before and after the bit operations the allocator performs.

use vstd::prelude::*;

verus! {

/// Setting or clearing either low bit leaves the masked address and the other
/// bit untouched.
pub proof fn lemma_bit_ops(x: usize)
    ensures
        (x | 1) & !3usize == x & !3usize,
        (x | 1) & 2 == x & 2,
        (x | 1) & 1 == 1usize,
        (x & !1usize) & !3usize == x & !3usize,
        (x & !1usize) & 2 == x & 2,
        (x & !1usize) & 1 == 0usize,
        (x | 2) & !3usize == x & !3usize,
        (x | 2) & 1 == x & 1,
        (x | 2) & 2 == 2usize,
        (x & !2usize) & !3usize == x & !3usize,
        (x & !2usize) & 1 == x & 1,
        (x & !2usize) & 2 == 0usize,
{
    assert((x | 1) & !3usize == x & !3usize && (x | 1) & 2 == x & 2 && (x | 1) & 1 == 1usize
        && (x & !1usize) & !3usize == x & !3usize && (x & !1usize) & 2 == x & 2 && (x & !1usize)
        & 1 == 0usize && (x | 2) & !3usize == x & !3usize && (x | 2) & 1 == x & 1 && (x | 2) & 2
        == 2usize && (x & !2usize) & !3usize == x & !3usize && (x & !2usize) & 1 == x & 1 && (x
        & !2usize) & 2 == 0usize) by (bit_vector);
}

/// A word-aligned value carries no tag bits: masking leaves it unchanged and
/// both low bits read as clear.
pub proof fn lemma_aligned_no_tags(e: usize)
    requires
        e % 8 == 0,
    ensures
        e & !3usize == e,
        e & 1 == 0usize,
        e & 2 == 0usize,
        e & 3 == 0usize,
{
    assert(e % 8 == 0 ==> (e & !3usize == e && e & 1 == 0usize && e & 2 == 0usize && e & 3
        == 0usize)) by (bit_vector);
}

/// Installing a word-aligned address while keeping the old tag bits yields a
/// word whose masked address is the new address and whose bits are the old
/// ones.
pub proof fn lemma_set_masked(old_raw: usize, e: usize)
    requires
        e % 8 == 0,
    ensures
        (e | (old_raw & 3)) & !3usize == e,
        (e | (old_raw & 3)) & 1 == old_raw & 1,
        (e | (old_raw & 3)) & 2 == old_raw & 2,
{
    assert(e % 8 == 0 ==> ((e | (old_raw & 3)) & !3usize == e && (e | (old_raw & 3)) & 1
        == old_raw & 1 && (e | (old_raw & 3)) & 2 == old_raw & 2)) by (bit_vector);
}

/// Is `n` a power of two? Alignments must be.
pub open spec fn is_pow2(n: usize) -> bool {
    exists|k: nat| n == vstd::arithmetic::power2::pow2(k)
}

/// The small powers of two, for callers that fix an alignment.
pub proof fn lemma_pow2_small()
    ensures
        is_pow2(1),
        is_pow2(2),
        is_pow2(4),
        is_pow2(8),
        is_pow2(16),
        is_pow2(32),
        is_pow2(64),
        is_pow2(128),
        is_pow2(256),
        is_pow2(512),
{
    vstd::arithmetic::power2::lemma2_to64();
    assert(1usize == vstd::arithmetic::power2::pow2(0));
    assert(2usize == vstd::arithmetic::power2::pow2(1));
    assert(4usize == vstd::arithmetic::power2::pow2(2));
    assert(8usize == vstd::arithmetic::power2::pow2(3));
    assert(16usize == vstd::arithmetic::power2::pow2(4));
    assert(32usize == vstd::arithmetic::power2::pow2(5));
    assert(64usize == vstd::arithmetic::power2::pow2(6));
    assert(128usize == vstd::arithmetic::power2::pow2(7));
    assert(256usize == vstd::arithmetic::power2::pow2(8));
    assert(512usize == vstd::arithmetic::power2::pow2(9));
}

/// A power of two at most the word size divides the word size; a larger one
/// is a multiple of it.
pub proof fn lemma_pow2_word(a: usize)
    requires
        is_pow2(a),
    ensures
        a >= 1,
        a <= 8 ==> 8int % a as int == 0,
        a > 8 ==> a % 8 == 0,
{
    let k = choose|k: nat| a == vstd::arithmetic::power2::pow2(k);
    vstd::arithmetic::power2::lemma_pow2_pos(k);
    vstd::arithmetic::power2::lemma2_to64();
    if a <= 8 {
        if k > 3 {
            vstd::arithmetic::power2::lemma_pow2_strictly_increases(3, k);
            assert(false);
        }
        assert(k == 0 || k == 1 || k == 2 || k == 3);
        assert(a == 1 || a == 2 || a == 4 || a == 8);
        assert(8int % 1int == 0 && 8int % 2int == 0 && 8int % 4int == 0 && 8int % 8int == 0);
    } else {
        if k <= 3 {
            assert(a == 1 || a == 2 || a == 4 || a == 8);
            assert(false);
        }
        vstd::arithmetic::power2::lemma_pow2_adds(3, (k - 3) as nat);
        assert(a == 8 * vstd::arithmetic::power2::pow2((k - 3) as nat));
        vstd::arithmetic::div_mod::lemma_mod_multiples_basic(
            vstd::arithmetic::power2::pow2((k - 3) as nat) as int,
            8,
        );
    }
}

/// Aligning a word-aligned value down to a power-of-two boundary keeps it
/// word-aligned, lands on the boundary, and moves it back less than one
/// alignment.
pub proof fn lemma_down_align(x: int, a: usize)
    requires
        is_pow2(a),
        x >= 0,
        x % 8 == 0,
    ensures
        (x - x % a as int) % a as int == 0,
        (x - x % a as int) % 8 == 0,
        x - a < x - x % a as int <= x,
        0 <= x - x % a as int,
{
    let ai = a as int;
    lemma_pow2_word(a);
    vstd::arithmetic::div_mod::lemma_mod_bound(x, ai);
    let r = x % ai;
    vstd::arithmetic::div_mod::lemma_fundamental_div_mod(x, ai);
    vstd::arithmetic::div_mod::lemma_mod_multiples_basic(x / ai, ai);
    assert((x - r) == ai * (x / ai));
    assert((x - r) % ai == 0);
    if a <= 8 {
        // The alignment divides the word size, so `x` is already aligned.
        let m = 8int / ai;
        assert(8 == ai * m + 8int % ai) by {
            vstd::arithmetic::div_mod::lemma_fundamental_div_mod(8, ai);
        }
        assert(8 == ai * m);
        let q8 = x / 8;
        assert(x == 8 * q8) by {
            vstd::arithmetic::div_mod::lemma_fundamental_div_mod(x, 8);
        }
        assert(x == ai * (m * q8)) by (nonlinear_arith)
            requires x == 8 * q8, 8 == ai * m;
        vstd::arithmetic::div_mod::lemma_mod_multiples_basic(m * q8, ai);
        assert(x % ai == 0);
    } else {
        // The alignment is a multiple of the word size.
        assert((ai * (x / ai)) % 8 == ((ai % 8) * (x / ai)) % 8) by {
            vstd::arithmetic::div_mod::lemma_mul_mod_noop_left(ai, x / ai, 8);
        }
        assert((x - r) % 8 == 0) by {
            vstd::arithmetic::div_mod::lemma_mod_multiples_basic(0, 8);
            assert((ai % 8) * (x / ai) == 0);
        }
    }
}

/// A word-aligned value is aligned to any power of two at most the word
/// size.
pub proof fn lemma_word_divides(x: int, a: usize)
    requires
        is_pow2(a),
        a <= 8,
        x >= 0,
        x % 8 == 0,
    ensures
        x % a as int == 0,
{
    let ai = a as int;
    lemma_pow2_word(a);
    let m = 8int / ai;
    assert(8 == ai * m + 8int % ai) by {
        vstd::arithmetic::div_mod::lemma_fundamental_div_mod(8, ai);
    }
    assert(8 == ai * m);
    let q8 = x / 8;
    assert(x == 8 * q8) by {
        vstd::arithmetic::div_mod::lemma_fundamental_div_mod(x, 8);
    }
    assert(x == ai * (m * q8)) by (nonlinear_arith)
        requires x == 8 * q8, 8 == ai * m;
    vstd::arithmetic::div_mod::lemma_mod_multiples_basic(m * q8, ai);
}

/// A page-aligned block is word-aligned, and its data word (one header past
/// the block start) is aligned to any power of two up to two words.
pub proof fn lemma_block_align(b: usize, a: usize)
    requires
        b as int % 65536 == 0,
        is_pow2(a),
        a <= 16,
    ensures
        b % 8 == 0,
        (b + 16) % a as int == 0,
{
    let k = choose|k: nat| a == vstd::arithmetic::power2::pow2(k);
    vstd::arithmetic::power2::lemma_pow2_pos(k);
    vstd::arithmetic::power2::lemma2_to64();
    if k > 4 {
        vstd::arithmetic::power2::lemma_pow2_strictly_increases(4, k);
        assert(false);
    }
    assert(a == 1 || a == 2 || a == 4 || a == 8 || a == 16);
    let q = b as int / 65536;
    assert(b == 65536 * q) by {
        vstd::arithmetic::div_mod::lemma_fundamental_div_mod(b as int, 65536);
    }
    assert(b as int == 8 * (8192 * q)) by (nonlinear_arith)
        requires b == 65536 * q;
    vstd::arithmetic::div_mod::lemma_mod_multiples_basic(8192 * q, 8);
    let ai = a as int;
    let m = 65536int / ai;
    assert(65536int == ai * m) by {
        assert(65536int / 1int == 65536 && 65536int / 2int == 32768 && 65536int / 4int == 16384
            && 65536int / 8int == 8192 && 65536int / 16int == 4096);
    }
    assert(b as int == ai * (m * q)) by (nonlinear_arith)
        requires b == 65536 * q, 65536 == ai * m;
    vstd::arithmetic::div_mod::lemma_mod_multiples_basic(m * q, ai);
    assert(b as int % ai == 0);
    assert(16int % ai == 0);
    vstd::arithmetic::div_mod::lemma_add_mod_noop(b as int, 16, ai);
}

} // verus!
