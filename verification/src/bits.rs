//! Bits of a machine word, seen one at a time and counted.

use vstd::prelude::*;

verus! {

/// Whether bit `i` of `w` is set.
pub open spec fn bit(w: u64, i: int) -> bool {
    (w >> (i as u64)) & 1 == 1
}

/// How many of the lowest `n` bits of `w` are set.
pub open spec fn ones(w: u64, n: nat) -> nat
    decreases n,
{
    if n == 0 {
        0
    } else if bit(w, n - 1) {
        ones(w, (n - 1) as nat) + 1
    } else {
        ones(w, (n - 1) as nat)
    }
}

/// `u64::count_ones`: the number of ones in the binary representation.
pub assume_specification[ u64::count_ones ](w: u64) -> (r: u32)
    ensures
        r == ones(w, 64),
;

/// The word with only bit `i` set.
pub open spec fn single(i: int) -> u64 {
    1u64 << (i as u64)
}

pub proof fn lemma_ones_bounded(w: u64, n: nat)
    ensures
        ones(w, n) <= n,
    decreases n,
{
    if n > 0 {
        lemma_ones_bounded(w, (n - 1) as nat);
    }
}

/// Two words that agree on the lowest `n` bits have as many ones there.
pub proof fn lemma_ones_agree(a: u64, b: u64, n: nat)
    requires
        forall|i: int| 0 <= i < n ==> bit(a, i) == bit(b, i),
    ensures
        ones(a, n) == ones(b, n),
    decreases n,
{
    if n > 0 {
        lemma_ones_agree(a, b, (n - 1) as nat);
    }
}

/// Bits that are all clear from `n` up add nothing to the count.
pub proof fn lemma_ones_above(w: u64, n: nat, m: nat)
    requires
        n <= m,
        forall|i: int| n <= i < m ==> !bit(w, i),
    ensures
        ones(w, m) == ones(w, n),
    decreases m,
{
    if m > n {
        lemma_ones_above(w, n, (m - 1) as nat);
    }
}

pub proof fn lemma_zero_has_no_bits(i: int)
    requires
        0 <= i < 64,
    ensures
        !bit(0, i),
{
    let j = i as u64;
    assert((0u64 >> j) & 1 == 0) by (bit_vector);
}

/// Setting one bit changes that bit and no other.
pub proof fn lemma_set_bit(w: u64, k: int, i: int)
    requires
        0 <= k < 64,
        0 <= i < 64,
    ensures
        bit(w | single(k), i) == (bit(w, i) || i == k),
{
    let a = k as u64;
    let b = i as u64;
    assert(((w | (1u64 << a)) >> b) & 1 == 1 <==> ((w >> b) & 1 == 1 || a == b)) by (bit_vector)
        requires
            a < 64,
            b < 64,
    ;
}

/// The bits of a union are the bits of either side.
pub proof fn lemma_or_bit(x: u64, y: u64, i: int)
    requires
        0 <= i < 64,
    ensures
        bit(x | y, i) == (bit(x, i) || bit(y, i)),
{
    let b = i as u64;
    assert(((x | y) >> b) & 1 == 1 <==> ((x >> b) & 1 == 1 || (y >> b) & 1 == 1)) by (bit_vector)
        requires
            b < 64,
    ;
}

/// Two words with a set bit in common have a non-zero conjunction.
pub proof fn lemma_shared_bit(x: u64, y: u64, i: int)
    requires
        0 <= i < 64,
        bit(x, i),
        bit(y, i),
    ensures
        x & y != 0,
{
    let b = i as u64;
    assert((x >> b) & 1 == 1 && (y >> b) & 1 == 1 ==> x & y != 0) by (bit_vector)
        requires
            b < 64,
    ;
}

/// A word below bit `k` only: what is left under the mask of the lowest `k` bits.
pub proof fn lemma_mask_below(w: u64, k: int, i: int)
    requires
        0 <= k < 64,
        0 <= i < 64,
    ensures
        (1u64 << (k as u64)) >= 1,
        bit(w & (((1u64 << (k as u64)) - 1) as u64), i) == (bit(w, i) && i < k),
{
    let a = k as u64;
    let b = i as u64;
    assert(1u64 << a >= 1) by (bit_vector)
        requires
            a < 64,
    ;
    assert(((w & (((1u64 << a) - 1) as u64)) >> b) & 1 == 1 <==> ((w >> b) & 1 == 1 && b < a))
        by (bit_vector)
        requires
            a < 64,
            b < 64,
    ;
}

} // verus!
