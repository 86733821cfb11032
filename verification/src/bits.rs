//! Bit-level facts about 64-bit words.

use vstd::prelude::*;

verus! {

/// Whether bit `i` of `w` is set, counting from the least significant bit.
pub open spec fn bit_of(w: u64, i: u64) -> bool {
    (w >> i) & 1 == 1
}

/// Number of set bits among the lowest `n` bits of `w`.
pub open spec fn bit_count(w: u64, n: nat) -> nat
    decreases n,
{
    if n == 0 {
        0
    } else {
        bit_count(w, (n - 1) as nat) + if bit_of(w, (n - 1) as u64) {
            1nat
        } else {
            0nat
        }
    }
}

/// `u64::count_ones` returns the number of one bits in the binary
/// representation of its argument, that is the set bits among all 64.
pub assume_specification[ u64::count_ones ](w: u64) -> (r: u32)
    ensures
        r == bit_count(w, 64),
;

/// `i32::rem_euclid` returns the least non-negative remainder of `x` by `m`.
/// It panics for a zero modulus and overflows for `i32::MIN` by `-1`; both
/// are left out.
pub assume_specification[ i32::rem_euclid ](x: i32, m: i32) -> (r: i32)
    requires
        m > 0,
    ensures
        r == x as int % m as int,
;

/// No more bits are set among `n` than `n`.
pub proof fn lemma_bit_count_bound(w: u64, n: nat)
    ensures
        bit_count(w, n) <= n,
    decreases n,
{
    if n > 0 {
        lemma_bit_count_bound(w, (n - 1) as nat);
    }
}

/// Zero has no bit set.
pub proof fn lemma_zero_bits(j: u64)
    requires
        j < 64,
    ensures
        !bit_of(0, j),
{
    assert((0u64 >> j) & 1 == 0) by (bit_vector);
}

/// A bit of an exclusive-or is set exactly where the operands differ.
pub proof fn lemma_xor_bit(x: u64, y: u64, j: u64)
    requires
        j < 64,
    ensures
        bit_of(x ^ y, j) == (bit_of(x, j) != bit_of(y, j)),
{
    assert(((x ^ y) >> j) & 1 == 1 <==> (((x >> j) & 1 == 1) != ((y >> j) & 1 == 1)))
        by (bit_vector)
        requires
            j < 64,
    ;
}

/// Setting bit `b` changes that bit only.
pub proof fn lemma_bit_set(w: u64, b: u64, j: u64)
    requires
        b < 64,
        j < 64,
    ensures
        bit_of(w | (1u64 << b), j) == (j == b || bit_of(w, j)),
{
    assert(((w | (1u64 << b)) >> j) & 1 == 1 <==> (j == b || (w >> j) & 1 == 1)) by (bit_vector)
        requires
            b < 64,
            j < 64,
    ;
}

/// Clearing bit `b` changes that bit only.
pub proof fn lemma_bit_clear(w: u64, b: u64, j: u64)
    requires
        b < 64,
        j < 64,
    ensures
        bit_of(w & !(1u64 << b), j) == (j != b && bit_of(w, j)),
{
    assert(((w & !(1u64 << b)) >> j) & 1 == 1 <==> (j != b && (w >> j) & 1 == 1)) by (bit_vector)
        requires
            b < 64,
            j < 64,
    ;
}

/// Masking to the lowest sixteen bits keeps those and clears the rest.
pub proof fn lemma_bit_masked(w: u64, j: u64)
    requires
        j < 64,
    ensures
        bit_of(w & 0xffff, j) == (j < 16 && bit_of(w, j)),
        (w & 0xffff) >> 16 == 0,
{
    assert(((w & 0xffff) >> j) & 1 == 1 <==> (j < 16 && (w >> j) & 1 == 1)) by (bit_vector)
        requires
            j < 64,
    ;
    assert((w & 0xffff) >> 16 == 0) by (bit_vector);
}

/// A word whose bits from `k` upwards are shifted out to zero has none of them set.
pub proof fn lemma_bit_above(w: u64, k: u64, j: u64)
    requires
        k <= j < 64,
        w >> k == 0,
    ensures
        !bit_of(w, j),
{
    assert((w >> j) & 1 == 0) by (bit_vector)
        requires
            k <= j < 64,
            w >> k == 0,
    ;
}

/// Bits that are all zero from `k` upwards add nothing to the count.
pub proof fn lemma_bit_count_above(w: u64, k: nat, n: nat)
    requires
        k <= n <= 64,
        k < 64,
        w >> (k as u64) == 0,
    ensures
        bit_count(w, n) == bit_count(w, k),
    decreases n,
{
    if n > k {
        lemma_bit_count_above(w, k, (n - 1) as nat);
        lemma_bit_above(w, k as u64, (n - 1) as u64);
    }
}

/// Or-ing a single bit in at position `b` changes that bit only.
pub proof fn lemma_bit_or_in(w: u64, s: u64, b: u64, j: u64)
    requires
        b < 64,
        j < 64,
    ensures
        bit_of(w | ((s & 1) << b), j) == (bit_of(w, j) || (j == b && s & 1 == 1)),
{
    assert(((w | ((s & 1) << b)) >> j) & 1 == 1 <==> ((w >> j) & 1 == 1 || (j == b && s & 1 == 1)))
        by (bit_vector)
        requires
            b < 64,
            j < 64,
    ;
}

/// Two different words differ in some bit; the lowest such bit is returned.
pub proof fn lemma_differing_bit(x: u64, y: u64) -> (j: u64)
    requires
        x != y,
    ensures
        j < 64,
        bit_of(x, j) != bit_of(y, j),
{
    let z = x ^ y;
    assert(z != 0) by (bit_vector)
        requires
            z == x ^ y,
            x != y,
    ;
    vstd::std_specs::bits::axiom_u64_trailing_zeros(z);
    let j = vstd::std_specs::bits::u64_trailing_zeros(z) as u64;
    assert(bit_of(z, j));
    lemma_xor_bit(x, y, j);
    j
}

/// Two words with the same bits are the same word.
pub proof fn lemma_bits_decide_word(x: u64, y: u64)
    requires
        forall|j: u64| j < 64 ==> bit_of(x, j) == bit_of(y, j),
    ensures
        x == y,
{
    if x != y {
        let j = lemma_differing_bit(x, y);
    }
}

} // verus!
