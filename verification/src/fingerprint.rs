//! Fixed-width binary fingerprints and their algebra.

use crate::bits::{
    bit_count, bit_of, lemma_bit_above, lemma_bit_clear, lemma_bit_count_above,
    lemma_bit_count_bound, lemma_bit_masked, lemma_bit_or_in, lemma_bit_set,
    lemma_bits_decide_word, lemma_differing_bit, lemma_xor_bit, lemma_zero_bits,
};
use crate::clock::rand_u64;
use crate::fixed::UNIT;
use crate::text::{decimal_digits, decimal_string};
use std::collections::hash_map::DefaultHasher;
use std::hash::{Hash, Hasher};
use vstd::prelude::*;
use vstd::std_specs::cmp::PartialEqSpecImpl;
use vstd::std_specs::hash::DefaultHasherAdditionalSpecFns;

verus! {

/// Number of bits in a fingerprint.
pub const FINGERPRINT_BITS: usize = 10_000;

/// Number of 64-bit words that hold a fingerprint.
pub const FINGERPRINT_U64: usize = 157;

/// Number of bits in use in the last word.
pub const TAIL_BITS: u64 = 16;

/// Bit `i` of a sequence of words: bit `i % 64` of word `i / 64`.
pub open spec fn bit_at(words: Seq<u64>, i: int) -> bool {
    bit_of(words[i / 64], (i % 64) as u64)
}

/// The fingerprint bits that a sequence of words holds.
pub open spec fn bits_of_words(words: Seq<u64>) -> Seq<bool> {
    Seq::new(FINGERPRINT_BITS as nat, |i: int| bit_at(words, i))
}

/// The unused bits of the last word are zero.
pub open spec fn tail_clear(words: Seq<u64>) -> bool {
    words[FINGERPRINT_U64 - 1] >> TAIL_BITS == 0
}

/// The number of positions below `n` at which `a` and `b` differ.
pub open spec fn differences(a: Seq<bool>, b: Seq<bool>, n: nat) -> nat
    decreases n,
{
    if n == 0 {
        0
    } else {
        differences(a, b, (n - 1) as nat) + if a[n - 1] != b[n - 1] {
            1nat
        } else {
            0nat
        }
    }
}

/// The Hamming distance of two bit vectors of one length: the number of
/// positions at which they differ.
pub open spec fn hamming_distance(a: Seq<bool>, b: Seq<bool>) -> nat {
    differences(a, b, a.len())
}

/// The number of set bits of `a`.
pub open spec fn ones(a: Seq<bool>) -> nat {
    differences(a, Seq::new(a.len(), |i: int| false), a.len())
}

/// The similarity of two fingerprints' bits in millionths: one less the
/// share of positions at which they differ.
pub open spec fn similarity_of(a: Seq<bool>, b: Seq<bool>) -> int {
    (FINGERPRINT_BITS - hamming_distance(a, b)) * (UNIT as int / FINGERPRINT_BITS as int)
}

/// The bitwise exclusive-or of two bit vectors of one length.
pub open spec fn xor_bits(a: Seq<bool>, b: Seq<bool>) -> Seq<bool> {
    Seq::new(a.len(), |i: int| a[i] != b[i])
}

/// `s` shifted cyclically by `k` positions: the bit at position `i` moves
/// to position `(i + k) % s.len()`.
pub open spec fn rotate_bits(s: Seq<bool>, k: int) -> Seq<bool> {
    Seq::new(s.len(), |j: int| s[(j - k) % (s.len() as int)])
}

/// The position that the bit at `j` comes from in a shift by `k`.
pub open spec fn source_index(j: int, k: int) -> int {
    (j - k) % (FINGERPRINT_BITS as int)
}

/// The bit at `j` comes from `i` exactly when `j` is `i` shifted by `k`.
proof fn lemma_source_index(i: int, k: int, j: int)
    requires
        0 <= i < FINGERPRINT_BITS,
        0 <= k < FINGERPRINT_BITS,
        0 <= j < FINGERPRINT_BITS,
    ensures
        0 <= source_index(j, k) < FINGERPRINT_BITS,
        source_index(j, k) == i <==> j == (i + k) % (FINGERPRINT_BITS as int),
{
}

/// A shift by `k` is a shift by `k` modulo the width.
proof fn lemma_source_reduces(j: int, k: int)
    ensures
        source_index(j, k) == source_index(j, k % (FINGERPRINT_BITS as int)),
{
}

/// The number of fingerprint bits held by the first `k` words.
pub open spec fn bits_in_words(k: int) -> nat {
    if k >= FINGERPRINT_U64 {
        FINGERPRINT_BITS as nat
    } else {
        (64 * k) as nat
    }
}

/// The bits of word `k` that differ add up as the set bits of the
/// exclusive-or of the two words.
proof fn lemma_word_differences(wa: Seq<u64>, wb: Seq<u64>, k: int, j: nat)
    requires
        0 <= k < FINGERPRINT_U64,
        j <= 64,
        64 * k + j <= FINGERPRINT_BITS,
    ensures
        differences(bits_of_words(wa), bits_of_words(wb), (64 * k + j) as nat) == differences(
            bits_of_words(wa),
            bits_of_words(wb),
            (64 * k) as nat,
        ) + bit_count(wa[k] ^ wb[k], j),
    decreases j,
{
    if j > 0 {
        lemma_word_differences(wa, wb, k, (j - 1) as nat);
        let i = 64 * k + j - 1;
        assert(bits_of_words(wa)[i] == bit_at(wa, i));
        assert(bits_of_words(wb)[i] == bit_at(wb, i));
        lemma_xor_bit(wa[k], wb[k], (j - 1) as u64);
    }
}

/// The differences seen after one more word.
proof fn lemma_next_word_differences(wa: Seq<u64>, wb: Seq<u64>, k: int)
    requires
        0 <= k < FINGERPRINT_U64,
        tail_clear(wa),
        tail_clear(wb),
    ensures
        differences(bits_of_words(wa), bits_of_words(wb), bits_in_words(k + 1)) == differences(
            bits_of_words(wa),
            bits_of_words(wb),
            bits_in_words(k),
        ) + bit_count(wa[k] ^ wb[k], 64),
        bit_count(wa[k] ^ wb[k], 64) <= 64,
{
    let x = wa[k];
    let y = wb[k];
    lemma_bit_count_bound(x ^ y, 64);
    if k == FINGERPRINT_U64 - 1 {
        lemma_word_differences(wa, wb, k, 16);
        assert((x ^ y) >> 16 == 0) by (bit_vector)
            requires
                x >> 16 == 0,
                y >> 16 == 0,
        ;
        lemma_bit_count_above(x ^ y, 16, 64);
    } else {
        lemma_word_differences(wa, wb, k, 64);
    }
}

/// No more positions differ than there are.
pub proof fn lemma_differences_bound(a: Seq<bool>, b: Seq<bool>, n: nat)
    ensures
        differences(a, b, n) <= n,
    decreases n,
{
    if n > 0 {
        lemma_differences_bound(a, b, (n - 1) as nat);
    }
}

/// The differences depend only on the bits below `n`.
proof fn lemma_differences_congruent(a: Seq<bool>, b: Seq<bool>, c: Seq<bool>, d: Seq<bool>, n: nat)
    requires
        forall|i: int| 0 <= i < n ==> (a[i] != b[i]) == (c[i] != d[i]),
    ensures
        differences(a, b, n) == differences(c, d, n),
    decreases n,
{
    if n > 0 {
        lemma_differences_congruent(a, b, c, d, (n - 1) as nat);
    }
}

/// No positions differ exactly when the bits below `n` agree.
proof fn lemma_differences_zero(a: Seq<bool>, b: Seq<bool>, n: nat)
    ensures
        differences(a, b, n) == 0 <==> forall|i: int| 0 <= i < n ==> a[i] == b[i],
    decreases n,
{
    if n > 0 {
        lemma_differences_zero(a, b, (n - 1) as nat);
        if differences(a, b, n) == 0 {
            assert forall|i: int| 0 <= i < n implies a[i] == b[i] by {
                if i < n - 1 {
                }
            }
        }
    }
}

/// What hashing a string writes to a hasher.
pub uninterp spec fn str_hash_writes(content: Seq<char>) -> Seq<Seq<u8>>;

/// `<str as Hash>::hash` feeds the hasher a sequence of writes that
/// depends on the string alone; what the hasher was fed before stays.
#[verifier::external_body]
fn hash_str(content: &str, state: &mut DefaultHasher)
    ensures
        final(state)@ == old(state)@ + str_hash_writes(content@),
{
    content.hash(state);
}

/// The 64-bit structural hash of a content string: what a fresh default
/// hasher yields after hashing the string.
pub open spec fn content_seed(content: Seq<char>) -> u64 {
    DefaultHasher::spec_finish(str_hash_writes(content))
}

/// One step of the linear-feedback shift register: the state moves right by
/// one bit, and the exclusive-or of bits 0, 2, 3 and 63 enters at the top.
pub open spec fn lfsr_step(state: u64) -> u64 {
    (state >> 1) | (((state ^ (state >> 2) ^ (state >> 3) ^ (state >> 63)) & 1) << 63)
}

/// The state that `lfsr_step` comes from.
pub open spec fn lfsr_unstep(state: u64) -> u64 {
    (state << 1) | (((state >> 63) ^ (state >> 1) ^ (state >> 2) ^ (state >> 62)) & 1)
}

/// The register's state after `steps` steps from `seed`.
pub open spec fn lfsr_state(seed: u64, steps: nat) -> u64
    decreases steps,
{
    if steps == 0 {
        seed
    } else {
        lfsr_step(lfsr_state(seed, (steps - 1) as nat))
    }
}

/// The fingerprint bits that a seed expands to: bit `i` is the lowest bit
/// of the register after `i + 1` steps.
pub open spec fn expand(seed: u64) -> Seq<bool> {
    Seq::new(FINGERPRINT_BITS as nat, |i: int| bit_of(lfsr_state(seed, (i + 1) as nat), 0))
}

/// The fingerprint bits of a content string.
pub open spec fn encode(content: Seq<char>) -> Seq<bool> {
    expand(content_seed(content))
}

/// The content that a random fingerprint is made from: `random_` and the
/// seed in decimal.
pub open spec fn random_label(seed: u64) -> Seq<char> {
    "random_"@ + decimal_digits(seed as nat)
}

/// The expansion step loses nothing: the state before it can be had back.
pub proof fn lemma_lfsr_reversible(state: u64)
    ensures
        lfsr_unstep(lfsr_step(state)) == state,
{
    assert(lfsr_unstep(lfsr_step(state)) == state) by (bit_vector);
}

/// A step moves every bit above the lowest down by one place.
proof fn lemma_lfsr_shifts(state: u64, j: u64)
    requires
        1 <= j < 64,
    ensures
        bit_of(lfsr_step(state), (j - 1) as u64) == bit_of(state, j),
{
    let i = (j - 1) as u64;
    assert(bit_of(lfsr_step(state), i) == bit_of(state, j)) by (bit_vector)
        requires
            j < 64,
            j == i + 1,
    ;
}

/// Bit `j` of the state after one step is the lowest bit after `j + 1` steps.
proof fn lemma_first_state_bits(seed: u64, k: nat, j: u64)
    requires
        j < 64,
    ensures
        bit_of(lfsr_state(seed, k), j) == bit_of(lfsr_state(seed, k + j as nat), 0),
    decreases j,
{
    if j > 0 {
        lemma_lfsr_shifts(lfsr_state(seed, k), j);
        lemma_first_state_bits(seed, k + 1, (j - 1) as u64);
    }
}

/// Seeds that expand to the same bits are the same seed.
pub proof fn lemma_expand_injective(a: u64, b: u64)
    requires
        expand(a) == expand(b),
    ensures
        a == b,
{
    assert forall|j: u64| j < 64 implies bit_of(lfsr_state(a, 1), j) == bit_of(
        lfsr_state(b, 1),
        j,
    ) by {
        lemma_first_state_bits(a, 1, j);
        lemma_first_state_bits(b, 1, j);
        assert(expand(a)[j as int] == bit_of(lfsr_state(a, (j + 1) as nat), 0));
        assert(expand(b)[j as int] == bit_of(lfsr_state(b, (j + 1) as nat), 0));
    }
    lemma_bits_decide_word(lfsr_state(a, 1), lfsr_state(b, 1));
    assert(lfsr_state(a, 1) == lfsr_step(a)) by {
        reveal_with_fuel(lfsr_state, 2);
    }
    assert(lfsr_state(b, 1) == lfsr_step(b)) by {
        reveal_with_fuel(lfsr_state, 2);
    }
    lemma_lfsr_reversible(a);
    lemma_lfsr_reversible(b);
}

/// A 10,000-bit binary vector, packed into 64-bit words.
///
/// Its view is the sequence of its 10,000 bits. The bits of the last word
/// beyond the vector's width are always zero, so two fingerprints with the
/// same view are the same value.
#[derive(Debug, Hash)]
pub struct Fingerprint {
    data: [u64; FINGERPRINT_U64],
}

impl View for Fingerprint {
    type V = Seq<bool>;

    closed spec fn view(&self) -> Seq<bool> {
        bits_of_words(self.data@)
    }
}

impl Fingerprint {
    #[verifier::type_invariant]
    spec fn tail_is_clear(self) -> bool {
        tail_clear(self.data@)
    }

    /// Every fingerprint has exactly `FINGERPRINT_BITS` bits.
    pub proof fn lemma_width(self)
        ensures
            self@.len() == FINGERPRINT_BITS,
    {
    }

    /// The fingerprint whose bits are those of `data`; bits of the last word
    /// beyond the vector's width are dropped.
    pub fn from_raw(data: [u64; FINGERPRINT_U64]) -> (r: Fingerprint)
        ensures
            r@ == bits_of_words(data@),
    {
        let mut data = data;
        let ghost given = data@;
        let last: u64 = data[FINGERPRINT_U64 - 1];
        data[FINGERPRINT_U64 - 1] = last & 0xffff;
        proof {
            assert forall|i: int| 0 <= i < FINGERPRINT_BITS implies #[trigger] bit_at(data@, i)
                == bit_at(given, i) by {
                lemma_bit_masked(last, (i % 64) as u64);
            }
            lemma_bit_masked(last, 0);
            assert(bits_of_words(data@) =~= bits_of_words(given));
        }
        Fingerprint { data }
    }

    /// Encodes a content string: its structural hash seeds a linear-feedback
    /// shift register, whose output bits fill the fingerprint in order.
    pub fn from_content(content: &str) -> (r: Fingerprint)
        ensures
            r@ == encode(content@),
    {
        let mut hasher = DefaultHasher::new();
        hash_str(content, &mut hasher);
        let seed = hasher.finish();
        assert(hasher@ =~= str_hash_writes(content@));
        Fingerprint::from_seed(seed)
    }

    /// Expands a 64-bit seed to a fingerprint.
    pub fn from_seed(seed: u64) -> (r: Fingerprint)
        ensures
            r@ == expand(seed),
    {
        let mut state = seed;
        let mut data = [0u64; FINGERPRINT_U64];
        let mut word: usize = 0;
        while word < FINGERPRINT_U64
            invariant
                word <= FINGERPRINT_U64,
                state == lfsr_state(seed, bits_in_words(word as int)),
                forall|i: int|
                    0 <= i < bits_in_words(word as int) ==> #[trigger] bit_at(data@, i) == bit_of(
                        lfsr_state(seed, (i + 1) as nat),
                        0,
                    ),
                word == FINGERPRINT_U64 ==> tail_clear(data@),
            decreases FINGERPRINT_U64 - word,
        {
            let width: u64 = if word == FINGERPRINT_U64 - 1 {
                TAIL_BITS
            } else {
                64
            };
            let mut val: u64 = 0;
            let mut bit: u64 = 0;
            assert forall|j: u64| j < 64 implies !#[trigger] bit_of(val, j) by {
                lemma_zero_bits(j);
            }
            while bit < width
                invariant
                    bit <= width <= 64,
                    word < FINGERPRINT_U64,
                    64 * word + width <= FINGERPRINT_BITS,
                    state == lfsr_state(seed, (64 * word + bit) as nat),
                    forall|j: u64|
                        j < bit ==> #[trigger] bit_of(val, j) == bit_of(
                            lfsr_state(seed, (64 * word + j + 1) as nat),
                            0,
                        ),
                    forall|j: u64| bit <= j < 64 ==> !#[trigger] bit_of(val, j),
                decreases width - bit,
            {
                let feedback = (state ^ (state >> 2) ^ (state >> 3) ^ (state >> 63)) & 1;
                state = (state >> 1) | (feedback << 63);
                let ghost before = val;
                val = val | ((state & 1) << bit);
                proof {
                    assert(state == lfsr_state(seed, (64 * word + bit + 1) as nat));
                    assert((state & 1 == 1) == bit_of(state, 0)) by (bit_vector);
                    assert forall|j: u64| j < 64 implies #[trigger] bit_of(val, j) == (bit_of(
                        before,
                        j,
                    ) || (j == bit && state & 1 == 1)) by {
                        lemma_bit_or_in(before, state, bit, j);
                    }
                }
                bit += 1;
            }
            let ghost filled = data@;
            data[word] = val;
            proof {
                assert forall|i: int| 0 <= i < bits_in_words(word + 1) implies #[trigger] bit_at(
                    data@,
                    i,
                ) == bit_of(lfsr_state(seed, (i + 1) as nat), 0) by {
                    if i / 64 == word {
                        assert(bit_of(val, (i % 64) as u64) == bit_of(
                            lfsr_state(seed, (64 * word + (i % 64) as u64 + 1) as nat),
                            0,
                        ));
                    } else {
                        assert(bit_at(data@, i) == bit_at(filled, i));
                    }
                }
                if word == FINGERPRINT_U64 - 1 {
                    assert(val >> 16 == 0) by {
                        assert forall|j: u64| j < 64 implies bit_of(val >> 16, j) == bit_of(
                            0,
                            j,
                        ) by {
                            let h = if j < 48 {
                                (j + 16) as u64
                            } else {
                                63
                            };
                            assert(!bit_of(val, h));
                            assert(((val >> 16) >> j) & 1 == 1 <==> j < 48 && (val >> h) & 1 == 1)
                                by (bit_vector)
                                requires
                                    j < 64,
                                    j < 48 ==> h == j + 16,
                            ;
                            lemma_zero_bits(j);
                        }
                        lemma_bits_decide_word(val >> 16, 0);
                    }
                }
            }
            word += 1;
        }
        proof {
            assert(bits_of_words(data@) =~= expand(seed));
        }
        Fingerprint { data }
    }

    /// A fingerprint encoded from a label that is seeded by the clock.
    pub fn random() -> (r: Fingerprint)
        ensures
            exists|seed: u64| r@ == encode(random_label(seed)),
    {
        let seed = rand_u64();
        let r = Fingerprint::from_label(seed);
        r
    }

    /// The fingerprint of the label `random_` followed by `seed` in decimal.
    pub fn from_label(seed: u64) -> (r: Fingerprint)
        ensures
            r@ == encode(random_label(seed)),
    {
        let mut label = "random_".to_owned();
        let digits = decimal_string(seed);
        label.append(digits.as_str());
        Fingerprint::from_content(label.as_str())
    }

    /// The fingerprint with no bit set.
    pub fn zero() -> (r: Fingerprint)
        ensures
            r@ == Seq::new(FINGERPRINT_BITS as nat, |i: int| false),
    {
        let data = [0u64; FINGERPRINT_U64];
        proof {
            assert(0u64 >> 16 == 0) by (bit_vector);
            assert forall|i: int| 0 <= i < FINGERPRINT_BITS implies !#[trigger] bit_at(data@, i) by {
                lemma_zero_bits((i % 64) as u64);
            }
            assert(bits_of_words(data@) =~= Seq::new(FINGERPRINT_BITS as nat, |i: int| false));
        }
        Fingerprint { data }
    }

    /// The packed words; the unused bits of the last one are zero.
    pub fn as_raw(&self) -> (r: &[u64; FINGERPRINT_U64])
        ensures
            bits_of_words(r@) == self@,
            tail_clear(r@),
    {
        proof {
            use_type_invariant(self);
        }
        &self.data
    }

    /// Bit `pos` of the fingerprint.
    pub fn get_bit(&self, pos: usize) -> (b: bool)
        requires
            pos < FINGERPRINT_BITS,
        ensures
            b == self@[pos as int],
    {
        let word: usize = pos / 64;
        let bit: usize = pos % 64;
        (self.data[word] >> bit) & 1 == 1
    }

    /// The number of set bits.
    pub fn popcount(&self) -> (n: u32)
        ensures
            n == ones(self@),
            n <= FINGERPRINT_BITS,
    {
        let none = Fingerprint::zero();
        let n = self.hamming(&none);
        proof {
            assert(none@ =~= Seq::new(self@.len(), |i: int| false));
        }
        n
    }

    /// The Hamming distance to `other`.
    pub fn hamming(&self, other: &Fingerprint) -> (d: u32)
        ensures
            d == hamming_distance(self@, other@),
            d <= FINGERPRINT_BITS,
    {
        proof {
            use_type_invariant(self);
            use_type_invariant(other);
        }
        let mut d: u32 = 0;
        let mut k: usize = 0;
        while k < FINGERPRINT_U64
            invariant
                k <= FINGERPRINT_U64,
                tail_clear(self.data@),
                tail_clear(other.data@),
                d == differences(self@, other@, bits_in_words(k as int)),
                d <= 64 * k,
            decreases FINGERPRINT_U64 - k,
        {
            proof {
                lemma_next_word_differences(self.data@, other.data@, k as int);
            }
            d = d + (self.data[k] ^ other.data[k]).count_ones();
            k += 1;
        }
        proof {
            lemma_differences_bound(self@, other@, FINGERPRINT_BITS as nat);
        }
        d
    }

    /// The similarity to `other` in millionths: one less the share of bits that differ.
    pub fn similarity(&self, other: &Fingerprint) -> (s: u32)
        ensures
            s == similarity_of(self@, other@),
            s <= UNIT,
    {
        (FINGERPRINT_BITS as u32 - self.hamming(other)) * 100
    }

    /// Binds two fingerprints: their bitwise exclusive-or.
    pub fn bind(&self, other: &Fingerprint) -> (r: Fingerprint)
        ensures
            r@ == xor_bits(self@, other@),
    {
        proof {
            use_type_invariant(self);
            use_type_invariant(other);
        }
        let mut result = [0u64; FINGERPRINT_U64];
        let mut i: usize = 0;
        while i < FINGERPRINT_U64
            invariant
                i <= FINGERPRINT_U64,
                forall|k: int| 0 <= k < i ==> result@[k] == self.data@[k] ^ other.data@[k],
            decreases FINGERPRINT_U64 - i,
        {
            result[i] = self.data[i] ^ other.data[i];
            i += 1;
        }
        proof {
            let x = self.data@[FINGERPRINT_U64 - 1];
            let y = other.data@[FINGERPRINT_U64 - 1];
            assert((x ^ y) >> 16 == 0) by (bit_vector)
                requires
                    x >> 16 == 0,
                    y >> 16 == 0,
            ;
            assert forall|i: int| 0 <= i < FINGERPRINT_BITS implies #[trigger] bit_at(result@, i)
                == (bit_at(self.data@, i) != bit_at(other.data@, i)) by {
                lemma_xor_bit(self.data@[i / 64], other.data@[i / 64], (i % 64) as u64);
            }
            assert(bits_of_words(result@) =~= xor_bits(self@, other@));
        }
        Fingerprint { data: result }
    }

    /// Takes `other` out of a binding again: the same exclusive-or as `bind`.
    pub fn unbind(&self, other: &Fingerprint) -> (r: Fingerprint)
        ensures
            r@ == xor_bits(self@, other@),
    {
        self.bind(other)
    }

    /// Permutes the fingerprint: a cyclic shift of its bits by `positions`,
    /// taken modulo the width; a negative count shifts the other way.
    pub fn permute(&self, positions: i32) -> (r: Fingerprint)
        ensures
            r@ == rotate_bits(self@, positions as int),
    {
        let mut result = Fingerprint::zero();
        let shift = positions.rem_euclid(FINGERPRINT_BITS as i32) as usize;
        let mut i: usize = 0;
        while i < FINGERPRINT_BITS
            invariant
                i <= FINGERPRINT_BITS,
                shift < FINGERPRINT_BITS,
                result@.len() == FINGERPRINT_BITS,
                forall|j: int|
                    0 <= j < FINGERPRINT_BITS ==> result@[j] == (#[trigger] source_index(
                        j,
                        shift as int,
                    ) < i && self@[source_index(j, shift as int)]),
            decreases FINGERPRINT_BITS - i,
        {
            let new_pos = (i + shift) % FINGERPRINT_BITS;
            if self.get_bit(i) {
                result.set_bit(new_pos, true);
            }
            proof {
                assert forall|j: int| 0 <= j < FINGERPRINT_BITS implies result@[j] == (
                #[trigger] source_index(j, shift as int) < i + 1 && self@[source_index(
                    j,
                    shift as int,
                )]) by {
                    lemma_source_index(i as int, shift as int, j);
                }
            }
            i += 1;
        }
        proof {
            assert forall|j: int| 0 <= j < FINGERPRINT_BITS implies result@[j] == rotate_bits(
                self@,
                positions as int,
            )[j] by {
                lemma_source_reduces(j, positions as int);
                lemma_source_index(0, shift as int, j);
            }
            assert(result@ =~= rotate_bits(self@, positions as int));
        }
        result
    }

    /// Sets bit `pos` to `value` and leaves every other bit as it was.
    pub fn set_bit(&mut self, pos: usize, value: bool)
        requires
            pos < FINGERPRINT_BITS,
        ensures
            final(self)@ == old(self)@.update(pos as int, value),
    {
        let word: usize = pos / 64;
        let bit: usize = pos % 64;
        proof {
            use_type_invariant(&*self);
        }
        let w: u64 = self.data[word];
        let nw: u64 = if value {
            w | (1u64 << bit)
        } else {
            w & !(1u64 << bit)
        };
        proof {
            assert forall|j: u64| j < 64 implies bit_of(nw, j) == (if j == bit {
                value
            } else {
                bit_of(w, j)
            }) by {
                lemma_bit_set(w, bit as u64, j);
                lemma_bit_clear(w, bit as u64, j);
            }
            if word == FINGERPRINT_U64 - 1 {
                assert(nw >> 16 == 0) by (bit_vector)
                    requires
                        w >> 16 == 0,
                        bit < 16,
                        nw == w | (1u64 << bit) || nw == w & !(1u64 << bit),
                ;
            }
        }
        self.data[word] = nw;
        proof {
            assert forall|i: int| 0 <= i < FINGERPRINT_BITS implies #[trigger] bit_at(
                self.data@,
                i,
            ) == old(self)@.update(pos as int, value)[i] by {
                if i / 64 == word {
                    assert(bit_of(nw, (i % 64) as u64) == (if (i % 64) as u64 == bit {
                        value
                    } else {
                        bit_of(w, (i % 64) as u64)
                    }));
                }
            }
            assert(self@ =~= old(self)@.update(pos as int, value));
        }
    }
}

impl Clone for Fingerprint {
    fn clone(&self) -> (r: Self)
        ensures
            r == *self,
    {
        proof {
            use_type_invariant(self);
        }
        Fingerprint { data: self.data }
    }
}

impl Default for Fingerprint {
    /// The fingerprint with no bit set.
    fn default() -> (r: Self)
        ensures
            r@ == Seq::new(FINGERPRINT_BITS as nat, |i: int| false),
    {
        Fingerprint::zero()
    }
}

impl PartialEq for Fingerprint {
    /// Exact equality, bit for bit.
    fn eq(&self, other: &Self) -> (r: bool) {
        proof {
            use_type_invariant(self);
            use_type_invariant(other);
        }
        let mut k: usize = 0;
        while k < FINGERPRINT_U64
            invariant
                k <= FINGERPRINT_U64,
                tail_clear(self.data@),
                tail_clear(other.data@),
                forall|i: int| 0 <= i < k ==> self.data@[i] == other.data@[i],
            decreases FINGERPRINT_U64 - k,
        {
            if self.data[k] != other.data[k] {
                proof {
                    let x = self.data@[k as int];
                    let y = other.data@[k as int];
                    let j = lemma_differing_bit(x, y);
                    if k == FINGERPRINT_U64 - 1 && j >= 16 {
                        lemma_bit_above(x, 16, j);
                        lemma_bit_above(y, 16, j);
                    }
                    let i = 64 * k + j;
                    assert(self@[i] == bit_at(self.data@, i));
                    assert(other@[i] == bit_at(other.data@, i));
                }
                return false;
            }
            k += 1;
        }
        proof {
            assert(self.data@ =~= other.data@);
        }
        true
    }
}

impl Eq for Fingerprint {

}

impl PartialEqSpecImpl for Fingerprint {
    open spec fn obeys_eq_spec() -> bool {
        true
    }

    open spec fn eq_spec(&self, other: &Fingerprint) -> bool {
        self@ == other@
    }
}

/// Encoding is a function of the content: two fingerprints of one content
/// have the same bits, which is what `==` compares.
pub proof fn lemma_encoding_deterministic(a: Fingerprint, b: Fingerprint, content: Seq<char>)
    requires
        a@ == encode(content),
        b@ == encode(content),
    ensures
        a@ == b@,
{
}

/// Contents with different hashes have different fingerprints.
pub proof fn lemma_encoding_separates(c: Seq<char>, d: Seq<char>)
    requires
        content_seed(c) != content_seed(d),
    ensures
        encode(c) != encode(d),
{
    if encode(c) == encode(d) {
        lemma_expand_injective(content_seed(c), content_seed(d));
    }
}

/// A fingerprint is at distance zero from itself, so its similarity to itself is one.
pub proof fn lemma_similarity_reflexive(a: Fingerprint)
    ensures
        hamming_distance(a@, a@) == 0,
        similarity_of(a@, a@) == UNIT,
{
    lemma_differences_zero(a@, a@, a@.len());
}

/// The Hamming distance does not depend on the order of its arguments,
/// and neither does the similarity.
pub proof fn lemma_hamming_symmetric(a: Fingerprint, b: Fingerprint)
    ensures
        hamming_distance(a@, b@) == hamming_distance(b@, a@),
        similarity_of(a@, b@) == similarity_of(b@, a@),
{
    lemma_differences_congruent(a@, b@, b@, a@, a@.len());
}

/// The Hamming distance is zero only for identical fingerprints.
pub proof fn lemma_hamming_zero_iff_equal(a: Fingerprint, b: Fingerprint)
    ensures
        hamming_distance(a@, b@) == 0 <==> a@ == b@,
{
    lemma_differences_zero(a@, b@, a@.len());
    if hamming_distance(a@, b@) == 0 {
        assert(a@ =~= b@);
    }
}

/// The similarity of two fingerprints lies between zero and one.
pub proof fn lemma_similarity_range(a: Fingerprint, b: Fingerprint)
    ensures
        0 <= similarity_of(a@, b@) <= UNIT,
{
    lemma_differences_bound(a@, b@, a@.len());
}

/// Binding is its own inverse: binding `a` to `b` and the result to `a` again gives `b`.
pub proof fn lemma_bind_self_inverse(a: Fingerprint, b: Fingerprint)
    ensures
        xor_bits(xor_bits(a@, b@), a@) == b@,
{
    assert(xor_bits(xor_bits(a@, b@), a@) =~= b@);
}

/// Binding does not depend on the order of its arguments.
pub proof fn lemma_bind_commutative(a: Fingerprint, b: Fingerprint)
    ensures
        xor_bits(a@, b@) == xor_bits(b@, a@),
{
    assert(xor_bits(a@, b@) =~= xor_bits(b@, a@));
}

/// Binding three fingerprints does not depend on how they are grouped.
pub proof fn lemma_bind_associative(a: Fingerprint, b: Fingerprint, c: Fingerprint)
    ensures
        xor_bits(xor_bits(a@, b@), c@) == xor_bits(a@, xor_bits(b@, c@)),
{
    assert(xor_bits(xor_bits(a@, b@), c@) =~= xor_bits(a@, xor_bits(b@, c@)));
}

/// The source of a source is the source for the sum of the shifts.
proof fn lemma_source_composes(i: int, j: int, k: int)
    ensures
        0 <= source_index(i, k) < FINGERPRINT_BITS,
        source_index(source_index(i, k), j) == source_index(i, j + k),
{
}

/// Permuting by `j` and then by `k` is permuting by `j + k`.
pub proof fn lemma_permute_composes(a: Fingerprint, j: int, k: int)
    ensures
        rotate_bits(rotate_bits(a@, j), k) == rotate_bits(a@, j + k),
{
    assert forall|i: int| 0 <= i < FINGERPRINT_BITS implies rotate_bits(rotate_bits(a@, j), k)[i]
        == rotate_bits(a@, j + k)[i] by {
        lemma_source_composes(i, j, k);
    }
    assert(rotate_bits(rotate_bits(a@, j), k) =~= rotate_bits(a@, j + k));
}

/// Permuting by a multiple of the width changes nothing, so permuting
/// back by the same count restores the fingerprint.
pub proof fn lemma_permute_inverse(a: Fingerprint, k: int)
    ensures
        rotate_bits(a@, 0) == a@,
        rotate_bits(rotate_bits(a@, k), -k) == a@,
{
    assert forall|i: int| 0 <= i < FINGERPRINT_BITS implies rotate_bits(a@, 0)[i] == a@[i] by {
        assert(source_index(i, 0) == i);
    }
    assert(rotate_bits(a@, 0) =~= a@);
    lemma_permute_composes(a, k, -k);
}

} // verus!
