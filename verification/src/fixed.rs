//! Fixed-point quantities, counted in millionths of a unit.

use vstd::prelude::*;

verus! {

/// The value one: quantities are whole numbers of millionths.
pub const UNIT: u32 = 1_000_000;

/// The value one half.
pub const HALF_UNIT: u32 = 500_000;

/// `x` limited to the range from zero to one.
pub open spec fn clamp_unit(x: u32) -> u32 {
    if x > UNIT {
        UNIT
    } else {
        x
    }
}

/// Limits `x` to the range from zero to one.
pub fn clamp_to_unit(x: u32) -> (r: u32)
    ensures
        r == clamp_unit(x),
{
    if x > UNIT {
        UNIT
    } else {
        x
    }
}

/// `x` limited to the range from zero to one, where it may lie on either side.
pub open spec fn clamp_signed(x: i64) -> u32 {
    if x < 0 {
        0
    } else if x > UNIT {
        UNIT
    } else {
        x as u32
    }
}

/// Limits `x` to the range from zero to one.
pub fn clamp_signed_to_unit(x: i64) -> (r: u32)
    ensures
        r == clamp_signed(x),
        r <= UNIT,
{
    if x < 0 {
        0
    } else if x > UNIT as i64 {
        UNIT
    } else {
        x as u32
    }
}

/// The fraction `num / den` rounded to the nearest whole number, a half upwards.
pub open spec fn rounded(num: int, den: int) -> int {
    (2 * num + den) / (2 * den)
}

/// A fraction that is at most `k` rounds to at most `k`, and a fraction
/// that is not negative rounds to no negative number.
pub proof fn lemma_rounded_bound(num: int, den: int, k: int)
    requires
        0 <= num <= k * den,
        den > 0,
    ensures
        0 <= rounded(num, den) <= k,
{
    assert(0 <= (2 * num + den) / (2 * den) <= k) by (nonlinear_arith)
        requires
            0 <= num <= k * den,
            den > 0,
    ;
}

/// Rounding is to the nearest: the result lies within half of the fraction.
pub proof fn lemma_rounded_is_nearest(num: int, den: int)
    requires
        den > 0,
    ensures
        2 * rounded(num, den) * den - den <= 2 * num,
        2 * num < 2 * rounded(num, den) * den + den,
{
    let q = rounded(num, den);
    assert(q * (2 * den) <= 2 * num + den < (q + 1) * (2 * den)) by (nonlinear_arith)
        requires
            q == (2 * num + den) / (2 * den),
            den > 0,
    ;
    assert(q * (2 * den) == 2 * q * den && (q + 1) * (2 * den) == 2 * q * den + 2 * den)
        by (nonlinear_arith);
}

/// Divides and rounds to the nearest whole number, a half upwards.
pub(crate) fn round_div(num: u128, den: u128) -> (q: u128)
    requires
        den > 0,
        2 * num + den <= u128::MAX,
        2 * den <= u128::MAX,
    ensures
        q == rounded(num as int, den as int),
{
    (2 * num + den) / (2 * den)
}

/// `r` is the square root of `x`, rounded down.
pub open spec fn is_floor_sqrt(r: nat, x: nat) -> bool {
    r * r <= x < (r + 1) * (r + 1)
}

/// The square root of `x`, rounded down.
pub open spec fn floor_sqrt(x: nat) -> nat {
    choose|r: nat| is_floor_sqrt(r, x)
}

/// Every number has a rounded-down square root.
pub proof fn lemma_root_exists(x: nat)
    ensures
        is_floor_sqrt(floor_sqrt(x), x),
    decreases x,
{
    if x == 0 {
        assert(is_floor_sqrt(0, 0)) by (nonlinear_arith);
    } else {
        lemma_root_exists(x / 4);
        let h = floor_sqrt(x / 4);
        let r = 2 * h;
        assert(r * r <= x && x < (r + 2) * (r + 2)) by (nonlinear_arith)
            requires
                h * h <= x / 4,
                x / 4 < (h + 1) * (h + 1),
                r == 2 * h,
        ;
        if (r + 1) * (r + 1) <= x {
            assert(is_floor_sqrt(r + 1, x));
        } else {
            assert(is_floor_sqrt(r, x));
        }
    }
}

/// Squaring is monotonic, so only one number can be the rounded-down root.
pub proof fn lemma_floor_sqrt_unique(x: nat, r: nat)
    requires
        is_floor_sqrt(r, x),
    ensures
        floor_sqrt(x) == r,
{
    let s = floor_sqrt(x);
    assert(is_floor_sqrt(s, x));
    assert(s == r) by (nonlinear_arith)
        requires
            r * r <= x < (r + 1) * (r + 1),
            s * s <= x < (s + 1) * (s + 1),
    ;
}

/// The square root of `x`, rounded down.
pub fn isqrt(x: u128) -> (r: u64)
    ensures
        r == floor_sqrt(x as nat),
        is_floor_sqrt(r as nat, x as nat),
{
    let mut lo: u128 = 0;
    let mut hi: u128 = 0x1_0000_0000_0000_0000;
    assert(0x1_0000_0000_0000_0000int * 0x1_0000_0000_0000_0000int > x) by (nonlinear_arith)
        requires
            x < 0x1_0000_0000_0000_0000_0000_0000_0000_0000int,
    ;
    while hi - lo > 1
        invariant
            lo < hi <= 0x1_0000_0000_0000_0000,
            lo * lo <= x,
            x < hi * hi,
        decreases hi - lo,
    {
        let mid: u128 = lo + (hi - lo) / 2;
        assert(mid * mid <= 0xffff_ffff_ffff_ffff_ffff_ffff_ffff_ffff) by (nonlinear_arith)
            requires
                mid <= 0xffff_ffff_ffff_ffff,
        ;
        if mid * mid <= x {
            lo = mid;
        } else {
            hi = mid;
        }
    }
    proof {
        lemma_floor_sqrt_unique(x as nat, lo as nat);
    }
    lo as u64
}

} // verus!
