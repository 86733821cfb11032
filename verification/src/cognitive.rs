//! Cognitive primitives: the collapse gate, which decides whether competing
//! candidates are clear enough to commit to, thinking styles, and layers.

use crate::clock::rand_u64;
use crate::fixed::{floor_sqrt, isqrt, lemma_root_exists};
use crate::text::{
    hex_digits, lemma_hex_digits_injective, lower_hex_string, thousandths_string,
    thousandths_text,
};
use vstd::prelude::*;

verus! {

/// The largest dispersion the thresholds are scaled to, in millionths.
pub const SD_MAX: u64 = 500_000;

/// Below this dispersion candidates flow: 30% of `SD_MAX`.
pub const SD_FLOW_THRESHOLD: u64 = 150_000;

/// Above this dispersion candidates block: 70% of `SD_MAX`.
pub const SD_BLOCK_THRESHOLD: u64 = 350_000;

/// State of the collapse gate.
#[derive(Clone, Copy, Debug, PartialEq, Eq, Structural)]
pub enum GateState {
    Flow,
    Hold,
    Block,
}

/// The sum of the scores.
pub open spec fn total(s: Seq<i64>) -> int
    decreases s.len(),
{
    if s.len() == 0 {
        0
    } else {
        total(s.drop_last()) + s.last()
    }
}

/// The sum of the squared scores.
pub open spec fn total_squares(s: Seq<i64>) -> int
    decreases s.len(),
{
    if s.len() == 0 {
        0
    } else {
        total_squares(s.drop_last()) + s.last() * s.last()
    }
}

/// The population variance of the scores, multiplied by the square of their number.
pub open spec fn spread(s: Seq<i64>) -> int {
    s.len() * total_squares(s) - total(s) * total(s)
}

/// The population standard deviation of the scores, rounded down to a
/// whole number of millionths; zero for fewer than two scores.
pub open spec fn std_dev(s: Seq<i64>) -> nat {
    if s.len() <= 1 {
        0
    } else {
        floor_sqrt(spread(s) as nat) / s.len()
    }
}

/// The sum of the squared distances of the scores from `x`.
pub open spec fn squared_distances(s: Seq<i64>, x: int) -> int {
    total_squares(s) - 2 * x * total(s) + s.len() * x * x
}

/// One more score adds its own squared distance from `x`.
proof fn lemma_squared_distances_step(s: Seq<i64>, x: int)
    ensures
        s.len() == 0 ==> squared_distances(s, x) == 0,
        s.len() > 0 ==> squared_distances(s, x) == squared_distances(s.drop_last(), x) + (s.last()
            - x) * (s.last() - x),
{
    if s.len() > 0 {
        let p = s.drop_last();
        let y = s.last() as int;
        assert(squared_distances(s, x) == squared_distances(p, x) + (y - x) * (y - x))
            by (nonlinear_arith)
            requires
                squared_distances(s, x) == (total_squares(p) + y * y) - 2 * x * (total(p) + y) + (
                p.len() + 1) * x * x,
                squared_distances(p, x) == total_squares(p) - 2 * x * total(p) + p.len() * x * x,
        ;
    } else {
        assert(0 - 2 * x * 0 + 0 * x * x == 0) by (nonlinear_arith);
    }
}

proof fn lemma_squared_distances_nonnegative(s: Seq<i64>, x: int)
    ensures
        squared_distances(s, x) >= 0,
    decreases s.len(),
{
    lemma_squared_distances_step(s, x);
    if s.len() > 0 {
        let y = s.last() as int;
        lemma_squared_distances_nonnegative(s.drop_last(), x);
        assert((y - x) * (y - x) >= 0) by (nonlinear_arith);
    }
}

/// Extending the scores by `y` adds the squared distances from `y` to the spread.
proof fn lemma_spread_step(s: Seq<i64>)
    requires
        s.len() > 0,
    ensures
        spread(s) == spread(s.drop_last()) + squared_distances(s.drop_last(), s.last() as int),
{
    let p = s.drop_last();
    let y = s.last() as int;
    let q = total_squares(p) as int;
    let t = total(p) as int;
    let n = p.len() as int;
    assert((n + 1) * (q + y * y) - (t + y) * (t + y) == (n * q - t * t) + (q - 2 * y * t + n * y
        * y)) by (nonlinear_arith);
}

/// The variance is never negative.
pub proof fn lemma_spread_nonnegative(s: Seq<i64>)
    ensures
        spread(s) >= 0,
    decreases s.len(),
{
    if s.len() > 0 {
        lemma_spread_nonnegative(s.drop_last());
        lemma_squared_distances_nonnegative(s.drop_last(), s.last() as int);
        lemma_spread_step(s);
    }
}

/// The variance can be taken about any point `m`: the squared distances
/// from `m`, less the square of what the sum differs from `m` taken for
/// every score.
proof fn lemma_spread_about(s: Seq<i64>, m: int)
    ensures
        spread(s) == s.len() * squared_distances(s, m) - (total(s) - s.len() * m) * (total(s)
            - s.len() * m),
{
    let n = s.len() as int;
    let q = total_squares(s) as int;
    let t = total(s) as int;
    assert(n * q - t * t == n * (q - 2 * m * t + n * m * m) - (t - n * m) * (t - n * m))
        by (nonlinear_arith);
}

/// Rounds the root of the variance `v / (n * n)` down, given the variance
/// as `(q * n + r) / n` less `(rho / n)` squared, and the rounded-down root
/// `t` of `q`.
proof fn lemma_rounded_root(n: int, v: int, rho: int, q: int, r: int, t: int, d: int)
    requires
        n >= 1,
        v >= 0,
        v == n * (q * n + r) - rho * rho,
        0 <= rho < n,
        0 <= r < n,
        0 <= t,
        t * t <= q < (t + 1) * (t + 1),
        d == (if t * t == q && rho * rho > r * n {
            t - 1
        } else {
            t
        }),
    ensures
        d >= 0,
        d * d * (n * n) <= v,
        v < (d + 1) * (d + 1) * (n * n),
{
    assert(rho * rho < n * n && r * n < n * n) by (nonlinear_arith)
        requires
            0 <= rho < n,
            0 <= r < n,
    ;
    assert(v == q * (n * n) + r * n - rho * rho) by (nonlinear_arith)
        requires
            v == n * (q * n + r) - rho * rho,
    ;
    if t * t == q && rho * rho > r * n {
        if t == 0 {
            assert(q * (n * n) == 0) by (nonlinear_arith)
                requires
                    q == 0,
            ;
        }
        assert((t - 1) * (t - 1) * (n * n) <= q * (n * n) - n * n) by (nonlinear_arith)
            requires
                t >= 1,
                t * t == q,
        ;
        assert(t * t * (n * n) == q * (n * n)) by (nonlinear_arith)
            requires
                t * t == q,
        ;
    } else {
        assert((q + 1) * (n * n) <= (t + 1) * (t + 1) * (n * n)) by (nonlinear_arith)
            requires
                q + 1 <= (t + 1) * (t + 1),
        ;
        assert((q + 1) * (n * n) == q * (n * n) + n * n) by (nonlinear_arith);
        if t * t == q {
            assert(t * t * (n * n) == q * (n * n)) by (nonlinear_arith)
                requires
                    t * t == q,
            ;
        } else {
            assert(t * t * (n * n) <= (q - 1) * (n * n)) by (nonlinear_arith)
                requires
                    t * t <= q - 1,
            ;
            assert((q - 1) * (n * n) == q * (n * n) - n * n) by (nonlinear_arith);
        }
    }
}

/// The standard deviation brackets the exact root of the variance: it is
/// the largest whole number of millionths that does not exceed it.
pub proof fn lemma_std_dev_rounds_down(s: Seq<i64>)
    requires
        s.len() >= 2,
    ensures
        std_dev(s) * std_dev(s) * (s.len() * s.len()) <= spread(s),
        spread(s) < (std_dev(s) + 1) * (std_dev(s) + 1) * (s.len() * s.len()),
{
    lemma_spread_nonnegative(s);
    let v = spread(s) as nat;
    let n = s.len();
    let r = floor_sqrt(v);
    lemma_root_exists(v);
    let d = r / n;
    assert(d * d * (n * n) <= v && v < (d + 1) * (d + 1) * (n * n)) by (nonlinear_arith)
        requires
            n >= 2,
            d == r / n,
            r * r <= v < (r + 1) * (r + 1),
    ;
}

/// The least score there can be, from which every score lies less than `2^64` away.
pub open spec fn floor_score() -> int {
    -0x8000_0000_0000_0000
}

/// The squared distances of `n` scores from the least score there can be
/// are at most `n` times the largest such square.
proof fn lemma_distances_bounded(s: Seq<i64>)
    ensures
        0 <= squared_distances(s, floor_score()) <= s.len() * (0xffff_ffff_ffff_ffff
            * 0xffff_ffff_ffff_ffff),
        total(s) - s.len() * floor_score() <= s.len() * 0xffff_ffff_ffff_ffff,
        0 <= total(s) - s.len() * floor_score(),
    decreases s.len(),
{
    lemma_squared_distances_step(s, floor_score());
    if s.len() > 0 {
        lemma_distances_bounded(s.drop_last());
        let gap = s.last() - floor_score();
        assert(0 <= gap * gap <= 0xffff_ffff_ffff_ffff * 0xffff_ffff_ffff_ffff)
            by (nonlinear_arith)
            requires
                0 <= gap <= 0xffff_ffff_ffff_ffff,
        ;
        assert(s.len() * floor_score() == (s.len() - 1) * floor_score() + floor_score()
            && s.len() * 0xffff_ffff_ffff_ffff == (s.len() - 1) * 0xffff_ffff_ffff_ffff
            + 0xffff_ffff_ffff_ffff && s.len() * (0xffff_ffff_ffff_ffff * 0xffff_ffff_ffff_ffff)
            == (s.len() - 1) * (0xffff_ffff_ffff_ffff * 0xffff_ffff_ffff_ffff)
            + 0xffff_ffff_ffff_ffff * 0xffff_ffff_ffff_ffff) by (nonlinear_arith);
    } else {
        assert(0 * floor_score() == 0) by (nonlinear_arith);
    }
}

/// The standard deviation of scores fits an unsigned number of the scores' width.
pub proof fn lemma_std_dev_bounded(s: Seq<i64>)
    ensures
        std_dev(s) <= u64::MAX,
{
    if s.len() >= 2 {
        lemma_std_dev_rounds_down(s);
        lemma_distances_bounded(s);
        lemma_spread_about(s, floor_score());
        let d = std_dev(s);
        let n = s.len();
        let e = squared_distances(s, floor_score());
        let rho = total(s) - s.len() * floor_score();
        assert(d <= 0xffff_ffff_ffff_ffff) by (nonlinear_arith)
            requires
                n >= 2,
                d * d * (n * n) <= n * e - rho * rho,
                e <= n * (0xffff_ffff_ffff_ffff * 0xffff_ffff_ffff_ffff),
        ;
    }
}

/// Only one whole number brackets the root of the variance.
pub proof fn lemma_std_dev_unique(s: Seq<i64>, d: nat)
    requires
        s.len() >= 2,
        d * d * (s.len() * s.len()) <= spread(s),
        spread(s) < (d + 1) * (d + 1) * (s.len() * s.len()),
    ensures
        std_dev(s) == d,
{
    lemma_std_dev_rounds_down(s);
    let e = std_dev(s);
    let n = s.len();
    let v = spread(s);
    assert(e == d) by (nonlinear_arith)
        requires
            n >= 2,
            d * d * (n * n) <= v,
            v < (d + 1) * (d + 1) * (n * n),
            e * e * (n * n) <= v,
            v < (e + 1) * (e + 1) * (n * n),
    ;
}

/// Whether the variance `v / (n * n)` lies above the whole number `t`,
/// given the variance as `(q * n + r) / n` less `(rho / n)` squared.
proof fn lemma_variance_above(n: int, v: int, rho: int, q: int, r: int, t: int)
    requires
        n >= 1,
        v == n * (q * n + r) - rho * rho,
        0 <= rho < n,
        0 <= r < n,
    ensures
        v > t * (n * n) <==> (q > t || (q == t && r * n > rho * rho)),
{
    assert(0 <= rho * rho < n * n && 0 <= r * n < n * n) by (nonlinear_arith)
        requires
            0 <= rho < n,
            0 <= r < n,
    ;
    assert(v == q * (n * n) + r * n - rho * rho) by (nonlinear_arith)
        requires
            v == n * (q * n + r) - rho * rho,
    ;
    if q > t {
        assert(q * (n * n) >= t * (n * n) + n * n) by (nonlinear_arith)
            requires
                q >= t + 1,
        ;
    } else if q < t {
        assert(q * (n * n) + n * n <= t * (n * n)) by (nonlinear_arith)
            requires
                q + 1 <= t,
        ;
    }
}

/// Measures the scores: their standard deviation, rounded down, and
/// whether their exact variance lies above the square of the block threshold.
fn measure(values: &[i64]) -> (m: (u64, bool))
    ensures
        m.0 == std_dev(values@),
        m.1 == (spread(values@) > SD_BLOCK_THRESHOLD * SD_BLOCK_THRESHOLD * (values@.len()
            * values@.len())),
{
    let n = values.len();
    if n <= 1 {
        proof {
            if n == 1 {
                lemma_equal_scores_spread(values@, values@[0]);
            } else {
                lemma_equal_scores_spread(values@, 0);
            }
            assert(SD_BLOCK_THRESHOLD * SD_BLOCK_THRESHOLD * (values@.len() * values@.len()) >= 0)
                by (nonlinear_arith);
        }
        return (0, false);
    }
    let count = n as u128;
    let ghost top: int = 0xffff_ffff_ffff_ffff;
    let ghost top_square: int = 0xffff_ffff_ffff_fffe_0000_0000_0000_0001;
    assert(top * top == top_square);
    let mut sum: u128 = 0;
    let mut i: usize = 0;
    proof {
        assert(0 * floor_score() == 0) by (nonlinear_arith);
    }
    while i < n
        invariant
            i <= n,
            n == values.len(),
            top == 0xffff_ffff_ffff_ffff,
            sum == total(values@.take(i as int)) - i * floor_score(),
            sum <= i * top,
        decreases n - i,
    {
        let shifted = (values[i] as i128 + 0x8000_0000_0000_0000i128) as u128;
        proof {
            assert(values@.take(i + 1).drop_last() =~= values@.take(i as int));
            assert((i + 1) * floor_score() == i * floor_score() + floor_score() && (i + 1) * top
                == i * top + top && i * top <= 0xffff_ffff_ffff_ffff * top) by (nonlinear_arith)
                requires
                    i <= 0xffff_ffff_ffff_ffff,
                    top >= 0,
            ;
        }
        sum = sum + shifted;
        i += 1;
    }
    let mean = sum / count;
    let rest = sum % count;
    let ghost centre: int = mean + floor_score();
    proof {
        assert(values@.take(n as int) =~= values@);
        assert(mean <= top && sum == count * mean + rest) by (nonlinear_arith)
            requires
                mean == sum / count,
                rest == sum % count,
                count > 0,
                sum <= count * top,
        ;
        assert(n * centre == n * mean + n * floor_score()) by (nonlinear_arith)
            requires
                centre == mean + floor_score(),
        ;
        assert(total(values@) - n * centre == rest);
        lemma_squared_distances_step(values@.take(0), centre);
    }
    let mut quotient: u128 = 0;
    let mut remainder: u128 = 0;
    let mut i: usize = 0;
    while i < n
        invariant
            i <= n,
            n == values.len(),
            count == n,
            count >= 2,
            mean <= top,
            top == 0xffff_ffff_ffff_ffff,
            top_square == 0xffff_ffff_ffff_fffe_0000_0000_0000_0001,
            centre == mean + floor_score(),
            remainder < count,
            quotient * count + remainder == squared_distances(values@.take(i as int), centre),
            quotient * count + remainder <= i * top_square,
        decreases n - i,
    {
        let shifted = (values[i] as i128 + 0x8000_0000_0000_0000i128) as u128;
        let gap = if shifted >= mean {
            shifted - mean
        } else {
            mean - shifted
        };
        proof {
            assert(gap * gap <= top_square && gap * gap == (values@[i as int] - centre) * (
            values@[i as int] - centre)) by (nonlinear_arith)
                requires
                    gap == values@[i as int] - centre || gap == centre - values@[i as int],
                    0 <= gap <= top,
                    top * top == top_square,
            ;
        }
        let square = gap * gap;
        let whole = square / count;
        let part = square % count;
        proof {
            assert(values@.take(i + 1).drop_last() =~= values@.take(i as int));
            lemma_squared_distances_step(values@.take(i + 1), centre);
            assert(square == whole * count + part && part < count) by (nonlinear_arith)
                requires
                    whole == square / count,
                    part == square % count,
                    count > 0,
            ;
            assert((quotient + whole) * count + (remainder + part) == quotient * count + remainder
                + square) by (nonlinear_arith)
                requires
                    square == whole * count + part,
            ;
            assert((i + 1) * top_square == i * top_square + top_square && (i + 1) * top_square
                <= count * top_square) by (nonlinear_arith)
                requires
                    i + 1 <= count,
                    top_square >= 0,
            ;
            assert(quotient + whole + 1 <= top_square || remainder + part < count)
                by (nonlinear_arith)
                requires
                    (quotient + whole) * count + (remainder + part) <= count * top_square,
                    count > 0,
                    quotient >= 0,
                    whole >= 0,
            ;
            assert(quotient + whole <= top_square) by (nonlinear_arith)
                requires
                    (quotient + whole) * count + (remainder + part) <= count * top_square,
                    count > 0,
                    remainder + part >= 0,
            ;
            assert((quotient + whole + 1) * count + (remainder + part - count) == (quotient
                + whole) * count + (remainder + part)) by (nonlinear_arith);
        }
        quotient = quotient + whole;
        remainder = remainder + part;
        if remainder >= count {
            remainder = remainder - count;
            quotient = quotient + 1;
        }
        i += 1;
    }
    let root = isqrt(quotient);
    proof {
        assert(rest * rest <= top * top && remainder * count <= top * top) by (nonlinear_arith)
            requires
                rest < count,
                remainder < count,
                count <= top,
        ;
    }
    let exact = (root as u128) * (root as u128) == quotient;
    let behind = rest * rest > remainder * count;
    proof {
        lemma_spread_nonnegative(values@);
        lemma_spread_about(values@, centre);
        assert(spread(values@) == count * (quotient * count + remainder) - rest * rest);
        if root == 0 && exact {
            assert(count * (quotient * count + remainder) == remainder * count)
                by (nonlinear_arith)
                requires
                    root == 0,
                    root * root == quotient,
            ;
        }
    }
    let sd = if exact && behind {
        root - 1
    } else {
        root
    };
    let limit: u128 = (SD_BLOCK_THRESHOLD as u128) * (SD_BLOCK_THRESHOLD as u128);
    let above = quotient > limit || (quotient == limit && remainder * count > rest * rest);
    proof {
        lemma_rounded_root(
            count as int,
            spread(values@),
            rest as int,
            quotient as int,
            remainder as int,
            root as int,
            sd as int,
        );
        lemma_std_dev_unique(values@, sd as nat);
        lemma_variance_above(
            count as int,
            spread(values@),
            rest as int,
            quotient as int,
            remainder as int,
            limit as int,
        );
    }
    (sd, above)
}

/// Computes the population standard deviation of the scores, rounded down
/// to a whole number of millionths.
pub fn calculate_sd(values: &[i64]) -> (sd: u64)
    ensures
        sd == std_dev(values@),
{
    measure(values).0
}

/// The state that a dispersion calls for: flow below the flow threshold,
/// block above the block threshold, hold from one to the other.
pub open spec fn gate_state(sd: u64) -> GateState {
    if sd < SD_FLOW_THRESHOLD {
        GateState::Flow
    } else if sd > SD_BLOCK_THRESHOLD {
        GateState::Block
    } else {
        GateState::Hold
    }
}

/// The state that the exact dispersion of the scores calls for: flow
/// where it lies below the flow threshold, block where it lies above the
/// block threshold, hold from one to the other. The dispersion is held
/// against a threshold by its square, the variance, so nothing is rounded.
pub open spec fn scores_state(s: Seq<i64>) -> GateState {
    let nn = s.len() * s.len();
    if spread(s) < SD_FLOW_THRESHOLD * SD_FLOW_THRESHOLD * nn {
        GateState::Flow
    } else if spread(s) > SD_BLOCK_THRESHOLD * SD_BLOCK_THRESHOLD * nn {
        GateState::Block
    } else {
        GateState::Hold
    }
}

/// How the state of two or more candidates stands to their rounded-down
/// standard deviation: it is the state that this number calls for, but for
/// a dispersion above the block threshold by less than a millionth, which
/// rounds down to the threshold and blocks all the same.
pub proof fn lemma_state_of_dispersion(s: Seq<i64>)
    requires
        s.len() >= 2,
    ensures
        scores_state(s) == GateState::Flow <==> std_dev(s) < SD_FLOW_THRESHOLD,
        std_dev(s) > SD_BLOCK_THRESHOLD ==> scores_state(s) == GateState::Block,
        scores_state(s) == GateState::Block ==> std_dev(s) >= SD_BLOCK_THRESHOLD,
        scores_state(s) == gate_state(std_dev(s) as u64) || (std_dev(s) == SD_BLOCK_THRESHOLD
            && scores_state(s) == GateState::Block),
{
    lemma_std_dev_rounds_down(s);
    lemma_std_dev_bounded(s);
    let d = std_dev(s) as int;
    let n = s.len() as int;
    let v = spread(s);
    let nn = n * n;
    assert(nn >= 1) by (nonlinear_arith)
        requires
            n >= 2,
            nn == n * n,
    ;
    lemma_squares_ordered(d, 150_000, nn, v);
    lemma_squares_ordered(d, 350_000, nn, v);
    lemma_squares_ordered(d, 350_001, nn, v);
    assert(350_001 * 350_001 * nn > 350_000 * 350_000 * nn && 150_000 * 150_000 * nn < 350_000
        * 350_000 * nn) by (nonlinear_arith)
        requires
            nn >= 1,
    ;
}

/// Where `v` lies from `d * d * nn` up to below `(d + 1) * (d + 1) * nn`,
/// `d` lies below `t` exactly when `v` lies below `t * t * nn`.
proof fn lemma_squares_ordered(d: int, t: int, nn: int, v: int)
    requires
        d >= 0,
        t >= 0,
        nn >= 1,
        d * d * nn <= v < (d + 1) * (d + 1) * nn,
    ensures
        d < t <==> v < t * t * nn,
{
    if d < t {
        assert((d + 1) * (d + 1) * nn <= t * t * nn) by (nonlinear_arith)
            requires
                0 <= d + 1 <= t,
                nn >= 1,
        ;
    } else {
        assert(t * t * nn <= d * d * nn) by (nonlinear_arith)
            requires
                0 <= t <= d,
                nn >= 1,
        ;
    }
}

/// Classifies a dispersion, given in millionths.
pub fn get_gate_state(sd: u64) -> (state: GateState)
    ensures
        state == gate_state(sd),
{
    if sd < SD_FLOW_THRESHOLD {
        GateState::Flow
    } else if sd > SD_BLOCK_THRESHOLD {
        GateState::Block
    } else {
        GateState::Hold
    }
}

/// `i` is the position of the first of the largest scores.
pub open spec fn is_first_max(s: Seq<i64>, i: int) -> bool {
    &&& 0 <= i < s.len()
    &&& forall|j: int| 0 <= j < s.len() ==> s[j] <= s[i]
    &&& forall|j: int| 0 <= j < i ==> s[j] < s[i]
}

/// The position of the first of the largest scores.
pub open spec fn first_max(s: Seq<i64>) -> int {
    choose|i: int| is_first_max(s, i)
}

/// Only one position holds the first of the largest scores.
pub proof fn lemma_first_max_unique(s: Seq<i64>, i: int)
    requires
        is_first_max(s, i),
    ensures
        first_max(s) == i,
{
    let j = first_max(s);
    assert(is_first_max(s, j));
    if j < i {
        assert(s[j] < s[i]);
    } else if i < j {
        assert(s[i] < s[j]);
    }
}

/// Finds the first of the largest scores.
fn find_winner(scores: &[i64]) -> (winner: usize)
    requires
        scores.len() > 0,
    ensures
        winner == first_max(scores@),
        is_first_max(scores@, winner as int),
{
    let mut best: usize = 0;
    let mut i: usize = 1;
    while i < scores.len()
        invariant
            0 <= best < i <= scores.len(),
            is_first_max(scores@.take(i as int), best as int),
        decreases scores.len() - i,
    {
        if scores[i] > scores[best] {
            best = i;
        }
        i += 1;
    }
    proof {
        assert(scores@.take(i as int) =~= scores@);
        lemma_first_max_unique(scores@, best as int);
    }
    best
}

/// A measured dispersion, or none where there was nothing to measure.
#[derive(Clone, Copy, Debug, PartialEq, Eq, Structural)]
pub enum Dispersion {
    /// A standard deviation in millionths.
    Finite(u64),
    /// The dispersion of no candidates at all.
    Infinite,
}

/// What the caller is told to do.
#[derive(Debug)]
pub enum CollapseAction {
    Collapse { winner_index: usize },
    Hold { sppm_key: String },
    Clarify { question: String },
    Block { reason: String },
}

/// A `CollapseAction` with its texts as character sequences.
pub enum CollapseActionView {
    Collapse { winner_index: usize },
    Hold { sppm_key: Seq<char> },
    Clarify { question: Seq<char> },
    Block { reason: Seq<char> },
}

impl View for CollapseAction {
    type V = CollapseActionView;

    open spec fn view(&self) -> CollapseActionView {
        match *self {
            CollapseAction::Collapse { winner_index } => CollapseActionView::Collapse {
                winner_index,
            },
            CollapseAction::Hold { sppm_key } => CollapseActionView::Hold { sppm_key: sppm_key@ },
            CollapseAction::Clarify { question } => CollapseActionView::Clarify {
                question: question@,
            },
            CollapseAction::Block { reason } => CollapseActionView::Block { reason: reason@ },
        }
    }
}

/// The verdict on one set of candidates.
#[derive(Debug)]
pub struct CollapseDecision {
    pub state: GateState,
    pub sd: Dispersion,
    pub can_collapse: bool,
    pub action: CollapseAction,
    pub reason: String,
    pub winner_index: Option<usize>,
    pub winner_score: Option<i64>,
}

/// A `CollapseDecision` with its texts as character sequences.
pub struct CollapseDecisionView {
    pub state: GateState,
    pub sd: Dispersion,
    pub can_collapse: bool,
    pub action: CollapseActionView,
    pub reason: Seq<char>,
    pub winner_index: Option<usize>,
    pub winner_score: Option<i64>,
}

impl View for CollapseDecision {
    type V = CollapseDecisionView;

    open spec fn view(&self) -> CollapseDecisionView {
        CollapseDecisionView {
            state: self.state,
            sd: self.sd,
            can_collapse: self.can_collapse,
            action: self.action@,
            reason: self.reason@,
            winner_index: self.winner_index,
            winner_score: self.winner_score,
        }
    }
}

impl Clone for CollapseAction {
    fn clone(&self) -> (r: CollapseAction)
        ensures
            r@ == self@,
    {
        match self {
            CollapseAction::Collapse { winner_index } => CollapseAction::Collapse {
                winner_index: *winner_index,
            },
            CollapseAction::Hold { sppm_key } => CollapseAction::Hold {
                sppm_key: sppm_key.clone(),
            },
            CollapseAction::Clarify { question } => CollapseAction::Clarify {
                question: question.clone(),
            },
            CollapseAction::Block { reason } => CollapseAction::Block { reason: reason.clone() },
        }
    }
}

impl Clone for CollapseDecision {
    fn clone(&self) -> (r: CollapseDecision)
        ensures
            r@ == self@,
    {
        CollapseDecision {
            state: self.state,
            sd: self.sd,
            can_collapse: self.can_collapse,
            action: self.action.clone(),
            reason: self.reason.clone(),
            winner_index: self.winner_index,
            winner_score: self.winner_score,
        }
    }
}

/// The key under which an unresolved decision is held: `sppm_` and the
/// seed in lower-case hexadecimal.
pub open spec fn hold_key_text(seed: u64) -> Seq<char> {
    "sppm_"@ + hex_digits(seed as nat)
}

/// Holds of different seeds have different keys.
pub proof fn lemma_hold_keys_distinct(a: u64, b: u64)
    requires
        a != b,
    ensures
        hold_key_text(a) != hold_key_text(b),
{
    let prefix = "sppm_"@;
    let x = hex_digits(a as nat);
    let y = hex_digits(b as nat);
    if prefix + x == prefix + y {
        assert((prefix + x).subrange(prefix.len() as int, (prefix + x).len() as int) =~= x);
        assert((prefix + y).subrange(prefix.len() as int, (prefix + y).len() as int) =~= y);
        lemma_hex_digits_injective(a as nat, b as nat);
    }
}

/// A dispersion as text: rounded to thousandths, half up, with three decimal places.
pub open spec fn sd_text(sd: u64) -> Seq<char> {
    thousandths_text(((sd + 500) / 1000) as nat)
}

/// The reason given for a decision on two or more candidates.
pub open spec fn reason_text(state: GateState, clarification_available: bool, sd: u64) -> Seq<
    char,
> {
    match state {
        GateState::Flow => "Low dispersion (SD="@ + sd_text(sd) + ")"@,
        GateState::Hold => "Medium dispersion (SD="@ + sd_text(sd) + ")"@,
        GateState::Block => if clarification_available {
            "High dispersion (SD="@ + sd_text(sd) + ")"@
        } else {
            "High dispersion, holding (SD="@ + sd_text(sd) + ")"@
        },
    }
}

/// The action taken in a state, for a winner and a key seed.
pub open spec fn action_for(
    state: GateState,
    clarification_available: bool,
    winner: usize,
    key: u64,
) -> CollapseActionView {
    match state {
        GateState::Flow => CollapseActionView::Collapse { winner_index: winner },
        GateState::Hold => CollapseActionView::Hold { sppm_key: hold_key_text(key) },
        GateState::Block => if clarification_available {
            CollapseActionView::Clarify { question: "Multiple interpretations possible"@ }
        } else {
            CollapseActionView::Hold { sppm_key: hold_key_text(key) }
        },
    }
}

/// The decision on `scores`, where `key` seeds the key of a hold.
///
/// No candidates block. A single candidate flows. Otherwise the exact
/// dispersion of the scores decides the state, the dispersion is reported
/// rounded down, the winner is the first of the largest scores, and only a
/// flow permits commitment.
pub open spec fn gate_decision(
    scores: Seq<i64>,
    clarification_available: bool,
    key: u64,
) -> CollapseDecisionView {
    if scores.len() == 0 {
        CollapseDecisionView {
            state: GateState::Block,
            sd: Dispersion::Infinite,
            can_collapse: false,
            action: CollapseActionView::Block { reason: "No candidates"@ },
            reason: "Empty candidate set"@,
            winner_index: None,
            winner_score: None,
        }
    } else if scores.len() == 1 {
        CollapseDecisionView {
            state: GateState::Flow,
            sd: Dispersion::Finite(0),
            can_collapse: true,
            action: CollapseActionView::Collapse { winner_index: 0 },
            reason: "Single candidate"@,
            winner_index: Some(0usize),
            winner_score: Some(scores[0]),
        }
    } else {
        let sd = std_dev(scores) as u64;
        let state = scores_state(scores);
        let winner = first_max(scores) as usize;
        CollapseDecisionView {
            state,
            sd: Dispersion::Finite(sd),
            can_collapse: state == GateState::Flow,
            action: action_for(state, clarification_available, winner, key),
            reason: reason_text(state, clarification_available, sd),
            winner_index: Some(winner),
            winner_score: Some(scores[winner as int]),
        }
    }
}

/// Scores that are all the same have no spread.
proof fn lemma_equal_scores_spread(s: Seq<i64>, c: i64)
    requires
        forall|i: int| 0 <= i < s.len() ==> #[trigger] s[i] == c,
    ensures
        total(s) == s.len() * c,
        total_squares(s) == s.len() * (c * c),
        spread(s) == 0,
    decreases s.len(),
{
    let n = s.len() as int;
    let x = c as int;
    if s.len() > 0 {
        lemma_equal_scores_spread(s.drop_last(), c);
        assert((n - 1) * x + x == n * x && (n - 1) * (x * x) + x * x == n * (x * x))
            by (nonlinear_arith);
    }
    assert(n * (n * (x * x)) - (n * x) * (n * x) == 0) by (nonlinear_arith);
}

/// Candidates that all score the same flow to the first of them, with no
/// dispersion at all, however many they are.
pub proof fn lemma_equal_scores_flow(scores: Seq<i64>, clarification_available: bool, key: u64)
    requires
        scores.len() >= 1,
        forall|i: int| 0 <= i < scores.len() ==> #[trigger] scores[i] == scores[0],
    ensures
        gate_decision(scores, clarification_available, key).state == GateState::Flow,
        gate_decision(scores, clarification_available, key).sd == Dispersion::Finite(0),
        gate_decision(scores, clarification_available, key).can_collapse,
        gate_decision(scores, clarification_available, key).winner_index == Some(0usize),
        gate_decision(scores, clarification_available, key).action == (
        CollapseActionView::Collapse { winner_index: 0 }),
{
    if scores.len() >= 2 {
        lemma_equal_scores_spread(scores, scores[0]);
        assert(0 * 0 * (scores.len() * scores.len()) == 0 && 1 * 1 * (scores.len() * scores.len())
            > 0) by (nonlinear_arith)
            requires
                scores.len() >= 2,
        ;
        lemma_std_dev_unique(scores, 0);
        lemma_first_max_unique(scores, 0);
        assert(SD_FLOW_THRESHOLD * SD_FLOW_THRESHOLD * (scores.len() * scores.len()) > 0)
            by (nonlinear_arith)
            requires
                scores.len() >= 2,
        ;
    }
}

/// Whatever the candidates, the decision hangs together: the state of two
/// or more is the one their exact dispersion calls for, commitment is
/// permitted in a flow and only then, and a flow collapses to the winner.
pub proof fn lemma_decision_coherent(scores: Seq<i64>, clarification_available: bool, key: u64)
    ensures
        ({
            let d = gate_decision(scores, clarification_available, key);
            &&& d.can_collapse <==> d.state == GateState::Flow
            &&& d.state == GateState::Flow <==> d.action is Collapse
            &&& scores.len() >= 2 ==> d.state == scores_state(scores) && d.sd
                == Dispersion::Finite(std_dev(scores) as u64)
            &&& d.sd is Infinite <==> scores.len() == 0
            &&& d.winner_index is Some <==> scores.len() > 0
            &&& d.action matches CollapseActionView::Collapse { winner_index } ==> d.winner_index
                == Some(winner_index)
            &&& d.action is Clarify ==> clarification_available && d.state == GateState::Block
            &&& d.action is Block ==> scores.len() == 0
        }),
{
}

/// The winner of two or more candidates, or of one, is a candidate that
/// none scores above, and the first such.
pub proof fn lemma_winner_is_first_max(scores: Seq<i64>, clarification_available: bool, key: u64)
    requires
        0 < scores.len() <= usize::MAX,
    ensures
        gate_decision(scores, clarification_available, key).winner_index matches Some(w)
            && is_first_max(scores, w as int) && gate_decision(
            scores,
            clarification_available,
            key,
        ).winner_score == Some(scores[w as int]),
{
    lemma_first_max_exists(scores, scores.len() as int);
    assert(scores.take(scores.len() as int) =~= scores);
    let i = first_max(scores);
    assert(is_first_max(scores, i));
    if scores.len() == 1 {
        assert(i == 0);
    }
}

/// Every non-empty run of scores has a first of its largest.
proof fn lemma_first_max_exists(s: Seq<i64>, n: int)
    requires
        0 < n <= s.len(),
    ensures
        exists|i: int| is_first_max(s.take(n), i),
    decreases n,
{
    if n == 1 {
        assert(is_first_max(s.take(1), 0));
    } else {
        lemma_first_max_exists(s, n - 1);
        let shorter = s.take(n - 1);
        let b = first_max(shorter);
        assert(is_first_max(shorter, b));
        assert forall|j: int| 0 <= j < n - 1 implies shorter[j] == s.take(n)[j] by {}
        if s[n - 1] > s[b] {
            assert(is_first_max(s.take(n), n - 1));
        } else {
            assert(is_first_max(s.take(n), b));
        }
    }
}

/// Builds the key of a hold from its seed.
fn hold_key(seed: u64) -> (key: String)
    ensures
        key@ == hold_key_text(seed),
{
    let mut key = "sppm_".to_owned();
    let digits = lower_hex_string(seed);
    key.append(digits.as_str());
    key
}

/// Builds a reason that quotes the dispersion.
fn reason_with_sd(prefix: &str, sd: u64) -> (reason: String)
    ensures
        reason@ == prefix@ + sd_text(sd) + ")"@,
{
    let mut reason = prefix.to_owned();
    let rounded = thousandths_string(((sd as u128 + 500) / 1000) as u64);
    reason.append(rounded.as_str());
    reason.append(")");
    reason
}

/// Evaluates the collapse gate with a given seed for the key of a hold.
///
/// The decision is a function of the arguments alone.
pub fn evaluate_gate_with_key(
    candidate_scores: &[i64],
    clarification_available: bool,
    key: u64,
) -> (decision: CollapseDecision)
    ensures
        decision@ == gate_decision(candidate_scores@, clarification_available, key),
{
    if candidate_scores.len() == 0 {
        return CollapseDecision {
            state: GateState::Block,
            sd: Dispersion::Infinite,
            can_collapse: false,
            action: CollapseAction::Block { reason: "No candidates".to_owned() },
            reason: "Empty candidate set".to_owned(),
            winner_index: None,
            winner_score: None,
        };
    }
    if candidate_scores.len() == 1 {
        return CollapseDecision {
            state: GateState::Flow,
            sd: Dispersion::Finite(0),
            can_collapse: true,
            action: CollapseAction::Collapse { winner_index: 0 },
            reason: "Single candidate".to_owned(),
            winner_index: Some(0),
            winner_score: Some(candidate_scores[0]),
        };
    }
    let (sd, above_block) = measure(candidate_scores);
    let state = if sd < SD_FLOW_THRESHOLD {
        GateState::Flow
    } else if above_block {
        GateState::Block
    } else {
        GateState::Hold
    };
    proof {
        lemma_state_of_dispersion(candidate_scores@);
    }
    let winner = find_winner(candidate_scores);
    let winner_score = candidate_scores[winner];
    match state {
        GateState::Flow => CollapseDecision {
            state: GateState::Flow,
            sd: Dispersion::Finite(sd),
            can_collapse: true,
            action: CollapseAction::Collapse { winner_index: winner },
            reason: reason_with_sd("Low dispersion (SD=", sd),
            winner_index: Some(winner),
            winner_score: Some(winner_score),
        },
        GateState::Hold => CollapseDecision {
            state: GateState::Hold,
            sd: Dispersion::Finite(sd),
            can_collapse: false,
            action: CollapseAction::Hold { sppm_key: hold_key(key) },
            reason: reason_with_sd("Medium dispersion (SD=", sd),
            winner_index: Some(winner),
            winner_score: Some(winner_score),
        },
        GateState::Block => {
            if clarification_available {
                CollapseDecision {
                    state: GateState::Block,
                    sd: Dispersion::Finite(sd),
                    can_collapse: false,
                    action: CollapseAction::Clarify {
                        question: "Multiple interpretations possible".to_owned(),
                    },
                    reason: reason_with_sd("High dispersion (SD=", sd),
                    winner_index: Some(winner),
                    winner_score: Some(winner_score),
                }
            } else {
                CollapseDecision {
                    state: GateState::Block,
                    sd: Dispersion::Finite(sd),
                    can_collapse: false,
                    action: CollapseAction::Hold { sppm_key: hold_key(key) },
                    reason: reason_with_sd("High dispersion, holding (SD=", sd),
                    winner_index: Some(winner),
                    winner_score: Some(winner_score),
                }
            }
        },
    }
}

/// A source of keys for holds that its owner alone draws from: a counter
/// that hands out each number once.
#[derive(Debug)]
pub struct KeySource {
    next: u64,
}

impl View for KeySource {
    type V = u64;

    /// The next seed the source will hand out.
    closed spec fn view(&self) -> u64 {
        self.next
    }
}

impl KeySource {
    /// A source that starts at zero.
    pub fn new() -> (r: KeySource)
        ensures
            r@ == 0,
    {
        KeySource { next: 0 }
    }

    /// A source that starts at `first`.
    pub fn starting_at(first: u64) -> (r: KeySource)
        ensures
            r@ == first,
    {
        KeySource { next: first }
    }

    /// Whether the source has handed out all it can but its last seed.
    pub fn is_exhausted(&self) -> (b: bool)
        ensures
            b == (self@ == u64::MAX),
    {
        self.next == u64::MAX
    }

    /// Hands out the next seed and moves on to a strictly larger one. At
    /// the largest number there is the source stays where it is.
    pub fn next(&mut self) -> (seed: u64)
        ensures
            seed == old(self)@,
            old(self)@ < u64::MAX ==> final(self)@ == old(self)@ + 1,
            old(self)@ == u64::MAX ==> final(self)@ == old(self)@,
    {
        let seed = self.next;
        if self.next < u64::MAX {
            self.next = self.next + 1;
        }
        seed
    }
}

/// Seeds that a source hands out one after another give different keys,
/// as long as the source has not reached its end.
pub proof fn lemma_successive_keys_distinct(first: u64, later: u64)
    requires
        first < later,
    ensures
        hold_key_text(first) != hold_key_text(later),
{
    lemma_hold_keys_distinct(first, later);
}

/// Evaluates the collapse gate, drawing the key of a hold from a source the
/// caller owns. A seed is drawn only where the decision holds, so every
/// hold from one source gets a key of its own until the source is exhausted.
pub fn evaluate_gate_with_source(
    candidate_scores: &[i64],
    clarification_available: bool,
    keys: &mut KeySource,
) -> (decision: CollapseDecision)
    ensures
        decision@ == gate_decision(candidate_scores@, clarification_available, old(keys)@),
        decision@.action is Hold && old(keys)@ < u64::MAX ==> final(keys)@ == old(keys)@ + 1,
        !(decision@.action is Hold) || old(keys)@ == u64::MAX ==> final(keys)@ == old(keys)@,
{
    let decision = evaluate_gate_with_key(candidate_scores, clarification_available, keys.next);
    match decision.action {
        CollapseAction::Hold { .. } => {
            let _ = keys.next();
        },
        _ => {},
    }
    decision
}

/// Evaluates the collapse gate, seeding the key of a hold from the clock.
///
/// The decision is the one that `evaluate_gate_with_key` makes for some
/// seed; the clock does not promise a seed of its own for every hold. Use
/// `evaluate_gate_with_source` where every hold needs its own key.
pub fn evaluate_gate(candidate_scores: &[i64], clarification_available: bool) -> (decision:
    CollapseDecision)
    ensures
        exists|key: u64|
            decision@ == gate_decision(candidate_scores@, clarification_available, key),
{
    let key = rand_u64();
    evaluate_gate_with_key(candidate_scores, clarification_available, key)
}

impl GateState {
    /// The state's sign and name, as shown to people.
    pub open spec fn label(self) -> Seq<char> {
        match self {
            GateState::Flow => "🟢 FLOW"@,
            GateState::Hold => "🟡 HOLD"@,
            GateState::Block => "🔴 BLOCK"@,
        }
    }

    /// The state as text.
    pub fn to_string(&self) -> (s: String)
        ensures
            s@ == self.label(),
    {
        match self {
            GateState::Flow => "🟢 FLOW".to_owned(),
            GateState::Hold => "🟡 HOLD".to_owned(),
            GateState::Block => "🔴 BLOCK".to_owned(),
        }
    }
}

/// How much of each manner of thinking goes into a style, in millionths.
#[derive(Clone, Copy, Debug, PartialEq, Eq, Structural)]
pub struct ThinkingStyle {
    pub analytical: u32,
    pub creative: u32,
    pub focused: u32,
    pub exploratory: u32,
}

impl ThinkingStyle {
    /// Fully analytical, focused, with little creativity or exploration.
    pub fn analytical() -> (r: ThinkingStyle)
        ensures
            r == (ThinkingStyle {
                analytical: 1_000_000,
                creative: 200_000,
                focused: 800_000,
                exploratory: 200_000,
            }),
    {
        ThinkingStyle {
            analytical: 1_000_000,
            creative: 200_000,
            focused: 800_000,
            exploratory: 200_000,
        }
    }

    /// Fully creative and exploratory, with little analysis or focus.
    pub fn creative() -> (r: ThinkingStyle)
        ensures
            r == (ThinkingStyle {
                analytical: 300_000,
                creative: 1_000_000,
                focused: 300_000,
                exploratory: 800_000,
            }),
    {
        ThinkingStyle {
            analytical: 300_000,
            creative: 1_000_000,
            focused: 300_000,
            exploratory: 800_000,
        }
    }

    /// Fully focused and analytical, with hardly any exploration.
    pub fn focused() -> (r: ThinkingStyle)
        ensures
            r == (ThinkingStyle {
                analytical: 700_000,
                creative: 200_000,
                focused: 1_000_000,
                exploratory: 100_000,
            }),
    {
        ThinkingStyle {
            analytical: 700_000,
            creative: 200_000,
            focused: 1_000_000,
            exploratory: 100_000,
        }
    }

    /// An even mix of all four manners.
    pub fn reflective() -> (r: ThinkingStyle)
        ensures
            r == (ThinkingStyle {
                analytical: 600_000,
                creative: 500_000,
                focused: 500_000,
                exploratory: 600_000,
            }),
    {
        ThinkingStyle {
            analytical: 600_000,
            creative: 500_000,
            focused: 500_000,
            exploratory: 600_000,
        }
    }
}

impl Default for ThinkingStyle {
    /// The style with nothing of any manner.
    fn default() -> (r: ThinkingStyle)
        ensures
            r == (ThinkingStyle { analytical: 0, creative: 0, focused: 0, exploratory: 0 }),
    {
        ThinkingStyle { analytical: 0, creative: 0, focused: 0, exploratory: 0 }
    }
}

/// One of the seven layers of processing, from the senses up to reflection.
#[derive(Clone, Copy, Debug, PartialEq, Eq, Hash, Structural)]
pub enum LayerId {
    L1,
    L2,
    L3,
    L4,
    L5,
    L6,
    L7,
}

impl LayerId {
    /// All layers, lowest first.
    pub const ALL: [LayerId; 7] = [
        LayerId::L1,
        LayerId::L2,
        LayerId::L3,
        LayerId::L4,
        LayerId::L5,
        LayerId::L6,
        LayerId::L7,
    ];

    /// The layer's place, counted from zero.
    pub open spec fn spec_index(self) -> int {
        match self {
            LayerId::L1 => 0,
            LayerId::L2 => 1,
            LayerId::L3 => 2,
            LayerId::L4 => 3,
            LayerId::L5 => 4,
            LayerId::L6 => 5,
            LayerId::L7 => 6,
        }
    }

    /// The layer's name.
    pub open spec fn spec_name(self) -> Seq<char> {
        match self {
            LayerId::L1 => "Sensory"@,
            LayerId::L2 => "Pattern"@,
            LayerId::L3 => "Semantic"@,
            LayerId::L4 => "Episodic"@,
            LayerId::L5 => "Working"@,
            LayerId::L6 => "Executive"@,
            LayerId::L7 => "Meta"@,
        }
    }

    /// The layer's name.
    pub fn name(&self) -> (n: &'static str)
        ensures
            n@ == self.spec_name(),
    {
        match self {
            LayerId::L1 => "Sensory",
            LayerId::L2 => "Pattern",
            LayerId::L3 => "Semantic",
            LayerId::L4 => "Episodic",
            LayerId::L5 => "Working",
            LayerId::L6 => "Executive",
            LayerId::L7 => "Meta",
        }
    }

    /// The layer's place, counted from zero: its position in `ALL`.
    pub fn index(&self) -> (i: usize)
        ensures
            i == self.spec_index(),
            i < 7,
    {
        match self {
            LayerId::L1 => 0,
            LayerId::L2 => 1,
            LayerId::L3 => 2,
            LayerId::L4 => 3,
            LayerId::L5 => 4,
            LayerId::L6 => 5,
            LayerId::L7 => 6,
        }
    }
}

} // verus!
