//! Truth values: frequency and confidence of a belief, and the rules that combine them.
//!
//! Both parts of a truth value are fixed-point numbers in millionths, from
//! zero to one. Every rule first limits what it is given to that range and
//! rounds what it computes to the nearest millionth, a half upwards.

use crate::fixed::{
    clamp_signed, clamp_signed_to_unit, clamp_to_unit, clamp_unit, lemma_rounded_bound, round_div,
    rounded, HALF_UNIT, UNIT,
};
use crate::text::{decimal_digits, decimal_string};
use vstd::prelude::*;

verus! {

/// The small constant that keeps the weights of a revision finite as a
/// confidence approaches one: one millionth.
pub const EPSILON: u32 = 1;

/// A degree of belief: how often a statement held, and how much evidence stands behind that.
#[derive(Clone, Copy, Debug, PartialEq, Eq, Structural)]
pub struct TruthValue {
    pub frequency: u32,
    pub confidence: u32,
}

/// The truth value of no evidence at all: frequency one half, confidence zero.
pub open spec fn unknown_value() -> TruthValue {
    TruthValue { frequency: HALF_UNIT, confidence: 0 }
}

/// An amount of evidence, where a negative amount counts as none.
pub open spec fn evidence(amount: i64) -> int {
    if amount < 0 {
        0
    } else {
        amount as int
    }
}

/// The truth value that evidence of the given positive and negative
/// weight supports: the positive share of the evidence, and the evidence
/// against itself and one more unit. No evidence supports the unknown.
pub open spec fn evidence_value(positive: i64, negative: i64) -> TruthValue {
    let total = evidence(positive) + evidence(negative);
    if total == 0 {
        unknown_value()
    } else {
        TruthValue {
            frequency: rounded(evidence(positive) * UNIT, total) as u32,
            confidence: rounded(total * UNIT, total + UNIT) as u32,
        }
    }
}

/// What a revision weighs a confidence `c` against: one less `c`, and `EPSILON`.
pub open spec fn doubt(c: u32) -> int {
    UNIT - clamp_unit(c) + EPSILON
}

impl TruthValue {
    /// Both parts lie between zero and one.
    pub open spec fn in_range(self) -> bool {
        self.frequency <= UNIT && self.confidence <= UNIT
    }

    /// The truth value with both parts limited to the range from zero to one.
    pub open spec fn clamped(self) -> TruthValue {
        TruthValue {
            frequency: clamp_unit(self.frequency),
            confidence: clamp_unit(self.confidence),
        }
    }

    /// The expected frequency: `c * (f - 1/2) + 1/2`, written as
    /// `c * f + (1 - c) / 2`.
    pub open spec fn spec_expectation(self) -> int {
        let t = self.clamped();
        rounded(t.confidence * t.frequency + (UNIT - t.confidence) * HALF_UNIT, UNIT as int)
    }

    /// Deduction: `f = f1 * f2`, `c = c1 * c2 * f1 * f2`.
    pub open spec fn spec_deduction(self, other: TruthValue) -> TruthValue {
        let a = self.clamped();
        let b = other.clamped();
        TruthValue {
            frequency: rounded(a.frequency * b.frequency, UNIT as int) as u32,
            confidence: rounded(
                a.confidence * b.confidence * a.frequency * b.frequency,
                UNIT * UNIT * UNIT,
            ) as u32,
        }
    }

    /// Induction: `f = f2`, `c = f1 * c1 * c2 / (f1 + 1)`.
    pub open spec fn spec_induction(self, other: TruthValue) -> TruthValue {
        let a = self.clamped();
        let b = other.clamped();
        TruthValue {
            frequency: b.frequency,
            confidence: rounded(
                a.frequency * a.confidence * b.confidence,
                (a.frequency + UNIT) * UNIT,
            ) as u32,
        }
    }

    /// Abduction: `f = f1`, `c = f2 * c1 * c2 / (f2 + 1)`.
    pub open spec fn spec_abduction(self, other: TruthValue) -> TruthValue {
        let a = self.clamped();
        let b = other.clamped();
        TruthValue {
            frequency: a.frequency,
            confidence: rounded(
                b.frequency * a.confidence * b.confidence,
                (b.frequency + UNIT) * UNIT,
            ) as u32,
        }
    }

    /// Revision: with weights `w = c / (1 - c + e)`,
    /// `f = (w1 * f1 + w2 * f2) / (w1 + w2 + e)` and `c = (w1 + w2) / (w1 + w2 + 1)`.
    ///
    /// Written over the common denominator `d1 * d2` of the two weights,
    /// where `d = 1 - c + e`: the weights are `c1 * d2` and `c2 * d1`.
    pub open spec fn spec_revision(self, other: TruthValue) -> TruthValue {
        let a = self.clamped();
        let b = other.clamped();
        let d1 = doubt(a.confidence);
        let d2 = doubt(b.confidence);
        let w1 = a.confidence * d2;
        let w2 = b.confidence * d1;
        TruthValue {
            frequency: rounded(
                UNIT * (w1 * a.frequency + w2 * b.frequency),
                UNIT * (w1 + w2) + EPSILON * (d1 * d2),
            ) as u32,
            confidence: rounded(UNIT * (w1 + w2), w1 + w2 + d1 * d2) as u32,
        }
    }

    /// Negation: `f = 1 - f`, `c` as it is.
    pub open spec fn spec_negation(self) -> TruthValue {
        let a = self.clamped();
        TruthValue { frequency: (UNIT - a.frequency) as u32, confidence: a.confidence }
    }

    /// A truth value of the given parts, each limited to the range from zero to one.
    pub fn new(frequency: i64, confidence: i64) -> (r: TruthValue)
        ensures
            r.frequency == clamp_signed(frequency),
            r.confidence == clamp_signed(confidence),
            r.in_range(),
    {
        TruthValue {
            frequency: clamp_signed_to_unit(frequency),
            confidence: clamp_signed_to_unit(confidence),
        }
    }

    /// The truth value of no evidence at all.
    pub fn unknown() -> (r: TruthValue)
        ensures
            r == unknown_value(),
    {
        TruthValue { frequency: HALF_UNIT, confidence: 0 }
    }

    /// Certainly true: frequency one, confidence nine tenths.
    pub fn certain_true() -> (r: TruthValue)
        ensures
            r == (TruthValue { frequency: UNIT, confidence: 900_000 }),
    {
        TruthValue { frequency: UNIT, confidence: 900_000 }
    }

    /// Certainly false: frequency zero, confidence nine tenths.
    pub fn certain_false() -> (r: TruthValue)
        ensures
            r == (TruthValue { frequency: 0, confidence: 900_000 }),
    {
        TruthValue { frequency: 0, confidence: 900_000 }
    }

    /// The truth value that positive and negative evidence supports, both
    /// weights given in millionths; unknown where there is none. A negative
    /// weight counts as none.
    pub fn from_evidence(positive: i64, negative: i64) -> (r: TruthValue)
        ensures
            r == evidence_value(positive, negative),
            r.in_range(),
    {
        let p: u128 = if positive < 0 {
            0
        } else {
            positive as u128
        };
        let n: u128 = if negative < 0 {
            0
        } else {
            negative as u128
        };
        let total: u128 = p + n;
        if total == 0 {
            return TruthValue::unknown();
        }
        let unit = UNIT as u128;
        proof {
            assert(p * unit <= unit * total && total * unit <= unit * (total + unit) && p * unit
                <= 0x8000_0000_0000_0000 * 1_000_000 && total * unit <= 0x1_0000_0000_0000_0000
                * 1_000_000) by (nonlinear_arith)
                requires
                    p <= total,
                    total <= 0x1_0000_0000_0000_0000,
                    p <= 0x8000_0000_0000_0000,
                    unit == 1_000_000,
            ;
            lemma_rounded_bound((p * unit) as int, total as int, unit as int);
            lemma_rounded_bound((total * unit) as int, (total + unit) as int, unit as int);
        }
        let frequency = round_div(p * unit, total);
        let confidence = round_div(total * unit, total + unit);
        TruthValue { frequency: frequency as u32, confidence: confidence as u32 }
    }

    /// The expected frequency, between zero and one.
    pub fn expectation(&self) -> (e: u32)
        ensures
            e == self.spec_expectation(),
            e <= UNIT,
    {
        let f = clamp_to_unit(self.frequency) as u128;
        let c = clamp_to_unit(self.confidence) as u128;
        let unit = UNIT as u128;
        let half = HALF_UNIT as u128;
        proof {
            assert(c * f + (unit - c) * half <= unit * unit && unit * unit == 1_000_000_000_000)
                by (nonlinear_arith)
                requires
                    unit == 1_000_000,
                    half == 500_000,
                    c <= unit,
                    f <= unit,
            ;
            lemma_rounded_bound((c * f + (unit - c) * half) as int, unit as int, unit as int);
        }
        round_div(c * f + (unit - c) * half, unit) as u32
    }

    /// Deduction: from `A -> B` and `B -> C` to `A -> C`.
    pub fn deduction(&self, other: &TruthValue) -> (r: TruthValue)
        ensures
            r == self.spec_deduction(*other),
            r.in_range(),
    {
        let f1 = clamp_to_unit(self.frequency) as u128;
        let c1 = clamp_to_unit(self.confidence) as u128;
        let f2 = clamp_to_unit(other.frequency) as u128;
        let c2 = clamp_to_unit(other.confidence) as u128;
        let unit = UNIT as u128;
        proof {
            lemma_product_bounds(f1 as int, f2 as int, c1 as int, c2 as int);
            lemma_rounded_bound((f1 * f2) as int, unit as int, unit as int);
            lemma_rounded_bound(
                (c1 * c2 * f1 * f2) as int,
                (unit * unit * unit) as int,
                unit as int,
            );
        }
        let frequency = round_div(f1 * f2, unit);
        let confidence = round_div(c1 * c2 * f1 * f2, unit * unit * unit);
        TruthValue { frequency: frequency as u32, confidence: confidence as u32 }
    }

    /// Induction: from `A -> B` and `A -> C` to `B -> C`.
    pub fn induction(&self, other: &TruthValue) -> (r: TruthValue)
        ensures
            r == self.spec_induction(*other),
            r.in_range(),
    {
        let f1 = clamp_to_unit(self.frequency) as u128;
        let c1 = clamp_to_unit(self.confidence) as u128;
        let f2 = clamp_to_unit(other.frequency);
        let c2 = clamp_to_unit(other.confidence) as u128;
        TruthValue { frequency: f2, confidence: discounted(f1, c1, c2) }
    }

    /// Abduction: from `A -> B` and `C -> B` to `A -> C`.
    pub fn abduction(&self, other: &TruthValue) -> (r: TruthValue)
        ensures
            r == self.spec_abduction(*other),
            r.in_range(),
    {
        let f1 = clamp_to_unit(self.frequency);
        let c1 = clamp_to_unit(self.confidence) as u128;
        let f2 = clamp_to_unit(other.frequency) as u128;
        let c2 = clamp_to_unit(other.confidence) as u128;
        TruthValue { frequency: f1, confidence: discounted(f2, c1, c2) }
    }

    /// Revision: combines independent evidence for one statement.
    pub fn revision(&self, other: &TruthValue) -> (r: TruthValue)
        ensures
            r == self.spec_revision(*other),
            r.in_range(),
    {
        let f1 = clamp_to_unit(self.frequency) as u128;
        let c1 = clamp_to_unit(self.confidence) as u128;
        let f2 = clamp_to_unit(other.frequency) as u128;
        let c2 = clamp_to_unit(other.confidence) as u128;
        let unit = UNIT as u128;
        let epsilon = EPSILON as u128;
        let d1 = unit - c1 + epsilon;
        let d2 = unit - c2 + epsilon;
        proof {
            lemma_revision_bounds(
                f1 as int,
                c1 as int,
                d1 as int,
                f2 as int,
                c2 as int,
                d2 as int,
            );
        }
        let w1 = c1 * d2;
        let w2 = c2 * d1;
        let both = d1 * d2;
        let frequency = round_div(
            unit * (w1 * f1 + w2 * f2),
            unit * (w1 + w2) + epsilon * both,
        );
        let confidence = round_div(unit * (w1 + w2), w1 + w2 + both);
        TruthValue { frequency: frequency as u32, confidence: confidence as u32 }
    }

    /// Negation: the frequency of the opposite, with the same confidence.
    pub fn negation(&self) -> (r: TruthValue)
        ensures
            r == self.spec_negation(),
            r.in_range(),
    {
        TruthValue {
            frequency: UNIT - clamp_to_unit(self.frequency),
            confidence: clamp_to_unit(self.confidence),
        }
    }
}

/// A part of a truth value as a whole percentage, rounded half up.
pub open spec fn percent(part: u32) -> nat {
    ((clamp_unit(part) + 5_000) / 10_000) as nat
}

/// A truth value as text: both parts as whole percentages between angle brackets.
pub open spec fn truth_text(t: TruthValue) -> Seq<char> {
    "⟨"@ + decimal_digits(percent(t.frequency)) + "%, "@ + decimal_digits(percent(t.confidence))
        + "%⟩"@
}

impl TruthValue {
    /// The truth value as text, as in `⟨90%, 91%⟩`.
    pub fn to_string(&self) -> (s: String)
        ensures
            s@ == truth_text(*self),
    {
        let frequency = decimal_string((clamp_to_unit(self.frequency) as u64 + 5_000) / 10_000);
        let confidence = decimal_string((clamp_to_unit(self.confidence) as u64 + 5_000) / 10_000);
        let mut s = "⟨".to_owned();
        s.append(frequency.as_str());
        s.append("%, ");
        s.append(confidence.as_str());
        s.append("%⟩");
        s
    }
}

impl Default for TruthValue {
    /// The truth value of no evidence at all.
    fn default() -> (r: TruthValue)
        ensures
            r == unknown_value(),
    {
        TruthValue::unknown()
    }
}

/// Negating twice gives the truth value back, limited to its range.
pub proof fn lemma_negation_involution(a: TruthValue)
    ensures
        a.spec_negation().in_range(),
        a.spec_negation().spec_negation() == a.clamped(),
{
}

/// Deduction does not depend on the order of its premises.
pub proof fn lemma_deduction_commutative(a: TruthValue, b: TruthValue)
    ensures
        a.spec_deduction(b) == b.spec_deduction(a),
{
    let x = a.clamped();
    let y = b.clamped();
    assert(x.frequency * y.frequency == y.frequency * x.frequency) by (nonlinear_arith);
    assert(x.confidence * y.confidence * x.frequency * y.frequency == y.confidence * x.confidence
        * y.frequency * x.frequency) by (nonlinear_arith);
}

/// Revision does not depend on the order of the evidence.
pub proof fn lemma_revision_commutative(a: TruthValue, b: TruthValue)
    ensures
        a.spec_revision(b) == b.spec_revision(a),
{
    let x = a.clamped();
    let y = b.clamped();
    let d1 = doubt(x.confidence);
    let d2 = doubt(y.confidence);
    assert(d1 * d2 == d2 * d1) by (nonlinear_arith);
}

/// Induction and abduction mirror each other.
pub proof fn lemma_abduction_mirrors_induction(a: TruthValue, b: TruthValue)
    ensures
        a.spec_abduction(b).confidence == b.spec_induction(a).confidence,
        a.spec_abduction(b).frequency == a.clamped().frequency,
        b.spec_induction(a).frequency == a.clamped().frequency,
{
    let x = a.clamped();
    let y = b.clamped();
    assert(y.frequency * x.confidence * y.confidence == y.frequency * y.confidence * x.confidence)
        by (nonlinear_arith);
}

/// `f * c1 * c2 / (f + 1)` in millionths, rounded to the nearest.
fn discounted(f: u128, c1: u128, c2: u128) -> (c: u32)
    requires
        f <= UNIT,
        c1 <= UNIT,
        c2 <= UNIT,
    ensures
        c == rounded(f * c1 * c2, (f + UNIT) * UNIT),
        c <= UNIT,
{
    let unit = UNIT as u128;
    proof {
        assert(f * c1 <= unit * unit && f * c1 * c2 <= unit * unit * unit && f * c1 * c2 <= unit
            * ((f + unit) * unit) && unit * unit * unit == 1_000_000_000_000_000_000 && 0 < (f
            + unit) * unit <= 2_000_000_000_000) by (nonlinear_arith)
            requires
                f <= unit,
                c1 <= unit,
                c2 <= unit,
                unit == 1_000_000,
        ;
        lemma_rounded_bound((f * c1 * c2) as int, ((f + unit) * unit) as int, unit as int);
    }
    round_div(f * c1 * c2, (f + unit) * unit) as u32
}

proof fn lemma_product_bounds(f1: int, f2: int, c1: int, c2: int)
    requires
        0 <= f1 <= UNIT,
        0 <= f2 <= UNIT,
        0 <= c1 <= UNIT,
        0 <= c2 <= UNIT,
    ensures
        0 <= f1 * f2 <= UNIT * UNIT,
        0 <= c1 * c2 <= UNIT * UNIT,
        0 <= c1 * c2 * f1 <= UNIT * UNIT * UNIT,
        0 <= c1 * c2 * f1 * f2 <= UNIT * (UNIT * UNIT * UNIT),
        UNIT * UNIT == 1_000_000_000_000,
        UNIT * UNIT * UNIT == 1_000_000_000_000_000_000,
        UNIT * (UNIT * UNIT * UNIT) == 1_000_000_000_000_000_000_000_000,
{
    let u = UNIT as int;
    assert(0 <= f1 * f2 <= u * u && 0 <= c1 * c2 <= u * u) by (nonlinear_arith)
        requires
            0 <= f1 <= u,
            0 <= f2 <= u,
            0 <= c1 <= u,
            0 <= c2 <= u,
    ;
    let cc = c1 * c2;
    assert(0 <= cc * f1 <= u * u * u) by (nonlinear_arith)
        requires
            0 <= cc <= u * u,
            0 <= f1 <= u,
    ;
    let ccf = cc * f1;
    assert(0 <= ccf * f2 <= u * (u * u * u)) by (nonlinear_arith)
        requires
            0 <= ccf <= u * u * u,
            0 <= f2 <= u,
    ;
}

proof fn lemma_revision_bounds(f1: int, c1: int, d1: int, f2: int, c2: int, d2: int)
    requires
        0 <= f1 <= UNIT,
        0 <= f2 <= UNIT,
        0 <= c1 <= UNIT,
        0 <= c2 <= UNIT,
        d1 == UNIT - c1 + EPSILON,
        d2 == UNIT - c2 + EPSILON,
    ensures
        0 <= c1 * d2 <= UNIT * (UNIT + 1),
        0 <= c2 * d1 <= UNIT * (UNIT + 1),
        0 < d1 * d2 <= (UNIT + 1) * (UNIT + 1),
        0 <= c1 * d2 * f1 <= UNIT * (UNIT + 1) * UNIT,
        0 <= c2 * d1 * f2 <= UNIT * (UNIT + 1) * UNIT,
        0 <= rounded(
            UNIT * (c1 * d2 * f1 + c2 * d1 * f2),
            UNIT * (c1 * d2 + c2 * d1) + EPSILON * (d1 * d2),
        ) <= UNIT,
        0 <= rounded(UNIT * (c1 * d2 + c2 * d1), c1 * d2 + c2 * d1 + d1 * d2) <= UNIT,
{
    let u = UNIT as int;
    let w1 = c1 * d2;
    let w2 = c2 * d1;
    let dd = d1 * d2;
    assert(0 <= w1 <= u * (u + 1) && 0 <= w2 <= u * (u + 1) && 0 < dd <= (u + 1) * (u + 1))
        by (nonlinear_arith)
        requires
            0 <= c1 <= u,
            0 <= c2 <= u,
            1 <= d1 <= u + 1,
            1 <= d2 <= u + 1,
            w1 == c1 * d2,
            w2 == c2 * d1,
            dd == d1 * d2,
    ;
    assert(0 <= w1 * f1 <= u * (u + 1) * u && w1 * f1 <= u * w1 && 0 <= w2 * f2 <= u * (u + 1) * u
        && w2 * f2 <= u * w2) by (nonlinear_arith)
        requires
            0 <= w1 <= u * (u + 1),
            0 <= w2 <= u * (u + 1),
            0 <= f1 <= u,
            0 <= f2 <= u,
    ;
    let n = w1 * f1 + w2 * f2;
    let w = w1 + w2;
    assert(0 <= u * n <= u * (u * w + 1 * dd) && 0 <= u * w <= u * (w + dd)) by (nonlinear_arith)
        requires
            0 <= n <= u * w1 + u * w2,
            w == w1 + w2,
            0 < dd,
            0 <= w,
            u > 0,
    ;
    lemma_rounded_bound(u * n, u * w + 1 * dd, u);
    lemma_rounded_bound(u * w, w + dd, u);
}

} // verus!
