use ladybug_learning_standalone::nars::{TruthValue, EPSILON};

fn micro(value: u32) -> f32 {
    value as f32 / 1_000_000.0
}

#[test]
fn test_from_evidence() {
    let tv = TruthValue::from_evidence(9_000_000, 1_000_000);
    assert!((micro(tv.frequency) - 0.9).abs() < 0.01);
}

#[test]
fn test_deduction() {
    let birds_fly = TruthValue::new(900_000, 900_000);
    let tweety_bird = TruthValue::certain_true();
    let result = birds_fly.deduction(&tweety_bird);
    assert!(micro(result.frequency) > 0.8);
}

#[test]
fn test_revision() {
    let ev1 = TruthValue::new(800_000, 800_000);
    let ev2 = TruthValue::new(900_000, 700_000);
    let combined = ev1.revision(&ev2);
    // Combined should be between the two and higher confidence
    assert!(micro(combined.frequency) > 0.75 && micro(combined.frequency) < 0.95);
}

#[test]
fn evidence_of_nine_to_one() {
    let tv = TruthValue::from_evidence(9_000_000, 1_000_000);
    assert_eq!(tv.frequency, 900_000);
    // 10 / 11, rounded to the nearest millionth.
    assert_eq!(tv.confidence, 909_091);
}

#[test]
fn no_evidence_is_unknown() {
    let tv = TruthValue::from_evidence(0, 0);
    assert_eq!(tv, TruthValue::unknown());
    assert_eq!(tv, TruthValue { frequency: 500_000, confidence: 0 });
    assert_eq!(TruthValue::default(), TruthValue::unknown());
}

#[test]
fn evidence_at_the_limits() {
    let tv = TruthValue::from_evidence(i64::MAX, i64::MAX);
    assert_eq!(tv.frequency, 500_000);
    assert_eq!(tv.confidence, 1_000_000);
    let tv = TruthValue::from_evidence(0, 1_000_000);
    assert_eq!(tv, TruthValue { frequency: 0, confidence: 500_000 });
    // A millionth of evidence: confidence 0.000000999999, which rounds to a millionth.
    let tv = TruthValue::from_evidence(1, 0);
    assert_eq!(tv, TruthValue { frequency: 1_000_000, confidence: 1 });
}

#[test]
fn negative_evidence_counts_as_none() {
    assert_eq!(TruthValue::from_evidence(-3_000_000, -1), TruthValue::unknown());
    assert_eq!(
        TruthValue::from_evidence(-3_000_000, 1_000_000),
        TruthValue { frequency: 0, confidence: 500_000 }
    );
    assert_eq!(
        TruthValue::from_evidence(i64::MIN, 9_000_000),
        TruthValue::from_evidence(0, 9_000_000)
    );
}

#[test]
fn deduction_of_certainties() {
    let r = TruthValue::certain_true().deduction(&TruthValue::certain_true());
    assert_eq!(r.frequency, 1_000_000);
    assert_eq!(r.confidence, 810_000);
    let r = TruthValue::certain_true().deduction(&TruthValue::certain_false());
    assert_eq!(r, TruthValue { frequency: 0, confidence: 0 });
}

#[test]
fn deduction_discounts_confidence_by_both_frequencies() {
    let a = TruthValue::new(900_000, 900_000);
    let b = TruthValue::new(500_000, 800_000);
    let r = a.deduction(&b);
    assert_eq!(r.frequency, 450_000);
    // 0.9 * 0.8 * 0.9 * 0.5
    assert_eq!(r.confidence, 324_000);
    assert_eq!(b.deduction(&a), r);
}

#[test]
fn revision_moves_between_and_gains_confidence() {
    let combined = TruthValue::new(800_000, 800_000).revision(&TruthValue::new(900_000, 700_000));
    assert!(combined.frequency > 800_000 && combined.frequency < 900_000);
    assert!(combined.confidence > 800_000);
    assert!(combined.confidence > 700_000);
    // Weights 800000/200001 and 700000/300001 over the common denominator,
    // each quotient rounded to the nearest.
    let w1: u128 = 800_000 * 300_001;
    let w2: u128 = 700_000 * 200_001;
    let dd: u128 = 200_001 * 300_001;
    let f_num = 1_000_000 * (w1 * 800_000 + w2 * 900_000);
    let f_den = 1_000_000 * (w1 + w2) + dd;
    let c_num = 1_000_000 * (w1 + w2);
    let c_den = w1 + w2 + dd;
    assert_eq!(combined.frequency as u128, (2 * f_num + f_den) / (2 * f_den));
    assert_eq!(combined.confidence as u128, (2 * c_num + c_den) / (2 * c_den));
    assert_eq!(combined.frequency, 836_842);
    assert_eq!(combined.confidence, 863_636);
    assert_eq!(EPSILON, 1);
}

#[test]
fn revision_of_full_confidence_does_not_divide_by_zero() {
    let sure = TruthValue::new(1_000_000, 1_000_000);
    let r = sure.revision(&sure);
    assert_eq!(r.frequency, 1_000_000);
    assert_eq!(r.confidence, 1_000_000);
    let none = TruthValue::new(300_000, 0);
    let r = none.revision(&none);
    assert_eq!(r, TruthValue { frequency: 0, confidence: 0 });
}

#[test]
fn revision_of_opposite_certainties_meets_in_the_middle() {
    let a = TruthValue::new(1_000_000, 1_000_000);
    let b = TruthValue::new(0, 1_000_000);
    let r = a.revision(&b);
    assert_eq!(r.frequency, 500_000);
    assert_eq!(r.confidence, 1_000_000);
    assert!((micro(r.frequency) - 0.5).abs() < 1e-6);
    assert!(0.999 < micro(r.confidence) && micro(r.confidence) <= 1.0);
    assert_eq!(b.revision(&a), r);
}

#[test]
fn induction_and_abduction() {
    let a = TruthValue::new(800_000, 900_000);
    let b = TruthValue::new(600_000, 500_000);
    let r = a.induction(&b);
    assert_eq!(r.frequency, 600_000);
    // 0.8 * 0.9 * 0.5 / 1.8
    assert_eq!(r.confidence, 200_000);
    let r = a.abduction(&b);
    assert_eq!(r.frequency, 800_000);
    // 0.6 * 0.9 * 0.5 / 1.6
    assert_eq!(r.confidence, 168_750);
    assert_eq!(b.induction(&a).confidence, 168_750);
}

#[test]
fn negation_turns_the_frequency() {
    let a = TruthValue::new(300_000, 700_000);
    assert_eq!(a.negation(), TruthValue { frequency: 700_000, confidence: 700_000 });
    assert_eq!(a.negation().negation(), a);
    assert_eq!(TruthValue::certain_true().negation(), TruthValue::certain_false());
}

#[test]
fn expectation_weighs_the_frequency_by_confidence() {
    assert_eq!(TruthValue::unknown().expectation(), 500_000);
    // 0.9 * (1 - 0.5) + 0.5
    assert_eq!(TruthValue::certain_true().expectation(), 950_000);
    assert_eq!(TruthValue::certain_false().expectation(), 50_000);
    assert_eq!(TruthValue::new(1_000_000, 1_000_000).expectation(), 1_000_000);
    assert_eq!(TruthValue::new(0, 1_000_000).expectation(), 0);
    // 0.5 * (0.25 - 0.5) + 0.5
    assert_eq!(TruthValue::new(250_000, 500_000).expectation(), 375_000);
    // 0.000001 * (0 - 0.5) + 0.5 = 0.4999995, which rounds up.
    assert_eq!(TruthValue::new(0, 1).expectation(), 500_000);
    // 0.000003 * (0 - 0.5) + 0.5 = 0.4999985.
    assert_eq!(TruthValue::new(0, 3).expectation(), 499_999);
}

#[test]
fn out_of_range_parts_are_clamped() {
    let t = TruthValue::new(2_000_000, i64::MAX);
    assert_eq!(t, TruthValue { frequency: 1_000_000, confidence: 1_000_000 });
    let t = TruthValue::new(-1, i64::MIN);
    assert_eq!(t, TruthValue { frequency: 0, confidence: 0 });
    let raw = TruthValue { frequency: 3_000_000, confidence: 5_000_000 };
    assert_eq!(raw.negation(), TruthValue { frequency: 0, confidence: 1_000_000 });
    assert_eq!(raw.expectation(), 1_000_000);
    let r = raw.deduction(&raw);
    assert_eq!(r, TruthValue { frequency: 1_000_000, confidence: 1_000_000 });
    let r = raw.induction(&raw);
    assert_eq!(r, TruthValue { frequency: 1_000_000, confidence: 500_000 });
}

#[test]
fn truth_values_render_as_percentages() {
    assert_eq!(TruthValue::certain_true().to_string(), "⟨100%, 90%⟩");
    assert_eq!(TruthValue::unknown().to_string(), "⟨50%, 0%⟩");
    assert_eq!(TruthValue::from_evidence(9_000_000, 1_000_000).to_string(), "⟨90%, 91%⟩");
    assert_eq!(TruthValue::new(4_999, 5_000).to_string(), "⟨0%, 1%⟩");
}
