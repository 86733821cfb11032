use ladybug_learning_standalone::fingerprint::Fingerprint;
use ladybug_learning_standalone::learning::{
    find_sweet_spot, Moment, MomentType, Qualia, ResonanceCapture, ResonanceStats, SimilarMoment,
};

/// A fingerprint with the first `bits` bits set: at distance `bits` from zero.
fn with_bits(bits: usize) -> Fingerprint {
    let mut fp = Fingerprint::zero();
    for pos in 0..bits {
        fp.set_bit(pos, true);
    }
    fp
}

fn moment_at(id: &str, distance: usize) -> Moment {
    Moment {
        id: id.to_string(),
        fingerprint: with_bits(distance),
        moment_type: MomentType::Encounter,
        content: String::new(),
        qualia: None,
        cycle: 0,
        frozen: None,
    }
}

#[test]
fn new_memory_is_empty() {
    let memory = ResonanceCapture::new();
    assert_eq!(memory.len(), 0);
    assert_eq!(memory.stats(), ResonanceStats { total_captures: 0, total_queries: 0 });
    assert!(memory.entry(0).is_none());
}

#[test]
fn capture_appends_in_order() {
    let mut memory = ResonanceCapture::new();
    memory.capture(&moment_at("a", 0), 3);
    memory.capture(&moment_at("b", 10), 5);
    assert_eq!(memory.len(), 2);
    assert_eq!(memory.entry(0).unwrap().moment.id, "a");
    assert_eq!(memory.entry(0).unwrap().cycle, 3);
    assert_eq!(memory.entry(1).unwrap().moment.id, "b");
    assert_eq!(memory.entry(1).unwrap().cycle, 5);
    assert_eq!(memory.entry(1).unwrap().moment.fingerprint, with_bits(10));
    assert!(memory.entry(2).is_none());
    assert_eq!(memory.stats().total_captures, 2);
}

#[test]
fn captures_and_one_query_are_counted() {
    let mut memory = ResonanceCapture::new();
    let before = memory.stats();
    for i in 0..7 {
        memory.capture(&moment_at("m", i), i as u64);
    }
    let found = memory.find_resonant(&Fingerprint::zero(), 2_000_001, 10, 7);
    assert!(found.is_empty());
    let after = memory.stats();
    assert_eq!(after.total_captures, before.total_captures + 7);
    assert_eq!(after.total_queries, before.total_queries + 1);
    let _ = find_sweet_spot(&mut memory, &Fingerprint::zero(), 7);
    assert_eq!(memory.stats().total_queries, 2);
    assert_eq!(memory.stats().total_captures, 7);
}

#[test]
fn resonance_blends_similarity_and_recency() {
    let mut memory = ResonanceCapture::new();
    memory.capture(&moment_at("same", 0), 10);
    memory.capture(&moment_at("half", 5_000), 10);
    let query = Fingerprint::zero();
    // Age 0: half the similarity and half of 1 / 1.
    let found = memory.find_resonant(&query, 0, 10, 10);
    assert_eq!(
        found,
        vec![
            SimilarMoment { index: 0, content_similarity: 1_000_000, resonance: 1_000_000 },
            SimilarMoment { index: 1, content_similarity: 500_000, resonance: 750_000 },
        ]
    );
    // Age 1: half the similarity and half of 1 / 2.
    let found = memory.find_resonant(&query, 0, 10, 11);
    assert_eq!(found[0].resonance, 750_000);
    assert_eq!(found[1].resonance, 500_000);
    // Age 2: one third of one half is 166666.6..., rounded down with the rest.
    let found = memory.find_resonant(&query, 0, 10, 12);
    assert_eq!(found[0].resonance, 666_666);
    assert_eq!(found[1].resonance, 416_666);
    // A query from before the capture has age 0.
    let found = memory.find_resonant(&query, 0, 10, 3);
    assert_eq!(found[0].resonance, 1_000_000);
}

#[test]
fn results_are_ranked_and_ties_go_to_the_earliest() {
    let mut memory = ResonanceCapture::new();
    memory.capture(&moment_at("far", 4_000), 1);
    memory.capture(&moment_at("near", 100), 1);
    memory.capture(&moment_at("tie-1", 2_000), 1);
    memory.capture(&moment_at("tie-2", 2_000), 1);
    memory.capture(&moment_at("nearest", 0), 1);
    let found = memory.find_resonant(&Fingerprint::zero(), 0, 10, 1);
    let order: Vec<usize> = found.iter().map(|h| h.index).collect();
    assert_eq!(order, vec![4, 1, 2, 3, 0]);
    for pair in found.windows(2) {
        assert!(pair[0].resonance >= pair[1].resonance);
        if pair[0].resonance == pair[1].resonance {
            assert!(pair[0].index < pair[1].index);
        }
    }
    assert_eq!(found[2].resonance, found[3].resonance);
}

#[test]
fn limit_and_threshold_are_respected() {
    let mut memory = ResonanceCapture::new();
    for distance in [4_000usize, 100, 2_000, 2_000, 0, 9_000] {
        memory.capture(&moment_at("m", distance), 1);
    }
    let query = Fingerprint::zero();
    let top = memory.find_resonant(&query, 0, 3, 1);
    let order: Vec<usize> = top.iter().map(|h| h.index).collect();
    assert_eq!(order, vec![4, 1, 2]);
    assert!(memory.find_resonant(&query, 0, 0, 1).is_empty());
    let one = memory.find_resonant(&query, 0, 1, 1);
    assert_eq!(one.len(), 1);
    assert_eq!(one[0].index, 4);

    // Resonance at age 0 is (similarity + 1) / 2: distance 2000 gives 0.9.
    let strong = memory.find_resonant(&query, 900_000, 10, 1);
    let order: Vec<usize> = strong.iter().map(|h| h.index).collect();
    assert_eq!(order, vec![4, 1, 2, 3]);
    let stronger = memory.find_resonant(&query, 900_001, 10, 1);
    let order: Vec<usize> = stronger.iter().map(|h| h.index).collect();
    assert_eq!(order, vec![4, 1]);
    for h in &strong {
        assert!(h.resonance >= 900_000);
    }
    assert_eq!(memory.stats().total_queries, 5);
}

#[test]
fn recency_can_outweigh_similarity() {
    let mut memory = ResonanceCapture::new();
    memory.capture(&moment_at("old and near", 1_000), 0);
    memory.capture(&moment_at("new and far", 3_000), 100);
    let found = memory.find_resonant(&Fingerprint::zero(), 0, 10, 100);
    // Old: 0.45 + 0.5 / 101. New: 0.35 + 0.5.
    assert_eq!(found[0].index, 1);
    assert_eq!(found[0].resonance, 850_000);
    assert_eq!(found[1].index, 0);
    assert_eq!(found[1].resonance, 454_950);
}

#[test]
fn weights_are_configurable_and_clamped() {
    let mut memory = ResonanceCapture::with_config(1_000_000, 0, 0, 0);
    memory.capture(&moment_at("m", 2_500), 0);
    let found = memory.find_resonant(&Fingerprint::zero(), 0, 1, 50);
    assert_eq!(found[0].resonance, 750_000);
    let mut memory = ResonanceCapture::with_config(-7, i64::MAX, 0, 0);
    memory.capture(&moment_at("m", 2_500), 0);
    let found = memory.find_resonant(&Fingerprint::zero(), 0, 1, 3);
    assert_eq!(found[0].resonance, 250_000);
    let found = memory.find_resonant(&Fingerprint::zero(), 0, 1, u64::MAX);
    assert_eq!(found[0].resonance, 0);
}

#[test]
fn sweet_spot_lies_strictly_inside_the_band() {
    // The default band runs from 0.6 to 0.9.
    let mut memory = ResonanceCapture::new();
    let query = Fingerprint::zero();
    assert_eq!(find_sweet_spot(&mut memory, &query, 0), None);
    memory.capture(&moment_at("duplicate", 0), 0);
    memory.capture(&moment_at("at the upper bound", 1_000), 0);
    memory.capture(&moment_at("at the lower bound", 4_000), 0);
    memory.capture(&moment_at("unrelated", 5_000), 0);
    assert_eq!(find_sweet_spot(&mut memory, &query, 0), None);
    memory.capture(&moment_at("analogy", 3_000), 0);
    memory.capture(&moment_at("closer analogy", 1_001), 0);
    memory.capture(&moment_at("as close, later", 1_001), 0);
    let best = find_sweet_spot(&mut memory, &query, 0).unwrap();
    assert_eq!(best.index, 5);
    assert_eq!(best.content_similarity, 899_900);
    assert_eq!(best.resonance, 949_950);
    assert_eq!(memory.stats().total_queries, 3);
}

#[test]
fn a_band_may_reach_below_zero_and_above_one() {
    let mut memory = ResonanceCapture::with_config(500_000, 500_000, -1, 1_000_001);
    memory.capture(&moment_at("apart", 10_000), 0);
    memory.capture(&moment_at("same", 0), 0);
    let best = find_sweet_spot(&mut memory, &Fingerprint::zero(), 0).unwrap();
    assert_eq!(best.index, 1);
    assert_eq!(best.content_similarity, 1_000_000);
    let mut memory = ResonanceCapture::with_config(500_000, 500_000, 0, 1_000_000);
    memory.capture(&moment_at("apart", 10_000), 0);
    memory.capture(&moment_at("same", 0), 0);
    assert_eq!(find_sweet_spot(&mut memory, &Fingerprint::zero(), 0), None);
}

#[test]
fn sweet_spot_prefers_resonance_over_similarity() {
    let mut memory = ResonanceCapture::with_config(500_000, 500_000, 500_000, 950_000);
    memory.capture(&moment_at("old and near", 1_000), 0);
    memory.capture(&moment_at("new and far", 3_000), 100);
    let best = find_sweet_spot(&mut memory, &Fingerprint::zero(), 100).unwrap();
    assert_eq!(best.index, 1);
}

#[test]
fn moments_record_what_they_are_given() {
    let qualia = Qualia::new(950_000, 2_000_000, -1);
    assert_eq!(qualia, Qualia { novelty: 950_000, effort: 1_000_000, satisfaction: 0 });
    let mut moment = Moment::new("m-1", "Found the pattern!", MomentType::Breakthrough, Some(qualia), 4);
    assert_eq!(moment.id, "m-1");
    assert_eq!(moment.content, "Found the pattern!");
    assert_eq!(moment.fingerprint, Fingerprint::from_content("Found the pattern!"));
    assert_eq!(moment.cycle, 4);
    assert!(moment.is_breakthrough());
    assert!(!moment.is_frozen());
    let before = moment.clone();
    moment.ice_cake("Always start at the module root");
    assert!(moment.is_frozen());
    assert_eq!(moment.frozen.as_deref(), Some("Always start at the module root"));
    assert_eq!(moment.id, before.id);
    assert_eq!(moment.fingerprint, before.fingerprint);
    assert_eq!(moment.moment_type, MomentType::Breakthrough);
    assert_eq!(moment.clone().frozen, moment.frozen);
    assert!(!Moment::new("m-2", "x", MomentType::Struggle, None, 0).is_breakthrough());
}

#[test]
fn captured_moment_resonates_with_its_own_content() {
    let mut memory = ResonanceCapture::new();
    memory.capture(&Moment::new("a", "rust module visibility", MomentType::Encounter, None, 1), 1);
    memory.capture(&Moment::new("b", "something else", MomentType::Encounter, None, 1), 1);
    let query = Fingerprint::from_content("rust module visibility");
    let found = memory.find_resonant(&query, 300_000, 5, 1);
    assert_eq!(found[0].index, 0);
    assert_eq!(found[0].content_similarity, 1_000_000);
    assert_eq!(found[0].resonance, 1_000_000);
    assert_eq!(found.len(), 2);
    assert_eq!(found[1].index, 1);
    assert!(found[1].content_similarity < 1_000_000);
}

#[test]
fn a_threshold_may_lie_on_either_side_of_every_resonance() {
    let mut memory = ResonanceCapture::new();
    memory.capture(&moment_at("a", 5_000), 0);
    memory.capture(&moment_at("b", 10_000), 0);
    let query = Fingerprint::zero();
    // The second moment shares no bit and is old: its resonance is 0.5 / 11.
    let all = memory.find_resonant(&query, -1, 10, 10);
    assert_eq!(all.len(), 2);
    assert_eq!(all[1].resonance, 45_454);
    assert_eq!(memory.find_resonant(&query, i64::MIN, 10, 10).len(), 2);
    assert!(memory.find_resonant(&query, i64::MAX, 10, 10).is_empty());
    assert!(memory.find_resonant(&query, 2_000_001, 10, 10).is_empty());
}

#[test]
fn default_memory_is_the_new_memory() {
    let mut a = ResonanceCapture::default();
    let mut b = ResonanceCapture::new();
    for memory in [&mut a, &mut b] {
        memory.capture(&moment_at("analogy", 3_000), 0);
        memory.capture(&moment_at("duplicate", 0), 0);
    }
    let query = Fingerprint::zero();
    assert_eq!(a.find_resonant(&query, 0, 10, 4), b.find_resonant(&query, 0, 10, 4));
    let best = find_sweet_spot(&mut a, &query, 4);
    assert_eq!(best, find_sweet_spot(&mut b, &query, 4));
    assert_eq!(best.unwrap().index, 0);
    assert_eq!(a.stats(), b.stats());
    assert_eq!(a.stats().total_queries, 2);
}
