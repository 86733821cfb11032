use ladybug_learning_standalone::cognitive::{GateState, LayerId, ThinkingStyle};
use ladybug_learning_standalone::fingerprint::Fingerprint;
use ladybug_learning_standalone::learning::{Moment, MomentType};
use ladybug_learning_standalone::{MetaAGI, MetaAGIStats};

fn moment(id: &str, content: &str, moment_type: MomentType) -> Moment {
    Moment::new(id, content, moment_type, None, 0)
}

#[test]
fn new_orchestrator_starts_at_cycle_zero() {
    let agi = MetaAGI::new();
    let stats: MetaAGIStats = agi.stats();
    assert_eq!(stats.global_cycle, 0);
    assert_eq!(stats.resonance_stats.total_captures, 0);
    assert_eq!(stats.resonance_stats.total_queries, 0);
    assert_eq!(MetaAGI::default().stats(), stats);
}

#[test]
fn captures_are_stamped_with_rising_cycles() {
    let mut agi = MetaAGI::new();
    agi.capture_moment(&moment("1", "Found the entry point", MomentType::Encounter));
    agi.capture_moment(&moment("2", "Structure is confusing", MomentType::Struggle));
    agi.capture_moment(&moment("3", "Found the pattern!", MomentType::Breakthrough));
    assert_eq!(agi.global_cycle, 3);
    assert_eq!(agi.resonance.len(), 3);
    for i in 0..3 {
        assert_eq!(agi.resonance.entry(i).unwrap().cycle, i as u64 + 1);
    }
    assert_eq!(agi.resonance.entry(2).unwrap().moment.id, "3");
    assert!(agi.resonance.entry(2).unwrap().moment.is_breakthrough());
}

#[test]
fn n_captures_and_one_query_move_the_counts() {
    let mut agi = MetaAGI::new();
    let contents = ["Found the entry point", "Structure is confusing", "Found the pattern!"];
    for (i, content) in contents.iter().enumerate() {
        agi.capture_moment(&moment(&i.to_string(), content, MomentType::Encounter));
    }
    let query = Fingerprint::from_content("rust module visibility");
    let _similar = agi.find_similar(&query, 300_000, 5);
    let stats = agi.stats();
    assert_eq!(stats.global_cycle, 3);
    assert_eq!(stats.resonance_stats.total_captures, 3);
    assert_eq!(stats.resonance_stats.total_queries, 1);
}

#[test]
fn the_last_cycle_stays_the_last() {
    let mut agi = MetaAGI::new();
    agi.global_cycle = u64::MAX - 1;
    agi.capture_moment(&moment("a", "one", MomentType::Encounter));
    agi.capture_moment(&moment("b", "two", MomentType::Encounter));
    assert_eq!(agi.global_cycle, u64::MAX);
    assert_eq!(agi.resonance.entry(0).unwrap().cycle, u64::MAX);
    assert_eq!(agi.resonance.entry(1).unwrap().cycle, u64::MAX);
}

#[test]
fn queries_are_asked_as_of_the_current_cycle() {
    let mut agi = MetaAGI::new();
    agi.capture_moment(&moment("a", "versions are scoped to projects", MomentType::Breakthrough));
    agi.capture_moment(&moment("b", "unrelated", MomentType::Encounter));
    agi.capture_moment(&moment("c", "also unrelated", MomentType::Encounter));
    let query = Fingerprint::from_content("versions are scoped to projects");
    let found = agi.find_similar(&query, 0, 10);
    assert_eq!(found.len(), 3);
    let own = found.iter().find(|h| h.index == 0).unwrap();
    assert_eq!(own.content_similarity, 1_000_000);
    // Captured in cycle 1, asked in cycle 3: half, and half of one third.
    assert_eq!(own.resonance, 666_666);
    for pair in found.windows(2) {
        assert!(pair[0].resonance >= pair[1].resonance);
    }
    // The only moment inside the band would be a near match; there is none.
    assert_eq!(agi.find_sweet_spot(&query), None);
    assert_eq!(agi.stats().resonance_stats.total_queries, 2);
}

#[test]
fn sweet_spot_of_the_orchestrator() {
    let mut agi = MetaAGI::new();
    let base = Fingerprint::from_content("sprint scoping and ownership");
    let mut near = base.clone();
    for pos in 0..2_000 {
        let bit = near.get_bit(pos);
        near.set_bit(pos, !bit);
    }
    let mut analogy = moment("a", "", MomentType::Breakthrough);
    analogy.fingerprint = near;
    agi.capture_moment(&moment("d", "sprint scoping and ownership", MomentType::Encounter));
    agi.capture_moment(&analogy);
    let best = agi.find_sweet_spot(&base).unwrap();
    assert_eq!(best.index, 1);
    assert_eq!(best.content_similarity, 800_000);
    assert_eq!(best.resonance, 900_000);
}

#[test]
fn gate_states_have_labels() {
    assert_eq!(GateState::Flow.to_string(), "🟢 FLOW");
    assert_eq!(GateState::Hold.to_string(), "🟡 HOLD");
    assert_eq!(GateState::Block.to_string(), "🔴 BLOCK");
}

#[test]
fn layers_have_names_and_places() {
    let names = ["Sensory", "Pattern", "Semantic", "Episodic", "Working", "Executive", "Meta"];
    assert_eq!(LayerId::ALL.len(), 7);
    for (i, layer) in LayerId::ALL.iter().enumerate() {
        assert_eq!(layer.index(), i);
        assert_eq!(layer.name(), names[i]);
    }
    assert_eq!(LayerId::L1.index(), 0);
    assert_eq!(LayerId::L7.index(), 6);
    assert_eq!(LayerId::L4.name(), "Episodic");
}

#[test]
fn thinking_styles_are_fixed_mixes() {
    assert_eq!(
        ThinkingStyle::analytical(),
        ThinkingStyle { analytical: 1_000_000, creative: 200_000, focused: 800_000, exploratory: 200_000 }
    );
    assert_eq!(
        ThinkingStyle::creative(),
        ThinkingStyle { analytical: 300_000, creative: 1_000_000, focused: 300_000, exploratory: 800_000 }
    );
    assert_eq!(
        ThinkingStyle::focused(),
        ThinkingStyle { analytical: 700_000, creative: 200_000, focused: 1_000_000, exploratory: 100_000 }
    );
    assert_eq!(
        ThinkingStyle::reflective(),
        ThinkingStyle { analytical: 600_000, creative: 500_000, focused: 500_000, exploratory: 600_000 }
    );
    assert_eq!(
        ThinkingStyle::default(),
        ThinkingStyle { analytical: 0, creative: 0, focused: 0, exploratory: 0 }
    );
}
