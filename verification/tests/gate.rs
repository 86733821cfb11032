use ladybug_learning_standalone::cognitive::{
    calculate_sd, evaluate_gate, evaluate_gate_with_key, evaluate_gate_with_source,
    get_gate_state, CollapseAction, Dispersion, GateState, KeySource, SD_BLOCK_THRESHOLD,
    SD_FLOW_THRESHOLD, SD_MAX,
};

const ONE: i64 = 1_000_000;
const FLOW: i64 = SD_FLOW_THRESHOLD as i64;
const BLOCK: i64 = SD_BLOCK_THRESHOLD as i64;

#[test]
fn thresholds_are_fractions_of_the_maximum() {
    assert_eq!(SD_MAX, 500_000);
    assert_eq!(SD_FLOW_THRESHOLD, 30 * SD_MAX / 100);
    assert_eq!(SD_BLOCK_THRESHOLD, 70 * SD_MAX / 100);
}

#[test]
fn empty_candidates_block() {
    let d = evaluate_gate(&[], true);
    assert_eq!(d.state, GateState::Block);
    assert!(!d.can_collapse);
    assert_eq!(d.sd, Dispersion::Infinite);
    assert!(matches!(&d.action, CollapseAction::Block { reason } if reason == "No candidates"));
    assert_eq!(d.reason, "Empty candidate set");
    assert_eq!(d.winner_index, None);
    assert_eq!(d.winner_score, None);
}

#[test]
fn single_candidate_flows() {
    let d = evaluate_gate(&[5 * ONE], false);
    assert_eq!(d.state, GateState::Flow);
    assert_eq!(d.sd, Dispersion::Finite(0));
    assert!(d.can_collapse);
    assert!(matches!(d.action, CollapseAction::Collapse { winner_index: 0 }));
    assert_eq!(d.reason, "Single candidate");
    assert_eq!(d.winner_index, Some(0));
    assert_eq!(d.winner_score, Some(5 * ONE));
}

#[test]
fn equal_candidates_flow_to_the_first() {
    let d = evaluate_gate(&[3 * ONE, 3 * ONE, 3 * ONE, 3 * ONE], false);
    assert_eq!(d.sd, Dispersion::Finite(0));
    assert_eq!(d.state, GateState::Flow);
    assert!(d.can_collapse);
    assert!(matches!(d.action, CollapseAction::Collapse { winner_index: 0 }));
    assert_eq!(d.winner_index, Some(0));
    assert_eq!(d.winner_score, Some(3 * ONE));
    assert_eq!(d.reason, "Low dispersion (SD=0.000)");
}

#[test]
fn spread_candidates_block() {
    let scores = [0, 10 * ONE, 0, 10 * ONE];
    assert_eq!(calculate_sd(&scores), 5_000_000);
    let d = evaluate_gate_with_key(&scores, true, 1);
    assert_eq!(d.sd, Dispersion::Finite(5_000_000));
    assert!(5_000_000 > SD_BLOCK_THRESHOLD);
    assert_eq!(d.state, GateState::Block);
    assert!(!d.can_collapse);
    assert!(matches!(&d.action, CollapseAction::Clarify { question }
        if question == "Multiple interpretations possible"));
    assert_eq!(d.reason, "High dispersion (SD=5.000)");
    assert_eq!(d.winner_index, Some(1));
    assert_eq!(d.winner_score, Some(10 * ONE));
}

#[test]
fn block_without_clarification_holds() {
    let scores = [0, 10 * ONE, 0, 10 * ONE];
    let d = evaluate_gate_with_key(&scores, false, 0xabc);
    assert_eq!(d.state, GateState::Block);
    assert!(!d.can_collapse);
    assert!(matches!(&d.action, CollapseAction::Hold { sppm_key } if sppm_key == "sppm_abc"));
    assert_eq!(d.reason, "High dispersion, holding (SD=5.000)");
}

#[test]
fn medium_dispersion_holds_under_a_fresh_key() {
    // Scores 0.2 and 0.8: mean 0.5, deviation 0.3 from it each.
    let scores = [200_000, 800_000];
    assert_eq!(calculate_sd(&scores), 300_000);
    let d = evaluate_gate_with_key(&scores, true, 255);
    assert_eq!(d.state, GateState::Hold);
    assert!(!d.can_collapse);
    assert!(matches!(&d.action, CollapseAction::Hold { sppm_key } if sppm_key == "sppm_ff"));
    assert_eq!(d.reason, "Medium dispersion (SD=0.300)");
    assert_eq!(d.winner_index, Some(1));
    assert_eq!(d.winner_score, Some(800_000));

    let other = evaluate_gate_with_key(&scores, true, 256);
    assert!(matches!(&other.action, CollapseAction::Hold { sppm_key } if sppm_key == "sppm_100"));
    let zero = evaluate_gate_with_key(&scores, true, 0);
    assert!(matches!(&zero.action, CollapseAction::Hold { sppm_key } if sppm_key == "sppm_0"));
    let top = evaluate_gate_with_key(&scores, true, u64::MAX);
    assert!(matches!(&top.action, CollapseAction::Hold { sppm_key }
        if sppm_key == "sppm_ffffffffffffffff"));
}

#[test]
fn clock_seeded_hold_has_a_key() {
    let d = evaluate_gate(&[200_000, 800_000], false);
    assert_eq!(d.state, GateState::Hold);
    match d.action {
        CollapseAction::Hold { sppm_key } => {
            assert!(sppm_key.starts_with("sppm_"));
            assert!(sppm_key.len() > 5);
            assert!(sppm_key[5..].chars().all(|c| c.is_ascii_hexdigit() && !c.is_ascii_uppercase()));
        }
        other => panic!("expected a hold, got {:?}", other),
    }
}

#[test]
fn gate_state_thresholds_are_exact() {
    assert_eq!(get_gate_state(0), GateState::Flow);
    assert_eq!(get_gate_state(SD_FLOW_THRESHOLD - 1), GateState::Flow);
    assert_eq!(get_gate_state(SD_FLOW_THRESHOLD), GateState::Hold);
    assert_eq!(get_gate_state(SD_BLOCK_THRESHOLD), GateState::Hold);
    assert_eq!(get_gate_state(SD_BLOCK_THRESHOLD + 1), GateState::Block);
    assert_eq!(get_gate_state(u64::MAX), GateState::Block);
}

#[test]
fn threshold_dispersions_decide_as_stated() {
    // Two scores at distance 2d have dispersion d.
    let flow_edge = evaluate_gate_with_key(&[0, 2 * FLOW], true, 0);
    assert_eq!(flow_edge.sd, Dispersion::Finite(SD_FLOW_THRESHOLD));
    assert_eq!(flow_edge.state, GateState::Hold);
    let below_flow = evaluate_gate_with_key(&[0, 2 * FLOW - 1], true, 0);
    assert_eq!(below_flow.sd, Dispersion::Finite(SD_FLOW_THRESHOLD - 1));
    assert_eq!(below_flow.state, GateState::Flow);
    assert!(below_flow.can_collapse);
    let block_edge = evaluate_gate_with_key(&[0, 2 * BLOCK], true, 0);
    assert_eq!(block_edge.sd, Dispersion::Finite(SD_BLOCK_THRESHOLD));
    assert_eq!(block_edge.state, GateState::Hold);
    let above_block = evaluate_gate_with_key(&[0, 2 * BLOCK + 2], true, 0);
    assert_eq!(above_block.sd, Dispersion::Finite(SD_BLOCK_THRESHOLD + 1));
    assert_eq!(above_block.state, GateState::Block);
}

#[test]
fn a_dispersion_just_above_the_block_threshold_blocks() {
    // Scores 0 and 0.700001: dispersion 0.3500005, reported as 0.350000.
    let d = evaluate_gate_with_key(&[0, 700_001], true, 0);
    assert_eq!(d.sd, Dispersion::Finite(350_000));
    assert_eq!(d.state, GateState::Block);
    assert!(!d.can_collapse);
    assert!(matches!(d.action, CollapseAction::Clarify { .. }));
    assert_eq!(d.reason, "High dispersion (SD=0.350)");
    // Three scores whose variance exceeds the square of the threshold by a hair.
    let d = evaluate_gate_with_key(&[0, 0, 742_463], true, 0);
    assert_eq!(d.sd, Dispersion::Finite(350_000));
    assert_eq!(d.state, GateState::Block);
    let d = evaluate_gate_with_key(&[0, 0, 742_462], true, 0);
    assert_eq!(d.sd, Dispersion::Finite(349_999));
    assert_eq!(d.state, GateState::Hold);
}

#[test]
fn negative_scores_are_scores() {
    // Scores -0.2 and 0.2: dispersion 0.2, between the thresholds.
    let d = evaluate_gate_with_key(&[-200_000, 200_000], true, 9);
    assert_eq!(d.sd, Dispersion::Finite(200_000));
    assert_eq!(d.state, GateState::Hold);
    assert_eq!(d.winner_index, Some(1));
    assert_eq!(d.winner_score, Some(200_000));
    let d = evaluate_gate_with_key(&[-5 * ONE, -5 * ONE, -5 * ONE], true, 9);
    assert_eq!(d.sd, Dispersion::Finite(0));
    assert_eq!(d.state, GateState::Flow);
    assert_eq!(d.winner_score, Some(-5 * ONE));
    let d = evaluate_gate_with_key(&[-3, -1, -2], true, 9);
    assert_eq!(d.winner_index, Some(1));
    assert_eq!(calculate_sd(&[-10 * ONE, 0, -10 * ONE, 0]), 5_000_000);
}

#[test]
fn scores_at_the_ends_of_their_range() {
    // The mean is -0.5, and both scores lie 2^63 - 0.5 from it.
    assert_eq!(calculate_sd(&[i64::MIN, i64::MAX]), (1u64 << 63) - 1);
    assert_eq!(calculate_sd(&[i64::MAX, i64::MIN, i64::MAX, i64::MIN]), (1u64 << 63) - 1);
    assert_eq!(calculate_sd(&[i64::MIN, i64::MIN, i64::MIN]), 0);
    assert_eq!(calculate_sd(&[i64::MAX, i64::MAX]), 0);
    let d = evaluate_gate_with_key(&[i64::MIN, i64::MAX], false, 0);
    assert_eq!(d.state, GateState::Block);
    assert_eq!(d.winner_index, Some(1));
    assert_eq!(d.reason, "High dispersion, holding (SD=9223372036854.776)");
}

#[test]
fn a_key_source_gives_every_hold_its_own_key() {
    let mut keys = KeySource::new();
    let hold = [200_000, 800_000];
    let first = evaluate_gate_with_source(&hold, true, &mut keys);
    let second = evaluate_gate_with_source(&hold, true, &mut keys);
    assert!(matches!(&first.action, CollapseAction::Hold { sppm_key } if sppm_key == "sppm_0"));
    assert!(matches!(&second.action, CollapseAction::Hold { sppm_key } if sppm_key == "sppm_1"));
    // A flow draws no seed.
    let flow = evaluate_gate_with_source(&[ONE, ONE], true, &mut keys);
    assert_eq!(flow.state, GateState::Flow);
    let blocked = evaluate_gate_with_source(&[0, 10 * ONE], true, &mut keys);
    assert!(matches!(blocked.action, CollapseAction::Clarify { .. }));
    let third = evaluate_gate_with_source(&[0, 10 * ONE], false, &mut keys);
    assert!(matches!(&third.action, CollapseAction::Hold { sppm_key } if sppm_key == "sppm_2"));
    assert_eq!(keys.next(), 3);
    assert_eq!(keys.next(), 4);
}

#[test]
fn a_key_source_stays_at_its_end() {
    let mut keys = KeySource::starting_at(u64::MAX - 1);
    assert!(!keys.is_exhausted());
    assert_eq!(keys.next(), u64::MAX - 1);
    assert!(keys.is_exhausted());
    assert_eq!(keys.next(), u64::MAX);
    assert_eq!(keys.next(), u64::MAX);
    let d = evaluate_gate_with_source(&[200_000, 800_000], true, &mut keys);
    assert!(matches!(&d.action, CollapseAction::Hold { sppm_key }
        if sppm_key == "sppm_ffffffffffffffff"));
}

#[test]
fn standard_deviation_is_rounded_down() {
    assert_eq!(calculate_sd(&[]), 0);
    assert_eq!(calculate_sd(&[7]), 0);
    // Variance 2/9 for 0, 1, 1: the root is 0.47.., which rounds down to 0.
    assert_eq!(calculate_sd(&[0, 1, 1]), 0);
    // Variance 1/4 for 0, 1: the root is one half.
    assert_eq!(calculate_sd(&[0, 1]), 0);
    assert_eq!(calculate_sd(&[0, 2]), 1);
    // 1, 2, 3, 4 millions: variance 1.25, root 1.118033...
    assert_eq!(calculate_sd(&[ONE, 2 * ONE, 3 * ONE, 4 * ONE]), 1_118_033);
    assert_eq!(calculate_sd(&[0, 4_294_967_295]), 2_147_483_647);
    assert_eq!(calculate_sd(&[4_294_967_295, 4_294_967_295, 4_294_967_295]), 0);
    // 2, 4, 4, 4, 5, 5, 7, 9 has standard deviation 2 exactly.
    assert_eq!(calculate_sd(&[2, 4, 4, 4, 5, 5, 7, 9]), 2);
}

#[test]
fn winner_is_the_first_of_the_largest() {
    let d = evaluate_gate_with_key(&[100, 300, 200, 300], true, 0);
    assert_eq!(d.winner_index, Some(1));
    assert_eq!(d.winner_score, Some(300));
    let d = evaluate_gate_with_key(&[900_000, 100_000, 900_000], true, 0);
    assert_eq!(d.winner_index, Some(0));
    let d = evaluate_gate_with_key(&[1, 2, 3], true, 0);
    assert_eq!(d.winner_index, Some(2));
    assert!(matches!(d.action, CollapseAction::Collapse { winner_index: 2 }));
}

#[test]
fn reasons_round_the_dispersion_to_thousandths() {
    // Dispersion 0.0004995 rounds to 0.000, 0.0005 to 0.001.
    let d = evaluate_gate_with_key(&[0, 998], true, 0);
    assert_eq!(d.sd, Dispersion::Finite(499));
    assert_eq!(d.reason, "Low dispersion (SD=0.000)");
    let d = evaluate_gate_with_key(&[0, 1000], true, 0);
    assert_eq!(d.sd, Dispersion::Finite(500));
    assert_eq!(d.reason, "Low dispersion (SD=0.001)");
    let d = evaluate_gate_with_key(&[0, 4_294_967_295], true, 0);
    assert_eq!(d.reason, "High dispersion (SD=2147.484)");
}
