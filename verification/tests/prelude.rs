use ladybug_learning_standalone::prelude::{
    Fingerprint, GateState, Moment, MomentType, ResonanceCapture, TruthValue,
};

#[test]
fn prelude_names_the_main_types() {
    let moment = Moment::new("id", "content", MomentType::Encounter, None, 0);
    let mut memory = ResonanceCapture::new();
    memory.capture(&moment, 0);
    let found = memory.find_resonant(&Fingerprint::from_content("content"), 0, 1, 0);
    assert_eq!(found[0].resonance, 1_000_000);
    assert_eq!(TruthValue::unknown().confidence, 0);
    assert_ne!(GateState::Flow, GateState::Block);
}
