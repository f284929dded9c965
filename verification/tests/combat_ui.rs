use claymore::combat_ui::{skill_slot_ready, trans_band, trans_meter_label};

#[test]
fn trans_bands_match_design() {
    assert_eq!(trans_band(0), "Human");
    assert_eq!(trans_band(19), "Human");
    assert_eq!(trans_band(20), "Silver");
    assert_eq!(trans_band(39), "Silver");
    assert_eq!(trans_band(40), "Edge");
    assert_eq!(trans_band(59), "Edge");
    assert_eq!(trans_band(60), "Demon");
    assert_eq!(trans_band(80), "Breaking");
    assert_eq!(trans_band(100), "Awake");
}

#[test]
fn trans_meter_label_shows_number_and_band() {
    assert_eq!(trans_meter_label(23), "BAR 23 SILVER");
    assert_eq!(trans_meter_label(40), "BAR 40 EDGE");
    assert_eq!(trans_meter_label(8), "BAR 8 HUMAN");
}

#[test]
fn flash_slot_ready_at_gate_40() {
    assert!(!skill_slot_ready(39, 40));
    assert!(skill_slot_ready(40, 40));
    assert!(skill_slot_ready(53, 40));
}

#[test]
fn meter_clamps_out_of_range_trans() {
    assert_eq!(trans_band(-5), "Human");
    assert_eq!(trans_band(250), "Awake");
    assert_eq!(trans_meter_label(-5), "BAR 0 HUMAN");
    assert_eq!(trans_meter_label(250), "BAR 100 AWAKE");
    assert_eq!(trans_meter_label(79), "BAR 79 DEMON");
    assert_eq!(trans_meter_label(99), "BAR 99 BREAKING");
}
