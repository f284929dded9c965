use claymore::audio::{click, confirm, error, music_defeat, music_hunt, music_island, music_stop, music_town, AudioCue};
use claymore::present::loc_prop;
use claymore::text::contains_text;
use claymore::world::{
    cleared_location, empty_explored, fame_after, hunt_for, is_explored, opened, record_victory,
    reveal_cell, unlock_chain, Ledger, LocRef, WorldStatus, EXPLORED_H, EXPLORED_W,
};

#[test]
fn fresh_map_is_shrouded_and_reveals_cells() {
    let mut e = empty_explored();
    assert_eq!(e.len(), EXPLORED_H);
    for r in 0..EXPLORED_H {
        for c in 0..EXPLORED_W {
            assert!(!is_explored(&e, c, r));
        }
    }
    reveal_cell(&mut e, 5, 7);
    assert!(is_explored(&e, 5, 7));
    assert!(!is_explored(&e, 6, 7));
    assert!(!is_explored(&e, 5, 8));
    reveal_cell(&mut e, 63, 47);
    assert!(is_explored(&e, 63, 47));
}

#[test]
fn cues_name_the_tracks() {
    assert_eq!(click(), AudioCue::Sfx("ui-click"));
    assert_eq!(confirm(), AudioCue::Sfx("confirm"));
    assert_eq!(error(), AudioCue::Sfx("error"));
    assert_eq!(music_stop(), AudioCue::MusicStop);
    assert!(matches!(music_island(), AudioCue::Music(_)));
    assert!(matches!(music_hunt(), AudioCue::Music(_)));
    assert!(matches!(music_town(), AudioCue::Music(_)));
    assert!(matches!(music_defeat(), AudioCue::Music(_)));
}

#[test]
fn victories_fill_the_ledger() {
    let mut l = Ledger { demons: 0, awakened: 0, missions: 0 };
    record_victory(&mut l, "doga-yoma");
    assert_eq!((l.demons, l.awakened, l.missions), (2, 0, 1));
    record_victory(&mut l, "doga-nest");
    assert_eq!((l.demons, l.awakened, l.missions), (5, 0, 2));
    record_victory(&mut l, "gonal-ripple");
    assert_eq!((l.demons, l.awakened, l.missions), (5, 1, 3));
    record_victory(&mut l, "pieta-worm");
    assert_eq!((l.demons, l.awakened, l.missions), (5, 2, 4));
}

#[test]
fn text_search() {
    assert!(contains_text("doga-nest", "nest"));
    assert!(contains_text("doga-nest", ""));
    assert!(!contains_text("nes", "nest"));
    assert!(contains_text("worm", "worm"));
    assert!(!contains_text("wormy", "ormx"));
}

#[test]
fn pins_show_props() {
    assert_eq!(loc_prop("doga", "village"), "kenney/prop/well.png");
    assert_eq!(loc_prop("maw", "wild"), "kenney/prop/ruins.png");
    assert_eq!(loc_prop("elsewhere", "keep"), "kenney/prop/castle.png");
    assert_eq!(loc_prop("elsewhere", "swamp"), "kenney/prop/house.png");
}

#[test]
fn victory_clears_where_the_hunt_was_fought() {
    let locs = [
        LocRef { id: "stora", encounter: None },
        LocRef { id: "doga", encounter: Some("doga-yoma") },
        LocRef { id: "paburo", encounter: Some("paburo-nest") },
    ];
    assert_eq!(cleared_location(&locs, "doga-yoma"), Some(1));
    assert_eq!(cleared_location(&locs, "doga-nest"), Some(1));
    assert_eq!(cleared_location(&locs, "paburo-nest"), Some(2));
    assert_eq!(cleared_location(&locs, "pieta-worm"), None);
}

#[test]
fn victory_fame_and_the_road_north() {
    assert_eq!(fame_after(0, 47, 5, -3), (5, 44));
    assert_eq!(fame_after(-2, 2, -4, -9), (-6, 1));
    let chain = unlock_chain();
    assert_eq!(chain, vec![("paburo", "doga-cleared", 72), ("gonal", "paburo-cleared", 90), ("pieta", "gonal-cleared", 110)]);
    assert_eq!(opened(WorldStatus::Locked, true, 72), Some((WorldStatus::Beacon, 72)));
    assert_eq!(opened(WorldStatus::Locked, false, 72), None);
    assert_eq!(opened(WorldStatus::Cleared, true, 90), None);
}

#[test]
fn dead_doga_becomes_a_nest() {
    let doga = LocRef { id: "doga", encounter: Some("doga-yoma") };
    let paburo = LocRef { id: "paburo", encounter: Some("paburo-nest") };
    assert_eq!(hunt_for(Some(&doga), Some(WorldStatus::Dead)), Some("doga-nest"));
    assert_eq!(hunt_for(Some(&doga), Some(WorldStatus::Beacon)), Some("doga-yoma"));
    assert_eq!(hunt_for(Some(&doga), None), Some("doga-yoma"));
    assert_eq!(hunt_for(Some(&paburo), Some(WorldStatus::Dead)), Some("paburo-nest"));
    assert_eq!(hunt_for(None, Some(WorldStatus::Dead)), None);
}

#[test]
fn rows_past_the_grid_read_shrouded() {
    let e = empty_explored();
    assert!(!is_explored(&e, 100, EXPLORED_H));
    assert!(!is_explored(&e, 3, EXPLORED_H + 7));
}
