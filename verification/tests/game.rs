use claymore::game::{after_result, needs_ophelia_intro, pin_click, scene_click, town_hunt, PinClick, SceneClick};
use claymore::world::WorldStatus;
use claymore::audio::AudioCue;
use claymore::dialog::SceneId;
use claymore::game::{
    add_members, followup_scene, key_outcome, resume_mode, saved_mode, scene_outcome, turn_yaw, Arm, CombatCmd,
    Key, Mode, SceneMove,
};

#[test]
fn combat_esc_needs_confirm_then_persists_cleared() {
    // First press: only arms the flee window, the fight stays.
    let first = key_outcome(Mode::Combat, false, None, Key::Escape, true);
    assert_eq!(first.mode, Mode::Combat, "first Esc only arms flee");
    assert_eq!(first.arm, Arm::Open);
    assert!(!first.drop_combat);
    assert!(first.close_sound);
    // Second press inside the window: leaves the fight and saves it cleared.
    let second = key_outcome(Mode::Combat, true, None, Key::Escape, true);
    assert_eq!(second.mode, Mode::World);
    assert!(second.drop_combat);
    assert!(second.persist, "persist after flee");
    assert!(second.music_island);
    assert_ne!(saved_mode(second.mode), Mode::Combat);
    assert_eq!(resume_mode(false, saved_mode(second.mode)), Mode::World);
}

#[test]
fn world_esc_persists_before_title() {
    let o = key_outcome(Mode::World, false, None, Key::Escape, true);
    assert_eq!(o.mode, Mode::Title);
    assert!(o.persist_first, "persist on world Esc");
    assert_eq!(o.arm, Arm::Clear);
}

#[test]
fn title_esc_arms_quit_confirm() {
    let o = key_outcome(Mode::Title, false, None, Key::Escape, true);
    assert_eq!(o.mode, Mode::Title, "first Esc only arms quit");
    assert_eq!(o.arm, Arm::Open);
    assert!(o.hint.map(|h| h.contains("QUIT")).unwrap_or(false));
}

#[test]
fn town_esc_returns_to_world_not_title() {
    let o = key_outcome(Mode::Town, false, None, Key::Escape, true);
    assert_eq!(o.mode, Mode::World);
}

#[test]
fn digit3_selects_slot_skill_flash_for_clare() {
    let o = key_outcome(Mode::Combat, false, None, Key::Digit3, true);
    assert_eq!(o.pick_slot, Some(4), "Digit3 must pick_skill_slot(4), not hardcode aimed");
    assert_eq!(o.select, None);
    assert!(o.click);
}

#[test]
fn key_repeat_decides_nothing() {
    let o = key_outcome(Mode::Combat, false, None, Key::Space, false);
    assert_eq!(o.act, CombatCmd::Nothing);
    assert_eq!(o.mode, Mode::Combat);
    let o = key_outcome(Mode::Combat, false, None, Key::Space, true);
    assert_eq!(o.act, CombatCmd::Wait);
    let o = key_outcome(Mode::Combat, false, None, Key::KeyT, true);
    assert_eq!(o.act, CombatCmd::Raise);
}

#[test]
fn fight_keys_do_nothing_elsewhere() {
    for key in [Key::Digit1, Key::Digit2, Key::Digit3, Key::KeyG, Key::KeyT, Key::KeyQ, Key::KeyE] {
        let o = key_outcome(Mode::World, false, None, key, true);
        assert_eq!(o.mode, Mode::World);
        assert_eq!(o.act, CombatCmd::Nothing);
        assert_eq!(o.select, None);
        assert_eq!(o.yaw_step, 0);
    }
    let o = key_outcome(Mode::Combat, false, None, Key::Digit1, true);
    assert_eq!(o.select, Some("cut"));
    let o = key_outcome(Mode::Combat, false, None, Key::KeyG, true);
    assert_eq!(o.select, Some("guard"));
}

#[test]
fn scene_keys() {
    let o = key_outcome(Mode::Scene, false, Some(false), Key::Space, true);
    assert_eq!(o.scene, SceneMove::Advance);
    let o = key_outcome(Mode::Scene, false, Some(true), Key::Space, true);
    assert_eq!(o.scene, SceneMove::Resolve(true));
    let o = key_outcome(Mode::Scene, false, Some(true), Key::Escape, true);
    assert_eq!(o.scene, SceneMove::Resolve(false));
    assert!(o.persist);
    let o = key_outcome(Mode::Scene, false, Some(false), Key::Escape, true);
    assert_eq!(o.scene, SceneMove::Skip);
    let o = key_outcome(Mode::Intro, false, None, Key::Space, true);
    assert_eq!(o.mode, Mode::World);
}

#[test]
fn camera_turns() {
    let q = key_outcome(Mode::Combat, false, None, Key::KeyQ, true);
    let e = key_outcome(Mode::Combat, false, None, Key::KeyE, true);
    assert_eq!(turn_yaw(0, q.yaw_step), 3);
    assert_eq!(turn_yaw(3, e.yaw_step), 0);
    assert_eq!(turn_yaw(turn_yaw(2, q.yaw_step), e.yaw_step), 2);
}

#[test]
fn save_and_resume_modes() {
    assert_eq!(saved_mode(Mode::Title), Mode::World);
    assert_eq!(saved_mode(Mode::Town), Mode::Town);
    assert_eq!(resume_mode(true, Mode::World), Mode::Combat);
    assert_eq!(resume_mode(false, Mode::Intro), Mode::World);
    assert_eq!(resume_mode(false, Mode::Codex), Mode::Codex);
}

#[test]
fn scene_choices_decide() {
    use_scene_checks();
}

fn use_scene_checks() {
    let o = scene_outcome(SceneId::RakiJoin, true);
    assert!(o.raki);
    assert_eq!(o.mode, Mode::World);
    assert_eq!(o.cue, AudioCue::Sfx("confirm"));
    let o = scene_outcome(SceneId::RakiJoin, false);
    assert!(!o.raki);
    assert_eq!(o.flag, Some("raki-refused"));
    assert_eq!(o.cue, AudioCue::Sfx("close"));
    let o = scene_outcome(SceneId::RecruitPaburo, true);
    assert_eq!(o.recruits, &["miria", "helen"]);
    let o = scene_outcome(SceneId::RecruitPieta, false);
    assert!(o.recruits.is_empty());
    let o = scene_outcome(SceneId::OpheliaIntro, false);
    assert!(o.start_pending);
    assert_eq!(o.flag, Some("ophelia-spoken"));
    assert_eq!(o.cue, AudioCue::Sfx("draw"));
    let o = scene_outcome(SceneId::TownDogaLate, true);
    assert_eq!(o.mode, Mode::Town);
    assert_eq!(o.flag, Some("doga-late-talked"));
}

#[test]
fn recruits_join_once() {
    let mut party = vec!["clare".to_string(), "helen".to_string()];
    add_members(&mut party, &["miria", "helen"]);
    assert_eq!(party, vec!["clare", "helen", "miria"]);
    add_members(&mut party, &["deneve", "deneve"]);
    assert_eq!(party, vec!["clare", "helen", "miria", "deneve"]);
}

#[test]
fn victory_followups() {
    let party = vec!["clare".to_string()];
    assert_eq!(followup_scene("doga-yoma", false, false, &party), Some(SceneId::RakiJoin));
    assert_eq!(followup_scene("doga-yoma", true, false, &party), None);
    assert_eq!(followup_scene("doga-yoma", false, true, &party), None);
    assert_eq!(followup_scene("paburo-nest", false, false, &party), Some(SceneId::RecruitPaburo));
    let with_helen = vec!["clare".to_string(), "helen".to_string()];
    assert_eq!(followup_scene("paburo-nest", false, false, &with_helen), None);
    assert_eq!(followup_scene("pieta-worm", true, true, &with_helen), Some(SceneId::RecruitPieta));
    let with_deneve = vec!["deneve".to_string()];
    assert_eq!(followup_scene("pieta-worm", true, true, &with_deneve), None);
    assert_eq!(followup_scene("gonal-ripple", false, false, &party), None);
}

#[test]
fn island_pins_refuse_lock_and_lateness() {
    assert_eq!(pin_click("paburo", Some(WorldStatus::Locked), false, None, false, false), PinClick::Refused);
    assert_eq!(pin_click("doga", Some(WorldStatus::Dead), false, None, false, false), PinClick::TooLate);
    assert_eq!(
        pin_click("doga", Some(WorldStatus::Beacon), false, Some(WorldStatus::Beacon), true, false),
        PinClick::Travel { raki_follows: true, doga_scene: true }
    );
    assert_eq!(
        pin_click("doga", Some(WorldStatus::Cleared), false, Some(WorldStatus::Cleared), true, true),
        PinClick::Travel { raki_follows: false, doga_scene: false }
    );
    assert_eq!(
        pin_click("doga", None, true, None, false, false),
        PinClick::Travel { raki_follows: false, doga_scene: false }
    );
    assert_eq!(
        pin_click("stora", Some(WorldStatus::Quiet), false, Some(WorldStatus::Beacon), false, false),
        PinClick::Travel { raki_follows: false, doga_scene: false }
    );
}

#[test]
fn town_hunts_and_gates() {
    assert_eq!(town_hunt(Some("doga-yoma"), Some(WorldStatus::Beacon)), Some("doga-yoma"));
    assert_eq!(town_hunt(Some("doga-yoma"), None), Some("doga-yoma"));
    assert_eq!(town_hunt(Some("doga-yoma"), Some(WorldStatus::Cleared)), None);
    assert_eq!(town_hunt(Some("paburo-nest"), Some(WorldStatus::Locked)), None);
    assert_eq!(town_hunt(Some("doga-yoma"), Some(WorldStatus::Dead)), None);
    assert_eq!(town_hunt(None, Some(WorldStatus::Quiet)), None);
    assert!(needs_ophelia_intro("gonal-ripple", false));
    assert!(!needs_ophelia_intro("gonal-ripple", true));
    assert!(!needs_ophelia_intro("doga-yoma", false));
    assert_eq!(after_result(true), Mode::Scene);
    assert_eq!(after_result(false), Mode::World);
}

#[test]
fn scene_clicks_answer_by_choice_count() {
    assert_eq!(scene_click(false, 2, true, false, true), SceneClick::Advance);
    assert_eq!(scene_click(true, 2, true, false, true), SceneClick::Resolve(true));
    assert_eq!(scene_click(true, 2, false, true, true), SceneClick::Resolve(false));
    assert_eq!(scene_click(true, 2, false, false, true), SceneClick::Ignore);
    assert_eq!(scene_click(true, 1, true, false, false), SceneClick::Resolve(true));
    assert_eq!(scene_click(true, 1, false, false, true), SceneClick::Resolve(true));
    assert_eq!(scene_click(true, 0, false, false, false), SceneClick::Ignore);
    assert_eq!(scene_click(true, 0, true, false, false), SceneClick::Ignore);
}
