use claymore::combat::types::{CombatLog, PlayerAction, Side, Stats, Unit};
use claymore::hex::Axial;
use claymore::present::{act_events, action_clip, action_sound, log_sounds, FightClip};

#[test]
fn action_sounds_and_clips() {
    let guard = PlayerAction::Skill { id: "guard".into(), hex: Axial::new(0, 0) };
    let cut = PlayerAction::Skill { id: "cut".into(), hex: Axial::new(0, 0) };
    assert_eq!(action_sound(&PlayerAction::Move(Axial::new(1, 1))), "step");
    assert_eq!(action_sound(&PlayerAction::Raise), "raise");
    assert_eq!(action_sound(&PlayerAction::Wait), "cloth");
    assert_eq!(action_sound(&guard), "block");
    assert_eq!(action_sound(&cut), "slash");
    assert_eq!(action_clip(&PlayerAction::Move(Axial::new(1, 1))), FightClip::Lunge);
    assert_eq!(action_clip(&PlayerAction::Raise), FightClip::Raise);
    assert_eq!(action_clip(&PlayerAction::Wait), FightClip::Ready);
    assert_eq!(action_clip(&guard), FightClip::Guard);
    assert_eq!(action_clip(&cut), FightClip::Slash);
}

fn unit(id: &str, hp: i32, dead: bool, origin: Axial, trans: i32) -> Unit {
    Unit {
        id: id.to_string(),
        template_id: id.to_string(),
        name: id.to_string(),
        title: String::new(),
        rank: 1,
        side: Side::Enemy,
        portrait: String::new(),
        sprite: String::new(),
        origin,
        facing: 0,
        footprint: vec![Axial::new(0, 0)],
        core_index: 0,
        parts: vec![],
        hp,
        max_hp: 20,
        yoki: 0,
        max_yoki: 0,
        trans,
        ap: 2,
        max_ap: 2,
        stats: Stats { s: 1, a: 1, c: 1, p: 1, w: 1 },
        skills: vec![],
        statuses: vec![],
        raised_trans: false,
        next_hint: None,
        dead,
    }
}

#[test]
fn events_measure_what_changed() {
    let before = vec![
        ("a".to_string(), 10, false, Axial::new(0, 0), 0, 0),
        ("b".to_string(), 5, false, Axial::new(1, 1), 10, 0),
        ("c".to_string(), 3, false, Axial::new(2, 2), 0, 0),
    ];
    let units = vec![
        unit("a", 4, false, Axial::new(0, 0), 5),
        unit("x", 1, false, Axial::new(0, 0), 0),
        unit("b", 9, false, Axial::new(1, 2), 14),
        unit("c", 0, true, Axial::new(2, 2), 0),
    ];
    let ev = act_events(&before, &units);
    assert_eq!(ev.len(), 3);
    assert_eq!(ev[0].id, "a");
    assert_eq!(ev[0].dmg, 6);
    assert_eq!(ev[0].heal, 0);
    assert_eq!(ev[0].kind, "hit");
    assert!(ev[0].trans_up);
    assert!(!ev[0].moved);
    assert_eq!(ev[1].id, "b");
    assert_eq!(ev[1].heal, 4);
    assert_eq!(ev[1].dmg, 0);
    assert!(ev[1].moved);
    assert!(!ev[1].trans_up);
    assert_eq!(ev[1].hex, Axial::new(1, 2));
    assert_eq!(ev[2].kind, "death");
    assert_eq!(ev[2].dmg, 3);
}

fn entry(kind: &str, text: &str) -> CombatLog {
    CombatLog { kind: kind.to_string(), text: text.to_string() }
}

#[test]
fn new_log_lines_pick_their_sounds() {
    let log = vec![
        entry("hit", "CLARE hits YOMA for 6."),
        entry("miss", "CLARE misses YOMA."),
        entry("sever", "The arm learns it is optional."),
        entry("info", "Raki catches the blade."),
        entry("miss", "old line"),
    ];
    assert_eq!(log_sounds(&log, 1), vec!["miss", "chop", "block"]);
    assert_eq!(log_sounds(&log, 3), vec!["miss"]);
    assert!(log_sounds(&log, 5).is_empty());
    assert!(log_sounds(&log, 9).is_empty());
    let many: Vec<CombatLog> = (0..12).map(|_| entry("miss", "x")).collect();
    assert_eq!(log_sounds(&many, 0).len(), 8);
}
