use claymore::combat::act::{act, TurnSteps};
use claymore::combat::arena::arena_terrain;
use claymore::combat::zone::apply_zone;
use claymore::combat::ai::{ai_step, AiMove, intended_strike, next_enemy_unit, peek_enemy_tell, pick_ai_skill};
use claymore::combat::moves::legal_moves;
use claymore::combat::resolve::{apply_damage, push_log, resolve_hit};
use claymore::combat::rules::{can_use, legal_targets, move_cost, raki_can_help, zone_for};
use claymore::combat::setup::{core_hex, current_unit, live_cells, living, max_ap, occupied, terrain_at};
use claymore::combat::types::{
    Attr, CombatLog, CombatState, HitKind, Part, PlayerAction, ShapeKind, Side, SkillDef, Stats, Status, Terrain,
    Unit,
};
use claymore::game::{board_click, preview_zone, slot_skill, Selection};
use claymore::hex::{hex_distance, Axial};
use claymore::rng::Rng;

fn part(name: &str, idx: usize, hp: i32, zone: Option<&str>) -> Part {
    Part {
        id: name.to_string(),
        name: name.to_string(),
        hex_index: idx,
        hp,
        max_hp: hp,
        zone: zone.map(|z| z.to_string()),
    }
}

fn unit(id: &str, template: &str, side: Side, origin: Axial) -> Unit {
    Unit {
        id: id.to_string(),
        template_id: template.to_string(),
        name: id.to_uppercase(),
        title: String::new(),
        rank: 1,
        side,
        portrait: String::new(),
        sprite: String::new(),
        origin,
        facing: 0,
        footprint: vec![Axial::new(0, 0)],
        core_index: 0,
        parts: vec![part("body", 0, 10, None)],
        hp: 10,
        max_hp: 10,
        yoki: 0,
        max_yoki: 0,
        trans: 0,
        ap: 3,
        max_ap: 3,
        stats: Stats { s: 4, a: 4, c: 4, p: 4, w: 4 },
        skills: vec![],
        statuses: vec![],
        raised_trans: false,
        next_hint: None,
        dead: false,
    }
}

fn state(units: Vec<Unit>, order: Vec<&str>) -> CombatState {
    CombatState {
        id: "test".into(),
        title: "Test".into(),
        seed: 7,
        turn: 0,
        round: 1,
        order: order.into_iter().map(|s| s.to_string()).collect(),
        units,
        terrain: vec![],
        cols: 6,
        rows: 6,
        zones: vec![],
        log: vec![],
        over: None,
        briefing: String::new(),
        support_raki: false,
    }
}

fn skill(id: &'static str, shape: ShapeKind, range: i32, power: i32) -> SkillDef {
    SkillDef {
        id,
        name: id,
        blurb: "",
        ap: 1,
        trans: 0,
        yoki: 0,
        shape,
        range,
        length: 0,
        pa: Attr::S,
        pd: Attr::C,
        power,
        aimed: false,
        self_cast: false,
        heal: 0,
        trans_delta: 0,
        move_range: 0,
        guard: 0,
        telegraph: false,
        afterimage: false,
        unblockable: false,
        strikes: true,
    }
}

fn sorted(mut v: Vec<Axial>) -> Vec<(i32, i32)> {
    v.sort_by_key(|h| (h.q, h.r));
    let mut out: Vec<(i32, i32)> = v.into_iter().map(|h| (h.q, h.r)).collect();
    out.dedup();
    out
}

#[test]
fn moves_cover_cells_within_budget() {
    let s = state(vec![unit("clare", "clare", Side::Player, Axial::new(2, 2))], vec!["clare"]);
    let m = legal_moves(&s, "clare", 2);
    let mut want = vec![];
    for q in 0..6 {
        for r in 0..6 {
            let h = Axial::new(q, r);
            let d = hex_distance(Axial::new(2, 2), h);
            if d >= 1 && d <= 2 {
                want.push(h);
            }
        }
    }
    assert_eq!(sorted(m), sorted(want));
    // Allowance caps the action points.
    assert_eq!(sorted(legal_moves(&s, "clare", 1)).len(), 6);
    assert!(legal_moves(&s, "nobody", 2).is_empty());
}

#[test]
fn moves_respect_terrain_and_units() {
    let mut s = state(
        vec![
            unit("clare", "clare", Side::Player, Axial::new(2, 2)),
            unit("yoma-0", "yoma", Side::Enemy, Axial::new(3, 2)),
        ],
        vec!["clare", "yoma-0"],
    );
    s.terrain = vec![(Axial::new(2, 1), Terrain::Water), (Axial::new(1, 2), Terrain::Mud)];
    assert_eq!(move_cost(&s, Axial::new(2, 1)), 99);
    assert_eq!(move_cost(&s, Axial::new(1, 2)), 2);
    assert_eq!(move_cost(&s, Axial::new(0, 0)), 1);
    assert_eq!(terrain_at(&s, Axial::new(0, 0)), Terrain::Grass);
    let m = sorted(legal_moves(&s, "clare", 1));
    assert!(!m.contains(&(3, 2)), "taken by the yoma");
    assert!(!m.contains(&(2, 1)), "water costs 99");
    assert!(!m.contains(&(1, 2)), "mud costs 2");
    assert!(m.contains(&(1, 3)));
    let m2 = sorted(legal_moves(&s, "clare", 2));
    assert!(m2.contains(&(1, 2)));
    assert!(!m2.contains(&(2, 2)));
    // A fallen unit goes nowhere.
    s.units[0].dead = true;
    assert!(legal_moves(&s, "clare", 3).is_empty());
}

#[test]
fn damage_hits_limbs_first() {
    let mut u = unit("yoma-0", "yoma", Side::Enemy, Axial::new(1, 1));
    u.parts = vec![part("core", 0, 10, None), part("arm", 0, 5, Some("left"))];
    u.hp = 15;
    let mut s = state(vec![u], vec!["yoma-0"]);
    apply_damage(&mut s, "yoma-0", 7, HitKind::Solid, "Clare");
    let u = &s.units[0];
    assert_eq!(u.parts[1].hp, 0);
    assert_eq!(u.parts[0].hp, 8);
    assert_eq!(u.hp, 8);
    assert!(!u.dead);
    assert_eq!(s.log.len(), 1);
    assert_eq!(s.log[0].kind, "hit");
    assert_eq!(s.log[0].text, "Clare hits YOMA-0 for 7.");
    apply_damage(&mut s, "yoma-0", 20, HitKind::Glance, "Clare");
    let u = &s.units[0];
    assert!(u.dead);
    assert_eq!(u.hp, 0);
    assert_eq!(u.ap, 0);
    assert_eq!(s.log[0].kind, "kill");
    assert_eq!(s.log[0].text, "YOMA-0 falls.");
    assert_eq!(s.log[1].text, "Clare glances YOMA-0 for 8.");
    // A fallen unit takes nothing more.
    apply_damage(&mut s, "yoma-0", 5, HitKind::Solid, "Clare");
    assert_eq!(s.log.len(), 3);
}

#[test]
fn zero_damage_logs_a_miss() {
    let mut s = state(vec![unit("yoma-0", "yoma", Side::Enemy, Axial::new(1, 1))], vec![]);
    apply_damage(&mut s, "yoma-0", 0, HitKind::Miss, "Clare");
    assert_eq!(s.log[0].kind, "miss");
    assert_eq!(s.log[0].text, "Clare misses YOMA-0.");
    assert_eq!(s.units[0].hp, 10);
    apply_damage(&mut s, "nobody", 5, HitKind::Solid, "Clare");
    assert_eq!(s.log.len(), 1);
}

#[test]
fn log_keeps_forty_newest_first() {
    let mut s = state(vec![], vec![]);
    for i in 0..45 {
        push_log(&mut s, "info", format!("line {i}"));
    }
    assert_eq!(s.log.len(), 40);
    assert_eq!(s.log[0].text, "line 44");
    assert_eq!(s.log[39].text, "line 5");
    push_log(&mut s, "trans", "ignored".to_string());
    assert_eq!(s.log[0].text, "Clare opens the bar.");
    assert_eq!(s.log[0].kind, "trans");
    let _ = CombatLog { text: String::new(), kind: String::new() };
}

/// The single-precision blow the game resolves, for comparison.
fn float_hit(seed: u32, guard: i32, sk: &SkillDef, pa: i32, pd: i32) -> (HitKind, i32, u32) {
    let mut s = if seed == 0 { 1 } else { seed };
    let mut next = || {
        s = 1664525u32.wrapping_mul(s).wrapping_add(1013904223);
        s as f32 / 4294967296.0
    };
    let d = (pa - pd).clamp(-4, 8);
    let scale = 1.0 + 0.25 * d as f32;
    let power = (sk.power as f32 * scale).round() as i32;
    let out;
    if sk.unblockable {
        out = (HitKind::Solid, power.max(1));
    } else {
        let hit_chance = 0.55 + 0.05 * (pa - pd) as f32 + if sk.aimed { 0.12 } else { 0.0 };
        if !(next() < hit_chance.clamp(0.15, 0.95)) {
            out = (HitKind::Miss, 0);
        } else if guard > 0 && next() < 0.35 + guard as f32 * 0.08 {
            out = (HitKind::Blocked, (power / 3).max(1));
        } else if next() < 0.18 {
            out = (HitKind::Glance, (power / 2).max(1));
        } else {
            out = (HitKind::Solid, power.max(1));
        }
    }
    drop(next);
    (out.0, out.1, s)
}

#[test]
fn hits_match_single_precision() {
    let atk = unit("clare", "clare", Side::Player, Axial::new(0, 0));
    let mut def = unit("yoma-0", "yoma", Side::Enemy, Axial::new(1, 0));
    let mut n = 0u32;
    for guard in [0, 1, 3] {
        def.statuses = if guard > 0 {
            vec![Status {
                id: "guard".into(),
                name: "Guard".into(),
                turns: 1,
                guard,
                telegraph: false,
                afterimage: None,
            }]
        } else {
            vec![]
        };
        for power in [-3, 0, 1, 5, 7, 12, 33] {
            for (aimed, unblockable) in [(false, false), (true, false), (false, true)] {
                let mut sk = skill("cut", ShapeKind::Single, 1, power);
                sk.aimed = aimed;
                sk.unblockable = unblockable;
                for pa in [-3, 0, 2, 5, 9, 14] {
                    for pd in [0, 3, 6, 20] {
                        n = n.wrapping_mul(2654435761).wrapping_add(12345);
                        let mut rng = Rng::new(n);
                        let got = resolve_hit(&mut rng, &atk, &def, &sk, pa, pd);
                        let want = float_hit(n, guard, &sk, pa, pd);
                        assert_eq!((got.0, got.1), (want.0, want.1), "power {power} pa {pa} pd {pd}");
                        assert_eq!(rng.next_u32(), Rng::new(want.2).next_u32());
                    }
                }
            }
        }
    }
}

#[test]
fn claw_in_reach_is_telegraphed() {
    let clare = unit("clare", "clare", Side::Player, Axial::new(2, 2));
    let mut yoma = unit("yoma-0", "yoma", Side::Enemy, Axial::new(3, 2));
    yoma.skills = vec!["claw".into(), "roar".into()];
    let skills = [skill("claw", ShapeKind::Single, 1, 6), skill("roar", ShapeKind::SelfCast, 0, 0)];
    let mut s = state(vec![clare, yoma.clone()], vec!["clare", "yoma-0"]);
    let strike = intended_strike(&s, &yoma, &skills).expect("claw in range");
    assert_eq!(strike.skill_id, "claw");
    assert_eq!(strike.unit_id, "yoma-0");
    assert_eq!(strike.hex, Axial::new(2, 2));
    // Clare's turn: the next yoma's tell is the same claw.
    assert_eq!(current_unit(&s).map(|u| u.id.as_str()), Some("clare"));
    assert_eq!(next_enemy_unit(&s).map(|u| u.id.as_str()), Some("yoma-0"));
    assert_eq!(peek_enemy_tell(&s, &skills), Some(strike.clone()));
    // Far away: no tell.
    s.units[1].origin = Axial::new(5, 5);
    let far = s.units[1].clone();
    assert!(intended_strike(&s, &far, &skills).is_none());
    // No living foe: no tell.
    s.units[1].origin = Axial::new(3, 2);
    s.units[0].dead = true;
    let near = s.units[1].clone();
    assert!(intended_strike(&s, &near, &skills).is_none());
    // A player unit never telegraphs.
    assert!(intended_strike(&s, &s.units[0].clone(), &skills).is_none());
    assert_eq!(pick_ai_skill(&s, &near, &skills).map(|k| k.id), Some("claw"));
}

#[test]
fn lured_prey_is_chosen_first() {
    let clare = unit("clare", "clare", Side::Player, Axial::new(3, 3));
    let mut miria = unit("miria", "miria", Side::Player, Axial::new(1, 3));
    miria.statuses = vec![Status {
        id: "lured".into(),
        name: "Lured".into(),
        turns: 1,
        guard: 0,
        telegraph: false,
        afterimage: None,
    }];
    let mut yoma = unit("yoma-0", "yoma", Side::Enemy, Axial::new(2, 3));
    yoma.skills = vec!["claw".into()];
    let skills = [skill("claw", ShapeKind::Single, 1, 6)];
    let s = state(vec![clare, miria, yoma.clone()], vec!["yoma-0"]);
    let strike = intended_strike(&s, &yoma, &skills).unwrap();
    assert_eq!(strike.hex, Axial::new(1, 3));
    assert_eq!(living(&s, Some(Side::Player)), vec![0, 1]);
    assert_eq!(living(&s, None), vec![0, 1, 2]);
    assert_eq!(next_enemy_unit(&s).map(|u| u.id.as_str()), Some("yoma-0"));
}

#[test]
fn board_helpers() {
    let mut u = unit("ophelia", "ophelia", Side::Enemy, Axial::new(2, 2));
    u.footprint = vec![Axial::new(0, 0), Axial::new(1, 0), Axial::new(0, 1)];
    u.parts = vec![part("a", 0, 5, None), part("b", 1, 0, None), part("c", 2, 3, Some("ripple"))];
    u.core_index = 2;
    assert_eq!(live_cells(&u), vec![Axial::new(2, 2), Axial::new(2, 3)]);
    assert_eq!(core_hex(&u), Axial::new(2, 3));
    let s = state(vec![u.clone()], vec![]);
    assert_eq!(occupied(&s, None).len(), 2);
    assert!(occupied(&s, Some("ophelia")).is_empty());
    assert_eq!(max_ap(&Stats { s: 0, a: 12, c: 0, p: 0, w: 0 }), 5);
    assert_eq!(max_ap(&Stats { s: 0, a: -9, c: 0, p: 0, w: 0 }), 2);
    let ripple = skill("ripple", ShapeKind::Ripple, 2, 4);
    assert!(can_use(&u, &ripple, false));
    let drop = skill("drop", ShapeKind::Single, 1, 4);
    assert!(!can_use(&u, &drop, false));
    assert!(can_use(&u, &drop, true));
    assert!(!raki_can_help(&s, "ophelia"));
    let line = SkillDef { length: 2, ..skill("thrust", ShapeKind::Line, 3, 4) };
    assert_eq!(zone_for(&s, &u, &line, Axial::new(2, 5)), vec![Axial::new(2, 4), Axial::new(2, 5)]);
    let t = legal_targets(&s, "ophelia", "thrust", &[line]);
    assert!(t.iter().all(|h| hex_distance(Axial::new(2, 3), *h) >= 1));
    assert!(legal_targets(&s, "ophelia", "nope", &[line]).is_empty());
}

#[test]
fn zone_strikes_foes_and_spares_allies() {
    let clare = unit("clare", "clare", Side::Player, Axial::new(0, 0));
    let miria = unit("miria", "miria", Side::Player, Axial::new(2, 2));
    let yoma = unit("yoma-0", "yoma", Side::Enemy, Axial::new(3, 2));
    let mut s = state(vec![clare, miria, yoma], vec!["clare"]);
    s.seed = 7;
    s.round = 1;
    s.turn = 0;
    let before = s.units[2].clone();
    // The blow the zone rolls: seed 7 + 31 * 1 + 0.
    let mut rng = Rng::new(38);
    let sk = SkillDef { unblockable: false, ..skill("zone", ShapeKind::Single, 0, 6) };
    let (kind, dmg) = resolve_hit(&mut rng, &s.units[0], &before, &sk, 4, 4);
    apply_zone(&mut s, &[Axial::new(2, 2), Axial::new(3, 2)], 6, Attr::S, Attr::C, "clare", false, false);
    assert_eq!(s.units[1].hp, 10, "allies are spared");
    assert_eq!(s.units[2].hp, (10 - dmg).max(0));
    assert_eq!(s.log.len(), 1);
    let _ = kind;
    // An unknown attacker changes nothing.
    let hp = s.units[2].hp;
    apply_zone(&mut s, &[Axial::new(3, 2)], 6, Attr::S, Attr::C, "nobody", false, false);
    assert_eq!(s.units[2].hp, hp);
    assert_eq!(s.log.len(), 1);
    // Unblockable blows reach allies too.
    apply_zone(&mut s, &[Axial::new(2, 2)], 3, Attr::S, Attr::C, "clare", false, true);
    assert!(s.units[1].hp < 10);
}

/// The single-precision arena layout, for comparison.
fn float_arena(seed: u32, cols: i32, rows: i32) -> Vec<(Axial, Terrain)> {
    let mut s = if seed == 0 { 1 } else { seed };
    let mut roll = |min: i32, max: i32| {
        s = 1664525u32.wrapping_mul(s).wrapping_add(1013904223);
        let x = s as f32 / 4294967296.0;
        let span = (max - min + 1) as f32;
        (min + (x * span).floor() as i32).min(max)
    };
    let mut terrain: Vec<(Axial, Terrain)> = Vec::new();
    let occupied = |terrain: &[(Axial, Terrain)], h: Axial| terrain.iter().any(|(a, _)| *a == h);
    let mud_n = ((cols * rows) / 5).max(8);
    for _ in 0..mud_n {
        let h = Axial::new(roll(0, cols - 1), roll(0, rows - 1));
        if !occupied(&terrain, h) {
            terrain.push((h, Terrain::Mud));
        }
    }
    let ruin_n = ((cols + rows) / 3).max(3);
    for _ in 0..ruin_n {
        let h = Axial::new(roll(0, cols - 1), roll(0, rows - 1));
        if !occupied(&terrain, h) {
            terrain.push((h, Terrain::Ruin));
        }
    }
    let mid_r = rows / 2;
    for q in 0..cols {
        let h0 = Axial::new(q, mid_r);
        if roll(0, 100) < 35 && !occupied(&terrain, h0) {
            terrain.push((h0, Terrain::Water));
        }
        let h1 = Axial::new(q, (mid_r + 1).min(rows - 1));
        if roll(0, 100) < 20 && !occupied(&terrain, h1) {
            terrain.push((h1, Terrain::Water));
        }
    }
    terrain
}

#[test]
fn arena_matches_single_precision() {
    for seed in [1u32, 3, 7, 99, 2024] {
        for (cols, rows) in [(11, 9), (8, 6), (12, 12), (5, 1)] {
            let mut rng = Rng::new(seed);
            let t = arena_terrain(&mut rng, cols, rows);
            assert_eq!(t, float_arena(seed, cols, rows), "seed {seed} {cols}x{rows}");
            assert!(t.iter().all(|(h, _)| h.q >= 0 && h.r >= 0));
            for i in 0..t.len() {
                for j in 0..i {
                    assert_ne!(t[i].0, t[j].0);
                }
            }
        }
    }
}

#[test]
fn preview_and_slots() {
    use_preview_checks();
}

fn use_preview_checks() {
    let mut clare = unit("clare", "clare", Side::Player, Axial::new(2, 2));
    clare.skills = vec!["cut".into(), "guard".into(), "a".into(), "b".into(), "flash".into()];
    let yoma = unit("yoma-0", "yoma", Side::Enemy, Axial::new(4, 4));
    let mut s = state(vec![clare, yoma], vec!["clare", "yoma-0"]);
    let skills = [skill("cut", ShapeKind::Single, 1, 5)];
    assert_eq!(slot_skill(&s, 4), Some("flash"));
    assert_eq!(slot_skill(&s, 5), None);
    // No skill selected: where Clare can walk.
    let walk = preview_zone(&s, None, None, &skills, 1);
    assert_eq!(sorted(walk).len(), 6);
    // Skill selected, no hover: where it can be aimed.
    let aim = preview_zone(&s, Some("cut"), None, &skills, 1);
    assert_eq!(aim, legal_targets(&s, "clare", "cut", &skills));
    // Skill selected and hovered: its zone.
    let z = preview_zone(&s, Some("cut"), Some(Axial::new(3, 2)), &skills, 1);
    assert_eq!(z, vec![Axial::new(3, 2)]);
    // The enemy's turn shows nothing.
    s.turn = 1;
    assert!(preview_zone(&s, None, None, &skills, 3).is_empty());
    assert_eq!(slot_skill(&s, 0), None);
}

#[test]
fn clicks_walk_or_swing() {
    let clare = unit("clare", "clare", Side::Player, Axial::new(2, 2));
    let yoma = unit("yoma-0", "yoma", Side::Enemy, Axial::new(3, 2));
    let mut s = state(vec![clare, yoma], vec!["clare", "yoma-0"]);
    let skills = [skill("cut", ShapeKind::Single, 1, 5)];
    // An open neighbour: walk.
    let c = board_click(&s, None, Axial::new(1, 2), &skills, 1);
    assert!(matches!(c.act, Some(PlayerAction::Move(h)) if h == Axial::new(1, 2)));
    assert_eq!(c.select, Selection::Keep);
    // The yoma's cell cannot be walked into: swing Cut there.
    let c = board_click(&s, None, Axial::new(3, 2), &skills, 1);
    assert!(matches!(&c.act, Some(PlayerAction::Skill { id, hex }) if id == "cut" && *hex == Axial::new(3, 2)));
    assert_eq!(c.select, Selection::Clear);
    // Too far for either: Cut gets selected.
    let c = board_click(&s, None, Axial::new(5, 5), &skills, 1);
    assert!(c.act.is_none());
    assert_eq!(c.select, Selection::Cut);
    // A selected skill out of reach: error.
    let c = board_click(&s, Some("cut"), Axial::new(5, 5), &skills, 1);
    assert!(c.act.is_none());
    assert!(c.error);
    // Not the player's turn: nothing.
    s.turn = 1;
    let c = board_click(&s, None, Axial::new(1, 2), &skills, 1);
    assert!(c.act.is_none() && !c.error && c.select == Selection::Keep);
}

fn duel() -> CombatState {
    let clare = unit("clare", "clare", Side::Player, Axial::new(2, 2));
    let yoma = unit("yoma", "yoma", Side::Enemy, Axial::new(3, 2));
    state(vec![clare, yoma], vec!["clare", "yoma"])
}

#[test]
fn act_wait_spends_the_turn() {
    let mut s = duel();
    let st = act(&mut s, PlayerAction::Wait, true, &[], 3);
    assert_eq!(st, TurnSteps { advance_turn: true, check_over: false });
    assert_eq!(s.units[0].ap, 0);
    assert_eq!(s.log[0].kind, "info");
    assert_eq!(s.log[0].text, "CLARE waits.");
}

#[test]
fn act_ignores_the_player_on_an_enemy_turn() {
    let mut s = duel();
    s.turn = 1;
    let st = act(&mut s, PlayerAction::Wait, true, &[], 3);
    assert_eq!(st, TurnSteps { advance_turn: false, check_over: false });
    assert_eq!(s.units[1].ap, 3);
    assert!(s.log.is_empty());
    let st = act(&mut s, PlayerAction::Wait, false, &[], 3);
    assert_eq!(st, TurnSteps { advance_turn: true, check_over: false });
    assert_eq!(s.units[1].ap, 0);
}

#[test]
fn act_on_a_fallen_unit_passes_the_turn() {
    let mut s = duel();
    s.units[0].dead = true;
    let st = act(&mut s, PlayerAction::Raise, true, &[], 3);
    assert_eq!(st, TurnSteps { advance_turn: true, check_over: false });
    assert!(s.log.is_empty());
    s.over = Some(true);
    let st = act(&mut s, PlayerAction::Raise, true, &[], 3);
    assert_eq!(st, TurnSteps { advance_turn: false, check_over: false });
}

#[test]
fn act_raise_once_per_turn() {
    let mut s = duel();
    s.units[0].trans = 90;
    let st = act(&mut s, PlayerAction::Raise, true, &[], 3);
    assert_eq!(st, TurnSteps { advance_turn: false, check_over: false });
    assert_eq!(s.units[0].trans, 100);
    assert!(s.units[0].raised_trans);
    assert_eq!(s.log[0].kind, "trans");
    assert_eq!(s.log[0].text, "Clare opens the bar.");
    s.units[0].trans = 10;
    act(&mut s, PlayerAction::Raise, true, &[], 3);
    assert_eq!(s.units[0].trans, 10);
    assert_eq!(s.log.len(), 1);
}

#[test]
fn act_move_pays_the_step() {
    let mut s = duel();
    s.terrain = vec![(Axial::new(2, 3), Terrain::Mud)];
    let st = act(&mut s, PlayerAction::Move(Axial::new(2, 3)), true, &[], 3);
    assert_eq!(st, TurnSteps { advance_turn: false, check_over: false });
    assert_eq!((s.units[0].origin.q, s.units[0].origin.r), (2, 3));
    assert_eq!(s.units[0].ap, 1);
    assert_eq!(s.log[0].text, "CLARE advances.");
    // The yoma's cell is taken: nothing happens.
    let st = act(&mut s, PlayerAction::Move(Axial::new(3, 2)), true, &[], 3);
    assert_eq!(st, TurnSteps { advance_turn: false, check_over: false });
    assert_eq!(s.units[0].ap, 1);
    let st = act(&mut s, PlayerAction::Move(Axial::new(1, 3)), true, &[], 3);
    assert_eq!(st, TurnSteps { advance_turn: true, check_over: false });
    assert_eq!(s.units[0].ap, 0);
    assert_eq!(s.log.len(), 2);
}

#[test]
fn act_skill_pays_guards_and_strikes() {
    let mut cut = skill("cut", ShapeKind::Single, 1, 6);
    cut.ap = 2;
    cut.yoki = 5;
    cut.trans_delta = 8;
    cut.guard = 2;
    cut.unblockable = true;
    let skills = [cut];
    let mut s = duel();
    s.units[0].skills = vec!["cut".to_string()];
    s.units[0].yoki = 3;
    let st = act(
        &mut s,
        PlayerAction::Skill { id: "cut".to_string(), hex: Axial::new(3, 2) },
        true,
        &skills,
        3,
    );
    // Not enough yoki: the skill is refused outright.
    assert_eq!(st, TurnSteps { advance_turn: false, check_over: false });
    let c = &s.units[0];
    assert_eq!((c.ap, c.yoki, c.trans), (3, 3, 0));
    assert_eq!(c.statuses.len(), 0);
    assert!(s.log.is_empty());
    s.units[0].yoki = 9;
    s.units[0].ap = 3;
    let st = act(
        &mut s,
        PlayerAction::Skill { id: "cut".to_string(), hex: Axial::new(3, 2) },
        true,
        &skills,
        3,
    );
    assert_eq!(st, TurnSteps { advance_turn: false, check_over: true });
    let c = &s.units[0];
    assert_eq!((c.ap, c.yoki, c.trans), (1, 4, 8));
    assert_eq!(c.statuses.len(), 1);
    assert_eq!((c.statuses[0].id.as_str(), c.statuses[0].guard, c.statuses[0].turns), ("guard", 2, 1));
    // Unblockable: a solid hit of 6 (stats level, so no edge).
    assert_eq!(s.units[1].hp, 4);
    assert_eq!(s.log[1].text, "CLARE uses cut.");
    assert_eq!(s.log[0].text, "CLARE hits YOMA for 6.");
}

#[test]
fn act_skill_off_target_or_unknown_does_nothing() {
    let skills = [skill("cut", ShapeKind::Single, 1, 6)];
    let mut s = duel();
    let st = act(
        &mut s,
        PlayerAction::Skill { id: "cut".to_string(), hex: Axial::new(5, 5) },
        true,
        &skills,
        3,
    );
    assert_eq!(st, TurnSteps { advance_turn: false, check_over: false });
    let st = act(
        &mut s,
        PlayerAction::Skill { id: "nope".to_string(), hex: Axial::new(3, 2) },
        true,
        &skills,
        3,
    );
    assert_eq!(st, TurnSteps { advance_turn: false, check_over: false });
    assert_eq!(s.units[0].ap, 3);
    assert!(s.log.is_empty());
}

#[test]
fn act_heal_and_ripple() {
    let mut mend = skill("mend", ShapeKind::SelfCast, 0, 0);
    mend.heal = 5;
    mend.ap = 3;
    mend.strikes = false;
    let ripple = skill("ripple", ShapeKind::Ripple, 3, 4);
    let skills = [mend, ripple];
    let mut s = duel();
    s.units[0].hp = 4;
    s.units[0].parts = vec![part("arm", 0, 10, Some("arm")), part("body", 0, 10, None)];
    s.units[0].parts[0].hp = 1;
    s.units[0].parts[1].hp = 9;
    let st = act(
        &mut s,
        PlayerAction::Skill { id: "mend".to_string(), hex: Axial::new(2, 2) },
        true,
        &skills,
        3,
    );
    assert_eq!(st, TurnSteps { advance_turn: true, check_over: true });
    assert_eq!(s.units[0].hp, 9);
    assert_eq!((s.units[0].parts[0].hp, s.units[0].parts[1].hp), (3, 10));
    assert_eq!(s.log[0].kind, "heal");
    assert_eq!(s.log[0].text, "CLARE recovers 5.");
    s.units[0].ap = 3;
    s.units[0].parts[0].zone = Some("ripple".to_string());
    let st = act(
        &mut s,
        PlayerAction::Skill { id: "ripple".to_string(), hex: Axial::new(2, 2) },
        true,
        &skills,
        3,
    );
    assert_eq!(st, TurnSteps { advance_turn: false, check_over: true });
    assert_eq!(s.zones.len(), 1);
    let z = &s.zones[0];
    assert_eq!((z.source_id.as_str(), z.radius, z.max_radius, z.power), ("clare", 1, 3, 4));
    assert_eq!(s.log[0].text, "CLARE starts a ripple.");
}

#[test]
fn ai_steps_strike_raise_chase_or_wait() {
    let clare = unit("clare", "clare", Side::Player, Axial::new(2, 2));
    let mut yoma = unit("yoma-0", "yoma", Side::Enemy, Axial::new(3, 2));
    yoma.skills = vec!["claw".into()];
    let skills = [skill("claw", ShapeKind::Single, 1, 6)];
    let mut s = state(vec![clare, yoma], vec!["clare", "yoma-0"]);
    // Clare's turn: the enemy phase has nothing to do.
    assert!(matches!(ai_step(&s, &skills, 3), AiMove::Done));
    s.turn = 1;
    match ai_step(&s, &skills, 3) {
        AiMove::Strike(st) => {
            assert_eq!((st.unit_id.as_str(), st.skill_id.as_str()), ("yoma-0", "claw"));
            assert_eq!(st.hex, Axial::new(2, 2));
        },
        other => panic!("expected a strike, got {:?}", other),
    }
    // Out of reach: it walks to the reachable cell nearest Clare.
    s.units[1].origin = Axial::new(5, 5);
    match ai_step(&s, &skills, 2) {
        AiMove::Act(PlayerAction::Move(h)) => {
            assert_eq!(hex_distance(h, Axial::new(2, 2)), 4);
            assert_eq!(hex_distance(h, Axial::new(5, 5)), 2);
        },
        other => panic!("expected a move, got {:?}", other),
    }
    // No move allowance left: it waits.
    s.units[1].ap = 0;
    assert!(matches!(ai_step(&s, &skills, 2), AiMove::Act(PlayerAction::Wait)));
    // A claw that needs transformation 20: usable once the bar is high enough.
    s.units[1].ap = 3;
    let mut heavy = skill("claw", ShapeKind::Single, 1, 6);
    heavy.trans = 20;
    s.units[1].trans = 25;
    s.units[1].origin = Axial::new(3, 2);
    assert!(matches!(ai_step(&s, &[heavy], 2), AiMove::Strike(_)));
    s.units[1].trans = 5;
    // Under that threshold it has no usable claw; already adjacent, it waits.
    assert!(matches!(ai_step(&s, &[heavy], 2), AiMove::Act(PlayerAction::Wait)));
    // No standing foe: done.
    s.units[0].dead = true;
    assert!(matches!(ai_step(&s, &skills, 2), AiMove::Done));
    s.over = Some(false);
    assert!(matches!(ai_step(&s, &skills, 2), AiMove::Done));
}

#[test]
fn act_keeps_the_gauge_between_0_and_100() {
    let mut surge = skill("surge", ShapeKind::SelfCast, 0, 0);
    surge.trans_delta = 20;
    surge.strikes = false;
    let mut calm = skill("calm", ShapeKind::SelfCast, 0, 0);
    calm.trans_delta = -20;
    calm.strikes = false;
    let skills = [surge, calm];
    let mut s = duel();
    s.units[0].trans = 95;
    act(&mut s, PlayerAction::Skill { id: "surge".to_string(), hex: Axial::new(2, 2) }, true, &skills, 3);
    assert_eq!(s.units[0].trans, 100);
    assert_eq!(s.log[0].text, "CLARE uses surge.");
    s.units[0].trans = 5;
    act(&mut s, PlayerAction::Skill { id: "calm".to_string(), hex: Axial::new(2, 2) }, true, &skills, 3);
    assert_eq!(s.units[0].trans, 0);
    act(&mut s, PlayerAction::Raise, true, &skills, 3);
    assert_eq!(s.units[0].trans, 15);
}

#[test]
fn ai_steps_to_the_first_nearest_move() {
    let clare = unit("clare", "clare", Side::Player, Axial::new(0, 5));
    let mut yoma = unit("yoma-0", "yoma", Side::Enemy, Axial::new(5, 0));
    yoma.skills = vec!["claw".into()];
    let skills = [skill("claw", ShapeKind::Single, 1, 6)];
    let s = state(vec![clare, yoma], vec!["yoma-0"]);
    let moves = legal_moves(&s, "yoma-0", 1);
    let goal = Axial::new(0, 5);
    let best = moves.iter().map(|h| hex_distance(*h, goal)).min().unwrap();
    let first = *moves.iter().find(|h| hex_distance(**h, goal) == best).unwrap();
    match ai_step(&s, &skills, 1) {
        AiMove::Act(PlayerAction::Move(h)) => assert_eq!(h, first),
        other => panic!("expected a move, got {:?}", other),
    }
}
