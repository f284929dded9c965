//! Mode machine: title, intro, island, town, hunt; and what each key press
//! decides.

use vstd::prelude::*;
use crate::audio::AudioCue;
use crate::dialog::SceneId;
use crate::hex::{has_hex, hex_eq, Axial};
use crate::combat::types::{CombatState, PlayerAction, Side, SkillDef};
use crate::combat::setup::{current_of, current_unit, area_ok, units_ok};
use crate::combat::rules::{
    find_template, find_template_index, board_ok, catalog_ok, find_skill, legal_targets, legal_targets_of, lemma_find_skill,
    skill_by_id, zone_for, zone_of,
};
use crate::combat::moves::{legal_moves, reachable};
use crate::text::str_eq;
use crate::world::WorldStatus;

verus! {

#[derive(Clone, Copy, Debug, PartialEq, Eq, Structural)]
pub enum Mode {
    Title,
    Intro,
    World,
    Town,
    Combat,
    Result,
    Codex,
    Scene,
}

/// The keys the game reacts to (every other key is `Other`).
#[derive(Clone, Copy, Debug, PartialEq, Eq, Structural)]
pub enum Key {
    Escape,
    Digit1,
    Digit2,
    Digit3,
    KeyG,
    KeyT,
    KeyQ,
    KeyE,
    Space,
    Other,
}

/// What happens to the Escape confirmation window.
#[derive(Clone, Copy, Debug, PartialEq, Eq, Structural)]
pub enum Arm {
    /// Left as it is.
    Keep,
    /// Opened for two seconds: the next Escape confirms.
    Open,
    /// Closed.
    Clear,
}

/// What happens to the dialog scene on screen.
#[derive(Clone, Copy, Debug, PartialEq, Eq, Structural)]
pub enum SceneMove {
    Stay,
    /// Its choice is taken: `true` for the affirmative one.
    Resolve(bool),
    /// Skipped to its last line.
    Skip,
    /// Moved on by one line.
    Advance,
}

/// A combat command a key issues.
#[derive(Clone, Copy, Debug, PartialEq, Eq, Structural)]
pub enum CombatCmd {
    Nothing,
    Raise,
    Wait,
}

/// Everything a key press decides; the caller performs it.
#[derive(Clone, Copy, Debug, PartialEq, Eq)]
pub struct KeyOutcome {
    /// The mode afterwards.
    pub mode: Mode,
    pub arm: Arm,
    /// Play the close sound.
    pub close_sound: bool,
    /// Play the click sound.
    pub click: bool,
    /// Switch to the island music.
    pub music_island: bool,
    /// Save before the mode changes.
    pub persist_first: bool,
    /// Save after the rest is done.
    pub persist: bool,
    /// Leave the fight: no combat, no skill selected.
    pub drop_combat: bool,
    /// Select this skill.
    pub select: Option<&'static str>,
    /// Select the skill in this bar slot.
    pub pick_slot: Option<u32>,
    pub act: CombatCmd,
    /// Quarter turns (clockwise) to add to the camera yaw.
    pub yaw_step: u8,
    /// A hint to show.
    pub hint: Option<&'static str>,
    pub scene: SceneMove,
}

/// A key press that changes nothing.
pub open spec fn idle(mode: Mode) -> KeyOutcome {
    KeyOutcome {
        mode,
        arm: Arm::Keep,
        close_sound: false,
        click: false,
        music_island: false,
        persist_first: false,
        persist: false,
        drop_combat: false,
        select: None,
        pick_slot: None,
        act: CombatCmd::Nothing,
        yaw_step: 0,
        hint: None,
        scene: SceneMove::Stay,
    }
}

/// What Escape does in each mode. In a fight the first press arms a
/// two-second window and the second flees to the island; in a scene it
/// declines a pending choice or skips to the end; town, codex and result
/// go back to the island; the island and the intro save and go to the
/// title; on the title the first press arms quitting.
pub open spec fn escape_plan(mode: Mode, armed: bool, scene: Option<bool>) -> KeyOutcome {
    let base = KeyOutcome { close_sound: true, ..idle(mode) };
    match mode {
        Mode::Combat => if armed {
            KeyOutcome {
                mode: Mode::World,
                arm: Arm::Clear,
                drop_combat: true,
                music_island: true,
                persist: true,
                ..base
            }
        } else {
            KeyOutcome { arm: Arm::Open, hint: Some("ESC AGAIN TO FLEE"), ..base }
        },
        Mode::Scene => KeyOutcome {
            persist: true,
            scene: match scene {
                Some(true) => SceneMove::Resolve(false),
                Some(false) => SceneMove::Skip,
                None => SceneMove::Stay,
            },
            ..base
        },
        Mode::Town | Mode::Codex | Mode::Result => KeyOutcome {
            mode: Mode::World,
            arm: Arm::Clear,
            music_island: true,
            persist: true,
            ..base
        },
        Mode::World | Mode::Intro => KeyOutcome {
            mode: Mode::Title,
            arm: Arm::Clear,
            persist_first: true,
            ..base
        },
        Mode::Title => KeyOutcome { arm: Arm::Open, hint: Some("ESC AGAIN TO QUIT"), ..base },
    }
}

/// What a fresh key press decides, given the mode, whether the Escape
/// window is open, and the scene on screen (`Some(at_end)`) if any. The
/// number keys and G pick skills, T raises, Q and E turn the camera and
/// Space waits, all in a fight only; Space also leaves the intro and
/// moves a scene on (taking the affirmative choice at its end).
pub open spec fn key_plan(mode: Mode, armed: bool, scene: Option<bool>, key: Key) -> KeyOutcome {
    let fight = mode == Mode::Combat;
    match key {
        Key::Escape => escape_plan(mode, armed, scene),
        Key::Digit1 => if fight {
            KeyOutcome { click: true, select: Some("cut"), ..idle(mode) }
        } else {
            idle(mode)
        },
        Key::Digit2 | Key::KeyG => if fight {
            KeyOutcome { click: true, select: Some("guard"), ..idle(mode) }
        } else {
            idle(mode)
        },
        Key::Digit3 => if fight {
            KeyOutcome { click: true, pick_slot: Some(4), ..idle(mode) }
        } else {
            idle(mode)
        },
        Key::KeyT => if fight {
            KeyOutcome { act: CombatCmd::Raise, ..idle(mode) }
        } else {
            idle(mode)
        },
        Key::KeyQ => if fight {
            KeyOutcome { click: true, yaw_step: 3, ..idle(mode) }
        } else {
            idle(mode)
        },
        Key::KeyE => if fight {
            KeyOutcome { click: true, yaw_step: 1, ..idle(mode) }
        } else {
            idle(mode)
        },
        Key::Space => if mode == Mode::Intro {
            KeyOutcome { mode: Mode::World, click: true, ..idle(mode) }
        } else if mode == Mode::Scene {
            match scene {
                Some(true) => KeyOutcome { scene: SceneMove::Resolve(true), ..idle(mode) },
                Some(false) => KeyOutcome { click: true, scene: SceneMove::Advance, ..idle(mode) },
                None => idle(mode),
            }
        } else if fight {
            KeyOutcome { act: CombatCmd::Wait, ..idle(mode) }
        } else {
            idle(mode)
        },
        Key::Other => idle(mode),
    }
}

fn idle_exec(mode: Mode) -> (o: KeyOutcome)
    ensures
        o == idle(mode),
{
    KeyOutcome {
        mode,
        arm: Arm::Keep,
        close_sound: false,
        click: false,
        music_island: false,
        persist_first: false,
        persist: false,
        drop_combat: false,
        select: None,
        pick_slot: None,
        act: CombatCmd::Nothing,
        yaw_step: 0,
        hint: None,
        scene: SceneMove::Stay,
    }
}

fn escape_exec(mode: Mode, armed: bool, scene: Option<bool>) -> (o: KeyOutcome)
    ensures
        o == escape_plan(mode, armed, scene),
{
    let base = KeyOutcome { close_sound: true, ..idle_exec(mode) };
    match mode {
        Mode::Combat => if armed {
            KeyOutcome {
                mode: Mode::World,
                arm: Arm::Clear,
                drop_combat: true,
                music_island: true,
                persist: true,
                ..base
            }
        } else {
            KeyOutcome { arm: Arm::Open, hint: Some("ESC AGAIN TO FLEE"), ..base }
        },
        Mode::Scene => KeyOutcome {
            persist: true,
            scene: match scene {
                Some(true) => SceneMove::Resolve(false),
                Some(false) => SceneMove::Skip,
                None => SceneMove::Stay,
            },
            ..base
        },
        Mode::Town | Mode::Codex | Mode::Result => KeyOutcome {
            mode: Mode::World,
            arm: Arm::Clear,
            music_island: true,
            persist: true,
            ..base
        },
        Mode::World | Mode::Intro => KeyOutcome {
            mode: Mode::Title,
            arm: Arm::Clear,
            persist_first: true,
            ..base
        },
        Mode::Title => KeyOutcome { arm: Arm::Open, hint: Some("ESC AGAIN TO QUIT"), ..base },
    }
}

/// Decides a key press. A key that is already held (`fresh == false`, a
/// key repeat) decides nothing, so repeats never re-fire Wait, skills or
/// Raise.
pub fn key_outcome(mode: Mode, armed: bool, scene: Option<bool>, key: Key, fresh: bool) -> (o:
    KeyOutcome)
    ensures
        o == if fresh {
            key_plan(mode, armed, scene, key)
        } else {
            idle(mode)
        },
{
    if !fresh {
        return idle_exec(mode);
    }
    let fight = mode == Mode::Combat;
    match key {
        Key::Escape => escape_exec(mode, armed, scene),
        Key::Digit1 => if fight {
            KeyOutcome { click: true, select: Some("cut"), ..idle_exec(mode) }
        } else {
            idle_exec(mode)
        },
        Key::Digit2 | Key::KeyG => if fight {
            KeyOutcome { click: true, select: Some("guard"), ..idle_exec(mode) }
        } else {
            idle_exec(mode)
        },
        Key::Digit3 => if fight {
            KeyOutcome { click: true, pick_slot: Some(4), ..idle_exec(mode) }
        } else {
            idle_exec(mode)
        },
        Key::KeyT => if fight {
            KeyOutcome { act: CombatCmd::Raise, ..idle_exec(mode) }
        } else {
            idle_exec(mode)
        },
        Key::KeyQ => if fight {
            KeyOutcome { click: true, yaw_step: 3, ..idle_exec(mode) }
        } else {
            idle_exec(mode)
        },
        Key::KeyE => if fight {
            KeyOutcome { click: true, yaw_step: 1, ..idle_exec(mode) }
        } else {
            idle_exec(mode)
        },
        Key::Space => if mode == Mode::Intro {
            KeyOutcome { mode: Mode::World, click: true, ..idle_exec(mode) }
        } else if mode == Mode::Scene {
            match scene {
                Some(true) => KeyOutcome { scene: SceneMove::Resolve(true), ..idle_exec(mode) },
                Some(false) => KeyOutcome {
                    click: true,
                    scene: SceneMove::Advance,
                    ..idle_exec(mode)
                },
                None => idle_exec(mode),
            }
        } else if fight {
            KeyOutcome { act: CombatCmd::Wait, ..idle_exec(mode) }
        } else {
            idle_exec(mode)
        },
        Key::Other => idle_exec(mode),
    }
}

/// Fleeing a fight takes two Escape presses: the first only opens the
/// confirmation window and keeps the fight; the second, inside the window,
/// drops the fight, goes back to the island and saves.
pub proof fn lemma_flee_needs_confirm(scene: Option<bool>)
    ensures
        key_plan(Mode::Combat, false, scene, Key::Escape).mode == Mode::Combat,
        key_plan(Mode::Combat, false, scene, Key::Escape).arm == Arm::Open,
        !key_plan(Mode::Combat, false, scene, Key::Escape).drop_combat,
        key_plan(Mode::Combat, true, scene, Key::Escape).mode == Mode::World,
        key_plan(Mode::Combat, true, scene, Key::Escape).drop_combat,
        key_plan(Mode::Combat, true, scene, Key::Escape).persist,
        key_plan(Mode::Combat, true, scene, Key::Escape).arm == Arm::Clear,
{
}

/// Combat commands, skill picks and camera turns come only from a fight.
pub proof fn lemma_fight_keys_only_in_fight(mode: Mode, armed: bool, scene: Option<bool>, key: Key)
    requires
        mode != Mode::Combat,
    ensures
        key_plan(mode, armed, scene, key).act == CombatCmd::Nothing,
        key_plan(mode, armed, scene, key).select is None,
        key_plan(mode, armed, scene, key).pick_slot is None,
        key_plan(mode, armed, scene, key).yaw_step == 0,
        !key_plan(mode, armed, scene, key).drop_combat,
{
}

/// The camera yaw after `step` clockwise quarter turns (yaw stays in 0..=3).
pub fn turn_yaw(yaw: u8, step: u8) -> (y: u8)
    requires
        yaw + step <= u8::MAX,
    ensures
        y == (yaw + step) % 4,
{
    (yaw + step) % 4
}

/// The mode a save records: the title screen is saved as the island.
pub fn saved_mode(mode: Mode) -> (m: Mode)
    ensures
        m == (if mode == Mode::Title {
            Mode::World
        } else {
            mode
        }),
{
    if mode == Mode::Title {
        Mode::World
    } else {
        mode
    }
}

/// The mode Continue resumes in: a saved fight goes straight back to
/// combat, a save made during the intro resumes on the island, anything
/// else where it was saved.
pub fn resume_mode(has_combat: bool, saved: Mode) -> (m: Mode)
    ensures
        m == (if has_combat {
            Mode::Combat
        } else if saved == Mode::Intro {
            Mode::World
        } else {
            saved
        }),
{
    if has_combat {
        Mode::Combat
    } else if saved == Mode::Intro {
        Mode::World
    } else {
        saved
    }
}

/// What clicking an island pin does.
#[derive(Clone, Copy, Debug, PartialEq, Eq, Structural)]
pub enum PinClick {
    /// A locked pin refuses.
    Refused,
    /// A dead beacon: the party arrives too late (the late result).
    TooLate,
    /// The party travels there: Raki catches up when he had been turned
    /// away and is not with the party; Doga's first visit opens its scene,
    /// anywhere else the town.
    Travel { raki_follows: bool, doga_scene: bool },
}

/// The outcome of clicking the pin `loc_id` whose status is `status`
/// (`doga_talked` and `doga_status` describe Doga, `raki_refused` and
/// `raki` the boy).
pub open spec fn pin_plan(
    loc_id: Seq<char>,
    status: Option<WorldStatus>,
    doga_talked: bool,
    doga_status: Option<WorldStatus>,
    raki_refused: bool,
    raki: bool,
) -> PinClick {
    if status == Some(WorldStatus::Locked) {
        PinClick::Refused
    } else if status == Some(WorldStatus::Dead) {
        PinClick::TooLate
    } else {
        PinClick::Travel {
            raki_follows: raki_refused && !raki,
            doga_scene: loc_id == "doga"@ && !doga_talked && doga_status != Some(
                WorldStatus::Cleared,
            ),
        }
    }
}

pub fn pin_click(
    loc_id: &str,
    status: Option<WorldStatus>,
    doga_talked: bool,
    doga_status: Option<WorldStatus>,
    raki_refused: bool,
    raki: bool,
) -> (p: PinClick)
    ensures
        p == pin_plan(loc_id@, status, doga_talked, doga_status, raki_refused, raki),
{
    if status == Some(WorldStatus::Locked) {
        return PinClick::Refused;
    }
    if status == Some(WorldStatus::Dead) {
        return PinClick::TooLate;
    }
    let not_cleared = match doga_status {
        Some(s) => s != WorldStatus::Cleared,
        None => true,
    };
    PinClick::Travel {
        raki_follows: raki_refused && !raki,
        doga_scene: str_eq(loc_id, "doga") && !doga_talked && not_cleared,
    }
}

/// The hunt a town's Hunt button starts: the town's own, unless its
/// location is cleared, locked or dead (then nothing, and an error sound).
pub fn town_hunt(encounter: Option<&'static str>, status: Option<WorldStatus>) -> (h: Option<
    &'static str,
>)
    ensures
        h == (match status {
            Some(WorldStatus::Cleared) | Some(WorldStatus::Locked) | Some(WorldStatus::Dead) => None,
            _ => encounter,
        }),
{
    match status {
        Some(WorldStatus::Cleared) | Some(WorldStatus::Locked) | Some(WorldStatus::Dead) => None,
        _ => encounter,
    }
}

/// Starting a hunt first plays Ophelia's introduction: the Gonal ripple
/// hunt, until she has spoken.
pub fn needs_ophelia_intro(encounter_id: &str, ophelia_spoken: bool) -> (b: bool)
    ensures
        b == (encounter_id@ == "gonal-ripple"@ && !ophelia_spoken),
{
    str_eq(encounter_id, "gonal-ripple") && !ophelia_spoken
}

/// Where dismissing a result goes: the waiting scene, else the island.
pub fn after_result(has_scene: bool) -> (m: Mode)
    ensures
        m == (if has_scene {
            Mode::Scene
        } else {
            Mode::World
        }),
{
    if has_scene {
        Mode::Scene
    } else {
        Mode::World
    }
}

/// What a click on an open scene does.
#[derive(Clone, Copy, Debug, PartialEq, Eq, Structural)]
pub enum SceneClick {
    /// Nothing.
    Ignore,
    /// Show the next line.
    Advance,
    /// Take the yes (`true`) or no choice.
    Resolve(bool),
}

/// The click on a scene: before its end it advances; at the end, with two
/// or more choices only the yes and no buttons answer; with one choice
/// the yes button or a click low on the screen takes it; with none, a low
/// click closes it as yes.
pub open spec fn scene_click_plan(at_end: bool, choices: nat, on_yes: bool, on_no: bool, low: bool) -> SceneClick {
    if !at_end {
        SceneClick::Advance
    } else if choices >= 2 {
        if on_yes {
            SceneClick::Resolve(true)
        } else if on_no {
            SceneClick::Resolve(false)
        } else {
            SceneClick::Ignore
        }
    } else if (choices == 1 && on_yes) || low {
        SceneClick::Resolve(true)
    } else {
        SceneClick::Ignore
    }
}

pub fn scene_click(at_end: bool, choices: usize, on_yes: bool, on_no: bool, low: bool) -> (c: SceneClick)
    ensures
        c == scene_click_plan(at_end, choices as nat, on_yes, on_no, low),
{
    if !at_end {
        return SceneClick::Advance;
    }
    if choices >= 2 {
        if on_yes {
            return SceneClick::Resolve(true);
        }
        if on_no {
            return SceneClick::Resolve(false);
        }
        return SceneClick::Ignore;
    }
    if choices == 1 && on_yes {
        return SceneClick::Resolve(true);
    }
    if low {
        SceneClick::Resolve(true)
    } else {
        SceneClick::Ignore
    }
}

/// What taking a scene's choice decides; the caller applies it to the
/// world and saves.
#[derive(Clone, Copy, Debug, PartialEq, Eq)]
pub struct SceneOutcome {
    /// The mode afterwards (unless a pending fight starts).
    pub mode: Mode,
    /// Raki travels with the party from now on.
    pub raki: bool,
    /// A world flag to set.
    pub flag: Option<&'static str>,
    /// Warriors who join the party (each once).
    pub recruits: &'static [&'static str],
    pub cue: AudioCue,
    /// Start the pending encounter, if there is one.
    pub start_pending: bool,
}

/// What each scene's choice decides: Raki joins or is refused, Miria and
/// Helen or Deneve join (or not), Ophelia's words lead into the pending
/// fight, and the Doga elder's talks are marked and lead back to town.
pub open spec fn scene_plan(id: SceneId, yes: bool) -> SceneOutcome {
    let base = SceneOutcome {
        mode: Mode::World,
        raki: false,
        flag: None,
        recruits: &[],
        cue: AudioCue::Sfx("close"),
        start_pending: false,
    };
    match id {
        SceneId::RakiJoin => if yes {
            SceneOutcome { raki: true, cue: AudioCue::Sfx("confirm"), ..base }
        } else {
            SceneOutcome { flag: Some("raki-refused"), ..base }
        },
        SceneId::RecruitPaburo => if yes {
            SceneOutcome { recruits: &["miria", "helen"], cue: AudioCue::Sfx("confirm"), ..base }
        } else {
            base
        },
        SceneId::RecruitPieta => if yes {
            SceneOutcome { recruits: &["deneve"], cue: AudioCue::Sfx("confirm"), ..base }
        } else {
            base
        },
        SceneId::OpheliaIntro => SceneOutcome {
            flag: Some("ophelia-spoken"),
            cue: AudioCue::Sfx("draw"),
            start_pending: true,
            ..base
        },
        SceneId::TownDoga => SceneOutcome {
            mode: Mode::Town,
            flag: Some("doga-talked"),
            cue: AudioCue::Sfx("ui-click"),
            ..base
        },
        SceneId::TownDogaLate => SceneOutcome {
            mode: Mode::Town,
            flag: Some("doga-late-talked"),
            cue: AudioCue::Sfx("ui-click"),
            ..base
        },
    }
}

pub fn scene_outcome(id: SceneId, yes: bool) -> (o: SceneOutcome)
    ensures
        o == scene_plan(id, yes),
{
    let base = SceneOutcome {
        mode: Mode::World,
        raki: false,
        flag: None,
        recruits: &[],
        cue: AudioCue::Sfx("close"),
        start_pending: false,
    };
    match id {
        SceneId::RakiJoin => if yes {
            SceneOutcome { raki: true, cue: AudioCue::Sfx("confirm"), ..base }
        } else {
            SceneOutcome { flag: Some("raki-refused"), ..base }
        },
        SceneId::RecruitPaburo => if yes {
            SceneOutcome { recruits: &["miria", "helen"], cue: AudioCue::Sfx("confirm"), ..base }
        } else {
            base
        },
        SceneId::RecruitPieta => if yes {
            SceneOutcome { recruits: &["deneve"], cue: AudioCue::Sfx("confirm"), ..base }
        } else {
            base
        },
        SceneId::OpheliaIntro => SceneOutcome {
            flag: Some("ophelia-spoken"),
            cue: AudioCue::Sfx("draw"),
            start_pending: true,
            ..base
        },
        SceneId::TownDoga => SceneOutcome {
            mode: Mode::Town,
            flag: Some("doga-talked"),
            cue: AudioCue::Sfx("ui-click"),
            ..base
        },
        SceneId::TownDogaLate => SceneOutcome {
            mode: Mode::Town,
            flag: Some("doga-late-talked"),
            cue: AudioCue::Sfx("ui-click"),
            ..base
        },
    }
}

/// `party` with each of `ids` appended, in order, unless already there.
pub open spec fn with_members(party: Seq<Seq<char>>, ids: Seq<Seq<char>>) -> Seq<Seq<char>>
    decreases ids.len(),
{
    if ids.len() == 0 {
        party
    } else {
        let p = with_members(party, ids.drop_last());
        if p.contains(ids.last()) {
            p
        } else {
            p.push(ids.last())
        }
    }
}

/// The recruit scenes recruit: saying yes after Paburo brings Miria and
/// Helen, after Pieta brings Deneve; saying no, or any other scene,
/// recruits nobody. Raki joins exactly on a yes to his scene.
pub proof fn lemma_scene_recruits(id: SceneId, yes: bool)
    ensures
        (id == SceneId::RecruitPaburo && yes) ==> scene_plan(id, yes).recruits@.len() == 2
            && scene_plan(id, yes).recruits@[0]@ == "miria"@ && scene_plan(id, yes).recruits@[1]@
            == "helen"@,
        (id == SceneId::RecruitPieta && yes) ==> scene_plan(id, yes).recruits@.len() == 1
            && scene_plan(id, yes).recruits@[0]@ == "deneve"@,
        !((id == SceneId::RecruitPaburo || id == SceneId::RecruitPieta) && yes) ==> scene_plan(
            id,
            yes,
        ).recruits@.len() == 0,
        scene_plan(id, yes).raki <==> (id == SceneId::RakiJoin && yes),
{
}

/// Adds each of `ids` to the party, in order, unless already there.
pub fn add_members(party: &mut Vec<String>, ids: &[&str])
    ensures
        final(party)@.map_values(|p: String| p@) == with_members(
            old(party)@.map_values(|p: String| p@),
            ids@.map_values(|i: &str| i@),
        ),
{
    let ghost p0 = party@.map_values(|p: String| p@);
    let ghost iv = ids@.map_values(|i: &str| i@);
    let mut k: usize = 0;
    while k < ids.len()
        invariant
            0 <= k <= ids@.len(),
            iv == ids@.map_values(|i: &str| i@),
            party@.map_values(|p: String| p@) == with_members(p0, iv.take(k as int)),
        decreases ids.len() - k,
    {
        let id = ids[k];
        let ghost pv = party@.map_values(|p: String| p@);
        let mut there = false;
        let mut j: usize = 0;
        while j < party.len()
            invariant
                0 <= j <= party@.len(),
                pv == party@.map_values(|p: String| p@),
                there == exists|x: int| 0 <= x < j && party@[x]@ == id@,
            decreases party.len() - j,
        {
            if str_eq(party[j].as_str(), id) {
                there = true;
            }
            j = j + 1;
        }
        proof {
            assert(iv.take(k + 1).drop_last() == iv.take(k as int));
            assert(iv.take(k + 1).last() == id@);
            if there {
                let x = choose|x: int| 0 <= x < j && party@[x]@ == id@;
                assert(pv[x] == id@);
            } else {
                assert forall|x: int| 0 <= x < pv.len() implies pv[x] != id@ by {
                    assert(pv[x] == party@[x]@);
                }
            }
        }
        if !there {
            party.push(id.to_owned());
            proof {
                assert(party@.map_values(|p: String| p@) =~= pv.push(id@));
            }
        }
        k = k + 1;
    }
    proof {
        assert(iv.take(ids@.len() as int) == iv);
    }
}

/// The skill in bar slot `nth` of the unit whose turn it is, if any.
pub open spec fn slot_of(combat: CombatState, nth: int) -> Option<Seq<char>> {
    match current_of(combat) {
        Some(u) => if 0 <= nth < u.skills@.len() {
            Some(u.skills@[nth]@)
        } else {
            None
        },
        None => None,
    }
}

/// The skill in bar slot `nth` of the unit whose turn it is; `None` (the
/// error sound) when there is no such slot.
pub fn slot_skill(combat: &CombatState, nth: usize) -> (s: Option<&str>)
    ensures
        s matches Some(x) ==> slot_of(*combat, nth as int) == Some(x@),
        s is None ==> slot_of(*combat, nth as int) is None,
{
    match current_unit(combat) {
        Some(u) => if nth < u.skills.len() {
            Some(u.skills[nth].as_str())
        } else {
            None
        },
        None => None,
    }
}

/// What `preview_zone` shows, as a property of its result.
pub open spec fn preview_of(
    combat: CombatState,
    selected: Option<&str>,
    hover: Option<Axial>,
    skills: Seq<SkillDef>,
    allowance: i32,
    out: Seq<Axial>,
) -> bool {
    match current_of(combat) {
        None => out.len() == 0,
        Some(u) => if u.side != Side::Player {
            out.len() == 0
        } else {
            match selected {
                Some(id) => match (hover, find_skill(skills, id@)) {
                    (Some(h), Some(j)) => out == zone_of(
                        combat.cols as int,
                        combat.rows as int,
                        u,
                        skills[j],
                        h,
                    ),
                    _ => out == legal_targets_of(combat, u.id@, id@, skills),
                },
                None => if u.dead {
                    out.len() == 0
                } else {
                    forall|h: Axial| #[trigger] out.contains(h) <==> reachable(combat, u, allowance, h)
                },
            }
        },
    }
}

/// What the board highlights on a player's turn: the zone of the selected
/// skill aimed at the hovered cell, else where it can be aimed, else
/// (no skill selected) where the unit can walk; nothing off the player's
/// turn.
pub fn preview_zone(
    combat: &CombatState,
    selected: Option<&str>,
    hover: Option<Axial>,
    skills: &[SkillDef],
    allowance: i32,
) -> (out: Vec<Axial>)
    requires
        board_ok(*combat),
        catalog_ok(skills@),
        hover matches Some(h) ==> area_ok(h),
    ensures
        preview_of(*combat, selected, hover, skills@, allowance, out@),
{
    let u = match current_unit(combat) {
        Some(u) => u,
        None => return Vec::new(),
    };
    if u.side != Side::Player {
        return Vec::new();
    }
    proof {
        crate::combat::setup::lemma_find_unit(
            combat.units@,
            combat.order@[combat.turn as int]@,
        );
        let k = crate::combat::setup::find_unit(combat.units@, combat.order@[combat.turn as int]@)->0;
        assert(crate::combat::setup::unit_ok(combat.units@[k]));
    }
    match selected {
        Some(skill_id) => {
            match hover {
                Some(h) => {
                    proof {
                        lemma_find_skill(skills@, skill_id@);
                    }
                    match skill_by_id(skills, skill_id) {
                        Some(skill) => {
                            return zone_for(combat, u, skill, h);
                        },
                        None => {},
                    }
                },
                None => {},
            }
            legal_targets(combat, u.id.as_str(), skill_id, skills)
        },
        None => {
            let out = legal_moves(combat, u.id.as_str(), allowance);
            proof {
                crate::combat::setup::lemma_find_unit(combat.units@, u.id@);
            }
            out
        },
    }
}

/// The fielded boy (the first unit built from Raki's template) fell.
pub open spec fn raki_fell_in(combat: CombatState) -> bool {
    match find_template(combat.units@, "raki"@) {
        Some(k) => combat.units@[k].dead,
        None => false,
    }
}

pub fn raki_fell(combat: &CombatState) -> (b: bool)
    ensures
        b == raki_fell_in(*combat),
{
    match find_template_index(&combat.units, "raki") {
        Some(k) => combat.units[k].dead,
        None => false,
    }
}

/// Somebody in the party is named one of `ids`.
pub open spec fn has_any(party: Seq<Seq<char>>, ids: Seq<Seq<char>>) -> bool {
    exists|i: int, j: int| 0 <= i < party.len() && 0 <= j < ids.len() && party[i] == ids[j]
}

/// The scene that follows a won hunt: Raki asks to come along after the
/// Doga yoma (unless he already travels with the party or fell), Miria and
/// Helen after the Paburo nest (unless either already joined), Deneve
/// after the Pieta worm (unless she already joined).
pub open spec fn followup_of(id: Seq<char>, raki: bool, fell: bool, party: Seq<Seq<char>>) -> Option<
    SceneId,
> {
    if id == "doga-yoma"@ && !raki && !fell {
        Some(SceneId::RakiJoin)
    } else if id == "paburo-nest"@ && !has_any(party, seq!["miria"@, "helen"@]) {
        Some(SceneId::RecruitPaburo)
    } else if id == "pieta-worm"@ && !has_any(party, seq!["deneve"@]) {
        Some(SceneId::RecruitPieta)
    } else {
        None
    }
}

fn in_party(party: &Vec<String>, id: &str) -> (b: bool)
    ensures
        b == exists|i: int| 0 <= i < party@.len() && party@[i]@ == id@,
{
    let mut i: usize = 0;
    while i < party.len()
        invariant
            0 <= i <= party@.len(),
            forall|j: int| 0 <= j < i ==> party@[j]@ != id@,
        decreases party.len() - i,
    {
        if str_eq(party[i].as_str(), id) {
            return true;
        }
        i = i + 1;
    }
    false
}

pub fn followup_scene(id: &str, raki: bool, fell: bool, party: &Vec<String>) -> (s: Option<SceneId>)
    ensures
        s == followup_of(id@, raki, fell, party@.map_values(|p: String| p@)),
{
    let ghost pv = party@.map_values(|p: String| p@);
    proof {
        reveal_strlit("miria");
        reveal_strlit("helen");
        reveal_strlit("deneve");
        reveal_strlit("doga-yoma");
        reveal_strlit("paburo-nest");
        reveal_strlit("pieta-worm");
        assert("doga-yoma"@[0] == 'd' && "paburo-nest"@[0] == 'p' && "pieta-worm"@[1] == 'i');
        assert("paburo-nest"@[1] == 'a');
        assert("doga-yoma"@ != "paburo-nest"@ && "doga-yoma"@ != "pieta-worm"@
            && "paburo-nest"@ != "pieta-worm"@);
    }
    if str_eq(id, "doga-yoma") && !raki && !fell {
        return Some(SceneId::RakiJoin);
    }
    if str_eq(id, "paburo-nest") {
        let m = in_party(party, "miria");
        let h = in_party(party, "helen");
        proof {
            let ids = seq!["miria"@, "helen"@];
            if has_any(pv, ids) {
                let (i, j) = choose|i: int, j: int|
                    0 <= i < pv.len() && 0 <= j < ids.len() && pv[i] == ids[j];
                assert(party@[i]@ == pv[i]);
                if j == 0 {
                    assert(m);
                } else {
                    assert(h);
                }
            }
            if m {
                let i = choose|i: int| 0 <= i < party@.len() && party@[i]@ == "miria"@;
                assert(pv[i] == ids[0]);
                assert(has_any(pv, ids));
            }
            if h {
                let i = choose|i: int| 0 <= i < party@.len() && party@[i]@ == "helen"@;
                assert(pv[i] == ids[1]);
                assert(has_any(pv, ids));
            }
        }
        if !(m || h) {
            return Some(SceneId::RecruitPaburo);
        }
        return None;
    }
    if str_eq(id, "pieta-worm") {
        let d = in_party(party, "deneve");
        proof {
            let ids = seq!["deneve"@];
            if has_any(pv, ids) {
                let (i, j) = choose|i: int, j: int|
                    0 <= i < pv.len() && 0 <= j < ids.len() && pv[i] == ids[j];
                assert(party@[i]@ == pv[i]);
            }
            if d {
                let i = choose|i: int| 0 <= i < party@.len() && party@[i]@ == "deneve"@;
                assert(pv[i] == ids[0]);
                assert(has_any(pv, ids));
            }
        }
        if !d {
            return Some(SceneId::RecruitPieta);
        }
        return None;
    }
    None
}

/// What happens to the selected skill.
#[derive(Clone, Copy, Debug, PartialEq, Eq, Structural)]
pub enum Selection {
    Keep,
    Clear,
    /// Cut becomes the selected skill.
    Cut,
}

/// What a click on a board cell decides during a fight.
#[derive(Clone, Debug)]
pub struct BoardClick {
    /// The action the current unit takes.
    pub act: Option<PlayerAction>,
    pub select: Selection,
    /// Play the error sound.
    pub error: bool,
}

/// `a` is `Some(Skill { id, hex })`.
pub open spec fn skill_act(a: Option<PlayerAction>, id: Seq<char>, hex: Axial) -> bool {
    a matches Some(PlayerAction::Skill { id: i, hex: h }) && i@ == id && h == hex
}

/// What a click on `hex` decides on the player's turn: with a skill
/// selected, fire it there when it is a legal target (clearing the
/// selection) or sound an error; with none, walk there when the unit can,
/// else select Cut and swing it there when that is a legal target. Off the
/// player's turn a click does nothing.
pub open spec fn board_click_ok(
    combat: CombatState,
    selected: Option<&str>,
    hex: Axial,
    skills: Seq<SkillDef>,
    allowance: i32,
    c: BoardClick,
) -> bool {
    match current_of(combat) {
        None => c.act is None && c.select == Selection::Keep && !c.error,
        Some(u) => if u.side != Side::Player {
            c.act is None && c.select == Selection::Keep && !c.error
        } else {
            match selected {
                Some(id) => if legal_targets_of(combat, u.id@, id@, skills).contains(hex) {
                    skill_act(c.act, id@, hex) && c.select == Selection::Clear && !c.error
                } else {
                    c.act is None && c.select == Selection::Keep && c.error
                },
                None => if !u.dead && reachable(combat, u, allowance, hex) {
                    c.act == Some(PlayerAction::Move(hex)) && c.select == Selection::Keep && !c.error
                } else if legal_targets_of(combat, u.id@, "cut"@, skills).contains(hex) {
                    skill_act(c.act, "cut"@, hex) && c.select == Selection::Clear && !c.error
                } else {
                    c.act is None && c.select == Selection::Cut && !c.error
                },
            }
        },
    }
}

/// Decides a click on board cell `hex` during a fight.
pub fn board_click(
    combat: &CombatState,
    selected: Option<&str>,
    hex: Axial,
    skills: &[SkillDef],
    allowance: i32,
) -> (c: BoardClick)
    requires
        board_ok(*combat),
        catalog_ok(skills@),
    ensures
        board_click_ok(*combat, selected, hex, skills@, allowance, c),
{
    let nothing = BoardClick { act: None, select: Selection::Keep, error: false };
    let u = match current_unit(combat) {
        Some(u) => u,
        None => return nothing,
    };
    if u.side != Side::Player {
        return nothing;
    }
    proof {
        crate::combat::setup::lemma_find_unit(
            combat.units@,
            combat.order@[combat.turn as int]@,
        );
        crate::combat::setup::lemma_find_unit(combat.units@, u.id@);
    }
    match selected {
        Some(skill_id) => {
            let targets = legal_targets(combat, u.id.as_str(), skill_id, skills);
            if has_hex(&targets, hex) {
                BoardClick {
                    act: Some(PlayerAction::Skill { id: skill_id.to_owned(), hex }),
                    select: Selection::Clear,
                    error: false,
                }
            } else {
                BoardClick { act: None, select: Selection::Keep, error: true }
            }
        },
        None => {
            let moves = legal_moves(combat, u.id.as_str(), allowance);
            if has_hex(&moves, hex) {
                BoardClick { act: Some(PlayerAction::Move(hex)), select: Selection::Keep, error: false }
            } else {
                let targets = legal_targets(combat, u.id.as_str(), "cut", skills);
                if has_hex(&targets, hex) {
                    BoardClick {
                        act: Some(PlayerAction::Skill { id: "cut".to_owned(), hex }),
                        select: Selection::Clear,
                        error: false,
                    }
                } else {
                    BoardClick { act: None, select: Selection::Cut, error: false }
                }
            }
        },
    }
}

} // verus!
