//! Presentation decisions for the hunt: which archive mesh a unit wears,
//! which body clip and sound an action plays, and what changed on the board
//! after an action.

use vstd::prelude::*;
use crate::hex::Axial;
use crate::combat::types::{CombatLog, PlayerAction, Side, Unit};
use crate::combat::setup::{core_hex, core_of, unit_ok};
use crate::text::{contains_text, occurs, occurs_at, str_eq};
use vstd::string::StringExecFns;

verus! {

/// The two archive meshes units can wear.
#[derive(Clone, Copy, Debug, PartialEq, Eq, Structural)]
pub enum ArchiveKind {
    Vika,
    Valefor,
}

/// Which archive mesh (if any) a unit template wears: the warriors wear
/// Vika, the yoma, Ophelia and the worm wear Valefor, the boy keeps his
/// procedural body, and anyone else wears the one of their side.
pub open spec fn archive_of(template_id: Seq<char>, side: Side) -> Option<ArchiveKind> {
    if template_id == "clare"@ || template_id == "miria"@ || template_id == "helen"@
        || template_id == "deneve"@ {
        Some(ArchiveKind::Vika)
    } else if template_id == "yoma"@ || template_id == "yoma_stretch"@ {
        Some(ArchiveKind::Valefor)
    } else if template_id == "raki"@ {
        None
    } else if template_id == "ophelia"@ || template_id == "worm"@ {
        Some(ArchiveKind::Valefor)
    } else {
        match side {
            Side::Player => Some(ArchiveKind::Vika),
            Side::Enemy => Some(ArchiveKind::Valefor),
        }
    }
}

pub fn archive_kind_for(template_id: &str, side: Side) -> (k: Option<ArchiveKind>)
    ensures
        k == archive_of(template_id@, side),
{
    if str_eq(template_id, "clare") || str_eq(template_id, "miria") || str_eq(template_id, "helen")
        || str_eq(template_id, "deneve") {
        Some(ArchiveKind::Vika)
    } else if str_eq(template_id, "yoma") || str_eq(template_id, "yoma_stretch") {
        Some(ArchiveKind::Valefor)
    } else if str_eq(template_id, "raki") {
        None
    } else if str_eq(template_id, "ophelia") || str_eq(template_id, "worm") {
        Some(ArchiveKind::Valefor)
    } else {
        match side {
            Side::Player => Some(ArchiveKind::Vika),
            Side::Enemy => Some(ArchiveKind::Valefor),
        }
    }
}

/// Short combat body clips.
#[derive(Clone, Copy, Debug, PartialEq, Eq, Structural)]
pub enum FightClip {
    Idle,
    Ready,
    Slash,
    Lunge,
    Guard,
    Raise,
    Hurt,
}

/// The action is the guard skill.
pub open spec fn is_guard(action: PlayerAction) -> bool {
    action matches PlayerAction::Skill { id, .. } && id@ == "guard"@
}

/// The sound an action plays.
pub open spec fn sound_of(action: PlayerAction) -> Seq<char> {
    match action {
        PlayerAction::Move(_) => "step"@,
        PlayerAction::Raise => "raise"@,
        PlayerAction::Wait => "cloth"@,
        PlayerAction::Skill { .. } => if is_guard(action) {
            "block"@
        } else {
            "slash"@
        },
    }
}

/// The body clip the actor plays.
pub open spec fn clip_of(action: PlayerAction) -> FightClip {
    match action {
        PlayerAction::Move(_) => FightClip::Lunge,
        PlayerAction::Raise => FightClip::Raise,
        PlayerAction::Wait => FightClip::Ready,
        PlayerAction::Skill { .. } => if is_guard(action) {
            FightClip::Guard
        } else {
            FightClip::Slash
        },
    }
}

fn guard_skill(action: &PlayerAction) -> (b: bool)
    ensures
        b == is_guard(*action),
{
    match action {
        PlayerAction::Skill { id, .. } => str_eq(id.as_str(), "guard"),
        _ => false,
    }
}

pub fn action_sound(action: &PlayerAction) -> (s: &'static str)
    ensures
        s@ == sound_of(*action),
{
    let g = guard_skill(action);
    match action {
        PlayerAction::Move(_) => "step",
        PlayerAction::Raise => "raise",
        PlayerAction::Wait => "cloth",
        PlayerAction::Skill { .. } => if g {
            "block"
        } else {
            "slash"
        },
    }
}

pub fn action_clip(action: &PlayerAction) -> (c: FightClip)
    ensures
        c == clip_of(*action),
{
    let g = guard_skill(action);
    match action {
        PlayerAction::Move(_) => FightClip::Lunge,
        PlayerAction::Raise => FightClip::Raise,
        PlayerAction::Wait => FightClip::Ready,
        PlayerAction::Skill { .. } => if g {
            FightClip::Guard
        } else {
            FightClip::Slash
        },
    }
}

/// What a unit looked like before an action: id, hit points, fallen,
/// origin, trans, yoki.
pub type Before = (String, i32, bool, Axial, i32, i32);

/// What happened to a unit during an action.
#[derive(Clone, Debug)]
pub struct ActEvent {
    pub id: String,
    pub hex: Axial,
    /// Hit points lost.
    pub dmg: i32,
    /// `"death"` when it fell during the action, else `"hit"`.
    pub kind: &'static str,
    pub moved: bool,
    /// Trans rose by more than 4.
    pub trans_up: bool,
    /// Hit points gained.
    pub heal: i32,
}

/// Index of the first record for unit `id`.
pub open spec fn record_of(before: Seq<Before>, id: Seq<char>) -> Option<int>
    decreases before.len(),
{
    if before.len() == 0 {
        None
    } else if before[0].0@ == id {
        Some(0)
    } else {
        match record_of(before.drop_first(), id) {
            Some(k) => Some(k + 1),
            None => None,
        }
    }
}

proof fn lemma_record_of(before: Seq<Before>, id: Seq<char>)
    ensures
        record_of(before, id) matches Some(k) ==> 0 <= k < before.len() && before[k].0@ == id,
        record_of(before, id) is None ==> forall|j: int|
            0 <= j < before.len() ==> (#[trigger] before[j]).0@ != id,
    decreases before.len(),
{
    if before.len() > 0 {
        lemma_record_of(before.drop_first(), id);
        assert forall|j: int| 1 <= j < before.len() implies before[j] == before.drop_first()[j - 1] by {}
    }
}

/// The event of unit `u` measured against its record `b`.
pub open spec fn event_matches(e: ActEvent, u: Unit, b: Before) -> bool {
    &&& e.id@ == u.id@
    &&& e.hex == core_of(u)
    &&& e.dmg == (if b.1 - u.hp > 0 {
        b.1 - u.hp
    } else {
        0
    })
    &&& e.kind@ == (if u.dead && !b.2 {
        "death"@
    } else {
        "hit"@
    })
    &&& e.moved == (u.origin.q != b.3.q || u.origin.r != b.3.r)
    &&& e.trans_up == (u.trans > b.4 + 4)
    &&& e.heal == (if u.hp - b.1 > 0 {
        u.hp - b.1
    } else {
        0
    })
}

/// The units that have a record, in order.
pub open spec fn recorded(units: Seq<Unit>, before: Seq<Before>) -> Seq<int> {
    Seq::new(units.len(), |i: int| i).filter(|i: int| record_of(before, units[i].id@) is Some)
}

/// The records and units whose differences fit an `i32`.
pub open spec fn events_fit(units: Seq<Unit>, before: Seq<Before>) -> bool {
    forall|i: int|
        0 <= i < units.len() ==> match record_of(before, (#[trigger] units[i]).id@) {
            Some(k) => crate::hex::fits(before[k].1 - units[i].hp) && crate::hex::fits(
                units[i].hp - before[k].1,
            ) && crate::hex::fits(before[k].4 + 4),
            None => true,
        }
}

/// For every unit (in order) that has a record in `before` (the first one
/// with its id), what changed: hit points lost or gained, whether it fell,
/// moved, or raised its trans by more than 4.
pub fn act_events(before: &[Before], units: &[Unit]) -> (out: Vec<ActEvent>)
    requires
        forall|i: int| 0 <= i < units@.len() ==> unit_ok(#[trigger] units@[i]),
        events_fit(units@, before@),
    ensures
        out@.len() == recorded(units@, before@).len(),
        forall|j: int|
            0 <= j < out@.len() ==> {
                let i = recorded(units@, before@)[j];
                let k = record_of(before@, units@[i].id@)->0;
                event_matches(#[trigger] out@[j], units@[i], before@[k])
            },
{
    let ghost all = Seq::new(units@.len(), |i: int| i);
    let ghost pred = |i: int| record_of(before@, units@[i].id@) is Some;
    let mut out: Vec<ActEvent> = Vec::new();
    let mut i: usize = 0;
    while i < units.len()
        invariant
            0 <= i <= units@.len(),
            forall|x: int| 0 <= x < units@.len() ==> unit_ok(#[trigger] units@[x]),
            events_fit(units@, before@),
            all == Seq::new(units@.len(), |i: int| i),
            pred == (|i: int| record_of(before@, units@[i].id@) is Some),
            out@.len() == all.take(i as int).filter(pred).len(),
            forall|j: int|
                0 <= j < out@.len() ==> {
                    let ii = all.take(i as int).filter(pred)[j];
                    let k = record_of(before@, units@[ii].id@)->0;
                    event_matches(#[trigger] out@[j], units@[ii], before@[k])
                },
        decreases units.len() - i,
    {
        let u = &units[i];
        proof {
            lemma_record_of(before@, u.id@);
            reveal(Seq::filter);
            assert(all.take(i + 1).drop_last() == all.take(i as int));
            assert(all.take(i + 1).last() == i as int);
        }
        let ghost f0 = all.take(i as int).filter(pred);
        let found_at = record_index(before, u.id.as_str());
        if let Some(k) = found_at {
            proof {
                assert(pred(i as int));
                assert(all.take(i + 1).filter(pred) == f0.push(i as int));
            }
            let b = &before[k];
            assert(unit_ok(units@[i as int]));
            let dmg = if b.1 - u.hp > 0 {
                b.1 - u.hp
            } else {
                0
            };
            let heal = if b.1 - u.hp < 0 {
                u.hp - b.1
            } else {
                0
            };
            let e = ActEvent {
                id: u.id.clone(),
                hex: core_hex(u),
                dmg,
                kind: if u.dead && !b.2 {
                    "death"
                } else {
                    "hit"
                },
                moved: u.origin.q != b.3.q || u.origin.r != b.3.r,
                trans_up: u.trans > b.4 + 4,
                heal,
            };
            let ghost o0 = out@;
            out.push(e);
            proof {
                assert forall|j: int| 0 <= j < out@.len() implies {
                    let ii = all.take(i + 1).filter(pred)[j];
                    let kk = record_of(before@, units@[ii].id@)->0;
                    event_matches(#[trigger] out@[j], units@[ii], before@[kk])
                } by {
                    if j < o0.len() {
                        assert(out@[j] == o0[j]);
                        assert(all.take(i + 1).filter(pred)[j] == f0[j]);
                    }
                }
            }
        } else {
            proof {
                assert(all.take(i + 1).filter(pred) == f0);
            }
        }
        i = i + 1;
    }
    proof {
        assert(all.take(units@.len() as int) == all);
    }
    out
}

fn record_index(before: &[Before], id: &str) -> (k: Option<usize>)
    ensures
        k matches Some(i) ==> record_of(before@, id@) == Some(i as int) && i < before@.len(),
        k is None ==> record_of(before@, id@) is None,
{
    proof {
        lemma_record_of(before@, id@);
    }
    let mut k: usize = 0;
    while k < before.len()
        invariant
            0 <= k <= before@.len(),
            forall|j: int| 0 <= j < k ==> (#[trigger] before@[j]).0@ != id@,
            record_of(before@, id@) matches Some(r) ==> 0 <= r < before@.len() && before@[r].0@ == id@,
        decreases before.len() - k,
    {
        if str_eq(before[k].0.as_str(), id) {
            proof {
                lemma_record_first(before@, id@, k as int);
            }
            return Some(k);
        }
        k = k + 1;
    }
    None
}

proof fn lemma_record_first(before: Seq<Before>, id: Seq<char>, k: int)
    requires
        0 <= k < before.len(),
        before[k].0@ == id,
        forall|j: int| 0 <= j < k ==> (#[trigger] before[j]).0@ != id,
    ensures
        record_of(before, id) == Some(k),
    decreases k,
{
    if k > 0 {
        assert forall|j: int| 0 <= j < k - 1 implies (#[trigger] before.drop_first()[j]).0@ != id by {
            assert(before.drop_first()[j] == before[j + 1]);
        }
        lemma_record_first(before.drop_first(), id, k - 1);
    }
}

/// The prop image a map pin shows: the location's own prop, else one by
/// its kind.
pub open spec fn prop_of(id: Seq<char>, kind: Seq<char>) -> Seq<char> {
    if id == "doga"@ {
        "kenney/prop/well.png"@
    } else if id == "stora"@ {
        "kenney/prop/house.png"@
    } else if id == "hanel"@ {
        "kenney/prop/church.png"@
    } else if id == "shire"@ {
        "kenney/prop/tower.png"@
    } else if id == "paburo"@ {
        "kenney/prop/pine.png"@
    } else if id == "lacroa"@ {
        "kenney/prop/farm.png"@
    } else if id == "gonal"@ {
        "kenney/prop/tent.png"@
    } else if id == "pieta"@ {
        "kenney/prop/castle.png"@
    } else if id == "maw"@ {
        "kenney/prop/ruins.png"@
    } else if id == "sutafu"@ {
        "kenney/prop/tower.png"@
    } else if kind == "village"@ {
        "kenney/prop/house.png"@
    } else if kind == "city"@ {
        "kenney/prop/church.png"@
    } else if kind == "shrine"@ {
        "kenney/prop/tower.png"@
    } else if kind == "wild"@ {
        "kenney/prop/pine.png"@
    } else if kind == "keep"@ {
        "kenney/prop/castle.png"@
    } else {
        "kenney/prop/house.png"@
    }
}

pub fn loc_prop(id: &str, kind: &str) -> (p: &'static str)
    ensures
        p@ == prop_of(id@, kind@),
{
    if str_eq(id, "doga") {
        "kenney/prop/well.png"
    } else if str_eq(id, "stora") {
        "kenney/prop/house.png"
    } else if str_eq(id, "hanel") {
        "kenney/prop/church.png"
    } else if str_eq(id, "shire") {
        "kenney/prop/tower.png"
    } else if str_eq(id, "paburo") {
        "kenney/prop/pine.png"
    } else if str_eq(id, "lacroa") {
        "kenney/prop/farm.png"
    } else if str_eq(id, "gonal") {
        "kenney/prop/tent.png"
    } else if str_eq(id, "pieta") {
        "kenney/prop/castle.png"
    } else if str_eq(id, "maw") {
        "kenney/prop/ruins.png"
    } else if str_eq(id, "sutafu") {
        "kenney/prop/tower.png"
    } else if str_eq(kind, "village") {
        "kenney/prop/house.png"
    } else if str_eq(kind, "city") {
        "kenney/prop/church.png"
    } else if str_eq(kind, "shrine") {
        "kenney/prop/tower.png"
    } else if str_eq(kind, "wild") {
        "kenney/prop/pine.png"
    } else if str_eq(kind, "keep") {
        "kenney/prop/castle.png"
    } else {
        "kenney/prop/house.png"
    }
}

/// A log entry as one line: its kind, a bar, and its text.
pub open spec fn log_line(e: CombatLog) -> Seq<char> {
    e.kind@ + "|"@ + e.text@
}

/// The sound a new log line plays, if any: a miss, a caught blow (a block),
/// or a severed part (a chop).
pub open spec fn line_sound(line: Seq<char>) -> Option<Seq<char>> {
    if occurs_at(line, "miss|"@, 0) {
        Some("miss"@)
    } else if occurs(line, "catches"@) {
        Some("block"@)
    } else if occurs_at(line, "sever|"@, 0) {
        Some("chop"@)
    } else {
        None
    }
}

/// The sounds of the lines an action added to the log (newest first, at
/// most eight), in order: the first `min(len - before, 8)` entries.
pub open spec fn log_sounds_of(log: Seq<CombatLog>, before: int) -> Seq<Seq<char>> {
    let n = if log.len() <= before {
        0
    } else if log.len() - before > 8 {
        8
    } else {
        log.len() - before
    };
    log.take(n).map_values(|e: CombatLog| line_sound(log_line(e))).filter(|o: Option<Seq<char>>| o is Some).map_values(
        |o: Option<Seq<char>>| o->0,
    )
}

fn starts_with(s: &str, p: &str) -> (b: bool)
    ensures
        b == occurs_at(s@, p@, 0),
{
    let n = s.unicode_len();
    let m = p.unicode_len();
    if m > n {
        return false;
    }
    let mut j: usize = 0;
    while j < m
        invariant
            n == s@.len(),
            m == p@.len(),
            m <= n,
            0 <= j <= m,
            forall|x: int| 0 <= x < j ==> s@[x] == p@[x],
        decreases m - j,
    {
        if s.get_char(j) != p.get_char(j) {
            return false;
        }
        j = j + 1;
    }
    proof {
        assert(s@.subrange(0, m as int) =~= p@);
    }
    true
}

fn line_sound_exec(e: &CombatLog) -> (s: Option<&'static str>)
    ensures
        match s {
            Some(x) => line_sound(log_line(*e)) == Some(x@),
            None => line_sound(log_line(*e)) is None,
        },
{
    let mut line = String::new();
    line.append(e.kind.as_str());
    line.append("|");
    line.append(e.text.as_str());
    let l = line.as_str();
    if starts_with(l, "miss|") {
        Some("miss")
    } else if contains_text(l, "catches") {
        Some("block")
    } else if starts_with(l, "sever|") {
        Some("chop")
    } else {
        None
    }
}

/// The sounds the new lines of the log play after an action; `before` is
/// the log's length before it.
pub fn log_sounds(log: &[CombatLog], before: usize) -> (out: Vec<&'static str>)
    ensures
        out@.map_values(|s: &'static str| s@) == log_sounds_of(log@, before as int),
{
    let n: usize = if log.len() <= before {
        0
    } else if log.len() - before > 8 {
        8
    } else {
        log.len() - before
    };
    let ghost sounds = log@.take(n as int).map_values(|e: CombatLog| line_sound(log_line(e)));
    let ghost keep = |o: Option<Seq<char>>| o is Some;
    let ghost some = |o: Option<Seq<char>>| o->0;
    let mut out: Vec<&'static str> = Vec::new();
    let mut i: usize = 0;
    while i < n
        invariant
            n <= log@.len(),
            0 <= i <= n,
            sounds == log@.take(n as int).map_values(|e: CombatLog| line_sound(log_line(e))),
            keep == (|o: Option<Seq<char>>| o is Some),
            some == (|o: Option<Seq<char>>| o->0),
            out@.map_values(|s: &'static str| s@) == sounds.take(i as int).filter(keep).map_values(some),
        decreases n - i,
    {
        let ghost before_out = out@.map_values(|s: &'static str| s@);
        let r = line_sound_exec(&log[i]);
        proof {
            reveal(Seq::filter);
            assert(sounds.take(i + 1).drop_last() =~= sounds.take(i as int));
            assert(sounds.take(i + 1).last() == sounds[i as int]);
            assert(sounds[i as int] == line_sound(log_line(log@[i as int])));
        }
        match r {
            Some(x) => {
                out.push(x);
                proof {
                    assert(out@.map_values(|s: &'static str| s@) =~= before_out.push(x@));
                    assert(sounds.take(i + 1).filter(keep) == sounds.take(i as int).filter(keep).push(
                        sounds[i as int],
                    ));
                }
            },
            None => {
                proof {
                    assert(sounds.take(i + 1).filter(keep) == sounds.take(i as int).filter(keep));
                }
            },
        }
        i = i + 1;
    }
    proof {
        assert(sounds.take(n as int) =~= sounds);
    }
    out
}

} // verus!
