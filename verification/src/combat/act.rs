//! Carrying out the acting unit's chosen action.

use vstd::prelude::*;
use vstd::string::StringExecFns;
use crate::hex::{has_hex, Axial};
use crate::combat::types::{
    CombatState, DelayedZone, Part, PlayerAction, ShapeKind, Side, SkillDef, Status, Unit, stat_of,
};
use crate::combat::setup::{
    core_hex, core_of, current_of, current_unit, find_unit, find_unit_index, lemma_find_unit,
    terrain_in, unit_ok, units_ok,
};
use crate::combat::rules::{
    board_ok, can_use, catalog_ok, find_skill, lemma_find_skill, legal_targets, move_cost,
    skill_by_id, step_cost, targets_of, usable, zone_for, zone_of,
};
use crate::combat::moves::{legal_moves, reachable};
use crate::combat::resolve::{
    guard_total, log_of, logged, parts_sound, push_log, same_but_units_log, unit_parts_sound,
};
use crate::combat::zone::{apply_zone, lemma_zone_keeps, zone_ready, zone_seed, zone_skill, zone_struck};
use crate::text::{decimal, push_decimal, push_signed, signed_decimal};

verus! {

/// What an action leaves to the turn machinery: whether the turn passes
/// on, and whether the battle's end is to be checked (in that order).
#[derive(Clone, Copy, Debug, PartialEq, Eq, Structural)]
pub struct TurnSteps {
    pub advance_turn: bool,
    pub check_over: bool,
}

pub open spec fn steps(advance_turn: bool, check_over: bool) -> TurnSteps {
    TurnSteps { advance_turn, check_over }
}

/// Index of the unit whose turn it is, while the battle runs: the first
/// unit carrying the id at `order[turn]`.
pub open spec fn actor_at(s: CombatState) -> Option<int> {
    if s.over is Some || s.turn >= s.order@.len() {
        None
    } else {
        find_unit(s.units@, s.order@[s.turn as int]@)
    }
}

/// The turn is spent: the unit whose turn it is has no action points left
/// (or there is none).
pub open spec fn turn_spent(f: CombatState) -> bool {
    match current_of(f) {
        Some(x) => x.ap <= 0,
        None => true,
    }
}

/// `f` is `s` with unit `k` replaced by `u` and a `kind` line logged.
pub open spec fn unit_logged(
    s: CombatState,
    f: CombatState,
    k: int,
    u: Unit,
    kind: Seq<char>,
    line: Seq<char>,
) -> bool {
    &&& same_but_units_log(s, f)
    &&& f.units@ == s.units@.update(k, u)
    &&& log_of(f.log@) == logged(log_of(s.log@), kind, line)
}

/// Waiting: the unit gives up its remaining action points.
pub open spec fn waited(s: CombatState, f: CombatState, k: int) -> bool {
    let u = s.units@[k];
    unit_logged(s, f, k, Unit { ap: 0, ..u }, "info"@, u.name@ + " waits."@)
}

/// Raising yoki: once per turn and below full transformation, the
/// transformation gauge rises by 15 (to at most 100).
pub open spec fn raised(s: CombatState, f: CombatState, k: int) -> bool {
    let u = s.units@[k];
    if !u.raised_trans && u.trans < 100 {
        let t = if u.trans + 15 < 100 {
            u.trans + 15
        } else {
            100
        };
        unit_logged(
            s,
            f,
            k,
            Unit { trans: t as i32, raised_trans: true, ..u },
            "trans"@,
            u.name@ + " raises yoki. Trans "@ + signed_decimal(t) + "."@,
        )
    } else {
        f == s
    }
}

/// Moving: to a reachable cell the unit can pay for, spending the cell's
/// step cost; the turn passes once no action points are left.
pub open spec fn move_done(
    s: CombatState,
    f: CombatState,
    k: int,
    hex: Axial,
    allowance: i32,
    st: TurnSteps,
) -> bool {
    let u = s.units@[k];
    let cost = step_cost(terrain_in(s.terrain@, hex));
    if !reachable(s, u, allowance, hex) || u.ap < cost {
        f == s && st == steps(false, false)
    } else {
        &&& unit_logged(
            s,
            f,
            k,
            Unit { origin: hex, ap: (u.ap - cost) as i32, ..u },
            "move"@,
            u.name@ + " advances."@,
        )
        &&& st == steps(turn_spent(f), false)
    }
}

/// Replacing unit `k` by one with the same id keeps it the first unit
/// with that id.
proof fn lemma_find_kept(units: Seq<Unit>, k: int, u: Unit)
    requires
        0 <= k < units.len(),
        find_unit(units, units[k].id@) == Some(k),
        u.id@ == units[k].id@,
    ensures
        find_unit(units.update(k, u), u.id@) == Some(k),
{
    lemma_find_unit(units, u.id@);
    let n = units.update(k, u);
    lemma_find_unit(n, u.id@);
    assert(n[k].id@ == u.id@);
    assert forall|j: int| 0 <= j < k implies (#[trigger] n[j]).id@ != u.id@ by {
        assert(n[j] == units[j]);
    }
}

fn wait_turn(state: &mut CombatState, k: usize)
    requires
        k < old(state).units@.len(),
    ensures
        waited(*old(state), *final(state), k as int),
{
    let ghost s0 = *state;
    let mut u = state.units.remove(k);
    u.ap = 0;
    let mut line = String::new();
    line.append(u.name.as_str());
    line.append(" waits.");
    state.units.insert(k, u);
    proof {
        assert(state.units@ =~= s0.units@.update(k as int, state.units@[k as int]));
    }
    push_log(state, "info", line);
}

fn raise_trans(state: &mut CombatState, k: usize)
    requires
        k < old(state).units@.len(),
    ensures
        raised(*old(state), *final(state), k as int),
{
    if !state.units[k].raised_trans && state.units[k].trans < 100 {
        let ghost s0 = *state;
        let mut u = state.units.remove(k);
        let t = u.trans + 15;
        u.trans = if t < 100 {
            t
        } else {
            100
        };
        u.raised_trans = true;
        let mut line = String::new();
        line.append(u.name.as_str());
        line.append(" raises yoki. Trans ");
        push_signed(&mut line, u.trans);
        line.append(".");
        state.units.insert(k, u);
        proof {
            assert(state.units@ =~= s0.units@.update(k as int, state.units@[k as int]));
        }
        push_log(state, "trans", line);
    }
}

fn move_to(state: &mut CombatState, k: usize, hex: Axial, allowance: i32) -> (st: TurnSteps)
    requires
        board_ok(*old(state)),
        k < old(state).units@.len(),
        !old(state).units@[k as int].dead,
        find_unit(old(state).units@, old(state).units@[k as int].id@) == Some(k as int),
    ensures
        move_done(*old(state), *final(state), k as int, hex, allowance, st),
{
    let legal = legal_moves(state, state.units[k].id.as_str(), allowance);
    if !has_hex(&legal, hex) {
        return TurnSteps { advance_turn: false, check_over: false };
    }
    let cost = move_cost(state, hex);
    if state.units[k].ap < cost {
        return TurnSteps { advance_turn: false, check_over: false };
    }
    let ghost s0 = *state;
    let mut u = state.units.remove(k);
    u.origin = hex;
    u.ap = u.ap - cost;
    let mut line = String::new();
    line.append(u.name.as_str());
    line.append(" advances.");
    state.units.insert(k, u);
    proof {
        assert(state.units@ =~= s0.units@.update(k as int, state.units@[k as int]));
    }
    push_log(state, "move", line);
    let spent = match current_unit(state) {
        Some(x) => x.ap <= 0,
        None => true,
    };
    TurnSteps { advance_turn: spent, check_over: false }
}

/// The guard status a skill raises: `g` guard for one turn.
pub open spec fn is_guard(st: Status, g: i32) -> bool {
    &&& st.id@ == "guard"@
    &&& st.name@ == "Guard"@
    &&& st.turns == 1
    &&& st.guard == g
    &&& !st.telegraph
    &&& st.afterimage is None
}

/// `v` is `u` after paying for `sk`: its action points spent, its yoki
/// spent (not below 0), its transformation shifted (kept within 0..=100)
/// when the skill shifts it, and a guard added when the skill raises one.
pub open spec fn paid(u: Unit, sk: SkillDef, v: Unit) -> bool {
    let y = u.yoki - sk.yoki;
    let t = u.trans + sk.trans_delta;
    &&& v == Unit {
        ap: (u.ap - sk.ap) as i32,
        yoki: (if y < 0 { 0 } else { y }) as i32,
        trans: (if sk.trans_delta == 0 { u.trans as int } else if t < 0 { 0 } else if t > 100 { 100 } else { t }) as i32,
        statuses: v.statuses,
        ..u
    }
    &&& if sk.guard > 0 {
        &&& v.statuses@.len() == u.statuses@.len() + 1
        &&& v.statuses@.drop_last() == u.statuses@
        &&& is_guard(v.statuses@.last(), sk.guard)
    } else {
        v.statuses == u.statuses
    }
}

/// `m` is `s` with unit `k` having paid for `sk`.
pub open spec fn paid_state(s: CombatState, m: CombatState, k: int, sk: SkillDef) -> bool {
    &&& m == CombatState { units: m.units, ..s }
    &&& m.units@ == s.units@.update(k, m.units@[k])
    &&& paid(s.units@[k], sk, m.units@[k])
}

/// `w` is `v` healed by `heal`: its hit points and each part's raised by
/// the heal (a part by an even share of it), none above its maximum.
pub open spec fn healed(v: Unit, heal: i32, w: Unit) -> bool {
    let n = v.parts@.len() as int;
    &&& w == Unit {
        hp: (if v.hp + heal < v.max_hp { v.hp + heal } else { v.max_hp as int }) as i32,
        parts: w.parts,
        ..v
    }
    &&& w.parts@.len() == n
    &&& forall|i: int|
        0 <= i < n ==> #[trigger] w.parts@[i] == (Part {
            hp: (if v.parts@[i].hp + (heal as int) / n < v.parts@[i].max_hp {
                v.parts@[i].hp + (heal as int) / n
            } else {
                v.parts@[i].max_hp as int
            }) as i32,
            ..v.parts@[i]
        })
}

/// A ripple set off by unit `src` from `center` with skill `sk`.
pub open spec fn is_ripple(z: DelayedZone, src: Seq<char>, center: Axial, sk: SkillDef) -> bool {
    &&& z.source_id@ == src
    &&& z.center == center
    &&& z.radius == 1
    &&& z.max_radius == if sk.range > 2 { sk.range } else { 2 }
    &&& z.power == sk.power
    &&& z.pa == sk.pa
}

/// `l` is `m` with the use of a skill announced in the log.
pub open spec fn announced(m: CombatState, l: CombatState, line: Seq<char>) -> bool {
    &&& same_but_units_log(m, l)
    &&& l.units == m.units
    &&& log_of(l.log@) == logged(log_of(m.log@), "skill"@, line)
}

/// What a paid-for skill of unit `k` (`u` before paying) aimed into `zone`
/// does from `m` to `f`: a ripple starts spreading from the unit; a
/// healing skill heals it; any other is announced and, when it strikes,
/// strikes every unit in the zone.
pub open spec fn skill_effect(
    m: CombatState,
    f: CombatState,
    k: int,
    u: Unit,
    sk: SkillDef,
    zone: Seq<Axial>,
) -> bool {
    if sk.shape == ShapeKind::Ripple {
        &&& f == CombatState { zones: f.zones, log: f.log, ..m }
        &&& f.zones@.len() == m.zones@.len() + 1
        &&& f.zones@.drop_last() == m.zones@
        &&& is_ripple(f.zones@.last(), u.id@, core_of(u), sk)
        &&& log_of(f.log@) == logged(log_of(m.log@), "skill"@, u.name@ + " starts a ripple."@)
    } else if sk.heal > 0 {
        &&& healed(m.units@[k], sk.heal, f.units@[k])
        &&& unit_logged(
            m,
            f,
            k,
            f.units@[k],
            "heal"@,
            u.name@ + " recovers "@ + decimal(sk.heal as nat) + "."@,
        )
    } else if !sk.strikes {
        announced(m, f, u.name@ + " uses "@ + sk.name@ + "."@)
    } else {
        exists|l: CombatState|
            #[trigger] announced(m, l, u.name@ + " uses "@ + sk.name@ + "."@) && zone_struck(
                l,
                f,
                zone_seed(l),
                l.units@[k],
                zone_skill(sk.power, sk.pa, sk.pd, sk.aimed, sk.unblockable),
                zone,
            )
    }
}

/// Using skill `id` on `hex`: a catalog skill the unit can use (with Raki
/// at hand) aimed at a legal target is paid for and takes effect; the turn
/// passes once no action points are left, and the battle's end is checked.
/// Anything else changes nothing.
pub open spec fn skill_done(
    s: CombatState,
    f: CombatState,
    k: int,
    id: Seq<char>,
    hex: Axial,
    skills: Seq<SkillDef>,
    st: TurnSteps,
) -> bool {
    let u = s.units@[k];
    match find_skill(skills, id) {
        None => f == s && st == steps(false, false),
        Some(j) => {
            let sk = skills[j];
            if !usable(u, sk, true) || !targets_of(s, u, sk).contains(hex) {
                f == s && st == steps(false, false)
            } else {
                &&& exists|m: CombatState|
                    #[trigger] paid_state(s, m, k, sk) && skill_effect(
                        m,
                        f,
                        k,
                        u,
                        sk,
                        zone_of(s.cols as int, s.rows as int, u, sk, hex),
                    )
                &&& st == steps(turn_spent(f), true)
            }
        },
    }
}

/// Healing unit `u` by `heal` stays within `i32`.
pub open spec fn heal_fits(u: Unit, heal: i32) -> bool {
    let n = u.parts@.len() as int;
    &&& n <= i32::MAX
    &&& crate::hex::fits(u.hp + heal)
    &&& forall|i: int| 0 <= i < n ==> crate::hex::fits(#[trigger] u.parts@[i].hp + (heal as int) / n)
}

/// A strike of unit `k` with `sk` stays within `i32`: the zone's seed, every
/// stat edge over a defender, and every defender's guard (the striker's
/// with the guard it raises).
pub open spec fn strike_fits(s: CombatState, k: int, sk: SkillDef) -> bool {
    &&& (s.round as u32) * 31 + (s.turn as u32) <= u32::MAX
    &&& forall|i: int|
        0 <= i < s.units@.len() ==> {
            &&& crate::hex::fits(
                stat_of(s.units@[k].stats, sk.pa) - stat_of((#[trigger] s.units@[i]).stats, sk.pd),
            )
            &&& guard_total(s.units@[i].statuses@) + (if i == k && sk.guard > 0 {
                sk.guard as int
            } else {
                0
            }) <= i32::MAX
        }
}

/// Using skill `id` on `hex` as unit `k` stays within `i32`.
pub open spec fn skill_fits(
    s: CombatState,
    k: int,
    id: Seq<char>,
    hex: Axial,
    skills: Seq<SkillDef>,
) -> bool {
    let u = s.units@[k];
    match find_skill(skills, id) {
        None => true,
        Some(j) => {
            let sk = skills[j];
            usable(u, sk, true) && targets_of(s, u, sk).contains(hex) ==> {
                &&& crate::hex::fits(u.ap - sk.ap)
                &&& crate::hex::fits(u.yoki - sk.yoki)
                &&& crate::hex::fits(u.trans + sk.trans_delta)
                &&& sk.shape != ShapeKind::Ripple && sk.heal > 0 ==> heal_fits(u, sk.heal)
                &&& sk.shape != ShapeKind::Ripple && sk.heal <= 0 && sk.strikes ==> strike_fits(
                    s,
                    k,
                    sk,
                )
            }
        },
    }
}

/// Adding a status to the end adds its guard, when it guards.
proof fn lemma_guard_push(st: Seq<Status>, x: Status)
    ensures
        guard_total(st.push(x)) == guard_total(st) + if x.guard > 0 {
            x.guard as int
        } else {
            0
        },
{
    assert(st.push(x).drop_last() == st);
}

fn heal_unit(state: &mut CombatState, k: usize, heal: i32)
    requires
        k < old(state).units@.len(),
        heal > 0,
        heal_fits(old(state).units@[k as int], heal),
    ensures
        same_but_units_log(*old(state), *final(state)),
        final(state).log == old(state).log,
        final(state).units@ == old(state).units@.update(k as int, final(state).units@[k as int]),
        healed(old(state).units@[k as int], heal, final(state).units@[k as int]),
{
    let ghost s0 = *state;
    let mut u = state.units.remove(k);
    let ghost v = u;
    let h = u.hp + heal;
    u.hp = if h < u.max_hp {
        h
    } else {
        u.max_hp
    };
    let n = u.parts.len();
    let share: i32 = if n > 0 {
        heal / (n as i32)
    } else {
        0
    };
    let mut i: usize = 0;
    while i < n
        invariant
            n == v.parts@.len(),
            n <= i32::MAX,
            n > 0 ==> share == (heal as int) / (n as int),
            heal_fits(v, heal),
            0 <= i <= n,
            u == (Unit { hp: u.hp, parts: u.parts, ..v }),
            u.hp == (if v.hp + heal < v.max_hp { v.hp + heal } else { v.max_hp as int }) as i32,
            u.parts@.len() == n,
            forall|j: int|
                0 <= j < i ==> #[trigger] u.parts@[j] == (Part {
                    hp: (if v.parts@[j].hp + (heal as int) / (n as int) < v.parts@[j].max_hp {
                        v.parts@[j].hp + (heal as int) / (n as int)
                    } else {
                        v.parts@[j].max_hp as int
                    }) as i32,
                    ..v.parts@[j]
                }),
            forall|j: int| i <= j < n ==> #[trigger] u.parts@[j] == v.parts@[j],
        decreases n - i,
    {
        let mut p = u.parts.remove(i);
        assert(p == v.parts@[i as int]);
        assert(crate::hex::fits(v.parts@[i as int].hp + (heal as int) / (n as int)));
        let ph = p.hp + share;
        p.hp = if ph < p.max_hp {
            ph
        } else {
            p.max_hp
        };
        let ghost before = u.parts@;
        u.parts.insert(i, p);
        proof {
            assert forall|j: int| 0 <= j < n && j != i implies #[trigger] u.parts@[j] == before.insert(i as int, p)[j] by {}
        }
        i = i + 1;
    }
    state.units.insert(k, u);
    proof {
        assert(state.units@ =~= s0.units@.update(k as int, state.units@[k as int]));
    }
}

fn pay_for(state: &mut CombatState, k: usize, sk: &SkillDef)
    requires
        k < old(state).units@.len(),
        crate::hex::fits(old(state).units@[k as int].ap - sk.ap),
        crate::hex::fits(old(state).units@[k as int].yoki - sk.yoki),
        crate::hex::fits(old(state).units@[k as int].trans + sk.trans_delta),
    ensures
        paid_state(*old(state), *final(state), k as int, *sk),
{
    let ghost s0 = *state;
    let mut u = state.units.remove(k);
    u.ap = u.ap - sk.ap;
    let y = u.yoki - sk.yoki;
    u.yoki = if y < 0 {
        0
    } else {
        y
    };
    if sk.trans_delta != 0 {
        let t = u.trans + sk.trans_delta;
        u.trans = if t < 0 {
            0
        } else if t > 100 {
            100
        } else {
            t
        };
    }
    if sk.guard > 0 {
        let ghost before = u.statuses@;
        u.statuses.push(
            Status {
                id: "guard".to_owned(),
                name: "Guard".to_owned(),
                turns: 1,
                guard: sk.guard,
                telegraph: false,
                afterimage: None,
            },
        );
        proof {
            assert(u.statuses@.drop_last() == before);
        }
    }
    state.units.insert(k, u);
    proof {
        assert(state.units@ =~= s0.units@.update(k as int, state.units@[k as int]));
    }
}

fn take_effect(
    state: &mut CombatState,
    k: usize,
    sk: &SkillDef,
    zone: &Vec<Axial>,
    actor_id: String,
    center: Axial,
    name: String,
    Ghost(s0): Ghost<CombatState>,
)
    requires
        k < s0.units@.len(),
        board_ok(s0),
        parts_sound(s0.units@),
        paid_state(s0, *old(state), k as int, *sk),
        find_unit(s0.units@, actor_id@) == Some(k as int),
        actor_id@ == s0.units@[k as int].id@,
        center == core_of(s0.units@[k as int]),
        name@ == s0.units@[k as int].name@,
        sk.shape != ShapeKind::Ripple && sk.heal > 0 ==> heal_fits(s0.units@[k as int], sk.heal),
        sk.shape != ShapeKind::Ripple && sk.heal <= 0 && sk.strikes ==> strike_fits(
            s0,
            k as int,
            *sk,
        ),
    ensures
        skill_effect(*old(state), *final(state), k as int, s0.units@[k as int], *sk, zone@),
{
    let ghost m = *state;
    let ghost u0 = s0.units@[k as int];
    if sk.shape == ShapeKind::Ripple {
        let max_radius = if sk.range > 2 {
            sk.range
        } else {
            2
        };
        state.zones.push(
            DelayedZone {
                source_id: actor_id,
                center,
                radius: 1,
                max_radius,
                power: sk.power,
                pa: sk.pa,
            },
        );
        let mut line = name;
        line.append(" starts a ripple.");
        push_log(state, "skill", line);
        proof {
            assert(state.zones@.drop_last() == m.zones@);
        }
    } else if sk.heal > 0 {
        heal_unit(state, k, sk.heal);
        let mut line = name;
        line.append(" recovers ");
        push_decimal(&mut line, sk.heal as u32);
        line.append(".");
        push_log(state, "heal", line);
    } else {
        let mut line = name;
        line.append(" uses ");
        line.append(sk.name);
        line.append(".");
        push_log(state, "skill", line);
        let ghost l = *state;
        assert(announced(m, l, u0.name@ + " uses "@ + sk.name@ + "."@));
        if sk.strikes {
            proof {
                lemma_find_kept(s0.units@, k as int, l.units@[k as int]);
                lemma_strike_ready(s0, l, k as int, *sk);
            }
            apply_zone(
                state,
                zone.as_slice(),
                sk.power,
                sk.pa,
                sk.pd,
                actor_id.as_str(),
                sk.aimed,
                sk.unblockable,
            );
            proof {
                assert(announced(m, l, u0.name@ + " uses "@ + sk.name@ + "."@) && zone_struck(
                    l,
                    *state,
                    zone_seed(l),
                    l.units@[k as int],
                    zone_skill(sk.power, sk.pa, sk.pd, sk.aimed, sk.unblockable),
                    zone@,
                ));
            }
        }
    }
}

fn use_skill(state: &mut CombatState, k: usize, id: &str, hex: Axial, skills: &[SkillDef]) -> (st:
    TurnSteps)
    requires
        board_ok(*old(state)),
        catalog_ok(skills@),
        parts_sound(old(state).units@),
        k < old(state).units@.len(),
        find_unit(old(state).units@, old(state).units@[k as int].id@) == Some(k as int),
        skill_fits(*old(state), k as int, id@, hex, skills@),
    ensures
        skill_done(*old(state), *final(state), k as int, id@, hex, skills@, st),
{
    let ghost s0 = *state;
    let ghost u0 = state.units@[k as int];
    let sk = match skill_by_id(skills, id) {
        Some(s) => s,
        None => return TurnSteps { advance_turn: false, check_over: false },
    };
    proof {
        lemma_find_skill(skills@, id@);
    }
    if !can_use(&state.units[k], sk, true) {
        return TurnSteps { advance_turn: false, check_over: false };
    }
    let targets = legal_targets(state, state.units[k].id.as_str(), id, skills);
    if !has_hex(&targets, hex) {
        return TurnSteps { advance_turn: false, check_over: false };
    }
    assert(unit_ok(u0));
    proof {
        crate::combat::ai::lemma_targets_area(s0, u0, *sk);
        let w = choose|w: int| 0 <= w < targets@.len() && targets@[w] == hex;
        assert(crate::combat::setup::area_ok(targets@[w]));
    }
    let zone = zone_for(state, &state.units[k], sk, hex);
    let actor_id = state.units[k].id.clone();
    let center = core_hex(&state.units[k]);
    let name = state.units[k].name.clone();
    pay_for(state, k, sk);
    let ghost m = *state;
    take_effect(state, k, sk, &zone, actor_id, center, name, Ghost(s0));
    proof {
        assert(paid_state(s0, m, k as int, *sk) && skill_effect(m, *state, k as int, u0, *sk, zone@));
    }
    let spent = match current_unit(state) {
        Some(x) => x.ap <= 0,
        None => true,
    };
    TurnSteps { advance_turn: spent, check_over: true }
}

/// After paying for a strike that fits, the battle is ready for its zone.
proof fn lemma_strike_ready(s: CombatState, l: CombatState, k: int, sk: SkillDef)
    requires
        board_ok(s),
        parts_sound(s.units@),
        0 <= k < s.units@.len(),
        strike_fits(s, k, sk),
        l.units@ == s.units@.update(k, l.units@[k]),
        paid(s.units@[k], sk, l.units@[k]),
        l.round == s.round,
        l.turn == s.turn,
    ensures
        zone_ready(l, stat_of(l.units@[k].stats, sk.pa) as int, sk.pd),
        (l.round as u32) * 31 + (l.turn as u32) <= u32::MAX,
{
    let u = s.units@[k];
    let v = l.units@[k];
    if sk.guard > 0 {
        lemma_guard_push(u.statuses@, v.statuses@.last());
        assert(v.statuses@ == u.statuses@.push(v.statuses@.last()));
    }
    assert forall|i: int| 0 <= i < l.units@.len() implies unit_ok(#[trigger] l.units@[i]) by {
        assert(unit_ok(s.units@[i]));
    }
    assert forall|i: int| 0 <= i < l.units@.len() implies unit_parts_sound(#[trigger] l.units@[i]) by {
        assert(unit_parts_sound(s.units@[i]));
    }
    assert forall|i: int| 0 <= i < l.units@.len() implies {
        &&& crate::hex::fits(stat_of(v.stats, sk.pa) - stat_of((#[trigger] l.units@[i]).stats, sk.pd))
        &&& guard_total(l.units@[i].statuses@) <= i32::MAX
    } by {
        assert(crate::hex::fits(stat_of(s.units@[k].stats, sk.pa) - stat_of(s.units@[i].stats, sk.pd)));
    }
}

/// An action of the acting unit stays within `i32`.
pub open spec fn act_fits(
    s: CombatState,
    action: PlayerAction,
    is_player: bool,
    skills: Seq<SkillDef>,
) -> bool {
    match actor_at(s) {
        None => true,
        Some(k) => {
            let u = s.units@[k];
            !u.dead && !(is_player && u.side != Side::Player) ==> match action {
                PlayerAction::Skill { id, hex } => skill_fits(s, k, id@, hex, skills),
                _ => true,
            }
        },
    }
}

/// The action `action` of the unit whose turn it is, from `s` to `f`,
/// leaving `st` to the turn machinery. Nothing happens once the battle is
/// over, when the turn order names no fielded unit, or (for the player)
/// when the acting unit is not the player's; a fallen unit's turn just
/// passes.
pub open spec fn acted(
    s: CombatState,
    f: CombatState,
    action: PlayerAction,
    is_player: bool,
    skills: Seq<SkillDef>,
    allowance: i32,
    st: TurnSteps,
) -> bool {
    match actor_at(s) {
        None => f == s && st == steps(false, false),
        Some(k) => {
            let u = s.units@[k];
            if u.dead {
                f == s && st == steps(true, false)
            } else if is_player && u.side != Side::Player {
                f == s && st == steps(false, false)
            } else {
                match action {
                    PlayerAction::Wait => waited(s, f, k) && st == steps(true, false),
                    PlayerAction::Raise => raised(s, f, k) && st == steps(false, false),
                    PlayerAction::Move(hex) => move_done(s, f, k, hex, allowance, st),
                    PlayerAction::Skill { id, hex } => skill_done(s, f, k, id@, hex, skills, st),
                }
            }
        },
    }
}

/// Carries out `action` for the unit whose turn it is (`is_player` when the
/// player chose it), with the catalog `skills` and the unit's move
/// allowance, and says what the turn machinery owes next.
pub fn act(
    state: &mut CombatState,
    action: PlayerAction,
    is_player: bool,
    skills: &[SkillDef],
    allowance: i32,
) -> (st: TurnSteps)
    requires
        board_ok(*old(state)),
        catalog_ok(skills@),
        parts_sound(old(state).units@),
        act_fits(*old(state), action, is_player, skills@),
    ensures
        acted(*old(state), *final(state), action, is_player, skills@, allowance, st),
{
    if state.over.is_some() || state.turn >= state.order.len() {
        return TurnSteps { advance_turn: false, check_over: false };
    }
    let k = match find_unit_index(&state.units, state.order[state.turn].as_str()) {
        Some(k) => k,
        None => return TurnSteps { advance_turn: false, check_over: false },
    };
    proof {
        lemma_find_unit(state.units@, state.order@[state.turn as int]@);
        lemma_find_unit(state.units@, state.units@[k as int].id@);
    }
    if state.units[k].dead {
        return TurnSteps { advance_turn: true, check_over: false };
    }
    if is_player && state.units[k].side != Side::Player {
        return TurnSteps { advance_turn: false, check_over: false };
    }
    match action {
        PlayerAction::Wait => {
            wait_turn(state, k);
            TurnSteps { advance_turn: true, check_over: false }
        },
        PlayerAction::Raise => {
            raise_trans(state, k);
            TurnSteps { advance_turn: false, check_over: false }
        },
        PlayerAction::Move(hex) => move_to(state, k, hex, allowance),
        PlayerAction::Skill { id, hex } => use_skill(state, k, id.as_str(), hex, skills),
    }
}

/// Every unit's transformation gauge is within 0..=100.
pub open spec fn gauges_ok(units: Seq<Unit>) -> bool {
    forall|i: int| 0 <= i < units.len() ==> 0 <= #[trigger] units[i].trans <= 100
}

/// Replacing one unit by one whose gauge is in range keeps the gauges in range.
proof fn lemma_gauges_update(units: Seq<Unit>, k: int, u: Unit)
    requires
        gauges_ok(units),
        0 <= k < units.len(),
        0 <= u.trans <= 100,
    ensures
        gauges_ok(units.update(k, u)),
{
    assert forall|i: int| 0 <= i < units.len() implies 0 <= #[trigger] units.update(k, u)[i].trans
        <= 100 by {
        if i != k {
            assert(units.update(k, u)[i] == units[i]);
        }
    }
}

/// The transformation gauge stays within 0..=100: whatever action is taken
/// from a battle whose gauges are all in range, they stay in range.
pub proof fn lemma_act_keeps_gauges(
    s: CombatState,
    f: CombatState,
    action: PlayerAction,
    is_player: bool,
    skills: Seq<SkillDef>,
    allowance: i32,
    st: TurnSteps,
)
    requires
        acted(s, f, action, is_player, skills, allowance, st),
        gauges_ok(s.units@),
        parts_sound(s.units@),
    ensures
        gauges_ok(f.units@),
{
    match actor_at(s) {
        None => {},
        Some(k) => {
            lemma_find_unit(s.units@, s.order@[s.turn as int]@);
            let u = s.units@[k];
            assert(0 <= u.trans <= 100);
            if u.dead || (is_player && u.side != Side::Player) {
            } else {
                match action {
                    PlayerAction::Wait => {
                        lemma_gauges_update(s.units@, k, Unit { ap: 0, ..u });
                    },
                    PlayerAction::Raise => {
                        if !u.raised_trans && u.trans < 100 {
                            let t = if u.trans + 15 < 100 {
                                u.trans + 15
                            } else {
                                100
                            };
                            lemma_gauges_update(
                                s.units@,
                                k,
                                Unit { trans: t as i32, raised_trans: true, ..u },
                            );
                        }
                    },
                    PlayerAction::Move(hex) => {
                        let cost = step_cost(terrain_in(s.terrain@, hex));
                        if reachable(s, u, allowance, hex) && u.ap >= cost {
                            lemma_gauges_update(
                                s.units@,
                                k,
                                Unit { origin: hex, ap: (u.ap - cost) as i32, ..u },
                            );
                        }
                    },
                    PlayerAction::Skill { id, hex } => {
                        match find_skill(skills, id@) {
                            None => {},
                            Some(j) => {
                                let sk = skills[j];
                                if usable(u, sk, true) && targets_of(s, u, sk).contains(hex) {
                                    let zone = zone_of(s.cols as int, s.rows as int, u, sk, hex);
                                    let m = choose|m: CombatState|
                                        #[trigger] paid_state(s, m, k, sk) && skill_effect(
                                            m,
                                            f,
                                            k,
                                            u,
                                            sk,
                                            zone,
                                        );
                                    let v = m.units@[k];
                                    lemma_gauges_update(s.units@, k, v);
                                    assert(m.units@ == s.units@.update(k, v));
                                    assert(parts_sound(m.units@)) by {
                                        assert forall|i: int| 0 <= i < m.units@.len() implies unit_parts_sound(
                                            #[trigger] m.units@[i],
                                        ) by {
                                            assert(unit_parts_sound(s.units@[i]));
                                        }
                                    }
                                    if sk.shape == ShapeKind::Ripple {
                                    } else if sk.heal > 0 {
                                        lemma_gauges_update(m.units@, k, f.units@[k]);
                                    } else if !sk.strikes {
                                    } else {
                                        let line = u.name@ + " uses "@ + sk.name@ + "."@;
                                        let l = choose|l: CombatState|
                                            #[trigger] announced(m, l, line) && zone_struck(
                                                l,
                                                f,
                                                zone_seed(l),
                                                l.units@[k],
                                                zone_skill(sk.power, sk.pa, sk.pd, sk.aimed, sk.unblockable),
                                                zone,
                                            );
                                        lemma_zone_keeps(
                                            l,
                                            f,
                                            zone_seed(l),
                                            l.units@[k],
                                            zone_skill(sk.power, sk.pa, sk.pd, sk.aimed, sk.unblockable),
                                            zone,
                                        );
                                        assert forall|i: int| 0 <= i < f.units@.len() implies 0
                                            <= #[trigger] f.units@[i].trans <= 100 by {
                                            assert(f.units@[i].trans == l.units@[i].trans);
                                        }
                                    }
                                }
                            },
                        }
                    },
                }
            }
        },
    }
}

/// Raising yoki is once a turn: a second Raise right after a first (by the
/// same hand) changes nothing.
pub proof fn lemma_raise_once(
    s: CombatState,
    f: CombatState,
    g: CombatState,
    is_player: bool,
    skills: Seq<SkillDef>,
    allowance: i32,
    st1: TurnSteps,
    st2: TurnSteps,
)
    requires
        acted(s, f, PlayerAction::Raise, is_player, skills, allowance, st1),
        acted(f, g, PlayerAction::Raise, is_player, skills, allowance, st2),
    ensures
        g == f,
{
    match actor_at(s) {
        None => {},
        Some(k) => {
            let u = s.units@[k];
            if !u.dead && !(is_player && u.side != Side::Player) && !u.raised_trans && u.trans
                < 100 {
                lemma_find_unit(s.units@, s.order@[s.turn as int]@);
                lemma_find_kept(s.units@, k, f.units@[k]);
                assert(actor_at(f) == Some(k));
            }
        },
    }
}

} // verus!
