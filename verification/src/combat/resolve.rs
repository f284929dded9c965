//! Hits, damage and the battle log.

use vstd::prelude::*;
use vstd::string::StringExecFns;
use crate::combat::types::{CombatLog, CombatState, HitKind, Part, SkillDef, Status, Unit};
use crate::rng::{lcg, unit_of, Rng};
use crate::single::{
    f_add, f_from_int, f_mul_small, f_round, fadd, fmul, from_int, fround, grid, lemma_rne_scale,
    rne, rne_exec, GRID,
};
use crate::combat::setup::{find_unit, find_unit_index};
use crate::dialog::{bark, bark_of};
use crate::text::{decimal, push_decimal};

verus! {

/// A log entry as (kind, text).
pub open spec fn entry_of(e: CombatLog) -> (Seq<char>, Seq<char>) {
    (e.kind@, e.text@)
}

/// The log as (kind, text) pairs, newest first.
pub open spec fn log_of(log: Seq<CombatLog>) -> Seq<(Seq<char>, Seq<char>)> {
    log.map_values(|e: CombatLog| entry_of(e))
}

/// The log after recording `text` of `kind`: the new entry goes first,
/// worded by the flavor line of `kind` when there is one, and the oldest
/// entry falls off once there are more than 40.
pub open spec fn logged(log: Seq<(Seq<char>, Seq<char>)>, kind: Seq<char>, text: Seq<char>) -> Seq<
    (Seq<char>, Seq<char>),
> {
    let t = match bark_of(kind) {
        Some(b) => b@,
        None => text,
    };
    let n = seq![(kind, t)] + log;
    if n.len() > 40 {
        n.drop_last()
    } else {
        n
    }
}

/// `b` is `a` with (at most) its units and its log changed.
pub open spec fn same_but_units_log(a: CombatState, b: CombatState) -> bool {
    b == (CombatState { units: b.units, log: b.log, ..a })
}

/// Records a line in the battle log (newest first, at most 40 kept).
pub fn push_log(state: &mut CombatState, kind: &str, text: String)
    ensures
        same_but_units_log(*old(state), *final(state)),
        final(state).units == old(state).units,
        log_of(final(state).log@) == logged(log_of(old(state).log@), kind@, text@),
{
    let text = match bark(kind) {
        Some(b) => b.to_owned(),
        None => text,
    };
    let ghost l0 = state.log@;
    state.log.insert(0, CombatLog { text, kind: kind.to_owned() });
    let ghost l1 = state.log@;
    if state.log.len() > 40 {
        state.log.pop();
    }
    proof {
        let n = seq![(kind@, text@)] + log_of(l0);
        assert(log_of(l1) =~= n);
        if l1.len() > 40 {
            assert(log_of(state.log@) =~= n.drop_last());
        }
    }
}

/// What a hit of this kind reads as.
pub open spec fn hit_label(kind: HitKind) -> Seq<char> {
    match kind {
        HitKind::Miss => "misses"@,
        HitKind::Glance => "glances"@,
        HitKind::Blocked => "is blocked"@,
        HitKind::Solid => "hits"@,
    }
}

fn label_of(kind: HitKind) -> (s: &'static str)
    ensures
        s@ == hit_label(kind),
{
    match kind {
        HitKind::Miss => "misses",
        HitKind::Glance => "glances",
        HitKind::Blocked => "is blocked",
        HitKind::Solid => "hits",
    }
}

/// The hit points of the parts.
pub open spec fn hps_of(parts: Seq<Part>) -> Seq<int> {
    parts.map_values(|p: Part| p.hp as int)
}

/// Which parts are limbs (belong to a zone).
pub open spec fn limbs_of(parts: Seq<Part>) -> Seq<bool> {
    parts.map_values(|p: Part| p.zone is Some)
}

/// Spreads `rem` damage over the parts below position `n` that are still
/// up and are limbs (`pick`) or not, in order, each taking what it can;
/// gives the new hit points and the damage left over.
pub open spec fn drain(hps: Seq<int>, limb: Seq<bool>, pick: bool, n: int, rem: int) -> (
    Seq<int>,
    int,
)
    decreases n,
{
    if n <= 0 {
        (hps, rem)
    } else {
        let (h, r) = drain(hps, limb, pick, n - 1, rem);
        let i = n - 1;
        if hps[i] > 0 && limb[i] == pick {
            let t = if r < hps[i] {
                r
            } else {
                hps[i]
            };
            (h.update(i, hps[i] - t), r - t)
        } else {
            (h, r)
        }
    }
}

/// Damage spread over the parts still up, limbs first: new hit points and
/// damage left over.
pub open spec fn spread(parts: Seq<Part>, dmg: int) -> (Seq<int>, int) {
    let n = parts.len() as int;
    let (h1, r1) = drain(hps_of(parts), limbs_of(parts), true, n, dmg);
    drain(h1, limbs_of(parts), false, n, r1)
}

/// Sum of hit points.
pub open spec fn hp_sum(h: Seq<int>) -> int
    decreases h.len(),
{
    if h.len() == 0 {
        0
    } else {
        hp_sum(h.drop_last()) + h.last()
    }
}

/// Every running total of `h` fits an `i32`.
pub open spec fn sums_fit(h: Seq<int>) -> bool {
    forall|n: int| 0 <= n <= h.len() ==> crate::hex::fits(#[trigger] hp_sum(h.take(n)))
}

proof fn lemma_drain_shape(hps: Seq<int>, limb: Seq<bool>, pick: bool, n: int, rem: int)
    requires
        0 <= n <= hps.len(),
        hps.len() == limb.len(),
        rem >= 0,
    ensures
        drain(hps, limb, pick, n, rem).0.len() == hps.len(),
        0 <= drain(hps, limb, pick, n, rem).1 <= rem,
        forall|i: int| n <= i < hps.len() ==> #[trigger] drain(hps, limb, pick, n, rem).0[i] == hps[i],
        forall|i: int|
            0 <= i < hps.len() ==> (#[trigger] drain(hps, limb, pick, n, rem).0[i] <= hps[i])
                && (hps[i] > 0 ==> drain(hps, limb, pick, n, rem).0[i] >= 0) && (hps[i] <= 0
                ==> drain(hps, limb, pick, n, rem).0[i] == hps[i]),
    decreases n,
{
    if n > 0 {
        lemma_drain_shape(hps, limb, pick, n - 1, rem);
    }
}

/// Takes damage off the parts still up that are limbs (`pick`) or not, in
/// order; returns the damage left over.
fn drain_parts(parts: &mut Vec<Part>, pick: bool, rem: i32) -> (r: i32)
    requires
        rem >= 0,
    ensures
        final(parts)@.len() == old(parts)@.len(),
        forall|i: int|
            0 <= i < old(parts)@.len() ==> #[trigger] final(parts)@[i] == (Part {
                hp: final(parts)@[i].hp,
                ..old(parts)@[i]
            }),
        hps_of(final(parts)@) == drain(
            hps_of(old(parts)@),
            limbs_of(old(parts)@),
            pick,
            old(parts)@.len() as int,
            rem as int,
        ).0,
        r == drain(
            hps_of(old(parts)@),
            limbs_of(old(parts)@),
            pick,
            old(parts)@.len() as int,
            rem as int,
        ).1,
{
    let ghost p0 = parts@;
    let ghost h0 = hps_of(p0);
    let ghost l0 = limbs_of(p0);
    let mut remaining = rem;
    let mut i: usize = 0;
    while i < parts.len()
        invariant
            0 <= i <= parts@.len(),
            parts@.len() == p0.len(),
            h0 == hps_of(p0),
            l0 == limbs_of(p0),
            forall|j: int| 0 <= j < p0.len() ==> #[trigger] parts@[j] == (Part { hp: parts@[j].hp, ..p0[j] }),
            hps_of(parts@) == drain(h0, l0, pick, i as int, rem as int).0,
            remaining == drain(h0, l0, pick, i as int, rem as int).1,
            0 <= remaining <= rem,
        decreases parts.len() - i,
    {
        proof {
            lemma_drain_shape(h0, l0, pick, i as int, rem as int);
            assert(hps_of(parts@)[i as int] == h0[i as int]);
        }
        let hp = parts[i].hp;
        let is_limb = parts[i].zone.is_some();
        if hp > 0 && is_limb == pick {
            let take = if remaining < hp {
                remaining
            } else {
                hp
            };
            let mut p = parts.remove(i);
            p.hp = hp - take;
            parts.insert(i, p);
            remaining = remaining - take;
            proof {
                let (h, r) = drain(h0, l0, pick, i as int, rem as int);
                assert(hps_of(parts@) =~= h.update(i as int, h0[i as int] - take));
            }
        }
        i = i + 1;
    }
    remaining
}

/// The text of a landed blow.
pub open spec fn hit_text(from: Seq<char>, kind: HitKind, name: Seq<char>, dealt: int) -> Seq<char> {
    from + " "@ + hit_label(kind) + " "@ + name + " for "@ + decimal(dealt as nat) + "."@
}

/// The text of a blow that does no damage.
pub open spec fn miss_text(from: Seq<char>, kind: HitKind, name: Seq<char>) -> Seq<char> {
    from + " "@ + hit_label(kind) + " "@ + name + "."@
}

/// The text of a fall.
pub open spec fn fall_text(name: Seq<char>) -> Seq<char> {
    name + " falls."@
}

/// `f` is `s` after `dmg` damage of `kind` from `from` lands on the unit
/// `unit_id`: nothing for an unknown or fallen unit; a logged miss for no
/// damage; otherwise the damage spread over its parts still up, limbs
/// first, its hit points the sum of its parts, the blow logged with the
/// damage dealt, and a unit left with no hit points fallen (no action
/// points left) with a line of its own.
pub open spec fn damaged(
    s: CombatState,
    f: CombatState,
    unit_id: Seq<char>,
    dmg: int,
    kind: HitKind,
    from: Seq<char>,
) -> bool {
    &&& same_but_units_log(s, f)
    &&& match find_unit(s.units@, unit_id) {
            None => f == s,
            Some(k) => {
                let u = s.units@[k];
                if u.dead {
                    f == s
                } else if dmg <= 0 {
                    &&& f.units == s.units
                    &&& log_of(f.log@) == logged(
                        log_of(s.log@),
                        "miss"@,
                        miss_text(from, kind, u.name@),
                    )
                } else {
                    let (h, left) = spread(u.parts@, dmg);
                    let total = hp_sum(h);
                    let v = f.units@[k];
                    let l1 = logged(
                        log_of(s.log@),
                        "hit"@,
                        hit_text(from, kind, u.name@, dmg - left),
                    );
                    &&& f.units@.len() == s.units@.len()
                    &&& forall|j: int|
                        0 <= j < s.units@.len() && j != k ==> #[trigger] f.units@[j]
                            == s.units@[j]
                    &&& v == (Unit { parts: v.parts, hp: v.hp, dead: v.dead, ap: v.ap, ..u })
                    &&& v.parts@.len() == u.parts@.len()
                    &&& forall|i: int|
                        0 <= i < u.parts@.len() ==> #[trigger] v.parts@[i] == (Part {
                            hp: v.parts@[i].hp,
                            ..u.parts@[i]
                        })
                    &&& hps_of(v.parts@) == h
                    &&& v.hp == total
                    &&& v.dead == (total <= 0)
                    &&& v.ap == (if total <= 0 {
                        0
                    } else {
                        u.ap as int
                    })
                    &&& log_of(f.log@) == (if total <= 0 {
                        logged(l1, "kill"@, fall_text(u.name@))
                    } else {
                        l1
                    })
                }
            },
        }
}

/// Applies `dmg` damage of `kind` from `from` to the unit `unit_id`.
/// Nothing happens to an unknown or fallen unit. No damage logs a miss.
/// Otherwise the damage is spread over the parts still up, limbs first,
/// each in order taking what it can; the unit's hit points become the sum
/// of its parts, the blow is logged with the damage dealt, and a unit left
/// with no hit points falls (no action points left) with a line of its own.
pub fn apply_damage(state: &mut CombatState, unit_id: &str, dmg: i32, kind: HitKind, from: &str)
    requires
        match find_unit(old(state).units@, unit_id@) {
            Some(k) => dmg > 0 && !old(state).units@[k].dead ==> sums_fit(
                spread(old(state).units@[k].parts@, dmg as int).0,
            ),
            None => true,
        },
    ensures
        damaged(*old(state), *final(state), unit_id@, dmg as int, kind, from@),
{
    let k = match find_unit_index(&state.units, unit_id) {
        Some(k) => k,
        None => return ,
    };
    if state.units[k].dead {
        return ;
    }
    let label = label_of(kind);
    if dmg <= 0 {
        let mut t = String::new();
        t.append(from);
        t.append(" ");
        t.append(label);
        t.append(" ");
        t.append(state.units[k].name.as_str());
        t.append(".");
        proof {
            assert(t@ =~= miss_text(from@, kind, state.units@[k as int].name@));
        }
        push_log(state, "miss", t);
        return ;
    }
    let ghost s0 = *state;
    let ghost u0 = state.units@[k as int];
    let mut u = state.units.remove(k);
    assert(u == u0);
    let r1 = drain_parts(&mut u.parts, true, dmg);
    proof {
        lemma_drain_shape(hps_of(u0.parts@), limbs_of(u0.parts@), true, u0.parts@.len() as int, dmg as int);
        assert(limbs_of(u.parts@) =~= limbs_of(u0.parts@));
    }
    let ghost p1 = u.parts@;
    let remaining = drain_parts(&mut u.parts, false, r1);
    proof {
        lemma_drain_shape(hps_of(p1), limbs_of(p1), false, p1.len() as int, r1 as int);
        assert(limbs_of(p1) =~= limbs_of(u0.parts@));
        assert(forall|i: int| 0 <= i < u0.parts@.len() ==> #[trigger] u.parts@[i] == (Part { hp: u.parts@[i].hp, ..u0.parts@[i] })) by {
            assert forall|i: int| 0 <= i < u0.parts@.len() implies #[trigger] u.parts@[i] == (Part { hp: u.parts@[i].hp, ..u0.parts@[i] }) by {
                assert(u.parts@[i] == (Part { hp: u.parts@[i].hp, ..p1[i] }));
                assert(p1[i] == (Part { hp: p1[i].hp, ..u0.parts@[i] }));
            }
        }
    }
    let ghost h = hps_of(u.parts@);
    assert(h == spread(u0.parts@, dmg as int).0);
    let mut total: i32 = 0;
    let mut i: usize = 0;
    while i < u.parts.len()
        invariant
            0 <= i <= u.parts@.len(),
            h == hps_of(u.parts@),
            sums_fit(h),
            total == hp_sum(h.take(i as int)),
        decreases u.parts.len() - i,
    {
        proof {
            assert(h.take(i + 1).drop_last() =~= h.take(i as int));
            assert(h.take(i + 1).last() == h[i as int]);
            assert(crate::hex::fits(hp_sum(h.take(i + 1))));
        }
        total = total + u.parts[i].hp;
        i = i + 1;
    }
    proof {
        assert(h.take(h.len() as int) =~= h);
    }
    u.hp = total;
    let fallen = total <= 0;
    if fallen {
        u.dead = true;
        u.ap = 0;
    }
    let mut t = String::new();
    t.append(from);
    t.append(" ");
    t.append(label);
    t.append(" ");
    t.append(u.name.as_str());
    t.append(" for ");
    push_decimal(&mut t, (dmg - remaining) as u32);
    t.append(".");
    let mut f = u.name.clone();
    f.append(" falls.");
    proof {
        assert(t@ =~= hit_text(from@, kind, u0.name@, dmg - remaining));
        assert(f@ =~= fall_text(u0.name@));
    }
    state.units.insert(k, u);
    proof {
        assert(state.units@ =~= s0.units@.update(k as int, state.units@[k as int]));
    }
    push_log(state, "hit", t);
    if fallen {
        push_log(state, "kill", f);
    }
}

/// 0.55 in single precision, in `2^-48` units: the base chance to hit.
pub const HIT_BASE: i128 = 0x8ccc_cd00_0000;

/// 0.05 in single precision: chance to hit per point of edge.
pub const HIT_PER_EDGE: i128 = 0xcc_cccd_0000_0;

/// 0.12 in single precision: the bonus of an aimed skill.
pub const HIT_AIMED: i128 = 0x1eb8_51e0_0000;

/// 0.15 in single precision: the least chance to hit.
pub const HIT_MIN: i128 = 0x2666_6680_0000;

/// 0.95 in single precision: the greatest chance to hit.
pub const HIT_MAX: i128 = 0xf333_3300_0000;

/// 0.35 in single precision: the base chance to block.
pub const BLOCK_BASE: i128 = 0x5999_9980_0000;

/// 0.08 in single precision: chance to block per point of guard.
pub const BLOCK_PER_GUARD: i128 = 0x147a_e140_0000;

/// 0.18 in single precision: the chance that a landed hit glances.
pub const GLANCE: i128 = 0x2e14_7b00_0000;

/// The attacker's edge: `clamp(pa - pd, -4, 8)`.
pub open spec fn edge(pa: i32, pd: i32) -> int {
    let d = pa - pd;
    if d < -4 {
        -4
    } else if d > 8 {
        8
    } else {
        d
    }
}

/// `effect_scale(pa, pd) = 1 + 0.25 * edge` in `2^-48` units (single
/// precision holds these quarters exactly).
pub open spec fn scale_units(pa: i32, pd: i32) -> int {
    (4 + edge(pa, pd)) * 0x4000_0000_0000
}

/// `x as i32` for a float holding `k` whole units: saturating.
pub open spec fn to_i32_sat(k: int) -> int {
    if k > i32::MAX {
        i32::MAX as int
    } else if k < i32::MIN {
        i32::MIN as int
    } else {
        k
    }
}

/// `(power as f32 * effect_scale(pa, pd)).round() as i32`.
pub open spec fn scaled_power(power: i32, pa: i32, pd: i32) -> int {
    to_i32_sat(fround(fmul(from_int(power as int), scale_units(pa, pd))) / grid())
}

/// `clamp(0.55 + 0.05 * (pa - pd) as f32 + (0.12 when aimed), 0.15, 0.95)`
/// in single precision.
pub open spec fn hit_chance(pa: i32, pd: i32, aimed: bool) -> int {
    let t = fadd(HIT_BASE as int, fmul(HIT_PER_EDGE as int, from_int(pa - pd)));
    let t2 = fadd(t, if aimed { HIT_AIMED as int } else { 0 });
    if t2 < HIT_MIN as int {
        HIT_MIN as int
    } else if t2 > HIT_MAX as int {
        HIT_MAX as int
    } else {
        t2
    }
}

/// Total guard of the statuses that guard at all.
pub open spec fn guard_total(st: Seq<Status>) -> int
    decreases st.len(),
{
    if st.len() == 0 {
        0
    } else {
        guard_total(st.drop_last()) + if st.last().guard > 0 {
            st.last().guard as int
        } else {
            0
        }
    }
}

/// `0.35 + guard as f32 * 0.08` in single precision.
pub open spec fn block_chance(g: int) -> int {
    fadd(BLOCK_BASE as int, fmul(from_int(g), BLOCK_PER_GUARD as int))
}

/// Integer division truncating toward zero (`i32 /`).
pub open spec fn tdiv(a: int, b: int) -> int {
    if a >= 0 {
        a / b
    } else {
        -((-a) / b)
    }
}

/// At least one.
pub open spec fn at_least_one(v: int) -> int {
    if v < 1 {
        1
    } else {
        v
    }
}

/// One blow with generator state `s`: the kind, the damage, and the
/// generator state after. An unblockable skill lands in full without a
/// roll. Otherwise a roll against the hit chance may miss; a defender on
/// guard may then block (a second roll) for a third of the power; else a
/// roll may make it glance for half; else it lands in full. Damage that
/// lands is at least 1.
pub open spec fn hit_roll(s: u32, def: Unit, skill: SkillDef, pa: i32, pd: i32) -> (HitKind, int, u32) {
    let power = scaled_power(skill.power, pa, pd);
    if skill.unblockable {
        (HitKind::Solid, at_least_one(power), s)
    } else {
        let s1 = lcg(s);
        if !(unit_of(s1) < hit_chance(pa, pd, skill.aimed)) {
            (HitKind::Miss, 0, s1)
        } else {
            let g = guard_total(def.statuses@);
            let s2 = if g > 0 {
                lcg(s1)
            } else {
                s1
            };
            if g > 0 && unit_of(s2) < block_chance(g) {
                (HitKind::Blocked, at_least_one(tdiv(power, 3)), s2)
            } else {
                let s3 = lcg(s2);
                if unit_of(s3) < GLANCE as int {
                    (HitKind::Glance, at_least_one(tdiv(power, 2)), s3)
                } else {
                    (HitKind::Solid, at_least_one(power), s3)
                }
            }
        }
    }
}

proof fn lemma_guard_total(st: Seq<Status>, n: int)
    requires
        0 <= n <= st.len(),
    ensures
        0 <= guard_total(st.take(n)) <= guard_total(st),
    decreases st.len() - n,
{
    if n < st.len() {
        lemma_guard_total(st, n + 1);
        assert(st.take(n + 1).drop_last() =~= st.take(n));
        assert(st.take(n + 1).last() == st[n]);
        lemma_guard_nonneg(st.take(n));
    } else {
        assert(st.take(n) =~= st);
        lemma_guard_nonneg(st);
    }
}

proof fn lemma_guard_nonneg(st: Seq<Status>)
    ensures
        guard_total(st) >= 0,
    decreases st.len(),
{
    if st.len() > 0 {
        lemma_guard_nonneg(st.drop_last());
    }
}

fn guard_of(def: &Unit) -> (g: i32)
    requires
        guard_total(def.statuses@) <= i32::MAX,
    ensures
        g == guard_total(def.statuses@),
{
    let ghost st = def.statuses@;
    let mut g: i32 = 0;
    let mut i: usize = 0;
    while i < def.statuses.len()
        invariant
            st == def.statuses@,
            guard_total(st) <= i32::MAX,
            0 <= i <= st.len(),
            g == guard_total(st.take(i as int)),
        decreases def.statuses.len() - i,
    {
        proof {
            assert(st.take(i + 1).drop_last() =~= st.take(i as int));
            assert(st.take(i + 1).last() == st[i as int]);
            lemma_guard_total(st, i + 1);
        }
        if def.statuses[i].guard > 0 {
            g = g + def.statuses[i].guard;
        }
        i = i + 1;
    }
    proof {
        assert(st.take(st.len() as int) =~= st);
    }
    g
}

/// `(power as f32 * effect_scale(pa, pd)).round() as i32`.
fn scaled_power_exec(power: i32, pa: i32, pd: i32) -> (p: i32)
    requires
        crate::hex::fits(pa - pd),
    ensures
        p == scaled_power(power, pa, pd),
{
    let d = pa - pd;
    let e: i32 = if d < -4 {
        -4
    } else if d > 8 {
        8
    } else {
        d
    };
    let k: i128 = (4 + e) as i128;
    let pf = f_from_int(power as i64);
    proof {
        assert(-0x8000_0000 * grid() <= power * grid() <= 0x8000_0000 * grid()) by (nonlinear_arith)
            requires
                i32::MIN <= power <= i32::MAX,
        ;
        assert(-0x1_0000_0000 * grid() * 12 <= pf * k <= 0x1_0000_0000 * grid() * 12) by (nonlinear_arith)
            requires
                -(0x8000_0000 * grid() + 0x8000_0000 * grid() / 0x80_0000 + 1) <= pf <= 0x8000_0000 * grid() + 0x8000_0000 * grid() / 0x80_0000 + 1,
                0 <= k <= 12,
        ;
    }
    let prod = rne_exec(pf * k, 4);
    proof {
        lemma_rne_scale(pf * k, 4, 0x4000_0000_0000);
        assert((pf * k) * 0x4000_0000_0000 == pf * (k * 0x4000_0000_0000)) by (nonlinear_arith);
        assert(prod == fmul(pf as int, scale_units(pa, pd)));
    }
    let r = f_round(prod);
    let q: i128 = if r >= 0 {
        r / GRID
    } else {
        -((-r) / GRID)
    };
    proof {
        if r < 0 {
            let m = ((-(prod as int) + grid() / 2) / grid());
            assert(r == -(m * grid()));
            vstd::arithmetic::div_mod::lemma_div_multiples_vanish(m, grid());
            assert(-r == m * grid()) by (nonlinear_arith)
                requires
                    r == -(m * grid()),
            ;
            assert((-r) / grid() == m);
            assert(-(m * grid()) == (-m) * grid()) by (nonlinear_arith);
            vstd::arithmetic::div_mod::lemma_div_multiples_vanish(-m, grid());
        }
    }
    if q > i32::MAX as i128 {
        i32::MAX
    } else if q < i32::MIN as i128 {
        i32::MIN
    } else {
        q as i32
    }
}

fn at_least_one_exec(v: i32) -> (r: i32)
    ensures
        r == at_least_one(v as int),
{
    if v < 1 {
        1
    } else {
        v
    }
}

fn tdiv_exec(a: i32, b: i32) -> (q: i32)
    requires
        b > 0,
    ensures
        q == tdiv(a as int, b as int),
{
    if a >= 0 {
        a / b
    } else {
        let m: i64 = -(a as i64);
        let r: i64 = -(m / (b as i64));
        r as i32
    }
}

fn hit_chance_exec(pa: i32, pd: i32, aimed: bool) -> (p: i128)
    requires
        crate::hex::fits(pa - pd),
    ensures
        p == hit_chance(pa, pd, aimed),
{
    let xf = f_from_int((pa - pd) as i64);
    proof {
        assert(-0x8000_0000 * grid() <= (pa - pd) * grid() <= 0x8000_0000 * grid()) by (nonlinear_arith)
            requires
                i32::MIN <= pa - pd <= i32::MAX,
        ;
        vstd::arithmetic::div_mod::lemma_fundamental_div_mod(xf as int, grid());
        let m = (xf as int) / grid();
        assert(HIT_PER_EDGE * xf == (HIT_PER_EDGE * m) * grid()) by (nonlinear_arith)
            requires
                xf == grid() * m,
        ;
        vstd::arithmetic::div_mod::lemma_mod_multiples_basic(HIT_PER_EDGE * m, grid());
    }
    let t1 = f_mul_small(HIT_PER_EDGE, xf);
    let t = f_add(HIT_BASE, t1);
    let t2 = f_add(t, if aimed {
        HIT_AIMED
    } else {
        0
    });
    if t2 < HIT_MIN {
        HIT_MIN
    } else if t2 > HIT_MAX {
        HIT_MAX
    } else {
        t2
    }
}

fn block_chance_exec(g: i32) -> (p: i128)
    requires
        g > 0,
    ensures
        p == block_chance(g as int),
{
    let gf = f_from_int(g as i64);
    proof {
        assert(0 <= g * grid() <= 0x8000_0000 * grid()) by (nonlinear_arith)
            requires
                0 <= g <= i32::MAX,
        ;
        vstd::arithmetic::div_mod::lemma_fundamental_div_mod(gf as int, grid());
        let m = (gf as int) / grid();
        assert(BLOCK_PER_GUARD * gf == (BLOCK_PER_GUARD * m) * grid()) by (nonlinear_arith)
            requires
                gf == grid() * m,
        ;
        vstd::arithmetic::div_mod::lemma_mod_multiples_basic(BLOCK_PER_GUARD * m, grid());
        assert(BLOCK_PER_GUARD * gf == gf * BLOCK_PER_GUARD) by (nonlinear_arith);
    }
    let tb = f_mul_small(BLOCK_PER_GUARD, gf);
    f_add(BLOCK_BASE, tb)
}

/// Resolves one blow of `skill` by `atk` on `def`, with the attacker's and
/// defender's stats `pa` and `pd`, drawing from `rng` as `hit_roll` says.
pub fn resolve_hit(
    rng: &mut Rng,
    atk: &Unit,
    def: &Unit,
    skill: &SkillDef,
    pa: i32,
    pd: i32,
) -> (r: (HitKind, i32))
    requires
        crate::hex::fits(pa - pd),
        guard_total(def.statuses@) <= i32::MAX,
    ensures
        r.0 == hit_roll(old(rng)@, *def, *skill, pa, pd).0,
        r.1 == hit_roll(old(rng)@, *def, *skill, pa, pd).1,
        final(rng)@ == hit_roll(old(rng)@, *def, *skill, pa, pd).2,
{
    let power = scaled_power_exec(skill.power, pa, pd);
    if skill.unblockable {
        return (HitKind::Solid, at_least_one_exec(power));
    }
    let p = hit_chance_exec(pa, pd, skill.aimed);
    if !rng.chance(p) {
        return (HitKind::Miss, 0);
    }
    let g = guard_of(def);
    if g > 0 {
        let pb = block_chance_exec(g);
        if rng.chance(pb) {
            return (HitKind::Blocked, at_least_one_exec(tdiv_exec(power, 3)));
        }
    }
    if rng.chance(GLANCE) {
        return (HitKind::Glance, at_least_one_exec(tdiv_exec(power, 2)));
    }
    (HitKind::Solid, at_least_one_exec(power))
}

/// A unit's parts all have hit points of at least zero, and their total
/// fits an `i32`.
pub open spec fn unit_parts_sound(u: Unit) -> bool {
    &&& forall|j: int| 0 <= j < u.parts@.len() ==> (#[trigger] u.parts@[j]).hp >= 0
    &&& hp_sum(hps_of(u.parts@)) <= i32::MAX
}

/// Every unit's parts are sound.
pub open spec fn parts_sound(units: Seq<Unit>) -> bool {
    forall|i: int| 0 <= i < units.len() ==> unit_parts_sound(#[trigger] units[i])
}

/// `f` holds the same units as `s`, changed at most in their part hit
/// points, hit points, fallen flag and action points.
pub open spec fn same_bodies(s: Seq<Unit>, f: Seq<Unit>) -> bool {
    &&& f.len() == s.len()
    &&& forall|i: int|
        0 <= i < s.len() ==> {
            let v = #[trigger] f[i];
            &&& v == (Unit { parts: v.parts, hp: v.hp, dead: v.dead, ap: v.ap, ..s[i] })
            &&& v.parts@.len() == s[i].parts@.len()
            &&& forall|j: int|
                0 <= j < v.parts@.len() ==> #[trigger] v.parts@[j] == (Part {
                    hp: v.parts@[j].hp,
                    ..s[i].parts@[j]
                })
        }
}

proof fn lemma_sum_mono(a: Seq<int>, b: Seq<int>)
    requires
        a.len() == b.len(),
        forall|i: int| 0 <= i < a.len() ==> a[i] <= b[i],
    ensures
        hp_sum(a) <= hp_sum(b),
    decreases a.len(),
{
    if a.len() > 0 {
        lemma_sum_mono(a.drop_last(), b.drop_last());
    }
}

proof fn lemma_sum_prefix(h: Seq<int>, n: int)
    requires
        0 <= n <= h.len(),
        forall|i: int| 0 <= i < h.len() ==> h[i] >= 0,
    ensures
        0 <= hp_sum(h.take(n)) <= hp_sum(h),
    decreases h.len() - n,
{
    if n < h.len() {
        lemma_sum_prefix(h, n + 1);
        assert(h.take(n + 1).drop_last() =~= h.take(n));
        lemma_sum_nonneg(h.take(n));
    } else {
        assert(h.take(n) =~= h);
        lemma_sum_nonneg(h);
    }
}

proof fn lemma_sum_nonneg(h: Seq<int>)
    requires
        forall|i: int| 0 <= i < h.len() ==> h[i] >= 0,
    ensures
        hp_sum(h) >= 0,
    decreases h.len(),
{
    if h.len() > 0 {
        lemma_sum_nonneg(h.drop_last());
    }
}

/// Damage spread over sound parts leaves sound parts whose running totals
/// fit.
pub(crate) proof fn lemma_spread_sound(parts: Seq<Part>, dmg: int)
    requires
        dmg >= 0,
        forall|j: int| 0 <= j < parts.len() ==> (#[trigger] parts[j]).hp >= 0,
        hp_sum(hps_of(parts)) <= i32::MAX,
    ensures
        spread(parts, dmg).0.len() == parts.len(),
        forall|j: int| 0 <= j < parts.len() ==> 0 <= #[trigger] spread(parts, dmg).0[j] <= parts[j].hp,
        hp_sum(spread(parts, dmg).0) <= i32::MAX,
        sums_fit(spread(parts, dmg).0),
{
    let n = parts.len() as int;
    let h0 = hps_of(parts);
    let l = limbs_of(parts);
    lemma_drain_shape(h0, l, true, n, dmg);
    let (h1, r1) = drain(h0, l, true, n, dmg);
    lemma_drain_shape(h1, l, false, n, r1);
    let h = spread(parts, dmg).0;
    assert forall|j: int| 0 <= j < parts.len() implies 0 <= #[trigger] h[j] <= parts[j].hp by {
        assert(h0[j] == parts[j].hp);
    }
    lemma_sum_mono(h, h0);
    assert forall|m: int| 0 <= m <= h.len() implies crate::hex::fits(#[trigger] hp_sum(h.take(m))) by {
        lemma_sum_prefix(h, m);
    }
}

/// A landed blow keeps the units' bodies and their soundness, and the rest
/// of the battle.
pub(crate) proof fn lemma_damaged_keeps(
    s: CombatState,
    f: CombatState,
    unit_id: Seq<char>,
    dmg: int,
    kind: HitKind,
    from: Seq<char>,
)
    requires
        damaged(s, f, unit_id, dmg, kind, from),
        parts_sound(s.units@),
    ensures
        same_bodies(s.units@, f.units@),
        parts_sound(f.units@),
        same_but_units_log(s, f),
{
    crate::combat::setup::lemma_find_unit(s.units@, unit_id);
    match find_unit(s.units@, unit_id) {
        None => {},
        Some(k) => {
            let u = s.units@[k];
            if !u.dead && dmg > 0 {
                assert(unit_parts_sound(s.units@[k]));
                lemma_spread_sound(u.parts@, dmg);
                let v = f.units@[k];
                assert forall|j: int| 0 <= j < v.parts@.len() implies (#[trigger] v.parts@[j]).hp >= 0 by {
                    assert(hps_of(v.parts@)[j] == v.parts@[j].hp);
                }
                assert(unit_parts_sound(v));
                assert forall|i: int| 0 <= i < f.units@.len() implies unit_parts_sound(#[trigger] f.units@[i]) by {
                    if i != k {
                        assert(f.units@[i] == s.units@[i]);
                    }
                }
                assert forall|i: int| 0 <= i < s.units@.len() implies {
                    let w = #[trigger] f.units@[i];
                    &&& w == (Unit { parts: w.parts, hp: w.hp, dead: w.dead, ap: w.ap, ..s.units@[i] })
                    &&& w.parts@.len() == s.units@[i].parts@.len()
                    &&& forall|j: int|
                        0 <= j < w.parts@.len() ==> #[trigger] w.parts@[j] == (Part {
                            hp: w.parts@[j].hp,
                            ..s.units@[i].parts@[j]
                        })
                } by {
                    if i != k {
                        assert(f.units@[i] == s.units@[i]);
                    }
                }
            } else {
                assert(f.units == s.units);
            }
        },
    }
}

pub(crate) proof fn lemma_same_bodies_trans(a: Seq<Unit>, b: Seq<Unit>, c: Seq<Unit>)
    requires
        same_bodies(a, b),
        same_bodies(b, c),
    ensures
        same_bodies(a, c),
{
    assert forall|i: int| 0 <= i < a.len() implies {
        let v = #[trigger] c[i];
        &&& v == (Unit { parts: v.parts, hp: v.hp, dead: v.dead, ap: v.ap, ..a[i] })
        &&& v.parts@.len() == a[i].parts@.len()
        &&& forall|j: int|
            0 <= j < v.parts@.len() ==> #[trigger] v.parts@[j] == (Part {
                hp: v.parts@[j].hp,
                ..a[i].parts@[j]
            })
    } by {
        let w = b[i];
        let v = c[i];
        assert forall|j: int| 0 <= j < v.parts@.len() implies #[trigger] v.parts@[j] == (Part {
            hp: v.parts@[j].hp,
            ..a[i].parts@[j]
        }) by {
            assert(w.parts@[j] == (Part { hp: w.parts@[j].hp, ..a[i].parts@[j] }));
        }
    }
}

pub(crate) proof fn lemma_same_bodies_refl(a: Seq<Unit>)
    ensures
        same_bodies(a, a),
{
    assert forall|i: int| 0 <= i < a.len() implies {
        let v = #[trigger] a[i];
        &&& v == (Unit { parts: v.parts, hp: v.hp, dead: v.dead, ap: v.ap, ..a[i] })
        &&& v.parts@.len() == a[i].parts@.len()
        &&& forall|j: int|
            0 <= j < v.parts@.len() ==> #[trigger] v.parts@[j] == (Part {
                hp: v.parts@[j].hp,
                ..a[i].parts@[j]
            })
    } by {}
}

proof fn lemma_sum_update(h: Seq<int>, i: int, v: int)
    requires
        0 <= i < h.len(),
    ensures
        hp_sum(h.update(i, v)) == hp_sum(h) - h[i] + v,
    decreases h.len(),
{
    if i < h.len() - 1 {
        lemma_sum_update(h.drop_last(), i, v);
        assert(h.update(i, v).drop_last() =~= h.drop_last().update(i, v));
    } else {
        assert(h.update(i, v).drop_last() =~= h.drop_last());
    }
}

proof fn lemma_drain_conserves(hps: Seq<int>, limb: Seq<bool>, pick: bool, n: int, rem: int)
    requires
        0 <= n <= hps.len(),
        hps.len() == limb.len(),
        rem >= 0,
    ensures
        hp_sum(drain(hps, limb, pick, n, rem).0) + (rem - drain(hps, limb, pick, n, rem).1)
            == hp_sum(hps),
    decreases n,
{
    if n > 0 {
        lemma_drain_conserves(hps, limb, pick, n - 1, rem);
        lemma_drain_shape(hps, limb, pick, n - 1, rem);
        let (h, r) = drain(hps, limb, pick, n - 1, rem);
        let i = n - 1;
        if hps[i] > 0 && limb[i] == pick {
            let t = if r < hps[i] { r } else { hps[i] };
            lemma_sum_update(h, i, hps[i] - t);
        }
    }
}

/// Damage spread over the parts is conserved: the hit points the parts
/// lose are exactly the damage dealt (`dmg` less what is left over), which
/// is what the log reports.
pub proof fn lemma_spread_conserves(parts: Seq<Part>, dmg: int)
    requires
        dmg >= 0,
    ensures
        hp_sum(spread(parts, dmg).0) + (dmg - spread(parts, dmg).1) == hp_sum(hps_of(parts)),
        0 <= spread(parts, dmg).1 <= dmg,
{
    let n = parts.len() as int;
    let h0 = hps_of(parts);
    let l = limbs_of(parts);
    lemma_drain_conserves(h0, l, true, n, dmg);
    lemma_drain_shape(h0, l, true, n, dmg);
    let (h1, r1) = drain(h0, l, true, n, dmg);
    lemma_drain_conserves(h1, l, false, n, r1);
    lemma_drain_shape(h1, l, false, n, r1);
}

} // verus!
