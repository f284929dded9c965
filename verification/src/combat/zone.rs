//! Striking every unit that stands in a zone.

use vstd::prelude::*;
use crate::hex::{hex_eq, Axial};
use crate::combat::types::{Attr, CombatState, HitKind, ShapeKind, SkillDef, Unit, stat_of};
use crate::combat::setup::{find_unit, find_unit_index, live_cells, live_of, unit_ok, units_ok};
use crate::combat::resolve::{
    apply_damage, damaged, guard_total, hit_roll, lemma_damaged_keeps, parts_sound, resolve_hit,
    same_bodies, same_but_units_log,
};
use crate::rng::Rng;

verus! {

/// The blow a zone deals: a single-target strike of the given power and
/// stats that only the zone's flags set apart.
pub open spec fn zone_skill(power: i32, pa: Attr, pd: Attr, aimed: bool, unblockable: bool) -> SkillDef {
    SkillDef {
        id: "zone",
        name: "Zone",
        blurb: "",
        ap: 0,
        trans: 0,
        yoki: 0,
        shape: ShapeKind::Single,
        range: 0,
        length: 0,
        pa,
        pd,
        power,
        aimed,
        self_cast: false,
        heal: 0,
        trans_delta: 0,
        move_range: 0,
        guard: 0,
        telegraph: false,
        afterimage: false,
        unblockable,
        strikes: true,
    }
}

/// The ids of the standing units among the first `n` that have a live cell
/// on `cell`, in order.
pub open spec fn targets_upto(units: Seq<Unit>, cell: Axial, n: int) -> Seq<Seq<char>>
    decreases n,
{
    if n <= 0 {
        Seq::empty()
    } else {
        let rest = targets_upto(units, cell, n - 1);
        let u = units[n - 1];
        if !u.dead && live_of(u).contains(cell) {
            rest.push(u.id@)
        } else {
            rest
        }
    }
}

/// The ids of the standing units with a live cell on `cell`, in order.
pub open spec fn targets_at(units: Seq<Unit>, cell: Axial) -> Seq<Seq<char>> {
    targets_upto(units, cell, units.len() as int)
}

/// One blow of the zone on unit `tid`, the generator going from `r` to
/// `rf`: nothing for an unknown unit or (unless unblockable) an ally of
/// the attacker; otherwise a rolled hit whose damage lands.
pub open spec fn blow(
    s: CombatState,
    f: CombatState,
    r: u32,
    rf: u32,
    atk: Unit,
    sk: SkillDef,
    tid: Seq<char>,
) -> bool {
    match find_unit(s.units@, tid) {
        None => f == s && rf == r,
        Some(k) => {
            let def = s.units@[k];
            if def.side == atk.side && !sk.unblockable {
                f == s && rf == r
            } else {
                let roll = hit_roll(r, def, sk, stat_of(atk.stats, sk.pa), stat_of(def.stats, sk.pd));
                rf == roll.2 && damaged(s, f, tid, roll.1, roll.0, atk.name@)
            }
        },
    }
}

/// The blows on the first `m` ids of `tids`, one after the other, going
/// from `s` to `f` through the states `mids` (before each blow) with the
/// generator at `rms`.
pub open spec fn blows_via(
    s: CombatState,
    f: CombatState,
    r: u32,
    rf: u32,
    atk: Unit,
    sk: SkillDef,
    tids: Seq<Seq<char>>,
    m: int,
    mids: Seq<CombatState>,
    rms: Seq<u32>,
) -> bool
    decreases m,
{
    if m <= 0 {
        f == s && rf == r
    } else {
        &&& blows_via(s, mids[m - 1], r, rms[m - 1], atk, sk, tids, m - 1, mids, rms)
        &&& blow(mids[m - 1], f, rms[m - 1], rf, atk, sk, tids[m - 1])
    }
}

/// The zone's first `n` cells struck one after the other, going from `s`
/// to `f` through the states `cs` (before each cell): each cell strikes
/// the units standing on it at that moment, through the states `bm` and
/// generator states `br`.
pub open spec fn cells_via(
    s: CombatState,
    f: CombatState,
    r: u32,
    rf: u32,
    atk: Unit,
    sk: SkillDef,
    cells: Seq<Axial>,
    n: int,
    cs: Seq<CombatState>,
    crs: Seq<u32>,
    bm: Seq<Seq<CombatState>>,
    br: Seq<Seq<u32>>,
) -> bool
    decreases n,
{
    if n <= 0 {
        f == s && rf == r
    } else {
        &&& cells_via(s, cs[n - 1], r, crs[n - 1], atk, sk, cells, n - 1, cs, crs, bm, br)
        &&& {
            let tids = targets_at(cs[n - 1].units@, cells[n - 1]);
            blows_via(cs[n - 1], f, crs[n - 1], rf, atk, sk, tids, tids.len() as int, bm[n - 1], br[n - 1])
        }
    }
}

/// Striking the zone's cells leads from `s` to `f`, the generator starting
/// at `r`.
pub open spec fn zone_struck(
    s: CombatState,
    f: CombatState,
    r: u32,
    atk: Unit,
    sk: SkillDef,
    cells: Seq<Axial>,
) -> bool {
    exists|rf: u32, cs: Seq<CombatState>, crs: Seq<u32>, bm: Seq<Seq<CombatState>>, br: Seq<Seq<u32>>|
        #[trigger] cells_via(s, f, r, rf, atk, sk, cells, cells.len() as int, cs, crs, bm, br)
}

proof fn lemma_blows_frame(
    s: CombatState,
    f: CombatState,
    r: u32,
    rf: u32,
    atk: Unit,
    sk: SkillDef,
    tids: Seq<Seq<char>>,
    m: int,
    mids: Seq<CombatState>,
    rms: Seq<u32>,
    x: CombatState,
    y: u32,
)
    requires
        0 <= m <= mids.len(),
        m <= rms.len(),
        blows_via(s, f, r, rf, atk, sk, tids, m, mids, rms),
    ensures
        blows_via(s, f, r, rf, atk, sk, tids, m, mids.push(x), rms.push(y)),
    decreases m,
{
    if m > 0 {
        lemma_blows_frame(s, mids[m - 1], r, rms[m - 1], atk, sk, tids, m - 1, mids, rms, x, y);
        assert(mids.push(x)[m - 1] == mids[m - 1]);
        assert(rms.push(y)[m - 1] == rms[m - 1]);
    }
}

proof fn lemma_cells_frame(
    s: CombatState,
    f: CombatState,
    r: u32,
    rf: u32,
    atk: Unit,
    sk: SkillDef,
    cells: Seq<Axial>,
    n: int,
    cs: Seq<CombatState>,
    crs: Seq<u32>,
    bm: Seq<Seq<CombatState>>,
    br: Seq<Seq<u32>>,
    x: CombatState,
    y: u32,
    xm: Seq<CombatState>,
    yr: Seq<u32>,
)
    requires
        0 <= n <= cs.len(),
        n <= crs.len(),
        n <= bm.len(),
        n <= br.len(),
        cells_via(s, f, r, rf, atk, sk, cells, n, cs, crs, bm, br),
    ensures
        cells_via(s, f, r, rf, atk, sk, cells, n, cs.push(x), crs.push(y), bm.push(xm), br.push(yr)),
    decreases n,
{
    if n > 0 {
        lemma_cells_frame(s, cs[n - 1], r, crs[n - 1], atk, sk, cells, n - 1, cs, crs, bm, br, x, y, xm, yr);
        assert(cs.push(x)[n - 1] == cs[n - 1]);
        assert(crs.push(y)[n - 1] == crs[n - 1]);
        assert(bm.push(xm)[n - 1] == bm[n - 1]);
        assert(br.push(yr)[n - 1] == br[n - 1]);
    }
}

/// The generator state a zone starts from: the battle seed plus
/// `31 * round + turn` (wrapping), zero taken as one.
pub open spec fn zone_seed(s: CombatState) -> u32 {
    let x = ((s.seed + (s.round as u32) * 31 + (s.turn as u32)) % 0x1_0000_0000) as u32;
    if x == 0 {
        1
    } else {
        x
    }
}

/// What a zone needs of the battle: units on the board scale with sound
/// parts, guards that add up within an `i32`, and an attacker's stat whose
/// difference with every defender's fits.
pub open spec fn zone_ready(s: CombatState, atk_stat: int, pd: Attr) -> bool {
    &&& units_ok(s)
    &&& parts_sound(s.units@)
    &&& forall|i: int|
        0 <= i < s.units@.len() ==> {
            &&& crate::hex::fits(atk_stat - stat_of((#[trigger] s.units@[i]).stats, pd))
            &&& guard_total(s.units@[i].statuses@) <= i32::MAX
        }
}

/// The ids of the standing units with a live cell on `cell`.
fn zone_targets(state: &CombatState, cell: Axial) -> (ids: Vec<String>)
    requires
        units_ok(*state),
    ensures
        ids@.map_values(|t: String| t@) == targets_at(state.units@, cell),
{
    let mut ids: Vec<String> = Vec::new();
    let mut i: usize = 0;
    while i < state.units.len()
        invariant
            units_ok(*state),
            0 <= i <= state.units@.len(),
            ids@.map_values(|t: String| t@) == targets_upto(state.units@, cell, i as int),
        decreases state.units.len() - i,
    {
        let u = &state.units[i];
        let ghost before = ids@;
        if !u.dead {
            assert(unit_ok(state.units@[i as int]));
            let cells = live_cells(u);
            let mut j: usize = 0;
            let mut on = false;
            while j < cells.len()
                invariant
                    0 <= j <= cells@.len(),
                    on == exists|x: int| 0 <= x < j && cells@[x] == cell,
                decreases cells.len() - j,
            {
                if hex_eq(cells[j], cell) {
                    on = true;
                }
                j = j + 1;
            }
            if on {
                ids.push(u.id.clone());
                proof {
                    assert(ids@.map_values(|t: String| t@) =~= before.map_values(|t: String| t@).push(
                        u.id@,
                    ));
                }
            }
        }
        i = i + 1;
    }
    ids
}

/// Strikes every unit standing on the zone's cells, cell by cell, each in
/// board order, with a blow of `power` by the unit `actor_id` rolled from a
/// generator seeded by the battle seed, round and turn. Allies of the
/// attacker are spared unless the blow is unblockable. Nothing happens for
/// an unknown attacker.
pub fn apply_zone(
    state: &mut CombatState,
    cells: &[Axial],
    power: i32,
    pa: Attr,
    pd: Attr,
    actor_id: &str,
    aimed: bool,
    unblockable: bool,
)
    requires
        (old(state).round as u32) * 31 + (old(state).turn as u32) <= u32::MAX,
        match find_unit(old(state).units@, actor_id@) {
            Some(a) => zone_ready(*old(state), stat_of(old(state).units@[a].stats, pa) as int, pd),
            None => true,
        },
    ensures
        match find_unit(old(state).units@, actor_id@) {
            None => *final(state) == *old(state),
            Some(a) => zone_struck(
                *old(state),
                *final(state),
                zone_seed(*old(state)),
                old(state).units@[a],
                zone_skill(power, pa, pd, aimed, unblockable),
                cells@,
            ),
        },
{
    let mut rng = Rng::new(state.seed.wrapping_add((state.round as u32) * 31 + state.turn as u32));
    let a = match find_unit_index(&state.units, actor_id) {
        Some(a) => a,
        None => return ,
    };
    let ghost s0 = *state;
    let ghost r0 = rng@;
    let ghost atk = state.units@[a as int];
    let ghost sk = zone_skill(power, pa, pd, aimed, unblockable);
    let atk_side = state.units[a].side;
    let atk_name = state.units[a].name.clone();
    let atk_stat = state.units[a].stats.get(pa);
    let ghost mut cs: Seq<CombatState> = Seq::empty();
    let ghost mut crs: Seq<u32> = Seq::empty();
    let ghost mut bm: Seq<Seq<CombatState>> = Seq::empty();
    let ghost mut br: Seq<Seq<u32>> = Seq::empty();
    proof {
        assert(r0 == zone_seed(s0));
        crate::combat::resolve::lemma_same_bodies_refl(s0.units@);
    }
    let mut ci: usize = 0;
    while ci < cells.len()
        invariant
            0 <= ci <= cells@.len(),
            cs.len() == ci,
            crs.len() == ci,
            bm.len() == ci,
            br.len() == ci,
            a < s0.units@.len(),
            atk == s0.units@[a as int],
            atk_side == atk.side,
            atk_name@ == atk.name@,
            atk_stat == stat_of(atk.stats, pa),
            sk == zone_skill(power, pa, pd, aimed, unblockable),
            zone_ready(s0, atk_stat as int, pd),
            same_bodies(s0.units@, state.units@),
            parts_sound(state.units@),
            same_but_units_log(s0, *state),
            cells_via(s0, *state, r0, rng@, atk, sk, cells@, ci as int, cs, crs, bm, br),
        decreases cells.len() - ci,
    {
        let cell = cells[ci];
        let ghost mid = *state;
        let ghost rm = rng@;
        proof {
            lemma_ready_kept(s0, *state, atk_stat as int, pd);
        }
        let tids = zone_targets(state, cell);
        let ghost tv = tids@.map_values(|t: String| t@);
        let ghost mut mids: Seq<CombatState> = Seq::empty();
        let ghost mut rms: Seq<u32> = Seq::empty();
        let mut ti: usize = 0;
        while ti < tids.len()
            invariant
                0 <= ci < cells@.len(),
                cell == cells@[ci as int],
                0 <= ti <= tids@.len(),
                mids.len() == ti,
                rms.len() == ti,
                tv == tids@.map_values(|t: String| t@),
                tv == targets_at(mid.units@, cell),
                a < s0.units@.len(),
                atk == s0.units@[a as int],
                atk_side == atk.side,
                atk_name@ == atk.name@,
                atk_stat == stat_of(atk.stats, pa),
                sk == zone_skill(power, pa, pd, aimed, unblockable),
                zone_ready(s0, atk_stat as int, pd),
                same_bodies(s0.units@, state.units@),
                parts_sound(state.units@),
                same_but_units_log(s0, *state),
                cs.len() == ci,
                crs.len() == ci,
                bm.len() == ci,
                br.len() == ci,
                cells_via(s0, mid, r0, rm, atk, sk, cells@, ci as int, cs, crs, bm, br),
                blows_via(mid, *state, rm, rng@, atk, sk, tv, ti as int, mids, rms),
            decreases tids.len() - ti,
        {
            let tid = tids[ti].as_str();
            assert(tid@ == tv[ti as int]);
            let ghost s1 = *state;
            let ghost r1 = rng@;
            proof {
                lemma_ready_kept(s0, *state, atk_stat as int, pd);
                crate::combat::setup::lemma_find_unit(state.units@, tid@);
            }
            match find_unit_index(&state.units, tid) {
                None => {},
                Some(k) => {
                    if state.units[k].side == atk_side && !unblockable {
                    } else {
                        let zs = SkillDef {
                            id: "zone",
                            name: "Zone",
                            blurb: "",
                            ap: 0,
                            trans: 0,
                            yoki: 0,
                            shape: ShapeKind::Single,
                            range: 0,
                            length: 0,
                            pa,
                            pd,
                            power,
                            aimed,
                            self_cast: false,
                            heal: 0,
                            trans_delta: 0,
                            move_range: 0,
                            guard: 0,
                            telegraph: false,
                            afterimage: false,
                            unblockable,
                            strikes: true,
                        };
                        let pd_v = state.units[k].stats.get(pd);
                        let (kind, dmg) = resolve_hit(
                            &mut rng,
                            &state.units[a],
                            &state.units[k],
                            &zs,
                            atk_stat,
                            pd_v,
                        );
                        proof {
                            if dmg > 0 && !state.units@[k as int].dead {
                                assert(crate::combat::resolve::unit_parts_sound(
                                    state.units@[k as int],
                                ));
                                crate::combat::resolve::lemma_spread_sound(
                                    state.units@[k as int].parts@,
                                    dmg as int,
                                );
                            }
                        }
                        apply_damage(state, tid, dmg, kind, atk_name.as_str());
                        proof {
                            lemma_damaged_keeps(s1, *state, tid@, dmg as int, kind, atk_name@);
                            crate::combat::resolve::lemma_same_bodies_trans(
                                s0.units@,
                                s1.units@,
                                state.units@,
                            );
                        }
                    }
                },
            }
            proof {
                assert(blow(s1, *state, r1, rng@, atk, sk, tv[ti as int]));
                lemma_blows_frame(mid, s1, rm, r1, atk, sk, tv, ti as int, mids, rms, s1, r1);
                mids = mids.push(s1);
                rms = rms.push(r1);
                assert(mids[ti as int] == s1 && rms[ti as int] == r1);
                assert(blows_via(mid, *state, rm, rng@, atk, sk, tv, ti + 1, mids, rms));
            }
            ti = ti + 1;
        }
        proof {
            lemma_cells_frame(
                s0,
                mid,
                r0,
                rm,
                atk,
                sk,
                cells@,
                ci as int,
                cs,
                crs,
                bm,
                br,
                mid,
                rm,
                mids,
                rms,
            );
            cs = cs.push(mid);
            crs = crs.push(rm);
            bm = bm.push(mids);
            br = br.push(rms);
            assert(cs[ci as int] == mid && crs[ci as int] == rm && bm[ci as int] == mids
                && br[ci as int] == rms);
            assert(cells_via(s0, *state, r0, rng@, atk, sk, cells@, ci + 1, cs, crs, bm, br));
        }
        ci = ci + 1;
    }
    proof {
        assert(cells_via(
            s0,
            *state,
            r0,
            rng@,
            atk,
            sk,
            cells@,
            cells@.len() as int,
            cs,
            crs,
            bm,
            br,
        ));
    }
}

/// The zone's needs keep holding while blows land.
proof fn lemma_ready_kept(s0: CombatState, s: CombatState, atk_stat: int, pd: Attr)
    requires
        zone_ready(s0, atk_stat, pd),
        same_bodies(s0.units@, s.units@),
        parts_sound(s.units@),
    ensures
        zone_ready(s, atk_stat, pd),
{
    assert forall|i: int| 0 <= i < s.units@.len() implies unit_ok(#[trigger] s.units@[i]) by {
        assert(unit_ok(s0.units@[i]));
    }
    assert forall|i: int| 0 <= i < s.units@.len() implies {
        &&& crate::hex::fits(atk_stat - stat_of((#[trigger] s.units@[i]).stats, pd))
        &&& guard_total(s.units@[i].statuses@) <= i32::MAX
    } by {
        assert(s.units@[i].stats == s0.units@[i].stats);
        assert(s.units@[i].statuses == s0.units@[i].statuses);
    }
}

proof fn lemma_blows_keep(
    s: CombatState,
    f: CombatState,
    r: u32,
    rf: u32,
    atk: Unit,
    sk: SkillDef,
    tids: Seq<Seq<char>>,
    m: int,
    mids: Seq<CombatState>,
    rms: Seq<u32>,
)
    requires
        blows_via(s, f, r, rf, atk, sk, tids, m, mids, rms),
        parts_sound(s.units@),
    ensures
        same_bodies(s.units@, f.units@),
        parts_sound(f.units@),
        same_but_units_log(s, f),
    decreases m,
{
    if m <= 0 {
        crate::combat::resolve::lemma_same_bodies_refl(s.units@);
    } else {
        let mid = mids[m - 1];
        lemma_blows_keep(s, mid, r, rms[m - 1], atk, sk, tids, m - 1, mids, rms);
        match find_unit(mid.units@, tids[m - 1]) {
            None => {},
            Some(k) => {
                let def = mid.units@[k];
                if !(def.side == atk.side && !sk.unblockable) {
                    let roll = hit_roll(rms[m - 1], def, sk, stat_of(atk.stats, sk.pa), stat_of(def.stats, sk.pd));
                    lemma_damaged_keeps(mid, f, tids[m - 1], roll.1, roll.0, atk.name@);
                    crate::combat::resolve::lemma_same_bodies_trans(s.units@, mid.units@, f.units@);
                }
            },
        }
    }
}

proof fn lemma_cells_keep(
    s: CombatState,
    f: CombatState,
    r: u32,
    rf: u32,
    atk: Unit,
    sk: SkillDef,
    cells: Seq<Axial>,
    n: int,
    cs: Seq<CombatState>,
    crs: Seq<u32>,
    bm: Seq<Seq<CombatState>>,
    br: Seq<Seq<u32>>,
)
    requires
        cells_via(s, f, r, rf, atk, sk, cells, n, cs, crs, bm, br),
        parts_sound(s.units@),
    ensures
        same_bodies(s.units@, f.units@),
        parts_sound(f.units@),
        same_but_units_log(s, f),
    decreases n,
{
    if n <= 0 {
        crate::combat::resolve::lemma_same_bodies_refl(s.units@);
    } else {
        let c = cs[n - 1];
        lemma_cells_keep(s, c, r, crs[n - 1], atk, sk, cells, n - 1, cs, crs, bm, br);
        let tids = targets_at(c.units@, cells[n - 1]);
        lemma_blows_keep(c, f, crs[n - 1], rf, atk, sk, tids, tids.len() as int, bm[n - 1], br[n - 1]);
        crate::combat::resolve::lemma_same_bodies_trans(s.units@, c.units@, f.units@);
    }
}

/// A zone only wounds: striking it changes nothing but the units' hit
/// points (of the unit and of its parts), fallen flags and action points,
/// and the log; every part stays sound.
pub proof fn lemma_zone_keeps(
    s: CombatState,
    f: CombatState,
    r: u32,
    atk: Unit,
    sk: SkillDef,
    cells: Seq<Axial>,
)
    requires
        zone_struck(s, f, r, atk, sk, cells),
        parts_sound(s.units@),
    ensures
        same_bodies(s.units@, f.units@),
        parts_sound(f.units@),
        same_but_units_log(s, f),
{
    let (rf, cs, crs, bm, br) = choose|rf: u32, cs: Seq<CombatState>, crs: Seq<u32>, bm: Seq<Seq<CombatState>>, br: Seq<Seq<u32>>|
        #[trigger] cells_via(s, f, r, rf, atk, sk, cells, cells.len() as int, cs, crs, bm, br);
    lemma_cells_keep(s, f, r, rf, atk, sk, cells, cells.len() as int, cs, crs, bm, br);
}

} // verus!
