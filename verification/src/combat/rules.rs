//! Move / target legality.

use vstd::prelude::*;
use crate::hex::{
    ax, dist, disc, line, ring, cone, sweep, facing_of, facing_toward, hex_cone, hex_disc,
    hex_distance, hex_eq, hex_line, hex_ring, hex_sweep, disc_fits, Axial,
};
use crate::combat::types::{CombatState, Part, ShapeKind, SkillDef, Terrain, Unit};
use crate::combat::setup::{
    area_ok, core_hex, core_of, find_unit, find_unit_index, in_bounds, lemma_area_distance,
    lemma_find_unit, live_of, occupied, occupied_from, on_board, terrain_at, terrain_in, unit_ok,
    units_ok,
};
use crate::text::str_eq;

verus! {

/// Some live part of the unit belongs to the ripple zone.
pub open spec fn has_ripple_part(parts: Seq<Part>) -> bool {
    exists|i: int|
        0 <= i < parts.len() && (#[trigger] parts[i]).hp > 0 && (parts[i].zone matches Some(z)
            && z@ == "ripple"@)
}

/// A unit can pay for and is allowed to use a skill.
pub open spec fn usable(u: Unit, skill: SkillDef, has_raki: bool) -> bool {
    &&& !(u.ap < skill.ap || u.trans < skill.trans || u.yoki < skill.yoki)
    &&& !(skill.id@ == "drop"@ && !has_raki)
    &&& !(skill.id@ == "lure"@ && u.template_id@ != "raki"@)
    &&& !(skill.id@ == "ripple"@ && !has_ripple_part(u.parts@))
}

pub fn can_use(u: &Unit, skill: &SkillDef, has_raki: bool) -> (b: bool)
    ensures
        b == usable(*u, *skill, has_raki),
{
    if u.ap < skill.ap || u.trans < skill.trans || u.yoki < skill.yoki {
        return false;
    }
    if str_eq(skill.id, "drop") && !has_raki {
        return false;
    }
    if str_eq(skill.id, "lure") && !str_eq(u.template_id.as_str(), "raki") {
        return false;
    }
    if str_eq(skill.id, "ripple") {
        let mut found = false;
        let mut i: usize = 0;
        while i < u.parts.len()
            invariant
                0 <= i <= u.parts.len(),
                found == exists|k: int|
                    0 <= k < i && (#[trigger] u.parts@[k]).hp > 0 && (u.parts@[k].zone matches Some(
                        z,
                    ) && z@ == "ripple"@),
            decreases u.parts.len() - i,
        {
            let p = &u.parts[i];
            let hit = match &p.zone {
                Some(z) => str_eq(z.as_str(), "ripple") && p.hp > 0,
                None => false,
            };
            if hit {
                found = true;
            }
            i = i + 1;
        }
        if !found {
            return false;
        }
    }
    true
}

/// Action points it takes to step onto a cell.
pub open spec fn step_cost(t: Terrain) -> int {
    match t {
        Terrain::Water => 99,
        Terrain::Mud => 2,
        _ => 1,
    }
}

pub fn move_cost(state: &CombatState, hex: Axial) -> (c: i32)
    ensures
        c == step_cost(terrain_in(state.terrain@, hex)),
{
    match terrain_at(state, hex) {
        Terrain::Water => 99,
        Terrain::Mud => 2,
        _ => 1,
    }
}

/// Index of the first unit built from template `t`.
pub open spec fn find_template(units: Seq<Unit>, t: Seq<char>) -> Option<int>
    decreases units.len(),
{
    if units.len() == 0 {
        None
    } else if units[0].template_id@ == t {
        Some(0)
    } else {
        match find_template(units.drop_first(), t) {
            Some(k) => Some(k + 1),
            None => None,
        }
    }
}

proof fn lemma_find_template(units: Seq<Unit>, t: Seq<char>)
    ensures
        find_template(units, t) matches Some(k) ==> 0 <= k < units.len() && units[k].template_id@
            == t && forall|j: int| 0 <= j < k ==> (#[trigger] units[j]).template_id@ != t,
        find_template(units, t) is None ==> forall|j: int|
            0 <= j < units.len() ==> (#[trigger] units[j]).template_id@ != t,
    decreases units.len(),
{
    if units.len() > 0 {
        lemma_find_template(units.drop_first(), t);
        if units[0].template_id@ != t {
            assert forall|j: int| 1 <= j < units.len() implies units[j] == units.drop_first()[j - 1] by {}
        }
    }
}

/// Index of the first unit built from template `t`, found by a scan.
pub(crate) fn find_template_index(units: &Vec<Unit>, t: &str) -> (k: Option<usize>)
    ensures
        k matches Some(i) ==> find_template(units@, t@) == Some(i as int) && i < units@.len(),
        k is None ==> find_template(units@, t@) is None,
{
    proof {
        lemma_find_template(units@, t@);
    }
    let mut i: usize = 0;
    while i < units.len()
        invariant
            0 <= i <= units.len(),
            forall|j: int| 0 <= j < i ==> (#[trigger] units@[j]).template_id@ != t@,
            find_template(units@, t@) matches Some(k) ==> 0 <= k < units@.len()
                && units@[k].template_id@ == t@ && forall|j: int|
                0 <= j < k ==> (#[trigger] units@[j]).template_id@ != t@,
            find_template(units@, t@) is None ==> forall|j: int|
                0 <= j < units@.len() ==> (#[trigger] units@[j]).template_id@ != t@,
        decreases units.len() - i,
    {
        if str_eq(units[i].template_id.as_str(), t) {
            return Some(i);
        }
        i = i + 1;
    }
    None
}

/// Raki can help `actor`: a fielded, living Raki within three hexes of the
/// actor's core, or — with no Raki fielded — the off-board support flag.
pub open spec fn raki_helps(state: CombatState, actor_id: Seq<char>) -> bool {
    match find_template(state.units@, "raki"@) {
        Some(k) => {
            let raki = state.units@[k];
            if raki.dead {
                false
            } else {
                match find_unit(state.units@, actor_id) {
                    Some(a) => dist(core_of(state.units@[a]), core_of(raki)) <= 3,
                    None => false,
                }
            }
        },
        None => state.support_raki,
    }
}

pub fn raki_can_help(state: &CombatState, actor_id: &str) -> (b: bool)
    requires
        units_ok(*state),
    ensures
        b == raki_helps(*state, actor_id@),
{
    proof {
        lemma_find_template(state.units@, "raki"@);
        lemma_find_unit(state.units@, actor_id@);
    }
    let found = find_template_index(&state.units, "raki");
    match found {
        Some(k) => {
            let raki = &state.units[k];
            if raki.dead {
                return false;
            }
            match find_unit_index(&state.units, actor_id) {
                Some(a) => {
                    let actor = &state.units[a];
                    assert(unit_ok(state.units@[a as int]));
                    assert(unit_ok(state.units@[k as int]));
                    let ca = core_hex(actor);
                    let cr = core_hex(raki);
                    proof {
                        lemma_area_distance(ca, cr);
                    }
                    hex_distance(ca, cr) <= 3
                },
                None => false,
            }
        },
        None => {
            state.support_raki
        },
    }
}

/// The cells of `v` on the board, in order.
pub open spec fn clip(v: Seq<Axial>, cols: int, rows: int) -> Seq<Axial> {
    v.filter(|h: Axial| on_board(h, cols, rows))
}

/// The first `n` cells of `s`; all of them when `n` is negative (the
/// `as usize` of a negative length is beyond any line).
pub open spec fn take_len(s: Seq<Axial>, n: int) -> Seq<Axial> {
    if n < 0 || n >= s.len() {
        s
    } else {
        s.take(n)
    }
}

/// The cells a skill aimed at `target` covers.
pub open spec fn zone_of(cols: int, rows: int, u: Unit, skill: SkillDef, target: Axial) -> Seq<
    Axial,
> {
    let from = core_of(u);
    let face = facing_of(from, target);
    match skill.shape {
        ShapeKind::SelfCast => seq![from],
        ShapeKind::Single | ShapeKind::Leap => seq![target],
        ShapeKind::Line => clip(take_len(line(from, target).drop_first(), skill.length as int), cols, rows),
        ShapeKind::Cone => clip(cone(from, face, skill.range as int), cols, rows),
        ShapeKind::Blast => clip(disc(target, skill.range as int), cols, rows),
        ShapeKind::Ring => clip(ring(from, skill.range as int), cols, rows),
        ShapeKind::Sweep => clip(sweep(from, face), cols, rows),
        ShapeKind::Ripple => clip(ring(from, 1), cols, rows),
    }
}

/// A skill whose reach stays on the board scale.
pub open spec fn skill_ok(skill: SkillDef) -> bool {
    skill.range <= 0x20_0000
}

/// Keeps the cells of `v` that lie on the board.
fn clip_exec(v: Vec<Axial>, cols: i32, rows: i32) -> (out: Vec<Axial>)
    ensures
        out@ == clip(v@, cols as int, rows as int),
{
    let ghost pred = |h: Axial| on_board(h, cols as int, rows as int);
    let mut out: Vec<Axial> = Vec::new();
    let mut i: usize = 0;
    while i < v.len()
        invariant
            0 <= i <= v.len(),
            pred == (|h: Axial| on_board(h, cols as int, rows as int)),
            out@ == v@.take(i as int).filter(pred),
        decreases v.len() - i,
    {
        let h = v[i];
        let ghost before = out@;
        if in_bounds(h, cols, rows) {
            out.push(h);
        }
        proof {
            reveal(Seq::filter);
            assert(v@.take(i + 1).drop_last() == v@.take(i as int));
            assert(v@.take(i + 1).last() == h);
            assert(v@.take(i + 1).filter(pred) == if pred(h) {
                before.push(h)
            } else {
                before
            });
        }
        i = i + 1;
    }
    proof {
        assert(v@.take(v@.len() as int) == v@);
    }
    out
}

pub fn zone_for(state: &CombatState, u: &Unit, skill: &SkillDef, target: Axial) -> (out: Vec<Axial>)
    requires
        unit_ok(*u),
        area_ok(target),
        skill_ok(*skill),
    ensures
        out@ == zone_of(state.cols as int, state.rows as int, *u, *skill, target),
{
    let from = core_hex(u);
    proof {
        lemma_area_distance(from, target);
    }
    let face = facing_toward(from, target);
    match skill.shape {
        ShapeKind::SelfCast => vec![from],
        ShapeKind::Single | ShapeKind::Leap => vec![target],
        ShapeKind::Line => {
            let line = hex_line(from, target);
            let mut cut: Vec<Axial> = Vec::new();
            let mut i: usize = 1;
            let ghost rest = line@.drop_first();
            let ghost want = take_len(rest, skill.length as int);
            assert(line@.len() >= 1);
            while i < line.len() && (skill.length < 0 || i - 1 < skill.length as usize)
                invariant
                    1 <= i <= line@.len(),
                    rest == line@.drop_first(),
                    want == take_len(rest, skill.length as int),
                    skill.length >= 0 ==> i - 1 <= skill.length,
                    cut@ == rest.take(i - 1),
                decreases line.len() - i,
            {
                cut.push(line[i]);
                proof {
                    assert(rest.take(i as int) == rest.take(i - 1).push(line@[i as int]));
                }
                i = i + 1;
            }
            proof {
                if skill.length < 0 || skill.length >= rest.len() {
                    assert(i == line@.len());
                    assert(rest.take(rest.len() as int) == rest);
                } else {
                    assert(i - 1 == skill.length);
                }
            }
            clip_exec(cut, state.cols, state.rows)
        },
        ShapeKind::Cone => clip_exec(hex_cone(from, face, skill.range), state.cols, state.rows),
        ShapeKind::Blast => clip_exec(hex_disc(target, skill.range), state.cols, state.rows),
        ShapeKind::Ring => clip_exec(hex_ring(from, skill.range), state.cols, state.rows),
        ShapeKind::Sweep => clip_exec(hex_sweep(from, face), state.cols, state.rows),
        ShapeKind::Ripple => clip_exec(hex_ring(from, 1), state.cols, state.rows),
    }
}

/// Index of the first catalog skill with id `id`.
pub open spec fn find_skill(skills: Seq<SkillDef>, id: Seq<char>) -> Option<int>
    decreases skills.len(),
{
    if skills.len() == 0 {
        None
    } else if skills[0].id@ == id {
        Some(0)
    } else {
        match find_skill(skills.drop_first(), id) {
            Some(k) => Some(k + 1),
            None => None,
        }
    }
}

pub proof fn lemma_find_skill(skills: Seq<SkillDef>, id: Seq<char>)
    ensures
        find_skill(skills, id) matches Some(k) ==> 0 <= k < skills.len() && skills[k].id@ == id
            && forall|j: int| 0 <= j < k ==> (#[trigger] skills[j]).id@ != id,
        find_skill(skills, id) is None ==> forall|j: int|
            0 <= j < skills.len() ==> (#[trigger] skills[j]).id@ != id,
    decreases skills.len(),
{
    if skills.len() > 0 {
        lemma_find_skill(skills.drop_first(), id);
        if skills[0].id@ != id {
            assert forall|j: int| 1 <= j < skills.len() implies skills[j] == skills.drop_first()[j - 1] by {}
        }
    }
}

/// The catalog entry for a skill id: the first skill of the table with that id.
pub fn skill_by_id<'a>(skills: &'a [SkillDef], id: &str) -> (s: Option<&'a SkillDef>)
    ensures
        s matches Some(d) ==> find_skill(skills@, id@) matches Some(k) && *d == skills@[k],
        s is None ==> find_skill(skills@, id@) is None,
{
    proof {
        lemma_find_skill(skills@, id@);
    }
    let mut i: usize = 0;
    while i < skills.len()
        invariant
            0 <= i <= skills.len(),
            forall|j: int| 0 <= j < i ==> (#[trigger] skills@[j]).id@ != id@,
            find_skill(skills@, id@) matches Some(k) ==> 0 <= k < skills@.len() && skills@[k].id@
                == id@ && forall|j: int| 0 <= j < k ==> (#[trigger] skills@[j]).id@ != id@,
            find_skill(skills@, id@) is None ==> forall|j: int|
                0 <= j < skills@.len() ==> (#[trigger] skills@[j]).id@ != id@,
        decreases skills.len() - i,
    {
        if str_eq(skills[i].id, id) {
            return Some(&skills[i]);
        }
        i = i + 1;
    }
    None
}

/// Column `q` of a board with `rows` rows, top to bottom.
pub open spec fn board_col(q: int, rows: int) -> Seq<Axial> {
    Seq::new(if rows > 0 { rows as nat } else { 0 }, |r: int| ax(q, r))
}

/// Columns `0..q` of the board, left to right.
pub open spec fn cols_before(q: int, rows: int) -> Seq<Axial>
    decreases q,
{
    if q <= 0 {
        Seq::empty()
    } else {
        cols_before(q - 1, rows) + board_col(q - 1, rows)
    }
}

/// `h` is taken by a living unit other than `except`.
pub open spec fn taken(state: CombatState, except: Seq<char>, h: Axial) -> bool {
    exists|i: int|
        0 <= i < occupied_from(state.units@, Some(except)).len() && (#[trigger] occupied_from(
            state.units@,
            Some(except),
        )[i]).0 == h
}

/// Where `u` may aim `skill`.
pub open spec fn targets_of(state: CombatState, u: Unit, skill: SkillDef) -> Seq<Axial> {
    let from = core_of(u);
    if skill.self_cast || skill.shape == ShapeKind::SelfCast || skill.shape == ShapeKind::Ripple {
        seq![from]
    } else if skill.shape == ShapeKind::Leap {
        disc(from, skill.range as int).filter(
            |h: Axial|
                h != from && on_board(h, state.cols as int, state.rows as int) && terrain_in(
                    state.terrain@,
                    h,
                ) != Terrain::Water && !taken(state, u.id@, h),
        )
    } else {
        cols_before(state.cols as int, state.rows as int).filter(
            |h: Axial| 1 <= dist(from, h) <= skill.range,
        )
    }
}

/// `legal_targets` as a value: nothing for an unknown unit or skill id.
pub open spec fn legal_targets_of(
    state: CombatState,
    unit_id: Seq<char>,
    skill_id: Seq<char>,
    skills: Seq<SkillDef>,
) -> Seq<Axial> {
    match find_unit(state.units@, unit_id) {
        None => Seq::empty(),
        Some(k) => match find_skill(skills, skill_id) {
            None => Seq::empty(),
            Some(j) => targets_of(state, state.units@[k], skills[j]),
        },
    }
}

/// A board on the board scale.
pub open spec fn board_ok(state: CombatState) -> bool {
    &&& units_ok(state)
    &&& state.cols <= 0x20_0000
    &&& state.rows <= 0x20_0000
}

/// The catalog's skills all stay on the board scale.
pub open spec fn catalog_ok(skills: Seq<SkillDef>) -> bool {
    forall|i: int| 0 <= i < skills.len() ==> skill_ok(#[trigger] skills[i])
}

/// Every live cell of a standing unit other than `e` is among the occupied
/// cells.
proof fn lemma_occupied_covers(units: Seq<Unit>, e: Seq<char>, j: int, x: Axial)
    requires
        0 <= j < units.len(),
        !units[j].dead,
        units[j].id@ != e,
        live_of(units[j]).contains(x),
    ensures
        exists|i: int|
            0 <= i < occupied_from(units, Some(e)).len() && (#[trigger] occupied_from(
                units,
                Some(e),
            )[i]).0 == x,
    decreases units.len(),
{
    let u = units.last();
    let init = units.drop_last();
    let rest = occupied_from(init, Some(e));
    let occ = occupied_from(units, Some(e));
    if j == units.len() - 1 {
        let k = choose|k: int| 0 <= k < live_of(u).len() && live_of(u)[k] == x;
        let add = live_of(u).map_values(|h: Axial| (h, u.id));
        assert(occ == rest + add);
        assert(occ[rest.len() + k] == add[k]);
    } else {
        assert(init[j] == units[j]);
        lemma_occupied_covers(init, e, j, x);
        let i = choose|i: int| 0 <= i < rest.len() && (#[trigger] rest[i]).0 == x;
        if u.dead || u.id@ == e {
            assert(occ == rest);
        } else {
            let add = live_of(u).map_values(|h: Axial| (h, u.id));
            assert(occ == rest + add);
            assert(occ[i] == rest[i]);
        }
    }
}

/// Where a leap may land: a cell within its range of the leaper's core, on
/// the board, not water, not its own core, and not a live cell of any other
/// standing unit.
pub proof fn lemma_leap_targets(state: CombatState, u: Unit, skill: SkillDef, h: Axial)
    requires
        skill.shape == ShapeKind::Leap,
        !skill.self_cast,
        targets_of(state, u, skill).contains(h),
    ensures
        h != core_of(u),
        on_board(h, state.cols as int, state.rows as int),
        terrain_in(state.terrain@, h) != Terrain::Water,
        disc(core_of(u), skill.range as int).contains(h),
        forall|j: int|
            0 <= j < state.units@.len() && !state.units@[j].dead && state.units@[j].id@ != u.id@
                ==> !live_of(#[trigger] state.units@[j]).contains(h),
{
    let from = core_of(u);
    let pred = |x: Axial|
        x != from && on_board(x, state.cols as int, state.rows as int) && terrain_in(
            state.terrain@,
            x,
        ) != Terrain::Water && !taken(state, u.id@, x);
    let d = disc(from, skill.range as int);
    assert(targets_of(state, u, skill) == d.filter(pred));
    d.lemma_filter_contains_rev(pred, h);
    let k = choose|k: int| 0 <= k < d.filter(pred).len() && d.filter(pred)[k] == h;
    d.lemma_filter_pred(pred, k);
    assert forall|j: int|
        0 <= j < state.units@.len() && !state.units@[j].dead && state.units@[j].id@ != u.id@
            implies !live_of(#[trigger] state.units@[j]).contains(h) by {
        if live_of(state.units@[j]).contains(h) {
            lemma_occupied_covers(state.units@, u.id@, j, h);
        }
    }
}

/// A leap that `legal_targets` offers never lands on a live cell of another
/// standing unit, nor on the leaper's own core, water or off the board.
pub proof fn lemma_leap_lands_free(
    state: CombatState,
    unit_id: Seq<char>,
    skill_id: Seq<char>,
    skills: Seq<SkillDef>,
    h: Axial,
)
    requires
        find_unit(state.units@, unit_id) is Some,
        find_skill(skills, skill_id) is Some,
        skills[find_skill(skills, skill_id)->0].shape == ShapeKind::Leap,
        !skills[find_skill(skills, skill_id)->0].self_cast,
        legal_targets_of(state, unit_id, skill_id, skills).contains(h),
    ensures
        ({
            let u = state.units@[find_unit(state.units@, unit_id)->0];
            &&& h != core_of(u)
            &&& on_board(h, state.cols as int, state.rows as int)
            &&& terrain_in(state.terrain@, h) != Terrain::Water
            &&& disc(core_of(u), skills[find_skill(skills, skill_id)->0].range as int).contains(h)
            &&& forall|j: int|
                0 <= j < state.units@.len() && !state.units@[j].dead && state.units@[j].id@
                    != u.id@ ==> !live_of(#[trigger] state.units@[j]).contains(h)
        }),
{
    let u = state.units@[find_unit(state.units@, unit_id)->0];
    let s = skills[find_skill(skills, skill_id)->0];
    lemma_leap_targets(state, u, s, h);
}

pub(crate) fn is_taken(occ: &Vec<(Axial, String)>, h: Axial) -> (b: bool)
    ensures
        b == exists|i: int| 0 <= i < occ@.len() && (#[trigger] occ@[i]).0 == h,
{
    let mut i: usize = 0;
    while i < occ.len()
        invariant
            0 <= i <= occ.len(),
            forall|k: int| 0 <= k < i ==> (#[trigger] occ@[k]).0 != h,
        decreases occ.len() - i,
    {
        if hex_eq(occ[i].0, h) {
            return true;
        }
        i = i + 1;
    }
    false
}

pub fn legal_targets(
    state: &CombatState,
    unit_id: &str,
    skill_id: &str,
    skills: &[SkillDef],
) -> (out: Vec<Axial>)
    requires
        board_ok(*state),
        catalog_ok(skills@),
    ensures
        out@ == legal_targets_of(*state, unit_id@, skill_id@, skills@),
{
    let k = match find_unit_index(&state.units, unit_id) {
        Some(k) => k,
        None => return Vec::new(),
    };
    let skill = match skill_by_id(skills, skill_id) {
        Some(s) => s,
        None => return Vec::new(),
    };
    let u = &state.units[k];
    assert(unit_ok(state.units@[k as int]));
    proof {
        lemma_find_skill(skills@, skill_id@);
    }
    let from = core_hex(u);
    if skill.self_cast || skill.shape == ShapeKind::SelfCast || skill.shape == ShapeKind::Ripple {
        return vec![from];
    }
    if skill.shape == ShapeKind::Leap {
        let occ = occupied(state, Some(u.id.as_str()));
        let d = hex_disc(from, skill.range);
        let ghost pred = |h: Axial|
            h != from && on_board(h, state.cols as int, state.rows as int) && terrain_in(
                state.terrain@,
                h,
            ) != Terrain::Water && !taken(*state, u.id@, h);
        let mut out: Vec<Axial> = Vec::new();
        let mut i: usize = 0;
        while i < d.len()
            invariant
                0 <= i <= d.len(),
                occ@ == occupied_from(state.units@, Some(u.id@)),
                pred == (|h: Axial|
                    h != from && on_board(h, state.cols as int, state.rows as int) && terrain_in(
                        state.terrain@,
                        h,
                    ) != Terrain::Water && !taken(*state, u.id@, h)),
                out@ == d@.take(i as int).filter(pred),
            decreases d.len() - i,
        {
            let h = d[i];
            let ghost before = out@;
            if !hex_eq(h, from) && in_bounds(h, state.cols, state.rows) && terrain_at(state, h)
                != Terrain::Water && !is_taken(&occ, h) {
                out.push(h);
            }
            proof {
                reveal(Seq::filter);
                assert(d@.take(i + 1).drop_last() == d@.take(i as int));
                assert(d@.take(i + 1).last() == h);
                assert(d@.take(i + 1).filter(pred) == if pred(h) {
                    before.push(h)
                } else {
                    before
                });
            }
            i = i + 1;
        }
        proof {
            assert(d@.take(d@.len() as int) == d@);
        }
        return out;
    }
    let ghost pred = |h: Axial| 1 <= dist(from, h) <= skill.range;
    let mut cells: Vec<Axial> = Vec::new();
    let mut q: i32 = 0;
    while q < state.cols
        invariant
            board_ok(*state),
            area_ok(from),
            0 <= q <= state.cols || (state.cols <= 0 && q == 0),
            pred == (|h: Axial| 1 <= dist(from, h) <= skill.range),
            cells@ == cols_before(q as int, state.rows as int).filter(pred),
        decreases state.cols - q,
    {
        let ghost base = cells@;
        let ghost col = board_col(q as int, state.rows as int);
        let mut r: i32 = 0;
        while r < state.rows
            invariant
                board_ok(*state),
                area_ok(from),
                0 <= q < state.cols,
                0 <= r <= state.rows || (state.rows <= 0 && r == 0),
                pred == (|h: Axial| 1 <= dist(from, h) <= skill.range),
                col == board_col(q as int, state.rows as int),
                cells@ == base + col.take(r as int).filter(pred),
            decreases state.rows - r,
        {
            let h = Axial::new(q, r);
            let ghost before = cells@;
            proof {
                lemma_area_distance(from, h);
            }
            let d = hex_distance(from, h);
            if d >= 1 && d <= skill.range {
                cells.push(h);
            }
            proof {
                reveal(Seq::filter);
                assert(col.take(r + 1).drop_last() == col.take(r as int));
                assert(col.take(r + 1).last() == h);
                assert(col.take(r + 1).filter(pred) == if pred(h) {
                    col.take(r as int).filter(pred).push(h)
                } else {
                    col.take(r as int).filter(pred)
                });
            }
            r = r + 1;
        }
        proof {
            if state.rows > 0 {
                assert(col.take(r as int) == col);
            } else {
                assert(col.take(r as int) == col);
            }
            Seq::filter_distributes_over_add(
                cols_before(q as int, state.rows as int),
                col,
                pred,
            );
            assert(cols_before(q + 1, state.rows as int) == cols_before(q as int, state.rows as int)
                + col);
        }
        q = q + 1;
    }
    proof {
        if state.cols > 0 {
            assert(q == state.cols);
        } else {
            assert(cols_before(state.cols as int, state.rows as int) == Seq::<Axial>::empty());
            assert(cols_before(0, state.rows as int) == Seq::<Axial>::empty());
        }
    }
    cells
}

} // verus!