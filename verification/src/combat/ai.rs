//! Enemy turn policy and readable strike tells.

use vstd::prelude::*;
use crate::hex::{ax, disc, dist, hex_distance, hex_eq, Axial};
use crate::combat::types::{CombatState, PlayerAction, Side, SkillDef, ShapeKind, Terrain, Unit};
use crate::combat::moves::{legal_moves, moves_order, reachable, walk};
use crate::combat::setup::{
    alive_on, area_ok, core_hex, core_of, current_of, current_unit, live_cells, live_of,
    lemma_area_distance, on_board, unit_ok, units_ok,
};
use crate::combat::rules::{
    board_col, board_ok, can_use, catalog_ok, cols_before, find_skill, legal_targets,
    legal_targets_of, lemma_find_skill, skill_by_id, taken, targets_of, usable, zone_for, zone_of,
};
use crate::combat::setup::{find_unit, terrain_in};
use crate::text::str_eq;

verus! {

/// What an enemy would swing right now (no move, no Raise).
#[derive(Clone, Debug, PartialEq, Eq)]
pub struct IntendedStrike {
    pub unit_id: String,
    pub skill_id: String,
    pub hex: Axial,
}

/// The unit carries a `lured` status.
pub open spec fn lured(a: Unit) -> bool {
    exists|k: int| 0 <= k < a.statuses@.len() && (#[trigger] a.statuses@[k]).id@ == "lured"@
}

/// The order in which an enemy picks its prey: lured first, then anyone
/// but the boy out of biting range, then the nearest.
pub open spec fn foe_rank(from: Axial, a: Unit) -> (bool, bool, int) {
    let d = dist(from, core_of(a));
    (!lured(a), a.template_id@ == "raki"@ && d > 1, d)
}

/// `x` comes strictly before `y` (`false` before `true`, then by number).
pub open spec fn rank_before(x: (bool, bool, int), y: (bool, bool, int)) -> bool {
    ||| !x.0 && y.0
    ||| x.0 == y.0 && !x.1 && y.1
    ||| x.0 == y.0 && x.1 == y.1 && x.2 < y.2
}

/// Among the first `n` units, the first standing player unit of the
/// earliest rank seen from `from`.
pub open spec fn nearest_in(units: Seq<Unit>, from: Axial, n: int) -> Option<int>
    decreases n,
{
    if n <= 0 {
        None
    } else {
        let prev = nearest_in(units, from, n - 1);
        let i = n - 1;
        if !alive_on(units[i], Some(Side::Player)) {
            prev
        } else {
            match prev {
                None => Some(i),
                Some(b) => if rank_before(foe_rank(from, units[i]), foe_rank(from, units[b])) {
                    Some(i)
                } else {
                    prev
                },
            }
        }
    }
}

/// The player unit an enemy standing at `from` goes for.
pub open spec fn nearest_of(units: Seq<Unit>, from: Axial) -> Option<int> {
    nearest_in(units, from, units.len() as int)
}

/// The nearest foe is a standing player unit no other standing player unit
/// comes before, and every earlier one comes after it.
pub proof fn lemma_nearest(units: Seq<Unit>, from: Axial, n: int)
    requires
        0 <= n <= units.len(),
    ensures
        nearest_in(units, from, n) is None <==> forall|j: int|
            0 <= j < n ==> !alive_on(#[trigger] units[j], Some(Side::Player)),
        nearest_in(units, from, n) matches Some(i) ==> {
            &&& 0 <= i < n
            &&& alive_on(units[i], Some(Side::Player))
            &&& forall|j: int|
                0 <= j < n && alive_on(#[trigger] units[j], Some(Side::Player)) ==> !rank_before(
                    foe_rank(from, units[j]),
                    foe_rank(from, units[i]),
                ) && (j < i ==> rank_before(foe_rank(from, units[i]), foe_rank(from, units[j])))
        },
    decreases n,
{
    if n > 0 {
        lemma_nearest(units, from, n - 1);
    }
}

/// Whom an enemy at `from` goes for: lured prey before anyone else, and,
/// among units equally lured, warriors before the boy (a Raki-template
/// unit) unless he is within one hex. So the chosen foe is a standing
/// player unit, and it is a boy more than one hex away only when no
/// standing non-boy player unit shares its lured status; and it is unlured
/// only when no standing player unit is lured; within its class it is the
/// nearest.
pub proof fn lemma_prey_order(units: Seq<Unit>, from: Axial)
    ensures
        nearest_of(units, from) matches Some(i) ==> {
            &&& 0 <= i < units.len()
            &&& !units[i].dead && units[i].side == Side::Player
            &&& (!lured(units[i]) ==> forall|j: int|
                0 <= j < units.len() && !units[j].dead && units[j].side == Side::Player ==> !lured(
                    #[trigger] units[j],
                ))
            &&& (units[i].template_id@ == "raki"@ && dist(from, core_of(units[i])) > 1 ==> forall|j: int|
                0 <= j < units.len() && !units[j].dead && units[j].side == Side::Player
                    && lured(#[trigger] units[j]) == lured(units[i]) ==> units[j].template_id@
                    == "raki"@)
            &&& forall|j: int|
                0 <= j < units.len() && !units[j].dead && units[j].side == Side::Player && lured(
                    #[trigger] units[j],
                ) == lured(units[i]) && (units[j].template_id@ == "raki"@ && dist(
                    from,
                    core_of(units[j]),
                ) > 1) == (units[i].template_id@ == "raki"@ && dist(from, core_of(units[i])) > 1)
                    ==> dist(from, core_of(units[i])) <= dist(from, core_of(units[j]))
        },
        nearest_of(units, from) is None ==> forall|j: int|
            0 <= j < units.len() ==> !(!(#[trigger] units[j]).dead && units[j].side == Side::Player),
{
    lemma_nearest(units, from, units.len() as int);
    match nearest_of(units, from) {
        Some(i) => {
            assert forall|j: int|
                0 <= j < units.len() && !units[j].dead && units[j].side == Side::Player implies !lured(
                    #[trigger] units[j],
                ) || lured(units[i]) by {
                assert(alive_on(units[j], Some(Side::Player)));
            }
            assert forall|j: int|
                0 <= j < units.len() && !units[j].dead && units[j].side == Side::Player && lured(
                    #[trigger] units[j],
                ) == lured(units[i]) && units[i].template_id@ == "raki"@ && dist(
                    from,
                    core_of(units[i]),
                ) > 1 implies units[j].template_id@ == "raki"@ by {
                assert(alive_on(units[j], Some(Side::Player)));
            }
            assert forall|j: int|
                0 <= j < units.len() && !units[j].dead && units[j].side == Side::Player && lured(
                    #[trigger] units[j],
                ) == lured(units[i]) && (units[j].template_id@ == "raki"@ && dist(
                    from,
                    core_of(units[j]),
                ) > 1) == (units[i].template_id@ == "raki"@ && dist(from, core_of(units[i])) > 1)
                    implies dist(from, core_of(units[i])) <= dist(from, core_of(units[j])) by {
                assert(alive_on(units[j], Some(Side::Player)));
            }
        },
        None => {
            assert forall|j: int| 0 <= j < units.len() implies !(!(#[trigger] units[j]).dead
                && units[j].side == Side::Player) by {
                assert(!alive_on(units[j], Some(Side::Player)));
            }
        },
    }
}

fn is_lured(a: &Unit) -> (b: bool)
    ensures
        b == lured(*a),
{
    let mut k: usize = 0;
    while k < a.statuses.len()
        invariant
            0 <= k <= a.statuses.len(),
            forall|j: int| 0 <= j < k ==> (#[trigger] a.statuses@[j]).id@ != "lured"@,
        decreases a.statuses.len() - k,
    {
        if str_eq(a.statuses[k].id.as_str(), "lured") {
            return true;
        }
        k = k + 1;
    }
    false
}

fn rank_of(from: Axial, a: &Unit) -> (r: (bool, bool, i32))
    requires
        area_ok(from),
        unit_ok(*a),
    ensures
        r.0 == foe_rank(from, *a).0,
        r.1 == foe_rank(from, *a).1,
        r.2 == foe_rank(from, *a).2,
{
    let lured = is_lured(a);
    let boy = str_eq(a.template_id.as_str(), "raki");
    let c = core_hex(a);
    proof {
        lemma_area_distance(from, c);
    }
    let d = hex_distance(from, c);
    (!lured, boy && d > 1, d)
}

fn before(x: (bool, bool, i32), y: (bool, bool, i32)) -> (b: bool)
    ensures
        b == rank_before((x.0, x.1, x.2 as int), (y.0, y.1, y.2 as int)),
{
    (!x.0 && y.0) || (x.0 == y.0 && !x.1 && y.1) || (x.0 == y.0 && x.1 == y.1 && x.2 < y.2)
}

/// The player unit `u` goes for: lured units first, then warriors (the boy
/// only when within one hex), then the nearest; the earliest unit on ties.
fn nearest_foe(state: &CombatState, u: &Unit) -> (r: Option<usize>)
    requires
        units_ok(*state),
        unit_ok(*u),
    ensures
        r matches Some(i) ==> nearest_of(state.units@, core_of(*u)) == Some(i as int),
        r is None ==> nearest_of(state.units@, core_of(*u)) is None,
{
    let from = core_hex(u);
    let mut best: Option<usize> = None;
    let mut best_rank: (bool, bool, i32) = (true, true, 0);
    let mut i: usize = 0;
    while i < state.units.len()
        invariant
            units_ok(*state),
            area_ok(from),
            from == core_of(*u),
            0 <= i <= state.units.len(),
            best matches Some(b) ==> nearest_in(state.units@, from, i as int) == Some(b as int)
                && best_rank.0 == foe_rank(from, state.units@[b as int]).0 && best_rank.1
                == foe_rank(from, state.units@[b as int]).1 && best_rank.2 == foe_rank(
                from,
                state.units@[b as int],
            ).2,
            best is None ==> nearest_in(state.units@, from, i as int) is None,
        decreases state.units.len() - i,
    {
        let a = &state.units[i];
        if !a.dead && a.side == Side::Player {
            assert(unit_ok(state.units@[i as int]));
            let r = rank_of(from, a);
            match best {
                None => {
                    best = Some(i);
                    best_rank = r;
                },
                Some(_) => {
                    if before(r, best_rank) {
                        best = Some(i);
                        best_rank = r;
                    }
                },
            }
        }
        i = i + 1;
    }
    best
}

/// The catalog skills of `u` (in the order it lists them) that it could
/// use now without the boy and that deal damage.
pub open spec fn ai_cands(u: Unit, skills: Seq<SkillDef>, ids: Seq<String>) -> Seq<SkillDef>
    decreases ids.len(),
{
    if ids.len() == 0 {
        Seq::empty()
    } else {
        let rest = ai_cands(u, skills, ids.drop_last());
        match find_skill(skills, ids.last()@) {
            Some(j) => if usable(u, skills[j], false) && skills[j].power > 0 {
                rest.push(skills[j])
            } else {
                rest
            },
            None => rest,
        }
    }
}

/// The first of the strongest skills of `c`.
pub open spec fn strongest(c: Seq<SkillDef>) -> Option<SkillDef>
    decreases c.len(),
{
    if c.len() == 0 {
        None
    } else {
        match strongest(c.drop_last()) {
            Some(b) => if c.last().power > b.power {
                Some(c.last())
            } else {
                Some(b)
            },
            None => Some(c.last()),
        }
    }
}

/// `strongest` picks a skill of greatest power, the first one of that power.
pub proof fn lemma_strongest(c: Seq<SkillDef>)
    ensures
        strongest(c) is None <==> c.len() == 0,
        strongest(c) matches Some(b) ==> exists|i: int|
            0 <= i < c.len() && c[i] == b && (forall|j: int|
                0 <= j < c.len() ==> (#[trigger] c[j]).power <= b.power) && (forall|j: int|
                0 <= j < i ==> (#[trigger] c[j]).power < b.power),
    decreases c.len(),
{
    if c.len() > 0 {
        let p = c.drop_last();
        lemma_strongest(p);
        match strongest(p) {
            Some(b) => {
                let i = choose|i: int|
                    0 <= i < p.len() && p[i] == b && (forall|j: int|
                        0 <= j < p.len() ==> (#[trigger] p[j]).power <= b.power) && (forall|j: int|
                        0 <= j < i ==> (#[trigger] p[j]).power < b.power);
                assert forall|j: int| 0 <= j < p.len() implies c[j] == p[j] by {}
                if c.last().power > b.power {
                    assert(c[c.len() - 1] == c.last());
                } else {
                    assert(c[i] == b);
                }
            },
            None => {
                assert(c[c.len() - 1] == c.last());
            },
        }
    }
}

/// The skill an enemy reaches for: its strongest usable damaging skill.
pub fn pick_ai_skill<'a>(state: &CombatState, u: &Unit, skills: &'a [SkillDef]) -> (r: Option<
    &'a SkillDef,
>)
    ensures
        r matches Some(s) ==> strongest(ai_cands(*u, skills@, u.skills@)) == Some(*s),
        r is None ==> strongest(ai_cands(*u, skills@, u.skills@)) is None,
{
    let mut best: Option<&SkillDef> = None;
    let mut i: usize = 0;
    while i < u.skills.len()
        invariant
            0 <= i <= u.skills.len(),
            best matches Some(s) ==> strongest(ai_cands(*u, skills@, u.skills@.take(i as int)))
                == Some(*s),
            best is None ==> strongest(ai_cands(*u, skills@, u.skills@.take(i as int))) is None,
        decreases u.skills.len() - i,
    {
        proof {
            assert(u.skills@.take(i + 1).drop_last() == u.skills@.take(i as int));
            assert(u.skills@.take(i + 1).last() == u.skills@[i as int]);
        }
        let ghost c0 = ai_cands(*u, skills@, u.skills@.take(i as int));
        let ghost c1 = ai_cands(*u, skills@, u.skills@.take(i + 1));
        match skill_by_id(skills, u.skills[i].as_str()) {
            Some(s) => {
                proof {
                    if usable(*u, *s, false) && s.power > 0 {
                        assert(c1 == c0.push(*s));
                        assert(c1.drop_last() == c0);
                        assert(c1.last() == *s);
                    } else {
                        assert(c1 == c0);
                    }
                }
                if can_use(u, s, false) && s.power > 0 {
                    match best {
                        None => {
                            best = Some(s);
                        },
                        Some(b) => {
                            if s.power > b.power {
                                best = Some(s);
                            }
                        },
                    }
                }
            },
            None => {
                assert(c1 == c0);
            },
        }
        i = i + 1;
    }
    proof {
        assert(u.skills@.take(u.skills@.len() as int) == u.skills@);
    }
    best
}

proof fn lemma_cands_in(u: Unit, skills: Seq<SkillDef>, ids: Seq<String>)
    ensures
        forall|i: int|
            0 <= i < ai_cands(u, skills, ids).len() ==> exists|j: int|
                0 <= j < skills.len() && skills[j] == #[trigger] ai_cands(u, skills, ids)[i],
    decreases ids.len(),
{
    if ids.len() > 0 {
        lemma_cands_in(u, skills, ids.drop_last());
        lemma_find_skill(skills, ids.last()@);
        let rest = ai_cands(u, skills, ids.drop_last());
        assert forall|i: int| 0 <= i < ai_cands(u, skills, ids).len() implies exists|j: int|
            0 <= j < skills.len() && skills[j] == #[trigger] ai_cands(u, skills, ids)[i] by {
            if i < rest.len() {
                assert(ai_cands(u, skills, ids)[i] == rest[i]);
            }
        }
    }
}

/// The zone of `s` aimed at `t` touches one of `cells`.
pub open spec fn hits_at(state: CombatState, u: Unit, s: SkillDef, cells: Seq<Axial>, t: Axial) -> bool {
    meets(zone_of(state.cols as int, state.rows as int, u, s, t), cells)
}

/// Index of the first target of `ts` whose zone touches one of `cells`.
pub open spec fn first_hit(state: CombatState, u: Unit, s: SkillDef, cells: Seq<Axial>, ts: Seq<Axial>) -> Option<int>
    decreases ts.len(),
{
    if ts.len() == 0 {
        None
    } else if hits_at(state, u, s, cells, ts[0]) {
        Some(0)
    } else {
        match first_hit(state, u, s, cells, ts.drop_first()) {
            Some(k) => Some(k + 1),
            None => None,
        }
    }
}

proof fn lemma_first_hit(state: CombatState, u: Unit, s: SkillDef, cells: Seq<Axial>, ts: Seq<Axial>)
    ensures
        first_hit(state, u, s, cells, ts) matches Some(k) ==> 0 <= k < ts.len() && hits_at(state, u, s, cells, ts[k]) && forall|j: int|
            0 <= j < k ==> !hits_at(state, u, s, cells, #[trigger] ts[j]),
        first_hit(state, u, s, cells, ts) is None ==> forall|j: int| 0 <= j < ts.len() ==> !hits_at(state, u, s, cells, #[trigger] ts[j]),
    decreases ts.len(),
{
    if ts.len() > 0 {
        lemma_first_hit(state, u, s, cells, ts.drop_first());
        assert forall|j: int| 1 <= j < ts.len() implies ts[j] == ts.drop_first()[j - 1] by {}
    }
}

/// Some cell of `zone` is one of `cells`.
pub open spec fn meets(zone: Seq<Axial>, cells: Seq<Axial>) -> bool {
    exists|a: int, b: int| 0 <= a < zone.len() && 0 <= b < cells.len() && zone[a] == cells[b]
}

/// What `u` would strike right now, as (unit id, skill id, aim hex): its
/// strongest usable skill aimed at the first legal target whose zone
/// touches a live cell of its chosen foe; nothing for a fallen or
/// non-enemy unit, without a foe or a skill, while the skill still needs a
/// Raise, or out of reach.
pub open spec fn strike_of(state: CombatState, u: Unit, skills: Seq<SkillDef>) -> Option<
    (Seq<char>, Seq<char>, Axial),
> {
    if u.dead || u.side != Side::Enemy {
        None
    } else {
        match nearest_of(state.units@, core_of(u)) {
            None => None,
            Some(fi) => match strongest(ai_cands(u, skills, u.skills@)) {
                None => None,
                Some(s) => if u.trans < s.trans && !u.raised_trans {
                    None
                } else if !usable(u, s, false) {
                    None
                } else {
                    let ts = legal_targets_of(state, u.id@, s.id@, skills);
                    let cells = live_of(state.units@[fi]);
                    match first_hit(state, u, s, cells, ts) {
                        None => None,
                        Some(k) => Some((u.id@, s.id@, ts[k])),
                    }
                },
            },
        }
    }
}

fn meets_exec(zone: &Vec<Axial>, cells: &Vec<Axial>) -> (b: bool)
    ensures
        b == meets(zone@, cells@),
{
    let mut a: usize = 0;
    while a < zone.len()
        invariant
            0 <= a <= zone.len(),
            forall|x: int, y: int|
                #![trigger zone@[x], cells@[y]]
                0 <= x < a && 0 <= y < cells@.len() ==> zone@[x] != cells@[y],
        decreases zone.len() - a,
    {
        let mut b: usize = 0;
        while b < cells.len()
            invariant
                0 <= a < zone.len(),
                0 <= b <= cells.len(),
                forall|x: int, y: int|
                    #![trigger zone@[x], cells@[y]]
                    0 <= x < a && 0 <= y < cells@.len() ==> zone@[x] != cells@[y],
                forall|y: int| 0 <= y < b ==> zone@[a as int] != #[trigger] cells@[y],
            decreases cells.len() - b,
        {
            if hex_eq(zone[a], cells[b]) {
                return true;
            }
            b = b + 1;
        }
        a = a + 1;
    }
    false
}

proof fn lemma_cols_before_on_board(q: int, rows: int)
    requires
        q <= i32::MAX,
        rows <= i32::MAX,
    ensures
        forall|i: int|
            0 <= i < cols_before(q, rows).len() ==> on_board(
                #[trigger] cols_before(q, rows)[i],
                q,
                rows,
            ),
    decreases q,
{
    if q > 0 {
        lemma_cols_before_on_board(q - 1, rows);
        let p = cols_before(q - 1, rows);
        let c = board_col(q - 1, rows);
        assert(cols_before(q, rows) == p + c);
        assert forall|i: int| 0 <= i < cols_before(q, rows).len() implies on_board(
            #[trigger] cols_before(q, rows)[i],
            q,
            rows,
        ) by {
            if i < p.len() {
                assert(cols_before(q, rows)[i] == p[i]);
            } else {
                let k = i - p.len();
                assert(cols_before(q, rows)[i] == c[k]);
                assert(c[k] == ax(q - 1, k));
                assert(0 <= k < rows);
            }
        }
    }
}

/// Every legal target lies on the board scale.
pub(crate) proof fn lemma_targets_area(state: CombatState, u: Unit, skill: SkillDef)
    requires
        board_ok(state),
        unit_ok(u),
    ensures
        forall|i: int|
            0 <= i < targets_of(state, u, skill).len() ==> area_ok(
                #[trigger] targets_of(state, u, skill)[i],
            ),
{
    let from = core_of(u);
    crate::combat::setup::lemma_unit_cells(u);
    if skill.self_cast || skill.shape == ShapeKind::SelfCast || skill.shape == ShapeKind::Ripple {
    } else if skill.shape == ShapeKind::Leap {
        let pred = |h: Axial|
            h != from && on_board(h, state.cols as int, state.rows as int) && terrain_in(
                state.terrain@,
                h,
            ) != Terrain::Water && !taken(state, u.id@, h);
        broadcast use vstd::seq::Seq::lemma_filter_pred;

    } else {
        let pred = |h: Axial| 1 <= dist(from, h) <= skill.range;
        let all = cols_before(state.cols as int, state.rows as int);
        broadcast use vstd::seq::Seq::lemma_filter_pred;
        lemma_cols_before_on_board(state.cols as int, state.rows as int);
        assert forall|i: int| 0 <= i < all.filter(pred).len() implies area_ok(
            #[trigger] all.filter(pred)[i],
        ) by {
            let h = all.filter(pred)[i];
            assert(all.contains(h)) by {
                all.lemma_filter_contains_rev(pred, h);
            }
            let w = choose|w: int| 0 <= w < all.len() && all[w] == h;
            assert(on_board(all[w], state.cols as int, state.rows as int));
        }
    }
}

/// Peek the skill and aim hex this enemy would fire from its current cell.
/// `None` when out of reach, with no living foe, or while it still needs a
/// Raise.
#[verifier::rlimit(40)]
pub fn intended_strike(state: &CombatState, u: &Unit, skills: &[SkillDef]) -> (r: Option<
    IntendedStrike,
>)
    requires
        board_ok(*state),
        catalog_ok(skills@),
        unit_ok(*u),
    ensures
        r is None <==> strike_of(*state, *u, skills@) is None,
        r matches Some(st) ==> strike_of(*state, *u, skills@) == Some(
            (st.unit_id@, st.skill_id@, st.hex),
        ),
{
    if u.dead || u.side != Side::Enemy {
        return None;
    }
    let fi = match nearest_foe(state, u) {
        Some(i) => i,
        None => return None,
    };
    proof {
        lemma_nearest(state.units@, core_of(*u), state.units@.len() as int);
    }
    let skill = match pick_ai_skill(state, u, skills) {
        Some(s) => s,
        None => return None,
    };
    if u.trans < skill.trans && !u.raised_trans {
        return None;
    }
    if !can_use(u, skill, false) {
        return None;
    }
    proof {
        lemma_strongest(ai_cands(*u, skills@, u.skills@));
        lemma_cands_in(*u, skills@, u.skills@);
    }
    let targets = legal_targets(state, u.id.as_str(), skill.id, skills);
    assert(unit_ok(state.units@[fi as int]));
    let foe_cells = live_cells(&state.units[fi]);
    let ghost cells = foe_cells@;
    proof {
        lemma_first_hit(*state, *u, *skill, cells, targets@);
        crate::combat::setup::lemma_find_unit(state.units@, u.id@);
        lemma_find_skill(skills@, skill.id@);
        match find_unit(state.units@, u.id@) {
            Some(k) => match find_skill(skills@, skill.id@) {
                Some(j) => {
                    lemma_targets_area(*state, state.units@[k], skills@[j]);
                },
                None => {},
            },
            None => {},
        }
    }
    let mut i: usize = 0;
    while i < targets.len()
        invariant
            board_ok(*state),
            unit_ok(*u),
            crate::combat::rules::skill_ok(*skill),
            catalog_ok(skills@),
            0 <= i <= targets.len(),
            forall|x: int| 0 <= x < targets@.len() ==> area_ok(#[trigger] targets@[x]),
            foe_cells@ == cells,
            !u.dead && u.side == Side::Enemy,
            nearest_of(state.units@, core_of(*u)) == Some(fi as int),
            strongest(ai_cands(*u, skills@, u.skills@)) == Some(*skill),
            !(u.trans < skill.trans && !u.raised_trans),
            usable(*u, *skill, false),
            targets@ == legal_targets_of(*state, u.id@, skill.id@, skills@),
            cells == live_of(state.units@[fi as int]),
            forall|j: int| 0 <= j < i ==> !hits_at(*state, *u, *skill, cells, #[trigger] targets@[j]),
        decreases targets.len() - i,
    {
        let t = targets[i];
        let zone = zone_for(state, u, skill, t);
        if meets_exec(&zone, &foe_cells) {
            proof {
                lemma_first_hit(*state, *u, *skill, cells, targets@);
                assert(hits_at(*state, *u, *skill, cells, targets@[i as int]));
            }
            return Some(
                IntendedStrike { unit_id: u.id.clone(), skill_id: skill.id.to_owned(), hex: t },
            );
        }
        i = i + 1;
    }
    proof {
        lemma_first_hit(*state, *u, *skill, cells, targets@);
    }
    None
}

/// Index of the first standing enemy unit with id `id`.
pub open spec fn enemy_with(units: Seq<Unit>, id: Seq<char>) -> Option<int>
    decreases units.len(),
{
    if units.len() == 0 {
        None
    } else if units[0].id@ == id && !units[0].dead && units[0].side == Side::Enemy {
        Some(0)
    } else {
        match enemy_with(units.drop_first(), id) {
            Some(k) => Some(k + 1),
            None => None,
        }
    }
}

proof fn lemma_enemy_with(units: Seq<Unit>, id: Seq<char>)
    ensures
        enemy_with(units, id) matches Some(k) ==> 0 <= k < units.len() && units[k].id@ == id
            && !units[k].dead && units[k].side == Side::Enemy && forall|j: int|
            0 <= j < k ==> !((#[trigger] units[j]).id@ == id && !units[j].dead && units[j].side
                == Side::Enemy),
        enemy_with(units, id) is None ==> forall|j: int|
            0 <= j < units.len() ==> !((#[trigger] units[j]).id@ == id && !units[j].dead
                && units[j].side == Side::Enemy),
    decreases units.len(),
{
    if units.len() > 0 {
        lemma_enemy_with(units.drop_first(), id);
        assert forall|j: int| 1 <= j < units.len() implies units[j] == units.drop_first()[j - 1] by {}
    }
}

/// Walking the turn order from `turn + i` on: the first slot whose id names
/// a standing enemy unit.
pub open spec fn next_in_order(state: CombatState, i: int) -> Option<int>
    decreases state.order@.len() + 1 - i,
{
    let n = state.order@.len();
    if i < 1 || i > n {
        None
    } else {
        match enemy_with(state.units@, state.order@[(state.turn + i) % (n as int)]@) {
            Some(k) => Some(k),
            None => next_in_order(state, i + 1),
        }
    }
}

/// The next standing enemy to act: the current unit when it is one, else
/// the first enemy named further along the turn order (wrapping around).
pub open spec fn next_enemy_of(state: CombatState) -> Option<Unit> {
    match current_of(state) {
        Some(u) => if u.side == Side::Enemy && !u.dead {
            Some(u)
        } else {
            match next_in_order(state, 1) {
                Some(k) => Some(state.units@[k]),
                None => None,
            }
        },
        None => match next_in_order(state, 1) {
            Some(k) => Some(state.units@[k]),
            None => None,
        },
    }
}

fn enemy_index(units: &Vec<Unit>, id: &str) -> (k: Option<usize>)
    ensures
        k matches Some(i) ==> enemy_with(units@, id@) == Some(i as int),
        k is None ==> enemy_with(units@, id@) is None,
{
    proof {
        lemma_enemy_with(units@, id@);
    }
    let mut i: usize = 0;
    while i < units.len()
        invariant
            0 <= i <= units.len(),
            forall|j: int|
                0 <= j < i ==> !((#[trigger] units@[j]).id@ == id@ && !units@[j].dead
                    && units@[j].side == Side::Enemy),
            enemy_with(units@, id@) matches Some(k) ==> 0 <= k < units@.len() && units@[k].id@
                == id@ && !units@[k].dead && units@[k].side == Side::Enemy && forall|j: int|
                0 <= j < k ==> !((#[trigger] units@[j]).id@ == id@ && !units@[j].dead
                    && units@[j].side == Side::Enemy),
            enemy_with(units@, id@) is None ==> forall|j: int|
                0 <= j < units@.len() ==> !((#[trigger] units@[j]).id@ == id@ && !units@[j].dead
                    && units@[j].side == Side::Enemy),
        decreases units.len() - i,
    {
        let u = &units[i];
        if str_eq(u.id.as_str(), id) && !u.dead && u.side == Side::Enemy {
            return Some(i);
        }
        i = i + 1;
    }
    None
}

/// Next living enemy that will act: the current unit if it is one, else
/// the next one in `order`.
pub fn next_enemy_unit(state: &CombatState) -> (r: Option<&Unit>)
    ensures
        r matches Some(u) ==> next_enemy_of(*state) == Some(*u),
        r is None ==> next_enemy_of(*state) is None,
{
    match current_unit(state) {
        Some(u) => {
            if u.side == Side::Enemy && !u.dead {
                return Some(u);
            }
        },
        None => {},
    }
    let n = state.order.len();
    if n == 0 {
        return None;
    }
    let t = state.turn % n;
    let mut j: usize = 0;
    while j < n
        invariant
            n == state.order@.len(),
            n > 0,
            t == state.turn % n,
            0 <= j <= n,
            next_in_order(*state, 1) == next_in_order(*state, j + 1),
            match current_of(*state) {
                Some(c) => !(c.side == Side::Enemy && !c.dead),
                None => true,
            },
        decreases n - j,
    {
        let i = j + 1;
        let idx: usize = if t < n - i {
            t + i
        } else {
            t - (n - i)
        };
        proof {
            vstd::arithmetic::div_mod::lemma_add_mod_noop_right(i as int, state.turn as int, n as int);
            if t + i >= n {
                vstd::arithmetic::div_mod::lemma_mod_multiples_vanish(1, (t + i - n) as int, n as int);
                vstd::arithmetic::div_mod::lemma_small_mod((t + i - n) as nat, n as nat);
            } else {
                vstd::arithmetic::div_mod::lemma_small_mod((t + i) as nat, n as nat);
            }
            assert(idx as int == (state.turn + i) % (n as int));
        }
        proof {
            lemma_enemy_with(state.units@, state.order@[idx as int]@);
        }
        match enemy_index(&state.units, state.order[idx].as_str()) {
            Some(k) => {
                proof {
                    assert(enemy_with(state.units@, state.order@[((state.turn + i) % (n as int))]@) == Some(k as int));
                    assert(next_in_order(*state, i as int) == Some(k as int));
                }
                return Some(&state.units[k]);
            },
            None => {},
        }
        j = j + 1;
    }
    None
}

/// Peek the next enemy's strike while the player still owns the turn.
pub fn peek_enemy_tell(state: &CombatState, skills: &[SkillDef]) -> (r: Option<IntendedStrike>)
    requires
        board_ok(*state),
        catalog_ok(skills@),
    ensures
        r is None ==> next_enemy_of(*state) is None || strike_of(
            *state,
            next_enemy_of(*state)->0,
            skills@,
        ) is None,
        r matches Some(st) ==> next_enemy_of(*state) is Some && strike_of(
            *state,
            next_enemy_of(*state)->0,
            skills@,
        ) == Some((st.unit_id@, st.skill_id@, st.hex)),
{
    let u = match next_enemy_unit(state) {
        Some(u) => u,
        None => return None,
    };
    proof {
        assert(unit_ok(*u)) by {
            match current_of(*state) {
                Some(c) => {
                    crate::combat::setup::lemma_find_unit(
                        state.units@,
                        state.order@[state.turn as int]@,
                    );
                },
                None => {},
            }
            lemma_next_in_order(*state, 1);
        }
    }
    intended_strike(state, u, skills)
}

proof fn lemma_next_in_order(state: CombatState, i: int)
    ensures
        next_in_order(state, i) matches Some(k) ==> 0 <= k < state.units@.len(),
    decreases state.order@.len() + 1 - i,
{
    let n = state.order@.len();
    if 1 <= i <= n {
        lemma_enemy_with(state.units@, state.order@[(state.turn + i) % (n as int)]@);
        lemma_next_in_order(state, i + 1);
    }
}

/// What the enemy whose turn it is does next while it readies a strike.
#[derive(Clone, Debug)]
pub enum AiMove {
    /// Its strike is ready: resolve it as a skill action.
    Strike(IntendedStrike),
    /// It acts first: a Raise, a Move or a Wait.
    Act(PlayerAction),
    /// The enemy phase stops here.
    Done,
}

/// Among the first `n` cells of `ms`, the index of the first one nearest to
/// `goal`.
pub open spec fn nearest_index(ms: Seq<Axial>, goal: Axial, n: int) -> Option<int>
    decreases n,
{
    if n <= 0 {
        None
    } else {
        let prev = nearest_index(ms, goal, n - 1);
        match prev {
            None => Some(n - 1),
            Some(b) => if dist(ms[n - 1], goal) < dist(ms[b], goal) {
                Some(n - 1)
            } else {
                prev
            },
        }
    }
}

/// The first cell of `ms` nearest to `goal`.
pub open spec fn nearest_move(ms: Seq<Axial>, goal: Axial) -> Option<Axial> {
    match nearest_index(ms, goal, ms.len() as int) {
        Some(i) => Some(ms[i]),
        None => None,
    }
}

/// `r` is the next step of the enemy phase: nothing once the battle is over
/// or off an enemy's turn, or when no foe stands; the ready strike if any;
/// a Raise while its skill still needs one; else a step to a reachable
/// cell nearest its foe (the first such in the search order of its moves)
/// when that brings it strictly closer; else a Wait.
pub open spec fn ai_moved(state: CombatState, skills: Seq<SkillDef>, allowance: i32, r: AiMove) -> bool {
    match current_of(state) {
        None => r is Done,
        Some(u) => if state.over is Some || u.side != Side::Enemy {
            r is Done
        } else {
            match nearest_of(state.units@, core_of(u)) {
                None => r is Done,
                Some(fi) => match strike_of(state, u, skills) {
                    Some(t) => r matches AiMove::Strike(st) && (st.unit_id@, st.skill_id@, st.hex)
                        == t,
                    None => if (match strongest(ai_cands(u, skills, u.skills@)) {
                        Some(sk) => u.trans < sk.trans && !u.raised_trans,
                        None => false,
                    }) {
                        r matches AiMove::Act(PlayerAction::Raise)
                    } else {
                        let goal = core_of(state.units@[fi]);
                        if !u.dead && exists|h: Axial|
                            #[trigger] reachable(state, u, allowance, h) && dist(h, goal) < dist(
                                core_of(u),
                                goal,
                            ) {
                            &&& r matches AiMove::Act(PlayerAction::Move(h))
                            &&& nearest_move(moves_order(state, u, allowance), goal) == Some(h)
                            &&& reachable(state, u, allowance, h)
                            &&& forall|h2: Axial|
                                #[trigger] reachable(state, u, allowance, h2) ==> dist(h, goal)
                                    <= dist(h2, goal)
                        } else {
                            r matches AiMove::Act(PlayerAction::Wait)
                        }
                    }
                },
            }
        }
    }
}

/// A reachable cell lies on the board.
proof fn lemma_reachable_on_board(state: CombatState, u: Unit, allowance: i32, h: Axial)
    requires
        reachable(state, u, allowance, h),
    ensures
        on_board(h, state.cols as int, state.rows as int),
{
    let p = choose|p: Seq<Axial>|
        #[trigger] walk(state, u.id@, core_of(u), p) && p.last() == h && crate::combat::moves::walk_cost(
            state.terrain@,
            p,
        ) <= crate::combat::moves::move_budget(u, allowance);
    assert(p.len() >= 2);
    assert(p[p.len() - 1] == h);
}

/// The first of the unit's legal moves nearest to `goal`, with its distance.
fn nearest_step(state: &CombatState, u: &Unit, goal: Axial, allowance: i32) -> (r: Option<(Axial, i32)>)
    requires
        board_ok(*state),
        area_ok(goal),
        find_unit(state.units@, u.id@) matches Some(k) && state.units@[k] == *u,
    ensures
        r matches Some(b) ==> {
            &&& !u.dead
            &&& nearest_move(moves_order(*state, *u, allowance), goal) == Some(b.0)
            &&& reachable(*state, *u, allowance, b.0)
            &&& b.1 == dist(b.0, goal)
            &&& forall|h2: Axial| #[trigger]
                reachable(*state, *u, allowance, h2) ==> dist(b.0, goal) <= dist(h2, goal)
        },
        r is None ==> u.dead || forall|h: Axial| !#[trigger] reachable(*state, *u, allowance, h),
{
    let moves = legal_moves(state, u.id.as_str(), allowance);
    let mut best: Option<(Axial, i32)> = None;
    let ghost mut bi: int = 0;
    let mut i: usize = 0;
    while i < moves.len()
        invariant
            !u.dead ==> moves@ == moves_order(*state, *u, allowance),
            best matches Some(b) ==> nearest_index(moves@, goal, i as int) == Some(bi) && 0 <= bi
                < moves@.len() && moves@[bi] == b.0,
            best is None ==> nearest_index(moves@, goal, i as int) is None,
            board_ok(*state),
            area_ok(goal),
            0 <= i <= moves@.len(),
            !u.dead ==> forall|h: Axial| #[trigger]
                moves@.contains(h) <==> reachable(*state, *u, allowance, h),
            u.dead ==> moves@.len() == 0,
            best matches Some(b) ==> {
                &&& moves@.contains(b.0)
                &&& b.1 == dist(b.0, goal)
                &&& forall|j: int| 0 <= j < i ==> dist(b.0, goal) <= dist(#[trigger] moves@[j], goal)
            },
            best is None ==> i == 0,
        decreases moves.len() - i,
    {
        let h = moves[i];
        assert(moves@.contains(h));
        proof {
            lemma_reachable_on_board(*state, *u, allowance, h);
            lemma_area_distance(h, goal);
        }
        let d = hex_distance(h, goal);
        match best {
            None => {
                best = Some((h, d));
                proof {
                    bi = i as int;
                }
            },
            Some(b) => {
                if d < b.1 {
                    best = Some((h, d));
                    proof {
                        bi = i as int;
                    }
                }
            },
        }
        i = i + 1;
    }
    proof {
        match best {
            Some(b) => {
                assert forall|h2: Axial| #[trigger]
                    reachable(*state, *u, allowance, h2) implies dist(b.0, goal) <= dist(h2, goal) by {
                    assert(moves@.contains(h2));
                    let j = choose|j: int| 0 <= j < moves@.len() && moves@[j] == h2;
                    assert(dist(b.0, goal) <= dist(moves@[j], goal));
                }
            },
            None => {
                assert forall|h: Axial| !u.dead implies !#[trigger] reachable(*state, *u, allowance, h) by {
                    if reachable(*state, *u, allowance, h) {
                        assert(moves@.contains(h));
                    }
                }
            },
        }
    }
    best
}

/// One step of the enemy phase for the unit whose turn it is (see
/// `ai_moved`); `allowance` is that unit's move allowance.
pub fn ai_step(state: &CombatState, skills: &[SkillDef], allowance: i32) -> (r: AiMove)
    requires
        board_ok(*state),
        catalog_ok(skills@),
    ensures
        ai_moved(*state, skills@, allowance, r),
{
    if state.over.is_some() {
        return AiMove::Done;
    }
    let u = match current_unit(state) {
        Some(u) => u,
        None => return AiMove::Done,
    };
    proof {
        crate::combat::setup::lemma_find_unit(state.units@, state.order@[state.turn as int]@);
    }
    if u.side != Side::Enemy {
        return AiMove::Done;
    }
    let fi = match nearest_foe(state, u) {
        Some(i) => i,
        None => return AiMove::Done,
    };
    proof {
        lemma_nearest(state.units@, core_of(*u), state.units@.len() as int);
    }
    match intended_strike(state, u, skills) {
        Some(st) => return AiMove::Strike(st),
        None => {},
    }
    match pick_ai_skill(state, u, skills) {
        Some(sk) => {
            if u.trans < sk.trans && !u.raised_trans {
                return AiMove::Act(PlayerAction::Raise);
            }
        },
        None => {},
    }
    let from = core_hex(u);
    let goal = core_hex(&state.units[fi]);
    proof {
        crate::combat::setup::lemma_find_unit(state.units@, u.id@);
    }
    let best = nearest_step(state, u, goal, allowance);
    proof {
        lemma_area_distance(from, goal);
    }
    match best {
        Some(b) => {
            if b.1 < hex_distance(from, goal) {
                return AiMove::Act(PlayerAction::Move(b.0));
            }
        },
        None => {},
    }
    AiMove::Act(PlayerAction::Wait)
}

} // verus!
