//! Board geometry of units, turn order lookups, and small derived values.

use vstd::prelude::*;
use crate::hex::{
    ax, dir, fits, hex_eq, place_footprint, placed, plus, rot, norm6, footprint_fits, turn_fits,
    lemma_rot_table, Axial,
};
use crate::combat::types::{CombatState, Stats, Terrain, Unit, Side};
use crate::text::str_eq;

verus! {

/// A footprint offset: small enough to turn and place anywhere on a board
/// (turned, it at most doubles).
pub open spec fn offset_ok(h: Axial) -> bool {
    &&& -0x4_0000 <= h.q <= 0x4_0000
    &&& -0x4_0000 <= h.r <= 0x4_0000
}

/// A board position (unit origin): with a turned footprint offset added it
/// stays a cell the geometry helpers handle.
pub open spec fn pos_ok(h: Axial) -> bool {
    &&& -0x10_0000 <= h.q <= 0x10_0000
    &&& -0x10_0000 <= h.r <= 0x10_0000
}

/// A cell the geometry helpers handle: within `2^21` of the corner, the range
/// on which hex lines (drawn in single precision) are proved exact and every
/// distance, facing and disc computation fits in `i32`.
pub open spec fn area_ok(h: Axial) -> bool {
    &&& -0x20_0000 <= h.q <= 0x20_0000
    &&& -0x20_0000 <= h.r <= 0x20_0000
}

/// A unit whose geometry stays on the board scale.
pub open spec fn unit_ok(u: Unit) -> bool {
    &&& pos_ok(u.origin)
    &&& forall|i: int| 0 <= i < u.footprint@.len() ==> offset_ok(#[trigger] u.footprint@[i])
}

/// Turning an offset keeps it within twice its bound.
pub proof fn lemma_turn_small(h: Axial, t: nat)
    requires
        offset_ok(h),
        t < 6,
    ensures
        turn_fits(h),
        -0x8_0000 <= rot(h, t).q <= 0x8_0000,
        -0x8_0000 <= rot(h, t).r <= 0x8_0000,
{
    lemma_rot_table(h);
    reveal_with_fuel(rot, 2);
}

/// The cells a unit covers lie on the board scale, and placing them fits.
pub proof fn lemma_unit_cells(u: Unit)
    requires
        unit_ok(u),
    ensures
        footprint_fits(u.footprint@, u.origin, u.facing as int),
        forall|i: int|
            0 <= i < u.footprint@.len() ==> area_ok(
                #[trigger] placed(u.footprint@, u.origin, u.facing as int)[i],
            ),
{
    assert forall|i: int| 0 <= i < u.footprint@.len() implies {
        &&& turn_fits(#[trigger] u.footprint@[i])
        &&& fits(u.origin.q + rot(u.footprint@[i], norm6(u.facing as int) as nat).q)
        &&& fits(u.origin.r + rot(u.footprint@[i], norm6(u.facing as int) as nat).r)
    } by {
        lemma_turn_small(u.footprint@[i], norm6(u.facing as int) as nat);
    }
    assert forall|i: int| 0 <= i < u.footprint@.len() implies area_ok(
        #[trigger] placed(u.footprint@, u.origin, u.facing as int)[i],
    ) by {
        lemma_turn_small(u.footprint@[i], norm6(u.facing as int) as nat);
    }
}

/// The action-point ceiling for a stat line: `clamp(2 + A / 4, 2, 5)`
/// (integer division truncating toward zero).
pub open spec fn max_ap_of(st: Stats) -> int {
    let q = if st.a >= 0 { st.a / 4 } else { -((-st.a) / 4) };
    let v = 2 + q;
    if v < 2 {
        2
    } else if v > 5 {
        5
    } else {
        v
    }
}

pub fn max_ap(stats: &Stats) -> (v: i32)
    ensures
        v == max_ap_of(*stats),
{
    let v = 2 + stats.a / 4;
    if v < 2 {
        2
    } else if v > 5 {
        5
    } else {
        v
    }
}

/// `h` is on a `cols` x `rows` board.
pub open spec fn on_board(h: Axial, cols: int, rows: int) -> bool {
    h.q >= 0 && h.r >= 0 && h.q < cols && h.r < rows
}

pub fn in_bounds(h: Axial, cols: i32, rows: i32) -> (b: bool)
    ensures
        b == on_board(h, cols as int, rows as int),
{
    h.q >= 0 && h.r >= 0 && h.q < cols && h.r < rows
}

/// The cells a unit's footprint covers, turned to its facing at its origin.
pub open spec fn cells_of(u: Unit) -> Seq<Axial> {
    placed(u.footprint@, u.origin, u.facing as int)
}

/// The unit's core (targeting) cell: its `core_index` footprint cell, or the
/// origin when the footprint has no such cell.
pub open spec fn core_of(u: Unit) -> Axial {
    if u.core_index < u.footprint@.len() {
        cells_of(u)[u.core_index as int]
    } else {
        u.origin
    }
}

pub fn core_hex(u: &Unit) -> (h: Axial)
    requires
        unit_ok(*u),
    ensures
        h == core_of(*u),
        area_ok(h),
{
    proof {
        lemma_unit_cells(*u);
    }
    let placed = place_footprint(u.footprint.as_slice(), u.origin, u.facing);
    if u.core_index < placed.len() {
        placed[u.core_index]
    } else {
        u.origin
    }
}

/// Whether footprint cell `i` is still there: the first part on that cell
/// decides (alive while its hp is positive); cells without a part always are.
pub open spec fn part_live(parts: Seq<crate::combat::types::Part>, i: int) -> bool
    decreases parts.len(),
{
    if parts.len() == 0 {
        true
    } else if parts[0].hex_index == i {
        parts[0].hp > 0
    } else {
        part_live(parts.drop_first(), i)
    }
}

/// The first `n` cells of `cells` whose part is still live, in order.
pub open spec fn keep_live(cells: Seq<Axial>, parts: Seq<crate::combat::types::Part>, n: int) -> Seq<
    Axial,
>
    decreases n,
{
    if n <= 0 {
        Seq::empty()
    } else {
        let prev = keep_live(cells, parts, n - 1);
        if part_live(parts, n - 1) {
            prev.push(cells[n - 1])
        } else {
            prev
        }
    }
}

/// The cells of a unit that can still be hit.
pub open spec fn live_of(u: Unit) -> Seq<Axial> {
    keep_live(cells_of(u), u.parts@, cells_of(u).len() as int)
}

fn cell_live(parts: &Vec<crate::combat::types::Part>, i: usize) -> (b: bool)
    ensures
        b == part_live(parts@, i as int),
{
    let mut k: usize = 0;
    assert(parts@.skip(0) == parts@);
    while k < parts.len()
        invariant
            0 <= k <= parts.len(),
            part_live(parts@, i as int) == part_live(parts@.skip(k as int), i as int),
        decreases parts.len() - k,
    {
        proof {
            assert(parts@.skip(k as int).drop_first() == parts@.skip(k + 1));
            assert(parts@.skip(k as int)[0] == parts@[k as int]);
        }
        if parts[k].hex_index == i {
            return parts[k].hp > 0;
        }
        k = k + 1;
    }
    proof {
        assert(parts@.skip(k as int).len() == 0);
    }
    true
}

pub fn live_cells(u: &Unit) -> (out: Vec<Axial>)
    requires
        unit_ok(*u),
    ensures
        out@ == live_of(*u),
        forall|i: int| 0 <= i < out@.len() ==> area_ok(#[trigger] out@[i]),
{
    proof {
        lemma_unit_cells(*u);
    }
    let placed = place_footprint(u.footprint.as_slice(), u.origin, u.facing);
    let mut out: Vec<Axial> = Vec::new();
    let mut i: usize = 0;
    while i < placed.len()
        invariant
            placed@ == cells_of(*u),
            forall|k: int| 0 <= k < placed@.len() ==> area_ok(#[trigger] placed@[k]),
            0 <= i <= placed.len(),
            out@ == keep_live(placed@, u.parts@, i as int),
            forall|k: int| 0 <= k < out@.len() ==> area_ok(#[trigger] out@[k]),
        decreases placed.len() - i,
    {
        if cell_live(&u.parts, i) {
            out.push(placed[i]);
        }
        i = i + 1;
    }
    out
}

/// The terrain on `h`: the first entry for that hex, grass when none.
pub open spec fn terrain_in(t: Seq<(Axial, Terrain)>, h: Axial) -> Terrain
    decreases t.len(),
{
    if t.len() == 0 {
        Terrain::Grass
    } else if t[0].0 == h {
        t[0].1
    } else {
        terrain_in(t.drop_first(), h)
    }
}

pub fn terrain_at(state: &CombatState, h: Axial) -> (t: Terrain)
    ensures
        t == terrain_in(state.terrain@, h),
{
    let mut k: usize = 0;
    assert(state.terrain@.skip(0) == state.terrain@);
    while k < state.terrain.len()
        invariant
            0 <= k <= state.terrain.len(),
            terrain_in(state.terrain@, h) == terrain_in(state.terrain@.skip(k as int), h),
        decreases state.terrain.len() - k,
    {
        proof {
            assert(state.terrain@.skip(k as int).drop_first() == state.terrain@.skip(k + 1));
            assert(state.terrain@.skip(k as int)[0] == state.terrain@[k as int]);
        }
        let (a, t) = state.terrain[k];
        if hex_eq(a, h) {
            return t;
        }
        k = k + 1;
    }
    proof {
        assert(state.terrain@.skip(k as int).len() == 0);
    }
    Terrain::Grass
}

/// Index of the first unit with id `id`.
pub open spec fn find_unit(units: Seq<Unit>, id: Seq<char>) -> Option<int>
    decreases units.len(),
{
    if units.len() == 0 {
        None
    } else if units[0].id@ == id {
        Some(0)
    } else {
        match find_unit(units.drop_first(), id) {
            Some(k) => Some(k + 1),
            None => None,
        }
    }
}

pub proof fn lemma_find_unit(units: Seq<Unit>, id: Seq<char>)
    ensures
        find_unit(units, id) matches Some(k) ==> 0 <= k < units.len() && units[k].id@ == id
            && forall|j: int| 0 <= j < k ==> (#[trigger] units[j]).id@ != id,
        find_unit(units, id) is None ==> forall|j: int|
            0 <= j < units.len() ==> (#[trigger] units[j]).id@ != id,
    decreases units.len(),
{
    if units.len() > 0 {
        lemma_find_unit(units.drop_first(), id);
        if units[0].id@ != id {
            assert forall|j: int| 1 <= j < units.len() implies units[j] == units.drop_first()[j - 1] by {}
        }
    }
}

/// Index of the first unit with id `id`, found by a scan.
pub fn find_unit_index(units: &Vec<Unit>, id: &str) -> (k: Option<usize>)
    ensures
        k matches Some(i) ==> find_unit(units@, id@) == Some(i as int) && i < units@.len(),
        k is None ==> find_unit(units@, id@) is None,
{
    let mut i: usize = 0;
    proof {
        lemma_find_unit(units@, id@);
    }
    while i < units.len()
        invariant
            0 <= i <= units.len(),
            forall|j: int| 0 <= j < i ==> (#[trigger] units@[j]).id@ != id@,
            find_unit(units@, id@) matches Some(k) ==> 0 <= k < units@.len() && units@[k].id@
                == id@ && forall|j: int| 0 <= j < k ==> (#[trigger] units@[j]).id@ != id@,
            find_unit(units@, id@) is None ==> forall|j: int|
                0 <= j < units@.len() ==> (#[trigger] units@[j]).id@ != id@,
        decreases units.len() - i,
    {
        if str_eq(units[i].id.as_str(), id) {
            return Some(i);
        }
        i = i + 1;
    }
    None
}

/// The unit whose turn it is: the first unit carrying the id at `order[turn]`.
pub open spec fn current_of(state: CombatState) -> Option<Unit> {
    if state.turn < state.order@.len() {
        match find_unit(state.units@, state.order@[state.turn as int]@) {
            Some(k) => Some(state.units@[k]),
            None => None,
        }
    } else {
        None
    }
}

pub fn current_unit(state: &CombatState) -> (u: Option<&Unit>)
    ensures
        u matches Some(x) ==> current_of(*state) == Some(*x),
        u is None ==> current_of(*state) is None,
{
    if state.turn < state.order.len() {
        match find_unit_index(&state.units, state.order[state.turn].as_str()) {
            Some(k) => Some(&state.units[k]),
            None => None,
        }
    } else {
        None
    }
}

/// Distances between board-scale cells are computed without overflow.
pub proof fn lemma_area_distance(a: Axial, b: Axial)
    requires
        area_ok(a),
        area_ok(b),
    ensures
        crate::hex::distance_fits(a, b),
        crate::hex::dist(a, b) == crate::hex::dist(b, a),
        crate::hex::facing_fits(a, b),
        crate::hex::line_fits(a, b),
{
    crate::hex::lemma_fdot_values(b.q - a.q, b.r - a.r);
    assert forall|i: int| 0 <= i < 6 implies fits(
        #[trigger] crate::hex::fdot(i, b.q - a.q, b.r - a.r),
    ) by {
        if i == 0 {} else if i == 1 {} else if i == 2 {} else if i == 3 {} else if i == 4 {} else {}
    }
}

/// Cells of the living units other than `except`, unit by unit, each with
/// the id of the unit standing there.
pub open spec fn occupied_from(units: Seq<Unit>, except: Option<Seq<char>>) -> Seq<(Axial, String)>
    decreases units.len(),
{
    if units.len() == 0 {
        Seq::empty()
    } else {
        let u = units.last();
        let rest = occupied_from(units.drop_last(), except);
        if u.dead || (except matches Some(e) && u.id@ == e) {
            rest
        } else {
            rest + live_of(u).map_values(|h: Axial| (h, u.id))
        }
    }
}

/// Every unit of the state is on the board scale.
pub open spec fn units_ok(state: CombatState) -> bool {
    forall|i: int| 0 <= i < state.units@.len() ==> unit_ok(#[trigger] state.units@[i])
}

/// Cells taken by living units other than `except`.
pub fn occupied(state: &CombatState, except: Option<&str>) -> (out: Vec<(Axial, String)>)
    requires
        units_ok(*state),
    ensures
        out@ == occupied_from(
            state.units@,
            match except {
                Some(e) => Some(e@),
                None => None,
            },
        ),
{
    let ghost ex = match except {
        Some(e) => Some(e@),
        None => None::<Seq<char>>,
    };
    let mut out: Vec<(Axial, String)> = Vec::new();
    let mut i: usize = 0;
    while i < state.units.len()
        invariant
            units_ok(*state),
            0 <= i <= state.units.len(),
            ex == match except {
                Some(e) => Some(e@),
                None => None::<Seq<char>>,
            },
            out@ == occupied_from(state.units@.take(i as int), ex),
        decreases state.units.len() - i,
    {
        let u = &state.units[i];
        proof {
            assert(state.units@.take(i + 1).drop_last() == state.units@.take(i as int));
            assert(state.units@.take(i + 1).last() == *u);
        }
        let skip = u.dead || match except {
            Some(e) => str_eq(u.id.as_str(), e),
            None => false,
        };
        if !skip {
            assert(unit_ok(state.units@[i as int]));
            let cells = live_cells(u);
            let ghost before = out@;
            let mut k: usize = 0;
            while k < cells.len()
                invariant
                    0 <= k <= cells.len(),
                    out@ == before + cells@.take(k as int).map_values(|h: Axial| (h, u.id)),
                decreases cells.len() - k,
            {
                out.push((cells[k], u.id.clone()));
                proof {
                    assert(cells@.take(k + 1).map_values(|h: Axial| (h, u.id)) == cells@.take(
                        k as int,
                    ).map_values(|h: Axial| (h, u.id)).push((cells@[k as int], u.id)));
                }
                k = k + 1;
            }
            proof {
                assert(cells@.take(cells@.len() as int) == cells@);
            }
        }
        i = i + 1;
    }
    proof {
        assert(state.units@.take(state.units@.len() as int) == state.units@);
    }
    out
}

/// `u` is standing and, when a side is named, fights on that side.
pub open spec fn alive_on(u: Unit, side: Option<Side>) -> bool {
    &&& !u.dead
    &&& side matches Some(sd) ==> u.side == sd
}

/// Positions in `state.units` of the units still standing (of one side, when
/// named), in order.
pub fn living(state: &CombatState, side: Option<Side>) -> (out: Vec<usize>)
    ensures
        forall|k: int|
            0 <= k < out@.len() ==> (#[trigger] out@[k]) < state.units@.len() && alive_on(
                state.units@[out@[k] as int],
                side,
            ),
        forall|a: int, b: int| 0 <= a < b < out@.len() ==> (#[trigger] out@[a]) < (#[trigger] out@[b]),
        forall|i: int|
            0 <= i < state.units@.len() && alive_on(#[trigger] state.units@[i], side)
                ==> out@.contains(i as usize),
{
    let mut out: Vec<usize> = Vec::new();
    let mut i: usize = 0;
    while i < state.units.len()
        invariant
            0 <= i <= state.units.len(),
            forall|k: int|
                0 <= k < out@.len() ==> (#[trigger] out@[k]) < i && alive_on(
                    state.units@[out@[k] as int],
                    side,
                ),
            forall|a: int, b: int|
                0 <= a < b < out@.len() ==> (#[trigger] out@[a]) < (#[trigger] out@[b]),
            forall|j: int|
                0 <= j < i && alive_on(#[trigger] state.units@[j], side) ==> out@.contains(
                    j as usize,
                ),
        decreases state.units.len() - i,
    {
        let u = &state.units[i];
        let keep = !u.dead && match side {
            Some(sd) => u.side == sd,
            None => true,
        };
        let ghost before = out@;
        if keep {
            out.push(i);
            proof {
                assert forall|j: int|
                    0 <= j < i + 1 && alive_on(#[trigger] state.units@[j], side)
                        implies out@.contains(j as usize) by {
                    if j < i {
                        let w = choose|w: int| 0 <= w < before.len() && before[w] == j as usize;
                        assert(out@[w] == before[w]);
                    } else {
                        assert(out@[before.len() as int] == i);
                    }
                }
            }
        }
        i = i + 1;
    }
    out
}

} // verus!