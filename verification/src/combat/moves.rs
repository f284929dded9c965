//! Where a unit can walk this turn.

use vstd::prelude::*;
use vstd::set_lib::{lemma_int_range, lemma_len_subset, set_int_range};
use crate::hex::{dir, hex_eq, hex_neighbors, plus, Axial};
use crate::combat::types::{CombatState, Terrain, Unit};
use crate::combat::setup::{
    area_ok, core_hex, core_of, find_unit, find_unit_index, in_bounds, occupied, occupied_from,
    on_board, terrain_in, unit_ok, units_ok,
};
use crate::combat::rules::{is_taken, move_cost, step_cost, taken};

verus! {

/// `b` is one of the six neighbours of `a`.
pub open spec fn adjacent(a: Axial, b: Axial) -> bool {
    exists|k: int| 0 <= k < 6 && b == #[trigger] plus(a, dir(k))
}

/// A cell the unit `id` may step onto: on the board and not covered by
/// another living unit.
pub open spec fn open_cell(state: CombatState, id: Seq<char>, h: Axial) -> bool {
    on_board(h, state.cols as int, state.rows as int) && !taken(state, id, h)
}

/// A walk of the unit `id` from `start`: every step enters an open
/// neighbouring cell.
pub open spec fn walk(state: CombatState, id: Seq<char>, start: Axial, p: Seq<Axial>) -> bool {
    &&& p.len() >= 1
    &&& p[0] == start
    &&& forall|i: int|
        1 <= i < p.len() ==> adjacent(p[i - 1], #[trigger] p[i]) && open_cell(state, id, p[i])
}

/// Action points a walk spends: the step cost of every cell it enters.
pub open spec fn walk_cost(t: Seq<(Axial, Terrain)>, p: Seq<Axial>) -> int
    decreases p.len(),
{
    if p.len() <= 1 {
        0
    } else {
        walk_cost(t, p.drop_last()) + step_cost(terrain_in(t, p.last()))
    }
}

/// Points a unit may spend on moving: its action points, capped by its
/// move allowance.
pub open spec fn move_budget(u: Unit, allowance: i32) -> int {
    if u.ap < allowance {
        u.ap as int
    } else {
        allowance as int
    }
}

/// `h` is a cell other than its own core that `u` can walk to within budget.
pub open spec fn reachable(state: CombatState, u: Unit, allowance: i32, h: Axial) -> bool {
    &&& h != core_of(u)
    &&& exists|p: Seq<Axial>|
        #[trigger] walk(state, u.id@, core_of(u), p) && p.last() == h && walk_cost(
            state.terrain@,
            p,
        ) <= move_budget(u, allowance)
}

/// Some entry of `s` reaches `n` for `c` points or fewer.
pub open spec fn covered(s: Seq<(Axial, i32)>, n: Axial, c: int) -> bool {
    exists|j: int| 0 <= j < s.len() && (#[trigger] s[j]).0 == n && s[j].1 <= c
}

/// Every open neighbour of `e` within the budget is covered by `s`.
spec fn expanded(
    state: CombatState,
    id: Seq<char>,
    s: Seq<(Axial, i32)>,
    e: (Axial, i32),
    budget: int,
) -> bool {
    forall|k: int|
        0 <= k < 6 ==> {
            let n = #[trigger] plus(e.0, dir(k));
            let c = e.1 + step_cost(terrain_in(state.terrain@, n));
            open_cell(state, id, n) && c <= budget ==> covered(s, n, c)
        }
}

/// Some walk reaches the entry's cell for exactly the entry's cost.
spec fn walked(state: CombatState, id: Seq<char>, start: Axial, e: (Axial, i32)) -> bool {
    exists|p: Seq<Axial>|
        #[trigger] walk(state, id, start, p) && p.last() == e.0 && walk_cost(state.terrain@, p)
            == e.1
}

/// Entries after the first stand on the board, cost between 1 and the
/// budget, and each cost is below every earlier cost for the same cell.
spec fn seen_ok(s: Seq<(Axial, i32)>, start: Axial, cols: int, rows: int, budget: int) -> bool {
    &&& s.len() >= 1
    &&& s[0] == (start, 0i32)
    &&& forall|i: int|
        1 <= i < s.len() ==> on_board((#[trigger] s[i]).0, cols, rows) && s[i].0 != start && 1
            <= s[i].1 <= budget
    &&& forall|j: int, i: int|
        1 <= j < i < s.len() && (#[trigger] s[j]).0 == (#[trigger] s[i]).0 ==> s[i].1 < s[j].1
}

/// How many entries the search can ever record besides its start.
pub open spec fn seen_cap(cols: int, rows: int, budget: int) -> int {
    if cols > 0 && rows > 0 && budget > 0 {
        cols * rows * (budget + 1)
    } else {
        0
    }
}

proof fn lemma_mix(a1: int, b1: int, a2: int, b2: int, w: int)
    requires
        0 <= b1 < w,
        0 <= b2 < w,
        a1 * w + b1 == a2 * w + b2,
    ensures
        a1 == a2,
        b1 == b2,
{
    assert((a1 - a2) * w == b2 - b1) by (nonlinear_arith)
        requires
            a1 * w + b1 == a2 * w + b2,
    ;
    if a1 > a2 {
        assert((a1 - a2) * w >= w) by (nonlinear_arith)
            requires
                a1 - a2 >= 1,
                w > 0,
        ;
    } else if a1 < a2 {
        assert((a2 - a1) * w >= w) by (nonlinear_arith)
            requires
                a2 - a1 >= 1,
                w > 0,
        ;
        assert((a1 - a2) * w == -((a2 - a1) * w)) by (nonlinear_arith);
    }
}

proof fn lemma_mix_range(a: int, b: int, w: int, n: int)
    requires
        0 <= a < n,
        0 <= b < w,
    ensures
        0 <= a * w + b < n * w,
{
    assert(0 <= a * w) by (nonlinear_arith)
        requires
            0 <= a,
            0 <= w,
    ;
    assert(a * w + w <= n * w) by (nonlinear_arith)
        requires
            a + 1 <= n,
            0 <= w,
    ;
}

/// The number of entries the search records is bounded (pigeonhole).
proof fn lemma_seen_bound(s: Seq<(Axial, i32)>, start: Axial, cols: int, rows: int, budget: int)
    requires
        seen_ok(s, start, cols, rows, budget),
    ensures
        s.len() <= seen_cap(cols, rows, budget) + 1,
{
    if s.len() > 1 {
        assert(on_board(s[1].0, cols, rows) && 1 <= s[1].1 <= budget);
        let w = budget + 1;
        let key = |e: (Axial, i32)| (e.0.q * rows + e.0.r) * w + e.1;
        let tail = s.subrange(1, s.len() as int);
        let keys = tail.map_values(key);
        assert forall|i: int| 0 <= i < keys.len() implies 0 <= #[trigger] keys[i] < seen_cap(
            cols,
            rows,
            budget,
        ) by {
            let e = s[i + 1];
            assert(tail[i] == e);
            lemma_mix_range(e.0.r as int, 0, 1, rows);
            lemma_mix_range(e.0.q as int, e.0.r as int, rows, cols);
            lemma_mix_range(e.0.q * rows + e.0.r, e.1 as int, w, cols * rows);
        }
        assert(keys.no_duplicates()) by {
            assert forall|a: int, b: int|
                0 <= a < keys.len() && 0 <= b < keys.len() && a != b implies keys[a]
                != keys[b] by {
                let ea = s[a + 1];
                let eb = s[b + 1];
                assert(tail[a] == ea && tail[b] == eb);
                if keys[a] == keys[b] {
                    lemma_mix(ea.0.q * rows + ea.0.r, ea.1 as int, eb.0.q * rows + eb.0.r, eb.1 as int, w);
                    lemma_mix(ea.0.q as int, ea.0.r as int, eb.0.q as int, eb.0.r as int, rows);
                    assert(ea.0 == eb.0);
                    if a < b {
                        assert(s[b + 1].1 < s[a + 1].1);
                    } else {
                        assert(s[a + 1].1 < s[b + 1].1);
                    }
                }
            }
        }
        let cap = seen_cap(cols, rows, budget);
        lemma_int_range(0, cap);
        assert(keys.to_set().subset_of(set_int_range(0, cap))) by {
            assert forall|x: int| keys.to_set().contains(x) implies set_int_range(0, cap).contains(
                x,
            ) by {
                let i = choose|i: int| 0 <= i < keys.len() && keys[i] == x;
            }
        }
        lemma_len_subset(keys.to_set(), set_int_range(0, cap));
        keys.unique_seq_to_set();
    }
}

proof fn lemma_walk_push(state: CombatState, id: Seq<char>, start: Axial, p: Seq<Axial>, n: Axial)
    requires
        walk(state, id, start, p),
        adjacent(p.last(), n),
        open_cell(state, id, n),
    ensures
        walk(state, id, start, p.push(n)),
        p.push(n).last() == n,
        walk_cost(state.terrain@, p.push(n)) == walk_cost(state.terrain@, p) + step_cost(
            terrain_in(state.terrain@, n),
        ),
{
    let p2 = p.push(n);
    assert(p2.drop_last() =~= p);
    assert forall|i: int| 1 <= i < p2.len() implies adjacent(p2[i - 1], #[trigger] p2[i])
        && open_cell(state, id, p2[i]) by {
        if i < p.len() {
            assert(p2[i] == p[i] && p2[i - 1] == p[i - 1]);
        } else {
            assert(p2[i - 1] == p.last());
        }
    }
}

/// When every recorded entry is expanded, every walk within the budget is
/// covered at its cost.
proof fn lemma_walk_covered(
    state: CombatState,
    id: Seq<char>,
    start: Axial,
    s: Seq<(Axial, i32)>,
    budget: int,
    p: Seq<Axial>,
)
    requires
        s.len() >= 1,
        s[0] == (start, 0i32),
        forall|i: int| 0 <= i < s.len() ==> expanded(state, id, s, #[trigger] s[i], budget),
        walk(state, id, start, p),
        walk_cost(state.terrain@, p) <= budget,
    ensures
        covered(s, p.last(), walk_cost(state.terrain@, p)),
    decreases p.len(),
{
    if p.len() == 1 {
        assert(s[0].0 == p.last());
    } else {
        let pre = p.drop_last();
        assert forall|i: int| 1 <= i < pre.len() implies adjacent(pre[i - 1], #[trigger] pre[i])
            && open_cell(state, id, pre[i]) by {
            assert(pre[i] == p[i] && pre[i - 1] == p[i - 1]);
        }
        assert(walk(state, id, start, pre));
        let n = p.last();
        let sc = step_cost(terrain_in(state.terrain@, n));
        assert(sc >= 1);
        lemma_walk_covered(state, id, start, s, budget, pre);
        let j = choose|j: int|
            0 <= j < s.len() && (#[trigger] s[j]).0 == pre.last() && s[j].1 <= walk_cost(
                state.terrain@,
                pre,
            );
        assert(adjacent(p[p.len() - 2], p[p.len() - 1]) && open_cell(state, id, p[p.len() - 1]));
        assert(pre.last() == p[p.len() - 2]);
        let k = choose|k: int| 0 <= k < 6 && n == #[trigger] plus(pre.last(), dir(k));
        assert(expanded(state, id, s, s[j], budget));
        assert(plus(s[j].0, dir(k)) == n);
        assert(covered(s, n, s[j].1 + sc));
    }
}

fn covers(seen: &Vec<(Axial, i32)>, n: Axial, cost: i64) -> (b: bool)
    ensures
        b == covered(seen@, n, cost as int),
{
    let mut i: usize = 0;
    while i < seen.len()
        invariant
            0 <= i <= seen.len(),
            forall|j: int| 0 <= j < i ==> !((#[trigger] seen@[j]).0 == n && seen@[j].1 <= cost),
        decreases seen.len() - i,
    {
        let (h, sc) = seen[i];
        if hex_eq(h, n) && sc as i64 <= cost {
            assert(seen@[i as int].0 == n && seen@[i as int].1 <= cost);
            return true;
        }
        i = i + 1;
    }
    false
}

/// The search's record: the entries are well formed, `out` lists the cells
/// of the entries after the first, every entry is walked, and every queued
/// entry is recorded.
#[verifier::opaque]
spec fn record_ok(
    state: CombatState,
    id: Seq<char>,
    start: Axial,
    budget: int,
    s: Seq<(Axial, i32)>,
    q: Seq<(Axial, i32)>,
    out: Seq<Axial>,
) -> bool {
    &&& seen_ok(s, start, state.cols as int, state.rows as int, budget)
    &&& out == s.subrange(1, s.len() as int).map_values(|e: (Axial, i32)| e.0)
    &&& forall|i: int| 0 <= i < s.len() ==> walked(state, id, start, #[trigger] s[i])
    &&& forall|i: int| 0 <= i < q.len() ==> s.contains(#[trigger] q[i])
}

/// Every recorded entry is queued, expanded, or is `e` (being expanded).
#[verifier::opaque]
spec fn closed_but(
    state: CombatState,
    id: Seq<char>,
    budget: int,
    s: Seq<(Axial, i32)>,
    q: Seq<(Axial, i32)>,
    e: Option<(Axial, i32)>,
) -> bool {
    forall|i: int|
        0 <= i < s.len() ==> q.contains(#[trigger] s[i]) || expanded(state, id, s, s[i], budget)
            || e == Some(s[i])
}

/// The first `j` neighbours of `e` are dealt with.
#[verifier::opaque]
spec fn done_upto(
    state: CombatState,
    id: Seq<char>,
    budget: int,
    s: Seq<(Axial, i32)>,
    e: (Axial, i32),
    j: int,
) -> bool {
    forall|x: int|
        0 <= x < j ==> {
            let n = #[trigger] plus(e.0, dir(x));
            let cn = e.1 + step_cost(terrain_in(state.terrain@, n));
            open_cell(state, id, n) && cn <= budget ==> covered(s, n, cn)
        }
}

proof fn lemma_start(state: CombatState, id: Seq<char>, start: Axial, budget: int)
    ensures
        record_ok(state, id, start, budget, seq![(start, 0i32)], seq![(start, 0i32)], seq![]),
        closed_but(state, id, budget, seq![(start, 0i32)], seq![(start, 0i32)], None),
        seq![(start, 0i32)].len() <= seen_cap(state.cols as int, state.rows as int, budget) + 1,
{
    reveal(record_ok);
    reveal(closed_but);
    let s = seq![(start, 0i32)];
    let p0 = seq![start];
    assert(walk(state, id, start, p0));
    assert(walk_cost(state.terrain@, p0) == 0);
    assert(walked(state, id, start, s[0]));
    assert(seq![] =~= s.subrange(1, s.len() as int).map_values(|e: (Axial, i32)| e.0));
    assert(s.contains(s[0]));
    assert(seq![(start, 0i32)].contains(s[0]));
}

/// Taking the last queued entry off: it is recorded, and nothing else is
/// left open.
proof fn lemma_pop(
    state: CombatState,
    id: Seq<char>,
    start: Axial,
    budget: int,
    s: Seq<(Axial, i32)>,
    q0: Seq<(Axial, i32)>,
    out: Seq<Axial>,
)
    requires
        q0.len() > 0,
        area_ok(start),
        record_ok(state, id, start, budget, s, q0, out),
        closed_but(state, id, budget, s, q0, None),
    ensures
        record_ok(state, id, start, budget, s, q0.drop_last(), out),
        closed_but(state, id, budget, s, q0.drop_last(), Some(q0.last())),
        done_upto(state, id, budget, s, q0.last(), 0),
        s.contains(q0.last()),
        0 <= q0.last().1,
        crate::hex::step_fits(q0.last().0),
{
    reveal(record_ok);
    reveal(closed_but);
    reveal(done_upto);
    let e = q0.last();
    let q1 = q0.drop_last();
    assert(s.contains(q0[q0.len() - 1]));
    let ei = choose|i: int| 0 <= i < s.len() && s[i] == e;
    if ei > 0 {
        assert(on_board(s[ei].0, state.cols as int, state.rows as int));
    }
    assert forall|i: int| 0 <= i < q1.len() implies s.contains(#[trigger] q1[i]) by {
        assert(q1[i] == q0[i]);
    }
    assert forall|i: int| 0 <= i < s.len() implies q1.contains(#[trigger] s[i]) || expanded(
        state,
        id,
        s,
        s[i],
        budget,
    ) || Some(e) == Some(s[i]) by {
        if q0.contains(s[i]) && s[i] != e {
            let w = choose|w: int| 0 <= w < q0.len() && q0[w] == s[i];
            assert(w != q0.len() - 1);
            assert(q1[w] == q0[w]);
        }
    }
}

/// A neighbour left out (off the board, taken, too dear or already
/// reached as cheaply) is dealt with.
proof fn lemma_skip(
    state: CombatState,
    id: Seq<char>,
    budget: int,
    s: Seq<(Axial, i32)>,
    e: (Axial, i32),
    j: int,
)
    requires
        0 <= j < 6,
        done_upto(state, id, budget, s, e, j),
        ({
            let n = plus(e.0, dir(j));
            let cn = e.1 + step_cost(terrain_in(state.terrain@, n));
            !open_cell(state, id, n) || cn > budget || covered(s, n, cn)
        }),
    ensures
        done_upto(state, id, budget, s, e, j + 1),
{
    reveal(done_upto);
    assert forall|x: int| 0 <= x < j + 1 implies {
        let n = #[trigger] plus(e.0, dir(x));
        let cn = e.1 + step_cost(terrain_in(state.terrain@, n));
        open_cell(state, id, n) && cn <= budget ==> covered(s, n, cn)
    } by {
        if x < j {
        }
    }
}

/// Recording a newly reached neighbour keeps the record well formed.
proof fn lemma_record_seen(
    state: CombatState,
    id: Seq<char>,
    start: Axial,
    budget: int,
    s: Seq<(Axial, i32)>,
    q: Seq<(Axial, i32)>,
    out: Seq<Axial>,
    e: (Axial, i32),
    ne: (Axial, i32),
)
    requires
        s.contains(e),
        record_ok(state, id, start, budget, s, q, out),
        adjacent(e.0, ne.0),
        open_cell(state, id, ne.0),
        ne.1 == e.1 + step_cost(terrain_in(state.terrain@, ne.0)),
        ne.1 <= budget,
        !covered(s, ne.0, ne.1 as int),
        0 <= e.1,
    ensures
        record_ok(state, id, start, budget, s.push(ne), q.push(ne), out.push(ne.0)),
        s.push(ne).len() <= seen_cap(state.cols as int, state.rows as int, budget) + 1,
        s.push(ne).contains(e),
{
    reveal(record_ok);
    let n = ne.0;
    let cost = ne.1 as int;
    let s1 = s.push(ne);
    let q1 = q.push(ne);
    assert(n != start) by {
        if n == start {
            assert(s[0].0 == n && s[0].1 <= cost);
        }
    }
    let ie = choose|i: int| 0 <= i < s.len() && s[i] == e;
    assert(walked(state, id, start, s[ie]));
    let p = choose|p: Seq<Axial>|
        #[trigger] walk(state, id, start, p) && p.last() == e.0 && walk_cost(state.terrain@, p)
            == e.1;
    lemma_walk_push(state, id, start, p, n);
    assert(walked(state, id, start, ne));
    assert forall|i: int| 1 <= i < s1.len() implies on_board(
        (#[trigger] s1[i]).0,
        state.cols as int,
        state.rows as int,
    ) && s1[i].0 != start && 1 <= s1[i].1 <= budget by {
        if i < s.len() {
            assert(s1[i] == s[i]);
        }
    }
    assert forall|a: int, b: int|
        1 <= a < b < s1.len() && (#[trigger] s1[a]).0 == (#[trigger] s1[b]).0 implies s1[b].1
        < s1[a].1 by {
        assert(s1[a] == s[a]);
        if b < s.len() {
            assert(s1[b] == s[b]);
        } else {
            assert(!(s[a].0 == n && s[a].1 <= cost));
        }
    }
    assert(seen_ok(s1, start, state.cols as int, state.rows as int, budget));
    lemma_seen_bound(s1, start, state.cols as int, state.rows as int, budget);
    assert(out.push(n) =~= s1.subrange(1, s1.len() as int).map_values(|e: (Axial, i32)| e.0));
    assert forall|i: int| 0 <= i < s1.len() implies walked(state, id, start, #[trigger] s1[i]) by {
        if i < s.len() {
            assert(s1[i] == s[i]);
        }
    }
    assert forall|i: int| 0 <= i < q1.len() implies s1.contains(#[trigger] q1[i]) by {
        if i < q.len() {
            assert(q1[i] == q[i]);
            assert(s.contains(q[i]));
            let w = choose|w: int| 0 <= w < s.len() && s[w] == q[i];
            assert(s1[w] == s[w]);
        } else {
            assert(s1[s.len() as int] == ne);
        }
    }
    assert(s1[ie] == s[ie]);
}

/// Recording a neighbour keeps every other entry queued or expanded.
proof fn lemma_record_closed(
    state: CombatState,
    id: Seq<char>,
    budget: int,
    s: Seq<(Axial, i32)>,
    q: Seq<(Axial, i32)>,
    e: (Axial, i32),
    ne: (Axial, i32),
)
    requires
        closed_but(state, id, budget, s, q, Some(e)),
    ensures
        closed_but(state, id, budget, s.push(ne), q.push(ne), Some(e)),
{
    reveal(closed_but);
    let s1 = s.push(ne);
    let q1 = q.push(ne);
    assert forall|i: int| 0 <= i < s1.len() implies q1.contains(#[trigger] s1[i]) || expanded(
        state,
        id,
        s1,
        s1[i],
        budget,
    ) || Some(e) == Some(s1[i]) by {
        if i < s.len() {
            assert(s1[i] == s[i]);
            if q.contains(s[i]) {
                let w = choose|w: int| 0 <= w < q.len() && q[w] == s[i];
                assert(q1[w] == q[w]);
            } else if expanded(state, id, s, s[i], budget) {
                lemma_expanded_push(state, id, s, ne, s[i], budget);
            }
        } else {
            assert(q1[q.len() as int] == ne);
        }
    }
}

/// Recording neighbour `j` deals with it.
proof fn lemma_record_done(
    state: CombatState,
    id: Seq<char>,
    budget: int,
    s: Seq<(Axial, i32)>,
    e: (Axial, i32),
    j: int,
    ne: (Axial, i32),
)
    requires
        0 <= j < 6,
        done_upto(state, id, budget, s, e, j),
        ne.0 == plus(e.0, dir(j)),
        ne.1 == e.1 + step_cost(terrain_in(state.terrain@, ne.0)),
    ensures
        done_upto(state, id, budget, s.push(ne), e, j + 1),
{
    reveal(done_upto);
    let s1 = s.push(ne);
    assert forall|x: int| 0 <= x < j + 1 implies {
        let n2 = #[trigger] plus(e.0, dir(x));
        let cn = e.1 + step_cost(terrain_in(state.terrain@, n2));
        open_cell(state, id, n2) && cn <= budget ==> covered(s1, n2, cn)
    } by {
        let n2 = plus(e.0, dir(x));
        let cn = e.1 + step_cost(terrain_in(state.terrain@, n2));
        if x < j {
            if open_cell(state, id, n2) && cn <= budget {
                lemma_covered_push(s, ne, n2, cn);
            }
        } else {
            assert(s1[s.len() as int] == ne);
        }
    }
}

/// Once all six neighbours of `e` are dealt with, `e` is expanded.
proof fn lemma_expand_done(
    state: CombatState,
    id: Seq<char>,
    budget: int,
    s: Seq<(Axial, i32)>,
    q: Seq<(Axial, i32)>,
    e: (Axial, i32),
)
    requires
        closed_but(state, id, budget, s, q, Some(e)),
        done_upto(state, id, budget, s, e, 6),
    ensures
        closed_but(state, id, budget, s, q, None),
{
    reveal(closed_but);
    reveal(done_upto);
    assert(expanded(state, id, s, e, budget));
}

/// With nothing queued, the recorded cells are exactly the reachable ones.
proof fn lemma_search_done(
    state: CombatState,
    u: Unit,
    allowance: i32,
    start: Axial,
    budget: int,
    s: Seq<(Axial, i32)>,
    q: Seq<(Axial, i32)>,
    out: Seq<Axial>,
)
    requires
        q.len() == 0,
        start == core_of(u),
        budget == move_budget(u, allowance),
        record_ok(state, u.id@, start, budget, s, q, out),
        closed_but(state, u.id@, budget, s, q, None),
    ensures
        forall|h: Axial| #[trigger] out.contains(h) <==> reachable(state, u, allowance, h),
{
    reveal(record_ok);
    reveal(closed_but);
    let id = u.id@;
    assert forall|i: int| 0 <= i < s.len() implies expanded(
        state,
        id,
        s,
        #[trigger] s[i],
        budget,
    ) by {
        assert(!q.contains(s[i]));
    }
    assert forall|h: Axial| #[trigger] out.contains(h) implies reachable(state, u, allowance, h) by {
        let m = choose|m: int| 0 <= m < out.len() && out[m] == h;
        assert(s[m + 1].0 == h);
        assert(walked(state, id, start, s[m + 1]));
    }
    assert forall|h: Axial| reachable(state, u, allowance, h) implies #[trigger] out.contains(h) by {
        let p = choose|p: Seq<Axial>|
            #[trigger] walk(state, u.id@, core_of(u), p) && p.last() == h && walk_cost(
                state.terrain@,
                p,
            ) <= move_budget(u, allowance);
        lemma_walk_covered(state, id, start, s, budget, p);
        let jj = choose|jj: int|
            0 <= jj < s.len() && (#[trigger] s[jj]).0 == h && s[jj].1 <= walk_cost(
                state.terrain@,
                p,
            );
        assert(jj != 0);
        assert(out[jj - 1] == h);
    }
}

/// The search considering neighbour `j` of the entry `e` it expands: the
/// cell is recorded and queued, with its cost, when it is on the board,
/// within the budget, not reached as cheaply before, and not taken.
pub open spec fn consider(
    state: CombatState,
    id: Seq<char>,
    budget: int,
    e: (Axial, i32),
    j: int,
    seen: Seq<(Axial, i32)>,
    q: Seq<(Axial, i32)>,
) -> (Seq<(Axial, i32)>, Seq<(Axial, i32)>) {
    let n = plus(e.0, dir(j));
    let cost = e.1 + step_cost(terrain_in(state.terrain@, n));
    if on_board(n, state.cols as int, state.rows as int) && cost <= budget && !covered(seen, n, cost)
        && !taken(state, id, n) {
        (seen.push((n, cost as i32)), q.push((n, cost as i32)))
    } else {
        (seen, q)
    }
}

/// The first `j` neighbours of `e` considered in turn.
pub open spec fn expand_upto(
    state: CombatState,
    id: Seq<char>,
    budget: int,
    e: (Axial, i32),
    j: int,
    seen: Seq<(Axial, i32)>,
    q: Seq<(Axial, i32)>,
) -> (Seq<(Axial, i32)>, Seq<(Axial, i32)>)
    decreases j,
{
    if j <= 0 {
        (seen, q)
    } else {
        let p = expand_upto(state, id, budget, e, j - 1, seen, q);
        consider(state, id, budget, e, j - 1, p.0, p.1)
    }
}

/// The search run for at most `fuel` rounds: each round takes the last
/// queued entry and considers its six neighbours in step order. Its result
/// is every entry recorded, in order.
pub open spec fn search(
    state: CombatState,
    id: Seq<char>,
    budget: int,
    seen: Seq<(Axial, i32)>,
    q: Seq<(Axial, i32)>,
    fuel: nat,
) -> Seq<(Axial, i32)>
    decreases fuel,
{
    if fuel == 0 || q.len() == 0 {
        seen
    } else {
        let p = expand_upto(state, id, budget, q.last(), 6, seen, q.drop_last());
        search(state, id, budget, p.0, p.1, (fuel - 1) as nat)
    }
}

/// The cells `u` can walk to, in the order the search finds them (from its
/// core, within its move budget; the search needs no more rounds than it
/// can record entries).
pub open spec fn moves_order(state: CombatState, u: Unit, allowance: i32) -> Seq<Axial> {
    let start = core_of(u);
    let b = move_budget(u, allowance);
    let s = search(
        state,
        u.id@,
        b,
        seq![(start, 0i32)],
        seq![(start, 0i32)],
        (seen_cap(state.cols as int, state.rows as int, b) + 1) as nat,
    );
    s.subrange(1, s.len() as int).map_values(|e: (Axial, i32)| e.0)
}

/// The cells the unit `unit_id` can walk to this turn: every cell other than
/// its core that some walk through open neighbouring cells reaches within
/// its action points capped by `allowance` (its derived move), stepping onto
/// mud for 2 points, water for 99 and any other cell for 1. Nothing for an
/// unknown or fallen unit. The cells come in the order the search records
/// them (`moves_order`); a cell reached again more cheaply is listed again.
pub fn legal_moves(state: &CombatState, unit_id: &str, allowance: i32) -> (out: Vec<Axial>)
    requires
        units_ok(*state),
    ensures
        match find_unit(state.units@, unit_id@) {
            None => out@.len() == 0,
            Some(k) => if state.units@[k].dead {
                out@.len() == 0
            } else {
                &&& out@ == moves_order(*state, state.units@[k], allowance)
                &&& forall|h: Axial| #[trigger]
                    out@.contains(h) <==> reachable(*state, state.units@[k], allowance, h)
            },
        },
{
    let k = match find_unit_index(&state.units, unit_id) {
        Some(k) => k,
        None => return Vec::new(),
    };
    let u = &state.units[k];
    if u.dead {
        return Vec::new();
    }
    assert(unit_ok(state.units@[k as int]));
    let occ = occupied(state, Some(u.id.as_str()));
    let start = core_hex(u);
    let budget: i32 = if u.ap < allowance {
        u.ap
    } else {
        allowance
    };
    let ghost id = u.id@;
    let ghost b = budget as int;
    let ghost cap = seen_cap(state.cols as int, state.rows as int, b);
    let ghost fuel = (cap + 1) as nat;
    let ghost s0 = seq![(start, 0i32)];
    let ghost mut iters: int = 0;
    let mut out: Vec<Axial> = Vec::new();
    let mut seen: Vec<(Axial, i32)> = vec![(start, 0)];
    let mut q: Vec<(Axial, i32)> = vec![(start, 0)];
    proof {
        lemma_start(*state, id, start, b);
        assert(seen@ == seq![(start, 0i32)]);
        assert(q@ == seq![(start, 0i32)]);
        assert(out@ == Seq::<Axial>::empty());
    }
    while q.len() > 0
        invariant
            occ@ == occupied_from(state.units@, Some(id)),
            area_ok(start),
            b == budget as int,
            record_ok(*state, id, start, b, seen@, q@, out@),
            closed_but(*state, id, b, seen@, q@, None),
            seen@.len() <= cap + 1,
            cap == seen_cap(state.cols as int, state.rows as int, b),
            fuel == (cap + 1) as nat,
            s0 == seq![(start, 0i32)],
            0 <= iters,
            iters + (cap + 1 - seen@.len() + q@.len()) <= cap + 1,
            search(*state, id, b, s0, s0, fuel) == search(*state, id, b, seen@, q@, (fuel - iters) as nat),
        decreases cap + 1 - seen@.len() + q@.len(),
    {
        let ghost q0 = q@;
        let ghost sb = seen@;
        proof {
            lemma_pop(*state, id, start, b, seen@, q0, out@);
        }
        let e = q.pop().unwrap();
        assert(e == q0.last());
        assert(q@ == q0.drop_last());
        let (cur, c) = e;
        let ghost gap = seen@.len() - q@.len();
        let ghost qb = q@;
        let ns = hex_neighbors(cur);
        let mut j: usize = 0;
        while j < 6
            invariant
                0 <= j <= 6,
                occ@ == occupied_from(state.units@, Some(id)),
                area_ok(start),
                b == budget as int,
                e == (cur, c),
                0 <= c,
                seen@.contains(e),
                forall|x: int| 0 <= x < 6 ==> #[trigger] ns[x] == plus(cur, dir(x)),
                record_ok(*state, id, start, b, seen@, q@, out@),
                closed_but(*state, id, b, seen@, q@, Some(e)),
                done_upto(*state, id, b, seen@, e, j as int),
                seen@.len() <= cap + 1,
                cap == seen_cap(state.cols as int, state.rows as int, b),
                seen@.len() - q@.len() == gap,
                (seen@, q@) == expand_upto(*state, id, b, e, j as int, sb, qb),
            decreases 6 - j,
        {
            let n = ns[j];
            assert(n == plus(cur, dir(j as int)));
            let mut recorded = false;
            if in_bounds(n, state.cols, state.rows) {
                let cost: i64 = c as i64 + move_cost(state, n) as i64;
                if cost <= budget as i64 && !covers(&seen, n, cost) && !is_taken(&occ, n) {
                    let ghost ne: (Axial, i32) = (n, cost as i32);
                    proof {
                        assert(adjacent(cur, n));
                        lemma_record_seen(*state, id, start, b, seen@, q@, out@, e, ne);
                        lemma_record_closed(*state, id, b, seen@, q@, e, ne);
                        lemma_record_done(*state, id, b, seen@, e, j as int, ne);
                    }
                    seen.push((n, cost as i32));
                    out.push(n);
                    q.push((n, cost as i32));
                    recorded = true;
                }
            }
            if !recorded {
                proof {
                    lemma_skip(*state, id, b, seen@, e, j as int);
                }
            }
            proof {
                let ghost cost = c + step_cost(terrain_in(state.terrain@, n));
                assert(taken(*state, id, n) == (exists|i: int| 0 <= i < occ@.len() && (#[trigger] occ@[i]).0 == n));
            }
            j = j + 1;
        }
        proof {
            lemma_expand_done(*state, id, b, seen@, q@, e);
            assert(q0.last() == e);
            iters = iters + 1;
        }
    }
    proof {
        lemma_search_done(*state, state.units@[k as int], allowance, start, b, seen@, q@, out@);
        reveal(record_ok);
    }
    out
}

proof fn lemma_covered_push(s: Seq<(Axial, i32)>, x: (Axial, i32), n: Axial, c: int)
    requires
        covered(s, n, c),
    ensures
        covered(s.push(x), n, c),
{
    let j = choose|j: int| 0 <= j < s.len() && (#[trigger] s[j]).0 == n && s[j].1 <= c;
    assert(s.push(x)[j] == s[j]);
}

proof fn lemma_expanded_push(
    state: CombatState,
    id: Seq<char>,
    s: Seq<(Axial, i32)>,
    x: (Axial, i32),
    e: (Axial, i32),
    budget: int,
)
    requires
        expanded(state, id, s, e, budget),
    ensures
        expanded(state, id, s.push(x), e, budget),
{
    assert forall|k: int| 0 <= k < 6 implies {
        let n = #[trigger] plus(e.0, dir(k));
        let c = e.1 + step_cost(terrain_in(state.terrain@, n));
        open_cell(state, id, n) && c <= budget ==> covered(s.push(x), n, c)
    } by {
        let n = plus(e.0, dir(k));
        let c = e.1 + step_cost(terrain_in(state.terrain@, n));
        if open_cell(state, id, n) && c <= budget {
            lemma_covered_push(s, x, n, c);
        }
    }
}

} // verus!
