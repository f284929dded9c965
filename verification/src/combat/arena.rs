//! The battlefield a new battle is laid out on: mud patches, ruin cover
//! and a stagnant-water seam near the middle row.

use vstd::prelude::*;
use crate::hex::{ax, fits, hex_eq, Axial};
use crate::combat::types::Terrain;
use crate::rng::{pick, lcg, Rng};

verus! {

/// `t` already has an entry for `h`.
pub open spec fn has_cell(t: Seq<(Axial, Terrain)>, h: Axial) -> bool {
    exists|i: int| 0 <= i < t.len() && (#[trigger] t[i]).0 == h
}

/// `t` with `h` marked `kind`, unless `h` already has an entry.
pub open spec fn place(t: Seq<(Axial, Terrain)>, h: Axial, kind: Terrain) -> Seq<(Axial, Terrain)> {
    if has_cell(t, h) {
        t
    } else {
        t.push((h, kind))
    }
}

/// `n` random cells of a `cols` x `rows` board marked `kind` where still
/// free, each cell drawn column then row; with the generator state after.
pub open spec fn scatter(
    t: Seq<(Axial, Terrain)>,
    s: u32,
    cols: int,
    rows: int,
    kind: Terrain,
    n: nat,
) -> (Seq<(Axial, Terrain)>, u32)
    decreases n,
{
    if n == 0 {
        (t, s)
    } else {
        let (t1, s1) = scatter(t, s, cols, rows, kind, (n - 1) as nat);
        let s2 = lcg(s1);
        let s3 = lcg(s2);
        let h = ax(pick(s2, 0, cols - 1), pick(s3, 0, rows - 1));
        (place(t1, h, kind), s3)
    }
}

/// The water seam over columns `0..q`: in each column the middle cell
/// turns to water on a draw below 35 (of 0..=100), then the cell below it
/// (or the middle one again on the last row) on a draw below 20.
pub open spec fn seam(
    t: Seq<(Axial, Terrain)>,
    s: u32,
    cols: int,
    rows: int,
    q: nat,
) -> (Seq<(Axial, Terrain)>, u32)
    decreases q,
{
    if q == 0 {
        (t, s)
    } else {
        let (t1, s1) = seam(t, s, cols, rows, (q - 1) as nat);
        let mid = quot(rows, 2);
        let c = q - 1;
        let s2 = lcg(s1);
        let h0 = ax(c, mid);
        let t2 = if pick(s2, 0, 100) < 35 {
            place(t1, h0, Terrain::Water)
        } else {
            t1
        };
        let s3 = lcg(s2);
        let low = if mid + 1 < rows - 1 {
            mid + 1
        } else {
            rows - 1
        };
        let h1 = ax(c, low);
        let t3 = if pick(s3, 0, 100) < 20 {
            place(t2, h1, Terrain::Water)
        } else {
            t2
        };
        (t3, s3)
    }
}

/// `a / b` for `i32`, rounding toward zero.
pub open spec fn quot(a: int, b: int) -> int {
    if a >= 0 {
        a / b
    } else {
        -((-a) / b)
    }
}

/// The whole arena: `max(cols * rows / 5, 8)` mud patches, then
/// `max((cols + rows) / 3, 3)` ruins, then the water seam; with the
/// generator state after.
pub open spec fn arena(s: u32, cols: int, rows: int) -> (Seq<(Axial, Terrain)>, u32) {
    let mud_n = if quot(cols * rows, 5) > 8 {
        quot(cols * rows, 5)
    } else {
        8
    };
    let ruin_n = if quot(cols + rows, 3) > 3 {
        quot(cols + rows, 3)
    } else {
        3
    };
    let (t1, s1) = scatter(Seq::empty(), s, cols, rows, Terrain::Mud, mud_n as nat);
    let (t2, s2) = scatter(t1, s1, cols, rows, Terrain::Ruin, ruin_n as nat);
    seam(t2, s2, cols, rows, if cols > 0 {
        cols as nat
    } else {
        0
    })
}

/// The `i32` arithmetic of laying out the arena does not overflow.
pub open spec fn arena_fits(cols: int, rows: int) -> bool {
    &&& i32::MIN < cols
    &&& i32::MIN < rows
    &&& fits(cols * rows)
    &&& fits(cols + rows)
}

fn has_cell_exec(t: &Vec<(Axial, Terrain)>, h: Axial) -> (b: bool)
    ensures
        b == has_cell(t@, h),
{
    let mut i: usize = 0;
    while i < t.len()
        invariant
            0 <= i <= t@.len(),
            forall|j: int| 0 <= j < i ==> (#[trigger] t@[j]).0 != h,
        decreases t.len() - i,
    {
        if hex_eq(t[i].0, h) {
            return true;
        }
        i = i + 1;
    }
    false
}

fn place_exec(t: &mut Vec<(Axial, Terrain)>, h: Axial, kind: Terrain)
    ensures
        final(t)@ == place(old(t)@, h, kind),
{
    if !has_cell_exec(t, h) {
        t.push((h, kind));
    }
}

/// Draws `n` cells and marks them `kind` where still free.
fn scatter_exec(t: &mut Vec<(Axial, Terrain)>, rng: &mut Rng, cols: i32, rows: i32, kind: Terrain, n: i32)
    requires
        i32::MIN < cols,
        i32::MIN < rows,
    ensures
        (final(t)@, final(rng)@) == scatter(old(t)@, old(rng)@, cols as int, rows as int, kind, if n > 0 {
            n as nat
        } else {
            0
        }),
{
    let ghost t0 = t@;
    let ghost s0 = rng@;
    let mut i: i32 = 0;
    while i < n
        invariant
            i32::MIN < cols,
            i32::MIN < rows,
            0 <= i <= n || (n <= 0 && i == 0),
            (t@, rng@) == scatter(t0, s0, cols as int, rows as int, kind, i as nat),
        decreases n - i,
    {
        let q = rng.int_in(0, cols - 1);
        let r = rng.int_in(0, rows - 1);
        place_exec(t, Axial::new(q, r), kind);
        i = i + 1;
    }
}

/// Lays out the arena of a `cols` x `rows` battle with the generator
/// `rng`, as `arena` says.
pub fn arena_terrain(rng: &mut Rng, cols: i32, rows: i32) -> (t: Vec<(Axial, Terrain)>)
    requires
        arena_fits(cols as int, rows as int),
    ensures
        (t@, final(rng)@) == arena(old(rng)@, cols as int, rows as int),
{
    let mut t: Vec<(Axial, Terrain)> = Vec::new();
    let area = cols * rows;
    let mud_n = if area / 5 > 8 {
        area / 5
    } else {
        8
    };
    scatter_exec(&mut t, rng, cols, rows, Terrain::Mud, mud_n);
    let half = cols + rows;
    let ruin_n = if half / 3 > 3 {
        half / 3
    } else {
        3
    };
    scatter_exec(&mut t, rng, cols, rows, Terrain::Ruin, ruin_n);
    let ghost t2 = t@;
    let ghost s2 = rng@;
    let mid_r = rows / 2;
    let low = if mid_r + 1 < rows - 1 {
        mid_r + 1
    } else {
        rows - 1
    };
    let mut q: i32 = 0;
    while q < cols
        invariant
            i32::MIN < rows,
            mid_r == quot(rows as int, 2),
            low == (if mid_r + 1 < rows - 1 {
                mid_r + 1
            } else {
                rows - 1
            }),
            0 <= q <= cols || (cols <= 0 && q == 0),
            (t@, rng@) == seam(t2, s2, cols as int, rows as int, q as nat),
        decreases cols - q,
    {
        let ghost ta = t@;
        let ghost sa = rng@;
        let d0 = rng.int_in(0, 100);
        if d0 < 35 {
            place_exec(&mut t, Axial::new(q, mid_r), Terrain::Water);
        }
        let ghost tb = t@;
        let d1 = rng.int_in(0, 100);
        if d1 < 20 {
            place_exec(&mut t, Axial::new(q, low), Terrain::Water);
        }
        proof {
            let qn = (q + 1) as nat;
            assert((qn - 1) as nat == q as nat);
            assert(ax(q as int, quot(rows as int, 2)) == Axial { q: q, r: mid_r });
            assert(ax(q as int, low as int) == Axial { q: q, r: low });
            assert(seam(t2, s2, cols as int, rows as int, qn) == (t@, rng@));
        }
        q = q + 1;
    }
    t
}

} // verus!
