//! The hunt board's tiles (the renderers draw them).

use vstd::prelude::*;
use crate::hex::{ax, Axial};
use crate::combat::rules::{board_col, cols_before};
use crate::combat::resolve::tdiv;

verus! {

/// One board tile: its cell and its terrain name.
#[derive(Clone, Debug)]
pub struct Tile {
    pub hex: Axial,
    pub terrain: String,
}

/// A fresh `cols` x `rows` board: one grass tile per cell, column by
/// column, each column top to bottom.
pub fn board_tiles(cols: i32, rows: i32) -> (tiles: Vec<Tile>)
    requires
        crate::hex::fits(cols * rows),
    ensures
        tiles@.len() == cols_before(cols as int, rows as int).len(),
        forall|i: int|
            0 <= i < tiles@.len() ==> (#[trigger] tiles@[i]).hex == cols_before(
                cols as int,
                rows as int,
            )[i] && tiles@[i].terrain@ == "grass"@,
{
    let mut tiles: Vec<Tile> = Vec::new();
    let mut q: i32 = 0;
    while q < cols
        invariant
            0 <= q <= cols || (cols <= 0 && q == 0),
            tiles@.len() == cols_before(q as int, rows as int).len(),
            forall|i: int|
                0 <= i < tiles@.len() ==> (#[trigger] tiles@[i]).hex == cols_before(
                    q as int,
                    rows as int,
                )[i] && tiles@[i].terrain@ == "grass"@,
        decreases cols - q,
    {
        let ghost before = tiles@;
        let ghost col = board_col(q as int, rows as int);
        let mut r: i32 = 0;
        while r < rows
            invariant
                0 <= q < cols,
                0 <= r <= rows || (rows <= 0 && r == 0),
                col == board_col(q as int, rows as int),
                tiles@.len() == before.len() + r,
                forall|i: int| 0 <= i < before.len() ==> #[trigger] tiles@[i] == before[i],
                forall|i: int|
                    0 <= i < r ==> (#[trigger] tiles@[before.len() + i]).hex == col[i]
                        && tiles@[before.len() + i].terrain@ == "grass"@,
            decreases rows - r,
        {
            let ghost t0 = tiles@;
            tiles.push(Tile { hex: Axial::new(q, r), terrain: "grass".to_owned() });
            proof {
                assert forall|i: int| 0 <= i < before.len() implies #[trigger] tiles@[i] == before[i] by {
                    assert(tiles@[i] == t0[i]);
                }
                assert forall|i: int| 0 <= i < r + 1 implies (#[trigger] tiles@[before.len()
                    + i]).hex == col[i] && tiles@[before.len() + i].terrain@ == "grass"@ by {
                    if i < r {
                        assert(tiles@[before.len() + i] == t0[before.len() + i]);
                    } else {
                        assert(col[i] == ax(q as int, r as int));
                    }
                }
            }
            r = r + 1;
        }
        proof {
            let nxt = cols_before(q + 1, rows as int);
            assert(nxt == cols_before(q as int, rows as int) + col);
            assert(col.len() == r);
            assert forall|i: int| 0 <= i < tiles@.len() implies (#[trigger] tiles@[i]).hex == nxt[i]
                && tiles@[i].terrain@ == "grass"@ by {
                if i < before.len() {
                    assert(tiles@[i] == before[i]);
                } else {
                    let j = i - before.len();
                    assert(tiles@[before.len() + j].hex == col[j]);
                }
            }
        }
        q = q + 1;
    }
    proof {
        if cols <= 0 {
            assert(cols_before(cols as int, rows as int) == Seq::<Axial>::empty());
        }
    }
    tiles
}

/// The board's middle cell: half the columns and half the rows, each
/// halved toward zero.
pub fn board_center(cols: i32, rows: i32) -> (h: Axial)
    ensures
        h.q == tdiv(cols as int, 2),
        h.r == tdiv(rows as int, 2),
{
    Axial::new(cols / 2, rows / 2)
}

} // verus!
