//! Pointy-top axial hexes.

use vstd::prelude::*;
use crate::single::{fadd, fmul, fquot, fround, grid, f_add, f_mul, f_quot, f_round, GRID};

verus! {

/// An axial hex coordinate; the implicit third cube coordinate is `-q - r`.
#[derive(Clone, Copy, Debug, Default, PartialEq, Eq, Hash, Structural)]
pub struct Axial {
    pub q: i32,
    pub r: i32,
}

/// `x` is representable as an `i32`.
pub open spec fn fits(x: int) -> bool {
    i32::MIN <= x <= i32::MAX
}

pub open spec fn iabs(x: int) -> int {
    if x < 0 { -x } else { x }
}

/// The axial point with the given (mathematical) coordinates.
pub open spec fn ax(q: int, r: int) -> Axial {
    Axial { q: q as i32, r: r as i32 }
}

/// Hex (cube) distance between two cells.
pub open spec fn dist(a: Axial, b: Axial) -> int {
    (iabs(a.q - b.q) + iabs((a.q + a.r) - (b.q + b.r)) + iabs(a.r - b.r)) / 2
}

/// The `i32` arithmetic of `hex_distance` does not overflow.
pub open spec fn distance_fits(a: Axial, b: Axial) -> bool {
    &&& i32::MIN < a.q - b.q <= i32::MAX
    &&& fits(a.q + a.r)
    &&& fits(a.q + a.r - b.q)
    &&& i32::MIN < a.q + a.r - b.q - b.r <= i32::MAX
    &&& i32::MIN < a.r - b.r <= i32::MAX
    &&& fits(iabs(a.q - b.q) + iabs(a.q + a.r - b.q - b.r))
    &&& fits(iabs(a.q - b.q) + iabs(a.q + a.r - b.q - b.r) + iabs(a.r - b.r))
}

/// The six unit steps, counter-clockwise from east.
pub open spec fn dir(i: int) -> Axial {
    if i == 0 {
        ax(1, 0)
    } else if i == 1 {
        ax(1, -1)
    } else if i == 2 {
        ax(0, -1)
    } else if i == 3 {
        ax(-1, 0)
    } else if i == 4 {
        ax(-1, 1)
    } else {
        ax(0, 1)
    }
}

/// A facing (or turn count) reduced to `0..6`.
pub open spec fn norm6(f: int) -> int {
    f % 6
}

/// One 60° turn about the origin: `(q, r) -> (-r, q + r)`.
pub open spec fn rot1(h: Axial) -> Axial {
    ax(-h.r, h.q + h.r)
}

/// `t` successive 60° turns.
pub open spec fn rot(h: Axial, t: nat) -> Axial
    decreases t,
{
    if t == 0 {
        h
    } else {
        rot1(rot(h, (t - 1) as nat))
    }
}

/// The `i32` arithmetic of turning `h` does not overflow: every value met is
/// one of `±q`, `±r`, `±(q + r)`.
pub open spec fn turn_fits(h: Axial) -> bool {
    &&& h.q > i32::MIN
    &&& h.r > i32::MIN
    &&& i32::MIN < h.q + h.r <= i32::MAX
}

/// `h + d` stays representable.
pub open spec fn step_fits(h: Axial) -> bool {
    &&& i32::MIN < h.q < i32::MAX
    &&& i32::MIN < h.r < i32::MAX
}

impl Axial {
    pub fn new(q: i32, r: i32) -> (h: Self)
        ensures
            h.q == q,
            h.r == r,
    {
        Self { q, r }
    }

    pub fn key(self) -> (k: (i32, i32))
        ensures
            k == (self.q, self.r),
    {
        (self.q, self.r)
    }

    pub fn add(self, o: Self) -> (h: Self)
        requires
            fits(self.q + o.q),
            fits(self.r + o.r),
        ensures
            h.q == self.q + o.q,
            h.r == self.r + o.r,
    {
        Self { q: self.q + o.q, r: self.r + o.r }
    }

    pub fn sub(self, o: Self) -> (h: Self)
        requires
            fits(self.q - o.q),
            fits(self.r - o.r),
        ensures
            h.q == self.q - o.q,
            h.r == self.r - o.r,
    {
        Self { q: self.q - o.q, r: self.r - o.r }
    }
}

/// Unit step `i` (`0 <= i < 6`).
pub fn hex_dir(i: usize) -> (d: Axial)
    requires
        i < 6,
    ensures
        d == dir(i as int),
{
    if i == 0 {
        Axial { q: 1, r: 0 }
    } else if i == 1 {
        Axial { q: 1, r: -1 }
    } else if i == 2 {
        Axial { q: 0, r: -1 }
    } else if i == 3 {
        Axial { q: -1, r: 0 }
    } else if i == 4 {
        Axial { q: -1, r: 1 }
    } else {
        Axial { q: 0, r: 1 }
    }
}

pub fn hex_eq(a: Axial, b: Axial) -> (e: bool)
    ensures
        e == (a == b),
{
    a.q == b.q && a.r == b.r
}

fn abs32(x: i32) -> (y: i32)
    requires
        x > i32::MIN,
    ensures
        y == iabs(x as int),
{
    if x < 0 { -x } else { x }
}

pub fn hex_distance(a: Axial, b: Axial) -> (d: i32)
    requires
        distance_fits(a, b),
    ensures
        d == dist(a, b),
{
    (abs32(a.q - b.q) + abs32(a.q + a.r - b.q - b.r) + abs32(a.r - b.r)) / 2
}

/// `((x % 6) + 6) % 6` on `i32` is the Euclidean remainder.
fn wrap6(x: i32) -> (m: i32)
    ensures
        m == norm6(x as int),
        0 <= m < 6,
{
    let m = ((x % 6) + 6) % 6;
    assert(m == norm6(x as int)) by (bit_vector)
        requires
            m == ((x % 6) + 6) % 6,
    ;
    m
}

pub fn rotate60(h: Axial, times: i32) -> (out: Axial)
    requires
        turn_fits(h),
    ensures
        out == rot(h, norm6(times as int) as nat),
{
    let mut q = h.q;
    let mut r = h.r;
    let t = wrap6(times);
    let mut i: i32 = 0;
    while i < t
        invariant
            0 <= i <= t < 6,
            turn_fits(h),
            ax(q as int, r as int) == rot(h, i as nat),
            q == rot(h, i as nat).q,
            r == rot(h, i as nat).r,
        decreases t - i,
    {
        proof {
            lemma_rot_table(h);
        }
        let nq = -r;
        let nr = q + r;
        q = nq;
        r = nr;
        i = i + 1;
    }
    Axial { q, r }
}

/// The first six turns, written out.
pub proof fn lemma_rot_table(h: Axial)
    requires
        turn_fits(h),
    ensures
        rot(h, 1) == ax(-h.r, h.q + h.r),
        rot(h, 2) == ax(-(h.q + h.r), h.q as int),
        rot(h, 3) == ax(-h.q, -h.r),
        rot(h, 4) == ax(h.r as int, -(h.q + h.r)),
        rot(h, 5) == ax(h.q + h.r, -h.q),
        rot(h, 6) == h,
{
    reveal_with_fuel(rot, 7);
}

/// `a + b` on mathematical coordinates.
pub open spec fn plus(a: Axial, b: Axial) -> Axial {
    ax(a.q + b.q, a.r + b.r)
}

pub fn hex_neighbors(h: Axial) -> (n: [Axial; 6])
    requires
        step_fits(h),
    ensures
        forall|i: int| 0 <= i < 6 ==> #[trigger] n[i] == plus(h, dir(i)),
{
    let n = [
        h.add(hex_dir(0)),
        h.add(hex_dir(1)),
        h.add(hex_dir(2)),
        h.add(hex_dir(3)),
        h.add(hex_dir(4)),
        h.add(hex_dir(5)),
    ];
    assert forall|i: int| 0 <= i < 6 implies #[trigger] n[i] == plus(h, dir(i)) by {
        if i == 0 {} else if i == 1 {} else if i == 2 {} else if i == 3 {} else if i == 4 {} else {}
    }
    n
}

pub open spec fn imax(a: int, b: int) -> int {
    if a >= b { a } else { b }
}

pub open spec fn imin(a: int, b: int) -> int {
    if a <= b { a } else { b }
}

/// First `r` offset of column `q` in a disc of radius `rad`.
pub open spec fn row_lo(rad: int, q: int) -> int {
    imax(-rad, -q - rad)
}

/// Last `r` offset of column `q` in a disc of radius `rad`.
pub open spec fn row_hi(rad: int, q: int) -> int {
    imin(rad, -q + rad)
}

/// Column `q` of the disc, in increasing `r`.
pub open spec fn disc_row(c: Axial, rad: int, q: int) -> Seq<Axial> {
    let lo = row_lo(rad, q);
    let hi = row_hi(rad, q);
    Seq::new(
        if hi >= lo { (hi - lo + 1) as nat } else { 0 },
        |k: int| ax(c.q + q, c.r + lo + k),
    )
}

/// Columns `q..=rad` of the disc.
pub open spec fn disc_rows(c: Axial, rad: int, q: int) -> Seq<Axial>
    decreases rad - q + 1,
{
    if q > rad {
        Seq::empty()
    } else {
        disc_row(c, rad, q) + disc_rows(c, rad, q + 1)
    }
}

/// The disc of radius `rad` around `c`, column by column (`q` ascending),
/// each column by `r` ascending.
pub open spec fn disc(c: Axial, rad: int) -> Seq<Axial> {
    disc_rows(c, rad, -rad)
}

/// Every coordinate of the disc (and the loop that builds it) fits in `i32`.
pub open spec fn disc_fits(c: Axial, rad: int) -> bool {
    rad < 0 || {
        &&& rad <= 0x3fff_ffff
        &&& fits(c.q - rad)
        &&& fits(c.q + rad)
        &&& fits(c.r - rad)
        &&& fits(c.r + rad)
    }
}

pub fn hex_disc(center: Axial, radius: i32) -> (out: Vec<Axial>)
    requires
        disc_fits(center, radius as int),
    ensures
        out@ == disc(center, radius as int),
{
    let mut out: Vec<Axial> = Vec::new();
    if radius < 0 {
        return out;
    }
    let ghost rad = radius as int;
    let mut q: i32 = -radius;
    while q <= radius
        invariant
            0 <= rad == radius <= 0x3fff_ffff,
            disc_fits(center, rad),
            -rad <= q <= rad + 1,
            out@ + disc_rows(center, rad, q as int) == disc(center, rad),
        decreases radius + 1 - q,
    {
        let r_min = if -radius >= -q - radius { -radius } else { -q - radius };
        let r_max = if radius <= -q + radius { radius } else { -q + radius };
        let ghost base = out@;
        let ghost row = disc_row(center, rad, q as int);
        let mut r = r_min;
        while r <= r_max
            invariant
                0 <= rad == radius <= 0x3fff_ffff,
                disc_fits(center, rad),
                -rad <= q <= rad,
                r_min == row_lo(rad, q as int),
                r_max == row_hi(rad, q as int),
                row == disc_row(center, rad, q as int),
                r_min <= r <= r_max + 1,
                out@ == base + row.take(r - r_min),
            decreases r_max + 1 - r,
        {
            out.push(Axial { q: center.q + q, r: center.r + r });
            proof {
                assert(row.take(r + 1 - r_min) == row.take(r - r_min).push(row[r - r_min]));
            }
            r = r + 1;
        }
        proof {
            assert(row.take(r - r_min) == row);
            assert(disc_rows(center, rad, q as int) == row + disc_rows(center, rad, q + 1));
            assert(base + disc_rows(center, rad, q as int) == out@ + disc_rows(center, rad, q + 1));
        }
        q = q + 1;
    }
    proof {
        assert(disc_rows(center, rad, q as int) == Seq::<Axial>::empty());
        assert(out@ == out@ + Seq::<Axial>::empty());
    }
    out
}

proof fn lemma_unit_mul(u: int, x: int)
    requires
        -1 <= u <= 1,
    ensures
        u == 0 ==> u * x == 0,
        u == 1 ==> u * x == x,
        u == -1 ==> u * x == -x,
{
}

/// `h` lies within `rad` steps of `c`.
pub open spec fn within(c: Axial, rad: int, h: Axial) -> bool {
    dist(h, c) <= rad
}

/// Offsets of the cells of a disc stay within the disc's bounds.
proof fn lemma_disc_rows_elems(c: Axial, rad: int, q0: int)
    requires
        disc_fits(c, rad),
        0 <= rad,
        -rad <= q0,
    ensures
        forall|i: int|
            0 <= i < disc_rows(c, rad, q0).len() ==> {
                let h = #[trigger] disc_rows(c, rad, q0)[i];
                &&& q0 <= h.q - c.q <= rad
                &&& -rad <= h.r - c.r <= rad
                &&& -rad <= (h.q - c.q) + (h.r - c.r) <= rad
            },
    decreases rad - q0 + 1,
{
    if q0 <= rad {
        lemma_disc_rows_elems(c, rad, q0 + 1);
        let row = disc_row(c, rad, q0);
        let rest = disc_rows(c, rad, q0 + 1);
        assert(disc_rows(c, rad, q0) == row + rest);
        assert forall|i: int| 0 <= i < disc_rows(c, rad, q0).len() implies {
            let h = #[trigger] disc_rows(c, rad, q0)[i];
            &&& q0 <= h.q - c.q <= rad
            &&& -rad <= h.r - c.r <= rad
            &&& -rad <= (h.q - c.q) + (h.r - c.r) <= rad
        } by {
            if i < row.len() {
                assert(disc_rows(c, rad, q0)[i] == row[i]);
            } else {
                assert(disc_rows(c, rad, q0)[i] == rest[i - row.len()]);
            }
        }
    }
}

/// Every cell of a disc is a representable hex whose distance arithmetic from
/// the centre fits, at distance at most `rad`.
proof fn lemma_disc_elems(c: Axial, rad: int)
    requires
        disc_fits(c, rad),
        0 <= rad,
        fits(c.q + c.r),
    ensures
        forall|i: int|
            0 <= i < disc(c, rad).len() ==> {
                let h = #[trigger] disc(c, rad)[i];
                &&& distance_fits(c, h)
                &&& dist(c, h) <= rad
                &&& dist(c, h) == dist(h, c)
                &&& iabs(h.q - c.q) <= rad
                &&& iabs(h.r - c.r) <= rad
                &&& iabs((h.q - c.q) + (h.r - c.r)) <= rad
            },
{
    lemma_disc_rows_elems(c, rad, -rad);
}

/// The `i32` arithmetic of `hex_ring` / `hex_cone` over a disc fits.
pub open spec fn ring_fits(c: Axial, rad: int) -> bool {
    &&& disc_fits(c, rad)
    &&& fits(c.q + c.r)
}

/// Cells exactly `rad` steps from `c`.
pub open spec fn at_dist(c: Axial, rad: int) -> spec_fn(Axial) -> bool {
    |h: Axial| dist(c, h) == rad
}

/// The ring of radius `rad` around `c` (in disc order); just `c` for
/// `rad <= 0`.
pub open spec fn ring(c: Axial, rad: int) -> Seq<Axial> {
    if rad <= 0 {
        seq![c]
    } else {
        disc(c, rad).filter(at_dist(c, rad))
    }
}

pub fn hex_ring(center: Axial, radius: i32) -> (out: Vec<Axial>)
    requires
        ring_fits(center, radius as int),
    ensures
        out@ == ring(center, radius as int),
{
    if radius <= 0 {
        return vec![center];
    }
    let d = hex_disc(center, radius);
    let ghost pred = at_dist(center, radius as int);
    proof {
        lemma_disc_elems(center, radius as int);
    }
    let mut out: Vec<Axial> = Vec::new();
    let mut i: usize = 0;
    while i < d.len()
        invariant
            d@ == disc(center, radius as int),
            ring_fits(center, radius as int),
            radius > 0,
            0 <= i <= d.len(),
            forall|k: int|
                0 <= k < d@.len() ==> {
                    let h = #[trigger] d@[k];
                    &&& distance_fits(center, h)
                    &&& dist(center, h) <= radius
                },
            pred == at_dist(center, radius as int),
            out@ == d@.take(i as int).filter(pred),
        decreases d.len() - i,
    {
        let h = d[i];
        proof {
            reveal(Seq::filter);
            assert(d@.take(i + 1).drop_last() == d@.take(i as int));
            assert(d@.take(i + 1).last() == h);
        }
        let ghost before = out@;
        if hex_distance(center, h) == radius {
            out.push(h);
        }
        proof {
            reveal(Seq::filter);
            assert(pred(h) == (dist(center, h) == radius));
            assert(d@.take(i + 1).filter(pred) == if pred(h) {
                before.push(h)
            } else {
                before
            });
        }
        i = i + 1;
    }
    proof {
        assert(d@.take(d@.len() as int) == d@);
    }
    out
}

/// Cube dot product of unit step `i` with the offset `(dq, dr)`.
pub open spec fn fdot(i: int, dq: int, dr: int) -> int {
    let d = dir(i);
    d.q * dq + d.r * dr + (-d.q - d.r) * (-dq - dr)
}

/// The six cube dot products written out.
pub proof fn lemma_fdot_values(dq: int, dr: int)
    ensures
        fdot(0, dq, dr) == 2 * dq + dr,
        fdot(1, dq, dr) == dq - dr,
        fdot(2, dq, dr) == -dq - 2 * dr,
        fdot(3, dq, dr) == -2 * dq - dr,
        fdot(4, dq, dr) == -dq + dr,
        fdot(5, dq, dr) == dq + 2 * dr,
{
    assert(dir(0).q == 1 && dir(0).r == 0);
    assert(dir(1).q == 1 && dir(1).r == -1);
    assert(dir(2).q == 0 && dir(2).r == -1);
    assert(dir(3).q == -1 && dir(3).r == 0);
    assert(dir(4).q == -1 && dir(4).r == 1);
    assert(dir(5).q == 0 && dir(5).r == 1);
    lemma_unit_mul(1, dq);
    lemma_unit_mul(0, dr);
    lemma_unit_mul(-1, -dq - dr);
    lemma_unit_mul(-1, dr);
    lemma_unit_mul(0, -dq - dr);
    lemma_unit_mul(0, dq);
    lemma_unit_mul(1, -dq - dr);
    lemma_unit_mul(-1, dq);
    lemma_unit_mul(1, dr);
}

/// `h` is in the cone of `o` facing unit step `f`: not `o` itself, and no
/// more than half a step off the facing axis.
///
/// The cone test compares the integer dot product with the distance; for
/// offsets below `2^22` this is exactly the single-precision test
/// `dot as f32 >= d as f32 - 0.5`, since every value involved is then exact.
pub open spec fn in_cone(o: Axial, f: int, h: Axial) -> bool {
    let d = dist(o, h);
    d != 0 && fdot(f, h.q - o.q, h.r - o.r) >= d
}

pub open spec fn cone_pred(o: Axial, f: int) -> spec_fn(Axial) -> bool {
    |h: Axial| in_cone(o, f, h)
}

/// Bounds under which `hex_cone` neither overflows nor leaves exact
/// single-precision range.
pub open spec fn cone_fits(o: Axial, range: int) -> bool {
    ring_fits(o, range) && range < 0x40_0000
}

/// The cone of `o` facing step `norm6(f)` out to `range`, in disc order.
pub open spec fn cone(o: Axial, f: int, range: int) -> Seq<Axial> {
    disc(o, range).filter(cone_pred(o, norm6(f)))
}

pub fn hex_cone(origin: Axial, facing: i32, range: i32) -> (out: Vec<Axial>)
    requires
        cone_fits(origin, range as int),
    ensures
        out@ == cone(origin, facing as int, range as int),
{
    let f = wrap6(facing);
    let fwd = hex_dir(f as usize);
    let fq = fwd.q;
    let fr = fwd.r;
    let fs = -fq - fr;
    let d = hex_disc(origin, range);
    let ghost pred = cone_pred(origin, f as int);
    let mut out: Vec<Axial> = Vec::new();
    if range < 0 {
        proof {
            assert(d@.len() == 0);
            reveal(Seq::filter);
        }
        return out;
    }
    proof {
        lemma_disc_elems(origin, range as int);
    }
    let mut i: usize = 0;
    while i < d.len()
        invariant
            d@ == disc(origin, range as int),
            cone_fits(origin, range as int),
            0 <= range,
            0 <= f < 6,
            fwd == dir(f as int),
            fq == fwd.q,
            fr == fwd.r,
            fs == -fq - fr,
            0 <= i <= d.len(),
            forall|k: int|
                0 <= k < d@.len() ==> {
                    let h = #[trigger] d@[k];
                    &&& distance_fits(origin, h)
                    &&& dist(origin, h) <= range
                    &&& dist(origin, h) == dist(h, origin)
                    &&& iabs(h.q - origin.q) <= range
                    &&& iabs(h.r - origin.r) <= range
                    &&& iabs((h.q - origin.q) + (h.r - origin.r)) <= range
                },
            pred == cone_pred(origin, f as int),
            out@ == d@.take(i as int).filter(pred),
        decreases d.len() - i,
    {
        let h = d[i];
        let ghost before = out@;
        assert(distance_fits(origin, d@[i as int]));
        let dd = hex_distance(origin, h);
        if dd != 0 {
            let dq = h.q - origin.q;
            let dr = h.r - origin.r;
            let ds = -dq - dr;
            assert(-1 <= fq <= 1 && -1 <= fr <= 1 && -1 <= fs <= 1) by {
                if f == 0 {} else if f == 1 {} else if f == 2 {} else if f == 3 {} else if f == 4 {} else {}
            }
            assert(iabs(fq * dq) <= range) by {
                if fq == 0 {} else if fq == 1 {} else {}
            }
            assert(iabs(fr * dr) <= range) by {
                if fr == 0 {} else if fr == 1 {} else {}
            }
            assert(iabs(fs * ds) <= range) by {
                if fs == 0 {} else if fs == 1 {} else {}
            }
            let dot = fq * dq + fr * dr + fs * ds;
            assert(dot == fdot(f as int, dq as int, dr as int)) by {
                if f == 0 {} else if f == 1 {} else if f == 2 {} else if f == 3 {} else if f == 4 {} else {}
            }
            if dot >= dd {
                out.push(h);
            }
        }
        proof {
            reveal(Seq::filter);
            assert(d@.take(i + 1).drop_last() == d@.take(i as int));
            assert(d@.take(i + 1).last() == h);
            assert(pred(h) == in_cone(origin, f as int, h));
            assert(d@.take(i + 1).filter(pred) == if pred(h) {
                before.push(h)
            } else {
                before
            });
        }
        i = i + 1;
    }
    proof {
        assert(d@.take(d@.len() as int) == d@);
    }
    out
}

/// The three cells in front of `o` facing `norm6(f)`: front-left, front,
/// front-right.
pub open spec fn sweep(o: Axial, f: int) -> Seq<Axial> {
    seq![
        plus(o, dir((norm6(f) + 5) % 6)),
        plus(o, dir(norm6(f))),
        plus(o, dir((norm6(f) + 1) % 6)),
    ]
}

pub fn hex_sweep(origin: Axial, facing: i32) -> (out: Vec<Axial>)
    requires
        step_fits(origin),
    ensures
        out@ == sweep(origin, facing as int),
{
    let f = wrap6(facing);
    let mut out: Vec<Axial> = Vec::new();
    out.push(origin.add(hex_dir(((f + 5) % 6) as usize)));
    out.push(origin.add(hex_dir(f as usize)));
    out.push(origin.add(hex_dir(((f + 1) % 6) as usize)));
    out
}

/// The `i32` arithmetic of `facing_toward` does not overflow.
pub open spec fn facing_fits(from: Axial, to: Axial) -> bool {
    let dq = to.q - from.q;
    let dr = to.r - from.r;
    &&& i32::MIN < dq <= i32::MAX
    &&& i32::MIN < dr <= i32::MAX
    &&& i32::MIN < -dq - dr <= i32::MAX
    &&& fits(dq - dr)
    &&& fits(dr - dq)
    &&& forall|i: int| 0 <= i < 6 ==> fits(#[trigger] fdot(i, dq, dr))
}

/// The largest of the six cube dot products.
pub open spec fn top_dot(dq: int, dr: int) -> int {
    let m01 = imax(fdot(0, dq, dr), fdot(1, dq, dr));
    let m23 = imax(fdot(2, dq, dr), fdot(3, dq, dr));
    let m45 = imax(fdot(4, dq, dr), fdot(5, dq, dr));
    imax(imax(m01, m23), m45)
}

/// The facing (unit step) that points most nearly from `from` to `to`: the
/// first step whose cube dot product with the offset is largest.
pub open spec fn facing_of(from: Axial, to: Axial) -> int {
    let dq = to.q - from.q;
    let dr = to.r - from.r;
    let m = top_dot(dq, dr);
    if fdot(0, dq, dr) == m {
        0
    } else if fdot(1, dq, dr) == m {
        1
    } else if fdot(2, dq, dr) == m {
        2
    } else if fdot(3, dq, dr) == m {
        3
    } else if fdot(4, dq, dr) == m {
        4
    } else {
        5
    }
}

pub fn facing_toward(from: Axial, to: Axial) -> (f: i32)
    requires
        facing_fits(from, to),
    ensures
        f == facing_of(from, to),
        0 <= f < 6,
        forall|i: int|
            0 <= i < 6 ==> #[trigger] fdot(i, to.q - from.q, to.r - from.r) <= fdot(
                f as int,
                to.q - from.q,
                to.r - from.r,
            ),
        forall|i: int|
            0 <= i < f ==> #[trigger] fdot(i, to.q - from.q, to.r - from.r) < fdot(
                f as int,
                to.q - from.q,
                to.r - from.r,
            ),
{
    let dq = to.q - from.q;
    let dr = to.r - from.r;
    if dq == 0 && dr == 0 {
        proof {
            lemma_fdot_values(0, 0);
        }
        return 0;
    }
    let mut best: i32 = 0;
    let mut best_dot: i32 = i32::MIN;
    let mut i: usize = 0;
    while i < 6
        invariant
            facing_fits(from, to),
            dq == to.q - from.q,
            dr == to.r - from.r,
            0 <= i <= 6,
            i == 0 ==> best == 0 && best_dot == i32::MIN,
            i > 0 ==> 0 <= best < i && best_dot == fdot(best as int, dq as int, dr as int),
            forall|k: int| 0 <= k < i ==> #[trigger] fdot(k, dq as int, dr as int) <= best_dot,
            forall|k: int| 0 <= k < best ==> #[trigger] fdot(k, dq as int, dr as int) < best_dot,
        decreases 6 - i,
    {
        let d = hex_dir(i);
        let ds = -d.q - d.r;
        let hs = -dq - dr;
        assert(fits(fdot(i as int, dq as int, dr as int)));
        let dqi = d.q;
        let dri = d.r;
        proof {
            lemma_unit_mul(dqi as int, dq as int);
            lemma_unit_mul(dri as int, dr as int);
            lemma_unit_mul(ds as int, hs as int);
            assert(fdot(i as int, dq as int, dr as int) == dqi * dq + dri * dr + ds * hs);
        }
        let a = dqi * dq;
        let b = dri * dr;
        let c = ds * hs;
        assert(fits(a + b)) by {
            if i == 0 {} else if i == 1 {} else if i == 2 {} else if i == 3 {} else if i == 4 {} else {}
        }
        let dot = a + b + c;
        assert(dot == fdot(i as int, dq as int, dr as int)) by {
            if i == 0 {} else if i == 1 {} else if i == 2 {} else if i == 3 {} else if i == 4 {} else {}
        }
        if dot > best_dot {
            best_dot = dot;
            best = i as i32;
        }
        i = i + 1;
    }
    proof {
        assert(fdot(best as int, dq as int, dr as int) == top_dot(dq as int, dr as int)) by {
            assert(fdot(0, dq as int, dr as int) <= best_dot);
            assert(fdot(1, dq as int, dr as int) <= best_dot);
            assert(fdot(2, dq as int, dr as int) <= best_dot);
            assert(fdot(3, dq as int, dr as int) <= best_dot);
            assert(fdot(4, dq as int, dr as int) <= best_dot);
            assert(fdot(5, dq as int, dr as int) <= best_dot);
        }
        if best > 0 {
            assert(fdot(0, dq as int, dr as int) < best_dot);
        }
        if best > 1 {
            assert(fdot(1, dq as int, dr as int) < best_dot);
        }
        if best > 2 {
            assert(fdot(2, dq as int, dr as int) < best_dot);
        }
        if best > 3 {
            assert(fdot(3, dq as int, dr as int) < best_dot);
        }
        if best > 4 {
            assert(fdot(4, dq as int, dr as int) < best_dot);
        }
    }
    best
}

/// The footprint `shape`, turned `facing` times, placed at `origin`.
pub open spec fn placed(shape: Seq<Axial>, origin: Axial, facing: int) -> Seq<Axial> {
    Seq::new(shape.len(), |i: int| plus(origin, rot(shape[i], norm6(facing) as nat)))
}

/// Turning and placing every footprint cell stays in `i32`.
pub open spec fn footprint_fits(shape: Seq<Axial>, origin: Axial, facing: int) -> bool {
    forall|i: int|
        0 <= i < shape.len() ==> {
            &&& turn_fits(#[trigger] shape[i])
            &&& fits(origin.q + rot(shape[i], norm6(facing) as nat).q)
            &&& fits(origin.r + rot(shape[i], norm6(facing) as nat).r)
        }
}

pub fn place_footprint(shape: &[Axial], origin: Axial, facing: i32) -> (out: Vec<Axial>)
    requires
        footprint_fits(shape@, origin, facing as int),
    ensures
        out@ == placed(shape@, origin, facing as int),
{
    let mut out: Vec<Axial> = Vec::new();
    let mut i: usize = 0;
    while i < shape.len()
        invariant
            footprint_fits(shape@, origin, facing as int),
            0 <= i <= shape.len(),
            out@ == placed(shape@, origin, facing as int).take(i as int),
        decreases shape.len() - i,
    {
        assert(turn_fits(shape@[i as int]));
        let t = rotate60(shape[i], facing);
        out.push(origin.add(t));
        proof {
            assert(placed(shape@, origin, facing as int).take(i + 1) == placed(
                shape@,
                origin,
                facing as int,
            ).take(i as int).push(plus(origin, t)));
        }
        i = i + 1;
    }
    out
}

/// Coordinates small enough for `hex_line`'s single-precision arithmetic to
/// stay far inside range (every conversion from `i32` is exact).
pub open spec fn line_fits(a: Axial, b: Axial) -> bool {
    &&& -0x20_0000 <= a.q <= 0x20_0000
    &&& -0x20_0000 <= a.r <= 0x20_0000
    &&& -0x20_0000 <= b.q <= 0x20_0000
    &&& -0x20_0000 <= b.r <= 0x20_0000
}

/// `x as i32` for an integer-valued binary32 (grid units): truncation.
pub open spec fn to_i32(x: int) -> int {
    if x >= 0 {
        x / grid()
    } else {
        -((-x) / grid())
    }
}

/// Nearest hex to the fractional axial point `(qf, rf)` (grid units), as the
/// single-precision cube rounding computes it: round each cube coordinate,
/// then rebuild the one that moved furthest from the other two.
pub open spec fn cube_round_grid(qf: int, rf: int) -> Axial {
    let sf = fadd(-qf, -rf);
    let q = fround(qf);
    let r = fround(rf);
    let s = fround(sf);
    let qd = iabs(fadd(q, -qf));
    let rd = iabs(fadd(r, -rf));
    let sd = iabs(fadd(s, -sf));
    if qd > rd && qd > sd {
        ax(to_i32(fadd(-r, -s)), to_i32(r))
    } else if rd > sd {
        ax(to_i32(q), to_i32(fadd(-q, -s)))
    } else {
        ax(to_i32(q), to_i32(r))
    }
}

/// `c as f32 + d as f32 * t` (grid units).
pub open spec fn lerp_grid(c: int, d: int, t: int) -> int {
    fadd(c * grid(), fmul(d * grid(), t))
}

/// Point `i` of the `n`-step line from `a` to `b`.
pub open spec fn line_point(a: Axial, b: Axial, n: int, i: int) -> Axial {
    let t = fquot(i, n);
    cube_round_grid(lerp_grid(a.q as int, b.q - a.q, t), lerp_grid(a.r as int, b.r - a.r, t))
}

/// The hexes on the straight line from `a` to `b`, one per step.
pub open spec fn line(a: Axial, b: Axial) -> Seq<Axial> {
    let n = dist(a, b);
    if n == 0 {
        seq![a]
    } else {
        Seq::new((n + 1) as nat, |i: int| line_point(a, b, n, i))
    }
}

fn abs128(x: i128) -> (y: i128)
    requires
        x > i128::MIN,
    ensures
        y == iabs(x as int),
{
    if x < 0 { -x } else { x }
}

fn to_i32_exec(x: i128) -> (v: i32)
    requires
        -0x4000_0000 * grid() <= x <= 0x4000_0000 * grid(),
    ensures
        v == to_i32(x as int),
{
    if x >= 0 {
        (x / GRID) as i32
    } else {
        -((-x) / GRID) as i32
    }
}

/// Magnitudes (grid units) that cube rounding handles.
pub open spec fn small(x: int) -> bool {
    -0x100_0000 * grid() <= x <= 0x100_0000 * grid()
}

/// A coordinate offset (at most `2^22`, in grid units) times a line
/// parameter `t <= 2.0` stays below `2^23` once divided back by the grid.
proof fn lemma_scaled_product(d: int, t: int)
    requires
        -(0x40_0000 * grid()) <= d <= 0x40_0000 * grid(),
        0 <= t <= 2 * grid(),
    ensures
        d * t >= 0 ==> (d * t) / grid() <= 0x80_0000 * grid(),
        d * t < 0 ==> (-(d * t)) / grid() <= 0x80_0000 * grid(),
{
    assert(-(0x80_0000 * grid()) * grid() <= d * t <= (0x80_0000 * grid()) * grid()) by (nonlinear_arith)
        requires
            -(0x40_0000 * grid()) <= d <= 0x40_0000 * grid(),
            0 <= t <= 2 * grid(),
    ;
    vstd::arithmetic::div_mod::lemma_div_multiples_vanish(0x80_0000 * grid(), grid());
    if d * t >= 0 {
        vstd::arithmetic::div_mod::lemma_div_is_ordered(d * t, (0x80_0000 * grid()) * grid(), grid());
    } else {
        vstd::arithmetic::div_mod::lemma_div_is_ordered(-(d * t), (0x80_0000 * grid()) * grid(), grid());
    }
}

/// Magnitude bound used between the steps of cube rounding.
spec fn within_pow(x: int, k: int) -> bool {
    -k * grid() <= x <= k * grid()
}

fn cube_round_exec(qf: i128, rf: i128) -> (h: Axial)
    requires
        small(qf as int),
        small(rf as int),
    ensures
        h == cube_round_grid(qf as int, rf as int),
{
    let sf = f_add(-qf, -rf);
    assert(within_pow(sf as int, 0x400_0000));
    let mut q = f_round(qf);
    let mut r = f_round(rf);
    let s = f_round(sf);
    assert(within_pow(q as int, 0x200_0000));
    assert(within_pow(r as int, 0x200_0000));
    assert(within_pow(s as int, 0x800_0000));
    let dq = f_add(q, -qf);
    let dr = f_add(r, -rf);
    let ds = f_add(s, -sf);
    assert(within_pow(dq as int, 0x800_0000));
    assert(within_pow(dr as int, 0x800_0000));
    assert(within_pow(ds as int, 0x2000_0000));
    let qd = abs128(dq);
    let rd = abs128(dr);
    let sd = abs128(ds);
    if qd > rd && qd > sd {
        q = f_add(-r, -s);
        assert(within_pow(q as int, 0x2000_0000));
    } else if rd > sd {
        r = f_add(-q, -s);
        assert(within_pow(r as int, 0x2000_0000));
    }
    Axial { q: to_i32_exec(q), r: to_i32_exec(r) }
}

pub fn hex_line(a: Axial, b: Axial) -> (out: Vec<Axial>)
    requires
        line_fits(a, b),
    ensures
        out@ == line(a, b),
{
    let n = hex_distance(a, b);
    if n == 0 {
        return vec![a];
    }
    let mut out: Vec<Axial> = Vec::new();
    let mut i: i32 = 0;
    while i <= n
        invariant
            line_fits(a, b),
            n == dist(a, b),
            1 <= n <= 0x80_0000,
            0 <= i <= n + 1,
            out@ == line(a, b).take(i as int),
        decreases n + 1 - i,
    {
        let t = f_quot(i as i128, n as i128);
        let dq = ((b.q - a.q) as i128) * GRID;
        let dr = ((b.r - a.r) as i128) * GRID;
        proof {
            let kq = (b.q - a.q) as int;
            let kr = (b.r - a.r) as int;
            assert(dq * t == (kq * t) * grid()) by (nonlinear_arith)
                requires
                    dq == kq * grid(),
            ;
            assert(dr * t == (kr * t) * grid()) by (nonlinear_arith)
                requires
                    dr == kr * grid(),
            ;
            vstd::arithmetic::div_mod::lemma_mod_multiples_basic(kq * t, grid());
            vstd::arithmetic::div_mod::lemma_mod_multiples_basic(kr * t, grid());
        }
        assert(t <= 2 * grid()) by {
            assert((i as int) * grid() / (n as int) <= grid()) by (nonlinear_arith)
                requires
                    0 <= i <= n,
                    0 < n,
            {
                vstd::arithmetic::div_mod::lemma_div_is_ordered((i as int) * grid(), (n as int) * grid(), n as int);
                vstd::arithmetic::div_mod::lemma_div_multiples_vanish(grid(), n as int);
            }
        }
        let pq = f_mul(dq, t);
        let pr = f_mul(dr, t);
        proof {
            lemma_scaled_product(dq as int, t as int);
            lemma_scaled_product(dr as int, t as int);
        }
        let qf = f_add((a.q as i128) * GRID, pq);
        let rf = f_add((a.r as i128) * GRID, pr);
        let h = cube_round_exec(qf, rf);
        out.push(h);
        proof {
            assert(line(a, b).take(i + 1) == line(a, b).take(i as int).push(h));
        }
        i = i + 1;
    }
    proof {
        assert(line(a, b).take(n + 1) == line(a, b));
    }
    out
}

/// Distance is symmetric, and a cell is at distance zero from itself only.
pub proof fn lemma_dist_symmetric(a: Axial, b: Axial)
    ensures
        dist(a, b) == dist(b, a),
        dist(a, b) >= 0,
        dist(a, b) == 0 <==> a == b,
{
}

/// Each of the six neighbours of a cell is one step away.
pub proof fn lemma_neighbors_at_one(h: Axial)
    requires
        step_fits(h),
    ensures
        forall|i: int| 0 <= i < 6 ==> dist(h, #[trigger] plus(h, dir(i))) == 1,
        dist(h, h) == 0,
{
    assert forall|i: int| 0 <= i < 6 implies dist(h, #[trigger] plus(h, dir(i))) == 1 by {
        if i == 0 {} else if i == 1 {} else if i == 2 {} else if i == 3 {} else if i == 4 {} else {}
    }
}

/// A 60 degree turn keeps a cell's distance from the origin; six turns
/// bring it back.
pub proof fn lemma_turn_keeps_distance(h: Axial)
    requires
        turn_fits(h),
    ensures
        dist(ax(0, 0), rot1(h)) == dist(ax(0, 0), h),
        rot(h, 6) == h,
{
    lemma_rot_table(h);
}

/// A sweep is three cells, each a neighbour of its origin.
pub proof fn lemma_sweep_three(o: Axial, f: int)
    requires
        step_fits(o),
    ensures
        sweep(o, f).len() == 3,
        forall|i: int| 0 <= i < 3 ==> dist(o, #[trigger] sweep(o, f)[i]) == 1,
{
    lemma_neighbors_at_one(o);
    let n = norm6(f);
    assert(0 <= n < 6);
    assert(sweep(o, f)[0] == plus(o, dir((n + 5) % 6)));
    assert(sweep(o, f)[1] == plus(o, dir(n)));
    assert(sweep(o, f)[2] == plus(o, dir((n + 1) % 6)));
}

/// Facing a neighbour picks the step that leads to it.
pub proof fn lemma_facing_neighbor(o: Axial, i: int)
    requires
        step_fits(o),
        0 <= i < 6,
    ensures
        facing_of(o, plus(o, dir(i))) == i,
{
    let n = plus(o, dir(i));
    lemma_fdot_values(n.q - o.q, n.r - o.r);
    if i == 0 {} else if i == 1 {} else if i == 2 {} else if i == 3 {} else if i == 4 {} else {}
}

/// A turn keeps the turning arithmetic in range.
proof fn lemma_turn_fits_rot(h: Axial, t: nat)
    requires
        turn_fits(h),
    ensures
        turn_fits(rot(h, t)),
    decreases t,
{
    if t > 0 {
        lemma_turn_fits_rot(h, (t - 1) as nat);
    }
}

/// Six turns are the identity.
proof fn lemma_rot_six(h: Axial)
    requires
        turn_fits(h),
    ensures
        rot(h, 6) == h,
{
    lemma_rot_table(h);
}

/// Turns compose: `a` turns then `b` turns are `a + b` turns.
pub proof fn lemma_rot_compose(h: Axial, a: nat, b: nat)
    ensures
        rot(rot(h, a), b) == rot(h, a + b),
    decreases b,
{
    if b > 0 {
        lemma_rot_compose(h, a, (b - 1) as nat);
        assert((a + b - 1) as nat == a + (b - 1) as nat);
    }
}

/// Only the turn count modulo six matters.
pub proof fn lemma_rot_mod6(h: Axial, t: nat)
    requires
        turn_fits(h),
    ensures
        rot(h, t) == rot(h, t % 6),
    decreases t,
{
    if t >= 6 {
        lemma_rot_mod6(h, (t - 6) as nat);
        lemma_rot_six(h);
        lemma_rot_compose(h, 6, (t - 6) as nat);
        assert((t - 6) as nat % 6 == t % 6);
    }
}

/// A turn keeps distances between cells.
proof fn lemma_rot1_dist(a: Axial, b: Axial)
    requires
        turn_fits(a),
        turn_fits(b),
    ensures
        dist(rot1(a), rot1(b)) == dist(a, b),
{
    assert(rot1(a).q == -a.r && rot1(a).r == a.q + a.r);
    assert(rot1(b).q == -b.r && rot1(b).r == b.q + b.r);
}

/// Any number of turns keeps distances between cells.
pub proof fn lemma_rot_dist(a: Axial, b: Axial, t: nat)
    requires
        turn_fits(a),
        turn_fits(b),
    ensures
        dist(rot(a, t), rot(b, t)) == dist(a, b),
    decreases t,
{
    if t > 0 {
        lemma_rot_dist(a, b, (t - 1) as nat);
        lemma_turn_fits_rot(a, (t - 1) as nat);
        lemma_turn_fits_rot(b, (t - 1) as nat);
        lemma_rot1_dist(rot(a, (t - 1) as nat), rot(b, (t - 1) as nat));
    }
}

/// The laws of `rotate60` (`rot` by the count reduced modulo six, negative
/// counts included): a count and its remainder modulo six turn alike; turns
/// compose; a turn and its inverse cancel; distance from the origin is kept
/// for every count; and one turn carries step `i` to step `i + 5` (mod 6).
pub proof fn lemma_rotate60_laws(h: Axial, a: int, b: int)
    requires
        turn_fits(h),
    ensures
        rot(h, norm6(a) as nat) == rot(h, norm6(norm6(a)) as nat),
        rot(rot(h, norm6(a) as nat), norm6(b) as nat) == rot(h, norm6(a + b) as nat),
        rot(rot(h, norm6(1) as nat), norm6(-1) as nat) == h,
        dist(ax(0, 0), rot(h, norm6(a) as nat)) == dist(ax(0, 0), h),
        forall|i: int| 0 <= i < 6 ==> rot(#[trigger] dir(i), 1) == dir((i + 5) % 6),
{
    let na = norm6(a) as nat;
    let nb = norm6(b) as nat;
    lemma_rot_compose(h, na, nb);
    lemma_rot_mod6(h, na + nb);
    assert((na + nb) % 6 == norm6(a + b)) by {
        vstd::arithmetic::div_mod::lemma_add_mod_noop(a, b, 6);
    }
    lemma_rot_compose(h, 1, 5);
    lemma_rot_six(h);
    lemma_rot_dist(ax(0, 0), h, na);
    lemma_origin_fixed(na);
    lemma_dir_turn();
}

/// The origin stays put under any number of turns.
proof fn lemma_origin_fixed(t: nat)
    ensures
        rot(ax(0, 0), t) == ax(0, 0),
    decreases t,
{
    if t > 0 {
        lemma_origin_fixed((t - 1) as nat);
    }
}

/// One turn carries unit step `i` to step `i + 5` (mod 6).
proof fn lemma_dir_turn()
    ensures
        forall|i: int| 0 <= i < 6 ==> rot(#[trigger] dir(i), 1) == dir((i + 5) % 6),
{
    assert forall|i: int| 0 <= i < 6 implies rot(#[trigger] dir(i), 1) == dir((i + 5) % 6) by {
        reveal_with_fuel(rot, 2);
        if i == 0 {} else if i == 1 {} else if i == 2 {} else if i == 3 {} else if i == 4 {} else {}
    }
}

/// Scaling by a unit coefficient.
proof fn lemma_scale_unit(k: int, c: int)
    requires
        -1 <= c <= 1,
    ensures
        k * c == if c == 1 {
            k
        } else if c == 0 {
            0
        } else {
            -k
        },
{
    assert(k * c == if c == 1 { k } else if c == 0 { 0 } else { -k }) by (nonlinear_arith)
        requires
            -1 <= c <= 1,
    ;
}

/// The cell `k` steps from `o` along unit step `i`.
pub open spec fn ray_cell(o: Axial, i: int, k: int) -> Axial {
    plus(o, ax(k * dir(i).q, k * dir(i).r))
}

/// `k` steps from `o` in any direction stay in `i32`.
pub open spec fn ray_fits(o: Axial, k: int) -> bool {
    &&& 0 <= k <= 0x3fff_ffff
    &&& fits(o.q - k)
    &&& fits(o.q + k)
    &&& fits(o.r - k)
    &&& fits(o.r + k)
}

/// Facing a cell any number of steps along a unit step picks that step.
pub proof fn lemma_facing_along(o: Axial, i: int, k: int)
    requires
        0 <= i < 6,
        k >= 1,
        ray_fits(o, k),
    ensures
        facing_of(o, ray_cell(o, i, k)) == i,
        dist(o, ray_cell(o, i, k)) == k,
{
    let h = ray_cell(o, i, k);
    if i == 0 {
        lemma_scale_unit(k, dir(0).q as int);
        lemma_scale_unit(k, dir(0).r as int);
        assert(h == ax(o.q + k, o.r as int));
    } else if i == 1 {
        lemma_scale_unit(k, dir(1).q as int);
        lemma_scale_unit(k, dir(1).r as int);
        assert(h == ax(o.q + k, o.r - k));
    } else if i == 2 {
        lemma_scale_unit(k, dir(2).q as int);
        lemma_scale_unit(k, dir(2).r as int);
        assert(h == ax(o.q as int, o.r - k));
    } else if i == 3 {
        lemma_scale_unit(k, dir(3).q as int);
        lemma_scale_unit(k, dir(3).r as int);
        assert(h == ax(o.q - k, o.r as int));
    } else if i == 4 {
        lemma_scale_unit(k, dir(4).q as int);
        lemma_scale_unit(k, dir(4).r as int);
        assert(h == ax(o.q - k, o.r + k));
    } else {
        lemma_scale_unit(k, dir(5).q as int);
        lemma_scale_unit(k, dir(5).r as int);
        assert(h == ax(o.q as int, o.r + k));
    }
    lemma_fdot_values(h.q - o.q, h.r - o.r);
}

/// Facing always names one of the six steps.
pub proof fn lemma_facing_range(from: Axial, to: Axial)
    ensures
        0 <= facing_of(from, to) < 6,
{
}

/// A cone holds the straight ray along its facing out to its range but not
/// its own origin, and facings six apart give the same cone.
pub proof fn lemma_cone_ray(o: Axial, f: int, range: int, k: int)
    requires
        cone_fits(o, range),
        1 <= k <= range,
    ensures
        cone(o, f, range).contains(ray_cell(o, norm6(f), k)),
        !cone(o, f, range).contains(o),
        cone(o, f + 6, range) == cone(o, f, range),
{
    let i = norm6(f);
    let h = ray_cell(o, i, k);
    lemma_facing_along(o, i, k);
    lemma_fdot_values(h.q - o.q, h.r - o.r);
    assert(in_cone(o, i, h)) by {
        if i == 0 {} else if i == 1 {} else if i == 2 {} else if i == 3 {} else if i == 4 {} else {}
    }
    lemma_disc_exact(o, range, h);
    let d = disc(o, range);
    let idx = choose|idx: int| 0 <= idx < d.len() && d[idx] == h;
    d.lemma_filter_contains(cone_pred(o, i), idx);
    assert(norm6(f + 6) == norm6(f));
    if cone(o, f, range).contains(o) {
        d.lemma_filter_contains_rev(cone_pred(o, i), o);
        assert(dist(o, o) == 0);
    }
}

/// What a cone is: for every facing and range, a cell lies in the cone
/// exactly when it is 1 to `range` steps from the origin and its cube dot
/// product with the facing step (`q*dq + r*dr + s*ds` over the step's cube
/// coordinates) is at least its distance.
pub proof fn lemma_cone_members(o: Axial, f: int, range: int, h: Axial)
    requires
        cone_fits(o, range),
        1 <= range,
    ensures
        cone(o, f, range).contains(h) <==> {
            let d = dir(norm6(f));
            let dq = h.q - o.q;
            let dr = h.r - o.r;
            &&& 1 <= dist(o, h) <= range
            &&& d.q * dq + d.r * dr + (-d.q - d.r) * (-dq - dr) >= dist(o, h)
        },
{
    let i = norm6(f);
    let d = disc(o, range);
    let p = cone_pred(o, i);
    lemma_disc_exact(o, range, h);
    if cone(o, f, range).contains(h) {
        d.lemma_filter_contains_rev(p, h);
        let k = choose|k: int| 0 <= k < d.filter(p).len() && d.filter(p)[k] == h;
        d.lemma_filter_pred(p, k);
    }
    if dist(o, h) <= range && in_cone(o, i, h) {
        let k = choose|k: int| 0 <= k < d.len() && d[k] == h;
        d.lemma_filter_contains(p, k);
    }
}

/// The neighbour of `o` along step `j` is in the cone facing `f` exactly
/// when `j` is the facing step or one of the two beside it.
proof fn lemma_cone_neighbour(o: Axial, f: int, range: int, j: int)
    requires
        cone_fits(o, range),
        1 <= range,
        0 <= j < 6,
    ensures
        cone(o, f, range).contains(plus(o, dir(j))) <==> (j == (norm6(f) + 5) % 6 || j == norm6(f)
            || j == (norm6(f) + 1) % 6),
{
    let i = norm6(f);
    let n = plus(o, dir(j));
    lemma_cone_members(o, f, range, n);
    assert(step_fits(o));
    lemma_neighbors_at_one(o);
    assert(dist(o, n) == 1);
    let dq = n.q - o.q;
    let dr = n.r - o.r;
    assert(dq == dir(j).q && dr == dir(j).r) by {
        if j == 0 {} else if j == 1 {} else if j == 2 {} else if j == 3 {} else if j == 4 {} else {}
    }
    let d = dir(i);
    assert(d.q * dq + d.r * dr + (-d.q - d.r) * (-dq - dr) == fdot(i, dq, dr));
    lemma_fdot_values(dq, dr);
    assert((fdot(i, dq, dr) >= 1) <==> (j == (i + 5) % 6 || j == i || j == (i + 1) % 6)) by {
        if j == 0 {
            assert(dq == 1 && dr == 0);
        } else if j == 1 {
            assert(dq == 1 && dr == -1);
        } else if j == 2 {
            assert(dq == 0 && dr == -1);
        } else if j == 3 {
            assert(dq == -1 && dr == 0);
        } else if j == 4 {
            assert(dq == -1 && dr == 1);
        } else {
            assert(dq == 0 && dr == 1);
        }
    }
}

/// The three cells in front of a cone's origin (steps `f - 1`, `f`, `f + 1`)
/// are always in it; the three behind and beside never are.
pub proof fn lemma_cone_front(o: Axial, f: int, range: int)
    requires
        cone_fits(o, range),
        1 <= range,
    ensures
        cone(o, f, range).contains(plus(o, dir((norm6(f) + 5) % 6))),
        cone(o, f, range).contains(plus(o, dir(norm6(f)))),
        cone(o, f, range).contains(plus(o, dir((norm6(f) + 1) % 6))),
        !cone(o, f, range).contains(plus(o, dir((norm6(f) + 2) % 6))),
        !cone(o, f, range).contains(plus(o, dir((norm6(f) + 3) % 6))),
        !cone(o, f, range).contains(plus(o, dir((norm6(f) + 4) % 6))),
{
    let i = norm6(f);
    assert(0 <= (i + 5) % 6 < 6 && 0 <= (i + 1) % 6 < 6 && 0 <= (i + 2) % 6 < 6 && 0 <= (i + 3) % 6
        < 6 && 0 <= (i + 4) % 6 < 6 && 0 <= i < 6) by {
        if i == 0 {} else if i == 1 {} else if i == 2 {} else if i == 3 {} else if i == 4 {} else {}
    }
    lemma_cone_neighbour(o, f, range, (i + 5) % 6);
    lemma_cone_neighbour(o, f, range, i);
    lemma_cone_neighbour(o, f, range, (i + 1) % 6);
    lemma_cone_neighbour(o, f, range, (i + 2) % 6);
    lemma_cone_neighbour(o, f, range, (i + 3) % 6);
    lemma_cone_neighbour(o, f, range, (i + 4) % 6);
    assert((i + 2) % 6 != (i + 5) % 6 && (i + 2) % 6 != i && (i + 2) % 6 != (i + 1) % 6) by {
        if i == 0 {} else if i == 1 {} else if i == 2 {} else if i == 3 {} else if i == 4 {} else {}
    }
    assert((i + 3) % 6 != (i + 5) % 6 && (i + 3) % 6 != i && (i + 3) % 6 != (i + 1) % 6) by {
        if i == 0 {} else if i == 1 {} else if i == 2 {} else if i == 3 {} else if i == 4 {} else {}
    }
    assert((i + 4) % 6 != (i + 5) % 6 && (i + 4) % 6 != i && (i + 4) % 6 != (i + 1) % 6) by {
        if i == 0 {} else if i == 1 {} else if i == 2 {} else if i == 3 {} else if i == 4 {} else {}
    }
}

/// Placing a footprint keeps the distances between its cells, and facings
/// six apart place it alike.
pub proof fn lemma_placed_laws(shape: Seq<Axial>, origin: Axial, facing: int, i: int, j: int)
    requires
        footprint_fits(shape, origin, facing),
        0 <= i < shape.len(),
        0 <= j < shape.len(),
    ensures
        placed(shape, origin, facing).len() == shape.len(),
        dist(placed(shape, origin, facing)[i], placed(shape, origin, facing)[j]) == dist(shape[i], shape[j]),
        placed(shape, origin, facing + 6) == placed(shape, origin, facing),
{
    let t = norm6(facing) as nat;
    assert(turn_fits(shape[i]) && turn_fits(shape[j]));
    lemma_rot_dist(shape[i], shape[j], t);
    assert(norm6(facing + 6) == norm6(facing));
    assert(placed(shape, origin, facing + 6) =~= placed(shape, origin, facing));
}

/// `a` comes before `b` column by column, then row by row.
pub open spec fn lex_lt(a: Axial, b: Axial) -> bool {
    a.q < b.q || (a.q == b.q && a.r < b.r)
}

/// The cells are in strictly increasing column-then-row order.
pub open spec fn lex_sorted(s: Seq<Axial>) -> bool {
    forall|i: int, j: int| 0 <= i < j < s.len() ==> lex_lt(#[trigger] s[i], #[trigger] s[j])
}

/// Columns `q0..` of a disc come in increasing order, each in the column
/// `c.q + q` for `q >= q0`.
proof fn lemma_disc_rows_sorted(c: Axial, rad: int, q0: int)
    requires
        disc_fits(c, rad),
        0 <= rad,
        -rad <= q0,
    ensures
        lex_sorted(disc_rows(c, rad, q0)),
        forall|i: int| 0 <= i < disc_rows(c, rad, q0).len() ==> (#[trigger] disc_rows(c, rad, q0)[i]).q
            >= c.q + q0,
    decreases rad - q0 + 1,
{
    lemma_disc_rows_elems(c, rad, q0);
    if q0 <= rad {
        lemma_disc_rows_sorted(c, rad, q0 + 1);
        let row = disc_row(c, rad, q0);
        let rest = disc_rows(c, rad, q0 + 1);
        let all = disc_rows(c, rad, q0);
        assert(all == row + rest);
        assert forall|i: int| 0 <= i < row.len() implies (#[trigger] row[i]).q == c.q + q0 && row[i].r
            == c.r + row_lo(rad, q0) + i by {
            assert(all[i] == row[i]);
        }
        assert forall|i: int, j: int| 0 <= i < j < all.len() implies lex_lt(#[trigger] all[i], #[trigger] all[j]) by {
            if j < row.len() {
                assert(all[i] == row[i] && all[j] == row[j]);
            } else if i < row.len() {
                assert(all[i] == row[i] && all[j] == rest[j - row.len()]);
            } else {
                assert(all[i] == rest[i - row.len()] && all[j] == rest[j - row.len()]);
            }
        }
        assert forall|i: int| 0 <= i < all.len() implies (#[trigger] all[i]).q >= c.q + q0 by {
            if i >= row.len() {
                assert(all[i] == rest[i - row.len()]);
            }
        }
    }
}

/// Keeping the cells that pass a test keeps them in order.
proof fn lemma_filter_sorted(s: Seq<Axial>, p: spec_fn(Axial) -> bool)
    requires
        lex_sorted(s),
    ensures
        lex_sorted(s.filter(p)),
    decreases s.len(),
{
    broadcast use vstd::seq_lib::group_filter_ensures;
    if s.len() > 0 {
        let init = s.drop_last();
        assert(lex_sorted(init)) by {
            assert forall|i: int, j: int| 0 <= i < j < init.len() implies lex_lt(#[trigger] init[i], #[trigger] init[j]) by {
                assert(init[i] == s[i] && init[j] == s[j]);
            }
        }
        lemma_filter_sorted(init, p);
        assert(s == init.push(s.last()));
        init.lemma_filter_push(s.last(), p);
        let f = init.filter(p);
        if p(s.last()) {
            let g = f.push(s.last());
            assert forall|i: int, j: int| 0 <= i < j < g.len() implies lex_lt(#[trigger] g[i], #[trigger] g[j]) by {
                if j == g.len() - 1 {
                    assert(g[i] == f[i]);
                    init.lemma_filter_contains_rev(p, f[i]);
                    let k = choose|k: int| 0 <= k < init.len() && init[k] == f[i];
                    assert(s[k] == init[k]);
                    assert(lex_lt(s[k], s[s.len() - 1]));
                } else {
                    assert(g[i] == f[i] && g[j] == f[j]);
                }
            }
        }
    }
}

/// A sorted sequence holds no cell twice.
proof fn lemma_sorted_no_dup(s: Seq<Axial>)
    requires
        lex_sorted(s),
    ensures
        s.no_duplicates(),
{
    assert forall|i: int, j: int| 0 <= i < s.len() && 0 <= j < s.len() && i != j implies s[i] != s[j] by {
        if i < j {
            assert(lex_lt(s[i], s[j]));
        } else {
            assert(lex_lt(s[j], s[i]));
        }
    }
}

/// How many of the first `n` cells of `s` pass `p`.
spec fn count_upto(s: Seq<Axial>, p: spec_fn(Axial) -> bool, n: int) -> int
    decreases n,
{
    if n <= 0 {
        0
    } else {
        count_upto(s, p, n - 1) + if p(s[n - 1]) {
            1int
        } else {
            0
        }
    }
}

/// Filtering keeps as many cells as pass the test.
proof fn lemma_filter_count(s: Seq<Axial>, p: spec_fn(Axial) -> bool, n: int)
    requires
        0 <= n <= s.len(),
    ensures
        s.take(n).filter(p).len() == count_upto(s, p, n),
    decreases n,
{
    if n > 0 {
        lemma_filter_count(s, p, n - 1);
        assert(s.take(n) == s.take(n - 1).push(s[n - 1]));
        s.take(n - 1).lemma_filter_push(s[n - 1], p);
    }
}

/// The cells of column `q` of the disc at distance exactly `rad`: the whole
/// first and last columns, otherwise just the two ends.
proof fn lemma_row_ring_count(c: Axial, rad: int, q: int, n: int)
    requires
        disc_fits(c, rad),
        fits(c.q + c.r),
        0 < rad,
        -rad <= q <= rad,
        0 <= n <= disc_row(c, rad, q).len(),
    ensures
        disc_row(c, rad, q).len() == row_hi(rad, q) - row_lo(rad, q) + 1,
        count_upto(disc_row(c, rad, q), at_dist(c, rad), n) == if q == -rad || q == rad {
            n
        } else if n == 0 {
            0
        } else if n < disc_row(c, rad, q).len() {
            1
        } else {
            2
        },
    decreases n,
{
    let row = disc_row(c, rad, q);
    let lo = row_lo(rad, q);
    let hi = row_hi(rad, q);
    if n > 0 {
        lemma_row_ring_count(c, rad, q, n - 1);
        let k = n - 1;
        let h = row[k];
        assert(h == ax(c.q + q, c.r + lo + k));
        assert(h.q == c.q + q && h.r == c.r + lo + k);
        let rr = lo + k;
        assert(dist(c, h) == (iabs(-q) + iabs(-q - rr) + iabs(-rr)) / 2);
        if q == -rad || q == rad {
            assert(dist(c, h) == rad);
        } else if k == 0 || k == row.len() - 1 {
            assert(dist(c, h) == rad);
        } else {
            assert(dist(c, h) < rad);
        }
    }
}

/// Columns `q0..=rad` of the disc hold this many cells at distance `rad`.
proof fn lemma_rows_ring_count(c: Axial, rad: int, q0: int)
    requires
        disc_fits(c, rad),
        fits(c.q + c.r),
        0 < rad,
        -rad <= q0,
    ensures
        disc_rows(c, rad, q0).filter(at_dist(c, rad)).len() == if q0 > rad {
            0
        } else if q0 == -rad {
            6 * rad
        } else {
            2 * (rad - q0) + rad + 1
        },
    decreases rad - q0 + 1,
{
    let p = at_dist(c, rad);
    if q0 <= rad {
        lemma_rows_ring_count(c, rad, q0 + 1);
        let row = disc_row(c, rad, q0);
        let rest = disc_rows(c, rad, q0 + 1);
        assert(disc_rows(c, rad, q0) == row + rest);
        Seq::filter_distributes_over_add(row, rest, p);
        lemma_row_ring_count(c, rad, q0, row.len() as int);
        lemma_filter_count(row, p, row.len() as int);
        assert(row.take(row.len() as int) == row);
    } else {
        assert(disc_rows(c, rad, q0).len() == 0);
        assert(disc_rows(c, rad, q0).filter(p) =~= Seq::<Axial>::empty());
    }
}

/// A ring of positive radius has `6 * rad` cells.
pub proof fn lemma_ring_len(c: Axial, rad: int)
    requires
        ring_fits(c, rad),
        0 < rad,
    ensures
        ring(c, rad).len() == 6 * rad,
{
    lemma_rows_ring_count(c, rad, -rad);
}

/// Discs, rings and cones list each cell once, in column-then-row order.
pub proof fn lemma_no_repeats(c: Axial, rad: int, f: int)
    requires
        ring_fits(c, rad),
        0 < rad,
    ensures
        lex_sorted(disc(c, rad)) && disc(c, rad).no_duplicates(),
        lex_sorted(ring(c, rad)) && ring(c, rad).no_duplicates(),
        ring(c, rad).len() == 6 * rad,
        lex_sorted(cone(c, f, rad)) && cone(c, f, rad).no_duplicates(),
{
    lemma_disc_rows_sorted(c, rad, -rad);
    lemma_sorted_no_dup(disc(c, rad));
    lemma_filter_sorted(disc(c, rad), at_dist(c, rad));
    lemma_sorted_no_dup(ring(c, rad));
    lemma_ring_len(c, rad);
    lemma_filter_sorted(disc(c, rad), cone_pred(c, norm6(f)));
    lemma_sorted_no_dup(cone(c, f, rad));
}

/// Every cell within `rad` of `c` lies in column `q` of the disc or later
/// once `q` is at most its column.
proof fn lemma_disc_rows_complete(c: Axial, rad: int, q0: int, h: Axial)
    requires
        disc_fits(c, rad),
        0 <= rad,
        -rad <= q0,
        q0 <= h.q - c.q,
        dist(c, h) <= rad,
    ensures
        disc_rows(c, rad, q0).contains(h),
    decreases rad - q0 + 1,
{
    let dq = h.q - c.q;
    let dr = h.r - c.r;
    assert(-rad <= dq <= rad && -rad <= dr <= rad && -rad <= dq + dr <= rad);
    let row = disc_row(c, rad, q0);
    let rest = disc_rows(c, rad, q0 + 1);
    assert(q0 <= rad);
    assert(disc_rows(c, rad, q0) == row + rest);
    if dq == q0 {
        let lo = row_lo(rad, q0);
        let k = dr - lo;
        assert(0 <= k < row.len());
        assert(row[k] == ax(c.q + q0, c.r + lo + k));
        assert(row[k] == h);
        assert((row + rest)[k] == h);
    } else {
        lemma_disc_rows_complete(c, rad, q0 + 1, h);
        let j = choose|j: int| 0 <= j < rest.len() && rest[j] == h;
        assert((row + rest)[row.len() + j] == h);
    }
}

/// A disc holds exactly the cells within its radius.
pub proof fn lemma_disc_exact(c: Axial, rad: int, h: Axial)
    requires
        ring_fits(c, rad),
        0 <= rad,
    ensures
        disc(c, rad).contains(h) <==> dist(c, h) <= rad,
{
    lemma_disc_elems(c, rad);
    if dist(c, h) <= rad {
        lemma_disc_rows_complete(c, rad, -rad, h);
    }
}

/// A ring of positive radius holds exactly the cells at that distance.
pub proof fn lemma_ring_exact(c: Axial, rad: int, h: Axial)
    requires
        ring_fits(c, rad),
        0 < rad,
    ensures
        ring(c, rad).contains(h) <==> dist(c, h) == rad,
{
    lemma_disc_exact(c, rad, h);
    let d = disc(c, rad);
    let p = at_dist(c, rad);
    if dist(c, h) == rad {
        let i = choose|i: int| 0 <= i < d.len() && d[i] == h;
        d.lemma_filter_contains(p, i);
    }
    if ring(c, rad).contains(h) {
        d.lemma_filter_contains_rev(p, h);
        let i = choose|i: int| 0 <= i < d.filter(p).len() && d.filter(p)[i] == h;
        d.lemma_filter_pred(p, i);
    }
}

/// Whether `h` is among the cells of `v`.
pub fn has_hex(v: &Vec<Axial>, h: Axial) -> (b: bool)
    ensures
        b == v@.contains(h),
{
    let mut i: usize = 0;
    while i < v.len()
        invariant
            0 <= i <= v@.len(),
            forall|j: int| 0 <= j < i ==> v@[j] != h,
        decreases v.len() - i,
    {
        if hex_eq(v[i], h) {
            proof {
                assert(v@[i as int] == h);
            }
            return true;
        }
        i = i + 1;
    }
    false
}

} // verus!