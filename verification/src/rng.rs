//! The seeded linear congruential generator behind every battle roll.

use vstd::prelude::*;
use crate::single::{ffloor, grid, rne, rne_exec, f_floor, lemma_round_keeps_units, lemma_round_le_one, GRID};

verus! {

/// A 32-bit LCG (`s' = 1664525 s + 1013904223 mod 2^32`).
#[derive(Clone, Debug)]
pub struct Rng {
    s: u32,
}

impl View for Rng {
    type V = u32;

    closed spec fn view(&self) -> u32 {
        self.s
    }
}

/// The generator step.
pub open spec fn lcg(s: u32) -> u32 {
    ((1664525 * s + 1013904223) % 0x1_0000_0000) as u32
}

/// `s as f32 / 4294967296.0` in grid units: `s` rounded to 24 significant
/// bits, then scaled by the (exact) power of two.
pub open spec fn unit_of(s: u32) -> int {
    rne(s * 0x1_0000, 1)
}

/// `x as i32` for an integer-valued float holding `k` units: saturating.
pub open spec fn sat_i32(k: int) -> int {
    if k > i32::MAX {
        i32::MAX as int
    } else if k < i32::MIN {
        i32::MIN as int
    } else {
        k
    }
}

/// `span as f32`, as a whole number of units.
pub open spec fn span_units(span: int) -> int {
    rne(span * grid(), 1) / grid()
}

/// What `int_in(min, max)` adds to `min` when the new state is `s`:
/// `(x * span as f32).floor() as i32` with `x = s / 2^32` in single
/// precision.
pub open spec fn draw(s: u32, min: int, max: int) -> int {
    sat_i32(ffloor(rne(unit_of(s) * span_units(max - min + 1), 1)) / grid())
}

/// What `int_in(min, max)` adds to `min`: the single-precision draw, kept
/// within `0..=max - min` (a product that rounds up to the whole span gives
/// the last value of the range).
pub open spec fn pick(s: u32, min: int, max: int) -> int {
    let d = draw(s, min, max);
    if d > max - min {
        max - min
    } else {
        d
    }
}

/// The `i32` arithmetic of `int_in(min, max)` does not overflow.
pub open spec fn int_fits(s: u32, min: int, max: int) -> bool {
    &&& crate::hex::fits(max - min)
    &&& crate::hex::fits(max - min + 1)
    &&& crate::hex::fits(min + pick(lcg(s), min, max))
}

proof fn lemma_span_units(span: int, span_f: int)
    requires
        -0x8000_0000 <= span <= 0x8000_0000,
        span_f == rne(span * grid(), 1),
        span * grid() >= 0 ==> span_f <= span * grid() + span * grid() / 0x80_0000 + 1,
        span * grid() < 0 ==> span_f >= span * grid() - (-(span * grid())) / 0x80_0000 - 1,
        span * grid() >= 0 ==> span_f >= 0,
        span * grid() < 0 ==> span_f <= 0,
    ensures
        span_f % grid() == 0,
        span_f / grid() == span_units(span),
        -0x8000_0200 <= span_f / grid() <= 0x8000_0200,
{
    if span >= 0 {
        vstd::arithmetic::div_mod::lemma_mod_multiples_basic(span, grid());
        lemma_round_keeps_units((span * grid()) as nat);
        crate::single::lemma_rne_nonneg(span * grid());
    } else {
        vstd::arithmetic::div_mod::lemma_mod_multiples_basic(-span, grid());
        lemma_round_keeps_units((-span * grid()) as nat);
        crate::single::lemma_rne_neg(span * grid());
    }
    assert(span * grid() == (span * 0x200_0000) * 0x80_0000) by (nonlinear_arith);
    if span >= 0 {
        vstd::arithmetic::div_mod::lemma_div_multiples_vanish(span * 0x200_0000, 0x80_0000);
        assert(span * 0x200_0000 <= 0x8000_0000 * 0x200_0000) by (nonlinear_arith)
            requires
                span <= 0x8000_0000,
        ;
        assert(span * grid() <= 0x8000_0000 * grid()) by (nonlinear_arith)
            requires
                span <= 0x8000_0000,
        ;
    } else {
        vstd::arithmetic::div_mod::lemma_div_multiples_vanish(-span * 0x200_0000, 0x80_0000);
        assert(-span * 0x200_0000 <= 0x8000_0000 * 0x200_0000) by (nonlinear_arith)
            requires
                -span <= 0x8000_0000,
        ;
        assert(-span * grid() <= 0x8000_0000 * grid()) by (nonlinear_arith)
            requires
                -span <= 0x8000_0000,
        ;
        assert(-(span * grid()) == (-span * 0x200_0000) * 0x80_0000) by (nonlinear_arith);
    }
    assert(-0x8000_0200 * grid() <= span_f <= 0x8000_0200 * grid());
    vstd::arithmetic::div_mod::lemma_div_is_ordered(span_f, 0x8000_0200 * grid(), grid());
    vstd::arithmetic::div_mod::lemma_div_is_ordered(-0x8000_0200 * grid(), span_f, grid());
}

proof fn lemma_unit_bound(s: u32, x: int)
    requires
        x == rne(s * 0x1_0000, 1),
    ensures
        0 <= x <= grid(),
        x == unit_of(s),
{
    assert(s * 0x1_0000 < grid()) by (nonlinear_arith)
        requires
            s < 0x1_0000_0000,
    ;
    crate::single::lemma_rne_nonneg(s * 0x1_0000);
    lemma_round_le_one((s * 0x1_0000) as nat);
}

proof fn lemma_unit_times_span(x: int, k: int)
    requires
        0 <= x <= grid(),
        -0x8000_0200 <= k <= 0x8000_0200,
    ensures
        -0x8000_0200 * grid() <= x * k <= 0x8000_0200 * grid(),
{
    assert(-0x8000_0200 * grid() <= x * k <= 0x8000_0200 * grid()) by (nonlinear_arith)
        requires
            -0x8000_0200 <= k <= 0x8000_0200,
            0 <= x <= grid(),
    ;
}

proof fn lemma_floor_units(p: int, fl: int)
    requires
        fl == ffloor(p),
    ensures
        fl % grid() == 0,
        fl / grid() == ffloor(p) / grid(),
{
    vstd::arithmetic::div_mod::lemma_mod_multiples_basic(p / grid(), grid());
}

/// For a span of `1..=2^24` values the single-precision draw lands in
/// `0..=span`; it reaches `span` only when the product `x * span` rounds up
/// (for instance when the new state is `0xFFFF_FF80` or above, where `x`
/// itself rounds to `1.0`), which `pick` folds back onto the last value.
proof fn lemma_draw_range(s: u32, min: int, max: int)
    requires
        1 <= max - min + 1 <= 0x100_0000,
    ensures
        0 <= draw(s, min, max) <= max - min + 1,
{
    let span = max - min + 1;
    crate::single::lemma_rne_nonneg(span * grid());
    crate::single::lemma_round_units((span * grid()) as nat, span as nat);
    vstd::arithmetic::div_mod::lemma_div_multiples_vanish(span, grid());
    assert(span_units(span) == span);
    let x = unit_of(s);
    lemma_unit_bound(s, x);
    assert(0 <= x * span <= span * grid()) by (nonlinear_arith)
        requires
            0 <= x <= grid(),
            1 <= span,
    ;
    crate::single::lemma_rne_nonneg(x * span);
    crate::single::lemma_round_units((x * span) as nat, span as nat);
    let p = rne(x * span, 1);
    assert(0 <= p <= span * grid());
    vstd::arithmetic::div_mod::lemma_div_is_ordered(p, span * grid(), grid());
    vstd::arithmetic::div_mod::lemma_div_pos_is_pos(p, grid());
    lemma_floor_units(p, ffloor(p));
    vstd::arithmetic::div_mod::lemma_div_multiples_vanish(p / grid(), grid());
}

/// The state a seed starts from: zero is taken as one.
pub open spec fn seed_state(seed: u32) -> u32 {
    if seed == 0 {
        1
    } else {
        seed
    }
}

/// The state after `n` steps.
pub open spec fn nth_state(s: u32, n: nat) -> u32
    decreases n,
{
    if n == 0 {
        s
    } else {
        lcg(nth_state(s, (n - 1) as nat))
    }
}

/// The generator is deterministic: seeds 0 and 1 start alike, and from
/// equal states every step, integer draw and chance comes out equal, so
/// equal seeds give equal sequences.
pub proof fn lemma_same_seed_same_draws(a: u32, b: u32, n: nat, min: int, max: int, p: int)
    requires
        seed_state(a) == seed_state(b),
    ensures
        seed_state(0) == seed_state(1),
        nth_state(seed_state(a), n) == nth_state(seed_state(b), n),
        pick(nth_state(seed_state(a), n + 1), min, max) == pick(
            nth_state(seed_state(b), n + 1),
            min,
            max,
        ),
        (unit_of(nth_state(seed_state(a), n + 1)) < p) == (unit_of(nth_state(seed_state(b), n + 1))
            < p),
{
}

impl Rng {
    pub fn new(seed: u32) -> (r: Self)
        ensures
            r@ == seed_state(seed),
    {
        Self { s: if seed == 0 { 1 } else { seed } }
    }

    /// `next_f32() < p` for a single-precision probability `p` held in
    /// `2^-48` units: advances the generator once and compares its draw,
    /// `s / 2^32` in single precision, with `p`.
    pub fn chance(&mut self, p: i128) -> (b: bool)
        ensures
            final(self)@ == lcg(old(self)@),
            b == (unit_of(lcg(old(self)@)) < p),
    {
        let s = self.next_u32();
        let x = rne_exec(s as i128 * 0x1_0000, 1);
        x < p
    }

    /// Advance the generator and return the new state (the raw draw behind
    /// `next_f32`, which divides it by `2^32` in single precision).
    pub fn next_u32(&mut self) -> (s: u32)
        ensures
            s == lcg(old(self)@),
            final(self)@ == s,
    {
        self.s = 1664525u32.wrapping_mul(self.s).wrapping_add(1013904223);
        proof {
            assert(1664525u32.wrapping_mul(old(self)@) == (1664525 * old(self)@) % 0x1_0000_0000);
        }
        self.s
    }

    /// A draw in `min..=max` (for `min <= max`): `min + floor(x * span)`,
    /// kept within the range.
    pub fn int_in(&mut self, min: i32, max: i32) -> (v: i32)
        requires
            int_fits(old(self)@, min as int, max as int),
        ensures
            final(self)@ == lcg(old(self)@),
            v == min + pick(lcg(old(self)@), min as int, max as int),
            min <= max ==> v <= max,
            min <= max && max - min < 0x100_0000 ==> min <= v,
    {
        let s = self.next_u32();
        let span = max - min + 1;
        proof {
            assert(-0x8000_0000 * grid() <= span * grid() <= 0x8000_0000 * grid()) by (nonlinear_arith)
                requires
                    -0x8000_0000 <= span <= 0x8000_0000,
            ;
            assert(s * 0x1_0000 < grid()) by (nonlinear_arith)
                requires
                    s < 0x1_0000_0000,
            ;
        }
        let span_f = rne_exec((span as i128) * GRID, 1);
        let x = rne_exec((s as i128) * 0x1_0000, 1);
        proof {
            lemma_span_units(span as int, span_f as int);
            lemma_unit_bound(s, x as int);
        }
        let k = span_f / GRID;
        proof {
            lemma_unit_times_span(x as int, k as int);
        }
        let p = rne_exec(x * k, 1);
        let fl = f_floor(p);
        let units = fl / GRID;
        let c: i32 = if units > 0x7fff_ffff {
            i32::MAX
        } else if units < -0x8000_0000 {
            i32::MIN
        } else {
            units as i32
        };
        proof {
            lemma_floor_units(p as int, fl as int);
            if min <= max && max - min < 0x100_0000 {
                lemma_draw_range(s, min as int, max as int);
            }
        }
        let d = if c as i64 > max as i64 - min as i64 {
            max - min
        } else {
            c
        };
        min + d
    }
}

} // verus!
