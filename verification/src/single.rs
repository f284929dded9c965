//! Single-precision (IEEE 754 binary32) arithmetic, computed exactly on a
//! fixed binary grid.
//!
//! A value is held as an integer count of grid units of `2^-48`. Every
//! binary32 value of magnitude at least `2^-24` is a whole number of grid
//! units, and so is every exact sum or product of integer-valued operands;
//! rounding such a value to 24 significant bits, ties to even, is then exactly
//! what the hardware does. Each operation below states, as a precondition,
//! that its exact result is one of those grid-faithful values.

use vstd::prelude::*;

verus! {

/// Grid units per 1.0.
pub const GRID: i128 = 0x1_0000_0000_0000;

/// Grid units per 1.0, as a mathematical integer.
pub open spec fn grid() -> int {
    0x1_0000_0000_0000
}

/// Largest magnitude (in grid units) the operations accept.
pub open spec fn bound() -> int {
    0x4000_0000_0000_0000_0000_0000_0000_0000  // 2^126
}

/// The spacing of binary32 values around a magnitude of `m` grid units:
/// the smallest power of two `u` with `m < u * 2^24` (one grid unit for
/// magnitudes below `2^24`).
pub open spec fn ulp(m: nat) -> nat
    decreases m,
{
    if m < 0x100_0000 {
        1
    } else {
        2 * ulp(m / 2)
    }
}

/// `a / b` (grid units, `b > 0`) rounded to the nearest multiple of its ulp,
/// ties to an even multiple.
pub open spec fn round_quot(a: nat, b: nat) -> nat {
    let u = ulp(a / b);
    let q = a / (b * u);
    let r = a % (b * u);
    if 2 * r > b * u || (2 * r == b * u && q % 2 == 1) {
        ((q + 1) * u) as nat
    } else {
        (q * u) as nat
    }
}

/// The binary32 value nearest to `num / den` grid units.
pub closed spec fn rne(num: int, den: nat) -> int {
    if num < 0 {
        -(round_quot((-num) as nat, den) as int)
    } else {
        round_quot(num as nat, den) as int
    }
}

/// `num / den` grid units is a whole number of grid units, or at least
/// `2^24` of them; in both cases the grid holds its binary32 rounding.
pub open spec fn faithful(num: int, den: nat) -> bool {
    num % (den as int) == 0 || (if num < 0 { -num } else { num }) / (den as int) >= 0x100_0000
}

/// `x as f32` for an integer `x`.
pub open spec fn from_int(x: int) -> int {
    rne(x * grid(), 1)
}

/// `x + y`.
pub open spec fn fadd(x: int, y: int) -> int {
    rne(x + y, 1)
}

/// `x * y`.
pub open spec fn fmul(x: int, y: int) -> int {
    rne(x * y, grid() as nat)
}

/// `i as f32 / n as f32` for integers `0 <= i` and `0 < n` below `2^24`
/// (both convert exactly): the rounding of the exact quotient.
pub open spec fn fquot(i: int, n: int) -> int {
    rne(i * grid(), n as nat)
}

/// `x.round()`: nearest integer, halves away from zero.
pub open spec fn fround(x: int) -> int {
    if x >= 0 {
        ((x + grid() / 2) / grid()) * grid()
    } else {
        -(((-x + grid() / 2) / grid()) * grid())
    }
}

/// `x.floor()`.
pub open spec fn ffloor(x: int) -> int {
    (x / grid()) * grid()
}

pub proof fn lemma_ulp(m: nat)
    ensures
        ulp(m) >= 1,
        m < ulp(m) * 0x100_0000,
        m >= 0x100_0000 ==> ulp(m) * 0x80_0000 <= m,
        ulp(m) % 2 == 0 || ulp(m) == 1,
    decreases m,
{
    if m >= 0x100_0000 {
        lemma_ulp(m / 2);
    }
}

/// `2^k`.
pub open spec fn two_to(k: nat) -> nat
    decreases k,
{
    if k == 0 {
        1
    } else {
        2 * two_to((k - 1) as nat)
    }
}

proof fn lemma_two_to_add(a: nat, b: nat)
    ensures
        two_to(a + b) == two_to(a) * two_to(b),
    decreases a,
{
    if a > 0 {
        lemma_two_to_add((a - 1) as nat, b);
        assert(two_to(a + b) == 2 * two_to((a - 1 + b) as nat));
        assert(2 * (two_to((a - 1) as nat) * two_to(b)) == (2 * two_to((a - 1) as nat)) * two_to(b))
            by (nonlinear_arith);
    } else {
        assert(two_to(a) == 1);
        assert(1 * two_to(b) == two_to(b));
    }
}

proof fn lemma_two_to_48()
    ensures
        two_to(48) == grid(),
{
    reveal_with_fuel(two_to, 49);
}

/// The ulp of `m` is `2^k`, with `k` the least exponent for which
/// `m < 2^k * 2^24`.
proof fn lemma_ulp_exp(m: nat, j: nat) -> (k: nat)
    ensures
        ulp(m) == two_to(k),
        m < two_to(j) * 0x100_0000 ==> k <= j,
    decreases m,
{
    if m < 0x100_0000 {
        0
    } else {
        if j == 0 {
            let k0 = lemma_ulp_exp(m / 2, 0);
            assert(ulp(m) == 2 * two_to(k0));
            assert(two_to(k0 + 1) == 2 * two_to(k0));
            k0 + 1
        } else {
            let k0 = lemma_ulp_exp(m / 2, (j - 1) as nat);
            assert(two_to(j) == 2 * two_to((j - 1) as nat));
            assert(ulp(m) == 2 * two_to(k0));
            assert(two_to(k0 + 1) == 2 * two_to(k0));
            k0 + 1
        }
    }
}

/// Rounding a whole number of units (a multiple of 1.0) keeps it one.
pub proof fn lemma_round_keeps_units(m: nat)
    requires
        (m as int) % grid() == 0,
    ensures
        (round_quot(m, 1) as int) % grid() == 0,
{
    let k = lemma_ulp_exp(m, 0);
    let u = ulp(m);
    lemma_ulp(m);
    lemma_two_to_48();
    assert(m / 1 == m);
    assert(1 * u == u);
    if k <= 48 {
        lemma_two_to_add(k, (48 - k) as nat);
        let c = (m as int) / grid();
        assert(m == c * grid());
        assert(m == (c * two_to((48 - k) as nat)) * u) by (nonlinear_arith)
            requires
                m == c * grid(),
                grid() == u * two_to((48 - k) as nat),
        ;
        vstd::arithmetic::div_mod::lemma_mod_multiples_basic((c * two_to((48 - k) as nat)) as int, u as int);
        vstd::arithmetic::div_mod::lemma_fundamental_div_mod(m as int, u as int);
        assert(m % u == 0);
        assert((m / u) * u == m);
    } else {
        lemma_two_to_add(48, (k - 48) as nat);
        let q = m / u;
        assert(q * u == (q * two_to((k - 48) as nat)) * grid()) by (nonlinear_arith)
            requires
                u == grid() * two_to((k - 48) as nat),
        ;
        assert((q + 1) * u == ((q + 1) * two_to((k - 48) as nat)) * grid()) by (nonlinear_arith)
            requires
                u == grid() * two_to((k - 48) as nat),
        ;
        vstd::arithmetic::div_mod::lemma_mod_multiples_basic((q * two_to((k - 48) as nat)) as int, grid());
        vstd::arithmetic::div_mod::lemma_mod_multiples_basic(((q + 1) * two_to((k - 48) as nat)) as int, grid());
    }
}

/// A magnitude of at most 1.0 rounds to at most 1.0.
pub proof fn lemma_round_le_one(m: nat)
    requires
        m <= grid(),
    ensures
        round_quot(m, 1) <= grid(),
{
    let k = lemma_ulp_exp(m, 25);
    let u = ulp(m);
    lemma_ulp(m);
    lemma_two_to_48();
    reveal_with_fuel(two_to, 26);
    assert(m / 1 == m);
    assert(1 * u == u);
    lemma_two_to_add(k, (48 - k) as nat);
    let c = two_to((48 - k) as nat);
    assert(grid() == u * c);
    let q = m / u;
    vstd::arithmetic::div_mod::lemma_fundamental_div_mod(m as int, u as int);
    assert(q * u <= m) by (nonlinear_arith)
        requires
            q == m / u,
            u >= 1,
    ;
    if q * u == grid() {
        assert(m % u == 0);
    } else {
        assert(q < c) by (nonlinear_arith)
            requires
                q * u < u * c,
                u >= 1,
        ;
        assert((q + 1) * u <= c * u) by (nonlinear_arith)
            requires
                q + 1 <= c,
                u >= 1,
        ;
    }
}

/// `rne` of a non-negative value is the rounded magnitude.
pub proof fn lemma_rne_nonneg(n: int)
    requires
        n >= 0,
    ensures
        rne(n, 1) == round_quot(n as nat, 1),
{
}

/// `rne` of a negative value is the negated rounded magnitude.
pub proof fn lemma_rne_neg(n: int)
    requires
        n < 0,
    ensures
        rne(n, 1) == -(round_quot((-n) as nat, 1) as int),
{
}

/// Whole numbers of units up to `2^24` are exact binary32 values, and
/// rounding anything not above one of them stays not above it.
pub proof fn lemma_round_units(m: nat, c: nat)
    requires
        1 <= c <= 0x100_0000,
        m <= c * grid(),
    ensures
        round_quot(m, 1) <= c * grid(),
        m == c * grid() ==> round_quot(m, 1) == m,
{
    lemma_two_to_48();
    assert(c * grid() <= 0x100_0000 * grid()) by (nonlinear_arith)
        requires
            c <= 0x100_0000,
    ;
    reveal_with_fuel(two_to, 50);
    let k = lemma_ulp_exp(m, 49);
    let u = ulp(m);
    lemma_ulp(m);
    assert(m / 1 == m);
    assert(1 * u == u);
    let q = m / u;
    vstd::arithmetic::div_mod::lemma_fundamental_div_mod(m as int, u as int);
    assert(q * u <= m) by (nonlinear_arith)
        requires
            q == m / u,
            u >= 1,
    ;
    if k <= 48 {
        lemma_two_to_add(k, (48 - k) as nat);
        let d = c * two_to((48 - k) as nat);
        assert(c * grid() == u * d) by (nonlinear_arith)
            requires
                grid() == u * two_to((48 - k) as nat),
                d == c * two_to((48 - k) as nat),
        ;
        if m == c * grid() {
            vstd::arithmetic::div_mod::lemma_mod_multiples_basic(d as int, u as int);
            assert(m % u == 0);
        } else if q * u == c * grid() {
            assert(m % u == 0);
        } else {
            assert(q < d) by (nonlinear_arith)
                requires
                    q * u < u * d,
                    u >= 1,
            ;
            assert((q + 1) * u <= d * u) by (nonlinear_arith)
                requires
                    q + 1 <= d,
                    u >= 1,
            ;
        }
    } else {
        assert(u == two_to(49));
        assert(m >= 0x100_0000);
        assert(m == c * grid());
        assert(u == 2 * grid());
        assert(c == 0x100_0000) by (nonlinear_arith)
            requires
                u * 0x80_0000 <= m,
                m == c * grid(),
                u == 2 * grid(),
                grid() > 0,
                c <= 0x100_0000,
        ;
        vstd::arithmetic::div_mod::lemma_mod_multiples_basic(0x80_0000, u as int);
        assert(m % u == 0);
    }
}

fn ulp_exec(m: u128) -> (u: u128)
    requires
        m < bound(),
    ensures
        u == ulp(m as nat),
{
    let mut mm = m;
    let mut u: u128 = 1;
    while mm >= 0x100_0000
        invariant
            ulp(m as nat) == u * ulp(mm as nat),
            1 <= u,
            u * mm <= m,
            m < bound(),
        decreases mm,
    {
        proof {
            lemma_ulp(mm as nat);
            let h = mm / 2;
            assert(2 * h <= mm);
            assert((u * 2) * h <= u * mm) by (nonlinear_arith)
                requires
                    2 * h <= mm,
                    1 <= u,
            ;
            assert(2 * u <= u * mm) by (nonlinear_arith)
                requires
                    mm >= 0x100_0000,
                    1 <= u,
            ;
            assert(ulp(m as nat) == (2 * u) * ulp((mm / 2) as nat)) by (nonlinear_arith)
                requires
                    ulp(m as nat) == u * ulp(mm as nat),
                    ulp(mm as nat) == 2 * ulp((mm / 2) as nat),
            ;
        }
        mm = mm / 2;
        u = u * 2;
    }
    proof {
        assert(ulp(mm as nat) == 1);
        assert(u * 1 == u);
    }
    u
}

/// Exact `round_quot` on magnitudes.
fn round_quot_exec(a: u128, b: u128) -> (v: u128)
    requires
        0 < b <= 0x1_0000_0000_0000_0000,
        a < bound(),
    ensures
        v == round_quot(a as nat, b as nat),
        v <= (a / b) + (a / b) / 0x80_0000 + 1,
{
    let m = a / b;
    let u = ulp_exec(m);
    proof {
        lemma_ulp(m as nat);
        assert(u <= m + 1) by (nonlinear_arith)
            requires
                m >= 0x100_0000 ==> u * 0x80_0000 <= m,
                m < 0x100_0000 ==> u == 1,
        ;
        assert(b * u <= b * (m + 1)) by (nonlinear_arith)
            requires
                u <= m + 1,
                0 < b,
        ;
        assert(b * m <= a) by (nonlinear_arith)
            requires
                m == a / b,
                0 < b,
        ;
        assert(b * (m + 1) == b * m + b) by (nonlinear_arith);
        assert(b * u <= a + b);
        assert(b * u >= 1) by (nonlinear_arith)
            requires
                0 < b,
                1 <= u,
        ;
    }
    let bu = b * u;
    let q = a / bu;
    let r = a % bu;
    proof {
        assert(q * bu <= a) by (nonlinear_arith)
            requires
                q == a / bu,
                0 < bu,
        ;
        assert(q * u <= a / b) by {
            vstd::arithmetic::div_mod::lemma_div_denominator(a as int, b as int, u as int);
            assert(q == m / u);
            assert(q * u <= m) by (nonlinear_arith)
                requires
                    q == m / u,
                    0 < u,
            ;
        }
        assert(u <= m + 1);
        assert((q + 1) * u == q * u + u) by (nonlinear_arith);
        assert(u <= m / 0x80_0000 + 1) by {
            if m >= 0x100_0000 {
                assert(u <= m / 0x80_0000) by (nonlinear_arith)
                    requires
                        u * 0x80_0000 <= m,
                ;
            }
        }
    }
    if 2 * r > bu || (2 * r == bu && q % 2 == 1) {
        (q + 1) * u
    } else {
        q * u
    }
}

/// The binary32 rounding of `num / den` grid units.
pub fn rne_exec(num: i128, den: u128) -> (v: i128)
    requires
        0 < den <= 0x1_0000_0000_0000_0000,
        -bound() < num < bound(),
    ensures
        v == rne(num as int, den as nat),
        -(2 * bound() + 2) <= v <= 2 * bound() + 2,
        num >= 0 ==> 0 <= v <= (num as int) / (den as int) + (num as int) / (den as int)
            / 0x80_0000 + 1,
        num < 0 ==> -((-num) as int / (den as int) + (-num) as int / (den as int) / 0x80_0000
            + 1) <= v <= 0,
{
    if num < 0 {
        let mag = (-num) as u128;
        let v = round_quot_exec(mag, den);
        -(v as i128)
    } else {
        let v = round_quot_exec(num as u128, den);
        v as i128
    }
}

/// Operands of a single operation: magnitudes below `2^100` grid units
/// (`2^52`), far inside binary32 range.
pub open spec fn operand(x: int) -> bool {
    -0x10_0000_0000_0000_0000_0000_0000 < x < 0x10_0000_0000_0000_0000_0000_0000
}

/// `x + y` in binary32.
pub fn f_add(x: i128, y: i128) -> (v: i128)
    requires
        -0x2000_0000_0000_0000_0000_0000_0000_0000 < x < 0x2000_0000_0000_0000_0000_0000_0000_0000,
        -0x2000_0000_0000_0000_0000_0000_0000_0000 < y < 0x2000_0000_0000_0000_0000_0000_0000_0000,
    ensures
        v == fadd(x as int, y as int),
        x + y >= 0 ==> 0 <= v <= (x + y) + (x + y) / 0x80_0000 + 1,
        x + y < 0 ==> (x + y) - (-(x + y)) / 0x80_0000 - 1 <= v <= 0,
{
    rne_exec(x + y, 1)
}

/// `x * y` in binary32; the exact product must be grid-faithful.
pub fn f_mul(x: i128, y: i128) -> (v: i128)
    requires
        -0x40_0000_0000_0000_0000 <= x <= 0x40_0000_0000_0000_0000,
        -0x2_0000_0000_0000 <= y <= 0x2_0000_0000_0000,
        faithful(x * y, grid() as nat),
    ensures
        v == fmul(x as int, y as int),
        x * y >= 0 ==> 0 <= v <= x * y / grid() + x * y / grid() / 0x80_0000 + 1,
        x * y < 0 ==> -(-(x * y) / grid() + -(x * y) / grid() / 0x80_0000 + 1) <= v <= 0,
{
    proof {
        assert(-0x80_0000_0000_0000_0000_0000_0000_0000 <= x * y <= 0x80_0000_0000_0000_0000_0000_0000_0000) by (nonlinear_arith)
            requires
                -0x40_0000_0000_0000_0000 <= x <= 0x40_0000_0000_0000_0000,
                -0x2_0000_0000_0000 <= y <= 0x2_0000_0000_0000,
        ;
    }
    rne_exec(x * y, GRID as u128)
}

/// `i as f32 / n as f32` for `0 <= i` and `0 < n <= 2^24`.
pub fn f_quot(i: i128, n: i128) -> (v: i128)
    requires
        0 <= i <= 0x100_0000,
        0 < n <= 0x100_0000,
    ensures
        v == fquot(i as int, n as int),
        faithful(i * grid(), n as nat),
        0 <= v <= (i as int) * grid() / (n as int) + (i as int) * grid() / (n as int) / 0x80_0000 + 1,
{
    proof {
        assert(i * grid() <= 0x100_0000 * grid()) by (nonlinear_arith)
            requires
                0 <= i <= 0x100_0000,
        ;
        if i > 0 {
            assert(i * grid() / (n as int) >= 0x100_0000) by (nonlinear_arith)
                requires
                    1 <= i,
                    0 < n <= 0x100_0000,
            {
                assert(i * grid() >= grid());
                assert(grid() / (n as int) >= 0x100_0000) by (nonlinear_arith)
                    requires
                        0 < n <= 0x100_0000,
                ;
                vstd::arithmetic::div_mod::lemma_div_is_ordered(grid(), i * grid(), n as int);
            }
        }
    }
    rne_exec(i * GRID, n as u128)
}

/// `x.round()` in binary32 (exact: integers below `2^24` are representable).
pub fn f_round(x: i128) -> (v: i128)
    requires
        operand(x as int),
    ensures
        v == fround(x as int),
{
    if x >= 0 {
        ((x + GRID / 2) / GRID) * GRID
    } else {
        -(((-x + GRID / 2) / GRID) * GRID)
    }
}

/// `x.floor()` in binary32.
pub fn f_floor(x: i128) -> (v: i128)
    requires
        operand(x as int),
    ensures
        v == ffloor(x as int),
{
    if x >= 0 {
        (x / GRID) * GRID
    } else {
        -(((-x + GRID - 1) / GRID) * GRID)
    }
}

/// Rounding a quotient does not depend on a common factor of its terms.
proof fn lemma_round_quot_scale(a: nat, b: nat, c: nat)
    requires
        b > 0,
        c > 0,
    ensures
        round_quot(a * c, b * c) == round_quot(a, b),
{
    let ai = a as int;
    let bi = b as int;
    let ci = c as int;
    vstd::arithmetic::div_mod::lemma_div_multiples_vanish_quotient(ci, ai, bi);
    assert(a * c == ci * ai && b * c == ci * bi) by (nonlinear_arith)
        requires
            ai == a,
            bi == b,
            ci == c,
    ;
    let u = ulp(a / b);
    lemma_ulp(a / b);
    let ui = u as int;
    assert(bi * ui > 0) by (nonlinear_arith)
        requires
            bi > 0,
            ui > 0,
    ;
    vstd::arithmetic::div_mod::lemma_div_multiples_vanish_quotient(ci, ai, bi * ui);
    vstd::arithmetic::div_mod::lemma_truncate_middle(ai, ci, bi * ui);
    assert((b * c) * u == ci * (bi * ui)) by (nonlinear_arith)
        requires
            ui == u,
            bi == b,
            ci == c,
    ;
    let r = ai % (bi * ui);
    assert(2 * (ci * r) > ci * (bi * ui) <==> 2 * r > bi * ui) by (nonlinear_arith)
        requires
            ci > 0,
    ;
    assert(2 * (ci * r) == ci * (bi * ui) <==> 2 * r == bi * ui) by (nonlinear_arith)
        requires
            ci > 0,
    ;
}

/// Rounding a quotient does not depend on a common factor of its terms.
pub proof fn lemma_rne_scale(num: int, den: nat, c: nat)
    requires
        den > 0,
        c > 0,
    ensures
        rne(num * c, den * c) == rne(num, den),
{
    if num < 0 {
        assert(num * c < 0 && -(num * c) == (-num) * c) by (nonlinear_arith)
            requires
                num < 0,
                c > 0,
        ;
        lemma_round_quot_scale((-num) as nat, den, c);
    } else {
        assert(num * c >= 0) by (nonlinear_arith)
            requires
                num >= 0,
                c > 0,
        ;
        lemma_round_quot_scale(num as nat, den, c);
    }
}

/// An integer converted to binary32 is still a whole number.
pub proof fn lemma_from_int_units(x: int)
    ensures
        from_int(x) % grid() == 0,
{
    if x >= 0 {
        vstd::arithmetic::div_mod::lemma_mod_multiples_basic(x, grid());
        assert(x * grid() >= 0) by (nonlinear_arith)
            requires
                x >= 0,
        ;
        lemma_round_keeps_units((x * grid()) as nat);
        lemma_rne_nonneg(x * grid());
    } else {
        vstd::arithmetic::div_mod::lemma_mod_multiples_basic(-x, grid());
        assert(x * grid() < 0 && -(x * grid()) == (-x) * grid()) by (nonlinear_arith)
            requires
                x < 0,
        ;
        lemma_round_keeps_units(((-x) * grid()) as nat);
        lemma_rne_neg(x * grid());
        let m = round_quot(((-x) * grid()) as nat, 1) as int;
        assert(m % grid() == 0);
        vstd::arithmetic::div_mod::lemma_fundamental_div_mod(m, grid());
        assert(-m == (-(m / grid())) * grid()) by (nonlinear_arith)
            requires
                m == grid() * (m / grid()),
        ;
        vstd::arithmetic::div_mod::lemma_mod_multiples_basic(-(m / grid()), grid());
    }
}

/// `x as f32` for an `i64`.
pub fn f_from_int(x: i64) -> (v: i128)
    ensures
        v == from_int(x as int),
        v % GRID == 0,
        x >= 0 ==> 0 <= v <= x * grid() + x * grid() / 0x80_0000 + 1,
        x < 0 ==> -(-x * grid() + -x * grid() / 0x80_0000 + 1) <= v <= 0,
{
    proof {
        lemma_from_int_units(x as int);
        assert(-0x8000_0000_0000_0000 * grid() <= x * grid() <= 0x8000_0000_0000_0000 * grid()) by (nonlinear_arith)
            requires
                i64::MIN <= x <= i64::MAX,
        ;
    }
    rne_exec(x as i128 * GRID, 1)
}

/// `x * y` in binary32 for a small `x` and a wide `y`; the exact product
/// must be grid-faithful.
pub fn f_mul_small(x: i128, y: i128) -> (v: i128)
    requires
        -0x2000_0000_0000 <= x <= 0x2000_0000_0000,
        -0x1_0000_0000_0000_0000_0000 <= y <= 0x1_0000_0000_0000_0000_0000,
        faithful(x * y, grid() as nat),
    ensures
        v == fmul(x as int, y as int),
        -0x4000_0000_0000_0000_0000 <= v <= 0x4000_0000_0000_0000_0000,
{
    proof {
        assert(-0x2000_0000_0000_0000_0000_0000_0000_0000 <= x * y <= 0x2000_0000_0000_0000_0000_0000_0000_0000) by (nonlinear_arith)
            requires
                -0x2000_0000_0000 <= x <= 0x2000_0000_0000,
                -0x1_0000_0000_0000_0000_0000 <= y <= 0x1_0000_0000_0000_0000_0000,
        ;
    }
    let v = rne_exec(x * y, GRID as u128);
    proof {
        let n = x * y;
        if n >= 0 {
            vstd::arithmetic::div_mod::lemma_div_is_ordered(n as int, 0x2000_0000_0000_0000_0000_0000_0000_0000, grid());
        } else {
            vstd::arithmetic::div_mod::lemma_div_is_ordered(-n as int, 0x2000_0000_0000_0000_0000_0000_0000_0000, grid());
        }
    }
    v
}

} // verus!