use claymore::rng::Rng;

/// The single-precision generator the game uses, for comparison.
struct FloatRng {
    s: u32,
}

impl FloatRng {
    fn new(seed: u32) -> Self {
        Self { s: if seed == 0 { 1 } else { seed } }
    }
    fn next_f32(&mut self) -> f32 {
        self.s = 1664525u32.wrapping_mul(self.s).wrapping_add(1013904223);
        self.s as f32 / 4294967296.0
    }
    fn draw(&mut self, min: i32, max: i32) -> i32 {
        let span = (max - min + 1) as f32;
        (min + (self.next_f32() * span).floor() as i32).min(max)
    }
    fn chance(&mut self, p: f32) -> bool {
        self.next_f32() < p
    }
}

fn units(p: f32) -> i128 {
    (p as f64 * 281474976710656.0) as i128
}

#[test]
fn draws_match_single_precision() {
    for seed in [0u32, 1, 7, 42, 12345, 0xFFFF_FFFF, 0xDEAD_BEEF] {
        let mut a = Rng::new(seed);
        let mut b = FloatRng::new(seed);
        for i in 0..2000 {
            let (lo, hi) = match i % 4 {
                0 => (0, 6),
                1 => (0, 100),
                2 => (-5, 5),
                _ => (0, 10),
            };
            assert_eq!(a.int_in(lo, hi), b.draw(lo, hi));
        }
    }
}

#[test]
fn chance_matches_single_precision() {
    for seed in [3u32, 99, 2024] {
        let mut a = Rng::new(seed);
        let mut b = FloatRng::new(seed);
        for p in [0.0f32, 0.15, 0.35, 0.55, 0.95, 1.0] {
            for _ in 0..500 {
                assert_eq!(a.chance(units(p)), b.chance(p));
            }
        }
    }
}

#[test]
fn seed_zero_acts_as_one() {
    let mut a = Rng::new(0);
    let mut b = Rng::new(1);
    assert_eq!(a.next_u32(), b.next_u32());
    let mut c = Rng::new(1);
    assert_eq!(c.next_u32(), 1664525u32.wrapping_add(1013904223));
}

#[test]
fn draws_stay_within_max() {
    // A state at the very top of the range rounds to 1.0 in single
    // precision; the draw still gives the last value of the range.
    let mut f = FloatRng::new(1);
    let mut a = Rng::new(1);
    for _ in 0..200_000 {
        let x = f.draw(0, 6);
        let y = a.int_in(0, 6);
        assert_eq!(x, y);
        assert!((0..=6).contains(&y));
    }
    // The seed whose next state is 0xFFFF_FF80, which rounds to 1.0.
    let mut a = Rng::new(0xB5A9_AD65);
    assert_eq!(a.clone().next_u32(), 0xFFFF_FF80);
    assert_eq!(a.int_in(0, 6), 6);
}
