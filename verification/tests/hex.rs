use claymore::hex::{
    facing_toward, hex_cone, hex_disc, hex_distance, hex_eq, hex_line, hex_neighbors, hex_ring,
    hex_sweep, place_footprint, rotate60, Axial,
};

#[test]
fn distance_neighbors() {
    let o = Axial::new(3, 4);
    for n in hex_neighbors(o) {
        assert_eq!(hex_distance(o, n), 1);
    }
    assert_eq!(hex_distance(o, o), 0);
}

#[test]
fn rotate_full_turn() {
    let h = Axial::new(2, -1);
    assert_eq!(rotate60(h, 6), h);
}

#[test]
fn sweep_is_three() {
    assert_eq!(hex_sweep(Axial::new(0, 0), 0).len(), 3);
}

/// The single-precision line the game draws, for comparison.
fn float_round(qf: f32, rf: f32) -> Axial {
    let sf = -qf - rf;
    let mut q = qf.round();
    let mut r = rf.round();
    let s = sf.round();
    let qd = (q - qf).abs();
    let rd = (r - rf).abs();
    let sd = (s - sf).abs();
    if qd > rd && qd > sd {
        q = -r - s;
    } else if rd > sd {
        r = -q - s;
    }
    Axial::new(q as i32, r as i32)
}

fn float_line(a: Axial, b: Axial) -> Vec<Axial> {
    let n = hex_distance(a, b);
    if n == 0 {
        return vec![a];
    }
    (0..=n)
        .map(|i| {
            let t = i as f32 / n as f32;
            float_round(
                a.q as f32 + (b.q - a.q) as f32 * t,
                a.r as f32 + (b.r - a.r) as f32 * t,
            )
        })
        .collect()
}

#[test]
fn line_matches_single_precision() {
    let a = Axial::new(-6, -6);
    let b = Axial::new(5, 5);
    assert_eq!(hex_line(a, b), float_line(a, b));
    for aq in -4..=4 {
        for ar in -4..=4 {
            for bq in -5..=5 {
                for br in -5..=5 {
                    let a = Axial::new(aq, ar);
                    let b = Axial::new(bq, br);
                    assert_eq!(hex_line(a, b), float_line(a, b), "{a:?} -> {b:?}");
                }
            }
        }
    }
}

#[test]
fn line_ends_at_both_ends() {
    let a = Axial::new(1, 2);
    let b = Axial::new(4, -1);
    let l = hex_line(a, b);
    assert_eq!(l.len() as i32, hex_distance(a, b) + 1);
    assert_eq!(l[0], a);
    assert_eq!(*l.last().unwrap(), b);
    assert_eq!(hex_line(a, a), vec![a]);
}

#[test]
fn disc_and_ring_sizes() {
    let c = Axial::new(2, 3);
    let d = hex_disc(c, 2);
    assert_eq!(d.len(), 19);
    assert!(d.iter().all(|h| hex_distance(c, *h) <= 2));
    let r = hex_ring(c, 2);
    assert_eq!(r.len(), 12);
    assert!(r.iter().all(|h| hex_distance(c, *h) == 2));
    assert_eq!(hex_ring(c, 0), vec![c]);
    assert!(hex_disc(c, -1).is_empty());
}

#[test]
fn facing_points_at_each_neighbour() {
    let o = Axial::new(0, 0);
    for (i, n) in hex_neighbors(o).iter().enumerate() {
        assert_eq!(facing_toward(o, *n), i as i32);
    }
    assert_eq!(facing_toward(o, o), 0);
    assert_eq!(facing_toward(o, Axial::new(3, -1)), 0);
}

#[test]
fn cone_faces_forward() {
    let o = Axial::new(0, 0);
    let c = hex_cone(o, 0, 1);
    assert!(c.iter().all(|h| hex_distance(o, *h) == 1));
    assert!(c.iter().any(|h| hex_eq(*h, Axial::new(1, 0))));
    assert!(!c.iter().any(|h| hex_eq(*h, Axial::new(-1, 0))));
    assert_eq!(hex_cone(o, 6, 2), hex_cone(o, 0, 2));
}

#[test]
fn footprint_turns_with_facing() {
    let shape = [Axial::new(0, 0), Axial::new(1, 0)];
    assert_eq!(
        place_footprint(&shape, Axial::new(5, 5), 0),
        vec![Axial::new(5, 5), Axial::new(6, 5)]
    );
    assert_eq!(
        place_footprint(&shape, Axial::new(5, 5), 1),
        vec![Axial::new(5, 5), Axial::new(5, 6)]
    );
    assert_eq!(rotate60(Axial::new(1, 0), -1), rotate60(Axial::new(1, 0), 5));
}

#[test]
fn axial_arithmetic() {
    let a = Axial::new(2, -3);
    let b = Axial::new(-1, 4);
    assert_eq!(a.add(b), Axial::new(1, 1));
    assert_eq!(a.sub(b), Axial::new(3, -7));
    assert_eq!(a.key(), (2, -3));
    assert!(hex_eq(a, Axial::new(2, -3)));
}

#[test]
fn turns_compose_and_reduce() {
    let h = Axial::new(3, -1);
    for a in -13..13 {
        assert_eq!(rotate60(h, a), rotate60(h, a.rem_euclid(6)));
        for b in -7..7 {
            assert_eq!(rotate60(rotate60(h, a), b), rotate60(h, a + b));
        }
        assert_eq!(hex_distance(Axial::new(0, 0), rotate60(h, a)), hex_distance(Axial::new(0, 0), h));
    }
    assert_eq!(rotate60(rotate60(h, 1), -1), h);
    let dirs = [(1, 0), (1, -1), (0, -1), (-1, 0), (-1, 1), (0, 1)];
    for i in 0..6 {
        let d = Axial::new(dirs[i].0, dirs[i].1);
        let e = dirs[(i + 5) % 6];
        assert_eq!(rotate60(d, 1), Axial::new(e.0, e.1));
    }
}

#[test]
fn rings_cones_and_facings() {
    let c = Axial::new(4, 4);
    for r in 1..5 {
        let ring = hex_ring(c, r);
        assert_eq!(ring.len(), 6 * r as usize);
        let mut keys: Vec<(i32, i32)> = ring.iter().map(|h| (h.q, h.r)).collect();
        let n = keys.len();
        keys.sort();
        keys.dedup();
        assert_eq!(keys.len(), n);
    }
    let dirs = [(1, 0), (1, -1), (0, -1), (-1, 0), (-1, 1), (0, 1)];
    for f in 0..6 {
        let cone = hex_cone(c, f as i32, 3);
        assert_eq!(hex_cone(c, f as i32 + 6, 3), cone);
        assert!(!cone.contains(&c));
        for k in 1..=3 {
            let h = Axial::new(c.q + k * dirs[f].0, c.r + k * dirs[f].1);
            assert!(cone.contains(&h));
            assert_eq!(facing_toward(c, h), f as i32);
        }
    }
}

#[test]
fn footprints_keep_their_shape() {
    let shape = [Axial::new(0, 0), Axial::new(1, 0), Axial::new(1, 1)];
    assert_eq!(
        place_footprint(&shape[..2], Axial::new(2, 3), 1),
        vec![Axial::new(2, 3), Axial::new(2, 4)]
    );
    for f in -6..6 {
        let p = place_footprint(&shape, Axial::new(5, 5), f);
        assert_eq!(place_footprint(&shape, Axial::new(5, 5), f + 6), p);
        for i in 0..3 {
            for j in 0..3 {
                assert_eq!(hex_distance(p[i], p[j]), hex_distance(shape[i], shape[j]));
            }
        }
    }
}
