use darude::arith::{floor_div, saturate, UNIT};
use darude::cardioid::{Cardioid, CHORDS};
use darude::math::{clamp, jittered, lerp_point, rlerp, rlerp_point};
use darude::primitives::{Circle, Line};
use darude::shape::{Bounds, Point, Shape};

fn trig(t: i32) -> Point {
    let a = t as f64 / UNIT as f64 * std::f64::consts::TAU;
    Point { x: (a.cos() * UNIT as f64).round() as i32, y: (a.sin() * UNIT as f64).round() as i32 }
}

fn inside(b: &Bounds, p: &Point) -> bool {
    b.up_left.x <= p.x && p.x <= b.down_right.x && b.down_right.y <= p.y && p.y <= b.up_left.y
}

fn in_stratum(v: i128, a: i128, b: i128, n: i128, i: i128) -> bool {
    a <= v
        && v <= b
        && 2 * n * (v - a) <= (b - a) * (2 * i + 1)
        && (b - a) * (2 * i - 1) < 2 * n * (v - a + 1)
}

#[test]
fn floor_div_rounds_toward_minus_infinity() {
    assert_eq!(floor_div(7, 2), 3);
    assert_eq!(floor_div(-7, 2), -4);
    assert_eq!(floor_div(-8, 2), -4);
    assert_eq!(floor_div(0, 5), 0);
    assert_eq!(floor_div(-1, 65536), -1);
}

#[test]
fn saturate_pins_to_the_coordinate_range() {
    assert_eq!(saturate(5), 5);
    assert_eq!(saturate(-5), -5);
    assert_eq!(saturate(1 << 40), i32::MAX);
    assert_eq!(saturate(-(1 << 40)), i32::MIN);
}

#[test]
fn clamp_confines() {
    assert_eq!(clamp(5, 0, 3), 3);
    assert_eq!(clamp(-5, 0, 3), 0);
    assert_eq!(clamp(2, 0, 3), 2);
    assert_eq!(clamp(2, 3, 0), 3);
}

#[test]
fn jittered_exact_values() {
    // 10 steps over [0, 1000]: step 3 without jitter is at 300
    assert_eq!(jittered(0, 1000, 10, 3, 0), 300);
    // half a stratum back: 250
    assert_eq!(jittered(0, 1000, 10, 3, -32768), 250);
    // just short of half a stratum on: 1000 * (3 * 65536 + 32767) / 655360 = 349.99..
    assert_eq!(jittered(0, 1000, 10, 3, 32767), 349);
    // the first step cannot leave the interval
    assert_eq!(jittered(0, 1000, 10, 0, -32768), 0);
    // an interval that does not start at zero
    assert_eq!(jittered(-500, 500, 4, 2, 0), 0);
    assert_eq!(jittered(-500, 500, 4, 0, -1), -500);
}

#[test]
fn lerp_point_exact_values() {
    let a = Point { x: 0, y: 100 };
    let b = Point { x: 10, y: -100 };
    assert_eq!(lerp_point(&a, &b, 0), a);
    assert_eq!(lerp_point(&a, &b, UNIT), b);
    assert_eq!(lerp_point(&a, &b, UNIT / 2), Point { x: 5, y: 0 });
    // 10 / 4 = 2.5 rounds down to 2, 100 - 200 / 4 = 50
    assert_eq!(lerp_point(&a, &b, UNIT / 4), Point { x: 2, y: 50 });
}

#[test]
fn rlerp_yields_one_value_in_each_stratum() {
    let mut rng = rand::thread_rng();
    for n in [1usize, 2, 3, 10, 1000] {
        let out = rlerp(&mut rng, 0, UNIT, n);
        assert_eq!(out.len(), n);
        for (i, v) in out.iter().enumerate() {
            assert!(in_stratum(*v as i128, 0, UNIT as i128, n as i128, i as i128));
            assert!(*v < UNIT);
        }
    }
}

#[test]
fn rlerp_of_nothing_is_empty() {
    let mut rng = rand::thread_rng();
    assert_eq!(rlerp(&mut rng, 0, UNIT, 0).len(), 0);
}

#[test]
fn rlerp_over_a_shifted_interval() {
    let mut rng = rand::thread_rng();
    let out = rlerp(&mut rng, -7000, 9000, 16);
    assert_eq!(out.len(), 16);
    for (i, v) in out.iter().enumerate() {
        assert!(in_stratum(*v as i128, -7000, 9000, 16, i as i128));
    }
}

#[test]
fn rlerp_is_jittered() {
    let mut rng = rand::thread_rng();
    let mut seen = std::collections::BTreeSet::new();
    for _ in 0..64 {
        let out = rlerp(&mut rng, 0, 1_000_000, 2);
        seen.insert(out[1]);
    }
    assert!(seen.len() > 1);
}

#[test]
fn rlerp_point_stays_on_the_segment() {
    let mut rng = rand::thread_rng();
    let a = Point { x: -3 * UNIT, y: 2 * UNIT };
    let b = Point { x: 5 * UNIT, y: -6 * UNIT };
    let out = rlerp_point(&mut rng, &a, &b, 200);
    assert_eq!(out.len(), 200);
    for (i, p) in out.iter().enumerate() {
        assert!(a.x <= p.x && p.x <= b.x);
        assert!(b.y <= p.y && p.y <= a.y);
        // the segment falls as fast as it advances, eight parts for each
        // part of the parameter
        assert_eq!((p.x - a.x) + (p.y - a.y), 0);
        assert_eq!((p.x - a.x) % 8, 0);
        let t = ((p.x - a.x) / 8) as i128;
        assert!(in_stratum(t, 0, UNIT as i128, 200, i as i128));
    }
}

#[test]
fn line_sample_count_and_bounds() {
    let mut rng = rand::thread_rng();
    let line = Line::new(Point { x: 4 * UNIT, y: -UNIT }, Point { x: -2 * UNIT, y: 3 * UNIT });
    let b = line.find_bounds();
    assert_eq!(
        b,
        Bounds {
            up_left: Point { x: -2 * UNIT, y: 3 * UNIT },
            down_right: Point { x: 4 * UNIT, y: -UNIT }
        }
    );
    let pts = line.as_points(321, &mut rng, &trig);
    assert_eq!(pts.len(), 321);
    for p in pts.iter() {
        assert!(inside(&b, p));
    }
}

#[test]
fn circle_sample_count_and_bounds() {
    let mut rng = rand::thread_rng();
    let circle = Circle::new(Point { x: UNIT, y: 2 * UNIT }, (3 * UNIT) as u32);
    let b = circle.find_bounds();
    let pts = circle.as_points(500, &mut rng, &trig);
    assert_eq!(pts.len(), 500);
    let r = (3 * UNIT) as f64;
    for p in pts.iter() {
        assert!(inside(&b, p));
        let dx = (p.x - UNIT) as f64;
        let dy = (p.y - 2 * UNIT) as f64;
        assert!(((dx * dx + dy * dy).sqrt() - r).abs() < 8.0);
    }
}

#[test]
fn circle_samples_cover_every_arc() {
    let mut rng = rand::thread_rng();
    let circle = Circle::new(Point { x: 0, y: 0 }, (100 * UNIT) as u32);
    let n = 360usize;
    let pts = circle.as_points(n, &mut rng, &trig);
    assert_eq!(pts.len(), n);
    for (i, p) in pts.iter().enumerate() {
        let mut turn = (p.y as f64).atan2(p.x as f64) / std::f64::consts::TAU;
        if turn < -0.25 / n as f64 {
            turn += 1.0;
        }
        let low = (i as f64 - 0.5) / n as f64 - 1e-4;
        let high = (i as f64 + 0.5) / n as f64 + 1e-4;
        assert!(low <= turn && turn <= high);
    }
}

#[test]
fn circle_point_at_exact_values() {
    let circle = Circle::new(Point { x: 10, y: 20 }, 100);
    assert_eq!(circle.point_at(Point { x: UNIT, y: 0 }), Point { x: 110, y: 20 });
    assert_eq!(circle.point_at(Point { x: 0, y: -UNIT }), Point { x: 10, y: -80 });
    // 100 * 0.5 = 50, 100 * -0.25 = -25
    assert_eq!(circle.point_at(Point { x: UNIT / 2, y: -UNIT / 4 }), Point { x: 60, y: -5 });
    // a direction beyond the unit circle counts as the unit
    assert_eq!(circle.point_at(Point { x: 3 * UNIT, y: -3 * UNIT }), Point { x: 110, y: -80 });
}

#[test]
fn circle_bounds_at_the_edge_of_the_range() {
    let circle = Circle::new(Point { x: i32::MAX - 5, y: i32::MIN + 5 }, 10);
    assert_eq!(
        circle.find_bounds(),
        Bounds {
            up_left: Point { x: i32::MAX - 15, y: i32::MIN + 15 },
            down_right: Point { x: i32::MAX, y: i32::MIN }
        }
    );
    assert_eq!(circle.point_at(Point { x: UNIT, y: -UNIT }), Point { x: i32::MAX, y: i32::MIN });
}

#[test]
fn cardioid_turned_angle() {
    let figure = Cardioid::new(Point { x: 0, y: 0 }, UNIT as u32, 3);
    assert_eq!(figure.turned(0), 0);
    assert_eq!(figure.turned(1000), 3000);
    // three times three eighths of a turn is one eighth past a full turn
    assert_eq!(figure.turned(3 * (UNIT / 8)), UNIT / 8);
    // an angle below zero counts from the full turn
    assert_eq!(figure.turned(-1), UNIT - 3);
    assert_eq!(figure.turned(UNIT + 5), 15);
}

#[test]
fn cardioid_drops_what_does_not_divide() {
    let mut rng = rand::thread_rng();
    let figure = Cardioid::new(Point { x: UNIT, y: UNIT }, (UNIT / 2) as u32, 2);
    let b = figure.find_bounds();
    assert_eq!(
        b,
        Bounds {
            up_left: Point { x: UNIT / 2, y: 3 * (UNIT / 2) },
            down_right: Point { x: 3 * (UNIT / 2), y: UNIT / 2 }
        }
    );
    let pts = figure.as_points(2 * CHORDS + 9_999, &mut rng, &trig);
    assert_eq!(pts.len(), 2 * CHORDS);
    for p in pts.iter() {
        assert!(inside(&b, p));
    }
}

#[test]
fn cardioid_with_too_small_a_budget_is_empty() {
    let mut rng = rand::thread_rng();
    let figure = Cardioid::new(Point { x: 0, y: 0 }, UNIT as u32, 5);
    assert_eq!(figure.as_points(CHORDS - 1, &mut rng, &trig).len(), 0);
    assert_eq!(figure.as_points(0, &mut rng, &trig).len(), 0);
    assert_eq!(figure.as_points(CHORDS, &mut rng, &trig).len(), CHORDS);
}
