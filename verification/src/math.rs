//! Stratified jittered interpolation: one randomly displaced sample for each
//! of `n` equal parts of an interval.

use vstd::prelude::*;
use crate::arith::{floor_div, saturate, saturate_spec, UNIT};
use crate::random::draw_range;
use crate::shape::{max_spec, min_spec, Point};

verus! {

/// `t` confined to `[min, max]`; `min` where the two bounds are out of order.
pub open spec fn clamp_spec(t: int, min: int, max: int) -> int {
    max_spec(min, min_spec(max, t))
}

/// The interpolation parameter of sample `i` of `n`, displaced by `j` of the
/// `UNIT` jitter positions of a stratum, as the numerator of a fraction over
/// `n * UNIT`.
pub open spec fn step_numerator(i: int, j: int) -> int {
    i * UNIT + j
}

/// Sample `i` of `n` over `[a, b]` with jitter `j`: the interpolated value
/// `a + (b - a) * (i / n + j / (n * UNIT))`, rounded down and confined to
/// `[a, b]`.
pub open spec fn jittered_step(a: int, b: int, n: int, i: int, j: int) -> int {
    clamp_spec(a + ((b - a) * step_numerator(i, j)) / (n * UNIT), a, b)
}

/// `v` lies in `[a, b]` and no further than half a stratum (and one rounding
/// step) from the `i`-th of the `n` equally spaced positions of that
/// interval, counted from `a`.
pub open spec fn in_stratum(v: int, a: int, b: int, n: int, i: int) -> bool {
    &&& a <= v <= b
    &&& 2 * n * (v - a) <= (b - a) * (2 * i + 1)
    &&& (b - a) * (2 * i - 1) < 2 * n * (v - a + 1)
}

/// A jitter is a displacement of less than half a stratum either way.
pub open spec fn is_jitter(j: int) -> bool {
    -(UNIT / 2) <= j < UNIT / 2
}

/// `v` is sample `i` of `n` over `[a, b]` for some jitter.
pub open spec fn is_jittered_step(v: int, a: int, b: int, n: int, i: int) -> bool {
    exists|j: int| is_jitter(j) && v == #[trigger] jittered_step(a, b, n, i, j)
}

/// `p` is the point on the way from `a` to `b` at some parameter of stratum
/// `i` of `n`.
pub open spec fn is_segment_sample(p: Point, a: Point, b: Point, n: int, i: int) -> bool {
    exists|t: int| in_stratum(t, 0, UNIT as int, n, i) && p == #[trigger] point_between(a, b, t)
}

/// The point at parameter `t / UNIT` on the way from `a` to `b`, each
/// coordinate rounded down.
pub open spec fn point_between(a: Point, b: Point, t: int) -> Point {
    Point {
        x: saturate_spec(a.x + ((b.x - a.x) * t) / (UNIT as int)) as i32,
        y: saturate_spec(a.y + ((b.y - a.y) * t) / (UNIT as int)) as i32,
    }
}

/// `t` confined to `[min, max]`.
pub fn clamp(t: i128, min: i128, max: i128) -> (r: i128)
    ensures
        r == clamp_spec(t as int, min as int, max as int),
{
    let inner: i128 = if max <= t { max } else { t };
    if min >= inner { min } else { inner }
}

/// Every jittered sample stays in its own stratum: sample `i` of `n` over
/// `[a, b]` lies within the interval and within half a stratum of position
/// `i`, whatever the jitter.
pub proof fn lemma_jittered_step_in_stratum(a: int, b: int, n: int, i: int, j: int)
    requires
        a <= b,
        0 <= i < n,
        is_jitter(j),
    ensures
        in_stratum(jittered_step(a, b, n, i, j), a, b, n, i),
{
    let d = b - a;
    let num = step_numerator(i, j);
    let den = n * UNIT;
    let q = (d * num) / den;
    let v = jittered_step(a, b, n, i, j);
    assert(den > 0) by (nonlinear_arith)
        requires
            den == n * 65536,
            n > 0,
    ;
    vstd::arithmetic::div_mod::lemma_fundamental_div_mod(d * num, den);
    vstd::arithmetic::div_mod::lemma_mod_bound(d * num, den);
    let r = (d * num) % den;
    assert(d * num == den * q + r);
    if a + q <= a {
        assert(v == a);
        assert(2 * n * (v - a) <= d * (2 * i + 1)) by (nonlinear_arith)
            requires
                v == a,
                d >= 0,
                i >= 0,
        ;
    } else {
        assert(v - a <= q);
        assert(2 * n * (v - a) <= d * (2 * i + 1)) by (nonlinear_arith)
            requires
                0 <= v - a <= q,
                d * num == den * q + r,
                0 <= r,
                den == n * 65536,
                num == i * 65536 + j,
                j < 32768,
                d >= 0,
                n > 0,
        ;
    }
    if a + q > b {
        assert(v == b);
        assert(d * (2 * i - 1) < 2 * n * (v - a + 1)) by (nonlinear_arith)
            requires
                v - a == d,
                d >= 0,
                0 <= i < n,
        ;
    } else {
        assert(v - a >= q);
        assert(d * (2 * i - 1) < 2 * n * (v - a + 1)) by (nonlinear_arith)
            requires
                v - a >= q,
                d * num == den * q + r,
                r < den,
                den == n * 65536,
                num == i * 65536 + j,
                j >= -32768,
                d >= 0,
                n > 0,
        ;
    }
}

/// A point at a parameter between 0 and 1 lies between the two end points,
/// coordinate by coordinate.
pub proof fn lemma_point_between_inside(a: Point, b: Point, t: int)
    requires
        0 <= t <= UNIT,
    ensures
        ({
            let p = point_between(a, b, t);
            &&& min_spec(a.x as int, b.x as int) <= p.x <= max_spec(a.x as int, b.x as int)
            &&& min_spec(a.y as int, b.y as int) <= p.y <= max_spec(a.y as int, b.y as int)
            &&& p.x == a.x + ((b.x - a.x) * t) / (UNIT as int)
            &&& p.y == a.y + ((b.y - a.y) * t) / (UNIT as int)
        }),
{
    lemma_scaled_between(b.x - a.x, t);
    lemma_scaled_between(b.y - a.y, t);
}

/// `d * t / UNIT` lies between 0 and `d` for a parameter between 0 and 1.
proof fn lemma_scaled_between(d: int, t: int)
    requires
        0 <= t <= UNIT,
    ensures
        d >= 0 ==> 0 <= (d * t) / (UNIT as int) <= d,
        d <= 0 ==> d <= (d * t) / (UNIT as int) <= 0,
{
    let q = (d * t) / 65536;
    let r = (d * t) % 65536;
    vstd::arithmetic::div_mod::lemma_fundamental_div_mod(d * t, 65536);
    vstd::arithmetic::div_mod::lemma_mod_bound(d * t, 65536);
    assert(d * t == 65536 * q + r);
    if d >= 0 {
        assert(0 <= q <= d) by (nonlinear_arith)
            requires
                d * t == 65536 * q + r,
                0 <= r < 65536,
                0 <= t <= 65536,
                d >= 0,
        ;
    }
    if d <= 0 {
        assert(d <= q <= 0) by (nonlinear_arith)
            requires
                d * t == 65536 * q + r,
                0 <= r < 65536,
                0 <= t <= 65536,
                d <= 0,
        ;
    }
}

/// Sample `i` of `n_steps` over `[a, b]` for a given jitter `j`.
pub fn jittered(a: i32, b: i32, n_steps: usize, i: usize, j: i32) -> (v: i32)
    requires
        n_steps > 0,
    ensures
        v == jittered_step(a as int, b as int, n_steps as int, i as int, j as int),
{
    let span: i128 = b as i128 - a as i128;
    let num: i128 = (i as i128) * 65536 + (j as i128);
    let den: i128 = (n_steps as i128) * 65536;
    assert(-0x2_0000_0000_0000_0000_0000_0000_0000 < span * num
        < 0x2_0000_0000_0000_0000_0000_0000_0000) by (nonlinear_arith)
        requires
            -0x1_0000_0000 < span < 0x1_0000_0000,
            -0x1_0000_0000 < num < 0x2_0000_0000_0000_0000_0000,
    ;
    let raw: i128 = a as i128 + floor_div(span * num, den);
    clamp(raw, a as i128, b as i128) as i32
}

/// The point at parameter `t / UNIT` on the way from `a` to `b`.
pub fn lerp_point(a: &Point, b: &Point, t: i32) -> (p: Point)
    ensures
        p == point_between(*a, *b, t as int),
{
    let dx: i128 = b.x as i128 - a.x as i128;
    let dy: i128 = b.y as i128 - a.y as i128;
    assert(-0x1_0000_0000_0000_0000 < dx * t < 0x1_0000_0000_0000_0000) by (nonlinear_arith)
        requires
            -0x1_0000_0000 < dx < 0x1_0000_0000,
            -0x1_0000_0000 < t < 0x1_0000_0000,
    ;
    assert(-0x1_0000_0000_0000_0000 < dy * t < 0x1_0000_0000_0000_0000) by (nonlinear_arith)
        requires
            -0x1_0000_0000 < dy < 0x1_0000_0000,
            -0x1_0000_0000 < t < 0x1_0000_0000,
    ;
    Point {
        x: saturate(a.x as i128 + floor_div(dx * (t as i128), 65536)),
        y: saturate(a.y as i128 + floor_div(dy * (t as i128), 65536)),
    }
}

/// Produces `n_steps` values over `[a, b]`, one in each of `n_steps` strata
/// of equal width: value `i` is interpolated at `i / n_steps` plus a jitter
/// drawn from `rng`, of less than half a stratum either way, and confined to
/// the interval.
pub fn rlerp(rng: &mut rand::ThreadRng, a: i32, b: i32, n_steps: usize) -> (out: Vec<i32>)
    ensures
        out.len() == n_steps,
        forall|i: int|
            0 <= i < n_steps ==> is_jittered_step(
                #[trigger] out[i] as int,
                a as int,
                b as int,
                n_steps as int,
                i,
            ),
        a <= b ==> forall|i: int|
            0 <= i < n_steps ==> in_stratum(
                #[trigger] out[i] as int,
                a as int,
                b as int,
                n_steps as int,
                i,
            ),
{
    let mut out: Vec<i32> = Vec::new();
    let mut i: usize = 0;
    while i < n_steps
        invariant
            i <= n_steps,
            out.len() == i,
            forall|k: int|
                0 <= k < i ==> is_jittered_step(
                    #[trigger] out[k] as int,
                    a as int,
                    b as int,
                    n_steps as int,
                    k,
                ),
            a <= b ==> forall|k: int|
                0 <= k < i ==> in_stratum(
                    #[trigger] out[k] as int,
                    a as int,
                    b as int,
                    n_steps as int,
                    k,
                ),
        decreases n_steps - i,
    {
        let j = draw_range(rng, -32768, 32768);
        let v = jittered(a, b, n_steps, i, j);
        proof {
            assert(is_jitter(j as int));
            assert(v == jittered_step(a as int, b as int, n_steps as int, i as int, j as int));
            assert(is_jittered_step(v as int, a as int, b as int, n_steps as int, i as int));
            if a <= b {
                lemma_jittered_step_in_stratum(a as int, b as int, n_steps as int, i as int, j as int);
            }
        }
        out.push(v);
        i += 1;
    }
    out
}

/// Produces `n_steps` points on the segment from `a` to `b`, one in each of
/// `n_steps` strata of equal length, by jittered interpolation.
pub fn rlerp_point(rng: &mut rand::ThreadRng, a: &Point, b: &Point, n_steps: usize) -> (out: Vec<
    Point,
>)
    ensures
        out.len() == n_steps,
        forall|i: int|
            0 <= i < n_steps ==> is_segment_sample(#[trigger] out[i], *a, *b, n_steps as int, i),
        forall|i: int|
            0 <= i < n_steps ==> {
                &&& min_spec(a.x as int, b.x as int) <= (#[trigger] out[i]).x <= max_spec(
                    a.x as int,
                    b.x as int,
                )
                &&& min_spec(a.y as int, b.y as int) <= out[i].y <= max_spec(
                    a.y as int,
                    b.y as int,
                )
            },
{
    let steps = rlerp(rng, 0, UNIT, n_steps);
    let mut out: Vec<Point> = Vec::new();
    let mut i: usize = 0;
    while i < n_steps
        invariant
            i <= n_steps,
            out.len() == i,
            steps.len() == n_steps,
            forall|k: int|
                0 <= k < n_steps ==> in_stratum(
                    #[trigger] steps[k] as int,
                    0,
                    UNIT as int,
                    n_steps as int,
                    k,
                ),
            forall|k: int|
                0 <= k < i ==> is_segment_sample(#[trigger] out[k], *a, *b, n_steps as int, k),
            forall|k: int|
                0 <= k < i ==> {
                    &&& min_spec(a.x as int, b.x as int) <= (#[trigger] out[k]).x <= max_spec(
                        a.x as int,
                        b.x as int,
                    )
                    &&& min_spec(a.y as int, b.y as int) <= out[k].y <= max_spec(
                        a.y as int,
                        b.y as int,
                    )
                },
        decreases n_steps - i,
    {
        let t = steps[i];
        let p = lerp_point(a, b, t);
        proof {
            assert(in_stratum(steps[i as int] as int, 0, UNIT as int, n_steps as int, i as int));
            lemma_point_between_inside(*a, *b, t as int);
            assert(p == point_between(*a, *b, t as int));
            assert(is_segment_sample(p, *a, *b, n_steps as int, i as int));
        }
        out.push(p);
        i += 1;
    }
    out
}

} // verus!
