//! The two basic shapes: a line segment and a circle.

use vstd::prelude::*;
use crate::arith::{floor_div, saturate, saturate_spec, UNIT};
use crate::math::{clamp, clamp_spec, in_stratum, is_segment_sample, rlerp, rlerp_point};
use crate::shape::{max_spec, min_spec, Bounds, Point, Shape};

verus! {

/// The segment from `p1` to `p2`.
pub struct Line {
    pub p1: Point,
    pub p2: Point,
}

impl Line {
    /// The segment from `p1` to `p2`.
    pub fn new(p1: Point, p2: Point) -> (line: Line)
        ensures
            line.p1 == p1,
            line.p2 == p2,
    {
        Line { p1, p2 }
    }
}

impl Shape for Line {
    /// The box spanned by the two end points, whichever way round they are.
    open spec fn bounds_spec(&self) -> Bounds {
        Bounds {
            up_left: Point {
                x: min_spec(self.p1.x as int, self.p2.x as int) as i32,
                y: max_spec(self.p1.y as int, self.p2.y as int) as i32,
            },
            down_right: Point {
                x: max_spec(self.p1.x as int, self.p2.x as int) as i32,
                y: min_spec(self.p1.y as int, self.p2.y as int) as i32,
            },
        }
    }

    open spec fn count_spec(&self, n_points: usize) -> nat {
        n_points as nat
    }

    /// Samples `n_points` points of the segment, one in each of `n_points`
    /// stretches of equal length, counted from `p1`.
    fn as_points<F: Fn(i32) -> Point>(
        &self,
        n_points: usize,
        rng: &mut rand::ThreadRng,
        trig: &F,
    ) -> (pts: Vec<Point>)
        ensures
            forall|i: int|
                0 <= i < n_points ==> is_segment_sample(
                    #[trigger] pts[i],
                    self.p1,
                    self.p2,
                    n_points as int,
                    i,
                ),
    {
        rlerp_point(rng, &self.p1, &self.p2, n_points)
    }

    fn find_bounds(&self) -> (b: Bounds)
        ensures
            b.wf(),
    {
        Bounds {
            up_left: Point {
                x: if self.p1.x <= self.p2.x { self.p1.x } else { self.p2.x },
                y: if self.p1.y >= self.p2.y { self.p1.y } else { self.p2.y },
            },
            down_right: Point {
                x: if self.p1.x >= self.p2.x { self.p1.x } else { self.p2.x },
                y: if self.p1.y <= self.p2.y { self.p1.y } else { self.p2.y },
            },
        }
    }
}

/// The circle around `center` with the given radius, in fixed-point parts.
pub struct Circle {
    pub center: Point,
    pub radius: u32,
}

/// `radius` times the component `c` of a unit vector, rounded down. A
/// component outside `[-UNIT, UNIT]` counts as the nearer of the two.
pub open spec fn reach_spec(radius: int, c: int) -> int {
    (radius * clamp_spec(c, -(UNIT as int), UNIT as int)) / (UNIT as int)
}

/// The point of the circle in direction `dir`, a point of the unit circle.
pub open spec fn on_circle(circle: Circle, dir: Point) -> Point {
    Point {
        x: saturate_spec(circle.center.x + reach_spec(circle.radius as int, dir.x as int)) as i32,
        y: saturate_spec(circle.center.y + reach_spec(circle.radius as int, dir.y as int)) as i32,
    }
}

/// `p` is the point of `circle` in a direction that `trig` gives for some
/// angle of stratum `i` of `n` of the full turn.
pub open spec fn is_circle_sample<F: Fn(i32) -> Point>(
    p: Point,
    circle: Circle,
    trig: &F,
    n: int,
    i: int,
) -> bool {
    exists|angle: i32, dir: Point|
        in_stratum(angle as int, 0, UNIT as int, n, i) && 0 <= angle < UNIT && #[trigger] call_ensures(
            trig,
            (angle,),
            dir,
        ) && p == on_circle(circle, dir)
}

/// The reach along one axis never exceeds the radius.
pub proof fn lemma_reach_within_radius(radius: int, c: int)
    requires
        radius >= 0,
    ensures
        -radius <= reach_spec(radius, c) <= radius,
{
    let t = clamp_spec(c, -(UNIT as int), UNIT as int);
    let q = (radius * t) / 65536;
    let r = (radius * t) % 65536;
    vstd::arithmetic::div_mod::lemma_fundamental_div_mod(radius * t, 65536);
    vstd::arithmetic::div_mod::lemma_mod_bound(radius * t, 65536);
    assert(-radius <= q <= radius) by (nonlinear_arith)
        requires
            radius * t == 65536 * q + r,
            0 <= r < 65536,
            -65536 <= t <= 65536,
            radius >= 0,
    ;
}

/// An angle that lies in a stratum of the full turn is less than a full turn.
pub proof fn lemma_angle_below_turn(angle: int, n: int, i: int)
    requires
        0 <= i < n,
        in_stratum(angle, 0, UNIT as int, n, i),
    ensures
        0 <= angle < UNIT,
{
    assert(angle < 65536) by (nonlinear_arith)
        requires
            2 * n * (angle - 0) <= (65536 - 0) * (2 * i + 1),
            0 <= i < n,
    ;
}

impl Circle {
    /// The circle around `center` with radius `r`.
    pub fn new(center: Point, r: u32) -> (circle: Circle)
        ensures
            circle.center == center,
            circle.radius == r,
    {
        Circle { center, radius: r }
    }

    /// How far the circle reaches along an axis on which its direction has
    /// the component `c`.
    fn reach(&self, c: i32) -> (d: i128)
        ensures
            d == reach_spec(self.radius as int, c as int),
            -(self.radius as int) <= d <= self.radius,
    {
        let t: i128 = clamp(c as i128, -65536, 65536);
        proof {
            lemma_reach_within_radius(self.radius as int, c as int);
            assert(-0x1_0000_0000_0000 < self.radius * t < 0x1_0000_0000_0000) by (nonlinear_arith)
                requires
                    0 <= self.radius < 0x1_0000_0000,
                    -65536 <= t <= 65536,
            ;
        }
        floor_div((self.radius as i128) * t, 65536)
    }

    /// The point of the circle in direction `dir`, where `dir` is the point
    /// `(cos, sin)` of the unit circle in fixed point.
    pub fn point_at(&self, dir: Point) -> (p: Point)
        ensures
            p == on_circle(*self, dir),
            self.bounds_spec().contains(p),
    {
        let dx = self.reach(dir.x);
        let dy = self.reach(dir.y);
        Point {
            x: saturate(self.center.x as i128 + dx),
            y: saturate(self.center.y as i128 + dy),
        }
    }
}

impl Shape for Circle {
    /// `center` plus and minus `radius` along both axes, each corner held
    /// within the coordinate range.
    open spec fn bounds_spec(&self) -> Bounds {
        Bounds {
            up_left: Point {
                x: saturate_spec(self.center.x - self.radius) as i32,
                y: saturate_spec(self.center.y + self.radius) as i32,
            },
            down_right: Point {
                x: saturate_spec(self.center.x + self.radius) as i32,
                y: saturate_spec(self.center.y - self.radius) as i32,
            },
        }
    }

    open spec fn count_spec(&self, n_points: usize) -> nat {
        n_points as nat
    }

    /// Samples `n_points` points of the circle, one in each of `n_points`
    /// arcs of equal angle: the angles are jittered steps over the full turn,
    /// and `trig` turns each into a direction.
    fn as_points<F: Fn(i32) -> Point>(
        &self,
        n_points: usize,
        rng: &mut rand::ThreadRng,
        trig: &F,
    ) -> (pts: Vec<Point>)
        ensures
            forall|i: int|
                0 <= i < n_points ==> is_circle_sample(
                    #[trigger] pts[i],
                    *self,
                    trig,
                    n_points as int,
                    i,
                ),
    {
        let angles = rlerp(rng, 0, UNIT, n_points);
        let mut pts: Vec<Point> = Vec::new();
        let mut i: usize = 0;
        while i < n_points
            invariant
                i <= n_points,
                pts.len() == i,
                angles.len() == n_points,
                forall|t: i32| 0 <= t < UNIT ==> call_requires(trig, (t,)),
                forall|k: int|
                    0 <= k < n_points ==> in_stratum(
                        #[trigger] angles[k] as int,
                        0,
                        UNIT as int,
                        n_points as int,
                        k,
                    ),
                forall|k: int| 0 <= k < i ==> self.bounds_spec().contains(#[trigger] pts[k]),
                forall|k: int|
                    0 <= k < i ==> is_circle_sample(
                        #[trigger] pts[k],
                        *self,
                        trig,
                        n_points as int,
                        k,
                    ),
            decreases n_points - i,
        {
            let angle = angles[i];
            proof {
                lemma_angle_below_turn(angle as int, n_points as int, i as int);
            }
            let dir = trig(angle);
            let p = self.point_at(dir);
            proof {
                assert(p == on_circle(*self, dir));
                assert(call_ensures(trig, (angle,), dir));
                assert(is_circle_sample(p, *self, trig, n_points as int, i as int));
            }
            pts.push(p);
            i += 1;
        }
        pts
    }

    fn find_bounds(&self) -> (b: Bounds)
        ensures
            b.wf(),
    {
        let r: i128 = self.radius as i128;
        Bounds {
            up_left: Point {
                x: saturate(self.center.x as i128 - r),
                y: saturate(self.center.y as i128 + r),
            },
            down_right: Point {
                x: saturate(self.center.x as i128 + r),
                y: saturate(self.center.y as i128 - r),
            },
        }
    }
}

} // verus!
