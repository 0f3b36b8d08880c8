//! A chord figure: the envelope of chords of a circle that join each point
//! of the circle with the point at a fixed multiple of its angle.

use vstd::prelude::*;
use vstd::arithmetic::div_mod::{lemma_fundamental_div_mod, lemma_mod_bound};
use crate::arith::{floor_div, UNIT};
use crate::math::{in_stratum, is_segment_sample, rlerp, rlerp_point};
use crate::primitives::{lemma_angle_below_turn, on_circle, Circle};
use crate::shape::{Bounds, Point, Shape};

verus! {

/// Number of chords that make up the figure.
pub const CHORDS: usize = 10_000;

/// The chords of `circle` from each angle to `order` times that angle.
pub struct Cardioid {
    pub circle: Circle,
    pub order: usize,
}

/// `order` times `angle`, reduced to less than a full turn.
pub open spec fn turned_spec(angle: int, order: int) -> int {
    (angle * order) % (UNIT as int)
}

/// `p` is a point of stratum `m` of `per` of chord `k`: the chord that starts
/// on `circle` at some angle of stratum `k` of the full turn and ends at
/// `order` times that angle, the directions taken from `trig`.
pub open spec fn is_chord_sample<F: Fn(i32) -> Point>(
    p: Point,
    figure: Cardioid,
    trig: &F,
    k: int,
    per: int,
    m: int,
) -> bool {
    exists|angle: i32, near: Point, far: Point|
        {
            &&& 0 <= angle < UNIT
            &&& in_stratum(angle as int, 0, UNIT as int, CHORDS as int, k)
            &&& #[trigger] call_ensures(trig, (angle,), near)
            &&& #[trigger] call_ensures(
                trig,
                (turned_spec(angle as int, figure.order as int) as i32,),
                far,
            )
            &&& is_segment_sample(
                p,
                on_circle(figure.circle, near),
                on_circle(figure.circle, far),
                per,
                m,
            )
        }
}

impl Cardioid {
    /// The chord figure of the given order on the circle around `center`.
    pub fn new(center: Point, radius: u32, order: usize) -> (figure: Cardioid)
        ensures
            figure.circle.center == center,
            figure.circle.radius == radius,
            figure.order == order,
    {
        Cardioid { circle: Circle { center, radius }, order }
    }

    /// The angle at which the chord that starts at `angle` ends.
    pub fn turned(&self, angle: i32) -> (far: i32)
        ensures
            far == turned_spec(angle as int, self.order as int),
            0 <= far < UNIT,
    {
        assert(-0x1_0000_0000_0000_0000_0000_0000 < angle * self.order
            < 0x1_0000_0000_0000_0000_0000_0000) by (nonlinear_arith)
            requires
                -0x1_0000_0000 < angle < 0x1_0000_0000,
                0 <= self.order < 0x1_0000_0000_0000_0000,
        ;
        let product: i128 = (angle as i128) * (self.order as i128);
        let turns: i128 = floor_div(product, 65536);
        proof {
            lemma_fundamental_div_mod(product as int, 65536);
            lemma_mod_bound(product as int, 65536);
        }
        (product - turns * 65536) as i32
    }
}

impl Shape for Cardioid {
    /// The box of the underlying circle, which holds every chord.
    open spec fn bounds_spec(&self) -> Bounds {
        self.circle.bounds_spec()
    }

    /// The request is split evenly over the chords; what does not divide is
    /// left out.
    open spec fn count_spec(&self, n_points: usize) -> nat {
        (CHORDS * (n_points as int / CHORDS as int)) as nat
    }

    /// Samples the figure: `CHORDS` jittered angles give the chords, and each
    /// chord is sampled as a line with an equal share of `n_points`.
    fn as_points<F: Fn(i32) -> Point>(
        &self,
        n_points: usize,
        rng: &mut rand::ThreadRng,
        trig: &F,
    ) -> (pts: Vec<Point>)
        ensures
            forall|k: int, m: int|
                0 <= k < CHORDS && 0 <= m < n_points as int / CHORDS as int ==> is_chord_sample(
                    #[trigger] pts[k * (n_points as int / CHORDS as int) + m],
                    *self,
                    trig,
                    k,
                    n_points as int / CHORDS as int,
                    m,
                ),
    {
        let per: usize = n_points / CHORDS;
        let angles = rlerp(rng, 0, UNIT, CHORDS);
        let mut pts: Vec<Point> = Vec::new();
        let mut k: usize = 0;
        while k < CHORDS
            invariant
                k <= CHORDS,
                per == n_points as int / CHORDS as int,
                pts.len() == k * per,
                angles.len() == CHORDS,
                forall|t: i32| 0 <= t < UNIT ==> call_requires(trig, (t,)),
                forall|c: int|
                    0 <= c < CHORDS ==> in_stratum(
                        #[trigger] angles[c] as int,
                        0,
                        UNIT as int,
                        CHORDS as int,
                        c,
                    ),
                forall|i: int| 0 <= i < pts.len() ==> self.bounds_spec().contains(#[trigger] pts[i]),
                forall|c: int, m: int|
                    0 <= c < k && 0 <= m < per ==> is_chord_sample(
                        #[trigger] pts[c * per + m],
                        *self,
                        trig,
                        c,
                        per as int,
                        m,
                    ),
            decreases CHORDS - k,
        {
            let angle = angles[k];
            proof {
                lemma_angle_below_turn(angle as int, CHORDS as int, k as int);
            }
            let near = trig(angle);
            let start = self.circle.point_at(near);
            let far_angle = self.turned(angle);
            let far = trig(far_angle);
            let end = self.circle.point_at(far);
            let mut chord = rlerp_point(rng, &start, &end, per);
            let ghost before = pts@;
            let ghost piece = chord@;
            pts.append(&mut chord);
            proof {
                assert(pts@ == before + piece);
                assert((k + 1) * per == k * per + per) by (nonlinear_arith);
                assert forall|i: int| 0 <= i < pts.len() implies self.bounds_spec().contains(
                    #[trigger] pts[i],
                ) by {
                    if i >= before.len() {
                        assert(pts[i] == piece[i - before.len()]);
                    } else {
                        assert(pts[i] == before[i]);
                    }
                }
                assert forall|c: int, m: int| 0 <= c < k + 1 && 0 <= m < per implies is_chord_sample(
                    #[trigger] pts[c * per + m],
                    *self,
                    trig,
                    c,
                    per as int,
                    m,
                ) by {
                    if c < k {
                        assert(c * per + m < k * per) by (nonlinear_arith)
                            requires
                                0 <= c < k,
                                0 <= m < per,
                        ;
                        assert(c * per + m >= 0) by (nonlinear_arith)
                            requires
                                0 <= c,
                                0 <= m < per,
                        ;
                        assert(pts[c * per + m] == before[c * per + m]);
                    } else {
                        assert(pts[k * per + m] == piece[m]);
                        assert(call_ensures(trig, (angle,), near));
                        assert(call_ensures(trig, (far_angle,), far));
                        assert(far_angle == turned_spec(angle as int, self.order as int) as i32);
                        assert(is_chord_sample(piece[m], *self, trig, k as int, per as int, m));
                    }
                }
            }
            k += 1;
        }
        pts
    }

    fn find_bounds(&self) -> (b: Bounds)
        ensures
            b.wf(),
    {
        self.circle.find_bounds()
    }
}

} // verus!
