//! Points, axis-aligned bounding boxes, and the capability every shape offers.

use vstd::prelude::*;
use crate::arith::floor_div;
pub use crate::primitives::Circle;

verus! {

/// A location in world space. Both coordinates are fixed-point numbers with
/// [`crate::arith::UNIT`] parts to one world unit; `y` grows upward.
#[derive(Clone, Copy, Debug, PartialEq, Eq, Structural)]
pub struct Point {
    pub x: i32,
    pub y: i32,
}

/// An axis-aligned box in world space, given by its upper left and lower
/// right corners.
#[derive(Clone, Copy, Debug, PartialEq, Eq, Structural)]
pub struct Bounds {
    pub up_left: Point,
    pub down_right: Point,
}

/// The smaller of two integers.
pub open spec fn min_spec(a: int, b: int) -> int {
    if a <= b {
        a
    } else {
        b
    }
}

/// The larger of two integers.
pub open spec fn max_spec(a: int, b: int) -> int {
    if a >= b {
        a
    } else {
        b
    }
}

/// The smallest box that covers both `a` and `b`.
pub open spec fn join(a: Bounds, b: Bounds) -> Bounds {
    Bounds {
        up_left: Point {
            x: min_spec(a.up_left.x as int, b.up_left.x as int) as i32,
            y: max_spec(a.up_left.y as int, b.up_left.y as int) as i32,
        },
        down_right: Point {
            x: max_spec(a.down_right.x as int, b.down_right.x as int) as i32,
            y: min_spec(a.down_right.y as int, b.down_right.y as int) as i32,
        },
    }
}

/// `seed` joined with every box of `boxes`, front to back.
pub open spec fn join_all(seed: Bounds, boxes: Seq<Bounds>) -> Bounds
    decreases boxes.len(),
{
    if boxes.len() == 0 {
        seed
    } else {
        join(join_all(seed, boxes.drop_last()), boxes.last())
    }
}

/// The box that holds the world origin and nothing else.
pub open spec fn origin_box() -> Bounds {
    Bounds { up_left: Point { x: 0, y: 0 }, down_right: Point { x: 0, y: 0 } }
}

impl Bounds {
    /// The corners are in order: left of (or at) right, above (or at) below.
    pub open spec fn wf(&self) -> bool {
        self.up_left.x <= self.down_right.x && self.up_left.y >= self.down_right.y
    }

    /// `p` lies in the box, edges included.
    pub open spec fn contains(&self, p: Point) -> bool {
        self.up_left.x <= p.x <= self.down_right.x && self.down_right.y <= p.y <= self.up_left.y
    }

    /// No edge of `inner` lies outside the box.
    pub open spec fn covers(&self, inner: Bounds) -> bool {
        &&& self.up_left.x <= inner.up_left.x
        &&& self.up_left.y >= inner.up_left.y
        &&& self.down_right.x >= inner.down_right.x
        &&& self.down_right.y <= inner.down_right.y
    }

    /// Horizontal extent, `down_right.x - up_left.x`.
    pub open spec fn width_spec(&self) -> int {
        self.down_right.x - self.up_left.x
    }

    /// Vertical extent, `up_left.y - down_right.y`.
    pub open spec fn height_spec(&self) -> int {
        self.up_left.y - self.down_right.y
    }

    /// The midpoint of the two corners, each coordinate rounded down to a
    /// whole fixed-point part.
    pub fn center(&self) -> (c: Point)
        ensures
            c.x == (self.up_left.x + self.down_right.x) / 2,
            c.y == (self.up_left.y + self.down_right.y) / 2,
    {
        let sx: i128 = self.up_left.x as i128 + self.down_right.x as i128;
        let sy: i128 = self.up_left.y as i128 + self.down_right.y as i128;
        Point { x: floor_div(sx, 2) as i32, y: floor_div(sy, 2) as i32 }
    }

    /// Vertical extent of the box; never negative for corners in order.
    pub fn height(&self) -> (h: i64)
        ensures
            h == self.height_spec(),
            self.wf() ==> h >= 0,
    {
        self.up_left.y as i64 - self.down_right.y as i64
    }

    /// Horizontal extent of the box; never negative for corners in order.
    pub fn width(&self) -> (w: i64)
        ensures
            w == self.width_spec(),
            self.wf() ==> w >= 0,
    {
        self.down_right.x as i64 - self.up_left.x as i64
    }

    /// Grows the box until it covers `other` as well.
    pub fn merge(&mut self, other: Bounds)
        ensures
            *final(self) == join(*old(self), other),
            old(self).wf() ==> final(self).wf(),
            final(self).covers(*old(self)),
            final(self).covers(other),
    {
        if other.up_left.x < self.up_left.x {
            self.up_left.x = other.up_left.x;
        }
        if other.up_left.y > self.up_left.y {
            self.up_left.y = other.up_left.y;
        }
        if other.down_right.x > self.down_right.x {
            self.down_right.x = other.down_right.x;
        }
        if other.down_right.y < self.down_right.y {
            self.down_right.y = other.down_right.y;
        }
    }
}

/// Joining two boxes does not depend on which comes first.
pub proof fn lemma_join_commutative(a: Bounds, b: Bounds)
    ensures
        join(a, b) == join(b, a),
{
}

/// Joining three boxes does not depend on how they are grouped.
pub proof fn lemma_join_associative(a: Bounds, b: Bounds, c: Bounds)
    ensures
        join(join(a, b), c) == join(a, join(b, c)),
{
}

/// Each edge of a joined collection is the extreme of that edge over the seed
/// and the boxes: no box reaches past it, and one of them attains it.
proof fn lemma_join_all_extremes(seed: Bounds, boxes: Seq<Bounds>)
    ensures
        ({
            let r = join_all(seed, boxes);
            &&& r.up_left.x <= seed.up_left.x
            &&& r.up_left.y >= seed.up_left.y
            &&& r.down_right.x >= seed.down_right.x
            &&& r.down_right.y <= seed.down_right.y
            &&& forall|i: int|
                0 <= i < boxes.len() ==> {
                    &&& r.up_left.x <= (#[trigger] boxes[i]).up_left.x
                    &&& r.up_left.y >= boxes[i].up_left.y
                    &&& r.down_right.x >= boxes[i].down_right.x
                    &&& r.down_right.y <= boxes[i].down_right.y
                }
            &&& (r.up_left.x == seed.up_left.x || exists|i: int|
                0 <= i < boxes.len() && r.up_left.x == (#[trigger] boxes[i]).up_left.x)
            &&& (r.up_left.y == seed.up_left.y || exists|i: int|
                0 <= i < boxes.len() && r.up_left.y == (#[trigger] boxes[i]).up_left.y)
            &&& (r.down_right.x == seed.down_right.x || exists|i: int|
                0 <= i < boxes.len() && r.down_right.x == (#[trigger] boxes[i]).down_right.x)
            &&& (r.down_right.y == seed.down_right.y || exists|i: int|
                0 <= i < boxes.len() && r.down_right.y == (#[trigger] boxes[i]).down_right.y)
        }),
    decreases boxes.len(),
{
    if boxes.len() > 0 {
        let front = boxes.drop_last();
        let last = boxes.len() - 1;
        lemma_join_all_extremes(seed, front);
        let inner = join_all(seed, front);
        let r = join_all(seed, boxes);
        assert(forall|i: int| 0 <= i < front.len() ==> front[i] == boxes[i]);
        assert(boxes[last] == boxes.last());
        if r.up_left.x != seed.up_left.x {
            if r.up_left.x == inner.up_left.x {
                let i = choose|i: int| 0 <= i < front.len() && inner.up_left.x == (#[trigger] front[i]).up_left.x;
                assert(r.up_left.x == boxes[i].up_left.x);
            } else {
                assert(r.up_left.x == boxes[last].up_left.x);
            }
        }
        if r.up_left.y != seed.up_left.y {
            if r.up_left.y == inner.up_left.y {
                let i = choose|i: int| 0 <= i < front.len() && inner.up_left.y == (#[trigger] front[i]).up_left.y;
                assert(r.up_left.y == boxes[i].up_left.y);
            } else {
                assert(r.up_left.y == boxes[last].up_left.y);
            }
        }
        if r.down_right.x != seed.down_right.x {
            if r.down_right.x == inner.down_right.x {
                let i = choose|i: int| 0 <= i < front.len() && inner.down_right.x == (#[trigger] front[i]).down_right.x;
                assert(r.down_right.x == boxes[i].down_right.x);
            } else {
                assert(r.down_right.x == boxes[last].down_right.x);
            }
        }
        if r.down_right.y != seed.down_right.y {
            if r.down_right.y == inner.down_right.y {
                let i = choose|i: int| 0 <= i < front.len() && inner.down_right.y == (#[trigger] front[i]).down_right.y;
                assert(r.down_right.y == boxes[i].down_right.y);
            } else {
                assert(r.down_right.y == boxes[last].down_right.y);
            }
        }
    }
}

/// Every box of `a` also occurs in `b` when the two hold the same boxes.
proof fn lemma_same_boxes(a: Seq<Bounds>, b: Seq<Bounds>)
    requires
        a.to_multiset() == b.to_multiset(),
    ensures
        forall|i: int| 0 <= i < a.len() ==> b.contains(#[trigger] a[i]),
{
    a.to_multiset_ensures();
    b.to_multiset_ensures();
    assert forall|i: int| 0 <= i < a.len() implies b.contains(#[trigger] a[i]) by {
        assert(a.contains(a[i]));
        assert(a.to_multiset().count(a[i]) > 0);
        assert(b.to_multiset().count(a[i]) > 0);
    }
}

/// No edge of the join of `a` reaches past the same edge of the join of `b`
/// when every box of `a` occurs in `b`.
proof fn lemma_join_all_covered(seed: Bounds, a: Seq<Bounds>, b: Seq<Bounds>)
    requires
        forall|i: int| 0 <= i < a.len() ==> b.contains(#[trigger] a[i]),
    ensures
        join_all(seed, b).up_left.x <= join_all(seed, a).up_left.x,
        join_all(seed, b).up_left.y >= join_all(seed, a).up_left.y,
        join_all(seed, b).down_right.x >= join_all(seed, a).down_right.x,
        join_all(seed, b).down_right.y <= join_all(seed, a).down_right.y,
{
    lemma_join_all_extremes(seed, a);
    lemma_join_all_extremes(seed, b);
    let ra = join_all(seed, a);
    assert forall|i: int| 0 <= i < a.len() implies exists|j: int|
        0 <= j < b.len() && b[j] == #[trigger] a[i] by {
        assert(b.contains(a[i]));
    }
    if ra.up_left.x != seed.up_left.x {
        let i = choose|i: int| 0 <= i < a.len() && ra.up_left.x == (#[trigger] a[i]).up_left.x;
        let j = choose|j: int| 0 <= j < b.len() && b[j] == a[i];
        assert(b[j].up_left.x == ra.up_left.x);
    }
    if ra.up_left.y != seed.up_left.y {
        let i = choose|i: int| 0 <= i < a.len() && ra.up_left.y == (#[trigger] a[i]).up_left.y;
        let j = choose|j: int| 0 <= j < b.len() && b[j] == a[i];
        assert(b[j].up_left.y == ra.up_left.y);
    }
    if ra.down_right.x != seed.down_right.x {
        let i = choose|i: int| 0 <= i < a.len() && ra.down_right.x == (#[trigger] a[i]).down_right.x;
        let j = choose|j: int| 0 <= j < b.len() && b[j] == a[i];
        assert(b[j].down_right.x == ra.down_right.x);
    }
    if ra.down_right.y != seed.down_right.y {
        let i = choose|i: int| 0 <= i < a.len() && ra.down_right.y == (#[trigger] a[i]).down_right.y;
        let j = choose|j: int| 0 <= j < b.len() && b[j] == a[i];
        assert(b[j].down_right.y == ra.down_right.y);
    }
}

/// Merging a collection of boxes gives the same box in whatever order the
/// boxes are taken: two sequences that hold the same boxes, each as often as
/// the other, join to the same result from the same seed.
pub proof fn lemma_join_all_any_order(seed: Bounds, a: Seq<Bounds>, b: Seq<Bounds>)
    requires
        a.to_multiset() == b.to_multiset(),
    ensures
        join_all(seed, a) == join_all(seed, b),
{
    lemma_same_boxes(a, b);
    lemma_same_boxes(b, a);
    lemma_join_all_covered(seed, a, b);
    lemma_join_all_covered(seed, b, a);
}

/// Something that can be drawn: it yields points along its outline and knows
/// the box that holds them.
pub trait Shape {
    /// The bounding box of the shape.
    spec fn bounds_spec(&self) -> Bounds;

    /// How many points a request for `n_points` yields.
    spec fn count_spec(&self, n_points: usize) -> nat;

    /// Samples points spread along the outline, jittered by draws from `rng`.
    ///
    /// `trig` supplies the unit circle: for an angle of `t / UNIT` turns it
    /// returns the point `(cos, sin)` in fixed point. Shapes without curvature
    /// never call it.
    fn as_points<F: Fn(i32) -> Point>(
        &self,
        n_points: usize,
        rng: &mut rand::ThreadRng,
        trig: &F,
    ) -> (pts: Vec<Point>)
        requires
            forall|t: i32| 0 <= t < crate::arith::UNIT ==> call_requires(trig, (t,)),
        ensures
            pts.len() == self.count_spec(n_points),
            forall|i: int| 0 <= i < pts.len() ==> self.bounds_spec().contains(#[trigger] pts[i]),
    ;

    /// The bounding box of the shape.
    fn find_bounds(&self) -> (b: Bounds)
        ensures
            b == self.bounds_spec(),
    ;
}

/// The circle around `(x, y)` with radius `r`.
pub fn new_circle(x: i32, y: i32, r: u32) -> (circle: Circle)
    ensures
        circle.center == (Point { x, y }),
        circle.radius == r,
{
    Circle { center: Point { x, y }, radius: r }
}

/// The boxes of `shapes`, in order.
pub open spec fn boxes_of<T: Shape>(shapes: Seq<T>) -> Seq<Bounds> {
    Seq::new(shapes.len(), |i: int| shapes[i].bounds_spec())
}

/// The box that covers the world origin and every shape of `shapes`.
///
/// The origin is part of the result even when no shape touches it.
pub fn find_maximal_bounds<T: Shape>(shapes: &Vec<T>) -> (b: Bounds)
    ensures
        b == join_all(origin_box(), boxes_of(shapes@)),
        b.wf(),
        b.covers(origin_box()),
        forall|i: int| 0 <= i < shapes.len() ==> b.covers(#[trigger] shapes[i].bounds_spec()),
{
    let mut max_bounds = Bounds { up_left: Point { x: 0, y: 0 }, down_right: Point { x: 0, y: 0 } };
    let mut k: usize = 0;
    while k < shapes.len()
        invariant
            k <= shapes.len(),
            max_bounds == join_all(origin_box(), boxes_of(shapes@).take(k as int)),
            max_bounds.wf(),
            max_bounds.covers(origin_box()),
            forall|i: int| 0 <= i < k ==> max_bounds.covers(#[trigger] shapes[i].bounds_spec()),
        decreases shapes.len() - k,
    {
        let found = shapes[k].find_bounds();
        proof {
            let all = boxes_of(shapes@);
            assert(all.take(k + 1).drop_last() =~= all.take(k as int));
            assert(all.take(k + 1).last() == found);
        }
        max_bounds.merge(found);
        k += 1;
    }
    proof {
        assert(boxes_of(shapes@).take(k as int) =~= boxes_of(shapes@));
    }
    max_bounds
}

} // verus!
