//! The pixel grid: fitting world space into it, binning points to pixels,
//! and compositing a colour over the pixels that were hit.

use vstd::prelude::*;
use vstd::arithmetic::div_mod::{
    lemma_fundamental_div_mod, lemma_fundamental_div_mod_converse, lemma_hoist_over_denominator,
    lemma_mod_bound,
};
use crate::arith::{floor_div, UNIT};
use crate::color::{lemma_opaque_covers, mix_spec, mix_times, Color, MAX_CHANNEL, OPAQUE};
use crate::ppm::{ppm_text, write_ppm};
use crate::random::local_rng;
use crate::shape::{boxes_of, find_maximal_bounds, join_all, origin_box, Bounds, Point, Shape};

verus! {

/// A grid of `height` rows of `width` pixels, stored row by row from the top,
/// over a background colour.
pub struct Canvas {
    pub buf: Vec<Color>,
    pub height: usize,
    pub width: usize,
    pub bg: Color,
}

/// A box can be fitted into a grid when both have an extent in both
/// directions.
pub open spec fn fits(b: Bounds, cw: int, ch: int) -> bool {
    b.width_spec() > 0 && b.height_spec() > 0 && cw > 0 && ch > 0
}

/// The grid is relatively wider than the box: `cw / ch > width / height`.
pub open spec fn is_wider(b: Bounds, cw: int, ch: int) -> bool {
    cw * b.height_spec() > b.width_spec() * ch
}

/// The column of `p`, counted from the left.
///
/// With `nx = (p.x - left) / width` the position of `p` across the box, the
/// column is `nx * (cw - 1)` rounded down; on a grid that is relatively wider
/// than the box, `nx` is first scaled by `(width / height) / (cw / ch)`.
pub open spec fn raster_col(p: Point, b: Bounds, cw: int, ch: int) -> int {
    let dx = p.x - b.up_left.x;
    if is_wider(b, cw, ch) {
        (dx * (ch * (cw - 1))) / (b.height_spec() * cw)
    } else {
        (dx * (cw - 1)) / b.width_spec()
    }
}

/// The row of `p`, counted from the top.
///
/// With `ny = (p.y - bottom) / height` the position of `p` up the box, the
/// row is `(1 - ny) * (ch - 1)` rounded down; on a grid that is not
/// relatively wider than the box, `ny` is first scaled by
/// `(cw / ch) / (width / height)`.
pub open spec fn raster_row(p: Point, b: Bounds, cw: int, ch: int) -> int {
    let dy = p.y - b.down_right.y;
    if is_wider(b, cw, ch) {
        ((b.height_spec() - dy) * (ch - 1)) / b.height_spec()
    } else {
        ((ch * b.width_spec() - dy * cw) * (ch - 1)) / (ch * b.width_spec())
    }
}

/// The pixel that `p` falls on when `b` is fitted into a grid of `cw` by `ch`
/// pixels: its row and column flattened to one index, row by row.
///
/// There is none when the box cannot be fitted, and none when the column or
/// the row lies outside the grid: such a point is dropped, it is neither
/// moved to the nearest edge nor carried over into a neighbouring row.
pub open spec fn projection(p: Point, b: Bounds, cw: int, ch: int) -> Option<int> {
    let col = raster_col(p, b, cw, ch);
    let row = raster_row(p, b, cw, ch);
    if fits(b, cw, ch) && 0 <= col < cw && 0 <= row < ch {
        Some(col + cw * row)
    } else {
        None
    }
}

/// Two fractions with positive denominators that are equal as fractions round
/// down to the same integer.
proof fn lemma_equal_fractions(x: int, d1: int, a: int, d2: int)
    requires
        d1 > 0,
        d2 > 0,
        x * d2 == a * d1,
    ensures
        x / d1 == a / d2,
{
    let q = a / d2;
    let r = a % d2;
    lemma_fundamental_div_mod(a, d2);
    lemma_mod_bound(a, d2);
    let s = x - q * d1;
    assert(s * d2 == r * d1) by (nonlinear_arith)
        requires
            s == x - q * d1,
            x * d2 == a * d1,
            a == d2 * q + r,
    ;
    assert(0 <= s < d1) by (nonlinear_arith)
        requires
            s * d2 == r * d1,
            0 <= r < d2,
            d1 > 0,
            d2 > 0,
    ;
    lemma_fundamental_div_mod_converse(x, d1, q, s);
}

/// When the grid has the proportions of the box, fitting is plain min-max
/// normalisation along both axes, with no further scaling: the column is
/// `(p.x - left) / width * (cw - 1)` and the row is
/// `(1 - (p.y - bottom) / height) * (ch - 1)`, each rounded down.
pub proof fn lemma_same_aspect_is_plain(p: Point, b: Bounds, cw: int, ch: int)
    requires
        fits(b, cw, ch),
        cw * b.height_spec() == b.width_spec() * ch,
    ensures
        raster_col(p, b, cw, ch) == ((p.x - b.up_left.x) * (cw - 1)) / b.width_spec(),
        raster_row(p, b, cw, ch) == ((b.height_spec() - (p.y - b.down_right.y)) * (ch - 1))
            / b.height_spec(),
{
    let bw = b.width_spec();
    let bh = b.height_spec();
    let dy = p.y - b.down_right.y;
    let x = (ch * bw - dy * cw) * (ch - 1);
    let a = (bh - dy) * (ch - 1);
    assert(ch * bw > 0) by (nonlinear_arith)
        requires
            ch > 0,
            bw > 0,
    ;
    assert(x * bh == a * (ch * bw)) by (nonlinear_arith)
        requires
            x == (ch * bw - dy * cw) * (ch - 1),
            a == (bh - dy) * (ch - 1),
            cw * bh == bw * ch,
    ;
    lemma_equal_fractions(x, ch * bw, a, bh);
}

/// A point inside the box always falls on a pixel when the box is fitted
/// into the grid, whatever the proportions of the two.
pub proof fn lemma_inside_is_projected(p: Point, b: Bounds, cw: int, ch: int)
    requires
        fits(b, cw, ch),
        b.contains(p),
    ensures
        projection(p, b, cw, ch).is_some(),
        0 <= raster_col(p, b, cw, ch) < cw,
        0 <= raster_row(p, b, cw, ch) < ch,
{
    let bw = b.width_spec();
    let bh = b.height_spec();
    let dx = p.x - b.up_left.x;
    let dy = p.y - b.down_right.y;
    assert(0 <= dx <= bw && 0 <= dy <= bh);
    if is_wider(b, cw, ch) {
        let num = dx * (ch * (cw - 1));
        let den = bh * cw;
        assert(den > 0 && 0 <= num && num < den * (cw - 1) + den) by (nonlinear_arith)
            requires
                num == dx * (ch * (cw - 1)),
                den == bh * cw,
                0 <= dx <= bw,
                cw * bh > bw * ch,
                bh > 0,
                cw > 0,
                ch > 0,
        ;
        lemma_quotient_range(num, den, cw - 1);
        let rnum = (bh - dy) * (ch - 1);
        assert(0 <= rnum && rnum < bh * (ch - 1) + bh) by (nonlinear_arith)
            requires
                rnum == (bh - dy) * (ch - 1),
                0 <= dy <= bh,
                bh > 0,
                ch > 0,
        ;
        lemma_quotient_range(rnum, bh, ch - 1);
    } else {
        let num = dx * (cw - 1);
        assert(0 <= num && num < bw * (cw - 1) + bw) by (nonlinear_arith)
            requires
                num == dx * (cw - 1),
                0 <= dx <= bw,
                bw > 0,
                cw > 0,
        ;
        lemma_quotient_range(num, bw, cw - 1);
        let rnum = (ch * bw - dy * cw) * (ch - 1);
        let den = ch * bw;
        assert(den > 0 && 0 <= rnum && rnum < den * (ch - 1) + den) by (nonlinear_arith)
            requires
                rnum == (ch * bw - dy * cw) * (ch - 1),
                den == ch * bw,
                0 <= dy <= bh,
                cw * bh <= bw * ch,
                bw > 0,
                cw > 0,
                ch > 0,
        ;
        lemma_quotient_range(rnum, den, ch - 1);
    }
}

/// A numerator from zero up to, but not including, `den * (top + 1)` has a
/// quotient from zero up to `top`.
proof fn lemma_quotient_range(num: int, den: int, top: int)
    requires
        den > 0,
        0 <= num < den * top + den,
    ensures
        0 <= num / den <= top,
{
    let q = num / den;
    let r = num % den;
    lemma_fundamental_div_mod(num, den);
    lemma_mod_bound(num, den);
    assert(0 <= q <= top) by (nonlinear_arith)
        requires
            num == den * q + r,
            0 <= r < den,
            0 <= num < den * top + den,
            den > 0,
    ;
}

/// The pixels that the points of `pts` fall on, in the order of the points;
/// points that fall on no pixel are left out.
pub open spec fn hits_of(pts: Seq<Point>, b: Bounds, cw: int, ch: int) -> Seq<usize>
    decreases pts.len(),
{
    if pts.len() == 0 {
        Seq::<usize>::empty()
    } else {
        let front = hits_of(pts.drop_last(), b, cw, ch);
        match projection(pts.last(), b, cw, ch) {
            Some(i) => front.push(i as usize),
            None => front,
        }
    }
}

/// No point is lost when all of them lie inside the box that is fitted into
/// the grid: each one falls on a pixel.
pub proof fn lemma_inside_points_all_hit(pts: Seq<Point>, b: Bounds, cw: int, ch: int)
    requires
        fits(b, cw, ch),
        forall|i: int| 0 <= i < pts.len() ==> b.contains(#[trigger] pts[i]),
    ensures
        hits_of(pts, b, cw, ch).len() == pts.len(),
    decreases pts.len(),
{
    if pts.len() > 0 {
        let front = pts.drop_last();
        assert forall|i: int| 0 <= i < front.len() implies b.contains(#[trigger] front[i]) by {
            assert(front[i] == pts[i]);
        }
        lemma_inside_points_all_hit(front, b, cw, ch);
        assert(b.contains(pts[pts.len() - 1]));
        lemma_inside_is_projected(pts.last(), b, cw, ch);
    }
}

/// How often `cell` occurs among `pixels`.
pub open spec fn hit_count(pixels: Seq<usize>, cell: int) -> nat
    decreases pixels.len(),
{
    if pixels.len() == 0 {
        0
    } else {
        hit_count(pixels.drop_last(), cell) + if pixels.last() == cell {
            1nat
        } else {
            0nat
        }
    }
}

/// The cells after `color` has been composited over each of them once for
/// every time it occurs among `pixels`.
pub open spec fn blended(cells: Seq<Color>, pixels: Seq<usize>, color: Color) -> Seq<Color> {
    Seq::new(cells.len(), |i: int| mix_times(color, cells[i], hit_count(pixels, i)))
}

/// Compositing an opaque colour paints: afterwards every pixel that was hit
/// has exactly that colour, and every other pixel is as it was.
pub proof fn lemma_opaque_paints(cells: Seq<Color>, pixels: Seq<usize>, color: Color)
    requires
        color.a == OPAQUE,
    ensures
        forall|i: int|
            0 <= i < cells.len() ==> #[trigger] blended(cells, pixels, color)[i] == if hit_count(
                pixels,
                i,
            ) > 0 {
                color
            } else {
                cells[i]
            },
{
    assert forall|i: int| 0 <= i < cells.len() implies #[trigger] blended(cells, pixels, color)[i]
        == if hit_count(pixels, i) > 0 {
        color
    } else {
        cells[i]
    } by {
        lemma_opaque_covers(color, cells[i], hit_count(pixels, i));
    }
}

/// `pts` is a possible outcome of sampling `shape` with a budget of
/// `n_points`: as many points as the shape yields, all inside its box.
pub open spec fn is_sampling<T: Shape>(pts: Seq<Point>, shape: T, n_points: usize) -> bool {
    &&& pts.len() == shape.count_spec(n_points)
    &&& forall|i: int| 0 <= i < pts.len() ==> shape.bounds_spec().contains(#[trigger] pts[i])
}

/// `pixels` is what some sampling of `shape` hits.
pub open spec fn is_shape_hits<T: Shape>(
    pixels: Seq<usize>,
    shape: T,
    n_points: usize,
    b: Bounds,
    cw: int,
    ch: int,
) -> bool {
    exists|pts: Seq<Point>| #[trigger]
        is_sampling(pts, shape, n_points) && pixels == hits_of(pts, b, cw, ch)
}

/// `pixels` is what some sampling of each shape hits, shape after shape.
pub open spec fn is_scene_hits<T: Shape>(
    pixels: Seq<usize>,
    shapes: Seq<T>,
    n_points: usize,
    b: Bounds,
    cw: int,
    ch: int,
) -> bool {
    exists|parts: Seq<Seq<usize>>|
        {
            &&& parts.len() == shapes.len()
            &&& forall|i: int|
                0 <= i < parts.len() ==> is_shape_hits(
                    #[trigger] parts[i],
                    shapes[i],
                    n_points,
                    b,
                    cw,
                    ch,
                )
            &&& pixels == #[trigger] parts.flatten()
        }
}

/// Samples every shape on the worker pool of the `rayon` crate and gathers
/// the pixels that were hit, by `into_par_iter`, `flat_map` and `collect`.
///
/// Trusted: the result is the results of `Canvas::shape_pixels` for the
/// shapes, one after the other in the order of the shapes, which is how
/// `flat_map` followed by `collect` into a vector is documented. Each shape
/// is sampled by its own call, so each part is an outcome of that function.
#[verifier::external_body]
fn sample_in_parallel<T: Shape + Send, F: Fn(i32) -> Point + Sync>(
    canvas: &Canvas,
    shapes: Vec<T>,
    n_points: usize,
    bounds: &Bounds,
    trig: &F,
) -> (pixels: Vec<usize>)
    requires
        canvas.wf(),
        forall|t: i32| 0 <= t < UNIT ==> call_requires(trig, (t,)),
    ensures
        is_scene_hits(
            pixels@,
            shapes@,
            n_points,
            *bounds,
            canvas.width as int,
            canvas.height as int,
        ),
{
    rayon::iter::ParallelIterator::collect(
        rayon::iter::ParallelIterator::flat_map(
            rayon::iter::IntoParallelIterator::into_par_iter(shapes),
            |shape| canvas.shape_pixels(&shape, n_points, bounds, trig),
        ),
    )
}

/// Adding one pixel to the list raises the count of that cell by one and
/// leaves the other counts alone.
proof fn lemma_hit_count_push(pixels: Seq<usize>, hit: usize, cell: int)
    ensures
        hit_count(pixels.push(hit), cell) == hit_count(pixels, cell) + if hit == cell {
            1nat
        } else {
            0nat
        },
{
    assert(pixels.push(hit).drop_last() =~= pixels);
}

impl Canvas {
    /// The buffer holds one cell for each pixel of the grid.
    pub open spec fn wf(&self) -> bool {
        self.buf.len() == self.height * self.width
    }

    /// A canvas of the given size with every pixel set to `bg`.
    pub fn new(height: usize, width: usize, bg: Color) -> (canvas: Canvas)
        requires
            height * width <= usize::MAX,
        ensures
            canvas.wf(),
            canvas.height == height,
            canvas.width == width,
            canvas.bg == bg,
            forall|i: int| 0 <= i < canvas.buf.len() ==> canvas.buf[i] == bg,
    {
        let cells: usize = height * width;
        let mut buf: Vec<Color> = Vec::new();
        let mut i: usize = 0;
        while i < cells
            invariant
                i <= cells,
                buf.len() == i,
                forall|k: int| 0 <= k < i ==> buf[k] == bg,
            decreases cells - i,
        {
            buf.push(bg);
            i += 1;
        }
        Canvas { buf, height, width, bg }
    }

    /// Maps a world point to the index of the pixel it falls on when
    /// `bounds` is fitted into the canvas with its proportions kept.
    ///
    /// A point whose index lies outside the grid is dropped, and so is every
    /// point when the box or the canvas has no extent.
    pub fn find_nearest_pixel(&self, p: Point, bounds: &Bounds) -> (hit: Option<usize>)
        requires
            self.wf(),
        ensures
            match hit {
                Some(i) => projection(p, *bounds, self.width as int, self.height as int) == Some(
                    i as int,
                ) && i < self.buf.len(),
                None => projection(p, *bounds, self.width as int, self.height as int).is_none(),
            },
    {
        let bw: i128 = bounds.width() as i128;
        let bh: i128 = bounds.height() as i128;
        if bw <= 0 || bh <= 0 || self.width == 0 || self.height == 0 {
            return None;
        }
        let cw: i128 = self.width as i128;
        let ch: i128 = self.height as i128;
        let dx: i128 = p.x as i128 - bounds.up_left.x as i128;
        let dy: i128 = p.y as i128 - bounds.down_right.y as i128;
        let ghost cells = self.height * self.width;
        proof {
            assert(cells == ch * cw);
            assert(cells <= usize::MAX);
            assert(0 <= ch * (cw - 1) < cells && 0 <= cw * (ch - 1) < cells) by (nonlinear_arith)
                requires
                    cells == ch * cw,
                    ch > 0,
                    cw > 0,
            ;
            assert(cw <= cells && ch <= cells) by (nonlinear_arith)
                requires
                    cells == ch * cw,
                    ch > 0,
                    cw > 0,
            ;
            lemma_product_bounds(cw as int, bh as int);
            lemma_product_bounds(ch as int, bw as int);
            lemma_product_bounds(ch * (cw - 1), dx as int);
            lemma_product_bounds(cw * (ch - 1), dy as int);
            lemma_product_bounds(cw - 1, dx as int);
            lemma_product_bounds(ch - 1, bh - dy);
            assert(cw * bh == bh * cw && ch * bw == bw * ch) by (nonlinear_arith);
            assert(bh * cw > 0 && ch * bw > 0) by (nonlinear_arith)
                requires
                    bh > 0,
                    bw > 0,
                    cw > 0,
                    ch > 0,
            ;
        }
        let col: i128;
        let row: i128;
        if cw * bh > bw * ch {
            col = floor_div(dx * (ch * (cw - 1)), bh * cw);
            row = floor_div((bh - dy) * (ch - 1), bh);
            proof {
                assert(dx * (ch * (cw - 1)) == (ch * (cw - 1)) * dx) by (nonlinear_arith);
                assert((bh - dy) * (ch - 1) == (ch - 1) * (bh - dy)) by (nonlinear_arith);
            }
        } else {
            col = floor_div(dx * (cw - 1), bw);
            let drop: i128 = floor_div(-(dy * (cw * (ch - 1))), ch * bw);
            row = (ch - 1) + drop;
            proof {
                let tail = -(dy * (cw * (ch - 1)));
                lemma_hoist_over_denominator(tail, ch - 1, (ch * bw) as nat);
                assert(tail + (ch - 1) * (ch * bw) == (ch * bw - dy * cw) * (ch - 1))
                    by (nonlinear_arith)
                    requires
                        tail == -(dy * (cw * (ch - 1))),
                ;
            }
        }
        assert(col == raster_col(p, *bounds, cw as int, ch as int));
        assert(row == raster_row(p, *bounds, cw as int, ch as int));
        assert(fits(*bounds, cw as int, ch as int));
        assert(self.buf.len() == cw * ch) by (nonlinear_arith)
            requires
                self.buf.len() == ch * cw,
        ;
        if col < 0 || col >= cw || row < 0 || row >= ch {
            None
        } else {
            assert(0 <= col + cw * row < cw * ch) by (nonlinear_arith)
                requires
                    0 <= col < cw,
                    0 <= row < ch,
            ;
            Some((col + cw * row) as usize)
        }
    }

    /// The pixels that `pts` fall on under `bounds`, in the order of the
    /// points.
    pub fn project_points(&self, pts: &Vec<Point>, bounds: &Bounds) -> (pixels: Vec<usize>)
        requires
            self.wf(),
        ensures
            pixels@ == hits_of(pts@, *bounds, self.width as int, self.height as int),
            forall|k: int| 0 <= k < pixels.len() ==> pixels[k] < self.buf.len(),
    {
        let mut pixels: Vec<usize> = Vec::new();
        let mut k: usize = 0;
        while k < pts.len()
            invariant
                self.wf(),
                k <= pts.len(),
                pixels@ == hits_of(pts@.take(k as int), *bounds, self.width as int, self.height as int),
                forall|m: int| 0 <= m < pixels.len() ==> pixels[m] < self.buf.len(),
            decreases pts.len() - k,
        {
            let hit = self.find_nearest_pixel(pts[k], bounds);
            proof {
                let done = pts@.take(k + 1);
                assert(done.drop_last() =~= pts@.take(k as int));
                assert(done.last() == pts[k as int]);
            }
            match hit {
                Some(i) => {
                    pixels.push(i);
                },
                None => {},
            }
            k += 1;
        }
        proof {
            assert(pts@.take(k as int) =~= pts@);
        }
        pixels
    }

    /// Samples `shape` with the calling thread's random source and returns
    /// the pixels that the points fall on under `bounds`.
    pub fn shape_pixels<T: Shape, F: Fn(i32) -> Point>(
        &self,
        shape: &T,
        n_points: usize,
        bounds: &Bounds,
        trig: &F,
    ) -> (pixels: Vec<usize>)
        requires
            self.wf(),
            forall|t: i32| 0 <= t < UNIT ==> call_requires(trig, (t,)),
        ensures
            is_shape_hits(
                pixels@,
                *shape,
                n_points,
                *bounds,
                self.width as int,
                self.height as int,
            ),
            forall|k: int| 0 <= k < pixels.len() ==> pixels[k] < self.buf.len(),
    {
        let mut rng = local_rng();
        let pts = shape.as_points(n_points, &mut rng, trig);
        proof {
            assert(is_sampling(pts@, *shape, n_points));
        }
        self.project_points(&pts, bounds)
    }

    /// Composites `color` over every pixel listed in `pixels`, once for each
    /// time it is listed. Indices outside the grid are ignored.
    ///
    /// With an opaque `color` the listed pixels end up with exactly that
    /// colour and all others keep theirs.
    pub fn blend_pixels(&mut self, pixels: &Vec<usize>, color: Color)
        ensures
            final(self).buf@ == blended(old(self).buf@, pixels@, color),
            final(self).height == old(self).height,
            final(self).width == old(self).width,
            final(self).bg == old(self).bg,
            old(self).wf() ==> final(self).wf(),
            color.a == OPAQUE ==> forall|i: int|
                0 <= i < old(self).buf.len() ==> #[trigger] final(self).buf[i] == if hit_count(
                    pixels@,
                    i,
                ) > 0 {
                    color
                } else {
                    old(self).buf[i]
                },
    {
        let ghost start = self.buf@;
        let mut k: usize = 0;
        proof {
            assert(self.buf@ =~= blended(start, pixels@.take(0), color));
        }
        while k < pixels.len()
            invariant
                k <= pixels.len(),
                self.buf@ == blended(start, pixels@.take(k as int), color),
                self.height == old(self).height,
                self.width == old(self).width,
                self.bg == old(self).bg,
            decreases pixels.len() - k,
        {
            let i = pixels[k];
            proof {
                assert(pixels@.take(k + 1) =~= pixels@.take(k as int).push(i));
                assert forall|cell: int|
                    hit_count(pixels@.take(k + 1), cell) == hit_count(pixels@.take(k as int), cell)
                        + if i == cell {
                        1nat
                    } else {
                        0nat
                    } by {
                    lemma_hit_count_push(pixels@.take(k as int), i, cell);
                }
            }
            if i < self.buf.len() {
                let mixed = color.mix(&self.buf[i]);
                self.buf.set(i, mixed);
            }
            proof {
                assert(self.buf@ =~= blended(start, pixels@.take(k + 1), color));
            }
            k += 1;
        }
        proof {
            assert(pixels@.take(k as int) =~= pixels@);
            if color.a == OPAQUE {
                lemma_opaque_paints(start, pixels@, color);
            }
        }
    }

    /// Draws `shapes` in `color`: fits the box of all shapes (and the world
    /// origin) into the canvas, samples every shape with a budget of
    /// `n_points` on the worker pool, and composites `color` over each pixel
    /// once for every sampled point that falls on it.
    ///
    /// `trig` supplies the unit circle, see [`Shape::as_points`].
    pub fn rasterize_shapes<T: Shape + Send, F: Fn(i32) -> Point + Sync>(
        &mut self,
        shapes: Vec<T>,
        color: Color,
        n_points: usize,
        trig: &F,
    )
        requires
            old(self).wf(),
            forall|t: i32| 0 <= t < UNIT ==> call_requires(trig, (t,)),
        ensures
            final(self).wf(),
            final(self).height == old(self).height,
            final(self).width == old(self).width,
            final(self).bg == old(self).bg,
            exists|pixels: Seq<usize>|
                {
                    &&& #[trigger] is_scene_hits(
                        pixels,
                        shapes@,
                        n_points,
                        join_all(origin_box(), boxes_of(shapes@)),
                        old(self).width as int,
                        old(self).height as int,
                    )
                    &&& final(self).buf@ == blended(old(self).buf@, pixels, color)
                    &&& color.a == OPAQUE ==> forall|i: int|
                        0 <= i < old(self).buf.len() ==> #[trigger] final(self).buf[i]
                            == if hit_count(pixels, i) > 0 {
                            color
                        } else {
                            old(self).buf[i]
                        }
                },
    {
        let max_bounds = find_maximal_bounds(&shapes);
        let ghost scene = shapes@;
        let pixels = sample_in_parallel(&*self, shapes, n_points, &max_bounds, trig);
        self.blend_pixels(&pixels, color);
        proof {
            assert(is_scene_hits(
                pixels@,
                scene,
                n_points,
                join_all(origin_box(), boxes_of(scene)),
                old(self).width as int,
                old(self).height as int,
            ));
        }
    }

    /// The pixels as they are written out: every cell composited over the
    /// background.
    pub open spec fn serialized(&self) -> Seq<Color> {
        Seq::new(self.buf.len() as nat, |i: int| mix_spec(self.buf[i], self.bg))
    }

    /// The pixels as they are written out: every cell composited over the
    /// background, row by row.
    pub fn serialize(&self) -> (out: Vec<Color>)
        ensures
            out@ == self.serialized(),
    {
        let mut out: Vec<Color> = Vec::new();
        let mut i: usize = 0;
        while i < self.buf.len()
            invariant
                i <= self.buf.len(),
                out.len() == i,
                forall|k: int| 0 <= k < i ==> out[k] == mix_spec(self.buf[k], self.bg),
            decreases self.buf.len() - i,
        {
            out.push(self.buf[i].mix(&self.bg));
            i += 1;
        }
        proof {
            assert(out@ =~= self.serialized());
        }
        out
    }

    /// Appends the image to `file` in the plain-text pixel format, with
    /// [`MAX_CHANNEL`] as the largest channel value.
    pub fn write_as_ppm(&self, file: &mut Vec<u8>)
        ensures
            final(file)@ == old(file)@ + ppm_text(
                self.serialized(),
                self.width as nat,
                self.height as nat,
                MAX_CHANNEL as nat,
            ),
    {
        let pixels = self.serialize();
        write_ppm(file, &pixels, self.width, self.height, MAX_CHANNEL);
    }
}

/// Bounds on the product of a cell count and a coordinate difference.
proof fn lemma_product_bounds(count: int, diff: int)
    requires
        0 <= count <= 0x1_0000_0000_0000_0000,
        -0x2_0000_0000 < diff < 0x2_0000_0000,
    ensures
        -0x2_0000_0000_0000_0000_0000_0000 < count * diff < 0x2_0000_0000_0000_0000_0000_0000,
        -0x2_0000_0000_0000_0000_0000_0000 < diff * count < 0x2_0000_0000_0000_0000_0000_0000,
{
    assert(-0x2_0000_0000_0000_0000_0000_0000 < count * diff < 0x2_0000_0000_0000_0000_0000_0000)
        by (nonlinear_arith)
        requires
            0 <= count <= 0x1_0000_0000_0000_0000,
            -0x2_0000_0000 < diff < 0x2_0000_0000,
    ;
    assert(count * diff == diff * count) by (nonlinear_arith);
}

} // verus!
