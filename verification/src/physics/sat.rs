//! The separating axis test: projecting shapes onto candidate axes, the
//! overlap of two projections, and the minimum translation vector.
//!
//! Axes are kept as raw integer vectors rather than unit vectors.  A
//! projection onto an axis `a` is therefore scaled by the length of `a`;
//! overlaps measured on different axes are compared as exact rationals
//! (cross-multiplied squares), and the final translation vector divides by
//! the squared axis length, rounding each component toward zero.  A circle's
//! projection uses the integer square root of the squared axis length, so it
//! is shrunk by less than one unit of the scaled measure.

use vstd::prelude::*;
use crate::components::Transform;
use crate::num::{tdiv, sqrt_floor, mul_div_trunc, isqrt, gcd_nat};
use crate::physics::{
    Vec2, dot, norm_sq, in_box, ShapeModel, CollisionShape, POS_LIMIT, SHAPE_LIMIT,
};

verus! {

/// The dot product of a transform's position with an axis.
pub open spec fn tdot(t: Transform, a: Vec2) -> int {
    t.x * a.x + t.y * a.y
}

/// The axis from the world position of vertex `v` (local to `t2`) to the
/// position of `t1`.
pub open spec fn axis_to(v: Vec2, t1: Transform, t2: Transform) -> Vec2 {
    Vec2 { x: (t1.x - (v.x + t2.x)) as i64, y: (t1.y - (v.y + t2.y)) as i64 }
}

/// The outward normal of the edge from `p1` to `p2`: the edge vector
/// `p1 - p2` rotated a quarter turn.
pub open spec fn edge_normal(p1: Vec2, p2: Vec2) -> Vec2 {
    Vec2 { x: (p1.y - p2.y) as i64, y: (p2.x - p1.x) as i64 }
}

/// One normal for each pair of adjacent vertices, not wrapping past the last
/// vertex: a polygon of `n` vertices yields `n - 1` normals (for an
/// axis-aligned box the wrap-around normal is parallel to the second one, so
/// nothing is lost on boxes).
pub open spec fn poly_axes(vs: Seq<Vec2>) -> Seq<Vec2> {
    Seq::new((vs.len() - 1) as nat, |i: int| edge_normal(vs[i], vs[i + 1]))
}

/// The candidate axes of one shape: a polygon's edge normals; none for a
/// circle (its axes depend on the other shape and are chosen by the caller).
pub open spec fn shape_axes(s: ShapeModel) -> Seq<Vec2> {
    match s {
        ShapeModel::Circle { radius } => Seq::empty(),
        ShapeModel::Polygon { vertices } => poly_axes(vertices),
    }
}

/// The axis from the polygon vertex closest to the circle centre (first
/// minimiser of the squared distance) to the circle centre.  `t1` is the
/// circle's transform, `t2` the polygon's.
pub open spec fn best_axis(vs: Seq<Vec2>, t1: Transform, t2: Transform) -> Vec2
    decreases vs.len(),
{
    if vs.len() <= 1 {
        axis_to(vs[0], t1, t2)
    } else {
        let prev = best_axis(vs.drop_last(), t1, t2);
        let cand = axis_to(vs.last(), t1, t2);
        if norm_sq(cand) < norm_sq(prev) {
            cand
        } else {
            prev
        }
    }
}

/// The least dot product of a vertex (in shape-local space) with the axis.
pub open spec fn ldots_min(vs: Seq<Vec2>, a: Vec2) -> int
    decreases vs.len(),
{
    if vs.len() <= 1 {
        dot(vs[0], a)
    } else {
        let m = ldots_min(vs.drop_last(), a);
        if dot(vs.last(), a) < m {
            dot(vs.last(), a)
        } else {
            m
        }
    }
}

/// The greatest dot product of a vertex (in shape-local space) with the axis.
pub open spec fn ldots_max(vs: Seq<Vec2>, a: Vec2) -> int
    decreases vs.len(),
{
    if vs.len() <= 1 {
        dot(vs[0], a)
    } else {
        let m = ldots_max(vs.drop_last(), a);
        if dot(vs.last(), a) > m {
            dot(vs.last(), a)
        } else {
            m
        }
    }
}

/// The least point of the shape's projection onto `a`, scaled by the length
/// of `a`.  A circle's radius is scaled by the integer square root of the
/// squared axis length.
pub open spec fn proj_min(s: ShapeModel, t: Transform, a: Vec2) -> int {
    match s {
        ShapeModel::Circle { radius } => tdot(t, a) - radius * sqrt_floor(norm_sq(a) as nat),
        ShapeModel::Polygon { vertices } => tdot(t, a) + ldots_min(vertices, a),
    }
}

/// The greatest point of the shape's projection onto `a`, scaled likewise.
pub open spec fn proj_max(s: ShapeModel, t: Transform, a: Vec2) -> int {
    match s {
        ShapeModel::Circle { radius } => tdot(t, a) + radius * sqrt_floor(norm_sq(a) as nat),
        ShapeModel::Polygon { vertices } => tdot(t, a) + ldots_max(vertices, a),
    }
}

/// Whether the two projection intervals touch or overlap.
pub open spec fn proj_overlaps(amin: int, amax: int, bmin: int, bmax: int) -> bool {
    ||| (amin >= bmin && amin <= bmax)
    ||| (amax >= bmin && amax <= bmax)
    ||| (amax >= bmax && amin <= bmin)
}

/// The length of the overlap of the two projection intervals: the length of
/// their intersection when they touch, and zero when they are disjoint.
pub open spec fn proj_overlap_amount(amin: int, amax: int, bmin: int, bmax: int) -> int {
    if amin >= bmin && amax <= bmax {
        amax - amin
    } else if amax >= bmin && amax <= bmax {
        amax - bmin
    } else if amin >= bmin && amin <= bmax {
        bmax - amin
    } else if bmin >= amin && bmax <= amax {
        bmax - bmin
    } else {
        0
    }
}

/// For proper intervals the overlap amount is the length of the intersection
/// (zero when they are disjoint), so it does not depend on the order of the
/// two intervals.
pub proof fn lemma_overlap_amount_symmetric(amin: int, amax: int, bmin: int, bmax: int)
    requires
        amin <= amax,
        bmin <= bmax,
    ensures
        proj_overlap_amount(amin, amax, bmin, bmax) == proj_overlap_amount(bmin, bmax, amin, amax),
        proj_overlaps(amin, amax, bmin, bmax) ==> proj_overlap_amount(amin, amax, bmin, bmax) == (
        if amax <= bmax {
            amax
        } else {
            bmax
        }) - (if amin >= bmin {
            amin
        } else {
            bmin
        }),
{
}

/// For proper intervals, the three-case overlap test is exactly interval
/// intersection, which is symmetric in the two intervals.
pub proof fn lemma_proj_overlaps_symmetric(amin: int, amax: int, bmin: int, bmax: int)
    requires
        amin <= amax,
        bmin <= bmax,
    ensures
        proj_overlaps(amin, amax, bmin, bmax) == (amin <= bmax && bmin <= amax),
        proj_overlaps(amin, amax, bmin, bmax) == proj_overlaps(bmin, bmax, amin, amax),
{
}

/// A projection interval of a shape onto an axis.
pub struct Projection {
    pub min: i64,
    pub max: i64,
}

impl Projection {
    pub fn new(min: i64, max: i64) -> (r: Projection)
        ensures
            r.min == min,
            r.max == max,
    {
        Projection { min, max }
    }

    /// Whether the two intervals touch or overlap.
    pub fn overlaps(&self, other: &Projection) -> (r: bool)
        ensures
            r == proj_overlaps(self.min as int, self.max as int, other.min as int, other.max as int),
    {
        (self.min >= other.min && self.min <= other.max) || (self.max >= other.min && self.max
            <= other.max) || (self.max >= other.max && self.min <= other.min)
    }

    /// The length of the overlap of the two intervals: their intersection's
    /// length, zero when they are disjoint.
    pub fn get_overlap(&self, other: &Projection) -> (r: i64)
        requires
            -9000000000000000 <= self.min <= self.max <= 9000000000000000,
            -9000000000000000 <= other.min <= other.max <= 9000000000000000,
        ensures
            r == proj_overlap_amount(self.min as int, self.max as int, other.min as int, other.max as int),
            0 <= r <= (self.max - self.min) + (other.max - other.min),
    {
        if self.min >= other.min && self.max <= other.max {
            self.max - self.min
        } else if self.max >= other.min && self.max <= other.max {
            self.max - other.min
        } else if self.min >= other.min && self.min <= other.max {
            other.max - self.min
        } else if other.min >= self.min && other.max <= self.max {
            other.max - other.min
        } else {
            0
        }
    }
}

/// The dot product of two axis-bounded vectors.
fn dot_product(a: Vec2, b: Vec2) -> (r: i64)
    requires
        in_box(a, 2097152),
        in_box(b, 2097152),
    ensures
        r == dot(a, b),
        -8796093022208 <= r <= 8796093022208,
{
    proof {
        assert(-4398046511104 <= a.x * b.x <= 4398046511104 && -4398046511104 <= a.y * b.y
            <= 4398046511104) by (nonlinear_arith)
            requires
                -2097152 <= a.x <= 2097152,
                -2097152 <= b.x <= 2097152,
                -2097152 <= a.y <= 2097152,
                -2097152 <= b.y <= 2097152,
        ;
    }
    a.x * b.x + a.y * b.y
}

/// The integer square root of the squared length of an axis-bounded vector.
fn axis_norm(a: Vec2) -> (n: i64)
    requires
        in_box(a, 2097152),
    ensures
        n == sqrt_floor(norm_sq(a) as nat),
        0 <= n <= 4194304,
        n * n <= norm_sq(a),
{
    proof {
        assert(a.x * a.x >= 0 && a.y * a.y >= 0) by (nonlinear_arith);
    }
    let nsq = dot_product(a, a);
    let n = isqrt(nsq as u64);
    proof {
        crate::num::lemma_sqrt_floor_bounds(nsq as nat);
        assert(norm_sq(a) <= 8796093022208) by (nonlinear_arith)
            requires
                -2097152 <= a.x <= 2097152,
                -2097152 <= a.y <= 2097152,
        ;
        assert(sqrt_floor(nsq as nat) <= 4194304) by {
            let s = sqrt_floor(nsq as nat);
            if s > 4194304 {
                assert(s * s > 8796093022208) by (nonlinear_arith)
                    requires
                        s > 4194304,
                ;
            }
        }
    }
    n as i64
}


/// The vertex sequence of a polygon shape; empty for a circle.
pub open spec fn vertices_of(s: ShapeModel) -> Seq<Vec2> {
    match s {
        ShapeModel::Polygon { vertices } => vertices,
        ShapeModel::Circle { radius } => Seq::empty(),
    }
}

/// The radius of a circle shape; zero for a polygon.
pub open spec fn radius_of(s: ShapeModel) -> int {
    match s {
        ShapeModel::Circle { radius } => radius,
        ShapeModel::Polygon { vertices } => 0,
    }
}

/// The candidate axes of a shape pair that is not two circles: for a circle
/// against a polygon, the axis to the closest vertex followed by the
/// polygon's edge normals; for two polygons, the edge normals of the first
/// followed by those of the second.
pub open spec fn sat_axes(t1: Transform, s1: ShapeModel, t2: Transform, s2: ShapeModel) -> Seq<
    Vec2,
> {
    if s1 is Circle && s2 is Circle {
        Seq::empty()
    } else if s1 is Circle {
        seq![best_axis(vertices_of(s2), t1, t2)] + poly_axes(vertices_of(s2))
    } else if s2 is Circle {
        seq![best_axis(vertices_of(s1), t2, t1)] + poly_axes(vertices_of(s1))
    } else {
        poly_axes(vertices_of(s1)) + poly_axes(vertices_of(s2))
    }
}

/// The edge normals of the polygon, as raw integer vectors.  The source
/// divides each normal by its length; here the scaling is carried through the
/// later comparisons instead, exactly.
pub fn get_axes(shape: &CollisionShape) -> (r: Vec<Vec2>)
    requires
        shape@.wf(),
    ensures
        r@ == shape_axes(shape@),
        forall|k: int| 0 <= k < r@.len() ==> in_box(#[trigger] r@[k], 65536),
{
    match shape {
        CollisionShape::Polygon(vertices) => {
            let mut axes1: Vec<Vec2> = Vec::new();
            let n = vertices.len();
            let mut i: usize = 0;
            while i < n - 1
                invariant
                    n == vertices@.len(),
                    n >= 1,
                    i <= n - 1,
                    shape@ == (ShapeModel::Polygon { vertices: vertices@ }),
                    shape@.wf(),
                    axes1@ == poly_axes(vertices@).take(i as int),
                    forall|k: int| 0 <= k < axes1@.len() ==> in_box(#[trigger] axes1@[k], 65536),
                decreases n - i,
            {
                let p1 = vertices[i];
                let p2 = vertices[i + 1];
                proof {
                    assert(in_box(vertices@[i as int], SHAPE_LIMIT as int));
                    assert(in_box(vertices@[i + 1], SHAPE_LIMIT as int));
                }
                let normal = Vec2 { x: p1.y - p2.y, y: p2.x - p1.x };
                axes1.push(normal);
                proof {
                    assert(normal == edge_normal(vertices@[i as int], vertices@[i + 1]));
                    assert(axes1@ =~= poly_axes(vertices@).take(i + 1));
                }
                i = i + 1;
            }
            proof {
                assert(axes1@ =~= poly_axes(vertices@));
            }
            axes1
        },
        CollisionShape::Circle(radius) => {
            let axes: Vec<Vec2> = Vec::new();
            proof {
                assert(axes@ =~= shape_axes(shape@));
            }
            axes
        },
    }
}

/// The axis from the polygon vertex closest to the circle centre to the
/// circle centre, as a raw integer vector in place of a unit vector.  `t1`
/// is the circle's transform, `t2` the polygon's.
pub fn get_circle_polygon_axis(
    circle: &CollisionShape,
    t1: &Transform,
    polygon: &CollisionShape,
    t2: &Transform,
) -> (r: Vec2)
    requires
        circle@ is Circle,
        polygon@ is Polygon,
        polygon@.wf(),
        t1.wf(),
        t2.wf(),
    ensures
        r == best_axis(vertices_of(polygon@), *t1, *t2),
        in_box(r, 2097152),
{
    match polygon {
        CollisionShape::Polygon(vertices) => {
            let ghost vs = vertices@;
            proof {
                assert(in_box(vs[0], SHAPE_LIMIT as int));
            }
            let v0 = vertices[0];
            let start = Vec2 { x: t1.x - (v0.x + t2.x), y: t1.y - (v0.y + t2.y) };
            let mut smallest = dot_product(start, start);
            let mut axis = start;
            proof {
                assert(start == axis_to(vs[0], *t1, *t2));
                assert(vs.take(1).len() == 1);
                assert(vs.take(1)[0] == vs[0]);
                assert(axis == best_axis(vs.take(1), *t1, *t2));
            }
            let mut i: usize = 1;
            while i < vertices.len()
                invariant
                    1 <= i <= vs.len(),
                    vs == vertices@,
                    polygon@ == (ShapeModel::Polygon { vertices: vs }),
                    polygon@.wf(),
                    t1.wf(),
                    t2.wf(),
                    axis == best_axis(vs.take(i as int), *t1, *t2),
                    smallest == norm_sq(axis),
                    in_box(axis, 2097152),
                decreases vs.len() - i,
            {
                proof {
                    assert(in_box(vs[i as int], SHAPE_LIMIT as int));
                }
                let v = vertices[i];
                let found = Vec2 { x: t1.x - (v.x + t2.x), y: t1.y - (v.y + t2.y) };
                let found_sq = dot_product(found, found);
                proof {
                    assert(found == axis_to(vs[i as int], *t1, *t2));
                    assert(vs.take(i + 1).drop_last() =~= vs.take(i as int));
                    assert(vs.take(i + 1).last() == vs[i as int]);
                }
                if found_sq < smallest {
                    smallest = found_sq;
                    axis = found;
                }
                i = i + 1;
            }
            proof {
                assert(vs.take(vs.len() as int) =~= vs);
            }
            axis
        },
        CollisionShape::Circle(radius) => {
            proof {
                assert(false);
            }
            Vec2 { x: 0, y: 0 }
        },
    }
}

/// The projection interval of a shape, placed at `transform`, onto `axis`,
/// scaled by the length of the axis.
pub fn project_shape(shape: &CollisionShape, transform: &Transform, axis: &Vec2) -> (r: Projection)
    requires
        shape@.wf(),
        transform.wf(),
        in_box(*axis, 2097152),
    ensures
        r.min == proj_min(shape@, *transform, *axis),
        r.max == proj_max(shape@, *transform, *axis),
        -9000000000000 <= r.min <= r.max <= 9000000000000,
        r.max - r.min <= 549755813888,
{
    let pos = Vec2 { x: transform.x, y: transform.y };
    let base = dot_product(pos, *axis);
    proof {
        assert(base == tdot(*transform, *axis));
        assert(-8796093022208 <= base <= 8796093022208) by (nonlinear_arith)
            requires
                base == transform.x * axis.x + transform.y * axis.y,
                -524288 <= transform.x <= 524288,
                -524288 <= transform.y <= 524288,
                -2097152 <= axis.x <= 2097152,
                -2097152 <= axis.y <= 2097152,
        ;
    }
    match shape {
        CollisionShape::Polygon(vertices) => {
            let ghost vs = vertices@;
            proof {
                assert(in_box(vs[0], SHAPE_LIMIT as int));
                assert(-137438953472 <= dot(vs[0], *axis) <= 137438953472) by (nonlinear_arith)
                    requires
                        -32768 <= vs[0].x <= 32768,
                        -32768 <= vs[0].y <= 32768,
                        -2097152 <= axis.x <= 2097152,
                        -2097152 <= axis.y <= 2097152,
                ;
            }
            let d0 = dot_product(vertices[0], *axis);
            let mut lmin = d0;
            let mut lmax = d0;
            proof {
                assert(vs.take(1).len() == 1);
                assert(vs.take(1)[0] == vs[0]);
            }
            let mut i: usize = 1;
            while i < vertices.len()
                invariant
                    1 <= i <= vs.len(),
                    vs == vertices@,
                    shape@ == (ShapeModel::Polygon { vertices: vs }),
                    shape@.wf(),
                    in_box(*axis, 2097152),
                    lmin == ldots_min(vs.take(i as int), *axis),
                    lmax == ldots_max(vs.take(i as int), *axis),
                    -137438953472 <= lmin <= lmax <= 137438953472,
                decreases vs.len() - i,
            {
                proof {
                    assert(in_box(vs[i as int], SHAPE_LIMIT as int));
                    assert(-137438953472 <= dot(vs[i as int], *axis) <= 137438953472)
                        by (nonlinear_arith)
                        requires
                            -32768 <= vs[i as int].x <= 32768,
                            -32768 <= vs[i as int].y <= 32768,
                            -2097152 <= axis.x <= 2097152,
                            -2097152 <= axis.y <= 2097152,
                    ;
                    assert(vs.take(i + 1).drop_last() =~= vs.take(i as int));
                    assert(vs.take(i + 1).last() == vs[i as int]);
                }
                let d = dot_product(vertices[i], *axis);
                if d < lmin {
                    lmin = d;
                }
                if d > lmax {
                    lmax = d;
                }
                i = i + 1;
            }
            proof {
                assert(vs.take(vs.len() as int) =~= vs);
            }
            Projection { min: base + lmin, max: base + lmax }
        },
        CollisionShape::Circle(radius) => {
            let n = axis_norm(*axis);
            let rn = {
                proof {
                    assert(0 <= (*radius) * n <= 137438953472) by (nonlinear_arith)
                        requires
                            0 <= *radius <= 32768,
                            0 <= n <= 4194304,
                    ;
                }
                radius * n
            };
            Projection { min: base - rn, max: base + rn }
        },
    }
}


/// The axis separates the two placed shapes: their projections onto it do
/// not touch.
pub open spec fn sep_on(t1: Transform, s1: ShapeModel, t2: Transform, s2: ShapeModel, a: Vec2) -> bool {
    !proj_overlaps(
        proj_min(s1, t1, a),
        proj_max(s1, t1, a),
        proj_min(s2, t2, a),
        proj_max(s2, t2, a),
    )
}

/// The overlap of the two placed shapes' projections onto the axis, scaled by
/// the axis length.
pub open spec fn ov_on(t1: Transform, s1: ShapeModel, t2: Transform, s2: ShapeModel, a: Vec2) -> int {
    proj_overlap_amount(
        proj_min(s1, t1, a),
        proj_max(s1, t1, a),
        proj_min(s2, t2, a),
        proj_max(s2, t2, a),
    )
}

/// Whether overlap `ov1` measured on an axis of squared length `n1` is at
/// most `ov2` measured on an axis of squared length `n2`: the comparison
/// `ov1 / sqrt(n1) <= ov2 / sqrt(n2)` cross-multiplied into exact integers.
pub open spec fn ratio_le(ov1: int, n1: int, ov2: int, n2: int) -> bool {
    ov1 * ov1 * n2 <= ov2 * ov2 * n1
}

/// One pass over the candidate axes, front to back: `None` once some axis
/// separates the shapes; otherwise the least overlap and its axis, a later
/// axis displacing an earlier one when its overlap ratio is less than or
/// equal, so among ties the last wins.
pub open spec fn sat_scan(
    t1: Transform,
    s1: ShapeModel,
    t2: Transform,
    s2: ShapeModel,
    axes: Seq<Vec2>,
    acc: Option<(int, Vec2)>,
) -> Option<(int, Vec2)>
    decreases axes.len(),
{
    if axes.len() == 0 {
        acc
    } else if sep_on(t1, s1, t2, s2, axes[0]) {
        None
    } else {
        let ov = ov_on(t1, s1, t2, s2, axes[0]);
        let acc2 = match acc {
            None => Some((ov, axes[0])),
            Some(best) => if ratio_le(ov, norm_sq(axes[0]), best.0, norm_sq(best.1)) {
                Some((ov, axes[0]))
            } else {
                acc
            },
        };
        sat_scan(t1, s1, t2, s2, axes.drop_first(), acc2)
    }
}

/// The vector from the first transform to the second.
pub open spec fn centre_diff(t1: Transform, t2: Transform) -> Vec2 {
    Vec2 { x: (t1.x - t2.x) as i64, y: (t1.y - t2.y) as i64 }
}

/// The componentwise negation.
pub open spec fn neg_v(v: Vec2) -> Vec2 {
    Vec2 { x: (-v.x) as i64, y: (-v.y) as i64 }
}

/// The translation along axis `a` whose length is the overlap `ov` divided by
/// the axis length: `a * ov / |a|^2`, each component rounded toward zero; the
/// zero vector on a zero axis.
pub open spec fn mtv_raw(ov: int, a: Vec2) -> Vec2 {
    if norm_sq(a) == 0 {
        Vec2 { x: 0, y: 0 }
    } else {
        Vec2 { x: tdiv(a.x * ov, norm_sq(a)) as i64, y: tdiv(a.y * ov, norm_sq(a)) as i64 }
    }
}

/// The minimum translation vector for the first shape: the raw translation
/// along the chosen axis, negated when it points from the first body toward
/// the second (the sign test takes the dot of the centre line with the
/// unscaled translation `a * ov`).
pub open spec fn mtv_from(t1: Transform, t2: Transform, ov: int, a: Vec2) -> Vec2 {
    let raw = mtv_raw(ov, a);
    if ov * dot(centre_diff(t2, t1), a) > 0 {
        neg_v(raw)
    } else {
        raw
    }
}

/// The translation for two overlapping circles: along the centre line `d`,
/// with length `ov` (the radius sum less the centre distance), each component
/// rounded toward zero; the zero vector for coincident centres.
pub open spec fn circle_mtv(d: Vec2, ov: int, n: int) -> Vec2 {
    if n == 0 {
        Vec2 { x: 0, y: 0 }
    } else {
        Vec2 { x: tdiv(d.x * ov, n) as i64, y: tdiv(d.y * ov, n) as i64 }
    }
}

/// The separating axis test on two placed shapes.  For two circles: they
/// collide exactly when the squared centre distance is at most the squared
/// radius sum, and the translation pushes the first circle along the centre
/// line by the radius sum less the centre distance.  Otherwise: the shapes
/// collide exactly when no candidate axis separates them, and the translation
/// moves the first shape along the axis of least overlap, directed away from
/// the second shape.
pub open spec fn sat_spec(t1: Transform, s1: ShapeModel, t2: Transform, s2: ShapeModel) -> (
    bool,
    Option<Vec2>,
) {
    if s1 is Circle && s2 is Circle {
        let d = centre_diff(t1, t2);
        let rsum = radius_of(s1) + radius_of(s2);
        if norm_sq(d) <= rsum * rsum {
            let n = sqrt_floor(norm_sq(d) as nat);
            (true, Some(circle_mtv(d, rsum - n, n as int)))
        } else {
            (false, None)
        }
    } else {
        match sat_scan(t1, s1, t2, s2, sat_axes(t1, s1, t2, s2), None) {
            None => (false, None),
            Some(best) => (true, Some(mtv_from(t1, t2, best.0, best.1))),
        }
    }
}

/// Whether the overlap ratio `ov1 / sqrt(n1)` is at most `ov2 / sqrt(n2)`,
/// decided exactly on the cross-multiplied squares.
fn ratio_le_exec(ov1: i64, n1: i64, ov2: i64, n2: i64) -> (b: bool)
    requires
        0 <= ov1 <= 549755813888,
        0 <= ov2 <= 549755813888,
        0 <= n1 <= 8796093022208,
        0 <= n2 <= 8796093022208,
    ensures
        b == ratio_le(ov1 as int, n1 as int, ov2 as int, n2 as int),
{
    proof {
        assert(0 <= ov1 * ov1 <= 302231454903657293676544 && 0 <= ov2 * ov2
            <= 302231454903657293676544) by (nonlinear_arith)
            requires
                0 <= ov1 <= 549755813888,
                0 <= ov2 <= 549755813888,
        ;
        assert((ov1 * ov1) * n2 <= 302231454903657293676544 * 8796093022208 && (ov1 * ov1) * n2
            >= 0 && (ov2 * ov2) * n1 <= 302231454903657293676544 * 8796093022208 && (ov2 * ov2)
            * n1 >= 0) by (nonlinear_arith)
            requires
                0 <= ov1 * ov1 <= 302231454903657293676544,
                0 <= ov2 * ov2 <= 302231454903657293676544,
                0 <= n1 <= 8796093022208,
                0 <= n2 <= 8796093022208,
        ;
    }
    let lhs = (ov1 as u128) * (ov1 as u128) * (n2 as u128);
    let rhs = (ov2 as u128) * (ov2 as u128) * (n1 as u128);
    lhs <= rhs
}


/// The separating axis test.  Returns whether the shapes placed at the two
/// transforms collide and, if they do, the minimum translation vector for the
/// first shape, per [`sat_spec`].  For two circles the collision answer is
/// exactly the distance test: collided iff the squared centre distance is at
/// most the squared radius sum.
pub fn seperating_axis_test(
    t1: &Transform,
    c1: &CollisionShape,
    t2: &Transform,
    c2: &CollisionShape,
) -> (r: (bool, Option<Vec2>))
    requires
        t1.wf(),
        t2.wf(),
        c1@.wf(),
        c2@.wf(),
    ensures
        r.0 == sat_spec(*t1, c1@, *t2, c2@).0,
        r.1 == sat_spec(*t1, c1@, *t2, c2@).1,
        r.0 <==> r.1 is Some,
        r.1 is Some ==> in_box(r.1->0, 1152921504606846976),
        (c1@ is Circle && c2@ is Circle) ==> r.0 == (norm_sq(centre_diff(*t1, *t2)) <= (
        radius_of(c1@) + radius_of(c2@)) * (radius_of(c1@) + radius_of(c2@))),
{
    let circ1 = c1.is_circle();
    let circ2 = c2.is_circle();
    if circ1 && circ2 {
        let r1 = match c1 {
            CollisionShape::Circle(radius) => *radius,
            CollisionShape::Polygon(vs) => {
                proof {
                    assert(false);
                }
                0
            },
        };
        let r2 = match c2 {
            CollisionShape::Circle(radius) => *radius,
            CollisionShape::Polygon(vs) => {
                proof {
                    assert(false);
                }
                0
            },
        };
        let d = Vec2 { x: t1.x - t2.x, y: t1.y - t2.y };
        proof {
            assert(d == centre_diff(*t1, *t2));
        }
        let nsqd = dot_product(d, d);
        let rsum = r1 + r2;
        let rsum2 = {
            proof {
                assert(0 <= rsum * rsum <= 4294967296) by (nonlinear_arith)
                    requires
                        0 <= rsum <= 65536,
                ;
            }
            rsum * rsum
        };
        if nsqd <= rsum2 {
            let n = axis_norm(d);
            proof {
                assert(n <= rsum) by {
                    if n > rsum {
                        assert(n * n > rsum * rsum) by (nonlinear_arith)
                            requires
                                n > rsum >= 0,
                        ;
                    }
                }
            }
            let ov = rsum - n;
            let mtv = if n == 0 {
                Vec2 { x: 0, y: 0 }
            } else {
                proof {
                    assert(-137438953472 <= d.x * ov <= 137438953472 && -137438953472 <= d.y * ov
                        <= 137438953472) by (nonlinear_arith)
                        requires
                            -2097152 <= d.x <= 2097152,
                            -2097152 <= d.y <= 2097152,
                            0 <= ov <= 65536,
                    ;
                    crate::num::lemma_tdiv_bounds(d.x * ov, n as int);
                    crate::num::lemma_tdiv_bounds(d.y * ov, n as int);
                }
                Vec2 { x: mul_div_trunc(d.x, ov, n), y: mul_div_trunc(d.y, ov, n) }
            };
            proof {
                assert(mtv == circle_mtv(d, rsum - n, n as int));
            }
            (true, Some(mtv))
        } else {
            (false, None)
        }
    } else {
        let ghost gs1 = c1@;
        let ghost gs2 = c2@;
        let mut axes: Vec<Vec2> = Vec::new();
        if circ1 {
            axes.push(get_circle_polygon_axis(c1, t1, c2, t2));
            let mut more = get_axes(c2);
            axes.append(&mut more);
            proof {
                assert(axes@ =~= sat_axes(*t1, gs1, *t2, gs2));
            }
        } else if circ2 {
            axes.push(get_circle_polygon_axis(c2, t2, c1, t1));
            let mut more = get_axes(c1);
            axes.append(&mut more);
            proof {
                assert(axes@ =~= sat_axes(*t1, gs1, *t2, gs2));
            }
        } else {
            let mut m1 = get_axes(c1);
            axes.append(&mut m1);
            let mut m2 = get_axes(c2);
            axes.append(&mut m2);
            proof {
                assert(axes@ =~= sat_axes(*t1, gs1, *t2, gs2));
            }
        }
        proof {
            assert(vertices_of(gs1).len() >= 2 || gs1 is Circle);
            assert(vertices_of(gs2).len() >= 2 || gs2 is Circle);
            assert(axes@.len() >= 1);
        }
        let mut have = false;
        let mut best_ov: i64 = 0;
        let mut best_axis_v = Vec2 { x: 0, y: 0 };
        let mut best_nsq: i64 = 0;
        let mut i: usize = 0;
        proof {
            assert(axes@.skip(0) =~= axes@);
        }
        while i < axes.len()
            invariant
                i <= axes@.len(),
                axes@ == sat_axes(*t1, gs1, *t2, gs2),
                gs1 == c1@,
                gs2 == c2@,
                !(gs1 is Circle && gs2 is Circle),
                t1.wf(),
                t2.wf(),
                c1@.wf(),
                c2@.wf(),
                forall|k: int| 0 <= k < axes@.len() ==> in_box(#[trigger] axes@[k], 2097152),
                have ==> best_nsq == norm_sq(best_axis_v) && in_box(best_axis_v, 2097152) && 0
                    <= best_ov <= 549755813888 && 0 <= best_nsq <= 8796093022208,
                i >= 1 ==> have,
                sat_scan(
                    *t1,
                    gs1,
                    *t2,
                    gs2,
                    axes@.skip(i as int),
                    if have {
                        Some((best_ov as int, best_axis_v))
                    } else {
                        None
                    },
                ) == sat_scan(*t1, gs1, *t2, gs2, axes@, None),
            decreases axes@.len() - i,
        {
            let ghost acc_old: Option<(int, Vec2)> = if have {
                Some((best_ov as int, best_axis_v))
            } else {
                None
            };
            let axis = axes[i];
            proof {
                assert(axes@.skip(i as int).len() == axes@.len() - i);
                assert(axes@.skip(i as int)[0] == axes@[i as int]);
                assert(axes@.skip(i as int).drop_first() =~= axes@.skip(i + 1));
            }
            let p1 = project_shape(c1, t1, &axis);
            let p2 = project_shape(c2, t2, &axis);
            if !p1.overlaps(&p2) {
                proof {
                    assert(sep_on(*t1, gs1, *t2, gs2, axis));
                    assert(sat_scan(*t1, gs1, *t2, gs2, axes@.skip(i as int), acc_old) == None::<(
                        int,
                        Vec2,
                    )>);
                }
                return (false, None);
            }
            let ov = p1.get_overlap(&p2);
            proof {
                assert(ov == ov_on(*t1, gs1, *t2, gs2, axis));
                assert(0 <= norm_sq(axis) <= 8796093022208) by (nonlinear_arith)
                    requires
                        -2097152 <= axis.x <= 2097152,
                        -2097152 <= axis.y <= 2097152,
                ;
            }
            let nsq = dot_product(axis, axis);
            if !have {
                have = true;
                best_ov = ov;
                best_axis_v = axis;
                best_nsq = nsq;
            } else {
                if ratio_le_exec(ov, nsq, best_ov, best_nsq) {
                    best_ov = ov;
                    best_axis_v = axis;
                    best_nsq = nsq;
                }
            }
            proof {
                let acc_new: Option<(int, Vec2)> = if have {
                    Some((best_ov as int, best_axis_v))
                } else {
                    None
                };
                assert(sat_scan(*t1, gs1, *t2, gs2, axes@.skip(i as int), acc_old) == sat_scan(
                    *t1,
                    gs1,
                    *t2,
                    gs2,
                    axes@.skip(i + 1),
                    acc_new,
                ));
            }
            i = i + 1;
        }
        proof {
            assert(axes@.skip(axes@.len() as int) =~= Seq::<Vec2>::empty());
            assert(sat_scan(*t1, gs1, *t2, gs2, axes@, None) == Some((best_ov as int, best_axis_v)));
        }
        let mtv_r = if best_nsq == 0 {
            Vec2 { x: 0, y: 0 }
        } else {
            proof {
                assert(-1152921504606846976 <= best_axis_v.x * best_ov <= 1152921504606846976
                    && -1152921504606846976 <= best_axis_v.y * best_ov <= 1152921504606846976)
                    by (nonlinear_arith)
                    requires
                        -2097152 <= best_axis_v.x <= 2097152,
                        -2097152 <= best_axis_v.y <= 2097152,
                        0 <= best_ov <= 549755813888,
                ;
                crate::num::lemma_tdiv_bounds(best_axis_v.x * best_ov, best_nsq as int);
                crate::num::lemma_tdiv_bounds(best_axis_v.y * best_ov, best_nsq as int);
            }
            Vec2 {
                x: mul_div_trunc(best_axis_v.x, best_ov, best_nsq),
                y: mul_div_trunc(best_axis_v.y, best_ov, best_nsq),
            }
        };
        proof {
            assert(mtv_r == mtv_raw(best_ov as int, best_axis_v));
            if best_nsq != 0 {
                crate::num::lemma_tdiv_bounds(best_axis_v.x * best_ov, best_nsq as int);
                crate::num::lemma_tdiv_bounds(best_axis_v.y * best_ov, best_nsq as int);
            }
            assert(-1152921504606846976 <= mtv_r.x <= 1152921504606846976 && -1152921504606846976
                <= mtv_r.y <= 1152921504606846976) by (nonlinear_arith)
                requires
                    mtv_r == mtv_raw(best_ov as int, best_axis_v),
                    best_nsq == norm_sq(best_axis_v),
                    -2097152 <= best_axis_v.x <= 2097152,
                    -2097152 <= best_axis_v.y <= 2097152,
                    0 <= best_ov <= 549755813888,
                    best_nsq != 0 ==> (mtv_r.x == tdiv(best_axis_v.x * best_ov, best_nsq as int)
                        && -1152921504606846976 <= tdiv(best_axis_v.x * best_ov, best_nsq as int)
                        <= 1152921504606846976 && mtv_r.y == tdiv(
                        best_axis_v.y * best_ov,
                        best_nsq as int,
                    ) && -1152921504606846976 <= tdiv(best_axis_v.y * best_ov, best_nsq as int)
                        <= 1152921504606846976),
                    best_nsq == 0 ==> mtv_r.x == 0 && mtv_r.y == 0,
            ;
        }
        let d21 = Vec2 { x: t2.x - t1.x, y: t2.y - t1.y };
        let dd = dot_product(d21, best_axis_v);
        proof {
            assert(-9000000000000000000000000 <= (best_ov as int) * (dd as int)
                <= 9000000000000000000000000) by (nonlinear_arith)
                requires
                    0 <= best_ov <= 549755813888,
                    -8796093022208 <= dd <= 8796093022208,
            ;
        }
        let flip = (best_ov as i128) * (dd as i128) > 0;
        let mtv = if flip {
            Vec2 { x: -mtv_r.x, y: -mtv_r.y }
        } else {
            mtv_r
        };
        proof {
            assert(d21 == centre_diff(*t2, *t1));
            assert(mtv == mtv_from(*t1, *t2, best_ov as int, best_axis_v));
        }
        (true, Some(mtv))
    }
}


/// For a well-formed shape the projection interval is proper.
pub proof fn lemma_proj_ordered(s: ShapeModel, t: Transform, a: Vec2)
    requires
        s.wf(),
    ensures
        proj_min(s, t, a) <= proj_max(s, t, a),
{
    match s {
        ShapeModel::Circle { radius } => {
            assert(radius * sqrt_floor(norm_sq(a) as nat) >= 0) by (nonlinear_arith)
                requires
                    radius >= 0,
            ;
        },
        ShapeModel::Polygon { vertices } => {
            lemma_ldots_ordered(vertices, a);
        },
    }
}

/// The least local dot product is at most the greatest.
pub proof fn lemma_ldots_ordered(vs: Seq<Vec2>, a: Vec2)
    requires
        vs.len() >= 1,
    ensures
        ldots_min(vs, a) <= ldots_max(vs, a),
    decreases vs.len(),
{
    if vs.len() > 1 {
        lemma_ldots_ordered(vs.drop_last(), a);
    }
}

/// Whether an axis separates two well-formed shapes does not depend on their
/// order.
pub proof fn lemma_sep_on_symmetric(t1: Transform, s1: ShapeModel, t2: Transform, s2: ShapeModel, a: Vec2)
    requires
        s1.wf(),
        s2.wf(),
    ensures
        sep_on(t1, s1, t2, s2, a) == sep_on(t2, s2, t1, s1, a),
{
    lemma_proj_ordered(s1, t1, a);
    lemma_proj_ordered(s2, t2, a);
    lemma_proj_overlaps_symmetric(
        proj_min(s1, t1, a),
        proj_max(s1, t1, a),
        proj_min(s2, t2, a),
        proj_max(s2, t2, a),
    );
}

/// The scan returns `None` exactly when some candidate axis separates the
/// shapes, provided it starts from a tracked best or a nonempty axis list.
pub proof fn lemma_scan_none_iff(
    t1: Transform,
    s1: ShapeModel,
    t2: Transform,
    s2: ShapeModel,
    axes: Seq<Vec2>,
    acc: Option<(int, Vec2)>,
)
    requires
        acc is Some || axes.len() >= 1,
    ensures
        (sat_scan(t1, s1, t2, s2, axes, acc) is None) == (exists|k: int|
            0 <= k < axes.len() && sep_on(t1, s1, t2, s2, #[trigger] axes[k])),
    decreases axes.len(),
{
    if axes.len() == 0 {
    } else if sep_on(t1, s1, t2, s2, axes[0]) {
        assert(sep_on(t1, s1, t2, s2, axes[0int]));
    } else {
        let ov = ov_on(t1, s1, t2, s2, axes[0]);
        let acc2 = match acc {
            None => Some((ov, axes[0])),
            Some(best) => if ratio_le(ov, norm_sq(axes[0]), best.0, norm_sq(best.1)) {
                Some((ov, axes[0]))
            } else {
                acc
            },
        };
        lemma_scan_none_iff(t1, s1, t2, s2, axes.drop_first(), acc2);
        let tail = axes.drop_first();
        assert forall|k: int| 0 <= k < tail.len() implies tail[k] == axes[k + 1] by {}
        if exists|k: int| 0 <= k < tail.len() && sep_on(t1, s1, t2, s2, #[trigger] tail[k]) {
            let k = choose|k: int| 0 <= k < tail.len() && sep_on(t1, s1, t2, s2, #[trigger] tail[k]);
            assert(axes[k + 1] == tail[k]);
            assert(sep_on(t1, s1, t2, s2, axes[k + 1]));
        }
        if exists|k: int| 0 <= k < axes.len() && sep_on(t1, s1, t2, s2, #[trigger] axes[k]) {
            let k = choose|k: int| 0 <= k < axes.len() && sep_on(t1, s1, t2, s2, #[trigger] axes[k]);
            assert(k >= 1);
            assert(tail[k - 1] == axes[k]);
            assert(sep_on(t1, s1, t2, s2, tail[k - 1]));
        }
    }
}

/// Whether two well-formed shapes collide does not depend on their order:
/// `sat_spec(A, B)` and `sat_spec(B, A)` report the same collision answer.
pub proof fn lemma_sat_collided_symmetric(t1: Transform, s1: ShapeModel, t2: Transform, s2: ShapeModel)
    requires
        t1.wf(),
        t2.wf(),
        s1.wf(),
        s2.wf(),
    ensures
        sat_spec(t1, s1, t2, s2).0 == sat_spec(t2, s2, t1, s1).0,
{
    if s1 is Circle && s2 is Circle {
        let d12 = centre_diff(t1, t2);
        let d21 = centre_diff(t2, t1);
        assert(d21.x == -d12.x && d21.y == -d12.y);
        assert(norm_sq(d21) == norm_sq(d12)) by (nonlinear_arith)
            requires
                d21.x == -d12.x && d21.y == -d12.y,
        ;
    } else {
        let axes12 = sat_axes(t1, s1, t2, s2);
        let axes21 = sat_axes(t2, s2, t1, s1);
        assert(axes12.len() >= 1);
        assert(axes21.len() >= 1);
        lemma_scan_none_iff(t1, s1, t2, s2, axes12, None);
        lemma_scan_none_iff(t2, s2, t1, s1, axes21, None);
        assert forall|k: int| 0 <= k < axes12.len() implies sep_on(t1, s1, t2, s2, #[trigger] axes12[k])
            == sep_on(t2, s2, t1, s1, axes12[k]) by {
            lemma_sep_on_symmetric(t1, s1, t2, s2, axes12[k]);
        }
        assert forall|k: int| 0 <= k < axes21.len() implies sep_on(t2, s2, t1, s1, #[trigger] axes21[k])
            == sep_on(t1, s1, t2, s2, axes21[k]) by {
            lemma_sep_on_symmetric(t1, s1, t2, s2, axes21[k]);
        }
        if s1 is Circle || s2 is Circle {
            assert(axes21 =~= axes12);
        } else {
            let a1 = poly_axes(vertices_of(s1));
            let a2 = poly_axes(vertices_of(s2));
            assert(axes12 =~= a1 + a2);
            assert(axes21 =~= a2 + a1);
            if exists|k: int| 0 <= k < axes12.len() && sep_on(t1, s1, t2, s2, #[trigger] axes12[k]) {
                let k = choose|k: int|
                    0 <= k < axes12.len() && sep_on(t1, s1, t2, s2, #[trigger] axes12[k]);
                if k < a1.len() {
                    assert(axes21[a2.len() + k] == axes12[k]);
                    assert(sep_on(t2, s2, t1, s1, axes21[a2.len() + k]));
                } else {
                    assert(axes21[k - a1.len()] == axes12[k]);
                    assert(sep_on(t2, s2, t1, s1, axes21[k - a1.len()]));
                }
            }
            if exists|k: int| 0 <= k < axes21.len() && sep_on(t2, s2, t1, s1, #[trigger] axes21[k]) {
                let k = choose|k: int|
                    0 <= k < axes21.len() && sep_on(t2, s2, t1, s1, #[trigger] axes21[k]);
                if k < a2.len() {
                    assert(axes12[a1.len() + k] == axes21[k]);
                    assert(sep_on(t1, s1, t2, s2, axes12[a1.len() + k]));
                } else {
                    assert(axes12[k - a2.len()] == axes21[k]);
                    assert(sep_on(t1, s1, t2, s2, axes12[k - a2.len()]));
                }
            }
        }
    }
}

/// For two circles the test is fully symmetric: the collision answers agree
/// and the two translation vectors are exact negations of each other.
pub proof fn lemma_sat_mtv_negated_circles(t1: Transform, s1: ShapeModel, t2: Transform, s2: ShapeModel)
    requires
        t1.wf(),
        t2.wf(),
        s1.wf(),
        s2.wf(),
        s1 is Circle,
        s2 is Circle,
    ensures
        sat_spec(t1, s1, t2, s2).0 == sat_spec(t2, s2, t1, s1).0,
        sat_spec(t2, s2, t1, s1).1 == match sat_spec(t1, s1, t2, s2).1 {
            Option::None => None::<Vec2>,
            Option::Some(v) => Some(neg_v(v)),
        },
{
    lemma_sat_collided_symmetric(t1, s1, t2, s2);
    let d12 = centre_diff(t1, t2);
    let d21 = centre_diff(t2, t1);
    assert(d21.x == -d12.x && d21.y == -d12.y);
    assert(norm_sq(d21) == norm_sq(d12)) by (nonlinear_arith)
        requires
            d21.x == -d12.x && d21.y == -d12.y,
    ;
    let rsum = radius_of(s1) + radius_of(s2);
    if norm_sq(d12) <= rsum * rsum {
        let n = sqrt_floor(norm_sq(d12) as nat);
        crate::num::lemma_sqrt_floor_bounds(norm_sq(d12) as nat);
        assert(d12.x * d12.x + d12.y * d12.y >= 0) by (nonlinear_arith);
        assert(norm_sq(d12) == d12.x * d12.x + d12.y * d12.y);
        assert(n * n <= norm_sq(d12));
        assert(n <= rsum) by {
            if n > rsum {
                assert(n * n > rsum * rsum) by (nonlinear_arith)
                    requires
                        n > rsum >= 0,
                ;
            }
        }
        let ov = rsum - n;
        if n == 0 {
            assert(circle_mtv(d21, ov, n as int) == neg_v(circle_mtv(d12, ov, n as int)));
        } else {
            assert(d21.x * ov == -(d12.x * ov) && d21.y * ov == -(d12.y * ov))
                by (nonlinear_arith)
                requires
                    d21.x == -d12.x && d21.y == -d12.y,
            ;
            crate::num::lemma_tdiv_neg(d12.x * ov, n as int);
            crate::num::lemma_tdiv_neg(d12.y * ov, n as int);
            crate::num::lemma_tdiv_bounds(d12.x * ov, n as int);
            crate::num::lemma_tdiv_bounds(d12.y * ov, n as int);
            assert(-137438953472 <= d12.x * ov <= 137438953472 && -137438953472 <= d12.y * ov
                <= 137438953472) by (nonlinear_arith)
                requires
                    -2097152 <= d12.x <= 2097152,
                    -2097152 <= d12.y <= 2097152,
                    0 <= ov <= 65536,
            ;
            assert(circle_mtv(d21, ov, n as int) == neg_v(circle_mtv(d12, ov, n as int)));
        }
    }
}


/// The absolute value.
pub open spec fn iabs(x: int) -> int {
    if x < 0 {
        -x
    } else {
        x
    }
}

/// The shortest integer vector with the direction of `v`: both components
/// divided by their greatest common divisor; the zero vector stays zero.
/// This stands in for normalising to a unit vector, which integer geometry
/// cannot hold: for an axis-aligned direction the result is exactly the unit
/// vector.
pub open spec fn reduced(v: Vec2) -> Vec2 {
    if v.x == 0 && v.y == 0 {
        v
    } else {
        let g = gcd_nat(iabs(v.x as int) as nat, iabs(v.y as int) as nat) as int;
        Vec2 { x: (v.x as int / g) as i64, y: (v.y as int / g) as i64 }
    }
}

/// Divides both components of `v` by their greatest common divisor.
pub fn reduce_axis(v: Vec2) -> (r: Vec2)
    requires
        in_box(v, 1152921504606846976),
    ensures
        r == reduced(v),
{
    if v.x == 0 && v.y == 0 {
        return v;
    }
    let ax: u64 = if v.x < 0 {
        (-v.x) as u64
    } else {
        v.x as u64
    };
    let ay: u64 = if v.y < 0 {
        (-v.y) as u64
    } else {
        v.y as u64
    };
    let g = crate::num::gcd(ax, ay);
    proof {
        crate::num::lemma_gcd_divides(ax as nat, ay as nat);
    }
    let qx = ax / g;
    let qy = ay / g;
    proof {
        vstd::arithmetic::div_mod::lemma_div_nonincreasing(ax as int, g as int);
        vstd::arithmetic::div_mod::lemma_div_nonincreasing(ay as int, g as int);
        vstd::arithmetic::div_mod::lemma_fundamental_div_mod(ax as int, g as int);
        vstd::arithmetic::div_mod::lemma_fundamental_div_mod(ay as int, g as int);
        if v.x < 0 {
            assert(v.x as int == (-(qx as int)) * (g as int) + 0) by (nonlinear_arith)
                requires
                    ax as int == (g as int) * (qx as int),
                    v.x as int == -(ax as int),
            ;
            vstd::arithmetic::div_mod::lemma_fundamental_div_mod_converse(
                v.x as int,
                g as int,
                -(qx as int),
                0,
            );
        } else {
            assert(v.x as int == (qx as int) * (g as int) + 0) by (nonlinear_arith)
                requires
                    ax as int == (g as int) * (qx as int),
                    v.x as int == ax as int,
            ;
            vstd::arithmetic::div_mod::lemma_fundamental_div_mod_converse(
                v.x as int,
                g as int,
                qx as int,
                0,
            );
        }
        if v.y < 0 {
            assert(v.y as int == (-(qy as int)) * (g as int) + 0) by (nonlinear_arith)
                requires
                    ay as int == (g as int) * (qy as int),
                    v.y as int == -(ay as int),
            ;
            vstd::arithmetic::div_mod::lemma_fundamental_div_mod_converse(
                v.y as int,
                g as int,
                -(qy as int),
                0,
            );
        } else {
            assert(v.y as int == (qy as int) * (g as int) + 0) by (nonlinear_arith)
                requires
                    ay as int == (g as int) * (qy as int),
                    v.y as int == ay as int,
            ;
            vstd::arithmetic::div_mod::lemma_fundamental_div_mod_converse(
                v.y as int,
                g as int,
                qy as int,
                0,
            );
        }
    }
    let rx: i64 = if v.x < 0 {
        -(qx as i64)
    } else {
        qx as i64
    };
    let ry: i64 = if v.y < 0 {
        -(qy as i64)
    } else {
        qy as i64
    };
    Vec2 { x: rx, y: ry }
}

/// The componentwise negation of a bounded vector.
pub fn negate_vec(v: Vec2) -> (r: Vec2)
    requires
        in_box(v, 1152921504606846976),
    ensures
        r == neg_v(v),
{
    Vec2 { x: -v.x, y: -v.y }
}

} // verus!
