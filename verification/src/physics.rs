//! Collision data types: shapes, colliders, sensors, collision records, and
//! the local-space bounding box of a body.
//!
//! All geometry is in integer world units.  Shape-local offsets (vertices,
//! radii, bounding boxes) are bounded by [`SHAPE_LIMIT`]; world positions are
//! bounded by [`POS_LIMIT`].  The bounds keep every intermediate product of
//! the collision routines inside the fixed-width integer types.

use vstd::prelude::*;
use crate::entity::EntityId;
use crate::components::Transform;

pub mod sat;
pub mod spatialhash;
pub mod world;

verus! {

/// Bound on shape-local offsets: vertex coordinates, radii, and the fields of
/// a local bounding box.
pub const SHAPE_LIMIT: i64 = 1024;

/// Bound on world-space positions.
pub const POS_LIMIT: i64 = 8192;

/// A two-dimensional vector of integer world units.
#[derive(Clone, Copy, Debug, PartialEq, Eq, Structural)]
pub struct Vec2 {
    pub x: i64,
    pub y: i64,
}

impl Vec2 {
    pub fn new(x: i64, y: i64) -> (r: Vec2)
        ensures
            r.x == x,
            r.y == y,
    {
        Vec2 { x, y }
    }
}

/// The dot product, taken over the unbounded integers.
pub open spec fn dot(a: Vec2, b: Vec2) -> int {
    a.x * b.x + a.y * b.y
}

/// The squared Euclidean length.
pub open spec fn norm_sq(a: Vec2) -> int {
    dot(a, a)
}

/// Both coordinates lie in `[-bound, bound]`.
pub open spec fn in_box(v: Vec2, bound: int) -> bool {
    -bound <= v.x <= bound && -bound <= v.y <= bound
}

/// The mathematical value of a collision shape.
pub enum ShapeModel {
    Circle { radius: int },
    Polygon { vertices: Seq<Vec2> },
}

impl ShapeModel {
    /// A circle has a nonnegative radius within the shape bound; a polygon
    /// has at least two vertices (so that it has an edge to take a normal
    /// from), each within the shape bound.
    pub open spec fn wf(self) -> bool {
        match self {
            ShapeModel::Circle { radius } => 0 <= radius <= SHAPE_LIMIT,
            ShapeModel::Polygon { vertices } => {
                &&& vertices.len() >= 2
                &&& forall|i: int| 0 <= i < vertices.len() ==> in_box(#[trigger] vertices[i], SHAPE_LIMIT as int)
            },
        }
    }
}

/// The least x coordinate among the vertices (`vs` nonempty).
pub open spec fn vxs_min_x(vs: Seq<Vec2>) -> int
    decreases vs.len(),
{
    if vs.len() <= 1 {
        vs[0].x as int
    } else {
        let m = vxs_min_x(vs.drop_last());
        if vs.last().x < m {
            vs.last().x as int
        } else {
            m
        }
    }
}

/// The greatest x coordinate among the vertices (`vs` nonempty).
pub open spec fn vxs_max_x(vs: Seq<Vec2>) -> int
    decreases vs.len(),
{
    if vs.len() <= 1 {
        vs[0].x as int
    } else {
        let m = vxs_max_x(vs.drop_last());
        if vs.last().x > m {
            vs.last().x as int
        } else {
            m
        }
    }
}

/// The least y coordinate among the vertices (`vs` nonempty).
pub open spec fn vxs_min_y(vs: Seq<Vec2>) -> int
    decreases vs.len(),
{
    if vs.len() <= 1 {
        vs[0].y as int
    } else {
        let m = vxs_min_y(vs.drop_last());
        if vs.last().y < m {
            vs.last().y as int
        } else {
            m
        }
    }
}

/// The greatest y coordinate among the vertices (`vs` nonempty).
pub open spec fn vxs_max_y(vs: Seq<Vec2>) -> int
    decreases vs.len(),
{
    if vs.len() <= 1 {
        vs[0].y as int
    } else {
        let m = vxs_max_y(vs.drop_last());
        if vs.last().y > m {
            vs.last().y as int
        } else {
            m
        }
    }
}

/// The least x coordinate covered by the shape, in shape-local space.
pub open spec fn shape_min_x(s: ShapeModel) -> int {
    match s {
        ShapeModel::Circle { radius } => -radius,
        ShapeModel::Polygon { vertices } => vxs_min_x(vertices),
    }
}

/// The greatest x coordinate covered by the shape, in shape-local space.
pub open spec fn shape_max_x(s: ShapeModel) -> int {
    match s {
        ShapeModel::Circle { radius } => radius,
        ShapeModel::Polygon { vertices } => vxs_max_x(vertices),
    }
}

/// The least y coordinate covered by the shape, in shape-local space.
pub open spec fn shape_min_y(s: ShapeModel) -> int {
    match s {
        ShapeModel::Circle { radius } => -radius,
        ShapeModel::Polygon { vertices } => vxs_min_y(vertices),
    }
}

/// The greatest y coordinate covered by the shape, in shape-local space.
pub open spec fn shape_max_y(s: ShapeModel) -> int {
    match s {
        ShapeModel::Circle { radius } => radius,
        ShapeModel::Polygon { vertices } => vxs_max_y(vertices),
    }
}

/// A collision shape: a circle around the owning transform, or a convex
/// polygon of vertex offsets local to the owning transform.
pub enum CollisionShape {
    Circle(i64),
    Polygon(Vec<Vec2>),
}

impl View for CollisionShape {
    type V = ShapeModel;

    open spec fn view(&self) -> ShapeModel {
        match self {
            CollisionShape::Circle(r) => ShapeModel::Circle { radius: *r as int },
            CollisionShape::Polygon(vs) => ShapeModel::Polygon { vertices: vs@ },
        }
    }
}

impl CollisionShape {
    pub fn is_circle(&self) -> (r: bool)
        ensures
            r == (self@ is Circle),
    {
        match self {
            CollisionShape::Circle(_) => true,
            _ => false,
        }
    }

    /// An equal shape as a fresh value.
    pub fn duplicate(&self) -> (r: CollisionShape)
        ensures
            r@ == self@,
    {
        match self {
            CollisionShape::Circle(radius) => CollisionShape::Circle(*radius),
            CollisionShape::Polygon(vs) => {
                let mut out: Vec<Vec2> = Vec::new();
                let mut i: usize = 0;
                while i < vs.len()
                    invariant
                        i <= vs.len(),
                        out@ == vs@.take(i as int),
                    decreases vs.len() - i,
                {
                    out.push(vs[i]);
                    proof {
                        assert(out@ =~= vs@.take(i + 1 as int));
                    }
                    i = i + 1;
                }
                proof {
                    assert(out@ =~= vs@);
                }
                CollisionShape::Polygon(out)
            },
        }
    }

    /// The horizontal extent of the shape: its greatest local x coordinate
    /// minus its least.
    pub fn get_width(&self) -> (r: i64)
        requires
            self@.wf(),
        ensures
            r == shape_max_x(self@) - shape_min_x(self@),
    {
        match self {
            CollisionShape::Circle(radius) => radius * 2,
            CollisionShape::Polygon(vertices) => {
                let mut leftest: i64 = vertices[0].x;
                let mut rightest: i64 = vertices[0].x;
                let mut i: usize = 1;
                proof {
                    assert(vxs_min_x(vertices@.take(1)) == vertices@[0].x);
                    assert(vxs_max_x(vertices@.take(1)) == vertices@[0].x);
                }
                while i < vertices.len()
                    invariant
                        1 <= i <= vertices@.len(),
                        self@.wf(),
                        self@ == (ShapeModel::Polygon { vertices: vertices@ }),
                        leftest == vxs_min_x(vertices@.take(i as int)),
                        rightest == vxs_max_x(vertices@.take(i as int)),
                        -SHAPE_LIMIT <= leftest <= SHAPE_LIMIT,
                        -SHAPE_LIMIT <= rightest <= SHAPE_LIMIT,
                    decreases vertices@.len() - i,
                {
                    let x = vertices[i].x;
                    proof {
                        assert(vertices@.take(i + 1 as int).drop_last() =~= vertices@.take(i as int));
                        assert(vertices@.take(i + 1 as int).last() == vertices@[i as int]);
                        assert(in_box(vertices@[i as int], SHAPE_LIMIT as int));
                    }
                    if x <= leftest {
                        leftest = x;
                    }
                    if x >= rightest {
                        rightest = x;
                    }
                    i = i + 1;
                }
                proof {
                    assert(vertices@.take(vertices@.len() as int) =~= vertices@);
                }
                rightest - leftest
            },
        }
    }
}

/// A shape with collision-category masks and the list of collisions it is
/// currently part of.  `collision_layer` says which category the collider
/// belongs to; `collides_with` is the set of categories it reacts to.
pub struct Collider {
    pub shape: CollisionShape,
    pub collision_layer: u64,
    pub collides_with: u64,
    pub overlapping: Vec<Collision>,
}

impl Collider {
    pub open spec fn wf(&self) -> bool {
        self.shape@.wf()
    }

    /// A circle collider with an empty collision list.
    pub fn circle(radius: i64, collision_layer: u64, collides_with: u64) -> (r: Collider)
        ensures
            r.shape@ == (ShapeModel::Circle { radius: radius as int }),
            r.collision_layer == collision_layer,
            r.collides_with == collides_with,
            r.overlapping@ == Seq::<Collision>::empty(),
    {
        Collider {
            shape: CollisionShape::Circle(radius),
            collides_with,
            collision_layer,
            overlapping: Vec::new(),
        }
    }

    /// An axis-aligned box collider centred on the owning transform, with
    /// the given half extents and an empty collision list.
    pub fn half_extents(width: i64, height: i64, collision_layer: u64, collides_with: u64) -> (r:
        Collider)
        requires
            -SHAPE_LIMIT <= width <= SHAPE_LIMIT,
            -SHAPE_LIMIT <= height <= SHAPE_LIMIT,
        ensures
            r.shape@ == (ShapeModel::Polygon {
                vertices: seq![
                    Vec2 { x: -width as i64, y: -height as i64 },
                    Vec2 { x: width, y: -height as i64 },
                    Vec2 { x: width, y: height },
                    Vec2 { x: -width as i64, y: height },
                ],
            }),
            r.collision_layer == collision_layer,
            r.collides_with == collides_with,
            r.overlapping@ == Seq::<Collision>::empty(),
    {
        let mut vertices: Vec<Vec2> = Vec::new();
        vertices.push(Vec2 { x: -width, y: -height });
        vertices.push(Vec2 { x: width, y: -height });
        vertices.push(Vec2 { x: width, y: height });
        vertices.push(Vec2 { x: -width, y: height });
        proof {
            assert(vertices@ =~= seq![
                Vec2 { x: -width as i64, y: -height as i64 },
                Vec2 { x: width, y: -height as i64 },
                Vec2 { x: width, y: height },
                Vec2 { x: -width as i64, y: height },
            ]);
        }
        Collider {
            shape: CollisionShape::Polygon(vertices),
            collides_with,
            collision_layer,
            overlapping: Vec::new(),
        }
    }

    /// A copy of the collider's shape and masks, with an empty collision
    /// list.
    pub fn from_collider(collider: &Collider) -> (r: Collider)
        ensures
            r.shape@ == collider.shape@,
            r.collision_layer == collider.collision_layer,
            r.collides_with == collider.collides_with,
            r.overlapping@ == Seq::<Collision>::empty(),
    {
        Collider {
            shape: collider.shape.duplicate(),
            collision_layer: collider.collision_layer,
            collides_with: collider.collides_with,
            overlapping: Vec::new(),
        }
    }
}

/// A record of one overlap: a snapshot of both sides' transform, shape and
/// masks, the opposing handle, and the collision normal.  The normal points
/// from the second body toward the first: the direction the first body would
/// move to separate, reduced to the shortest integer vector of its direction.
pub struct Collision {
    pub transform1: Transform,
    pub shape1: CollisionShape,
    pub collides_with1: u64,
    pub collision_layer1: u64,
    pub transform2: Transform,
    pub shape2: CollisionShape,
    pub collides_with2: u64,
    pub collision_layer2: u64,
    pub entity2: EntityId,
    pub normal: Vec2,
}

impl Collision {
    pub fn new(
        transform1: Transform,
        shape1: CollisionShape,
        collides_with1: u64,
        collision_layer1: u64,
        transform2: Transform,
        shape2: CollisionShape,
        collides_with2: u64,
        collision_layer2: u64,
        entity2: EntityId,
        normal: Vec2,
    ) -> (r: Collision)
        ensures
            r.transform1 == transform1,
            r.shape1@ == shape1@,
            r.collides_with1 == collides_with1,
            r.collision_layer1 == collision_layer1,
            r.transform2 == transform2,
            r.shape2@ == shape2@,
            r.collides_with2 == collides_with2,
            r.collision_layer2 == collision_layer2,
            r.entity2 == entity2,
            r.normal == normal,
    {
        Collision {
            transform1,
            shape1,
            collides_with1,
            collision_layer1,
            transform2,
            shape2,
            collides_with2,
            collision_layer2,
            entity2,
            normal,
        }
    }
}


/// The least `shape_min_x` among the colliders' shapes (`cs` nonempty).
pub open spec fn cs_min_x(cs: Seq<Collider>) -> int
    decreases cs.len(),
{
    if cs.len() <= 1 {
        shape_min_x(cs[0].shape@)
    } else {
        let m = cs_min_x(cs.drop_last());
        let v = shape_min_x(cs.last().shape@);
        if v < m {
            v
        } else {
            m
        }
    }
}

/// The greatest `shape_max_x` among the colliders' shapes (`cs` nonempty).
pub open spec fn cs_max_x(cs: Seq<Collider>) -> int
    decreases cs.len(),
{
    if cs.len() <= 1 {
        shape_max_x(cs[0].shape@)
    } else {
        let m = cs_max_x(cs.drop_last());
        let v = shape_max_x(cs.last().shape@);
        if v > m {
            v
        } else {
            m
        }
    }
}

/// The least `shape_min_y` among the colliders' shapes (`cs` nonempty).
pub open spec fn cs_min_y(cs: Seq<Collider>) -> int
    decreases cs.len(),
{
    if cs.len() <= 1 {
        shape_min_y(cs[0].shape@)
    } else {
        let m = cs_min_y(cs.drop_last());
        let v = shape_min_y(cs.last().shape@);
        if v < m {
            v
        } else {
            m
        }
    }
}

/// The greatest `shape_max_y` among the colliders' shapes (`cs` nonempty).
pub open spec fn cs_max_y(cs: Seq<Collider>) -> int
    decreases cs.len(),
{
    if cs.len() <= 1 {
        shape_max_y(cs[0].shape@)
    } else {
        let m = cs_max_y(cs.drop_last());
        let v = shape_max_y(cs.last().shape@);
        if v > m {
            v
        } else {
            m
        }
    }
}

/// The bounding box computed from a nonempty collider sequence: the offset of
/// its corner from the owning transform (never positive, so the transform
/// always lies inside the box) and its extent.
pub open spec fn aabb_matches(r: AABB, cs: Seq<Collider>) -> bool {
    &&& r.dx == if cs_min_x(cs) < 0 { cs_min_x(cs) } else { 0int }
    &&& r.dy == if cs_min_y(cs) < 0 { cs_min_y(cs) } else { 0int }
    &&& r.width == cs_max_x(cs) - cs_min_x(cs)
    &&& r.height == cs_max_y(cs) - cs_min_y(cs)
}

/// A local-space bounding box: a corner offset `(dx, dy)` from the owning
/// transform and a nonnegative extent `(width, height)`.
#[derive(Clone, Copy, Debug, PartialEq, Eq, Structural)]
pub struct AABB {
    pub dx: i64,
    pub dy: i64,
    pub width: i64,
    pub height: i64,
}

impl AABB {
    /// The corner offset is within the shape bound and never positive, and
    /// the extent is nonnegative and within twice the shape bound.
    pub open spec fn wf(&self) -> bool {
        &&& -SHAPE_LIMIT <= self.dx <= 0
        &&& -SHAPE_LIMIT <= self.dy <= 0
        &&& 0 <= self.width <= 2 * SHAPE_LIMIT
        &&& 0 <= self.height <= 2 * SHAPE_LIMIT
    }

    pub fn new(dx: i64, dy: i64, width: i64, height: i64) -> (r: AABB)
        ensures
            r == (AABB { dx, dy, width, height }),
    {
        AABB { dx, dy, width, height }
    }

    /// The bounding box of one collider's shape.
    pub fn from_collider(collider: &Collider) -> (r: AABB)
        requires
            collider.wf(),
        ensures
            aabb_matches(r, seq![*collider]),
            r.wf(),
    {
        let (xmin, xmax, ymin, ymax) = shape_bounds(&collider.shape);
        proof {
            assert(seq![*collider].len() == 1);
            assert(seq![*collider][0] == *collider);
        }
        AABB {
            dx: if xmin < 0 { xmin } else { 0 },
            dy: if ymin < 0 { ymin } else { 0 },
            width: xmax - xmin,
            height: ymax - ymin,
        }
    }

    /// The bounding box of the union of the colliders' shapes.
    pub fn from_colliders(colliders: &Vec<Collider>) -> (r: AABB)
        requires
            colliders@.len() >= 1,
            forall|i: int| 0 <= i < colliders@.len() ==> (#[trigger] colliders@[i]).wf(),
        ensures
            aabb_matches(r, colliders@),
            r.wf(),
    {
        let empty: Vec<Collider> = Vec::new();
        let n = colliders.len();
        proof {
            assert(colliders@ + empty@ =~= colliders@);
            assert(colliders@.len() == n);
        }
        aabb_of_both(colliders, &empty)
    }
}

/// The bounding box of the union of two collider lists' shapes, at least one
/// of them nonempty.
fn aabb_of_both(cs1: &Vec<Collider>, cs2: &Vec<Collider>) -> (r: AABB)
    requires
        1 <= cs1@.len() + cs2@.len() <= usize::MAX,
        forall|i: int| 0 <= i < cs1@.len() ==> (#[trigger] cs1@[i]).wf(),
        forall|i: int| 0 <= i < cs2@.len() ==> (#[trigger] cs2@[i]).wf(),
    ensures
        aabb_matches(r, cs1@ + cs2@),
        r.wf(),
{
    let ghost all = cs1@ + cs2@;
    let first = if cs1.len() >= 1 {
        &cs1[0]
    } else {
        &cs2[0]
    };
    proof {
        assert(all[0] == *first);
        assert(all.take(1).len() == 1);
        assert(all.take(1)[0] == all[0]);
    }
    let (mut xmin, mut xmax, mut ymin, mut ymax) = shape_bounds(&first.shape);
    let total = cs1.len() + cs2.len();
    let mut i: usize = 1;
    while i < total
        invariant
            1 <= i <= all.len(),
            total == all.len(),
            all == cs1@ + cs2@,
            forall|k: int| 0 <= k < all.len() ==> (#[trigger] all[k]).wf(),
            xmin == cs_min_x(all.take(i as int)),
            xmax == cs_max_x(all.take(i as int)),
            ymin == cs_min_y(all.take(i as int)),
            ymax == cs_max_y(all.take(i as int)),
            -SHAPE_LIMIT <= xmin <= xmax <= SHAPE_LIMIT,
            -SHAPE_LIMIT <= ymin <= ymax <= SHAPE_LIMIT,
        decreases all.len() - i,
    {
        let c = if i < cs1.len() {
            &cs1[i]
        } else {
            &cs2[i - cs1.len()]
        };
        proof {
            assert(all[i as int] == *c);
            assert(all.take(i + 1 as int).drop_last() =~= all.take(i as int));
            assert(all.take(i + 1 as int).last() == all[i as int]);
        }
        let (sxmin, sxmax, symin, symax) = shape_bounds(&c.shape);
        if sxmin < xmin {
            xmin = sxmin;
        }
        if sxmax > xmax {
            xmax = sxmax;
        }
        if symin < ymin {
            ymin = symin;
        }
        if symax > ymax {
            ymax = symax;
        }
        i = i + 1;
    }
    proof {
        assert(all.take(all.len() as int) =~= all);
    }
    AABB {
        dx: if xmin < 0 { xmin } else { 0 },
        dy: if ymin < 0 { ymin } else { 0 },
        width: xmax - xmin,
        height: ymax - ymin,
    }
}

/// The extreme local coordinates covered by one shape, as
/// `(xmin, xmax, ymin, ymax)`.
fn shape_bounds(shape: &CollisionShape) -> (b: (i64, i64, i64, i64))
    requires
        shape@.wf(),
    ensures
        b.0 == shape_min_x(shape@),
        b.1 == shape_max_x(shape@),
        b.2 == shape_min_y(shape@),
        b.3 == shape_max_y(shape@),
        -SHAPE_LIMIT <= b.0 <= b.1 <= SHAPE_LIMIT,
        -SHAPE_LIMIT <= b.2 <= b.3 <= SHAPE_LIMIT,
{
    match shape {
        CollisionShape::Circle(radius) => (-radius, *radius, -radius, *radius),
        CollisionShape::Polygon(vertices) => {
            let mut xmin: i64 = vertices[0].x;
            let mut xmax: i64 = vertices[0].x;
            let mut ymin: i64 = vertices[0].y;
            let mut ymax: i64 = vertices[0].y;
            let mut i: usize = 1;
            proof {
                assert(vertices@.take(1).len() == 1);
                assert(vertices@.take(1)[0] == vertices@[0]);
            }
            while i < vertices.len()
                invariant
                    1 <= i <= vertices@.len(),
                    shape@.wf(),
                    shape@ == (ShapeModel::Polygon { vertices: vertices@ }),
                    xmin == vxs_min_x(vertices@.take(i as int)),
                    xmax == vxs_max_x(vertices@.take(i as int)),
                    ymin == vxs_min_y(vertices@.take(i as int)),
                    ymax == vxs_max_y(vertices@.take(i as int)),
                    -SHAPE_LIMIT <= xmin <= xmax <= SHAPE_LIMIT,
                    -SHAPE_LIMIT <= ymin <= ymax <= SHAPE_LIMIT,
                decreases vertices@.len() - i,
            {
                proof {
                    assert(vertices@.take(i + 1 as int).drop_last() =~= vertices@.take(i as int));
                    assert(vertices@.take(i + 1 as int).last() == vertices@[i as int]);
                    assert(in_box(vertices@[i as int], SHAPE_LIMIT as int));
                }
                let v = vertices[i];
                if v.x < xmin {
                    xmin = v.x;
                }
                if v.x > xmax {
                    xmax = v.x;
                }
                if v.y < ymin {
                    ymin = v.y;
                }
                if v.y > ymax {
                    ymax = v.y;
                }
                i = i + 1;
            }
            proof {
                assert(vertices@.take(vertices@.len() as int) =~= vertices@);
            }
            (xmin, xmax, ymin, ymax)
        },
    }
}


/// `b` is `a` with every record about `e` dropped from its collision list,
/// and with its shape and masks unchanged.
pub open spec fn collider_purged(a: Collider, b: Collider, e: EntityId) -> bool {
    &&& b.shape@ == a.shape@
    &&& b.collision_layer == a.collision_layer
    &&& b.collides_with == a.collides_with
    &&& b.overlapping@ == a.overlapping@.filter(|c: Collision| c.entity2 != e)
}

/// `b` is `a` with an empty collision list and its shape and masks unchanged.
pub open spec fn collider_cleared(a: Collider, b: Collider) -> bool {
    &&& b.shape@ == a.shape@
    &&& b.collision_layer == a.collision_layer
    &&& b.collides_with == a.collides_with
    &&& b.overlapping@ == Seq::<Collision>::empty()
}

/// Filtering distributes over appending one element.
pub proof fn lemma_filter_push<A>(s: Seq<A>, x: A, pred: spec_fn(A) -> bool)
    ensures
        s.push(x).filter(pred) == if pred(x) {
            s.filter(pred).push(x)
        } else {
            s.filter(pred)
        },
{
    reveal(Seq::filter);
    assert(s.push(x).drop_last() =~= s);
    assert(s.push(x).last() == x);
}

/// Removes from `v` every record whose opposing handle is `entity`, keeping
/// the order of the rest.
fn remove_collisions_of(v: &mut Vec<Collision>, entity: EntityId)
    ensures
        final(v)@ == old(v)@.filter(|c: Collision| c.entity2 != entity),
{
    let ghost pred = |c: Collision| c.entity2 != entity;
    let mut i: usize = 0;
    let ghost mut k: int = 0;
    proof {
        assert(old(v)@.take(0).filter(pred) =~= Seq::<Collision>::empty());
        assert(v@ =~= old(v)@.take(0).filter(pred) + old(v)@.skip(0));
    }
    while i < v.len()
        invariant
            0 <= k <= old(v)@.len(),
            v@ == old(v)@.take(k).filter(pred) + old(v)@.skip(k),
            i == old(v)@.take(k).filter(pred).len(),
            pred == (|c: Collision| c.entity2 != entity),
        decreases old(v)@.len() - k,
    {
        proof {
            assert(v@.len() == i + old(v)@.skip(k).len());
            assert(v@[i as int] == old(v)@.skip(k)[0]);
            assert(old(v)@.skip(k)[0] == old(v)@[k]);
            assert(old(v)@.take(k + 1).drop_last() =~= old(v)@.take(k));
            assert(old(v)@.take(k + 1) =~= old(v)@.take(k).push(old(v)@[k]));
            lemma_filter_push(old(v)@.take(k), old(v)@[k], pred);
        }
        if v[i].entity2 == entity {
            v.remove(i);
            proof {
                assert(v@ =~= old(v)@.take(k + 1).filter(pred) + old(v)@.skip(k + 1));
            }
        } else {
            i = i + 1;
            proof {
                assert(v@ =~= old(v)@.take(k + 1).filter(pred) + old(v)@.skip(k + 1));
            }
        }
        proof {
            k = k + 1;
        }
    }
    proof {
        assert(old(v)@.skip(k).len() == 0);
        assert(k == old(v)@.len());
        assert(old(v)@.take(k) =~= old(v)@);
    }
}

/// The body of one entity: its solid colliders, its sensors (overlap-only,
/// never resolved), and a bounding box covering all their shapes, computed
/// once at construction and kept as built.
pub struct CollisionBody {
    pub colliders: Vec<Collider>,
    pub sensors: Vec<Collider>,
    /// Computed once at construction; never recomputed when the shape lists
    /// are mutated afterwards.
    pub aabb: AABB,
}

impl CollisionBody {
    pub open spec fn wf(&self) -> bool {
        &&& forall|i: int| 0 <= i < self.colliders@.len() ==> (#[trigger] self.colliders@[i]).wf()
        &&& forall|i: int| 0 <= i < self.sensors@.len() ==> (#[trigger] self.sensors@[i]).wf()
        &&& self.aabb.wf()
    }

    /// A body with no colliders, no sensors, and a zero bounding box.
    pub fn new() -> (r: CollisionBody)
        ensures
            r.colliders@ == Seq::<Collider>::empty(),
            r.sensors@ == Seq::<Collider>::empty(),
            r.aabb == (AABB { dx: 0, dy: 0, width: 0, height: 0 }),
    {
        CollisionBody {
            colliders: Vec::new(),
            sensors: Vec::new(),
            aabb: AABB { dx: 0, dy: 0, width: 0, height: 0 },
        }
    }

    /// A body with the one solid collider and no sensors.
    pub fn from_collider(collider: Collider) -> (r: CollisionBody)
        requires
            collider.wf(),
        ensures
            r.colliders@ =~= seq![collider],
            r.sensors@ == Seq::<Collider>::empty(),
            aabb_matches(r.aabb, seq![collider]),
            r.wf(),
    {
        let aabb = AABB::from_collider(&collider);
        let mut colliders: Vec<Collider> = Vec::new();
        colliders.push(collider);
        CollisionBody { colliders, sensors: Vec::new(), aabb }
    }

    /// A body with the given solid colliders and no sensors.
    pub fn from_colliders(colliders: Vec<Collider>) -> (r: CollisionBody)
        requires
            colliders@.len() >= 1,
            forall|i: int| 0 <= i < colliders@.len() ==> (#[trigger] colliders@[i]).wf(),
        ensures
            r.colliders@ == colliders@,
            r.sensors@ == Seq::<Collider>::empty(),
            aabb_matches(r.aabb, colliders@),
            r.wf(),
    {
        let aabb = AABB::from_colliders(&colliders);
        CollisionBody { colliders, sensors: Vec::new(), aabb }
    }

    /// A body with the one sensor and no solid colliders.
    pub fn from_sensor(sensor: Collider) -> (r: CollisionBody)
        requires
            sensor.wf(),
        ensures
            r.colliders@ == Seq::<Collider>::empty(),
            r.sensors@ =~= seq![sensor],
            aabb_matches(r.aabb, seq![sensor]),
            r.wf(),
    {
        let aabb = AABB::from_collider(&sensor);
        let mut sensors: Vec<Collider> = Vec::new();
        sensors.push(sensor);
        CollisionBody { colliders: Vec::new(), sensors, aabb }
    }

    /// A body with the given sensors and no solid colliders.
    pub fn from_sensors(sensors: Vec<Collider>) -> (r: CollisionBody)
        requires
            sensors@.len() >= 1,
            forall|i: int| 0 <= i < sensors@.len() ==> (#[trigger] sensors@[i]).wf(),
        ensures
            r.colliders@ == Seq::<Collider>::empty(),
            r.sensors@ == sensors@,
            aabb_matches(r.aabb, sensors@),
            r.wf(),
    {
        let aabb = AABB::from_colliders(&sensors);
        CollisionBody { colliders: Vec::new(), sensors, aabb }
    }

    /// A body with the given solid colliders and sensors; the bounding box
    /// covers the shapes of both lists.
    pub fn from_parts(colliders: Vec<Collider>, sensors: Vec<Collider>) -> (r: CollisionBody)
        requires
            1 <= colliders@.len() + sensors@.len() <= usize::MAX,
            forall|i: int| 0 <= i < colliders@.len() ==> (#[trigger] colliders@[i]).wf(),
            forall|i: int| 0 <= i < sensors@.len() ==> (#[trigger] sensors@[i]).wf(),
        ensures
            r.colliders@ == colliders@,
            r.sensors@ == sensors@,
            aabb_matches(r.aabb, colliders@ + sensors@),
            r.wf(),
    {
        let aabb = aabb_of_both(&colliders, &sensors);
        CollisionBody { colliders, sensors, aabb }
    }

    /// A fresh body with copies of the given body's colliders and sensors,
    /// each with an empty collision list, and a bounding box computed to
    /// cover the union of the copied shapes (the zero box when the body has
    /// no shapes at all).
    pub fn from_body(body: &CollisionBody) -> (r: CollisionBody)
        requires
            forall|i: int| 0 <= i < body.colliders@.len() ==> (#[trigger] body.colliders@[i]).wf(),
            forall|i: int| 0 <= i < body.sensors@.len() ==> (#[trigger] body.sensors@[i]).wf(),
            body.colliders@.len() + body.sensors@.len() <= usize::MAX,
        ensures
            r.colliders@.len() == body.colliders@.len(),
            r.sensors@.len() == body.sensors@.len(),
            forall|i: int| 0 <= i < r.colliders@.len() ==> collider_cleared(
                body.colliders@[i],
                #[trigger] r.colliders@[i],
            ),
            forall|i: int| 0 <= i < r.sensors@.len() ==> collider_cleared(
                body.sensors@[i],
                #[trigger] r.sensors@[i],
            ),
            body.colliders@.len() + body.sensors@.len() >= 1 ==> aabb_matches(
                r.aabb,
                r.colliders@ + r.sensors@,
            ),
            body.colliders@.len() + body.sensors@.len() == 0 ==> r.aabb == (AABB {
                dx: 0,
                dy: 0,
                width: 0,
                height: 0,
            }),
            r.wf(),
    {
        let mut new_body = CollisionBody::new();
        let mut i: usize = 0;
        while i < body.colliders.len()
            invariant
                i <= body.colliders@.len(),
                new_body.colliders@.len() == i,
                new_body.sensors@.len() == 0,
                forall|k: int| 0 <= k < i ==> collider_cleared(
                    body.colliders@[k],
                    #[trigger] new_body.colliders@[k],
                ),
                new_body.aabb == (AABB { dx: 0, dy: 0, width: 0, height: 0 }),
            decreases body.colliders@.len() - i,
        {
            new_body.colliders.push(Collider::from_collider(&body.colliders[i]));
            i = i + 1;
        }
        let mut i: usize = 0;
        while i < body.sensors.len()
            invariant
                i <= body.sensors@.len(),
                new_body.colliders@.len() == body.colliders@.len(),
                new_body.sensors@.len() == i,
                forall|k: int| 0 <= k < new_body.colliders@.len() ==> collider_cleared(
                    body.colliders@[k],
                    #[trigger] new_body.colliders@[k],
                ),
                forall|k: int| 0 <= k < i ==> collider_cleared(
                    body.sensors@[k],
                    #[trigger] new_body.sensors@[k],
                ),
                new_body.aabb == (AABB { dx: 0, dy: 0, width: 0, height: 0 }),
            decreases body.sensors@.len() - i,
        {
            new_body.sensors.push(Collider::from_collider(&body.sensors[i]));
            i = i + 1;
        }
        proof {
            assert forall|k: int| 0 <= k < new_body.colliders@.len() implies (
            #[trigger] new_body.colliders@[k]).wf() by {
                assert(collider_cleared(body.colliders@[k], new_body.colliders@[k]));
            }
            assert forall|k: int| 0 <= k < new_body.sensors@.len() implies (
            #[trigger] new_body.sensors@[k]).wf() by {
                assert(collider_cleared(body.sensors@[k], new_body.sensors@[k]));
            }
        }
        if new_body.colliders.len() + new_body.sensors.len() >= 1 {
            new_body.aabb = aabb_of_both(&new_body.colliders, &new_body.sensors);
        }
        new_body
    }

    /// Drops from every collider and sensor of this body each record whose
    /// opposing handle is `entity`.
    pub(crate) fn remove_collision(&mut self, entity: EntityId)
        ensures
            final(self).colliders@.len() == old(self).colliders@.len(),
            final(self).sensors@.len() == old(self).sensors@.len(),
            forall|i: int| 0 <= i < old(self).colliders@.len() ==> collider_purged(
                old(self).colliders@[i],
                #[trigger] final(self).colliders@[i],
                entity,
            ),
            forall|i: int| 0 <= i < old(self).sensors@.len() ==> collider_purged(
                old(self).sensors@[i],
                #[trigger] final(self).sensors@[i],
                entity,
            ),
            final(self).aabb == old(self).aabb,
    {
        let mut i: usize = 0;
        while i < self.colliders.len()
            invariant
                i <= self.colliders@.len(),
                self.colliders@.len() == old(self).colliders@.len(),
                self.sensors@ == old(self).sensors@,
                self.aabb == old(self).aabb,
                forall|k: int| 0 <= k < i ==> collider_purged(
                    old(self).colliders@[k],
                    #[trigger] self.colliders@[k],
                    entity,
                ),
                forall|k: int| i <= k < self.colliders@.len()
                    ==> #[trigger] self.colliders@[k] == old(self).colliders@[k],
            decreases self.colliders@.len() - i,
        {
            let c = &mut self.colliders[i];
            remove_collisions_of(&mut c.overlapping, entity);
            i = i + 1;
        }
        let mut i: usize = 0;
        while i < self.sensors.len()
            invariant
                i <= self.sensors@.len(),
                self.colliders@.len() == old(self).colliders@.len(),
                self.sensors@.len() == old(self).sensors@.len(),
                self.aabb == old(self).aabb,
                forall|k: int| 0 <= k < old(self).colliders@.len() ==> collider_purged(
                    old(self).colliders@[k],
                    #[trigger] self.colliders@[k],
                    entity,
                ),
                forall|k: int| 0 <= k < i ==> collider_purged(
                    old(self).sensors@[k],
                    #[trigger] self.sensors@[k],
                    entity,
                ),
                forall|k: int| i <= k < self.sensors@.len()
                    ==> #[trigger] self.sensors@[k] == old(self).sensors@[k],
            decreases self.sensors@.len() - i,
        {
            let c = &mut self.sensors[i];
            remove_collisions_of(&mut c.overlapping, entity);
            i = i + 1;
        }
    }

    /// Empties the collision list of every collider and sensor of this body.
    pub(crate) fn remove_all_collisions(&mut self)
        ensures
            final(self).colliders@.len() == old(self).colliders@.len(),
            final(self).sensors@.len() == old(self).sensors@.len(),
            forall|i: int| 0 <= i < old(self).colliders@.len() ==> collider_cleared(
                old(self).colliders@[i],
                #[trigger] final(self).colliders@[i],
            ),
            forall|i: int| 0 <= i < old(self).sensors@.len() ==> collider_cleared(
                old(self).sensors@[i],
                #[trigger] final(self).sensors@[i],
            ),
            final(self).aabb == old(self).aabb,
    {
        let mut i: usize = 0;
        while i < self.colliders.len()
            invariant
                i <= self.colliders@.len(),
                self.colliders@.len() == old(self).colliders@.len(),
                self.sensors@ == old(self).sensors@,
                self.aabb == old(self).aabb,
                forall|k: int| 0 <= k < i ==> collider_cleared(
                    old(self).colliders@[k],
                    #[trigger] self.colliders@[k],
                ),
                forall|k: int| i <= k < self.colliders@.len()
                    ==> #[trigger] self.colliders@[k] == old(self).colliders@[k],
            decreases self.colliders@.len() - i,
        {
            let c = &mut self.colliders[i];
            c.overlapping.clear();
            i = i + 1;
        }
        let mut i: usize = 0;
        while i < self.sensors.len()
            invariant
                i <= self.sensors@.len(),
                self.colliders@.len() == old(self).colliders@.len(),
                self.sensors@.len() == old(self).sensors@.len(),
                self.aabb == old(self).aabb,
                forall|k: int| 0 <= k < old(self).colliders@.len() ==> collider_cleared(
                    old(self).colliders@[k],
                    #[trigger] self.colliders@[k],
                ),
                forall|k: int| 0 <= k < i ==> collider_cleared(
                    old(self).sensors@[k],
                    #[trigger] self.sensors@[k],
                ),
                forall|k: int| i <= k < self.sensors@.len()
                    ==> #[trigger] self.sensors@[k] == old(self).sensors@[k],
            decreases self.sensors@.len() - i,
        {
            let c = &mut self.sensors[i];
            c.overlapping.clear();
            i = i + 1;
        }
    }
}

impl Default for CollisionBody {
    /// Same as `CollisionBody::new`.
    fn default() -> (r: CollisionBody)
        ensures
            r.colliders@ == Seq::<Collider>::empty(),
            r.sensors@ == Seq::<Collider>::empty(),
            r.aabb == (AABB { dx: 0, dy: 0, width: 0, height: 0 }),
    {
        CollisionBody::new()
    }
}


/// Filtering is idempotent: filtering an already-filtered sequence changes
/// nothing.
pub proof fn lemma_filter_idempotent(s: Seq<Collision>, e: EntityId)
    ensures
        s.filter(|c: Collision| c.entity2 != e).filter(|c: Collision| c.entity2 != e) == s.filter(
            |c: Collision| c.entity2 != e,
        ),
    decreases s.len(),
{
    reveal(Seq::filter);
    let pred = |c: Collision| c.entity2 != e;
    if s.len() > 0 {
        lemma_filter_idempotent(s.drop_last(), e);
        if pred(s.last()) {
            assert(s.filter(pred) =~= s.drop_last().filter(pred).push(s.last()));
            lemma_filter_push(s.drop_last().filter(pred), s.last(), pred);
        } else {
            assert(s.filter(pred) =~= s.drop_last().filter(pred));
        }
    }
}

} // verus!
