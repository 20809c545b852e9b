use vermarine_lib::components::Transform;
use vermarine_lib::entity::EntityId;
use vermarine_lib::physics::world::PhysicsWorld;
use vermarine_lib::physics::sat::{seperating_axis_test, Projection};
use vermarine_lib::physics::{Collider, CollisionBody, CollisionShape, Vec2, AABB};

#[test]
fn bug_reproduction() {
    let mut physics_world = PhysicsWorld::new(50, 50);

    // Setup
    let e1 = EntityId::new(0, 0);
    physics_world.create_body(
        e1,
        Transform::new(10, 10),
        CollisionBody::from_collider(Collider::half_extents(2, 2, 1, 2)),
    );

    let e2 = EntityId::new(1, 0);
    physics_world.create_body(
        e2,
        Transform::new(0, 0),
        CollisionBody::from_collider(Collider::half_extents(2, 2, 2, 1)),
    );

    // Move e2 into e1
    physics_world.move_body(e2, Vec2::new(10, 10));

    assert_eq!(physics_world.collider(e2).colliders[0].overlapping.len(), 1);
    assert_eq!(physics_world.collider(e2).colliders[0].overlapping[0].entity2, e1);

    assert_eq!(physics_world.collider(e1).colliders[0].overlapping.len(), 1);
    assert_eq!(physics_world.collider(e1).colliders[0].overlapping[0].entity2, e2);

    // Kill entity
    let mut to_kill = None;
    {
        let collision_body = physics_world.collider(e1);

        assert_eq!(collision_body.colliders[0].overlapping.len(), 1);

        for collision in collision_body.colliders[0].overlapping.iter() {
            to_kill = Some(collision.entity2);
        }
    }

    let deleted = vec![to_kill.unwrap()];
    physics_world.sync(&Vec::new(), &deleted);

    let collision_body = physics_world.collider(e1);
    assert_eq!(collision_body.colliders[0].overlapping.len(), 0);

    // Move alive entity
    physics_world.move_body(e1, Vec2::new(-10, -10));
    assert_eq!(physics_world.collider(e1).colliders[0].overlapping.len(), 0);
}

#[test]
fn bug_two() {
    let mut physics_world = PhysicsWorld::new(50, 50);

    // Setup
    let e1 = EntityId::new(0, 0);
    physics_world.create_body(
        e1,
        Transform::new(10, 10),
        CollisionBody::from_sensor(Collider::half_extents(2, 2, 1, 2)),
    );

    // A hundred entities exist between the two bodies, so the second body's
    // handle has a high sparse index.
    let e2 = EntityId::new(101, 0);
    physics_world.create_body(
        e2,
        Transform::new(0, 0),
        CollisionBody::from_collider(Collider::half_extents(2, 2, 2, 1)),
    );

    println!("E1: {:?}\nE2: {:?}\n", e1, e2);

    // Move e2 into e1
    physics_world.move_body(e2, Vec2::new(10, 10));

    assert_eq!(physics_world.collider(e2).colliders[0].overlapping.len(), 0);

    assert_eq!(physics_world.collider(e1).sensors[0].overlapping.len(), 1);
    assert_eq!(physics_world.collider(e1).sensors[0].overlapping[0].entity2, e2);

    // Kill entity
    let mut to_kill = None;
    {
        let collision_body = physics_world.collider(e1);

        assert_eq!(collision_body.sensors[0].overlapping.len(), 1);

        for collision in collision_body.sensors[0].overlapping.iter() {
            to_kill = Some(collision.entity2);
        }
    }

    let deleted = vec![to_kill.unwrap()];
    physics_world.sync(&Vec::new(), &deleted);

    let collision_body = physics_world.collider(e1);
    assert_eq!(collision_body.sensors[0].overlapping.len(), 0);

    // Move alive entity
    physics_world.move_body(e1, Vec2::new(-10, -10));
    assert_eq!(physics_world.collider(e1).sensors[0].overlapping.len(), 0);
}

// Scenario: one-sided resolution.  body1 at (10,10), half extents 2 by 2,
// layer 1, mask 2; body2 at (0,0), half extents 2 by 2, layer 2, mask 1.
// Moving body2 by (10,10) with resolution gives exactly one record on each
// side; deleting body2 and syncing leaves body1 empty; moving body1 by
// (-10,-10) finds no stale match.
#[test]
fn resolution_scenario() {
    let mut world = PhysicsWorld::new(50, 50);

    let e1 = EntityId::new(0, 0);
    world.create_body(
        e1,
        Transform::new(10, 10),
        CollisionBody::from_collider(Collider::half_extents(2, 2, 1, 2)),
    );

    let e2 = EntityId::new(1, 0);
    world.create_body(
        e2,
        Transform::new(0, 0),
        CollisionBody::from_collider(Collider::half_extents(2, 2, 2, 1)),
    );

    let collisions = world.move_body_and_collide(e2, Vec2::new(10, 10));
    assert_eq!(collisions.len(), 1);
    assert_eq!(collisions[0].entity2, e1);

    // The mover was pushed out of the other body.
    let t2 = world.transform(e2);
    assert!(t2.x != 10 || t2.y != 10);

    assert_eq!(world.collider(e2).colliders[0].overlapping.len(), 1);
    assert_eq!(world.collider(e2).colliders[0].overlapping[0].entity2, e1);
    assert_eq!(world.collider(e1).colliders[0].overlapping.len(), 1);
    assert_eq!(world.collider(e1).colliders[0].overlapping[0].entity2, e2);

    let deleted = vec![e2];
    world.sync(&Vec::new(), &deleted);
    assert_eq!(world.collider(e1).colliders[0].overlapping.len(), 0);

    world.move_body(e1, Vec2::new(-10, -10));
    assert_eq!(world.collider(e1).colliders[0].overlapping.len(), 0);
}

// Scenario: a sensor never populates the other side.  A sensor on body1
// (layer 1, mask 2) and a solid collider on body2 (layer 2, mask 1) move into
// overlap: body2's collider list stays empty, body1's sensor records exactly
// one entry referencing body2.
#[test]
fn sensor_scenario() {
    let mut world = PhysicsWorld::new(50, 50);

    let e1 = EntityId::new(0, 0);
    world.create_body(
        e1,
        Transform::new(10, 10),
        CollisionBody::from_sensor(Collider::half_extents(2, 2, 1, 2)),
    );

    let e2 = EntityId::new(1, 0);
    world.create_body(
        e2,
        Transform::new(0, 0),
        CollisionBody::from_collider(Collider::half_extents(2, 2, 2, 1)),
    );

    let collisions = world.move_body_and_collide(e2, Vec2::new(10, 10));
    assert_eq!(collisions.len(), 0);

    assert_eq!(world.collider(e2).colliders[0].overlapping.len(), 0);
    assert_eq!(world.collider(e1).sensors[0].overlapping.len(), 1);
    assert_eq!(world.collider(e1).sensors[0].overlapping[0].entity2, e2);
}

// One-sided resolution never duplicates records: each reacting pair that
// still overlaps when it is tested contributes exactly one record.  The
// mover's first collider is pushed out, and its taller second collider still
// overlaps afterwards, so exactly two records come back.
#[test]
fn no_duplicate_records() {
    let mut world = PhysicsWorld::new(50, 50);

    let e1 = EntityId::new(0, 0);
    world.create_body(
        e1,
        Transform::new(10, 10),
        CollisionBody::from_collider(Collider::half_extents(2, 2, 1, 2)),
    );

    let e2 = EntityId::new(1, 0);
    let colliders = vec![
        Collider::half_extents(2, 2, 2, 1),
        Collider::half_extents(2, 6, 2, 1),
    ];
    world.create_body(e2, Transform::new(0, 0), CollisionBody::from_colliders(colliders));

    let collisions = world.move_body_and_collide(e2, Vec2::new(10, 10));
    assert_eq!(collisions.len(), 2);
    assert_eq!(collisions[0].entity2, e1);
    assert_eq!(collisions[1].entity2, e1);
}

// Mask asymmetry: a collider with `collides_with == 0` never accumulates
// records, and a collider with `collision_layer == 0` never appears as the
// other side of a match.
#[test]
fn mask_asymmetry() {
    let mut world = PhysicsWorld::new(50, 50);

    // body1 reacts to nothing (mask 0) but sits on layer 1.
    let e1 = EntityId::new(0, 0);
    world.create_body(
        e1,
        Transform::new(10, 10),
        CollisionBody::from_collider(Collider::half_extents(2, 2, 1, 0)),
    );

    // body2 sits on layer 0 and reacts to layer 1.
    let e2 = EntityId::new(1, 0);
    world.create_body(
        e2,
        Transform::new(0, 0),
        CollisionBody::from_collider(Collider::half_extents(2, 2, 0, 1)),
    );

    world.move_body(e2, Vec2::new(10, 10));

    // body1 collects nothing: its mask is zero.
    assert_eq!(world.collider(e1).colliders[0].overlapping.len(), 0);
    // body2 records body1 (mask 1 matches layer 1), and no record anywhere
    // names a collider of layer zero as its other side.
    assert_eq!(world.collider(e2).colliders[0].overlapping.len(), 1);
    assert_eq!(world.collider(e2).colliders[0].overlapping[0].entity2, e1);
    assert_eq!(world.collider(e2).colliders[0].overlapping[0].collision_layer2, 1);
}

// A stale registration (an older generation at an occupied index) is ignored,
// and a newer generation replaces the occupant.
#[test]
fn generations() {
    let mut world = PhysicsWorld::new(50, 50);

    let old_gen = EntityId::new(0, 1);
    world.create_body(
        old_gen,
        Transform::new(5, 5),
        CollisionBody::from_collider(Collider::half_extents(2, 2, 1, 1)),
    );

    // An older generation cannot overwrite.
    let stale = EntityId::new(0, 0);
    world.create_body(
        stale,
        Transform::new(7, 7),
        CollisionBody::from_collider(Collider::half_extents(2, 2, 1, 1)),
    );
    assert_eq!(world.transform(old_gen).x, 5);

    // A newer generation replaces the occupant.
    let newer = EntityId::new(0, 2);
    world.create_body(
        newer,
        Transform::new(9, 9),
        CollisionBody::from_collider(Collider::half_extents(2, 2, 1, 1)),
    );
    assert_eq!(world.transform(newer).x, 9);

    // Removing under a stale generation is a no-op.
    let removed = vec![EntityId::new(0, 1)];
    world.sync(&removed, &Vec::new());
    assert_eq!(world.transform(newer).y, 9);
}

// The circle fast path: two circles collide exactly when the squared centre
// distance is at most the squared radius sum.
#[test]
fn circle_fast_path() {
    let c1 = CollisionShape::Circle(3);
    let c2 = CollisionShape::Circle(2);

    // dist^2 = 25 == (3+2)^2: touching counts as a collision.
    let r = seperating_axis_test(&Transform::new(0, 0), &c1, &Transform::new(3, 4), &c2);
    assert!(r.0);
    assert!(r.1.is_some());

    // dist^2 = 36 > 25: no collision.
    let r = seperating_axis_test(&Transform::new(0, 0), &c1, &Transform::new(6, 0), &c2);
    assert!(!r.0);
    assert!(r.1.is_none());

    // dist^2 = 16 < 25: overlap of depth 1 along the x axis.
    let r = seperating_axis_test(&Transform::new(4, 0), &c1, &Transform::new(0, 0), &c2);
    assert!(r.0);
    assert_eq!(r.1.unwrap(), Vec2::new(1, 0));
}

// The symmetry of the test: swapping the shapes gives the same collision
// answer, and for circles the exactly negated translation vector.
#[test]
fn sat_symmetry() {
    let c1 = CollisionShape::Circle(3);
    let c2 = CollisionShape::Circle(2);
    let ta = Transform::new(4, 0);
    let tb = Transform::new(0, 0);
    let ab = seperating_axis_test(&ta, &c1, &tb, &c2);
    let ba = seperating_axis_test(&tb, &c2, &ta, &c1);
    assert_eq!(ab.0, ba.0);
    let m1 = ab.1.unwrap();
    let m2 = ba.1.unwrap();
    assert_eq!(m1.x, -m2.x);
    assert_eq!(m1.y, -m2.y);

    // Boxes: the collision answer is symmetric.
    let b1 = Collider::half_extents(2, 2, 1, 1).shape;
    let b2 = Collider::half_extents(3, 1, 1, 1).shape;
    let t1 = Transform::new(0, 0);
    let t2 = Transform::new(4, 2);
    let r12 = seperating_axis_test(&t1, &b1, &t2, &b2);
    let r21 = seperating_axis_test(&t2, &b2, &t1, &b1);
    assert_eq!(r12.0, r21.0);
    assert!(r12.0);

    let t3 = Transform::new(6, 0);
    let r13 = seperating_axis_test(&t1, &b1, &t3, &b2);
    let r31 = seperating_axis_test(&t3, &b2, &t1, &b1);
    assert_eq!(r13.0, r31.0);
    assert!(!r13.0);
}

// Box against box: the translation vector pushes the first box out along the
// axis of least overlap.
#[test]
fn box_box_mtv() {
    let b1 = Collider::half_extents(2, 2, 1, 1).shape;
    let b2 = Collider::half_extents(2, 2, 1, 1).shape;
    // Overlap of 1 along x (boxes 4 wide at distance 3), 4 along y.
    let r = seperating_axis_test(&Transform::new(3, 0), &b1, &Transform::new(0, 0), &b2);
    assert!(r.0);
    assert_eq!(r.1.unwrap(), Vec2::new(1, 0));
}

// Circle against box.
#[test]
fn circle_box() {
    let c = CollisionShape::Circle(2);
    let b = Collider::half_extents(2, 2, 1, 1).shape;
    // Circle centre 3 to the right of the box: gap of 1 between x extents
    // 2 and centre distance 3 - 2 = 1 < radius 2: overlapping.
    let r = seperating_axis_test(&Transform::new(3, 0), &c, &Transform::new(0, 0), &b);
    assert!(r.0);

    let r = seperating_axis_test(&Transform::new(5, 0), &c, &Transform::new(0, 0), &b);
    assert!(!r.0);
}

// The width of a shape and the box of a body come straight from the extreme
// local coordinates.
#[test]
fn shape_width_and_aabb() {
    let circle = CollisionShape::Circle(5);
    assert_eq!(circle.get_width(), 10);

    let boxy = Collider::half_extents(3, 2, 1, 1);
    assert_eq!(boxy.shape.get_width(), 6);

    let aabb = AABB::from_collider(&boxy);
    assert_eq!(aabb, AABB::new(-3, -2, 6, 4));

    let both = CollisionBody::from_parts(
        vec![Collider::half_extents(3, 2, 1, 1)],
        vec![Collider::circle(5, 1, 1)],
    );
    assert_eq!(both.aabb, AABB::new(-5, -5, 10, 10));
}

// A duplicated body copies shapes and masks but starts with empty lists.
#[test]
fn from_body_copies() {
    let body = CollisionBody::from_parts(
        vec![Collider::half_extents(3, 2, 4, 8)],
        vec![Collider::circle(5, 2, 16)],
    );
    let copy = CollisionBody::from_body(&body);
    assert_eq!(copy.colliders.len(), 1);
    assert_eq!(copy.sensors.len(), 1);
    assert_eq!(copy.colliders[0].collision_layer, 4);
    assert_eq!(copy.colliders[0].collides_with, 8);
    assert_eq!(copy.sensors[0].collision_layer, 2);
    assert_eq!(copy.sensors[0].collides_with, 16);
    assert_eq!(copy.colliders[0].overlapping.len(), 0);
    assert!(copy.colliders[0].shape.is_circle() == false);
    assert!(copy.sensors[0].shape.is_circle());
    // The copy's box covers the union of the copied shapes.
    assert_eq!(copy.aabb, AABB::new(-5, -5, 10, 10));

    let circle_body = CollisionBody::from_collider(Collider::circle(5, 1, 1));
    let circle_copy = CollisionBody::from_body(&circle_body);
    assert_eq!(circle_copy.aabb, AABB::new(-5, -5, 10, 10));
}

// The overlap of two projections is the length of their intersection, also
// when one interval lies strictly inside the other.
#[test]
fn projection_overlap_amounts() {
    // Disjoint.
    assert_eq!(Projection::new(0, 2).get_overlap(&Projection::new(5, 9)), 0);
    // First inside second.
    assert_eq!(Projection::new(-1, 1).get_overlap(&Projection::new(-3, 3)), 2);
    // Second strictly inside first.
    assert_eq!(Projection::new(-3, 3).get_overlap(&Projection::new(-1, 1)), 2);
    // Interleaved.
    assert_eq!(Projection::new(0, 4).get_overlap(&Projection::new(3, 9)), 1);
    assert_eq!(Projection::new(3, 9).get_overlap(&Projection::new(0, 4)), 1);
}

// A box that strictly contains the other shape's projection on every axis
// still yields a real (nonzero) translation: the intersection length, not
// zero.
#[test]
fn nested_projection_mtv() {
    let small = Collider::half_extents(1, 1, 1, 1).shape;
    let big = Collider::half_extents(4, 4, 1, 1).shape;

    // Small box just inside the big one's right half.
    let r = seperating_axis_test(&Transform::new(1, 0), &small, &Transform::new(0, 0), &big);
    assert!(r.0);
    assert_eq!(r.1.unwrap(), Vec2::new(0, -2));

    // The same pair with the big box first: the nested projections score the
    // intersection length, so the translation is again two units, not zero.
    let r = seperating_axis_test(&Transform::new(0, 0), &big, &Transform::new(1, 0), &small);
    assert!(r.0);
    assert_eq!(r.1.unwrap(), Vec2::new(0, -2));
}

// Absolute moves place the body exactly and keep the collision records in
// step, like relative moves.
#[test]
fn absolute_moves() {
    let mut world = PhysicsWorld::new(50, 50);

    let e1 = EntityId::new(0, 0);
    world.create_body(
        e1,
        Transform::new(10, 10),
        CollisionBody::from_collider(Collider::half_extents(2, 2, 1, 2)),
    );
    let e2 = EntityId::new(1, 0);
    world.create_body(
        e2,
        Transform::new(0, 0),
        CollisionBody::from_collider(Collider::half_extents(2, 2, 2, 1)),
    );

    world.move_body_to(e2, Vec2::new(10, 10));
    assert_eq!(world.transform(e2).x, 10);
    assert_eq!(world.transform(e2).y, 10);
    assert_eq!(world.collider(e1).colliders[0].overlapping.len(), 1);
    assert_eq!(world.collider(e2).colliders[0].overlapping.len(), 1);

    world.move_body_to_x(e2, -20);
    assert_eq!(world.transform(e2).x, -20);
    assert_eq!(world.transform(e2).y, 10);
    assert_eq!(world.collider(e1).colliders[0].overlapping.len(), 0);
    assert_eq!(world.collider(e2).colliders[0].overlapping.len(), 0);

    world.move_body_to_x(e2, 10);
    world.move_body_to_y(e2, 7);
    assert_eq!(world.transform(e2).x, 10);
    assert_eq!(world.transform(e2).y, 7);
    assert_eq!(world.collider(e1).colliders[0].overlapping.len(), 1);
    assert_eq!(world.collider(e2).colliders[0].overlapping.len(), 1);
    assert_eq!(world.collider(e2).colliders[0].overlapping[0].normal, Vec2::new(0, -1));
}

// Reading accessors agree with each other.
#[test]
fn accessors() {
    let mut world = PhysicsWorld::new(50, 50);
    let e1 = EntityId::new(3, 1);
    world.create_body(
        e1,
        Transform::new(4, -6),
        CollisionBody::from_collider(Collider::circle(2, 8, 4)),
    );
    assert_eq!(world.index_from_body(e1), 0);
    let (t, b) = world.parts(e1);
    assert_eq!((t.x, t.y), (4, -6));
    assert_eq!(b.colliders[0].collision_layer, 8);
    assert_eq!(world.transform(e1).x, 4);
    assert!(world.collider(e1).colliders[0].shape.is_circle());
    let (_, bm) = world.parts_mut(e1);
    bm.colliders[0].collides_with = 2;
    assert_eq!(world.collider(e1).colliders[0].collides_with, 2);
}
