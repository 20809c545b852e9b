use vermarine_lib::components::Transform;
use vermarine_lib::entity::EntityId;
use vermarine_lib::physics::spatialhash::SpatialBuckets;
use vermarine_lib::physics::AABB;

#[test]
fn insert() {
    let id = EntityId::new(0, 0);

    let mut buckets = SpatialBuckets::new(10, 10);
    let aabb1 = AABB::new(0, 0, 3, 3);
    buckets.insert(id, &Transform::new(5, 5), &aabb1);

    assert_eq!(buckets.buckets[0][0], id);
    assert_eq!(buckets.buckets.len(), 1);
}

#[test]
fn resize() {
    let mut buckets = SpatialBuckets::new(10, 10);
    buckets.resize();

    assert_eq!(buckets.width, 2);
    assert_eq!(buckets.height, 2);
    assert_eq!(buckets.buckets.len(), 4);
}

#[test]
fn cross_boundary_insert() {
    let id = EntityId::new(0, 0);

    let mut buckets = SpatialBuckets::new(10, 10);
    let aabb = AABB::new(0, 0, 10, 10);
    buckets.insert(id, &Transform::new(5, 5), &aabb);

    for bucket in buckets.buckets.iter() {
        println!("{}", bucket.len());
    }
    assert_eq!(buckets.buckets[0][0], id);
    assert_eq!(buckets.buckets[2][0], id);
    assert_eq!(buckets.buckets[8][0], id);
    assert_eq!(buckets.buckets[10][0], id);
    assert_eq!(buckets.buckets.len(), 16);
}

#[test]
fn cross_boundary_remove() {
    let id = EntityId::new(0, 0);

    let mut buckets = SpatialBuckets::new(10, 10);
    let aabb = AABB::new(0, 0, 10, 10);
    buckets.insert(id, &Transform::new(5, 5), &aabb);

    assert_eq!(buckets.buckets[0][0], id);
    assert_eq!(buckets.buckets[2][0], id);
    assert_eq!(buckets.buckets[8][0], id);
    assert_eq!(buckets.buckets[10][0], id);
    assert_eq!(buckets.buckets.len(), 16);

    buckets.remove(id, &Transform::new(5, 5), &aabb);

    assert_eq!(buckets.buckets[0].len(), 0);
    assert_eq!(buckets.buckets[2].len(), 0);
    assert_eq!(buckets.buckets[8].len(), 0);
    assert_eq!(buckets.buckets[10].len(), 0);
    assert_eq!(buckets.buckets.len(), 16);
}

#[test]
fn multi_add_single_remove() {
    let id1 = EntityId::new(0, 0);
    let id2 = EntityId::new(1, 0);

    let mut buckets = SpatialBuckets::new(10, 10);

    buckets.insert(id1, &Transform::new(5, 5), &AABB::new(0, 0, 10, 10));

    buckets.insert(id2, &Transform::new(5, 5), &AABB::new(0, 0, 10, 10));

    assert_eq!(buckets.buckets[0][0], id1);
    assert_eq!(buckets.buckets[2][0], id1);
    assert_eq!(buckets.buckets[8][0], id1);
    assert_eq!(buckets.buckets[10][0], id1);

    assert_eq!(buckets.buckets[0][1], id2);
    assert_eq!(buckets.buckets[2][1], id2);
    assert_eq!(buckets.buckets[8][1], id2);
    assert_eq!(buckets.buckets[10][1], id2);

    assert_eq!(buckets.buckets.len(), 16);

    buckets.remove(id1, &Transform::new(5, 5), &AABB::new(0, 0, 10, 10));

    assert_eq!(buckets.buckets[0][0], id2);
    assert_eq!(buckets.buckets[2][0], id2);
    assert_eq!(buckets.buckets[8][0], id2);
    assert_eq!(buckets.buckets[10][0], id2);

    assert_eq!(buckets.buckets.len(), 16);
}

#[test]
fn insert_and_resize() {
    let id = EntityId::new(0, 0);

    let mut buckets = SpatialBuckets::new(10, 10);
    let aabb1 = AABB::new(0, 0, 1, 1);
    buckets.insert(id, &Transform::new(5, 5), &aabb1);

    assert_eq!(buckets.buckets[0][0], id);
    assert_eq!(buckets.buckets.len(), 1);

    buckets.resize();

    assert_eq!(buckets.buckets[0][0], id);
    let mut first = true;
    for bucket in buckets.buckets.iter() {
        if first {
            first = false;
            continue;
        }
        assert_eq!(bucket.len(), 0);
    }
    assert_eq!(buckets.buckets.len(), 4);
}

#[test]
fn oob_insert() {
    let id = EntityId::new(0, 0);

    let mut buckets = SpatialBuckets::new(10, 10);
    let aabb1 = AABB::new(0, 0, 1, 1);
    buckets.insert(id, &Transform::new(45, 45), &aabb1);

    assert_eq!(buckets.buckets[8 * buckets.width + 8][0], id);
    assert_eq!(buckets.buckets.len(), 256);
}

#[test]
fn oob_insert_remove() {
    let id = EntityId::new(0, 0);

    let mut buckets = SpatialBuckets::new(10, 10);
    let aabb1 = AABB::new(0, 0, 1, 1);
    buckets.insert(id, &Transform::new(45, 45), &aabb1);

    assert_eq!(buckets.buckets[8 * buckets.width + 8][0], id);
    assert_eq!(buckets.buckets.len(), 256);

    buckets.remove(id, &Transform::new(45, 45), &aabb1);

    assert_eq!(buckets.buckets[8 * buckets.width + 8].len(), 0);
    assert_eq!(buckets.buckets.len(), 256);
}

#[test]
fn oob_insert_remove_nearby() {
    let id = EntityId::new(0, 0);

    let mut buckets = SpatialBuckets::new(10, 10);
    let aabb1 = AABB::new(0, 0, 1, 1);
    buckets.insert(id, &Transform::new(45, 45), &aabb1);

    assert_eq!(buckets.buckets[8 * buckets.width + 8][0], id);
    assert_eq!(buckets.buckets.len(), 256);

    buckets.remove(id, &Transform::new(45, 45), &aabb1);

    assert_eq!(buckets.buckets[8 * buckets.width + 8].len(), 0);
    assert_eq!(buckets.buckets.len(), 256);

    let ids = buckets.nearby(EntityId::dead(), &Transform::new(45, 45), &aabb1);
    assert_eq!(ids.len(), 0);
}

#[test]
fn double_move_nearby() {
    let id1 = EntityId::new(0, 0);
    let id2 = EntityId::new(1, 0);

    println!("id1: {:?}, id2: {:?}", id1, id2);

    let mut buckets = SpatialBuckets::new(10, 10);
    let aabb1 = AABB::new(0, 0, 1, 1);
    let aabb2 = AABB::new(0, 0, 1, 1);
    let t1 = Transform::new(5, 5);
    let mut t2 = Transform::new(5, 5);

    buckets.insert(id1, &t1, &aabb1);
    buckets.insert(id2, &t2, &aabb2);

    buckets.remove(id2, &t2, &aabb2);

    t2.x += 20;
    t2.y += 20;

    buckets.insert(id2, &t2, &aabb2);

    let nearby = buckets.nearby(id1, &t1, &aabb1);
    assert_eq!(nearby.len(), 0);
}

// Broad-phase soundness: two bodies with overlapping world boxes each appear
// in the other's nearby result, even across cell boundaries.
#[test]
fn nearby_no_false_negative() {
    let id1 = EntityId::new(0, 0);
    let id2 = EntityId::new(1, 0);

    let mut buckets = SpatialBuckets::new(10, 10);
    let a1 = AABB::new(0, 0, 4, 4);
    let a2 = AABB::new(0, 0, 4, 4);
    let t1 = Transform::new(7, 7);
    let t2 = Transform::new(10, 10);

    buckets.insert(id1, &t1, &a1);
    buckets.insert(id2, &t2, &a2);

    let near1 = buckets.nearby(id1, &t1, &a1);
    assert_eq!(near1.len(), 1);
    assert_eq!(near1[0], id2);

    let near2 = buckets.nearby(id2, &t2, &a2);
    assert_eq!(near2.len(), 1);
    assert_eq!(near2[0], id1);
}

// Broad-phase round trip: inserting a handle and removing it with the same
// transform and box restores every bucket, including one with another tenant.
#[test]
fn insert_remove_round_trip() {
    let id1 = EntityId::new(0, 0);
    let id2 = EntityId::new(1, 0);

    let mut buckets = SpatialBuckets::new(10, 10);
    buckets.insert(id1, &Transform::new(5, 5), &AABB::new(0, 0, 3, 3));

    buckets.insert(id2, &Transform::new(5, 5), &AABB::new(0, 0, 10, 10));
    buckets.remove(id2, &Transform::new(5, 5), &AABB::new(0, 0, 10, 10));

    assert_eq!(buckets.buckets.len(), 16);
    assert_eq!(buckets.buckets[0].len(), 1);
    assert_eq!(buckets.buckets[0][0], id1);
    for (i, bucket) in buckets.buckets.iter().enumerate() {
        if i != 0 {
            assert_eq!(bucket.len(), 0);
        }
    }
}

// A zero-size box touches exactly one cell.
#[test]
fn zero_size_box_single_cell() {
    let id = EntityId::new(0, 0);
    let mut buckets = SpatialBuckets::new(10, 10);
    buckets.insert(id, &Transform::new(5, 5), &AABB::new(0, 0, 0, 0));

    assert_eq!(buckets.buckets.len(), 1);
    assert_eq!(buckets.buckets[0].len(), 1);
}

// Negative coordinates fold onto their own cells: a body on the negative side
// does not share a bucket with one at the origin.
#[test]
fn negative_coordinates_fold() {
    let id1 = EntityId::new(0, 0);
    let id2 = EntityId::new(1, 0);
    let mut buckets = SpatialBuckets::new(10, 10);
    buckets.insert(id1, &Transform::new(-15, -15), &AABB::new(0, 0, 1, 1));
    buckets.insert(id2, &Transform::new(5, 5), &AABB::new(0, 0, 1, 1));

    let near = buckets.nearby(id2, &Transform::new(5, 5), &AABB::new(0, 0, 1, 1));
    assert_eq!(near.len(), 0);

    let near = buckets.nearby(id2, &Transform::new(-15, -15), &AABB::new(0, 0, 1, 1));
    assert_eq!(near.len(), 1);
    assert_eq!(near[0], id1);
}
