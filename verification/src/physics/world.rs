//! The physics world: a packed store of per-body data indexed through stable
//! handles, the broad-phase grid, and the movement operations that keep the
//! collision records of every body up to date.
//!
//! The dense arrays (`transforms`, `colliders`, `owners`) always have the
//! same length and no holes: a removal swaps the last body into the freed
//! slot.  The sparse array maps a handle's index to its dense slot; a handle
//! is live exactly when its index maps to a slot whose recorded owner is that
//! handle, generation included.

use vstd::prelude::*;
use crate::entity::EntityId;
use crate::components::Transform;
use crate::physics::{
    CollisionBody, Collider, Collision, Vec2, POS_LIMIT, collider_purged, collider_cleared,
};
use crate::physics::sat::{
    seperating_axis_test, sat_spec, reduce_axis, negate_vec, reduced, neg_v,
};
use crate::physics::spatialhash::{SpatialBuckets, covers, lemma_in_nearby_filtered};

verus! {

/// Every record of the collider points at a collision category the collider
/// reacts to.
pub open spec fn recs_masked(c: Collider) -> bool {
    forall|j: int|
        0 <= j < c.overlapping@.len() ==> (c.collides_with & (#[trigger] c.overlapping@[j]).collision_layer2) != 0
}

/// Every collider and sensor of the body carries only mask-matched records.
pub open spec fn body_recs_masked(b: CollisionBody) -> bool {
    &&& forall|k: int| 0 <= k < b.colliders@.len() ==> recs_masked(#[trigger] b.colliders@[k])
    &&& forall|k: int| 0 <= k < b.sensors@.len() ==> recs_masked(#[trigger] b.sensors@[k])
}

/// Every collider and sensor of the body has an empty collision list.
pub open spec fn body_recs_empty(b: CollisionBody) -> bool {
    &&& forall|k: int|
        0 <= k < b.colliders@.len() ==> (#[trigger] b.colliders@[k]).overlapping@.len() == 0
    &&& forall|k: int|
        0 <= k < b.sensors@.len() ==> (#[trigger] b.sensors@[k]).overlapping@.len() == 0
}

/// The body store with its broad-phase grid.  The fields are public for
/// reading; mutate the world only through its methods.
pub struct PhysicsWorld {
    pub transforms: Vec<Transform>,
    pub colliders: Vec<CollisionBody>,
    pub owners: Vec<EntityId>,
    pub sparse: Vec<Option<usize>>,
    pub broadphase: SpatialBuckets,
}

impl PhysicsWorld {
    /// The number of registered bodies.
    pub open spec fn body_count(&self) -> int {
        self.owners@.len() as int
    }

    /// The handle currently refers to a registered body: its index maps to a
    /// dense slot whose recorded owner is this very handle (same generation).
    pub open spec fn live(&self, id: EntityId) -> bool {
        &&& id.index < self.sparse@.len()
        &&& match self.sparse@[id.index as int] {
            Option::Some(s) => s < self.owners@.len() && self.owners@[s as int] == id,
            Option::None => false,
        }
    }

    /// The dense slot of a live handle.
    pub open spec fn slot_of(&self, id: EntityId) -> int {
        self.sparse@[id.index as int]->0 as int
    }

    /// The store invariant: the dense arrays run in lockstep, the sparse map
    /// and the owner array are mutually inverse, every stored transform and
    /// body is well-formed, every stored record is mask-matched, and the
    /// broad-phase grid is well-formed.
    pub open spec fn wf(&self) -> bool {
        &&& self.transforms@.len() == self.owners@.len()
        &&& self.colliders@.len() == self.owners@.len()
        &&& forall|s: int|
            0 <= s < self.owners@.len() ==> (#[trigger] self.owners@[s]).index < self.sparse@.len()
                && self.sparse@[self.owners@[s].index as int] == Some(s as usize)
        &&& forall|i: int|
            0 <= i < self.sparse@.len() ==> match #[trigger] self.sparse@[i] {
                Option::Some(s) => s < self.owners@.len() && self.owners@[s as int].index == i,
                Option::None => true,
            }
        &&& forall|s: int| 0 <= s < self.owners@.len() ==> (#[trigger] self.transforms@[s]).wf()
        &&& forall|s: int| 0 <= s < self.owners@.len() ==> (#[trigger] self.colliders@[s]).wf()
        &&& forall|s: int|
            0 <= s < self.owners@.len() ==> body_recs_masked(#[trigger] self.colliders@[s])
        &&& self.broadphase.wf()
    }

    /// An empty world over a fresh grid with the given bucket sizes.
    pub fn new(bucket_width: i64, bucket_height: i64) -> (r: PhysicsWorld)
        requires
            bucket_width >= 1,
            bucket_height >= 1,
        ensures
            r.wf(),
            r.body_count() == 0,
            r.sparse@.len() == 0,
            r.broadphase.bucket_width == bucket_width,
            r.broadphase.bucket_height == bucket_height,
            forall|id: EntityId| !(#[trigger] r.live(id)),
            forall|cx: int, cy: int| #[trigger] r.broadphase.cell_seq(cx, cy) == Seq::<
                EntityId,
            >::empty(),
    {
        PhysicsWorld {
            transforms: Vec::new(),
            colliders: Vec::new(),
            owners: Vec::new(),
            sparse: Vec::new(),
            broadphase: SpatialBuckets::new(bucket_width, bucket_height),
        }
    }

    /// The transform of a live body.
    pub fn transform(&self, body: EntityId) -> (r: &Transform)
        requires
            self.wf(),
            self.live(body),
        ensures
            *r == self.transforms@[self.slot_of(body)],
    {
        let s = self.sparse[body.uindex()].unwrap();
        &self.transforms[s]
    }

    /// The collision body of a live body.
    pub fn collider(&self, body: EntityId) -> (r: &CollisionBody)
        requires
            self.wf(),
            self.live(body),
        ensures
            *r == self.colliders@[self.slot_of(body)],
    {
        let s = self.sparse[body.uindex()].unwrap();
        &self.colliders[s]
    }

    /// The collision body of a live body, for mutation.  Direct mutation must
    /// keep the body well-formed and its records mask-matched, or later
    /// operations lose their contracts.
    pub fn collider_mut(&mut self, body: EntityId) -> (r: &mut CollisionBody)
        requires
            old(self).wf(),
            old(self).live(body),
        ensures
            *r == old(self).colliders@[old(self).slot_of(body)],
            final(self).colliders@ == old(self).colliders@.update(
                old(self).slot_of(body),
                *final(r),
            ),
            final(self).transforms@ == old(self).transforms@,
            final(self).owners@ == old(self).owners@,
            final(self).sparse@ == old(self).sparse@,
            final(self).broadphase == old(self).broadphase,
    {
        let s = self.sparse[body.uindex()].unwrap();
        &mut self.colliders[s]
    }

    /// The dense slot a live handle currently occupies.
    pub fn index_from_body(&self, body: EntityId) -> (r: usize)
        requires
            self.wf(),
            self.live(body),
        ensures
            r == self.slot_of(body),
    {
        self.sparse[body.uindex()].unwrap()
    }

    /// The transform and collision body of a live body.
    pub fn parts(&self, body: EntityId) -> (r: (&Transform, &CollisionBody))
        requires
            self.wf(),
            self.live(body),
        ensures
            *r.0 == self.transforms@[self.slot_of(body)],
            *r.1 == self.colliders@[self.slot_of(body)],
    {
        let index = self.index_from_body(body);
        (&self.transforms[index], &self.colliders[index])
    }

    /// The transform (read-only) and collision body (mutable) of a live body.
    pub fn parts_mut(&mut self, body: EntityId) -> (r: (&Transform, &mut CollisionBody))
        requires
            old(self).wf(),
            old(self).live(body),
        ensures
            *r.0 == old(self).transforms@[old(self).slot_of(body)],
            *r.1 == old(self).colliders@[old(self).slot_of(body)],
            final(self).colliders@ == old(self).colliders@.update(
                old(self).slot_of(body),
                *final(r.1),
            ),
            final(self).transforms@ == old(self).transforms@,
            final(self).owners@ == old(self).owners@,
            final(self).sparse@ == old(self).sparse@,
            final(self).broadphase == old(self).broadphase,
    {
        let index = self.index_from_body(body);
        (&self.transforms[index], &mut self.colliders[index])
    }
}


/// `b` is `a` with every record about `e` dropped from every collider and
/// sensor (shapes, masks and bounding box unchanged).
pub open spec fn body_purged(a: CollisionBody, b: CollisionBody, e: EntityId) -> bool {
    &&& b.colliders@.len() == a.colliders@.len()
    &&& b.sensors@.len() == a.sensors@.len()
    &&& forall|k: int|
        0 <= k < a.colliders@.len() ==> collider_purged(a.colliders@[k], #[trigger] b.colliders@[k], e)
    &&& forall|k: int|
        0 <= k < a.sensors@.len() ==> collider_purged(a.sensors@[k], #[trigger] b.sensors@[k], e)
    &&& b.aabb == a.aabb
}

/// `b` is `a` with every collision list emptied (shapes, masks and bounding
/// box unchanged).
pub open spec fn body_cleared(a: CollisionBody, b: CollisionBody) -> bool {
    &&& b.colliders@.len() == a.colliders@.len()
    &&& b.sensors@.len() == a.sensors@.len()
    &&& forall|k: int|
        0 <= k < a.colliders@.len() ==> collider_cleared(a.colliders@[k], #[trigger] b.colliders@[k])
    &&& forall|k: int|
        0 <= k < a.sensors@.len() ==> collider_cleared(a.sensors@[k], #[trigger] b.sensors@[k])
    &&& b.aabb == a.aabb
}

/// `b` is `a`, or `a` purged of records about `e`, or `a` cleared; in every
/// case the shapes, masks and bounding box are those of `a` and the record
/// lists hold a subset of `a`'s records.
pub open spec fn body_purged_or_same(a: CollisionBody, b: CollisionBody, e: EntityId) -> bool {
    ||| b == a
    ||| body_purged(a, b, e)
    ||| body_cleared(a, b)
}

/// Every element of a filtered sequence is an element of the sequence it
/// was filtered from.
pub proof fn lemma_filter_subset(s: Seq<Collision>, pred: spec_fn(Collision) -> bool)
    ensures
        forall|j: int|
            0 <= j < s.filter(pred).len() ==> s.contains(#[trigger] s.filter(pred)[j]),
    decreases s.len(),
{
    reveal(Seq::filter);
    if s.len() > 0 {
        lemma_filter_subset(s.drop_last(), pred);
        assert forall|j: int|
            0 <= j < s.filter(pred).len() implies s.contains(#[trigger] s.filter(pred)[j]) by {
            let f = s.filter(pred);
            let fd = s.drop_last().filter(pred);
            if j < fd.len() {
                assert(fd[j] == f[j]);
                assert(s.drop_last().contains(fd[j]));
                let w = choose|w: int|
                    0 <= w < s.drop_last().len() && (#[trigger] s.drop_last()[w]) == fd[j];
                assert(s[w] == f[j]);
            } else {
                assert(f[j] == s.last());
                assert(s[s.len() - 1] == f[j]);
            }
        }
    }
}

/// Purging or clearing a collider keeps its records mask-matched.
pub proof fn lemma_purge_keeps_masked(a: Collider, b: Collider, e: EntityId)
    requires
        recs_masked(a),
        collider_purged(a, b, e) || collider_cleared(a, b),
    ensures
        recs_masked(b),
{
    if collider_purged(a, b, e) {
        lemma_filter_subset(a.overlapping@, |c: Collision| c.entity2 != e);
        assert forall|j: int|
            0 <= j < b.overlapping@.len() implies (b.collides_with & (#[trigger] b.overlapping@[j]).collision_layer2)
            != 0 by {
            assert(a.overlapping@.contains(b.overlapping@[j]));
            let w = choose|w: int|
                0 <= w < a.overlapping@.len() && (#[trigger] a.overlapping@[w]) == b.overlapping@[j];
        }
    }
}

/// A body whose lists were purged or cleared still carries only mask-matched
/// records and stays well-formed.
pub proof fn lemma_body_purge_keeps_wf(a: CollisionBody, b: CollisionBody, e: EntityId)
    requires
        a.wf(),
        body_recs_masked(a),
        body_purged_or_same(a, b, e),
    ensures
        b.wf(),
        body_recs_masked(b),
{
    if b == a {
    } else {
        assert forall|k: int| 0 <= k < b.colliders@.len() implies (#[trigger] b.colliders@[k]).wf()
            && recs_masked(b.colliders@[k]) by {
            lemma_purge_keeps_masked(a.colliders@[k], b.colliders@[k], e);
        }
        assert forall|k: int| 0 <= k < b.sensors@.len() implies (#[trigger] b.sensors@[k]).wf()
            && recs_masked(b.sensors@[k]) by {
            lemma_purge_keeps_masked(a.sensors@[k], b.sensors@[k], e);
        }
    }
}


/// No record anywhere on the body names `e` as its opposing handle.
pub open spec fn no_records_about(b: CollisionBody, e: EntityId) -> bool {
    &&& forall|k: int, j: int|
        0 <= k < b.colliders@.len() && 0 <= j < b.colliders@[k].overlapping@.len() ==> (
        #[trigger] b.colliders@[k].overlapping@[j]).entity2 != e
    &&& forall|k: int, j: int|
        0 <= k < b.sensors@.len() && 0 <= j < b.sensors@[k].overlapping@.len() ==> (
        #[trigger] b.sensors@[k].overlapping@[j]).entity2 != e
}

/// A body purged of records about `e`, or cleared outright, holds no record
/// about `e`.
pub proof fn lemma_purged_no_records(a: CollisionBody, b: CollisionBody, e: EntityId)
    requires
        body_purged(a, b, e) || body_cleared(a, b),
    ensures
        no_records_about(b, e),
{
    if body_purged(a, b, e) {
        assert forall|k: int, j: int|
            0 <= k < b.colliders@.len() && 0 <= j < b.colliders@[k].overlapping@.len() implies (
        #[trigger] b.colliders@[k].overlapping@[j]).entity2 != e by {
            a.colliders@[k].overlapping@.lemma_filter_pred(|c: Collision| c.entity2 != e, j);
        }
        assert forall|k: int, j: int|
            0 <= k < b.sensors@.len() && 0 <= j < b.sensors@[k].overlapping@.len() implies (
        #[trigger] b.sensors@[k].overlapping@[j]).entity2 != e by {
            a.sensors@[k].overlapping@.lemma_filter_pred(|c: Collision| c.entity2 != e, j);
        }
    }
}

impl PhysicsWorld {
    /// Clears every collision record stored on the given live body, and drops
    /// every record about it from the bodies its box is near in the broad
    /// phase.  Each body's lists end as they were, purged, or cleared; no
    /// record is added anywhere.
    pub(crate) fn remove_overlapping(&mut self, to_remove: EntityId)
        requires
            old(self).wf(),
            old(self).live(to_remove),
        ensures
            final(self).wf(),
            final(self).transforms@ == old(self).transforms@,
            final(self).owners@ == old(self).owners@,
            final(self).sparse@ == old(self).sparse@,
            final(self).broadphase.bucket_width == old(self).broadphase.bucket_width,
            final(self).broadphase.bucket_height == old(self).broadphase.bucket_height,
            forall|cx: int, cy: int| #[trigger]
                final(self).broadphase.cell_seq(cx, cy) == old(self).broadphase.cell_seq(cx, cy),
            final(self).colliders@.len() == old(self).colliders@.len(),
            forall|s: int|
                0 <= s < old(self).colliders@.len() ==> body_purged_or_same(
                    old(self).colliders@[s],
                    #[trigger] final(self).colliders@[s],
                    to_remove,
                ),
            body_cleared(
                old(self).colliders@[old(self).slot_of(to_remove)],
                final(self).colliders@[old(self).slot_of(to_remove)],
            ),
            // every live body in the removed body's broad-phase neighbourhood
            // ends with no record about it
            forall|e: EntityId|
                old(self).live(e) && old(self).broadphase.in_nearby(
                    to_remove,
                    old(self).transforms@[old(self).slot_of(to_remove)],
                    old(self).colliders@[old(self).slot_of(to_remove)].aabb,
                    e,
                ) ==> no_records_about(
                    final(self).colliders@[#[trigger] old(self).slot_of(e)],
                    to_remove,
                ),
            final(self).live(to_remove),
    {
        let slot = self.sparse[to_remove.uindex()].unwrap();
        let t = self.transforms[slot];
        let aabb = self.colliders[slot].aabb;
        let near = self.broadphase.nearby(to_remove, &t, &aabb);
        let mut i: usize = 0;
        while i < near.len()
            invariant
                old(self).wf(),
                old(self).live(to_remove),
                self.wf(),
                self.transforms@ == old(self).transforms@,
                self.owners@ == old(self).owners@,
                self.sparse@ == old(self).sparse@,
                self.broadphase.bucket_width == old(self).broadphase.bucket_width,
                self.broadphase.bucket_height == old(self).broadphase.bucket_height,
                forall|cx: int, cy: int| #[trigger]
                    self.broadphase.cell_seq(cx, cy) == old(self).broadphase.cell_seq(cx, cy),
                self.colliders@.len() == old(self).colliders@.len(),
                forall|s: int|
                    0 <= s < old(self).colliders@.len() ==> body_purged_or_same(
                        old(self).colliders@[s],
                        #[trigger] self.colliders@[s],
                        to_remove,
                    ),
                near@.no_duplicates(),
                forall|j: int|
                    0 <= j < i ==> (old(self).live(#[trigger] near@[j]) ==> body_purged(
                        old(self).colliders@[old(self).slot_of(near@[j])],
                        self.colliders@[old(self).slot_of(near@[j])],
                        to_remove,
                    ) || body_cleared(
                        old(self).colliders@[old(self).slot_of(near@[j])],
                        self.colliders@[old(self).slot_of(near@[j])],
                    )),
            decreases near@.len() - i,
        {
            let e = near[i];
            if e.uindex() < self.sparse.len() {
                if let Some(s2) = self.sparse[e.uindex()] {
                    if self.owners[s2] == e {
                        let ghost pre = self.colliders@;
                        let body = &mut self.colliders[s2];
                        body.remove_collision(to_remove);
                        proof {
                            assert(self.colliders@ =~= pre.update(
                                s2 as int,
                                self.colliders@[s2 as int],
                            ));
                            let strong2: bool = {
                                    let a = old(self).colliders@[s2 as int];
                                    let m = pre[s2 as int];
                                    let b = self.colliders@[s2 as int];
                                    if m == a {
                                        assert(body_purged(a, b, to_remove));
                                    } else if body_purged(a, m, to_remove) {
                                        assert forall|k: int|
                                            0 <= k < a.colliders@.len() implies collider_purged(
                                            a.colliders@[k],
                                            #[trigger] b.colliders@[k],
                                            to_remove,
                                        ) by {
                                            crate::physics::lemma_filter_idempotent(
                                                a.colliders@[k].overlapping@,
                                                to_remove,
                                            );
                                        }
                                        assert forall|k: int|
                                            0 <= k < a.sensors@.len() implies collider_purged(
                                            a.sensors@[k],
                                            #[trigger] b.sensors@[k],
                                            to_remove,
                                        ) by {
                                            crate::physics::lemma_filter_idempotent(
                                                a.sensors@[k].overlapping@,
                                                to_remove,
                                            );
                                        }
                                        assert(body_purged(a, b, to_remove));
                                    } else {
                                        assert(body_cleared(a, m));
                                        assert forall|k: int|
                                            0 <= k < a.colliders@.len() implies collider_cleared(
                                            a.colliders@[k],
                                            #[trigger] b.colliders@[k],
                                        ) by {
                                            assert(m.colliders@[k].overlapping@.filter(
                                                |c: Collision| c.entity2 != to_remove,
                                            ) =~= Seq::<Collision>::empty()) by {
                                                m.colliders@[k].overlapping@.lemma_filter_len(
                                                    |c: Collision| c.entity2 != to_remove,
                                                );
                                            }
                                        }
                                        assert forall|k: int|
                                            0 <= k < a.sensors@.len() implies collider_cleared(
                                            a.sensors@[k],
                                            #[trigger] b.sensors@[k],
                                        ) by {
                                            assert(m.sensors@[k].overlapping@.filter(
                                                |c: Collision| c.entity2 != to_remove,
                                            ) =~= Seq::<Collision>::empty()) by {
                                                m.sensors@[k].overlapping@.lemma_filter_len(
                                                    |c: Collision| c.entity2 != to_remove,
                                                );
                                            }
                                        }
                                        assert(body_cleared(a, b));
                                    }
                                    body_purged(a, b, to_remove) || body_cleared(a, b)
                            };
                            assert(strong2);
                            assert forall|s: int|
                                0 <= s < old(self).colliders@.len() implies body_purged_or_same(
                                old(self).colliders@[s],
                                #[trigger] self.colliders@[s],
                                to_remove,
                            ) by {}
                            assert forall|s: int|
                                0 <= s < self.colliders@.len() implies (#[trigger] self.colliders@[s]).wf()
                                && body_recs_masked(self.colliders@[s]) by {
                                lemma_body_purge_keeps_wf(
                                    old(self).colliders@[s],
                                    self.colliders@[s],
                                    to_remove,
                                );
                            }
                            assert forall|j: int|
                                0 <= j < i + 1 implies (old(self).live(#[trigger] near@[j])
                                ==> body_purged(
                                old(self).colliders@[old(self).slot_of(near@[j])],
                                self.colliders@[old(self).slot_of(near@[j])],
                                to_remove,
                            ) || body_cleared(
                                old(self).colliders@[old(self).slot_of(near@[j])],
                                self.colliders@[old(self).slot_of(near@[j])],
                            )) by {
                                if old(self).live(near@[j]) {
                                    let sj = old(self).slot_of(near@[j]);
                                    if j == i {
                                        assert(near@[j] == e);
                                        assert(sj == s2);
                                    } else {
                                        if sj == s2 {
                                            assert(old(self).owners@[sj] == near@[j]);
                                            assert(old(self).owners@[s2 as int] == e);
                                            assert(near@[j] == near@[i as int]);
                                            assert(false);
                                        }
                                        assert(self.colliders@[sj] == pre[sj]);
                                    }
                                }
                            }
                        }
                    }
                }
            }
            i = i + 1;
        }
        let slot2 = self.sparse[to_remove.uindex()].unwrap();
        let ghost pre = self.colliders@;
        let body = &mut self.colliders[slot2];
        body.remove_all_collisions();
        proof {
            assert(self.colliders@ =~= pre.update(slot2 as int, self.colliders@[slot2 as int]));
            let a = old(self).colliders@[slot2 as int];
            let m = pre[slot2 as int];
            let b = self.colliders@[slot2 as int];
            assert(body_cleared(a, b));
            assert forall|s: int|
                0 <= s < old(self).colliders@.len() implies body_purged_or_same(
                old(self).colliders@[s],
                #[trigger] self.colliders@[s],
                to_remove,
            ) by {}
            assert forall|s: int|
                0 <= s < self.colliders@.len() implies (#[trigger] self.colliders@[s]).wf()
                && body_recs_masked(self.colliders@[s]) by {
                lemma_body_purge_keeps_wf(old(self).colliders@[s], self.colliders@[s], to_remove);
            }
            assert forall|e: EntityId|
                old(self).live(e) && old(self).broadphase.in_nearby(
                    to_remove,
                    old(self).transforms@[old(self).slot_of(to_remove)],
                    old(self).colliders@[old(self).slot_of(to_remove)].aabb,
                    e,
                ) implies no_records_about(
                self.colliders@[#[trigger] old(self).slot_of(e)],
                to_remove,
            ) by {
                assert(near@.contains(e));
                let j = choose|j: int| 0 <= j < near@.len() && near@[j] == e;
                let sj = old(self).slot_of(e);
                assert(old(self).live(near@[j]));
                assert(body_purged(old(self).colliders@[sj], pre[sj], to_remove) || body_cleared(
                    old(self).colliders@[sj],
                    pre[sj],
                ));
                assert(e != to_remove);
                assert(sj != slot2) by {
                    if sj == slot2 {
                        assert(old(self).owners@[sj] == e);
                        assert(old(self).owners@[slot2 as int] == to_remove);
                    }
                }
                assert(self.colliders@[sj] == pre[sj]);
                lemma_purged_no_records(old(self).colliders@[sj], self.colliders@[sj], to_remove);
            }
        }
    }
}


impl PhysicsWorld {
    /// The handle's index is occupied by a body of a strictly newer
    /// generation, so a registration under this handle is ignored.
    pub open spec fn occupied_newer(&self, id: EntityId) -> bool {
        &&& id.index < self.sparse@.len()
        &&& match self.sparse@[id.index as int] {
            Option::Some(s) => s < self.owners@.len() && self.owners@[s as int].gen > id.gen,
            Option::None => false,
        }
    }

    /// The handle's index is occupied by a body of the same or an older
    /// generation, which a registration under this handle replaces.
    pub open spec fn occupied_older(&self, id: EntityId) -> bool {
        &&& id.index < self.sparse@.len()
        &&& match self.sparse@[id.index as int] {
            Option::Some(s) => s < self.owners@.len() && self.owners@[s as int].gen <= id.gen,
            Option::None => false,
        }
    }

    /// Registers a body under the handle.  A fresh index takes a new dense
    /// slot; an index occupied by a body of the same or an older generation
    /// is replaced in place, after the old occupant's broad-phase entries and
    /// the records about it are dropped; an index occupied by a strictly
    /// newer generation leaves the world unchanged.
    pub fn create_body(&mut self, id: EntityId, transform: Transform, collider: CollisionBody)
        requires
            old(self).wf(),
            transform.wf(),
            collider.wf(),
            body_recs_empty(collider),
            id.index < usize::MAX,
        ensures
            final(self).wf(),
            final(self).broadphase.bucket_width == old(self).broadphase.bucket_width,
            final(self).broadphase.bucket_height == old(self).broadphase.bucket_height,
            old(self).occupied_newer(id) ==> *final(self) == *old(self),
            old(self).occupied_older(id) ==> {
                let s = old(self).slot_of(id);
                &&& final(self).live(id)
                &&& final(self).slot_of(id) == s
                &&& final(self).owners@ == old(self).owners@.update(s, id)
                &&& final(self).transforms@ == old(self).transforms@.update(s, transform)
                &&& final(self).colliders@.len() == old(self).colliders@.len()
                &&& final(self).colliders@[s] == collider
                &&& final(self).sparse@ == old(self).sparse@
                // the replaced occupant leaves the broad phase at its box and
                // the new body enters at its own
                &&& forall|cx: int, cy: int| #[trigger] final(self).broadphase.cell_seq(cx, cy)
                    == ({
                    let bw = old(self).broadphase.bucket_width as int;
                    let bh = old(self).broadphase.bucket_height as int;
                    let o = old(self).owners@[s];
                    let base = if covers(
                        bw,
                        bh,
                        old(self).transforms@[s],
                        old(self).colliders@[s].aabb,
                        cx,
                        cy,
                    ) {
                        old(self).broadphase.cell_seq(cx, cy).filter(|x: EntityId| x != o)
                    } else {
                        old(self).broadphase.cell_seq(cx, cy)
                    };
                    if covers(bw, bh, transform, collider.aabb, cx, cy) {
                        base.push(id)
                    } else {
                        base
                    }
                })
            },
            !(old(self).occupied_newer(id) || old(self).occupied_older(id)) ==> {
                &&& final(self).live(id)
                &&& final(self).slot_of(id) == old(self).body_count()
                &&& final(self).owners@ == old(self).owners@.push(id)
                &&& final(self).transforms@ == old(self).transforms@.push(transform)
                &&& final(self).colliders@ == old(self).colliders@.push(collider)
                // the new body enters the broad phase at its box
                &&& forall|cx: int, cy: int|
                    covers(
                        old(self).broadphase.bucket_width as int,
                        old(self).broadphase.bucket_height as int,
                        transform,
                        collider.aabb,
                        cx,
                        cy,
                    ) ==> #[trigger] final(self).broadphase.cell_seq(cx, cy) == old(
                        self,
                    ).broadphase.cell_seq(cx, cy).push(id)
                &&& forall|cx: int, cy: int|
                    !covers(
                        old(self).broadphase.bucket_width as int,
                        old(self).broadphase.bucket_height as int,
                        transform,
                        collider.aabb,
                        cx,
                        cy,
                    ) ==> #[trigger] final(self).broadphase.cell_seq(cx, cy) == old(
                        self,
                    ).broadphase.cell_seq(cx, cy)
                &&& final(self).sparse@.len() >= old(self).sparse@.len()
                &&& forall|i: int|
                    0 <= i < final(self).sparse@.len() && i != id.index ==> #[trigger] final(self).sparse@[i] == if i < old(self).sparse@.len() {
                        old(self).sparse@[i]
                    } else {
                        None::<usize>
                    }
            },
    {
        let sparse_index = id.uindex();
        if sparse_index >= self.sparse.len() {
            let target = sparse_index + 1;
            while self.sparse.len() < target
                invariant
                    old(self).sparse@.len() <= self.sparse@.len() <= target,
                    self.sparse@.len() >= old(self).sparse@.len(),
                    forall|i: int|
                        0 <= i < old(self).sparse@.len() ==> #[trigger] self.sparse@[i] == old(
                            self,
                        ).sparse@[i],
                    forall|i: int|
                        old(self).sparse@.len() <= i < self.sparse@.len() ==> #[trigger] self.sparse@[i] is None,
                    self.transforms@ == old(self).transforms@,
                    self.colliders@ == old(self).colliders@,
                    self.owners@ == old(self).owners@,
                    self.broadphase == old(self).broadphase,
                decreases target - self.sparse@.len(),
            {
                self.sparse.push(None);
            }
        }
        proof {
            assert(self.wf());
        }
        let occupant = self.sparse[sparse_index];
        if let Some(s) = occupant {
            let old_owner = self.owners[s];
            if old_owner.gen > id.gen {
                proof {
                    assert(old(self).occupied_newer(id));
                    assert(*self =~= *old(self));
                }
                return ;
            }
            // Replace the occupant: clear the records about it and its
            // broad-phase entries, then overwrite its slot.
            proof {
                assert(self.live(old_owner));
            }
            self.remove_overlapping(old_owner);
            let old_t = self.transforms[s];
            let old_aabb = self.colliders[s].aabb;
            self.broadphase.remove(old_owner, &old_t, &old_aabb);
            self.owners[s] = id;
            self.transforms[s] = transform;
            self.colliders[s] = collider;
            self.broadphase.insert(id, &self.transforms[s], &self.colliders[s].aabb);
            proof {
                assert(final(self).owners@ =~= old(self).owners@.update(s as int, id));
                assert(final(self).transforms@ =~= old(self).transforms@.update(
                    s as int,
                    transform,
                ));
                assert(final(self).sparse@ =~= old(self).sparse@);
            }
        } else {
            let body = self.transforms.len();
            self.sparse[sparse_index] = Some(body);
            let aabb = collider.aabb;
            self.owners.push(id);
            self.transforms.push(transform);
            self.colliders.push(collider);
            self.broadphase.insert(id, &transform, &aabb);
            proof {
                assert(final(self).live(id));
            }
        }
    }

    /// Unregisters the body of the handle: drops the records about it, its
    /// broad-phase entries, and its dense slot, moving the last body into the
    /// freed slot.  A handle that is not the current owner of its index (a
    /// stale generation, an unused index) leaves the world unchanged.
    #[verifier::rlimit(50)]
    pub(crate) fn remove_body(&mut self, id: EntityId)
        requires
            old(self).wf(),
        ensures
            final(self).wf(),
            final(self).broadphase.bucket_width == old(self).broadphase.bucket_width,
            final(self).broadphase.bucket_height == old(self).broadphase.bucket_height,
            !final(self).live(id),
            forall|e: EntityId| #[trigger] final(self).live(e) ==> old(self).live(e),
            !old(self).live(id) ==> *final(self) == *old(self),
            forall|e: EntityId|
                old(self).live(e) && e != id ==> #[trigger] final(self).live(e) && final(self).transforms@[final(self).slot_of(e)] == old(self).transforms@[old(self).slot_of(e)],
            old(self).live(id) ==> {
                let s = old(self).slot_of(id);
                let n = old(self).body_count();
                &&& final(self).body_count() == n - 1
                &&& final(self).sparse@.len() == old(self).sparse@.len()
                &&& final(self).sparse@[id.index as int] is None
                // the handle leaves the broad phase at its box: covered cells
                // are filtered of it, all others are untouched
                &&& forall|cx: int, cy: int|
                    covers(
                        old(self).broadphase.bucket_width as int,
                        old(self).broadphase.bucket_height as int,
                        old(self).transforms@[s],
                        old(self).colliders@[s].aabb,
                        cx,
                        cy,
                    ) ==> #[trigger] final(self).broadphase.cell_seq(cx, cy) == old(
                        self,
                    ).broadphase.cell_seq(cx, cy).filter(|x: EntityId| x != id)
                &&& forall|cx: int, cy: int|
                    !covers(
                        old(self).broadphase.bucket_width as int,
                        old(self).broadphase.bucket_height as int,
                        old(self).transforms@[s],
                        old(self).colliders@[s].aabb,
                        cx,
                        cy,
                    ) ==> #[trigger] final(self).broadphase.cell_seq(cx, cy) == old(
                        self,
                    ).broadphase.cell_seq(cx, cy)
                &&& forall|s2: int|
                    0 <= s2 < n - 1 ==> {
                        let orig = if s2 == s {
                            n - 1
                        } else {
                            s2
                        };
                        #[trigger] final(self).owners@[s2] == old(self).owners@[orig] && final(self).transforms@[s2] == old(self).transforms@[orig] && body_purged_or_same(
                            old(self).colliders@[orig],
                            final(self).colliders@[s2],
                            id,
                        )
                    }
                // every surviving body that was in the removed body's
                // broad-phase neighbourhood holds no record about it
                &&& forall|s2: int|
                    0 <= s2 < n - 1 ==> {
                        let orig = if s2 == s {
                            n - 1
                        } else {
                            s2
                        };
                        old(self).broadphase.in_nearby(
                            id,
                            old(self).transforms@[s],
                            old(self).colliders@[s].aabb,
                            old(self).owners@[orig],
                        ) ==> no_records_about(#[trigger] final(self).colliders@[s2], id)
                    }
            },
    {
        if id.uindex() >= self.sparse.len() {
            return ;
        }
        let occupant = self.sparse[id.uindex()];
        let s = match occupant {
            Some(s) => s,
            None => {
                return ;
            },
        };
        if !(self.owners[s] == id) {
            proof {
                assert(!old(self).live(id));
                assert(*self =~= *old(self));
            }
            return ;
        }
        proof {
            assert(old(self).live(id));
        }
        self.remove_overlapping(id);
        let ghost m1 = *self;
        {
            let t = self.transforms[s];
            let aabb = self.colliders[s].aabb;
            self.broadphase.remove(id, &t, &aabb);
        }
        let ghost mid = *self;
        let last = self.transforms.len() - 1;
        if s == last {
            self.transforms.pop();
            self.colliders.pop();
            self.owners.pop();
            self.sparse[id.uindex()] = None;
            proof {
                assert(final(self).transforms@ =~= mid.transforms@.drop_last());
                assert(final(self).colliders@ =~= mid.colliders@.drop_last());
                assert(final(self).owners@ =~= mid.owners@.drop_last());
            }
        } else {
            let moved_t = self.transforms.pop().unwrap();
            self.transforms[s] = moved_t;
            let moved_c = self.colliders.pop().unwrap();
            self.colliders[s] = moved_c;
            let moved_o = self.owners.pop().unwrap();
            self.owners[s] = moved_o;
            self.sparse[id.uindex()] = None;
            let owner_index = self.owners[s].uindex();
            self.sparse[owner_index] = Some(s);
            proof {
                assert(mid.owners@[last as int].index != id.index);
            }
        }
        proof {
            assert forall|e: EntityId| #[trigger] final(self).live(e) implies old(self).live(
                e,
            ) by {}
            assert forall|e: EntityId|
                old(self).live(e) && e != id implies #[trigger] final(self).live(e) && final(self).transforms@[final(self).slot_of(e)] == old(self).transforms@[old(self).slot_of(e)] by {
                let n = old(self).body_count();
                let orig = old(self).slot_of(e);
                let s2 = if orig == n - 1 {
                    old(self).slot_of(id)
                } else {
                    orig
                };
                assert(final(self).owners@[s2] == e && final(self).transforms@[s2] == old(
                    self,
                ).transforms@[orig]);
                assert(final(self).sparse@[e.index as int] == Some(s2 as usize));
            }
            let sg = old(self).slot_of(id);
            let n = old(self).body_count();
            assert forall|s2: int| 0 <= s2 < n - 1 implies ({
                let orig = if s2 == sg {
                    n - 1
                } else {
                    s2
                };
                old(self).broadphase.in_nearby(
                    id,
                    old(self).transforms@[sg],
                    old(self).colliders@[sg].aabb,
                    old(self).owners@[orig],
                ) ==> no_records_about(#[trigger] final(self).colliders@[s2], id)
            }) by {
                let orig = if s2 == sg {
                    n - 1
                } else {
                    s2
                };
                if old(self).broadphase.in_nearby(
                    id,
                    old(self).transforms@[sg],
                    old(self).colliders@[sg].aabb,
                    old(self).owners@[orig],
                ) {
                    let e = old(self).owners@[orig];
                    assert(old(self).live(e));
                    assert(old(self).slot_of(e) == orig);
                    assert(no_records_about(m1.colliders@[old(self).slot_of(e)], id));
                    assert(final(self).colliders@[s2] == m1.colliders@[orig]);
                }
            }
        }
    }

    /// Unregisters every body named in the two notification lists, in order:
    /// first the removed, then the deleted.  Stale or duplicate notifications
    /// are no-ops.  Afterwards none of the named handles is live.
    pub fn sync(&mut self, removed: &Vec<EntityId>, deleted: &Vec<EntityId>)
        requires
            old(self).wf(),
        ensures
            final(self).wf(),
            final(self).broadphase.bucket_width == old(self).broadphase.bucket_width,
            final(self).broadphase.bucket_height == old(self).broadphase.bucket_height,
            forall|e: EntityId| #[trigger] final(self).live(e) ==> old(self).live(e),
            forall|j: int| 0 <= j < removed@.len() ==> !final(self).live(#[trigger] removed@[j]),
            forall|j: int| 0 <= j < deleted@.len() ==> !final(self).live(#[trigger] deleted@[j]),
            // every live handle the notifications do not name stays registered
            forall|e: EntityId|
                old(self).live(e) && !removed@.contains(e) && !deleted@.contains(e)
                    ==> #[trigger] final(self).live(e),
    {
        let mut i: usize = 0;
        while i < removed.len()
            invariant
                self.wf(),
                self.broadphase.bucket_width == old(self).broadphase.bucket_width,
                self.broadphase.bucket_height == old(self).broadphase.bucket_height,
                forall|e: EntityId| #[trigger] self.live(e) ==> old(self).live(e),
                forall|j: int| 0 <= j < i ==> !self.live(#[trigger] removed@[j]),
                forall|e: EntityId|
                    old(self).live(e) && !removed@.contains(e) && !deleted@.contains(e)
                        ==> #[trigger] self.live(e),
            decreases removed@.len() - i,
        {
            let ghost pre = *self;
            self.remove_body(removed[i]);
            proof {
                assert forall|e: EntityId|
                    old(self).live(e) && !removed@.contains(e) && !deleted@.contains(e)
                        implies #[trigger] self.live(e) by {
                    let rid = removed@[i as int];
                    if e == rid {
                        assert(removed@.contains(e));
                    }
                    assert(pre.live(e) && e != rid);
                }
            }
            i = i + 1;
        }
        let mut i: usize = 0;
        while i < deleted.len()
            invariant
                self.wf(),
                self.broadphase.bucket_width == old(self).broadphase.bucket_width,
                self.broadphase.bucket_height == old(self).broadphase.bucket_height,
                forall|e: EntityId| #[trigger] self.live(e) ==> old(self).live(e),
                forall|j: int| 0 <= j < removed@.len() ==> !self.live(#[trigger] removed@[j]),
                forall|j: int| 0 <= j < i ==> !self.live(#[trigger] deleted@[j]),
                forall|e: EntityId|
                    old(self).live(e) && !removed@.contains(e) && !deleted@.contains(e)
                        ==> #[trigger] self.live(e),
            decreases deleted@.len() - i,
        {
            let ghost pre = *self;
            self.remove_body(deleted[i]);
            proof {
                assert forall|e: EntityId|
                    old(self).live(e) && !removed@.contains(e) && !deleted@.contains(e)
                        implies #[trigger] self.live(e) by {
                    let rid = deleted@[i as int];
                    if e == rid {
                        assert(deleted@.contains(e));
                    }
                    assert(pre.live(e) && e != rid);
                }
            }
            i = i + 1;
        }
    }
}


/// An appended record carries its own evidence: it names a collision
/// category the owning collider reacts to, a body other than the owner, a
/// faithful snapshot of the owning side, two shapes that really collide at
/// the snapshotted transforms, and the reduced translation direction of that
/// very test (negated when the record sits on the second side of the pair).
pub open spec fn appended_rec_ok(c: Collider, rec: Collision, own: EntityId) -> bool {
    &&& (c.collides_with & rec.collision_layer2) != 0
    &&& rec.entity2 != own
    &&& rec.shape1@ == c.shape@
    &&& rec.collides_with1 == c.collides_with
    &&& rec.collision_layer1 == c.collision_layer
    &&& sat_spec(rec.transform1, rec.shape1@, rec.transform2, rec.shape2@).0
    &&& (rec.normal == reduced(
        sat_spec(rec.transform1, rec.shape1@, rec.transform2, rec.shape2@).1->0,
    ) || rec.normal == reduced(
        neg_v(sat_spec(rec.transform2, rec.shape2@, rec.transform1, rec.shape1@).1->0),
    ))
}

/// `b` is `a` with zero or more records appended to its collision list, each
/// carrying the evidence of [`appended_rec_ok`]; the shape and masks are
/// unchanged.
pub open spec fn collider_extended(a: Collider, b: Collider, own: EntityId) -> bool {
    &&& b.shape@ == a.shape@
    &&& b.collision_layer == a.collision_layer
    &&& b.collides_with == a.collides_with
    &&& a.overlapping@.is_prefix_of(b.overlapping@)
    &&& forall|j: int|
        a.overlapping@.len() <= j < b.overlapping@.len() ==> appended_rec_ok(
            b,
            #[trigger] b.overlapping@[j],
            own,
        )
}

/// `b` is `a` with zero or more mask-matched records appended across its
/// colliders and sensors, none naming the owner `own`.
pub open spec fn body_extended(a: CollisionBody, b: CollisionBody, own: EntityId) -> bool {
    &&& b.colliders@.len() == a.colliders@.len()
    &&& b.sensors@.len() == a.sensors@.len()
    &&& forall|k: int|
        0 <= k < a.colliders@.len() ==> collider_extended(
            a.colliders@[k],
            #[trigger] b.colliders@[k],
            own,
        )
    &&& forall|k: int|
        0 <= k < a.sensors@.len() ==> collider_extended(a.sensors@[k], #[trigger] b.sensors@[k], own)
    &&& b.aabb == a.aabb
}

pub proof fn lemma_collider_extended_trans(a: Collider, b: Collider, c: Collider, own: EntityId)
    requires
        collider_extended(a, b, own),
        collider_extended(b, c, own),
    ensures
        collider_extended(a, c, own),
{
    assert(a.overlapping@.is_prefix_of(c.overlapping@)) by {
        assert forall|j: int| 0 <= j < a.overlapping@.len() implies a.overlapping@[j]
            == c.overlapping@[j] by {
            assert(a.overlapping@[j] == b.overlapping@[j]);
            assert(b.overlapping@[j] == c.overlapping@[j]);
        }
        assert(a.overlapping@ =~= c.overlapping@.take(a.overlapping@.len() as int));
        assert(a.overlapping@.is_prefix_of(c.overlapping@));
    }
    assert forall|j: int|
        a.overlapping@.len() <= j < c.overlapping@.len() implies appended_rec_ok(
        c,
        #[trigger] c.overlapping@[j],
        own,
    ) by {
        if j < b.overlapping@.len() {
            assert(b.overlapping@[j] == c.overlapping@[j]);
            assert(appended_rec_ok(b, b.overlapping@[j], own));
        }
    }
}

pub proof fn lemma_body_extended_trans(
    a: CollisionBody,
    b: CollisionBody,
    c: CollisionBody,
    own: EntityId,
)
    requires
        body_extended(a, b, own),
        body_extended(b, c, own),
    ensures
        body_extended(a, c, own),
{
    assert forall|k: int| 0 <= k < a.colliders@.len() implies collider_extended(
        a.colliders@[k],
        #[trigger] c.colliders@[k],
        own,
    ) by {
        lemma_collider_extended_trans(a.colliders@[k], b.colliders@[k], c.colliders@[k], own);
    }
    assert forall|k: int| 0 <= k < a.sensors@.len() implies collider_extended(
        a.sensors@[k],
        #[trigger] c.sensors@[k],
        own,
    ) by {
        lemma_collider_extended_trans(a.sensors@[k], b.sensors@[k], c.sensors@[k], own);
    }
}

/// Extension keeps a body's well-formedness and its records mask-matched.
pub proof fn lemma_body_extended_keeps_wf(a: CollisionBody, b: CollisionBody, own: EntityId)
    requires
        a.wf(),
        body_recs_masked(a),
        body_extended(a, b, own),
    ensures
        b.wf(),
        body_recs_masked(b),
{
    assert forall|k: int| 0 <= k < b.colliders@.len() implies (#[trigger] b.colliders@[k]).wf()
        && recs_masked(b.colliders@[k]) by {
        let ca = a.colliders@[k];
        let cb = b.colliders@[k];
        assert forall|j: int|
            0 <= j < cb.overlapping@.len() implies (cb.collides_with
                & (#[trigger] cb.overlapping@[j]).collision_layer2) != 0 by {
            if j < ca.overlapping@.len() {
                assert(cb.overlapping@[j] == ca.overlapping@[j]);
            }
        }
    }
    assert forall|k: int| 0 <= k < b.sensors@.len() implies (#[trigger] b.sensors@[k]).wf()
        && recs_masked(b.sensors@[k]) by {
        let ca = a.sensors@[k];
        let cb = b.sensors@[k];
        assert forall|j: int|
            0 <= j < cb.overlapping@.len() implies (cb.collides_with
                & (#[trigger] cb.overlapping@[j]).collision_layer2) != 0 by {
            if j < ca.overlapping@.len() {
                assert(cb.overlapping@[j] == ca.overlapping@[j]);
            }
        }
    }
}


/// `new_c` is `old_c` with exactly one record appended: a snapshot of this
/// side (placed at `tself`) and the other side (`cother` placed at `tother`,
/// owned by `eother`), carrying the given collision normal.
pub open spec fn recorded(
    new_c: Collider,
    old_c: Collider,
    tself: Transform,
    cother: Collider,
    tother: Transform,
    eother: EntityId,
    normal: Vec2,
) -> bool {
    &&& new_c.shape@ == old_c.shape@
    &&& new_c.collision_layer == old_c.collision_layer
    &&& new_c.collides_with == old_c.collides_with
    &&& new_c.overlapping@.len() == old_c.overlapping@.len() + 1
    &&& new_c.overlapping@.take(old_c.overlapping@.len() as int) == old_c.overlapping@
    &&& {
        let rec = new_c.overlapping@.last();
        &&& rec.transform1 == tself
        &&& rec.shape1@ == old_c.shape@
        &&& rec.collides_with1 == old_c.collides_with
        &&& rec.collision_layer1 == old_c.collision_layer
        &&& rec.transform2 == tother
        &&& rec.shape2@ == cother.shape@
        &&& rec.collides_with2 == cother.collides_with
        &&& rec.collision_layer2 == cother.collision_layer
        &&& rec.entity2 == eother
        &&& rec.normal == normal
    }
}

impl PhysicsWorld {
    /// Tests one collider (or sensor) of the body in slot `s1` against one of
    /// the body in slot `s2` and appends a record to each side whose own mask
    /// matches the other's collision layer (the second side only when
    /// `check_both` is set).  No transform is changed.
    #[verifier::rlimit(80)]
    pub(crate) fn update_overlapping_single(
        &mut self,
        s1: usize,
        k1: usize,
        sens1: bool,
        e1: EntityId,
        s2: usize,
        k2: usize,
        sens2: bool,
        e2: EntityId,
        check_both: bool,
    )
        requires
            old(self).wf(),
            s1 < old(self).body_count(),
            s2 < old(self).body_count(),
            s1 != s2,
            e1 == old(self).owners@[s1 as int],
            e2 == old(self).owners@[s2 as int],
            sens1 ==> k1 < old(self).colliders@[s1 as int].sensors@.len(),
            !sens1 ==> k1 < old(self).colliders@[s1 as int].colliders@.len(),
            sens2 ==> k2 < old(self).colliders@[s2 as int].sensors@.len(),
            !sens2 ==> k2 < old(self).colliders@[s2 as int].colliders@.len(),
        ensures
            final(self).wf(),
            final(self).transforms@ == old(self).transforms@,
            final(self).owners@ == old(self).owners@,
            final(self).sparse@ == old(self).sparse@,
            final(self).broadphase == old(self).broadphase,
            final(self).colliders@.len() == old(self).colliders@.len(),
            forall|s: int|
                0 <= s < old(self).colliders@.len() && s != s1 && s != s2 ==> #[trigger] final(self).colliders@[s] == old(self).colliders@[s],
            body_extended(
                old(self).colliders@[s1 as int],
                final(self).colliders@[s1 as int],
                e1,
            ),
            body_extended(
                old(self).colliders@[s2 as int],
                final(self).colliders@[s2 as int],
                e2,
            ),
            // the exact effect: a record lands on a side exactly when that
            // side's mask matches the other's layer and the shapes collide,
            // and it snapshots both sides with the (negated, for the second
            // side) collision normal
            ({
                let t1 = old(self).transforms@[s1 as int];
                let t2 = old(self).transforms@[s2 as int];
                let list1 = if sens1 {
                    old(self).colliders@[s1 as int].sensors@
                } else {
                    old(self).colliders@[s1 as int].colliders@
                };
                let list2 = if sens2 {
                    old(self).colliders@[s2 as int].sensors@
                } else {
                    old(self).colliders@[s2 as int].colliders@
                };
                let nlist1 = if sens1 {
                    final(self).colliders@[s1 as int].sensors@
                } else {
                    final(self).colliders@[s1 as int].colliders@
                };
                let nlist2 = if sens2 {
                    final(self).colliders@[s2 as int].sensors@
                } else {
                    final(self).colliders@[s2 as int].colliders@
                };
                let c1 = list1[k1 as int];
                let c2 = list2[k2 as int];
                let res = sat_spec(t1, c1.shape@, t2, c2.shape@);
                let m1 = (c1.collides_with & c2.collision_layer) != 0;
                let m2 = (c2.collides_with & c1.collision_layer) != 0;
                &&& (m1 && res.0 ==> recorded(
                    nlist1[k1 as int],
                    c1,
                    t1,
                    c2,
                    t2,
                    e2,
                    reduced(res.1->0),
                ))
                &&& (!(m1 && res.0) ==> nlist1[k1 as int] == c1)
                &&& (check_both && m2 && res.0 ==> recorded(
                    nlist2[k2 as int],
                    c2,
                    t2,
                    c1,
                    t1,
                    e1,
                    reduced(neg_v(res.1->0)),
                ))
                &&& (!(check_both && m2 && res.0) ==> nlist2[k2 as int] == c2)
            }),
    {
        proof {
            assert(e1 != e2) by {
                if e1 == e2 {
                    assert(old(self).sparse@[e1.index as int] == Some(s1));
                    assert(old(self).sparse@[e2.index as int] == Some(s2));
                }
            }
        }
        let t1 = self.transforms[s1];
        let t2 = self.transforms[s2];
        let mut collided: bool = false;
        let mut mtv = Vec2 { x: 0, y: 0 };
        let mut mask1: bool = false;
        let mut mask2: bool = false;
        {
            let body1 = &self.colliders[s1];
            let body2 = &self.colliders[s2];
            let c1 = if sens1 {
                &body1.sensors[k1]
            } else {
                &body1.colliders[k1]
            };
            let c2 = if sens2 {
                &body2.sensors[k2]
            } else {
                &body2.colliders[k2]
            };
            mask1 = c1.collides_with & c2.collision_layer > 0;
            mask2 = c2.collides_with & c1.collision_layer > 0;
            if mask1 || (mask2 && check_both) {
                let res = seperating_axis_test(&t1, &c1.shape, &t2, &c2.shape);
                collided = res.0;
                if let Some(v) = res.1 {
                    mtv = v;
                }
            }
        }
        if mask1 && collided {
            let rec = {
                let body1 = &self.colliders[s1];
                let body2 = &self.colliders[s2];
                let c1 = if sens1 {
                    &body1.sensors[k1]
                } else {
                    &body1.colliders[k1]
                };
                let c2 = if sens2 {
                    &body2.sensors[k2]
                } else {
                    &body2.colliders[k2]
                };
                let normal = reduce_axis(mtv);
                Collision::new(
                    t1,
                    c1.shape.duplicate(),
                    c1.collides_with,
                    c1.collision_layer,
                    t2,
                    c2.shape.duplicate(),
                    c2.collides_with,
                    c2.collision_layer,
                    e2,
                    normal,
                )
            };
            let ghost pre = *self;
            {
                let body1 = &mut self.colliders[s1];
                if sens1 {
                    let col = &mut body1.sensors[k1];
                    col.overlapping.push(rec);
                } else {
                    let col = &mut body1.colliders[k1];
                    col.overlapping.push(rec);
                }
            }
            proof {
                assert(self.colliders@ =~= pre.colliders@.update(
                    s1 as int,
                    self.colliders@[s1 as int],
                ));
                let a = pre.colliders@[s1 as int];
                let b = self.colliders@[s1 as int];
                if sens1 {
                    assert(b.sensors@ =~= a.sensors@.update(k1 as int, b.sensors@[k1 as int]));
                    assert(b.sensors@[k1 as int].overlapping@ == a.sensors@[k1 as int].overlapping@.push(rec));
                    assert(a.sensors@[k1 as int].overlapping@.is_prefix_of(
                        b.sensors@[k1 as int].overlapping@,
                    )) by {
                        assert(a.sensors@[k1 as int].overlapping@ =~= b.sensors@[k1 as int].overlapping@.take(
                            a.sensors@[k1 as int].overlapping@.len() as int,
                        ));
                    }
                    assert(appended_rec_ok(b.sensors@[k1 as int], rec, e1));
                    assert(body_extended(a, b, e1));
                } else {
                    assert(b.colliders@ =~= a.colliders@.update(
                        k1 as int,
                        b.colliders@[k1 as int],
                    ));
                    assert(b.colliders@[k1 as int].overlapping@ == a.colliders@[k1 as int].overlapping@.push(rec));
                    assert(a.colliders@[k1 as int].overlapping@.is_prefix_of(
                        b.colliders@[k1 as int].overlapping@,
                    )) by {
                        assert(a.colliders@[k1 as int].overlapping@ =~= b.colliders@[k1 as int].overlapping@.take(
                            a.colliders@[k1 as int].overlapping@.len() as int,
                        ));
                    }
                    assert(appended_rec_ok(b.colliders@[k1 as int], rec, e1));
                    assert(body_extended(a, b, e1));
                }
                lemma_body_extended_keeps_wf(a, b, e1);
            }
        }
        if check_both && mask2 && collided {
            let rec2 = {
                let body1 = &self.colliders[s1];
                let body2 = &self.colliders[s2];
                let c1 = if sens1 {
                    &body1.sensors[k1]
                } else {
                    &body1.colliders[k1]
                };
                let c2 = if sens2 {
                    &body2.sensors[k2]
                } else {
                    &body2.colliders[k2]
                };
                let normal = reduce_axis(negate_vec(mtv));
                Collision::new(
                    t2,
                    c2.shape.duplicate(),
                    c2.collides_with,
                    c2.collision_layer,
                    t1,
                    c1.shape.duplicate(),
                    c1.collides_with,
                    c1.collision_layer,
                    e1,
                    normal,
                )
            };
            let ghost pre = *self;
            {
                let body2 = &mut self.colliders[s2];
                if sens2 {
                    let col = &mut body2.sensors[k2];
                    col.overlapping.push(rec2);
                } else {
                    let col = &mut body2.colliders[k2];
                    col.overlapping.push(rec2);
                }
            }
            proof {
                assert(self.colliders@ =~= pre.colliders@.update(
                    s2 as int,
                    self.colliders@[s2 as int],
                ));
                let a = pre.colliders@[s2 as int];
                let b = self.colliders@[s2 as int];
                let sh1 = if sens1 {
                    pre.colliders@[s1 as int].sensors@[k1 as int].shape@
                } else {
                    pre.colliders@[s1 as int].colliders@[k1 as int].shape@
                };
                let sh2 = if sens2 {
                    a.sensors@[k2 as int].shape@
                } else {
                    a.colliders@[k2 as int].shape@
                };
                crate::physics::sat::lemma_sat_collided_symmetric(t1, sh1, t2, sh2);
                assert(sat_spec(t2, sh2, t1, sh1).0);
                if sens2 {
                    assert(b.sensors@ =~= a.sensors@.update(k2 as int, b.sensors@[k2 as int]));
                    assert(b.sensors@[k2 as int].overlapping@ == a.sensors@[k2 as int].overlapping@.push(rec2));
                    assert(a.sensors@[k2 as int].overlapping@.is_prefix_of(
                        b.sensors@[k2 as int].overlapping@,
                    )) by {
                        assert(a.sensors@[k2 as int].overlapping@ =~= b.sensors@[k2 as int].overlapping@.take(
                            a.sensors@[k2 as int].overlapping@.len() as int,
                        ));
                    }
                    assert(appended_rec_ok(b.sensors@[k2 as int], rec2, e2));
                    assert(body_extended(a, b, e2));
                } else {
                    assert(b.colliders@ =~= a.colliders@.update(
                        k2 as int,
                        b.colliders@[k2 as int],
                    ));
                    assert(b.colliders@[k2 as int].overlapping@ == a.colliders@[k2 as int].overlapping@.push(rec2));
                    assert(a.colliders@[k2 as int].overlapping@.is_prefix_of(
                        b.colliders@[k2 as int].overlapping@,
                    )) by {
                        assert(a.colliders@[k2 as int].overlapping@ =~= b.colliders@[k2 as int].overlapping@.take(
                            a.colliders@[k2 as int].overlapping@.len() as int,
                        ));
                    }
                    assert(appended_rec_ok(b.colliders@[k2 as int], rec2, e2));
                    assert(body_extended(a, b, e2));
                }
                lemma_body_extended_keeps_wf(a, b, e2);
                assert(body_extended(
                    old(self).colliders@[s1 as int],
                    self.colliders@[s1 as int],
                    e1,
                ));
            }
        }
        proof {
            assert(body_extended(
                old(self).colliders@[s1 as int],
                self.colliders@[s1 as int],
                e1,
            ));
            assert(body_extended(
                old(self).colliders@[s2 as int],
                self.colliders@[s2 as int],
                e2,
            ));
        }
    }
}




/// A record returned by the resolving pass carries its own evidence: a
/// reacting category, another body as the opposing side, two shapes that
/// really collide at the snapshotted transforms, and the reduced translation
/// direction of that very test.
pub open spec fn returned_rec_ok(rec: Collision, own: EntityId) -> bool {
    &&& (rec.collides_with1 & rec.collision_layer2) != 0
    &&& rec.entity2 != own
    &&& sat_spec(rec.transform1, rec.shape1@, rec.transform2, rec.shape2@).0
    &&& rec.normal == reduced(
        sat_spec(rec.transform1, rec.shape1@, rec.transform2, rec.shape2@).1->0,
    )
}


/// One of the two shape lists of a body, chosen by the sensor flag.
pub open spec fn list_of(b: CollisionBody, sens: bool) -> Seq<Collider> {
    if sens {
        b.sensors@
    } else {
        b.colliders@
    }
}

/// Whether a side of a pair records at all under the narrow-phase category
/// rules: every side does, except a solid collider paired against a sensor
/// (a sensor is recorded on, never recorded against).
pub open spec fn records_against(sens_self: bool, sens_other: bool) -> bool {
    !(!sens_self && sens_other)
}

/// The pair reacts and collides: the first side's mask matches the second's
/// collision layer, and the shapes collide at the given transforms.
pub open spec fn pair_hit(
    b1: CollisionBody,
    sens1: bool,
    k1: int,
    t1: Transform,
    b2: CollisionBody,
    sens2: bool,
    k2: int,
    t2: Transform,
) -> bool {
    let c1 = list_of(b1, sens1)[k1];
    let c2 = list_of(b2, sens2)[k2];
    (c1.collides_with & c2.collision_layer) != 0 && sat_spec(t1, c1.shape@, t2, c2.shape@).0
}

/// The record is a snapshot of the pair: this side's transform, shape and
/// masks, then the other side's, and the other side's handle.
pub open spec fn rec_snapshot(
    rec: Collision,
    c1: Collider,
    t1: Transform,
    c2: Collider,
    t2: Transform,
    e2: EntityId,
) -> bool {
    &&& rec.transform1 == t1
    &&& rec.shape1@ == c1.shape@
    &&& rec.collides_with1 == c1.collides_with
    &&& rec.collision_layer1 == c1.collision_layer
    &&& rec.transform2 == t2
    &&& rec.shape2@ == c2.shape@
    &&& rec.collides_with2 == c2.collides_with
    &&& rec.collision_layer2 == c2.collision_layer
    &&& rec.entity2 == e2
}

/// The chosen list's entry `k` holds a record snapshotting the given pair.
pub open spec fn has_record(
    b: CollisionBody,
    sens: bool,
    k: int,
    c1: Collider,
    t1: Transform,
    c2: Collider,
    t2: Transform,
    e2: EntityId,
) -> bool {
    exists|j: int|
        0 <= j < list_of(b, sens)[k].overlapping@.len() && rec_snapshot(
            #[trigger] list_of(b, sens)[k].overlapping@[j],
            c1,
            t1,
            c2,
            t2,
            e2,
        )
}

/// A record survives any extension of the body's lists.
pub proof fn lemma_record_persists(
    bprev: CollisionBody,
    bnext: CollisionBody,
    own: EntityId,
    sens: bool,
    k: int,
    c1: Collider,
    t1: Transform,
    c2: Collider,
    t2: Transform,
    e2: EntityId,
)
    requires
        body_extended(bprev, bnext, own),
        0 <= k < list_of(bprev, sens).len(),
        has_record(bprev, sens, k, c1, t1, c2, t2, e2),
    ensures
        has_record(bnext, sens, k, c1, t1, c2, t2, e2),
{
    let j = choose|j: int|
        0 <= j < list_of(bprev, sens)[k].overlapping@.len() && rec_snapshot(
            #[trigger] list_of(bprev, sens)[k].overlapping@[j],
            c1,
            t1,
            c2,
            t2,
            e2,
        );
    assert(collider_extended(list_of(bprev, sens)[k], list_of(bnext, sens)[k], own));
    assert(list_of(bnext, sens)[k].overlapping@[j] == list_of(bprev, sens)[k].overlapping@[j]);
}


/// Whether a pair reacts and collides depends only on the shapes and masks,
/// which extension preserves.
pub proof fn lemma_pair_hit_stable(
    a1: CollisionBody,
    b1: CollisionBody,
    own1: EntityId,
    a2: CollisionBody,
    b2: CollisionBody,
    own2: EntityId,
    sens1: bool,
    k1: int,
    t1: Transform,
    sens2: bool,
    k2: int,
    t2: Transform,
)
    requires
        body_extended(a1, b1, own1),
        body_extended(a2, b2, own2),
        0 <= k1 < list_of(a1, sens1).len(),
        0 <= k2 < list_of(a2, sens2).len(),
    ensures
        list_of(b1, sens1).len() == list_of(a1, sens1).len(),
        list_of(b2, sens2).len() == list_of(a2, sens2).len(),
        pair_hit(b1, sens1, k1, t1, b2, sens2, k2, t2) == pair_hit(a1, sens1, k1, t1, a2, sens2, k2, t2),
        list_of(b1, sens1)[k1].shape@ == list_of(a1, sens1)[k1].shape@,
        list_of(b1, sens1)[k1].collides_with == list_of(a1, sens1)[k1].collides_with,
        list_of(b1, sens1)[k1].collision_layer == list_of(a1, sens1)[k1].collision_layer,
        list_of(b2, sens2)[k2].shape@ == list_of(a2, sens2)[k2].shape@,
        list_of(b2, sens2)[k2].collides_with == list_of(a2, sens2)[k2].collides_with,
        list_of(b2, sens2)[k2].collision_layer == list_of(a2, sens2)[k2].collision_layer,
{
    assert(collider_extended(list_of(a1, sens1)[k1], list_of(b1, sens1)[k1], own1));
    assert(collider_extended(list_of(a2, sens2)[k2], list_of(b2, sens2)[k2], own2));
}

/// A record snapshot reads only the shapes and masks of the pair, so any
/// colliders with the same shapes and masks witness the same record.
pub proof fn lemma_has_record_congruent(
    b: CollisionBody,
    sens: bool,
    k: int,
    c1: Collider,
    c1b: Collider,
    t1: Transform,
    c2: Collider,
    c2b: Collider,
    t2: Transform,
    e2: EntityId,
)
    requires
        has_record(b, sens, k, c1, t1, c2, t2, e2),
        c1b.shape@ == c1.shape@,
        c1b.collides_with == c1.collides_with,
        c1b.collision_layer == c1.collision_layer,
        c2b.shape@ == c2.shape@,
        c2b.collides_with == c2.collides_with,
        c2b.collision_layer == c2.collision_layer,
    ensures
        has_record(b, sens, k, c1b, t1, c2b, t2, e2),
{
    let j = choose|j: int|
        0 <= j < list_of(b, sens)[k].overlapping@.len() && rec_snapshot(
            #[trigger] list_of(b, sens)[k].overlapping@[j],
            c1,
            t1,
            c2,
            t2,
            e2,
        );
    assert(rec_snapshot(list_of(b, sens)[k].overlapping@[j], c1b, t1, c2b, t2, e2));
}


/// The crossing guarantee can be restated over any baseline with the same
/// shapes, masks, list lengths and transforms at the two slots.
pub proof fn lemma_crossing_rebase(
    w0: PhysicsWorld,
    wm: PhysicsWorld,
    w1: PhysicsWorld,
    s1: int,
    e1: EntityId,
    sens1: bool,
    s2: int,
    e2: EntityId,
    sens2: bool,
)
    requires
        crossing_records_ok(wm, w1, s1, e1, sens1, s2, e2, sens2),
        body_same_shape(w0.colliders@[s1], wm.colliders@[s1]),
        body_same_shape(w0.colliders@[s2], wm.colliders@[s2]),
        wm.transforms@[s1] == w0.transforms@[s1],
        wm.transforms@[s2] == w0.transforms@[s2],
    ensures
        crossing_records_ok(w0, w1, s1, e1, sens1, s2, e2, sens2),
{
    assert forall|k1: int, k2: int|
        #![trigger pair_hit(
            w0.colliders@[s1],
            sens1,
            k1,
            w0.transforms@[s1],
            w0.colliders@[s2],
            sens2,
            k2,
            w0.transforms@[s2],
        )]
        #![trigger pair_hit(
            w0.colliders@[s2],
            sens2,
            k2,
            w0.transforms@[s2],
            w0.colliders@[s1],
            sens1,
            k1,
            w0.transforms@[s1],
        )]
        0 <= k1 < list_of(w0.colliders@[s1], sens1).len() && 0 <= k2 < list_of(
            w0.colliders@[s2],
            sens2,
        ).len() implies {
            &&& (records_against(sens1, sens2) && pair_hit(
                w0.colliders@[s1],
                sens1,
                k1,
                w0.transforms@[s1],
                w0.colliders@[s2],
                sens2,
                k2,
                w0.transforms@[s2],
            ) ==> has_record(
                w1.colliders@[s1],
                sens1,
                k1,
                list_of(w0.colliders@[s1], sens1)[k1],
                w0.transforms@[s1],
                list_of(w0.colliders@[s2], sens2)[k2],
                w0.transforms@[s2],
                e2,
            ))
            &&& (records_against(sens2, sens1) && pair_hit(
                w0.colliders@[s2],
                sens2,
                k2,
                w0.transforms@[s2],
                w0.colliders@[s1],
                sens1,
                k1,
                w0.transforms@[s1],
            ) ==> has_record(
                w1.colliders@[s2],
                sens2,
                k2,
                list_of(w0.colliders@[s2], sens2)[k2],
                w0.transforms@[s2],
                list_of(w0.colliders@[s1], sens1)[k1],
                w0.transforms@[s1],
                e1,
            ))
        } by {
        let c1 = list_of(w0.colliders@[s1], sens1)[k1];
        let c2 = list_of(w0.colliders@[s2], sens2)[k2];
        let m1 = list_of(wm.colliders@[s1], sens1)[k1];
        let m2 = list_of(wm.colliders@[s2], sens2)[k2];
        assert(m1.shape@ == c1.shape@ && m1.collides_with == c1.collides_with
            && m1.collision_layer == c1.collision_layer);
        assert(m2.shape@ == c2.shape@ && m2.collides_with == c2.collides_with
            && m2.collision_layer == c2.collision_layer);
        if records_against(sens1, sens2) && pair_hit(
            w0.colliders@[s1],
            sens1,
            k1,
            w0.transforms@[s1],
            w0.colliders@[s2],
            sens2,
            k2,
            w0.transforms@[s2],
        ) {
            assert(pair_hit(
                wm.colliders@[s1],
                sens1,
                k1,
                wm.transforms@[s1],
                wm.colliders@[s2],
                sens2,
                k2,
                wm.transforms@[s2],
            ));
            assert(has_record(w1.colliders@[s1], sens1, k1, m1, wm.transforms@[s1], m2, wm.transforms@[s2], e2));
            lemma_has_record_congruent(
                w1.colliders@[s1],
                sens1,
                k1,
                m1,
                c1,
                w0.transforms@[s1],
                m2,
                c2,
                w0.transforms@[s2],
                e2,
            );
        }
        if records_against(sens2, sens1) && pair_hit(
            w0.colliders@[s2],
            sens2,
            k2,
            w0.transforms@[s2],
            w0.colliders@[s1],
            sens1,
            k1,
            w0.transforms@[s1],
        ) {
            assert(pair_hit(
                wm.colliders@[s2],
                sens2,
                k2,
                wm.transforms@[s2],
                wm.colliders@[s1],
                sens1,
                k1,
                wm.transforms@[s1],
            ));
            assert(has_record(w1.colliders@[s2], sens2, k2, m2, wm.transforms@[s2], m1, wm.transforms@[s1], e1));
            lemma_has_record_congruent(
                w1.colliders@[s2],
                sens2,
                k2,
                m2,
                c2,
                w0.transforms@[s2],
                m1,
                c1,
                w0.transforms@[s1],
                e1,
            );
        }
    }
}

/// The crossing guarantee survives any further extension of the two bodies.
pub proof fn lemma_crossing_persists(
    w0: PhysicsWorld,
    w1: PhysicsWorld,
    w2: PhysicsWorld,
    s1: int,
    e1: EntityId,
    sens1: bool,
    s2: int,
    e2: EntityId,
    sens2: bool,
)
    requires
        crossing_records_ok(w0, w1, s1, e1, sens1, s2, e2, sens2),
        body_extended(w1.colliders@[s1], w2.colliders@[s1], e1),
        body_extended(w1.colliders@[s2], w2.colliders@[s2], e2),
        list_of(w1.colliders@[s1], sens1).len() == list_of(w0.colliders@[s1], sens1).len(),
        list_of(w1.colliders@[s2], sens2).len() == list_of(w0.colliders@[s2], sens2).len(),
    ensures
        crossing_records_ok(w0, w2, s1, e1, sens1, s2, e2, sens2),
{
    assert forall|k1: int, k2: int|
        #![trigger pair_hit(
            w0.colliders@[s1],
            sens1,
            k1,
            w0.transforms@[s1],
            w0.colliders@[s2],
            sens2,
            k2,
            w0.transforms@[s2],
        )]
        #![trigger pair_hit(
            w0.colliders@[s2],
            sens2,
            k2,
            w0.transforms@[s2],
            w0.colliders@[s1],
            sens1,
            k1,
            w0.transforms@[s1],
        )]
        0 <= k1 < list_of(w0.colliders@[s1], sens1).len() && 0 <= k2 < list_of(
            w0.colliders@[s2],
            sens2,
        ).len() implies {
            &&& (records_against(sens1, sens2) && pair_hit(
                w0.colliders@[s1],
                sens1,
                k1,
                w0.transforms@[s1],
                w0.colliders@[s2],
                sens2,
                k2,
                w0.transforms@[s2],
            ) ==> has_record(
                w2.colliders@[s1],
                sens1,
                k1,
                list_of(w0.colliders@[s1], sens1)[k1],
                w0.transforms@[s1],
                list_of(w0.colliders@[s2], sens2)[k2],
                w0.transforms@[s2],
                e2,
            ))
            &&& (records_against(sens2, sens1) && pair_hit(
                w0.colliders@[s2],
                sens2,
                k2,
                w0.transforms@[s2],
                w0.colliders@[s1],
                sens1,
                k1,
                w0.transforms@[s1],
            ) ==> has_record(
                w2.colliders@[s2],
                sens2,
                k2,
                list_of(w0.colliders@[s2], sens2)[k2],
                w0.transforms@[s2],
                list_of(w0.colliders@[s1], sens1)[k1],
                w0.transforms@[s1],
                e1,
            ))
        } by {
        let c1 = list_of(w0.colliders@[s1], sens1)[k1];
        let c2 = list_of(w0.colliders@[s2], sens2)[k2];
        if records_against(sens1, sens2) && pair_hit(
            w0.colliders@[s1],
            sens1,
            k1,
            w0.transforms@[s1],
            w0.colliders@[s2],
            sens2,
            k2,
            w0.transforms@[s2],
        ) {
            lemma_record_persists(
                w1.colliders@[s1],
                w2.colliders@[s1],
                e1,
                sens1,
                k1,
                c1,
                w0.transforms@[s1],
                c2,
                w0.transforms@[s2],
                e2,
            );
        }
        if records_against(sens2, sens1) && pair_hit(
            w0.colliders@[s2],
            sens2,
            k2,
            w0.transforms@[s2],
            w0.colliders@[s1],
            sens1,
            k1,
            w0.transforms@[s1],
        ) {
            lemma_record_persists(
                w1.colliders@[s2],
                w2.colliders@[s2],
                e2,
                sens2,
                k2,
                c2,
                w0.transforms@[s2],
                c1,
                w0.transforms@[s1],
                e1,
            );
        }
    }
}

/// The whole-pass guarantee rebased and persisted, one crossing at a time.
pub proof fn lemma_partial_records_chain(
    w0: PhysicsWorld,
    wm: PhysicsWorld,
    wp: PhysicsWorld,
    w2: PhysicsWorld,
    s1: int,
    e1: EntityId,
    s2: int,
    e2: EntityId,
)
    requires
        partial_records_ok(wm, wp, s1, e1, s2, e2),
        body_same_shape(w0.colliders@[s1], wm.colliders@[s1]),
        body_same_shape(w0.colliders@[s2], wm.colliders@[s2]),
        wm.transforms@[s1] == w0.transforms@[s1],
        wm.transforms@[s2] == w0.transforms@[s2],
        body_extended(wp.colliders@[s1], w2.colliders@[s1], e1),
        body_extended(wp.colliders@[s2], w2.colliders@[s2], e2),
        body_same_shape(wm.colliders@[s1], wp.colliders@[s1]),
        body_same_shape(wm.colliders@[s2], wp.colliders@[s2]),
    ensures
        partial_records_ok(w0, w2, s1, e1, s2, e2),
{
    lemma_crossing_rebase(w0, wm, wp, s1, e1, true, s2, e2, true);
    lemma_crossing_rebase(w0, wm, wp, s1, e1, true, s2, e2, false);
    lemma_crossing_rebase(w0, wm, wp, s1, e1, false, s2, e2, true);
    lemma_crossing_rebase(w0, wm, wp, s1, e1, false, s2, e2, false);
    lemma_crossing_persists(w0, wp, w2, s1, e1, true, s2, e2, true);
    lemma_crossing_persists(w0, wp, w2, s1, e1, true, s2, e2, false);
    lemma_crossing_persists(w0, wp, w2, s1, e1, false, s2, e2, true);
    lemma_crossing_persists(w0, wp, w2, s1, e1, false, s2, e2, false);
}

/// Extension is reflexive.
pub proof fn lemma_body_extended_refl(a: CollisionBody, own: EntityId)
    ensures
        body_extended(a, a, own),
{
    assert forall|k: int| 0 <= k < a.colliders@.len() implies collider_extended(
        a.colliders@[k],
        #[trigger] a.colliders@[k],
        own,
    ) by {
        assert(a.colliders@[k].overlapping@ =~= a.colliders@[k].overlapping@.take(
            a.colliders@[k].overlapping@.len() as int,
        ));
    }
    assert forall|k: int| 0 <= k < a.sensors@.len() implies collider_extended(
        a.sensors@[k],
        #[trigger] a.sensors@[k],
        own,
    ) by {
        assert(a.sensors@[k].overlapping@ =~= a.sensors@[k].overlapping@.take(
            a.sensors@[k].overlapping@.len() as int,
        ));
    }
}



/// After a narrow-phase pass between slots `s1` and `s2` of `w0` (ending in
/// `w1`), restricted to one category crossing chosen by the two sensor
/// flags: for every pair that reacts and collides, each side that records
/// under the category rules holds a snapshot record of the pair.
pub open spec fn crossing_records_ok(
    w0: PhysicsWorld,
    w1: PhysicsWorld,
    s1: int,
    e1: EntityId,
    sens1: bool,
    s2: int,
    e2: EntityId,
    sens2: bool,
) -> bool {
    forall|k1: int, k2: int|
        #![trigger pair_hit(
            w0.colliders@[s1],
            sens1,
            k1,
            w0.transforms@[s1],
            w0.colliders@[s2],
            sens2,
            k2,
            w0.transforms@[s2],
        )]
        #![trigger pair_hit(
            w0.colliders@[s2],
            sens2,
            k2,
            w0.transforms@[s2],
            w0.colliders@[s1],
            sens1,
            k1,
            w0.transforms@[s1],
        )]
        0 <= k1 < list_of(w0.colliders@[s1], sens1).len() && 0 <= k2 < list_of(
            w0.colliders@[s2],
            sens2,
        ).len() ==> {
            &&& (records_against(sens1, sens2) && pair_hit(
                w0.colliders@[s1],
                sens1,
                k1,
                w0.transforms@[s1],
                w0.colliders@[s2],
                sens2,
                k2,
                w0.transforms@[s2],
            ) ==> has_record(
                w1.colliders@[s1],
                sens1,
                k1,
                list_of(w0.colliders@[s1], sens1)[k1],
                w0.transforms@[s1],
                list_of(w0.colliders@[s2], sens2)[k2],
                w0.transforms@[s2],
                e2,
            ))
            &&& (records_against(sens2, sens1) && pair_hit(
                w0.colliders@[s2],
                sens2,
                k2,
                w0.transforms@[s2],
                w0.colliders@[s1],
                sens1,
                k1,
                w0.transforms@[s1],
            ) ==> has_record(
                w1.colliders@[s2],
                sens2,
                k2,
                list_of(w0.colliders@[s2], sens2)[k2],
                w0.transforms@[s2],
                list_of(w0.colliders@[s1], sens1)[k1],
                w0.transforms@[s1],
                e1,
            ))
        }
}

/// After a full narrow-phase pass between slots `s1` and `s2`: the recording
/// guarantee of every category crossing (sensors against sensors, sensor
/// against collider either way, collider against collider).
pub open spec fn partial_records_ok(
    w0: PhysicsWorld,
    w1: PhysicsWorld,
    s1: int,
    e1: EntityId,
    s2: int,
    e2: EntityId,
) -> bool {
    &&& crossing_records_ok(w0, w1, s1, e1, true, s2, e2, true)
    &&& crossing_records_ok(w0, w1, s1, e1, true, s2, e2, false)
    &&& crossing_records_ok(w0, w1, s1, e1, false, s2, e2, true)
    &&& crossing_records_ok(w0, w1, s1, e1, false, s2, e2, false)
}

impl PhysicsWorld {
    /// One narrow-phase category crossing: every collider (or sensor, by the
    /// flags) of the body in slot `s1` is tested against every one of the
    /// body in slot `s2`.  For every reacting, colliding pair a record lands
    /// on the first side, and, when `check_both` is set, on the second side;
    /// nothing else changes.
    pub(crate) fn run_crossing(
        &mut self,
        s1: usize,
        e1: EntityId,
        sens1: bool,
        s2: usize,
        e2: EntityId,
        sens2: bool,
        check_both: bool,
    )
        requires
            old(self).wf(),
            s1 < old(self).body_count(),
            s2 < old(self).body_count(),
            s1 != s2,
            e1 == old(self).owners@[s1 as int],
            e2 == old(self).owners@[s2 as int],
        ensures
            final(self).wf(),
            final(self).transforms@ == old(self).transforms@,
            final(self).owners@ == old(self).owners@,
            final(self).sparse@ == old(self).sparse@,
            final(self).broadphase == old(self).broadphase,
            final(self).colliders@.len() == old(self).colliders@.len(),
            forall|s: int|
                0 <= s < old(self).colliders@.len() && s != s1 && s != s2 ==> #[trigger] final(self).colliders@[s] == old(self).colliders@[s],
            body_extended(
                old(self).colliders@[s1 as int],
                final(self).colliders@[s1 as int],
                e1,
            ),
            body_extended(
                old(self).colliders@[s2 as int],
                final(self).colliders@[s2 as int],
                e2,
            ),
            forall|k1: int, k2: int|
                0 <= k1 < list_of(old(self).colliders@[s1 as int], sens1).len() && 0 <= k2
                    < list_of(old(self).colliders@[s2 as int], sens2).len() && #[trigger] pair_hit(
                    old(self).colliders@[s1 as int],
                    sens1,
                    k1,
                    old(self).transforms@[s1 as int],
                    old(self).colliders@[s2 as int],
                    sens2,
                    k2,
                    old(self).transforms@[s2 as int],
                ) ==> has_record(
                    final(self).colliders@[s1 as int],
                    sens1,
                    k1,
                    list_of(old(self).colliders@[s1 as int], sens1)[k1],
                    old(self).transforms@[s1 as int],
                    list_of(old(self).colliders@[s2 as int], sens2)[k2],
                    old(self).transforms@[s2 as int],
                    e2,
                ),
            check_both ==> forall|k1: int, k2: int|
                0 <= k1 < list_of(old(self).colliders@[s1 as int], sens1).len() && 0 <= k2
                    < list_of(old(self).colliders@[s2 as int], sens2).len() && #[trigger] pair_hit(
                    old(self).colliders@[s2 as int],
                    sens2,
                    k2,
                    old(self).transforms@[s2 as int],
                    old(self).colliders@[s1 as int],
                    sens1,
                    k1,
                    old(self).transforms@[s1 as int],
                ) ==> has_record(
                    final(self).colliders@[s2 as int],
                    sens2,
                    k2,
                    list_of(old(self).colliders@[s2 as int], sens2)[k2],
                    old(self).transforms@[s2 as int],
                    list_of(old(self).colliders@[s1 as int], sens1)[k1],
                    old(self).transforms@[s1 as int],
                    e1,
                ),
    {
        let n1 = if sens1 {
            self.colliders[s1].sensors.len()
        } else {
            self.colliders[s1].colliders.len()
        };
        let n2 = if sens2 {
            self.colliders[s2].sensors.len()
        } else {
            self.colliders[s2].colliders.len()
        };
        proof {
            lemma_body_extended_refl(old(self).colliders@[s1 as int], e1);
            lemma_body_extended_refl(old(self).colliders@[s2 as int], e2);
        }
        let mut k1: usize = 0;
        while k1 < n1
            invariant
                old(self).wf(),
                self.wf(),
                0 <= k1 <= n1,
                s1 < old(self).body_count(),
                s2 < old(self).body_count(),
                s1 != s2,
                e1 == old(self).owners@[s1 as int],
                e2 == old(self).owners@[s2 as int],
                n1 == list_of(old(self).colliders@[s1 as int], sens1).len(),
                n2 == list_of(old(self).colliders@[s2 as int], sens2).len(),
                self.transforms@ == old(self).transforms@,
                self.owners@ == old(self).owners@,
                self.sparse@ == old(self).sparse@,
                self.broadphase == old(self).broadphase,
                self.colliders@.len() == old(self).colliders@.len(),
                forall|s: int|
                    0 <= s < old(self).colliders@.len() && s != s1 && s != s2
                        ==> #[trigger] self.colliders@[s] == old(self).colliders@[s],
                body_extended(old(self).colliders@[s1 as int], self.colliders@[s1 as int], e1),
                body_extended(old(self).colliders@[s2 as int], self.colliders@[s2 as int], e2),
                forall|a1: int, a2: int|
                    0 <= a1 < k1 && 0 <= a2 < n2 && #[trigger] pair_hit(
                        old(self).colliders@[s1 as int],
                        sens1,
                        a1,
                        old(self).transforms@[s1 as int],
                        old(self).colliders@[s2 as int],
                        sens2,
                        a2,
                        old(self).transforms@[s2 as int],
                    ) ==> has_record(
                        self.colliders@[s1 as int],
                        sens1,
                        a1,
                        list_of(old(self).colliders@[s1 as int], sens1)[a1],
                        old(self).transforms@[s1 as int],
                        list_of(old(self).colliders@[s2 as int], sens2)[a2],
                        old(self).transforms@[s2 as int],
                        e2,
                    ),
                check_both ==> forall|a1: int, a2: int|
                    0 <= a1 < k1 && 0 <= a2 < n2 && #[trigger] pair_hit(
                        old(self).colliders@[s2 as int],
                        sens2,
                        a2,
                        old(self).transforms@[s2 as int],
                        old(self).colliders@[s1 as int],
                        sens1,
                        a1,
                        old(self).transforms@[s1 as int],
                    ) ==> has_record(
                        self.colliders@[s2 as int],
                        sens2,
                        a2,
                        list_of(old(self).colliders@[s2 as int], sens2)[a2],
                        old(self).transforms@[s2 as int],
                        list_of(old(self).colliders@[s1 as int], sens1)[a1],
                        old(self).transforms@[s1 as int],
                        e1,
                    ),
            decreases n1 - k1,
        {
            let mut k2: usize = 0;
            while k2 < n2
                invariant
                    old(self).wf(),
                    self.wf(),
                    0 <= k1 < n1,
                    0 <= k2 <= n2,
                    s1 < old(self).body_count(),
                    s2 < old(self).body_count(),
                    s1 != s2,
                    e1 == old(self).owners@[s1 as int],
                    e2 == old(self).owners@[s2 as int],
                    n1 == list_of(old(self).colliders@[s1 as int], sens1).len(),
                    n2 == list_of(old(self).colliders@[s2 as int], sens2).len(),
                    self.transforms@ == old(self).transforms@,
                    self.owners@ == old(self).owners@,
                    self.sparse@ == old(self).sparse@,
                    self.broadphase == old(self).broadphase,
                    self.colliders@.len() == old(self).colliders@.len(),
                    forall|s: int|
                        0 <= s < old(self).colliders@.len() && s != s1 && s != s2
                            ==> #[trigger] self.colliders@[s] == old(self).colliders@[s],
                    body_extended(old(self).colliders@[s1 as int], self.colliders@[s1 as int], e1),
                    body_extended(old(self).colliders@[s2 as int], self.colliders@[s2 as int], e2),
                    forall|a1: int, a2: int|
                        0 <= a1 < k1 && 0 <= a2 < n2 && #[trigger] pair_hit(
                            old(self).colliders@[s1 as int],
                            sens1,
                            a1,
                            old(self).transforms@[s1 as int],
                            old(self).colliders@[s2 as int],
                            sens2,
                            a2,
                            old(self).transforms@[s2 as int],
                        ) ==> has_record(
                            self.colliders@[s1 as int],
                            sens1,
                            a1,
                            list_of(old(self).colliders@[s1 as int], sens1)[a1],
                            old(self).transforms@[s1 as int],
                            list_of(old(self).colliders@[s2 as int], sens2)[a2],
                            old(self).transforms@[s2 as int],
                            e2,
                        ),
                    forall|a2: int|
                        0 <= a2 < k2 && #[trigger] pair_hit(
                            old(self).colliders@[s1 as int],
                            sens1,
                            k1 as int,
                            old(self).transforms@[s1 as int],
                            old(self).colliders@[s2 as int],
                            sens2,
                            a2,
                            old(self).transforms@[s2 as int],
                        ) ==> has_record(
                            self.colliders@[s1 as int],
                            sens1,
                            k1 as int,
                            list_of(old(self).colliders@[s1 as int], sens1)[k1 as int],
                            old(self).transforms@[s1 as int],
                            list_of(old(self).colliders@[s2 as int], sens2)[a2],
                            old(self).transforms@[s2 as int],
                            e2,
                        ),
                    check_both ==> forall|a1: int, a2: int|
                        0 <= a1 < k1 && 0 <= a2 < n2 && #[trigger] pair_hit(
                            old(self).colliders@[s2 as int],
                            sens2,
                            a2,
                            old(self).transforms@[s2 as int],
                            old(self).colliders@[s1 as int],
                            sens1,
                            a1,
                            old(self).transforms@[s1 as int],
                        ) ==> has_record(
                            self.colliders@[s2 as int],
                            sens2,
                            a2,
                            list_of(old(self).colliders@[s2 as int], sens2)[a2],
                            old(self).transforms@[s2 as int],
                            list_of(old(self).colliders@[s1 as int], sens1)[a1],
                            old(self).transforms@[s1 as int],
                            e1,
                        ),
                    check_both ==> forall|a2: int|
                        0 <= a2 < k2 && #[trigger] pair_hit(
                            old(self).colliders@[s2 as int],
                            sens2,
                            a2,
                            old(self).transforms@[s2 as int],
                            old(self).colliders@[s1 as int],
                            sens1,
                            k1 as int,
                            old(self).transforms@[s1 as int],
                        ) ==> has_record(
                            self.colliders@[s2 as int],
                            sens2,
                            a2,
                            list_of(old(self).colliders@[s2 as int], sens2)[a2],
                            old(self).transforms@[s2 as int],
                            list_of(old(self).colliders@[s1 as int], sens1)[k1 as int],
                            old(self).transforms@[s1 as int],
                            e1,
                        ),
                decreases n2 - k2,
            {
                let ghost pre = *self;
                self.update_overlapping_single(s1, k1, sens1, e1, s2, k2, sens2, e2, check_both);
                proof {
                    lemma_body_extended_trans(
                        old(self).colliders@[s1 as int],
                        pre.colliders@[s1 as int],
                        self.colliders@[s1 as int],
                        e1,
                    );
                    lemma_body_extended_trans(
                        old(self).colliders@[s2 as int],
                        pre.colliders@[s2 as int],
                        self.colliders@[s2 as int],
                        e2,
                    );
                    let t1 = old(self).transforms@[s1 as int];
                    let t2 = old(self).transforms@[s2 as int];
                    let ob1 = old(self).colliders@[s1 as int];
                    let ob2 = old(self).colliders@[s2 as int];
                    let oc1 = list_of(ob1, sens1)[k1 as int];
                    let oc2 = list_of(ob2, sens2)[k2 as int];
                    let pc1 = list_of(pre.colliders@[s1 as int], sens1)[k1 as int];
                    let pc2 = list_of(pre.colliders@[s2 as int], sens2)[k2 as int];
                    assert(pc1.shape@ == oc1.shape@ && pc1.collides_with == oc1.collides_with
                        && pc1.collision_layer == oc1.collision_layer);
                    assert(pc2.shape@ == oc2.shape@ && pc2.collides_with == oc2.collides_with
                        && pc2.collision_layer == oc2.collision_layer);
                    // the new pair, first side
                    if pair_hit(ob1, sens1, k1 as int, t1, ob2, sens2, k2 as int, t2) {
                        let nc1 = list_of(self.colliders@[s1 as int], sens1)[k1 as int];
                        assert(recorded(nc1, pc1, t1, pc2, t2, e2, reduced(
                            sat_spec(t1, pc1.shape@, t2, pc2.shape@).1->0,
                        )));
                        assert(rec_snapshot(
                            nc1.overlapping@[nc1.overlapping@.len() - 1],
                            oc1,
                            t1,
                            oc2,
                            t2,
                            e2,
                        ));
                        assert(has_record(self.colliders@[s1 as int], sens1, k1 as int, oc1, t1, oc2, t2, e2));
                    }
                    // the new pair, second side
                    if check_both && pair_hit(ob2, sens2, k2 as int, t2, ob1, sens1, k1 as int, t1) {
                        crate::physics::sat::lemma_sat_collided_symmetric(
                            t2,
                            oc2.shape@,
                            t1,
                            oc1.shape@,
                        );
                        let nc2 = list_of(self.colliders@[s2 as int], sens2)[k2 as int];
                        assert(recorded(nc2, pc2, t2, pc1, t1, e1, reduced(
                            neg_v(sat_spec(t1, pc1.shape@, t2, pc2.shape@).1->0),
                        )));
                        assert(rec_snapshot(
                            nc2.overlapping@[nc2.overlapping@.len() - 1],
                            oc2,
                            t2,
                            oc1,
                            t1,
                            e1,
                        ));
                        assert(has_record(self.colliders@[s2 as int], sens2, k2 as int, oc2, t2, oc1, t1, e1));
                    }
                    // earlier pairs persist
                    assert forall|a1: int, a2: int|
                        0 <= a1 < k1 && 0 <= a2 < n2 && #[trigger] pair_hit(
                            ob1,
                            sens1,
                            a1,
                            t1,
                            ob2,
                            sens2,
                            a2,
                            t2,
                        ) implies has_record(
                        self.colliders@[s1 as int],
                        sens1,
                        a1,
                        list_of(ob1, sens1)[a1],
                        t1,
                        list_of(ob2, sens2)[a2],
                        t2,
                        e2,
                    ) by {
                        lemma_record_persists(
                            pre.colliders@[s1 as int],
                            self.colliders@[s1 as int],
                            e1,
                            sens1,
                            a1,
                            list_of(ob1, sens1)[a1],
                            t1,
                            list_of(ob2, sens2)[a2],
                            t2,
                            e2,
                        );
                    }
                    assert forall|a2: int|
                        0 <= a2 < k2 && #[trigger] pair_hit(
                            ob1,
                            sens1,
                            k1 as int,
                            t1,
                            ob2,
                            sens2,
                            a2,
                            t2,
                        ) implies has_record(
                        self.colliders@[s1 as int],
                        sens1,
                        k1 as int,
                        oc1,
                        t1,
                        list_of(ob2, sens2)[a2],
                        t2,
                        e2,
                    ) by {
                        lemma_record_persists(
                            pre.colliders@[s1 as int],
                            self.colliders@[s1 as int],
                            e1,
                            sens1,
                            k1 as int,
                            oc1,
                            t1,
                            list_of(ob2, sens2)[a2],
                            t2,
                            e2,
                        );
                    }
                    if check_both {
                        assert forall|a1: int, a2: int|
                            0 <= a1 < k1 && 0 <= a2 < n2 && #[trigger] pair_hit(
                                ob2,
                                sens2,
                                a2,
                                t2,
                                ob1,
                                sens1,
                                a1,
                                t1,
                            ) implies has_record(
                            self.colliders@[s2 as int],
                            sens2,
                            a2,
                            list_of(ob2, sens2)[a2],
                            t2,
                            list_of(ob1, sens1)[a1],
                            t1,
                            e1,
                        ) by {
                            lemma_record_persists(
                                pre.colliders@[s2 as int],
                                self.colliders@[s2 as int],
                                e2,
                                sens2,
                                a2,
                                list_of(ob2, sens2)[a2],
                                t2,
                                list_of(ob1, sens1)[a1],
                                t1,
                                e1,
                            );
                        }
                        assert forall|a2: int|
                            0 <= a2 < k2 && #[trigger] pair_hit(
                                ob2,
                                sens2,
                                a2,
                                t2,
                                ob1,
                                sens1,
                                k1 as int,
                                t1,
                            ) implies has_record(
                            self.colliders@[s2 as int],
                            sens2,
                            a2,
                            list_of(ob2, sens2)[a2],
                            t2,
                            oc1,
                            t1,
                            e1,
                        ) by {
                            lemma_record_persists(
                                pre.colliders@[s2 as int],
                                self.colliders@[s2 as int],
                                e2,
                                sens2,
                                a2,
                                list_of(ob2, sens2)[a2],
                                t2,
                                oc1,
                                t1,
                                e1,
                            );
                        }
                    }
                }
                k2 = k2 + 1;
            }
            k1 = k1 + 1;
        }
    }
}

impl PhysicsWorld {
    /// Runs the narrow phase between the bodies in slots `s1` and `s2`, one
    /// category at a time: sensors against sensors (recorded on both sides),
    /// the first body's sensors against the second's colliders (recorded on
    /// the sensor only), the second body's sensors against the first's
    /// colliders (likewise), and colliders against colliders (recorded on
    /// both sides).  For every reacting, colliding pair, each side that
    /// records under those rules gains a snapshot record of the pair.  No
    /// transform is changed.
    #[verifier::rlimit(100)]
    pub(crate) fn update_overlapping_partial(
        &mut self,
        s1: usize,
        e1: EntityId,
        s2: usize,
        e2: EntityId,
    )
        requires
            old(self).wf(),
            s1 < old(self).body_count(),
            s2 < old(self).body_count(),
            s1 != s2,
            e1 == old(self).owners@[s1 as int],
            e2 == old(self).owners@[s2 as int],
        ensures
            final(self).wf(),
            final(self).transforms@ == old(self).transforms@,
            final(self).owners@ == old(self).owners@,
            final(self).sparse@ == old(self).sparse@,
            final(self).broadphase == old(self).broadphase,
            final(self).colliders@.len() == old(self).colliders@.len(),
            forall|s: int|
                0 <= s < old(self).colliders@.len() && s != s1 && s != s2 ==> #[trigger] final(self).colliders@[s] == old(self).colliders@[s],
            body_extended(
                old(self).colliders@[s1 as int],
                final(self).colliders@[s1 as int],
                e1,
            ),
            body_extended(
                old(self).colliders@[s2 as int],
                final(self).colliders@[s2 as int],
                e2,
            ),
            partial_records_ok(*old(self), *final(self), s1 as int, e1, s2 as int, e2),
    {
        let ghost t1 = old(self).transforms@[s1 as int];
        let ghost t2 = old(self).transforms@[s2 as int];
        let ghost ob1 = old(self).colliders@[s1 as int];
        let ghost ob2 = old(self).colliders@[s2 as int];
        // Sensor x sensor, recorded on both sides.
        self.run_crossing(s1, e1, true, s2, e2, true, true);
        let ghost g1 = *self;
        // Sensors of the first body x colliders of the second, one-sided.
        self.run_crossing(s1, e1, true, s2, e2, false, false);
        let ghost g2 = *self;
        // Sensors of the second body x colliders of the first, one-sided.
        self.run_crossing(s2, e2, true, s1, e1, false, false);
        let ghost g3 = *self;
        // Collider x collider, recorded on both sides.
        self.run_crossing(s1, e1, false, s2, e2, false, true);
        proof {
            lemma_body_extended_trans(
                ob1,
                g1.colliders@[s1 as int],
                g2.colliders@[s1 as int],
                e1,
            );
            lemma_body_extended_trans(
                ob1,
                g2.colliders@[s1 as int],
                g3.colliders@[s1 as int],
                e1,
            );
            lemma_body_extended_trans(
                ob1,
                g3.colliders@[s1 as int],
                final(self).colliders@[s1 as int],
                e1,
            );
            lemma_body_extended_trans(
                ob2,
                g1.colliders@[s2 as int],
                g2.colliders@[s2 as int],
                e2,
            );
            lemma_body_extended_trans(
                ob2,
                g2.colliders@[s2 as int],
                g3.colliders@[s2 as int],
                e2,
            );
            lemma_body_extended_trans(
                ob2,
                g3.colliders@[s2 as int],
                final(self).colliders@[s2 as int],
                e2,
            );
            assert forall|k1: int, k2: int|
                #![trigger pair_hit(
                    old(self).colliders@[s1 as int],
                    true,
                    k1,
                    old(self).transforms@[s1 as int],
                    old(self).colliders@[s2 as int],
                    true,
                    k2,
                    old(self).transforms@[s2 as int],
                )]
                #![trigger pair_hit(
                    old(self).colliders@[s2 as int],
                    true,
                    k2,
                    old(self).transforms@[s2 as int],
                    old(self).colliders@[s1 as int],
                    true,
                    k1,
                    old(self).transforms@[s1 as int],
                )]
                0 <= k1 < list_of(old(self).colliders@[s1 as int], true).len() && 0 <= k2
                    < list_of(old(self).colliders@[s2 as int], true).len() implies {
                    &&& (records_against(true, true) && pair_hit(
                        old(self).colliders@[s1 as int],
                        true,
                        k1,
                        old(self).transforms@[s1 as int],
                        old(self).colliders@[s2 as int],
                        true,
                        k2,
                        old(self).transforms@[s2 as int],
                    ) ==> has_record(
                        final(self).colliders@[s1 as int],
                        true,
                        k1,
                        list_of(old(self).colliders@[s1 as int], true)[k1],
                        old(self).transforms@[s1 as int],
                        list_of(old(self).colliders@[s2 as int], true)[k2],
                        old(self).transforms@[s2 as int],
                        e2,
                    ))
                    &&& (records_against(true, true) && pair_hit(
                        old(self).colliders@[s2 as int],
                        true,
                        k2,
                        old(self).transforms@[s2 as int],
                        old(self).colliders@[s1 as int],
                        true,
                        k1,
                        old(self).transforms@[s1 as int],
                    ) ==> has_record(
                        final(self).colliders@[s2 as int],
                        true,
                        k2,
                        list_of(old(self).colliders@[s2 as int], true)[k2],
                        old(self).transforms@[s2 as int],
                        list_of(old(self).colliders@[s1 as int], true)[k1],
                        old(self).transforms@[s1 as int],
                        e1,
                    ))
                } by {
                let sens1 = true;
                let sens2 = true;
                let c1 = list_of(ob1, sens1)[k1];
                let c2 = list_of(ob2, sens2)[k2];
                lemma_pair_hit_stable(ob1, g1.colliders@[s1 as int], e1, ob2, g1.colliders@[s2 as int], e2, sens1, k1, t1, sens2, k2, t2);
                lemma_pair_hit_stable(ob1, g2.colliders@[s1 as int], e1, ob2, g2.colliders@[s2 as int], e2, sens1, k1, t1, sens2, k2, t2);
                lemma_pair_hit_stable(ob1, g3.colliders@[s1 as int], e1, ob2, g3.colliders@[s2 as int], e2, sens1, k1, t1, sens2, k2, t2);
                if pair_hit(ob1, sens1, k1, t1, ob2, sens2, k2, t2) {
                    lemma_record_persists(g1.colliders@[s1 as int], g2.colliders@[s1 as int], e1, sens1, k1, c1, t1, c2, t2, e2);
                    lemma_record_persists(g2.colliders@[s1 as int], g3.colliders@[s1 as int], e1, sens1, k1, c1, t1, c2, t2, e2);
                    lemma_record_persists(g3.colliders@[s1 as int], final(self).colliders@[s1 as int], e1, sens1, k1, c1, t1, c2, t2, e2);
                }
                if pair_hit(ob2, sens2, k2, t2, ob1, sens1, k1, t1) {
                    lemma_record_persists(g1.colliders@[s2 as int], g2.colliders@[s2 as int], e2, sens2, k2, c2, t2, c1, t1, e1);
                    lemma_record_persists(g2.colliders@[s2 as int], g3.colliders@[s2 as int], e2, sens2, k2, c2, t2, c1, t1, e1);
                    lemma_record_persists(g3.colliders@[s2 as int], final(self).colliders@[s2 as int], e2, sens2, k2, c2, t2, c1, t1, e1);
                }
            }
            assert(crossing_records_ok(*old(self), *final(self), s1 as int, e1, true, s2 as int, e2, true));
            assert forall|k1: int, k2: int|
                #![trigger pair_hit(
                    old(self).colliders@[s1 as int],
                    true,
                    k1,
                    old(self).transforms@[s1 as int],
                    old(self).colliders@[s2 as int],
                    false,
                    k2,
                    old(self).transforms@[s2 as int],
                )]
                #![trigger pair_hit(
                    old(self).colliders@[s2 as int],
                    false,
                    k2,
                    old(self).transforms@[s2 as int],
                    old(self).colliders@[s1 as int],
                    true,
                    k1,
                    old(self).transforms@[s1 as int],
                )]
                0 <= k1 < list_of(old(self).colliders@[s1 as int], true).len() && 0 <= k2
                    < list_of(old(self).colliders@[s2 as int], false).len() implies {
                    &&& (records_against(true, false) && pair_hit(
                        old(self).colliders@[s1 as int],
                        true,
                        k1,
                        old(self).transforms@[s1 as int],
                        old(self).colliders@[s2 as int],
                        false,
                        k2,
                        old(self).transforms@[s2 as int],
                    ) ==> has_record(
                        final(self).colliders@[s1 as int],
                        true,
                        k1,
                        list_of(old(self).colliders@[s1 as int], true)[k1],
                        old(self).transforms@[s1 as int],
                        list_of(old(self).colliders@[s2 as int], false)[k2],
                        old(self).transforms@[s2 as int],
                        e2,
                    ))
                    &&& (records_against(false, true) && pair_hit(
                        old(self).colliders@[s2 as int],
                        false,
                        k2,
                        old(self).transforms@[s2 as int],
                        old(self).colliders@[s1 as int],
                        true,
                        k1,
                        old(self).transforms@[s1 as int],
                    ) ==> has_record(
                        final(self).colliders@[s2 as int],
                        false,
                        k2,
                        list_of(old(self).colliders@[s2 as int], false)[k2],
                        old(self).transforms@[s2 as int],
                        list_of(old(self).colliders@[s1 as int], true)[k1],
                        old(self).transforms@[s1 as int],
                        e1,
                    ))
                } by {
                let sens1 = true;
                let sens2 = false;
                let c1 = list_of(ob1, sens1)[k1];
                let c2 = list_of(ob2, sens2)[k2];
                lemma_pair_hit_stable(ob1, g1.colliders@[s1 as int], e1, ob2, g1.colliders@[s2 as int], e2, sens1, k1, t1, sens2, k2, t2);
                lemma_pair_hit_stable(ob1, g2.colliders@[s1 as int], e1, ob2, g2.colliders@[s2 as int], e2, sens1, k1, t1, sens2, k2, t2);
                lemma_pair_hit_stable(ob1, g3.colliders@[s1 as int], e1, ob2, g3.colliders@[s2 as int], e2, sens1, k1, t1, sens2, k2, t2);
                if pair_hit(ob1, sens1, k1, t1, ob2, sens2, k2, t2) {
                    assert(pair_hit(g1.colliders@[s1 as int], sens1, k1, t1, g1.colliders@[s2 as int], sens2, k2, t2));
                    assert(has_record(g2.colliders@[s1 as int], sens1, k1, list_of(g1.colliders@[s1 as int], sens1)[k1], t1, list_of(g1.colliders@[s2 as int], sens2)[k2], t2, e2));
                    lemma_has_record_congruent(g2.colliders@[s1 as int], sens1, k1, list_of(g1.colliders@[s1 as int], sens1)[k1], c1, t1, list_of(g1.colliders@[s2 as int], sens2)[k2], c2, t2, e2);
                    lemma_record_persists(g2.colliders@[s1 as int], g3.colliders@[s1 as int], e1, sens1, k1, c1, t1, c2, t2, e2);
                    lemma_record_persists(g3.colliders@[s1 as int], final(self).colliders@[s1 as int], e1, sens1, k1, c1, t1, c2, t2, e2);
                }
            }
            assert(crossing_records_ok(*old(self), *final(self), s1 as int, e1, true, s2 as int, e2, false));
            assert forall|k1: int, k2: int|
                #![trigger pair_hit(
                    old(self).colliders@[s1 as int],
                    false,
                    k1,
                    old(self).transforms@[s1 as int],
                    old(self).colliders@[s2 as int],
                    true,
                    k2,
                    old(self).transforms@[s2 as int],
                )]
                #![trigger pair_hit(
                    old(self).colliders@[s2 as int],
                    true,
                    k2,
                    old(self).transforms@[s2 as int],
                    old(self).colliders@[s1 as int],
                    false,
                    k1,
                    old(self).transforms@[s1 as int],
                )]
                0 <= k1 < list_of(old(self).colliders@[s1 as int], false).len() && 0 <= k2
                    < list_of(old(self).colliders@[s2 as int], true).len() implies {
                    &&& (records_against(false, true) && pair_hit(
                        old(self).colliders@[s1 as int],
                        false,
                        k1,
                        old(self).transforms@[s1 as int],
                        old(self).colliders@[s2 as int],
                        true,
                        k2,
                        old(self).transforms@[s2 as int],
                    ) ==> has_record(
                        final(self).colliders@[s1 as int],
                        false,
                        k1,
                        list_of(old(self).colliders@[s1 as int], false)[k1],
                        old(self).transforms@[s1 as int],
                        list_of(old(self).colliders@[s2 as int], true)[k2],
                        old(self).transforms@[s2 as int],
                        e2,
                    ))
                    &&& (records_against(true, false) && pair_hit(
                        old(self).colliders@[s2 as int],
                        true,
                        k2,
                        old(self).transforms@[s2 as int],
                        old(self).colliders@[s1 as int],
                        false,
                        k1,
                        old(self).transforms@[s1 as int],
                    ) ==> has_record(
                        final(self).colliders@[s2 as int],
                        true,
                        k2,
                        list_of(old(self).colliders@[s2 as int], true)[k2],
                        old(self).transforms@[s2 as int],
                        list_of(old(self).colliders@[s1 as int], false)[k1],
                        old(self).transforms@[s1 as int],
                        e1,
                    ))
                } by {
                let sens1 = false;
                let sens2 = true;
                let c1 = list_of(ob1, sens1)[k1];
                let c2 = list_of(ob2, sens2)[k2];
                lemma_pair_hit_stable(ob1, g1.colliders@[s1 as int], e1, ob2, g1.colliders@[s2 as int], e2, sens1, k1, t1, sens2, k2, t2);
                lemma_pair_hit_stable(ob1, g2.colliders@[s1 as int], e1, ob2, g2.colliders@[s2 as int], e2, sens1, k1, t1, sens2, k2, t2);
                lemma_pair_hit_stable(ob1, g3.colliders@[s1 as int], e1, ob2, g3.colliders@[s2 as int], e2, sens1, k1, t1, sens2, k2, t2);
                if pair_hit(ob2, sens2, k2, t2, ob1, sens1, k1, t1) {
                    assert(g2.transforms@ == old(self).transforms@);
                    assert(pair_hit(g2.colliders@[s2 as int], sens2, k2, t2, g2.colliders@[s1 as int], sens1, k1, t1)) by {
                        lemma_pair_hit_stable(ob2, g2.colliders@[s2 as int], e2, ob1, g2.colliders@[s1 as int], e1, sens2, k2, t2, sens1, k1, t1);
                    }
                    assert(pair_hit(
                        g2.colliders@[s2 as int],
                        true,
                        k2,
                        g2.transforms@[s2 as int],
                        g2.colliders@[s1 as int],
                        false,
                        k1,
                        g2.transforms@[s1 as int],
                    ));
                    assert(has_record(g3.colliders@[s2 as int], sens2, k2, list_of(g2.colliders@[s2 as int], sens2)[k2], t2, list_of(g2.colliders@[s1 as int], sens1)[k1], t1, e1));
                    lemma_has_record_congruent(g3.colliders@[s2 as int], sens2, k2, list_of(g2.colliders@[s2 as int], sens2)[k2], c2, t2, list_of(g2.colliders@[s1 as int], sens1)[k1], c1, t1, e1);
                    lemma_record_persists(g3.colliders@[s2 as int], final(self).colliders@[s2 as int], e2, sens2, k2, c2, t2, c1, t1, e1);
                }
            }
            assert(crossing_records_ok(*old(self), *final(self), s1 as int, e1, false, s2 as int, e2, true));
            assert forall|k1: int, k2: int|
                #![trigger pair_hit(
                    old(self).colliders@[s1 as int],
                    false,
                    k1,
                    old(self).transforms@[s1 as int],
                    old(self).colliders@[s2 as int],
                    false,
                    k2,
                    old(self).transforms@[s2 as int],
                )]
                #![trigger pair_hit(
                    old(self).colliders@[s2 as int],
                    false,
                    k2,
                    old(self).transforms@[s2 as int],
                    old(self).colliders@[s1 as int],
                    false,
                    k1,
                    old(self).transforms@[s1 as int],
                )]
                0 <= k1 < list_of(old(self).colliders@[s1 as int], false).len() && 0 <= k2
                    < list_of(old(self).colliders@[s2 as int], false).len() implies {
                    &&& (records_against(false, false) && pair_hit(
                        old(self).colliders@[s1 as int],
                        false,
                        k1,
                        old(self).transforms@[s1 as int],
                        old(self).colliders@[s2 as int],
                        false,
                        k2,
                        old(self).transforms@[s2 as int],
                    ) ==> has_record(
                        final(self).colliders@[s1 as int],
                        false,
                        k1,
                        list_of(old(self).colliders@[s1 as int], false)[k1],
                        old(self).transforms@[s1 as int],
                        list_of(old(self).colliders@[s2 as int], false)[k2],
                        old(self).transforms@[s2 as int],
                        e2,
                    ))
                    &&& (records_against(false, false) && pair_hit(
                        old(self).colliders@[s2 as int],
                        false,
                        k2,
                        old(self).transforms@[s2 as int],
                        old(self).colliders@[s1 as int],
                        false,
                        k1,
                        old(self).transforms@[s1 as int],
                    ) ==> has_record(
                        final(self).colliders@[s2 as int],
                        false,
                        k2,
                        list_of(old(self).colliders@[s2 as int], false)[k2],
                        old(self).transforms@[s2 as int],
                        list_of(old(self).colliders@[s1 as int], false)[k1],
                        old(self).transforms@[s1 as int],
                        e1,
                    ))
                } by {
                let sens1 = false;
                let sens2 = false;
                let c1 = list_of(ob1, sens1)[k1];
                let c2 = list_of(ob2, sens2)[k2];
                lemma_pair_hit_stable(ob1, g1.colliders@[s1 as int], e1, ob2, g1.colliders@[s2 as int], e2, sens1, k1, t1, sens2, k2, t2);
                lemma_pair_hit_stable(ob1, g2.colliders@[s1 as int], e1, ob2, g2.colliders@[s2 as int], e2, sens1, k1, t1, sens2, k2, t2);
                lemma_pair_hit_stable(ob1, g3.colliders@[s1 as int], e1, ob2, g3.colliders@[s2 as int], e2, sens1, k1, t1, sens2, k2, t2);
                if pair_hit(ob1, sens1, k1, t1, ob2, sens2, k2, t2) {
                    assert(pair_hit(g3.colliders@[s1 as int], sens1, k1, t1, g3.colliders@[s2 as int], sens2, k2, t2));
                    assert(has_record(final(self).colliders@[s1 as int], sens1, k1, list_of(g3.colliders@[s1 as int], sens1)[k1], t1, list_of(g3.colliders@[s2 as int], sens2)[k2], t2, e2));
                    lemma_has_record_congruent(final(self).colliders@[s1 as int], sens1, k1, list_of(g3.colliders@[s1 as int], sens1)[k1], c1, t1, list_of(g3.colliders@[s2 as int], sens2)[k2], c2, t2, e2);
                }
                if pair_hit(ob2, sens2, k2, t2, ob1, sens1, k1, t1) {
                    assert(pair_hit(g3.colliders@[s2 as int], sens2, k2, t2, g3.colliders@[s1 as int], sens1, k1, t1)) by {
                        lemma_pair_hit_stable(ob2, g3.colliders@[s2 as int], e2, ob1, g3.colliders@[s1 as int], e1, sens2, k2, t2, sens1, k1, t1);
                    }
                    assert(has_record(final(self).colliders@[s2 as int], sens2, k2, list_of(g3.colliders@[s2 as int], sens2)[k2], t2, list_of(g3.colliders@[s1 as int], sens1)[k1], t1, e1));
                    lemma_has_record_congruent(final(self).colliders@[s2 as int], sens2, k2, list_of(g3.colliders@[s2 as int], sens2)[k2], c2, t2, list_of(g3.colliders@[s1 as int], sens1)[k1], c1, t1, e1);
                }
            }
            assert(crossing_records_ok(*old(self), *final(self), s1 as int, e1, false, s2 as int, e2, false));
            assert(partial_records_ok(*old(self), *final(self), s1 as int, e1, s2 as int, e2));
        }
    }

    /// Finds every body whose cells the moving body's box touches and records
    /// the overlaps on every side whose mask matches.  Each body's lists only
    /// grow, by mask-matched records naming some other body.
    pub(crate) fn update_overlapping(&mut self, body: EntityId)
        requires
            old(self).wf(),
            old(self).live(body),
        ensures
            final(self).wf(),
            final(self).transforms@ == old(self).transforms@,
            final(self).owners@ == old(self).owners@,
            final(self).sparse@ == old(self).sparse@,
            final(self).broadphase.bucket_width == old(self).broadphase.bucket_width,
            final(self).broadphase.bucket_height == old(self).broadphase.bucket_height,
            forall|cx: int, cy: int| #[trigger]
                final(self).broadphase.cell_seq(cx, cy) == old(self).broadphase.cell_seq(cx, cy),
            final(self).colliders@.len() == old(self).colliders@.len(),
            forall|s: int|
                0 <= s < old(self).colliders@.len() ==> body_extended(
                    old(self).colliders@[s],
                    #[trigger] final(self).colliders@[s],
                    old(self).owners@[s],
                ),
            // every live body in the mover's broad-phase neighbourhood got
            // the full narrow-phase pass against the mover
            forall|e: EntityId|
                old(self).live(e) && e != body && old(self).broadphase.in_nearby(
                    body,
                    old(self).transforms@[old(self).slot_of(body)],
                    old(self).colliders@[old(self).slot_of(body)].aabb,
                    e,
                ) ==> partial_records_ok(
                    *old(self),
                    *final(self),
                    old(self).slot_of(body),
                    body,
                    #[trigger] old(self).slot_of(e),
                    e,
                ),
    {
        let slot = self.sparse[body.uindex()].unwrap();
        let t = self.transforms[slot];
        let aabb = self.colliders[slot].aabb;
        let near = self.broadphase.nearby(body, &t, &aabb);
        proof {
            assert(!near@.contains(body));
            assert(near@.no_duplicates());
            assert forall|s: int| 0 <= s < old(self).colliders@.len() implies body_extended(
                old(self).colliders@[s],
                #[trigger] self.colliders@[s],
                old(self).owners@[s],
            ) by {
                lemma_body_extended_refl(old(self).colliders@[s], old(self).owners@[s]);
            }
        }
        let mut i: usize = 0;
        while i < near.len()
            invariant
                old(self).wf(),
                old(self).live(body),
                self.wf(),
                slot == old(self).slot_of(body),
                slot < old(self).body_count(),
                body == old(self).owners@[slot as int],
                self.transforms@ == old(self).transforms@,
                self.owners@ == old(self).owners@,
                self.sparse@ == old(self).sparse@,
                self.broadphase.bucket_width == old(self).broadphase.bucket_width,
                self.broadphase.bucket_height == old(self).broadphase.bucket_height,
                forall|cx: int, cy: int| #[trigger]
                    self.broadphase.cell_seq(cx, cy) == old(self).broadphase.cell_seq(cx, cy),
                self.colliders@.len() == old(self).colliders@.len(),
                !near@.contains(body),
                near@.no_duplicates(),
                forall|x: EntityId| near@.contains(x) == old(self).broadphase.in_nearby(
                    body,
                    old(self).transforms@[old(self).slot_of(body)],
                    old(self).colliders@[old(self).slot_of(body)].aabb,
                    x,
                ),
                forall|s: int|
                    0 <= s < old(self).colliders@.len() ==> body_extended(
                        old(self).colliders@[s],
                        #[trigger] self.colliders@[s],
                        old(self).owners@[s],
                    ),
                forall|j: int|
                    0 <= j < i && old(self).live(#[trigger] near@[j]) ==> partial_records_ok(
                        *old(self),
                        *self,
                        old(self).slot_of(body),
                        body,
                        old(self).slot_of(near@[j]),
                        near@[j],
                    ),
            decreases near@.len() - i,
        {
            let e = near[i];
            proof {
                assert(near@[i as int] == e);
                if e == body {
                    assert(near@.contains(body));
                }
            }
            if e.uindex() < self.sparse.len() {
                if let Some(s2) = self.sparse[e.uindex()] {
                    if self.owners[s2] == e {
                        proof {
                            assert(s2 != slot);
                            assert(old(self).live(e));
                            assert(old(self).slot_of(e) == s2);
                        }
                        let ghost pre = *self;
                        self.update_overlapping_partial(slot, body, s2, e);
                        proof {
                            assert forall|s: int|
                                0 <= s < old(self).colliders@.len() implies body_extended(
                                old(self).colliders@[s],
                                #[trigger] self.colliders@[s],
                                old(self).owners@[s],
                            ) by {
                                lemma_body_extended_trans(
                                    old(self).colliders@[s],
                                    pre.colliders@[s],
                                    self.colliders@[s],
                                    old(self).owners@[s],
                                );
                            }
                            assert forall|j: int|
                                0 <= j < i + 1 && old(self).live(#[trigger] near@[j])
                                implies partial_records_ok(
                                *old(self),
                                *self,
                                old(self).slot_of(body),
                                body,
                                old(self).slot_of(near@[j]),
                                near@[j],
                            ) by {
                                let sj = old(self).slot_of(near@[j]);
                                lemma_related_same_shape(
                                    old(self).colliders@[slot as int],
                                    pre.colliders@[slot as int],
                                    body,
                                );
                                lemma_related_same_shape(
                                    old(self).colliders@[sj],
                                    pre.colliders@[sj],
                                    old(self).owners@[sj],
                                );
                                lemma_related_same_shape(
                                    pre.colliders@[slot as int],
                                    self.colliders@[slot as int],
                                    body,
                                );
                                lemma_related_same_shape(
                                    pre.colliders@[sj],
                                    self.colliders@[sj],
                                    old(self).owners@[sj],
                                );
                                if j == i {
                                    assert(near@[j] == e && sj == s2);
                                    lemma_partial_records_chain(
                                        *old(self),
                                        pre,
                                        *self,
                                        *self,
                                        slot as int,
                                        body,
                                        s2 as int,
                                        e,
                                    );
                                } else {
                                    if sj == s2 {
                                        assert(old(self).owners@[sj] == near@[j]);
                                        assert(old(self).owners@[s2 as int] == e);
                                        assert(near@[j] == near@[i as int]);
                                        assert(false);
                                    }
                                    assert(self.colliders@[sj] == pre.colliders@[sj]);
                                    lemma_body_extended_refl(
                                        pre.colliders@[sj],
                                        old(self).owners@[sj],
                                    );
                                    lemma_partial_records_chain(
                                        *old(self),
                                        *old(self),
                                        pre,
                                        *self,
                                        slot as int,
                                        body,
                                        sj,
                                        near@[j],
                                    );
                                }
                            }
                        }
                    }
                }
            }
            i = i + 1;
        }
        proof {
            assert forall|e: EntityId|
                old(self).live(e) && e != body && old(self).broadphase.in_nearby(
                    body,
                    old(self).transforms@[old(self).slot_of(body)],
                    old(self).colliders@[old(self).slot_of(body)].aabb,
                    e,
                ) implies partial_records_ok(
                *old(self),
                *final(self),
                old(self).slot_of(body),
                body,
                #[trigger] old(self).slot_of(e),
                e,
            ) by {
                assert(near@.contains(e));
                let j = choose|j: int| 0 <= j < near@.len() && near@[j] == e;
                assert(old(self).live(near@[j]));
            }
        }
    }
}


/// `b` has the same collider/sensor skeleton as `a`: the same list lengths,
/// shapes, masks and bounding box; only the collision lists may differ.
pub open spec fn body_same_shape(a: CollisionBody, b: CollisionBody) -> bool {
    &&& b.colliders@.len() == a.colliders@.len()
    &&& b.sensors@.len() == a.sensors@.len()
    &&& forall|k: int|
        0 <= k < a.colliders@.len() ==> (#[trigger] b.colliders@[k]).shape@ == a.colliders@[k].shape@
            && b.colliders@[k].collision_layer == a.colliders@[k].collision_layer
            && b.colliders@[k].collides_with == a.colliders@[k].collides_with
    &&& forall|k: int|
        0 <= k < a.sensors@.len() ==> (#[trigger] b.sensors@[k]).shape@ == a.sensors@[k].shape@
            && b.sensors@[k].collision_layer == a.sensors@[k].collision_layer
            && b.sensors@[k].collides_with == a.sensors@[k].collides_with
    &&& b.aabb == a.aabb
}

/// A purged, cleared or extended body keeps its skeleton.
pub proof fn lemma_related_same_shape(a: CollisionBody, b: CollisionBody, e: EntityId)
    requires
        body_purged_or_same(a, b, e) || body_extended(a, b, e),
    ensures
        body_same_shape(a, b),
{
}

/// Skeleton preservation is transitive.
pub proof fn lemma_same_shape_trans(a: CollisionBody, b: CollisionBody, c: CollisionBody)
    requires
        body_same_shape(a, b),
        body_same_shape(b, c),
    ensures
        body_same_shape(a, c),
{
}

/// Clamps a coordinate into the world bound.
fn clamp_coord(x: i64) -> (r: i64)
    ensures
        -POS_LIMIT <= r <= POS_LIMIT,
        (-POS_LIMIT <= x <= POS_LIMIT) ==> r == x,
{
    if x > POS_LIMIT {
        POS_LIMIT
    } else if x < -POS_LIMIT {
        -POS_LIMIT
    } else {
        x
    }
}

impl PhysicsWorld {
    /// Clears the records of the moving body (and the records about it held
    /// nearby), and takes it out of the broad phase at its current position.
    pub(crate) fn handle_pre_movement(&mut self, id: EntityId)
        requires
            old(self).wf(),
            old(self).live(id),
        ensures
            final(self).wf(),
            final(self).live(id),
            final(self).transforms@ == old(self).transforms@,
            final(self).owners@ == old(self).owners@,
            final(self).sparse@ == old(self).sparse@,
            final(self).broadphase.bucket_width == old(self).broadphase.bucket_width,
            final(self).broadphase.bucket_height == old(self).broadphase.bucket_height,
            final(self).colliders@.len() == old(self).colliders@.len(),
            forall|s: int|
                0 <= s < old(self).colliders@.len() ==> body_same_shape(
                    old(self).colliders@[s],
                    #[trigger] final(self).colliders@[s],
                ),
            body_recs_empty(final(self).colliders@[old(self).slot_of(id)]),
            // the body leaves the broad phase at its current box: covered
            // cells are filtered of its handle, all others are untouched
            forall|cx: int, cy: int|
                covers(
                    old(self).broadphase.bucket_width as int,
                    old(self).broadphase.bucket_height as int,
                    old(self).transforms@[old(self).slot_of(id)],
                    old(self).colliders@[old(self).slot_of(id)].aabb,
                    cx,
                    cy,
                ) ==> #[trigger] final(self).broadphase.cell_seq(cx, cy) == old(
                    self,
                ).broadphase.cell_seq(cx, cy).filter(|e: EntityId| e != id),
            forall|cx: int, cy: int|
                !covers(
                    old(self).broadphase.bucket_width as int,
                    old(self).broadphase.bucket_height as int,
                    old(self).transforms@[old(self).slot_of(id)],
                    old(self).colliders@[old(self).slot_of(id)].aabb,
                    cx,
                    cy,
                ) ==> #[trigger] final(self).broadphase.cell_seq(cx, cy) == old(
                    self,
                ).broadphase.cell_seq(cx, cy),
    {
        self.remove_overlapping(id);
        let slot = self.sparse[id.uindex()].unwrap();
        let t = self.transforms[slot];
        let aabb = self.colliders[slot].aabb;
        self.broadphase.remove(id, &t, &aabb);
        proof {
            assert forall|s: int| 0 <= s < old(self).colliders@.len() implies body_same_shape(
                old(self).colliders@[s],
                #[trigger] self.colliders@[s],
            ) by {
                lemma_related_same_shape(old(self).colliders@[s], self.colliders@[s], id);
            }
        }
    }

    /// Records the overlaps of the moving body at its current position and
    /// puts it back into the broad phase there.
    pub(crate) fn handle_movement(&mut self, id: EntityId)
        requires
            old(self).wf(),
            old(self).live(id),
        ensures
            final(self).wf(),
            final(self).live(id),
            final(self).transforms@ == old(self).transforms@,
            final(self).owners@ == old(self).owners@,
            final(self).sparse@ == old(self).sparse@,
            final(self).broadphase.bucket_width == old(self).broadphase.bucket_width,
            final(self).broadphase.bucket_height == old(self).broadphase.bucket_height,
            final(self).colliders@.len() == old(self).colliders@.len(),
            forall|s: int|
                0 <= s < old(self).colliders@.len() ==> body_extended(
                    old(self).colliders@[s],
                    #[trigger] final(self).colliders@[s],
                    old(self).owners@[s],
                ),
            // the body enters the broad phase at its current box: its handle
            // is appended to every covered cell, all others are untouched
            forall|cx: int, cy: int|
                covers(
                    old(self).broadphase.bucket_width as int,
                    old(self).broadphase.bucket_height as int,
                    old(self).transforms@[old(self).slot_of(id)],
                    old(self).colliders@[old(self).slot_of(id)].aabb,
                    cx,
                    cy,
                ) ==> #[trigger] final(self).broadphase.cell_seq(cx, cy) == old(
                    self,
                ).broadphase.cell_seq(cx, cy).push(id),
            forall|cx: int, cy: int|
                !covers(
                    old(self).broadphase.bucket_width as int,
                    old(self).broadphase.bucket_height as int,
                    old(self).transforms@[old(self).slot_of(id)],
                    old(self).colliders@[old(self).slot_of(id)].aabb,
                    cx,
                    cy,
                ) ==> #[trigger] final(self).broadphase.cell_seq(cx, cy) == old(
                    self,
                ).broadphase.cell_seq(cx, cy),
            forall|e: EntityId|
                old(self).live(e) && e != id && old(self).broadphase.in_nearby(
                    id,
                    old(self).transforms@[old(self).slot_of(id)],
                    old(self).colliders@[old(self).slot_of(id)].aabb,
                    e,
                ) ==> partial_records_ok(
                    *old(self),
                    *final(self),
                    old(self).slot_of(id),
                    id,
                    #[trigger] old(self).slot_of(e),
                    e,
                ),
    {
        self.update_overlapping(id);
        let ghost mid = *self;
        let slot = self.sparse[id.uindex()].unwrap();
        let t = self.transforms[slot];
        let aabb = self.colliders[slot].aabb;
        self.broadphase.insert(id, &t, &aabb);
        proof {
            assert forall|e: EntityId|
                old(self).live(e) && e != id && old(self).broadphase.in_nearby(
                    id,
                    old(self).transforms@[old(self).slot_of(id)],
                    old(self).colliders@[old(self).slot_of(id)].aabb,
                    e,
                ) implies partial_records_ok(
                *old(self),
                *final(self),
                old(self).slot_of(id),
                id,
                #[trigger] old(self).slot_of(e),
                e,
            ) by {
                let sm = old(self).slot_of(id);
                let sj = old(self).slot_of(e);
                lemma_body_extended_refl(mid.colliders@[sm], id);
                lemma_body_extended_refl(mid.colliders@[sj], old(self).owners@[sj]);
                lemma_related_same_shape(old(self).colliders@[sm], mid.colliders@[sm], id);
                lemma_related_same_shape(
                    old(self).colliders@[sj],
                    mid.colliders@[sj],
                    old(self).owners@[sj],
                );
                lemma_partial_records_chain(
                    *old(self),
                    *old(self),
                    mid,
                    *final(self),
                    sm,
                    id,
                    sj,
                    e,
                );
            }
        }
    }

    /// Moves a live body by `delta` and rebuilds its collision records and
    /// broad-phase entries at the new position.  No penetration is resolved:
    /// the body ends exactly at the requested position.
    pub fn move_body(&mut self, body: EntityId, delta: Vec2)
        requires
            old(self).wf(),
            old(self).live(body),
            -POS_LIMIT <= old(self).transforms@[old(self).slot_of(body)].x + delta.x <= POS_LIMIT,
            -POS_LIMIT <= old(self).transforms@[old(self).slot_of(body)].y + delta.y <= POS_LIMIT,
        ensures
            final(self).wf(),
            final(self).live(body),
            final(self).owners@ == old(self).owners@,
            final(self).sparse@ == old(self).sparse@,
            final(self).transforms@ == old(self).transforms@.update(
                old(self).slot_of(body),
                Transform {
                    x: (old(self).transforms@[old(self).slot_of(body)].x + delta.x) as i64,
                    y: (old(self).transforms@[old(self).slot_of(body)].y + delta.y) as i64,
                },
            ),
            final(self).broadphase.bucket_width == old(self).broadphase.bucket_width,
            final(self).broadphase.bucket_height == old(self).broadphase.bucket_height,
            final(self).colliders@.len() == old(self).colliders@.len(),
            forall|s: int|
                0 <= s < old(self).colliders@.len() ==> body_same_shape(
                    old(self).colliders@[s],
                    #[trigger] final(self).colliders@[s],
                ),
            no_records_about(final(self).colliders@[old(self).slot_of(body)], body),
            // at the final state, the mover and every live body near its box
            // at the final position carry the records of the full
            // narrow-phase pass between them
            forall|e: EntityId|
                old(self).live(e) && e != body && old(self).broadphase.in_nearby(
                    body,
                    final(self).transforms@[old(self).slot_of(body)],
                    old(self).colliders@[old(self).slot_of(body)].aabb,
                    e,
                ) ==> partial_records_ok(
                    *final(self),
                    *final(self),
                    old(self).slot_of(body),
                    body,
                    #[trigger] old(self).slot_of(e),
                    e,
                ),
            // broad-phase effect: the mover's handle is filtered out of the
            // cells covered by its old box and appended to the cells covered
            // by its box at the final position; every other bucket is
            // untouched
            forall|cx: int, cy: int| #[trigger] final(self).broadphase.cell_seq(cx, cy) == ({
                let bw = old(self).broadphase.bucket_width as int;
                let bh = old(self).broadphase.bucket_height as int;
                let slot = old(self).slot_of(body);
                let bx = old(self).colliders@[slot].aabb;
                let base = if covers(bw, bh, old(self).transforms@[slot], bx, cx, cy) {
                    old(self).broadphase.cell_seq(cx, cy).filter(|e: EntityId| e != body)
                } else {
                    old(self).broadphase.cell_seq(cx, cy)
                };
                if covers(bw, bh, final(self).transforms@[slot], bx, cx, cy) {
                    base.push(body)
                } else {
                    base
                }
            }),
    {
        self.handle_pre_movement(body);
        let slot = self.sparse[body.uindex()].unwrap();
        let mut t = self.transforms[slot];
        t.x = t.x + delta.x;
        t.y = t.y + delta.y;
        self.transforms[slot] = t;
        proof {
            assert(self.wf());
        }
        let ghost m2 = *self;
        self.handle_movement(body);
        proof {
            assert(final(self).transforms@ =~= old(self).transforms@.update(
                old(self).slot_of(body),
                Transform {
                    x: (old(self).transforms@[old(self).slot_of(body)].x + delta.x) as i64,
                    y: (old(self).transforms@[old(self).slot_of(body)].y + delta.y) as i64,
                },
            ));
            assert forall|s: int| 0 <= s < old(self).colliders@.len() implies body_same_shape(
                old(self).colliders@[s],
                #[trigger] final(self).colliders@[s],
            ) by {
                lemma_related_same_shape(m2.colliders@[s], final(self).colliders@[s], m2.owners@[s]);
                lemma_same_shape_trans(
                    old(self).colliders@[s],
                    m2.colliders@[s],
                    final(self).colliders@[s],
                );
            }
            assert(body_same_shape(
                old(self).colliders@[old(self).slot_of(body)],
                m2.colliders@[old(self).slot_of(body)],
            ));
            assert forall|cx: int, cy: int| #[trigger]
                final(self).broadphase.cell_seq(cx, cy) == ({
                let bw = old(self).broadphase.bucket_width as int;
                let bh = old(self).broadphase.bucket_height as int;
                let slot = old(self).slot_of(body);
                let bx = old(self).colliders@[slot].aabb;
                let base = if covers(bw, bh, old(self).transforms@[slot], bx, cx, cy) {
                    old(self).broadphase.cell_seq(cx, cy).filter(|e: EntityId| e != body)
                } else {
                    old(self).broadphase.cell_seq(cx, cy)
                };
                if covers(bw, bh, final(self).transforms@[slot], bx, cx, cy) {
                    base.push(body)
                } else {
                    base
                }
            }) by {
                let slot = old(self).slot_of(body);
                assert(m2.colliders@[slot].aabb == old(self).colliders@[slot].aabb);
                assert(m2.broadphase.cell_seq(cx, cy) == (if covers(
                    old(self).broadphase.bucket_width as int,
                    old(self).broadphase.bucket_height as int,
                    old(self).transforms@[slot],
                    old(self).colliders@[slot].aabb,
                    cx,
                    cy,
                ) {
                    old(self).broadphase.cell_seq(cx, cy).filter(|e: EntityId| e != body)
                } else {
                    old(self).broadphase.cell_seq(cx, cy)
                }));
            }
            assert forall|e: EntityId|
                old(self).live(e) && e != body && old(self).broadphase.in_nearby(
                    body,
                    final(self).transforms@[old(self).slot_of(body)],
                    old(self).colliders@[old(self).slot_of(body)].aabb,
                    e,
                ) implies partial_records_ok(
                *final(self),
                *final(self),
                old(self).slot_of(body),
                body,
                #[trigger] old(self).slot_of(e),
                e,
            ) by {
                let sm = old(self).slot_of(body);
                let sj = old(self).slot_of(e);
                let bx = old(self).colliders@[sm].aabb;
                let tq = final(self).transforms@[sm];
                assert forall|cx: int, cy: int|
                    #[trigger] m2.broadphase.cell_seq(cx, cy) == old(
                        self,
                    ).broadphase.cell_seq(cx, cy) || m2.broadphase.cell_seq(cx, cy) == old(
                        self,
                    ).broadphase.cell_seq(cx, cy).filter(|x: EntityId| x != body) by {
                    if covers(
                        old(self).broadphase.bucket_width as int,
                        old(self).broadphase.bucket_height as int,
                        old(self).transforms@[sm],
                        bx,
                        cx,
                        cy,
                    ) {
                    }
                }
                lemma_in_nearby_filtered(
                    old(self).broadphase,
                    m2.broadphase,
                    body,
                    tq,
                    bx,
                    e,
                );
                assert(m2.live(e));
                assert(m2.slot_of(e) == sj);
                assert(m2.slot_of(body) == sm);
                assert(m2.broadphase.in_nearby(
                    body,
                    m2.transforms@[m2.slot_of(body)],
                    m2.colliders@[m2.slot_of(body)].aabb,
                    e,
                ));
                assert(partial_records_ok(m2, *final(self), sm, body, sj, e));
                lemma_related_same_shape(m2.colliders@[sm], final(self).colliders@[sm], body);
                lemma_related_same_shape(
                    m2.colliders@[sj],
                    final(self).colliders@[sj],
                    m2.owners@[sj],
                );
                lemma_body_extended_refl(final(self).colliders@[sm], body);
                lemma_body_extended_refl(final(self).colliders@[sj], old(self).owners@[sj]);
                lemma_partial_records_chain(
                    *final(self),
                    m2,
                    *final(self),
                    *final(self),
                    sm,
                    body,
                    sj,
                    e,
                );
            }
        }
    }
}


impl PhysicsWorld {
    /// Moves a live body to the given position and rebuilds its collision
    /// records and broad-phase entries there.  No penetration is resolved.
    pub fn move_body_to(&mut self, body: EntityId, position: Vec2)
        requires
            old(self).wf(),
            old(self).live(body),
            -POS_LIMIT <= position.x <= POS_LIMIT,
            -POS_LIMIT <= position.y <= POS_LIMIT,
        ensures
            final(self).wf(),
            final(self).live(body),
            final(self).owners@ == old(self).owners@,
            final(self).sparse@ == old(self).sparse@,
            final(self).transforms@ == old(self).transforms@.update(
                old(self).slot_of(body),
                Transform { x: position.x, y: position.y },
            ),
            final(self).broadphase.bucket_width == old(self).broadphase.bucket_width,
            final(self).broadphase.bucket_height == old(self).broadphase.bucket_height,
            final(self).colliders@.len() == old(self).colliders@.len(),
            forall|s: int|
                0 <= s < old(self).colliders@.len() ==> body_same_shape(
                    old(self).colliders@[s],
                    #[trigger] final(self).colliders@[s],
                ),
            no_records_about(final(self).colliders@[old(self).slot_of(body)], body),
            // at the final state, the mover and every live body near its box
            // at the final position carry the records of the full
            // narrow-phase pass between them
            forall|e: EntityId|
                old(self).live(e) && e != body && old(self).broadphase.in_nearby(
                    body,
                    final(self).transforms@[old(self).slot_of(body)],
                    old(self).colliders@[old(self).slot_of(body)].aabb,
                    e,
                ) ==> partial_records_ok(
                    *final(self),
                    *final(self),
                    old(self).slot_of(body),
                    body,
                    #[trigger] old(self).slot_of(e),
                    e,
                ),
            // broad-phase effect: the mover's handle is filtered out of the
            // cells covered by its old box and appended to the cells covered
            // by its box at the final position; every other bucket is
            // untouched
            forall|cx: int, cy: int| #[trigger] final(self).broadphase.cell_seq(cx, cy) == ({
                let bw = old(self).broadphase.bucket_width as int;
                let bh = old(self).broadphase.bucket_height as int;
                let slot = old(self).slot_of(body);
                let bx = old(self).colliders@[slot].aabb;
                let base = if covers(bw, bh, old(self).transforms@[slot], bx, cx, cy) {
                    old(self).broadphase.cell_seq(cx, cy).filter(|e: EntityId| e != body)
                } else {
                    old(self).broadphase.cell_seq(cx, cy)
                };
                if covers(bw, bh, final(self).transforms@[slot], bx, cx, cy) {
                    base.push(body)
                } else {
                    base
                }
            }),
    {
        self.handle_pre_movement(body);
        let slot = self.sparse[body.uindex()].unwrap();
        let mut t = self.transforms[slot];
        t.x = position.x;
        t.y = position.y;
        self.transforms[slot] = t;
        let ghost m2 = *self;
        self.handle_movement(body);
        proof {
            assert(final(self).transforms@ =~= old(self).transforms@.update(
                old(self).slot_of(body),
                Transform { x: position.x, y: position.y },
            ));
            assert forall|s: int| 0 <= s < old(self).colliders@.len() implies body_same_shape(
                old(self).colliders@[s],
                #[trigger] final(self).colliders@[s],
            ) by {
                lemma_related_same_shape(m2.colliders@[s], final(self).colliders@[s], m2.owners@[s]);
                lemma_same_shape_trans(
                    old(self).colliders@[s],
                    m2.colliders@[s],
                    final(self).colliders@[s],
                );
            }
            assert(body_same_shape(
                old(self).colliders@[old(self).slot_of(body)],
                m2.colliders@[old(self).slot_of(body)],
            ));
            assert forall|cx: int, cy: int| #[trigger]
                final(self).broadphase.cell_seq(cx, cy) == ({
                let bw = old(self).broadphase.bucket_width as int;
                let bh = old(self).broadphase.bucket_height as int;
                let slot = old(self).slot_of(body);
                let bx = old(self).colliders@[slot].aabb;
                let base = if covers(bw, bh, old(self).transforms@[slot], bx, cx, cy) {
                    old(self).broadphase.cell_seq(cx, cy).filter(|e: EntityId| e != body)
                } else {
                    old(self).broadphase.cell_seq(cx, cy)
                };
                if covers(bw, bh, final(self).transforms@[slot], bx, cx, cy) {
                    base.push(body)
                } else {
                    base
                }
            }) by {
                let slot = old(self).slot_of(body);
                assert(m2.colliders@[slot].aabb == old(self).colliders@[slot].aabb);
                assert(m2.broadphase.cell_seq(cx, cy) == (if covers(
                    old(self).broadphase.bucket_width as int,
                    old(self).broadphase.bucket_height as int,
                    old(self).transforms@[slot],
                    old(self).colliders@[slot].aabb,
                    cx,
                    cy,
                ) {
                    old(self).broadphase.cell_seq(cx, cy).filter(|e: EntityId| e != body)
                } else {
                    old(self).broadphase.cell_seq(cx, cy)
                }));
            }
            assert forall|e: EntityId|
                old(self).live(e) && e != body && old(self).broadphase.in_nearby(
                    body,
                    final(self).transforms@[old(self).slot_of(body)],
                    old(self).colliders@[old(self).slot_of(body)].aabb,
                    e,
                ) implies partial_records_ok(
                *final(self),
                *final(self),
                old(self).slot_of(body),
                body,
                #[trigger] old(self).slot_of(e),
                e,
            ) by {
                let sm = old(self).slot_of(body);
                let sj = old(self).slot_of(e);
                let bx = old(self).colliders@[sm].aabb;
                let tq = final(self).transforms@[sm];
                assert forall|cx: int, cy: int|
                    #[trigger] m2.broadphase.cell_seq(cx, cy) == old(
                        self,
                    ).broadphase.cell_seq(cx, cy) || m2.broadphase.cell_seq(cx, cy) == old(
                        self,
                    ).broadphase.cell_seq(cx, cy).filter(|x: EntityId| x != body) by {
                    if covers(
                        old(self).broadphase.bucket_width as int,
                        old(self).broadphase.bucket_height as int,
                        old(self).transforms@[sm],
                        bx,
                        cx,
                        cy,
                    ) {
                    }
                }
                lemma_in_nearby_filtered(
                    old(self).broadphase,
                    m2.broadphase,
                    body,
                    tq,
                    bx,
                    e,
                );
                assert(m2.live(e));
                assert(m2.slot_of(e) == sj);
                assert(m2.slot_of(body) == sm);
                assert(m2.broadphase.in_nearby(
                    body,
                    m2.transforms@[m2.slot_of(body)],
                    m2.colliders@[m2.slot_of(body)].aabb,
                    e,
                ));
                assert(partial_records_ok(m2, *final(self), sm, body, sj, e));
                lemma_related_same_shape(m2.colliders@[sm], final(self).colliders@[sm], body);
                lemma_related_same_shape(
                    m2.colliders@[sj],
                    final(self).colliders@[sj],
                    m2.owners@[sj],
                );
                lemma_body_extended_refl(final(self).colliders@[sm], body);
                lemma_body_extended_refl(final(self).colliders@[sj], old(self).owners@[sj]);
                lemma_partial_records_chain(
                    *final(self),
                    m2,
                    *final(self),
                    *final(self),
                    sm,
                    body,
                    sj,
                    e,
                );
            }
        }
    }

    /// Moves a live body to the given x coordinate, keeping its y coordinate,
    /// and rebuilds its collision records and broad-phase entries there.
    pub fn move_body_to_x(&mut self, body: EntityId, x: i64)
        requires
            old(self).wf(),
            old(self).live(body),
            -POS_LIMIT <= x <= POS_LIMIT,
        ensures
            final(self).wf(),
            final(self).live(body),
            final(self).owners@ == old(self).owners@,
            final(self).sparse@ == old(self).sparse@,
            final(self).transforms@ == old(self).transforms@.update(
                old(self).slot_of(body),
                Transform { x: x, y: old(self).transforms@[old(self).slot_of(body)].y },
            ),
            final(self).broadphase.bucket_width == old(self).broadphase.bucket_width,
            final(self).broadphase.bucket_height == old(self).broadphase.bucket_height,
            final(self).colliders@.len() == old(self).colliders@.len(),
            forall|s: int|
                0 <= s < old(self).colliders@.len() ==> body_same_shape(
                    old(self).colliders@[s],
                    #[trigger] final(self).colliders@[s],
                ),
            no_records_about(final(self).colliders@[old(self).slot_of(body)], body),
            // at the final state, the mover and every live body near its box
            // at the final position carry the records of the full
            // narrow-phase pass between them
            forall|e: EntityId|
                old(self).live(e) && e != body && old(self).broadphase.in_nearby(
                    body,
                    final(self).transforms@[old(self).slot_of(body)],
                    old(self).colliders@[old(self).slot_of(body)].aabb,
                    e,
                ) ==> partial_records_ok(
                    *final(self),
                    *final(self),
                    old(self).slot_of(body),
                    body,
                    #[trigger] old(self).slot_of(e),
                    e,
                ),
            // broad-phase effect: the mover's handle is filtered out of the
            // cells covered by its old box and appended to the cells covered
            // by its box at the final position; every other bucket is
            // untouched
            forall|cx: int, cy: int| #[trigger] final(self).broadphase.cell_seq(cx, cy) == ({
                let bw = old(self).broadphase.bucket_width as int;
                let bh = old(self).broadphase.bucket_height as int;
                let slot = old(self).slot_of(body);
                let bx = old(self).colliders@[slot].aabb;
                let base = if covers(bw, bh, old(self).transforms@[slot], bx, cx, cy) {
                    old(self).broadphase.cell_seq(cx, cy).filter(|e: EntityId| e != body)
                } else {
                    old(self).broadphase.cell_seq(cx, cy)
                };
                if covers(bw, bh, final(self).transforms@[slot], bx, cx, cy) {
                    base.push(body)
                } else {
                    base
                }
            }),
    {
        self.handle_pre_movement(body);
        let slot = self.sparse[body.uindex()].unwrap();
        let mut t = self.transforms[slot];
        t.x = x;
        self.transforms[slot] = t;
        let ghost m2 = *self;
        self.handle_movement(body);
        proof {
            assert(final(self).transforms@ =~= old(self).transforms@.update(
                old(self).slot_of(body),
                Transform { x: x, y: old(self).transforms@[old(self).slot_of(body)].y },
            ));
            assert forall|s: int| 0 <= s < old(self).colliders@.len() implies body_same_shape(
                old(self).colliders@[s],
                #[trigger] final(self).colliders@[s],
            ) by {
                lemma_related_same_shape(m2.colliders@[s], final(self).colliders@[s], m2.owners@[s]);
                lemma_same_shape_trans(
                    old(self).colliders@[s],
                    m2.colliders@[s],
                    final(self).colliders@[s],
                );
            }
            assert(body_same_shape(
                old(self).colliders@[old(self).slot_of(body)],
                m2.colliders@[old(self).slot_of(body)],
            ));
            assert forall|cx: int, cy: int| #[trigger]
                final(self).broadphase.cell_seq(cx, cy) == ({
                let bw = old(self).broadphase.bucket_width as int;
                let bh = old(self).broadphase.bucket_height as int;
                let slot = old(self).slot_of(body);
                let bx = old(self).colliders@[slot].aabb;
                let base = if covers(bw, bh, old(self).transforms@[slot], bx, cx, cy) {
                    old(self).broadphase.cell_seq(cx, cy).filter(|e: EntityId| e != body)
                } else {
                    old(self).broadphase.cell_seq(cx, cy)
                };
                if covers(bw, bh, final(self).transforms@[slot], bx, cx, cy) {
                    base.push(body)
                } else {
                    base
                }
            }) by {
                let slot = old(self).slot_of(body);
                assert(m2.colliders@[slot].aabb == old(self).colliders@[slot].aabb);
                assert(m2.broadphase.cell_seq(cx, cy) == (if covers(
                    old(self).broadphase.bucket_width as int,
                    old(self).broadphase.bucket_height as int,
                    old(self).transforms@[slot],
                    old(self).colliders@[slot].aabb,
                    cx,
                    cy,
                ) {
                    old(self).broadphase.cell_seq(cx, cy).filter(|e: EntityId| e != body)
                } else {
                    old(self).broadphase.cell_seq(cx, cy)
                }));
            }
            assert forall|e: EntityId|
                old(self).live(e) && e != body && old(self).broadphase.in_nearby(
                    body,
                    final(self).transforms@[old(self).slot_of(body)],
                    old(self).colliders@[old(self).slot_of(body)].aabb,
                    e,
                ) implies partial_records_ok(
                *final(self),
                *final(self),
                old(self).slot_of(body),
                body,
                #[trigger] old(self).slot_of(e),
                e,
            ) by {
                let sm = old(self).slot_of(body);
                let sj = old(self).slot_of(e);
                let bx = old(self).colliders@[sm].aabb;
                let tq = final(self).transforms@[sm];
                assert forall|cx: int, cy: int|
                    #[trigger] m2.broadphase.cell_seq(cx, cy) == old(
                        self,
                    ).broadphase.cell_seq(cx, cy) || m2.broadphase.cell_seq(cx, cy) == old(
                        self,
                    ).broadphase.cell_seq(cx, cy).filter(|x: EntityId| x != body) by {
                    if covers(
                        old(self).broadphase.bucket_width as int,
                        old(self).broadphase.bucket_height as int,
                        old(self).transforms@[sm],
                        bx,
                        cx,
                        cy,
                    ) {
                    }
                }
                lemma_in_nearby_filtered(
                    old(self).broadphase,
                    m2.broadphase,
                    body,
                    tq,
                    bx,
                    e,
                );
                assert(m2.live(e));
                assert(m2.slot_of(e) == sj);
                assert(m2.slot_of(body) == sm);
                assert(m2.broadphase.in_nearby(
                    body,
                    m2.transforms@[m2.slot_of(body)],
                    m2.colliders@[m2.slot_of(body)].aabb,
                    e,
                ));
                assert(partial_records_ok(m2, *final(self), sm, body, sj, e));
                lemma_related_same_shape(m2.colliders@[sm], final(self).colliders@[sm], body);
                lemma_related_same_shape(
                    m2.colliders@[sj],
                    final(self).colliders@[sj],
                    m2.owners@[sj],
                );
                lemma_body_extended_refl(final(self).colliders@[sm], body);
                lemma_body_extended_refl(final(self).colliders@[sj], old(self).owners@[sj]);
                lemma_partial_records_chain(
                    *final(self),
                    m2,
                    *final(self),
                    *final(self),
                    sm,
                    body,
                    sj,
                    e,
                );
            }
        }
    }

    /// Moves a live body to the given y coordinate, keeping its x coordinate,
    /// and rebuilds its collision records and broad-phase entries there.
    pub fn move_body_to_y(&mut self, body: EntityId, y: i64)
        requires
            old(self).wf(),
            old(self).live(body),
            -POS_LIMIT <= y <= POS_LIMIT,
        ensures
            final(self).wf(),
            final(self).live(body),
            final(self).owners@ == old(self).owners@,
            final(self).sparse@ == old(self).sparse@,
            final(self).transforms@ == old(self).transforms@.update(
                old(self).slot_of(body),
                Transform { x: old(self).transforms@[old(self).slot_of(body)].x, y: y },
            ),
            final(self).broadphase.bucket_width == old(self).broadphase.bucket_width,
            final(self).broadphase.bucket_height == old(self).broadphase.bucket_height,
            final(self).colliders@.len() == old(self).colliders@.len(),
            forall|s: int|
                0 <= s < old(self).colliders@.len() ==> body_same_shape(
                    old(self).colliders@[s],
                    #[trigger] final(self).colliders@[s],
                ),
            no_records_about(final(self).colliders@[old(self).slot_of(body)], body),
            // at the final state, the mover and every live body near its box
            // at the final position carry the records of the full
            // narrow-phase pass between them
            forall|e: EntityId|
                old(self).live(e) && e != body && old(self).broadphase.in_nearby(
                    body,
                    final(self).transforms@[old(self).slot_of(body)],
                    old(self).colliders@[old(self).slot_of(body)].aabb,
                    e,
                ) ==> partial_records_ok(
                    *final(self),
                    *final(self),
                    old(self).slot_of(body),
                    body,
                    #[trigger] old(self).slot_of(e),
                    e,
                ),
            // broad-phase effect: the mover's handle is filtered out of the
            // cells covered by its old box and appended to the cells covered
            // by its box at the final position; every other bucket is
            // untouched
            forall|cx: int, cy: int| #[trigger] final(self).broadphase.cell_seq(cx, cy) == ({
                let bw = old(self).broadphase.bucket_width as int;
                let bh = old(self).broadphase.bucket_height as int;
                let slot = old(self).slot_of(body);
                let bx = old(self).colliders@[slot].aabb;
                let base = if covers(bw, bh, old(self).transforms@[slot], bx, cx, cy) {
                    old(self).broadphase.cell_seq(cx, cy).filter(|e: EntityId| e != body)
                } else {
                    old(self).broadphase.cell_seq(cx, cy)
                };
                if covers(bw, bh, final(self).transforms@[slot], bx, cx, cy) {
                    base.push(body)
                } else {
                    base
                }
            }),
    {
        self.handle_pre_movement(body);
        let slot = self.sparse[body.uindex()].unwrap();
        let mut t = self.transforms[slot];
        t.y = y;
        self.transforms[slot] = t;
        let ghost m2 = *self;
        self.handle_movement(body);
        proof {
            assert(final(self).transforms@ =~= old(self).transforms@.update(
                old(self).slot_of(body),
                Transform { x: old(self).transforms@[old(self).slot_of(body)].x, y: y },
            ));
            assert forall|s: int| 0 <= s < old(self).colliders@.len() implies body_same_shape(
                old(self).colliders@[s],
                #[trigger] final(self).colliders@[s],
            ) by {
                lemma_related_same_shape(m2.colliders@[s], final(self).colliders@[s], m2.owners@[s]);
                lemma_same_shape_trans(
                    old(self).colliders@[s],
                    m2.colliders@[s],
                    final(self).colliders@[s],
                );
            }
            assert(body_same_shape(
                old(self).colliders@[old(self).slot_of(body)],
                m2.colliders@[old(self).slot_of(body)],
            ));
            assert forall|cx: int, cy: int| #[trigger]
                final(self).broadphase.cell_seq(cx, cy) == ({
                let bw = old(self).broadphase.bucket_width as int;
                let bh = old(self).broadphase.bucket_height as int;
                let slot = old(self).slot_of(body);
                let bx = old(self).colliders@[slot].aabb;
                let base = if covers(bw, bh, old(self).transforms@[slot], bx, cx, cy) {
                    old(self).broadphase.cell_seq(cx, cy).filter(|e: EntityId| e != body)
                } else {
                    old(self).broadphase.cell_seq(cx, cy)
                };
                if covers(bw, bh, final(self).transforms@[slot], bx, cx, cy) {
                    base.push(body)
                } else {
                    base
                }
            }) by {
                let slot = old(self).slot_of(body);
                assert(m2.colliders@[slot].aabb == old(self).colliders@[slot].aabb);
                assert(m2.broadphase.cell_seq(cx, cy) == (if covers(
                    old(self).broadphase.bucket_width as int,
                    old(self).broadphase.bucket_height as int,
                    old(self).transforms@[slot],
                    old(self).colliders@[slot].aabb,
                    cx,
                    cy,
                ) {
                    old(self).broadphase.cell_seq(cx, cy).filter(|e: EntityId| e != body)
                } else {
                    old(self).broadphase.cell_seq(cx, cy)
                }));
            }
            assert forall|e: EntityId|
                old(self).live(e) && e != body && old(self).broadphase.in_nearby(
                    body,
                    final(self).transforms@[old(self).slot_of(body)],
                    old(self).colliders@[old(self).slot_of(body)].aabb,
                    e,
                ) implies partial_records_ok(
                *final(self),
                *final(self),
                old(self).slot_of(body),
                body,
                #[trigger] old(self).slot_of(e),
                e,
            ) by {
                let sm = old(self).slot_of(body);
                let sj = old(self).slot_of(e);
                let bx = old(self).colliders@[sm].aabb;
                let tq = final(self).transforms@[sm];
                assert forall|cx: int, cy: int|
                    #[trigger] m2.broadphase.cell_seq(cx, cy) == old(
                        self,
                    ).broadphase.cell_seq(cx, cy) || m2.broadphase.cell_seq(cx, cy) == old(
                        self,
                    ).broadphase.cell_seq(cx, cy).filter(|x: EntityId| x != body) by {
                    if covers(
                        old(self).broadphase.bucket_width as int,
                        old(self).broadphase.bucket_height as int,
                        old(self).transforms@[sm],
                        bx,
                        cx,
                        cy,
                    ) {
                    }
                }
                lemma_in_nearby_filtered(
                    old(self).broadphase,
                    m2.broadphase,
                    body,
                    tq,
                    bx,
                    e,
                );
                assert(m2.live(e));
                assert(m2.slot_of(e) == sj);
                assert(m2.slot_of(body) == sm);
                assert(m2.broadphase.in_nearby(
                    body,
                    m2.transforms@[m2.slot_of(body)],
                    m2.colliders@[m2.slot_of(body)].aabb,
                    e,
                ));
                assert(partial_records_ok(m2, *final(self), sm, body, sj, e));
                lemma_related_same_shape(m2.colliders@[sm], final(self).colliders@[sm], body);
                lemma_related_same_shape(
                    m2.colliders@[sj],
                    final(self).colliders@[sj],
                    m2.owners@[sj],
                );
                lemma_body_extended_refl(final(self).colliders@[sm], body);
                lemma_body_extended_refl(final(self).colliders@[sj], old(self).owners@[sj]);
                lemma_partial_records_chain(
                    *final(self),
                    m2,
                    *final(self),
                    *final(self),
                    sm,
                    body,
                    sj,
                    e,
                );
            }
        }
    }

    /// One resolving pass of the moving body's solid colliders against the
    /// solid colliders of the bodies its box is near: for each reacting,
    /// overlapping pair, a record is built and returned, and the moving body
    /// is pushed along the minimum translation vector (clamped to the world
    /// bound) before the next pair is tested.  Nothing is stored on any body
    /// here; the caller rebuilds the stored records at the final position.
    fn resolve_pass(&mut self, body: EntityId) -> (r: Vec<Collision>)
        requires
            old(self).wf(),
            old(self).live(body),
        ensures
            final(self).wf(),
            final(self).live(body),
            final(self).owners@ == old(self).owners@,
            final(self).sparse@ == old(self).sparse@,
            final(self).colliders@ == old(self).colliders@,
            final(self).broadphase.bucket_width == old(self).broadphase.bucket_width,
            final(self).broadphase.bucket_height == old(self).broadphase.bucket_height,
            forall|cx: int, cy: int| #[trigger]
                final(self).broadphase.cell_seq(cx, cy) == old(self).broadphase.cell_seq(cx, cy),
            final(self).transforms@.len() == old(self).transforms@.len(),
            forall|s: int|
                0 <= s < old(self).transforms@.len() && s != old(self).slot_of(body)
                    ==> #[trigger] final(self).transforms@[s] == old(self).transforms@[s],
            forall|j: int| 0 <= j < r@.len() ==> returned_rec_ok(#[trigger] r@[j], body),
            r@.len() == 0 ==> final(self).transforms@ == old(self).transforms@,
    {
        let slot = self.sparse[body.uindex()].unwrap();
        let t0 = self.transforms[slot];
        let aabb = self.colliders[slot].aabb;
        let near = self.broadphase.nearby(body, &t0, &aabb);
        proof {
            assert(!near@.contains(body));
        }
        let mut collisions: Vec<Collision> = Vec::new();
        let mut i: usize = 0;
        while i < near.len()
            invariant
                old(self).wf(),
                old(self).live(body),
                self.wf(),
                self.live(body),
                slot == old(self).slot_of(body),
                slot < old(self).body_count(),
                body == old(self).owners@[slot as int],
                self.owners@ == old(self).owners@,
                self.sparse@ == old(self).sparse@,
                self.colliders@ == old(self).colliders@,
                self.broadphase.bucket_width == old(self).broadphase.bucket_width,
                self.broadphase.bucket_height == old(self).broadphase.bucket_height,
                forall|cx: int, cy: int| #[trigger]
                    self.broadphase.cell_seq(cx, cy) == old(self).broadphase.cell_seq(cx, cy),
                self.transforms@.len() == old(self).transforms@.len(),
                forall|s: int|
                    0 <= s < old(self).transforms@.len() && s != slot
                        ==> #[trigger] self.transforms@[s] == old(self).transforms@[s],
                !near@.contains(body),
                forall|j: int| 0 <= j < collisions@.len() ==> returned_rec_ok(
                    #[trigger] collisions@[j],
                    body,
                ),
                collisions@.len() == 0 ==> self.transforms@ == old(self).transforms@,
            decreases near@.len() - i,
        {
            let e = near[i];
            proof {
                assert(near@[i as int] == e);
                if e == body {
                    assert(near@.contains(body));
                }
            }
            if e.uindex() < self.sparse.len() {
                if let Some(s2) = self.sparse[e.uindex()] {
                    if self.owners[s2] == e {
                        proof {
                            assert(s2 != slot);
                        }
                        let nc1 = self.colliders[slot].colliders.len();
                        let nc2 = self.colliders[s2].colliders.len();
                        let mut k1: usize = 0;
                        while k1 < nc1
                            invariant
                                old(self).wf(),
                                self.wf(),
                                self.live(body),
                                slot < old(self).body_count(),
                                s2 < old(self).body_count(),
                                s2 != slot,
                                body == old(self).owners@[slot as int],
                                e == old(self).owners@[s2 as int],
                                e != body,
                                nc1 == self.colliders@[slot as int].colliders@.len(),
                                nc2 == self.colliders@[s2 as int].colliders@.len(),
                                self.owners@ == old(self).owners@,
                                self.sparse@ == old(self).sparse@,
                                self.colliders@ == old(self).colliders@,
                                self.broadphase.bucket_width == old(self).broadphase.bucket_width,
                                self.broadphase.bucket_height == old(
                                    self,
                                ).broadphase.bucket_height,
                                forall|cx: int, cy: int| #[trigger]
                                    self.broadphase.cell_seq(cx, cy) == old(
                                        self,
                                    ).broadphase.cell_seq(cx, cy),
                                self.transforms@.len() == old(self).transforms@.len(),
                                forall|s: int|
                                    0 <= s < old(self).transforms@.len() && s != slot
                                        ==> #[trigger] self.transforms@[s] == old(
                                        self,
                                    ).transforms@[s],
                                forall|j: int| 0 <= j < collisions@.len() ==> returned_rec_ok(
                                    #[trigger] collisions@[j],
                                    body,
                                ),
                                collisions@.len() == 0 ==> self.transforms@ == old(
                                    self,
                                ).transforms@,
                            decreases nc1 - k1,
                        {
                            let mut k2: usize = 0;
                            while k2 < nc2
                                invariant
                                    old(self).wf(),
                                    self.wf(),
                                    self.live(body),
                                    slot < old(self).body_count(),
                                    s2 < old(self).body_count(),
                                    s2 != slot,
                                    k1 < nc1,
                                    body == old(self).owners@[slot as int],
                                    e == old(self).owners@[s2 as int],
                                    e != body,
                                    nc1 == self.colliders@[slot as int].colliders@.len(),
                                    nc2 == self.colliders@[s2 as int].colliders@.len(),
                                    self.owners@ == old(self).owners@,
                                    self.sparse@ == old(self).sparse@,
                                    self.colliders@ == old(self).colliders@,
                                    self.broadphase.bucket_width == old(
                                        self,
                                    ).broadphase.bucket_width,
                                    self.broadphase.bucket_height == old(
                                        self,
                                    ).broadphase.bucket_height,
                                    forall|cx: int, cy: int| #[trigger]
                                        self.broadphase.cell_seq(cx, cy) == old(
                                            self,
                                        ).broadphase.cell_seq(cx, cy),
                                    self.transforms@.len() == old(self).transforms@.len(),
                                    forall|s: int|
                                        0 <= s < old(self).transforms@.len() && s != slot
                                            ==> #[trigger] self.transforms@[s] == old(
                                            self,
                                        ).transforms@[s],
                                    forall|j: int| 0 <= j < collisions@.len()
                                        ==> returned_rec_ok(#[trigger] collisions@[j], body),
                                    collisions@.len() == 0 ==> self.transforms@ == old(
                                        self,
                                    ).transforms@,
                                decreases nc2 - k2,
                            {
                                let t1 = self.transforms[slot];
                                let t2 = self.transforms[s2];
                                let mut hit: bool = false;
                                let mut mtv = Vec2 { x: 0, y: 0 };
                                let mut rec_opt: Option<Collision> = None;
                                {
                                    let c1 = &self.colliders[slot].colliders[k1];
                                    let c2 = &self.colliders[s2].colliders[k2];
                                    if c1.collides_with & c2.collision_layer > 0 {
                                        let res = seperating_axis_test(
                                            &t1,
                                            &c1.shape,
                                            &t2,
                                            &c2.shape,
                                        );
                                        if res.0 {
                                            hit = true;
                                            if let Some(v) = res.1 {
                                                mtv = v;
                                            }
                                            let normal = reduce_axis(mtv);
                                            rec_opt = Some(
                                                Collision::new(
                                                    t1,
                                                    c1.shape.duplicate(),
                                                    c1.collides_with,
                                                    c1.collision_layer,
                                                    t2,
                                                    c2.shape.duplicate(),
                                                    c2.collides_with,
                                                    c2.collision_layer,
                                                    e,
                                                    normal,
                                                ),
                                            );
                                        }
                                    }
                                }
                                if hit {
                                    if let Some(rec) = rec_opt {
                                        let ghost cs = collisions@;
                                        collisions.push(rec);
                                        proof {
                                            assert(returned_rec_ok(rec, body));
                                            assert forall|j: int|
                                                0 <= j < collisions@.len() implies returned_rec_ok(
                                                #[trigger] collisions@[j],
                                                body,
                                            ) by {
                                                if j < cs.len() {
                                                    assert(collisions@[j] == cs[j]);
                                                }
                                            }
                                        }
                                    }
                                    let mut tm = self.transforms[slot];
                                    tm.x = clamp_coord(tm.x + mtv.x);
                                    tm.y = clamp_coord(tm.y + mtv.y);
                                    self.transforms[slot] = tm;
                                }
                                k2 = k2 + 1;
                            }
                            k1 = k1 + 1;
                        }
                    }
                }
            }
            i = i + 1;
        }
        collisions
    }

    /// Moves a live body by `delta`, then pushes it out of each solid
    /// collider it overlaps and reacts to, one pair at a time, along the
    /// minimum translation vector.  The collision records and broad-phase
    /// entries of every body involved are rebuilt at the final position.
    /// Returns the records generated for this body by the resolving pass;
    /// popping the returned list gives the most recent collision first.
    pub fn move_body_and_collide(&mut self, body: EntityId, delta: Vec2) -> (r: Vec<Collision>)
        requires
            old(self).wf(),
            old(self).live(body),
            -POS_LIMIT <= old(self).transforms@[old(self).slot_of(body)].x + delta.x <= POS_LIMIT,
            -POS_LIMIT <= old(self).transforms@[old(self).slot_of(body)].y + delta.y <= POS_LIMIT,
        ensures
            final(self).wf(),
            final(self).live(body),
            final(self).owners@ == old(self).owners@,
            final(self).sparse@ == old(self).sparse@,
            final(self).broadphase.bucket_width == old(self).broadphase.bucket_width,
            final(self).broadphase.bucket_height == old(self).broadphase.bucket_height,
            final(self).transforms@.len() == old(self).transforms@.len(),
            forall|s: int|
                0 <= s < old(self).transforms@.len() && s != old(self).slot_of(body)
                    ==> #[trigger] final(self).transforms@[s] == old(self).transforms@[s],
            final(self).colliders@.len() == old(self).colliders@.len(),
            forall|s: int|
                0 <= s < old(self).colliders@.len() ==> body_same_shape(
                    old(self).colliders@[s],
                    #[trigger] final(self).colliders@[s],
                ),
            forall|j: int| 0 <= j < r@.len() ==> returned_rec_ok(#[trigger] r@[j], body),
            r@.len() == 0 ==> final(self).transforms@ == old(self).transforms@.update(
                old(self).slot_of(body),
                Transform {
                    x: (old(self).transforms@[old(self).slot_of(body)].x + delta.x) as i64,
                    y: (old(self).transforms@[old(self).slot_of(body)].y + delta.y) as i64,
                },
            ),
            no_records_about(final(self).colliders@[old(self).slot_of(body)], body),
            // at the final state, the mover and every live body near its box
            // at the final position carry the records of the full
            // narrow-phase pass between them
            forall|e: EntityId|
                old(self).live(e) && e != body && old(self).broadphase.in_nearby(
                    body,
                    final(self).transforms@[old(self).slot_of(body)],
                    old(self).colliders@[old(self).slot_of(body)].aabb,
                    e,
                ) ==> partial_records_ok(
                    *final(self),
                    *final(self),
                    old(self).slot_of(body),
                    body,
                    #[trigger] old(self).slot_of(e),
                    e,
                ),
            // broad-phase effect: the mover's handle is filtered out of the
            // cells covered by its old box and appended to the cells covered
            // by its box at the final position; every other bucket is
            // untouched
            forall|cx: int, cy: int| #[trigger] final(self).broadphase.cell_seq(cx, cy) == ({
                let bw = old(self).broadphase.bucket_width as int;
                let bh = old(self).broadphase.bucket_height as int;
                let slot = old(self).slot_of(body);
                let bx = old(self).colliders@[slot].aabb;
                let base = if covers(bw, bh, old(self).transforms@[slot], bx, cx, cy) {
                    old(self).broadphase.cell_seq(cx, cy).filter(|e: EntityId| e != body)
                } else {
                    old(self).broadphase.cell_seq(cx, cy)
                };
                if covers(bw, bh, final(self).transforms@[slot], bx, cx, cy) {
                    base.push(body)
                } else {
                    base
                }
            }),
    {
        self.handle_pre_movement(body);
        let slot = self.sparse[body.uindex()].unwrap();
        let mut t = self.transforms[slot];
        t.x = t.x + delta.x;
        t.y = t.y + delta.y;
        self.transforms[slot] = t;
        let ghost m2 = *self;
        let collisions = self.resolve_pass(body);
        let ghost m3 = *self;
        self.handle_movement(body);
        proof {
            if collisions@.len() == 0 {
                assert(m3.transforms@ == m2.transforms@);
                assert(final(self).transforms@ =~= old(self).transforms@.update(
                    old(self).slot_of(body),
                    Transform {
                        x: (old(self).transforms@[old(self).slot_of(body)].x + delta.x) as i64,
                        y: (old(self).transforms@[old(self).slot_of(body)].y + delta.y) as i64,
                    },
                ));
            }
            assert forall|s: int| 0 <= s < old(self).colliders@.len() implies body_same_shape(
                old(self).colliders@[s],
                #[trigger] final(self).colliders@[s],
            ) by {
                lemma_related_same_shape(m3.colliders@[s], final(self).colliders@[s], m3.owners@[s]);
                lemma_same_shape_trans(
                    old(self).colliders@[s],
                    m3.colliders@[s],
                    final(self).colliders@[s],
                );
            }
            assert(body_same_shape(
                old(self).colliders@[old(self).slot_of(body)],
                m3.colliders@[old(self).slot_of(body)],
            ));
            assert forall|cx: int, cy: int| #[trigger]
                final(self).broadphase.cell_seq(cx, cy) == ({
                let bw = old(self).broadphase.bucket_width as int;
                let bh = old(self).broadphase.bucket_height as int;
                let slot = old(self).slot_of(body);
                let bx = old(self).colliders@[slot].aabb;
                let base = if covers(bw, bh, old(self).transforms@[slot], bx, cx, cy) {
                    old(self).broadphase.cell_seq(cx, cy).filter(|e: EntityId| e != body)
                } else {
                    old(self).broadphase.cell_seq(cx, cy)
                };
                if covers(bw, bh, final(self).transforms@[slot], bx, cx, cy) {
                    base.push(body)
                } else {
                    base
                }
            }) by {
                let slot = old(self).slot_of(body);
                assert(m3.colliders@[slot].aabb == old(self).colliders@[slot].aabb);
                assert(m3.broadphase.cell_seq(cx, cy) == (if covers(
                    old(self).broadphase.bucket_width as int,
                    old(self).broadphase.bucket_height as int,
                    old(self).transforms@[slot],
                    old(self).colliders@[slot].aabb,
                    cx,
                    cy,
                ) {
                    old(self).broadphase.cell_seq(cx, cy).filter(|e: EntityId| e != body)
                } else {
                    old(self).broadphase.cell_seq(cx, cy)
                }));
            }
            assert forall|e: EntityId|
                old(self).live(e) && e != body && old(self).broadphase.in_nearby(
                    body,
                    final(self).transforms@[old(self).slot_of(body)],
                    old(self).colliders@[old(self).slot_of(body)].aabb,
                    e,
                ) implies partial_records_ok(
                *final(self),
                *final(self),
                old(self).slot_of(body),
                body,
                #[trigger] old(self).slot_of(e),
                e,
            ) by {
                let sm = old(self).slot_of(body);
                let sj = old(self).slot_of(e);
                let bx = old(self).colliders@[sm].aabb;
                let tq = final(self).transforms@[sm];
                assert forall|cx: int, cy: int|
                    #[trigger] m3.broadphase.cell_seq(cx, cy) == old(
                        self,
                    ).broadphase.cell_seq(cx, cy) || m3.broadphase.cell_seq(cx, cy) == old(
                        self,
                    ).broadphase.cell_seq(cx, cy).filter(|x: EntityId| x != body) by {
                    if covers(
                        old(self).broadphase.bucket_width as int,
                        old(self).broadphase.bucket_height as int,
                        old(self).transforms@[sm],
                        bx,
                        cx,
                        cy,
                    ) {
                    }
                }
                lemma_in_nearby_filtered(
                    old(self).broadphase,
                    m3.broadphase,
                    body,
                    tq,
                    bx,
                    e,
                );
                assert(m3.live(e));
                assert(m3.slot_of(e) == sj);
                assert(m3.slot_of(body) == sm);
                assert(m3.broadphase.in_nearby(
                    body,
                    m3.transforms@[m3.slot_of(body)],
                    m3.colliders@[m3.slot_of(body)].aabb,
                    e,
                ));
                assert(partial_records_ok(m3, *final(self), sm, body, sj, e));
                lemma_related_same_shape(m3.colliders@[sm], final(self).colliders@[sm], body);
                lemma_related_same_shape(
                    m3.colliders@[sj],
                    final(self).colliders@[sj],
                    m3.owners@[sj],
                );
                lemma_body_extended_refl(final(self).colliders@[sm], body);
                lemma_body_extended_refl(final(self).colliders@[sj], old(self).owners@[sj]);
                lemma_partial_records_chain(
                    *final(self),
                    m3,
                    *final(self),
                    *final(self),
                    sm,
                    body,
                    sj,
                    e,
                );
            }
        }
        collisions
    }
}

/// A collider that reacts to nothing collects no records, and a collider
/// whose collision layer is zero never stands on the far side of a record:
/// with its own mask clear, nothing can have matched it.
pub proof fn lemma_mask_asymmetry(c: Collider)
    requires
        recs_masked(c),
    ensures
        c.collides_with == 0 ==> c.overlapping@.len() == 0,
        forall|j: int|
            0 <= j < c.overlapping@.len() ==> (#[trigger] c.overlapping@[j]).collision_layer2 != 0,
{
    if c.collides_with == 0 && c.overlapping@.len() > 0 {
        let l = c.overlapping@[0].collision_layer2;
        assert((0u64 & l) == 0) by (bit_vector);
        assert(false);
    }
    assert forall|j: int|
        0 <= j < c.overlapping@.len() implies (#[trigger] c.overlapping@[j]).collision_layer2
        != 0 by {
        let cw = c.collides_with;
        if c.overlapping@[j].collision_layer2 == 0 {
            assert((cw & 0u64) == 0) by (bit_vector);
        }
    }
}

/// The mask asymmetry over a whole world: in a well-formed world, every
/// collider or sensor with `collides_with == 0` has an empty collision list,
/// and no stored record names an opposing collider of collision layer zero.
pub proof fn lemma_world_mask_asymmetry(w: &PhysicsWorld, s: int)
    requires
        w.wf(),
        0 <= s < w.body_count(),
    ensures
        forall|k: int|
            0 <= k < w.colliders@[s].colliders@.len() && (#[trigger] w.colliders@[s].colliders@[k]).collides_with
                == 0 ==> w.colliders@[s].colliders@[k].overlapping@.len() == 0,
        forall|k: int|
            0 <= k < w.colliders@[s].sensors@.len() && (#[trigger] w.colliders@[s].sensors@[k]).collides_with
                == 0 ==> w.colliders@[s].sensors@[k].overlapping@.len() == 0,
        forall|k: int, j: int|
            0 <= k < w.colliders@[s].colliders@.len() && 0 <= j
                < w.colliders@[s].colliders@[k].overlapping@.len() ==> (
            #[trigger] w.colliders@[s].colliders@[k].overlapping@[j]).collision_layer2 != 0,
        forall|k: int, j: int|
            0 <= k < w.colliders@[s].sensors@.len() && 0 <= j
                < w.colliders@[s].sensors@[k].overlapping@.len() ==> (
            #[trigger] w.colliders@[s].sensors@[k].overlapping@[j]).collision_layer2 != 0,
{
    assert(body_recs_masked(w.colliders@[s]));
    assert forall|k: int|
        0 <= k < w.colliders@[s].colliders@.len() && (#[trigger] w.colliders@[s].colliders@[k]).collides_with
            == 0 implies w.colliders@[s].colliders@[k].overlapping@.len() == 0 by {
        lemma_mask_asymmetry(w.colliders@[s].colliders@[k]);
    }
    assert forall|k: int|
        0 <= k < w.colliders@[s].sensors@.len() && (#[trigger] w.colliders@[s].sensors@[k]).collides_with
            == 0 implies w.colliders@[s].sensors@[k].overlapping@.len() == 0 by {
        lemma_mask_asymmetry(w.colliders@[s].sensors@[k]);
    }
    assert forall|k: int, j: int|
        0 <= k < w.colliders@[s].colliders@.len() && 0 <= j
            < w.colliders@[s].colliders@[k].overlapping@.len() implies (
    #[trigger] w.colliders@[s].colliders@[k].overlapping@[j]).collision_layer2 != 0 by {
        lemma_mask_asymmetry(w.colliders@[s].colliders@[k]);
    }
    assert forall|k: int, j: int|
        0 <= k < w.colliders@[s].sensors@.len() && 0 <= j
            < w.colliders@[s].sensors@[k].overlapping@.len() implies (
    #[trigger] w.colliders@[s].sensors@[k].overlapping@[j]).collision_layer2 != 0 by {
        lemma_mask_asymmetry(w.colliders@[s].sensors@[k]);
    }
}

} // verus!
