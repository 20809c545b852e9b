//! The world-space position component of a body.

use vstd::prelude::*;
use crate::physics::POS_LIMIT;

verus! {

/// A body's world-space position, in integer world units.  Mutated only
/// through the movement operations of the physics world.
#[derive(Clone, Copy, Debug, PartialEq, Eq, Structural)]
pub struct Transform {
    pub x: i64,
    pub y: i64,
}

impl Transform {
    /// Both coordinates lie within the world bound.
    pub open spec fn wf(&self) -> bool {
        -POS_LIMIT <= self.x <= POS_LIMIT && -POS_LIMIT <= self.y <= POS_LIMIT
    }

    pub fn new(x: i64, y: i64) -> (r: Transform)
        ensures
            r.x == x,
            r.y == y,
    {
        Transform { x, y }
    }
}

impl Default for Transform {
    /// The origin.
    fn default() -> (r: Transform)
        ensures
            r.x == 0,
            r.y == 0,
    {
        Transform { x: 0, y: 0 }
    }
}

} // verus!
