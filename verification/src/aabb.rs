//! Axis-aligned bounding boxes.
//!
//! A fresh box starts in an "empty" state with `min` above every admissible
//! coordinate and `max` below every admissible coordinate, so that the first
//! `grow` snaps both corners to the grown point.  The empty sentinel plays
//! the role the infinities play in a floating-point box.

use vstd::prelude::*;

use crate::math::COORD_LIMIT;
use crate::math::V3;
use crate::math::Vec3i;
use crate::structs::Triangle;

verus! {

/// Bound on the corner coordinates of a box: large enough to hold the empty
/// sentinel, strictly above every admissible point coordinate, and small
/// enough that the slab test arithmetic cannot overflow.
pub const BOX_LIMIT: i64 = 1048576;

/// An axis-aligned bounding box given by its two corners.
#[derive(Clone, Copy, Debug, PartialEq, Eq, Structural)]
pub struct AABB {
    pub min: Vec3i,
    pub max: Vec3i,
}

impl AABB {
    /// Corner coordinates stay within the sentinel bound.
    pub open spec fn wf(self) -> bool {
        &&& -BOX_LIMIT <= self.min.x <= BOX_LIMIT
        &&& -BOX_LIMIT <= self.min.y <= BOX_LIMIT
        &&& -BOX_LIMIT <= self.min.z <= BOX_LIMIT
        &&& -BOX_LIMIT <= self.max.x <= BOX_LIMIT
        &&& -BOX_LIMIT <= self.max.y <= BOX_LIMIT
        &&& -BOX_LIMIT <= self.max.z <= BOX_LIMIT
    }

    /// The empty box: `min` at the positive sentinel, `max` at the negative
    /// sentinel, so that it contains no point at all.
    pub open spec fn empty_box() -> AABB {
        AABB {
            min: Vec3i { x: BOX_LIMIT, y: BOX_LIMIT, z: BOX_LIMIT },
            max: Vec3i { x: (-BOX_LIMIT) as i64, y: (-BOX_LIMIT) as i64, z: (-BOX_LIMIT) as i64 },
        }
    }

    /// The point `p` lies inside the box (inclusive on every face).
    pub open spec fn contains_point(self, p: V3) -> bool {
        &&& self.min.x <= p.x <= self.max.x
        &&& self.min.y <= p.y <= self.max.y
        &&& self.min.z <= p.z <= self.max.z
    }

    /// All three vertex positions of `t` lie inside the box.
    pub open spec fn contains_triangle(self, t: Triangle) -> bool {
        &&& self.contains_point(crate::math::v3(t.v0.position))
        &&& self.contains_point(crate::math::v3(t.v1.position))
        &&& self.contains_point(crate::math::v3(t.v2.position))
    }

    /// A fresh, empty box.
    pub fn new() -> (r: AABB)
        ensures
            r == AABB::empty_box(),
            r.wf(),
            forall|p: V3| !r.contains_point(p),
    {
        AABB {
            min: Vec3i { x: BOX_LIMIT, y: BOX_LIMIT, z: BOX_LIMIT },
            max: Vec3i { x: -BOX_LIMIT, y: -BOX_LIMIT, z: -BOX_LIMIT },
        }
    }

    /// Widen the box just enough to include `position`: the new `min` is the
    /// componentwise minimum of the old `min` and the point, the new `max`
    /// the componentwise maximum.
    pub fn grow(&mut self, position: Vec3i)
        requires
            old(self).wf(),
            position.wf(),
        ensures
            final(self).wf(),
            final(self).min.x == if position.x < old(self).min.x { position.x } else {
                old(self).min.x
            },
            final(self).min.y == if position.y < old(self).min.y { position.y } else {
                old(self).min.y
            },
            final(self).min.z == if position.z < old(self).min.z { position.z } else {
                old(self).min.z
            },
            final(self).max.x == if position.x > old(self).max.x { position.x } else {
                old(self).max.x
            },
            final(self).max.y == if position.y > old(self).max.y { position.y } else {
                old(self).max.y
            },
            final(self).max.z == if position.z > old(self).max.z { position.z } else {
                old(self).max.z
            },
            final(self).contains_point(crate::math::v3(position)),
            forall|p: V3| old(self).contains_point(p) ==> final(self).contains_point(p),
    {
        if position.x < self.min.x {
            self.min.x = position.x;
        }
        if position.y < self.min.y {
            self.min.y = position.y;
        }
        if position.z < self.min.z {
            self.min.z = position.z;
        }
        if position.x > self.max.x {
            self.max.x = position.x;
        }
        if position.y > self.max.y {
            self.max.y = position.y;
        }
        if position.z > self.max.z {
            self.max.z = position.z;
        }
    }

    /// Half the surface area measure used by split heuristics: the sum of
    /// the three pairwise side products.
    pub fn area(&mut self) -> (r: i64)
        requires
            old(self).wf(),
        ensures
            *final(self) == *old(self),
            r == (old(self).max.x - old(self).min.x) * (old(self).max.y - old(self).min.y) + (old(
                self,
            ).max.y - old(self).min.y) * (old(self).max.z - old(self).min.z) + (old(self).max.z
                - old(self).min.z) * (old(self).max.x - old(self).min.x),
    {
        let sx: i64 = self.max.x - self.min.x;
        let sy: i64 = self.max.y - self.min.y;
        let sz: i64 = self.max.z - self.min.z;
        proof {
            crate::math::lemma_mul_magnitude(sx as int, sy as int, 2097152, 2097152);
            crate::math::lemma_mul_magnitude(sy as int, sz as int, 2097152, 2097152);
            crate::math::lemma_mul_magnitude(sz as int, sx as int, 2097152, 2097152);
        }
        sx * sy + sy * sz + sz * sx
    }
}

} // verus!
