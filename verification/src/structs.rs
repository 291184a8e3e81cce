//! Vertex and triangle data handed to the spatial index.
//!
//! A vertex carries a fixed-point position together with the shading
//! attributes of the source mesh (normal, tangent, colour and two texture
//! coordinate sets).  The index itself only ever reads positions; the other
//! attributes ride along so that a closest hit can be interpolated.

use vstd::prelude::*;

use crate::math::COORD_LIMIT;
use crate::math::Vec3i;

verus! {

/// A two-component attribute vector (a texture coordinate set).
#[derive(Clone, Copy, Debug, PartialEq, Eq, Structural)]
pub struct Vec2i {
    pub x: i64,
    pub y: i64,
}

impl Vec2i {
    /// All components within the coordinate bound.
    pub open spec fn wf(self) -> bool {
        &&& -COORD_LIMIT <= self.x <= COORD_LIMIT
        &&& -COORD_LIMIT <= self.y <= COORD_LIMIT
    }
}

/// A four-component attribute vector (a tangent or a colour).
#[derive(Clone, Copy, Debug, PartialEq, Eq, Structural)]
pub struct Vec4i {
    pub x: i64,
    pub y: i64,
    pub z: i64,
    pub w: i64,
}

impl Vec4i {
    /// All components within the coordinate bound.
    pub open spec fn wf(self) -> bool {
        &&& -COORD_LIMIT <= self.x <= COORD_LIMIT
        &&& -COORD_LIMIT <= self.y <= COORD_LIMIT
        &&& -COORD_LIMIT <= self.z <= COORD_LIMIT
        &&& -COORD_LIMIT <= self.w <= COORD_LIMIT
    }
}

/// One mesh vertex: a position and its shading attributes.
#[derive(Clone, Copy, Debug, PartialEq, Eq, Structural)]
pub struct Vertex {
    pub position: Vec3i,
    pub normal: Vec3i,
    pub tangent: Vec4i,
    pub colour: Vec4i,
    pub uv0: Vec2i,
    pub uv1: Vec2i,
}

impl Vertex {
    /// Every component of every attribute within the coordinate bound.
    pub open spec fn wf(self) -> bool {
        &&& self.position.wf()
        &&& self.normal.wf()
        &&& self.tangent.wf()
        &&& self.colour.wf()
        &&& self.uv0.wf()
        &&& self.uv1.wf()
    }
}

/// One triangle of the mesh, immutable once handed to the index.
#[derive(Clone, Copy, Debug, PartialEq, Eq, Structural)]
pub struct Triangle {
    pub v0: Vertex,
    pub v1: Vertex,
    pub v2: Vertex,
}

impl Triangle {
    /// All three vertices are well formed.
    pub open spec fn wf(self) -> bool {
        &&& self.v0.wf()
        &&& self.v1.wf()
        &&& self.v2.wf()
    }
}

} // verus!
