//! Rays, hit records and the intersection tests.
//!
//! A ray is a half line `origin + t * direction` for rational `t >= 0`; the
//! direction is an integer vector and is not normalised, so every reported
//! "distance" is the exact rational parameter `t` along the direction.  The
//! slab test against a box, the Moller-Trumbore triangle test and the
//! closest-hit tree query are all exact: each contract characterises the
//! result completely in terms of the input coordinates.
//!
//! A floating-point implementation would precompute the reciprocal of the
//! direction for the slab test; the exact integer formulation compares
//! cross-multiplied rationals instead, which is the same interval test
//! without any division.

use vstd::prelude::*;

use crate::aabb::AABB;
use crate::aabb::BOX_LIMIT;
use crate::math::COORD_LIMIT;
use crate::math::Frac;
use crate::math::V3;
use crate::math::Vec3i;
use crate::math::cross_vec;
use crate::math::dot_vec;
use crate::math::lemma_mul_magnitude;
use crate::math::lemma_ratio_le_trans;
use crate::math::sub_vec;
use crate::math::v3;
use crate::math::v_cross;
use crate::math::v_dot;
use crate::math::v_sub;
use crate::bvh::Bvh;
use crate::bvh::NodeKind;
use crate::bvh::built;
use crate::bvh::lemma_perm_reaches;
use crate::bvh::split_shape;
use crate::structs::Triangle;
use crate::structs::Vertex;

verus! {

/// Magnitude bound for the numerators and denominators produced by the
/// triangle test: every triple product of coordinates stays below this.
pub const NUM_LIMIT: i64 = 1152921504606846976;

/// A ray: an origin, an integer direction, and an optional upper bound on
/// the ray parameter (`None` means the ray is unbounded).
#[derive(Clone, Copy, Debug, PartialEq, Eq, Structural)]
pub struct Ray {
    pub position: Vec3i,
    pub direction: Vec3i,
    pub length: Option<Frac>,
}

impl Ray {
    /// Origin and direction within coordinate bounds; a finite length bound
    /// is a well-formed rational.
    pub open spec fn wf(self) -> bool {
        &&& self.position.wf()
        &&& self.direction.wf()
        &&& match self.length {
            Option::None => true,
            Option::Some(l) => l.wf(),
        }
    }

    /// Build a ray.  A `None` length leaves the ray unbounded, like an
    /// infinite default.
    pub fn new(position: Vec3i, direction: Vec3i, length: Option<Frac>) -> (r: Ray)
        ensures
            r.position == position,
            r.direction == direction,
            r.length == length,
    {
        Ray { position, direction, length }
    }
}

/// Barycentric coordinates of a point inside a triangle: `u = u_num / den`
/// and `v = v_num / den` with a shared positive denominator.
#[derive(Clone, Copy, Debug, PartialEq, Eq, Structural)]
pub struct BaryUv {
    pub u_num: i64,
    pub v_num: i64,
    pub den: i64,
}

impl BaryUv {
    /// The weights are non-negative and sum to at most one.
    pub open spec fn wf(self) -> bool {
        &&& 0 < self.den <= NUM_LIMIT
        &&& 0 <= self.u_num
        &&& 0 <= self.v_num
        &&& self.u_num + self.v_num <= self.den
    }
}

/// A hit record: the exact ray parameter of the hit, the (unnormalised)
/// geometric normal of the hit triangle, the barycentric coordinates of the
/// hit point, and the index of the triangle that produced it.
///
/// The triangle index is meaningful only for records produced by a tree
/// query; a bare triangle test leaves it at zero.
#[derive(Clone, Copy, Debug, PartialEq, Eq, Structural)]
pub struct HitInfo {
    pub distance: Frac,
    pub normal: Vec3i,
    pub uv: BaryUv,
    pub triangle_index: usize,
}

impl HitInfo {
    /// Distance and barycentrics are well-formed rationals within the
    /// magnitude bounds of the triangle test.
    pub open spec fn wf(self) -> bool {
        &&& self.distance.wf()
        &&& -NUM_LIMIT <= self.distance.num <= NUM_LIMIT
        &&& self.distance.den <= NUM_LIMIT
        &&& self.uv.wf()
        &&& self.uv.den == self.distance.den
    }
}

/// One slab constraint `min <= o + t*d <= max` on the ray parameter
/// `t = tn / td`, written with the denominator multiplied through.
pub open spec fn axis_ok(minv: int, maxv: int, o: int, d: int, tn: int, td: int) -> bool {
    &&& minv * td <= o * td + tn * d
    &&& o * td + tn * d <= maxv * td
}

/// Some point of the ray at parameter `tn / td >= 0` lies inside the box:
/// the exact statement of the slab test.
pub open spec fn ray_reaches_box(b: AABB, r: Ray) -> bool {
    exists|tn: int, td: int|
        td > 0 && tn >= 0 && #[trigger] axis_ok(
            b.min.x as int,
            b.max.x as int,
            r.position.x as int,
            r.direction.x as int,
            tn,
            td,
        ) && axis_ok(
            b.min.y as int,
            b.max.y as int,
            r.position.y as int,
            r.direction.y as int,
            tn,
            td,
        ) && axis_ok(
            b.min.z as int,
            b.max.z as int,
            r.position.z as int,
            r.direction.z as int,
            tn,
            td,
        )
}

/// The set of admissible ray parameters for one axis: everything, nothing,
/// or a closed rational interval.
#[derive(Clone, Copy)]
enum AxisSlab {
    All,
    Empty,
    Within(Frac, Frac),
}

/// Which parameters `tn / td` a slab admits.
spec fn slab_admits(s: AxisSlab, tn: int, td: int) -> bool {
    match s {
        AxisSlab::All => true,
        AxisSlab::Empty => false,
        AxisSlab::Within(lo, hi) => lo.num * td <= tn * lo.den && tn * hi.den <= hi.num * td,
    }
}

/// The two interval endpoints are well-formed rationals.
spec fn slab_wf(s: AxisSlab) -> bool {
    match s {
        AxisSlab::All => true,
        AxisSlab::Empty => true,
        AxisSlab::Within(lo, hi) => lo.wf() && hi.wf(),
    }
}

/// The slab fully characterises the axis constraint.
spec fn slab_exact(s: AxisSlab, minv: int, maxv: int, o: int, d: int) -> bool {
    forall|tn: int, td: int|
        td > 0 ==> (axis_ok(minv, maxv, o, d, tn, td) <==> #[trigger] slab_admits(s, tn, td))
}

/// Solve one slab constraint for the ray parameter.
fn axis_slab(minv: i64, maxv: i64, o: i64, d: i64) -> (res: AxisSlab)
    requires
        -BOX_LIMIT <= minv <= BOX_LIMIT,
        -BOX_LIMIT <= maxv <= BOX_LIMIT,
        -COORD_LIMIT <= o <= COORD_LIMIT,
        -COORD_LIMIT <= d <= COORD_LIMIT,
    ensures
        slab_wf(res),
        slab_exact(res, minv as int, maxv as int, o as int, d as int),
{
    let ghost mi = minv as int;
    let ghost ma = maxv as int;
    let ghost oo = o as int;
    let ghost dd = d as int;
    if d == 0 {
        if o < minv || o > maxv {
            let res = AxisSlab::Empty;
            assert forall|tn: int, td: int| td > 0 implies (axis_ok(mi, ma, oo, 0, tn, td)
                <==> #[trigger] slab_admits(res, tn, td)) by {
                assert(mi * td > oo * td || oo * td > ma * td) by (nonlinear_arith)
                    requires
                        td > 0,
                        mi > oo || oo > ma,
                ;
            }
            res
        } else {
            let res = AxisSlab::All;
            assert forall|tn: int, td: int| td > 0 implies (axis_ok(mi, ma, oo, 0, tn, td)
                <==> #[trigger] slab_admits(res, tn, td)) by {
                assert(mi * td <= oo * td && oo * td <= ma * td) by (nonlinear_arith)
                    requires
                        td > 0,
                        mi <= oo <= ma,
                ;
            }
            res
        }
    } else if d > 0 {
        let lo = Frac { num: minv - o, den: d };
        let hi = Frac { num: maxv - o, den: d };
        let res = AxisSlab::Within(lo, hi);
        assert forall|tn: int, td: int| td > 0 implies (axis_ok(mi, ma, oo, dd, tn, td)
            <==> #[trigger] slab_admits(res, tn, td)) by {
            assert((mi - oo) * td == mi * td - oo * td) by (nonlinear_arith);
            assert((ma - oo) * td == ma * td - oo * td) by (nonlinear_arith);
        }
        res
    } else {
        let lo = Frac { num: o - maxv, den: -d };
        let hi = Frac { num: o - minv, den: -d };
        let res = AxisSlab::Within(lo, hi);
        assert forall|tn: int, td: int| td > 0 implies (axis_ok(mi, ma, oo, dd, tn, td)
            <==> #[trigger] slab_admits(res, tn, td)) by {
            assert((oo - ma) * td == oo * td - ma * td) by (nonlinear_arith);
            assert((oo - mi) * td == oo * td - mi * td) by (nonlinear_arith);
            assert(tn * (-dd) == -(tn * dd)) by (nonlinear_arith);
        }
        res
    }
}

/// Intersect two slabs: the result admits exactly the parameters admitted
/// by both.
fn slab_and(a: AxisSlab, b: AxisSlab) -> (res: AxisSlab)
    requires
        slab_wf(a),
        slab_wf(b),
    ensures
        slab_wf(res),
        forall|tn: int, td: int|
            td > 0 ==> (#[trigger] slab_admits(res, tn, td) <==> slab_admits(a, tn, td)
                && slab_admits(b, tn, td)),
{
    match (a, b) {
        (AxisSlab::Empty, _) => AxisSlab::Empty,
        (_, AxisSlab::Empty) => AxisSlab::Empty,
        (AxisSlab::All, other) => other,
        (other, AxisSlab::All) => other,
        (AxisSlab::Within(lo1, hi1), AxisSlab::Within(lo2, hi2)) => {
            let lo = if lo1.le_exec(&lo2) {
                lo2
            } else {
                lo1
            };
            let hi = if hi1.le_exec(&hi2) {
                hi1
            } else {
                hi2
            };
            proof {
                crate::math::lemma_frac_le_total(lo1, lo2);
                crate::math::lemma_frac_le_total(hi1, hi2);
            }
            let res = AxisSlab::Within(lo, hi);
            assert forall|tn: int, td: int| td > 0 implies (#[trigger] slab_admits(res, tn, td)
                <==> slab_admits(a, tn, td) && slab_admits(b, tn, td)) by {
                if slab_admits(res, tn, td) {
                    // `lo` is the larger lower bound, so both lower bounds
                    // hold; dually for the upper bounds.
                    lemma_ratio_le_trans(
                        lo1.num as int, lo1.den as int, lo.num as int, lo.den as int, tn, td,
                    );
                    lemma_ratio_le_trans(
                        lo2.num as int, lo2.den as int, lo.num as int, lo.den as int, tn, td,
                    );
                    lemma_ratio_le_trans(
                        tn, td, hi.num as int, hi.den as int, hi1.num as int, hi1.den as int,
                    );
                    lemma_ratio_le_trans(
                        tn, td, hi.num as int, hi.den as int, hi2.num as int, hi2.den as int,
                    );
                }
            }
            res
        },
    }
}

impl AABB {
    /// The exact slab test: does any point of the ray at a non-negative
    /// parameter lie inside the box?  A ray tangent to a face counts as a
    /// hit: the parameter interval is closed.
    pub fn intersects(&self, ray: &Ray) -> (r: bool)
        requires
            self.wf(),
            ray.wf(),
        ensures
            r == ray_reaches_box(*self, *ray),
    {
        let sx = axis_slab(self.min.x, self.max.x, ray.position.x, ray.direction.x);
        let sy = axis_slab(self.min.y, self.max.y, ray.position.y, ray.direction.y);
        let sz = axis_slab(self.min.z, self.max.z, ray.position.z, ray.direction.z);
        let sxy = slab_and(sx, sy);
        let all = slab_and(sxy, sz);
        match all {
            AxisSlab::Empty => {
                proof {
                    if ray_reaches_box(*self, *ray) {
                        let (tn, td): (int, int) = self.reach_witness(ray);
                        assert(slab_admits(sx, tn, td));
                        assert(slab_admits(sy, tn, td));
                        assert(slab_admits(sz, tn, td));
                        assert(slab_admits(sxy, tn, td));
                        assert(slab_admits(all, tn, td));
                    }
                }
                false
            },
            AxisSlab::All => {
                proof {
                    assert(slab_admits(all, 0, 1));
                    assert(slab_admits(sxy, 0, 1));
                    assert(slab_admits(sx, 0, 1));
                    assert(slab_admits(sy, 0, 1));
                    assert(slab_admits(sz, 0, 1));
                    assert(axis_ok(
                        self.min.x as int,
                        self.max.x as int,
                        ray.position.x as int,
                        ray.direction.x as int,
                        0,
                        1,
                    ));
                    assert(axis_ok(
                        self.min.y as int,
                        self.max.y as int,
                        ray.position.y as int,
                        ray.direction.y as int,
                        0,
                        1,
                    ));
                    assert(axis_ok(
                        self.min.z as int,
                        self.max.z as int,
                        ray.position.z as int,
                        ray.direction.z as int,
                        0,
                        1,
                    ));
                }
                true
            },
            AxisSlab::Within(lo, hi) => {
                let feasible = lo.le_exec(&hi) && hi.num >= 0;
                proof {
                    if feasible {
                        // Witness: the upper end of the interval.
                        let wn = hi.num as int;
                        let wd = hi.den as int;
                        assert(slab_admits(all, wn, wd));
                        assert(slab_admits(sxy, wn, wd));
                        assert(slab_admits(sx, wn, wd));
                        assert(slab_admits(sy, wn, wd));
                        assert(slab_admits(sz, wn, wd));
                        assert(axis_ok(
                            self.min.x as int,
                            self.max.x as int,
                            ray.position.x as int,
                            ray.direction.x as int,
                            wn,
                            wd,
                        ));
                        assert(axis_ok(
                            self.min.y as int,
                            self.max.y as int,
                            ray.position.y as int,
                            ray.direction.y as int,
                            wn,
                            wd,
                        ));
                        assert(axis_ok(
                            self.min.z as int,
                            self.max.z as int,
                            ray.position.z as int,
                            ray.direction.z as int,
                            wn,
                            wd,
                        ));
                    } else {
                        if ray_reaches_box(*self, *ray) {
                            let (tn, td): (int, int) = self.reach_witness(ray);
                            assert(slab_admits(sx, tn, td));
                            assert(slab_admits(sy, tn, td));
                            assert(slab_admits(sz, tn, td));
                            assert(slab_admits(sxy, tn, td));
                            assert(slab_admits(all, tn, td));
                            lemma_ratio_le_trans(
                                lo.num as int,
                                lo.den as int,
                                tn,
                                td,
                                hi.num as int,
                                hi.den as int,
                            );
                            assert(tn * hi.den >= 0) by (nonlinear_arith)
                                requires
                                    tn >= 0,
                                    hi.den > 0,
                            ;
                            assert(hi.num < 0 ==> hi.num * td < 0) by (nonlinear_arith)
                                requires
                                    td > 0,
                            ;
                            assert(false);
                        }
                    }
                }
                feasible
            },
        }
    }

    /// Pick a witness parameter out of `ray_reaches_box`.
    proof fn reach_witness(&self, ray: &Ray) -> (w: (int, int))
        requires
            ray_reaches_box(*self, *ray),
        ensures
            w.1 > 0,
            w.0 >= 0,
            axis_ok(
                self.min.x as int,
                self.max.x as int,
                ray.position.x as int,
                ray.direction.x as int,
                w.0,
                w.1,
            ),
            axis_ok(
                self.min.y as int,
                self.max.y as int,
                ray.position.y as int,
                ray.direction.y as int,
                w.0,
                w.1,
            ),
            axis_ok(
                self.min.z as int,
                self.max.z as int,
                ray.position.z as int,
                ray.direction.z as int,
                w.0,
                w.1,
            ),
    {
        let (tn, td): (int, int) = choose|tn: int, td: int|
            td > 0 && tn >= 0 && #[trigger] axis_ok(
                self.min.x as int,
                self.max.x as int,
                ray.position.x as int,
                ray.direction.x as int,
                tn,
                td,
            ) && axis_ok(
                self.min.y as int,
                self.max.y as int,
                ray.position.y as int,
                ray.direction.y as int,
                tn,
                td,
            ) && axis_ok(
                self.min.z as int,
                self.max.z as int,
                ray.position.z as int,
                ray.direction.z as int,
                tn,
                td,
            );
        (tn, td)
    }
}

/// First edge of a triangle, `v1 - v0`.
pub open spec fn edge1(t: Triangle) -> V3 {
    v_sub(v3(t.v1.position), v3(t.v0.position))
}

/// Second edge of a triangle, `v2 - v0`.
pub open spec fn edge2(t: Triangle) -> V3 {
    v_sub(v3(t.v2.position), v3(t.v0.position))
}

/// The Moller-Trumbore auxiliary vector `h = direction x e2`.
pub open spec fn tri_h(t: Triangle, r: Ray) -> V3 {
    v_cross(v3(r.direction), edge2(t))
}

/// The determinant `e1 . h` of the ray/triangle linear system.  A positive
/// determinant means the ray meets the front face of the triangle plane.
pub open spec fn tri_det(t: Triangle, r: Ray) -> int {
    v_dot(edge1(t), tri_h(t, r))
}

/// The origin offset `s = origin - v0`.
pub open spec fn tri_s(t: Triangle, r: Ray) -> V3 {
    v_sub(v3(r.position), v3(t.v0.position))
}

/// Numerator of the first barycentric coordinate: `u = u_num / det`.
pub open spec fn tri_u_num(t: Triangle, r: Ray) -> int {
    v_dot(tri_s(t, r), tri_h(t, r))
}

/// The Moller-Trumbore auxiliary vector `q = s x e1`.
pub open spec fn tri_q(t: Triangle, r: Ray) -> V3 {
    v_cross(tri_s(t, r), edge1(t))
}

/// Numerator of the second barycentric coordinate: `v = v_num / det`.
pub open spec fn tri_v_num(t: Triangle, r: Ray) -> int {
    v_dot(v3(r.direction), tri_q(t, r))
}

/// Numerator of the hit parameter: `t = t_num / det`.
pub open spec fn tri_t_num(t: Triangle, r: Ray) -> int {
    v_dot(edge2(t), tri_q(t, r))
}

/// The geometric (unnormalised) face normal `e1 x e2`.
pub open spec fn tri_normal(t: Triangle) -> V3 {
    v_cross(edge1(t), edge2(t))
}

/// The hit parameter `tn / td` does not exceed the ray's length bound.
pub open spec fn within_length(r: Ray, tn: int, td: int) -> bool {
    match r.length {
        Option::None => true,
        Option::Some(l) => tn * l.den <= l.num * td,
    }
}

/// The ray hits the triangle: the exact acceptance condition of the
/// front-face-culled Moller-Trumbore test.  The determinant must be
/// strictly positive (a parallel or back-facing triangle is rejected), the
/// barycentric coordinates must lie inside the triangle (boundaries
/// included), the hit must be strictly in front of the origin, and within
/// the ray's length bound if it has one.
pub open spec fn tri_hit(t: Triangle, r: Ray) -> bool {
    &&& tri_det(t, r) > 0
    &&& 0 <= tri_u_num(t, r) <= tri_det(t, r)
    &&& 0 <= tri_v_num(t, r)
    &&& tri_u_num(t, r) + tri_v_num(t, r) <= tri_det(t, r)
    &&& tri_t_num(t, r) > 0
    &&& within_length(r, tri_t_num(t, r), tri_det(t, r))
}

impl Triangle {
    /// The exact Moller-Trumbore ray/triangle test, front-face culled: the
    /// result is `Some` exactly when [`tri_hit`] holds, and the returned
    /// record carries the exact hit parameter, barycentrics and geometric
    /// normal.
    pub fn intersects(&self, ray: &Ray) -> (res: Option<HitInfo>)
        requires
            self.wf(),
            ray.wf(),
        ensures
            match res {
                Option::None => !tri_hit(*self, *ray),
                Option::Some(h) => {
                    &&& tri_hit(*self, *ray)
                    &&& h.wf()
                    &&& h.distance.num == tri_t_num(*self, *ray)
                    &&& h.distance.den == tri_det(*self, *ray)
                    &&& h.uv.u_num == tri_u_num(*self, *ray)
                    &&& h.uv.v_num == tri_v_num(*self, *ray)
                    &&& v3(h.normal) == tri_normal(*self)
                    &&& h.triangle_index == 0
                },
            },
    {
        let e1 = sub_vec(self.v1.position, self.v0.position, Ghost(262144), Ghost(262144));
        let e2 = sub_vec(self.v2.position, self.v0.position, Ghost(262144), Ghost(262144));
        let h = cross_vec(ray.direction, e2, Ghost(262144), Ghost(524288));
        let det = dot_vec(e1, h, Ghost(524288), Ghost(274877906944));
        if det <= 0 {
            return Option::None;
        }
        let s = sub_vec(ray.position, self.v0.position, Ghost(262144), Ghost(262144));
        let u_num = dot_vec(s, h, Ghost(524288), Ghost(274877906944));
        if u_num < 0 || u_num > det {
            return Option::None;
        }
        let q = cross_vec(s, e1, Ghost(524288), Ghost(524288));
        let v_num = dot_vec(ray.direction, q, Ghost(262144), Ghost(549755813888));
        if v_num < 0 || u_num + v_num > det {
            return Option::None;
        }
        let t_num = dot_vec(e2, q, Ghost(524288), Ghost(549755813888));
        if t_num <= 0 {
            return Option::None;
        }
        let dist = Frac { num: t_num, den: det };
        match ray.length {
            Option::Some(l) => {
                if !dist.le_exec(&l) {
                    return Option::None;
                }
            },
            Option::None => {},
        }
        let n = cross_vec(e1, e2, Ghost(524288), Ghost(524288));
        Option::Some(
            HitInfo {
                distance: dist,
                normal: n,
                uv: BaryUv { u_num, v_num, den: det },
                triangle_index: 0,
            },
        )
    }
}

/// A convex combination with non-negative weights summing to `det` stays
/// within any interval that contains the three combined values, after
/// scaling the interval by `det`.
proof fn lemma_weighted_in_range(
    w: int, un: int, vn: int, det: int, a0: int, a1: int, a2: int, lo: int, hi: int,
)
    requires
        w >= 0,
        un >= 0,
        vn >= 0,
        w + un + vn == det,
        lo <= a0 <= hi,
        lo <= a1 <= hi,
        lo <= a2 <= hi,
    ensures
        lo * det <= w * a0 + un * a1 + vn * a2,
        w * a0 + un * a1 + vn * a2 <= hi * det,
{
    assert(w * lo <= w * a0 <= w * hi) by (nonlinear_arith)
        requires
            w >= 0,
            lo <= a0 <= hi,
    ;
    assert(un * lo <= un * a1 <= un * hi) by (nonlinear_arith)
        requires
            un >= 0,
            lo <= a1 <= hi,
    ;
    assert(vn * lo <= vn * a2 <= vn * hi) by (nonlinear_arith)
        requires
            vn >= 0,
            lo <= a2 <= hi,
    ;
    assert((w + un + vn) * lo == w * lo + un * lo + vn * lo) by (nonlinear_arith);
    assert((w + un + vn) * hi == w * hi + un * hi + vn * hi) by (nonlinear_arith);
    assert(lo * det == det * lo) by (nonlinear_arith);
    assert(hi * det == det * hi) by (nonlinear_arith);
}

/// One axis of the containment argument: if the Cramer identity holds and
/// the three vertex coordinates lie in `[minv, maxv]`, then the hit point
/// coordinate (scaled by `det`) does too.
proof fn lemma_axis_contained(
    o: int, dx: int, v0x: int, v1x: int, v2x: int, minv: int, maxv: int,
    un: int, vn: int, tn: int, det: int,
)
    requires
        un * (v1x - v0x) + vn * (v2x - v0x) - tn * dx == det * (o - v0x),
        0 <= un,
        0 <= vn,
        un + vn <= det,
        det > 0,
        minv <= v0x <= maxv,
        minv <= v1x <= maxv,
        minv <= v2x <= maxv,
    ensures
        axis_ok(minv, maxv, o, dx, tn, det),
{
    let w = det - un - vn;
    assert(un * (v1x - v0x) == un * v1x - un * v0x) by (nonlinear_arith);
    assert(vn * (v2x - v0x) == vn * v2x - vn * v0x) by (nonlinear_arith);
    assert(det * (o - v0x) == det * o - det * v0x) by (nonlinear_arith);
    assert((det - un - vn) * v0x == det * v0x - un * v0x - vn * v0x) by (nonlinear_arith);
    assert(o * det == det * o) by (nonlinear_arith);
    assert(o * det + tn * dx == w * v0x + un * v1x + vn * v2x);
    lemma_weighted_in_range(w, un, vn, det, v0x, v1x, v2x, minv, maxv);
}

/// A triangle whose vertices all lie inside a box can only be hit where
/// the ray meets the box: an accepted hit is a point of the ray, at a
/// non-negative parameter, inside the triangle and hence inside the box.
/// This is what makes subtree pruning by a bounding-box test sound.
pub proof fn lemma_contained_hit_reaches_box(t: Triangle, r: Ray, b: AABB)
    requires
        tri_hit(t, r),
        b.contains_triangle(t),
    ensures
        ray_reaches_box(b, r),
{
    crate::math::lemma_cramer(v3(r.direction), edge1(t), edge2(t), tri_s(t, r));
    let det = tri_det(t, r);
    let un = tri_u_num(t, r);
    let vn = tri_v_num(t, r);
    let tn = tri_t_num(t, r);
    lemma_axis_contained(
        r.position.x as int,
        r.direction.x as int,
        t.v0.position.x as int,
        t.v1.position.x as int,
        t.v2.position.x as int,
        b.min.x as int,
        b.max.x as int,
        un, vn, tn, det,
    );
    lemma_axis_contained(
        r.position.y as int,
        r.direction.y as int,
        t.v0.position.y as int,
        t.v1.position.y as int,
        t.v2.position.y as int,
        b.min.y as int,
        b.max.y as int,
        un, vn, tn, det,
    );
    lemma_axis_contained(
        r.position.z as int,
        r.direction.z as int,
        t.v0.position.z as int,
        t.v1.position.z as int,
        t.v2.position.z as int,
        b.min.z as int,
        b.max.z as int,
        un, vn, tn, det,
    );
    assert(axis_ok(
        b.min.x as int,
        b.max.x as int,
        r.position.x as int,
        r.direction.x as int,
        tn,
        det,
    ));
}

/// A two-component interpolated attribute, scaled by the common
/// denominator of the barycentric weights.
#[derive(Clone, Copy, Debug, PartialEq, Eq, Structural)]
pub struct Wide2 {
    pub x: i128,
    pub y: i128,
}

/// A three-component interpolated attribute, scaled by the common
/// denominator of the barycentric weights.
#[derive(Clone, Copy, Debug, PartialEq, Eq, Structural)]
pub struct Wide3 {
    pub x: i128,
    pub y: i128,
    pub z: i128,
}

/// A four-component interpolated attribute, scaled by the common
/// denominator of the barycentric weights.
#[derive(Clone, Copy, Debug, PartialEq, Eq, Structural)]
pub struct Wide4 {
    pub x: i128,
    pub y: i128,
    pub z: i128,
    pub w: i128,
}

/// One interpolated attribute component, scaled by the denominator `den`
/// of the barycentric weights `un / den` and `vn / den`: the exact value
/// of `den * (a0 + (a1-a0)u + (a2-a0)v)`.
pub open spec fn interp_comp(a0: int, a1: int, a2: int, un: int, vn: int, den: int) -> int {
    a0 * den + (a1 - a0) * un + (a2 - a0) * vn
}

/// A vertex interpolated at a barycentric position inside a triangle.
/// Every attribute component is an exact numerator over the shared
/// denominator `den`.
#[derive(Clone, Copy, Debug, PartialEq, Eq, Structural)]
pub struct InterpVertex {
    pub den: i64,
    pub position: Wide3,
    pub normal: Wide3,
    pub tangent: Wide4,
    pub colour: Wide4,
    pub uv0: Wide2,
    pub uv1: Wide2,
}

/// Every component of `r` is the exact barycentric interpolation of the
/// corresponding attribute of the triangle's vertices at `uv`.
pub open spec fn interp_vertex_ok(t: Triangle, un: int, vn: int, den: int, r: InterpVertex) -> bool {
    &&& r.den == den
    &&& r.position.x == interp_comp(
        t.v0.position.x as int, t.v1.position.x as int, t.v2.position.x as int, un, vn, den,
    )
    &&& r.position.y == interp_comp(
        t.v0.position.y as int, t.v1.position.y as int, t.v2.position.y as int, un, vn, den,
    )
    &&& r.position.z == interp_comp(
        t.v0.position.z as int, t.v1.position.z as int, t.v2.position.z as int, un, vn, den,
    )
    &&& r.normal.x == interp_comp(
        t.v0.normal.x as int, t.v1.normal.x as int, t.v2.normal.x as int, un, vn, den,
    )
    &&& r.normal.y == interp_comp(
        t.v0.normal.y as int, t.v1.normal.y as int, t.v2.normal.y as int, un, vn, den,
    )
    &&& r.normal.z == interp_comp(
        t.v0.normal.z as int, t.v1.normal.z as int, t.v2.normal.z as int, un, vn, den,
    )
    &&& r.tangent.x == interp_comp(
        t.v0.tangent.x as int, t.v1.tangent.x as int, t.v2.tangent.x as int, un, vn, den,
    )
    &&& r.tangent.y == interp_comp(
        t.v0.tangent.y as int, t.v1.tangent.y as int, t.v2.tangent.y as int, un, vn, den,
    )
    &&& r.tangent.z == interp_comp(
        t.v0.tangent.z as int, t.v1.tangent.z as int, t.v2.tangent.z as int, un, vn, den,
    )
    &&& r.tangent.w == interp_comp(
        t.v0.tangent.w as int, t.v1.tangent.w as int, t.v2.tangent.w as int, un, vn, den,
    )
    &&& r.colour.x == interp_comp(
        t.v0.colour.x as int, t.v1.colour.x as int, t.v2.colour.x as int, un, vn, den,
    )
    &&& r.colour.y == interp_comp(
        t.v0.colour.y as int, t.v1.colour.y as int, t.v2.colour.y as int, un, vn, den,
    )
    &&& r.colour.z == interp_comp(
        t.v0.colour.z as int, t.v1.colour.z as int, t.v2.colour.z as int, un, vn, den,
    )
    &&& r.colour.w == interp_comp(
        t.v0.colour.w as int, t.v1.colour.w as int, t.v2.colour.w as int, un, vn, den,
    )
    &&& r.uv0.x == interp_comp(t.v0.uv0.x as int, t.v1.uv0.x as int, t.v2.uv0.x as int, un, vn, den)
    &&& r.uv0.y == interp_comp(t.v0.uv0.y as int, t.v1.uv0.y as int, t.v2.uv0.y as int, un, vn, den)
    &&& r.uv1.x == interp_comp(t.v0.uv1.x as int, t.v1.uv1.x as int, t.v2.uv1.x as int, un, vn, den)
    &&& r.uv1.y == interp_comp(t.v0.uv1.y as int, t.v1.uv1.y as int, t.v2.uv1.y as int, un, vn, den)
}

/// Interpolate one attribute component at the barycentric position `uv`.
fn interp_one(a0: i64, a1: i64, a2: i64, uv: &BaryUv) -> (r: i128)
    requires
        -COORD_LIMIT <= a0 <= COORD_LIMIT,
        -COORD_LIMIT <= a1 <= COORD_LIMIT,
        -COORD_LIMIT <= a2 <= COORD_LIMIT,
        uv.wf(),
    ensures
        r == interp_comp(a0 as int, a1 as int, a2 as int, uv.u_num as int, uv.v_num as int, uv.den as int),
{
    proof {
        lemma_mul_magnitude(a0 as int, uv.den as int, 262144, NUM_LIMIT as int);
        lemma_mul_magnitude(a1 - a0, uv.u_num as int, 524288, NUM_LIMIT as int);
        lemma_mul_magnitude(a2 - a0, uv.v_num as int, 524288, NUM_LIMIT as int);
    }
    (a0 as i128) * (uv.den as i128) + ((a1 as i128) - (a0 as i128)) * (uv.u_num as i128) + ((
    a2 as i128) - (a0 as i128)) * (uv.v_num as i128)
}

impl Vertex {
    /// The vertex at barycentric position `uv` inside `triangle`: every
    /// attribute of the three corner vertices interpolated exactly, with
    /// the shared denominator carried through.
    pub fn from_triangle_with_uv(triangle: &Triangle, uv: &BaryUv) -> (r: InterpVertex)
        requires
            triangle.wf(),
            uv.wf(),
        ensures
            interp_vertex_ok(*triangle, uv.u_num as int, uv.v_num as int, uv.den as int, r),
    {
        let t = triangle;
        InterpVertex {
            den: uv.den,
            position: Wide3 {
                x: interp_one(t.v0.position.x, t.v1.position.x, t.v2.position.x, uv),
                y: interp_one(t.v0.position.y, t.v1.position.y, t.v2.position.y, uv),
                z: interp_one(t.v0.position.z, t.v1.position.z, t.v2.position.z, uv),
            },
            normal: Wide3 {
                x: interp_one(t.v0.normal.x, t.v1.normal.x, t.v2.normal.x, uv),
                y: interp_one(t.v0.normal.y, t.v1.normal.y, t.v2.normal.y, uv),
                z: interp_one(t.v0.normal.z, t.v1.normal.z, t.v2.normal.z, uv),
            },
            tangent: Wide4 {
                x: interp_one(t.v0.tangent.x, t.v1.tangent.x, t.v2.tangent.x, uv),
                y: interp_one(t.v0.tangent.y, t.v1.tangent.y, t.v2.tangent.y, uv),
                z: interp_one(t.v0.tangent.z, t.v1.tangent.z, t.v2.tangent.z, uv),
                w: interp_one(t.v0.tangent.w, t.v1.tangent.w, t.v2.tangent.w, uv),
            },
            colour: Wide4 {
                x: interp_one(t.v0.colour.x, t.v1.colour.x, t.v2.colour.x, uv),
                y: interp_one(t.v0.colour.y, t.v1.colour.y, t.v2.colour.y, uv),
                z: interp_one(t.v0.colour.z, t.v1.colour.z, t.v2.colour.z, uv),
                w: interp_one(t.v0.colour.w, t.v1.colour.w, t.v2.colour.w, uv),
            },
            uv0: Wide2 {
                x: interp_one(t.v0.uv0.x, t.v1.uv0.x, t.v2.uv0.x, uv),
                y: interp_one(t.v0.uv0.y, t.v1.uv0.y, t.v2.uv0.y, uv),
            },
            uv1: Wide2 {
                x: interp_one(t.v0.uv1.x, t.v1.uv1.x, t.v2.uv1.x, uv),
                y: interp_one(t.v0.uv1.y, t.v1.uv1.y, t.v2.uv1.y, uv),
            },
        }
    }
}

/// A resolved closest hit: the exact ray parameter of the hit and the
/// vertex interpolated at the hit point.
#[derive(Clone, Copy, Debug, PartialEq, Eq, Structural)]
pub struct HitInfoExt {
    pub distance: Frac,
    pub vertex_interpolated: InterpVertex,
}

/// The mathematical content of a hit record: exact numerators and
/// denominator, normal and triangle index, as unbounded integers.
pub struct SpecHit {
    pub tn: int,
    pub td: int,
    pub un: int,
    pub vn: int,
    pub normal: V3,
    pub idx: int,
}

/// The hit record that triangle `j` produces for ray `r`.
pub open spec fn mk_spec_hit(tris: Seq<Triangle>, r: Ray, j: int) -> SpecHit {
    SpecHit {
        tn: tri_t_num(tris[j], r),
        td: tri_det(tris[j], r),
        un: tri_u_num(tris[j], r),
        vn: tri_v_num(tris[j], r),
        normal: tri_normal(tris[j]),
        idx: j,
    }
}

/// Mathematical view of an executable hit record.
pub open spec fn hit_view(h: HitInfo) -> SpecHit {
    SpecHit {
        tn: h.distance.num as int,
        td: h.distance.den as int,
        un: h.uv.u_num as int,
        vn: h.uv.v_num as int,
        normal: v3(h.normal),
        idx: h.triangle_index as int,
    }
}

/// Mathematical view of an optional hit record.
pub open spec fn opt_view(o: Option<HitInfo>) -> Option<SpecHit> {
    match o {
        Option::None => Option::None,
        Option::Some(h) => Option::Some(hit_view(h)),
    }
}

/// A candidate hit at parameter `tn / td` is strictly closer than the
/// accumulator (an empty accumulator counts as infinitely far).
pub open spec fn closer(tn: int, td: int, acc: Option<SpecHit>) -> bool {
    match acc {
        Option::None => true,
        Option::Some(a) => tn * a.td < a.tn * td,
    }
}

/// One step of the linear closest-hit scan: test triangle `j` and replace
/// the accumulator if the triangle is hit strictly closer.
pub open spec fn scan_step(tris: Seq<Triangle>, r: Ray, j: int, acc: Option<SpecHit>) -> Option<
    SpecHit,
> {
    if tri_hit(tris[j], r) && closer(tri_t_num(tris[j], r), tri_det(tris[j], r), acc) {
        Option::Some(mk_spec_hit(tris, r, j))
    } else {
        acc
    }
}

/// The reference semantics of every query: fold the scan step over the
/// triangles referenced by `idxs[lo..hi]`, in order, starting from `acc`.
/// The tree traversal is proved to compute exactly this.
pub open spec fn scan_best(
    tris: Seq<Triangle>,
    idxs: Seq<usize>,
    r: Ray,
    lo: int,
    hi: int,
    acc: Option<SpecHit>,
) -> Option<SpecHit>
    decreases hi - lo,
{
    if lo >= hi {
        acc
    } else {
        scan_best(tris, idxs, r, lo + 1, hi, scan_step(tris, r, idxs[lo] as int, acc))
    }
}

/// The accumulator's denominator is positive.
pub open spec fn acc_sane(acc: Option<SpecHit>) -> bool {
    match acc {
        Option::None => true,
        Option::Some(a) => a.td > 0,
    }
}

/// The executable accumulator corresponds to a real accepted hit of one of
/// the stored triangles.
pub open spec fn acc_ok(tris: Seq<Triangle>, r: Ray, acc: Option<HitInfo>) -> bool {
    match acc {
        Option::None => true,
        Option::Some(h) => {
            &&& h.wf()
            &&& h.triangle_index < tris.len()
            &&& tri_hit(tris[h.triangle_index as int], r)
            &&& hit_view(h) == mk_spec_hit(tris, r, h.triangle_index as int)
        },
    }
}

/// Splitting the scan: scanning `[lo, hi)` is scanning `[lo, k)` and then
/// `[k, hi)` from the intermediate accumulator.
pub proof fn lemma_scan_split(
    tris: Seq<Triangle>,
    idxs: Seq<usize>,
    r: Ray,
    lo: int,
    k: int,
    hi: int,
    acc: Option<SpecHit>,
)
    requires
        lo <= k <= hi,
    ensures
        scan_best(tris, idxs, r, lo, hi, acc) == scan_best(
            tris,
            idxs,
            r,
            k,
            hi,
            scan_best(tris, idxs, r, lo, k, acc),
        ),
    decreases k - lo,
{
    if lo < k {
        lemma_scan_split(tris, idxs, r, lo + 1, k, hi, scan_step(tris, r, idxs[lo] as int, acc));
    }
}

/// A scan over a range with no accepted hit leaves the accumulator as it
/// is.
pub proof fn lemma_scan_no_hits(
    tris: Seq<Triangle>,
    idxs: Seq<usize>,
    r: Ray,
    lo: int,
    hi: int,
    acc: Option<SpecHit>,
)
    requires
        forall|k: int| lo <= k < hi ==> !tri_hit(tris[(#[trigger] idxs[k]) as int], r),
    ensures
        scan_best(tris, idxs, r, lo, hi, acc) == acc,
    decreases hi - lo,
{
    if lo < hi {
        lemma_scan_no_hits(tris, idxs, r, lo + 1, hi, acc);
    }
}

/// The scan result came from the scanned range (or is the unchanged
/// accumulator).
pub open spec fn from_range(
    tris: Seq<Triangle>,
    idxs: Seq<usize>,
    r: Ray,
    lo: int,
    hi: int,
    s: SpecHit,
) -> bool {
    exists|k: int|
        lo <= k < hi && (#[trigger] idxs[k]) as int == s.idx && tri_hit(tris[s.idx], r) && s
            == mk_spec_hit(tris, r, s.idx)
}

/// The scan result is at most every accepted hit of the scanned range.
pub open spec fn min_over(
    tris: Seq<Triangle>,
    idxs: Seq<usize>,
    r: Ray,
    lo: int,
    hi: int,
    s: SpecHit,
) -> bool {
    forall|k: int|
        lo <= k < hi && tri_hit(tris[(#[trigger] idxs[k]) as int], r) ==> s.tn * tri_det(
            tris[idxs[k] as int],
            r,
        ) <= tri_t_num(tris[idxs[k] as int], r) * s.td
}

/// The scan result is at most the starting accumulator.
pub open spec fn le_acc(s: SpecHit, acc: Option<SpecHit>) -> bool {
    match acc {
        Option::None => true,
        Option::Some(a) => s.tn * a.td <= a.tn * s.td,
    }
}

/// What the linear scan computes: its result is either the untouched
/// accumulator or an accepted hit from the range, and it is the minimum of
/// the accumulator and every accepted hit of the range.
pub proof fn lemma_scan_props(
    tris: Seq<Triangle>,
    idxs: Seq<usize>,
    r: Ray,
    lo: int,
    hi: int,
    acc: Option<SpecHit>,
)
    requires
        0 <= lo <= hi <= idxs.len(),
        forall|k: int| 0 <= k < idxs.len() ==> (#[trigger] idxs[k]) < tris.len(),
        acc_sane(acc),
    ensures
        acc_sane(scan_best(tris, idxs, r, lo, hi, acc)),
        match scan_best(tris, idxs, r, lo, hi, acc) {
            Option::None => acc is None && (forall|k: int|
                lo <= k < hi ==> !tri_hit(tris[(#[trigger] idxs[k]) as int], r)),
            Option::Some(s) => {
                &&& acc == Option::Some(s) || from_range(tris, idxs, r, lo, hi, s)
                &&& min_over(tris, idxs, r, lo, hi, s)
                &&& le_acc(s, acc)
            },
        },
    decreases hi - lo,
{
    if lo < hi {
        let j = idxs[lo] as int;
        let acc1 = scan_step(tris, r, j, acc);
        lemma_scan_props(tris, idxs, r, lo + 1, hi, acc1);
        let res = scan_best(tris, idxs, r, lo, hi, acc);
        assert(res == scan_best(tris, idxs, r, lo + 1, hi, acc1));
        match res {
            Option::None => {},
            Option::Some(s) => {
                if acc1 == Option::Some(s) && acc1 != acc {
                    // The first triangle replaced the accumulator.
                    assert(s == mk_spec_hit(tris, r, j));
                    assert((idxs[lo]) as int == s.idx && tri_hit(tris[s.idx], r) && s
                        == mk_spec_hit(tris, r, s.idx));
                    assert(from_range(tris, idxs, r, lo, hi, s));
                }
                if from_range(tris, idxs, r, lo + 1, hi, s) {
                    let k = choose|k: int|
                        lo + 1 <= k < hi && (#[trigger] idxs[k]) as int == s.idx && tri_hit(
                            tris[s.idx],
                            r,
                        ) && s == mk_spec_hit(tris, r, s.idx);
                    assert((idxs[k]) as int == s.idx && tri_hit(tris[s.idx], r) && s
                        == mk_spec_hit(tris, r, s.idx));
                    assert(from_range(tris, idxs, r, lo, hi, s));
                }
                // Minimality at the first position.
                if tri_hit(tris[j], r) {
                    let dj = tri_det(tris[j], r);
                    let nj = tri_t_num(tris[j], r);
                    if closer(nj, dj, acc) {
                        // acc1 is the hit at `lo`; res <= acc1.
                        assert(s.tn * dj <= nj * s.td);
                        match acc {
                            Option::None => {},
                            Option::Some(a) => {
                                lemma_ratio_le_trans(s.tn, s.td, nj, dj, a.tn, a.td);
                            },
                        }
                    } else {
                        // acc stands; res <= acc <= the hit at `lo`.
                        match acc {
                            Option::None => {},
                            Option::Some(a) => {
                                lemma_ratio_le_trans(s.tn, s.td, a.tn, a.td, nj, dj);
                            },
                        }
                    }
                }
            },
        }
    }
}

/// No triangle of the list is hit by the ray.
pub open spec fn query_no_hit(tris: Seq<Triangle>, r: Ray) -> bool {
    forall|j: int| 0 <= j < tris.len() ==> !tri_hit(#[trigger] tris[j], r)
}

/// The resolved record `he` is the closest hit, produced by triangle `j`:
/// the triangle is hit, the distance is its exact hit parameter, the
/// interpolated vertex is the exact barycentric interpolation at the hit
/// point, and no other hit triangle is strictly closer.
pub open spec fn query_hit(tris: Seq<Triangle>, r: Ray, he: HitInfoExt, j: int) -> bool {
    &&& 0 <= j < tris.len()
    &&& tri_hit(tris[j], r)
    &&& he.distance.num == tri_t_num(tris[j], r)
    &&& he.distance.den == tri_det(tris[j], r)
    &&& interp_vertex_ok(
        tris[j],
        tri_u_num(tris[j], r),
        tri_v_num(tris[j], r),
        tri_det(tris[j], r),
        he.vertex_interpolated,
    )
    &&& forall|j2: int|
        0 <= j2 < tris.len() && tri_hit(#[trigger] tris[j2], r) ==> he.distance.num * tri_det(
            tris[j2],
            r,
        ) <= tri_t_num(tris[j2], r) * he.distance.den
}

/// The distance part of a query result.
pub open spec fn hit_distance(res: Option<HitInfoExt>) -> Option<Frac> {
    match res {
        Option::None => Option::None,
        Option::Some(he) => Option::Some(he.distance),
    }
}

/// The closest-hit contract, over the distance alone: `None` exactly when
/// no triangle is hit, otherwise the exact hit parameter of some hit
/// triangle that no other hit triangle beats.  This is what a brute-force
/// linear scan over the triangle list returns.
pub open spec fn closest_hit_distance_ok(tris: Seq<Triangle>, r: Ray, d: Option<Frac>) -> bool {
    match d {
        Option::None => query_no_hit(tris, r),
        Option::Some(f) => {
            &&& f.wf()
            &&& exists|j: int|
                0 <= j < tris.len() && tri_hit(#[trigger] tris[j], r) && f.num == tri_t_num(
                    tris[j],
                    r,
                ) && f.den == tri_det(tris[j], r)
            &&& forall|j: int|
                0 <= j < tris.len() && tri_hit(#[trigger] tris[j], r) ==> f.num * tri_det(
                    tris[j],
                    r,
                ) <= tri_t_num(tris[j], r) * f.den
        },
    }
}

/// The smaller of three integers.
pub open spec fn min3(a: int, b: int, c: int) -> int {
    if a <= b && a <= c {
        a
    } else if b <= c {
        b
    } else {
        c
    }
}

/// The larger of three integers.
pub open spec fn max3(a: int, b: int, c: int) -> int {
    if a >= b && a >= c {
        a
    } else if b >= c {
        b
    } else {
        c
    }
}

/// The tightest axis-aligned box around a triangle's three vertices.
pub open spec fn tri_box(t: Triangle) -> AABB {
    AABB {
        min: Vec3i {
            x: min3(t.v0.position.x as int, t.v1.position.x as int, t.v2.position.x as int) as i64,
            y: min3(t.v0.position.y as int, t.v1.position.y as int, t.v2.position.y as int) as i64,
            z: min3(t.v0.position.z as int, t.v1.position.z as int, t.v2.position.z as int) as i64,
        },
        max: Vec3i {
            x: max3(t.v0.position.x as int, t.v1.position.x as int, t.v2.position.x as int) as i64,
            y: max3(t.v0.position.y as int, t.v1.position.y as int, t.v2.position.y as int) as i64,
            z: max3(t.v0.position.z as int, t.v1.position.z as int, t.v2.position.z as int) as i64,
        },
    }
}

/// A ray that misses the tight bounding box of every triangle in the list
/// hits nothing: any closest-hit result for it is `None`.
pub proof fn lemma_miss_all_boxes_no_hit(tris: Seq<Triangle>, r: Ray, d: Option<Frac>)
    requires
        closest_hit_distance_ok(tris, r, d),
        forall|j: int| 0 <= j < tris.len() ==> !ray_reaches_box(tri_box(#[trigger] tris[j]), r),
    ensures
        d is None,
{
    if d is Some {
        let j = choose|j: int|
            0 <= j < tris.len() && tri_hit(#[trigger] tris[j], r) && d->0.num == tri_t_num(
                tris[j],
                r,
            ) && d->0.den == tri_det(tris[j], r);
        assert(tri_box(tris[j]).contains_triangle(tris[j]));
        lemma_contained_hit_reaches_box(tris[j], r, tri_box(tris[j]));
    }
}

/// Querying two triangle lists that hold the same triangles (in any
/// order) gives the same answer: a hit in one is a hit in the other, and
/// the reported closest distances are equal as rationals.  The shape of
/// the trees built over the two lists plays no role.
pub proof fn lemma_query_respects_reordering(
    t1: Seq<Triangle>,
    t2: Seq<Triangle>,
    r: Ray,
    d1: Option<Frac>,
    d2: Option<Frac>,
)
    requires
        t1.to_multiset() == t2.to_multiset(),
        closest_hit_distance_ok(t1, r, d1),
        closest_hit_distance_ok(t2, r, d2),
    ensures
        d1 is Some <==> d2 is Some,
        match (d1, d2) {
            (Option::Some(f1), Option::Some(f2)) => f1.num * f2.den == f2.num * f1.den,
            _ => true,
        },
{
    broadcast use vstd::seq_lib::group_to_multiset_ensures;

    if d1 is Some {
        let f1 = d1->0;
        let j1 = choose|j: int|
            0 <= j < t1.len() && tri_hit(#[trigger] t1[j], r) && f1.num == tri_t_num(t1[j], r)
                && f1.den == tri_det(t1[j], r);
        assert(t1.contains(t1[j1]));
        assert(t2.to_multiset().count(t1[j1]) > 0);
        assert(t2.contains(t1[j1]));
        let i2 = choose|i: int| 0 <= i < t2.len() && t2[i] == t1[j1];
        assert(tri_hit(t2[i2], r));
        assert(d2 is Some);
        let f2 = d2->0;
        assert(f2.num * tri_det(t2[i2], r) <= tri_t_num(t2[i2], r) * f2.den);
        assert(f2.num * f1.den <= f1.num * f2.den);
    }
    if d2 is Some {
        let f2 = d2->0;
        let j2 = choose|j: int|
            0 <= j < t2.len() && tri_hit(#[trigger] t2[j], r) && f2.num == tri_t_num(t2[j], r)
                && f2.den == tri_det(t2[j], r);
        assert(t2.contains(t2[j2]));
        assert(t1.to_multiset().count(t2[j2]) > 0);
        assert(t1.contains(t2[j2]));
        let i1 = choose|i: int| 0 <= i < t1.len() && t1[i] == t2[j2];
        assert(tri_hit(t1[i1], r));
        assert(d1 is Some);
        let f1 = d1->0;
        assert(f1.num * tri_det(t1[i1], r) <= tri_t_num(t1[i1], r) * f1.den);
        assert(f1.num * f2.den <= f2.num * f1.den);
    }
}

impl Bvh {
    /// Recursive traversal.  If the ray misses the node's box the whole
    /// subtree is pruned, which is sound because every triangle of the
    /// range lies inside the box.  A leaf tests its triangles in order; an
    /// internal node visits both children.  The accumulator ends up
    /// exactly as the linear scan of this node's index range leaves it.
    fn intersects_sub(
        &self,
        ray: &Ray,
        node_index: usize,
        hit_info: &mut Option<HitInfo>,
        Ghost(first): Ghost<int>,
        Ghost(count): Ghost<int>,
        Ghost(lo): Ghost<int>,
        Ghost(hi): Ghost<int>,
    )
        requires
            self.storage_wf(),
            ray.wf(),
            built(
                self.nodes@,
                self.triangles@,
                self.indices@,
                node_index as int,
                first,
                count,
                lo,
                hi,
            ),
            acc_ok(self.triangles@, *ray, *old(hit_info)),
        ensures
            acc_ok(self.triangles@, *ray, *final(hit_info)),
            opt_view(*final(hit_info)) == scan_best(
                self.triangles@,
                self.indices@,
                *ray,
                first,
                first + count,
                opt_view(*old(hit_info)),
            ),
        decreases hi - lo,
    {
        let node = &self.nodes[node_index];
        if node.bounds.intersects(ray) {
            match node.kind {
                NodeKind::Leaf { first: f, count: c } => {
                    let ghost acc0 = opt_view(*hit_info);
                    let ilen = self.indices.len();
                    let end = f + c;
                    let mut k = f;
                    while k < end
                        invariant
                            self.storage_wf(),
                            ray.wf(),
                            f <= k <= end,
                            end == f + c,
                            end <= self.indices@.len(),
                            f as int == first,
                            c as int == count,
                            acc_ok(self.triangles@, *ray, *hit_info),
                            opt_view(*hit_info) == scan_best(
                                self.triangles@,
                                self.indices@,
                                *ray,
                                first,
                                k as int,
                                acc0,
                            ),
                        decreases end - k,
                    {
                        let idx = self.indices[k];
                        let ghost acck = opt_view(*hit_info);
                        let tri = &self.triangles[idx];
                        match tri.intersects(ray) {
                            Option::Some(h) => {
                                let cur: Option<HitInfo> = *hit_info;
                                let replace: bool = match cur {
                                    Option::Some(b) => h.distance.lt_exec(&b.distance),
                                    Option::None => true,
                                };
                                if replace {
                                    *hit_info = Option::Some(
                                        HitInfo {
                                            distance: h.distance,
                                            normal: h.normal,
                                            uv: h.uv,
                                            triangle_index: idx,
                                        },
                                    );
                                }
                            },
                            Option::None => {},
                        }
                        proof {
                            reveal_with_fuel(scan_best, 3);
                            assert(opt_view(*hit_info) == scan_step(
                                self.triangles@,
                                *ray,
                                idx as int,
                                acck,
                            ));
                            lemma_scan_split(
                                self.triangles@,
                                self.indices@,
                                *ray,
                                first,
                                k as int,
                                k + 1,
                                acc0,
                            );
                        }
                        k = k + 1;
                    }
                },
                NodeKind::Internal { left: l } => {
                    let ghost (m, mid): (int, int) = choose|m: int, mid: int|
                        #[trigger] split_shape(count, lo, hi, m, mid) && built(
                            self.nodes@,
                            self.triangles@,
                            self.indices@,
                            lo,
                            first,
                            m,
                            lo + 2,
                            mid,
                        ) && built(
                            self.nodes@,
                            self.triangles@,
                            self.indices@,
                            lo + 1,
                            first + m,
                            count - m,
                            mid,
                            hi,
                        );
                    let ghost acc0 = opt_view(*hit_info);
                    // Mentioning the node count keeps the child index
                    // arithmetic visibly within bounds.
                    let _nlen = self.nodes.len();
                    self.intersects_sub(ray, l, hit_info, Ghost(first), Ghost(m), Ghost(lo + 2), Ghost(mid));
                    let right = l + 1;
                    self.intersects_sub(
                        ray,
                        right,
                        hit_info,
                        Ghost(first + m),
                        Ghost(count - m),
                        Ghost(mid),
                        Ghost(hi),
                    );
                    proof {
                        lemma_scan_split(
                            self.triangles@,
                            self.indices@,
                            *ray,
                            first,
                            first + m,
                            first + count,
                            acc0,
                        );
                    }
                },
            }
        } else {
            proof {
                let tris = self.triangles@;
                let idxs = self.indices@;
                assert forall|k: int| first <= k < first + count implies !tri_hit(
                    tris[(#[trigger] idxs[k]) as int],
                    *ray,
                ) by {
                    if tri_hit(tris[idxs[k] as int], *ray) {
                        lemma_contained_hit_reaches_box(tris[idxs[k] as int], *ray, node.bounds);
                    }
                }
                lemma_scan_no_hits(tris, idxs, *ray, first, first + count, opt_view(*hit_info));
            }
        }
    }

    /// The closest-hit query: the exact hit parameter and interpolated
    /// vertex of the nearest triangle the ray hits, or `None` when it hits
    /// none.  The result is exactly what a brute-force linear scan over
    /// all stored triangles with [`Triangle::intersects`] would report.
    pub fn intersects(&self, ray: &Ray) -> (res: Option<HitInfoExt>)
        requires
            self.wf(),
            ray.wf(),
        ensures
            match res {
                Option::None => query_no_hit(self.triangles@, *ray),
                Option::Some(he) => exists|j: int| #[trigger] query_hit(
                    self.triangles@,
                    *ray,
                    he,
                    j,
                ),
            },
            closest_hit_distance_ok(self.triangles@, *ray, hit_distance(res)),
    {
        let ghost tris = self.triangles@;
        let ghost idxs = self.indices@;
        let n = self.indices.len();
        let nlen = self.nodes.len();
        let mut hit_info: Option<HitInfo> = Option::None;
        self.intersects_sub(
            ray,
            0,
            &mut hit_info,
            Ghost(0),
            Ghost(n as int),
            Ghost(1),
            Ghost(nlen as int),
        );
        proof {
            lemma_scan_props(tris, idxs, *ray, 0, idxs.len() as int, Option::None);
        }
        match hit_info {
            Option::None => {
                proof {
                    assert forall|j: int| 0 <= j < tris.len() implies !tri_hit(
                        #[trigger] tris[j],
                        *ray,
                    ) by {
                        lemma_perm_reaches(idxs, tris.len() as int, j);
                        let k = choose|k: int|
                            0 <= k < idxs.len() && (#[trigger] idxs[k]) as int == j;
                        assert(!tri_hit(tris[idxs[k] as int], *ray));
                    }
                }
                Option::None
            },
            Option::Some(h) => {
                let tri = self.triangles[h.triangle_index];
                let vi = Vertex::from_triangle_with_uv(&tri, &h.uv);
                let out = HitInfoExt { distance: h.distance, vertex_interpolated: vi };
                proof {
                    let j = h.triangle_index as int;
                    let s = hit_view(h);
                    assert forall|j2: int| 0 <= j2 < tris.len() && tri_hit(
                        #[trigger] tris[j2],
                        *ray,
                    ) implies out.distance.num * tri_det(tris[j2], *ray) <= tri_t_num(
                        tris[j2],
                        *ray,
                    ) * out.distance.den by {
                        lemma_perm_reaches(idxs, tris.len() as int, j2);
                        let k = choose|k: int|
                            0 <= k < idxs.len() && (#[trigger] idxs[k]) as int == j2;
                        assert(s.tn * tri_det(tris[idxs[k] as int], *ray) <= tri_t_num(
                            tris[idxs[k] as int],
                            *ray,
                        ) * s.td);
                    }
                    assert(query_hit(tris, *ray, out, j));
                }
                Option::Some(out)
            },
        }
    }
}

} // verus!
