//! Analytic ray/sphere intersection.
//!
//! The sphere stores its squared radius, so the discriminant of the
//! quadratic is exact integer arithmetic.  Square roots are irrational, so
//! the reported hit parameter uses the integer floor of the square root of
//! the discriminant; the contract pins that choice down exactly.  Hit and
//! miss are still decided exactly: the ray meets the sphere if and only if
//! the discriminant is non-negative.

use vstd::prelude::*;

use crate::math::Frac;
use crate::math::Vec3i;
use crate::math::dot_vec;
use crate::math::floor_sqrt;
use crate::math::lemma_mul_magnitude;
use crate::math::sub_vec;
use crate::math::v3;
use crate::math::v_dot;
use crate::math::v_sub;
use crate::ray::HitInfoExt;
use crate::ray::InterpVertex;
use crate::ray::Ray;
use crate::ray::Wide2;
use crate::ray::Wide3;
use crate::ray::Wide4;

verus! {

/// Largest admissible squared radius.
pub const RADIUS_SQ_LIMIT: i64 = 1099511627776;

/// A sphere: centre position and squared radius.
#[derive(Clone, Copy, Debug, PartialEq, Eq, Structural)]
pub struct Sphere {
    pub position: Vec3i,
    pub radius_squared: i64,
}

/// The squared length of the ray direction: the `t^2` coefficient of the
/// intersection quadratic.
pub open spec fn sph_a(r: Ray) -> int {
    v_dot(v3(r.direction), v3(r.direction))
}

/// The half `t` coefficient: `(origin - centre) . direction`.
pub open spec fn sph_b(s: Sphere, r: Ray) -> int {
    v_dot(v_sub(v3(r.position), v3(s.position)), v3(r.direction))
}

/// The constant coefficient: `|origin - centre|^2 - radius^2`.  Negative
/// exactly when the ray origin is strictly inside the sphere.
pub open spec fn sph_c(s: Sphere, r: Ray) -> int {
    v_dot(
        v_sub(v3(r.position), v3(s.position)),
        v_sub(v3(r.position), v3(s.position)),
    ) - s.radius_squared
}

/// The discriminant of the intersection quadratic (scaled by `sph_a`):
/// the line of the ray meets the sphere exactly when this is
/// non-negative.
pub open spec fn sph_disc(s: Sphere, r: Ray) -> int {
    sph_b(s, r) * sph_b(s, r) - sph_a(r) * sph_c(s, r)
}

/// `sq` is the integer floor of the square root of `n`.
pub open spec fn is_floor_sqrt(sq: int, n: int) -> bool {
    0 <= sq && sq * sq <= n && n < (sq + 1) * (sq + 1)
}

impl Sphere {
    /// Centre within coordinate bounds and a representable squared radius.
    pub open spec fn wf(self) -> bool {
        &&& self.position.wf()
        &&& 0 <= self.radius_squared <= RADIUS_SQ_LIMIT
    }

    /// Build a sphere from its centre and radius, storing the squared
    /// radius.
    pub fn new(position: Vec3i, radius: i64) -> (r: Sphere)
        requires
            position.wf(),
            0 <= radius <= 1048576,
        ensures
            r.position == position,
            r.radius_squared == radius * radius,
            r.wf(),
    {
        proof {
            lemma_mul_magnitude(radius as int, radius as int, 1048576, 1048576);
            assert(radius * radius >= 0) by (nonlinear_arith)
                requires
                    radius >= 0,
            ;
        }
        Sphere { position, radius_squared: radius * radius }
    }

    /// The analytic ray/sphere test.
    ///
    /// Misses (`None`) exactly when the discriminant is negative (the line
    /// of the ray misses the sphere), the direction is the zero vector, or
    /// both roots are behind the origin (`b > 0 && c > 0`: the sphere lies
    /// entirely behind the ray).  Otherwise the quadratic
    /// `a t^2 + 2 b t + c = 0` has roots `(-b -+ sqrt(disc)) / a`; the
    /// nearer root is reported when the true nearer root is non-negative
    /// (`b <= 0 && c >= 0`), else the far root, so a ray starting inside
    /// the sphere reports the far exit point.  The reported parameter uses
    /// the floor `sq` of the square root of the discriminant and is never
    /// negative.  The returned vertex carries the exact hit position
    /// `origin + direction * t` and the (unnormalised) outward normal
    /// `hit - centre`, both scaled by the denominator `a`.
    pub fn intersects(&self, ray: &Ray) -> (res: Option<HitInfoExt>)
        requires
            self.wf(),
            ray.wf(),
        ensures
            res is Some <==> sph_disc(*self, *ray) >= 0 && sph_a(*ray) > 0 && !(sph_b(*self, *ray)
                > 0 && sph_c(*self, *ray) > 0),
            res is Some ==> res->0.distance.num >= 0,
            match res {
                Option::None => true,
                Option::Some(he) => exists|sq: int|
                    {
                        &&& #[trigger] is_floor_sqrt(sq, sph_disc(*self, *ray))
                        &&& he.distance.den == sph_a(*ray)
                        &&& he.distance.num == if sph_b(*self, *ray) <= 0 && sph_c(*self, *ray)
                            >= 0 {
                            -sph_b(*self, *ray) - sq
                        } else {
                            -sph_b(*self, *ray) + sq
                        }
                        &&& he.vertex_interpolated.den == sph_a(*ray)
                        &&& he.vertex_interpolated.position.x == ray.position.x * sph_a(*ray)
                            + ray.direction.x * he.distance.num
                        &&& he.vertex_interpolated.position.y == ray.position.y * sph_a(*ray)
                            + ray.direction.y * he.distance.num
                        &&& he.vertex_interpolated.position.z == ray.position.z * sph_a(*ray)
                            + ray.direction.z * he.distance.num
                        &&& he.vertex_interpolated.normal.x == he.vertex_interpolated.position.x
                            - self.position.x * sph_a(*ray)
                        &&& he.vertex_interpolated.normal.y == he.vertex_interpolated.position.y
                            - self.position.y * sph_a(*ray)
                        &&& he.vertex_interpolated.normal.z == he.vertex_interpolated.position.z
                            - self.position.z * sph_a(*ray)
                    },
            },
            sph_c(*self, *ray) < 0 && sph_a(*ray) > 0 ==> res is Some,
    {
        let o2c = sub_vec(ray.position, self.position, Ghost(262144), Ghost(262144));
        let a = dot_vec(ray.direction, ray.direction, Ghost(262144), Ghost(262144));
        let b = dot_vec(o2c, ray.direction, Ghost(524288), Ghost(262144));
        let len_sq = dot_vec(o2c, o2c, Ghost(524288), Ghost(524288));
        let c = len_sq - self.radius_squared;
        proof {
            lemma_mul_magnitude(b as int, b as int, 412316860416, 412316860416);
            lemma_mul_magnitude(a as int, c as int, 206158430208, 1924145348608);
        }
        let disc: i128 = (b as i128) * (b as i128) - (a as i128) * (c as i128);
        if disc < 0 || a == 0 {
            proof {
                if sph_c(*self, *ray) < 0 && sph_a(*ray) > 0 {
                    assert((b as int) * (b as int) >= 0) by (nonlinear_arith);
                    assert((a as int) * (c as int) < 0) by (nonlinear_arith)
                        requires
                            a > 0,
                            c < 0,
                    ;
                }
            }
            return Option::None;
        }
        proof {
            crate::math::lemma_square_sum_nonneg(
                ray.direction.x as int,
                ray.direction.y as int,
                ray.direction.z as int,
            );
        }
        if b > 0 && c > 0 {
            // Both roots are negative: the sphere lies entirely behind the
            // ray origin.
            return Option::None;
        }
        let sq_wide = floor_sqrt(disc as u128);
        proof {
            assert(sq_wide * sq_wide <= disc as int);
            assert(sq_wide <= 1099511627776) by (nonlinear_arith)
                requires
                    sq_wide >= 0,
                    sq_wide * sq_wide <= disc as int,
                    disc as int <= 1208925819614629174706176,
            ;
        }
        let sq = sq_wide as i64;
        let num1 = -b - sq;
        let num2 = -b + sq;
        let ghost dv = sph_disc(*self, *ray);
        proof {
            if b <= 0 && c >= 0 {
                // The true near root is non-negative, so the discriminant
                // is at most `b^2` and the floored root stays below `-b`.
                assert(sph_a(*ray) * sph_c(*self, *ray) >= 0) by (nonlinear_arith)
                    requires
                        sph_a(*ray) > 0,
                        sph_c(*self, *ray) >= 0,
                ;
                assert(sq as int <= -(b as int)) by (nonlinear_arith)
                    requires
                        sq as int >= 0,
                        b <= 0,
                        (sq as int) * (sq as int) <= dv,
                        dv <= (b as int) * (b as int),
                ;
            } else {
                // Here `c <= 0` (a positive `c` together with a positive
                // `b` was rejected above), so the discriminant is at
                // least `b^2`, the floored root is at least `|b|`, and
                // the far root is non-negative.
                assert(sph_a(*ray) * sph_c(*self, *ray) <= 0) by (nonlinear_arith)
                    requires
                        sph_a(*ray) > 0,
                        sph_c(*self, *ray) <= 0,
                ;
                assert(sq as int >= -(b as int) && sq as int >= b as int) by (nonlinear_arith)
                    requires
                        sq as int >= 0,
                        dv <= ((sq as int) + 1) * ((sq as int) + 1) - 1,
                        dv >= (b as int) * (b as int),
                ;
            }
        }
        let dist = if b <= 0 && c >= 0 {
            Frac { num: num1, den: a }
        } else {
            Frac { num: num2, den: a }
        };
        proof {
            lemma_mul_magnitude(ray.position.x as int, a as int, 262144, 206158430208);
            lemma_mul_magnitude(ray.position.y as int, a as int, 262144, 206158430208);
            lemma_mul_magnitude(ray.position.z as int, a as int, 262144, 206158430208);
            lemma_mul_magnitude(self.position.x as int, a as int, 262144, 206158430208);
            lemma_mul_magnitude(self.position.y as int, a as int, 262144, 206158430208);
            lemma_mul_magnitude(self.position.z as int, a as int, 262144, 206158430208);
            lemma_mul_magnitude(ray.direction.x as int, dist.num as int, 262144, 2199023255552);
            lemma_mul_magnitude(ray.direction.y as int, dist.num as int, 262144, 2199023255552);
            lemma_mul_magnitude(ray.direction.z as int, dist.num as int, 262144, 2199023255552);
        }
        let px = (ray.position.x as i128) * (a as i128) + (ray.direction.x as i128) * (
        dist.num as i128);
        let py = (ray.position.y as i128) * (a as i128) + (ray.direction.y as i128) * (
        dist.num as i128);
        let pz = (ray.position.z as i128) * (a as i128) + (ray.direction.z as i128) * (
        dist.num as i128);
        let nx = px - (self.position.x as i128) * (a as i128);
        let ny = py - (self.position.y as i128) * (a as i128);
        let nz = pz - (self.position.z as i128) * (a as i128);
        let he = HitInfoExt {
            distance: dist,
            vertex_interpolated: InterpVertex {
                den: a,
                position: Wide3 { x: px, y: py, z: pz },
                normal: Wide3 { x: nx, y: ny, z: nz },
                tangent: Wide4 { x: 0, y: 0, z: 0, w: 0 },
                colour: Wide4 { x: 0, y: 0, z: 0, w: 0 },
                uv0: Wide2 { x: 0, y: 0 },
                uv1: Wide2 { x: 0, y: 0 },
            },
        };
        proof {
            assert(is_floor_sqrt(sq as int, dv));
        }
        Option::Some(he)
    }
}

} // verus!
