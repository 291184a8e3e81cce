//! Scenario tests for the intersection primitives.

use bvh::aabb::AABB;
use bvh::math::Frac;
use bvh::math::Vec3i;
use bvh::ray::BaryUv;
use bvh::ray::Ray;
use bvh::sphere::Sphere;
use bvh::structs::Triangle;
use bvh::structs::Vec2i;
use bvh::structs::Vec4i;
use bvh::structs::Vertex;

fn v3(x: i64, y: i64, z: i64) -> Vec3i {
    Vec3i { x, y, z }
}

fn vertex_at(x: i64, y: i64, z: i64) -> Vertex {
    Vertex {
        position: v3(x, y, z),
        normal: v3(0, 0, 1),
        tangent: Vec4i { x: 1, y: 0, z: 0, w: 1 },
        colour: Vec4i { x: 255, y: 255, z: 255, w: 255 },
        uv0: Vec2i { x: 0, y: 0 },
        uv1: Vec2i { x: 0, y: 0 },
    }
}

fn tri(a: (i64, i64, i64), b: (i64, i64, i64), c: (i64, i64, i64)) -> Triangle {
    Triangle {
        v0: vertex_at(a.0, a.1, a.2),
        v1: vertex_at(b.0, b.1, b.2),
        v2: vertex_at(c.0, c.1, c.2),
    }
}

/// `a/b == c/d` for positive denominators.
fn frac_eq(a: &Frac, c: i64, d: i64) -> bool {
    (a.num as i128) * (d as i128) == (c as i128) * (a.den as i128)
}

#[test]
fn single_triangle_hit_at_unit_distance() {
    // Triangle (0,0,0),(1,0,0),(0,1,0) and a ray from (0.2,0.2,1) straight
    // down the z axis, scaled by 10 to fixed-point coordinates: the hit is
    // at parameter 10 with a unit direction step, i.e. distance 1.0.
    let t = tri((0, 0, 0), (10, 0, 0), (0, 10, 0));
    let r = Ray::new(v3(2, 2, 10), v3(0, 0, -1), None);
    let hit = t.intersects(&r).expect("must hit");
    assert!(frac_eq(&hit.distance, 10, 1));
    // Barycentric coordinates are non-negative and sum to at most one.
    let uv: BaryUv = hit.uv;
    assert!(uv.u_num >= 0);
    assert!(uv.v_num >= 0);
    assert!(uv.u_num + uv.v_num <= uv.den);
    // Geometric normal is +z scaled.
    assert!(hit.normal.x == 0 && hit.normal.y == 0 && hit.normal.z > 0);
}

#[test]
fn backface_is_culled() {
    // Reversed winding gives a negative determinant: the culled variant
    // reports no hit.
    let t = tri((0, 0, 0), (0, 10, 0), (10, 0, 0));
    let r = Ray::new(v3(2, 2, 10), v3(0, 0, -1), None);
    assert!(t.intersects(&r).is_none());
}

#[test]
fn parallel_ray_misses() {
    let t = tri((0, 0, 0), (10, 0, 0), (0, 10, 0));
    let r = Ray::new(v3(2, 2, 10), v3(1, 0, 0), None);
    assert!(t.intersects(&r).is_none());
}

#[test]
fn hit_behind_origin_is_rejected() {
    let t = tri((0, 0, 0), (10, 0, 0), (0, 10, 0));
    let r = Ray::new(v3(2, 2, -10), v3(0, 0, -1), None);
    assert!(t.intersects(&r).is_none());
}

#[test]
fn length_cutoff_rejects_far_hit() {
    let t = tri((0, 0, 0), (10, 0, 0), (0, 10, 0));
    // Hit would be at parameter 10; a length bound of 5 rejects it, a
    // bound of 10 keeps it (inclusive).
    let short = Ray::new(v3(2, 2, 10), v3(0, 0, -1), Some(Frac { num: 5, den: 1 }));
    assert!(t.intersects(&short).is_none());
    let exact = Ray::new(v3(2, 2, 10), v3(0, 0, -1), Some(Frac { num: 10, den: 1 }));
    assert!(t.intersects(&exact).is_some());
}

#[test]
fn aabb_grow_and_area() {
    let mut b = AABB::new();
    b.grow(v3(0, 0, 0));
    b.grow(v3(10, 4, 2));
    assert_eq!(b.min, v3(0, 0, 0));
    assert_eq!(b.max, v3(10, 4, 2));
    // 10*4 + 4*2 + 2*10 = 68
    assert_eq!(b.area(), 68);
}

#[test]
fn aabb_slab_hit_and_miss() {
    let mut b = AABB::new();
    b.grow(v3(0, 0, 0));
    b.grow(v3(10, 10, 10));
    let hit = Ray::new(v3(5, 5, 20), v3(0, 0, -1), None);
    assert!(b.intersects(&hit));
    let miss = Ray::new(v3(50, 5, 20), v3(0, 0, -1), None);
    assert!(!b.intersects(&miss));
    // A ray starting inside the box hits it too.
    let inside = Ray::new(v3(5, 5, 5), v3(0, 0, 1), None);
    assert!(b.intersects(&inside));
    // Behind the origin only: no hit.
    let behind = Ray::new(v3(5, 5, 20), v3(0, 0, 1), None);
    assert!(!b.intersects(&behind));
}

#[test]
fn aabb_tangent_ray_counts_as_hit() {
    // Box [0,10]^3.  The ray from (-20, 25, 5) along (2,-1,0) meets the
    // box exactly at the single parameter t = 15 (the edge point
    // (10,10,5)): the closed slab interval has tmax == tmin and must
    // count as a hit.
    let mut b = AABB::new();
    b.grow(v3(0, 0, 0));
    b.grow(v3(10, 10, 10));
    let tangent = Ray::new(v3(-20, 25, 5), v3(2, -1, 0), None);
    assert!(b.intersects(&tangent));
    // One unit further away the interval is empty.
    let past = Ray::new(v3(-20, 26, 5), v3(2, -1, 0), None);
    assert!(!b.intersects(&past));
    // A ray lying in the plane of a face (inclusive boundary) hits.
    let in_face = Ray::new(v3(0, 5, 20), v3(0, 0, -1), None);
    assert!(b.intersects(&in_face));
}

#[test]
fn sphere_from_inside_returns_far_hit() {
    // Sphere of radius 5 at the origin; ray from (0,0,1) (strictly
    // inside) along +z must report the far intersection at z = 5, at
    // parameter 4, never a negative distance.
    let s = Sphere::new(v3(0, 0, 0), 5);
    assert_eq!(s.radius_squared, 25);
    let r = Ray::new(v3(0, 0, 1), v3(0, 0, 1), None);
    let hit = s.intersects(&r).expect("must hit");
    assert!(hit.distance.num >= 0);
    assert!(frac_eq(&hit.distance, 4, 1));
    // Hit position (0,0,5), scaled by the denominator a = 1.
    assert_eq!(hit.vertex_interpolated.den, 1);
    assert_eq!(hit.vertex_interpolated.position.x, 0);
    assert_eq!(hit.vertex_interpolated.position.y, 0);
    assert_eq!(hit.vertex_interpolated.position.z, 5);
    assert_eq!(hit.vertex_interpolated.normal.z, 5);
}

#[test]
fn sphere_miss_and_outside_hit() {
    let s = Sphere::new(v3(0, 0, 0), 5);
    let miss = Ray::new(v3(20, 20, 0), v3(0, 0, 1), None);
    assert!(s.intersects(&miss).is_none());
    // From (0,0,-10) along +z: near hit at z = -5, parameter 5.
    let r = Ray::new(v3(0, 0, -10), v3(0, 0, 1), None);
    let hit = s.intersects(&r).expect("must hit");
    assert!(frac_eq(&hit.distance, 5, 1));
    assert_eq!(hit.vertex_interpolated.position.z, -5);
}

#[test]
fn sphere_entirely_behind_origin_reports_none() {
    // Centre (0,0,-10), radius 1, ray from the origin along +z: both
    // roots are negative, so there is no hit at all -- never a negative
    // distance.
    let s = Sphere::new(v3(0, 0, -10), 1);
    let r = Ray::new(v3(0, 0, 0), v3(0, 0, 1), None);
    assert!(s.intersects(&r).is_none());
}

#[test]
fn sphere_inside_with_irrational_roots_reports_far_root() {
    // Squared radius 3, origin at (0,0,-1) strictly inside: the true
    // roots are 1 -+ sqrt(3); the near one is negative, so the far root
    // must be selected, floored to parameter 2 -- not the floored near
    // root 0.
    let s = Sphere { position: v3(0, 0, 0), radius_squared: 3 };
    let r = Ray::new(v3(0, 0, -1), v3(0, 0, 1), None);
    let hit = s.intersects(&r).expect("must hit");
    assert_eq!(hit.distance.den, 1);
    assert_eq!(hit.distance.num, 2);
}

#[test]
fn frac_comparisons_are_exact() {
    let a = Frac { num: 1, den: 3 };
    let b = Frac { num: 2, den: 6 };
    let c = Frac { num: 1, den: 2 };
    assert!(a.le_exec(&b) && b.le_exec(&a));
    assert!(a.lt_exec(&c));
    assert!(!c.lt_exec(&a));
}

#[test]
fn interpolation_matches_corners() {
    // At barycentric (0,0) the interpolated vertex is v0 scaled by den.
    let t = tri((0, 0, 0), (10, 0, 0), (0, 10, 0));
    let uv = BaryUv { u_num: 0, v_num: 0, den: 7 };
    let v = Vertex::from_triangle_with_uv(&t, &uv);
    assert_eq!(v.den, 7);
    assert_eq!(v.position.x, 0);
    assert_eq!(v.position.y, 0);
    assert_eq!(v.position.z, 0);
    // At (1,0) it is v1 scaled by den.
    let uv1 = BaryUv { u_num: 7, v_num: 0, den: 7 };
    let v1 = Vertex::from_triangle_with_uv(&t, &uv1);
    assert_eq!(v1.position.x, 70);
    assert_eq!(v1.position.y, 0);
    // Attributes interpolate too: colour is constant 255, scaled.
    assert_eq!(v1.colour.x, 255 * 7);
}

#[test]
fn ray_new_defaults_to_unbounded() {
    let r = Ray::new(v3(1, 2, 3), v3(0, 0, -1), None);
    assert_eq!(r.position, v3(1, 2, 3));
    assert_eq!(r.direction, v3(0, 0, -1));
    assert!(r.length.is_none());
}
