//! Exact scalar and vector arithmetic for the geometry core.
//!
//! Coordinates are fixed-point integers bounded by [`COORD_LIMIT`], so that
//! every intermediate product of the intersection math fits in the machine
//! integers it is computed in.  Parametric distances along a ray are exact
//! rationals ([`Frac`]), compared by cross-multiplication.

use vstd::prelude::*;

verus! {

/// Largest magnitude allowed for a fixed-point coordinate handed to the
/// library.  With this bound every triple product of the intersection math
/// stays below `2^62` and fits an `i64`, and every cross-multiplied
/// comparison of two such results fits an `i128`.
pub const COORD_LIMIT: i64 = 262144;

/// A position or direction in space, with fixed-point integer components.
#[derive(Clone, Copy, Debug, PartialEq, Eq, Structural)]
pub struct Vec3i {
    pub x: i64,
    pub y: i64,
    pub z: i64,
}

impl Vec3i {
    /// All components within the coordinate bound.
    pub open spec fn wf(self) -> bool {
        &&& -COORD_LIMIT <= self.x <= COORD_LIMIT
        &&& -COORD_LIMIT <= self.y <= COORD_LIMIT
        &&& -COORD_LIMIT <= self.z <= COORD_LIMIT
    }
}

/// The mathematical value of a [`Vec3i`]: a vector of unbounded integers.
pub struct V3 {
    pub x: int,
    pub y: int,
    pub z: int,
}

/// Mathematical view of a coordinate vector.
pub open spec fn v3(v: Vec3i) -> V3 {
    V3 { x: v.x as int, y: v.y as int, z: v.z as int }
}

/// Componentwise difference.
pub open spec fn v_sub(a: V3, b: V3) -> V3 {
    V3 { x: a.x - b.x, y: a.y - b.y, z: a.z - b.z }
}

/// Cross product.
pub open spec fn v_cross(a: V3, b: V3) -> V3 {
    V3 { x: a.y * b.z - a.z * b.y, y: a.z * b.x - a.x * b.z, z: a.x * b.y - a.y * b.x }
}

/// Dot product.
pub open spec fn v_dot(a: V3, b: V3) -> int {
    a.x * b.x + a.y * b.y + a.z * b.z
}

/// An exact rational number `num / den` with a positive denominator.
#[derive(Clone, Copy, Debug, PartialEq, Eq, Structural)]
pub struct Frac {
    pub num: i64,
    pub den: i64,
}

impl Frac {
    /// The denominator is positive, so the represented value is `num / den`
    /// and comparisons can be cross-multiplied without a sign flip.
    pub open spec fn wf(self) -> bool {
        self.den > 0
    }

    /// `self <= other`, as rationals.
    pub open spec fn le(self, other: Frac) -> bool {
        self.num * other.den <= other.num * self.den
    }

    /// `self < other`, as rationals.
    pub open spec fn lt(self, other: Frac) -> bool {
        self.num * other.den < other.num * self.den
    }

    /// `self == other`, as rationals.
    pub open spec fn eq_frac(self, other: Frac) -> bool {
        self.num * other.den == other.num * self.den
    }

    /// Exact comparison `self <= other` by cross-multiplication.
    pub fn le_exec(&self, other: &Frac) -> (r: bool)
        requires
            self.wf(),
            other.wf(),
        ensures
            r == self.le(*other),
    {
        proof {
            lemma_i64_product_fits(self.num as int, other.den as int);
            lemma_i64_product_fits(other.num as int, self.den as int);
        }
        (self.num as i128) * (other.den as i128) <= (other.num as i128) * (self.den as i128)
    }

    /// Exact comparison `self < other` by cross-multiplication.
    pub fn lt_exec(&self, other: &Frac) -> (r: bool)
        requires
            self.wf(),
            other.wf(),
        ensures
            r == self.lt(*other),
    {
        proof {
            lemma_i64_product_fits(self.num as int, other.den as int);
            lemma_i64_product_fits(other.num as int, self.den as int);
        }
        (self.num as i128) * (other.den as i128) < (other.num as i128) * (self.den as i128)
    }
}

/// The product of two values in `i64` range fits in `i128`.
pub proof fn lemma_i64_product_fits(a: int, b: int)
    by (nonlinear_arith)
    requires
        -0x8000_0000_0000_0000 <= a <= 0x7FFF_FFFF_FFFF_FFFF,
        -0x8000_0000_0000_0000 <= b <= 0x7FFF_FFFF_FFFF_FFFF,
    ensures
        -0x8000_0000_0000_0000_0000_0000_0000_0000 <= a * b
            <= 0x7FFF_FFFF_FFFF_FFFF_FFFF_FFFF_FFFF_FFFF,
{
}

/// Magnitude bound for a product: factors bounded by `m` and `n` give a
/// product bounded by `m * n`.
pub proof fn lemma_mul_magnitude(a: int, b: int, m: int, n: int)
    by (nonlinear_arith)
    requires
        -m <= a <= m,
        -n <= b <= n,
    ensures
        -(m * n) <= a * b <= m * n,
{
}

/// The rational order is total: two fractions are always comparable.
pub proof fn lemma_frac_le_total(a: Frac, b: Frac)
    by (nonlinear_arith)
    requires
        a.wf(),
        b.wf(),
    ensures
        a.le(b) || b.le(a),
        !a.le(b) ==> b.lt(a),
{
}

/// Scalar multiple of a vector.
pub open spec fn v_scale(k: int, v: V3) -> V3 {
    V3 { x: k * v.x, y: k * v.y, z: k * v.z }
}

/// Componentwise difference of mathematical vectors, as a `V3`.
pub open spec fn v_sub3(a: V3, b: V3) -> V3 {
    V3 { x: a.x - b.x, y: a.y - b.y, z: a.z - b.z }
}

/// The dot product is symmetric.
pub proof fn lemma_v_dot_comm(a: V3, b: V3)
    by (nonlinear_arith)
    ensures
        v_dot(a, b) == v_dot(b, a),
{
}

/// One coordinate of the triple product expansion
/// `a x (b x c) == (a . c) b - (a . b) c`, over raw integers.
///
/// Each step distributes one product or commutes one monomial; the final
/// cancellation is linear.
proof fn lemma_bac_cab_x(
    ax: int, ay: int, az: int,
    bx: int, by: int, bz: int,
    cx: int, cy: int, cz: int,
)
    ensures
        ay * (bx * cy - by * cx) - az * (bz * cx - bx * cz) == (ax * cx + ay * cy + az * cz) * bx
            - (ax * bx + ay * by + az * bz) * cx,
{
    assert(ay * (bx * cy - by * cx) == ay * (bx * cy) - ay * (by * cx)) by (nonlinear_arith);
    assert(az * (bz * cx - bx * cz) == az * (bz * cx) - az * (bx * cz)) by (nonlinear_arith);
    assert((ax * cx + ay * cy + az * cz) * bx == (ax * cx) * bx + (ay * cy) * bx + (az * cz) * bx)
        by (nonlinear_arith);
    assert((ax * bx + ay * by + az * bz) * cx == (ax * bx) * cx + (ay * by) * cx + (az * bz) * cx)
        by (nonlinear_arith);
    assert(ay * (bx * cy) == (ay * cy) * bx) by (nonlinear_arith);
    assert(az * (bx * cz) == (az * cz) * bx) by (nonlinear_arith);
    assert(ay * (by * cx) == (ay * by) * cx) by (nonlinear_arith);
    assert(az * (bz * cx) == (az * bz) * cx) by (nonlinear_arith);
    assert((ax * cx) * bx == (ax * bx) * cx) by (nonlinear_arith);
}

/// Triple product expansion `a x (b x c) == (a . c) b - (a . b) c`.
pub proof fn lemma_bac_cab(a: V3, b: V3, c: V3)
    ensures
        v_cross(a, v_cross(b, c)) == v_sub3(v_scale(v_dot(a, c), b), v_scale(v_dot(a, b), c)),
{
    lemma_bac_cab_x(a.x, a.y, a.z, b.x, b.y, b.z, c.x, c.y, c.z);
    lemma_bac_cab_x(a.y, a.z, a.x, b.y, b.z, b.x, c.y, c.z, c.x);
    lemma_bac_cab_x(a.z, a.x, a.y, b.z, b.x, b.y, c.z, c.x, c.y);
}

/// One coordinate of the triple product expansion
/// `(a x b) x c == (a . c) b - (b . c) a`, over raw integers.
proof fn lemma_cross_cross_x(
    ax: int, ay: int, az: int,
    bx: int, by: int, bz: int,
    cx: int, cy: int, cz: int,
)
    ensures
        (az * bx - ax * bz) * cz - (ax * by - ay * bx) * cy == (ax * cx + ay * cy + az * cz) * bx
            - (bx * cx + by * cy + bz * cz) * ax,
{
    assert((az * bx - ax * bz) * cz == (az * bx) * cz - (ax * bz) * cz) by (nonlinear_arith);
    assert((ax * by - ay * bx) * cy == (ax * by) * cy - (ay * bx) * cy) by (nonlinear_arith);
    assert((ax * cx + ay * cy + az * cz) * bx == (ax * cx) * bx + (ay * cy) * bx + (az * cz) * bx)
        by (nonlinear_arith);
    assert((bx * cx + by * cy + bz * cz) * ax == (bx * cx) * ax + (by * cy) * ax + (bz * cz) * ax)
        by (nonlinear_arith);
    assert((az * bx) * cz == (az * cz) * bx) by (nonlinear_arith);
    assert((ax * bz) * cz == (bz * cz) * ax) by (nonlinear_arith);
    assert((ax * by) * cy == (by * cy) * ax) by (nonlinear_arith);
    assert((ay * bx) * cy == (ay * cy) * bx) by (nonlinear_arith);
    assert((ax * cx) * bx == (bx * cx) * ax) by (nonlinear_arith);
}

/// Triple product expansion `(a x b) x c == (a . c) b - (b . c) a`.
pub proof fn lemma_cross_cross(a: V3, b: V3, c: V3)
    ensures
        v_cross(v_cross(a, b), c) == v_sub3(v_scale(v_dot(a, c), b), v_scale(v_dot(b, c), a)),
{
    lemma_cross_cross_x(a.x, a.y, a.z, b.x, b.y, b.z, c.x, c.y, c.z);
    lemma_cross_cross_x(a.y, a.z, a.x, b.y, b.z, b.x, c.y, c.z, c.x);
    lemma_cross_cross_x(a.z, a.x, a.y, b.z, b.x, b.y, c.z, c.x, c.y);
}

/// Componentwise difference of two coordinate vectors, with ghost magnitude
/// bounds that rule out overflow.
pub fn sub_vec(a: Vec3i, b: Vec3i, Ghost(m): Ghost<int>, Ghost(n): Ghost<int>) -> (r: Vec3i)
    requires
        -m <= a.x <= m,
        -m <= a.y <= m,
        -m <= a.z <= m,
        -n <= b.x <= n,
        -n <= b.y <= n,
        -n <= b.z <= n,
        m + n <= 0x7FFF_FFFF_FFFF_FFFF,
    ensures
        v3(r) == v_sub(v3(a), v3(b)),
        -(m + n) <= r.x <= m + n,
        -(m + n) <= r.y <= m + n,
        -(m + n) <= r.z <= m + n,
{
    Vec3i { x: a.x - b.x, y: a.y - b.y, z: a.z - b.z }
}

/// Cross product of two coordinate vectors, with ghost magnitude bounds
/// that rule out overflow.
pub fn cross_vec(a: Vec3i, b: Vec3i, Ghost(m): Ghost<int>, Ghost(n): Ghost<int>) -> (r: Vec3i)
    requires
        m >= 0,
        n >= 0,
        -m <= a.x <= m,
        -m <= a.y <= m,
        -m <= a.z <= m,
        -n <= b.x <= n,
        -n <= b.y <= n,
        -n <= b.z <= n,
        2 * (m * n) <= 0x7FFF_FFFF_FFFF_FFFF,
    ensures
        v3(r) == v_cross(v3(a), v3(b)),
        -(2 * (m * n)) <= r.x <= 2 * (m * n),
        -(2 * (m * n)) <= r.y <= 2 * (m * n),
        -(2 * (m * n)) <= r.z <= 2 * (m * n),
{
    proof {
        lemma_mul_magnitude(a.y as int, b.z as int, m, n);
        lemma_mul_magnitude(a.z as int, b.y as int, m, n);
        lemma_mul_magnitude(a.z as int, b.x as int, m, n);
        lemma_mul_magnitude(a.x as int, b.z as int, m, n);
        lemma_mul_magnitude(a.x as int, b.y as int, m, n);
        lemma_mul_magnitude(a.y as int, b.x as int, m, n);
    }
    Vec3i {
        x: a.y * b.z - a.z * b.y,
        y: a.z * b.x - a.x * b.z,
        z: a.x * b.y - a.y * b.x,
    }
}

/// Dot product of two coordinate vectors, with ghost magnitude bounds that
/// rule out overflow.
pub fn dot_vec(a: Vec3i, b: Vec3i, Ghost(m): Ghost<int>, Ghost(n): Ghost<int>) -> (r: i64)
    requires
        m >= 0,
        n >= 0,
        -m <= a.x <= m,
        -m <= a.y <= m,
        -m <= a.z <= m,
        -n <= b.x <= n,
        -n <= b.y <= n,
        -n <= b.z <= n,
        3 * (m * n) <= 0x7FFF_FFFF_FFFF_FFFF,
    ensures
        r == v_dot(v3(a), v3(b)),
        -(3 * (m * n)) <= r <= 3 * (m * n),
{
    proof {
        lemma_mul_magnitude(a.x as int, b.x as int, m, n);
        lemma_mul_magnitude(a.y as int, b.y as int, m, n);
        lemma_mul_magnitude(a.z as int, b.z as int, m, n);
    }
    a.x * b.x + a.y * b.y + a.z * b.z
}

/// Transitivity of the ratio order for raw integer ratios with positive
/// denominators: `a/ad <= b/bd` and `b/bd <= c/cd` give `a/ad <= c/cd`.
pub proof fn lemma_ratio_le_trans(
    an: int, ad: int, bn: int, bd: int, cn: int, cd: int,
)
    by (nonlinear_arith)
    requires
        ad > 0,
        bd > 0,
        cd > 0,
        an * bd <= bn * ad,
        bn * cd <= cn * bd,
    ensures
        an * cd <= cn * ad,
{
}

/// A sum of three squares is non-negative.
pub proof fn lemma_square_sum_nonneg(x: int, y: int, z: int)
    by (nonlinear_arith)
    ensures
        x * x + y * y + z * z >= 0,
{
}

/// The integer floor of the square root, by binary search.
pub fn floor_sqrt(n: u128) -> (r: u128)
    requires
        n < 0x4000_0000_0000_0000_0000_0000_0000_0000,
    ensures
        r * r <= n,
        n < (r + 1) * (r + 1),
        r < 0x8000_0000_0000_0000,
{
    let mut lo: u128 = 0;
    let mut hi: u128 = 0x8000_0000_0000_0000;
    while hi - lo > 1
        invariant
            lo < hi,
            hi <= 0x8000_0000_0000_0000,
            lo * lo <= n,
            n < hi * hi,
        decreases hi - lo,
    {
        let mid = lo + (hi - lo) / 2;
        proof {
            assert(mid * mid <= 0x4000_0000_0000_0000_0000_0000_0000_0000) by (nonlinear_arith)
                requires
                    mid <= 0x8000_0000_0000_0000,
            ;
        }
        if mid * mid <= n {
            lo = mid;
        } else {
            hi = mid;
        }
    }
    lo
}

/// Cramer identity for the ray/triangle linear system.
///
/// With `h = d x e2`, `q = s x e1`, determinant `det = e1 . h` and
/// numerators `un = s . h`, `vn = d . q`, `tn = e2 . q`, the solution of
/// `u*e1 + v*e2 - t*d == s` scaled by `det` holds exactly:
/// `un*e1 + vn*e2 - tn*d == det*s`, componentwise.
///
/// The proof expands the double cross product `(s x e1) x (d x e2)` in two
/// ways and equates the results.
pub proof fn lemma_cramer(d: V3, e1: V3, e2: V3, s: V3)
    ensures
        ({
            let h = v_cross(d, e2);
            let q = v_cross(s, e1);
            let det = v_dot(e1, h);
            let un = v_dot(s, h);
            let vn = v_dot(d, q);
            let tn = v_dot(e2, q);
            &&& un * e1.x + vn * e2.x - tn * d.x == det * s.x
            &&& un * e1.y + vn * e2.y - tn * d.y == det * s.y
            &&& un * e1.z + vn * e2.z - tn * d.z == det * s.z
        }),
{
    let h = v_cross(d, e2);
    let q = v_cross(s, e1);
    // q x (d x e2) == (q . e2) d - (q . d) e2
    lemma_bac_cab(q, d, e2);
    // (s x e1) x h == (s . h) e1 - (e1 . h) s
    lemma_cross_cross(s, e1, h);
    lemma_v_dot_comm(q, e2);
    lemma_v_dot_comm(q, d);
    lemma_v_dot_comm(s, h);
}

} // verus!
