//! Vector algebra and the sphere primitive.
//!
//! A `Vec3f` holds three fixed-point components (see `crate::SCALE`). All
//! operations state their exact integer result; `norm` is an exact integer
//! square root, so `normalize` is pinned down to the component formula
//! `divt(c * SCALE, norm)`.

use vstd::prelude::*;

use crate::fixed::{
    div_trunc, divt, fxm, fxmul, is_sqrt, isqrt, lemma_divt_bound, lemma_mul_bound,
    lemma_sqrt_exists, sqrt_floor,
};

verus! {

/// A 3-component vector of fixed-point scalars.
#[derive(Clone, Copy, PartialEq, Eq, Structural, Debug)]
pub struct Vec3f(pub i128, pub i128, pub i128);

/// Every component of `v` lies in `[-b, b]`.
pub open spec fn in_range(v: Vec3f, b: int) -> bool {
    &&& -b <= v.0 <= b
    &&& -b <= v.1 <= b
    &&& -b <= v.2 <= b
}

/// The raw (unscaled) sum of componentwise products. Since both factors
/// carry one factor of `SCALE`, this value sits at double scale; `dot`
/// divides one `SCALE` back out.
pub open spec fn dot_raw(a: Vec3f, b: Vec3f) -> int {
    a.0 * b.0 + a.1 * b.1 + a.2 * b.2
}

/// The Euclidean norm of `v`, rounded down. A sum of squares of
/// fixed-point components sits at double scale, so its integer square root
/// is already at single scale: no correction factor is needed.
pub open spec fn norm_raw(v: Vec3f) -> int {
    sqrt_floor(dot_raw(v, v))
}

pub open spec fn is_zero(v: Vec3f) -> bool {
    v.0 == 0 && v.1 == 0 && v.2 == 0
}

/// The unit vector along `v`: each component is scaled by
/// `SCALE / norm(v)` with truncation.
pub open spec fn unit_of(v: Vec3f) -> Vec3f
    recommends
        !is_zero(v),
{
    let n = norm_raw(v);
    Vec3f(
        divt(v.0 * crate::SCALE, n) as i128,
        divt(v.1 * crate::SCALE, n) as i128,
        divt(v.2 * crate::SCALE, n) as i128,
    )
}

/// A dot product of bounded vectors is bounded by three times the product
/// of the bounds.
pub proof fn lemma_dot_raw_bound(a: Vec3f, b: Vec3f, aa: int, bb: int)
    requires
        in_range(a, aa),
        in_range(b, bb),
        0 <= aa,
        0 <= bb,
    ensures
        -(3 * (aa * bb)) <= dot_raw(a, b) <= 3 * (aa * bb),
{
    lemma_mul_bound(a.0 as int, b.0 as int, aa, bb);
    lemma_mul_bound(a.1 as int, b.1 as int, aa, bb);
    lemma_mul_bound(a.2 as int, b.2 as int, aa, bb);
}

impl Vec3f {
    /// Componentwise sum.
    pub fn add(self, rhs: Vec3f) -> (r: Vec3f)
        requires
            in_range(self, 0x2000_0000_0000_0000),
            in_range(rhs, 0x2000_0000_0000_0000),
        ensures
            r.0 == self.0 + rhs.0,
            r.1 == self.1 + rhs.1,
            r.2 == self.2 + rhs.2,
    {
        Vec3f(self.0 + rhs.0, self.1 + rhs.1, self.2 + rhs.2)
    }

    /// Componentwise difference.
    pub fn sub(self, rhs: Vec3f) -> (r: Vec3f)
        requires
            in_range(self, 0x2000_0000_0000_0000),
            in_range(rhs, 0x2000_0000_0000_0000),
        ensures
            r.0 == self.0 - rhs.0,
            r.1 == self.1 - rhs.1,
            r.2 == self.2 - rhs.2,
    {
        Vec3f(self.0 - rhs.0, self.1 - rhs.1, self.2 - rhs.2)
    }

    /// Scale each component by the fixed-point scalar `k`.
    pub fn scale(self, k: i128) -> (r: Vec3f)
        requires
            in_range(self, 0x4000_0000_0000_0000),
            -0x4000_0000_0000_0000 <= k <= 0x4000_0000_0000_0000,
        ensures
            r.0 == fxm(self.0 as int, k as int),
            r.1 == fxm(self.1 as int, k as int),
            r.2 == fxm(self.2 as int, k as int),
    {
        Vec3f(fxmul(self.0, k), fxmul(self.1, k), fxmul(self.2, k))
    }

    /// Fixed-point dot product: the raw sum of products divided back down
    /// by one `SCALE`, truncating toward zero.
    pub fn dot(self, rhs: Vec3f) -> (r: i128)
        requires
            in_range(self, 0x4_0000_0000_0000),
            in_range(rhs, 0x4_0000_0000_0000),
        ensures
            r == divt(dot_raw(self, rhs), crate::SCALE as int),
    {
        proof {
            lemma_mul_bound(self.0 as int, rhs.0 as int, 0x4_0000_0000_0000, 0x4_0000_0000_0000);
            lemma_mul_bound(self.1 as int, rhs.1 as int, 0x4_0000_0000_0000, 0x4_0000_0000_0000);
            lemma_mul_bound(self.2 as int, rhs.2 as int, 0x4_0000_0000_0000, 0x4_0000_0000_0000);
        }
        let s: i128 = self.0 * rhs.0 + self.1 * rhs.1 + self.2 * rhs.2;
        div_trunc(s, crate::SCALE)
    }

    /// Exact Euclidean length, rounded down to an integer number of
    /// fixed-point units. The result dominates the magnitude of every
    /// component, and is positive exactly on nonzero vectors.
    pub fn norm(&self) -> (r: i128)
        requires
            in_range(*self, 0x2000_0000_0000_0000),
        ensures
            r == norm_raw(*self),
            is_sqrt(dot_raw(*self, *self), r as int),
            -r <= self.0 <= r,
            -r <= self.1 <= r,
            -r <= self.2 <= r,
            0 <= r <= 0x8000_0000_0000_0000,
            !is_zero(*self) ==> r >= 1,
    {
        proof {
            lemma_mul_bound(self.0 as int, self.0 as int, 0x2000_0000_0000_0000, 0x2000_0000_0000_0000);
            lemma_mul_bound(self.1 as int, self.1 as int, 0x2000_0000_0000_0000, 0x2000_0000_0000_0000);
            lemma_mul_bound(self.2 as int, self.2 as int, 0x2000_0000_0000_0000, 0x2000_0000_0000_0000);
            assert(self.0 * self.0 >= 0 && self.1 * self.1 >= 0 && self.2 * self.2 >= 0)
                by (nonlinear_arith);
        }
        let s: i128 = self.0 * self.0 + self.1 * self.1 + self.2 * self.2;
        let r = isqrt(s);
        proof {
            lemma_component_below_sqrt(s as int, r as int, self.0 as int, self.1 as int, self.2 as int);
        }
        r
    }

    /// The unit vector along `self`; undefined (ruled out by `requires`)
    /// for the zero vector. Every component of the result is at most one
    /// whole unit (`SCALE`) in magnitude.
    pub fn normalize(&self) -> (r: Vec3f)
        requires
            in_range(*self, 0x4_0000_0000_0000),
            !is_zero(*self),
        ensures
            r == unit_of(*self),
            in_range(r, crate::SCALE as int),
    {
        let n = self.norm();
        proof {
            lemma_scaled_component_bound(self.0 as int, n as int);
            lemma_scaled_component_bound(self.1 as int, n as int);
            lemma_scaled_component_bound(self.2 as int, n as int);
        }
        Vec3f(
            div_trunc(self.0 * crate::SCALE, n),
            div_trunc(self.1 * crate::SCALE, n),
            div_trunc(self.2 * crate::SCALE, n),
        )
    }
}

/// Each component of a vector is bounded in magnitude by the integer
/// square root of the sum of squares.
proof fn lemma_component_below_sqrt(s: int, r: int, x: int, y: int, z: int)
    requires
        is_sqrt(s, r),
        s == x * x + y * y + z * z,
    ensures
        -r <= x <= r,
        -r <= y <= r,
        -r <= z <= r,
{
    assert(-r <= x <= r && -r <= y <= r && -r <= z <= r) by (nonlinear_arith)
        requires
            0 <= r,
            r * r <= s,
            s < (r + 1) * (r + 1),
            s == x * x + y * y + z * z,
    ;
}

/// Dividing `c * SCALE` by a norm that dominates `c` keeps the result
/// within one whole unit.
proof fn lemma_scaled_component_bound(c: int, n: int)
    requires
        1 <= n,
        -n <= c <= n,
    ensures
        -(crate::SCALE as int) <= divt(c * crate::SCALE, n) <= crate::SCALE as int,
{
    let s = crate::SCALE as int;
    assert(-(n * s) <= c * s <= n * s) by (nonlinear_arith)
        requires
            -n <= c <= n,
            s == 65536,
    ;
    lemma_divt_bound(c * s, n, n * s);
    vstd::arithmetic::div_mod::lemma_div_multiples_vanish(s, n);
}

/// One normalized component `u = divt(c * SCALE, n)` squares close to its
/// exact value: `n^2 u^2` is at most `c^2 SCALE^2` and misses it by less
/// than `2 n^2 SCALE`.
proof fn lemma_unit_comp(c: int, n: int)
    requires
        1 <= n,
        -n <= c <= n,
    ensures
        ({
            let u = divt(c * 65536, n);
            &&& -65536 <= u <= 65536
            &&& n * n * (u * u) <= (c * c) * (65536 * 65536)
            &&& (c * c) * (65536 * 65536) <= n * n * (u * u) + 2 * (n * n) * 65536
        }),
{
    let s = 65536int;
    let u = divt(c * s, n);
    let aa = if c >= 0 { c } else { -c };
    let p = aa * s;
    assert(c * s == if c >= 0 { p } else { -p });
    let pu = p / n;
    assert(u == if c >= 0 { pu } else { -pu });
    vstd::arithmetic::div_mod::lemma_fundamental_div_mod(p, n);
    vstd::arithmetic::div_mod::lemma_mod_division_less_than_divisor(p, n);
    vstd::arithmetic::div_mod::lemma_div_pos_is_pos(p, n);
    assert(0 <= p - n * pu < n);
    assert(n * pu <= p);
    assert(p <= n * s);
    assert(pu <= s) by (nonlinear_arith)
        requires
            n * pu <= n * s,
            1 <= n,
    ;
    assert(u * u == pu * pu) by (nonlinear_arith)
        requires
            u == pu || u == -pu,
    ;
    assert(p * p == (c * c) * (s * s)) by (nonlinear_arith)
        requires
            p == aa * s,
            aa == if c >= 0 { c } else { -c },
    ;
    assert(n * n * (pu * pu) <= p * p) by (nonlinear_arith)
        requires
            0 <= n * pu <= p,
    ;
    assert(p * p <= n * n * (pu * pu) + 2 * (n * n) * s) by (nonlinear_arith)
        requires
            0 <= p - n * pu < n,
            0 <= n * pu <= p,
            p <= n * s,
            1 <= n,
            s == 65536,
    ;
}

/// Normalization round trip: once a vector is at least one unit long, the
/// norm of its normalization is one unit, up to a few counts of rounding:
/// `SCALE - 4 <= norm(normalize(v)) <= SCALE`.
///
/// The length floor is needed: a much shorter vector carries too little
/// precision for its direction, and its normalization can overshoot.
pub proof fn lemma_unit_norm(v: Vec3f)
    requires
        in_range(v, 0x4_0000_0000_0000),
        norm_raw(v) >= crate::SCALE as int,
    ensures
        crate::SCALE as int - 4 <= norm_raw(unit_of(v)) <= crate::SCALE as int,
{
    let s = 65536int;
    let q = dot_raw(v, v);
    assert(v.0 * v.0 >= 0 && v.1 * v.1 >= 0 && v.2 * v.2 >= 0) by (nonlinear_arith);
    lemma_sqrt_exists(q);
    let n = norm_raw(v);
    assert(is_sqrt(q, n));
    assert(n >= s);
    lemma_component_below_sqrt(q, n, v.0 as int, v.1 as int, v.2 as int);
    lemma_unit_comp(v.0 as int, n);
    lemma_unit_comp(v.1 as int, n);
    lemma_unit_comp(v.2 as int, n);
    let u0 = divt(v.0 * s, n);
    let u1 = divt(v.1 * s, n);
    let u2 = divt(v.2 * s, n);
    let w = unit_of(v);
    assert(w.0 == u0 && w.1 == u1 && w.2 == u2);
    let qq = dot_raw(w, w);
    assert(qq == u0 * u0 + u1 * u1 + u2 * u2);
    // upper: n^2 qq <= s^2 q <= s^2 (n^2 + 2n) <= (s^2 + 2s) n^2
    assert(q <= n * n + 2 * n) by (nonlinear_arith)
        requires
            q < (n + 1) * (n + 1),
    ;
    assert(n * n * qq <= (s * s) * q) by (nonlinear_arith)
        requires
            n * n * (u0 * u0) <= (v.0 * v.0) * (s * s),
            n * n * (u1 * u1) <= (v.1 * v.1) * (s * s),
            n * n * (u2 * u2) <= (v.2 * v.2) * (s * s),
            qq == u0 * u0 + u1 * u1 + u2 * u2,
            q == v.0 * v.0 + v.1 * v.1 + v.2 * v.2,
    ;
    assert(qq <= s * s + 2 * s) by (nonlinear_arith)
        requires
            n * n * qq <= (s * s) * q,
            q <= n * n + 2 * n,
            s <= n,
            s == 65536,
    ;
    // lower: s^2 q <= n^2 qq + 6 n^2 s and q >= n^2
    assert(q >= n * n);
    assert((s * s) * q <= n * n * qq + 6 * (n * n) * s) by (nonlinear_arith)
        requires
            (v.0 * v.0) * (s * s) <= n * n * (u0 * u0) + 2 * (n * n) * s,
            (v.1 * v.1) * (s * s) <= n * n * (u1 * u1) + 2 * (n * n) * s,
            (v.2 * v.2) * (s * s) <= n * n * (u2 * u2) + 2 * (n * n) * s,
            qq == u0 * u0 + u1 * u1 + u2 * u2,
            q == v.0 * v.0 + v.1 * v.1 + v.2 * v.2,
    ;
    assert(qq >= s * s - 6 * s) by (nonlinear_arith)
        requires
            (s * s) * q <= n * n * qq + 6 * (n * n) * s,
            q >= n * n,
            1 <= n,
            s == 65536,
    ;
    assert(qq >= 0) by (nonlinear_arith)
        requires
            qq == u0 * u0 + u1 * u1 + u2 * u2,
    ;
    lemma_sqrt_exists(qq);
    let r = sqrt_floor(qq);
    assert(r <= s) by (nonlinear_arith)
        requires
            is_sqrt(qq, r),
            qq <= s * s + 2 * s,
            s == 65536,
    ;
    assert(r >= s - 4) by (nonlinear_arith)
        requires
            is_sqrt(qq, r),
            qq >= s * s - 6 * s,
            s == 65536,
    ;
}

/// A surface description: the diffuse reflectance color, one fixed-point
/// value per channel (conventionally within one unit, but not clamped).
#[derive(Clone, Copy, PartialEq, Eq, Structural, Debug)]
pub struct Material {
    pub diffuse_color: Vec3f,
}

impl Material {
    pub fn new(diffuse_color: Vec3f) -> (r: Material)
        ensures
            r.diffuse_color == diffuse_color,
    {
        Material { diffuse_color }
    }
}

/// A point light: a position and a nonnegative scalar intensity.
#[derive(Clone, Copy, PartialEq, Eq, Structural, Debug)]
pub struct Light {
    pub position: Vec3f,
    pub intensity: i128,
}

impl Light {
    /// Scene well-formedness for a light: bounded position, nonnegative
    /// bounded intensity.
    pub open spec fn wf(self) -> bool {
        &&& in_range(self.position, crate::COORD_MAX as int)
        &&& 0 <= self.intensity <= crate::COORD_MAX
    }
}

/// A sphere: center, positive radius, and the material it is made of.
#[derive(Clone, Copy, PartialEq, Eq, Structural, Debug)]
pub struct Sphere {
    pub center: Vec3f,
    pub radius: i128,
    pub material: Material,
}

impl Sphere {
    /// Scene well-formedness for a sphere: bounded center, a positive,
    /// bounded radius, and a bounded material color.
    pub open spec fn wf(self) -> bool {
        &&& in_range(self.center, crate::COORD_MAX as int)
        &&& 0 < self.radius <= crate::COORD_MAX
        &&& in_range(self.material.diffuse_color, crate::COORD_MAX as int)
    }

    pub fn new(center: Vec3f, radius: i128, material: Material) -> (r: Sphere)
        requires
            in_range(center, crate::COORD_MAX as int),
            0 < radius <= crate::COORD_MAX,
            in_range(material.diffuse_color, crate::COORD_MAX as int),
        ensures
            r.center == center,
            r.radius == radius,
            r.material == material,
            r.wf(),
    {
        Sphere { center, radius, material }
    }

    pub fn get_material(&self) -> (r: Material)
        ensures
            r == self.material,
    {
        self.material
    }

    pub fn get_center(&self) -> (r: Vec3f)
        ensures
            r == self.center,
    {
        self.center
    }
}

/// `center - origin`, the vector from the ray origin to the sphere center,
/// at raw component level.
pub open spec fn sphere_l2(s: Sphere, o: Vec3f) -> int {
    let lx = s.center.0 - o.0;
    let ly = s.center.1 - o.1;
    let lz = s.center.2 - o.2;
    lx * lx + ly * ly + lz * lz
}

/// The distance along the ray of the foot of the perpendicular from the
/// sphere center (fixed-point units).
pub open spec fn sphere_tca(s: Sphere, o: Vec3f, d: Vec3f) -> int {
    let lx = s.center.0 - o.0;
    let ly = s.center.1 - o.1;
    let lz = s.center.2 - o.2;
    divt(lx * d.0 + ly * d.1 + lz * d.2, crate::SCALE as int)
}

/// The squared distance from the sphere center to the ray, at double
/// scale (no division is performed, so the comparison against the squared
/// radius is exact).
pub open spec fn sphere_d2q(s: Sphere, o: Vec3f, d: Vec3f) -> int {
    sphere_l2(s, o) - sphere_tca(s, o, d) * sphere_tca(s, o, d)
}

/// The squared radius, at double scale.
pub open spec fn sphere_r2q(s: Sphere) -> int {
    s.radius * s.radius
}

/// Half-chord length: the distance from the perpendicular foot to either
/// intersection point.
pub open spec fn sphere_thc(s: Sphere, o: Vec3f, d: Vec3f) -> int {
    sqrt_floor(sphere_r2q(s) - sphere_d2q(s, o, d))
}

/// The ray from `o` along `d` meets the sphere: the ray's line passes
/// within the radius, and the far crossing is not behind the origin.
pub open spec fn sphere_hits(s: Sphere, o: Vec3f, d: Vec3f) -> bool {
    &&& sphere_d2q(s, o, d) <= sphere_r2q(s)
    &&& sphere_tca(s, o, d) + sphere_thc(s, o, d) >= 0
}

/// The reported intersection distance: the near crossing when it lies
/// ahead of the origin, otherwise the far crossing.
pub open spec fn sphere_dist(s: Sphere, o: Vec3f, d: Vec3f) -> int
    recommends
        sphere_hits(s, o, d),
{
    let t0 = sphere_tca(s, o, d) - sphere_thc(s, o, d);
    let t1 = sphere_tca(s, o, d) + sphere_thc(s, o, d);
    if t0 >= 0 {
        t0
    } else {
        t1
    }
}

/// Anything a ray can be tested against.
pub trait Ray {
    /// Well-formedness that `intersect` relies on.
    spec fn ray_wf(&self) -> bool;

    /// Whether the ray from `orig` along `dir` meets this object.
    spec fn hits(&self, orig: Vec3f, dir: Vec3f) -> bool;

    /// The distance along the ray of the reported intersection.
    spec fn hit_dist(&self, orig: Vec3f, dir: Vec3f) -> int;

    /// Returns the intersection distance along the ray, or `None` on a
    /// miss. `dir` is expected to be (approximately) unit length, which
    /// the bound `in_range(dir, SCALE)` reflects.
    fn intersect(&self, orig: Vec3f, dir: Vec3f) -> (r: Option<i128>)
        requires
            self.ray_wf(),
            in_range(orig, crate::COORD_MAX as int),
            in_range(dir, crate::SCALE as int),
        ensures
            r == (if self.hits(orig, dir) {
                Option::Some(self.hit_dist(orig, dir) as i128)
            } else {
                Option::<i128>::None
            }),
            self.hits(orig, dir) ==> 0 <= self.hit_dist(orig, dir) <= crate::DIST_MAX as int,
    ;
}

impl Ray for Sphere {
    open spec fn ray_wf(&self) -> bool {
        self.wf()
    }

    open spec fn hits(&self, orig: Vec3f, dir: Vec3f) -> bool {
        sphere_hits(*self, orig, dir)
    }

    open spec fn hit_dist(&self, orig: Vec3f, dir: Vec3f) -> int {
        sphere_dist(*self, orig, dir)
    }

    /// The classic analytic sphere test, carried out exactly on raw
    /// (double-scale) integers: compare the squared center-to-line
    /// distance against the squared radius, then take the near crossing
    /// if it lies ahead of the origin, else the far one.
    fn intersect(&self, orig: Vec3f, dir: Vec3f) -> (r: Option<i128>) {
        let l = self.center.sub(orig);
        let tca = l.dot(dir);
        proof {
            lemma_dot_raw_bound(l, dir, 0x200_0000_0000, 0x1_0000);
            lemma_divt_bound(dot_raw(l, dir), crate::SCALE as int, (3 * (0x200_0000_0000 * 0x1_0000)) as int);
            lemma_mul_bound(l.0 as int, l.0 as int, 0x200_0000_0000, 0x200_0000_0000);
            lemma_mul_bound(l.1 as int, l.1 as int, 0x200_0000_0000, 0x200_0000_0000);
            lemma_mul_bound(l.2 as int, l.2 as int, 0x200_0000_0000, 0x200_0000_0000);
            lemma_mul_bound(tca as int, tca as int, 0x600_0000_0000, 0x600_0000_0000);
            lemma_mul_bound(self.radius as int, self.radius as int, crate::COORD_MAX as int, crate::COORD_MAX as int);
        }
        let l2: i128 = l.0 * l.0 + l.1 * l.1 + l.2 * l.2;
        let d2q: i128 = l2 - tca * tca;
        let r2q: i128 = self.radius * self.radius;
        if d2q > r2q {
            return None;
        }
        let thc = isqrt(r2q - d2q);
        proof {
            assert(thc <= 0x2000_0000_0000) by (nonlinear_arith)
                requires
                    0 <= thc,
                    thc * thc <= r2q - d2q,
                    r2q - d2q < 0x2000_0000_0000 * 0x2000_0000_0000,
            ;
        }
        let t0 = tca - thc;
        let t1 = tca + thc;
        if t0 >= 0 {
            Some(t0)
        } else if t1 >= 0 {
            Some(t1)
        } else {
            None
        }
    }
}

} // verus!
