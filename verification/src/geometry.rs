//! Points, spheres, boxes, half-spaces and frusta on the integer grid, with
//! the exact tests that culling and cluster assignment rest on.

use vstd::prelude::*;

verus! {

/// Largest magnitude of a coordinate, a radius or a plane normal's component.
pub const COORD_LIMIT: i32 = 0x10_0000;

/// Largest magnitude of a plane's offset.
pub const OFFSET_LIMIT: i64 = 0x400_0000_0000;

/// A point or a direction with whole-number components.
#[derive(Clone, Copy, Debug, PartialEq, Eq, Structural)]
pub struct IVec3 {
    pub x: i32,
    pub y: i32,
    pub z: i32,
}

impl IVec3 {
    /// Every component is within `COORD_LIMIT` of zero.
    pub open spec fn in_range(self) -> bool {
        &&& -COORD_LIMIT <= self.x <= COORD_LIMIT
        &&& -COORD_LIMIT <= self.y <= COORD_LIMIT
        &&& -COORD_LIMIT <= self.z <= COORD_LIMIT
    }

    /// The scalar product.
    pub open spec fn dot(self, other: IVec3) -> int {
        self.x * other.x + self.y * other.y + self.z * other.z
    }

    /// The squared length.
    pub open spec fn norm2(self) -> int {
        self.dot(self)
    }

    /// The squared distance between two points.
    pub open spec fn dist2(self, other: IVec3) -> int {
        (self.x - other.x) * (self.x - other.x) + (self.y - other.y) * (self.y - other.y) + (self.z
            - other.z) * (self.z - other.z)
    }

    pub fn new(x: i32, y: i32, z: i32) -> (v: IVec3)
        ensures
            v == (IVec3 { x, y, z }),
    {
        IVec3 { x, y, z }
    }

    /// Whether every component is within `COORD_LIMIT` of zero.
    pub fn is_in_range(&self) -> (ok: bool)
        ensures
            ok == self.in_range(),
    {
        -COORD_LIMIT <= self.x && self.x <= COORD_LIMIT && -COORD_LIMIT <= self.y && self.y
            <= COORD_LIMIT && -COORD_LIMIT <= self.z && self.z <= COORD_LIMIT
    }

    /// The scalar product of two vectors in range.
    pub fn dot_exec(&self, other: &IVec3) -> (d: i64)
        requires
            self.in_range(),
            other.in_range(),
        ensures
            d == self.dot(*other),
            -0x300_0000_0000 <= d <= 0x300_0000_0000,
    {
        proof {
            lemma_product_bound(self.x as int, other.x as int, 0x10_0000, 0x10_0000);
            lemma_product_bound(self.y as int, other.y as int, 0x10_0000, 0x10_0000);
            lemma_product_bound(self.z as int, other.z as int, 0x10_0000, 0x10_0000);
        }
        let px: i64 = (self.x as i64) * (other.x as i64);
        let py: i64 = (self.y as i64) * (other.y as i64);
        let pz: i64 = (self.z as i64) * (other.z as i64);
        px + py + pz
    }
}

/// A product of two bounded numbers is bounded by the product of the bounds.
pub proof fn lemma_product_bound(a: int, b: int, la: int, lb: int)
    by (nonlinear_arith)
    requires
        -la <= a <= la,
        -lb <= b <= lb,
    ensures
        -(la * lb) <= a * b <= la * lb,
{
}

/// The volume of influence of a light: every point within `radius` of
/// `center`.
#[derive(Clone, Copy, Debug, PartialEq, Eq, Structural)]
pub struct Sphere {
    pub center: IVec3,
    pub radius: u32,
}

impl Sphere {
    /// The centre is in range and the radius is positive and in range. A
    /// sphere of radius zero bounds nothing and is not well formed.
    pub open spec fn wf(self) -> bool {
        &&& self.center.in_range()
        &&& 1 <= self.radius <= COORD_LIMIT
    }

    /// The point `p` lies in the sphere.
    pub open spec fn contains(self, p: IVec3) -> bool {
        self.center.dist2(p) <= self.radius * self.radius
    }

    /// Whether the sphere is well formed.
    pub fn is_wf(&self) -> (ok: bool)
        ensures
            ok == self.wf(),
    {
        self.center.is_in_range() && 1 <= self.radius && self.radius <= 0x10_0000
    }
}

/// An axis-aligned box: every point between `min` and `max`.
#[derive(Clone, Copy, Debug, PartialEq, Eq, Structural)]
pub struct Aabb {
    pub min: IVec3,
    pub max: IVec3,
}

impl Aabb {
    /// Both corners are in range and `min` is below `max` on every axis.
    pub open spec fn wf(self) -> bool {
        &&& self.min.in_range()
        &&& self.max.in_range()
        &&& self.min.x <= self.max.x
        &&& self.min.y <= self.max.y
        &&& self.min.z <= self.max.z
    }

    /// The point `p` lies in the box.
    pub open spec fn contains(self, p: IVec3) -> bool {
        &&& self.min.x <= p.x <= self.max.x
        &&& self.min.y <= p.y <= self.max.y
        &&& self.min.z <= p.z <= self.max.z
    }

    /// Whether the box is well formed.
    pub fn is_wf(&self) -> (ok: bool)
        ensures
            ok == self.wf(),
    {
        self.min.is_in_range() && self.max.is_in_range() && self.min.x <= self.max.x
            && self.min.y <= self.max.y && self.min.z <= self.max.z
    }
}

/// The half-space of the points `p` with `normal . p + offset >= 0`.
#[derive(Clone, Copy, Debug, PartialEq, Eq, Structural)]
pub struct Plane {
    pub normal: IVec3,
    pub offset: i64,
}

impl Plane {
    /// Normal and offset are in range.
    pub open spec fn wf(self) -> bool {
        &&& self.normal.in_range()
        &&& -OFFSET_LIMIT <= self.offset <= OFFSET_LIMIT
    }

    /// Whether normal and offset are in range.
    pub fn is_wf(&self) -> (ok: bool)
        ensures
            ok == self.wf(),
    {
        self.normal.is_in_range() && -OFFSET_LIMIT <= self.offset && self.offset <= OFFSET_LIMIT
    }

    /// `normal . p + offset`: the distance of `p` from the boundary, scaled
    /// by the normal's length and positive on the inner side.
    pub open spec fn eval(self, p: IVec3) -> int {
        self.normal.dot(p) + self.offset
    }

    /// The point `p` lies in the half-space.
    pub open spec fn contains(self, p: IVec3) -> bool {
        self.eval(p) >= 0
    }

    /// The sphere lies wholly outside the half-space: its centre is outside
    /// and farther from the boundary than its radius.
    pub open spec fn sphere_behind(self, s: Sphere) -> bool {
        let e = self.eval(s.center);
        e < 0 && e * e > (s.radius * s.radius) * self.normal.norm2()
    }

    /// The sphere lies wholly in the half-space: its centre is inside and at
    /// least its radius from the boundary.
    pub open spec fn sphere_inside(self, s: Sphere) -> bool {
        let e = self.eval(s.center);
        e >= 0 && e * e >= (s.radius * s.radius) * self.normal.norm2()
    }

    /// The corner of the box that lies farthest along the normal.
    pub open spec fn far_corner(self, b: Aabb) -> IVec3 {
        IVec3 {
            x: if self.normal.x >= 0 {
                b.max.x
            } else {
                b.min.x
            },
            y: if self.normal.y >= 0 {
                b.max.y
            } else {
                b.min.y
            },
            z: if self.normal.z >= 0 {
                b.max.z
            } else {
                b.min.z
            },
        }
    }

    /// The box lies wholly outside the half-space: even its corner farthest
    /// along the normal is outside.
    pub open spec fn aabb_behind(self, b: Aabb) -> bool {
        self.eval(self.far_corner(b)) < 0
    }

    /// The opposite half-space, which shares the boundary.
    pub open spec fn spec_flipped(self) -> Plane {
        Plane {
            normal: IVec3 {
                x: (-self.normal.x) as i32,
                y: (-self.normal.y) as i32,
                z: (-self.normal.z) as i32,
            },
            offset: (-self.offset) as i64,
        }
    }

    /// The opposite half-space, which shares the boundary.
    #[verifier::when_used_as_spec(spec_flipped)]
    pub fn flipped(self) -> (f: Plane)
        requires
            self.wf(),
        ensures
            f == self.spec_flipped(),
            f.wf(),
    {
        Plane {
            normal: IVec3 { x: -self.normal.x, y: -self.normal.y, z: -self.normal.z },
            offset: -self.offset,
        }
    }

    /// `normal . p + offset`.
    pub fn eval_exec(&self, p: &IVec3) -> (e: i64)
        requires
            self.wf(),
            p.in_range(),
        ensures
            e == self.eval(*p),
            -0x800_0000_0000 < e < 0x800_0000_0000,
    {
        self.normal.dot_exec(p) + self.offset
    }

    /// Whether the sphere lies wholly outside the half-space.
    pub fn is_sphere_behind(&self, s: &Sphere) -> (behind: bool)
        requires
            self.wf(),
            s.wf(),
        ensures
            behind == self.sphere_behind(*s),
    {
        let e: i64 = self.eval_exec(&s.center);
        if e >= 0 {
            return false;
        }
        let n2: i64 = self.normal.dot_exec(&self.normal);
        let r: i64 = s.radius as i64;
        proof {
            lemma_product_bound(e as int, e as int, 0x800_0000_0000, 0x800_0000_0000);
            lemma_product_bound(r as int, r as int, 0x10_0000, 0x10_0000);
            lemma_product_bound(r * r, n2 as int, 0x100_0000_0000, 0x300_0000_0000);
        }
        let e2: i128 = (e as i128) * (e as i128);
        let rn: i128 = ((r * r) as i128) * (n2 as i128);
        e2 > rn
    }

    /// Whether the sphere lies wholly in the half-space.
    pub fn is_sphere_inside(&self, s: &Sphere) -> (inside: bool)
        requires
            self.wf(),
            s.wf(),
        ensures
            inside == self.sphere_inside(*s),
    {
        let e: i64 = self.eval_exec(&s.center);
        if e < 0 {
            return false;
        }
        let n2: i64 = self.normal.dot_exec(&self.normal);
        let r: i64 = s.radius as i64;
        proof {
            lemma_product_bound(e as int, e as int, 0x800_0000_0000, 0x800_0000_0000);
            lemma_product_bound(r as int, r as int, 0x10_0000, 0x10_0000);
            lemma_product_bound(r * r, n2 as int, 0x100_0000_0000, 0x300_0000_0000);
        }
        let e2: i128 = (e as i128) * (e as i128);
        let rn: i128 = ((r * r) as i128) * (n2 as i128);
        e2 >= rn
    }

    /// Whether the box lies wholly outside the half-space.
    pub fn is_aabb_behind(&self, b: &Aabb) -> (behind: bool)
        requires
            self.wf(),
            b.wf(),
        ensures
            behind == self.aabb_behind(*b),
    {
        let corner = IVec3 {
            x: if self.normal.x >= 0 {
                b.max.x
            } else {
                b.min.x
            },
            y: if self.normal.y >= 0 {
                b.max.y
            } else {
                b.min.y
            },
            z: if self.normal.z >= 0 {
                b.max.z
            } else {
                b.min.z
            },
        };
        self.eval_exec(&corner) < 0
    }
}

/// A sphere that shares a point with a half-space is never reported as
/// wholly outside it.
pub proof fn lemma_sphere_test_is_conservative(pl: Plane, s: Sphere, p: IVec3)
    requires
        s.contains(p),
        pl.contains(p),
    ensures
        !pl.sphere_behind(s),
{
    let e = pl.eval(s.center);
    if e < 0 {
        let n = pl.normal;
        let (vx, vy, vz) = (p.x - s.center.x, p.y - s.center.y, p.z - s.center.z);
        let (nx, ny, nz) = (n.x as int, n.y as int, n.z as int);
        let m = nx * vx + ny * vy + nz * vz;
        let r2 = s.radius * s.radius;
        let v2 = vx * vx + vy * vy + vz * vz;
        let n2 = nx * nx + ny * ny + nz * nz;
        assert(m == pl.eval(p) - e) by (nonlinear_arith)
            requires
                m == nx * vx + ny * vy + nz * vz,
                vx == p.x - s.center.x,
                vy == p.y - s.center.y,
                vz == p.z - s.center.z,
                pl.eval(p) == nx * p.x + ny * p.y + nz * p.z + pl.offset,
                e == nx * s.center.x + ny * s.center.y + nz * s.center.z + pl.offset,
        ;
        assert(v2 == s.center.dist2(p)) by (nonlinear_arith)
            requires
                v2 == vx * vx + vy * vy + vz * vz,
                vx == p.x - s.center.x,
                vy == p.y - s.center.y,
                vz == p.z - s.center.z,
                s.center.dist2(p) == (s.center.x - p.x) * (s.center.x - p.x) + (s.center.y - p.y)
                    * (s.center.y - p.y) + (s.center.z - p.z) * (s.center.z - p.z),
        ;
        lemma_cauchy_schwarz_int(nx, ny, nz, vx, vy, vz);
        assert(e * e <= m * m) by (nonlinear_arith)
            requires
                e < 0,
                m >= -e,
        ;
        assert(n2 >= 0) by (nonlinear_arith)
            requires
                n2 == nx * nx + ny * ny + nz * nz,
        ;
        assert(n2 * v2 <= n2 * r2) by (nonlinear_arith)
            requires
                v2 <= r2,
                n2 >= 0,
        ;
        assert(r2 * n2 == n2 * r2) by (nonlinear_arith);
    }
}

/// `(a * a) * (b * b)` is the square of `a * b`.
proof fn lemma_square_of_product(a: int, b: int)
    by (nonlinear_arith)
    ensures
        (a * a) * (b * b) == (a * b) * (a * b),
{
}

/// `(a * b) * (c * d)` equals `(a * d) * (c * b)`.
proof fn lemma_swap_factors(a: int, b: int, c: int, d: int)
    by (nonlinear_arith)
    ensures
        (a * b) * (c * d) == (a * d) * (c * b),
{
}

/// The square of a difference.
proof fn lemma_square_of_difference(x: int, y: int)
    by (nonlinear_arith)
    ensures
        (x - y) * (x - y) == x * x - 2 * (x * y) + y * y,
        (x - y) * (x - y) >= 0,
{
}

/// The square of a sum of three.
proof fn lemma_square_of_sum3(x: int, y: int, z: int)
    by (nonlinear_arith)
    ensures
        (x + y + z) * (x + y + z) == x * x + y * y + z * z + 2 * (x * y) + 2 * (x * z) + 2 * (y
            * z),
{
}

/// The product of two sums of three.
proof fn lemma_product_of_sums3(a: int, b: int, c: int, x: int, y: int, z: int)
    by (nonlinear_arith)
    ensures
        (a + b + c) * (x + y + z) == a * x + a * y + a * z + b * x + b * y + b * z + c * x + c * y
            + c * z,
{
}

/// Cauchy-Schwarz on six integers.
pub proof fn lemma_cauchy_schwarz_int(a1: int, a2: int, a3: int, b1: int, b2: int, b3: int)
    ensures
        (a1 * b1 + a2 * b2 + a3 * b3) * (a1 * b1 + a2 * b2 + a3 * b3) <= (a1 * a1 + a2 * a2 + a3
            * a3) * (b1 * b1 + b2 * b2 + b3 * b3),
{
    let (m11, m12, m13) = (a1 * b1, a1 * b2, a1 * b3);
    let (m21, m22, m23) = (a2 * b1, a2 * b2, a2 * b3);
    let (m31, m32, m33) = (a3 * b1, a3 * b2, a3 * b3);
    lemma_product_of_sums3(a1 * a1, a2 * a2, a3 * a3, b1 * b1, b2 * b2, b3 * b3);
    lemma_square_of_product(a1, b1);
    lemma_square_of_product(a1, b2);
    lemma_square_of_product(a1, b3);
    lemma_square_of_product(a2, b1);
    lemma_square_of_product(a2, b2);
    lemma_square_of_product(a2, b3);
    lemma_square_of_product(a3, b1);
    lemma_square_of_product(a3, b2);
    lemma_square_of_product(a3, b3);
    lemma_square_of_sum3(m11, m22, m33);
    lemma_square_of_difference(m12, m21);
    lemma_square_of_difference(m13, m31);
    lemma_square_of_difference(m23, m32);
    lemma_swap_factors(a1, b2, a2, b1);
    lemma_swap_factors(a1, b3, a3, b1);
    lemma_swap_factors(a2, b3, a3, b2);
    assert(m12 * m21 == m11 * m22);
    assert(m13 * m31 == m11 * m33);
    assert(m23 * m32 == m22 * m33);
}

/// A box that shares a point with a half-space is never reported as wholly
/// outside it.
pub proof fn lemma_aabb_test_is_conservative(pl: Plane, b: Aabb, p: IVec3)
    requires
        b.contains(p),
        pl.contains(p),
    ensures
        !pl.aabb_behind(b),
{
    let c = pl.far_corner(b);
    let n = pl.normal;
    assert(n.x * c.x >= n.x * p.x) by (nonlinear_arith)
        requires
            n.x >= 0 ==> c.x >= p.x,
            n.x < 0 ==> c.x <= p.x,
    ;
    assert(n.y * c.y >= n.y * p.y) by (nonlinear_arith)
        requires
            n.y >= 0 ==> c.y >= p.y,
            n.y < 0 ==> c.y <= p.y,
    ;
    assert(n.z * c.z >= n.z * p.z) by (nonlinear_arith)
        requires
            n.z >= 0 ==> c.z >= p.z,
            n.z < 0 ==> c.z <= p.z,
    ;
}

/// Flipping a plane negates what it evaluates to.
pub proof fn lemma_flipped_eval(pl: Plane, p: IVec3)
    requires
        pl.wf(),
    ensures
        pl.flipped().eval(p) == -pl.eval(p),
        pl.flipped().normal.norm2() == pl.normal.norm2(),
{
    let n = pl.normal;
    assert((-n.x) * p.x == -(n.x * p.x)) by (nonlinear_arith);
    assert((-n.y) * p.y == -(n.y * p.y)) by (nonlinear_arith);
    assert((-n.z) * p.z == -(n.z * p.z)) by (nonlinear_arith);
    assert((-n.x) * (-n.x) == n.x * n.x) by (nonlinear_arith);
    assert((-n.y) * (-n.y) == n.y * n.y) by (nonlinear_arith);
    assert((-n.z) * (-n.z) == n.z * n.z) by (nonlinear_arith);
}

/// A convex volume bounded by six half-spaces.
#[derive(Clone, Copy, Debug, PartialEq, Eq, Structural)]
pub struct Frustum {
    pub left: Plane,
    pub right: Plane,
    pub top: Plane,
    pub bottom: Plane,
    pub near: Plane,
    pub far: Plane,
}

impl Frustum {
    /// Every plane is well formed.
    pub open spec fn wf(self) -> bool {
        &&& self.left.wf()
        &&& self.right.wf()
        &&& self.top.wf()
        &&& self.bottom.wf()
        &&& self.near.wf()
        &&& self.far.wf()
    }

    /// Whether every plane is well formed.
    pub fn is_wf(&self) -> (ok: bool)
        ensures
            ok == self.wf(),
    {
        self.left.is_wf() && self.right.is_wf() && self.top.is_wf() && self.bottom.is_wf()
            && self.near.is_wf() && self.far.is_wf()
    }

    /// The point `p` lies in every half-space.
    pub open spec fn contains(self, p: IVec3) -> bool {
        &&& self.left.contains(p)
        &&& self.right.contains(p)
        &&& self.top.contains(p)
        &&& self.bottom.contains(p)
        &&& self.near.contains(p)
        &&& self.far.contains(p)
    }

    /// The sphere is wholly outside one of the half-spaces.
    pub open spec fn excludes_sphere(self, s: Sphere) -> bool {
        ||| self.left.sphere_behind(s)
        ||| self.right.sphere_behind(s)
        ||| self.top.sphere_behind(s)
        ||| self.bottom.sphere_behind(s)
        ||| self.near.sphere_behind(s)
        ||| self.far.sphere_behind(s)
    }

    /// The sphere is not wholly outside any of the half-spaces.
    pub open spec fn touches_sphere(self, s: Sphere) -> bool {
        !self.excludes_sphere(s)
    }

    /// The sphere lies wholly in every half-space.
    pub open spec fn encloses_sphere(self, s: Sphere) -> bool {
        &&& self.left.sphere_inside(s)
        &&& self.right.sphere_inside(s)
        &&& self.top.sphere_inside(s)
        &&& self.bottom.sphere_inside(s)
        &&& self.near.sphere_inside(s)
        &&& self.far.sphere_inside(s)
    }

    /// The box is not wholly outside any of the half-spaces.
    pub open spec fn touches_aabb(self, b: Aabb) -> bool {
        &&& !self.left.aabb_behind(b)
        &&& !self.right.aabb_behind(b)
        &&& !self.top.aabb_behind(b)
        &&& !self.bottom.aabb_behind(b)
        &&& !self.near.aabb_behind(b)
        &&& !self.far.aabb_behind(b)
    }

    /// Whether the sphere is not wholly outside any of the half-spaces.
    pub fn is_touching_sphere(&self, s: &Sphere) -> (hit: bool)
        requires
            self.wf(),
            s.wf(),
        ensures
            hit == self.touches_sphere(*s),
    {
        !(self.left.is_sphere_behind(s) || self.right.is_sphere_behind(s)
            || self.top.is_sphere_behind(s) || self.bottom.is_sphere_behind(s)
            || self.near.is_sphere_behind(s) || self.far.is_sphere_behind(s))
    }

    /// Whether the sphere lies wholly in every half-space.
    pub fn is_enclosing_sphere(&self, s: &Sphere) -> (inside: bool)
        requires
            self.wf(),
            s.wf(),
        ensures
            inside == self.encloses_sphere(*s),
    {
        self.left.is_sphere_inside(s) && self.right.is_sphere_inside(s) && self.top.is_sphere_inside(
            s,
        ) && self.bottom.is_sphere_inside(s) && self.near.is_sphere_inside(s)
            && self.far.is_sphere_inside(s)
    }

    /// Whether the box is not wholly outside any of the half-spaces.
    pub fn is_touching_aabb(&self, b: &Aabb) -> (hit: bool)
        requires
            self.wf(),
            b.wf(),
        ensures
            hit == self.touches_aabb(*b),
    {
        !(self.left.is_aabb_behind(b) || self.right.is_aabb_behind(b) || self.top.is_aabb_behind(b)
            || self.bottom.is_aabb_behind(b) || self.near.is_aabb_behind(b)
            || self.far.is_aabb_behind(b))
    }
}

/// The sphere test of a frustum has no false negatives: a sphere that
/// shares a point with the frustum touches it.
pub proof fn lemma_frustum_sphere_test_is_conservative(f: Frustum, s: Sphere, p: IVec3)
    requires
        s.contains(p),
        f.contains(p),
    ensures
        f.touches_sphere(s),
{
    lemma_sphere_test_is_conservative(f.left, s, p);
    lemma_sphere_test_is_conservative(f.right, s, p);
    lemma_sphere_test_is_conservative(f.top, s, p);
    lemma_sphere_test_is_conservative(f.bottom, s, p);
    lemma_sphere_test_is_conservative(f.near, s, p);
    lemma_sphere_test_is_conservative(f.far, s, p);
}

/// The box test of a frustum has no false negatives: a box that shares a
/// point with the frustum touches it.
pub proof fn lemma_frustum_aabb_test_is_conservative(f: Frustum, b: Aabb, p: IVec3)
    requires
        b.contains(p),
        f.contains(p),
    ensures
        f.touches_aabb(b),
{
    lemma_aabb_test_is_conservative(f.left, b, p);
    lemma_aabb_test_is_conservative(f.right, b, p);
    lemma_aabb_test_is_conservative(f.top, b, p);
    lemma_aabb_test_is_conservative(f.bottom, b, p);
    lemma_aabb_test_is_conservative(f.near, b, p);
    lemma_aabb_test_is_conservative(f.far, b, p);
}

impl Plane {
    /// The point `(x / d, y / d, z / d)` lies in the half-space.
    pub open spec fn holds(self, x: int, y: int, z: int, d: int) -> bool {
        self.normal.x * x + self.normal.y * y + self.normal.z * z + self.offset * d >= 0
    }
}

impl Frustum {
    /// The point `(x / d, y / d, z / d)` lies in every half-space.
    pub open spec fn holds(self, x: int, y: int, z: int, d: int) -> bool {
        &&& self.left.holds(x, y, z, d)
        &&& self.right.holds(x, y, z, d)
        &&& self.top.holds(x, y, z, d)
        &&& self.bottom.holds(x, y, z, d)
        &&& self.near.holds(x, y, z, d)
        &&& self.far.holds(x, y, z, d)
    }
}

impl Sphere {
    /// The point `(x / d, y / d, z / d)` lies in the sphere.
    pub open spec fn holds(self, x: int, y: int, z: int, d: int) -> bool {
        (x - d * self.center.x) * (x - d * self.center.x) + (y - d * self.center.y) * (y - d
            * self.center.y) + (z - d * self.center.z) * (z - d * self.center.z) <= (d
            * self.radius) * (d * self.radius)
    }
}

/// The sphere and the volume share a point: some point whose coordinates
/// are fractions lies in both. Where a sphere and a volume bounded by planes
/// with whole-number coefficients share any point at all, they share one
/// whose coordinates are fractions.
pub open spec fn shares_point(s: Sphere, f: Frustum) -> bool {
    exists|x: int, y: int, z: int, d: int| d >= 1 && #[trigger] f.holds(x, y, z, d) && s.holds(
        x,
        y,
        z,
        d,
    )
}

/// `n * x` is `n * (x - d * c)` and `d * (n * c)`.
proof fn lemma_scaled_component(n: int, x: int, d: int, c: int)
    by (nonlinear_arith)
    ensures
        n * x == n * (x - d * c) + d * (n * c),
{
}

/// A sphere that lies wholly outside a half-space shares no point with it.
pub proof fn lemma_behind_shares_no_point(pl: Plane, s: Sphere, x: int, y: int, z: int, d: int)
    requires
        d >= 1,
        pl.sphere_behind(s),
        s.holds(x, y, z, d),
    ensures
        !pl.holds(x, y, z, d),
{
    let n = pl.normal;
    let (nx, ny, nz) = (n.x as int, n.y as int, n.z as int);
    let c = s.center;
    let (vx, vy, vz) = (x - d * c.x, y - d * c.y, z - d * c.z);
    let e = pl.eval(c);
    let m = nx * vx + ny * vy + nz * vz;
    let r = s.radius as int;
    let n2 = nx * nx + ny * ny + nz * nz;
    let v2 = vx * vx + vy * vy + vz * vz;
    // the plane at the point is the plane at the centre, d times, and the
    // normal along the way from the centre to the point
    lemma_scaled_component(nx, x, d, c.x as int);
    lemma_scaled_component(ny, y, d, c.y as int);
    lemma_scaled_component(nz, z, d, c.z as int);
    let (px, py, pz, o) = (nx * c.x, ny * c.y, nz * c.z, pl.offset as int);
    assert(d * (px + py + pz + o) == d * px + d * py + d * pz + o * d) by (nonlinear_arith);
    assert(nx * x + ny * y + nz * z + pl.offset * d == m + d * e);
    if pl.holds(x, y, z, d) {
        lemma_cauchy_schwarz_int(nx, ny, nz, vx, vy, vz);
        let de = d * e;
        assert(de < 0 && m >= -de) by (nonlinear_arith)
            requires
                de == d * e,
                d >= 1,
                e < 0,
                m + d * e >= 0,
        ;
        assert(de * de <= m * m) by (nonlinear_arith)
            requires
                de < 0,
                m >= -de,
        ;
        assert(n2 >= 0) by (nonlinear_arith)
            requires
                n2 == nx * nx + ny * ny + nz * nz,
        ;
        let dr = d * r;
        assert(n2 * v2 <= n2 * (dr * dr)) by (nonlinear_arith)
            requires
                v2 <= dr * dr,
                n2 >= 0,
        ;
        assert(de * de == (d * d) * (e * e)) by (nonlinear_arith)
            requires
                de == d * e,
        ;
        assert(n2 * (dr * dr) == (d * d) * ((r * r) * n2)) by (nonlinear_arith)
            requires
                dr == d * r,
        ;
        assert(e * e <= (r * r) * n2) by (nonlinear_arith)
            requires
                (d * d) * (e * e) <= (d * d) * ((r * r) * n2),
                d >= 1,
        ;
    }
}

/// A sphere that shares a point with a volume is not wholly outside any of
/// its half-spaces.
pub proof fn lemma_shared_point_touches(f: Frustum, s: Sphere)
    requires
        shares_point(s, f),
    ensures
        f.touches_sphere(s),
{
    let (x, y, z, d) = choose|x: int, y: int, z: int, d: int|
        d >= 1 && #[trigger] f.holds(x, y, z, d) && s.holds(x, y, z, d);
    if f.left.sphere_behind(s) {
        lemma_behind_shares_no_point(f.left, s, x, y, z, d);
    }
    if f.right.sphere_behind(s) {
        lemma_behind_shares_no_point(f.right, s, x, y, z, d);
    }
    if f.top.sphere_behind(s) {
        lemma_behind_shares_no_point(f.top, s, x, y, z, d);
    }
    if f.bottom.sphere_behind(s) {
        lemma_behind_shares_no_point(f.bottom, s, x, y, z, d);
    }
    if f.near.sphere_behind(s) {
        lemma_behind_shares_no_point(f.near, s, x, y, z, d);
    }
    if f.far.sphere_behind(s) {
        lemma_behind_shares_no_point(f.far, s, x, y, z, d);
    }
}

} // verus!
