//! The frusta of the light views of point and spot lights.
//!
//! A light view looks from an origin along the `forward` vector of a basis;
//! `right` and `up` span its image. The three vectors are whole-number
//! vectors of one length, and depth along `forward` is measured in units of
//! that length. The view opens by `slope`: at depth `d` it reaches `slope *
//! d` to each side.

use crate::geometry::{lemma_product_bound, Frustum, IVec3, Plane};
use vstd::prelude::*;

verus! {

/// Largest magnitude of a component of a basis vector.
pub const BASIS_LIMIT: i32 = 0x200;

/// Largest numerator and denominator of a slope.
pub const SLOPE_LIMIT: u32 = 0x200;

/// Largest depth of a light view.
pub const VIEW_DEPTH_LIMIT: u32 = 0x4000_0000;

/// The three directions of a light view.
#[derive(Clone, Copy, Debug, PartialEq, Eq, Structural)]
pub struct Basis {
    pub forward: IVec3,
    pub right: IVec3,
    pub up: IVec3,
}

/// Every component of `v` is within `BASIS_LIMIT` of zero.
pub open spec fn in_basis_range(v: IVec3) -> bool {
    &&& -BASIS_LIMIT <= v.x <= BASIS_LIMIT
    &&& -BASIS_LIMIT <= v.y <= BASIS_LIMIT
    &&& -BASIS_LIMIT <= v.z <= BASIS_LIMIT
}

impl Basis {
    /// Every component of the three vectors is within `BASIS_LIMIT` of
    /// zero.
    pub open spec fn wf(self) -> bool {
        in_basis_range(self.forward) && in_basis_range(self.right) && in_basis_range(self.up)
    }

    /// Whether the basis is well formed.
    pub fn is_wf(&self) -> (ok: bool)
        ensures
            ok == self.wf(),
    {
        is_in_basis_range(&self.forward) && is_in_basis_range(&self.right) && is_in_basis_range(
            &self.up,
        )
    }
}

/// Whether every component of `v` is within `BASIS_LIMIT` of zero.
fn is_in_basis_range(v: &IVec3) -> (ok: bool)
    ensures
        ok == in_basis_range(*v),
{
    -BASIS_LIMIT <= v.x && v.x <= BASIS_LIMIT && -BASIS_LIMIT <= v.y && v.y <= BASIS_LIMIT
        && -BASIS_LIMIT <= v.z && v.z <= BASIS_LIMIT
}

/// The half-space through `origin` whose normal is `a * u + b * v`.
pub open spec fn spec_plane_through(origin: IVec3, u: IVec3, a: int, v: IVec3, b: int) -> Plane {
    let n = IVec3 {
        x: (a * u.x + b * v.x) as i32,
        y: (a * u.y + b * v.y) as i32,
        z: (a * u.z + b * v.z) as i32,
    };
    Plane { normal: n, offset: (-n.dot(origin)) as i64 }
}

/// The half-space of the points that lie at least `depth` beyond `origin`
/// along `u`, taken `sign` times: with a `sign` of -1, of those that lie at
/// most `depth` beyond it.
pub open spec fn spec_plane_at_depth(origin: IVec3, u: IVec3, sign: int, depth: int) -> Plane {
    let n = IVec3 { x: (sign * u.x) as i32, y: (sign * u.y) as i32, z: (sign * u.z) as i32 };
    Plane { normal: n, offset: (-n.dot(origin) - sign * depth) as i64 }
}

/// The half-space through `origin` whose normal is `a * u + b * v`.
fn plane_through(origin: &IVec3, u: &IVec3, a: i32, v: &IVec3, b: i32) -> (p: Plane)
    requires
        origin.in_range(),
        in_basis_range(*u),
        in_basis_range(*v),
        -0x200 <= a <= 0x200,
        -0x200 <= b <= 0x200,
    ensures
        p == spec_plane_through(*origin, *u, a as int, *v, b as int),
        p.wf(),
{
    proof {
        lemma_product_bound(a as int, u.x as int, 0x200, 0x200);
        lemma_product_bound(a as int, u.y as int, 0x200, 0x200);
        lemma_product_bound(a as int, u.z as int, 0x200, 0x200);
        lemma_product_bound(b as int, v.x as int, 0x200, 0x200);
        lemma_product_bound(b as int, v.y as int, 0x200, 0x200);
        lemma_product_bound(b as int, v.z as int, 0x200, 0x200);
    }
    let n = IVec3 { x: a * u.x + b * v.x, y: a * u.y + b * v.y, z: a * u.z + b * v.z };
    let d: i64 = n.dot_exec(origin);
    Plane { normal: n, offset: -d }
}

/// The half-space of the points at least, or with a `sign` of -1 at most,
/// `depth` beyond `origin` along `u`.
fn plane_at_depth(origin: &IVec3, u: &IVec3, sign: i32, depth: u32) -> (p: Plane)
    requires
        origin.in_range(),
        in_basis_range(*u),
        sign == 1 || sign == -1,
        depth <= VIEW_DEPTH_LIMIT,
    ensures
        p == spec_plane_at_depth(*origin, *u, sign as int, depth as int),
        p.wf(),
{
    proof {
        lemma_product_bound(sign as int, u.x as int, 1, 0x200);
        lemma_product_bound(sign as int, u.y as int, 1, 0x200);
        lemma_product_bound(sign as int, u.z as int, 1, 0x200);
        lemma_product_bound(sign as int, depth as int, 1, 0x4000_0000);
    }
    let n = IVec3 { x: sign * u.x, y: sign * u.y, z: sign * u.z };
    let d: i64 = n.dot_exec(origin);
    Plane { normal: n, offset: -d - (sign as i64) * (depth as i64) }
}

/// The inputs from which a light view is built are in range.
pub open spec fn valid_view(origin: IVec3, basis: Basis, num: int, den: int, near: int, far: int)
    -> bool {
    &&& origin.in_range()
    &&& basis.wf()
    &&& 1 <= num <= SLOPE_LIMIT
    &&& 1 <= den <= SLOPE_LIMIT
    &&& 0 <= near <= far <= VIEW_DEPTH_LIMIT
}

/// The frustum of the light view at `origin` with the given basis, whose
/// slope is `num / den` and whose depth runs from `near` to `far`.
pub open spec fn spec_view_frustum(
    origin: IVec3,
    basis: Basis,
    num: int,
    den: int,
    near: int,
    far: int,
) -> Frustum {
    Frustum {
        left: spec_plane_through(origin, basis.forward, num, basis.right, den),
        right: spec_plane_through(origin, basis.forward, num, basis.right, -den),
        top: spec_plane_through(origin, basis.forward, num, basis.up, den),
        bottom: spec_plane_through(origin, basis.forward, num, basis.up, -den),
        near: spec_plane_at_depth(origin, basis.forward, 1, near),
        far: spec_plane_at_depth(origin, basis.forward, -1, far),
    }
}

/// The frustum of a light view; `None` unless the inputs are in range.
pub fn view_frustum(origin: &IVec3, basis: &Basis, num: u32, den: u32, near: u32, far: u32) -> (r:
    Option<Frustum>)
    ensures
        r.is_some() == valid_view(*origin, *basis, num as int, den as int, near as int, far as int),
        r matches Some(f) ==> f.wf() && f == spec_view_frustum(
            *origin,
            *basis,
            num as int,
            den as int,
            near as int,
            far as int,
        ),
{
    if !origin.is_in_range() || !basis.is_wf() || num < 1 || num > SLOPE_LIMIT || den < 1 || den
        > SLOPE_LIMIT || near > far || far > VIEW_DEPTH_LIMIT {
        return None;
    }
    let (n, d) = (num as i32, den as i32);
    Some(
        Frustum {
            left: plane_through(origin, &basis.forward, n, &basis.right, d),
            right: plane_through(origin, &basis.forward, n, &basis.right, -d),
            top: plane_through(origin, &basis.forward, n, &basis.up, d),
            bottom: plane_through(origin, &basis.forward, n, &basis.up, -d),
            near: plane_at_depth(origin, &basis.forward, 1, near),
            far: plane_at_depth(origin, &basis.forward, -1, far),
        },
    )
}

/// How far `p` lies beyond `origin` along `u`, in units of the length of
/// `u`.
pub open spec fn along(origin: IVec3, u: IVec3, p: IVec3) -> int {
    u.x * (p.x - origin.x) + u.y * (p.y - origin.y) + u.z * (p.z - origin.z)
}

/// What the planes of a light view evaluate to.
proof fn lemma_plane_through_eval(origin: IVec3, u: IVec3, a: int, v: IVec3, b: int, p: IVec3)
    requires
        in_basis_range(u),
        in_basis_range(v),
        -0x200 <= a <= 0x200,
        -0x200 <= b <= 0x200,
        origin.in_range(),
    ensures
        spec_plane_through(origin, u, a, v, b).eval(p) == a * along(origin, u, p) + b * along(
            origin,
            v,
            p,
        ),
{
    lemma_product_bound(a, u.x as int, 0x200, 0x200);
    lemma_product_bound(a, u.y as int, 0x200, 0x200);
    lemma_product_bound(a, u.z as int, 0x200, 0x200);
    lemma_product_bound(b, v.x as int, 0x200, 0x200);
    lemma_product_bound(b, v.y as int, 0x200, 0x200);
    lemma_product_bound(b, v.z as int, 0x200, 0x200);
    let (nx, ny, nz) = (a * u.x + b * v.x, a * u.y + b * v.y, a * u.z + b * v.z);
    lemma_product_bound(nx, origin.x as int, 0x10_0000, 0x10_0000);
    lemma_product_bound(ny, origin.y as int, 0x10_0000, 0x10_0000);
    lemma_product_bound(nz, origin.z as int, 0x10_0000, 0x10_0000);
    let pl = spec_plane_through(origin, u, a, v, b);
    assert(pl.normal.x == nx && pl.normal.y == ny && pl.normal.z == nz);
    assert(pl.offset == -(nx * origin.x + ny * origin.y + nz * origin.z));
    assert(nx * p.x - nx * origin.x == a * (u.x * (p.x - origin.x)) + b * (v.x * (p.x - origin.x)))
        by (nonlinear_arith)
        requires
            nx == a * u.x + b * v.x,
    ;
    assert(ny * p.y - ny * origin.y == a * (u.y * (p.y - origin.y)) + b * (v.y * (p.y - origin.y)))
        by (nonlinear_arith)
        requires
            ny == a * u.y + b * v.y,
    ;
    assert(nz * p.z - nz * origin.z == a * (u.z * (p.z - origin.z)) + b * (v.z * (p.z - origin.z)))
        by (nonlinear_arith)
        requires
            nz == a * u.z + b * v.z,
    ;
    let (ux, uy, uz) = (u.x * (p.x - origin.x), u.y * (p.y - origin.y), u.z * (p.z - origin.z));
    let (vx, vy, vz) = (v.x * (p.x - origin.x), v.y * (p.y - origin.y), v.z * (p.z - origin.z));
    assert(a * (ux + uy + uz) == a * ux + a * uy + a * uz) by (nonlinear_arith);
    assert(b * (vx + vy + vz) == b * vx + b * vy + b * vz) by (nonlinear_arith);
}

/// What the depth planes of a light view evaluate to.
proof fn lemma_plane_at_depth_eval(origin: IVec3, u: IVec3, sign: int, depth: int, p: IVec3)
    requires
        in_basis_range(u),
        sign == 1 || sign == -1,
        origin.in_range(),
        0 <= depth <= 0x4000_0000,
    ensures
        spec_plane_at_depth(origin, u, sign, depth).eval(p) == sign * (along(origin, u, p) - depth),
{
    let (nx, ny, nz) = (sign * u.x, sign * u.y, sign * u.z);
    let e = along(origin, u, p) - depth;
    assert(nx == if sign == 1 {
        u.x as int
    } else {
        -u.x
    } && ny == if sign == 1 {
        u.y as int
    } else {
        -u.y
    } && nz == if sign == 1 {
        u.z as int
    } else {
        -u.z
    } && sign * depth == if sign == 1 {
        depth
    } else {
        -depth
    } && sign * e == if sign == 1 {
        e
    } else {
        -e
    }) by (nonlinear_arith)
        requires
            sign == 1 || sign == -1,
            nx == sign * u.x,
            ny == sign * u.y,
            nz == sign * u.z,
    ;
    lemma_product_bound(nx, origin.x as int, 0x200, 0x10_0000);
    lemma_product_bound(ny, origin.y as int, 0x200, 0x10_0000);
    lemma_product_bound(nz, origin.z as int, 0x200, 0x10_0000);
    assert((-u.x) * p.x - (-u.x) * origin.x == -(u.x * (p.x - origin.x))) by (nonlinear_arith);
    assert((-u.y) * p.y - (-u.y) * origin.y == -(u.y * (p.y - origin.y))) by (nonlinear_arith);
    assert((-u.z) * p.z - (-u.z) * origin.z == -(u.z * (p.z - origin.z))) by (nonlinear_arith);
    assert(u.x * p.x - u.x * origin.x == u.x * (p.x - origin.x)) by (nonlinear_arith);
    assert(u.y * p.y - u.y * origin.y == u.y * (p.y - origin.y)) by (nonlinear_arith);
    assert(u.z * p.z - u.z * origin.z == u.z * (p.z - origin.z)) by (nonlinear_arith);
}

/// A light view holds exactly the points whose depth lies between near and
/// far and whose offset to either side and up or down is at most the slope
/// times their depth.
pub proof fn lemma_view_frustum_contains(
    origin: IVec3,
    basis: Basis,
    num: int,
    den: int,
    near: int,
    far: int,
    p: IVec3,
)
    requires
        valid_view(origin, basis, num, den, near, far),
    ensures
        spec_view_frustum(origin, basis, num, den, near, far).contains(p) == ({
            let d = along(origin, basis.forward, p);
            let r = along(origin, basis.right, p);
            let u = along(origin, basis.up, p);
            &&& near <= d <= far
            &&& -(num * d) <= den * r <= num * d
            &&& -(num * d) <= den * u <= num * d
        }),
{
    lemma_plane_through_eval(origin, basis.forward, num, basis.right, den, p);
    lemma_plane_through_eval(origin, basis.forward, num, basis.right, -den, p);
    lemma_plane_through_eval(origin, basis.forward, num, basis.up, den, p);
    lemma_plane_through_eval(origin, basis.forward, num, basis.up, -den, p);
    lemma_plane_at_depth_eval(origin, basis.forward, 1, near, p);
    lemma_plane_at_depth_eval(origin, basis.forward, -1, far, p);
    let r = along(origin, basis.right, p);
    let u = along(origin, basis.up, p);
    assert((-den) * r == -(den * r)) by (nonlinear_arith);
    assert((-den) * u == -(den * u)) by (nonlinear_arith);
}

/// The basis of face `face` of a cube map: the faces look along +x, -x,
/// +y, -y, +z and -z, in this order.
pub open spec fn spec_face_basis(face: int) -> Basis {
    let px = IVec3 { x: 1, y: 0, z: 0 };
    let py = IVec3 { x: 0, y: 1, z: 0 };
    let pz = IVec3 { x: 0, y: 0, z: 1 };
    let nx = IVec3 { x: -1i32, y: 0, z: 0 };
    let ny = IVec3 { x: 0, y: -1i32, z: 0 };
    let nz = IVec3 { x: 0, y: 0, z: -1i32 };
    if face == 0 {
        Basis { forward: px, right: py, up: pz }
    } else if face == 1 {
        Basis { forward: nx, right: py, up: pz }
    } else if face == 2 {
        Basis { forward: py, right: pz, up: px }
    } else if face == 3 {
        Basis { forward: ny, right: pz, up: px }
    } else if face == 4 {
        Basis { forward: pz, right: px, up: py }
    } else {
        Basis { forward: nz, right: px, up: py }
    }
}

/// The basis of face `face` of a cube map.
pub fn face_basis(face: u8) -> (b: Basis)
    ensures
        b == spec_face_basis(face as int),
        b.wf(),
{
    let px = IVec3 { x: 1, y: 0, z: 0 };
    let py = IVec3 { x: 0, y: 1, z: 0 };
    let pz = IVec3 { x: 0, y: 0, z: 1 };
    let nx = IVec3 { x: -1, y: 0, z: 0 };
    let ny = IVec3 { x: 0, y: -1, z: 0 };
    let nz = IVec3 { x: 0, y: 0, z: -1 };
    if face == 0 {
        Basis { forward: px, right: py, up: pz }
    } else if face == 1 {
        Basis { forward: nx, right: py, up: pz }
    } else if face == 2 {
        Basis { forward: py, right: pz, up: px }
    } else if face == 3 {
        Basis { forward: ny, right: pz, up: px }
    } else if face == 4 {
        Basis { forward: pz, right: px, up: py }
    } else {
        Basis { forward: nz, right: px, up: py }
    }
}

/// The frustum of face `face` of a point light: a view that opens at a
/// right angle, from `near` to the light's range.
pub open spec fn spec_point_light_frustum(position: IVec3, near: int, range: int, face: int)
    -> Frustum {
    spec_view_frustum(position, spec_face_basis(face), 1, 1, near, range)
}

/// The six frusta of a point light, one for each face of its cube map;
/// `None` unless the position is in range and `near` is at most `range`,
/// which is at most `COORD_LIMIT`.
pub fn point_light_frusta(position: &IVec3, near: u32, range: u32) -> (r: Option<Vec<Frustum>>)
    ensures
        r.is_some() == (position.in_range() && near <= range <= crate::geometry::COORD_LIMIT),
        r matches Some(f) ==> {
            &&& f@.len() == 6
            &&& forall|face: int|
                0 <= face < 6 ==> (#[trigger] f@[face]).wf() && f@[face]
                    == spec_point_light_frustum(*position, near as int, range as int, face)
        },
{
    if !position.is_in_range() || near > range || range > 0x10_0000 {
        return None;
    }
    let mut frusta: Vec<Frustum> = Vec::new();
    let mut face: u8 = 0;
    while face < 6
        invariant
            face <= 6,
            position.in_range(),
            near <= range <= 0x10_0000,
            frusta@.len() == face,
            forall|k: int|
                0 <= k < face ==> (#[trigger] frusta@[k]).wf() && frusta@[k]
                    == spec_point_light_frustum(*position, near as int, range as int, k),
        decreases 6 - face,
    {
        let basis: Basis = face_basis(face);
        let f: Option<Frustum> = view_frustum(position, &basis, 1, 1, near, range);
        frusta.push(f.unwrap());
        face = face + 1;
    }
    Some(frusta)
}

/// The frustum of a spot light: its one light view. `None` unless the
/// inputs are in range.
pub fn spot_light_frustum(
    position: &IVec3,
    basis: &Basis,
    slope_num: u32,
    slope_den: u32,
    near: u32,
    range: u32,
) -> (r: Option<Frustum>)
    ensures
        r.is_some() == valid_view(
            *position,
            *basis,
            slope_num as int,
            slope_den as int,
            near as int,
            range as int,
        ),
        r matches Some(f) ==> f.wf() && f == spec_view_frustum(
            *position,
            *basis,
            slope_num as int,
            slope_den as int,
            near as int,
            range as int,
        ),
{
    view_frustum(position, basis, slope_num, slope_den, near, range)
}

/// The face of a cube map on which a point falls: the one along the axis
/// on which the point lies farthest from the light.
pub open spec fn face_of(position: IVec3, p: IVec3) -> int {
    let (x, y, z) = (p.x - position.x, p.y - position.y, p.z - position.z);
    let (ax, ay, az) = (abs(x), abs(y), abs(z));
    if ax >= ay && ax >= az {
        if x >= 0 {
            0
        } else {
            1
        }
    } else if ay >= az {
        if y >= 0 {
            2
        } else {
            3
        }
    } else {
        if z >= 0 {
            4
        } else {
            5
        }
    }
}

/// The magnitude of a number.
pub open spec fn abs(x: int) -> int {
    if x >= 0 {
        x
    } else {
        -x
    }
}

/// The greatest distance of `p` from `position` along an axis.
pub open spec fn axis_distance(position: IVec3, p: IVec3) -> int {
    let (ax, ay, az) = (abs(p.x - position.x), abs(p.y - position.y), abs(p.z - position.z));
    if ax >= ay && ax >= az {
        ax
    } else if ay >= az {
        ay
    } else {
        az
    }
}

/// The six frusta of a point light leave no gap: every point whose
/// greatest distance from the light along an axis lies between `near` and
/// the range is in the frustum of the face that it falls on.
pub proof fn lemma_cube_faces_cover(position: IVec3, near: int, range: int, p: IVec3)
    requires
        position.in_range(),
        0 <= near <= range <= crate::geometry::COORD_LIMIT,
        near <= axis_distance(position, p) <= range,
    ensures
        0 <= face_of(position, p) < 6,
        spec_point_light_frustum(position, near, range, face_of(position, p)).contains(p),
{
    let face = face_of(position, p);
    let basis = spec_face_basis(face);
    lemma_view_frustum_contains(position, basis, 1, 1, near, range, p);
    let (x, y, z) = (p.x - position.x, p.y - position.y, p.z - position.z);
    let d = along(position, basis.forward, p);
    let r = along(position, basis.right, p);
    let u = along(position, basis.up, p);
    assert(0 * x == 0 && 0 * y == 0 && 0 * z == 0);
    assert(1 * x == x && 1 * y == y && 1 * z == z);
    assert((-1) * x == -x && (-1) * y == -y && (-1) * z == -z);
    assert(d == axis_distance(position, p));
    assert(abs(r) <= d && abs(u) <= d);
    assert(1 * d == d && 1 * r == r && 1 * u == u);
}

} // verus!
