//! The cascades of a directional light: consecutive depth ranges of a
//! camera's frustum, each with the box in the light's space that a shadow
//! map of its own covers.

use crate::depth::{
    lemma_split_bound_range, valid_bounds, valid_split, DepthSlices, SplitScheme, DEPTH_LIMIT,
};
use crate::geometry::{Frustum, IVec3, Plane};
use crate::math::{
    ceil_div, ceil_div_i64, clamp, clamp_u32, floor_div_i64, lemma_ceil_div_le_iff,
    lemma_floor_div_iff, lemma_snap, snap_down, snap_up,
};
use vstd::prelude::*;

verus! {

/// Largest number of cascades of one light.
pub const MAX_CASCADES: u32 = 4;

/// Largest size of a shadow-map texel, in world units.
pub const MAX_TEXEL: u32 = 0x400;

/// The shadow configuration of a directional light: the depths at which its
/// cascades meet, and the size of a shadow-map texel in the light's space.
#[derive(Debug)]
pub struct CascadeShadowConfig {
    pub slices: DepthSlices,
    pub texel: u32,
}

impl CascadeShadowConfig {
    /// The table of depths is valid and has at most `MAX_CASCADES` slices,
    /// and the texel size is positive and at most `MAX_TEXEL`.
    pub open spec fn wf(&self) -> bool {
        &&& self.slices.wf()
        &&& self.slices.spec_count() <= MAX_CASCADES
        &&& 1 <= self.texel <= MAX_TEXEL
    }

    /// Whether the configuration is well formed.
    pub fn is_wf(&self) -> (ok: bool)
        ensures
            ok == self.wf(),
    {
        self.slices.is_wf() && self.slices.bounds.len() <= 5 && 1 <= self.texel && self.texel
            <= MAX_TEXEL
    }

    /// `count` cascades between the depths `near` and `far`, split by
    /// `scheme`. `None` unless there are one to `MAX_CASCADES` cascades, the
    /// texel size is valid and the depths leave each cascade a unit.
    pub fn new(scheme: SplitScheme, count: u32, near: u32, far: u32, texel: u32) -> (r: Option<
        CascadeShadowConfig,
    >)
        ensures
            r.is_some() == (valid_split(near as int, far as int, count as int) && count
                <= MAX_CASCADES && 1 <= texel <= MAX_TEXEL),
            r matches Some(c) ==> {
                &&& c.wf()
                &&& c.texel == texel
                &&& c.slices@.len() == count + 1
                &&& c.slices@[0] == near
                &&& c.slices@[count as int] == far
                &&& forall|k: int|
                    0 <= k <= count ==> c.slices@[k] == crate::depth::split_bound(
                        scheme,
                        near as int,
                        far as int,
                        count as int,
                        k,
                    )
            },
    {
        if count > MAX_CASCADES || texel < 1 || texel > MAX_TEXEL {
            return None;
        }
        match DepthSlices::build(scheme, near, far, count) {
            None => None,
            Some(slices) => {
                proof {
                    lemma_split_bound_range(scheme, near as int, far as int, count as int, 0);
                    lemma_split_bound_range(
                        scheme,
                        near as int,
                        far as int,
                        count as int,
                        count as int,
                    );
                }
                Some(CascadeShadowConfig { slices, texel })
            },
        }
    }

    /// Cascades that meet at the depths that the caller chose. `None`
    /// unless the depths form a valid table of at most `MAX_CASCADES`
    /// slices and the texel size is valid.
    pub fn from_bounds(bounds: Vec<u32>, texel: u32) -> (r: Option<CascadeShadowConfig>)
        ensures
            r.is_some() == (valid_bounds(bounds@) && bounds@.len() <= MAX_CASCADES + 1 && 1
                <= texel <= MAX_TEXEL),
            r matches Some(c) ==> c.wf() && c.texel == texel && c.slices@ == bounds@,
    {
        if bounds.len() > 5 || texel < 1 || texel > MAX_TEXEL {
            return None;
        }
        match DepthSlices::from_bounds(bounds) {
            None => None,
            Some(slices) => Some(CascadeShadowConfig { slices, texel }),
        }
    }
}

/// The corners of a camera's frustum in the space of a light: the four
/// corners of its near plane and, in the same order, the four of its far
/// plane, with the depths of the two planes.
#[derive(Clone, Copy, Debug)]
pub struct FrustumCorners {
    pub near: [IVec3; 4],
    pub far: [IVec3; 4],
    pub near_depth: u32,
    pub far_depth: u32,
}

/// The coordinate of `v` on axis `a`: 0 for x, 1 for y, otherwise z.
pub open spec fn axis(v: IVec3, a: int) -> int {
    if a == 0 {
        v.x as int
    } else if a == 1 {
        v.y as int
    } else {
        v.z as int
    }
}

/// The smaller of two numbers.
pub open spec fn min2(a: int, b: int) -> int {
    if a < b {
        a
    } else {
        b
    }
}

/// The larger of two numbers.
pub open spec fn max2(a: int, b: int) -> int {
    if a > b {
        a
    } else {
        b
    }
}

impl FrustumCorners {
    /// Every corner is in range, and the near plane lies before the far
    /// plane.
    pub open spec fn wf(&self) -> bool {
        &&& forall|c: int| 0 <= c < 4 ==> (#[trigger] self.near[c]).in_range()
        &&& forall|c: int| 0 <= c < 4 ==> (#[trigger] self.far[c]).in_range()
        &&& 1 <= self.near_depth < self.far_depth <= DEPTH_LIMIT
    }

    /// The depth of the frustum.
    pub open spec fn span(&self) -> int {
        self.far_depth - self.near_depth
    }

    /// How far behind the near plane depth `d` lies, for a depth limited to
    /// the frustum.
    pub open spec fn reach(&self, d: int) -> int {
        clamp(d, self.near_depth as int, self.far_depth as int) - self.near_depth
    }

    /// The coordinate on axis `a` of the point at depth `d` on the edge
    /// from near corner `c` to far corner `c`, times the depth of the
    /// frustum.
    pub open spec fn edge_point(&self, c: int, a: int, d: int) -> int {
        axis(self.near[c], a) * self.span() + (axis(self.far[c], a) - axis(self.near[c], a))
            * self.reach(d)
    }

    /// The least whole coordinate on axis `a` that edge `c` has at either
    /// of the depths `d0` and `d1`, rounded down.
    pub open spec fn edge_low(&self, c: int, a: int, d0: int, d1: int) -> int {
        min2(self.edge_point(c, a, d0) / self.span(), self.edge_point(c, a, d1) / self.span())
    }

    /// The greatest whole coordinate on axis `a` that edge `c` has at
    /// either of the depths `d0` and `d1`, rounded up.
    pub open spec fn edge_high(&self, c: int, a: int, d0: int, d1: int) -> int {
        max2(
            ceil_div(self.edge_point(c, a, d0), self.span()),
            ceil_div(self.edge_point(c, a, d1), self.span()),
        )
    }

    /// The least of `edge_low` among the four edges.
    pub open spec fn low(&self, a: int, d0: int, d1: int) -> int {
        min2(
            min2(self.edge_low(0, a, d0, d1), self.edge_low(1, a, d0, d1)),
            min2(self.edge_low(2, a, d0, d1), self.edge_low(3, a, d0, d1)),
        )
    }

    /// The greatest of `edge_high` among the four edges.
    pub open spec fn high(&self, a: int, d0: int, d1: int) -> int {
        max2(
            max2(self.edge_high(0, a, d0, d1), self.edge_high(1, a, d0, d1)),
            max2(self.edge_high(2, a, d0, d1), self.edge_high(3, a, d0, d1)),
        )
    }

    /// Whether the corners are well formed.
    pub fn is_wf(&self) -> (ok: bool)
        ensures
            ok == self.wf(),
    {
        let mut c: usize = 0;
        while c < 4
            invariant
                c <= 4,
                forall|b: int| 0 <= b < c ==> (#[trigger] self.near[b]).in_range(),
                forall|b: int| 0 <= b < c ==> (#[trigger] self.far[b]).in_range(),
            decreases 4 - c,
        {
            if !self.near[c].is_in_range() || !self.far[c].is_in_range() {
                return false;
            }
            c = c + 1;
        }
        1 <= self.near_depth && self.near_depth < self.far_depth && self.far_depth <= DEPTH_LIMIT
    }

    /// The whole coordinates on axis `a` between which edge `c` lies at
    /// depth `d`.
    fn edge_bounds(&self, c: usize, a: u8, d: u32) -> (r: (i64, i64))
        requires
            self.wf(),
            c < 4,
            a < 3,
        ensures
            r.0 == self.edge_point(c as int, a as int, d as int) / self.span(),
            r.1 == ceil_div(self.edge_point(c as int, a as int, d as int), self.span()),
            -0x10_0000 <= r.0 <= r.1 <= 0x10_0000,
    {
        let n: i64 = pick(&self.near[c], a) as i64;
        let f: i64 = pick(&self.far[c], a) as i64;
        let span: i64 = (self.far_depth - self.near_depth) as i64;
        let t: i64 = (clamp_u32(d, self.near_depth, self.far_depth) - self.near_depth) as i64;
        proof {
            assert(self.near[c as int].in_range());
            assert(self.far[c as int].in_range());
            crate::geometry::lemma_product_bound(n as int, span as int, 0x10_0000, 0x10_0000);
            crate::geometry::lemma_product_bound(f - n, t as int, 0x20_0000, 0x10_0000);
        }
        let num: i64 = n * span + (f - n) * t;
        proof {
            let lo = if n < f {
                n
            } else {
                f
            };
            let hi = if n < f {
                f
            } else {
                n
            };
            assert(lo * span <= num <= hi * span) by (nonlinear_arith)
                requires
                    num == n * span + (f - n) * t,
                    0 <= t <= span,
                    lo <= n <= hi,
                    lo <= f <= hi,
                    lo == n || lo == f,
                    hi == n || hi == f,
            {
                assert(n * span + (f - n) * t == n * (span - t) + f * t);
                assert(lo * (span - t) <= n * (span - t) <= hi * (span - t));
                assert(lo * t <= f * t <= hi * t);
                assert(lo * (span - t) + lo * t == lo * span);
                assert(hi * (span - t) + hi * t == hi * span);
            }
            lemma_floor_div_iff(num as int, span as int, num as int / span as int);
            lemma_ceil_div_le_iff(num as int, span as int, hi as int);
            lemma_ceil_div_le_iff(num as int, span as int, num as int / span as int - 1);
            let q = num as int / span as int;
            assert((q - 1) * span == q * span - span) by (nonlinear_arith);
            assert((q + 1) * span == q * span + span) by (nonlinear_arith);
            assert(q >= lo) by (nonlinear_arith)
                requires
                    lo * span <= num,
                    num < (q + 1) * span,
                    span > 0,
            ;
        }
        (floor_div_i64(num, span), ceil_div_i64(num, span))
    }

    /// The least and the greatest whole coordinate on axis `a` that bound
    /// the four edges between the depths `d0` and `d1`.
    fn axis_extent(&self, a: u8, d0: u32, d1: u32) -> (r: (i64, i64))
        requires
            self.wf(),
            a < 3,
        ensures
            r.0 == self.low(a as int, d0 as int, d1 as int),
            r.1 == self.high(a as int, d0 as int, d1 as int),
            -0x10_0000 <= r.0 <= r.1 <= 0x10_0000,
    {
        let e0 = self.edge_extent(0, a, d0, d1);
        let e1 = self.edge_extent(1, a, d0, d1);
        let e2 = self.edge_extent(2, a, d0, d1);
        let e3 = self.edge_extent(3, a, d0, d1);
        let lo01: i64 = if e0.0 < e1.0 {
            e0.0
        } else {
            e1.0
        };
        let lo23: i64 = if e2.0 < e3.0 {
            e2.0
        } else {
            e3.0
        };
        let hi01: i64 = if e0.1 > e1.1 {
            e0.1
        } else {
            e1.1
        };
        let hi23: i64 = if e2.1 > e3.1 {
            e2.1
        } else {
            e3.1
        };
        (if lo01 < lo23 {
            lo01
        } else {
            lo23
        }, if hi01 > hi23 {
            hi01
        } else {
            hi23
        })
    }

    /// The least and the greatest whole coordinate on axis `a` that edge
    /// `c` has at the depths `d0` and `d1`.
    fn edge_extent(&self, c: usize, a: u8, d0: u32, d1: u32) -> (r: (i64, i64))
        requires
            self.wf(),
            c < 4,
            a < 3,
        ensures
            r.0 == self.edge_low(c as int, a as int, d0 as int, d1 as int),
            r.1 == self.edge_high(c as int, a as int, d0 as int, d1 as int),
            -0x10_0000 <= r.0 <= r.1 <= 0x10_0000,
    {
        let p = self.edge_bounds(c, a, d0);
        let q = self.edge_bounds(c, a, d1);
        (if p.0 < q.0 {
            p.0
        } else {
            q.0
        }, if p.1 > q.1 {
            p.1
        } else {
            q.1
        })
    }
}

/// The coordinate of `v` on axis `a`.
fn pick(v: &IVec3, a: u8) -> (r: i32)
    ensures
        r == axis(*v, a as int),
{
    if a == 0 {
        v.x
    } else if a == 1 {
        v.y
    } else {
        v.z
    }
}

/// One cascade: the depths between which it covers the camera's frustum,
/// and the box in the light's space that its shadow map covers.
#[derive(Clone, Copy, Debug, PartialEq, Eq, Structural)]
pub struct Cascade {
    pub near: u32,
    pub far: u32,
    pub min: IVec3,
    pub max: IVec3,
}

/// The cascade between the depths `d0` and `d1`: on each axis its box
/// reaches from the least coordinate of the frustum's slice, moved down to
/// a multiple of the texel size, to the greatest, moved up to one.
pub open spec fn spec_cascade(corners: FrustumCorners, d0: int, d1: int, texel: int) -> Cascade {
    Cascade {
        near: d0 as u32,
        far: d1 as u32,
        min: IVec3 {
            x: snap_down(corners.low(0, d0, d1), texel) as i32,
            y: snap_down(corners.low(1, d0, d1), texel) as i32,
            z: snap_down(corners.low(2, d0, d1), texel) as i32,
        },
        max: IVec3 {
            x: snap_up(corners.high(0, d0, d1), texel) as i32,
            y: snap_up(corners.high(1, d0, d1), texel) as i32,
            z: snap_up(corners.high(2, d0, d1), texel) as i32,
        },
    }
}

/// The cascades that a configuration gives for a camera whose frustum has
/// the given corners in the light's space.
pub open spec fn is_cascades(
    config: &CascadeShadowConfig,
    corners: FrustumCorners,
    cascades: Seq<Cascade>,
) -> bool {
    &&& cascades.len() == config.slices.spec_count()
    &&& forall|i: int|
        0 <= i < cascades.len() ==> #[trigger] cascades[i] == spec_cascade(
            corners,
            config.slices@[i] as int,
            config.slices@[i + 1] as int,
            config.texel as int,
        )
}

impl Cascade {
    /// The point `p` lies in the cascade's box.
    pub open spec fn contains(self, p: IVec3) -> bool {
        &&& self.min.x <= p.x <= self.max.x
        &&& self.min.y <= p.y <= self.max.y
        &&& self.min.z <= p.z <= self.max.z
    }

    /// The cascade between the depths `d0` and `d1`.
    pub fn build(corners: &FrustumCorners, d0: u32, d1: u32, texel: u32) -> (c: Cascade)
        requires
            corners.wf(),
            1 <= texel <= MAX_TEXEL,
        ensures
            c == spec_cascade(*corners, d0 as int, d1 as int, texel as int),
            c.min.x <= c.max.x && c.min.y <= c.max.y && c.min.z <= c.max.z,
    {
        let x = corners.axis_extent(0, d0, d1);
        let y = corners.axis_extent(1, d0, d1);
        let z = corners.axis_extent(2, d0, d1);
        Cascade {
            near: d0,
            far: d1,
            min: IVec3 {
                x: snap_down_exec(x.0, texel),
                y: snap_down_exec(y.0, texel),
                z: snap_down_exec(z.0, texel),
            },
            max: IVec3 {
                x: snap_up_exec(x.1, texel),
                y: snap_up_exec(y.1, texel),
                z: snap_up_exec(z.1, texel),
            },
        }
    }

    /// The cascade's box as the six half-spaces of the light's view.
    pub open spec fn spec_frustum(&self) -> Frustum {
        Frustum {
            left: Plane { normal: IVec3 { x: 1, y: 0, z: 0 }, offset: (-self.min.x) as i64 },
            right: Plane { normal: IVec3 { x: -1i32, y: 0, z: 0 }, offset: self.max.x as i64 },
            top: Plane { normal: IVec3 { x: 0, y: 1, z: 0 }, offset: (-self.min.y) as i64 },
            bottom: Plane { normal: IVec3 { x: 0, y: -1i32, z: 0 }, offset: self.max.y as i64 },
            near: Plane { normal: IVec3 { x: 0, y: 0, z: 1 }, offset: (-self.min.z) as i64 },
            far: Plane { normal: IVec3 { x: 0, y: 0, z: -1i32 }, offset: self.max.z as i64 },
        }
    }

    /// The cascade's box as the six half-spaces of the light's view.
    #[verifier::when_used_as_spec(spec_frustum)]
    pub fn frustum(&self) -> (f: Frustum)
        ensures
            f == self.spec_frustum(),
            f.wf(),
    {
        Frustum {
            left: Plane { normal: IVec3 { x: 1, y: 0, z: 0 }, offset: -(self.min.x as i64) },
            right: Plane { normal: IVec3 { x: -1, y: 0, z: 0 }, offset: self.max.x as i64 },
            top: Plane { normal: IVec3 { x: 0, y: 1, z: 0 }, offset: -(self.min.y as i64) },
            bottom: Plane { normal: IVec3 { x: 0, y: -1, z: 0 }, offset: self.max.y as i64 },
            near: Plane { normal: IVec3 { x: 0, y: 0, z: 1 }, offset: -(self.min.z as i64) },
            far: Plane { normal: IVec3 { x: 0, y: 0, z: -1 }, offset: self.max.z as i64 },
        }
    }
}

/// The largest multiple of `texel` that is at most `v`.
fn snap_down_exec(v: i64, texel: u32) -> (r: i32)
    requires
        -0x10_0000 <= v <= 0x10_0000,
        1 <= texel <= MAX_TEXEL,
    ensures
        r == snap_down(v as int, texel as int),
        v - texel < r <= v,
{
    proof {
        lemma_snap(v as int, texel as int);
    }
    let q: i64 = floor_div_i64(v, texel as i64);
    (q * (texel as i64)) as i32
}

/// The least multiple of `texel` that is at least `v`.
fn snap_up_exec(v: i64, texel: u32) -> (r: i32)
    requires
        -0x10_0000 <= v <= 0x10_0000,
        1 <= texel <= MAX_TEXEL,
    ensures
        r == snap_up(v as int, texel as int),
        v <= r < v + texel,
{
    proof {
        lemma_snap(v as int, texel as int);
    }
    let q: i64 = ceil_div_i64(v, texel as i64);
    (q * (texel as i64)) as i32
}

/// The cascades of a directional light for one camera, nearest first.
pub fn build_directional_light_cascades(config: &CascadeShadowConfig, corners: &FrustumCorners) -> (
    cascades: Vec<Cascade>)
    requires
        config.wf(),
        corners.wf(),
    ensures
        is_cascades(config, *corners, cascades@),
{
    let count: u32 = config.slices.count();
    let mut cascades: Vec<Cascade> = Vec::new();
    let mut i: u32 = 0;
    while i < count
        invariant
            config.wf(),
            corners.wf(),
            count == config.slices.spec_count(),
            i <= count,
            cascades@.len() == i,
            forall|k: int|
                0 <= k < i ==> #[trigger] cascades@[k] == spec_cascade(
                    *corners,
                    config.slices@[k] as int,
                    config.slices@[k + 1] as int,
                    config.texel as int,
                ),
        decreases count - i,
    {
        let c = Cascade::build(corners, config.slices.bound(i), config.slices.bound(i + 1), config.texel);
        cascades.push(c);
        i = i + 1;
    }
    cascades
}

/// Cascades are contiguous in depth and reach farther one after the other:
/// each starts at the depth at which the one before it ends, the first at
/// the near depth of the configuration and the last ends at its far depth,
/// and each ends beyond the one before.
pub proof fn lemma_cascades_are_contiguous(
    config: &CascadeShadowConfig,
    corners: FrustumCorners,
    cascades: Seq<Cascade>,
    i: int,
)
    requires
        config.wf(),
        is_cascades(config, corners, cascades),
        0 <= i < cascades.len(),
    ensures
        cascades[i].near < cascades[i].far,
        i + 1 < cascades.len() ==> cascades[i].far == cascades[i + 1].near,
        i + 1 < cascades.len() ==> cascades[i].far < cascades[i + 1].far,
        cascades[0].near == config.slices@[0],
        cascades[cascades.len() - 1].far == config.slices@[config.slices@.len() - 1],
{
    let last = cascades.len() - 1;
    assert(cascades[0] == spec_cascade(
        corners,
        config.slices@[0] as int,
        config.slices@[1] as int,
        config.texel as int,
    ));
    assert(cascades[last] == spec_cascade(
        corners,
        config.slices@[last] as int,
        config.slices@[last + 1] as int,
        config.texel as int,
    ));
    if i + 1 < cascades.len() {
        assert(cascades[i + 1] == spec_cascade(
            corners,
            config.slices@[i + 1] as int,
            config.slices@[i + 2] as int,
            config.texel as int,
        ));
    }
}

/// The box of a cascade holds the slice of the frustum that the cascade
/// covers: on every axis, every point of the frustum's four edges between
/// the cascade's depths lies between the least and the greatest coordinate
/// of the box.
pub proof fn lemma_cascade_holds_slice(
    corners: FrustumCorners,
    d0: int,
    d1: int,
    texel: int,
    c: int,
    a: int,
    d: int,
)
    requires
        corners.wf(),
        0 <= c < 4,
        d0 <= d <= d1,
        texel >= 1,
    ensures
        snap_down(corners.low(a, d0, d1), texel) * corners.span() <= corners.edge_point(c, a, d),
        corners.edge_point(c, a, d) <= snap_up(corners.high(a, d0, d1), texel) * corners.span(),
{
    let span = corners.span();
    let n = axis(corners.near[c], a);
    let f = axis(corners.far[c], a);
    let (t0, t, t1) = (corners.reach(d0), corners.reach(d), corners.reach(d1));
    let (e0, e, e1) = (
        corners.edge_point(c, a, d0),
        corners.edge_point(c, a, d),
        corners.edge_point(c, a, d1),
    );
    assert(min2(e0, e1) <= e <= max2(e0, e1)) by (nonlinear_arith)
        requires
            e0 == n * span + (f - n) * t0,
            e == n * span + (f - n) * t,
            e1 == n * span + (f - n) * t1,
            t0 <= t <= t1,
    {
        if f - n >= 0 {
            assert((f - n) * t0 <= (f - n) * t <= (f - n) * t1);
        } else {
            assert((f - n) * t0 >= (f - n) * t >= (f - n) * t1);
        }
    }
    let (q0, q1) = (e0 / span, e1 / span);
    let (c0, c1) = (ceil_div(e0, span), ceil_div(e1, span));
    lemma_floor_div_iff(e0, span, q0);
    lemma_floor_div_iff(e1, span, q1);
    lemma_ceil_div_le_iff(e0, span, c0);
    lemma_ceil_div_le_iff(e1, span, c1);
    let lo = snap_down(corners.low(a, d0, d1), texel);
    let hi = snap_up(corners.high(a, d0, d1), texel);
    lemma_snap(corners.low(a, d0, d1), texel);
    lemma_snap(corners.high(a, d0, d1), texel);
    assert(lo <= corners.edge_low(c, a, d0, d1));
    assert(hi >= corners.edge_high(c, a, d0, d1));
    assert(lo * span <= q0 * span && lo * span <= q1 * span) by (nonlinear_arith)
        requires
            lo <= q0,
            lo <= q1,
            span > 0,
    ;
    assert(hi * span >= c0 * span && hi * span >= c1 * span) by (nonlinear_arith)
        requires
            hi >= c0,
            hi >= c1,
            span > 0,
    ;
}

/// The cascades of one directional light, for each camera that it lights.
#[derive(Debug)]
pub struct Cascades {
    /// The cameras for which cascades were built this frame.
    pub views: Vec<u64>,
    /// The cascades of each of those cameras.
    pub cascades: Vec<Vec<Cascade>>,
}

impl Cascades {
    /// Each camera has its list of cascades.
    pub open spec fn wf(&self) -> bool {
        self.views@.len() == self.cascades@.len()
    }

    /// Whether each camera has its list of cascades.
    pub fn is_wf(&self) -> (ok: bool)
        ensures
            ok == self.wf(),
    {
        self.views.len() == self.cascades.len()
    }

    /// No cascades.
    pub fn new() -> (r: Cascades)
        ensures
            r.wf(),
            r.views@.len() == 0,
    {
        Cascades { views: Vec::new(), cascades: Vec::new() }
    }

    /// Builds the cascades for camera `view` and adds them after those of
    /// the cameras before.
    pub fn build_for(&mut self, view: u64, config: &CascadeShadowConfig, corners: &FrustumCorners)
        requires
            old(self).wf(),
            config.wf(),
            corners.wf(),
        ensures
            final(self).wf(),
            final(self).views@ == old(self).views@.push(view),
            final(self).cascades@.len() == old(self).cascades@.len() + 1,
            forall|i: int|
                0 <= i < old(self).cascades@.len() ==> final(self).cascades@[i] == old(
                    self,
                ).cascades@[i],
            is_cascades(
                config,
                *corners,
                final(self).cascades@[old(self).cascades@.len() as int]@,
            ),
    {
        let list: Vec<Cascade> = build_directional_light_cascades(config, corners);
        self.views.push(view);
        self.cascades.push(list);
    }
}

/// Drops the cascades of the frame before, for every camera.
pub fn clear_directional_light_cascades(cascades: &mut Cascades)
    ensures
        final(cascades).wf(),
        final(cascades).views@.len() == 0,
        final(cascades).cascades@.len() == 0,
{
    cascades.views = Vec::new();
    cascades.cascades = Vec::new();
}

/// The box of a cascade is tight: on every axis its least coordinate lies
/// less than a texel below the least coordinate of a corner of the slice,
/// rounded down, and its greatest coordinate less than a texel above the
/// greatest coordinate of a corner, rounded up. The lemma names the two
/// corners: the edges on which they lie and their depths.
pub proof fn lemma_cascade_is_tight(corners: FrustumCorners, d0: int, d1: int, texel: int, a: int)
    -> (at: ((int, int), (int, int)))
    requires
        texel >= 1,
    ensures
        ({
            let ((c, d), (e, f)) = at;
            let lo = snap_down(corners.low(a, d0, d1), texel);
            let hi = snap_up(corners.high(a, d0, d1), texel);
            &&& 0 <= c < 4 && (d == d0 || d == d1)
            &&& 0 <= e < 4 && (f == d0 || f == d1)
            &&& lo <= corners.edge_point(c, a, d) / corners.span() < lo + texel
            &&& hi - texel < ceil_div(corners.edge_point(e, a, f), corners.span()) <= hi
        }),
{
    lemma_snap(corners.low(a, d0, d1), texel);
    lemma_snap(corners.high(a, d0, d1), texel);
    let span = corners.span();
    let low = corners.low(a, d0, d1);
    let high = corners.high(a, d0, d1);
    let c: int = if corners.edge_low(0, a, d0, d1) == low {
        0
    } else if corners.edge_low(1, a, d0, d1) == low {
        1
    } else if corners.edge_low(2, a, d0, d1) == low {
        2
    } else {
        3
    };
    let d = if corners.edge_point(c, a, d0) / span == low {
        d0
    } else {
        d1
    };
    let e: int = if corners.edge_high(0, a, d0, d1) == high {
        0
    } else if corners.edge_high(1, a, d0, d1) == high {
        1
    } else if corners.edge_high(2, a, d0, d1) == high {
        2
    } else {
        3
    };
    let f = if ceil_div(corners.edge_point(e, a, d0), span) == high {
        d0
    } else {
        d1
    };
    ((c, d), (e, f))
}

/// Two sets of corners are the same: the same depths and, corner by
/// corner, the same points.
pub open spec fn same_corners(a: FrustumCorners, b: FrustumCorners) -> bool {
    &&& a.near_depth == b.near_depth
    &&& a.far_depth == b.far_depth
    &&& forall|c: int| 0 <= c < 4 ==> #[trigger] a.near[c] == b.near[c]
    &&& forall|c: int| 0 <= c < 4 ==> #[trigger] a.far[c] == b.far[c]
}

/// Whether two sets of corners are the same.
pub fn is_same_corners(a: &FrustumCorners, b: &FrustumCorners) -> (r: bool)
    ensures
        r == same_corners(*a, *b),
{
    if a.near_depth != b.near_depth || a.far_depth != b.far_depth {
        return false;
    }
    let mut c: usize = 0;
    while c < 4
        invariant
            c <= 4,
            forall|k: int| 0 <= k < c ==> #[trigger] a.near[k] == b.near[k],
            forall|k: int| 0 <= k < c ==> #[trigger] a.far[k] == b.far[k],
        decreases 4 - c,
    {
        if a.near[c] != b.near[c] || a.far[c] != b.far[c] {
            return false;
        }
        c = c + 1;
    }
    true
}

/// Whether two lists of depths are the same.
fn is_same_depths(a: &Vec<u32>, b: &Vec<u32>) -> (r: bool)
    ensures
        r == (a@ == b@),
{
    if a.len() != b.len() {
        return false;
    }
    let mut i: usize = 0;
    while i < a.len()
        invariant
            i <= a@.len(),
            a@.len() == b@.len(),
            forall|k: int| 0 <= k < i ==> a@[k] == b@[k],
        decreases a@.len() - i,
    {
        if a[i] != b[i] {
            return false;
        }
        i = i + 1;
    }
    assert(a@ =~= b@);
    true
}

/// The same corners give the same cascade.
pub proof fn lemma_same_corners_same_cascade(
    a: FrustumCorners,
    b: FrustumCorners,
    d0: int,
    d1: int,
    texel: int,
)
    requires
        same_corners(a, b),
    ensures
        spec_cascade(a, d0, d1, texel) == spec_cascade(b, d0, d1, texel),
{
    assert forall|c: int, x: int, d: int| 0 <= c < 4 implies #[trigger] a.edge_point(c, x, d)
        == b.edge_point(c, x, d) by {
        assert(a.near[c] == b.near[c]);
        assert(a.far[c] == b.far[c]);
    }
    assert forall|x: int| #![trigger a.low(x, d0, d1)] #![trigger a.high(x, d0, d1)]
        a.low(x, d0, d1) == b.low(x, d0, d1) && a.high(x, d0, d1) == b.high(x, d0, d1) by {
        assert(a.edge_point(0, x, d0) == b.edge_point(0, x, d0));
        assert(a.edge_point(1, x, d0) == b.edge_point(1, x, d0));
        assert(a.edge_point(2, x, d0) == b.edge_point(2, x, d0));
        assert(a.edge_point(3, x, d0) == b.edge_point(3, x, d0));
        assert(a.edge_point(0, x, d1) == b.edge_point(0, x, d1));
        assert(a.edge_point(1, x, d1) == b.edge_point(1, x, d1));
        assert(a.edge_point(2, x, d1) == b.edge_point(2, x, d1));
        assert(a.edge_point(3, x, d1) == b.edge_point(3, x, d1));
    }
    assert(a.low(0, d0, d1) == b.low(0, d0, d1));
    assert(a.low(1, d0, d1) == b.low(1, d0, d1));
    assert(a.low(2, d0, d1) == b.low(2, d0, d1));
    assert(a.high(0, d0, d1) == b.high(0, d0, d1));
    assert(a.high(1, d0, d1) == b.high(1, d0, d1));
    assert(a.high(2, d0, d1) == b.high(2, d0, d1));
}

/// The cascades of a directional light for one camera, kept from frame to
/// frame: they are built again only when the camera's frustum, seen from
/// the light, or the light's configuration has changed.
#[derive(Debug)]
pub struct CascadeCache {
    /// The corners for which the cascades were built, if any were built.
    corners: Option<FrustumCorners>,
    /// The depths and the texel size for which they were built.
    depths: Vec<u32>,
    texel: u32,
    cascades: Vec<Cascade>,
}

impl CascadeCache {
    /// What the cache holds are the cascades of the corners, depths and
    /// texel size that it names.
    #[verifier::type_invariant]
    spec fn holds_its_cascades(&self) -> bool {
        self.corners matches Some(c) ==> {
            &&& self.cascades@.len() == self.depths@.len() - 1
            &&& forall|i: int|
                0 <= i < self.cascades@.len() ==> #[trigger] self.cascades@[i] == spec_cascade(
                    c,
                    self.depths@[i] as int,
                    self.depths@[i + 1] as int,
                    self.texel as int,
                )
        }
    }

    /// The cascades that the cache holds.
    pub closed spec fn view(&self) -> Seq<Cascade> {
        self.cascades@
    }

    /// The cache holds cascades that were built for `config` and
    /// `corners`.
    pub closed spec fn is_for(&self, config: &CascadeShadowConfig, corners: FrustumCorners)
        -> bool {
        &&& self.corners matches Some(c) && same_corners(c, corners)
        &&& self.depths@ == config.slices@
        &&& self.texel == config.texel
    }

    /// A cache that holds nothing.
    pub fn new() -> (r: CascadeCache)
        ensures
            r.view().len() == 0,
            forall|config: &CascadeShadowConfig, corners: FrustumCorners|
                !#[trigger] r.is_for(config, corners),
    {
        CascadeCache { corners: None, depths: Vec::new(), texel: 1, cascades: Vec::new() }
    }

    /// The cascades that the cache holds.
    pub fn cascades(&self) -> (r: &Vec<Cascade>)
        ensures
            r@ == self.view(),
    {
        &self.cascades
    }

    /// Brings the cache up to date and says whether the cascades were
    /// built again. Either way the cache then holds the cascades of
    /// `config` and `corners`.
    pub fn update(&mut self, config: &CascadeShadowConfig, corners: &FrustumCorners) -> (rebuilt:
        bool)
        requires
            config.wf(),
            corners.wf(),
        ensures
            final(self).is_for(config, *corners),
            is_cascades(config, *corners, final(self).view()),
            rebuilt == !old(self).is_for(config, *corners),
            !rebuilt ==> final(self).view() == old(self).view(),
    {
        proof {
            use_type_invariant(&*self);
        }
        let fresh: bool = match &self.corners {
            None => false,
            Some(c) => is_same_corners(c, corners) && is_same_depths(
                &self.depths,
                &config.slices.bounds,
            ) && self.texel == config.texel,
        };
        if fresh {
            proof {
                let c = self.corners->0;
                assert forall|i: int| 0 <= i < self.cascades@.len() implies
                    #[trigger] self.cascades@[i] == spec_cascade(
                    *corners,
                    config.slices@[i] as int,
                    config.slices@[i + 1] as int,
                    config.texel as int,
                ) by {
                    lemma_same_corners_same_cascade(
                        c,
                        *corners,
                        config.slices@[i] as int,
                        config.slices@[i + 1] as int,
                        config.texel as int,
                    );
                }
            }
            return false;
        }
        let cascades: Vec<Cascade> = build_directional_light_cascades(config, corners);
        *self = CascadeCache {
            corners: Some(*corners),
            depths: config.slices.clone().bounds,
            texel: config.texel,
            cascades,
        };
        true
    }
}

} // verus!
