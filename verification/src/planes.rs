//! How the planes of a camera lie to one another: the facts about screen
//! edges and depths from which the properties of the cluster grid follow.

use crate::camera::{spec_depth_plane, Camera, Projection};
use crate::geometry::{lemma_flipped_eval, IVec3, Sphere};
use crate::math::lemma_floor_div_ge_iff;
use vstd::prelude::*;

verus! {

/// A number that is not negative and whose square reaches the square of
/// another such number is at least that number.
pub proof fn lemma_root_order(a: int, b: int)
    by (nonlinear_arith)
    requires
        a >= 0,
        b >= 0,
        a * a >= b * b,
    ensures
        a >= b,
{
}

/// The algebra behind the planes of a camera: a sphere in front of the eye
/// that lies wholly on the inner side of a plane through the eye lies
/// wholly on the outer side of every such plane that is slanted further.
///
/// `a` is the distance of the centre from the first plane, scaled by the
/// length of its normal `(g, m)`; `m2` is the slant of the second plane and
/// `b` the scaled distance of the centre from it.
pub proof fn lemma_slanted_further(a: int, r: int, g: int, m: int, m2: int, cz: int, t: int, b: int)
    requires
        a >= 0,
        r >= 1,
        cz > r,
        a * a >= (r * r) * (g * g + m * m),
        t >= 1,
        m2 - m == t || m - m2 == t,
        b == a + t * cz,
    ensures
        b > 0,
        b * b > (r * r) * (g * g + m2 * m2),
{
    let am = if m >= 0 {
        m
    } else {
        -m
    };
    let e = m2 - m;
    assert(am * am == m * m) by (nonlinear_arith)
        requires
            am == m || am == -m,
    ;
    assert((r * r) * (g * g + m * m) >= (r * am) * (r * am)) by (nonlinear_arith)
        requires
            am * am == m * m,
    ;
    assert(r * am >= 0) by (nonlinear_arith)
        requires
            r >= 1,
            am >= 0,
    ;
    lemma_root_order(a, r * am);
    let acz = a * cz;
    assert(acz >= (r * r) * am) by (nonlinear_arith)
        requires
            acz == a * cz,
            a >= r * am,
            cz > r,
            r >= 1,
            am >= 0,
    ;
    let me = m * e;
    assert(t * am >= me) by (nonlinear_arith)
        requires
            me == m * e,
            e == t || e == -t,
            am == m || am == -m,
            am >= 0,
            t >= 1,
    ;
    assert(t * acz >= (r * r) * me) by (nonlinear_arith)
        requires
            acz >= (r * r) * am,
            t * am >= me,
            t >= 1,
            am >= 0,
            r >= 1,
    ;
    assert(b * b == a * a + 2 * (t * acz) + (t * t) * (cz * cz)) by (nonlinear_arith)
        requires
            b == a + t * cz,
            acz == a * cz,
    ;
    assert(m2 * m2 == m * m + 2 * me + t * t) by (nonlinear_arith)
        requires
            me == m * e,
            e == m2 - m,
            e == t || e == -t,
    ;
    assert((r * r) * (g * g + m2 * m2) == (r * r) * (g * g + m * m) + 2 * ((r * r) * me) + (t * t)
        * (r * r)) by (nonlinear_arith)
        requires
            m2 * m2 == m * m + 2 * me + t * t,
    ;
    assert((t * t) * (cz * cz) > (t * t) * (r * r)) by (nonlinear_arith)
        requires
            t >= 1,
            cz > r,
            r >= 1,
    ;
    assert(b > 0) by (nonlinear_arith)
        requires
            b == a + t * cz,
            a >= 0,
            t >= 1,
            cz > 1,
    ;
}

impl Camera {
    /// What the plane at `edge` evaluates to at point `p`, written out.
    pub proof fn lemma_edge_plane_eval(self, horizontal: bool, extent: int, edge: int, s: Sphere)
        requires
            self.wf(),
            0 <= edge <= extent <= 0x4000,
        ensures
            ({
                let pl = self.edge_plane(horizontal, extent, edge);
                let u: int = if horizontal {
                    s.center.x as int
                } else {
                    s.center.y as int
                };
                match self.projection {
                    Projection::Perspective { focal } => {
                        &&& pl.eval(s.center) == (2 * focal) * u + (extent - 2 * edge) * s.center.z
                        &&& pl.normal.norm2() == (2 * focal) * (2 * focal) + (extent - 2 * edge) * (
                        extent - 2 * edge)
                    },
                    Projection::Orthographic { pixels, units } => {
                        &&& pl.eval(s.center) == (2 * pixels) * u + (extent - 2 * edge) * units
                        &&& pl.normal.norm2() == (2 * pixels) * (2 * pixels)
                    },
                }
            }),
            self.edge_plane(horizontal, extent, edge).wf(),
    {
        let pl = self.edge_plane(horizontal, extent, edge);
        let c = s.center;
        assert(0 * c.x == 0 && 0 * c.y == 0 && 0 * c.z == 0);
        assert(0 * 0 == 0);
        if let Projection::Orthographic { pixels, units } = self.projection {
            crate::geometry::lemma_product_bound(extent - 2 * edge, units as int, 0x4000, 0x10_0000);
        }
    }

    /// A sphere in front of the eye that lies wholly before the screen edge
    /// `here` lies wholly outside the half-space at or beyond any later edge.
    pub proof fn lemma_wholly_before_edge(
        self,
        horizontal: bool,
        extent: int,
        s: Sphere,
        here: int,
        there: int,
    )
        requires
            self.wf(),
            s.wf(),
            s.center.z > s.radius,
            0 <= here < there <= extent <= 0x4000,
            self.edge_plane(horizontal, extent, here).flipped().sphere_inside(s),
        ensures
            self.edge_plane(horizontal, extent, there).sphere_behind(s),
    {
        let pl1 = self.edge_plane(horizontal, extent, here);
        let pl2 = self.edge_plane(horizontal, extent, there);
        self.lemma_edge_plane_eval(horizontal, extent, here, s);
        self.lemma_edge_plane_eval(horizontal, extent, there, s);
        lemma_flipped_eval(pl1, s.center);
        let a = -pl1.eval(s.center);
        let b = -pl2.eval(s.center);
        let r = s.radius as int;
        let cz = s.center.z as int;
        let t = 2 * (there - here);
        match self.projection {
            Projection::Perspective { focal } => {
                let g = 2 * focal;
                let m = extent - 2 * here;
                let m2 = extent - 2 * there;
                assert(b == a + t * cz) by (nonlinear_arith)
                    requires
                        a == -(g * (if horizontal {
                            s.center.x as int
                        } else {
                            s.center.y as int
                        }) + m * cz),
                        b == -(g * (if horizontal {
                            s.center.x as int
                        } else {
                            s.center.y as int
                        }) + m2 * cz),
                        m - m2 == t,
                ;
                assert(a * a == pl1.eval(s.center) * pl1.eval(s.center)) by (nonlinear_arith)
                    requires
                        a == -pl1.eval(s.center),
                ;
                assert(a * a == (-a) * (-a)) by (nonlinear_arith);
                lemma_slanted_further(a, r, g, m, m2, cz, t, b);
                assert(b * b == pl2.eval(s.center) * pl2.eval(s.center)) by (nonlinear_arith)
                    requires
                        b == -pl2.eval(s.center),
                ;
            },
            Projection::Orthographic { pixels, units } => {
                assert(b == a + t * units) by (nonlinear_arith)
                    requires
                        a == -((2 * pixels) * (if horizontal {
                            s.center.x as int
                        } else {
                            s.center.y as int
                        }) + (extent - 2 * here) * units),
                        b == -((2 * pixels) * (if horizontal {
                            s.center.x as int
                        } else {
                            s.center.y as int
                        }) + (extent - 2 * there) * units),
                        t == 2 * (there - here),
                ;
                assert(b > a) by (nonlinear_arith)
                    requires
                        b == a + t * units,
                        t >= 1,
                        units >= 1,
                ;
                assert(b * b > a * a) by (nonlinear_arith)
                    requires
                        a >= 0,
                        b > a,
                ;
                assert(a * a == pl1.eval(s.center) * pl1.eval(s.center)) by (nonlinear_arith)
                    requires
                        a == -pl1.eval(s.center),
                ;
                assert(a * a == (-a) * (-a)) by (nonlinear_arith);
                assert(b * b == pl2.eval(s.center) * pl2.eval(s.center)) by (nonlinear_arith)
                    requires
                        b == -pl2.eval(s.center),
                ;
            },
        }
    }

    /// A sphere in front of the eye that lies wholly at or beyond the screen
    /// edge `here` lies wholly outside the half-space before any earlier edge.
    pub proof fn lemma_wholly_beyond_edge(
        self,
        horizontal: bool,
        extent: int,
        s: Sphere,
        here: int,
        there: int,
    )
        requires
            self.wf(),
            s.wf(),
            s.center.z > s.radius,
            0 <= there < here <= extent <= 0x4000,
            self.edge_plane(horizontal, extent, here).sphere_inside(s),
        ensures
            self.edge_plane(horizontal, extent, there).flipped().sphere_behind(s),
    {
        let pl1 = self.edge_plane(horizontal, extent, here);
        let pl2 = self.edge_plane(horizontal, extent, there);
        self.lemma_edge_plane_eval(horizontal, extent, here, s);
        self.lemma_edge_plane_eval(horizontal, extent, there, s);
        lemma_flipped_eval(pl2, s.center);
        let a = pl1.eval(s.center);
        let b = pl2.eval(s.center);
        let r = s.radius as int;
        let cz = s.center.z as int;
        let t = 2 * (here - there);
        match self.projection {
            Projection::Perspective { focal } => {
                let g = 2 * focal;
                let m = extent - 2 * here;
                let m2 = extent - 2 * there;
                assert(b == a + t * cz) by (nonlinear_arith)
                    requires
                        a == g * (if horizontal {
                            s.center.x as int
                        } else {
                            s.center.y as int
                        }) + m * cz,
                        b == g * (if horizontal {
                            s.center.x as int
                        } else {
                            s.center.y as int
                        }) + m2 * cz,
                        m2 - m == t,
                ;
                lemma_slanted_further(a, r, g, m, m2, cz, t, b);
                assert((-b) * (-b) == b * b) by (nonlinear_arith);
            },
            Projection::Orthographic { pixels, units } => {
                assert(b == a + t * units) by (nonlinear_arith)
                    requires
                        a == (2 * pixels) * (if horizontal {
                            s.center.x as int
                        } else {
                            s.center.y as int
                        }) + (extent - 2 * here) * units,
                        b == (2 * pixels) * (if horizontal {
                            s.center.x as int
                        } else {
                            s.center.y as int
                        }) + (extent - 2 * there) * units,
                        t == 2 * (here - there),
                ;
                assert(b > a) by (nonlinear_arith)
                    requires
                        b == a + t * units,
                        t >= 1,
                        units >= 1,
                ;
                assert(b * b > a * a) by (nonlinear_arith)
                    requires
                        a >= 0,
                        b > a,
                ;
                assert((-b) * (-b) == b * b) by (nonlinear_arith);
            },
        }
    }
}

/// What a depth plane evaluates to at the centre of a sphere.
pub proof fn lemma_depth_plane_eval(d: int, s: Sphere)
    requires
        0 <= d <= 0x10_0000,
    ensures
        spec_depth_plane(d).eval(s.center) == s.center.z - d,
        spec_depth_plane(d).flipped().eval(s.center) == d - s.center.z,
        spec_depth_plane(d).normal.norm2() == 1,
        spec_depth_plane(d).flipped().normal.norm2() == 1,
        spec_depth_plane(d).wf(),
{
    let c = s.center;
    assert(0 * c.x == 0 && 0 * c.y == 0 && 1 * c.z == c.z);
    lemma_flipped_eval(spec_depth_plane(d), c);
}

impl Camera {
    /// What the plane at `edge` evaluates to at point `q`, written out.
    pub proof fn lemma_edge_plane_at(self, horizontal: bool, extent: int, edge: int, q: IVec3)
        requires
            self.wf(),
            0 <= edge <= extent <= 0x4000,
        ensures
            ({
                let pl = self.edge_plane(horizontal, extent, edge);
                let u: int = if horizontal {
                    q.x as int
                } else {
                    q.y as int
                };
                match self.projection {
                    Projection::Perspective { focal } => pl.eval(q) == (2 * focal) * u + (extent - 2
                        * edge) * q.z,
                    Projection::Orthographic { pixels, units } => pl.eval(q) == (2 * pixels) * u + (
                    extent - 2 * edge) * units,
                }
            }),
            self.edge_plane(horizontal, extent, edge).wf(),
    {
        self.lemma_edge_plane_eval(horizontal, extent, edge, Sphere { center: q, radius: 1 });
    }

    /// A point in front of the eye that lies at or beyond the screen edge
    /// `here` lies at or beyond every earlier edge, and one that lies
    /// before `here` lies before every later edge.
    pub proof fn lemma_edges_are_ordered(
        self,
        horizontal: bool,
        extent: int,
        q: IVec3,
        here: int,
        there: int,
    )
        requires
            self.wf(),
            q.z >= 0,
            0 <= here <= extent <= 0x4000,
            0 <= there <= extent,
        ensures
            there <= here && self.edge_plane(horizontal, extent, here).contains(q)
                ==> self.edge_plane(horizontal, extent, there).contains(q),
            there >= here && self.edge_plane(horizontal, extent, here).flipped().contains(q)
                ==> self.edge_plane(horizontal, extent, there).flipped().contains(q),
    {
        self.lemma_edge_plane_at(horizontal, extent, here, q);
        self.lemma_edge_plane_at(horizontal, extent, there, q);
        lemma_flipped_eval(self.edge_plane(horizontal, extent, here), q);
        lemma_flipped_eval(self.edge_plane(horizontal, extent, there), q);
        let a = self.edge_plane(horizontal, extent, here).eval(q);
        let b = self.edge_plane(horizontal, extent, there).eval(q);
        let u: int = if horizontal {
            q.x as int
        } else {
            q.y as int
        };
        match self.projection {
            Projection::Perspective { focal } => {
                assert(b - a == (2 * (here - there)) * q.z) by (nonlinear_arith)
                    requires
                        a == (2 * focal) * u + (extent - 2 * here) * q.z,
                        b == (2 * focal) * u + (extent - 2 * there) * q.z,
                ;
                assert(there <= here ==> (2 * (here - there)) * q.z >= 0) by (nonlinear_arith)
                    requires
                        q.z >= 0,
                ;
                assert(there >= here ==> (2 * (here - there)) * q.z <= 0) by (nonlinear_arith)
                    requires
                        q.z >= 0,
                ;
            },
            Projection::Orthographic { pixels, units } => {
                assert(b - a == (2 * (here - there)) * units) by (nonlinear_arith)
                    requires
                        a == (2 * pixels) * u + (extent - 2 * here) * units,
                        b == (2 * pixels) * u + (extent - 2 * there) * units,
                ;
                assert(there <= here ==> (2 * (here - there)) * units >= 0) by (nonlinear_arith)
                    requires
                        units >= 0,
                ;
                assert(there >= here ==> (2 * (here - there)) * units <= 0) by (nonlinear_arith)
                    requires
                        units >= 0,
                ;
            },
        }
    }
}

/// What a depth plane evaluates to at a point.
pub proof fn lemma_depth_plane_at(d: int, q: IVec3)
    requires
        0 <= d <= 0x10_0000,
    ensures
        spec_depth_plane(d).eval(q) == q.z - d,
        spec_depth_plane(d).flipped().eval(q) == d - q.z,
{
    lemma_depth_plane_eval(d, Sphere { center: q, radius: 1 });
}

impl Camera {
    /// A point in front of the eye lies at or beyond a screen edge exactly
    /// when the pixel on which it falls does, and lies before the edge when
    /// its pixel does.
    pub proof fn lemma_edge_plane_holds_pixels(self, horizontal: bool, extent: int, edge: int, q: IVec3)
        requires
            self.wf(),
            0 <= edge <= extent <= 0x4000,
            q.z >= 1,
        ensures
            self.edge_plane(horizontal, extent, edge).contains(q) == (self.screen_coord(
                horizontal,
                extent,
                q,
            ) >= edge),
            self.screen_coord(horizontal, extent, q) < edge ==> self.edge_plane(
                horizontal,
                extent,
                edge,
            ).flipped().contains(q),
    {
        self.lemma_edge_plane_at(horizontal, extent, edge, q);
        lemma_flipped_eval(self.edge_plane(horizontal, extent, edge), q);
        let u: int = if horizontal {
            q.x as int
        } else {
            q.y as int
        };
        match self.projection {
            Projection::Perspective { focal } => {
                let n = extent * q.z + (2 * focal) * u;
                lemma_floor_div_ge_iff(n, 2 * q.z, edge);
                assert(edge * (2 * q.z) == (2 * edge) * q.z) by (nonlinear_arith);
                assert((extent - 2 * edge) * q.z == extent * q.z - (2 * edge) * q.z)
                    by (nonlinear_arith);
            },
            Projection::Orthographic { pixels, units } => {
                let n = extent * units + (2 * pixels) * u;
                lemma_floor_div_ge_iff(n, 2 * units, edge);
                assert(edge * (2 * units) == (2 * edge) * units) by (nonlinear_arith);
                assert((extent - 2 * edge) * units == extent * units - (2 * edge) * units)
                    by (nonlinear_arith);
            },
        }
    }
}

} // verus!
