//! The camera of a cluster grid: a viewport in pixels, a projection and a
//! depth range, in view space.
//!
//! View space has the eye at the origin and depth along `z`. A point at depth
//! `z` in front of a perspective camera falls on the screen at
//! `width / 2 + focal * x / z`, `height / 2 + focal * y / z`; an
//! orthographic camera that shows `units` world units on `pixels` pixels
//! puts it at `width / 2 + pixels * x / units`,
//! `height / 2 + pixels * y / units`.

use crate::depth::DEPTH_LIMIT;
use crate::geometry::{lemma_product_bound, Frustum, IVec3, Plane};
use crate::math::floor_div_i64;
use vstd::prelude::*;

verus! {

/// Largest width and height of a viewport, in pixels.
pub const MAX_VIEWPORT: u32 = 0x4000;

/// Largest focal length, and largest number of pixels in an orthographic
/// scale.
pub const FOCAL_LIMIT: u32 = 0x8000;

/// Largest number of world units in an orthographic scale.
pub const SCALE_UNITS_LIMIT: u32 = 0x10_0000;

/// How view space is mapped to the screen.
#[derive(Clone, Copy, Debug, PartialEq, Eq, Structural)]
pub enum Projection {
    /// A pinhole camera with the given focal length in pixels.
    Perspective { focal: u32 },
    /// A parallel projection that shows `units` world units on `pixels`
    /// pixels.
    Orthographic { pixels: u32, units: u32 },
}

impl Projection {
    /// The focal length or the two parts of the scale are positive and
    /// within their limits.
    pub open spec fn wf(self) -> bool {
        match self {
            Projection::Perspective { focal } => 1 <= focal <= FOCAL_LIMIT,
            Projection::Orthographic { pixels, units } => 1 <= pixels <= FOCAL_LIMIT && 1 <= units
                <= SCALE_UNITS_LIMIT,
        }
    }
}

/// A camera in view space.
#[derive(Clone, Copy, Debug, PartialEq, Eq, Structural)]
pub struct Camera {
    pub width: u32,
    pub height: u32,
    pub projection: Projection,
    pub near: u32,
    pub far: u32,
}

/// The half-space of the points at depth `d` or beyond.
pub open spec fn spec_depth_plane(d: int) -> Plane {
    Plane { normal: IVec3 { x: 0, y: 0, z: 1 }, offset: (-d) as i64 }
}

/// The half-space of the points at depth `d` or beyond.
#[verifier::when_used_as_spec(spec_depth_plane_u32)]
pub fn depth_plane(d: u32) -> (p: Plane)
    requires
        d <= DEPTH_LIMIT,
    ensures
        p == spec_depth_plane(d as int),
        p.wf(),
{
    Plane { normal: IVec3 { x: 0, y: 0, z: 1 }, offset: -(d as i64) }
}

/// The half-space of the points at depth `d` or beyond.
pub open spec fn spec_depth_plane_u32(d: u32) -> Plane {
    spec_depth_plane(d as int)
}

impl Camera {
    /// The viewport is within `MAX_VIEWPORT`, the projection is well formed
    /// and the depth range starts above zero, is not empty and ends within
    /// `DEPTH_LIMIT`.
    pub open spec fn wf(self) -> bool {
        &&& self.width <= MAX_VIEWPORT
        &&& self.height <= MAX_VIEWPORT
        &&& self.projection.wf()
        &&& 1 <= self.near < self.far <= DEPTH_LIMIT
    }

    /// The viewport has no pixel.
    pub open spec fn spec_is_degenerate(&self) -> bool {
        self.width == 0 || self.height == 0
    }

    /// A camera from its parts; `None` unless they are well formed.
    pub fn new(width: u32, height: u32, projection: Projection, near: u32, far: u32) -> (r: Option<
        Camera,
    >)
        ensures
            r.is_some() == (Camera { width, height, projection, near, far }).wf(),
            r matches Some(c) ==> c == (Camera { width, height, projection, near, far }),
    {
        let scale_ok: bool = match projection {
            Projection::Perspective { focal } => 1 <= focal && focal <= FOCAL_LIMIT,
            Projection::Orthographic { pixels, units } => 1 <= pixels && pixels <= FOCAL_LIMIT
                && 1 <= units && units <= SCALE_UNITS_LIMIT,
        };
        if width <= MAX_VIEWPORT && height <= MAX_VIEWPORT && scale_ok && 1 <= near && near < far
            && far <= DEPTH_LIMIT {
            Some(Camera { width, height, projection, near, far })
        } else {
            None
        }
    }

    /// Whether the camera is well formed.
    pub fn is_wf(&self) -> (ok: bool)
        ensures
            ok == self.wf(),
    {
        Camera::new(self.width, self.height, self.projection, self.near, self.far).is_some()
    }

    /// Whether the viewport has no pixel.
    #[verifier::when_used_as_spec(spec_is_degenerate)]
    pub fn is_degenerate(&self) -> (d: bool)
        ensures
            d == self.spec_is_degenerate(),
    {
        self.width == 0 || self.height == 0
    }

    /// The half-space of the points that fall on the screen at or beyond
    /// the boundary `edge` along an axis whose viewport extent is `extent`;
    /// `horizontal` picks the axis.
    pub open spec fn edge_plane(self, horizontal: bool, extent: int, edge: int) -> Plane {
        match self.projection {
            Projection::Perspective { focal } => Plane {
                normal: IVec3 {
                    x: if horizontal {
                        (2 * focal) as i32
                    } else {
                        0
                    },
                    y: if horizontal {
                        0
                    } else {
                        (2 * focal) as i32
                    },
                    z: (extent - 2 * edge) as i32,
                },
                offset: 0,
            },
            Projection::Orthographic { pixels, units } => Plane {
                normal: IVec3 {
                    x: if horizontal {
                        (2 * pixels) as i32
                    } else {
                        0
                    },
                    y: if horizontal {
                        0
                    } else {
                        (2 * pixels) as i32
                    },
                    z: 0,
                },
                offset: ((extent - 2 * edge) * units) as i64,
            },
        }
    }

    /// The half-space of the points that fall on the screen at pixel column
    /// `edge` or to the right of it.
    pub open spec fn column_plane(self, edge: int) -> Plane {
        self.edge_plane(true, self.width as int, edge)
    }

    /// The half-space of the points that fall on the screen at pixel row
    /// `edge` or below it.
    pub open spec fn row_plane(self, edge: int) -> Plane {
        self.edge_plane(false, self.height as int, edge)
    }

    /// The half-space of the points that fall on the screen at pixel column
    /// `edge` or to the right of it.
    pub fn column_plane_exec(&self, edge: u32) -> (p: Plane)
        requires
            self.wf(),
            edge <= self.width,
        ensures
            p == self.column_plane(edge as int),
            p.wf(),
    {
        let slant: i32 = (self.width as i32) - 2 * (edge as i32);
        match self.projection {
            Projection::Perspective { focal } => Plane {
                normal: IVec3 { x: 2 * (focal as i32), y: 0, z: slant },
                offset: 0,
            },
            Projection::Orthographic { pixels, units } => {
                proof {
                    crate::geometry::lemma_product_bound(
                        slant as int,
                        units as int,
                        0x4000,
                        0x10_0000,
                    );
                }
                Plane {
                    normal: IVec3 { x: 2 * (pixels as i32), y: 0, z: 0 },
                    offset: (slant as i64) * (units as i64),
                }
            },
        }
    }

    /// The half-space of the points that fall on the screen at pixel row
    /// `edge` or below it.
    pub fn row_plane_exec(&self, edge: u32) -> (p: Plane)
        requires
            self.wf(),
            edge <= self.height,
        ensures
            p == self.row_plane(edge as int),
            p.wf(),
    {
        let slant: i32 = (self.height as i32) - 2 * (edge as i32);
        match self.projection {
            Projection::Perspective { focal } => Plane {
                normal: IVec3 { x: 0, y: 2 * (focal as i32), z: slant },
                offset: 0,
            },
            Projection::Orthographic { pixels, units } => {
                proof {
                    crate::geometry::lemma_product_bound(
                        slant as int,
                        units as int,
                        0x4000,
                        0x10_0000,
                    );
                }
                Plane {
                    normal: IVec3 { x: 0, y: 2 * (pixels as i32), z: 0 },
                    offset: (slant as i64) * (units as i64),
                }
            },
        }
    }

    /// The volume between the pixel columns `x0` and `x1`, the pixel rows
    /// `y0` and `y1` and the depths `d0` and `d1`.
    pub open spec fn spec_volume(self, x0: int, x1: int, y0: int, y1: int, d0: int, d1: int)
        -> Frustum {
        Frustum {
            left: self.column_plane(x0),
            right: self.column_plane(x1).flipped(),
            top: self.row_plane(y0),
            bottom: self.row_plane(y1).flipped(),
            near: spec_depth_plane(d0),
            far: spec_depth_plane(d1).flipped(),
        }
    }

    /// The volume between the pixel columns `x0` and `x1`, the pixel rows
    /// `y0` and `y1` and the depths `d0` and `d1`.
    pub fn volume(&self, x0: u32, x1: u32, y0: u32, y1: u32, d0: u32, d1: u32) -> (f: Frustum)
        requires
            self.wf(),
            x0 <= self.width,
            x1 <= self.width,
            y0 <= self.height,
            y1 <= self.height,
            d0 <= DEPTH_LIMIT,
            d1 <= DEPTH_LIMIT,
        ensures
            f == self.spec_volume(
                x0 as int,
                x1 as int,
                y0 as int,
                y1 as int,
                d0 as int,
                d1 as int,
            ),
            f.wf(),
    {
        Frustum {
            left: self.column_plane_exec(x0),
            right: self.column_plane_exec(x1).flipped(),
            top: self.row_plane_exec(y0),
            bottom: self.row_plane_exec(y1).flipped(),
            near: depth_plane(d0),
            far: depth_plane(d1).flipped(),
        }
    }

    /// Everything that the camera sees: the volume of the whole viewport
    /// between the near and the far depth.
    pub open spec fn spec_frustum(&self) -> Frustum {
        self.spec_volume(
            0,
            self.width as int,
            0,
            self.height as int,
            self.near as int,
            self.far as int,
        )
    }

    /// Everything that the camera sees.
    #[verifier::when_used_as_spec(spec_frustum)]
    pub fn frustum(&self) -> (f: Frustum)
        requires
            self.wf(),
        ensures
            f == self.spec_frustum(),
            f.wf(),
    {
        self.volume(0, self.width, 0, self.height, self.near, self.far)
    }
}

impl Camera {
    /// The pixel, along an axis of the screen whose extent is `extent`, on
    /// which point `q` falls: for a perspective camera `extent / 2 + focal
    /// * u / z`, for an orthographic one `extent / 2 + pixels * u / units`,
    /// rounded down, where `u` is the coordinate of `q` along the axis.
    pub open spec fn screen_coord(self, horizontal: bool, extent: int, q: IVec3) -> int {
        let u: int = if horizontal {
            q.x as int
        } else {
            q.y as int
        };
        match self.projection {
            Projection::Perspective { focal } => (extent * q.z + (2 * focal) * u) / (2 * q.z),
            Projection::Orthographic { pixels, units } => (extent * units + (2 * pixels) * u) / (2
                * units),
        }
    }

    /// Point `q` falls on a pixel of the screen: it is in range, it lies in
    /// front of the eye where the camera has one, and its pixel is in the
    /// viewport.
    pub open spec fn on_screen(self, q: IVec3) -> bool {
        &&& q.in_range()
        &&& self.projection is Perspective ==> q.z >= 1
        &&& 0 <= self.screen_coord(true, self.width as int, q) < self.width
        &&& 0 <= self.screen_coord(false, self.height as int, q) < self.height
    }

    /// The pixel along one axis on which point `q` falls.
    fn screen_coord_exec(&self, horizontal: bool, extent: u32, q: &IVec3) -> (c: i64)
        requires
            self.wf(),
            extent <= MAX_VIEWPORT,
            q.in_range(),
            self.projection is Perspective ==> q.z >= 1,
        ensures
            c == self.screen_coord(horizontal, extent as int, *q),
    {
        let u: i64 = if horizontal {
            q.x as i64
        } else {
            q.y as i64
        };
        match self.projection {
            Projection::Perspective { focal } => {
                proof {
                    lemma_product_bound(extent as int, q.z as int, 0x4000, 0x10_0000);
                    lemma_product_bound(2 * focal, u as int, 0x1_0000, 0x10_0000);
                }
                floor_div_i64(
                    (extent as i64) * (q.z as i64) + (2 * (focal as i64)) * u,
                    2 * (q.z as i64),
                )
            },
            Projection::Orthographic { pixels, units } => {
                proof {
                    lemma_product_bound(extent as int, units as int, 0x4000, 0x10_0000);
                    lemma_product_bound(2 * pixels, u as int, 0x1_0000, 0x10_0000);
                }
                floor_div_i64(
                    (extent as i64) * (units as i64) + (2 * (pixels as i64)) * u,
                    2 * (units as i64),
                )
            },
        }
    }

    /// The pixel on which point `q` of view space falls; `None` for a point
    /// that falls on no pixel of the screen.
    pub fn pixel_of(&self, q: &IVec3) -> (r: Option<(u32, u32)>)
        requires
            self.wf(),
        ensures
            r.is_some() == self.on_screen(*q),
            r matches Some(p) ==> p.0 == self.screen_coord(true, self.width as int, *q) && p.1
                == self.screen_coord(false, self.height as int, *q),
    {
        if !q.is_in_range() {
            return None;
        }
        let in_front: bool = match self.projection {
            Projection::Perspective { .. } => q.z >= 1,
            Projection::Orthographic { .. } => true,
        };
        if !in_front {
            return None;
        }
        let x: i64 = self.screen_coord_exec(true, self.width, q);
        let y: i64 = self.screen_coord_exec(false, self.height, q);
        if 0 <= x && x < self.width as i64 && 0 <= y && y < self.height as i64 {
            Some((x as u32, y as u32))
        } else {
            None
        }
    }
}

} // verus!
