//! The exact test of a light against a cell: whether the sphere of the light
//! and the volume of the cell share a point.
//!
//! At every depth a cell is a rectangle, so the point of the cell nearest to
//! the centre of the sphere at that depth is found side by side: where the
//! centre lies before the low side of the rectangle, the nearest point lies
//! on that side; where it lies beyond the high side, on that one; and in
//! between, level with the centre. For each of these three cases to either
//! side the squared distance is a quadratic in the depth, and the question
//! whether it comes within the range of the light at some depth of the cell
//! is answered by [`crate::nearest`].

use crate::camera::{spec_depth_plane, Camera, Projection};
use crate::cluster::{lemma_tile_starts, Grid};
use crate::depth::lemma_split_bound_range;
use crate::geometry::{lemma_shared_point_touches, shares_point, Plane, Sphere};
use crate::nearest::{Linear, Problem, Question};
use vstd::prelude::*;

verus! {

impl Camera {
    /// Twice the focal length or twice the pixels of the scale: the factor
    /// that takes a lateral coordinate to the screen.
    pub open spec fn spread(self) -> int {
        match self.projection {
            Projection::Perspective { focal } => 2 * focal,
            Projection::Orthographic { pixels, units } => 2 * pixels,
        }
    }

    /// What a slant is weighed with at the depth `n / d`, times `d`: the
    /// depth for a perspective camera, the units of the scale for an
    /// orthographic one.
    pub open spec fn weight(self, n: int, d: int) -> int {
        match self.projection {
            Projection::Perspective { focal } => n,
            Projection::Orthographic { pixels, units } => units * d,
        }
    }

    /// The form that says how far the side of a cell with the given slant
    /// lies beyond the lateral coordinate `c`: `slant * weight - spread *
    /// c`.
    pub open spec fn spec_side_form(self, slant: int, c: int) -> Linear {
        match self.projection {
            Projection::Perspective { focal } => Linear {
                a: slant as i64,
                b: (-((2 * focal) * c)) as i64,
            },
            Projection::Orthographic { pixels, units } => Linear {
                a: 0,
                b: (slant * units - (2 * pixels) * c) as i64,
            },
        }
    }

    /// The form that says how far the side of a cell with the given slant
    /// lies beyond the lateral coordinate `c`.
    fn side_form(&self, slant: i64, c: i32) -> (f: Linear)
        requires
            self.wf(),
            -0x4000 <= slant <= 0x4000,
            -0x10_0000 <= c <= 0x10_0000,
        ensures
            f == self.spec_side_form(slant as int, c as int),
            f.wf(),
    {
        match self.projection {
            Projection::Perspective { focal } => {
                proof {
                    crate::geometry::lemma_product_bound(2 * focal, c as int, 0x1_0000, 0x10_0000);
                }
                Linear { a: slant, b: -((2 * (focal as i64)) * (c as i64)) }
            },
            Projection::Orthographic { pixels, units } => {
                proof {
                    crate::geometry::lemma_product_bound(2 * pixels, c as int, 0x1_0000, 0x10_0000);
                    crate::geometry::lemma_product_bound(
                        slant as int,
                        units as int,
                        0x4000,
                        0x10_0000,
                    );
                }
                Linear { a: 0, b: slant * (units as i64) - (2 * (pixels as i64)) * (c as i64) }
            },
        }
    }

    /// What a side form comes to at a depth.
    pub proof fn lemma_side_form_at(self, slant: int, c: int, n: int, d: int)
        requires
            self.wf(),
            -0x4000 <= slant <= 0x4000,
            -0x10_0000 <= c <= 0x10_0000,
        ensures
            self.spec_side_form(slant, c).at(n, d) == slant * self.weight(n, d) - (self.spread()
                * c) * d,
            2 <= self.spread() <= 0x1_0000,
    {
        match self.projection {
            Projection::Perspective { focal } => {
                crate::geometry::lemma_product_bound(2 * focal, c, 0x1_0000, 0x10_0000);
                assert((-((2 * focal) * c)) * d == -(((2 * focal) * c) * d)) by (nonlinear_arith);
            },
            Projection::Orthographic { pixels, units } => {
                crate::geometry::lemma_product_bound(2 * pixels, c, 0x1_0000, 0x10_0000);
                crate::geometry::lemma_product_bound(slant, units as int, 0x4000, 0x10_0000);
                assert(0 * n == 0);
                assert((slant * units - (2 * pixels) * c) * d == slant * (units * d) - ((2
                    * pixels) * c) * d) by (nonlinear_arith);
            },
        }
    }

    /// A point lies at or beyond a screen edge exactly when its lateral
    /// coordinate, times the spread, reaches the slant of the edge times
    /// the weight of its depth.
    pub proof fn lemma_edge_holds(
        self,
        horizontal: bool,
        extent: int,
        edge: int,
        x: int,
        y: int,
        z: int,
        d: int,
    )
        requires
            self.wf(),
            0 <= edge <= extent <= 0x4000,
        ensures
            ({
                let u = if horizontal {
                    x
                } else {
                    y
                };
                let pl = self.edge_plane(horizontal, extent, edge);
                &&& pl.wf()
                &&& pl.holds(x, y, z, d) == (self.spread() * u >= (2 * edge - extent) * self.weight(
                    z,
                    d,
                ))
                &&& pl.flipped().holds(x, y, z, d) == (self.spread() * u <= (2 * edge - extent)
                    * self.weight(z, d))
            }),
    {
        let pl = self.edge_plane(horizontal, extent, edge);
        let slant = 2 * edge - extent;
        assert(0 * x == 0 && 0 * y == 0 && 0 * z == 0 && 0 * d == 0);
        if let Projection::Orthographic { pixels, units } = self.projection {
            crate::geometry::lemma_product_bound(extent - 2 * edge, units as int, 0x4000, 0x10_0000);
        }
        lemma_flipped_holds(pl, x, y, z, d);
        match self.projection {
            Projection::Perspective { focal } => {
                assert((extent - 2 * edge) * z == -(slant * z)) by (nonlinear_arith)
                    requires
                        slant == 2 * edge - extent,
                ;
            },
            Projection::Orthographic { pixels, units } => {
                crate::geometry::lemma_product_bound(
                    extent - 2 * edge,
                    units as int,
                    0x4000,
                    0x10_0000,
                );
                assert(((extent - 2 * edge) * units) * d == -(slant * (units * d)))
                    by (nonlinear_arith)
                    requires
                        slant == 2 * edge - extent,
                ;
            },
        }
    }
}

/// A point lies in the opposite half-space exactly when the plane comes to
/// zero or less at it.
pub proof fn lemma_flipped_holds(pl: Plane, x: int, y: int, z: int, d: int)
    requires
        pl.wf(),
    ensures
        pl.flipped().holds(x, y, z, d) == (pl.normal.x * x + pl.normal.y * y + pl.normal.z * z
            + pl.offset * d <= 0),
{
    let n = pl.normal;
    assert((-n.x) * x == -(n.x * x)) by (nonlinear_arith);
    assert((-n.y) * y == -(n.y * y)) by (nonlinear_arith);
    assert((-n.z) * z == -(n.z * z)) by (nonlinear_arith);
    assert((-pl.offset) * d == -(pl.offset * d)) by (nonlinear_arith);
}

/// A point lies at or beyond a depth, or at or before it, exactly when its
/// depth does.
pub proof fn lemma_depth_holds(depth: int, x: int, y: int, z: int, d: int)
    requires
        0 <= depth <= 0x10_0000,
    ensures
        spec_depth_plane(depth).holds(x, y, z, d) == (z - depth * d >= 0),
        spec_depth_plane(depth).flipped().holds(x, y, z, d) == (depth * d - z >= 0),
{
    let pl = spec_depth_plane(depth);
    lemma_flipped_holds(pl, x, y, z, d);
    assert(0 * x == 0 && 0 * y == 0 && 1 * z == z);
    assert((-depth) * d == -(depth * d)) by (nonlinear_arith);
}

/// The first condition of a case: in the low case the low side lies at or
/// beyond the centre, in the high case the centre at or beyond the high
/// side, and in the middle case the centre at or beyond the low side.
pub open spec fn case_condition(case: int, low: Linear, high: Linear) -> Linear {
    if case == 0 {
        low
    } else if case == 2 {
        high
    } else {
        low.negated()
    }
}

/// The second condition of a case: that of the first again, but in the
/// middle case, where the high side lies at or beyond the centre.
pub open spec fn case_second(case: int, low: Linear, high: Linear) -> Linear {
    if case == 0 {
        low
    } else if case == 2 {
        high
    } else {
        high.negated()
    }
}

/// How far the nearest point of the cell lies from the centre, to the side,
/// in a case: by what the low side lies beyond the centre, by what the
/// centre lies beyond the high side, or not at all.
pub open spec fn case_term(case: int, low: Linear, high: Linear) -> Linear {
    if case == 0 {
        low
    } else if case == 2 {
        high
    } else {
        Linear { a: 0, b: 0 }
    }
}

impl Grid {
    /// The form that is positive where the low side of tile column `i`
    /// lies beyond the centre of the sphere.
    pub open spec fn low_x(&self, s: Sphere, i: int) -> Linear {
        self.camera.spec_side_form(2 * self.column_start(i) - self.camera.width, s.center.x as int)
    }

    /// The form that is positive where the centre of the sphere lies
    /// beyond the high side of tile column `i`.
    pub open spec fn high_x(&self, s: Sphere, i: int) -> Linear {
        self.camera.spec_side_form(
            2 * self.column_start(i + 1) - self.camera.width,
            s.center.x as int,
        ).negated()
    }

    /// The form that is positive where the low side of tile row `j` lies
    /// beyond the centre of the sphere.
    pub open spec fn low_y(&self, s: Sphere, j: int) -> Linear {
        self.camera.spec_side_form(2 * self.row_start(j) - self.camera.height, s.center.y as int)
    }

    /// The form that is positive where the centre of the sphere lies
    /// beyond the high side of tile row `j`.
    pub open spec fn high_y(&self, s: Sphere, j: int) -> Linear {
        self.camera.spec_side_form(
            2 * self.row_start(j + 1) - self.camera.height,
            s.center.y as int,
        ).negated()
    }

    /// The question whether, in the given cases to the two sides, some
    /// point of cell `(i, j, k)` lies within the sphere.
    pub open spec fn question(&self, s: Sphere, i: int, j: int, k: int, cx: int, cy: int)
        -> Question {
        let f = self.camera.spread();
        let (lx, hx) = (self.low_x(s, i), self.high_x(s, i));
        let (ly, hy) = (self.low_y(s, j), self.high_y(s, j));
        Question {
            conditions: seq![
                Linear { a: 1, b: (-self.slices@[k]) as i64 },
                Linear { a: -1i64, b: self.slices@[k + 1] as i64 },
                case_condition(cx, lx, hx),
                case_second(cx, lx, hx),
                case_condition(cy, ly, hy),
                case_second(cy, ly, hy),
            ],
            first: case_term(cx, lx, hx),
            second: case_term(cy, ly, hy),
            third: Linear { a: f as i64, b: (-(f * s.center.z)) as i64 },
            bound: (f * f) * (s.radius * s.radius),
        }
    }

    /// In one of the nine cases some point of cell `(i, j, k)` lies within
    /// the sphere.
    pub open spec fn near_enough(&self, s: Sphere, i: int, j: int, k: int) -> bool {
        exists|cx: int, cy: int|
            0 <= cx < 3 && 0 <= cy < 3 && (#[trigger] self.question(s, i, j, k, cx, cy)).solvable()
    }

    /// The question of one case, ready for an answer.
    fn problem(&self, s: &Sphere, i: u32, j: u32, k: u32, cx: u8, cy: u8) -> (p: Problem)
        requires
            self.wf(),
            s.wf(),
            self.dims.has_cell(i as int, j as int, k as int),
            cx < 3,
            cy < 3,
        ensures
            p@ == self.question(*s, i as int, j as int, k as int, cx as int, cy as int),
            p@.wf(),
    {
        let w: i64 = self.camera.width as i64;
        let h: i64 = self.camera.height as i64;
        let lx: Linear = self.camera.side_form(2 * (self.column_start_exec(i) as i64) - w, s.center.x);
        let hx: Linear = self.camera.side_form(
            2 * (self.column_start_exec(i + 1) as i64) - w,
            s.center.x,
        ).negated();
        let ly: Linear = self.camera.side_form(2 * (self.row_start_exec(j) as i64) - h, s.center.y);
        let hy: Linear = self.camera.side_form(
            2 * (self.row_start_exec(j + 1) as i64) - h,
            s.center.y,
        ).negated();
        let f: i64 = match self.camera.projection {
            Projection::Perspective { focal } => 2 * (focal as i64),
            Projection::Orthographic { pixels, units } => 2 * (pixels as i64),
        };
        let zero = Linear { a: 0, b: 0 };
        let (x1, x2, tx) = if cx == 0 {
            (lx, lx, lx)
        } else if cx == 2 {
            (hx, hx, hx)
        } else {
            (lx.negated(), hx.negated(), zero)
        };
        let (y1, y2, ty) = if cy == 0 {
            (ly, ly, ly)
        } else if cy == 2 {
            (hy, hy, hy)
        } else {
            (ly.negated(), hy.negated(), zero)
        };
        let r: i128 = s.radius as i128;
        proof {
            crate::geometry::lemma_product_bound(f as int, s.center.z as int, 0x1_0000, 0x10_0000);
            crate::geometry::lemma_product_bound(f as int, f as int, 0x1_0000, 0x1_0000);
            crate::geometry::lemma_product_bound(r as int, r as int, 0x10_0000, 0x10_0000);
            crate::geometry::lemma_product_bound(f * f, r * r, 0x1_0000_0000, 0x100_0000_0000);
            assert(f * f >= 0 && r * r >= 0) by (nonlinear_arith);
            assert((f * f) * (r * r) >= 0) by (nonlinear_arith)
                requires
                    f * f >= 0,
                    r * r >= 0,
            ;
        }
        let from = Linear { a: 1, b: -(self.slices.bound(k) as i64) };
        let to = Linear { a: -1, b: self.slices.bound(k + 1) as i64 };
        let conditions: Vec<Linear> = vec![
            from,
            to,
            x1,
            x2,
            y1,
            y2,
        ];
        let p = Problem {
            conditions,
            first: tx,
            second: ty,
            third: Linear { a: f, b: -(f * (s.center.z as i64)) },
            bound: ((f as i128) * (f as i128)) * (r * r),
        };
        proof {
            let q = self.question(*s, i as int, j as int, k as int, cx as int, cy as int);
            assert(p@.conditions =~= q.conditions);
        }
        p
    }

    /// Whether, in one of the nine cases, some point of cell `(i, j, k)`
    /// lies within the sphere.
    pub fn is_near_enough(&self, s: &Sphere, i: u32, j: u32, k: u32) -> (r: bool)
        requires
            self.wf(),
            s.wf(),
            self.dims.has_cell(i as int, j as int, k as int),
        ensures
            r == self.near_enough(*s, i as int, j as int, k as int),
    {
        let mut cx: u8 = 0;
        while cx < 3
            invariant
                cx <= 3,
                self.wf(),
                s.wf(),
                self.dims.has_cell(i as int, j as int, k as int),
                forall|a: int, b: int|
                    0 <= a < cx && 0 <= b < 3 ==> !(#[trigger] self.question(
                        *s,
                        i as int,
                        j as int,
                        k as int,
                        a,
                        b,
                    )).solvable(),
            decreases 3 - cx,
        {
            let mut cy: u8 = 0;
            while cy < 3
                invariant
                    cy <= 3,
                    cx < 3,
                    self.wf(),
                    s.wf(),
                    self.dims.has_cell(i as int, j as int, k as int),
                    forall|b: int|
                        0 <= b < cy ==> !(#[trigger] self.question(
                            *s,
                            i as int,
                            j as int,
                            k as int,
                            cx as int,
                            b,
                        )).solvable(),
                decreases 3 - cy,
            {
                let p: Problem = self.problem(s, i, j, k, cx, cy);
                if p.has_answer_exec() {
                    return true;
                }
                cy = cy + 1;
            }
            cx = cx + 1;
        }
        false
    }
}

/// What the opposite of a form comes to.
proof fn lemma_negated_at(f: Linear, n: int, d: int)
    requires
        f.wf(),
    ensures
        f.negated().at(n, d) == -f.at(n, d),
{
    assert((-f.a) * n == -(f.a * n)) by (nonlinear_arith);
    assert((-f.b) * d == -(f.b * d)) by (nonlinear_arith);
}

/// The square of a product.
proof fn lemma_square_of_product(f: int, v: int)
    by (nonlinear_arith)
    ensures
        (f * v) * (f * v) == (f * f) * (v * v),
{
}

/// A product with a positive factor has the sign of the other factor, and
/// keeps the order of what it is taken of.
proof fn lemma_scaled_order(f: int, a: int, b: int)
    by (nonlinear_arith)
    requires
        f >= 1,
    ensures
        (f * a >= f * b) == (a >= b),
        (f * a >= 0) == (a >= 0),
{
}

impl Grid {
    /// What the forms of the sides of a cell come to at a depth, and how
    /// the sides lie to one another.
    proof fn lemma_sides(&self, s: Sphere, i: int, j: int, n: int, d: int)
        requires
            self.wf(),
            s.wf(),
            0 <= i < self.dims.x,
            0 <= j < self.dims.y,
        ensures
            ({
                let cam = self.camera;
                let (f, w) = (cam.spread(), cam.weight(n, d));
                let (a0, a1) = (
                    2 * self.column_start(i) - cam.width,
                    2 * self.column_start(i + 1) - cam.width,
                );
                let (b0, b1) = (
                    2 * self.row_start(j) - cam.height,
                    2 * self.row_start(j + 1) - cam.height,
                );
                &&& 2 <= f <= 0x1_0000
                &&& a0 <= a1
                &&& b0 <= b1
                &&& 0 <= self.column_start(i) <= self.column_start(i + 1) <= cam.width
                &&& 0 <= self.row_start(j) <= self.row_start(j + 1) <= cam.height
                &&& self.low_x(s, i).wf() && self.high_x(s, i).wf()
                &&& self.low_y(s, j).wf() && self.high_y(s, j).wf()
                &&& self.low_x(s, i).at(n, d) == a0 * w - (f * s.center.x) * d
                &&& self.high_x(s, i).at(n, d) == (f * s.center.x) * d - a1 * w
                &&& self.low_y(s, j).at(n, d) == b0 * w - (f * s.center.y) * d
                &&& self.high_y(s, j).at(n, d) == (f * s.center.y) * d - b1 * w
                &&& self.low_x(s, i).negated().at(n, d) == -self.low_x(s, i).at(n, d)
                &&& self.high_x(s, i).negated().at(n, d) == -self.high_x(s, i).at(n, d)
                &&& self.low_y(s, j).negated().at(n, d) == -self.low_y(s, j).at(n, d)
                &&& self.high_y(s, j).negated().at(n, d) == -self.high_y(s, j).at(n, d)
            }),
    {
        let cam = self.camera;
        lemma_tile_starts(i, cam.width as int, self.dims.x as int);
        lemma_tile_starts(j, cam.height as int, self.dims.y as int);
        let (a0, a1) = (
            2 * self.column_start(i) - cam.width,
            2 * self.column_start(i + 1) - cam.width,
        );
        let (b0, b1) = (2 * self.row_start(j) - cam.height, 2 * self.row_start(j + 1) - cam.height);
        cam.lemma_side_form_at(a0, s.center.x as int, n, d);
        cam.lemma_side_form_at(a1, s.center.x as int, n, d);
        cam.lemma_side_form_at(b0, s.center.y as int, n, d);
        cam.lemma_side_form_at(b1, s.center.y as int, n, d);
        lemma_side_form_wf(cam, a0, s.center.x as int);
        lemma_side_form_wf(cam, a1, s.center.x as int);
        lemma_side_form_wf(cam, b0, s.center.y as int);
        lemma_side_form_wf(cam, b1, s.center.y as int);
        lemma_negated_at(cam.spec_side_form(a1, s.center.x as int), n, d);
        lemma_negated_at(cam.spec_side_form(b1, s.center.y as int), n, d);
        lemma_negated_at(self.low_x(s, i), n, d);
        lemma_negated_at(self.high_x(s, i), n, d);
        lemma_negated_at(self.low_y(s, j), n, d);
        lemma_negated_at(self.high_y(s, j), n, d);
    }

    /// An answer to the question of a case names a point that the sphere
    /// and the cell share.
    pub proof fn lemma_case_gives_point(
        &self,
        s: Sphere,
        i: int,
        j: int,
        k: int,
        cx: int,
        cy: int,
        n: int,
        d: int,
    )
        requires
            self.wf(),
            s.wf(),
            self.dims.has_cell(i, j, k),
            0 <= cx < 3,
            0 <= cy < 3,
            self.question(s, i, j, k, cx, cy).feasible(n, d),
            self.question(s, i, j, k, cx, cy).dips(n, d),
        ensures
            shares_point(s, self.cell_volume(i, j, k)),
    {
        let q = self.question(s, i, j, k, cx, cy);
        let cam = self.camera;
        let (f, w) = (cam.spread(), cam.weight(n, d));
        let c = s.center;
        let (z0, z1) = (self.slices@[k] as int, self.slices@[k + 1] as int);
        self.lemma_sides(s, i, j, n, d);
        let (x0, x1) = (self.column_start(i), self.column_start(i + 1));
        let (y0, y1) = (self.row_start(j), self.row_start(j + 1));
        let (a0, a1) = (2 * x0 - cam.width, 2 * x1 - cam.width);
        let (b0, b1) = (2 * y0 - cam.height, 2 * y1 - cam.height);
        assert(q.conditions[0].at(n, d) >= 0 && q.conditions[1].at(n, d) >= 0);
        assert(q.conditions[2].at(n, d) >= 0 && q.conditions[3].at(n, d) >= 0);
        assert(q.conditions[4].at(n, d) >= 0 && q.conditions[5].at(n, d) >= 0);
        assert(q.conditions[0].at(n, d) == n - z0 * d) by (nonlinear_arith)
            requires
                q.conditions[0].at(n, d) == 1 * n + (-z0) * d,
        ;
        assert(q.conditions[1].at(n, d) == z1 * d - n) by (nonlinear_arith)
            requires
                q.conditions[1].at(n, d) == (-1) * n + z1 * d,
        ;
        assert(self.slices@[0] <= self.slices@[k]);
        match cam.projection {
            Projection::Perspective { focal } => {
                assert(z0 * d >= 1) by (nonlinear_arith)
                    requires
                        z0 >= 1,
                        d >= 1,
                ;
            },
            Projection::Orthographic { pixels, units } => {
                assert(units * d >= 1) by (nonlinear_arith)
                    requires
                        units >= 1,
                        d >= 1,
                ;
            },
        }
        assert(w >= 1);
        // the point nearest to the centre at the depth n / d
        let px = if cx == 0 {
            a0 * w
        } else if cx == 2 {
            a1 * w
        } else {
            (f * c.x) * d
        };
        let py = if cy == 0 {
            b0 * w
        } else if cy == 2 {
            b1 * w
        } else {
            (f * c.y) * d
        };
        let (pz, pd) = (f * n, f * d);
        assert(pd >= 1) by (nonlinear_arith)
            requires
                pd == f * d,
                f >= 2,
                d >= 1,
        ;
        assert(a0 * w <= px <= a1 * w && b0 * w <= py <= b1 * w) by (nonlinear_arith)
            requires
                a0 <= a1,
                b0 <= b1,
                w >= 1,
                px == a0 * w || px == a1 * w || (a0 * w <= px <= a1 * w),
                py == b0 * w || py == b1 * w || (b0 * w <= py <= b1 * w),
        ;
        let fw = cam.weight(pz, pd);
        match cam.projection {
            Projection::Perspective { focal } => {},
            Projection::Orthographic { pixels, units } => {
                assert(units * (f * d) == f * (units * d)) by (nonlinear_arith);
            },
        }
        assert(fw == f * w);
        cam.lemma_edge_holds(true, cam.width as int, x0, px, py, pz, pd);
        cam.lemma_edge_holds(true, cam.width as int, x1, px, py, pz, pd);
        cam.lemma_edge_holds(false, cam.height as int, y0, px, py, pz, pd);
        cam.lemma_edge_holds(false, cam.height as int, y1, px, py, pz, pd);
        lemma_depth_holds(z0, px, py, pz, pd);
        lemma_depth_holds(z1, px, py, pz, pd);
        lemma_into3(a0, f, w);
        lemma_into3(a1, f, w);
        lemma_into3(b0, f, w);
        lemma_into3(b1, f, w);
        lemma_scaled_order(f, px, a0 * w);
        lemma_scaled_order(f, a1 * w, px);
        lemma_scaled_order(f, py, b0 * w);
        lemma_scaled_order(f, b1 * w, py);
        lemma_into3(z0, f, d);
        lemma_into3(z1, f, d);
        lemma_scaled_order(f, n, z0 * d);
        lemma_scaled_order(f, z1 * d, n);
        assert(self.cell_volume(i, j, k).holds(px, py, pz, pd));
        // it lies within the sphere
        let (tx, ty, tz) = (q.first.at(n, d), q.second.at(n, d), q.third.at(n, d));
        let (vx, vy, vz) = (px - pd * c.x, py - pd * c.y, pz - pd * c.z);
        lemma_into3(c.x as int, f, d);
        lemma_into3(c.y as int, f, d);
        lemma_into3(c.z as int, f, d);
        assert(0 * n == 0 && 0 * d == 0);
        assert(vx == tx || vx == -tx);
        assert(vy == ty || vy == -ty);
        crate::geometry::lemma_product_bound(f, c.z as int, 0x1_0000, 0x10_0000);
        assert((-(f * c.z)) * d == -((f * c.z) * d)) by (nonlinear_arith);
        assert(vz == tz);
        assert(vx * vx == tx * tx) by (nonlinear_arith)
            requires
                vx == tx || vx == -tx,
        ;
        assert(vy * vy == ty * ty) by (nonlinear_arith)
            requires
                vy == ty || vy == -ty,
        ;
        let r = s.radius as int;
        lemma_square_of_product(f, d);
        lemma_pairs4(f, d, r, r);
        assert((pd * r) * (pd * r) == ((f * f) * (r * r)) * (d * d)) by (nonlinear_arith)
            requires
                pd == f * d,
                (f * d) * (f * d) == (f * f) * (d * d),
        ;
        crate::geometry::lemma_product_bound(f, f, 0x1_0000, 0x1_0000);
        crate::geometry::lemma_product_bound(r, r, 0x10_0000, 0x10_0000);
        crate::geometry::lemma_product_bound(f * f, r * r, 0x1_0000_0000, 0x100_0000_0000);
        assert(s.holds(px, py, pz, pd));
    }

    /// A point that the sphere and the cell share answers the question of
    /// one of the nine cases.
    pub proof fn lemma_point_gives_case(
        &self,
        s: Sphere,
        i: int,
        j: int,
        k: int,
        x: int,
        y: int,
        z: int,
        d: int,
    )
        requires
            self.wf(),
            s.wf(),
            self.dims.has_cell(i, j, k),
            d >= 1,
            self.cell_volume(i, j, k).holds(x, y, z, d),
            s.holds(x, y, z, d),
        ensures
            self.near_enough(s, i, j, k),
    {
        let cam = self.camera;
        let (f, w) = (cam.spread(), cam.weight(z, d));
        let c = s.center;
        let (z0, z1) = (self.slices@[k] as int, self.slices@[k + 1] as int);
        self.lemma_sides(s, i, j, z, d);
        let (x0, x1) = (self.column_start(i), self.column_start(i + 1));
        let (y0, y1) = (self.row_start(j), self.row_start(j + 1));
        let (a0, a1) = (2 * x0 - cam.width, 2 * x1 - cam.width);
        let (b0, b1) = (2 * y0 - cam.height, 2 * y1 - cam.height);
        cam.lemma_edge_holds(true, cam.width as int, x0, x, y, z, d);
        cam.lemma_edge_holds(true, cam.width as int, x1, x, y, z, d);
        cam.lemma_edge_holds(false, cam.height as int, y0, x, y, z, d);
        cam.lemma_edge_holds(false, cam.height as int, y1, x, y, z, d);
        lemma_depth_holds(z0, x, y, z, d);
        lemma_depth_holds(z1, x, y, z, d);
        let (lx, hx) = (self.low_x(s, i).at(z, d), self.high_x(s, i).at(z, d));
        let (ly, hy) = (self.low_y(s, j).at(z, d), self.high_y(s, j).at(z, d));
        let cx: int = if lx > 0 {
            0
        } else if hx > 0 {
            2
        } else {
            1
        };
        let cy: int = if ly > 0 {
            0
        } else if hy > 0 {
            2
        } else {
            1
        };
        let q = self.question(s, i, j, k, cx, cy);
        assert(q.conditions[0].at(z, d) == z - z0 * d) by (nonlinear_arith)
            requires
                q.conditions[0].at(z, d) == 1 * z + (-z0) * d,
        ;
        assert(q.conditions[1].at(z, d) == z1 * d - z) by (nonlinear_arith)
            requires
                q.conditions[1].at(z, d) == (-1) * z + z1 * d,
        ;
        assert forall|t: int| 0 <= t < q.conditions.len() implies (#[trigger] q.conditions[t]).at(
            z,
            d,
        ) >= 0 by {
            assert(t == 0 || t == 1 || t == 2 || t == 3 || t == 4 || t == 5);
        }
        assert(q.feasible(z, d));
        // the terms are no greater than the way from the centre to the point
        let (tx, ty, tz) = (q.first.at(z, d), q.second.at(z, d), q.third.at(z, d));
        let (vx, vy, vz) = (x - d * c.x, y - d * c.y, z - d * c.z);
        lemma_spread2(f, x, d * c.x);
        lemma_spread2(f, y, d * c.y);
        lemma_spread2(f, z, d * c.z);
        lemma_into3(c.x as int, d, f);
        lemma_into3(c.y as int, d, f);
        lemma_into3(c.z as int, d, f);
        assert(f * (d * c.x) == (f * c.x) * d) by (nonlinear_arith);
        assert(f * (d * c.y) == (f * c.y) * d) by (nonlinear_arith);
        assert(f * (d * c.z) == (f * c.z) * d) by (nonlinear_arith);
        assert(0 * z == 0 && 0 * d == 0);
        let (fx, fy, fz) = (f * vx, f * vy, f * vz);
        assert((0 <= tx <= fx) || (fx <= -tx <= 0) || tx == 0);
        assert((0 <= ty <= fy) || (fy <= -ty <= 0) || ty == 0);
        crate::geometry::lemma_product_bound(f, c.z as int, 0x1_0000, 0x10_0000);
        assert((-(f * c.z)) * d == -((f * c.z) * d)) by (nonlinear_arith);
        assert(tz == fz);
        assert(tx * tx <= fx * fx) by (nonlinear_arith)
            requires
                (0 <= tx <= fx) || (fx <= -tx <= 0) || tx == 0,
        ;
        assert(ty * ty <= fy * fy) by (nonlinear_arith)
            requires
                (0 <= ty <= fy) || (fy <= -ty <= 0) || ty == 0,
        ;
        lemma_square_of_product(f, vx);
        lemma_square_of_product(f, vy);
        lemma_square_of_product(f, vz);
        let r = s.radius as int;
        let (ss, rr) = (vx * vx + vy * vy + vz * vz, (d * r) * (d * r));
        assert(ss <= rr);
        let ff = f * f;
        assert(ff * (vx * vx) + ff * (vy * vy) + ff * (vz * vz) == ff * ss) by (nonlinear_arith)
            requires
                ss == vx * vx + vy * vy + vz * vz,
        ;
        assert(ff * ss <= ff * rr) by (nonlinear_arith)
            requires
                ss <= rr,
                ff >= 0,
        {
        }
        assert(ff >= 0) by (nonlinear_arith)
            requires
                ff == f * f,
        ;
        lemma_pairs4(d, r, d, r);
        assert(ff * rr == (ff * (r * r)) * (d * d)) by (nonlinear_arith)
            requires
                rr == (d * r) * (d * r),
                (d * r) * (d * r) == (d * d) * (r * r),
        ;
        crate::geometry::lemma_product_bound(f, f, 0x1_0000, 0x1_0000);
        crate::geometry::lemma_product_bound(r, r, 0x10_0000, 0x10_0000);
        crate::geometry::lemma_product_bound(ff, r * r, 0x1_0000_0000, 0x100_0000_0000);
        assert(q.dips(z, d));
        assert(q.solvable());
    }

    /// The exact test is exact: it finds a case with an answer exactly when
    /// the sphere and the cell share a point.
    pub proof fn lemma_near_enough_is_exact(&self, s: Sphere, i: int, j: int, k: int)
        requires
            self.wf(),
            s.wf(),
            self.dims.has_cell(i, j, k),
        ensures
            self.near_enough(s, i, j, k) == shares_point(s, self.cell_volume(i, j, k)),
    {
        if self.near_enough(s, i, j, k) {
            let (cx, cy) = choose|cx: int, cy: int|
                0 <= cx < 3 && 0 <= cy < 3 && (#[trigger] self.question(
                    s,
                    i,
                    j,
                    k,
                    cx,
                    cy,
                )).solvable();
            let q = self.question(s, i, j, k, cx, cy);
            let (n, d) = choose|n: int, d: int| #[trigger] q.feasible(n, d) && q.dips(n, d);
            self.lemma_case_gives_point(s, i, j, k, cx, cy, n, d);
        }
        if shares_point(s, self.cell_volume(i, j, k)) {
            let f = self.cell_volume(i, j, k);
            let (x, y, z, d) = choose|x: int, y: int, z: int, d: int|
                d >= 1 && #[trigger] f.holds(x, y, z, d) && s.holds(x, y, z, d);
            self.lemma_point_gives_case(s, i, j, k, x, y, z, d);
        }
    }
}

/// The forms of the sides are within their limits.
proof fn lemma_side_form_wf(cam: Camera, slant: int, c: int)
    requires
        cam.wf(),
        -0x4000 <= slant <= 0x4000,
        -0x10_0000 <= c <= 0x10_0000,
    ensures
        cam.spec_side_form(slant, c).wf(),
        cam.spec_side_form(slant, c).negated().wf(),
{
    match cam.projection {
        Projection::Perspective { focal } => {
            crate::geometry::lemma_product_bound(2 * focal, c, 0x1_0000, 0x10_0000);
        },
        Projection::Orthographic { pixels, units } => {
            crate::geometry::lemma_product_bound(2 * pixels, c, 0x1_0000, 0x10_0000);
            crate::geometry::lemma_product_bound(slant, units as int, 0x4000, 0x10_0000);
        },
    }
}

/// Three factors can be taken in any order.
proof fn lemma_into3(a: int, b: int, c: int)
    by (nonlinear_arith)
    ensures
        a * (b * c) == b * (a * c),
        a * (b * c) == (a * b) * c,
        a * (b * c) == (b * a) * c,
        a * (b * c) == c * (a * b),
{
}

/// A factor can be taken into a difference.
proof fn lemma_spread2(f: int, a: int, b: int)
    by (nonlinear_arith)
    ensures
        f * (a - b) == f * a - f * b,
{
}

/// Four factors can be paired in any way.
proof fn lemma_pairs4(a: int, b: int, c: int, d: int)
    by (nonlinear_arith)
    ensures
        (a * b) * (c * d) == (a * c) * (b * d),
{
}

impl Grid {
    /// Every cell lies in the camera's frustum: a point of the volume of a
    /// cell is a point of the frustum.
    pub proof fn lemma_cell_point_is_seen(
        &self,
        i: int,
        j: int,
        k: int,
        x: int,
        y: int,
        z: int,
        d: int,
    )
        requires
            self.wf(),
            self.dims.has_cell(i, j, k),
            d >= 1,
            self.cell_volume(i, j, k).holds(x, y, z, d),
        ensures
            self.camera.frustum().holds(x, y, z, d),
    {
        let cam = self.camera;
        let (w, h) = (cam.width as int, cam.height as int);
        let n = self.dims.z as int;
        lemma_tile_starts(i, w, self.dims.x as int);
        lemma_tile_starts(j, h, self.dims.y as int);
        let (x0, x1) = (self.column_start(i), self.column_start(i + 1));
        let (y0, y1) = (self.row_start(j), self.row_start(j + 1));
        let (z0, z1) = (self.slices@[k] as int, self.slices@[k + 1] as int);
        cam.lemma_edge_holds(true, w, x0, x, y, z, d);
        cam.lemma_edge_holds(true, w, x1, x, y, z, d);
        cam.lemma_edge_holds(false, h, y0, x, y, z, d);
        cam.lemma_edge_holds(false, h, y1, x, y, z, d);
        cam.lemma_edge_holds(true, w, 0, x, y, z, d);
        cam.lemma_edge_holds(true, w, w, x, y, z, d);
        cam.lemma_edge_holds(false, h, 0, x, y, z, d);
        cam.lemma_edge_holds(false, h, h, x, y, z, d);
        lemma_depth_holds(z0, x, y, z, d);
        lemma_depth_holds(z1, x, y, z, d);
        lemma_depth_holds(cam.near as int, x, y, z, d);
        lemma_depth_holds(cam.far as int, x, y, z, d);
        lemma_split_bound_range(self.scheme, cam.near as int, cam.far as int, n, 0);
        lemma_split_bound_range(self.scheme, cam.near as int, cam.far as int, n, n);
        assert(self.slices@[0] <= self.slices@[k]);
        assert(self.slices@[k + 1] <= self.slices@[n]);
        let (near, far) = (cam.near as int, cam.far as int);
        assert(near * d <= z0 * d && z1 * d <= far * d && z0 * d >= 0) by (nonlinear_arith)
            requires
                0 <= near <= z0,
                z1 <= far,
                d >= 1,
        ;
        let wt = cam.weight(z, d);
        match cam.projection {
            Projection::Perspective { focal } => {},
            Projection::Orthographic { pixels, units } => {
                assert(units * d >= 0) by (nonlinear_arith)
                    requires
                        units >= 1,
                        d >= 1,
                ;
            },
        }
        assert(wt >= 0);
        assert((2 * 0 - w) * wt <= (2 * x0 - w) * wt && (2 * x1 - w) * wt <= (2 * w - w) * wt)
            by (nonlinear_arith)
            requires
                0 <= x0,
                x1 <= w,
                wt >= 0,
        ;
        assert((2 * 0 - h) * wt <= (2 * y0 - h) * wt && (2 * y1 - h) * wt <= (2 * h - h) * wt)
            by (nonlinear_arith)
            requires
                0 <= y0,
                y1 <= h,
                wt >= 0,
        ;
    }

    /// A light that reaches a cell passes every test of the planes: the
    /// camera may see it, it touches the column, the row and the slice of
    /// the cell, and it shares a point with the camera's frustum.
    pub proof fn lemma_reach_is_seen(&self, s: Sphere, i: int, j: int, k: int)
        requires
            self.wf(),
            self.dims.has_cell(i, j, k),
            self.reaches(s, i, j, k),
        ensures
            shares_point(s, self.camera.frustum()),
            self.may_see(s),
            self.column_touched(s, i),
            self.row_touched(s, j),
            self.slice_touched(s, k),
    {
        let f = self.cell_volume(i, j, k);
        lemma_shared_point_touches(f, s);
        let (x, y, z, d) = choose|x: int, y: int, z: int, d: int|
            d >= 1 && #[trigger] f.holds(x, y, z, d) && s.holds(x, y, z, d);
        self.lemma_cell_point_is_seen(i, j, k, x, y, z, d);
        assert(self.camera.frustum().holds(x, y, z, d));
        lemma_shared_point_touches(self.camera.frustum(), s);
    }
}

} // verus!
