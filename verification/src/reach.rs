//! What the assignment guarantees: no light is missed where it shines, a
//! light inside one cell stays near that cell, and every point that is
//! shaded finds the lights that reach it.

use crate::assign::ClusterableObject;
use crate::cluster::{
    lemma_cell_at_index, lemma_index_of_cell_at, lemma_sample_in_one_cell,
    lemma_tile_start_increasing, lemma_tile_starts, Grid,
};
use crate::depth::lemma_split_bound_range;
use crate::geometry::{lemma_flipped_eval, lemma_shared_point_touches, IVec3, Sphere};
use crate::planes::{lemma_depth_plane_at, lemma_depth_plane_eval, lemma_root_order};
use vstd::prelude::*;

verus! {

impl Grid {
    /// A sphere that lies wholly inside cell `(i, j, k)` reaches that cell,
    /// and reaches no cell that is more than one step away from it along
    /// any axis.
    pub proof fn lemma_enclosed_light(
        &self,
        s: Sphere,
        i: int,
        j: int,
        k: int,
        a: int,
        b: int,
        c: int,
    )
        requires
            self.wf(),
            s.wf(),
            self.dims.has_cell(i, j, k),
            self.cell_volume(i, j, k).encloses_sphere(s),
            self.dims.has_cell(a, b, c),
        ensures
            self.reaches(s, i, j, k),
            self.reaches(s, a, b, c) ==> {
                &&& i - 1 <= a <= i + 1
                &&& j - 1 <= b <= j + 1
                &&& k - 1 <= c <= k + 1
            },
    {
        let cam = self.camera;
        let (w, h) = (cam.width as int, cam.height as int);
        let (x, y, z) = (self.dims.x as int, self.dims.y as int, self.dims.z as int);
        let r = s.radius as int;
        let cz = s.center.z as int;
        let own = self.cell_volume(i, j, k);
        let other_volume = self.cell_volume(a, b, c);
        // The sphere lies in front of the eye, between the boundaries of slice k.
        lemma_depth_plane_eval(self.slices@[k] as int, s);
        lemma_depth_plane_eval(self.slices@[k + 1] as int, s);
        assert((r * r) * 1 == r * r) by (nonlinear_arith);
        lemma_root_order(cz - self.slices@[k], r);
        lemma_root_order(self.slices@[k + 1] - cz, r);
        assert(self.slices@[0] <= self.slices@[k]);
        assert(self.slices@[k + 1] <= self.slices@[z]);
        assert(cz > r);
        lemma_tile_starts(i, w, x);
        lemma_tile_starts(j, h, y);
        let (x0, x1) = (self.column_start(i), self.column_start(i + 1));
        let (y0, y1) = (self.row_start(j), self.row_start(j + 1));
        // The camera sees the sphere.
        lemma_depth_plane_eval(cam.near as int, s);
        lemma_depth_plane_eval(cam.far as int, s);
        lemma_split_bound_range(self.scheme, cam.near as int, cam.far as int, z, 0);
        lemma_split_bound_range(self.scheme, cam.near as int, cam.far as int, z, z);
        cam.lemma_edge_plane_eval(true, w, 0, s);
        cam.lemma_edge_plane_eval(true, w, w, s);
        cam.lemma_edge_plane_eval(false, h, 0, s);
        cam.lemma_edge_plane_eval(false, h, h, s);
        lemma_flipped_eval(cam.column_plane(w), s.center);
        lemma_flipped_eval(cam.row_plane(h), s.center);
        lemma_flipped_eval(cam.column_plane(0), s.center);
        lemma_flipped_eval(cam.row_plane(0), s.center);
        if x0 > 0 {
            cam.lemma_wholly_beyond_edge(true, w, s, x0, 0);
        }
        if x1 < w {
            cam.lemma_wholly_before_edge(true, w, s, x1, w);
        }
        if y0 > 0 {
            cam.lemma_wholly_beyond_edge(false, h, s, y0, 0);
        }
        if y1 < h {
            cam.lemma_wholly_before_edge(false, h, s, y1, h);
        }
        // the centre of the sphere is a point of its cell
        let o = s.center;
        assert(o.x - 1 * o.x == 0 && o.y - 1 * o.y == 0 && o.z - 1 * o.z == 0);
        assert(s.holds(o.x as int, o.y as int, o.z as int, 1)) by {
            assert(0 * 0 == 0);
            assert((1 * s.radius) * (1 * s.radius) >= 0) by (nonlinear_arith);
        }
        assert(own.holds(o.x as int, o.y as int, o.z as int, 1)) by {
            assert(own.left.offset * 1 == own.left.offset);
            assert(own.right.offset * 1 == own.right.offset);
            assert(own.top.offset * 1 == own.top.offset);
            assert(own.bottom.offset * 1 == own.bottom.offset);
            assert(own.near.offset * 1 == own.near.offset);
            assert(own.far.offset * 1 == own.far.offset);
        }
        assert(self.reaches(s, i, j, k));
        if self.reaches(s, a, b, c) {
            lemma_shared_point_touches(other_volume, s);
        }
        // Cells two or more steps away are out of reach.
        let other = self.cell_volume(a, b, c);
        assert(other == other_volume);
        if a >= i + 2 {
            lemma_tile_start_increasing(i + 1, a, w, x);
            lemma_tile_starts(a, w, x);
            cam.lemma_wholly_before_edge(true, w, s, x1, self.column_start(a));
            assert(other.left.sphere_behind(s));
        }
        if a <= i - 2 {
            lemma_tile_start_increasing(a + 1, i, w, x);
            lemma_tile_starts(a, w, x);
            cam.lemma_wholly_beyond_edge(true, w, s, x0, self.column_start(a + 1));
            assert(other.right.sphere_behind(s));
        }
        if b >= j + 2 {
            lemma_tile_start_increasing(j + 1, b, h, y);
            lemma_tile_starts(b, h, y);
            cam.lemma_wholly_before_edge(false, h, s, y1, self.row_start(b));
            assert(other.top.sphere_behind(s));
        }
        if b <= j - 2 {
            lemma_tile_start_increasing(b + 1, j, h, y);
            lemma_tile_starts(b, h, y);
            cam.lemma_wholly_beyond_edge(false, h, s, y0, self.row_start(b + 1));
            assert(other.bottom.sphere_behind(s));
        }
        if c >= k + 2 {
            lemma_depth_plane_eval(self.slices@[c] as int, s);
            let e = cz - self.slices@[c];
            assert(self.slices@[k + 1] < self.slices@[c]);
            assert(e * e > r * r) by (nonlinear_arith)
                requires
                    e < -r,
                    r >= 1,
            ;
            assert(other.near.sphere_behind(s));
        }
        if c <= k - 2 {
            lemma_depth_plane_eval(self.slices@[c + 1] as int, s);
            let e = self.slices@[c + 1] - cz;
            assert(self.slices@[c + 1] < self.slices@[k]);
            assert(e * e > r * r) by (nonlinear_arith)
                requires
                    e < -r,
                    r >= 1,
            ;
            assert(other.far.sphere_behind(s));
        }
    }
}

impl Grid {
    /// A light that was taken and lies wholly inside cell `(i, j, k)` is
    /// in the list of that cell, and in the list of no cell that is more
    /// than one step away from it along any axis.
    pub proof fn lemma_enclosed_light_is_listed_nearby(
        &self,
        lights: Seq<ClusterableObject>,
        capacity: int,
        n: u32,
        i: int,
        j: int,
        k: int,
        c: int,
    )
        requires
            self.wf(),
            lights.len() <= u32::MAX,
            n < lights.len(),
            lights[n as int].sphere.wf(),
            self.accepted(lights, capacity, n as int),
            self.dims.has_cell(i, j, k),
            self.cell_volume(i, j, k).encloses_sphere(lights[n as int].sphere),
            0 <= c < self.dims.spec_cell_count(),
        ensures
            self.cell_list(
                lights,
                capacity,
                self.dims.spec_index(i, j, k),
                lights.len() as int,
            ).contains(n),
            self.cell_list(lights, capacity, c, lights.len() as int).contains(n) ==> ({
                let (a, b, d) = self.dims.cell_at(c);
                &&& i - 1 <= a <= i + 1
                &&& j - 1 <= b <= j + 1
                &&& k - 1 <= d <= k + 1
            }),
    {
        let s = lights[n as int].sphere;
        let home = self.dims.spec_index(i, j, k);
        let (a, b, d) = self.dims.cell_at(c);
        lemma_cell_at_index(self.dims, i, j, k);
        lemma_index_of_cell_at(self.dims, c);
        self.lemma_enclosed_light(s, i, j, k, a, b, d);
        self.lemma_cell_list_members(lights, capacity, home, lights.len() as int, n);
        self.lemma_cell_list_members(lights, capacity, c, lights.len() as int, n);
    }
}

impl Grid {
    /// Every cell lies in the camera's frustum: a point of the volume of a
    /// cell is a point that the camera sees.
    pub proof fn lemma_cells_lie_in_the_frustum(&self, i: int, j: int, k: int, q: IVec3)
        requires
            self.wf(),
            self.dims.has_cell(i, j, k),
            self.cell_volume(i, j, k).contains(q),
        ensures
            self.camera.frustum().contains(q),
    {
        let cam = self.camera;
        let (w, h) = (cam.width as int, cam.height as int);
        let z = self.dims.z as int;
        lemma_tile_starts(i, w, self.dims.x as int);
        lemma_tile_starts(j, h, self.dims.y as int);
        lemma_depth_plane_at(self.slices@[k] as int, q);
        lemma_depth_plane_at(self.slices@[k + 1] as int, q);
        lemma_depth_plane_at(cam.near as int, q);
        lemma_depth_plane_at(cam.far as int, q);
        lemma_split_bound_range(self.scheme, cam.near as int, cam.far as int, z, 0);
        lemma_split_bound_range(self.scheme, cam.near as int, cam.far as int, z, z);
        assert(self.slices@[0] <= self.slices@[k]);
        assert(self.slices@[k + 1] <= self.slices@[z]);
        cam.lemma_edges_are_ordered(true, w, q, self.column_start(i), 0);
        cam.lemma_edges_are_ordered(true, w, q, self.column_start(i + 1), w);
        cam.lemma_edges_are_ordered(false, h, q, self.row_start(j), 0);
        cam.lemma_edges_are_ordered(false, h, q, self.row_start(j + 1), h);
    }

    /// The assignment misses no light: a light whose sphere of influence
    /// shares a point with the volume of a cell reaches that cell.
    pub proof fn lemma_no_light_is_missed(&self, s: Sphere, i: int, j: int, k: int, q: IVec3)
        requires
            self.wf(),
            s.wf(),
            self.dims.has_cell(i, j, k),
            s.contains(q),
            self.cell_volume(i, j, k).contains(q),
        ensures
            self.reaches(s, i, j, k),
    {
        let f = self.cell_volume(i, j, k);
        let c = s.center;
        assert(f.left.offset * 1 == f.left.offset && f.right.offset * 1 == f.right.offset);
        assert(f.top.offset * 1 == f.top.offset && f.bottom.offset * 1 == f.bottom.offset);
        assert(f.near.offset * 1 == f.near.offset && f.far.offset * 1 == f.far.offset);
        assert(f.holds(q.x as int, q.y as int, q.z as int, 1));
        let (vx, vy, vz) = (q.x - c.x, q.y - c.y, q.z - c.z);
        assert(vx * vx == (c.x - q.x) * (c.x - q.x) && vy * vy == (c.y - q.y) * (c.y - q.y) && vz
            * vz == (c.z - q.z) * (c.z - q.z)) by (nonlinear_arith)
            requires
                vx == q.x - c.x,
                vy == q.y - c.y,
                vz == q.z - c.z,
        ;
        assert(1 * c.x == c.x && 1 * c.y == c.y && 1 * c.z == c.z && 1 * s.radius == s.radius);
        assert(s.holds(q.x as int, q.y as int, q.z as int, 1));
    }
}

impl Grid {
    /// The cell that `locate` names for the pixel and the depth of a point
    /// is a cell whose volume holds the point.
    pub proof fn lemma_located_cell_holds_the_point(&self, q: IVec3)
        requires
            self.wf(),
            self.camera.on_screen(q),
            self.camera.near <= q.z <= self.camera.far,
        ensures
            ({
                let px = self.camera.screen_coord(true, self.camera.width as int, q);
                let py = self.camera.screen_coord(false, self.camera.height as int, q);
                let (i, j, k) = self.spec_locate(px, py, q.z as int);
                self.dims.has_cell(i, j, k) && self.cell_volume(i, j, k).contains(q)
            }),
    {
        let cam = self.camera;
        let (w, h) = (cam.width as int, cam.height as int);
        let px = cam.screen_coord(true, w, q);
        let py = cam.screen_coord(false, h, q);
        let (i, j, k) = self.spec_locate(px, py, q.z as int);
        lemma_sample_in_one_cell(*self, px, py, q.z as int, i, j, k);
        lemma_tile_starts(i, w, self.dims.x as int);
        lemma_tile_starts(j, h, self.dims.y as int);
        cam.lemma_edge_plane_holds_pixels(true, w, self.column_start(i), q);
        cam.lemma_edge_plane_holds_pixels(true, w, self.column_start(i + 1), q);
        cam.lemma_edge_plane_holds_pixels(false, h, self.row_start(j), q);
        cam.lemma_edge_plane_holds_pixels(false, h, self.row_start(j + 1), q);
        lemma_depth_plane_at(self.slices@[k] as int, q);
        lemma_depth_plane_at(self.slices@[k + 1] as int, q);
    }
}

impl Grid {
    /// Shading finds every light: where a point that is shaded lies within
    /// reach of a light that was taken, the list of the point's cell names
    /// the light.
    pub proof fn lemma_shaded_point_finds_its_light(
        &self,
        lights: Seq<ClusterableObject>,
        capacity: int,
        n: u32,
        q: IVec3,
    )
        requires
            self.wf(),
            lights.len() <= u32::MAX,
            n < lights.len(),
            lights[n as int].sphere.wf(),
            lights[n as int].sphere.contains(q),
            self.accepted(lights, capacity, n as int),
            self.camera.on_screen(q),
            self.camera.near <= q.z <= self.camera.far,
        ensures
            self.cell_list(lights, capacity, self.spec_place_of(q), lights.len() as int).contains(
                n,
            ),
    {
        let px = self.camera.screen_coord(true, self.camera.width as int, q);
        let py = self.camera.screen_coord(false, self.camera.height as int, q);
        let (i, j, k) = self.spec_locate(px, py, q.z as int);
        self.lemma_located_cell_holds_the_point(q);
        self.lemma_no_light_is_missed(lights[n as int].sphere, i, j, k, q);
        lemma_cell_at_index(self.dims, i, j, k);
        self.lemma_cell_list_members(
            lights,
            capacity,
            self.spec_place_of(q),
            lights.len() as int,
            n,
        );
    }
}

} // verus!
