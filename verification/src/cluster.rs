//! The cluster grid of a camera: screen tiles times depth slices, and for
//! each cell the lights that reach into it.

use crate::camera::Camera;
use crate::depth::{
    lemma_slice_unique, lemma_split_bound_range, split_bound, valid_split, DepthSlices,
    SplitScheme, MAX_SLICES,
};
use crate::math::{
    ceil_div, ceil_sqrt, clamp, clamp_u32, isqrt_ceil, lemma_ceil_div_le_iff, lemma_ceil_sqrt,
    lemma_floor_div_iff,
};
use vstd::prelude::*;

verus! {

/// Largest number of tiles along one axis of the screen.
pub const MAX_TILES: u32 = 32;

/// How the dimensions of a camera's grid are chosen.
#[derive(Clone, Copy, Debug, PartialEq, Eq, Structural)]
pub enum ClusterConfig {
    /// One cluster for the whole view.
    Single,
    /// The given numbers of tiles and depth slices, each limited to what the
    /// viewport, the depth range and the platform allow.
    Fixed { x: u32, y: u32, z: u32 },
    /// The given number of depth slices, and tiles that are as square as
    /// the viewport allows and together come to at most `total` clusters.
    Auto { total: u32, z_slices: u32 },
}

/// The dimensions of a grid: tiles across, tiles down and depth slices.
#[derive(Clone, Copy, Debug, PartialEq, Eq, Structural)]
pub struct GridDims {
    pub x: u32,
    pub y: u32,
    pub z: u32,
}

impl GridDims {
    /// Every dimension is at least one and within its platform limit.
    pub open spec fn wf(self) -> bool {
        &&& 1 <= self.x <= MAX_TILES
        &&& 1 <= self.y <= MAX_TILES
        &&& 1 <= self.z <= MAX_SLICES
    }

    /// The number of cells.
    pub open spec fn spec_cell_count(self) -> int {
        self.x * self.y * self.z
    }

    /// The place of cell `(i, j, k)` in the grid's list of cells.
    pub open spec fn spec_index(self, i: int, j: int, k: int) -> int {
        (k * self.y + j) * self.x + i
    }

    /// `(i, j, k)` names a cell of the grid.
    pub open spec fn has_cell(self, i: int, j: int, k: int) -> bool {
        0 <= i < self.x && 0 <= j < self.y && 0 <= k < self.z
    }

    /// The number of cells.
    pub fn cell_count(&self) -> (n: usize)
        requires
            self.wf(),
        ensures
            n == self.spec_cell_count(),
            1 <= n <= 32768,
    {
        assert(1 <= self.x * self.y <= 1024) by (nonlinear_arith)
            requires
                1 <= self.x <= 32,
                1 <= self.y <= 32,
        ;
        assert(1 <= (self.x * self.y) * self.z <= 32768) by (nonlinear_arith)
            requires
                1 <= self.x * self.y <= 1024,
                1 <= self.z <= 32,
        ;
        (self.x as usize) * (self.y as usize) * (self.z as usize)
    }

    /// The place of cell `(i, j, k)` in the grid's list of cells.
    pub fn index(&self, i: u32, j: u32, k: u32) -> (n: usize)
        requires
            self.wf(),
            self.has_cell(i as int, j as int, k as int),
        ensures
            n == self.spec_index(i as int, j as int, k as int),
            n < self.spec_cell_count(),
    {
        proof {
            lemma_index_in_range(*self, i as int, j as int, k as int);
        }
        assert(0 <= k * self.y <= 992) by (nonlinear_arith)
            requires
                0 <= k < 32,
                1 <= self.y <= 32,
        ;
        assert(0 <= (k * self.y + j) * self.x <= 32768) by (nonlinear_arith)
            requires
                0 <= k * self.y + j <= 1023,
                1 <= self.x <= 32,
        ;
        ((k as usize) * (self.y as usize) + (j as usize)) * (self.x as usize) + (i as usize)
    }

    /// The cell at place `n` of the grid's list of cells.
    pub open spec fn cell_at(self, n: int) -> (int, int, int) {
        (n % (self.x as int), (n / (self.x as int)) % (self.y as int), (n / (self.x as int)) / (
        self.y as int))
    }

    /// The cell at place `n` of the grid's list of cells.
    pub fn coords(&self, n: usize) -> (c: (u32, u32, u32))
        requires
            self.wf(),
            n < self.spec_cell_count(),
        ensures
            (c.0 as int, c.1 as int, c.2 as int) == self.cell_at(n as int),
            self.has_cell(c.0 as int, c.1 as int, c.2 as int),
            self.spec_index(c.0 as int, c.1 as int, c.2 as int) == n,
    {
        let x: usize = self.x as usize;
        let y: usize = self.y as usize;
        let row: usize = n / x;
        let i: usize = n % x;
        let k: usize = row / y;
        let j: usize = row % y;
        proof {
            vstd::arithmetic::div_mod::lemma_fundamental_div_mod(n as int, x as int);
            vstd::arithmetic::div_mod::lemma_fundamental_div_mod(row as int, y as int);
            assert(x * row == row * x) by (nonlinear_arith);
            assert(y * k == k * y) by (nonlinear_arith);
            if k >= self.z {
                assert(k * y >= self.z * y) by (nonlinear_arith)
                    requires
                        k >= self.z,
                        y >= 1,
                ;
                assert(row * x >= (self.z * y) * x) by (nonlinear_arith)
                    requires
                        row >= self.z * y,
                        x >= 1,
                ;
                assert((self.z * y) * x == self.x * self.y * self.z) by (nonlinear_arith)
                    requires
                        x == self.x,
                        y == self.y,
                ;
            }
        }
        (i as u32, j as u32, k as u32)
    }
}

/// The place of a cell is below the number of cells.
pub proof fn lemma_index_in_range(dims: GridDims, i: int, j: int, k: int)
    requires
        dims.has_cell(i, j, k),
    ensures
        0 <= dims.spec_index(i, j, k) < dims.spec_cell_count(),
{
    let (x, y, z) = (dims.x as int, dims.y as int, dims.z as int);
    assert(0 <= k * y && k * y + j <= z * y - 1) by (nonlinear_arith)
        requires
            0 <= k <= z - 1,
            0 <= j <= y - 1,
    ;
    assert(0 <= (k * y + j) * x && (k * y + j) * x + i <= (z * y) * x - 1) by (nonlinear_arith)
        requires
            0 <= k * y + j <= z * y - 1,
            0 <= i <= x - 1,
    ;
    assert((z * y) * x == x * y * z) by (nonlinear_arith);
}

/// Different cells have different places.
pub proof fn lemma_index_injective(dims: GridDims, a: (int, int, int), b: (int, int, int))
    requires
        dims.has_cell(a.0, a.1, a.2),
        dims.has_cell(b.0, b.1, b.2),
        dims.spec_index(a.0, a.1, a.2) == dims.spec_index(b.0, b.1, b.2),
    ensures
        a == b,
{
    let (x, y) = (dims.x as int, dims.y as int);
    let ra = a.2 * y + a.1;
    let rb = b.2 * y + b.1;
    lemma_floor_div_iff(ra * x + a.0, x, ra);
    lemma_floor_div_iff(rb * x + b.0, x, rb);
    assert((ra + 1) * x == ra * x + x) by (nonlinear_arith);
    assert((rb + 1) * x == rb * x + x) by (nonlinear_arith);
    assert(ra == rb);
    lemma_floor_div_iff(ra, y, a.2);
    lemma_floor_div_iff(rb, y, b.2);
    assert((a.2 + 1) * y == a.2 * y + y) by (nonlinear_arith);
    assert((b.2 + 1) * y == b.2 * y + y) by (nonlinear_arith);
}

/// The first pixel of tile `i` when `extent` pixels are cut into `tiles`
/// tiles.
pub open spec fn tile_start(i: int, extent: int, tiles: int) -> int {
    ceil_div(i * extent, tiles)
}

/// The tile that holds pixel `p` when `extent` pixels are cut into `tiles`
/// tiles.
pub open spec fn tile_of(p: int, extent: int, tiles: int) -> int {
    (p * tiles) / extent
}

/// Pixel `p` lies in tile `i`.
pub open spec fn tile_holds(i: int, p: int, extent: int, tiles: int) -> bool {
    tile_start(i, extent, tiles) <= p < tile_start(i + 1, extent, tiles)
}

/// A pixel lies in the tile that `tile_of` names and in no other.
pub proof fn lemma_tile_unique(i: int, p: int, extent: int, tiles: int)
    requires
        0 <= p < extent,
        1 <= tiles,
    ensures
        tile_holds(i, p, extent, tiles) == (i == tile_of(p, extent, tiles)),
        0 <= tile_of(p, extent, tiles) < tiles,
{
    lemma_ceil_div_le_iff(i * extent, tiles, p);
    lemma_ceil_div_le_iff((i + 1) * extent, tiles, p);
    lemma_floor_div_iff(p * tiles, extent, i);
    let t = tile_of(p, extent, tiles);
    lemma_floor_div_iff(p * tiles, extent, t);
    assert(t >= 0 && t < tiles) by (nonlinear_arith)
        requires
            t * extent <= p * tiles < (t + 1) * extent,
            0 <= p < extent,
            1 <= tiles,
    ;
}

/// Tiles start where the one before ends, the first at pixel zero and the
/// one after the last at `extent`; with no more tiles than pixels no tile
/// is empty.
pub proof fn lemma_tile_starts(i: int, extent: int, tiles: int)
    requires
        0 <= i < tiles,
        0 <= extent,
    ensures
        tile_start(0, extent, tiles) == 0,
        tile_start(tiles, extent, tiles) == extent,
        0 <= tile_start(i, extent, tiles) <= tile_start(i + 1, extent, tiles) <= extent,
        tiles <= extent ==> tile_start(i, extent, tiles) < tile_start(i + 1, extent, tiles),
{
    let a = tile_start(i, extent, tiles);
    let b = tile_start(i + 1, extent, tiles);
    lemma_ceil_div_le_iff(0 * extent, tiles, 0);
    lemma_ceil_div_le_iff(0 * extent, tiles, -1);
    lemma_ceil_div_le_iff(tiles * extent, tiles, extent);
    lemma_ceil_div_le_iff(tiles * extent, tiles, extent - 1);
    assert(tiles * extent == extent * tiles) by (nonlinear_arith);
    assert((extent - 1) * tiles < extent * tiles) by (nonlinear_arith)
        requires
            tiles > 0,
    ;
    assert((-1) * tiles < 0 * extent) by (nonlinear_arith)
        requires
            tiles > 0,
    ;
    // a <= b
    lemma_ceil_div_le_iff(i * extent, tiles, b);
    lemma_ceil_div_le_iff((i + 1) * extent, tiles, b);
    assert(i * extent <= (i + 1) * extent) by (nonlinear_arith)
        requires
            extent >= 0,
    ;
    // 0 <= a
    lemma_ceil_div_le_iff(i * extent, tiles, -1);
    assert(i * extent >= 0) by (nonlinear_arith)
        requires
            i >= 0,
            extent >= 0,
    ;
    // b <= extent
    lemma_ceil_div_le_iff((i + 1) * extent, tiles, extent);
    assert((i + 1) * extent <= extent * tiles) by (nonlinear_arith)
        requires
            i + 1 <= tiles,
            extent >= 0,
    ;
    if tiles <= extent {
        // b <= a would give (i + 1) * extent <= a * tiles < i * extent + tiles
        lemma_ceil_div_le_iff((i + 1) * extent, tiles, a);
        lemma_ceil_div_le_iff(i * extent, tiles, a - 1);
        assert((a - 1) * tiles == a * tiles - tiles) by (nonlinear_arith);
        assert((i + 1) * extent == i * extent + extent) by (nonlinear_arith);
    }
}

/// The largest number of depth slices into which the range from `near` to
/// `far` can be cut: each slice is at least one unit deep.
pub open spec fn slice_limit(near: int, far: int) -> int {
    if far - near < MAX_SLICES {
        far - near
    } else {
        MAX_SLICES as int
    }
}

/// The side, in pixels, of the square tiles that cut a viewport into at
/// most `per_layer` tiles: the least whole number whose square reaches the
/// viewport's area divided by `per_layer`.
pub open spec fn auto_tile_side(width: int, height: int, per_layer: int) -> int {
    ceil_sqrt(ceil_div(width * height, per_layer) as nat) as int
}

/// The number of tiles that each depth slice may have when `total`
/// clusters are shared out among `z` slices: at least one.
pub open spec fn layer_budget(total: int, z: int) -> int {
    if total / z < 1 {
        1
    } else {
        total / z
    }
}

/// The smaller of two numbers.
pub open spec fn min(a: int, b: int) -> int {
    if a < b {
        a
    } else {
        b
    }
}

/// The dimensions that a configuration gives a camera's grid. A viewport
/// without pixels gets a single cluster.
pub open spec fn spec_dimensions(config: ClusterConfig, camera: Camera) -> GridDims {
    let zmax = slice_limit(camera.near as int, camera.far as int);
    let (w, h) = (camera.width as int, camera.height as int);
    if camera.is_degenerate() {
        GridDims { x: 1, y: 1, z: 1 }
    } else {
        match config {
            ClusterConfig::Single => GridDims { x: 1, y: 1, z: 1 },
            ClusterConfig::Fixed { x, y, z } => GridDims {
                x: clamp(x as int, 1, min(w, MAX_TILES as int)) as u32,
                y: clamp(y as int, 1, min(h, MAX_TILES as int)) as u32,
                z: clamp(z as int, 1, zmax) as u32,
            },
            ClusterConfig::Auto { total, z_slices } => {
                let z = clamp(z_slices as int, 1, zmax);
                let per_layer = layer_budget(total as int, z);
                let side = auto_tile_side(w, h, per_layer);
                let most = min(per_layer, MAX_TILES as int);
                GridDims {
                    x: clamp(w / side, 1, most) as u32,
                    y: clamp(h / side, 1, most) as u32,
                    z: z as u32,
                }
            },
        }
    }
}

/// The dimensions that a configuration gives a camera's grid.
pub fn dimensions(config: &ClusterConfig, camera: &Camera) -> (d: GridDims)
    requires
        camera.wf(),
    ensures
        d == spec_dimensions(*config, *camera),
        d.wf(),
        d.x <= camera.width || d.x == 1,
        d.y <= camera.height || d.y == 1,
        d.z <= slice_limit(camera.near as int, camera.far as int),
{
    let most_z: u32 = MAX_SLICES;
    let depth: u32 = camera.far - camera.near;
    let zmax: u32 = if depth < most_z {
        depth
    } else {
        most_z
    };
    if camera.is_degenerate() {
        return GridDims { x: 1, y: 1, z: 1 };
    }
    match *config {
        ClusterConfig::Single => GridDims { x: 1, y: 1, z: 1 },
        ClusterConfig::Fixed { x, y, z } => {
            let xmax: u32 = if camera.width < MAX_TILES {
                camera.width
            } else {
                MAX_TILES
            };
            let ymax: u32 = if camera.height < MAX_TILES {
                camera.height
            } else {
                MAX_TILES
            };
            GridDims { x: clamp_u32(x, 1, xmax), y: clamp_u32(y, 1, ymax), z: clamp_u32(z, 1, zmax) }
        },
        ClusterConfig::Auto { total, z_slices } => {
            let z: u32 = clamp_u32(z_slices, 1, zmax);
            let per_layer: u32 = if total / z < 1 {
                1
            } else {
                total / z
            };
            assert(1 <= camera.width * camera.height <= 0x4000 * 0x4000) by (nonlinear_arith)
                requires
                    1 <= camera.width <= 0x4000,
                    1 <= camera.height <= 0x4000,
            ;
            let area: u64 = (camera.width as u64) * (camera.height as u64);
            let cell_area: u64 = (area + (per_layer as u64) - 1) / (per_layer as u64);
            let side: u64 = isqrt_ceil(cell_area);
            proof {
                lemma_ceil_div_le_iff(area as int, per_layer as int, 0);
                lemma_ceil_sqrt(cell_area as nat, 0);
                assert(0 * (per_layer as int) == 0);
            }
            let most: u32 = if per_layer < MAX_TILES {
                per_layer
            } else {
                MAX_TILES
            };
            let across: u64 = (camera.width as u64) / side;
            let down: u64 = (camera.height as u64) / side;
            proof {
                vstd::arithmetic::div_mod::lemma_div_nonincreasing(camera.width as int, side as int);
                vstd::arithmetic::div_mod::lemma_div_nonincreasing(
                    camera.height as int,
                    side as int,
                );
                vstd::arithmetic::div_mod::lemma_div_pos_is_pos(camera.width as int, side as int);
                vstd::arithmetic::div_mod::lemma_div_pos_is_pos(camera.height as int, side as int);
            }
            GridDims {
                x: clamp_u32(across as u32, 1, most),
                y: clamp_u32(down as u32, 1, most),
                z,
            }
        },
    }
}

/// Automatic sizing keeps each layer of tiles within its share of the
/// target, and the whole grid within the target where the target allows
/// one cluster for each slice.
pub proof fn lemma_auto_within_budget(total: u32, z_slices: u32, camera: Camera)
    requires
        camera.wf(),
    ensures
        ({
            let d = spec_dimensions(ClusterConfig::Auto { total, z_slices }, camera);
            &&& d.x * d.y <= layer_budget(total as int, d.z as int)
            &&& total >= d.z ==> d.spec_cell_count() <= total
        }),
{
    let d = spec_dimensions(ClusterConfig::Auto { total, z_slices }, camera);
    let z = d.z as int;
    let zmax = slice_limit(camera.near as int, camera.far as int);
    if camera.is_degenerate() {
        assert(d.x * d.y == 1) by (nonlinear_arith)
            requires
                d.x == 1,
                d.y == 1,
        ;
        assert(d.x * d.y * d.z == 1) by (nonlinear_arith)
            requires
                d.x == 1,
                d.y == 1,
                d.z == 1,
        ;
        return ;
    }
    assert(z == clamp(z_slices as int, 1, zmax));
    let q = total as int / z;
    let per_layer = layer_budget(total as int, z);
    let (w, h) = (camera.width as int, camera.height as int);
    let area = w * h;
    let cell = ceil_div(area, per_layer);
    let side = auto_tile_side(w, h, per_layer);
    lemma_ceil_sqrt(cell as nat, 0);
    assert(area >= 1) by (nonlinear_arith)
        requires
            area == w * h,
            w >= 1,
            h >= 1,
    ;
    lemma_ceil_div_le_iff(area, per_layer, 0);
    lemma_ceil_div_le_iff(area, per_layer, cell);
    assert(0 * per_layer == 0);
    assert(cell >= 1);
    assert(side * side >= cell);
    assert(side >= 1) by (nonlinear_arith)
        requires
            side * side >= 1,
            side >= 0,
    ;
    let (fx, fy) = (w / side, h / side);
    lemma_floor_div_iff(w, side, fx);
    lemma_floor_div_iff(h, side, fy);
    let most = min(per_layer, MAX_TILES as int);
    let (x, y) = (d.x as int, d.y as int);
    assert(x == clamp(fx, 1, most) && y == clamp(fy, 1, most));
    assert(x * y <= per_layer) by {
        if fx >= 1 && fy >= 1 {
            assert(fx * fy <= per_layer) by (nonlinear_arith)
                requires
                    fx * side <= w,
                    fy * side <= h,
                    fx >= 1,
                    fy >= 1,
                    side >= 1,
                    w * h == area,
                    area <= cell * per_layer,
                    cell <= side * side,
                    per_layer >= 1,
            {
                assert((fx * side) * (fy * side) <= w * h);
                assert((fx * side) * (fy * side) == (fx * fy) * (side * side));
                assert(cell * per_layer <= (side * side) * per_layer);
                assert((fx * fy) * (side * side) <= per_layer * (side * side));
                assert(side * side >= 1);
            }
            assert(x * y <= fx * fy) by (nonlinear_arith)
                requires
                    1 <= x <= fx,
                    1 <= y <= fy,
            ;
        } else if fx < 1 {
            assert(x * y == y) by (nonlinear_arith)
                requires
                    x == 1,
            ;
        } else {
            assert(x * y == x) by (nonlinear_arith)
                requires
                    y == 1,
            ;
        }
    }
    if total >= z {
        lemma_floor_div_iff(total as int, z, q);
        assert(q >= 1) by (nonlinear_arith)
            requires
                q * z <= total < (q + 1) * z,
                total >= z,
                z >= 1,
        ;
        assert(x * y * z <= total) by (nonlinear_arith)
            requires
                x * y <= q,
                q * z <= total,
                z >= 1,
        ;
    }
}

/// The shape of a camera's cluster grid: its dimensions and the boundaries
/// of its depth slices.
#[derive(Debug)]
pub struct Grid {
    pub camera: Camera,
    pub scheme: SplitScheme,
    pub dims: GridDims,
    pub slices: DepthSlices,
}

impl Grid {
    /// The camera and the dimensions are well formed, no axis of the screen
    /// has more tiles than pixels, and the depth slices are those that the
    /// scheme gives between the camera's near and far depth.
    pub open spec fn wf(&self) -> bool {
        &&& self.camera.wf()
        &&& self.dims.wf()
        &&& self.dims.x <= self.camera.width || self.dims.x == 1
        &&& self.dims.y <= self.camera.height || self.dims.y == 1
        &&& self.slices.wf()
        &&& self.slices@.len() == self.dims.z + 1
        &&& valid_split(
            self.camera.near as int,
            self.camera.far as int,
            self.dims.z as int,
        )
        &&& forall|k: int|
            0 <= k <= self.dims.z ==> self.slices@[k] == split_bound(
                self.scheme,
                self.camera.near as int,
                self.camera.far as int,
                self.dims.z as int,
                k,
            )
    }

    /// The first pixel column of tile column `i`.
    pub open spec fn column_start(&self, i: int) -> int {
        tile_start(i, self.camera.width as int, self.dims.x as int)
    }

    /// The first pixel row of tile row `j`.
    pub open spec fn row_start(&self, j: int) -> int {
        tile_start(j, self.camera.height as int, self.dims.y as int)
    }

    /// The sample at pixel `(px, py)` and depth `d` lies in cell `(i, j, k)`.
    pub open spec fn cell_holds(&self, i: int, j: int, k: int, px: int, py: int, d: int) -> bool {
        &&& self.dims.has_cell(i, j, k)
        &&& self.column_start(i) <= px < self.column_start(i + 1)
        &&& self.row_start(j) <= py < self.row_start(j + 1)
        &&& self.slices.slice_holds(k, d)
    }

    /// The cell that holds the sample at pixel `(px, py)` and depth `d`.
    pub open spec fn spec_locate(&self, px: int, py: int, d: int) -> (int, int, int) {
        (
            tile_of(px, self.camera.width as int, self.dims.x as int),
            tile_of(py, self.camera.height as int, self.dims.y as int),
            self.slices.spec_slice_of(d),
        )
    }

    /// The sample lies on the camera's screen and in its depth range.
    pub open spec fn in_view(&self, px: int, py: int, d: int) -> bool {
        &&& 0 <= px < self.camera.width
        &&& 0 <= py < self.camera.height
        &&& self.camera.near <= d <= self.camera.far
    }

    /// The grid of a camera under a configuration. Its slices are those of
    /// `scheme` between the camera's near and far depth.
    pub fn build(camera: Camera, config: &ClusterConfig, scheme: SplitScheme) -> (g: Grid)
        requires
            camera.wf(),
        ensures
            g.wf(),
            g.camera == camera,
            g.scheme == scheme,
            g.dims == spec_dimensions(*config, camera),
    {
        let dims: GridDims = dimensions(config, &camera);
        let slices: Option<DepthSlices> = DepthSlices::build(scheme, camera.near, camera.far, dims.z);
        Grid { camera, scheme, dims, slices: slices.unwrap() }
    }

    /// Whether the grid is well formed.
    pub fn is_wf(&self) -> (ok: bool)
        ensures
            ok == self.wf(),
    {
        let d: GridDims = self.dims;
        if !self.camera.is_wf() || d.x < 1 || d.x > MAX_TILES || d.y < 1 || d.y > MAX_TILES || d.z
            < 1 || d.z > MAX_SLICES {
            return false;
        }
        if (d.x > self.camera.width && d.x != 1) || (d.y > self.camera.height && d.y != 1) {
            return false;
        }
        match DepthSlices::build(self.scheme, self.camera.near, self.camera.far, d.z) {
            None => false,
            Some(built) => {
                let same: bool = self.slices.is_same(&built);
                proof {
                    if self.wf() {
                        assert(self.slices@ =~= built@);
                    }
                }
                same
            },
        }
    }

    /// The first pixel column of tile column `i`.
    pub fn column_start_exec(&self, i: u32) -> (p: u32)
        requires
            self.wf(),
            i <= self.dims.x,
        ensures
            p == self.column_start(i as int),
            p <= self.camera.width,
    {
        tile_start_exec(i, self.camera.width, self.dims.x)
    }

    /// The first pixel row of tile row `j`.
    pub fn row_start_exec(&self, j: u32) -> (p: u32)
        requires
            self.wf(),
            j <= self.dims.y,
        ensures
            p == self.row_start(j as int),
            p <= self.camera.height,
    {
        tile_start_exec(j, self.camera.height, self.dims.y)
    }

    /// The place, in the list of cells, of the cell that holds the sample
    /// at pixel `(px, py)` and depth `d`; `None` for a sample that is off
    /// the screen or outside the depth range.
    pub fn locate(&self, px: u32, py: u32, d: u32) -> (r: Option<usize>)
        requires
            self.wf(),
        ensures
            r.is_some() == self.in_view(px as int, py as int, d as int),
            r matches Some(n) ==> {
                let (i, j, k) = self.spec_locate(px as int, py as int, d as int);
                &&& self.cell_holds(i, j, k, px as int, py as int, d as int)
                &&& n == self.dims.spec_index(i, j, k)
                &&& n < self.dims.spec_cell_count()
            },
    {
        if px >= self.camera.width || py >= self.camera.height {
            return None;
        }
        let slice: Option<u32> = self.slices.slice_of(d);
        proof {
            lemma_split_bound_range(
                self.scheme,
                self.camera.near as int,
                self.camera.far as int,
                self.dims.z as int,
                0,
            );
            lemma_split_bound_range(
                self.scheme,
                self.camera.near as int,
                self.camera.far as int,
                self.dims.z as int,
                self.dims.z as int,
            );
        }
        match slice {
            None => None,
            Some(k) => {
                proof {
                    lemma_tile_unique(
                        tile_of(px as int, self.camera.width as int, self.dims.x as int),
                        px as int,
                        self.camera.width as int,
                        self.dims.x as int,
                    );
                    lemma_tile_unique(
                        tile_of(py as int, self.camera.height as int, self.dims.y as int),
                        py as int,
                        self.camera.height as int,
                        self.dims.y as int,
                    );
                    assert(px * self.dims.x <= 0x4000 * 32) by (nonlinear_arith)
                        requires
                            px <= 0x4000,
                            self.dims.x <= 32,
                    ;
                    assert(py * self.dims.y <= 0x4000 * 32) by (nonlinear_arith)
                        requires
                            py <= 0x4000,
                            self.dims.y <= 32,
                    ;
                }
                let i: u32 = (px * self.dims.x) / self.camera.width;
                let j: u32 = (py * self.dims.y) / self.camera.height;
                Some(self.dims.index(i, j, k))
            },
        }
    }
}

/// The first pixel of tile `i` when `extent` pixels are cut into `tiles`
/// tiles.
pub fn tile_start_exec(i: u32, extent: u32, tiles: u32) -> (p: u32)
    requires
        i <= tiles,
        1 <= tiles <= MAX_TILES,
        extent <= 0x4000,
    ensures
        p == tile_start(i as int, extent as int, tiles as int),
        p <= extent,
{
    proof {
        if i < tiles {
            lemma_tile_starts(i as int, extent as int, tiles as int);
        } else {
            lemma_tile_starts(0, extent as int, tiles as int);
        }
        assert(0 <= i * extent <= 32 * 0x4000) by (nonlinear_arith)
            requires
                0 <= i <= 32,
                0 <= extent <= 0x4000,
        ;
    }
    (i * extent + tiles - 1) / tiles
}

/// Every sample in view lies in exactly one cell: in the one that `locate`
/// names, and in no other.
pub proof fn lemma_sample_in_one_cell(g: Grid, px: int, py: int, d: int, i: int, j: int, k: int)
    requires
        g.wf(),
        g.in_view(px, py, d),
    ensures
        g.cell_holds(i, j, k, px, py, d) == ((i, j, k) == g.spec_locate(px, py, d)),
        ({
            let (a, b, c) = g.spec_locate(px, py, d);
            g.dims.has_cell(a, b, c)
        }),
{
    let (a, b, c) = g.spec_locate(px, py, d);
    lemma_tile_unique(i, px, g.camera.width as int, g.dims.x as int);
    lemma_tile_unique(j, py, g.camera.height as int, g.dims.y as int);
    let n = g.dims.z as int;
    lemma_split_bound_range(g.scheme, g.camera.near as int, g.camera.far as int, n, 0);
    lemma_split_bound_range(g.scheme, g.camera.near as int, g.camera.far as int, n, n);
    lemma_some_slice_holds(g.slices, d);
    if g.slices.slice_holds(k, d) {
        lemma_slice_unique(g.slices, d, k, c);
    }
}

/// A depth between the first and the last boundary lies in some slice.
pub proof fn lemma_some_slice_holds(s: DepthSlices, d: int)
    requires
        s.wf(),
        s@[0] <= d <= s@[s@.len() - 1],
    ensures
        s.slice_holds(s.spec_slice_of(d), d),
{
    if d == s@[s@.len() - 1] {
        assert(s.slice_holds(s@.len() - 2, d));
    } else {
        lemma_slice_search(s, d, s@.len() - 1);
    }
}

/// A depth between the first boundary and boundary `hi` lies in a slice
/// before `hi`.
proof fn lemma_slice_search(s: DepthSlices, d: int, hi: int)
    requires
        s.wf(),
        1 <= hi < s@.len(),
        s@[0] <= d < s@[hi],
    ensures
        exists|k: int| s.slice_holds(k, d),
    decreases hi,
{
    if s@[hi - 1] <= d {
        assert(hi < s@.len() - 1 ==> s@[hi] < s@[hi + 1]);
        assert(s.slice_holds(hi - 1, d));
    } else {
        lemma_slice_search(s, d, hi - 1);
    }
}

/// Tile starts strictly increase where there are no more tiles than pixels.
pub proof fn lemma_tile_start_increasing(a: int, b: int, extent: int, tiles: int)
    requires
        0 <= a < b <= tiles <= extent,
    ensures
        tile_start(a, extent, tiles) < tile_start(b, extent, tiles),
    decreases b - a,
{
    lemma_tile_starts(b - 1, extent, tiles);
    if a < b - 1 {
        lemma_tile_start_increasing(a, b - 1, extent, tiles);
    }
}

/// The cluster grid of a camera with the lists of its cells: for each cell
/// the indices of the lights assigned to it.
#[derive(Debug)]
pub struct Clusters {
    pub grid: Grid,
    pub cells: Vec<Vec<u32>>,
}

impl Clusters {
    /// The grid is well formed and there is one list for each of its cells.
    pub open spec fn wf(&self) -> bool {
        &&& self.grid.wf()
        &&& self.cells@.len() == self.grid.dims.spec_cell_count()
    }

    /// Whether the clusters are well formed.
    pub fn is_wf(&self) -> (ok: bool)
        ensures
            ok == self.wf(),
    {
        self.grid.is_wf() && self.cells.len() == self.grid.dims.cell_count()
    }

    /// No cell lists a light.
    pub open spec fn is_clear(&self) -> bool {
        forall|c: int| 0 <= c < self.cells@.len() ==> (#[trigger] self.cells@[c])@.len() == 0
    }

    /// The clusters of a grid, with every list empty.
    pub fn new(grid: Grid) -> (r: Clusters)
        requires
            grid.wf(),
        ensures
            r.wf(),
            r.grid == grid,
            r.is_clear(),
    {
        let count: usize = grid.dims.cell_count();
        let mut cells: Vec<Vec<u32>> = Vec::new();
        let mut c: usize = 0;
        while c < count
            invariant
                c <= count,
                cells@.len() == c,
                forall|a: int| 0 <= a < c ==> (#[trigger] cells@[a])@.len() == 0,
            decreases count - c,
        {
            cells.push(Vec::new());
            c = c + 1;
        }
        Clusters { grid, cells }
    }

    /// Brings the clusters up to date with the camera and the configuration
    /// of this frame and empties every list. Returns whether the grid has
    /// changed: the camera, the scheme or the dimensions.
    pub fn refresh(&mut self, camera: Camera, config: &ClusterConfig, scheme: SplitScheme) -> (changed:
        bool)
        requires
            old(self).wf(),
            camera.wf(),
        ensures
            final(self).wf(),
            final(self).is_clear(),
            final(self).grid.camera == camera,
            final(self).grid.scheme == scheme,
            final(self).grid.dims == spec_dimensions(*config, camera),
            changed == (old(self).grid.camera != camera || old(self).grid.scheme != scheme || old(
                self,
            ).grid.dims != spec_dimensions(*config, camera)),
    {
        let grid: Grid = Grid::build(camera, config, scheme);
        let changed: bool = !(self.grid.camera == camera && self.grid.scheme == scheme
            && self.grid.dims == grid.dims);
        *self = Clusters::new(grid);
        changed
    }
}

/// Places and cells correspond one to one: the cell at the place of cell
/// `(i, j, k)` is `(i, j, k)`.
pub proof fn lemma_cell_at_index(dims: GridDims, i: int, j: int, k: int)
    requires
        dims.has_cell(i, j, k),
    ensures
        dims.cell_at(dims.spec_index(i, j, k)) == (i, j, k),
{
    let (x, y) = (dims.x as int, dims.y as int);
    let row = k * y + j;
    let n = row * x + i;
    vstd::arithmetic::div_mod::lemma_fundamental_div_mod_converse(n, x, row, i);
    vstd::arithmetic::div_mod::lemma_fundamental_div_mod_converse(row, y, k, j);
}

/// Every place below the number of cells is the place of the cell that
/// `cell_at` names, and that cell is in the grid.
pub proof fn lemma_index_of_cell_at(dims: GridDims, n: int)
    requires
        dims.wf(),
        0 <= n < dims.spec_cell_count(),
    ensures
        ({
            let (i, j, k) = dims.cell_at(n);
            dims.has_cell(i, j, k) && dims.spec_index(i, j, k) == n
        }),
{
    let (x, y, z) = (dims.x as int, dims.y as int, dims.z as int);
    let row = n / x;
    let k = row / y;
    vstd::arithmetic::div_mod::lemma_fundamental_div_mod(n, x);
    vstd::arithmetic::div_mod::lemma_fundamental_div_mod(row, y);
    vstd::arithmetic::div_mod::lemma_mod_bound(n, x);
    vstd::arithmetic::div_mod::lemma_mod_bound(row, y);
    assert(x * row == row * x) by (nonlinear_arith);
    assert(y * k == k * y) by (nonlinear_arith);
    lemma_floor_div_iff(n, x, row);
    lemma_floor_div_iff(row, y, k);
    assert(row >= 0 && k >= 0) by (nonlinear_arith)
        requires
            (row + 1) * x > n,
            n >= 0,
            x >= 1,
            (k + 1) * y > row,
            y >= 1,
    ;
    if k >= z {
        assert(row * x >= (z * y) * x) by (nonlinear_arith)
            requires
                row >= k * y,
                k >= z,
                y >= 1,
                x >= 1,
        ;
        assert((z * y) * x == x * y * z) by (nonlinear_arith);
    }
}

} // verus!
