use pbr_lighting::assign::{assign_objects_to_clusters, ClusterableObject};
use pbr_lighting::camera::{Camera, Projection};
use pbr_lighting::cluster::{dimensions, ClusterConfig, Clusters, Grid, GridDims};
use pbr_lighting::depth::{DepthSlices, SplitScheme};
use pbr_lighting::geometry::{IVec3, Sphere};
use pbr_lighting::math::{isqrt, isqrt_ceil};
use pbr_lighting::wide::{weighted_root, Wide};

fn camera_16_9() -> Camera {
    Camera::new(1600, 900, Projection::Perspective { focal: 800 }, 100, 100_000).unwrap()
}

/// The least distance from a point to the volume of the cell at place `n`,
/// found by a search over the depths of the cell: at each depth the cell is
/// a rectangle, and the distance to it is convex in the depth.
fn distance_to_cell(grid: &Grid, n: usize, from: IVec3) -> f64 {
    let (i, j, k) = grid.dims.coords(n);
    let camera = grid.camera;
    let (w, h) = (camera.width as f64, camera.height as f64);
    let side = |start: u32, extent: f64| 2.0 * start as f64 - extent;
    let (a0, a1) = (side(grid.column_start_exec(i), w), side(grid.column_start_exec(i + 1), w));
    let (b0, b1) = (side(grid.row_start_exec(j), h), side(grid.row_start_exec(j + 1), h));
    let at = |z: f64| -> f64 {
        let (spread, weight) = match camera.projection {
            Projection::Perspective { focal } => (2.0 * focal as f64, z),
            Projection::Orthographic { pixels, units } => (2.0 * pixels as f64, units as f64),
        };
        let nearest = |c: f64, lo: f64, hi: f64| c.max(lo * weight / spread).min(hi * weight / spread);
        let (x, y) = (nearest(from.x as f64, a0, a1), nearest(from.y as f64, b0, b1));
        ((x - from.x as f64).powi(2) + (y - from.y as f64).powi(2) + (z - from.z as f64).powi(2))
            .sqrt()
    };
    let (mut lo, mut hi) = (grid.slices.bound(k) as f64, grid.slices.bound(k + 1) as f64);
    for _ in 0..200 {
        let (p, q) = (lo + (hi - lo) / 3.0, hi - (hi - lo) / 3.0);
        if at(p) <= at(q) {
            hi = q;
        } else {
            lo = p;
        }
    }
    at((lo + hi) / 2.0)
}

fn light(entity: u64, x: i32, y: i32, z: i32, radius: u32) -> ClusterableObject {
    ClusterableObject { entity, sphere: Sphere { center: IVec3 { x, y, z }, radius } }
}

#[test]
fn square_roots_are_exact() {
    assert_eq!(isqrt(0), 0);
    assert_eq!(isqrt(1), 1);
    assert_eq!(isqrt(15), 3);
    assert_eq!(isqrt(16), 4);
    assert_eq!(isqrt(u64::MAX), u32::MAX);
    assert_eq!(isqrt_ceil(0), 0);
    assert_eq!(isqrt_ceil(16), 4);
    assert_eq!(isqrt_ceil(17), 5);
}

#[test]
fn integer_roots_are_exact() {
    // the sixth root of 10^6, and of a little less
    assert_eq!(weighted_root(10, 10, 6, 3), 10);
    assert_eq!(weighted_root(1, 999_999, 6, 1), 9);
    assert_eq!(weighted_root(1, 1_000_000, 6, 1), 10);
    // the cube roots of 27 and 26
    assert_eq!(weighted_root(1, 27, 3, 1), 3);
    assert_eq!(weighted_root(1, 26, 3, 1), 2);
    assert_eq!(weighted_root(0, 5, 4, 2), 0);
    // the ends of the scale
    assert_eq!(weighted_root(100, 100_000, 4, 0), 100);
    assert_eq!(weighted_root(100, 100_000, 4, 4), 100_000);
    assert_eq!(weighted_root(1_048_576, 1_048_576, 32, 16), 1_048_576);
    // the square root of 10^6, through numbers of many words
    assert_eq!(weighted_root(1, 1_000_000, 32, 16), 1000);
    assert_eq!(weighted_root(1, 1_048_576, 32, 1), 1);
    assert_eq!(weighted_root(1, 1_048_576, 32, 31), 679_917);
}

#[test]
fn fixed_grid_has_the_configured_cell_count() {
    let camera: Camera = camera_16_9();
    let config = ClusterConfig::Fixed { x: 16, y: 9, z: 24 };
    let dims: GridDims = dimensions(&config, &camera);
    assert_eq!(dims, GridDims { x: 16, y: 9, z: 24 });
    assert_eq!(dims.cell_count(), 16 * 9 * 24);
    let clusters = Clusters::new(Grid::build(camera, &config, SplitScheme::Quadratic));
    assert_eq!(clusters.cells.len(), 3456);
}

#[test]
fn fixed_grid_is_limited_by_viewport_and_platform() {
    let camera: Camera = Camera::new(8, 4, Projection::Orthographic { pixels: 1, units: 1 }, 1, 11).unwrap();
    let config = ClusterConfig::Fixed { x: 100, y: 0, z: 100 };
    let dims: GridDims = dimensions(&config, &camera);
    assert_eq!(dims, GridDims { x: 8, y: 1, z: 10 });
}

#[test]
fn empty_viewport_gets_a_single_cluster() {
    let camera: Camera =
        Camera::new(0, 900, Projection::Perspective { focal: 800 }, 100, 100_000).unwrap();
    let config = ClusterConfig::Fixed { x: 16, y: 9, z: 24 };
    let dims: GridDims = dimensions(&config, &camera);
    assert_eq!(dims, GridDims { x: 1, y: 1, z: 1 });
    let auto = ClusterConfig::Auto { total: 4096, z_slices: 24 };
    assert_eq!(dimensions(&auto, &camera), GridDims { x: 1, y: 1, z: 1 });
}

#[test]
fn automatic_sizing_follows_the_formula() {
    let camera: Camera = camera_16_9();
    // 4096 / 24 = 170 tiles per slice; 1600 * 900 / 170 rounds up to 8471
    // pixels per tile, whose side rounds up to 93; 1600 / 93 = 17, 900 / 93 = 9.
    let auto = ClusterConfig::Auto { total: 4096, z_slices: 24 };
    let dims: GridDims = dimensions(&auto, &camera);
    assert_eq!(dims, GridDims { x: 17, y: 9, z: 24 });
    assert!(dims.cell_count() <= 4096);
    // A target below the number of slices leaves one tile per slice.
    let tiny = ClusterConfig::Auto { total: 3, z_slices: 24 };
    assert_eq!(dimensions(&tiny, &camera), GridDims { x: 1, y: 1, z: 24 });
}

#[test]
fn single_config_gives_one_cluster() {
    let camera: Camera = camera_16_9();
    let dims: GridDims = dimensions(&ClusterConfig::Single, &camera);
    assert_eq!(dims, GridDims { x: 1, y: 1, z: 1 });
}

#[test]
fn camera_rejects_bad_parts() {
    assert!(Camera::new(1600, 900, Projection::Perspective { focal: 0 }, 100, 1000).is_none());
    assert!(Camera::new(1600, 900, Projection::Perspective { focal: 800 }, 0, 1000).is_none());
    assert!(Camera::new(1600, 900, Projection::Perspective { focal: 800 }, 1000, 1000).is_none());
    assert!(Camera::new(16385, 900, Projection::Perspective { focal: 800 }, 1, 1000).is_none());
    assert!(Camera::new(1600, 900, Projection::Orthographic { pixels: 40000, units: 1 }, 1, 1000).is_none());
    assert!(Camera::new(1600, 900, Projection::Perspective { focal: 800 }, 1, 1_048_577).is_none());
}

#[test]
fn every_sample_maps_to_one_cell() {
    let camera: Camera = camera_16_9();
    let config = ClusterConfig::Fixed { x: 16, y: 9, z: 24 };
    let grid = Grid::build(camera, &config, SplitScheme::Quadratic);
    assert_eq!(grid.locate(0, 0, 100), Some(0));
    assert_eq!(grid.locate(1599, 899, 99_999), Some(3455));
    assert_eq!(grid.locate(1600, 0, 100), None);
    assert_eq!(grid.locate(0, 900, 100), None);
    assert_eq!(grid.locate(0, 0, 99), None);
    // the far depth belongs to the last slice
    assert_eq!(grid.locate(0, 0, 100_000), Some(3312));
    assert_eq!(grid.locate(1599, 899, 100_000), Some(3455));
    assert_eq!(grid.locate(0, 0, 100_001), None);
    // pixel column 100 is the first of tile column 1, slice 0 ends at
    // 100 + 99900 / 576 = 273
    assert_eq!(grid.locate(99, 0, 272), Some(0));
    assert_eq!(grid.locate(100, 0, 272), Some(1));
    assert_eq!(grid.locate(0, 100, 272), Some(16));
    assert_eq!(grid.locate(0, 0, 273), Some(144));
    let n: usize = grid.locate(800, 450, 20_000).unwrap();
    assert_eq!(grid.dims.coords(n), (8, 4, 10));
    assert_eq!(grid.dims.index(8, 4, 10), n);
}

#[test]
fn point_light_at_the_origin_lands_in_the_centre_column() {
    // The camera stands 20 units from the light, which is at the origin and
    // has range 5; a world unit is 1000 grid units.
    let camera: Camera = camera_16_9();
    let config = ClusterConfig::Fixed { x: 16, y: 9, z: 24 };
    let grid = Grid::build(camera, &config, SplitScheme::Quadratic);
    let lights = vec![light(7, 0, 0, 20_000, 5_000)];
    let cells = assign_objects_to_clusters(&grid, &lights, 16_384);
    assert_eq!(cells.len(), 3456);
    let centre: usize = grid.locate(800, 450, 20_000).unwrap();
    assert_eq!(cells[centre], vec![0]);
    let mut listed: usize = 0;
    for (n, list) in cells.iter().enumerate() {
        if list.is_empty() {
            continue;
        }
        listed += 1;
        assert_eq!(list, &vec![0]);
        let (_, _, k) = grid.dims.coords(n);
        // no listed cell lies farther from the light than its range
        assert!(grid.slices.bound(k) <= 25_000);
        assert!(grid.slices.bound(k + 1) >= 15_000);
    }
    assert!(listed >= 1);
    // a cell lists the light exactly when some point of it lies within the
    // range of the light
    for (n, list) in cells.iter().enumerate() {
        let distance: f64 = distance_to_cell(&grid, n, lights[0].sphere.center);
        if list.is_empty() {
            assert!(distance >= 5_000.0 - 0.001);
        } else {
            assert!(distance <= 5_000.0 + 0.001);
        }
    }
    // slices 9 to 11 hold the depths from 15000 to 25000
    let depths: Vec<u32> = cells
        .iter()
        .enumerate()
        .filter(|(_, l)| !l.is_empty())
        .map(|(n, _)| grid.dims.coords(n).2)
        .collect();
    assert_eq!(depths.iter().min(), Some(&9));
    assert_eq!(depths.iter().max(), Some(&11));
}

#[test]
fn light_outside_the_frustum_is_in_no_cell() {
    let camera: Camera = camera_16_9();
    let config = ClusterConfig::Fixed { x: 16, y: 9, z: 24 };
    let grid = Grid::build(camera, &config, SplitScheme::Quadratic);
    let lights = vec![
        light(1, 0, 0, -20_000, 5_000),
        light(2, 500_000, 0, 20_000, 5_000),
        light(3, 0, 0, 200_000, 5_000),
        light(4, 0, 0, 20_000, 0),
    ];
    let cells = assign_objects_to_clusters(&grid, &lights, 16_384);
    assert!(cells.iter().all(|l| l.is_empty()));
}

#[test]
fn small_light_inside_one_cell_is_listed_there() {
    let camera: Camera = camera_16_9();
    let config = ClusterConfig::Fixed { x: 16, y: 9, z: 24 };
    let grid = Grid::build(camera, &config, SplitScheme::Quadratic);
    let lights = vec![light(1, 625, 625, 20_000, 10)];
    let cells = assign_objects_to_clusters(&grid, &lights, 16_384);
    // the centre falls on pixel (825, 475): tile (8, 4), slice 10
    let home: usize = grid.dims.index(8, 4, 10);
    let listed: Vec<usize> =
        cells.iter().enumerate().filter(|(_, l)| !l.is_empty()).map(|(n, _)| n).collect();
    assert_eq!(listed, vec![home]);
}

#[test]
fn lights_are_listed_in_order_and_assignment_repeats() {
    let camera: Camera = camera_16_9();
    let config = ClusterConfig::Fixed { x: 4, y: 4, z: 4 };
    let grid = Grid::build(camera, &config, SplitScheme::Quadratic);
    let lights = vec![
        light(1, 0, 0, 50_000, 60_000),
        light(2, 0, 0, -50_000, 10),
        light(3, 0, 0, 50_000, 60_000),
    ];
    let first = assign_objects_to_clusters(&grid, &lights, 16_384);
    let second = assign_objects_to_clusters(&grid, &lights, 16_384);
    assert_eq!(first, second);
    let centre: usize = grid.locate(800, 450, 50_000).unwrap();
    assert_eq!(first[centre], vec![0, 2]);
}

#[test]
fn assignment_stops_at_capacity() {
    let camera: Camera = camera_16_9();
    let config = ClusterConfig::Fixed { x: 2, y: 2, z: 2 };
    let grid = Grid::build(camera, &config, SplitScheme::Quadratic);
    // each of these lights reaches all eight cells
    let big = light(1, 0, 0, 50_000, 1_000_000);
    let lights = vec![big, big, big];
    let all = assign_objects_to_clusters(&grid, &lights, 24);
    assert!(all.iter().all(|l| l == &vec![0, 1, 2]));
    let two = assign_objects_to_clusters(&grid, &lights, 23);
    assert!(two.iter().all(|l| l == &vec![0, 1]));
    let one = assign_objects_to_clusters(&grid, &lights, 8);
    assert!(one.iter().all(|l| l == &vec![0]));
    let none = assign_objects_to_clusters(&grid, &lights, 7);
    assert!(none.iter().all(|l| l.is_empty()));
    // a light that does not fit stops the assignment: the small one after it
    // is left out as well
    let small = light(2, 625, 625, 20_000, 10);
    let mixed = vec![small, big, small];
    let out = assign_objects_to_clusters(&grid, &mixed, 5);
    let total: usize = out.iter().map(|l| l.len()).sum();
    assert_eq!(total, 1);
    assert!(out.iter().all(|l| l.is_empty() || l == &vec![0]));
}

#[test]
fn clusters_refresh_reports_changes() {
    let camera: Camera = camera_16_9();
    let config = ClusterConfig::Fixed { x: 4, y: 4, z: 4 };
    let mut clusters = Clusters::new(Grid::build(camera, &config, SplitScheme::Quadratic));
    clusters.assign(&vec![light(1, 0, 0, 50_000, 60_000)], 16_384);
    assert!(clusters.cells.iter().any(|l| !l.is_empty()));
    assert!(!clusters.refresh(camera, &config, SplitScheme::Quadratic));
    assert!(clusters.cells.iter().all(|l| l.is_empty()));
    assert_eq!(clusters.cells.len(), 64);
    let wider = ClusterConfig::Fixed { x: 8, y: 4, z: 4 };
    assert!(clusters.refresh(camera, &wider, SplitScheme::Quadratic));
    assert_eq!(clusters.cells.len(), 128);
    let resized: Camera =
        Camera::new(800, 900, Projection::Perspective { focal: 800 }, 100, 100_000).unwrap();
    assert!(clusters.refresh(resized, &wider, SplitScheme::Quadratic));
    assert!(clusters.refresh(resized, &wider, SplitScheme::Logarithmic));
}

#[test]
fn depth_tables_are_validated() {
    assert!(DepthSlices::from_bounds(vec![1, 2, 3]).is_some());
    assert!(DepthSlices::from_bounds(vec![1]).is_none());
    assert!(DepthSlices::from_bounds(vec![0, 2]).is_none());
    assert!(DepthSlices::from_bounds(vec![1, 3, 3]).is_none());
    assert!(DepthSlices::from_bounds(vec![1, 3, 2]).is_none());
    assert!(DepthSlices::from_bounds(vec![1, 1_048_577]).is_none());
    let table = DepthSlices::from_bounds(vec![10, 20, 40, 80]).unwrap();
    assert_eq!(table.count(), 3);
    assert_eq!(table.near(), 10);
    assert_eq!(table.far(), 80);
    assert_eq!(table.slice_of(9), None);
    assert_eq!(table.slice_of(10), Some(0));
    assert_eq!(table.slice_of(19), Some(0));
    assert_eq!(table.slice_of(20), Some(1));
    assert_eq!(table.slice_of(79), Some(2));
    assert_eq!(table.slice_of(40), Some(2));
    assert_eq!(table.slice_of(80), Some(2));
    assert_eq!(table.slice_of(81), None);
    assert_eq!(table.clone().bounds, vec![10, 20, 40, 80]);
}

#[test]
fn split_schemes_place_their_boundaries() {
    let log = DepthSlices::build(SplitScheme::Logarithmic, 100, 100_000, 4).unwrap();
    assert_eq!(log.bounds, vec![100, 562, 3162, 17782, 100_000]);
    let quad = DepthSlices::build(SplitScheme::Quadratic, 100, 100_000, 4).unwrap();
    assert_eq!(quad.bounds, vec![100, 6343, 25075, 56293, 100_000]);
    // boundaries are moved apart where their targets coincide
    let tight = DepthSlices::build(SplitScheme::Logarithmic, 1, 5, 4).unwrap();
    assert_eq!(tight.bounds, vec![1, 2, 3, 4, 5]);
    let squeezed = DepthSlices::build(SplitScheme::Quadratic, 10, 15, 4).unwrap();
    assert_eq!(squeezed.bounds, vec![10, 11, 12, 13, 15]);
    assert!(DepthSlices::build(SplitScheme::Logarithmic, 1, 4, 4).is_none());
    let seven = DepthSlices::build(SplitScheme::Logarithmic, 1, 100, 7).unwrap();
    assert_eq!(seven.bounds, vec![1, 2, 3, 7, 13, 26, 51, 100]);
    assert!(DepthSlices::build(SplitScheme::Logarithmic, 1, 100, 33).is_none());
    assert!(DepthSlices::build(SplitScheme::Quadratic, 0, 100, 4).is_none());
    assert!(DepthSlices::build(SplitScheme::Quadratic, 1, 100, 0).is_none());
    assert!(DepthSlices::build(SplitScheme::Quadratic, 1, 100, 33).is_none());
}

#[test]
fn near_slices_are_thinner_than_far_ones() {
    let camera: Camera = camera_16_9();
    let config = ClusterConfig::Fixed { x: 16, y: 9, z: 24 };
    let grid = Grid::build(camera, &config, SplitScheme::Quadratic);
    let width = |k: u32| grid.slices.bound(k + 1) - grid.slices.bound(k);
    assert_eq!(grid.slices.bound(0), 100);
    assert_eq!(grid.slices.bound(24), 100_000);
    assert_eq!(width(0), 173);
    assert_eq!(width(23), 8152);
    for k in 0..23u32 {
        assert!(width(k) <= width(k + 1));
    }
    let six = ClusterConfig::Fixed { x: 16, y: 9, z: 6 };
    let log = Grid::build(camera, &six, SplitScheme::Logarithmic);
    assert_eq!(log.slices.bounds, vec![100, 316, 1000, 3162, 10_000, 31_622, 100_000]);
    // every slice of the logarithmic scheme is deeper than the one before
    // it by the same factor, the 24th root of 1000
    let fine = Grid::build(camera, &config, SplitScheme::Logarithmic);
    assert_eq!(fine.dims.z, 24);
    assert_eq!(fine.slices.bound(1), 133);
    assert_eq!(fine.slices.bound(12), 3162);
    assert_eq!(fine.slices.bound(23), 74_989);
    for k in 0..23u32 {
        let (a, b) = (fine.slices.bound(k) as u64, fine.slices.bound(k + 1) as u64);
        assert!(b * 1000 >= a * 1327 && b * 1000 <= a * 1340);
    }
}

#[test]
fn orthographic_camera_assigns_by_parallel_planes() {
    // one pixel shows ten units
    let camera: Camera =
        Camera::new(800, 600, Projection::Orthographic { pixels: 1, units: 10 }, 100, 1000)
            .unwrap();
    let config = ClusterConfig::Fixed { x: 8, y: 6, z: 4 };
    let grid = Grid::build(camera, &config, SplitScheme::Quadratic);
    assert_eq!(grid.slices.bounds, vec![100, 156, 325, 606, 1000]);
    // the light falls on pixel (650, 350) whatever its depth
    let lights = vec![light(1, 2500, 500, 500, 5), light(2, 2500, 500, 900, 5)];
    let cells = assign_objects_to_clusters(&grid, &lights, 16_384);
    let listed: Vec<(usize, Vec<u32>)> = cells
        .iter()
        .enumerate()
        .filter(|(_, l)| !l.is_empty())
        .map(|(n, l)| (n, l.clone()))
        .collect();
    assert_eq!(
        listed,
        vec![(grid.dims.index(6, 3, 2), vec![0]), (grid.dims.index(6, 3, 3), vec![1])]
    );
    // a light on the line between two tiles is in both
    let edge = vec![light(3, 1000, 500, 500, 5)];
    let cells = assign_objects_to_clusters(&grid, &edge, 16_384);
    assert_eq!(cells[grid.dims.index(4, 3, 2)], vec![0]);
    assert_eq!(cells[grid.dims.index(5, 3, 2)], vec![0]);
    assert_eq!(cells.iter().filter(|l| !l.is_empty()).count(), 2);
}

#[test]
fn light_beside_a_corner_of_the_frustum_is_left_out() {
    // The light lies beyond the far plane by 40 and beyond the right plane,
    // 50 from the corner of the frustum that is nearest to it. No single
    // plane of the frustum has a sphere of radius 45 wholly behind it, and
    // yet the sphere shares no point with the frustum.
    let camera: Camera = camera_16_9();
    let config = ClusterConfig::Fixed { x: 16, y: 9, z: 24 };
    let grid = Grid::build(camera, &config, SplitScheme::Quadratic);
    let listed = |radius: u32| -> Vec<usize> {
        let lights = vec![light(1, 100_030, 0, 100_040, radius)];
        let cells = assign_objects_to_clusters(&grid, &lights, 16_384);
        cells.iter().enumerate().filter(|(_, l)| !l.is_empty()).map(|(n, _)| n).collect()
    };
    assert_eq!(listed(45), Vec::<usize>::new());
    assert_eq!(listed(49), Vec::<usize>::new());
    // with a range of 50 it reaches the corner, and the corner cell only
    assert_eq!(listed(50), vec![grid.dims.index(15, 4, 23)]);
}

#[test]
fn light_beside_an_edge_of_a_flat_view_is_left_out() {
    // one cluster, two pixels by two, depths 1 to 10: the volume that is
    // seen is the box from (-1, -1, 1) to (1, 1, 10)
    let camera: Camera =
        Camera::new(2, 2, Projection::Orthographic { pixels: 1, units: 1 }, 1, 10).unwrap();
    let grid = Grid::build(camera, &ClusterConfig::Single, SplitScheme::Quadratic);
    // the nearest point of the box, (-1, -1, 5), is the root of 18 away
    let near = assign_objects_to_clusters(&grid, &vec![light(1, -4, -4, 5, 4)], 16);
    assert_eq!(near, vec![Vec::<u32>::new()]);
    let reach = assign_objects_to_clusters(&grid, &vec![light(1, -4, -4, 5, 5)], 16);
    assert_eq!(reach, vec![vec![0]]);
    // 3 * 3 + 3 * 3 = 18 <= 18 < 19
    let edge = assign_objects_to_clusters(&grid, &vec![light(1, -4, -4, 12, 4)], 16);
    assert_eq!(edge, vec![Vec::<u32>::new()]);
    let corner = assign_objects_to_clusters(&grid, &vec![light(1, -4, -4, 12, 5)], 16);
    assert_eq!(corner, vec![vec![0]]);
}

#[test]
fn no_listed_cell_lies_beyond_the_range_of_the_light() {
    let camera: Camera =
        Camera::new(16, 9, Projection::Orthographic { pixels: 1, units: 1 }, 1, 25).unwrap();
    let config = ClusterConfig::Fixed { x: 16, y: 9, z: 24 };
    let grid = Grid::build(camera, &config, SplitScheme::Quadratic);
    assert_eq!(grid.dims, GridDims { x: 16, y: 9, z: 24 });
    let lights = vec![light(1, 0, 0, 20, 5)];
    let cells = assign_objects_to_clusters(&grid, &lights, 16_384);
    // every point of this cell has x >= 4 and depth >= 24
    assert!(cells[grid.dims.index(12, 4, 23)].is_empty());
    assert_eq!(cells[grid.dims.index(8, 4, 19)], vec![0]);
    for (n, list) in cells.iter().enumerate() {
        let distance: f64 = distance_to_cell(&grid, n, lights[0].sphere.center);
        assert_eq!(!list.is_empty(), distance <= 5.0 + 1e-9);
    }
}

#[test]
fn points_fall_on_their_pixels() {
    let camera: Camera = camera_16_9();
    assert_eq!(camera.pixel_of(&IVec3 { x: 0, y: 0, z: 20_000 }), Some((800, 450)));
    assert_eq!(camera.pixel_of(&IVec3 { x: 625, y: 625, z: 20_000 }), Some((825, 475)));
    assert_eq!(camera.pixel_of(&IVec3 { x: -20_000, y: 0, z: 20_000 }), Some((0, 450)));
    assert_eq!(camera.pixel_of(&IVec3 { x: -20_001, y: 0, z: 20_000 }), None);
    assert_eq!(camera.pixel_of(&IVec3 { x: 19_999, y: 0, z: 20_000 }), Some((1599, 450)));
    assert_eq!(camera.pixel_of(&IVec3 { x: 20_000, y: 0, z: 20_000 }), None);
    assert_eq!(camera.pixel_of(&IVec3 { x: 0, y: 0, z: 0 }), None);
    assert_eq!(camera.pixel_of(&IVec3 { x: 0, y: 0, z: -5 }), None);
    assert_eq!(camera.pixel_of(&IVec3 { x: 0, y: 0, z: 2_000_000 }), None);
    let flat: Camera =
        Camera::new(800, 600, Projection::Orthographic { pixels: 1, units: 10 }, 100, 1000)
            .unwrap();
    assert_eq!(flat.pixel_of(&IVec3 { x: 2500, y: 500, z: -7 }), Some((650, 350)));
    assert_eq!(flat.pixel_of(&IVec3 { x: -4000, y: -3000, z: 500 }), Some((0, 0)));
    assert_eq!(flat.pixel_of(&IVec3 { x: -4001, y: 0, z: 500 }), None);
    assert_eq!(flat.pixel_of(&IVec3 { x: 4000, y: 0, z: 500 }), None);
}

#[test]
fn shaded_point_finds_the_lights_that_reach_it() {
    let camera: Camera = camera_16_9();
    let config = ClusterConfig::Fixed { x: 16, y: 9, z: 24 };
    let grid = Grid::build(camera, &config, SplitScheme::Quadratic);
    let lights = vec![
        light(1, 0, 0, 20_000, 5_000),
        light(2, 3_000, 0, 21_000, 2_000),
        light(3, -9_000, 0, 20_000, 2_000),
    ];
    let cells = assign_objects_to_clusters(&grid, &lights, 16_384);
    // this point lies within reach of the first two lights
    let q = IVec3 { x: 2_000, y: 100, z: 20_500 };
    let place: usize = grid.place_of(&q).unwrap();
    assert_eq!(Some(place), grid.locate(880, 453, 20_500));
    assert!(cells[place].contains(&0));
    assert!(cells[place].contains(&1));
    assert!(!cells[place].contains(&2));
    assert_eq!(grid.place_of(&IVec3 { x: 0, y: 0, z: 99 }), None);
    assert_eq!(grid.place_of(&IVec3 { x: 0, y: 0, z: 100_000 }), grid.locate(800, 450, 100_000));
    assert_eq!(grid.place_of(&IVec3 { x: 0, y: 0, z: 100_001 }), None);
    assert_eq!(grid.place_of(&IVec3 { x: 0, y: 0, z: -1 }), None);
    assert_eq!(grid.place_of(&IVec3 { x: 900_000, y: 0, z: 1000 }), None);
}

#[test]
fn wide_numbers_multiply_and_compare() {
    let one = Wide::one();
    assert_eq!(one.limbs.len(), 21);
    let big = Wide::product_of_powers(1_000_000, 3, 7, 2);
    // 49 * 10^18 = 0x2_a802_f863_0a24_0000
    assert_eq!(&big.limbs[..3], &[0x0a24_0000, 0xa802_f863, 0x2]);
    assert!(big.limbs[3..].iter().all(|l| *l == 0));
    assert_eq!(big.times(2).limbs[..3], [0x1448_0000, 0x5005_f0c6, 0x5]);
    assert!(one.at_most(&big));
    assert!(!big.at_most(&one));
    assert!(big.at_most(&big));
    let top = Wide::product_of_powers(1_048_576, 32, 1, 0);
    // 2^640 has a single bit, in the twenty-first limb
    assert_eq!(top.limbs[20], 1);
    assert!(top.limbs[..20].iter().all(|l| *l == 0));
    assert!(big.at_most(&top));
}
