use pbr_lighting::cascade::{
    build_directional_light_cascades, clear_directional_light_cascades, is_same_corners, Cascade,
    CascadeCache, CascadeShadowConfig, Cascades, FrustumCorners,
};
use pbr_lighting::depth::SplitScheme;
use pbr_lighting::frusta::{face_basis, point_light_frusta, spot_light_frustum, view_frustum, Basis};
use pbr_lighting::geometry::{Aabb, Frustum, IVec3, Plane, Sphere};
use pbr_lighting::light_view::{
    holds, shadow_draws, LightView, LightViewKind, LightViews, ShadowLight, ShadowLightKind,
};
use pbr_lighting::visibility::{
    check_dir_light_mesh_visibility, check_light_mesh_visibility,
    check_point_light_mesh_visibility, MeshBounds,
};

fn v(x: i32, y: i32, z: i32) -> IVec3 {
    IVec3 { x, y, z }
}

fn cube(entity: u64, centre: IVec3, half: i32, shadow_caster: bool) -> MeshBounds {
    MeshBounds {
        entity,
        aabb: Aabb {
            min: v(centre.x - half, centre.y - half, centre.z - half),
            max: v(centre.x + half, centre.y + half, centre.z + half),
        },
        shadow_caster,
    }
}

/// The frustum of a camera that looks down the light's z axis: half a unit
/// wide at its near plane at depth 100 and a hundred units wide at its far
/// plane at depth 100 000.
fn corners() -> FrustumCorners {
    FrustumCorners {
        near: [v(-50, -50, 100), v(50, -50, 100), v(50, 50, 100), v(-50, 50, 100)],
        far: [
            v(-50_000, -50_000, 100_000),
            v(50_000, -50_000, 100_000),
            v(50_000, 50_000, 100_000),
            v(-50_000, 50_000, 100_000),
        ],
        near_depth: 100,
        far_depth: 100_000,
    }
}

#[test]
fn four_logarithmic_cascades_reach_the_far_plane() {
    // near = 0.1 and far = 100 in thousandths of a unit
    let config = CascadeShadowConfig::new(SplitScheme::Logarithmic, 4, 100, 100_000, 16).unwrap();
    let cascades = build_directional_light_cascades(&config, &corners());
    assert_eq!(cascades.len(), 4);
    let fars: Vec<u32> = cascades.iter().map(|c| c.far).collect();
    assert_eq!(fars, vec![562, 3162, 17782, 100_000]);
    assert!(fars.windows(2).all(|w| w[0] < w[1]));
    assert_eq!(*fars.last().unwrap(), 100_000);
}

#[test]
fn cascades_are_contiguous_in_depth() {
    for count in 1..=4u32 {
        let config =
            CascadeShadowConfig::new(SplitScheme::Logarithmic, count, 100, 100_000, 16).unwrap();
        let cascades = build_directional_light_cascades(&config, &corners());
        assert_eq!(cascades.len() as u32, count);
        assert_eq!(cascades[0].near, 100);
        assert_eq!(cascades[cascades.len() - 1].far, 100_000);
        for pair in cascades.windows(2) {
            assert_eq!(pair[0].far, pair[1].near);
            assert!(pair[0].far < pair[1].far);
        }
    }
}

#[test]
fn cascade_boxes_bound_their_slice_on_the_texel_grid() {
    let config = CascadeShadowConfig::new(SplitScheme::Logarithmic, 4, 100, 100_000, 16).unwrap();
    let cascades = build_directional_light_cascades(&config, &corners());
    // The second cascade spans the depths 562 to 3162. At depth 3162 the
    // frustum is 50 + 49950 * 3062 / 99900 = 1581 wide to each side, which
    // moves out to the next multiple of 16.
    let second: Cascade = cascades[1];
    assert_eq!(second.near, 562);
    assert_eq!(second.far, 3162);
    assert_eq!(second.min, v(-1584, -1584, 560));
    assert_eq!(second.max, v(1584, 1584, 3168));
    for c in cascades.iter() {
        for value in [c.min.x, c.min.y, c.min.z, c.max.x, c.max.y, c.max.z] {
            assert_eq!(value.rem_euclid(16), 0);
        }
    }
    // a texel of one unit leaves the bounds as they are
    let fine = CascadeShadowConfig::new(SplitScheme::Logarithmic, 4, 100, 100_000, 1).unwrap();
    let exact = build_directional_light_cascades(&fine, &corners());
    assert_eq!(exact[1].min, v(-1581, -1581, 562));
    assert_eq!(exact[1].max, v(1581, 1581, 3162));
}

#[test]
fn cascades_beyond_the_camera_are_cut_to_its_frustum() {
    let config = CascadeShadowConfig::from_bounds(vec![50, 100, 200_000], 1).unwrap();
    let cascades = build_directional_light_cascades(&config, &corners());
    assert_eq!(cascades[0].near, 50);
    assert_eq!(cascades[0].min, v(-50, -50, 100));
    assert_eq!(cascades[0].max, v(50, 50, 100));
    assert_eq!(cascades[1].far, 200_000);
    assert_eq!(cascades[1].max, v(50_000, 50_000, 100_000));
}

#[test]
fn cascade_configurations_are_validated() {
    assert!(CascadeShadowConfig::new(SplitScheme::Logarithmic, 5, 100, 100_000, 16).is_none());
    assert!(CascadeShadowConfig::new(SplitScheme::Logarithmic, 0, 100, 100_000, 16).is_none());
    assert!(CascadeShadowConfig::new(SplitScheme::Logarithmic, 4, 100, 100_000, 0).is_none());
    assert!(CascadeShadowConfig::new(SplitScheme::Logarithmic, 4, 100, 100_000, 1025).is_none());
    assert!(CascadeShadowConfig::new(SplitScheme::Logarithmic, 4, 100, 103, 16).is_none());
    assert!(CascadeShadowConfig::new(SplitScheme::Quadratic, 4, 100, 104, 16).is_some());
    assert!(CascadeShadowConfig::from_bounds(vec![1, 2, 3, 4, 5, 6], 1).is_none());
    assert!(CascadeShadowConfig::from_bounds(vec![1, 2, 2], 1).is_none());
    let own = CascadeShadowConfig::from_bounds(vec![10, 100, 1000], 4).unwrap();
    assert_eq!(own.slices.bounds, vec![10, 100, 1000]);
    assert_eq!(own.texel, 4);
    assert!(corners().is_wf());
    let mut bad = corners();
    bad.far_depth = 100;
    assert!(!bad.is_wf());
}

#[test]
fn planes_tell_inside_from_outside() {
    // the half-space x >= 10
    let plane = Plane { normal: v(1, 0, 0), offset: -10 };
    assert_eq!(plane.eval_exec(&v(25, 7, 7)), 15);
    let s = |x: i32, radius: u32| Sphere { center: v(x, 0, 0), radius };
    assert!(plane.is_sphere_behind(&s(4, 5)));
    assert!(!plane.is_sphere_behind(&s(5, 5)));
    assert!(!plane.is_sphere_inside(&s(14, 5)));
    assert!(plane.is_sphere_inside(&s(15, 5)));
    let flipped = plane.flipped();
    assert_eq!(flipped, Plane { normal: v(-1, 0, 0), offset: 10 });
    assert!(flipped.is_sphere_inside(&s(5, 5)));
    let b = |x0: i32, x1: i32| Aabb { min: v(x0, -1, -1), max: v(x1, 1, 1) };
    assert!(plane.is_aabb_behind(&b(0, 9)));
    assert!(!plane.is_aabb_behind(&b(0, 10)));
    assert!(flipped.is_aabb_behind(&b(11, 20)));
    // a slanted plane: x + y >= 0, whose normal has length sqrt 2
    let slanted = Plane { normal: v(1, 1, 0), offset: 0 };
    let at = |x: i32, y: i32| Sphere { center: v(x, y, 0), radius: 5 };
    // the centre's distance is 8 / sqrt 2 = 5.66 > 5
    assert!(slanted.is_sphere_behind(&at(-4, -4)));
    // 6 / sqrt 2 = 4.24 < 5
    assert!(!slanted.is_sphere_behind(&at(-3, -3)));
    assert!(!Sphere { center: v(0, 0, 0), radius: 0 }.is_wf());
    assert!(!Sphere { center: v(0, 0, 1_048_577), radius: 1 }.is_wf());
    assert!(Sphere { center: v(0, 0, 1_048_576), radius: 1_048_576 }.is_wf());
    assert!(!Aabb { min: v(1, 0, 0), max: v(0, 0, 0) }.is_wf());
}

#[test]
fn point_light_has_six_frusta_that_cover_its_range() {
    let position = v(100, 200, 300);
    let frusta: Vec<Frustum> = point_light_frusta(&position, 1, 50).unwrap();
    assert_eq!(frusta.len(), 6);
    let unit = |p: IVec3| Aabb { min: p, max: p };
    let holds = |f: &Frustum, p: IVec3| f.is_touching_aabb(&unit(p));
    // one point straight out of each face
    let out = [
        v(130, 200, 300),
        v(70, 200, 300),
        v(100, 230, 300),
        v(100, 170, 300),
        v(100, 200, 330),
        v(100, 200, 270),
    ];
    for (face, p) in out.iter().enumerate() {
        for (other, f) in frusta.iter().enumerate() {
            assert_eq!(holds(f, *p), face == other);
        }
    }
    // beyond the range and before the near plane no face holds the point
    assert!(frusta.iter().all(|f| !holds(f, v(151, 200, 300))));
    assert!(frusta.iter().all(|f| !holds(f, position)));
    // a point on the edge between +x and +y lies in both
    assert!(holds(&frusta[0], v(110, 210, 300)));
    assert!(holds(&frusta[2], v(110, 210, 300)));
    // the first face is bounded by x - y >= -100 and its five companions
    assert_eq!(frusta[0].left, Plane { normal: v(1, 1, 0), offset: -300 });
    assert_eq!(frusta[0].right, Plane { normal: v(1, -1, 0), offset: 100 });
    assert_eq!(frusta[0].near, Plane { normal: v(1, 0, 0), offset: -101 });
    assert_eq!(frusta[0].far, Plane { normal: v(-1, 0, 0), offset: 150 });
    assert!(point_light_frusta(&position, 51, 50).is_none());
    assert!(point_light_frusta(&v(0, 0, 2_000_000), 1, 50).is_none());
    assert!(point_light_frusta(&position, 1, 1_048_577).is_none());
}

#[test]
fn spot_light_has_one_frustum_along_its_direction() {
    // looks along +z and opens by one half: at depth d it is d / 2 wide to
    // each side
    let basis: Basis = face_basis(4);
    let f: Frustum = spot_light_frustum(&v(0, 0, 0), &basis, 1, 2, 10, 100).unwrap();
    let unit = |p: IVec3| Aabb { min: p, max: p };
    assert!(f.is_touching_aabb(&unit(v(0, 0, 50))));
    assert!(f.is_touching_aabb(&unit(v(25, -25, 50))));
    assert!(!f.is_touching_aabb(&unit(v(26, 0, 50))));
    assert!(!f.is_touching_aabb(&unit(v(0, 0, 9))));
    assert!(!f.is_touching_aabb(&unit(v(0, 0, 101))));
    assert!(f.is_touching_sphere(&Sphere { center: v(40, 0, 50), radius: 14 }));
    assert!(!f.is_touching_sphere(&Sphere { center: v(40, 0, 50), radius: 13 }));
    assert!(f.is_enclosing_sphere(&Sphere { center: v(0, 0, 50), radius: 22 }));
    assert!(!f.is_enclosing_sphere(&Sphere { center: v(0, 0, 50), radius: 23 }));
    assert!(spot_light_frustum(&v(0, 0, 0), &basis, 0, 2, 10, 100).is_none());
    assert!(spot_light_frustum(&v(0, 0, 0), &basis, 1, 513, 10, 100).is_none());
    assert!(spot_light_frustum(&v(0, 0, 0), &basis, 1, 2, 100, 10).is_none());
    let long = Basis { forward: v(0, 0, 513), right: v(1, 0, 0), up: v(0, 1, 0) };
    assert!(view_frustum(&v(0, 0, 0), &long, 1, 1, 0, 10).is_none());
}

#[test]
fn visibility_lists_the_casters_that_reach_into_the_view() {
    let basis: Basis = face_basis(4);
    let f: Frustum = view_frustum(&v(0, 0, 0), &basis, 1, 1, 10, 100).unwrap();
    let meshes = vec![
        cube(1, v(0, 0, 50), 5, true),
        cube(2, v(0, 0, 50), 5, false),
        cube(3, v(0, 0, 200), 5, true),
        cube(4, v(70, 0, 50), 5, true),
        cube(5, v(60, 0, 50), 5, true),
        cube(6, v(0, 0, 104), 5, true),
        cube(7, v(0, 0, 2_000_000), 5, true),
    ];
    assert_eq!(check_light_mesh_visibility(&f, &meshes), vec![1, 5, 6]);
    assert_eq!(check_light_mesh_visibility(&f, &Vec::new()), Vec::<u64>::new());
}

#[test]
fn each_cube_face_and_each_cascade_gets_its_own_list() {
    let frusta: Vec<Frustum> = point_light_frusta(&v(0, 0, 0), 1, 100).unwrap();
    let meshes = vec![
        cube(1, v(50, 0, 0), 2, true),
        cube(2, v(0, -50, 0), 2, true),
        cube(3, v(0, 0, 50), 2, true),
        cube(4, v(30, 30, 0), 2, true),
    ];
    let lists = check_point_light_mesh_visibility(&frusta, &meshes);
    assert_eq!(lists, vec![vec![1, 4], vec![], vec![4], vec![2], vec![3], vec![]]);

    let config = CascadeShadowConfig::from_bounds(vec![100, 1000, 100_000], 1).unwrap();
    let cascades = build_directional_light_cascades(&config, &corners());
    let casters = vec![
        cube(1, v(0, 0, 500), 10, true),
        cube(2, v(0, 0, 50_000), 10, true),
        cube(3, v(0, 0, 1000), 10, true),
        cube(4, v(600, 0, 2000), 10, true),
    ];
    let per_cascade = check_dir_light_mesh_visibility(&cascades, &casters);
    assert_eq!(per_cascade, vec![vec![1, 3], vec![2, 3, 4]]);
}

fn shadow_light(entity: u64, kind: ShadowLightKind, shadows: bool, visible: bool) -> ShadowLight {
    ShadowLight { entity, kind, shadows_enabled: shadows, visible }
}

#[test]
fn light_views_follow_the_lights() {
    let mut views = LightViews::new();
    let first = vec![
        shadow_light(1, ShadowLightKind::Point, true, true),
        shadow_light(2, ShadowLightKind::Spot, true, true),
        shadow_light(3, ShadowLightKind::Directional { cascades: 3 }, true, true),
        shadow_light(4, ShadowLightKind::Spot, false, true),
        shadow_light(5, ShadowLightKind::Spot, true, false),
    ];
    let changes = views.update(&first);
    assert_eq!(changes.created, vec![1, 2, 3]);
    assert!(changes.refreshed.is_empty());
    assert!(changes.removed.is_empty());
    assert_eq!(views.owners, vec![1, 2, 3]);
    assert_eq!(views.views.len(), 6 + 1 + 3);
    assert_eq!(views.views[0], LightView { light: 1, kind: LightViewKind::CubeFace(0) });
    assert_eq!(views.views[5], LightView { light: 1, kind: LightViewKind::CubeFace(5) });
    assert_eq!(views.views[6], LightView { light: 2, kind: LightViewKind::Spot });
    assert_eq!(views.views[7], LightView { light: 3, kind: LightViewKind::Cascade(0) });
    assert_eq!(views.views[9], LightView { light: 3, kind: LightViewKind::Cascade(2) });

    // light 1 is deleted, light 2 loses its shadows, light 4 gains them
    let second = vec![
        shadow_light(2, ShadowLightKind::Spot, false, true),
        shadow_light(3, ShadowLightKind::Directional { cascades: 9 }, true, true),
        shadow_light(4, ShadowLightKind::Spot, true, true),
    ];
    let changes = views.update(&second);
    assert_eq!(changes.created, vec![4]);
    assert_eq!(changes.refreshed, vec![3]);
    assert_eq!(changes.removed, vec![1, 2]);
    assert_eq!(views.owners, vec![3, 4]);
    // a directional light gets at most four cascades
    assert_eq!(views.views.len(), 4 + 1);

    let changes = views.update(&Vec::new());
    assert_eq!(changes.removed, vec![3, 4]);
    assert!(views.views.is_empty());
}

#[test]
fn cascades_are_cleared_before_they_are_built() {
    let config = CascadeShadowConfig::new(SplitScheme::Logarithmic, 4, 100, 100_000, 16).unwrap();
    let mut cascades = Cascades::new();
    cascades.build_for(7, &config, &corners());
    cascades.build_for(8, &config, &corners());
    assert_eq!(cascades.views, vec![7, 8]);
    assert_eq!(cascades.cascades.len(), 2);
    assert_eq!(cascades.cascades[0].len(), 4);
    assert_eq!(cascades.cascades[0], cascades.cascades[1]);
    clear_directional_light_cascades(&mut cascades);
    assert!(cascades.views.is_empty());
    assert!(cascades.cascades.is_empty());
}

#[test]
fn shadow_pass_draws_each_view_into_its_map() {
    let mut views = LightViews::new();
    views.update(&vec![
        shadow_light(1, ShadowLightKind::Spot, true, true),
        shadow_light(2, ShadowLightKind::Directional { cascades: 2 }, true, true),
    ]);
    let visible: Vec<Vec<u64>> = vec![vec![10, 11], vec![], vec![12]];
    let draws = shadow_draws(&views.views, &visible).unwrap();
    assert_eq!(draws.len(), 3);
    for (slot, draw) in draws.iter().enumerate() {
        assert_eq!(draw.shadow_map as usize, slot);
        assert_eq!(draw.view, views.views[slot]);
        assert_eq!(draw.meshes, visible[slot]);
    }
    assert!(shadow_draws(&views.views, &vec![vec![10]]).is_none());
    assert_eq!(shadow_draws(&Vec::new(), &Vec::new()).unwrap().len(), 0);
    assert!(holds(&vec![1, 2, 3], 2));
    assert!(!holds(&vec![1, 2, 3], 4));
}

#[test]
fn cascades_are_kept_until_something_changes() {
    let config = CascadeShadowConfig::new(SplitScheme::Logarithmic, 4, 100, 100_000, 16).unwrap();
    let mut cache = CascadeCache::new();
    assert!(cache.update(&config, &corners()));
    let first = cache.cascades().clone();
    assert_eq!(first, build_directional_light_cascades(&config, &corners()));
    assert!(!cache.update(&config, &corners()));
    assert_eq!(cache.cascades(), &first);
    // the camera moves
    let mut moved = corners();
    moved.far[2] = v(50_016, 50_000, 100_000);
    assert!(!is_same_corners(&moved, &corners()));
    assert!(is_same_corners(&moved, &moved));
    assert!(cache.update(&config, &moved));
    assert_eq!(cache.cascades()[3].max, v(50_016, 50_000, 100_000));
    assert!(!cache.update(&config, &moved));
    // the configuration changes
    let coarse = CascadeShadowConfig::new(SplitScheme::Logarithmic, 4, 100, 100_000, 32).unwrap();
    assert!(cache.update(&coarse, &moved));
    let fewer = CascadeShadowConfig::new(SplitScheme::Logarithmic, 3, 100, 100_000, 32).unwrap();
    assert!(cache.update(&fewer, &moved));
    assert_eq!(cache.cascades().len(), 3);
}
