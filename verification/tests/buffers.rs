use pbr_lighting::camera::{Camera, Projection};
use pbr_lighting::cluster::{ClusterConfig, Clusters, Grid};
use pbr_lighting::depth::SplitScheme;
use pbr_lighting::cascade::Cascade;
use pbr_lighting::extract::{
    extract_clusters, extract_directional_lights, extract_lights, DirectionalLight, Light,
    RenderWorld,
};
use pbr_lighting::geometry::IVec3;
use pbr_lighting::gpu::{
    gpu_records, pack_lights, prepare_clusters, prepare_lights, ClusterBuffers, GpuLight,
    MAX_LIGHT_RECORDS, MAX_SHADOW_MAPS, MIN_RADIUS, NO_SHADOW_MAP, RECORD_BYTES,
};
use pbr_lighting::graph::NodePbr;
use pbr_lighting::light::{clusterable_objects, has_priority, select_lights, ExtractedLight, LinearColor};
use pbr_lighting::plugin::{
    DefaultMaterial, LightResource, LightViewObserver, NodeEdge, OrderedSystem, PbrPlugin,
    PbrProjectionPlugin, ProjectionKind, RenderResource, SubPlugin,
};
use pbr_lighting::schedule::{
    edge_kind, frame_order, is_valid_order, must_run_after, EdgeKind, SimulationLightSystems,
    System, SYSTEM_COUNT,
};

fn white() -> LinearColor {
    LinearColor { red: 65535, green: 65535, blue: 65535, alpha: 65535 }
}

fn light_at(entity: u64, z: i32, intensity: u32, shadows: bool) -> ExtractedLight {
    ExtractedLight {
        entity,
        position: IVec3 { x: 0, y: 0, z },
        range: 100,
        radius: 2,
        color: white(),
        intensity,
        shadows_enabled: shadows,
    }
}

#[test]
fn lights_are_selected_nearest_first() {
    let lights = vec![
        light_at(1, 500, 10, false),
        light_at(2, 100, 10, false),
        light_at(3, -300, 10, false),
        light_at(4, 100, 20, false),
        light_at(5, 100, 10, false),
    ];
    // by distance, then the brighter, then the earlier
    assert_eq!(select_lights(&lights, 10), vec![3, 1, 4, 2, 0]);
    assert_eq!(select_lights(&lights, 5), vec![3, 1, 4, 2, 0]);
    assert_eq!(select_lights(&lights, 3), vec![3, 1, 4]);
    assert_eq!(select_lights(&lights, 1), vec![3]);
    assert_eq!(select_lights(&lights, 0), Vec::<u32>::new());
    assert!(has_priority(&lights[3], 3, &lights[1], 1));
    assert!(has_priority(&lights[1], 1, &lights[4], 4));
    assert!(!has_priority(&lights[4], 4, &lights[1], 1));
    assert!(!has_priority(&lights[1], 1, &lights[1], 1));
}

#[test]
fn lights_without_range_or_out_of_range_get_no_record() {
    let mut dark = light_at(1, 100, 10, false);
    dark.range = 0;
    let mut far = light_at(2, 100, 10, false);
    far.position.x = 2_000_000;
    let mut wide = light_at(3, 100, 10, false);
    wide.range = 1_048_577;
    let good = light_at(4, 100, 10, false);
    assert!(!dark.is_valid() && !far.is_valid() && !wide.is_valid() && good.is_valid());
    let lights = vec![dark, far, wide, good];
    assert_eq!(select_lights(&lights, 10), vec![3]);
    let prepared = prepare_lights(&lights, MAX_LIGHT_RECORDS, MAX_SHADOW_MAPS);
    assert_eq!(prepared.records.len(), 1);
    assert_eq!(prepared.records[0].position, good.position);
    assert_eq!(select_lights(&Vec::new(), 10), Vec::<u32>::new());
}

#[test]
fn more_lights_than_records_drop_the_farthest() {
    let mut lights: Vec<ExtractedLight> = Vec::new();
    for n in 0..300u32 {
        // light n stands at depth 1000 - n: later lights are nearer
        lights.push(light_at(n as u64, 1000 - n as i32, 10, false));
    }
    let prepared = prepare_lights(&lights, MAX_LIGHT_RECORDS, MAX_SHADOW_MAPS);
    assert_eq!(MAX_LIGHT_RECORDS, 256);
    assert_eq!(prepared.records.len(), 256);
    assert_eq!(prepared.order.len(), 256);
    // the nearest 256 are kept, nearest first: the lights 299 down to 44
    let expected: Vec<u32> = (44..300u32).rev().collect();
    assert_eq!(prepared.order, expected);
    assert_eq!(prepared.records[0].position.z, 701);
    assert_eq!(prepared.records[255].position.z, 956);
    // the same lights again give the same selection
    assert_eq!(prepare_lights(&lights, MAX_LIGHT_RECORDS, MAX_SHADOW_MAPS).order, expected);
}

#[test]
fn shadow_maps_go_to_the_first_casters_of_the_selection() {
    let lights = vec![
        light_at(1, 400, 10, true),
        light_at(2, 100, 10, false),
        light_at(3, 300, 10, true),
        light_at(4, 200, 10, true),
    ];
    let order = select_lights(&lights, 10);
    assert_eq!(order, vec![1, 3, 2, 0]);
    let records = gpu_records(&lights, &order, 2);
    let maps: Vec<u32> = records.iter().map(|r| r.shadow_map).collect();
    assert_eq!(maps, vec![NO_SHADOW_MAP, 0, 1, NO_SHADOW_MAP]);
    let none = gpu_records(&lights, &order, 0);
    assert!(none.iter().all(|r| r.shadow_map == NO_SHADOW_MAP));
    assert_eq!(NO_SHADOW_MAP, u32::MAX);
}

#[test]
fn records_keep_the_light_and_raise_a_radius_of_zero() {
    let mut l = light_at(9, 100, 10, true);
    l.position = IVec3 { x: -7, y: 8, z: -1_048_576 };
    l.radius = 0;
    l.color = LinearColor { red: 1, green: 2, blue: 3, alpha: 4 };
    let records = gpu_records(&vec![l], &vec![0], 4);
    assert_eq!(
        records,
        vec![GpuLight {
            position: l.position,
            range: 100,
            radius: MIN_RADIUS,
            color: l.color,
            shadow_map: 0
        }]
    );
    assert_eq!(MIN_RADIUS, 1);
}

#[test]
fn records_have_forty_bytes_in_a_fixed_layout() {
    let record = GpuLight {
        position: IVec3 { x: 1, y: -1, z: 0x0102_0304 },
        range: 0x0a0b_0c0d,
        radius: 5,
        color: LinearColor { red: 6, green: 7, blue: 8, alpha: 0xffff_ffff },
        shadow_map: NO_SHADOW_MAP,
    };
    let mut bytes: Vec<u8> = vec![0xee];
    record.write(&mut bytes);
    assert_eq!(bytes.len(), 1 + RECORD_BYTES);
    let expected: Vec<u8> = vec![
        0xee, 1, 0, 0, 0, 0xff, 0xff, 0xff, 0xff, 4, 3, 2, 1, 0x0d, 0x0c, 0x0b, 0x0a, 5, 0, 0, 0,
        6, 0, 0, 0, 7, 0, 0, 0, 8, 0, 0, 0, 0xff, 0xff, 0xff, 0xff, 0xff, 0xff, 0xff, 0xff,
    ];
    assert_eq!(bytes, expected);
    assert_eq!(GpuLight::read(&bytes, 1), Some(record));
    assert_eq!(GpuLight::read(&bytes, 2), None);
    assert_eq!(GpuLight::read(&Vec::new(), 0), None);
    assert_eq!(GpuLight::read(&bytes, usize::MAX), None);
}

#[test]
fn extracted_light_comes_back_from_its_record() {
    let sim = vec![
        Light {
            entity: 1,
            position: IVec3 { x: -123_456, y: 654_321, z: -1 },
            range: 5_000,
            radius: 0,
            color: LinearColor { red: 10, green: 20, blue: 30, alpha: 40 },
            intensity: 800,
            shadows_enabled: true,
            visible: true,
        },
        Light {
            entity: 2,
            position: IVec3 { x: 0, y: 0, z: 10 },
            range: 50,
            radius: 3,
            color: white(),
            intensity: 100,
            shadows_enabled: true,
            visible: false,
        },
        Light {
            entity: 3,
            position: IVec3 { x: 0, y: 0, z: 10 },
            range: 50,
            radius: 3,
            color: white(),
            intensity: 100,
            shadows_enabled: false,
            visible: true,
        },
    ];
    let extracted = extract_lights(&sim);
    assert_eq!(extracted.len(), 2);
    assert_eq!(extracted[0].entity, 1);
    assert_eq!(extracted[1].entity, 3);
    let prepared = prepare_lights(&extracted, MAX_LIGHT_RECORDS, MAX_SHADOW_MAPS);
    assert_eq!(prepared.order, vec![1, 0]);
    let bytes = pack_lights(&prepared.records);
    assert_eq!(bytes.len(), 80);
    let near = GpuLight::read(&bytes, 0).unwrap();
    assert_eq!(near.position, sim[2].position);
    assert_eq!(near.shadow_map, NO_SHADOW_MAP);
    let back = GpuLight::read(&bytes, 40).unwrap();
    assert_eq!(back.position, sim[0].position);
    assert_eq!(back.range, 5_000);
    assert_eq!(back.radius, 1);
    assert_eq!(back.color, sim[0].color);
    assert_eq!(back.shadow_map, 0);
}

fn sun(entity: u64, visible: bool) -> DirectionalLight {
    let at = |n: i32| IVec3 { x: n, y: n, z: n };
    DirectionalLight {
        entity,
        direction: IVec3 { x: 0, y: -256, z: 0 },
        color: white(),
        illuminance: 10_000,
        shadows_enabled: true,
        depth_bias: 2,
        visible,
        cascades: vec![Cascade { near: 1, far: entity as u32 + 1, min: at(-4), max: at(4) }],
    }
}

#[test]
fn directional_lights_are_extracted_with_their_cascades() {
    let out = extract_directional_lights(&vec![sun(1, false), sun(2, true)]);
    assert_eq!(out.len(), 1);
    assert_eq!(out[0].entity, 2);
    assert_eq!(out[0].direction, IVec3 { x: 0, y: -256, z: 0 });
    assert_eq!(out[0].color, white());
    assert_eq!(out[0].illuminance, 10_000);
    assert!(out[0].shadows_enabled);
    assert_eq!(out[0].cascades, sun(2, true).cascades);
    assert!(extract_directional_lights(&Vec::new()).is_empty());
}

#[test]
fn extraction_replaces_what_the_render_world_held() {
    let camera = Camera::new(1600, 900, Projection::Perspective { focal: 800 }, 100, 100_000)
        .unwrap();
    let config = ClusterConfig::Fixed { x: 2, y: 2, z: 2 };
    let mut clusters = Clusters::new(Grid::build(camera, &config, SplitScheme::Quadratic));
    let lights = vec![light_at(1, 50_000, 10, false), light_at(2, -50_000, 10, false)];
    let order = select_lights(&lights, 10);
    clusters.assign(&clusterable_objects(&lights, &order), 16_384);

    let mut world = RenderWorld::new();
    assert!(world.lights.is_empty() && world.clusters.is_none());
    let sim = vec![Light {
        entity: 1,
        position: IVec3 { x: 0, y: 0, z: 50_000 },
        range: 100,
        radius: 2,
        color: white(),
        intensity: 10,
        shadows_enabled: false,
        visible: true,
    }];
    world.extract(&sim, &vec![sun(5, true), sun(6, false), sun(7, true)], Some(&clusters));
    let suns: Vec<u64> = world.directional_lights.iter().map(|l| l.entity).collect();
    assert_eq!(suns, vec![5, 7]);
    assert_eq!(world.directional_lights[1].cascades, sun(7, true).cascades);
    assert_eq!(world.directional_lights[1].depth_bias, 2);
    assert_eq!(world.lights.len(), 1);
    let copy = world.clusters.as_ref().unwrap();
    assert_eq!(copy.cells, clusters.cells);
    assert_eq!(copy.dims, clusters.grid.dims);
    assert_eq!((copy.near, copy.far), (100, 100_000));
    assert_eq!(extract_clusters(&clusters).cells, clusters.cells);
    // the next frame has no camera and no light: nothing is left over
    world.extract(&Vec::new(), &Vec::new(), None);
    assert!(world.lights.is_empty());
    assert!(world.directional_lights.is_empty());
    assert!(world.clusters.is_none());
}

#[test]
fn cluster_buffers_give_each_list_its_place() {
    let cells: Vec<Vec<u32>> = vec![vec![0, 2], vec![], vec![1], vec![0, 1, 2]];
    let all = prepare_clusters(&cells, 16_384);
    assert_eq!(all.table, vec![(0, 2), (2, 0), (2, 1), (3, 3)]);
    assert_eq!(all.indices, vec![0, 2, 1, 0, 1, 2]);
    for (c, (start, len)) in all.table.iter().enumerate() {
        let (a, b) = (*start as usize, (*start + *len) as usize);
        assert_eq!(&all.indices[a..b], cells[c].as_slice());
    }
    // the last list does not fit five indices: it is left out, whole
    let cut = prepare_clusters(&cells, 5);
    assert_eq!(cut.table, vec![(0, 2), (2, 0), (2, 1), (3, 0)]);
    assert_eq!(cut.indices, vec![0, 2, 1]);
    // once a list did not fit, no later list is taken either
    let early = prepare_clusters(&cells, 1);
    assert_eq!(early.table, vec![(0, 0), (0, 0), (0, 0), (0, 0)]);
    assert!(early.indices.is_empty());
    let empty = prepare_clusters(&Vec::new(), 16);
    assert!(empty.table.is_empty() && empty.indices.is_empty());
}

#[test]
fn frame_order_respects_every_declared_edge() {
    let order = frame_order();
    assert_eq!(order.len(), SYSTEM_COUNT);
    assert!(is_valid_order(&order));
    for (at, system) in order.iter().enumerate() {
        assert_eq!(system.rank() as usize, at);
        assert_eq!(System::with_rank(at as u8), *system);
    }
    for later in order.iter() {
        for earlier in order.iter() {
            if must_run_after(*later, *earlier) {
                assert!(earlier.rank() < later.rank());
            }
        }
    }
    let mut swapped = order.clone();
    swapped.swap(5, 6);
    assert!(!is_valid_order(&swapped));
    let mut harmless = order.clone();
    harmless.swap(10, 11);
    assert!(is_valid_order(&harmless));
    assert!(is_valid_order(&vec![System::ShadowPass]));
    assert!(!is_valid_order(&vec![System::StartMainPass, System::ShadowPass]));
    assert!(!is_valid_order(&vec![System::PrepareLights, System::ExtractLights]));
}

#[test]
fn declared_edges_match_the_pipeline() {
    assert!(must_run_after(System::AssignObjectsToClusters, System::AddClusters));
    assert!(must_run_after(System::AddClusters, System::CameraUpdate));
    assert!(must_run_after(
        System::BuildDirectionalLightCascades,
        System::ClearDirectionalLightCascades
    ));
    assert!(must_run_after(System::CheckDirLightMeshVisibility, System::UpdateSpotLightFrusta));
    assert!(must_run_after(System::CheckPointLightMeshVisibility, System::CheckVisibility));
    assert!(must_run_after(System::ExtractLights, System::CheckPointLightMeshVisibility));
    assert!(must_run_after(System::PrepareLights, System::PrepareAssets));
    assert!(must_run_after(System::PrepareClusters, System::ExtractClusters));
    assert!(must_run_after(System::StartMainPass, System::ShadowPass));
    // every builder of frusta runs after the assignment
    assert!(must_run_after(System::UpdateDirectionalLightFrusta, System::AssignObjectsToClusters));
    assert!(must_run_after(System::UpdatePointLightFrusta, System::AssignObjectsToClusters));
    assert!(must_run_after(System::UpdateSpotLightFrusta, System::AssignObjectsToClusters));
    assert!(must_run_after(System::ExtractDefaultMaterials, System::ClearMaterialInstances));
    assert!(must_run_after(System::CheckDirLightMeshVisibility, System::CheckVisibilityWithLight));
    assert_eq!(
        edge_kind(System::AddClusters, System::CameraUpdate),
        Some(EdgeKind::Collaborator)
    );
    assert_eq!(
        edge_kind(System::UpdatePointLightFrusta, System::AssignObjectsToClusters),
        Some(EdgeKind::WholeSet(SimulationLightSystems::AssignLightsToClusters))
    );
    assert_eq!(
        edge_kind(System::BuildDirectionalLightCascades, System::ClearDirectionalLightCascades),
        Some(EdgeKind::OneSystem)
    );
    assert_eq!(edge_kind(System::AddClusters, System::ShadowPass), None);
    assert!(!must_run_after(System::AddClusters, System::AssignObjectsToClusters));
    assert!(!must_run_after(System::UpdatePointLightFrusta, System::UpdateSpotLightFrusta));
    assert!(!must_run_after(System::CameraUpdate, System::TransformPropagate));
    assert_eq!(System::AddClusters.set(), Some(SimulationLightSystems::AddClusters));
    assert_eq!(
        System::BuildDirectionalLightCascades.set(),
        Some(SimulationLightSystems::UpdateDirectionalLightCascades)
    );
    assert_eq!(System::ExtractLights.set(), None);
    assert!(SimulationLightSystems::UpdateDirectionalLightCascades.is_ambiguous_with_itself());
    assert!(SimulationLightSystems::CheckLightVisibility.is_ambiguous_with_itself());
    assert!(!SimulationLightSystems::AddClusters.is_ambiguous_with_itself());
}

#[test]
fn plugin_defaults_enable_everything() {
    let plugin = PbrPlugin::default();
    assert!(plugin.prepass_enabled);
    assert!(plugin.add_default_deferred_lighting_plugin);
    assert!(plugin.use_gpu_instance_buffer_builder);
}

#[test]
fn plugin_hands_its_settings_on() {
    let plugin = PbrPlugin {
        prepass_enabled: false,
        add_default_deferred_lighting_plugin: false,
        use_gpu_instance_buffer_builder: true,
    };
    let setup = plugin.build(true);
    assert_eq!(setup.plugins.len(), 15);
    assert_eq!(
        setup.plugins[0],
        SubPlugin::MeshRender { use_gpu_instance_buffer_builder: true }
    );
    assert_eq!(setup.plugins[1], SubPlugin::StandardMaterial { prepass_enabled: false });
    assert_eq!(setup.plugins[9], SubPlugin::Projection(ProjectionKind::Any));
    assert_eq!(setup.plugins[10], SubPlugin::Projection(ProjectionKind::Perspective));
    assert_eq!(setup.plugins[11], SubPlugin::Projection(ProjectionKind::Orthographic));
    assert_eq!(
        setup.plugins[12],
        SubPlugin::GpuMeshPreprocess { use_gpu_instance_buffer_builder: true }
    );
    assert!(!setup.plugins.contains(&SubPlugin::DeferredPbrLighting));
    assert_eq!(setup.systems.len(), 9);
    assert_eq!(setup.systems[6], System::CheckVisibilityWithLight);
    assert_eq!(
        setup.render_systems,
        vec![
            System::ExtractClusters,
            System::ExtractLights,
            System::ExtractDefaultMaterials,
            System::PrepareLights,
            System::PrepareClusters
        ]
    );
    assert_eq!(setup.render_resources, vec![RenderResource::LightMeta]);
    assert_eq!(
        setup.observers,
        vec![LightViewObserver::AddLightViewEntities, LightViewObserver::RemoveLightViewEntities]
    );
    assert_eq!(
        setup.resources,
        vec![
            LightResource::AmbientLight,
            LightResource::GlobalVisibleClusterableObjects,
            LightResource::DirectionalLightShadowMap,
            LightResource::PointLightShadowMap
        ]
    );
    assert_eq!(
        setup.shadow_pass,
        Some(NodeEdge { node: NodePbr::ShadowPass, before: System::StartMainPass })
    );
    let deferred = PbrPlugin::default().build(true);
    assert_eq!(deferred.plugins.len(), 16);
    assert_eq!(deferred.plugins[15], SubPlugin::DeferredPbrLighting);
}

#[test]
fn plugin_without_a_render_side_sets_up_the_simulation_only() {
    let plugin = PbrPlugin::default();
    let setup = plugin.build(false);
    assert_eq!(setup.plugins.len(), 16);
    assert_eq!(setup.systems.len(), 9);
    assert_eq!(setup.resources.len(), 4);
    assert!(setup.render_systems.is_empty());
    assert!(setup.render_resources.is_empty());
    assert!(setup.observers.is_empty());
    assert_eq!(setup.shadow_pass, None);
    // the default material is white, with or without a render side
    let white = LinearColor { red: 65535, green: 65535, blue: 65535, alpha: 65535 };
    assert_eq!(setup.default_material, DefaultMaterial { base_color: white });
    assert_eq!(plugin.build(true).default_material, DefaultMaterial { base_color: white });
    assert!(plugin.finish(false).is_empty());
    assert_eq!(
        plugin.finish(true),
        vec![RenderResource::ShadowSamplers, RenderResource::GlobalClusterableObjectMeta]
    );
}

#[test]
fn projection_plugin_builds_cascades_after_the_clear() {
    let plugin: PbrProjectionPlugin<u8> = PbrProjectionPlugin::default();
    assert_eq!(
        plugin.build(),
        OrderedSystem {
            system: System::BuildDirectionalLightCascades,
            set: SimulationLightSystems::UpdateDirectionalLightCascades,
            after: System::ClearDirectionalLightCascades,
        }
    );
}

#[test]
fn render_graph_nodes_have_a_fixed_order() {
    assert_eq!(NodePbr::GpuPreprocess.rank(), 0);
    assert_eq!(NodePbr::ShadowPass.rank(), 1);
    assert_eq!(NodePbr::ScreenSpaceAmbientOcclusion.rank(), 2);
    assert_eq!(NodePbr::DeferredLightingPass.rank(), 3);
    assert_eq!(NodePbr::ScreenSpaceReflections.rank(), 4);
    assert_eq!(NodePbr::VolumetricFog.rank(), 5);
}

#[test]
fn cluster_buffers_have_a_fixed_layout() {
    let buffers =
        ClusterBuffers { table: vec![(0, 2), (2, 0)], indices: vec![5, 0x0102_0304] };
    let bytes = buffers.to_bytes();
    let expected: Vec<u8> = vec![
        0, 0, 0, 0, 2, 0, 0, 0, 2, 0, 0, 0, 0, 0, 0, 0, 5, 0, 0, 0, 4, 3, 2, 1,
    ];
    assert_eq!(bytes, expected);
    assert_eq!(ClusterBuffers::read_entry(&bytes, 0), Some((0, 2)));
    assert_eq!(ClusterBuffers::read_entry(&bytes, 1), Some((2, 0)));
    assert_eq!(ClusterBuffers::read_entry(&bytes, 3), None);
    assert_eq!(ClusterBuffers::read_entry(&bytes, usize::MAX), None);
    assert_eq!(ClusterBuffers::read_index(&bytes, 2, 0), Some(5));
    assert_eq!(ClusterBuffers::read_index(&bytes, 2, 1), Some(0x0102_0304));
    assert_eq!(ClusterBuffers::read_index(&bytes, 2, 2), None);
    assert_eq!(ClusterBuffers::read_index(&bytes, 3, 0), None);
    assert_eq!(ClusterBuffers::read_index(&bytes, usize::MAX, usize::MAX), None);
    let empty = prepare_clusters(&Vec::new(), 16).to_bytes();
    assert!(empty.is_empty());
    assert_eq!(ClusterBuffers::read_entry(&empty, 0), None);
}
