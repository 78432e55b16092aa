//! What the lighting plugins set up in an application: which plugins they
//! add and with which settings, which systems they register, and where the
//! shadow pass enters the render graph.
//!
//! The plugins decide; the application that hosts them carries the
//! decisions out.

use crate::graph::NodePbr;
use crate::light::LinearColor;
use crate::schedule::{SimulationLightSystems, System};
use core::marker::PhantomData;
use vstd::prelude::*;

verus! {

/// The projections for which directional light cascades are built.
#[derive(Clone, Copy, Debug, PartialEq, Eq, Structural)]
pub enum ProjectionKind {
    /// A camera whose projection is chosen at run time.
    Any,
    Perspective,
    Orthographic,
}

/// A plugin that the lighting plugin adds, with the settings that it hands
/// on.
#[derive(Clone, Copy, Debug, PartialEq, Eq, Structural)]
pub enum SubPlugin {
    MeshRender { use_gpu_instance_buffer_builder: bool },
    StandardMaterial { prepass_enabled: bool },
    ScreenSpaceAmbientOcclusion,
    ExtractAmbientLight,
    Fog,
    ExtractDefaultOpaqueRendererMethod,
    ExtractShadowFilteringMethod,
    Lightmap,
    LightProbe,
    Projection(ProjectionKind),
    GpuMeshPreprocess { use_gpu_instance_buffer_builder: bool },
    VolumetricFog,
    ScreenSpaceReflections,
    DeferredPbrLighting,
}

/// A resource that the render side is given when the plugins are finished.
#[derive(Clone, Copy, Debug, PartialEq, Eq, Structural)]
pub enum RenderResource {
    LightMeta,
    ShadowSamplers,
    GlobalClusterableObjectMeta,
}

/// A resource of the simulation side that the lighting plugin initialises.
#[derive(Clone, Copy, Debug, PartialEq, Eq, Structural)]
pub enum LightResource {
    AmbientLight,
    GlobalVisibleClusterableObjects,
    DirectionalLightShadowMap,
    PointLightShadowMap,
}

/// An observer of the render side that keeps the light views in step with
/// the lights: one creates the views of a light that appears, the other
/// removes those of a light that goes.
#[derive(Clone, Copy, Debug, PartialEq, Eq, Structural)]
pub enum LightViewObserver {
    AddLightViewEntities,
    RemoveLightViewEntities,
}

/// The material that meshes without a material of their own are drawn
/// with.
#[derive(Clone, Copy, Debug, PartialEq, Eq, Structural)]
pub struct DefaultMaterial {
    pub base_color: LinearColor,
}

/// The largest value of a colour channel: full intensity.
pub const FULL_CHANNEL: u32 = 65535;

/// White: every channel at full intensity.
pub open spec fn spec_white() -> LinearColor {
    LinearColor { red: FULL_CHANNEL, green: FULL_CHANNEL, blue: FULL_CHANNEL, alpha: FULL_CHANNEL }
}

/// Where a node enters the render graph: `node` is added and has to run
/// before `before`.
#[derive(Clone, Copy, Debug, PartialEq, Eq, Structural)]
pub struct NodeEdge {
    pub node: NodePbr,
    pub before: System,
}

/// What the lighting plugin sets up.
#[derive(Debug)]
pub struct PbrSetup {
    /// The plugins to add, in this order.
    pub plugins: Vec<SubPlugin>,
    /// The resources of the simulation side to initialise.
    pub resources: Vec<LightResource>,
    /// The systems of the simulation side.
    pub systems: Vec<System>,
    /// The default material, which is set up whether or not there is a
    /// render side.
    pub default_material: DefaultMaterial,
    /// The resources of the render side to initialise; none where there is
    /// no render side.
    pub render_resources: Vec<RenderResource>,
    /// The observers of the render side; none where there is no render
    /// side.
    pub observers: Vec<LightViewObserver>,
    /// The systems of the render side; none where there is no render side.
    pub render_systems: Vec<System>,
    /// The shadow pass and the pass before which it runs; nothing where
    /// there is no render side.
    pub shadow_pass: Option<NodeEdge>,
}

/// Sets up the whole lighting pipeline.
#[derive(Clone, Copy, Debug, PartialEq, Eq, Structural)]
pub struct PbrPlugin {
    /// Whether the standard material gets a prepass.
    pub prepass_enabled: bool,
    /// Whether the deferred lighting plugin is added.
    pub add_default_deferred_lighting_plugin: bool,
    /// Whether per-instance data is built on the GPU.
    pub use_gpu_instance_buffer_builder: bool,
}

impl Default for PbrPlugin {
    fn default() -> (p: PbrPlugin)
        ensures
            p.prepass_enabled,
            p.add_default_deferred_lighting_plugin,
            p.use_gpu_instance_buffer_builder,
    {
        PbrPlugin {
            prepass_enabled: true,
            add_default_deferred_lighting_plugin: true,
            use_gpu_instance_buffer_builder: true,
        }
    }
}

impl PbrPlugin {
    /// The plugins that the lighting plugin adds: thirteen in any case,
    /// with the plugin's settings handed on to those that take them, and
    /// the deferred lighting plugin where it is asked for.
    pub open spec fn spec_plugins(&self) -> Seq<SubPlugin> {
        let fixed = seq![
            SubPlugin::MeshRender {
                use_gpu_instance_buffer_builder: self.use_gpu_instance_buffer_builder,
            },
            SubPlugin::StandardMaterial { prepass_enabled: self.prepass_enabled },
            SubPlugin::ScreenSpaceAmbientOcclusion,
            SubPlugin::ExtractAmbientLight,
            SubPlugin::Fog,
            SubPlugin::ExtractDefaultOpaqueRendererMethod,
            SubPlugin::ExtractShadowFilteringMethod,
            SubPlugin::Lightmap,
            SubPlugin::LightProbe,
            SubPlugin::Projection(ProjectionKind::Any),
            SubPlugin::Projection(ProjectionKind::Perspective),
            SubPlugin::Projection(ProjectionKind::Orthographic),
            SubPlugin::GpuMeshPreprocess {
                use_gpu_instance_buffer_builder: self.use_gpu_instance_buffer_builder,
            },
            SubPlugin::VolumetricFog,
            SubPlugin::ScreenSpaceReflections,
        ];
        if self.add_default_deferred_lighting_plugin {
            fixed.push(SubPlugin::DeferredPbrLighting)
        } else {
            fixed
        }
    }

    /// The systems that the lighting plugin registers on the simulation
    /// side.
    pub open spec fn spec_systems() -> Seq<System> {
        seq![
            System::AddClusters,
            System::AssignObjectsToClusters,
            System::ClearDirectionalLightCascades,
            System::UpdateDirectionalLightFrusta,
            System::UpdatePointLightFrusta,
            System::UpdateSpotLightFrusta,
            System::CheckVisibilityWithLight,
            System::CheckDirLightMeshVisibility,
            System::CheckPointLightMeshVisibility,
        ]
    }

    /// The systems that the lighting plugin registers on the render side.
    pub open spec fn spec_render_systems() -> Seq<System> {
        seq![
            System::ExtractClusters,
            System::ExtractLights,
            System::ExtractDefaultMaterials,
            System::PrepareLights,
            System::PrepareClusters,
        ]
    }

    /// The resources that the lighting plugin initialises on the
    /// simulation side.
    pub open spec fn spec_resources() -> Seq<LightResource> {
        seq![
            LightResource::AmbientLight,
            LightResource::GlobalVisibleClusterableObjects,
            LightResource::DirectionalLightShadowMap,
            LightResource::PointLightShadowMap,
        ]
    }

    /// The observers that the lighting plugin adds on the render side.
    pub open spec fn spec_observers() -> Seq<LightViewObserver> {
        seq![LightViewObserver::AddLightViewEntities, LightViewObserver::RemoveLightViewEntities]
    }

    /// What the plugin sets up. Without a render side only the plugins,
    /// the resources and the systems of the simulation side and the default
    /// material, which is white, are set up; with one, the systems, the
    /// resource and the observers of the render side as well, and the
    /// shadow pass, which enters the render graph before the main pass.
    pub fn build(&self, render_app: bool) -> (setup: PbrSetup)
        ensures
            setup.plugins@ == self.spec_plugins(),
            setup.resources@ == Self::spec_resources(),
            setup.systems@ == Self::spec_systems(),
            setup.default_material == (DefaultMaterial { base_color: spec_white() }),
            setup.render_resources@ == if render_app {
                seq![RenderResource::LightMeta]
            } else {
                Seq::empty()
            },
            setup.observers@ == if render_app {
                Self::spec_observers()
            } else {
                Seq::empty()
            },
            setup.render_systems@ == if render_app {
                Self::spec_render_systems()
            } else {
                Seq::empty()
            },
            setup.shadow_pass == if render_app {
                Some(NodeEdge { node: NodePbr::ShadowPass, before: System::StartMainPass })
            } else {
                None
            },
    {
        let mut plugins: Vec<SubPlugin> = vec![
            SubPlugin::MeshRender {
                use_gpu_instance_buffer_builder: self.use_gpu_instance_buffer_builder,
            },
            SubPlugin::StandardMaterial { prepass_enabled: self.prepass_enabled },
            SubPlugin::ScreenSpaceAmbientOcclusion,
            SubPlugin::ExtractAmbientLight,
            SubPlugin::Fog,
            SubPlugin::ExtractDefaultOpaqueRendererMethod,
            SubPlugin::ExtractShadowFilteringMethod,
            SubPlugin::Lightmap,
            SubPlugin::LightProbe,
            SubPlugin::Projection(ProjectionKind::Any),
            SubPlugin::Projection(ProjectionKind::Perspective),
            SubPlugin::Projection(ProjectionKind::Orthographic),
            SubPlugin::GpuMeshPreprocess {
                use_gpu_instance_buffer_builder: self.use_gpu_instance_buffer_builder,
            },
            SubPlugin::VolumetricFog,
            SubPlugin::ScreenSpaceReflections,
        ];
        if self.add_default_deferred_lighting_plugin {
            plugins.push(SubPlugin::DeferredPbrLighting);
        }
        assert(plugins@ =~= self.spec_plugins());
        let systems: Vec<System> = vec![
            System::AddClusters,
            System::AssignObjectsToClusters,
            System::ClearDirectionalLightCascades,
            System::UpdateDirectionalLightFrusta,
            System::UpdatePointLightFrusta,
            System::UpdateSpotLightFrusta,
            System::CheckVisibilityWithLight,
            System::CheckDirLightMeshVisibility,
            System::CheckPointLightMeshVisibility,
        ];
        assert(systems@ =~= Self::spec_systems());
        let resources: Vec<LightResource> = vec![
            LightResource::AmbientLight,
            LightResource::GlobalVisibleClusterableObjects,
            LightResource::DirectionalLightShadowMap,
            LightResource::PointLightShadowMap,
        ];
        assert(resources@ =~= Self::spec_resources());
        let default_material = DefaultMaterial {
            base_color: LinearColor {
                red: FULL_CHANNEL,
                green: FULL_CHANNEL,
                blue: FULL_CHANNEL,
                alpha: FULL_CHANNEL,
            },
        };
        if !render_app {
            return PbrSetup {
                plugins,
                resources,
                systems,
                default_material,
                render_systems: Vec::new(),
                render_resources: Vec::new(),
                observers: Vec::new(),
                shadow_pass: None,
            };
        }
        let render_resources: Vec<RenderResource> = vec![RenderResource::LightMeta];
        assert(render_resources@ =~= seq![RenderResource::LightMeta]);
        let observers: Vec<LightViewObserver> = vec![
            LightViewObserver::AddLightViewEntities,
            LightViewObserver::RemoveLightViewEntities,
        ];
        assert(observers@ =~= Self::spec_observers());
        let render_systems: Vec<System> = vec![
            System::ExtractClusters,
            System::ExtractLights,
            System::ExtractDefaultMaterials,
            System::PrepareLights,
            System::PrepareClusters,
        ];
        assert(render_systems@ =~= Self::spec_render_systems());
        PbrSetup {
            plugins,
            resources,
            systems,
            default_material,
            render_systems,
            render_resources,
            observers,
            shadow_pass: Some(
                NodeEdge { node: NodePbr::ShadowPass, before: System::StartMainPass },
            ),
        }
    }

    /// The resources that the render side is given once every plugin is
    /// built: none where there is no render side.
    pub fn finish(&self, render_app: bool) -> (resources: Vec<RenderResource>)
        ensures
            resources@ == if render_app {
                seq![RenderResource::ShadowSamplers, RenderResource::GlobalClusterableObjectMeta]
            } else {
                Seq::empty()
            },
    {
        if !render_app {
            return Vec::new();
        }
        let resources: Vec<RenderResource> = vec![
            RenderResource::ShadowSamplers,
            RenderResource::GlobalClusterableObjectMeta,
        ];
        assert(resources@ =~= seq![
            RenderResource::ShadowSamplers,
            RenderResource::GlobalClusterableObjectMeta,
        ]);
        resources
    }
}

/// A system with its set and the system that it has to run after.
#[derive(Clone, Copy, Debug, PartialEq, Eq, Structural)]
pub struct OrderedSystem {
    pub system: System,
    pub set: SimulationLightSystems,
    pub after: System,
}

/// What the lighting pipeline sets up for cameras with projection `T`.
pub struct PbrProjectionPlugin<T>(pub PhantomData<T>);

impl<T> PbrProjectionPlugin<T> {
    /// What the plugin sets up: the cascades of the directional lights are
    /// built, for cameras of this projection, after the cascades of the
    /// frame before were cleared.
    pub fn build(&self) -> (r: OrderedSystem)
        ensures
            r == (OrderedSystem {
                system: System::BuildDirectionalLightCascades,
                set: SimulationLightSystems::UpdateDirectionalLightCascades,
                after: System::ClearDirectionalLightCascades,
            }),
            crate::schedule::runs_after(r.system, r.after),
            r.system.spec_set() == Some(r.set),
    {
        OrderedSystem {
            system: System::BuildDirectionalLightCascades,
            set: SimulationLightSystems::UpdateDirectionalLightCascades,
            after: System::ClearDirectionalLightCascades,
        }
    }
}

impl<T> Default for PbrProjectionPlugin<T> {
    fn default() -> (p: PbrProjectionPlugin<T>)
        ensures
            p == PbrProjectionPlugin::<T>(PhantomData),
    {
        PbrProjectionPlugin(PhantomData)
    }
}

} // verus!
