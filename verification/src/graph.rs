//! Labels of the render-graph nodes owned by the lighting pipeline.

use vstd::prelude::*;

verus! {

/// A node of the pipeline inside the 3D render graph.
#[derive(Debug, Hash, PartialEq, Eq, Clone, Copy, Structural)]
pub enum NodePbr {
    /// The shadow pass, which fills every shadow map of the frame.
    ShadowPass,
    /// The screen space ambient occlusion pass.
    ScreenSpaceAmbientOcclusion,
    /// The deferred lighting pass.
    DeferredLightingPass,
    /// The volumetric lighting pass.
    VolumetricFog,
    /// The compute pass that builds per-instance data.
    GpuPreprocess,
    /// The screen space reflections pass.
    ScreenSpaceReflections,
}

impl NodePbr {
    /// Position of the node in the fixed order of the pipeline's nodes.
    pub open spec fn spec_rank(self) -> u8 {
        match self {
            NodePbr::GpuPreprocess => 0,
            NodePbr::ShadowPass => 1,
            NodePbr::ScreenSpaceAmbientOcclusion => 2,
            NodePbr::DeferredLightingPass => 3,
            NodePbr::ScreenSpaceReflections => 4,
            NodePbr::VolumetricFog => 5,
        }
    }

    #[verifier::when_used_as_spec(spec_rank)]
    pub fn rank(self) -> (r: u8)
        ensures
            r == self.spec_rank(),
            r < 6,
    {
        match self {
            NodePbr::GpuPreprocess => 0,
            NodePbr::ShadowPass => 1,
            NodePbr::ScreenSpaceAmbientOcclusion => 2,
            NodePbr::DeferredLightingPass => 3,
            NodePbr::ScreenSpaceReflections => 4,
            NodePbr::VolumetricFog => 5,
        }
    }
}

} // verus!
