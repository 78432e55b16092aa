//! The order of a frame: which system has to run after which.
//!
//! Grid building comes before assignment, the cascades are cleared before
//! they are built, frusta are built before visibility is checked, and
//! extraction stands between the simulation side and the render side.

use vstd::prelude::*;

verus! {

/// The sets into which the simulation side groups its systems.
#[derive(Clone, Copy, Debug, PartialEq, Eq, Hash, Structural)]
pub enum SimulationLightSystems {
    AddClusters,
    AssignLightsToClusters,
    UpdateDirectionalLightCascades,
    UpdateLightFrusta,
    CheckLightVisibility,
}

/// The systems of a frame: those of the lighting pipeline, and those of
/// its collaborators that it orders itself against.
#[derive(Clone, Copy, Debug, PartialEq, Eq, Hash, Structural)]
pub enum System {
    /// Collaborator: brings the cameras' projections up to date.
    CameraUpdate,
    /// Collaborator: computes the world-space transforms.
    TransformPropagate,
    /// Collaborator: computes the bounds of the meshes.
    CalculateBounds,
    /// Collaborator: the cameras' own visibility pass.
    CheckVisibility,
    /// The visibility pass of the lights themselves, which runs as part of
    /// the cameras' pass.
    CheckVisibilityWithLight,
    AddClusters,
    AssignObjectsToClusters,
    ClearDirectionalLightCascades,
    BuildDirectionalLightCascades,
    UpdateDirectionalLightFrusta,
    UpdatePointLightFrusta,
    UpdateSpotLightFrusta,
    CheckDirLightMeshVisibility,
    CheckPointLightMeshVisibility,
    ExtractClusters,
    ExtractLights,
    /// Collaborator: drops the material instances of the frame before.
    ClearMaterialInstances,
    ExtractDefaultMaterials,
    /// Collaborator: uploads the images that the render side needs.
    PrepareAssets,
    PrepareLights,
    PrepareClusters,
    ShadowPass,
    /// Collaborator: the start of the main colour pass.
    StartMainPass,
}

/// The number of systems.
pub const SYSTEM_COUNT: usize = 23;

impl System {
    /// The system runs on the simulation side, before extraction.
    pub open spec fn is_simulation(self) -> bool {
        self.spec_rank() < 14
    }

    /// The system runs in the extraction between the two sides.
    pub open spec fn is_extraction(self) -> bool {
        14 <= self.spec_rank() < 18
    }

    /// The system runs on the render side, after extraction.
    pub open spec fn is_render(self) -> bool {
        self.spec_rank() >= 18
    }

    /// The place of the system in the standard order of a frame.
    pub open spec fn spec_rank(self) -> u8 {
        match self {
            System::CameraUpdate => 0,
            System::TransformPropagate => 1,
            System::CalculateBounds => 2,
            System::CheckVisibility => 3,
            System::CheckVisibilityWithLight => 4,
            System::AddClusters => 5,
            System::AssignObjectsToClusters => 6,
            System::ClearDirectionalLightCascades => 7,
            System::BuildDirectionalLightCascades => 8,
            System::UpdateDirectionalLightFrusta => 9,
            System::UpdatePointLightFrusta => 10,
            System::UpdateSpotLightFrusta => 11,
            System::CheckDirLightMeshVisibility => 12,
            System::CheckPointLightMeshVisibility => 13,
            System::ExtractClusters => 14,
            System::ExtractLights => 15,
            System::ClearMaterialInstances => 16,
            System::ExtractDefaultMaterials => 17,
            System::PrepareAssets => 18,
            System::PrepareLights => 19,
            System::PrepareClusters => 20,
            System::ShadowPass => 21,
            System::StartMainPass => 22,
        }
    }

    /// The place of the system in the standard order of a frame.
    #[verifier::when_used_as_spec(spec_rank)]
    pub fn rank(self) -> (r: u8)
        ensures
            r == self.spec_rank(),
            r < 23,
    {
        match self {
            System::CameraUpdate => 0,
            System::TransformPropagate => 1,
            System::CalculateBounds => 2,
            System::CheckVisibility => 3,
            System::CheckVisibilityWithLight => 4,
            System::AddClusters => 5,
            System::AssignObjectsToClusters => 6,
            System::ClearDirectionalLightCascades => 7,
            System::BuildDirectionalLightCascades => 8,
            System::UpdateDirectionalLightFrusta => 9,
            System::UpdatePointLightFrusta => 10,
            System::UpdateSpotLightFrusta => 11,
            System::CheckDirLightMeshVisibility => 12,
            System::CheckPointLightMeshVisibility => 13,
            System::ExtractClusters => 14,
            System::ExtractLights => 15,
            System::ClearMaterialInstances => 16,
            System::ExtractDefaultMaterials => 17,
            System::PrepareAssets => 18,
            System::PrepareLights => 19,
            System::PrepareClusters => 20,
            System::ShadowPass => 21,
            System::StartMainPass => 22,
        }
    }

    /// The system at place `r` of the standard order.
    pub fn with_rank(r: u8) -> (s: System)
        requires
            r < 23,
        ensures
            s.spec_rank() == r,
    {
        if r == 0 {
            System::CameraUpdate
        } else if r == 1 {
            System::TransformPropagate
        } else if r == 2 {
            System::CalculateBounds
        } else if r == 3 {
            System::CheckVisibility
        } else if r == 4 {
            System::CheckVisibilityWithLight
        } else if r == 5 {
            System::AddClusters
        } else if r == 6 {
            System::AssignObjectsToClusters
        } else if r == 7 {
            System::ClearDirectionalLightCascades
        } else if r == 8 {
            System::BuildDirectionalLightCascades
        } else if r == 9 {
            System::UpdateDirectionalLightFrusta
        } else if r == 10 {
            System::UpdatePointLightFrusta
        } else if r == 11 {
            System::UpdateSpotLightFrusta
        } else if r == 12 {
            System::CheckDirLightMeshVisibility
        } else if r == 13 {
            System::CheckPointLightMeshVisibility
        } else if r == 14 {
            System::ExtractClusters
        } else if r == 15 {
            System::ExtractLights
        } else if r == 16 {
            System::ClearMaterialInstances
        } else if r == 17 {
            System::ExtractDefaultMaterials
        } else if r == 18 {
            System::PrepareAssets
        } else if r == 19 {
            System::PrepareLights
        } else if r == 20 {
            System::PrepareClusters
        } else if r == 21 {
            System::ShadowPass
        } else {
            System::StartMainPass
        }
    }

    /// The set of the simulation side to which the system belongs, if any.
    pub open spec fn spec_set(self) -> Option<SimulationLightSystems> {
        match self {
            System::AddClusters => Some(SimulationLightSystems::AddClusters),
            System::AssignObjectsToClusters => Some(
                SimulationLightSystems::AssignLightsToClusters,
            ),
            System::ClearDirectionalLightCascades => Some(
                SimulationLightSystems::UpdateDirectionalLightCascades,
            ),
            System::BuildDirectionalLightCascades => Some(
                SimulationLightSystems::UpdateDirectionalLightCascades,
            ),
            System::UpdateDirectionalLightFrusta => Some(SimulationLightSystems::UpdateLightFrusta),
            System::UpdatePointLightFrusta => Some(SimulationLightSystems::UpdateLightFrusta),
            System::UpdateSpotLightFrusta => Some(SimulationLightSystems::UpdateLightFrusta),
            System::CheckDirLightMeshVisibility => Some(
                SimulationLightSystems::CheckLightVisibility,
            ),
            System::CheckPointLightMeshVisibility => Some(
                SimulationLightSystems::CheckLightVisibility,
            ),
            _ => None,
        }
    }

    /// The set of the simulation side to which the system belongs, if any.
    #[verifier::when_used_as_spec(spec_set)]
    pub fn set(self) -> (r: Option<SimulationLightSystems>)
        ensures
            r == self.spec_set(),
    {
        match self {
            System::AddClusters => Some(SimulationLightSystems::AddClusters),
            System::AssignObjectsToClusters => Some(
                SimulationLightSystems::AssignLightsToClusters,
            ),
            System::ClearDirectionalLightCascades => Some(
                SimulationLightSystems::UpdateDirectionalLightCascades,
            ),
            System::BuildDirectionalLightCascades => Some(
                SimulationLightSystems::UpdateDirectionalLightCascades,
            ),
            System::UpdateDirectionalLightFrusta => Some(SimulationLightSystems::UpdateLightFrusta),
            System::UpdatePointLightFrusta => Some(SimulationLightSystems::UpdateLightFrusta),
            System::UpdateSpotLightFrusta => Some(SimulationLightSystems::UpdateLightFrusta),
            System::CheckDirLightMeshVisibility => Some(
                SimulationLightSystems::CheckLightVisibility,
            ),
            System::CheckPointLightMeshVisibility => Some(
                SimulationLightSystems::CheckLightVisibility,
            ),
            _ => None,
        }
    }
}

impl SimulationLightSystems {
    /// Instances of the systems of this set, run for different lights, may
    /// run in any order among themselves: each writes only what belongs to
    /// its own light.
    pub open spec fn spec_is_ambiguous_with_itself(self) -> bool {
        self == SimulationLightSystems::UpdateDirectionalLightCascades || self
            == SimulationLightSystems::CheckLightVisibility
    }

    /// Whether instances of the systems of this set may run in any order
    /// among themselves.
    #[verifier::when_used_as_spec(spec_is_ambiguous_with_itself)]
    pub fn is_ambiguous_with_itself(self) -> (r: bool)
        ensures
            r == self.spec_is_ambiguous_with_itself(),
    {
        match self {
            SimulationLightSystems::UpdateDirectionalLightCascades => true,
            SimulationLightSystems::CheckLightVisibility => true,
            _ => false,
        }
    }
}

/// System `later` is declared to run after system `earlier`.
pub open spec fn runs_after(later: System, earlier: System) -> bool {
    match later {
        System::AddClusters => earlier == System::CameraUpdate,
        System::AssignObjectsToClusters => {
            ||| earlier == System::AddClusters
            ||| earlier == System::TransformPropagate
            ||| earlier == System::CheckVisibility
            ||| earlier == System::CheckVisibilityWithLight
            ||| earlier == System::CameraUpdate
        },
        System::ClearDirectionalLightCascades => {
            ||| earlier == System::TransformPropagate
            ||| earlier == System::CameraUpdate
        },
        System::BuildDirectionalLightCascades => earlier == System::ClearDirectionalLightCascades,
        System::UpdateDirectionalLightFrusta => {
            ||| earlier == System::AssignObjectsToClusters
            ||| earlier == System::CheckVisibility
            ||| earlier == System::CheckVisibilityWithLight
            ||| earlier == System::TransformPropagate
            ||| earlier == System::ClearDirectionalLightCascades
            ||| earlier == System::BuildDirectionalLightCascades
        },
        System::UpdatePointLightFrusta => {
            ||| earlier == System::TransformPropagate
            ||| earlier == System::AssignObjectsToClusters
        },
        System::UpdateSpotLightFrusta => {
            ||| earlier == System::TransformPropagate
            ||| earlier == System::AssignObjectsToClusters
        },
        System::CheckDirLightMeshVisibility => {
            ||| earlier == System::CalculateBounds
            ||| earlier == System::TransformPropagate
            ||| earlier == System::CheckVisibility
            ||| earlier == System::CheckVisibilityWithLight
            ||| earlier == System::UpdateDirectionalLightFrusta
            ||| earlier == System::UpdatePointLightFrusta
            ||| earlier == System::UpdateSpotLightFrusta
        },
        System::CheckPointLightMeshVisibility => {
            ||| earlier == System::CalculateBounds
            ||| earlier == System::TransformPropagate
            ||| earlier == System::CheckVisibility
            ||| earlier == System::CheckVisibilityWithLight
            ||| earlier == System::UpdateDirectionalLightFrusta
            ||| earlier == System::UpdatePointLightFrusta
            ||| earlier == System::UpdateSpotLightFrusta
        },
        System::ExtractClusters => earlier.is_simulation(),
        System::ExtractLights => earlier.is_simulation(),
        System::ClearMaterialInstances => earlier.is_simulation(),
        System::ExtractDefaultMaterials => earlier.is_simulation() || earlier
            == System::ClearMaterialInstances,
        System::PrepareAssets => earlier.is_extraction(),
        System::PrepareLights => earlier.is_extraction() || earlier == System::PrepareAssets,
        System::PrepareClusters => earlier.is_extraction(),
        System::ShadowPass => {
            ||| earlier.is_extraction()
            ||| earlier == System::PrepareLights
            ||| earlier == System::PrepareClusters
        },
        System::StartMainPass => earlier == System::ShadowPass,
        _ => false,
    }
}

/// Whether system `later` is declared to run after system `earlier`.
pub fn must_run_after(later: System, earlier: System) -> (r: bool)
    ensures
        r == runs_after(later, earlier),
{
    let simulation: bool = earlier.rank() < 14;
    let extraction: bool = 14 <= earlier.rank() && earlier.rank() < 18;
    match later {
        System::AddClusters => earlier == System::CameraUpdate,
        System::AssignObjectsToClusters => earlier == System::AddClusters || earlier
            == System::TransformPropagate || earlier == System::CheckVisibility || earlier
            == System::CheckVisibilityWithLight || earlier
            == System::CameraUpdate,
        System::ClearDirectionalLightCascades => earlier == System::TransformPropagate || earlier
            == System::CameraUpdate,
        System::BuildDirectionalLightCascades => earlier == System::ClearDirectionalLightCascades,
        System::UpdateDirectionalLightFrusta => earlier == System::AssignObjectsToClusters
            || earlier == System::CheckVisibilityWithLight || earlier == System::CheckVisibility || earlier
            == System::TransformPropagate || earlier == System::ClearDirectionalLightCascades
            || earlier == System::BuildDirectionalLightCascades,
        System::UpdatePointLightFrusta => earlier == System::TransformPropagate || earlier
            == System::AssignObjectsToClusters,
        System::UpdateSpotLightFrusta => earlier == System::TransformPropagate || earlier
            == System::AssignObjectsToClusters,
        System::CheckDirLightMeshVisibility => earlier == System::CalculateBounds || earlier
            == System::TransformPropagate || earlier == System::CheckVisibility || earlier
            == System::CheckVisibilityWithLight || earlier
            == System::UpdateDirectionalLightFrusta || earlier == System::UpdatePointLightFrusta
            || earlier == System::UpdateSpotLightFrusta,
        System::CheckPointLightMeshVisibility => earlier == System::CalculateBounds || earlier
            == System::TransformPropagate || earlier == System::CheckVisibility || earlier
            == System::CheckVisibilityWithLight || earlier
            == System::UpdateDirectionalLightFrusta || earlier == System::UpdatePointLightFrusta
            || earlier == System::UpdateSpotLightFrusta,
        System::ExtractClusters => simulation,
        System::ExtractLights => simulation,
        System::ClearMaterialInstances => simulation,
        System::ExtractDefaultMaterials => simulation || earlier == System::ClearMaterialInstances,
        System::PrepareAssets => extraction,
        System::PrepareLights => extraction || earlier == System::PrepareAssets,
        System::PrepareClusters => extraction,
        System::ShadowPass => extraction || earlier == System::PrepareLights || earlier
            == System::PrepareClusters,
        System::StartMainPass => earlier == System::ShadowPass,
        _ => false,
    }
}

/// The declared order has no cycle: a system that runs after another
/// stands later in the standard order.
pub proof fn lemma_order_is_acyclic(later: System, earlier: System)
    requires
        runs_after(later, earlier),
    ensures
        earlier.spec_rank() < later.spec_rank(),
{
}

/// `order` runs every system after those that it is declared to run after:
/// where one system of the sequence has to run after another, it stands
/// later.
pub open spec fn respects_order(order: Seq<System>) -> bool {
    forall|i: int, j: int|
        0 <= i < order.len() && 0 <= j < order.len() && runs_after(
            #[trigger] order[i],
            #[trigger] order[j],
        ) ==> j < i
}

/// Whether `order` runs every system after those that it is declared to
/// run after.
pub fn is_valid_order(order: &Vec<System>) -> (ok: bool)
    ensures
        ok == respects_order(order@),
{
    let mut i: usize = 0;
    while i < order.len()
        invariant
            i <= order@.len(),
            forall|a: int, b: int|
                0 <= a < i && 0 <= b < order@.len() && runs_after(
                    #[trigger] order@[a],
                    #[trigger] order@[b],
                ) ==> b < a,
        decreases order@.len() - i,
    {
        let mut j: usize = i;
        while j < order.len()
            invariant
                i <= j <= order@.len(),
                i < order@.len(),
                forall|b: int|
                    i <= b < j ==> !runs_after(order@[i as int], #[trigger] order@[b]),
            decreases order@.len() - j,
        {
            if must_run_after(order[i], order[j]) {
                return false;
            }
            j = j + 1;
        }
        i = i + 1;
    }
    true
}

/// The standard order of a frame: every system once, each after all those
/// that it is declared to run after.
pub fn frame_order() -> (order: Vec<System>)
    ensures
        order@.len() == SYSTEM_COUNT,
        forall|r: int| 0 <= r < SYSTEM_COUNT ==> (#[trigger] order@[r]).spec_rank() == r,
        respects_order(order@),
{
    let mut order: Vec<System> = Vec::new();
    let mut r: u8 = 0;
    while r < 23
        invariant
            r <= 23,
            order@.len() == r,
            forall|k: int| 0 <= k < r ==> (#[trigger] order@[k]).spec_rank() == k,
        decreases 23 - r,
    {
        order.push(System::with_rank(r));
        r = r + 1;
    }
    proof {
        assert forall|i: int, j: int|
            0 <= i < order@.len() && 0 <= j < order@.len() && runs_after(
                #[trigger] order@[i],
                #[trigger] order@[j],
            ) implies j < i by {
            lemma_order_is_acyclic(order@[i], order@[j]);
        }
    }
    order
}

/// Extraction is the one barrier of the frame: in every order that
/// respects the declared order, every system of the simulation side has run
/// before either extraction, and every system of the render side runs after
/// both.
pub proof fn lemma_extraction_is_a_barrier(order: Seq<System>, i: int, j: int, k: int)
    requires
        respects_order(order),
        0 <= i < order.len(),
        0 <= j < order.len(),
        0 <= k < order.len(),
        order[i].is_simulation(),
        order[j].is_extraction(),
        order[k].is_render(),
        order[k] != System::StartMainPass,
    ensures
        i < j < k,
{
    assert(runs_after(order[j], order[i]));
    assert(runs_after(order[k], order[j]));
}

/// The shadow pass is complete before the main pass starts, in every order
/// that respects the declared order.
pub proof fn lemma_shadows_before_main_pass(order: Seq<System>, i: int, j: int)
    requires
        respects_order(order),
        0 <= i < order.len(),
        0 <= j < order.len(),
        order[i] == System::ShadowPass,
        order[j] == System::StartMainPass,
    ensures
        i < j,
{
    assert(runs_after(order[j], order[i]));
}

/// How an edge of the declared order is handed to a scheduler.
#[derive(Clone, Copy, Debug, PartialEq, Eq, Structural)]
pub enum EdgeKind {
    /// The earlier system belongs to a collaborator, which has its own
    /// name for it.
    Collaborator,
    /// The earlier system belongs to another set of the simulation side:
    /// the later system runs after that whole set.
    WholeSet(SimulationLightSystems),
    /// The two systems belong to one set: the later runs after the earlier
    /// system itself.
    OneSystem,
}

/// The kind of the edge from `later` to `earlier`; nothing where `later`
/// is not declared to run after `earlier`.
pub open spec fn spec_edge_kind(later: System, earlier: System) -> Option<EdgeKind> {
    if !runs_after(later, earlier) {
        None
    } else {
        match earlier.spec_set() {
            None => Some(EdgeKind::Collaborator),
            Some(set) => if later.spec_set() == Some(set) {
                Some(EdgeKind::OneSystem)
            } else {
                Some(EdgeKind::WholeSet(set))
            },
        }
    }
}

/// The kind of the edge from `later` to `earlier`; `None` where `later` is
/// not declared to run after `earlier`.
#[verifier::when_used_as_spec(spec_edge_kind)]
pub fn edge_kind(later: System, earlier: System) -> (r: Option<EdgeKind>)
    ensures
        r == spec_edge_kind(later, earlier),
{
    if !must_run_after(later, earlier) {
        return None;
    }
    match earlier.set() {
        None => Some(EdgeKind::Collaborator),
        Some(set) => {
            let same: bool = match later.set() {
                Some(other) => other == set,
                None => false,
            };
            if same {
                Some(EdgeKind::OneSystem)
            } else {
                Some(EdgeKind::WholeSet(set))
            }
        },
    }
}

/// Every builder of light frusta runs after the lights were assigned to
/// the clusters, in every order that respects the declared order.
pub proof fn lemma_frusta_follow_assignment(order: Seq<System>, i: int, j: int)
    requires
        respects_order(order),
        0 <= i < order.len(),
        0 <= j < order.len(),
        order[i] == System::AssignObjectsToClusters,
        order[j].spec_set() == Some(SimulationLightSystems::UpdateLightFrusta),
    ensures
        i < j,
{
    assert(runs_after(order[j], order[i]));
}

} // verus!
