//! The extraction bridge: the one copy, once a frame, of the simulation
//! world's lights and clusters into the render world.
//!
//! Extraction replaces what the render world held before; nothing of the
//! frame before is kept or merged.

use crate::cascade::Cascade;
use crate::cluster::{Clusters, GridDims};
use crate::geometry::IVec3;
use crate::gpu::{spec_record, GpuLight, MIN_RADIUS};
use crate::gpu::lemma_record_round_trip;
use crate::light::{ExtractedLight, LinearColor};
use vstd::prelude::*;

verus! {

/// A point or spot light of the simulation world, in the view space of the
/// camera.
#[derive(Clone, Copy, Debug, PartialEq, Eq, Structural)]
pub struct Light {
    pub entity: u64,
    pub position: IVec3,
    pub range: u32,
    pub radius: u32,
    pub color: LinearColor,
    pub intensity: u32,
    pub shadows_enabled: bool,
    pub visible: bool,
}

impl Light {
    /// The render world's copy of the light.
    pub open spec fn spec_extracted(&self) -> ExtractedLight {
        ExtractedLight {
            entity: self.entity,
            position: self.position,
            range: self.range,
            radius: self.radius,
            color: self.color,
            intensity: self.intensity,
            shadows_enabled: self.shadows_enabled,
        }
    }

    /// The render world's copy of the light.
    #[verifier::when_used_as_spec(spec_extracted)]
    pub fn extracted(&self) -> (e: ExtractedLight)
        ensures
            e == self.spec_extracted(),
    {
        ExtractedLight {
            entity: self.entity,
            position: self.position,
            range: self.range,
            radius: self.radius,
            color: self.color,
            intensity: self.intensity,
            shadows_enabled: self.shadows_enabled,
        }
    }
}

/// The copies of the visible lights among the first `n`, in the order of
/// the lights.
pub open spec fn extracted_lights(lights: Seq<Light>, n: int) -> Seq<ExtractedLight>
    decreases n,
{
    if n <= 0 {
        Seq::empty()
    } else if lights[n - 1].visible {
        extracted_lights(lights, n - 1).push(lights[n - 1].spec_extracted())
    } else {
        extracted_lights(lights, n - 1)
    }
}

/// Copies the visible lights, in their order.
pub fn extract_lights(lights: &Vec<Light>) -> (out: Vec<ExtractedLight>)
    ensures
        out@ == extracted_lights(lights@, lights@.len() as int),
        out@.len() <= lights@.len(),
{
    let mut out: Vec<ExtractedLight> = Vec::new();
    let mut n: usize = 0;
    while n < lights.len()
        invariant
            n <= lights@.len(),
            out@ == extracted_lights(lights@, n as int),
            out@.len() <= n,
        decreases lights@.len() - n,
    {
        if lights[n].visible {
            out.push(lights[n].extracted());
        }
        n = n + 1;
    }
    out
}

/// The render world's copy of a camera's clusters.
#[derive(Debug)]
pub struct ExtractedClusters {
    pub dims: GridDims,
    pub near: u32,
    pub far: u32,
    pub cells: Vec<Vec<u32>>,
}

/// `copy` holds the same lists as `cells`.
pub open spec fn same_lists(cells: Seq<Vec<u32>>, copy: Seq<Vec<u32>>) -> bool {
    &&& copy.len() == cells.len()
    &&& forall|c: int| 0 <= c < cells.len() ==> (#[trigger] copy[c])@ == cells[c]@
}

/// A copy of a list.
fn copy_list(list: &Vec<u32>) -> (out: Vec<u32>)
    ensures
        out@ == list@,
{
    let mut out: Vec<u32> = Vec::new();
    let mut i: usize = 0;
    while i < list.len()
        invariant
            i <= list@.len(),
            out@ == list@.subrange(0, i as int),
        decreases list@.len() - i,
    {
        out.push(list[i]);
        assert(out@ =~= list@.subrange(0, i + 1));
        i = i + 1;
    }
    assert(list@.subrange(0, list@.len() as int) =~= list@);
    out
}

/// Copies the dimensions, the depth range and the lists of a camera's
/// clusters.
pub fn extract_clusters(clusters: &Clusters) -> (out: ExtractedClusters)
    ensures
        out.dims == clusters.grid.dims,
        out.near == clusters.grid.camera.near,
        out.far == clusters.grid.camera.far,
        same_lists(clusters.cells@, out.cells@),
{
    let mut cells: Vec<Vec<u32>> = Vec::new();
    let mut c: usize = 0;
    while c < clusters.cells.len()
        invariant
            c <= clusters.cells@.len(),
            cells@.len() == c,
            forall|a: int| 0 <= a < c ==> (#[trigger] cells@[a])@ == clusters.cells@[a]@,
        decreases clusters.cells@.len() - c,
    {
        cells.push(copy_list(&clusters.cells[c]));
        c = c + 1;
    }
    ExtractedClusters {
        dims: clusters.grid.dims,
        near: clusters.grid.camera.near,
        far: clusters.grid.camera.far,
        cells,
    }
}

/// A directional light of the simulation world with its shadow
/// configuration: the cascades that were built for it this frame.
#[derive(Debug)]
pub struct DirectionalLight {
    pub entity: u64,
    pub direction: IVec3,
    pub color: LinearColor,
    pub illuminance: u32,
    pub shadows_enabled: bool,
    pub depth_bias: u32,
    pub visible: bool,
    pub cascades: Vec<Cascade>,
}

/// The render world's copy of a directional light.
#[derive(Debug)]
pub struct ExtractedDirectionalLight {
    pub entity: u64,
    pub direction: IVec3,
    pub color: LinearColor,
    pub illuminance: u32,
    pub shadows_enabled: bool,
    pub depth_bias: u32,
    pub cascades: Vec<Cascade>,
}

impl ExtractedDirectionalLight {
    /// This is the copy of light `l`: it has the light's entity, direction,
    /// colour, illuminance and shadow configuration, cascades included.
    pub open spec fn is_copy_of(&self, l: &DirectionalLight) -> bool {
        &&& self.entity == l.entity
        &&& self.direction == l.direction
        &&& self.color == l.color
        &&& self.illuminance == l.illuminance
        &&& self.shadows_enabled == l.shadows_enabled
        &&& self.depth_bias == l.depth_bias
        &&& self.cascades@ == l.cascades@
    }
}

/// The places of the visible lights among the first `n`, in their order.
pub open spec fn visible_places(lights: Seq<DirectionalLight>, n: int) -> Seq<int>
    decreases n,
{
    if n <= 0 {
        Seq::empty()
    } else if lights[n - 1].visible {
        visible_places(lights, n - 1).push(n - 1)
    } else {
        visible_places(lights, n - 1)
    }
}

/// `out` holds a copy of every visible light of `lights`, in their order,
/// and nothing else.
pub open spec fn is_extracted_directional(
    lights: Seq<DirectionalLight>,
    out: Seq<ExtractedDirectionalLight>,
) -> bool {
    let places = visible_places(lights, lights.len() as int);
    &&& out.len() == places.len()
    &&& forall|i: int| 0 <= i < out.len() ==> (#[trigger] out[i]).is_copy_of(&lights[places[i]])
}

/// A place among the visible is the place of a visible light.
pub proof fn lemma_visible_places(lights: Seq<DirectionalLight>, n: int, i: int)
    requires
        0 <= n <= lights.len(),
        0 <= i < visible_places(lights, n).len(),
    ensures
        0 <= visible_places(lights, n)[i] < n,
        lights[visible_places(lights, n)[i]].visible,
    decreases n,
{
    if n > 0 {
        if i < visible_places(lights, n - 1).len() {
            lemma_visible_places(lights, n - 1, i);
        }
    }
}

/// Copies the visible directional lights, in their order, each with its
/// cascades.
pub fn extract_directional_lights(lights: &Vec<DirectionalLight>) -> (out: Vec<
    ExtractedDirectionalLight,
>)
    ensures
        is_extracted_directional(lights@, out@),
{
    let mut out: Vec<ExtractedDirectionalLight> = Vec::new();
    let mut n: usize = 0;
    while n < lights.len()
        invariant
            n <= lights@.len(),
            out@.len() == visible_places(lights@, n as int).len(),
            forall|i: int|
                0 <= i < out@.len() ==> (#[trigger] out@[i]).is_copy_of(
                    &lights@[visible_places(lights@, n as int)[i]],
                ),
        decreases lights@.len() - n,
    {
        let l: &DirectionalLight = &lights[n];
        if l.visible {
            let mut cascades: Vec<Cascade> = Vec::new();
            let mut c: usize = 0;
            while c < l.cascades.len()
                invariant
                    c <= l.cascades@.len(),
                    cascades@ == l.cascades@.subrange(0, c as int),
                decreases l.cascades@.len() - c,
            {
                cascades.push(l.cascades[c]);
                assert(cascades@ =~= l.cascades@.subrange(0, c + 1));
                c = c + 1;
            }
            assert(l.cascades@.subrange(0, l.cascades@.len() as int) =~= l.cascades@);
            out.push(
                ExtractedDirectionalLight {
                    entity: l.entity,
                    direction: l.direction,
                    color: l.color,
                    illuminance: l.illuminance,
                    shadows_enabled: l.shadows_enabled,
                    depth_bias: l.depth_bias,
                    cascades,
                },
            );
        }
        n = n + 1;
    }
    out
}

/// What the render world holds of the simulation world, for one frame.
#[derive(Debug)]
pub struct RenderWorld {
    pub lights: Vec<ExtractedLight>,
    pub directional_lights: Vec<ExtractedDirectionalLight>,
    pub clusters: Option<ExtractedClusters>,
}

impl RenderWorld {
    /// A render world that holds nothing.
    pub fn new() -> (r: RenderWorld)
        ensures
            r.lights@.len() == 0,
            r.directional_lights@.len() == 0,
            r.clusters is None,
    {
        RenderWorld { lights: Vec::new(), directional_lights: Vec::new(), clusters: None }
    }

    /// Replaces what the render world holds by copies of the lights with
    /// their shadow configuration and, where there is a camera, of its
    /// clusters. What it held before is dropped.
    pub fn extract(
        &mut self,
        lights: &Vec<Light>,
        directional_lights: &Vec<DirectionalLight>,
        clusters: Option<&Clusters>,
    )
        ensures
            final(self).lights@ == extracted_lights(lights@, lights@.len() as int),
            is_extracted_directional(directional_lights@, final(self).directional_lights@),
            final(self).clusters.is_some() == clusters.is_some(),
            clusters matches Some(c) ==> {
                let e = final(self).clusters->0;
                &&& e.dims == c.grid.dims
                &&& e.near == c.grid.camera.near
                &&& e.far == c.grid.camera.far
                &&& same_lists(c.cells@, e.cells@)
            },
    {
        self.lights = extract_lights(lights);
        self.directional_lights = extract_directional_lights(directional_lights);
        self.clusters = match clusters {
            None => None,
            Some(c) => Some(extract_clusters(c)),
        };
    }
}

/// Every extracted light is the copy of a visible light, and every visible
/// light has its copy among the extracted.
pub proof fn lemma_extracted_lights_members(lights: Seq<Light>, n: int, e: ExtractedLight)
    requires
        0 <= n <= lights.len(),
    ensures
        extracted_lights(lights, n).contains(e) == (exists|i: int|
            0 <= i < n && (#[trigger] lights[i]).visible && lights[i].spec_extracted() == e),
    decreases n,
{
    if n > 0 {
        lemma_extracted_lights_members(lights, n - 1, e);
        let before = extracted_lights(lights, n - 1);
        let l = lights[n - 1];
        if l.visible {
            let after = before.push(l.spec_extracted());
            assert(after[before.len() as int] == l.spec_extracted());
            if before.contains(e) {
                let at = choose|at: int| 0 <= at < before.len() && before[at] == e;
                assert(after[at] == e);
            }
            if after.contains(e) && !before.contains(e) {
                let at = choose|at: int| 0 <= at < after.len() && after[at] == e;
                assert(at == before.len());
            }
        }
        if exists|i: int|
            0 <= i < n && (#[trigger] lights[i]).visible && lights[i].spec_extracted() == e {
            let i = choose|i: int|
                0 <= i < n && (#[trigger] lights[i]).visible && lights[i].spec_extracted() == e;
            if i < n - 1 {
                assert(before.contains(e));
            }
        }
    }
}

/// A light that is extracted, packed into a record and read back from the
/// record's bytes keeps its position, its range and its colour and the
/// shadow map that it was given; its radius comes back raised to
/// `MIN_RADIUS` where it was smaller.
pub proof fn lemma_light_round_trip(l: Light, shadow_map: u32)
    ensures
        ({
            let bytes = spec_record(l.spec_extracted(), shadow_map).bytes();
            let back = GpuLight::parse(bytes, 0);
            &&& back.position == l.position
            &&& back.range == l.range
            &&& back.color == l.color
            &&& back.shadow_map == shadow_map
            &&& back.radius == if l.radius < MIN_RADIUS {
                MIN_RADIUS
            } else {
                l.radius
            }
        }),
{
    let r = spec_record(l.spec_extracted(), shadow_map);
    assert(r.bytes().subrange(0, 40) =~= r.bytes());
    lemma_record_round_trip(r, r.bytes(), 0);
}

} // verus!
