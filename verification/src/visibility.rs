//! Which meshes may cast a shadow into a light view.
//!
//! A mesh is listed for a view when it casts shadows and its box is not
//! wholly outside any plane of the view's frustum. The test may list a mesh
//! that stays just outside the frustum; it never leaves out one that
//! reaches into it.

use crate::cascade::Cascade;
use crate::geometry::{lemma_frustum_aabb_test_is_conservative, Aabb, Frustum, IVec3};
use vstd::prelude::*;

verus! {

/// A mesh as the visibility check sees it: its entity, its box in the
/// space of the light view, and whether it casts shadows at all.
#[derive(Clone, Copy, Debug, PartialEq, Eq, Structural)]
pub struct MeshBounds {
    pub entity: u64,
    pub aabb: Aabb,
    pub shadow_caster: bool,
}

impl MeshBounds {
    /// The mesh casts shadows, its box is well formed, and the box is not
    /// wholly outside any plane of `f`.
    pub open spec fn casts_into(self, f: Frustum) -> bool {
        self.shadow_caster && self.aabb.wf() && f.touches_aabb(self.aabb)
    }
}

/// The entities of those of the first `n` meshes that cast into `f`, in the
/// order of the meshes.
pub open spec fn visible_meshes(f: Frustum, meshes: Seq<MeshBounds>, n: int) -> Seq<u64>
    decreases n,
{
    if n <= 0 {
        Seq::empty()
    } else if meshes[n - 1].casts_into(f) {
        visible_meshes(f, meshes, n - 1).push(meshes[n - 1].entity)
    } else {
        visible_meshes(f, meshes, n - 1)
    }
}

/// The meshes that one light view has to draw into its shadow map.
pub fn check_light_mesh_visibility(frustum: &Frustum, meshes: &Vec<MeshBounds>) -> (visible: Vec<
    u64,
>)
    requires
        frustum.wf(),
    ensures
        visible@ == visible_meshes(*frustum, meshes@, meshes@.len() as int),
{
    let mut visible: Vec<u64> = Vec::new();
    let mut n: usize = 0;
    while n < meshes.len()
        invariant
            frustum.wf(),
            n <= meshes@.len(),
            visible@ == visible_meshes(*frustum, meshes@, n as int),
        decreases meshes@.len() - n,
    {
        let m: &MeshBounds = &meshes[n];
        if m.shadow_caster && m.aabb.is_wf() && frustum.is_touching_aabb(&m.aabb) {
            visible.push(m.entity);
        }
        n = n + 1;
    }
    visible
}

/// `lists` holds, for each of the frusta, the meshes that cast into it.
pub open spec fn is_view_lists(frusta: Seq<Frustum>, meshes: Seq<MeshBounds>, lists: Seq<Vec<u64>>)
    -> bool {
    &&& lists.len() == frusta.len()
    &&& forall|v: int|
        0 <= v < lists.len() ==> (#[trigger] lists[v])@ == visible_meshes(
            frusta[v],
            meshes,
            meshes.len() as int,
        )
}

/// The meshes that each face of a point light's cube map has to draw, or
/// those of any other set of light views: one list for each frustum.
pub fn check_point_light_mesh_visibility(frusta: &Vec<Frustum>, meshes: &Vec<MeshBounds>) -> (lists:
    Vec<Vec<u64>>)
    requires
        forall|v: int| 0 <= v < frusta@.len() ==> (#[trigger] frusta@[v]).wf(),
    ensures
        is_view_lists(frusta@, meshes@, lists@),
{
    let mut lists: Vec<Vec<u64>> = Vec::new();
    let mut v: usize = 0;
    while v < frusta.len()
        invariant
            v <= frusta@.len(),
            lists@.len() == v,
            forall|k: int| 0 <= k < frusta@.len() ==> (#[trigger] frusta@[k]).wf(),
            forall|k: int|
                0 <= k < v ==> (#[trigger] lists@[k])@ == visible_meshes(
                    frusta@[k],
                    meshes@,
                    meshes@.len() as int,
                ),
        decreases frusta@.len() - v,
    {
        lists.push(check_light_mesh_visibility(&frusta[v], meshes));
        v = v + 1;
    }
    lists
}

/// The meshes that each cascade of a directional light has to draw: one
/// list for each cascade, of the meshes that cast into the cascade's box.
pub fn check_dir_light_mesh_visibility(cascades: &Vec<Cascade>, meshes: &Vec<MeshBounds>) -> (lists:
    Vec<Vec<u64>>)
    ensures
        lists@.len() == cascades@.len(),
        forall|v: int|
            0 <= v < lists@.len() ==> (#[trigger] lists@[v])@ == visible_meshes(
                cascades@[v].spec_frustum(),
                meshes@,
                meshes@.len() as int,
            ),
{
    let mut lists: Vec<Vec<u64>> = Vec::new();
    let mut v: usize = 0;
    while v < cascades.len()
        invariant
            v <= cascades@.len(),
            lists@.len() == v,
            forall|k: int|
                0 <= k < v ==> (#[trigger] lists@[k])@ == visible_meshes(
                    cascades@[k].spec_frustum(),
                    meshes@,
                    meshes@.len() as int,
                ),
        decreases cascades@.len() - v,
    {
        let f: Frustum = cascades[v].frustum();
        lists.push(check_light_mesh_visibility(&f, meshes));
        v = v + 1;
    }
    lists
}

/// A light view's list names a mesh exactly when one of the meshes with
/// that entity casts into the view.
pub proof fn lemma_visible_meshes_members(f: Frustum, meshes: Seq<MeshBounds>, n: int, e: u64)
    requires
        0 <= n <= meshes.len(),
    ensures
        visible_meshes(f, meshes, n).contains(e) == (exists|i: int|
            0 <= i < n && (#[trigger] meshes[i]).entity == e && meshes[i].casts_into(f)),
    decreases n,
{
    if n > 0 {
        lemma_visible_meshes_members(f, meshes, n - 1, e);
        let before = visible_meshes(f, meshes, n - 1);
        let m = meshes[n - 1];
        if m.casts_into(f) {
            let after = before.push(m.entity);
            assert(after[before.len() as int] == m.entity);
            if before.contains(e) {
                let at = choose|at: int| 0 <= at < before.len() && before[at] == e;
                assert(after[at] == e);
            }
            if after.contains(e) && !before.contains(e) {
                let at = choose|at: int| 0 <= at < after.len() && after[at] == e;
                assert(at == before.len());
            }
        }
        if exists|i: int|
            0 <= i < n && (#[trigger] meshes[i]).entity == e && meshes[i].casts_into(f) {
            let i = choose|i: int|
                0 <= i < n && (#[trigger] meshes[i]).entity == e && meshes[i].casts_into(f);
            if i < n - 1 {
                assert(before.contains(e));
            }
        }
    }
}

/// The test has no false negatives: a shadow caster whose box shares a
/// point with the frustum of a light view is in the view's list.
pub proof fn lemma_no_caster_is_missed(f: Frustum, meshes: Seq<MeshBounds>, i: int, p: IVec3)
    requires
        0 <= i < meshes.len(),
        meshes[i].shadow_caster,
        meshes[i].aabb.wf(),
        meshes[i].aabb.contains(p),
        f.contains(p),
    ensures
        visible_meshes(f, meshes, meshes.len() as int).contains(meshes[i].entity),
{
    lemma_frustum_aabb_test_is_conservative(f, meshes[i].aabb, p);
    lemma_visible_meshes_members(f, meshes, meshes.len() as int, meshes[i].entity);
}

} // verus!
