//! The light views of a frame: one view for each shadow map that is drawn,
//! kept in step with the lights that cast shadows.

use vstd::prelude::*;

verus! {

/// Largest number of cascades that a directional light may ask views for.
pub const MAX_VIEW_CASCADES: u32 = 4;

/// The kinds of light that cast shadows.
#[derive(Clone, Copy, Debug, PartialEq, Eq, Structural)]
pub enum ShadowLightKind {
    /// A point light, which draws the six faces of a cube map.
    Point,
    /// A spot light, which draws one map.
    Spot,
    /// A directional light, which draws one map for each cascade.
    Directional { cascades: u32 },
}

/// What the shadow pass needs to know of a light.
#[derive(Clone, Copy, Debug, PartialEq, Eq, Structural)]
pub struct ShadowLight {
    pub entity: u64,
    pub kind: ShadowLightKind,
    pub shadows_enabled: bool,
    pub visible: bool,
}

/// What a light view shows.
#[derive(Clone, Copy, Debug, PartialEq, Eq, Structural)]
pub enum LightViewKind {
    /// One face of a point light's cube map.
    CubeFace(u32),
    /// The map of a spot light.
    Spot,
    /// One cascade of a directional light.
    Cascade(u32),
}

/// One viewpoint from which a shadow map is drawn.
#[derive(Clone, Copy, Debug, PartialEq, Eq, Structural)]
pub struct LightView {
    pub light: u64,
    pub kind: LightViewKind,
}

impl ShadowLight {
    /// The light casts shadows and is visible: it has light views.
    pub open spec fn is_active(self) -> bool {
        self.shadows_enabled && self.visible
    }

    /// The number of views of the light when it is active: six for a point
    /// light, one for a spot light, and for a directional light one for
    /// each cascade, up to `MAX_VIEW_CASCADES`.
    pub open spec fn spec_view_count(self) -> int {
        match self.kind {
            ShadowLightKind::Point => 6,
            ShadowLightKind::Spot => 1,
            ShadowLightKind::Directional { cascades } => if cascades > MAX_VIEW_CASCADES {
                MAX_VIEW_CASCADES as int
            } else {
                cascades as int
            },
        }
    }

    /// View `k` of the light.
    pub open spec fn view(self, k: int) -> LightView {
        LightView {
            light: self.entity,
            kind: match self.kind {
                ShadowLightKind::Point => LightViewKind::CubeFace(k as u32),
                ShadowLightKind::Spot => LightViewKind::Spot,
                ShadowLightKind::Directional { .. } => LightViewKind::Cascade(k as u32),
            },
        }
    }

    /// The views of the light: none unless it is active.
    pub open spec fn views(self) -> Seq<LightView> {
        if self.is_active() {
            Seq::new(self.spec_view_count() as nat, |k: int| self.view(k))
        } else {
            Seq::empty()
        }
    }

    /// The number of views of the light when it is active.
    pub fn view_count(&self) -> (n: u32)
        ensures
            n == self.spec_view_count(),
            n <= 6,
    {
        match self.kind {
            ShadowLightKind::Point => 6,
            ShadowLightKind::Spot => 1,
            ShadowLightKind::Directional { cascades } => if cascades > MAX_VIEW_CASCADES {
                MAX_VIEW_CASCADES
            } else {
                cascades
            },
        }
    }
}

/// The views of the first `n` lights, one light after the other.
pub open spec fn light_views(lights: Seq<ShadowLight>, n: int) -> Seq<LightView>
    decreases n,
{
    if n <= 0 {
        Seq::empty()
    } else {
        light_views(lights, n - 1) + lights[n - 1].views()
    }
}

/// The entities of the active lights among the first `n`, in the order of
/// the lights.
pub open spec fn active_lights(lights: Seq<ShadowLight>, n: int) -> Seq<u64>
    decreases n,
{
    if n <= 0 {
        Seq::empty()
    } else if lights[n - 1].is_active() {
        active_lights(lights, n - 1).push(lights[n - 1].entity)
    } else {
        active_lights(lights, n - 1)
    }
}

/// Those of the first `n` entities of `s` that are in `other`, where
/// `want` holds, or that are not, where it does not; in the order of `s`.
pub open spec fn sifted(s: Seq<u64>, other: Seq<u64>, want: bool, n: int) -> Seq<u64>
    decreases n,
{
    if n <= 0 {
        Seq::empty()
    } else if other.contains(s[n - 1]) == want {
        sifted(s, other, want, n - 1).push(s[n - 1])
    } else {
        sifted(s, other, want, n - 1)
    }
}

/// Whether `v` holds `x`.
pub fn holds(v: &Vec<u64>, x: u64) -> (r: bool)
    ensures
        r == v@.contains(x),
{
    let mut i: usize = 0;
    while i < v.len()
        invariant
            i <= v@.len(),
            forall|k: int| 0 <= k < i ==> v@[k] != x,
        decreases v@.len() - i,
    {
        if v[i] == x {
            return true;
        }
        i = i + 1;
    }
    false
}

/// Those entities of `s` that are in `other`, where `want` holds, or that
/// are not, where it does not.
fn sift(s: &Vec<u64>, other: &Vec<u64>, want: bool) -> (r: Vec<u64>)
    ensures
        r@ == sifted(s@, other@, want, s@.len() as int),
{
    let mut r: Vec<u64> = Vec::new();
    let mut i: usize = 0;
    while i < s.len()
        invariant
            i <= s@.len(),
            r@ == sifted(s@, other@, want, i as int),
        decreases s@.len() - i,
    {
        if holds(other, s[i]) == want {
            r.push(s[i]);
        }
        i = i + 1;
    }
    r
}

/// What an update of the light views did.
#[derive(Debug)]
pub struct LightViewChanges {
    /// The lights that got views: active now, without views before.
    pub created: Vec<u64>,
    /// The lights whose views were brought up to date: active now, with
    /// views before.
    pub refreshed: Vec<u64>,
    /// The lights whose views were removed: with views before, and now
    /// gone, hidden or without shadows.
    pub removed: Vec<u64>,
}

/// The light views of a frame.
#[derive(Debug)]
pub struct LightViews {
    /// The lights that have views, in the order of the lights.
    pub owners: Vec<u64>,
    /// The views, light after light in the order of `owners`.
    pub views: Vec<LightView>,
}

impl LightViews {
    /// No light has a view.
    pub fn new() -> (r: LightViews)
        ensures
            r.owners@.len() == 0,
            r.views@.len() == 0,
    {
        LightViews { owners: Vec::new(), views: Vec::new() }
    }

    /// Brings the views in step with the lights of this frame: afterwards
    /// exactly the active lights have views, each as many as its kind
    /// asks for. Says which lights got views, kept them or lost them.
    pub fn update(&mut self, lights: &Vec<ShadowLight>) -> (changes: LightViewChanges)
        ensures
            final(self).owners@ == active_lights(lights@, lights@.len() as int),
            final(self).views@ == light_views(lights@, lights@.len() as int),
            changes.created@ == sifted(
                final(self).owners@,
                old(self).owners@,
                false,
                final(self).owners@.len() as int,
            ),
            changes.refreshed@ == sifted(
                final(self).owners@,
                old(self).owners@,
                true,
                final(self).owners@.len() as int,
            ),
            changes.removed@ == sifted(
                old(self).owners@,
                final(self).owners@,
                false,
                old(self).owners@.len() as int,
            ),
    {
        let mut owners: Vec<u64> = Vec::new();
        let mut views: Vec<LightView> = Vec::new();
        let mut n: usize = 0;
        while n < lights.len()
            invariant
                n <= lights@.len(),
                owners@ == active_lights(lights@, n as int),
                views@ == light_views(lights@, n as int),
            decreases lights@.len() - n,
        {
            let l: &ShadowLight = &lights[n];
            if l.shadows_enabled && l.visible {
                owners.push(l.entity);
                let count: u32 = l.view_count();
                let ghost before = views@;
                let mut k: u32 = 0;
                while k < count
                    invariant
                        k <= count,
                        count == l.spec_view_count(),
                        l.is_active(),
                        views@ == before + l.views().subrange(0, k as int),
                    decreases count - k,
                {
                    let kind: LightViewKind = match l.kind {
                        ShadowLightKind::Point => LightViewKind::CubeFace(k),
                        ShadowLightKind::Spot => LightViewKind::Spot,
                        ShadowLightKind::Directional { .. } => LightViewKind::Cascade(k),
                    };
                    views.push(LightView { light: l.entity, kind });
                    assert(views@ =~= before + l.views().subrange(0, k + 1));
                    k = k + 1;
                }
                assert(l.views().subrange(0, count as int) =~= l.views());
            } else {
                assert(views@ + l.views() =~= views@);
            }
            n = n + 1;
        }
        let created: Vec<u64> = sift(&owners, &self.owners, false);
        let refreshed: Vec<u64> = sift(&owners, &self.owners, true);
        let removed: Vec<u64> = sift(&self.owners, &owners, false);
        self.owners = owners;
        self.views = views;
        LightViewChanges { created, refreshed, removed }
    }
}

/// Sifting by membership and by its opposite splits a list in two: every
/// one of its entities lands in one of the two parts.
pub proof fn lemma_sifted_parts(s: Seq<u64>, other: Seq<u64>, n: int)
    requires
        0 <= n <= s.len(),
    ensures
        sifted(s, other, true, n).len() + sifted(s, other, false, n).len() == n,
    decreases n,
{
    if n > 0 {
        lemma_sifted_parts(s, other, n - 1);
    }
}

/// The views of a frame number as many as the kinds of the active lights
/// ask for.
pub open spec fn view_total(lights: Seq<ShadowLight>, n: int) -> int
    decreases n,
{
    if n <= 0 {
        0
    } else {
        view_total(lights, n - 1) + if lights[n - 1].is_active() {
            lights[n - 1].spec_view_count()
        } else {
            0
        }
    }
}

/// There is one view for each cube face, spot light and cascade of the
/// active lights, and none for any other light.
pub proof fn lemma_view_total(lights: Seq<ShadowLight>, n: int)
    requires
        0 <= n <= lights.len(),
    ensures
        light_views(lights, n).len() == view_total(lights, n),
    decreases n,
{
    if n > 0 {
        lemma_view_total(lights, n - 1);
    }
}

/// A light has views exactly when it is among the active lights: an
/// entity is an owner when one of the lights with that entity casts shadows
/// and is visible.
pub proof fn lemma_active_lights_members(lights: Seq<ShadowLight>, n: int, e: u64)
    requires
        0 <= n <= lights.len(),
    ensures
        active_lights(lights, n).contains(e) == (exists|i: int|
            0 <= i < n && (#[trigger] lights[i]).entity == e && lights[i].is_active()),
    decreases n,
{
    if n > 0 {
        lemma_active_lights_members(lights, n - 1, e);
        let before = active_lights(lights, n - 1);
        let l = lights[n - 1];
        if l.is_active() {
            let after = before.push(l.entity);
            assert(after[before.len() as int] == l.entity);
            if before.contains(e) {
                let at = choose|at: int| 0 <= at < before.len() && before[at] == e;
                assert(after[at] == e);
            }
            if after.contains(e) && !before.contains(e) {
                let at = choose|at: int| 0 <= at < after.len() && after[at] == e;
                assert(at == before.len());
            }
        }
        if exists|i: int|
            0 <= i < n && (#[trigger] lights[i]).entity == e && lights[i].is_active() {
            let i = choose|i: int|
                0 <= i < n && (#[trigger] lights[i]).entity == e && lights[i].is_active();
            if i < n - 1 {
                assert(before.contains(e));
            }
        }
    }
}

/// Sifting keeps exactly the entities of the list that are in the other
/// list, where that is wanted, or that are not, where it is not.
pub proof fn lemma_sifted_members(s: Seq<u64>, other: Seq<u64>, want: bool, n: int, e: u64)
    requires
        0 <= n <= s.len(),
    ensures
        sifted(s, other, want, n).contains(e) == (s.subrange(0, n).contains(e) && other.contains(e)
            == want),
    decreases n,
{
    if n > 0 {
        lemma_sifted_members(s, other, want, n - 1, e);
        let before = sifted(s, other, want, n - 1);
        let (head, whole) = (s.subrange(0, n - 1), s.subrange(0, n));
        assert(whole[n - 1] == s[n - 1]);
        if head.contains(e) {
            let at = choose|at: int| 0 <= at < head.len() && head[at] == e;
            assert(whole[at] == e);
        }
        if whole.contains(e) && s[n - 1] != e {
            let at = choose|at: int| 0 <= at < whole.len() && whole[at] == e;
            assert(head[at] == e);
        }
        if other.contains(s[n - 1]) == want {
            let after = before.push(s[n - 1]);
            assert(after[before.len() as int] == s[n - 1]);
            if before.contains(e) {
                let at = choose|at: int| 0 <= at < before.len() && before[at] == e;
                assert(after[at] == e);
            }
            if after.contains(e) && !before.contains(e) {
                let at = choose|at: int| 0 <= at < after.len() && after[at] == e;
                assert(at == before.len());
            }
        }
    } else {
        assert(s.subrange(0, 0).len() == 0);
    }
}

/// One pass of the shadow pass: the view that is drawn, the shadow map
/// that it is drawn into, and the meshes that are drawn.
#[derive(Debug)]
pub struct ShadowDraw {
    pub shadow_map: u32,
    pub view: LightView,
    pub meshes: Vec<u64>,
}

/// `draws` are the passes of the shadow pass for the given views: one for
/// each view, in the order of the views, into the shadow map that has the
/// view's place for its number, over the meshes listed for the view.
pub open spec fn is_shadow_draws(
    views: Seq<LightView>,
    visible: Seq<Vec<u64>>,
    draws: Seq<ShadowDraw>,
) -> bool {
    &&& draws.len() == views.len()
    &&& forall|v: int|
        0 <= v < draws.len() ==> {
            &&& (#[trigger] draws[v]).shadow_map == v
            &&& draws[v].view == views[v]
            &&& draws[v].meshes@ == visible[v]@
        }
}

/// The passes of the shadow pass: one depth-only pass for each light view,
/// over the meshes that the visibility check listed for it. `None` unless
/// there is one list of meshes for each view.
pub fn shadow_draws(views: &Vec<LightView>, visible: &Vec<Vec<u64>>) -> (r: Option<Vec<ShadowDraw>>)
    ensures
        r.is_some() == (views@.len() == visible@.len() && views@.len() <= u32::MAX),
        r matches Some(draws) ==> is_shadow_draws(views@, visible@, draws@),
{
    if views.len() != visible.len() || views.len() > u32::MAX as usize {
        return None;
    }
    let mut draws: Vec<ShadowDraw> = Vec::new();
    let mut v: usize = 0;
    while v < views.len()
        invariant
            v <= views@.len(),
            views@.len() == visible@.len(),
            views@.len() <= u32::MAX,
            draws@.len() == v,
            forall|k: int|
                0 <= k < v ==> {
                    &&& (#[trigger] draws@[k]).shadow_map == k
                    &&& draws@[k].view == views@[k]
                    &&& draws@[k].meshes@ == visible@[k]@
                },
        decreases views@.len() - v,
    {
        let list: &Vec<u64> = &visible[v];
        let mut meshes: Vec<u64> = Vec::new();
        let mut m: usize = 0;
        while m < list.len()
            invariant
                m <= list@.len(),
                meshes@ == list@.subrange(0, m as int),
            decreases list@.len() - m,
        {
            meshes.push(list[m]);
            assert(meshes@ =~= list@.subrange(0, m + 1));
            m = m + 1;
        }
        assert(list@.subrange(0, list@.len() as int) =~= list@);
        draws.push(ShadowDraw { shadow_map: v as u32, view: views[v], meshes });
        v = v + 1;
    }
    Some(draws)
}

} // verus!
