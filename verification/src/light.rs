//! Lights as the render world holds them, and the order of priority in
//! which they are given a place in the buffers of the shading stage.

use crate::assign::ClusterableObject;
use crate::geometry::{IVec3, Sphere, COORD_LIMIT};
use vstd::prelude::*;

verus! {

/// A colour in the linear working space of the shading stage, in fixed
/// point.
#[derive(Clone, Copy, Debug, PartialEq, Eq, Structural)]
pub struct LinearColor {
    pub red: u32,
    pub green: u32,
    pub blue: u32,
    pub alpha: u32,
}

/// The render world's copy of a point or spot light, in the view space of
/// the camera.
#[derive(Clone, Copy, Debug, PartialEq, Eq, Structural)]
pub struct ExtractedLight {
    pub entity: u64,
    pub position: IVec3,
    /// How far the light reaches.
    pub range: u32,
    /// The size of the body that emits the light.
    pub radius: u32,
    pub color: LinearColor,
    pub intensity: u32,
    pub shadows_enabled: bool,
}

impl ExtractedLight {
    /// The light has a position in range and a positive range within
    /// `COORD_LIMIT`. Other lights take no part in shading.
    pub open spec fn spec_is_valid(&self) -> bool {
        self.position.in_range() && 1 <= self.range <= COORD_LIMIT
    }

    /// The squared distance of the light from the eye.
    pub open spec fn distance2(&self) -> int {
        self.position.norm2()
    }

    /// Whether the light has a position in range and a positive range in
    /// range.
    #[verifier::when_used_as_spec(spec_is_valid)]
    pub fn is_valid(&self) -> (ok: bool)
        ensures
            ok == self.spec_is_valid(),
    {
        self.position.is_in_range() && 1 <= self.range && self.range <= 0x10_0000
    }

    /// The sphere of influence of the light.
    pub open spec fn spec_sphere(&self) -> Sphere {
        Sphere { center: self.position, radius: self.range }
    }

    /// The sphere of influence of the light.
    #[verifier::when_used_as_spec(spec_sphere)]
    pub fn sphere(&self) -> (s: Sphere)
        ensures
            s == self.spec_sphere(),
            s.wf() == self.spec_is_valid(),
    {
        Sphere { center: self.position, radius: self.range }
    }
}

/// Light `a`, which stands at place `ai` of the list, has priority over
/// light `b` at place `bi`: it is nearer to the eye, or as near and
/// brighter, or as near and as bright and earlier in the list.
pub open spec fn precedes(a: ExtractedLight, ai: int, b: ExtractedLight, bi: int) -> bool {
    let (da, db) = (a.distance2(), b.distance2());
    ||| da < db
    ||| da == db && a.intensity > b.intensity
    ||| da == db && a.intensity == b.intensity && ai < bi
}

/// Whether light `a` at place `ai` has priority over light `b` at place
/// `bi`.
pub fn has_priority(a: &ExtractedLight, ai: usize, b: &ExtractedLight, bi: usize) -> (r: bool)
    requires
        a.spec_is_valid(),
        b.spec_is_valid(),
    ensures
        r == precedes(*a, ai as int, *b, bi as int),
{
    let da: i64 = a.position.dot_exec(&a.position);
    let db: i64 = b.position.dot_exec(&b.position);
    da < db || (da == db && a.intensity > b.intensity) || (da == db && a.intensity == b.intensity
        && ai < bi)
}

/// `order` is the selection of at most `max` lights: it names valid lights
/// in strict order of priority, and every valid light that it does not name
/// comes after all `max` lights that it names.
pub open spec fn is_selection(lights: Seq<ExtractedLight>, max: int, order: Seq<u32>) -> bool {
    &&& order.len() <= max
    &&& forall|i: int|
        0 <= i < order.len() ==> (#[trigger] order[i]) < lights.len() && lights[order[i] as int].spec_is_valid()
    &&& forall|i: int, j: int|
        0 <= i < j < order.len() ==> precedes(
            lights[#[trigger] order[i] as int],
            order[i] as int,
            lights[#[trigger] order[j] as int],
            order[j] as int,
        )
    &&& forall|n: int|
        0 <= n < lights.len() && (#[trigger] lights[n]).spec_is_valid() ==> {
            ||| exists|i: int| 0 <= i < order.len() && #[trigger] order[i] == n
            ||| order.len() == max && forall|i: int|
                0 <= i < order.len() ==> precedes(
                    lights[#[trigger] order[i] as int],
                    order[i] as int,
                    lights[n],
                    n,
                )
        }
}

/// The places of the at most `max` valid lights of highest priority, in
/// order of priority. Lights beyond `max` are dropped from the end of that
/// order.
pub fn select_lights(lights: &Vec<ExtractedLight>, max: usize) -> (order: Vec<u32>)
    requires
        lights.len() <= u32::MAX,
    ensures
        is_selection(lights@, max as int, order@),
{
    let mut order: Vec<u32> = Vec::new();
    let mut done: bool = false;
    while order.len() < max && !done
        invariant
            lights.len() <= u32::MAX,
            order@.len() <= max,
            forall|i: int|
                0 <= i < order@.len() ==> (#[trigger] order@[i]) < lights@.len()
                    && lights@[order@[i] as int].spec_is_valid(),
            forall|i: int, j: int|
                0 <= i < j < order@.len() ==> precedes(
                    lights@[#[trigger] order@[i] as int],
                    order@[i] as int,
                    lights@[#[trigger] order@[j] as int],
                    order@[j] as int,
                ),
            forall|n: int|
                0 <= n < lights@.len() && (#[trigger] lights@[n]).spec_is_valid() ==> {
                    ||| exists|i: int| 0 <= i < order@.len() && #[trigger] order@[i] == n
                    ||| order@.len() > 0 && !done && precedes(
                        lights@[order@[order@.len() - 1] as int],
                        order@[order@.len() - 1] as int,
                        lights@[n],
                        n,
                    )
                    ||| order@.len() == 0 && !done
                },
        decreases max - order@.len(), if done { 0int } else { 1int },
    {
        let ghost before = order@;
        let mut best: Option<usize> = None;
        let mut n: usize = 0;
        while n < lights.len()
            invariant
                n <= lights.len() <= u32::MAX,
                order@ == before,
                forall|i: int|
                    0 <= i < order@.len() ==> (#[trigger] order@[i]) < lights@.len()
                        && lights@[order@[i] as int].spec_is_valid(),
                best matches Some(b) ==> {
                    &&& b < n
                    &&& lights@[b as int].spec_is_valid()
                    &&& is_candidate(lights@, order@, b as int)
                    &&& forall|m: int|
                        0 <= m < n && #[trigger] is_candidate(lights@, order@, m) ==> m == b
                            || precedes(lights@[b as int], b as int, lights@[m], m)
                },
                best is None ==> forall|m: int|
                    0 <= m < n ==> !#[trigger] is_candidate(lights@, order@, m),
            decreases lights.len() - n,
        {
            let l: &ExtractedLight = &lights[n];
            if l.is_valid() {
                let after: bool = if order.len() == 0 {
                    true
                } else {
                    let last: usize = order[order.len() - 1] as usize;
                    has_priority(&lights[last], last, l, n)
                };
                if after {
                    let better: bool = match best {
                        None => true,
                        Some(b) => has_priority(l, n, &lights[b], b),
                    };
                    if better {
                        best = Some(n);
                    }
                }
            }
            n = n + 1;
        }
        match best {
            None => {
                done = true;
                proof {
                    assert forall|n: int|
                        0 <= n < lights@.len() && (#[trigger] lights@[n]).spec_is_valid() implies (
                    exists|i: int| 0 <= i < order@.len() && #[trigger] order@[i] == n) by {
                        assert(!is_candidate(lights@, order@, n));
                    }
                }
            },
            Some(b) => {
                order.push(b as u32);
                proof {
                    let now = order@;
                    assert forall|n: int|
                        0 <= n < lights@.len() && (#[trigger] lights@[n]).spec_is_valid() implies {
                        ||| exists|i: int| 0 <= i < now.len() && #[trigger] now[i] == n
                        ||| precedes(lights@[b as int], b as int, lights@[n], n)
                    } by {
                        if exists|i: int| 0 <= i < before.len() && #[trigger] before[i] == n {
                            let i = choose|i: int| 0 <= i < before.len() && #[trigger] before[i] == n;
                            assert(now[i] == n);
                        } else if n == b {
                            assert(now[now.len() - 1] == n);
                        } else {
                            assert(is_candidate(lights@, before, n));
                        }
                    }
                    assert forall|i: int, j: int| 0 <= i < j < now.len() implies precedes(
                        lights@[#[trigger] now[i] as int],
                        now[i] as int,
                        lights@[#[trigger] now[j] as int],
                        now[j] as int,
                    ) by {
                        if j == now.len() - 1 {
                            assert(now[i] == before[i]);
                            if i < before.len() - 1 {
                                assert(precedes(
                                    lights@[before[i] as int],
                                    before[i] as int,
                                    lights@[before[before.len() - 1] as int],
                                    before[before.len() - 1] as int,
                                ));
                            }
                        } else {
                            assert(now[i] == before[i] && now[j] == before[j]);
                        }
                    }
                }
            },
        }
    }
    proof {
        let last = order@.len() - 1;
        assert forall|n: int|
            0 <= n < lights@.len() && (#[trigger] lights@[n]).spec_is_valid() implies {
            ||| exists|i: int| 0 <= i < order@.len() && #[trigger] order@[i] == n
            ||| order@.len() == max && forall|i: int|
                0 <= i < order@.len() ==> precedes(
                    lights@[#[trigger] order@[i] as int],
                    order@[i] as int,
                    lights@[n],
                    n,
                )
        } by {
            if !(exists|i: int| 0 <= i < order@.len() && #[trigger] order@[i] == n) {
                if order@.len() > 0 {
                    assert forall|i: int| 0 <= i < order@.len() implies precedes(
                        lights@[#[trigger] order@[i] as int],
                        order@[i] as int,
                        lights@[n],
                        n,
                    ) by {
                        if i < last {
                            assert(precedes(
                                lights@[order@[i] as int],
                                order@[i] as int,
                                lights@[order@[last] as int],
                                order@[last] as int,
                            ));
                        }
                    }
                }
            }
        }
    }
    order
}

/// Light `n` is valid and comes after the last light of `order`, if there
/// is one.
pub open spec fn is_candidate(lights: Seq<ExtractedLight>, order: Seq<u32>, n: int) -> bool {
    &&& 0 <= n < lights.len()
    &&& lights[n].spec_is_valid()
    &&& order.len() > 0 ==> precedes(
        lights[order[order.len() - 1] as int],
        order[order.len() - 1] as int,
        lights[n],
        n,
    )
}

/// The selected lights as the objects that are assigned to clusters, in
/// the order of the selection: object `i` is the light at place `order[i]`.
pub fn clusterable_objects(lights: &Vec<ExtractedLight>, order: &Vec<u32>) -> (objects: Vec<
    ClusterableObject,
>)
    requires
        forall|i: int| 0 <= i < order@.len() ==> (#[trigger] order@[i]) < lights@.len(),
    ensures
        objects@.len() == order@.len(),
        forall|i: int|
            0 <= i < order@.len() ==> #[trigger] objects@[i] == (ClusterableObject {
                entity: lights@[order@[i] as int].entity,
                sphere: lights@[order@[i] as int].spec_sphere(),
            }),
{
    let mut objects: Vec<ClusterableObject> = Vec::new();
    let mut i: usize = 0;
    while i < order.len()
        invariant
            i <= order@.len(),
            objects@.len() == i,
            forall|k: int| 0 <= k < order@.len() ==> (#[trigger] order@[k]) < lights@.len(),
            forall|k: int|
                0 <= k < i ==> #[trigger] objects@[k] == (ClusterableObject {
                    entity: lights@[order@[k] as int].entity,
                    sphere: lights@[order@[k] as int].spec_sphere(),
                }),
        decreases order@.len() - i,
    {
        let l: &ExtractedLight = &lights[order[i] as usize];
        objects.push(ClusterableObject { entity: l.entity, sphere: l.sphere() });
        i = i + 1;
    }
    objects
}

/// Where one selection names light `x` at place `i` and another names a
/// different light there, while the two agree before `i`, the other light
/// has priority over `x`.
proof fn lemma_other_has_priority(
    lights: Seq<ExtractedLight>,
    max: int,
    a: Seq<u32>,
    b: Seq<u32>,
    i: int,
)
    requires
        is_selection(lights, max, a),
        is_selection(lights, max, b),
        0 <= i < a.len(),
        i < b.len(),
        forall|j: int| 0 <= j < i ==> a[j] == b[j],
        a[i] != b[i],
    ensures
        precedes(lights[b[i] as int], b[i] as int, lights[a[i] as int], a[i] as int),
{
    let x = a[i] as int;
    assert(lights[x].spec_is_valid());
    if exists|j: int| 0 <= j < b.len() && #[trigger] b[j] == x {
        let j = choose|j: int| 0 <= j < b.len() && #[trigger] b[j] == x;
        if j < i {
            assert(a[j] == b[j]);
            assert(precedes(lights[a[j] as int], a[j] as int, lights[a[i] as int], a[i] as int));
        } else {
            assert(precedes(lights[b[i] as int], b[i] as int, lights[b[j] as int], b[j] as int));
        }
    } else {
        assert(precedes(lights[b[i] as int], b[i] as int, lights[x], x));
    }
}

/// Two selections agree on their first `k` places.
proof fn lemma_selections_agree(
    lights: Seq<ExtractedLight>,
    max: int,
    a: Seq<u32>,
    b: Seq<u32>,
    k: int,
)
    requires
        is_selection(lights, max, a),
        is_selection(lights, max, b),
        0 <= k <= a.len(),
        k <= b.len(),
    ensures
        forall|j: int| 0 <= j < k ==> a[j] == b[j],
    decreases k,
{
    if k > 0 {
        lemma_selections_agree(lights, max, a, b, k - 1);
        if a[k - 1] != b[k - 1] {
            lemma_other_has_priority(lights, max, a, b, k - 1);
            lemma_other_has_priority(lights, max, b, a, k - 1);
        }
    }
}

/// A selection that agrees with another on all its places is not shorter
/// than the other.
proof fn lemma_selection_not_shorter(
    lights: Seq<ExtractedLight>,
    max: int,
    a: Seq<u32>,
    b: Seq<u32>,
)
    requires
        is_selection(lights, max, a),
        is_selection(lights, max, b),
        a.len() <= b.len(),
        forall|j: int| 0 <= j < a.len() ==> a[j] == b[j],
    ensures
        a.len() == b.len(),
{
    if a.len() < b.len() {
        let at = a.len() as int;
        let n = b[at] as int;
        assert(lights[n].spec_is_valid());
        let j = choose|j: int| 0 <= j < a.len() && #[trigger] a[j] == n;
        assert(a[j] == b[j]);
        assert(precedes(lights[b[j] as int], b[j] as int, lights[b[at] as int], b[at] as int));
    }
}

/// The selection is determined by the lights and the limit: any two
/// selections of the same lights are the same.
pub proof fn lemma_selection_is_unique(
    lights: Seq<ExtractedLight>,
    max: int,
    a: Seq<u32>,
    b: Seq<u32>,
)
    requires
        is_selection(lights, max, a),
        is_selection(lights, max, b),
    ensures
        a == b,
{
    if a.len() <= b.len() {
        lemma_selections_agree(lights, max, a, b, a.len() as int);
        lemma_selection_not_shorter(lights, max, a, b);
    } else {
        lemma_selections_agree(lights, max, a, b, b.len() as int);
        lemma_selection_not_shorter(lights, max, b, a);
    }
    assert(a =~= b);
}

/// Where more valid lights are at hand than the limit allows, the
/// selection is full, and every light that was dropped comes, in priority,
/// after every light that was kept.
pub proof fn lemma_dropped_lights_come_last(
    lights: Seq<ExtractedLight>,
    max: int,
    order: Seq<u32>,
    n: int,
    i: int,
)
    requires
        is_selection(lights, max, order),
        0 <= n < lights.len(),
        lights[n].spec_is_valid(),
        forall|j: int| 0 <= j < order.len() ==> order[j] != n,
        0 <= i < order.len(),
    ensures
        order.len() == max,
        precedes(lights[order[i] as int], order[i] as int, lights[n], n),
{
    if exists|j: int| 0 <= j < order.len() && #[trigger] order[j] == n {
        let j = choose|j: int| 0 <= j < order.len() && #[trigger] order[j] == n;
        assert(order[j] != n);
    }
}

} // verus!
