//! Assigning lights to the cells of a cluster grid.
//!
//! A light reaches a cell when its sphere of influence and the volume of
//! the cell share a point. The test is made in two steps: the planes of the
//! camera and of the cell first rule out the cells that the sphere lies
//! wholly to one side of, and the exact test of [`crate::exact`] then
//! decides each cell that is left. Lights are taken in the order given; once the cells reached by the
//! lights so far outnumber the capacity of the light index list, that light
//! and every later one are left out.

use crate::camera::{depth_plane, spec_depth_plane};
use crate::cluster::{Clusters, Grid};
use crate::cluster::lemma_index_of_cell_at;
use crate::geometry::{shares_point, Frustum, IVec3, Sphere};
use vstd::prelude::*;

verus! {

/// A light with a bounded volume of influence, in the view space of the
/// camera whose grid it is assigned to.
#[derive(Clone, Copy, Debug, PartialEq, Eq, Structural)]
pub struct ClusterableObject {
    pub entity: u64,
    pub sphere: Sphere,
}

impl Grid {
    /// The volume of cell `(i, j, k)`.
    pub open spec fn cell_volume(&self, i: int, j: int, k: int) -> Frustum {
        self.camera.spec_volume(
            self.column_start(i),
            self.column_start(i + 1),
            self.row_start(j),
            self.row_start(j + 1),
            self.slices@[k] as int,
            self.slices@[k + 1] as int,
        )
    }

    /// The sphere is not wholly to one side of tile column `i`.
    pub open spec fn column_touched(&self, s: Sphere, i: int) -> bool {
        &&& !self.camera.column_plane(self.column_start(i)).sphere_behind(s)
        &&& !self.camera.column_plane(self.column_start(i + 1)).flipped().sphere_behind(s)
    }

    /// The sphere is not wholly above or below tile row `j`.
    pub open spec fn row_touched(&self, s: Sphere, j: int) -> bool {
        &&& !self.camera.row_plane(self.row_start(j)).sphere_behind(s)
        &&& !self.camera.row_plane(self.row_start(j + 1)).flipped().sphere_behind(s)
    }

    /// The sphere is not wholly before or beyond depth slice `k`.
    pub open spec fn slice_touched(&self, s: Sphere, k: int) -> bool {
        &&& !spec_depth_plane(self.slices@[k] as int).sphere_behind(s)
        &&& !spec_depth_plane(self.slices@[k + 1] as int).flipped().sphere_behind(s)
    }

    /// The sphere is well formed and not wholly behind any one plane of
    /// the camera's frustum. A sphere that shares a point with the frustum
    /// passes this test; one that passes it may still lie beside an edge or
    /// a corner of the frustum.
    pub open spec fn may_see(&self, s: Sphere) -> bool {
        s.wf() && self.camera.frustum().touches_sphere(s)
    }

    /// The light reaches cell `(i, j, k)`: its sphere is well formed and
    /// shares a point with the volume of the cell.
    pub open spec fn reaches(&self, s: Sphere, i: int, j: int, k: int) -> bool {
        s.wf() && shares_point(s, self.cell_volume(i, j, k))
    }

    /// The sphere reaches the cell at place `n`.
    pub open spec fn reaches_at(&self, s: Sphere, n: int) -> bool {
        let (i, j, k) = self.dims.cell_at(n);
        self.reaches(s, i, j, k)
    }

    /// The number of cells at places below `c` that the sphere reaches.
    pub open spec fn reach_count(&self, s: Sphere, c: int) -> int
        decreases c,
    {
        if c <= 0 {
            0
        } else {
            self.reach_count(s, c - 1) + if self.reaches_at(s, c - 1) {
                1int
            } else {
                0int
            }
        }
    }

    /// The number of cells that the first `m` lights reach, each cell
    /// counted once for every light that reaches it.
    pub open spec fn reach_total(&self, lights: Seq<ClusterableObject>, m: int) -> int
        decreases m,
    {
        if m <= 0 {
            0
        } else {
            self.reach_total(lights, m - 1) + self.reach_count(
                lights[m - 1].sphere,
                self.dims.spec_cell_count(),
            )
        }
    }

    /// Light `n` is taken: the cells reached by the lights up to and
    /// including it fit in `capacity`.
    pub open spec fn accepted(&self, lights: Seq<ClusterableObject>, capacity: int, n: int)
        -> bool {
        self.reach_total(lights, n + 1) <= capacity
    }

    /// The list of the cell at place `c` after the first `m` lights: the
    /// index of every light that was taken and reaches the cell, in the
    /// order of the lights.
    pub open spec fn cell_list(
        &self,
        lights: Seq<ClusterableObject>,
        capacity: int,
        c: int,
        m: int,
    ) -> Seq<u32>
        decreases m,
    {
        if m <= 0 {
            Seq::empty()
        } else {
            let before = self.cell_list(lights, capacity, c, m - 1);
            if self.accepted(lights, capacity, m - 1) && self.reaches_at(lights[m - 1].sphere, c) {
                before.push((m - 1) as u32)
            } else {
                before
            }
        }
    }
}

/// `cells` are the lists that the assignment gives the cells of `g`: one
/// list for each cell, which names, in the order of the lights, every light
/// that reaches the cell and was taken.
pub open spec fn is_assignment(
    g: &Grid,
    lights: Seq<ClusterableObject>,
    capacity: int,
    cells: Seq<Vec<u32>>,
) -> bool {
    &&& cells.len() == g.dims.spec_cell_count()
    &&& forall|c: int|
        0 <= c < cells.len() ==> (#[trigger] cells[c])@ == g.cell_list(
            lights,
            capacity,
            c,
            lights.len() as int,
        )
}

/// The number of light indices in the lists of the cells at places below
/// `c`.
pub open spec fn listed_total(cells: Seq<Vec<u32>>, c: int) -> int
    decreases c,
{
    if c <= 0 {
        0
    } else {
        listed_total(cells, c - 1) + cells[c - 1]@.len()
    }
}

/// No sphere reaches a negative number of cells, or more cells than it was
/// asked about.
pub proof fn lemma_reach_count_range(g: &Grid, s: Sphere, c: int)
    requires
        0 <= c,
    ensures
        0 <= g.reach_count(s, c) <= c,
    decreases c,
{
    if c > 0 {
        lemma_reach_count_range(g, s, c - 1);
    }
}

/// A sphere that is wholly behind a plane of the camera's frustum reaches
/// no cell.
pub proof fn lemma_unseen_reaches_no_cell(g: &Grid, s: Sphere, c: int)
    requires
        g.wf(),
        0 <= c <= g.dims.spec_cell_count(),
        !g.may_see(s),
    ensures
        g.reach_count(s, c) == 0,
    decreases c,
{
    if c > 0 {
        lemma_unseen_reaches_no_cell(g, s, c - 1);
        lemma_index_of_cell_at(g.dims, c - 1);
        let (i, j, k) = g.dims.cell_at(c - 1);
        if g.reaches(s, i, j, k) {
            g.lemma_reach_is_seen(s, i, j, k);
        }
    }
}

/// The number of cells reached never falls as lights are added.
pub proof fn lemma_reach_total_monotone(g: &Grid, lights: Seq<ClusterableObject>, a: int, b: int)
    requires
        0 <= a <= b,
        0 <= g.dims.spec_cell_count(),
    ensures
        0 <= g.reach_total(lights, a) <= g.reach_total(lights, b),
    decreases b,
{
    if b > 0 {
        lemma_reach_count_range(g, lights[b - 1].sphere, g.dims.spec_cell_count());
        if a < b {
            lemma_reach_total_monotone(g, lights, a, b - 1);
        } else {
            lemma_reach_total_monotone(g, lights, a - 1, b - 1);
        }
    }
}

/// A light whose sphere shares no point with the camera's frustum reaches no
/// cell, so that it takes nothing of the capacity from the lights after it.
pub proof fn lemma_light_outside_reaches_no_cell(g: &Grid, s: Sphere, c: int)
    requires
        g.wf(),
        0 <= c <= g.dims.spec_cell_count(),
        !shares_point(s, g.camera.frustum()),
    ensures
        g.reach_count(s, c) == 0,
    decreases c,
{
    if c > 0 {
        lemma_light_outside_reaches_no_cell(g, s, c - 1);
        lemma_index_of_cell_at(g.dims, c - 1);
        let (i, j, k) = g.dims.cell_at(c - 1);
        if g.reaches(s, i, j, k) {
            g.lemma_reach_is_seen(s, i, j, k);
        }
    }
}

/// Once a light is left out for want of capacity, no later light adds to
/// any cell's list.
pub proof fn lemma_cell_list_stops(
    g: &Grid,
    lights: Seq<ClusterableObject>,
    capacity: int,
    c: int,
    limit: int,
    m: int,
)
    requires
        0 <= limit <= m,
        0 <= g.dims.spec_cell_count(),
        limit < m ==> !g.accepted(lights, capacity, limit),
    ensures
        g.cell_list(lights, capacity, c, m) == g.cell_list(lights, capacity, c, limit),
    decreases m,
{
    if limit < m {
        lemma_reach_total_monotone(g, lights, limit + 1, m);
        lemma_cell_list_stops(g, lights, capacity, c, limit, m - 1);
    }
}

/// What the assignment needs to know of one light: whether the camera sees
/// it, which tile columns, tile rows and depth slices it touches, and how
/// many cells it reaches.
struct Footprint {
    seen: bool,
    cols: Vec<bool>,
    rows: Vec<bool>,
    deps: Vec<bool>,
    count: usize,
}

impl Footprint {
    /// The footprint says whether the camera may see sphere `s`, and which
    /// columns, rows and slices of grid `g` it touches.
    spec fn matches_axes(&self, g: &Grid, s: Sphere) -> bool {
        &&& self.seen == g.may_see(s)
        &&& self.seen ==> {
            &&& self.cols@.len() == g.dims.x
            &&& self.rows@.len() == g.dims.y
            &&& self.deps@.len() == g.dims.z
            &&& forall|i: int| 0 <= i < g.dims.x ==> self.cols@[i] == g.column_touched(s, i)
            &&& forall|j: int| 0 <= j < g.dims.y ==> self.rows@[j] == g.row_touched(s, j)
            &&& forall|k: int| 0 <= k < g.dims.z ==> self.deps@[k] == g.slice_touched(s, k)
        }
    }

    /// The footprint is that of sphere `s` in grid `g`.
    spec fn describes(&self, g: &Grid, s: Sphere) -> bool {
        self.matches_axes(g, s) && self.count == g.reach_count(s, g.dims.spec_cell_count())
    }

    /// Whether the light reaches cell `(i, j, k)`: the planes rule the cell
    /// out, or the exact test decides.
    fn hits(&self, g: &Grid, s: &Sphere, i: u32, j: u32, k: u32) -> (h: bool)
        requires
            g.wf(),
            self.matches_axes(g, *s),
            g.dims.has_cell(i as int, j as int, k as int),
        ensures
            h == g.reaches(*s, i as int, j as int, k as int),
    {
        proof {
            if g.reaches(*s, i as int, j as int, k as int) {
                g.lemma_reach_is_seen(*s, i as int, j as int, k as int);
            }
            if s.wf() {
                g.lemma_near_enough_is_exact(*s, i as int, j as int, k as int);
            }
        }
        self.seen && self.cols[i as usize] && self.rows[j as usize] && self.deps[k as usize]
            && g.is_near_enough(s, i, j, k)
    }

    /// The footprint of a sphere that the camera does not see.
    fn unseen(Ghost(g): Ghost<&Grid>, Ghost(s): Ghost<Sphere>) -> (f: Footprint)
        requires
            !g.may_see(s),
            g.wf(),
        ensures
            f.describes(g, s),
    {
        proof {
            lemma_unseen_reaches_no_cell(g, s, g.dims.spec_cell_count());
        }
        Footprint { seen: false, cols: Vec::new(), rows: Vec::new(), deps: Vec::new(), count: 0 }
    }

    /// The footprint of sphere `s` in grid `g`.
    fn of(g: &Grid, s: &Sphere) -> (f: Footprint)
        requires
            g.wf(),
        ensures
            f.describes(g, *s),
    {
        proof {
            assert(0 <= g.dims.x * g.dims.y * g.dims.z) by (nonlinear_arith);
        }
        if !s.is_wf() {
            return Footprint::unseen(Ghost(g), Ghost(*s));
        }
        let view: Frustum = g.camera.frustum();
        if !view.is_touching_sphere(s) {
            return Footprint::unseen(Ghost(g), Ghost(*s));
        }
        let mut cols: Vec<bool> = Vec::new();
        let mut i: u32 = 0;
        while i < g.dims.x
            invariant
                g.wf(),
                s.wf(),
                i <= g.dims.x,
                cols@.len() == i,
                forall|a: int| 0 <= a < i ==> cols@[a] == g.column_touched(*s, a),
            decreases g.dims.x - i,
        {
            let lo = g.camera.column_plane_exec(g.column_start_exec(i));
            let hi = g.camera.column_plane_exec(g.column_start_exec(i + 1)).flipped();
            cols.push(!lo.is_sphere_behind(s) && !hi.is_sphere_behind(s));
            i = i + 1;
        }
        let mut rows: Vec<bool> = Vec::new();
        let mut j: u32 = 0;
        while j < g.dims.y
            invariant
                g.wf(),
                s.wf(),
                j <= g.dims.y,
                rows@.len() == j,
                forall|a: int| 0 <= a < j ==> rows@[a] == g.row_touched(*s, a),
            decreases g.dims.y - j,
        {
            let lo = g.camera.row_plane_exec(g.row_start_exec(j));
            let hi = g.camera.row_plane_exec(g.row_start_exec(j + 1)).flipped();
            rows.push(!lo.is_sphere_behind(s) && !hi.is_sphere_behind(s));
            j = j + 1;
        }
        let mut deps: Vec<bool> = Vec::new();
        let mut k: u32 = 0;
        while k < g.dims.z
            invariant
                g.wf(),
                s.wf(),
                k <= g.dims.z,
                deps@.len() == k,
                forall|a: int| 0 <= a < k ==> deps@[a] == g.slice_touched(*s, a),
            decreases g.dims.z - k,
        {
            let lo = depth_plane(g.slices.bound(k));
            let hi = depth_plane(g.slices.bound(k + 1)).flipped();
            deps.push(!lo.is_sphere_behind(s) && !hi.is_sphere_behind(s));
            k = k + 1;
        }
        let cells: usize = g.dims.cell_count();
        let mut print = Footprint { seen: true, cols, rows, deps, count: 0 };
        let mut count: usize = 0;
        let mut c: usize = 0;
        while c < cells
            invariant
                g.wf(),
                c <= cells,
                cells == g.dims.spec_cell_count(),
                count == g.reach_count(*s, c as int),
                count <= c,
                print.matches_axes(g, *s),
            decreases cells - c,
        {
            let (a, b, d) = g.dims.coords(c);
            if print.hits(g, s, a, b, d) {
                count = count + 1;
            }
            c = c + 1;
        }
        print.count = count;
        print
    }
}

/// The lists of the cells of `grid` for the given lights: the list of each
/// cell names, in the order of the lights, every light that reaches the
/// cell and was taken before the capacity of the light index list ran out.
pub fn assign_objects_to_clusters(
    grid: &Grid,
    lights: &Vec<ClusterableObject>,
    capacity: usize,
) -> (cells: Vec<Vec<u32>>)
    requires
        grid.wf(),
        lights.len() <= u32::MAX,
    ensures
        is_assignment(grid, lights@, capacity as int, cells@),
        listed_total(cells@, cells@.len() as int) <= capacity,
{
    let count: usize = grid.dims.cell_count();
    let mut prints: Vec<Footprint> = Vec::new();
    let mut total: usize = 0;
    let mut limit: usize = 0;
    let mut full: bool = false;
    while limit < lights.len()
        invariant_except_break
            !full,
        invariant
            grid.wf(),
            limit <= lights.len(),
            prints@.len() == limit,
            total == grid.reach_total(lights@, limit as int),
            total <= capacity,
            forall|a: int|
                0 <= a < limit ==> (#[trigger] prints@[a]).describes(grid, lights@[a].sphere),
        ensures
            full ==> limit < lights.len() && !grid.accepted(lights@, capacity as int, limit as int),
            !full ==> limit == lights.len(),
        decreases lights.len() - limit,
    {
        let print: Footprint = Footprint::of(grid, &lights[limit].sphere);
        if print.count > capacity - total {
            full = true;
            break ;
        }
        total = total + print.count;
        prints.push(print);
        limit = limit + 1;
    }
    proof {
        assert(0 <= grid.dims.x * grid.dims.y * grid.dims.z) by (nonlinear_arith);
        assert forall|a: int| 0 <= a < limit implies grid.accepted(lights@, capacity as int, a) by {
            lemma_reach_total_monotone(grid, lights@, a + 1, limit as int);
        }
    }
    let mut cells: Vec<Vec<u32>> = Vec::new();
    let mut c: usize = 0;
    while c < count
        invariant
            grid.wf(),
            c <= count,
            count == grid.dims.spec_cell_count(),
            cells@.len() == c,
            limit <= prints@.len() <= lights@.len() <= u32::MAX,
            limit < lights@.len() ==> !grid.accepted(lights@, capacity as int, limit as int),
            forall|a: int| 0 <= a < limit ==> grid.accepted(lights@, capacity as int, a),
            forall|a: int|
                0 <= a < prints@.len() ==> (#[trigger] prints@[a]).describes(
                    grid,
                    lights@[a].sphere,
                ),
            forall|a: int|
                0 <= a < c ==> (#[trigger] cells@[a])@ == grid.cell_list(
                    lights@,
                    capacity as int,
                    a,
                    lights@.len() as int,
                ),
        decreases count - c,
    {
        let (i, j, k) = grid.dims.coords(c);
        let mut list: Vec<u32> = Vec::new();
        let mut m: usize = 0;
        while m < limit
            invariant
                grid.wf(),
                m <= limit <= prints@.len() <= lights@.len() <= u32::MAX,
                c < grid.dims.spec_cell_count(),
                (i as int, j as int, k as int) == grid.dims.cell_at(c as int),
                grid.dims.has_cell(i as int, j as int, k as int),
                forall|a: int| 0 <= a < limit ==> grid.accepted(lights@, capacity as int, a),
                forall|a: int|
                    0 <= a < prints@.len() ==> (#[trigger] prints@[a]).describes(
                        grid,
                        lights@[a].sphere,
                    ),
                list@ == grid.cell_list(lights@, capacity as int, c as int, m as int),
            decreases limit - m,
        {
            if prints[m].hits(grid, &lights[m].sphere, i, j, k) {
                list.push(m as u32);
            }
            m = m + 1;
        }
        proof {
            assert(0 <= grid.dims.x * grid.dims.y * grid.dims.z) by (nonlinear_arith);
            lemma_cell_list_stops(
                grid,
                lights@,
                capacity as int,
                c as int,
                limit as int,
                lights@.len() as int,
            );
        }
        cells.push(list);
        c = c + 1;
    }
    proof {
        lemma_lists_fit_capacity(grid, lights@, capacity as int, cells@);
    }
    cells
}

impl Clusters {
    /// Replaces the lists of the cells by those that the assignment gives
    /// for `lights`.
    pub fn assign(&mut self, lights: &Vec<ClusterableObject>, capacity: usize)
        requires
            old(self).wf(),
            lights.len() <= u32::MAX,
        ensures
            final(self).wf(),
            final(self).grid == old(self).grid,
            is_assignment(&final(self).grid, lights@, capacity as int, final(self).cells@),
            listed_total(final(self).cells@, final(self).cells@.len() as int) <= capacity,
    {
        self.cells = assign_objects_to_clusters(&self.grid, lights, capacity);
    }
}

impl Grid {
    /// A cell's list names exactly the lights that reach the cell and were
    /// taken.
    pub proof fn lemma_cell_list_members(
        &self,
        lights: Seq<ClusterableObject>,
        capacity: int,
        c: int,
        m: int,
        v: u32,
    )
        requires
            0 <= m <= lights.len() <= u32::MAX,
        ensures
            self.cell_list(lights, capacity, c, m).contains(v) == (v < m && self.accepted(
                lights,
                capacity,
                v as int,
            ) && self.reaches_at(lights[v as int].sphere, c)),
        decreases m,
    {
        if m > 0 {
            self.lemma_cell_list_members(lights, capacity, c, m - 1, v);
            let before = self.cell_list(lights, capacity, c, m - 1);
            let last = (m - 1) as u32;
            let after = before.push(last);
            if before.contains(v) {
                let at = choose|at: int| 0 <= at < before.len() && before[at] == v;
                assert(after[at] == v);
            }
            assert(after[before.len() as int] == last);
            if after.contains(v) && v != last {
                let at = choose|at: int| 0 <= at < after.len() && after[at] == v;
                assert(before[at] == v);
            }
        }
    }

    /// A light whose sphere shares no point with the camera's frustum is in
    /// no cell's list.
    pub proof fn lemma_light_outside_the_frustum_is_in_no_list(
        &self,
        lights: Seq<ClusterableObject>,
        capacity: int,
        c: int,
        n: u32,
    )
        requires
            self.wf(),
            lights.len() <= u32::MAX,
            n < lights.len(),
            0 <= c < self.dims.spec_cell_count(),
            !shares_point(lights[n as int].sphere, self.camera.frustum()),
        ensures
            !self.cell_list(lights, capacity, c, lights.len() as int).contains(n),
    {
        self.lemma_cell_list_members(lights, capacity, c, lights.len() as int, n);
        lemma_index_of_cell_at(self.dims, c);
        let (i, j, k) = self.dims.cell_at(c);
        if self.reaches(lights[n as int].sphere, i, j, k) {
            self.lemma_reach_is_seen(lights[n as int].sphere, i, j, k);
        }
    }

    /// Every light in the list of a cell shares a point with the volume of
    /// the cell: some point of the cell lies within the range of the
    /// light.
    pub proof fn lemma_listed_light_shares_a_point(
        &self,
        lights: Seq<ClusterableObject>,
        capacity: int,
        c: int,
        n: u32,
    )
        requires
            lights.len() <= u32::MAX,
            self.cell_list(lights, capacity, c, lights.len() as int).contains(n),
        ensures
            n < lights.len(),
            ({
                let (i, j, k) = self.dims.cell_at(c);
                shares_point(lights[n as int].sphere, self.cell_volume(i, j, k))
            }),
    {
        self.lemma_cell_list_members(lights, capacity, c, lights.len() as int, n);
    }

    /// A light whose sphere is not well formed, such as one of radius zero,
    /// is in no cell's list.
    pub proof fn lemma_malformed_light_is_in_no_list(
        &self,
        lights: Seq<ClusterableObject>,
        capacity: int,
        c: int,
        n: u32,
    )
        requires
            lights.len() <= u32::MAX,
            n < lights.len(),
            !lights[n as int].sphere.wf(),
        ensures
            !self.cell_list(lights, capacity, c, lights.len() as int).contains(n),
    {
        self.lemma_cell_list_members(lights, capacity, c, lights.len() as int, n);
    }
}

/// Assigning the same lights to the same grid again gives the same lists.
pub proof fn lemma_assignment_is_repeatable(
    g: &Grid,
    lights: Seq<ClusterableObject>,
    capacity: int,
    first: Seq<Vec<u32>>,
    second: Seq<Vec<u32>>,
)
    requires
        is_assignment(g, lights, capacity, first),
        is_assignment(g, lights, capacity, second),
    ensures
        first.len() == second.len(),
        forall|c: int| 0 <= c < first.len() ==> (#[trigger] first[c])@ == second[c]@,
{
}

impl Grid {
    /// The number of light indices that the cells at places below `c` list
    /// after the first `m` lights.
    pub open spec fn list_total(
        &self,
        lights: Seq<ClusterableObject>,
        capacity: int,
        c: int,
        m: int,
    ) -> int
        decreases c,
    {
        if c <= 0 {
            0
        } else {
            self.list_total(lights, capacity, c - 1, m) + self.cell_list(
                lights,
                capacity,
                c - 1,
                m,
            ).len()
        }
    }

    /// The number of cells at places below `c` that those of the first `m`
    /// lights reach that were taken.
    pub open spec fn taken_total(
        &self,
        lights: Seq<ClusterableObject>,
        capacity: int,
        c: int,
        m: int,
    ) -> int
        decreases m,
    {
        if m <= 0 {
            0
        } else {
            self.taken_total(lights, capacity, c, m - 1) + if self.accepted(
                lights,
                capacity,
                m - 1,
            ) {
                self.reach_count(lights[m - 1].sphere, c)
            } else {
                0
            }
        }
    }

    /// Each light adds to the lists one index for every cell it reaches, if
    /// it was taken, and nothing otherwise.
    proof fn lemma_list_total_step(
        &self,
        lights: Seq<ClusterableObject>,
        capacity: int,
        c: int,
        m: int,
    )
        requires
            0 <= c,
            1 <= m,
        ensures
            self.list_total(lights, capacity, c, m) == self.list_total(lights, capacity, c, m - 1)
                + if self.accepted(lights, capacity, m - 1) {
                self.reach_count(lights[m - 1].sphere, c)
            } else {
                0
            },
        decreases c,
    {
        if c > 0 {
            self.lemma_list_total_step(lights, capacity, c - 1, m);
        }
    }

    /// The lists hold one index for every cell that a taken light reaches.
    proof fn lemma_list_total_is_taken_total(
        &self,
        lights: Seq<ClusterableObject>,
        capacity: int,
        c: int,
        m: int,
    )
        requires
            0 <= c,
            0 <= m,
        ensures
            self.list_total(lights, capacity, c, m) == self.taken_total(lights, capacity, c, m),
        decreases m, c,
    {
        if m > 0 {
            self.lemma_list_total_step(lights, capacity, c, m);
            self.lemma_list_total_is_taken_total(lights, capacity, c, m - 1);
        } else if c > 0 {
            self.lemma_list_total_is_taken_total(lights, capacity, c - 1, m);
        }
    }

    /// The cells that the taken lights reach fit in the capacity.
    proof fn lemma_taken_total_fits(&self, lights: Seq<ClusterableObject>, capacity: int, m: int)
        requires
            0 <= m,
            0 <= capacity,
            0 <= self.dims.spec_cell_count(),
        ensures
            self.taken_total(lights, capacity, self.dims.spec_cell_count(), m) <= capacity,
            m >= 1 && self.accepted(lights, capacity, m - 1) ==> self.taken_total(
                lights,
                capacity,
                self.dims.spec_cell_count(),
                m,
            ) == self.reach_total(lights, m),
        decreases m,
    {
        let cells = self.dims.spec_cell_count();
        if m > 0 {
            self.lemma_taken_total_fits(lights, capacity, m - 1);
            if self.accepted(lights, capacity, m - 1) {
                if m >= 2 {
                    lemma_reach_total_monotone(self, lights, m - 1, m);
                    assert(self.accepted(lights, capacity, m - 2));
                } else {
                    assert(self.reach_total(lights, 0) == 0);
                    assert(self.taken_total(lights, capacity, cells, 0) == 0);
                }
                assert(self.taken_total(lights, capacity, cells, m - 1) == self.reach_total(
                    lights,
                    m - 1,
                ));
            }
        }
    }
}

/// The lists of an assignment never hold more light indices than the
/// capacity allows.
pub proof fn lemma_lists_fit_capacity(
    g: &Grid,
    lights: Seq<ClusterableObject>,
    capacity: int,
    cells: Seq<Vec<u32>>,
)
    requires
        is_assignment(g, lights, capacity, cells),
        0 <= capacity,
    ensures
        listed_total(cells, cells.len() as int) <= capacity,
{
    let count = cells.len() as int;
    let m = lights.len() as int;
    lemma_listed_total_matches(g, lights, capacity, cells, count);
    g.lemma_list_total_is_taken_total(lights, capacity, count, m);
    g.lemma_taken_total_fits(lights, capacity, m);
}

/// The indices counted in the lists are those counted in the cell lists
/// that the assignment defines.
proof fn lemma_listed_total_matches(
    g: &Grid,
    lights: Seq<ClusterableObject>,
    capacity: int,
    cells: Seq<Vec<u32>>,
    c: int,
)
    requires
        is_assignment(g, lights, capacity, cells),
        0 <= c <= cells.len(),
    ensures
        listed_total(cells, c) == g.list_total(lights, capacity, c, lights.len() as int),
    decreases c,
{
    if c > 0 {
        lemma_listed_total_matches(g, lights, capacity, cells, c - 1);
    }
}

impl Grid {
    /// The place of the cell in which point `q` of view space is shaded.
    pub open spec fn spec_place_of(&self, q: IVec3) -> int {
        let px = self.camera.screen_coord(true, self.camera.width as int, q);
        let py = self.camera.screen_coord(false, self.camera.height as int, q);
        let (i, j, k) = self.spec_locate(px, py, q.z as int);
        self.dims.spec_index(i, j, k)
    }

    /// The place of the cell in which point `q` of view space is shaded;
    /// `None` for a point that falls on no pixel or lies outside the depth
    /// range.
    pub fn place_of(&self, q: &IVec3) -> (r: Option<usize>)
        requires
            self.wf(),
        ensures
            r.is_some() == (self.camera.on_screen(*q) && self.camera.near <= q.z
                <= self.camera.far),
            r matches Some(n) ==> n == self.spec_place_of(*q) && n < self.dims.spec_cell_count(),
    {
        match self.camera.pixel_of(q) {
            None => None,
            Some((px, py)) => {
                if q.z < 0 {
                    None
                } else {
                    self.locate(px, py, q.z as u32)
                }
            },
        }
    }
}

} // verus!
