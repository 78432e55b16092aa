//! Splitting a depth range into consecutive slices: the depth slices of a
//! cluster grid and the cascades of a directional light.

use crate::math::{
    clamp, clamp_u32, floor_root, lemma_floor_root_exists, lemma_pow_base_monotone,
};
use vstd::arithmetic::power::{lemma_pow_adds, lemma_pow_distributes};
use crate::wide::weighted_root;
use vstd::arithmetic::power::pow;
use vstd::prelude::*;

verus! {

/// Largest depth that a slice boundary may have.
pub const DEPTH_LIMIT: u32 = 0x10_0000;

/// Largest number of slices in one table.
pub const MAX_SLICES: u32 = 32;

/// How the boundaries between slices are placed between near and far.
#[derive(Clone, Copy, Debug, PartialEq, Eq, Structural)]
pub enum SplitScheme {
    /// Boundary `k` of `n` aims at `near * (far / near)^(k / n)`, rounded
    /// down: every slice is deeper than the one before it by the same factor.
    Logarithmic,
    /// Boundary `k` of `n` aims at `near + (far - near) * k^2 / n^2`, rounded
    /// down: the slices grow evenly in depth with their distance.
    Quadratic,
}

/// The depth that boundary `k` of `n` aims at, before it is moved to keep
/// every slice at least one unit deep.
pub open spec fn split_target(scheme: SplitScheme, near: int, far: int, n: int, k: int) -> int {
    match scheme {
        SplitScheme::Logarithmic => floor_root(
            pow(near, (n - k) as nat) * pow(far, k as nat),
            n as nat,
        ),
        SplitScheme::Quadratic => near + ((far - near) * (k * k)) / (n * n),
    }
}

/// Boundary `k` of `n`: the first is `near`, the last is `far`, and each one
/// between is its target, moved where needed so that it lies above the
/// boundary before it and leaves room for those after it.
pub open spec fn split_bound(scheme: SplitScheme, near: int, far: int, n: int, k: int) -> int
    decreases k,
{
    if k <= 0 {
        near
    } else if k >= n {
        far
    } else {
        clamp(
            split_target(scheme, near, far, n, k),
            split_bound(scheme, near, far, n, k - 1) + 1,
            far - (n - k),
        )
    }
}

/// The parameters from which a table can be built: a positive near depth, a
/// far depth in range, and between them at least one unit for each slice.
pub open spec fn valid_split(near: int, far: int, n: int) -> bool {
    &&& 1 <= near
    &&& far <= DEPTH_LIMIT
    &&& 1 <= n <= MAX_SLICES
    &&& far - near >= n
}

/// Each boundary leaves one unit for every slice before and after it and
/// lies above the boundary before it.
pub proof fn lemma_split_bound_range(scheme: SplitScheme, near: int, far: int, n: int, k: int)
    requires
        1 <= n,
        far - near >= n,
        0 <= k <= n,
    ensures
        near + k <= split_bound(scheme, near, far, n, k) <= far - (n - k),
        k >= 1 ==> split_bound(scheme, near, far, n, k - 1) < split_bound(scheme, near, far, n, k),
    decreases k,
{
    if k > 0 {
        lemma_split_bound_range(scheme, near, far, n, k - 1);
    }
}

/// A table of boundaries is valid when it has two to `MAX_SLICES + 1`
/// entries that start above zero, end within `DEPTH_LIMIT` and strictly
/// increase.
pub open spec fn valid_bounds(b: Seq<u32>) -> bool {
    &&& 2 <= b.len() <= MAX_SLICES + 1
    &&& b[0] >= 1
    &&& b[b.len() - 1] <= DEPTH_LIMIT
    &&& forall|i: int, j: int| 0 <= i < j < b.len() ==> b[i] < b[j]
}

/// Consecutive depth slices: slice `k` holds the depths from boundary `k` up
/// to, but not including, boundary `k + 1`.
#[derive(Debug)]
pub struct DepthSlices {
    pub bounds: Vec<u32>,
}

impl View for DepthSlices {
    type V = Seq<u32>;

    open spec fn view(&self) -> Seq<u32> {
        self.bounds@
    }
}

impl Clone for DepthSlices {
    fn clone(&self) -> (c: DepthSlices)
        ensures
            c@ == self@,
    {
        let mut bounds: Vec<u32> = Vec::new();
        let mut i: usize = 0;
        while i < self.bounds.len()
            invariant
                i <= self.bounds.len(),
                bounds@ == self.bounds@.subrange(0, i as int),
            decreases self.bounds.len() - i,
        {
            bounds.push(self.bounds[i]);
            assert(bounds@ == self.bounds@.subrange(0, i + 1));
            i = i + 1;
        }
        assert(bounds@ == self.bounds@);
        DepthSlices { bounds }
    }
}

impl DepthSlices {
    /// The table is valid.
    pub open spec fn wf(&self) -> bool {
        valid_bounds(self@)
    }

    /// The number of slices.
    pub open spec fn spec_count(&self) -> int {
        self@.len() - 1
    }

    /// Depth `d` lies in slice `k`: between its two boundaries, the second
    /// of which belongs to the last slice only.
    pub open spec fn slice_holds(&self, k: int, d: int) -> bool {
        &&& 0 <= k < self.spec_count()
        &&& self@[k] <= d <= self@[k + 1]
        &&& d == self@[k + 1] ==> k == self.spec_count() - 1
    }

    /// The slice that holds depth `d`.
    pub open spec fn spec_slice_of(&self, d: int) -> int {
        choose|k: int| self.slice_holds(k, d)
    }

    /// A table from boundaries that the caller chose. `None` unless they
    /// form a valid table.
    pub fn from_bounds(bounds: Vec<u32>) -> (r: Option<DepthSlices>)
        ensures
            r.is_some() == valid_bounds(bounds@),
            r matches Some(d) ==> d@ == bounds@,
    {
        let n: usize = bounds.len();
        if n < 2 || n > 33 {
            return None;
        }
        if bounds[0] < 1 || bounds[n - 1] > DEPTH_LIMIT {
            return None;
        }
        let mut i: usize = 1;
        while i < n
            invariant
                1 <= i <= n,
                n == bounds.len(),
                forall|a: int, b: int| 0 <= a < b < i ==> bounds[a] < bounds[b],
            decreases n - i,
        {
            if bounds[i - 1] >= bounds[i] {
                return None;
            }
            i = i + 1;
        }
        Some(DepthSlices { bounds })
    }

    /// The table that `scheme` gives for `count` slices between `near` and
    /// `far`. `None` unless the parameters are valid.
    pub fn build(scheme: SplitScheme, near: u32, far: u32, count: u32) -> (r: Option<DepthSlices>)
        ensures
            r.is_some() == valid_split(near as int, far as int, count as int),
            r matches Some(d) ==> {
                &&& d.wf()
                &&& d@.len() == count + 1
                &&& forall|k: int|
                    0 <= k <= count ==> d@[k] == split_bound(
                        scheme,
                        near as int,
                        far as int,
                        count as int,
                        k,
                    )
            },
    {
        if near < 1 || far > DEPTH_LIMIT || count < 1 || count > MAX_SLICES || far < near || far
            - near < count {
            return None;
        }
        let mut bounds: Vec<u32> = Vec::new();
        bounds.push(near);
        let mut k: u32 = 1;
        while k < count
            invariant
                1 <= k <= count,
                valid_split(near as int, far as int, count as int),
                bounds@.len() == k,
                forall|j: int|
                    0 <= j < k ==> bounds@[j] == split_bound(
                        scheme,
                        near as int,
                        far as int,
                        count as int,
                        j,
                    ),
            decreases count - k,
        {
            proof {
                lemma_split_bound_range(scheme, near as int, far as int, count as int, k - 1);
            }
            let target: u32 = Self::target(scheme, near, far, count, k);
            let prev: u32 = bounds[(k - 1) as usize];
            let b: u32 = clamp_u32(target, prev + 1, far - (count - k));
            bounds.push(b);
            k = k + 1;
        }
        bounds.push(far);
        proof {
            let n = count as int;
            assert forall|i: int, j: int| 0 <= i < j < bounds@.len() implies bounds@[i]
                < bounds@[j] by {
                lemma_split_bounds_increase(scheme, near as int, far as int, n, i, j);
            }
            lemma_split_bound_range(scheme, near as int, far as int, n, n);
        }
        Some(DepthSlices { bounds })
    }

    /// The depth that boundary `k` of `count` aims at.
    fn target(scheme: SplitScheme, near: u32, far: u32, count: u32, k: u32) -> (t: u32)
        requires
            valid_split(near as int, far as int, count as int),
            1 <= k < count,
        ensures
            t == split_target(scheme, near as int, far as int, count as int, k as int),
    {
        match scheme {
            SplitScheme::Quadratic => {
                let span: u64 = (far - near) as u64;
                assert(k * k < count * count <= 1024) by (nonlinear_arith)
                    requires
                        1 <= k < count <= 32,
                ;
                let kk: u64 = (k as u64) * (k as u64);
                let nn: u64 = (count as u64) * (count as u64);
                assert(span * kk <= 0x10_0000 * 1024 && (span * kk) / (nn as int) <= span)
                    by (nonlinear_arith)
                    requires
                        0 <= span <= 0x10_0000,
                        0 <= kk < nn <= 1024,
                ;
                let step: u64 = (span * kk) / nn;
                near + (step as u32)
            },
            SplitScheme::Logarithmic => weighted_root(near, far, count, k),
        }
    }

    /// Whether the table is valid.
    pub fn is_wf(&self) -> (ok: bool)
        ensures
            ok == self.wf(),
    {
        let n: usize = self.bounds.len();
        if n < 2 || n > 33 {
            return false;
        }
        if self.bounds[0] < 1 || self.bounds[n - 1] > DEPTH_LIMIT {
            return false;
        }
        let mut i: usize = 1;
        while i < n
            invariant
                1 <= i <= n,
                n == self.bounds.len(),
                forall|a: int, b: int| 0 <= a < b < i ==> self.bounds[a] < self.bounds[b],
            decreases n - i,
        {
            if self.bounds[i - 1] >= self.bounds[i] {
                return false;
            }
            i = i + 1;
        }
        true
    }

    /// Whether the table has the same boundaries as `other`.
    pub fn is_same(&self, other: &DepthSlices) -> (r: bool)
        ensures
            r == (self@ == other@),
    {
        if self.bounds.len() != other.bounds.len() {
            return false;
        }
        let mut i: usize = 0;
        while i < self.bounds.len()
            invariant
                i <= self.bounds@.len(),
                self.bounds@.len() == other.bounds@.len(),
                forall|k: int| 0 <= k < i ==> self.bounds@[k] == other.bounds@[k],
            decreases self.bounds@.len() - i,
        {
            if self.bounds[i] != other.bounds[i] {
                return false;
            }
            i = i + 1;
        }
        assert(self@ =~= other@);
        true
    }

    /// The number of slices.
    pub fn count(&self) -> (n: u32)
        requires
            self.wf(),
        ensures
            n == self.spec_count(),
            1 <= n <= MAX_SLICES,
    {
        (self.bounds.len() - 1) as u32
    }

    /// The depth at which the first slice starts.
    pub fn near(&self) -> (d: u32)
        requires
            self.wf(),
        ensures
            d == self@[0],
            d >= 1,
    {
        self.bounds[0]
    }

    /// The depth at which the last slice ends.
    pub fn far(&self) -> (d: u32)
        requires
            self.wf(),
        ensures
            d == self@[self@.len() - 1],
            d <= DEPTH_LIMIT,
    {
        self.bounds[self.bounds.len() - 1]
    }

    /// Boundary `k`: the start of slice `k` and the end of slice `k - 1`.
    pub fn bound(&self, k: u32) -> (d: u32)
        requires
            self.wf(),
            k <= self.spec_count(),
        ensures
            d == self@[k as int],
            1 <= d <= DEPTH_LIMIT,
    {
        self.bounds[k as usize]
    }

    /// The slice that holds depth `d`; `None` when `d` is before the first
    /// slice or beyond the last. A depth at which two slices meet belongs
    /// to the later one.
    pub fn slice_of(&self, d: u32) -> (r: Option<u32>)
        requires
            self.wf(),
        ensures
            r.is_some() == (self@[0] <= d <= self@[self@.len() - 1]),
            r matches Some(k) ==> self.slice_holds(k as int, d as int) && k == self.spec_slice_of(
                d as int,
            ),
    {
        let n: usize = self.bounds.len();
        if d < self.bounds[0] || d > self.bounds[n - 1] {
            return None;
        }
        if d == self.bounds[n - 1] {
            proof {
                assert(self.slice_holds(n - 2, d as int));
                lemma_slice_unique(*self, d as int, n - 2, self.spec_slice_of(d as int));
            }
            return Some((n - 2) as u32);
        }
        let mut lo: usize = 0;
        let mut hi: usize = n - 1;
        while hi - lo > 1
            invariant
                lo < hi < n,
                n == self.bounds.len(),
                self.bounds[lo as int] <= d < self.bounds[hi as int],
            decreases hi - lo,
        {
            let mid: usize = lo + (hi - lo) / 2;
            if self.bounds[mid] <= d {
                lo = mid;
            } else {
                hi = mid;
            }
        }
        proof {
            assert(self.slice_holds(lo as int, d as int));
            lemma_slice_unique(*self, d as int, lo as int, self.spec_slice_of(d as int));
        }
        Some(lo as u32)
    }
}

/// The boundaries that a scheme gives strictly increase.
pub proof fn lemma_split_bounds_increase(
    scheme: SplitScheme,
    near: int,
    far: int,
    n: int,
    i: int,
    j: int,
)
    requires
        1 <= n,
        far - near >= n,
        0 <= i < j <= n,
    ensures
        split_bound(scheme, near, far, n, i) < split_bound(scheme, near, far, n, j),
    decreases j - i,
{
    lemma_split_bound_range(scheme, near, far, n, j);
    if i < j - 1 {
        lemma_split_bounds_increase(scheme, near, far, n, i, j - 1);
    }
}

/// A depth lies in at most one slice of a valid table.
pub proof fn lemma_slice_unique(s: DepthSlices, d: int, a: int, b: int)
    requires
        s.wf(),
        s.slice_holds(a, d),
        s.slice_holds(b, d),
    ensures
        a == b,
{
    if a < b {
        assert(s@[a + 1] <= s@[b]);
        assert(a + 1 < b ==> s@[a + 1] < s@[b]);
    } else if b < a {
        assert(s@[b + 1] <= s@[a]);
        assert(b + 1 < a ==> s@[b + 1] < s@[a]);
    }
}

/// Where the depth range leaves the square of the number of slices, the
/// quadratic scheme moves no boundary: each stands at its target.
pub proof fn lemma_quadratic_bounds_stand(near: int, far: int, n: int, k: int)
    requires
        1 <= n,
        far - near >= n * n,
        0 <= k <= n,
    ensures
        split_bound(SplitScheme::Quadratic, near, far, n, k) == near + ((far - near) * (k * k)) / (n
            * n),
    decreases k,
{
    let span = far - near;
    let nn = n * n;
    assert(nn >= 1 && nn >= n) by (nonlinear_arith)
        requires
            nn == n * n,
            n >= 1,
    ;
    let t = (span * (k * k)) / nn;
    crate::math::lemma_floor_div_iff(span * (k * k), nn, t);
    if k == 0 {
        assert(span * (k * k) == 0 && t * nn <= 0 && (t + 1) * nn == t * nn + nn)
            by (nonlinear_arith)
            requires
                k == 0,
                t * nn <= span * (k * k),
        ;
        assert(t == 0) by (nonlinear_arith)
            requires
                t * nn <= 0,
                0 < t * nn + nn,
                nn >= 1,
        ;
    } else if k == n {
        assert(span * (k * k) == span * nn);
        assert((span + 1) * nn == span * nn + nn) by (nonlinear_arith);
        crate::math::lemma_floor_div_iff(span * nn, nn, span);
    } else {
        lemma_quadratic_bounds_stand(near, far, n, k - 1);
        lemma_split_bound_range(SplitScheme::Quadratic, near, far, n, k - 1);
        let before = (span * ((k - 1) * (k - 1))) / nn;
        crate::math::lemma_floor_div_iff(span * ((k - 1) * (k - 1)), nn, before);
        assert((t + 1) * nn == t * nn + nn) by (nonlinear_arith);
        // the target lies above the boundary before it
        assert(span * (k * k) - span * ((k - 1) * (k - 1)) >= nn) by (nonlinear_arith)
            requires
                span >= nn,
                k >= 1,
                nn >= 0,
        {
            assert(k * k - (k - 1) * (k - 1) == 2 * k - 1);
            assert(span * (k * k) - span * ((k - 1) * (k - 1)) == span * (2 * k - 1));
            assert(span * (2 * k - 1) >= span);
        }
        assert(before < t) by (nonlinear_arith)
            requires
                before * nn <= span * ((k - 1) * (k - 1)),
                span * (k * k) < t * nn + nn,
                span * (k * k) - span * ((k - 1) * (k - 1)) >= nn,
                nn >= 1,
        ;
        // and leaves the boundaries after it their room
        assert(span * (k * k) <= (span - (n - k)) * nn) by (nonlinear_arith)
            requires
                span >= nn,
                nn == n * n,
                1 <= k < n,
        {
            assert(span * nn - span * (k * k) == span * ((n - k) * (n + k)));
            assert(span * ((n - k) * (n + k)) >= nn * ((n - k) * (n + k)));
            assert(nn * ((n - k) * (n + k)) >= nn * (n - k));
        }
        assert(t <= span - (n - k)) by (nonlinear_arith)
            requires
                t * nn <= span * (k * k),
                span * (k * k) <= (span - (n - k)) * nn,
                nn >= 1,
        ;
    }
}

/// Where the depth range leaves the square of the number of slices, the
/// slices of the quadratic scheme grow with their distance: none is more
/// than one unit thinner than the one before it.
pub proof fn lemma_quadratic_slices_grow(near: int, far: int, n: int, k: int)
    requires
        1 <= n,
        far - near >= n * n,
        1 <= k < n,
    ensures
        ({
            let b = |i: int| split_bound(SplitScheme::Quadratic, near, far, n, i);
            b(k) - b(k - 1) <= b(k + 1) - b(k) + 1
        }),
{
    let span = far - near;
    let nn = n * n;
    assert(nn >= 1) by (nonlinear_arith)
        requires
            nn == n * n,
            n >= 1,
    ;
    lemma_quadratic_bounds_stand(near, far, n, k - 1);
    lemma_quadratic_bounds_stand(near, far, n, k);
    lemma_quadratic_bounds_stand(near, far, n, k + 1);
    let (a, b, c) = (span * ((k - 1) * (k - 1)), span * (k * k), span * ((k + 1) * (k + 1)));
    let (ta, tb, tc) = (a / nn, b / nn, c / nn);
    crate::math::lemma_floor_div_iff(a, nn, ta);
    crate::math::lemma_floor_div_iff(b, nn, tb);
    crate::math::lemma_floor_div_iff(c, nn, tc);
    assert((ta + 1) * nn == ta * nn + nn) by (nonlinear_arith);
    assert((tb + 1) * nn == tb * nn + nn) by (nonlinear_arith);
    assert((tc + 1) * nn == tc * nn + nn) by (nonlinear_arith);
    // the targets before rounding grow by ever larger steps
    assert(c - b >= b - a) by (nonlinear_arith)
        requires
            a == span * ((k - 1) * (k - 1)),
            b == span * (k * k),
            c == span * ((k + 1) * (k + 1)),
            span >= 0,
    {
        assert((k + 1) * (k + 1) - k * k == 2 * k + 1);
        assert(k * k - (k - 1) * (k - 1) == 2 * k - 1);
        assert(c - b == span * (2 * k + 1));
        assert(b - a == span * (2 * k - 1));
    }
    assert(tb - ta <= tc - tb + 1) by (nonlinear_arith)
        requires
            ta * nn <= a < ta * nn + nn,
            tb * nn <= b < tb * nn + nn,
            tc * nn <= c < tc * nn + nn,
            c - b >= b - a,
            nn >= 1,
    {
        // (tb - ta - 1) * nn < b - a <= c - b < (tc - tb + 1) * nn
        assert((tb - ta - 1) * nn == tb * nn - ta * nn - nn);
        assert((tc - tb + 1) * nn == tc * nn - tb * nn + nn);
        assert((tb - ta - 1) * nn < (tc - tb + 1) * nn);
    }
}

/// The number whose `n`-th root boundary `k` of the logarithmic scheme
/// aims at.
pub open spec fn log_weight(near: int, far: int, n: int, k: int) -> int {
    pow(near, (n - k) as nat) * pow(far, k as nat)
}

/// On the logarithmic scale each point between two others, at the same
/// distance from both, is their geometric mean.
proof fn lemma_log_weights_are_geometric(near: int, far: int, n: int, k: int)
    requires
        0 <= near,
        0 <= far,
        1 <= k < n,
    ensures
        log_weight(near, far, n, k - 1) * log_weight(near, far, n, k + 1) == log_weight(
            near,
            far,
            n,
            k,
        ) * log_weight(near, far, n, k),
        log_weight(near, far, n, k - 1) >= 0,
        log_weight(near, far, n, k) >= 0,
        log_weight(near, far, n, k + 1) >= 0,
{
    let (a, b, c) = (
        pow(near, (n - k + 1) as nat),
        pow(near, (n - k) as nat),
        pow(near, (n - k - 1) as nat),
    );
    let (x, y, z) = (pow(far, (k - 1) as nat), pow(far, k as nat), pow(far, (k + 1) as nat));
    lemma_pow_adds(near, (n - k + 1) as nat, (n - k - 1) as nat);
    lemma_pow_adds(near, (n - k) as nat, (n - k) as nat);
    lemma_pow_adds(far, (k - 1) as nat, (k + 1) as nat);
    lemma_pow_adds(far, k as nat, k as nat);
    assert(a * c == b * b);
    assert(x * z == y * y);
    assert((a * x) * (c * z) == (b * y) * (b * y)) by (nonlinear_arith)
        requires
            a * c == b * b,
            x * z == y * y,
    ;
    lemma_pow_base_monotone(0, near, (n - k + 1) as nat);
    lemma_pow_base_monotone(0, near, (n - k) as nat);
    lemma_pow_base_monotone(0, near, (n - k - 1) as nat);
    lemma_pow_base_monotone(0, far, (k - 1) as nat);
    lemma_pow_base_monotone(0, far, k as nat);
    lemma_pow_base_monotone(0, far, (k + 1) as nat);
    assert(a * x >= 0 && b * y >= 0 && c * z >= 0) by (nonlinear_arith)
        requires
            a >= 0,
            b >= 0,
            c >= 0,
            x >= 0,
            y >= 0,
            z >= 0,
    ;
}

/// The targets of the logarithmic scheme lie on a geometric scale: each is,
/// as far as whole numbers allow, the geometric mean of the targets on
/// either side of it. So each slice is deeper than the one before it by the
/// same factor.
pub proof fn lemma_logarithmic_targets_are_geometric(near: int, far: int, n: int, k: int)
    requires
        0 <= near,
        0 <= far,
        1 <= k < n,
    ensures
        ({
            let t = |i: int| split_target(SplitScheme::Logarithmic, near, far, n, i);
            &&& t(k - 1) * t(k + 1) < (t(k) + 1) * (t(k) + 1)
            &&& t(k) * t(k) < (t(k - 1) + 1) * (t(k + 1) + 1)
        }),
{
    let e = n as nat;
    let (u, v, w) = (
        log_weight(near, far, n, k - 1),
        log_weight(near, far, n, k),
        log_weight(near, far, n, k + 1),
    );
    lemma_log_weights_are_geometric(near, far, n, k);
    lemma_floor_root_exists(u as nat, e);
    lemma_floor_root_exists(v as nat, e);
    lemma_floor_root_exists(w as nat, e);
    let (a, b, c) = (floor_root(u, e), floor_root(v, e), floor_root(w, e));
    assert(a == split_target(SplitScheme::Logarithmic, near, far, n, k - 1));
    assert(b == split_target(SplitScheme::Logarithmic, near, far, n, k));
    assert(c == split_target(SplitScheme::Logarithmic, near, far, n, k + 1));
    lemma_pow_base_monotone(0, a, e);
    lemma_pow_base_monotone(0, b, e);
    lemma_pow_base_monotone(0, c, e);
    // the product of the outer two is below the square of the next number
    // above the middle one
    lemma_pow_distributes(a, c, e);
    lemma_pow_distributes(b + 1, b + 1, e);
    assert(pow(a, e) * pow(c, e) <= u * w) by (nonlinear_arith)
        requires
            0 <= pow(a, e) <= u,
            0 <= pow(c, e) <= w,
    ;
    assert(v * v < pow(b + 1, e) * pow(b + 1, e)) by (nonlinear_arith)
        requires
            0 <= v < pow(b + 1, e),
    ;
    assert(a * c >= 0 && (b + 1) * (b + 1) >= 0) by (nonlinear_arith)
        requires
            a >= 0,
            b >= 0,
            c >= 0,
    ;
    if a * c >= (b + 1) * (b + 1) {
        lemma_pow_base_monotone((b + 1) * (b + 1), a * c, e);
    }
    // the square of the middle one is below the product of the next numbers
    // above the outer two
    lemma_pow_distributes(b, b, e);
    lemma_pow_distributes(a + 1, c + 1, e);
    assert(pow(b, e) * pow(b, e) <= v * v) by (nonlinear_arith)
        requires
            0 <= pow(b, e) <= v,
    ;
    assert(u * w < pow(a + 1, e) * pow(c + 1, e)) by (nonlinear_arith)
        requires
            0 <= u < pow(a + 1, e),
            0 <= w < pow(c + 1, e),
    ;
    assert(b * b >= 0 && (a + 1) * (c + 1) >= 0) by (nonlinear_arith)
        requires
            a >= 0,
            b >= 0,
            c >= 0,
    ;
    if b * b >= (a + 1) * (c + 1) {
        lemma_pow_base_monotone((a + 1) * (c + 1), b * b, e);
    }
}

} // verus!
