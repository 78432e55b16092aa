//! Integer helpers: floor and ceiling square roots, small integer roots and
//! rounding to a grid.

use vstd::arithmetic::power::pow;
use vstd::prelude::*;

verus! {

/// `r` is the floor of the square root of `n`.
pub open spec fn is_floor_sqrt(n: int, r: int) -> bool {
    0 <= r && r * r <= n && n < (r + 1) * (r + 1)
}

/// The floor of the square root of `n`, defined as the number of positive
/// integers whose square does not exceed `n`.
pub open spec fn floor_sqrt(n: nat) -> nat
    decreases n,
{
    if n == 0 {
        0
    } else {
        let r = floor_sqrt((n - 1) as nat);
        if (r + 1) * (r + 1) <= n {
            r + 1
        } else {
            r
        }
    }
}

/// `floor_sqrt` is the floor of the square root.
pub proof fn lemma_floor_sqrt(n: nat)
    ensures
        is_floor_sqrt(n as int, floor_sqrt(n) as int),
    decreases n,
{
    if n > 0 {
        lemma_floor_sqrt((n - 1) as nat);
        let r = floor_sqrt((n - 1) as nat) as int;
        assert((r + 2) * (r + 2) > (r + 1) * (r + 1) + 1) by (nonlinear_arith)
            requires
                r >= 0,
        ;
    }
}

/// Only one number is the floor of the square root of `n`.
pub proof fn lemma_floor_sqrt_unique(n: int, a: int, b: int)
    requires
        is_floor_sqrt(n, a),
        is_floor_sqrt(n, b),
    ensures
        a == b,
{
    assert(a < b + 1) by (nonlinear_arith)
        requires
            0 <= a,
            0 <= b,
            a * a < (b + 1) * (b + 1),
    ;
    assert(b < a + 1) by (nonlinear_arith)
        requires
            0 <= a,
            0 <= b,
            b * b < (a + 1) * (a + 1),
    ;
}

/// Floor of the square root.
pub fn isqrt(n: u64) -> (r: u32)
    ensures
        r == floor_sqrt(n as nat),
        is_floor_sqrt(n as int, r as int),
{
    let mut lo: u64 = 0;
    let mut hi: u64 = 0x1_0000_0000;
    while hi - lo > 1
        invariant
            lo < hi <= 0x1_0000_0000,
            lo * lo <= n,
            n < hi * hi,
        decreases hi - lo,
    {
        let mid: u64 = lo + (hi - lo) / 2;
        assert(mid * mid <= 0xffff_ffff * 0xffff_ffff) by (nonlinear_arith)
            requires
                0 <= mid <= 0xffff_ffff,
        ;
        if mid * mid <= n {
            lo = mid;
        } else {
            hi = mid;
        }
    }
    proof {
        lemma_floor_sqrt(n as nat);
        lemma_floor_sqrt_unique(n as int, lo as int, floor_sqrt(n as nat) as int);
    }
    lo as u32
}

/// The least `r` with `r * r >= n`.
pub open spec fn ceil_sqrt(n: nat) -> nat {
    let r = floor_sqrt(n);
    if r * r == n {
        r
    } else {
        r + 1
    }
}

/// `ceil_sqrt(n)` squared reaches `n`, and no smaller number's square does.
pub proof fn lemma_ceil_sqrt(n: nat, s: nat)
    ensures
        ceil_sqrt(n) * ceil_sqrt(n) >= n,
        s * s >= n ==> s >= ceil_sqrt(n),
{
    lemma_floor_sqrt(n);
    let r = floor_sqrt(n) as int;
    if s < ceil_sqrt(n) {
        if r * r == n {
            assert(s * s < r * r) by (nonlinear_arith)
                requires
                    0 <= s < r,
            ;
        } else {
            assert(s * s <= r * r) by (nonlinear_arith)
                requires
                    0 <= s <= r,
            ;
        }
    }
}

/// Ceiling of the square root.
pub fn isqrt_ceil(n: u64) -> (r: u64)
    ensures
        r == ceil_sqrt(n as nat),
        r <= 0x1_0000_0000,
{
    let f: u32 = isqrt(n);
    let wide: u64 = f as u64;
    if wide * wide == n {
        wide
    } else {
        wide + 1
    }
}

/// `x` limited to the range from `lo` to `hi`.
pub open spec fn clamp(x: int, lo: int, hi: int) -> int {
    if x < lo {
        lo
    } else if x > hi {
        hi
    } else {
        x
    }
}

/// `x` limited to the range from `lo` to `hi`.
pub fn clamp_u32(x: u32, lo: u32, hi: u32) -> (r: u32)
    requires
        lo <= hi,
    ensures
        r == clamp(x as int, lo as int, hi as int),
        lo <= r <= hi,
{
    if x < lo {
        lo
    } else if x > hi {
        hi
    } else {
        x
    }
}

/// Between non-negative bases, a larger base gives a larger power.
pub proof fn lemma_pow_base_strict(a: int, b: int, n: nat)
    requires
        0 <= a < b,
        n >= 1,
    ensures
        0 <= pow(a, n) < pow(b, n),
    decreases n,
{
    reveal(pow);
    if n == 1 {
        assert(pow(a, 0) == 1 && pow(b, 0) == 1);
        assert(pow(a, 1) == a * pow(a, 0));
        assert(pow(b, 1) == b * pow(b, 0));
    } else {
        lemma_pow_base_strict(a, b, (n - 1) as nat);
        let pa = pow(a, (n - 1) as nat);
        let pb = pow(b, (n - 1) as nat);
        assert(0 <= a * pa && a * pa < b * pb) by (nonlinear_arith)
            requires
                0 <= a < b,
                0 <= pa < pb,
        ;
    }
}

/// Between non-negative bases, a base at least as large gives a power at
/// least as large.
pub proof fn lemma_pow_base_monotone(a: int, b: int, n: nat)
    requires
        0 <= a <= b,
    ensures
        0 <= pow(a, n) <= pow(b, n),
{
    reveal(pow);
    if n == 0 {
    } else if a < b {
        lemma_pow_base_strict(a, b, n);
    } else {
        if a > 0 {
            vstd::arithmetic::power::lemma_pow_positive(a, n);
        } else {
            vstd::arithmetic::power::lemma0_pow(n);
        }
    }
}

/// `r` is the floor of the `n`-th root of `v`.
pub open spec fn is_floor_root(v: int, n: nat, r: int) -> bool {
    0 <= r && pow(r, n) <= v < pow(r + 1, n)
}

/// The floor of the `n`-th root of `v`.
pub open spec fn floor_root(v: int, n: nat) -> int {
    choose|r: int| is_floor_root(v, n, r)
}

/// Every number that is not negative has a floor of its `n`-th root, and
/// `floor_root` names it.
pub proof fn lemma_floor_root_exists(v: nat, n: nat)
    requires
        n >= 1,
    ensures
        is_floor_root(v as int, n, floor_root(v as int, n)),
    decreases v,
{
    if v == 0 {
        vstd::arithmetic::power::lemma0_pow(n);
        vstd::arithmetic::power::lemma1_pow(n);
        assert(is_floor_root(0, n, 0));
    } else {
        lemma_floor_root_exists((v - 1) as nat, n);
        let r = floor_root(v - 1, n);
        if pow(r + 1, n) <= v {
            lemma_pow_base_strict(r + 1, r + 2, n);
            assert(is_floor_root(v as int, n, r + 1));
        } else {
            assert(is_floor_root(v as int, n, r));
        }
    }
}

/// Only one number is the floor of the `n`-th root of `v`.
pub proof fn lemma_floor_root_unique(v: int, n: nat, a: int, b: int)
    requires
        n >= 1,
        is_floor_root(v, n, a),
        is_floor_root(v, n, b),
    ensures
        a == b,
{
    if a < b {
        lemma_pow_base_monotone(a + 1, b, n);
    } else if b < a {
        lemma_pow_base_monotone(b + 1, a, n);
    }
}

/// `q` is the floor of `n / d` exactly when `n` lies between `q * d` and
/// the next multiple of `d`.
pub proof fn lemma_floor_div_iff(n: int, d: int, q: int)
    requires
        d > 0,
    ensures
        (q == n / d) == (q * d <= n < (q + 1) * d),
{
    vstd::arithmetic::div_mod::lemma_fundamental_div_mod(n, d);
    vstd::arithmetic::div_mod::lemma_mod_bound(n, d);
    let t = n / d;
    assert(d * t == t * d) by (nonlinear_arith);
    assert((t + 1) * d == t * d + d) by (nonlinear_arith);
    if q * d <= n < (q + 1) * d {
        assert((q + 1) * d == q * d + d) by (nonlinear_arith);
        if q < t {
            assert((q + 1) * d <= t * d) by (nonlinear_arith)
                requires
                    q + 1 <= t,
                    d > 0,
            ;
        } else if q > t {
            assert((t + 1) * d <= q * d) by (nonlinear_arith)
                requires
                    t + 1 <= q,
                    d > 0,
            ;
        }
    }
}

/// The ceiling of `a / b`.
pub open spec fn ceil_div(a: int, b: int) -> int {
    (a + b - 1) / b
}

/// The ceiling of `a / b` is at most `c` exactly when `a` is at most
/// `c * b`.
pub proof fn lemma_ceil_div_le_iff(a: int, b: int, c: int)
    requires
        b > 0,
    ensures
        (ceil_div(a, b) <= c) == (a <= c * b),
{
    let t = ceil_div(a, b);
    lemma_floor_div_iff(a + b - 1, b, t);
    assert((t + 1) * b == t * b + b) by (nonlinear_arith);
    if t <= c {
        assert(t * b <= c * b) by (nonlinear_arith)
            requires
                t <= c,
                b > 0,
        ;
    } else {
        assert((c + 1) * b <= t * b) by (nonlinear_arith)
            requires
                c + 1 <= t,
                b > 0,
        ;
        assert((c + 1) * b == c * b + b) by (nonlinear_arith);
    }
}

/// The floor of `a / b` for a number of either sign.
pub fn floor_div_i64(a: i64, b: i64) -> (q: i64)
    requires
        b > 0,
        -0x2000_0000_0000_0000 <= a <= 0x2000_0000_0000_0000,
        b <= 0x2000_0000_0000_0000,
    ensures
        q == a / b,
        q * b <= a < (q + 1) * b,
{
    proof {
        lemma_floor_div_iff(a as int, b as int, a as int / b as int);
    }
    if a >= 0 {
        a / b
    } else {
        let up: i64 = (-a + b - 1) / b;
        proof {
            lemma_floor_div_iff(-a + b - 1, b as int, up as int);
            lemma_floor_div_iff(a as int, b as int, -up);
            assert((up + 1) * b == up * b + b) by (nonlinear_arith);
            assert((-up) * b == -(up * b)) by (nonlinear_arith);
            assert((-up + 1) * b == -(up * b) + b) by (nonlinear_arith);
            assert(up >= 0) by (nonlinear_arith)
                requires
                    (up + 1) * b > 0,
                    b > 0,
            ;
            assert(up <= -a) by (nonlinear_arith)
                requires
                    up * b <= -a + b - 1,
                    b > 0,
                    -a > 0,
                    up >= 0,
            ;
        }
        -up
    }
}

/// The ceiling of `a / b` for a number of either sign.
pub fn ceil_div_i64(a: i64, b: i64) -> (q: i64)
    requires
        b > 0,
        -0x2000_0000_0000_0000 <= a <= 0x2000_0000_0000_0000,
        b <= 0x2000_0000_0000_0000,
    ensures
        q == ceil_div(a as int, b as int),
        (q - 1) * b < a <= q * b,
{
    let f: i64 = floor_div_i64(-a, b);
    proof {
        lemma_ceil_div_le_iff(a as int, b as int, -f);
        lemma_ceil_div_le_iff(a as int, b as int, -f - 1);
        assert((-f) * b == -(f * b)) by (nonlinear_arith);
        assert((f + 1) * b == f * b + b) by (nonlinear_arith);
        assert((-f - 1) * b == -(f * b) - b) by (nonlinear_arith);
        lemma_floor_div_iff(-a, b as int, f as int);
        assert(f >= -0x2000_0000_0000_0000) by (nonlinear_arith)
            requires
                (f + 1) * b > -a,
                -a >= -0x2000_0000_0000_0000,
                b > 0,
        ;
    }
    -f
}

/// The largest multiple of `grid` that is at most `v`.
pub open spec fn snap_down(v: int, grid: int) -> int {
    (v / grid) * grid
}

/// The least multiple of `grid` that is at least `v`.
pub open spec fn snap_up(v: int, grid: int) -> int {
    ceil_div(v, grid) * grid
}

/// Snapping moves a number by less than one step of the grid, onto the
/// grid.
pub proof fn lemma_snap(v: int, grid: int)
    requires
        grid > 0,
    ensures
        v - grid < snap_down(v, grid) <= v <= snap_up(v, grid) < v + grid,
        snap_down(v, grid) % grid == 0,
        snap_up(v, grid) % grid == 0,
{
    let f = v / grid;
    let c = ceil_div(v, grid);
    lemma_floor_div_iff(v, grid, f);
    lemma_ceil_div_le_iff(v, grid, c);
    lemma_ceil_div_le_iff(v, grid, c - 1);
    assert((f + 1) * grid == f * grid + grid) by (nonlinear_arith);
    assert((c - 1) * grid == c * grid - grid) by (nonlinear_arith);
    vstd::arithmetic::div_mod::lemma_mod_multiples_basic(f, grid);
    vstd::arithmetic::div_mod::lemma_mod_multiples_basic(c, grid);
}

/// The floor of `n / d` reaches `e` exactly when `n` reaches `e * d`.
pub proof fn lemma_floor_div_ge_iff(n: int, d: int, e: int)
    requires
        d > 0,
    ensures
        (n / d >= e) == (n >= e * d),
{
    let q = n / d;
    lemma_floor_div_iff(n, d, q);
    assert((q + 1) * d == q * d + d) by (nonlinear_arith);
    if q >= e {
        assert(q * d >= e * d) by (nonlinear_arith)
            requires
                q >= e,
                d > 0,
        ;
    } else {
        assert((q + 1) * d <= e * d) by (nonlinear_arith)
            requires
                q + 1 <= e,
                d > 0,
        ;
    }
}

} // verus!
