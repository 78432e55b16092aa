//! Whether a quadratic in one unknown dips to zero or below somewhere on an
//! interval that is given by linear conditions: the question to which the
//! exact test of a sphere against a cell comes down.
//!
//! The unknown is a fraction `n / d`. A linear form `a * z + b` is taken at
//! the fraction as `a * n + b * d`, which has the sign of the form wherever
//! `d` is positive.

use vstd::prelude::*;

verus! {

/// Largest magnitude of the slope of a linear form.
pub const SLOPE_MAX: i64 = 0x2_0000;

/// Largest magnitude of the constant of a linear form.
pub const CONSTANT_MAX: i64 = 0x40_0000_0000;

/// Largest bound of a sum of squares.
pub const BOUND_MAX: i128 = 0x100_0000_0000_0000_0000;

/// The linear form `a * z + b`.
#[derive(Clone, Copy, Debug, PartialEq, Eq, Structural)]
pub struct Linear {
    pub a: i64,
    pub b: i64,
}

impl Linear {
    /// Slope and constant are within their limits.
    pub open spec fn wf(self) -> bool {
        -SLOPE_MAX <= self.a <= SLOPE_MAX && -CONSTANT_MAX <= self.b <= CONSTANT_MAX
    }

    /// The form at the fraction `n / d`, times `d`.
    pub open spec fn at(self, n: int, d: int) -> int {
        self.a * n + self.b * d
    }

    /// The form with the opposite sign.
    pub open spec fn spec_negated(self) -> Linear {
        Linear { a: (-self.a) as i64, b: (-self.b) as i64 }
    }

    /// The form with the opposite sign.
    #[verifier::when_used_as_spec(spec_negated)]
    pub fn negated(self) -> (r: Linear)
        requires
            self.wf(),
        ensures
            r == self.spec_negated(),
            r.wf(),
    {
        Linear { a: -self.a, b: -self.b }
    }

    /// The form at the fraction `n / d`, times `d`.
    fn at_exec(&self, n: i128, d: i128) -> (v: i128)
        requires
            self.wf(),
            -0x1000_0000_0000_0000 <= n <= 0x1000_0000_0000_0000,
            0 <= d <= 0x1000_0000_0000_0000,
        ensures
            v == self.at(n as int, d as int),
            -0x10_0000_0000_0000_0000_0000_0000 <= v <= 0x10_0000_0000_0000_0000_0000_0000,
    {
        proof {
            crate::geometry::lemma_product_bound(
                self.a as int,
                n as int,
                0x2_0000,
                0x1000_0000_0000_0000,
            );
            crate::geometry::lemma_product_bound(
                self.b as int,
                d as int,
                0x40_0000_0000,
                0x1000_0000_0000_0000,
            );
        }
        (self.a as i128) * n + (self.b as i128) * d
    }
}

/// The question: is there a fraction at which every condition is at least
/// zero and the squares of the three terms together come to at most `bound`?
pub struct Question {
    /// The conditions: each of these forms is to be at least zero.
    pub conditions: Seq<Linear>,
    /// The three terms whose squares are added.
    pub first: Linear,
    pub second: Linear,
    pub third: Linear,
    /// What the sum of the squares may come to.
    pub bound: int,
}

impl Question {
    /// There are six conditions, every form is within its limits, the third
    /// term is not constant and the bound is within its limits.
    pub open spec fn wf(self) -> bool {
        &&& self.conditions.len() == 6
        &&& forall|i: int| 0 <= i < 6 ==> (#[trigger] self.conditions[i]).wf()
        &&& self.first.wf()
        &&& self.second.wf()
        &&& self.third.wf()
        &&& self.third.a != 0
        &&& 0 <= self.bound <= BOUND_MAX
    }

    /// Every condition holds at the fraction `n / d`.
    pub open spec fn feasible(self, n: int, d: int) -> bool {
        &&& d >= 1
        &&& forall|i: int|
            0 <= i < self.conditions.len() ==> (#[trigger] self.conditions[i]).at(n, d) >= 0
    }

    /// The squares of the terms at `n / d` come to at most the bound.
    pub open spec fn dips(self, n: int, d: int) -> bool {
        self.first.at(n, d) * self.first.at(n, d) + self.second.at(n, d) * self.second.at(n, d)
            + self.third.at(n, d) * self.third.at(n, d) <= self.bound * (d * d)
    }

    /// There is a fraction at which every condition holds and the squares
    /// of the terms come to at most the bound.
    pub open spec fn solvable(self) -> bool {
        exists|n: int, d: int| #[trigger] self.feasible(n, d) && self.dips(n, d)
    }

    /// The sum of the squared slopes of the terms.
    pub open spec fn lead(self) -> int {
        self.first.a * self.first.a + self.second.a * self.second.a + self.third.a * self.third.a
    }

    /// The sum of the products of slope and constant of the terms.
    pub open spec fn mixed(self) -> int {
        self.first.a * self.first.b + self.second.a * self.second.b + self.third.a * self.third.b
    }

    /// The sum of the squared constants of the terms, less the bound.
    pub open spec fn rest(self) -> int {
        self.first.b * self.first.b + self.second.b * self.second.b + self.third.b * self.third.b
            - self.bound
    }

    /// The sum of the squares is lowest at the fraction `-mixed / lead`.
    /// This lowest point answers the question: the conditions hold there,
    /// and the sum of the squares is at most the bound.
    pub open spec fn lowest_point_answers(self) -> bool {
        self.feasible(-self.mixed(), self.lead()) && self.lead() * self.rest() <= self.mixed()
            * self.mixed()
    }

    /// The numerator of the fraction at which condition `i` is zero.
    pub open spec fn edge_n(self, i: int) -> int {
        let c = self.conditions[i];
        if c.a > 0 {
            -c.b as int
        } else {
            c.b as int
        }
    }

    /// The denominator of the fraction at which condition `i` is zero.
    pub open spec fn edge_d(self, i: int) -> int {
        let c = self.conditions[i];
        if c.a > 0 {
            c.a as int
        } else {
            -c.a as int
        }
    }

    /// The point at which condition `i` turns answers the question:
    /// every condition holds there, and the sum of the squares is at most
    /// the bound.
    pub open spec fn edge_answers(self, i: int) -> bool {
        &&& self.conditions[i].a != 0
        &&& self.feasible(self.edge_n(i), self.edge_d(i))
        &&& self.dips(self.edge_n(i), self.edge_d(i))
    }

    /// One of the points that are tried answers the question: the lowest
    /// point, or one of the points at which a condition turns.
    pub open spec fn has_answer(self) -> bool {
        self.lowest_point_answers() || exists|i: int| 0 <= i < 6 && #[trigger] self.edge_answers(i)
    }
}

/// A question as it is handed over for an answer.
#[derive(Debug)]
pub struct Problem {
    pub conditions: Vec<Linear>,
    pub first: Linear,
    pub second: Linear,
    pub third: Linear,
    pub bound: i128,
}

impl View for Problem {
    type V = Question;

    open spec fn view(&self) -> Question {
        Question {
            conditions: self.conditions@,
            first: self.first,
            second: self.second,
            third: self.third,
            bound: self.bound as int,
        }
    }
}

impl Problem {
    /// Whether every condition holds at `n / d`.
    fn is_feasible(&self, n: i128, d: i128) -> (r: bool)
        requires
            self@.wf(),
            -0x1000_0000_0000_0000 <= n <= 0x1000_0000_0000_0000,
            1 <= d <= 0x1000_0000_0000_0000,
        ensures
            r == self@.feasible(n as int, d as int),
    {
        let mut i: usize = 0;
        while i < 6
            invariant
                i <= 6,
                self@.wf(),
                -0x1000_0000_0000_0000 <= n <= 0x1000_0000_0000_0000,
                1 <= d <= 0x1000_0000_0000_0000,
                forall|j: int| 0 <= j < i ==> (#[trigger] self.conditions@[j]).at(n as int, d as int)
                    >= 0,
            decreases 6 - i,
        {
            if self.conditions[i].at_exec(n, d) < 0 {
                return false;
            }
            i = i + 1;
        }
        true
    }

    /// Whether the squares of the terms at `n / d` come to at most the
    /// bound.
    fn is_dip(&self, n: i128, d: i128) -> (r: bool)
        requires
            self@.wf(),
            -0x40_0000_0000 <= n <= 0x40_0000_0000,
            1 <= d <= 0x2_0000,
        ensures
            r == self@.dips(n as int, d as int),
    {
        let x: i128 = self.first.at_exec(n, d);
        let y: i128 = self.second.at_exec(n, d);
        let z: i128 = self.third.at_exec(n, d);
        proof {
            let m: int = 0x100_0000_0000_0000;
            crate::geometry::lemma_product_bound(self.first.a as int, n as int, 0x2_0000, 0x40_0000_0000);
            crate::geometry::lemma_product_bound(self.first.b as int, d as int, 0x40_0000_0000, 0x2_0000);
            crate::geometry::lemma_product_bound(self.second.a as int, n as int, 0x2_0000, 0x40_0000_0000);
            crate::geometry::lemma_product_bound(self.second.b as int, d as int, 0x40_0000_0000, 0x2_0000);
            crate::geometry::lemma_product_bound(self.third.a as int, n as int, 0x2_0000, 0x40_0000_0000);
            crate::geometry::lemma_product_bound(self.third.b as int, d as int, 0x40_0000_0000, 0x2_0000);
            crate::geometry::lemma_product_bound(x as int, x as int, m, m);
            crate::geometry::lemma_product_bound(y as int, y as int, m, m);
            crate::geometry::lemma_product_bound(z as int, z as int, m, m);
            crate::geometry::lemma_product_bound(d as int, d as int, 0x2_0000, 0x2_0000);
            crate::geometry::lemma_product_bound(
                self.bound as int,
                d * d,
                0x100_0000_0000_0000_0000,
                0x4_0000_0000,
            );
            assert(d * d >= 0) by (nonlinear_arith);
        }
        x * x + y * y + z * z <= self.bound * (d * d)
    }

    /// Whether one of the points that are tried answers the question.
    pub fn has_answer_exec(&self) -> (r: bool)
        requires
            self@.wf(),
        ensures
            r == self@.has_answer(),
            r == self@.solvable(),
    {
        let (fa, fb) = (self.first.a as i128, self.first.b as i128);
        let (sa, sb) = (self.second.a as i128, self.second.b as i128);
        let (ta, tb) = (self.third.a as i128, self.third.b as i128);
        proof {
            let (s, c): (int, int) = (0x2_0000, 0x40_0000_0000);
            crate::geometry::lemma_product_bound(fa as int, fa as int, s, s);
            crate::geometry::lemma_product_bound(sa as int, sa as int, s, s);
            crate::geometry::lemma_product_bound(ta as int, ta as int, s, s);
            crate::geometry::lemma_product_bound(fa as int, fb as int, s, c);
            crate::geometry::lemma_product_bound(sa as int, sb as int, s, c);
            crate::geometry::lemma_product_bound(ta as int, tb as int, s, c);
            crate::geometry::lemma_product_bound(fb as int, fb as int, c, c);
            crate::geometry::lemma_product_bound(sb as int, sb as int, c, c);
            crate::geometry::lemma_product_bound(tb as int, tb as int, c, c);
            assert(ta * ta >= 1) by (nonlinear_arith)
                requires
                    ta != 0,
            ;
            assert(fa * fa >= 0 && sa * sa >= 0 && fb * fb >= 0 && sb * sb >= 0 && tb * tb >= 0)
                by (nonlinear_arith);
        }
        let lead: i128 = fa * fa + sa * sa + ta * ta;
        let mixed: i128 = fa * fb + sa * sb + ta * tb;
        let rest: i128 = fb * fb + sb * sb + tb * tb - self.bound;
        proof {
            crate::geometry::lemma_product_bound(
                lead as int,
                rest as int,
                0xc_0000_0000,
                0x3000_0000_0000_0000_0000,
            );
            crate::geometry::lemma_product_bound(
                mixed as int,
                mixed as int,
                0x180_0000_0000_0000,
                0x180_0000_0000_0000,
            );
        }
        if self.is_feasible(-mixed, lead) && lead * rest <= mixed * mixed {
            proof {
                lemma_answer_is_sound(self@);
            }
            return true;
        }
        let mut i: usize = 0;
        while i < 6
            invariant
                i <= 6,
                self@.wf(),
                !self@.lowest_point_answers(),
                forall|j: int| 0 <= j < i ==> !#[trigger] self@.edge_answers(j),
            decreases 6 - i,
        {
            let c: Linear = self.conditions[i];
            if c.a != 0 {
                let (n, d): (i128, i128) = if c.a > 0 {
                    (-(c.b as i128), c.a as i128)
                } else {
                    (c.b as i128, -(c.a as i128))
                };
                if self.is_feasible(n, d) && self.is_dip(n, d) {
                    assert(self@.edge_answers(i as int));
                    proof {
                        lemma_answer_is_sound(self@);
                    }
                    return true;
                }
            }
            i = i + 1;
        }
        proof {
            if self@.solvable() {
                let (n, d) = choose|n: int, d: int| #[trigger]
                    self@.feasible(n, d) && self@.dips(n, d);
                lemma_answer_is_complete(self@, n, d);
            }
        }
        false
    }
}

/// The sum of the squares of three linear forms at a fraction, written as a
/// quadratic form in numerator and denominator.
pub proof fn lemma_sum_of_squares(p: Question, n: int, d: int)
    ensures
        p.first.at(n, d) * p.first.at(n, d) + p.second.at(n, d) * p.second.at(n, d) + p.third.at(
            n,
            d,
        ) * p.third.at(n, d) - p.bound * (d * d) == p.lead() * (n * n) + 2 * (p.mixed() * (n * d))
            + p.rest() * (d * d),
{
    lemma_square_of_form(p.first, n, d);
    lemma_square_of_form(p.second, n, d);
    lemma_square_of_form(p.third, n, d);
    let (nn, nd, dd) = (n * n, n * d, d * d);
    let (a1, a2, a3) = (p.first.a * p.first.a, p.second.a * p.second.a, p.third.a * p.third.a);
    let (m1, m2, m3) = (p.first.a * p.first.b, p.second.a * p.second.b, p.third.a * p.third.b);
    let (b1, b2, b3) = (p.first.b * p.first.b, p.second.b * p.second.b, p.third.b * p.third.b);
    assert((a1 + a2 + a3) * nn == a1 * nn + a2 * nn + a3 * nn) by (nonlinear_arith);
    assert((m1 + m2 + m3) * nd == m1 * nd + m2 * nd + m3 * nd) by (nonlinear_arith);
    assert((b1 + b2 + b3 - p.bound) * dd == b1 * dd + b2 * dd + b3 * dd - p.bound * dd)
        by (nonlinear_arith);
}

/// The square of a linear form at a fraction.
proof fn lemma_square_of_form(f: Linear, n: int, d: int)
    ensures
        f.at(n, d) * f.at(n, d) == (f.a * f.a) * (n * n) + 2 * ((f.a * f.b) * (n * d)) + (f.b
            * f.b) * (d * d),
{
    let (a, b) = (f.a as int, f.b as int);
    let (u, v) = (a * n, b * d);
    assert((u + v) * (u + v) == u * u + 2 * (u * v) + v * v) by (nonlinear_arith);
    assert(u * u == (a * a) * (n * n)) by (nonlinear_arith)
        requires
            u == a * n,
    ;
    assert(u * v == (a * b) * (n * d)) by (nonlinear_arith)
        requires
            u == a * n,
            v == b * d,
    ;
    assert(v * v == (b * b) * (d * d)) by (nonlinear_arith)
        requires
            v == b * d,
    ;
}

/// A point that is tried and answers the question shows that the question
/// has an answer.
pub proof fn lemma_answer_is_sound(p: Question)
    requires
        p.wf(),
        p.has_answer(),
    ensures
        p.solvable(),
{
    if p.lowest_point_answers() {
        let (n, d) = (-p.mixed(), p.lead());
        lemma_sum_of_squares(p, n, d);
        let (l, m, r) = (p.lead(), p.mixed(), p.rest());
        assert(l * (n * n) + 2 * (m * (n * d)) + r * (d * d) == l * (l * r - m * m))
            by (nonlinear_arith)
            requires
                n == -m,
                d == l,
        ;
        assert(l * (l * r - m * m) <= 0) by (nonlinear_arith)
            requires
                l >= 1,
                l * r <= m * m,
        ;
        assert(p.feasible(n, d) && p.dips(n, d));
    } else {
        let i = choose|i: int| 0 <= i < 6 && #[trigger] p.edge_answers(i);
        assert(p.feasible(p.edge_n(i), p.edge_d(i)) && p.dips(p.edge_n(i), p.edge_d(i)));
    }
}

/// Four factors can be paired in any way.
proof fn lemma_pairs(a: int, b: int, c: int, d: int)
    by (nonlinear_arith)
    ensures
        (a * b) * (c * d) == (a * c) * (b * d),
        (a * b) * (c * d) == (a * d) * (b * c),
        (a * b) * (c * d) == (c * d) * (a * b),
{
}

/// A factor can be taken into a product of two.
proof fn lemma_into(a: int, b: int, c: int)
    by (nonlinear_arith)
    ensures
        a * (b * c) == (a * b) * c,
        a * (b * c) == b * (a * c),
{
}

/// A factor can be taken into a sum or a difference.
proof fn lemma_spread(x: int, a: int, b: int)
    by (nonlinear_arith)
    ensures
        x * (a + b) == x * a + x * b,
        x * (a - b) == x * a - x * b,
        (a + b) * x == a * x + b * x,
        (a - b) * x == a * x - b * x,
{
}

/// The square of a sum.
proof fn lemma_binomial(a: int, b: int)
    by (nonlinear_arith)
    ensures
        (a + b) * (a + b) == a * a + 2 * (a * b) + b * b,
{
}

/// `l` times the quadratic form `l n^2 + 2 m n d + r d^2` is the square of
/// `l n + m d` and `(l r - m^2) d^2`.
proof fn lemma_completed_square(l: int, m: int, r: int, n: int, d: int)
    ensures
        l * (l * (n * n) + 2 * (m * (n * d)) + r * (d * d)) == (l * n + m * d) * (l * n + m * d)
            + (l * r - m * m) * (d * d),
{
    let (x, y, z) = (l * (n * n), m * (n * d), r * (d * d));
    lemma_spread(l, x + 2 * y, z);
    lemma_spread(l, x, 2 * y);
    assert(l * (2 * y) == 2 * (l * y)) by (nonlinear_arith);
    lemma_into(l, l, n * n);
    lemma_into(l, m, n * d);
    lemma_into(l, r, d * d);
    let (a, b) = (l * n, m * d);
    lemma_binomial(a, b);
    lemma_pairs(l, n, l, n);
    lemma_pairs(l, n, m, d);
    lemma_pairs(m, d, m, d);
    lemma_spread(d * d, l * r, m * m);
}

/// The determinant of a product of two matrices is the product of their
/// determinants.
proof fn lemma_determinants(a: int, b: int, c: int, e: int, n: int, d: int, m: int, l: int)
    ensures
        (a * n + b * d) * (c * (-m) + e * l) - (c * n + e * d) * (a * (-m) + b * l) == (l * n + m
            * d) * (a * e - c * b),
{
    let (an, bd, cn, ed) = (a * n, b * d, c * n, e * d);
    let (am, bl, cm, el) = (a * m, b * l, c * m, e * l);
    assert(c * (-m) == -cm && a * (-m) == -am) by (nonlinear_arith)
        requires
            cm == c * m,
            am == a * m,
    ;
    lemma_spread(an + bd, el, cm);
    lemma_spread(el, an, bd);
    lemma_spread(cm, an, bd);
    lemma_spread(cn + ed, bl, am);
    lemma_spread(bl, cn, ed);
    lemma_spread(am, cn, ed);
    // (an + bd)(el - cm) - (cn + ed)(bl - am)
    //   = an el + bd el - an cm - bd cm - cn bl - ed bl + cn am + ed am
    lemma_pairs(a, n, c, m);
    lemma_pairs(c, n, a, m);
    lemma_pairs(b, d, e, l);
    lemma_pairs(e, d, b, l);
    assert(an * cm == cn * am);
    assert(bd * el == ed * bl);
    let (ae, cb, ln, md) = (a * e, c * b, l * n, m * d);
    lemma_pairs(a, n, e, l);
    lemma_pairs(b, d, c, m);
    lemma_pairs(c, n, b, l);
    lemma_pairs(e, d, a, m);
    assert(an * el == ae * ln) by (nonlinear_arith)
        requires
            an == a * n,
            el == e * l,
            ae == a * e,
            ln == l * n,
    ;
    assert(bd * cm == cb * md) by (nonlinear_arith)
        requires
            bd == b * d,
            cm == c * m,
            cb == c * b,
            md == m * d,
    ;
    assert(cn * bl == cb * ln) by (nonlinear_arith)
        requires
            cn == c * n,
            bl == b * l,
            cb == c * b,
            ln == l * n,
    ;
    assert(ed * am == ae * md) by (nonlinear_arith)
        requires
            ed == e * d,
            am == a * m,
            ae == a * e,
            md == m * d,
    ;
    lemma_spread(ln + md, ae, cb);
    lemma_spread(ae, ln, md);
    lemma_spread(cb, ln, md);
    assert(el * (an + bd) == (an + bd) * el) by (nonlinear_arith);
    assert(cm * (an + bd) == (an + bd) * cm) by (nonlinear_arith);
    assert(bl * (cn + ed) == (cn + ed) * bl) by (nonlinear_arith);
    assert(am * (cn + ed) == (cn + ed) * am) by (nonlinear_arith);
    assert(el * an == an * el && el * bd == bd * el && cm * an == an * cm && cm * bd == bd * cm)
        by (nonlinear_arith);
    assert(bl * cn == cn * bl && bl * ed == ed * bl && am * cn == cn * am && am * ed == ed * am)
        by (nonlinear_arith);
    assert(ae * ln == ln * ae && ae * md == md * ae && cb * ln == ln * cb && cb * md == md * cb)
        by (nonlinear_arith);
}

/// Condition `i` fails at the lowest point of the sum of squares.
pub open spec fn fails_at_lowest(p: Question, i: int) -> bool {
    p.conditions[i].at(-p.mixed(), p.lead()) < 0
}

/// `a * b - c * d` for the slopes and constants of two conditions: what
/// condition `j` comes to where condition `i` turns, but for the sign of the
/// slope of `i`.
pub open spec fn cross(p: Question, i: int, j: int) -> int {
    p.conditions[i].a * p.conditions[j].b - p.conditions[j].a * p.conditions[i].b
}

/// What a condition comes to where another turns.
proof fn lemma_at_edge(p: Question, i: int, j: int)
    requires
        p.conditions[i].a != 0,
    ensures
        p.conditions[i].a > 0 ==> p.conditions[j].at(p.edge_n(i), p.edge_d(i)) == cross(p, i, j),
        p.conditions[i].a < 0 ==> p.conditions[j].at(p.edge_n(i), p.edge_d(i)) == -cross(
            p,
            i,
            j,
        ),
        p.edge_d(i) >= 1,
{
    let (ai, bi) = (p.conditions[i].a as int, p.conditions[i].b as int);
    let (aj, bj) = (p.conditions[j].a as int, p.conditions[j].b as int);
    assert(aj * (-bi) + bj * ai == ai * bj - aj * bi) by (nonlinear_arith);
    assert(aj * bi + bj * (-ai) == -(ai * bj - aj * bi)) by (nonlinear_arith);
}

/// A condition that holds at `n / d` and fails at the lowest point has a
/// slope of the sign of `lead * n + mixed * d`: the side of the lowest
/// point on which `n / d` lies.
proof fn lemma_slope_sign(p: Question, n: int, d: int, i: int)
    requires
        p.lead() >= 1,
        d >= 1,
        p.conditions[i].at(n, d) >= 0,
        fails_at_lowest(p, i),
    ensures
        p.conditions[i].a * (p.lead() * n + p.mixed() * d) > 0,
{
    let (a, b) = (p.conditions[i].a as int, p.conditions[i].b as int);
    let (l, m) = (p.lead(), p.mixed());
    let gz = a * n + b * d;
    let gv = a * (-m) + b * l;
    assert(a * (l * n + m * d) == l * gz - d * gv) by (nonlinear_arith)
        requires
            gz == a * n + b * d,
            gv == a * (-m) + b * l,
    ;
    assert(l * gz - d * gv > 0) by (nonlinear_arith)
        requires
            l >= 1,
            gz >= 0,
            d >= 1,
            gv < 0,
    ;
}

/// Where three conditions have slopes of one sign, and the second holds
/// where the first turns and the third where the second turns, the third
/// holds where the first turns.
proof fn lemma_cross_chain(p: Question, i: int, j: int, k: int, u: int)
    requires
        p.conditions[i].a * u > 0,
        p.conditions[j].a * u > 0,
        p.conditions[k].a * u > 0,
        u * cross(p, i, j) >= 0,
        u * cross(p, j, k) >= 0,
    ensures
        u * cross(p, i, k) >= 0,
{
    let (ai, bi) = (p.conditions[i].a as int, p.conditions[i].b as int);
    let (aj, bj) = (p.conditions[j].a as int, p.conditions[j].b as int);
    let (ak, bk) = (p.conditions[k].a as int, p.conditions[k].b as int);
    let (cij, cjk, cik) = (cross(p, i, j), cross(p, j, k), cross(p, i, k));
    lemma_spread(aj, ai * bk, ak * bi);
    lemma_spread(ak, ai * bj, aj * bi);
    lemma_spread(ai, aj * bk, ak * bj);
    lemma_into(aj, ai, bk);
    lemma_into(aj, ak, bi);
    lemma_into(ak, ai, bj);
    assert(aj * cik == ak * cij + ai * cjk);
    let (x, y, z) = (ai * u, aj * u, ak * u);
    let (e, f, g) = (u * cij, u * cjk, u * cik);
    lemma_pairs(aj, u, u, cik);
    lemma_pairs(ak, u, u, cij);
    lemma_pairs(ai, u, u, cjk);
    lemma_spread(u * u, ak * cij, ai * cjk);
    assert(aj * cik == cik * aj && ak * cij == cij * ak && ai * cjk == cjk * ai)
        by (nonlinear_arith);
    assert(y * g == (u * u) * (aj * cik)) by (nonlinear_arith)
        requires
            y * g == (aj * u) * (cik * u) || y * g == (aj * u) * (u * cik),
            (aj * u) * (u * cik) == (aj * cik) * (u * u),
    ;
    assert(z * e == (u * u) * (ak * cij)) by (nonlinear_arith)
        requires
            z * e == (ak * u) * (u * cij),
            (ak * u) * (u * cij) == (ak * cij) * (u * u),
    ;
    assert(x * f == (u * u) * (ai * cjk)) by (nonlinear_arith)
        requires
            x * f == (ai * u) * (u * cjk),
            (ai * u) * (u * cjk) == (ai * cjk) * (u * u),
    ;
    assert(y * g == z * e + x * f);
    assert(g >= 0) by (nonlinear_arith)
        requires
            y * g == z * e + x * f,
            x > 0,
            y > 0,
            z > 0,
            e >= 0,
            f >= 0,
    ;
}

/// Among the first `k` conditions, one that fails at the lowest point turns
/// where all the others that fail there hold.
proof fn lemma_first_turn(p: Question, n: int, d: int, k: int) -> (i: int)
    requires
        p.lead() >= 1,
        p.feasible(n, d),
        0 <= k <= p.conditions.len(),
        exists|j: int| 0 <= j < k && fails_at_lowest(p, j),
    ensures
        0 <= i < k,
        fails_at_lowest(p, i),
        forall|j: int|
            0 <= j < k && fails_at_lowest(p, j) ==> (p.lead() * n + p.mixed() * d) * #[trigger] cross(
                p,
                i,
                j,
            ) >= 0,
    decreases k,
{
    let u = p.lead() * n + p.mixed() * d;
    let last = k - 1;
    let before = exists|j: int| 0 <= j < last && fails_at_lowest(p, j);
    if !fails_at_lowest(p, last) {
        lemma_first_turn(p, n, d, last)
    } else if !before {
        assert(cross(p, last, last) == 0);
        assert(u * cross(p, last, last) == 0);
        last
    } else {
        let i0 = lemma_first_turn(p, n, d, last);
        assert(p.conditions[i0].at(n, d) >= 0);
        assert(p.conditions[last].at(n, d) >= 0);
        lemma_slope_sign(p, n, d, i0);
        lemma_slope_sign(p, n, d, last);
        if u * cross(p, i0, last) >= 0 {
            i0
        } else {
            assert(cross(p, last, i0) == -cross(p, i0, last));
            assert(u * cross(p, last, i0) >= 0) by (nonlinear_arith)
                requires
                    u * cross(p, i0, last) < 0,
                    cross(p, last, i0) == -cross(p, i0, last),
            ;
            assert(cross(p, last, last) == 0);
            assert(u * cross(p, last, last) == 0);
            assert forall|j: int| 0 <= j < k && fails_at_lowest(p, j) implies u * #[trigger] cross(
                p,
                last,
                j,
            ) >= 0 by {
                if j < last {
                    assert(p.conditions[j].at(n, d) >= 0);
                    lemma_slope_sign(p, n, d, j);
                    lemma_cross_chain(p, last, i0, j, u);
                }
            }
            last
        }
    }
}

/// Wherever the question has an answer, one of the points that are tried
/// answers it: the lowest point of the sum of squares if the conditions
/// hold there, and otherwise the point nearest to it at which they all
/// hold, where one of them turns.
pub proof fn lemma_answer_is_complete(p: Question, n: int, d: int)
    requires
        p.wf(),
        p.feasible(n, d),
        p.dips(n, d),
    ensures
        p.has_answer(),
{
    let (l, m, r) = (p.lead(), p.mixed(), p.rest());
    let t3 = p.third.a as int;
    assert(l >= 1) by (nonlinear_arith)
        requires
            l == p.first.a * p.first.a + p.second.a * p.second.a + t3 * t3,
            t3 != 0,
    ;
    lemma_sum_of_squares(p, n, d);
    let q = l * (n * n) + 2 * (m * (n * d)) + r * (d * d);
    assert(q <= 0);
    let u = l * n + m * d;
    let gamma = l * r - m * m;
    lemma_completed_square(l, m, r, n, d);
    assert(l * q == u * u + gamma * (d * d));
    assert(l * q <= 0) by (nonlinear_arith)
        requires
            l >= 1,
            q <= 0,
    ;
    if p.feasible(-m, l) {
        assert(gamma <= 0) by (nonlinear_arith)
            requires
                u * u + gamma * (d * d) <= 0,
                d >= 1,
        ;
    } else {
        let j0 = choose|j: int| 0 <= j < 6 && #[trigger] p.conditions[j].at(-m, l) < 0;
        assert(fails_at_lowest(p, j0));
        let i = lemma_first_turn(p, n, d, 6);
        let (a, b) = (p.conditions[i].a as int, p.conditions[i].b as int);
        assert(p.conditions[i].at(n, d) >= 0);
        lemma_slope_sign(p, n, d, i);
        assert(a != 0) by (nonlinear_arith)
            requires
                a * u > 0,
        ;
        let (e, k) = (p.edge_n(i), p.edge_d(i));
        lemma_at_edge(p, i, i);
        assert(cross(p, i, i) == 0);
        // every condition holds where condition i turns
        assert forall|j: int| 0 <= j < 6 implies (#[trigger] p.conditions[j]).at(e, k) >= 0 by {
            lemma_at_edge(p, i, j);
            let c = cross(p, i, j);
            if fails_at_lowest(p, j) {
                assert(u * cross(p, i, j) >= 0);
            } else {
                let (aj, bj) = (p.conditions[j].a as int, p.conditions[j].b as int);
                let (gi, gj) = (a * n + b * d, aj * n + bj * d);
                let (hi, hj) = (a * (-m) + b * l, aj * (-m) + bj * l);
                assert(p.conditions[j].at(n, d) >= 0);
                lemma_determinants(a, b, aj, bj, n, d, m, l);
                assert(gi * hj - gj * hi == u * c);
                assert(gi * hj - gj * hi >= 0) by (nonlinear_arith)
                    requires
                        gi >= 0,
                        hj >= 0,
                        gj >= 0,
                        hi < 0,
                ;
            }
            assert(a > 0 ==> c >= 0) by (nonlinear_arith)
                requires
                    a * u > 0,
                    u * c >= 0,
            ;
            assert(a < 0 ==> c <= 0) by (nonlinear_arith)
                requires
                    a * u > 0,
                    u * c >= 0,
            ;
        }
        assert(p.feasible(e, k));
        // and the sum of the squares is no greater there than at n / d
        let t = l * e + m * k;
        let gv = a * (-m) + b * l;
        assert(a * e + b * k == 0);
        assert(a * t == -(k * gv)) by (nonlinear_arith)
            requires
                t == l * e + m * k,
                gv == a * (-m) + b * l,
                a * e + b * k == 0,
        ;
        let gz = a * n + b * d;
        assert(a * (u * k - t * d) == l * (gz * k)) by {
            // u k - t d = l (n k - e d), and a (n k - e d) = gz k
            lemma_spread(k, l * n, m * d);
            lemma_spread(d, l * e, m * k);
            lemma_into(l, n, k);
            lemma_into(l, e, d);
            lemma_pairs(m, d, k, 1);
            lemma_pairs(m, k, d, 1);
            assert((m * d) * k == (m * k) * d) by (nonlinear_arith);
            assert((l * n) * k == l * (n * k) && (l * e) * d == l * (e * d)) by (nonlinear_arith);
            lemma_spread(l, n * k, e * d);
            assert(u * k - t * d == l * (n * k - e * d));
            lemma_spread(a, n * k, e * d);
            lemma_into(a, n, k);
            lemma_into(a, e, d);
            lemma_spread(k, a * n, b * d);
            assert((a * e) * d == -((b * k) * d)) by (nonlinear_arith)
                requires
                    a * e + b * k == 0,
            ;
            assert((b * k) * d == (b * d) * k) by (nonlinear_arith);
            assert(a * (n * k - e * d) == gz * k);
            lemma_into(a, l, n * k - e * d);
        }
        let (td, uk) = (t * d, u * k);
        assert(td * td <= uk * uk) by (nonlinear_arith)
            requires
                a * t == -(k * gv),
                gv < 0,
                k >= 1,
                d >= 1,
                a * (u * k - t * d) == l * (gz * k),
                l >= 1,
                gz >= 0,
                a * u > 0,
                td == t * d,
                uk == u * k,
        {
            if a > 0 {
                assert(t > 0);
                assert(u > 0);
                assert(u * k - t * d >= 0);
                assert(0 <= td <= uk);
            } else {
                assert(t < 0);
                assert(u < 0);
                assert(u * k - t * d <= 0);
                assert(uk <= td <= 0);
            }
        }
        lemma_sum_of_squares(p, e, k);
        let qe = l * (e * e) + 2 * (m * (e * k)) + r * (k * k);
        lemma_completed_square(l, m, r, e, k);
        assert(l * qe == t * t + gamma * (k * k));
        assert((d * d) * (l * qe) <= (k * k) * (l * q)) by {
            lemma_spread(d * d, t * t, gamma * (k * k));
            lemma_spread(k * k, u * u, gamma * (d * d));
            lemma_pairs(t, d, t, d);
            lemma_pairs(u, k, u, k);
            lemma_pairs(d, d, t, t);
            lemma_pairs(k, k, u, u);
            assert((d * d) * (t * t) == td * td) by (nonlinear_arith)
                requires
                    td == t * d,
            ;
            assert((k * k) * (u * u) == uk * uk) by (nonlinear_arith)
                requires
                    uk == u * k,
            ;
            lemma_into(d * d, gamma, k * k);
            lemma_into(k * k, gamma, d * d);
            assert((d * d) * (gamma * (k * k)) == (k * k) * (gamma * (d * d))) by (nonlinear_arith);
        }
        assert(qe <= 0) by (nonlinear_arith)
            requires
                (d * d) * (l * qe) <= (k * k) * (l * q),
                l * q <= 0,
                l >= 1,
                d >= 1,
        ;
        assert(p.dips(e, k));
        assert(p.edge_answers(i));
    }
}

} // verus!
