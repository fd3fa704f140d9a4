//! The polynomial solver for degrees zero, one and two.
//!
//! `get_solution` turns the coefficient vector `[x^2, x^1, x^0]`, the
//! effective degree and the comparison kind into an exact description of the
//! solution set. Roots of a quadratic are surds `q + s * sqrt(d)` over exact
//! rationals, so no floating-point approximation enters the result; turning
//! a surd into a decimal is the caller's concern.

use vstd::prelude::*;

use crate::rational::{
    pair_of, pmul, padd, psub, raw_div, raw_mul, raw_sub, rat_abs, rat_div, rat_mul, rat_neg,
    rat_sub, reduced, Rat,
};
use crate::parser::ErrV;
use crate::{Comparison, Error};

verus! {

/// An exact value of the form `q + s * sqrt(d)`, with `d >= 0`.
#[derive(Clone, Copy, Debug, PartialEq)]
pub struct Surd {
    pub q: Rat,
    pub s: Rat,
    pub d: Rat,
}

/// The rational `r`, as a surd with no radical part.
pub open spec fn surd_of_rat(r: Rat) -> Surd {
    Surd { q: r, s: Rat { num: 0, den: 1 }, d: Rat { num: 0, den: 1 } }
}

impl Surd {
    /// Validity: well-formed parts and a nonnegative radicand.
    pub open spec fn wf(self) -> bool {
        self.q.wf() && self.s.wf() && self.d.wf() && self.d.num >= 0
    }

    /// The rational `r` as a surd.
    pub fn from_rat(r: Rat) -> (v: Surd)
        requires
            r.wf(),
        ensures
            v == surd_of_rat(r),
            v.wf(),
    {
        Surd { q: r, s: Rat { num: 0, den: 1 }, d: Rat { num: 0, den: 1 } }
    }
}

/// The solution set of a polynomial (in)equality: everything, nothing, one
/// or two exact values, a half-line, a bounded interval, or the union of the
/// two outer rays around an interval.
#[derive(Clone, Copy, Debug, PartialEq)]
pub enum Solution {
    /// Every real number satisfies the relation.
    AllReals,
    /// No real number satisfies the relation.
    NoReal,
    /// No real solution; the conjugate complex pair `re ± im*i` is carried
    /// for display only.
    NoRealComplex { re: Rat, im: Surd },
    /// Exactly one value.
    Single(Rat),
    /// Exactly the two values, in ascending order.
    Pair(Surd, Surd),
    /// `(bound, inf)` or `[bound, inf)` when `upper`, mirrored when not.
    HalfLine { bound: Rat, closed: bool, upper: bool },
    /// `(low, high)` or `[low, high]`.
    Interval { low: Surd, high: Surd, closed: bool },
    /// `(-inf, low) u (high, inf)`, or closed at both inner bounds.
    TwoRays { low: Surd, high: Surd, closed: bool },
}

/// The solution of the constant relation `c cmp 0`.
pub open spec fn spec_solution_degree_0(c: Rat, cmp: Comparison) -> Solution {
    let sat = match cmp {
        Comparison::Equal => c.num == 0,
        Comparison::Greater => c.num > 0,
        Comparison::GreaterEq => c.num >= 0,
        Comparison::Lower => c.num < 0,
        Comparison::LowerEq => c.num <= 0,
        Comparison::No => false,
    };
    if sat {
        Solution::AllReals
    } else {
        Solution::NoReal
    }
}

/// The solution of `b*x + c cmp 0` with root `root = -c/b` and `positive`
/// the sign of `b`: a strict or closed half-line on the side where the line
/// satisfies the relation.
pub open spec fn spec_solution_degree_1(root: Rat, positive: bool, cmp: Comparison) -> Solution {
    match cmp {
        Comparison::Equal => Solution::Single(root),
        Comparison::Greater => Solution::HalfLine { bound: root, closed: false, upper: positive },
        Comparison::GreaterEq => Solution::HalfLine { bound: root, closed: true, upper: positive },
        Comparison::Lower => Solution::HalfLine { bound: root, closed: false, upper: !positive },
        Comparison::LowerEq => Solution::HalfLine { bound: root, closed: true, upper: !positive },
        Comparison::No => Solution::NoReal,
    }
}

/// The solution of a quadratic with two distinct real roots `r1 <= r2` and
/// `positive` the sign of the leading coefficient: the parabola is below
/// zero strictly between the roots when it opens upward, above zero there
/// when it opens downward.
pub open spec fn spec_solution_two_roots(
    r1: Surd,
    r2: Surd,
    positive: bool,
    cmp: Comparison,
) -> Solution {
    match cmp {
        Comparison::Equal => Solution::Pair(r1, r2),
        Comparison::Greater => if positive {
            Solution::TwoRays { low: r1, high: r2, closed: false }
        } else {
            Solution::Interval { low: r1, high: r2, closed: false }
        },
        Comparison::GreaterEq => if positive {
            Solution::TwoRays { low: r1, high: r2, closed: true }
        } else {
            Solution::Interval { low: r1, high: r2, closed: true }
        },
        Comparison::Lower => if positive {
            Solution::Interval { low: r1, high: r2, closed: false }
        } else {
            Solution::TwoRays { low: r1, high: r2, closed: false }
        },
        Comparison::LowerEq => if positive {
            Solution::Interval { low: r1, high: r2, closed: true }
        } else {
            Solution::TwoRays { low: r1, high: r2, closed: true }
        },
        Comparison::No => Solution::NoReal,
    }
}

/// The solution of a quadratic with the single repeated root `r`, derived
/// from the sign the parabola takes away from `r`: away from the root the
/// value is strictly positive when it opens upward and strictly negative
/// when it opens downward, and it is zero exactly at `r`.
pub open spec fn spec_solution_double_root(r: Rat, positive: bool, cmp: Comparison) -> Solution {
    match cmp {
        Comparison::Equal => Solution::Single(r),
        Comparison::Greater => if positive {
            Solution::TwoRays { low: surd_of_rat(r), high: surd_of_rat(r), closed: false }
        } else {
            Solution::NoReal
        },
        Comparison::GreaterEq => if positive {
            Solution::AllReals
        } else {
            Solution::Single(r)
        },
        Comparison::Lower => if positive {
            Solution::NoReal
        } else {
            Solution::TwoRays { low: surd_of_rat(r), high: surd_of_rat(r), closed: false }
        },
        Comparison::LowerEq => if positive {
            Solution::Single(r)
        } else {
            Solution::AllReals
        },
        Comparison::No => Solution::NoReal,
    }
}

/// The solution of a quadratic with no real root: the parabola lies wholly
/// above the axis when it opens upward, wholly below when it opens downward.
pub open spec fn spec_solution_complex(
    re: Rat,
    im: Surd,
    positive: bool,
    cmp: Comparison,
) -> Solution {
    match cmp {
        Comparison::Equal => Solution::NoRealComplex { re, im },
        Comparison::Greater => if positive {
            Solution::AllReals
        } else {
            Solution::NoReal
        },
        Comparison::GreaterEq => if positive {
            Solution::AllReals
        } else {
            Solution::NoReal
        },
        Comparison::Lower => if positive {
            Solution::NoReal
        } else {
            Solution::AllReals
        },
        Comparison::LowerEq => if positive {
            Solution::NoReal
        } else {
            Solution::AllReals
        },
        Comparison::No => Solution::NoReal,
    }
}

/// The discriminant `b^2 - 4ac`, reduced at every step; `None` on overflow.
pub open spec fn spec_delta(a: Rat, b: Rat, c: Rat) -> Option<Rat> {
    match reduced(raw_mul(b, b)) {
        None => None,
        Some(b2) => match reduced(raw_mul(Rat { num: 4, den: 1 }, a)) {
            None => None,
            Some(fa) => match reduced(raw_mul(fa, c)) {
                None => None,
                Some(fac) => reduced(raw_sub(b2, fac)),
            },
        },
    }
}

/// The rational parts of the quadratic root formula: `q = -b/(2a)` and
/// `s = 1/(2a)`, so that the roots are `q -+ s * sqrt(delta)`.
pub open spec fn spec_root_parts(a: Rat, b: Rat) -> Option<(Rat, Rat)> {
    match reduced(raw_mul(Rat { num: 2, den: 1 }, a)) {
        None => None,
        Some(two_a) => match reduced(raw_div(rat_neg(b), two_a)) {
            None => None,
            Some(q) => match reduced(raw_div(Rat { num: 1, den: 1 }, two_a)) {
                None => None,
                Some(s) => Some((q, s)),
            },
        },
    }
}

/// The exact outcome of the quadratic branch: the three discriminant
/// regimes, each resolved by the sign of the leading coefficient.
pub open spec fn spec_solution_degree_2(a: Rat, b: Rat, c: Rat, cmp: Comparison) -> Result<
    Solution,
    ErrV,
> {
    match spec_delta(a, b, c) {
        None => Err(ErrV::Overflow),
        Some(delta) => {
            let positive = a.num > 0;
            match spec_root_parts(a, b) {
                None => Err(ErrV::Overflow),
                Some((q, s)) => {
                    if delta.num > 0 {
                        let rplus = Surd { q, s, d: delta };
                        let rminus = Surd { q, s: rat_neg(s), d: delta };
                        if positive {
                            Ok(spec_solution_two_roots(rminus, rplus, positive, cmp))
                        } else {
                            Ok(spec_solution_two_roots(rplus, rminus, positive, cmp))
                        }
                    } else if delta.num == 0 {
                        Ok(spec_solution_double_root(q, positive, cmp))
                    } else {
                        let im = Surd { q: Rat { num: 0, den: 1 }, s: rat_abs(s), d: rat_abs(delta) };
                        Ok(spec_solution_complex(q, im, positive, cmp))
                    }
                },
            }
        },
    }
}

/// The exact outcome of the solver over the coefficients `[a, b, c]` of
/// `a*x^2 + b*x + c cmp 0` and the effective degree.
pub open spec fn spec_get_solution(a: Rat, b: Rat, c: Rat, degree: u8, cmp: Comparison) -> Result<
    Solution,
    ErrV,
> {
    if degree == 0 {
        Ok(spec_solution_degree_0(c, cmp))
    } else if degree == 1 {
        match reduced(raw_div(rat_neg(c), b)) {
            None => Err(ErrV::Overflow),
            Some(root) => Ok(spec_solution_degree_1(root, b.num > 0, cmp)),
        }
    } else {
        spec_solution_degree_2(a, b, c, cmp)
    }
}

/// The effective degree: the highest power with a nonzero coefficient.
pub open spec fn spec_degree(a: Rat, b: Rat) -> u8 {
    if a.num != 0 {
        2
    } else if b.num != 0 {
        1
    } else {
        0
    }
}

/// The highest power of `x` with a nonzero coefficient in the vector
/// `[x^2, x^1, x^0]`, zero for the zero polynomial.
pub fn polynomial_degree(coef: &Vec<Rat>) -> (d: u8)
    requires
        coef@.len() == 3,
    ensures
        d == spec_degree(coef@[0], coef@[1]),
{
    if coef[0].num != 0 {
        2
    } else if coef[1].num != 0 {
        1
    } else {
        0
    }
}

/// The constant relation `c cmp 0`: all reals or nothing, decided by the
/// exact sign of `c`.
fn solution_degree_0(c: Rat, cmp_token: &Comparison) -> (sol: Solution)
    requires
        c.wf(),
    ensures
        sol == spec_solution_degree_0(c, *cmp_token),
{
    let sat = match cmp_token {
        Comparison::Equal => c.num == 0,
        Comparison::Greater => c.num > 0,
        Comparison::GreaterEq => c.num >= 0,
        Comparison::Lower => c.num < 0,
        Comparison::LowerEq => c.num <= 0,
        Comparison::No => false,
    };
    if sat {
        Solution::AllReals
    } else {
        Solution::NoReal
    }
}

/// The linear relation with root `sol` and slope sign `positive`.
fn solution_degree_1(sol: Rat, positive: bool, cmp_token: &Comparison) -> (r: Solution)
    requires
        sol.wf(),
    ensures
        r == spec_solution_degree_1(sol, positive, *cmp_token),
{
    match cmp_token {
        Comparison::Equal => Solution::Single(sol),
        Comparison::Greater => Solution::HalfLine { bound: sol, closed: false, upper: positive },
        Comparison::GreaterEq => Solution::HalfLine { bound: sol, closed: true, upper: positive },
        Comparison::Lower => Solution::HalfLine { bound: sol, closed: false, upper: !positive },
        Comparison::LowerEq => Solution::HalfLine { bound: sol, closed: true, upper: !positive },
        Comparison::No => Solution::NoReal,
    }
}

/// The quadratic relation: discriminant, exact roots, and the regime chosen
/// by the discriminant's sign and the leading coefficient's sign.
fn solution_degree_2(a: Rat, b: Rat, c: Rat, cmp_token: &Comparison) -> (r: Result<Solution, Error>)
    requires
        a.wf(),
        b.wf(),
        c.wf(),
        a.num != 0,
    ensures
        match r {
            Ok(sol) => spec_solution_degree_2(a, b, c, *cmp_token) == Ok::<Solution, ErrV>(sol),
            Err(e) => spec_solution_degree_2(a, b, c, *cmp_token) == Err::<Solution, ErrV>(
                crate::parser::error_view(e),
            ),
        },
{
    let b2 = match rat_mul(b, b) {
        Some(v) => v,
        None => {
            return Err(Error::Overflow);
        },
    };
    let fa = match rat_mul(Rat { num: 4, den: 1 }, a) {
        Some(v) => v,
        None => {
            return Err(Error::Overflow);
        },
    };
    let fac = match rat_mul(fa, c) {
        Some(v) => v,
        None => {
            return Err(Error::Overflow);
        },
    };
    let delta = match rat_sub(b2, fac) {
        Some(v) => v,
        None => {
            return Err(Error::Overflow);
        },
    };
    let positive = a.num > 0;

    proof {
        crate::rational::lemma_reduced_eqv(raw_mul(Rat { num: 2, den: 1 }, a));
    }
    let two_a = match rat_mul(Rat { num: 2, den: 1 }, a) {
        Some(v) => v,
        None => {
            return Err(Error::Overflow);
        },
    };
    assert(two_a.num != 0) by {
        assert(raw_mul(Rat { num: 2, den: 1 }, a).0 == 2 * a.num);
    }
    let q = match rat_div(b.neg(), two_a) {
        Some(v) => v,
        None => {
            return Err(Error::Overflow);
        },
    };
    let s = match rat_div(Rat { num: 1, den: 1 }, two_a) {
        Some(v) => v,
        None => {
            return Err(Error::Overflow);
        },
    };

    if delta.num > 0 {
        let rplus = Surd { q, s, d: delta };
        let rminus = Surd { q, s: s.neg(), d: delta };
        if positive {
            Ok(solution_two_roots(rminus, rplus, positive, cmp_token))
        } else {
            Ok(solution_two_roots(rplus, rminus, positive, cmp_token))
        }
    } else if delta.num == 0 {
        Ok(solution_double_root(q, positive, cmp_token))
    } else {
        let im = Surd { q: Rat { num: 0, den: 1 }, s: s.abs(), d: delta.abs() };
        Ok(solution_complex(q, im, positive, cmp_token))
    }
}

/// The regime of two distinct real roots.
fn solution_two_roots(r1: Surd, r2: Surd, positive: bool, cmp_token: &Comparison) -> (r: Solution)
    ensures
        r == spec_solution_two_roots(r1, r2, positive, *cmp_token),
{
    match cmp_token {
        Comparison::Equal => Solution::Pair(r1, r2),
        Comparison::Greater => if positive {
            Solution::TwoRays { low: r1, high: r2, closed: false }
        } else {
            Solution::Interval { low: r1, high: r2, closed: false }
        },
        Comparison::GreaterEq => if positive {
            Solution::TwoRays { low: r1, high: r2, closed: true }
        } else {
            Solution::Interval { low: r1, high: r2, closed: true }
        },
        Comparison::Lower => if positive {
            Solution::Interval { low: r1, high: r2, closed: false }
        } else {
            Solution::TwoRays { low: r1, high: r2, closed: false }
        },
        Comparison::LowerEq => if positive {
            Solution::Interval { low: r1, high: r2, closed: true }
        } else {
            Solution::TwoRays { low: r1, high: r2, closed: true }
        },
        Comparison::No => Solution::NoReal,
    }
}

/// The regime of one repeated root.
fn solution_double_root(r: Rat, positive: bool, cmp_token: &Comparison) -> (sol: Solution)
    requires
        r.wf(),
    ensures
        sol == spec_solution_double_root(r, positive, *cmp_token),
{
    match cmp_token {
        Comparison::Equal => Solution::Single(r),
        Comparison::Greater => if positive {
            Solution::TwoRays { low: Surd::from_rat(r), high: Surd::from_rat(r), closed: false }
        } else {
            Solution::NoReal
        },
        Comparison::GreaterEq => if positive {
            Solution::AllReals
        } else {
            Solution::Single(r)
        },
        Comparison::Lower => if positive {
            Solution::NoReal
        } else {
            Solution::TwoRays { low: Surd::from_rat(r), high: Surd::from_rat(r), closed: false }
        },
        Comparison::LowerEq => if positive {
            Solution::Single(r)
        } else {
            Solution::AllReals
        },
        Comparison::No => Solution::NoReal,
    }
}

/// The regime of no real root.
fn solution_complex(re: Rat, im: Surd, positive: bool, cmp_token: &Comparison) -> (r: Solution)
    ensures
        r == spec_solution_complex(re, im, positive, *cmp_token),
{
    match cmp_token {
        Comparison::Equal => Solution::NoRealComplex { re, im },
        Comparison::Greater => if positive {
            Solution::AllReals
        } else {
            Solution::NoReal
        },
        Comparison::GreaterEq => if positive {
            Solution::AllReals
        } else {
            Solution::NoReal
        },
        Comparison::Lower => if positive {
            Solution::NoReal
        } else {
            Solution::AllReals
        },
        Comparison::LowerEq => if positive {
            Solution::NoReal
        } else {
            Solution::AllReals
        },
        Comparison::No => Solution::NoReal,
    }
}

/// Solves `coef[0]*x^2 + coef[1]*x + coef[2] cmp 0` for the given effective
/// degree: the result is exactly what `spec_get_solution` yields, and an
/// error can only be an arithmetic overflow of the exact representation.
pub fn get_solution(coef: &Vec<Rat>, degree: u8, cmp_token: Comparison) -> (r: Result<
    Solution,
    Error,
>)
    requires
        coef@.len() == 3,
        coef@[0].wf(),
        coef@[1].wf(),
        coef@[2].wf(),
        !(cmp_token is No),
        degree == 1 ==> coef@[1].num != 0,
        degree >= 2 ==> coef@[0].num != 0,
    ensures
        match r {
            Ok(sol) => spec_get_solution(coef@[0], coef@[1], coef@[2], degree, cmp_token)
                == Ok::<Solution, ErrV>(sol),
            Err(e) => spec_get_solution(coef@[0], coef@[1], coef@[2], degree, cmp_token)
                == Err::<Solution, ErrV>(crate::parser::error_view(e)),
        },
{
    if degree == 0 {
        Ok(solution_degree_0(coef[2], &cmp_token))
    } else if degree == 1 {
        match rat_div(coef[2].neg(), coef[1]) {
            Some(root) => Ok(solution_degree_1(root, coef[1].num > 0, &cmp_token)),
            None => Err(Error::Overflow),
        }
    } else {
        solution_degree_2(coef[0], coef[1], coef[2], &cmp_token)
    }
}

/// The coefficient of `sqrt(r.d)` in `a*r^2 + b*r + c` at the surd
/// `r = r.q + r.s * sqrt(r.d)`: since
/// `r^2 = (q^2 + s^2*d) + 2*q*s*sqrt(d)`, that coefficient is
/// `s*(2*a*q + b)`, here as the numerator of the exact pair expression.
pub open spec fn surd_eval_radical(a: Rat, b: Rat, r: Surd) -> int {
    let pa = pair_of(a);
    let pb = pair_of(b);
    let pq = pair_of(r.q);
    let ps = pair_of(r.s);
    (pmul(ps, padd(pmul(pmul((2int, 1int), pa), pq), pb))).0
}

/// `x <= y` for two surds over one radicand `d >= 0`: with `A = y.q - x.q`
/// and `B = y.s - x.s` the relation says `A + B*sqrt(d) >= 0`, stated over
/// rationals by comparing `A^2` against `B^2*d` on the side the signs
/// demand.
pub open spec fn surd_le(x: Surd, y: Surd) -> bool
    recommends
        x.d == y.d,
        x.wf(),
        y.wf(),
{
    let a = psub(pair_of(y.q), pair_of(x.q));
    let b = psub(pair_of(y.s), pair_of(x.s));
    let d = pair_of(x.d);
    let a2 = pmul(a, a);
    let b2d = pmul(pmul(b, b), d);
    ||| (b.0 >= 0 && (a.0 >= 0 || a2.0 * b2d.1 <= b2d.0 * a2.1))
    ||| (b.0 < 0 && a.0 >= 0 && a2.0 * b2d.1 >= b2d.0 * a2.1)
}

/// LAW: for a positive discriminant the two roots the solver reports are
/// `-b/(2a) -+ (1/(2a))*sqrt(delta)` exactly: the coefficient of
/// `sqrt(delta)` in `a*r^2 + b*r + c` vanishes at both of them, they come
/// in ascending order, and under `Equal` they are exactly the pair the
/// solution carries.
pub proof fn lemma_quadratic_roots(a: Rat, b: Rat, c: Rat)
    requires
        a.wf(),
        b.wf(),
        c.wf(),
        a.num != 0,
        spec_root_parts(a, b) is Some,
        spec_delta(a, b, c) is Some,
        spec_delta(a, b, c)->Some_0.num > 0,
    ensures
        ({
            let delta = spec_delta(a, b, c)->Some_0;
            let qs = spec_root_parts(a, b)->Some_0;
            let rplus = Surd { q: qs.0, s: qs.1, d: delta };
            let rminus = Surd { q: qs.0, s: rat_neg(qs.1), d: delta };
            let r1 = if a.num > 0 {
                rminus
            } else {
                rplus
            };
            let r2 = if a.num > 0 {
                rplus
            } else {
                rminus
            };
            &&& surd_eval_radical(a, b, rplus) == 0
            &&& surd_eval_radical(a, b, rminus) == 0
            &&& r1.wf() && r2.wf()
            &&& surd_le(r1, r2)
            &&& spec_solution_degree_2(a, b, c, Comparison::Equal) == Ok::<Solution, ErrV>(
                Solution::Pair(r1, r2),
            )
        }),
{
    let two = Rat { num: 2, den: 1 };
    let one = Rat { num: 1, den: 1 };
    let nb = rat_neg(b);
    assert(nb.num as int == -(b.num as int) && nb.wf());

    let ta = reduced(raw_mul(two, a))->Some_0;
    crate::rational::lemma_reduced_mul(two, a);
    crate::rational::lemma_reduced_eqv(raw_mul(two, a));
    assert(raw_mul(two, a).0 == 2 * a.num as int);
    assert(ta.num != 0);
    let q = reduced(raw_div(nb, ta))->Some_0;
    crate::rational::lemma_reduced_div(nb, ta);
    let s = reduced(raw_div(one, ta))->Some_0;
    crate::rational::lemma_reduced_div(one, ta);

    let an = a.num as int;
    let ad = a.den as int;
    let bn = b.num as int;
    let bd = b.den as int;
    let tn = ta.num as int;
    let td = ta.den as int;
    let qn = q.num as int;
    let qd = q.den as int;
    let sn = s.num as int;
    let sd = s.den as int;

    // ta stands for 2a.
    assert(tn * ad == 2 * an * td);
    // q stands for -b / (2a): fold ta away.
    assert(2 * an * qn * bd + bn * ad * qd == 0) by (nonlinear_arith)
        requires
            qn * (bd * tn) == ((-bn) * td) * qd,
            tn * ad == 2 * an * td,
            td > 0,
    {
    }
    // s stands for 1 / (2a), and its sign follows the sign of a.
    assert(2 * an * sn == sd * ad) by (nonlinear_arith)
        requires
            sn * (1 * tn) == (1 * td) * sd,
            tn * ad == 2 * an * td,
            td > 0,
    {
    }
    assert((an > 0 ==> sn > 0) && (an < 0 ==> sn < 0)) by (nonlinear_arith)
        requires
            2 * an * sn == sd * ad,
            sd > 0,
            ad > 0,
    {
    }

    // the coefficient of sqrt(delta) vanishes for s and -s alike
    assert(sn * (((2 * an) * qn) * bd + bn * ((1 * ad) * qd)) == 0 && (-sn) * (((2 * an) * qn) * bd
        + bn * ((1 * ad) * qd)) == 0) by (nonlinear_arith)
        requires
            2 * an * qn * bd + bn * ad * qd == 0,
    {
    }

    let delta = spec_delta(a, b, c)->Some_0;
    let rplus = Surd { q, s, d: delta };
    let rminus = Surd { q, s: rat_neg(s), d: delta };
    assert(rat_neg(s).num as int == -sn && rat_neg(s).den as int == sd && rat_neg(s).wf());
    assert(surd_eval_radical(a, b, rplus) == 0);
    assert(surd_eval_radical(a, b, rminus) == 0);

    // ordering: the roots share q, so the comparison rests on the sign of
    // the difference of the radical coefficients
    if a.num > 0 {
        let aa = psub(pair_of(rplus.q), pair_of(rminus.q));
        let bb = psub(pair_of(rplus.s), pair_of(rminus.s));
        assert(aa.0 == qn * qd - qn * qd);
        assert(bb.0 == sn * sd - (-sn) * sd);
        assert(bb.0 == 2 * sn * sd && bb.0 > 0) by (nonlinear_arith)
            requires
                bb.0 == sn * sd - (-sn) * sd,
                sn > 0,
                sd > 0,
        {
        }
        assert(surd_le(rminus, rplus));
    } else {
        let aa = psub(pair_of(rminus.q), pair_of(rplus.q));
        let bb = psub(pair_of(rminus.s), pair_of(rplus.s));
        assert(aa.0 == qn * qd - qn * qd);
        assert(bb.0 == (-sn) * sd - sn * sd);
        assert(bb.0 == -2 * sn * sd && bb.0 > 0) by (nonlinear_arith)
            requires
                bb.0 == (-sn) * sd - sn * sd,
                sn < 0,
                sd > 0,
        {
        }
        assert(surd_le(rplus, rminus));
    }
}

} // verus!
