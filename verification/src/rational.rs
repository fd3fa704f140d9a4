//! Exact rational numbers on 64-bit numerator and denominator.
//!
//! Every coefficient of the pipeline is a `Rat`. Operations reduce their
//! result by the greatest common divisor and report an overflow instead of
//! returning a rounded value, so two `Rat`s built by the library from the
//! same mathematical value are interchangeable in every contract.

use vstd::prelude::*;
use vstd::arithmetic::div_mod::{
    lemma_fundamental_div_mod, lemma_fundamental_div_mod_converse, lemma_mod_multiples_basic,
    lemma_mod_self_0, lemma_small_mod,
};

verus! {

/// Magnitude of an integer, as a natural number.
pub open spec fn iabs(n: int) -> nat {
    if n < 0 {
        (-n) as nat
    } else {
        n as nat
    }
}

/// Greatest common divisor, by Euclid's recursion.
pub open spec fn gcd(a: nat, b: nat) -> nat
    decreases b,
{
    if b == 0 {
        a
    } else {
        gcd(b, a % b)
    }
}

/// The gcd of two numbers, not both zero, is positive and divides both.
pub proof fn lemma_gcd_divides(a: nat, b: nat)
    requires
        a > 0 || b > 0,
    ensures
        gcd(a, b) > 0,
        a % gcd(a, b) == 0,
        b % gcd(a, b) == 0,
    decreases b,
{
    let g = gcd(a, b);
    if b == 0 {
        lemma_mod_self_0(a as int);
        lemma_small_mod(0, a);
    } else {
        lemma_gcd_divides(b, a % b);
        lemma_fundamental_div_mod(a as int, b as int);
        lemma_fundamental_div_mod(b as int, g as int);
        lemma_fundamental_div_mod((a % b) as int, g as int);
        let q = a as int / b as int;
        let kb = b as int / g as int;
        let kr = (a % b) as int / g as int;
        assert(a as int == (q * kb + kr) * g) by (nonlinear_arith)
            requires
                a as int == (b as int) * q + ((a % b) as int),
                b as int == (g as int) * kb + ((b % g) as int),
                (a % b) as int == (g as int) * kr + (((a % b) % g) as int),
                b % g == 0,
                (a % b) % g == 0,
        {
        }
        lemma_mod_multiples_basic(q * kb + kr, g as int);
    }
}

/// Reduced numerator and denominator of the fraction `n / d`, for `d > 0`.
pub open spec fn norm(n: int, d: int) -> (int, int)
    recommends
        d > 0,
{
    let g = gcd(iabs(n), d as nat) as int;
    (n / g, d / g)
}

/// `norm` keeps the denominator positive and preserves the value.
pub proof fn lemma_norm_eqv(n: int, d: int)
    requires
        d > 0,
    ensures
        norm(n, d).1 > 0,
        norm(n, d).0 * d == n * norm(n, d).1,
        iabs(norm(n, d).0) <= iabs(n),
        norm(n, d).1 <= d,
        n == 0 ==> norm(n, d) == (0int, 1int),
{
    lemma_gcd_divides(iabs(n), d as nat);
    let g = gcd(iabs(n), d as nat) as int;
    let nr = n / g;
    let dr = d / g;
    lemma_abs_mod_divides(n, g);
    lemma_fundamental_div_mod(n, g);
    lemma_fundamental_div_mod(d, g);
    assert(n == nr * g && d == dr * g) by (nonlinear_arith)
        requires
            n == g * nr + (n % g),
            d == g * dr + (d % g),
            n % g == 0,
            d % g == 0,
    {
    }
    assert(dr > 0) by (nonlinear_arith)
        requires
            d == dr * g,
            d > 0,
            g > 0,
    {
    }
    assert(nr * d == n * dr) by (nonlinear_arith)
        requires
            n == nr * g,
            d == dr * g,
    {
    }
    assert(iabs(nr) <= iabs(n) && dr <= d) by (nonlinear_arith)
        requires
            n == nr * g,
            d == dr * g,
            g > 0,
            d > 0,
    {
    }
    if n == 0 {
        lemma_small_mod(0, d as nat);
        assert(gcd(0, d as nat) == gcd(d as nat, 0nat % (d as nat)));
        assert(g == d);
        assert(nr == 0 && dr == 1) by (nonlinear_arith)
            requires
                0int == nr * g,
                d == dr * g,
                g == d,
                g > 0,
        {
        }
    }
}

/// Divisibility of the magnitude carries over to the signed value.
proof fn lemma_abs_mod_divides(n: int, g: int)
    requires
        g > 0,
        iabs(n) as int % g == 0,
    ensures
        n % g == 0,
{
    if n < 0 {
        lemma_fundamental_div_mod(-n, g);
        let k = (-n) / g;
        assert(n == (-k) * g) by (nonlinear_arith)
            requires
                -n == g * k + ((-n) % g),
                (-n) % g == 0,
        {
        }
        lemma_mod_multiples_basic(-k, g);
    }
}

/// Bounds within which a reduced fraction is representable as a `Rat`.
pub open spec fn fits(n: int, d: int) -> bool {
    -(i64::MAX as int) <= n <= i64::MAX as int && 1 <= d <= i64::MAX as int
}

/// An exact rational number `num / den`.
#[derive(Clone, Copy, Debug, PartialEq, Eq)]
pub struct Rat {
    pub num: i64,
    pub den: i64,
}

impl Rat {
    /// Validity: positive denominator, magnitudes within symmetric bounds.
    pub open spec fn wf(self) -> bool {
        fits(self.num as int, self.den as int)
    }

    /// The two projections as a pair of mathematical integers.
    pub open spec fn pair(self) -> (int, int) {
        (self.num as int, self.den as int)
    }

    /// Whether the value is zero.
    pub open spec fn spec_is_zero(self) -> bool {
        self.num == 0
    }

    /// The rational with the given integer value.
    pub fn from_int(n: i64) -> (r: Rat)
        requires
            n > i64::MIN,
        ensures
            r.wf(),
            r.num == n,
            r.den == 1,
    {
        Rat { num: n, den: 1 }
    }

    /// Reduced rational with value `n / d`, or `None` when `d` is zero or a
    /// magnitude does not fit.
    pub fn new(n: i64, d: i64) -> (r: Option<Rat>)
        ensures
            match r {
                Some(q) => {
                    &&& d != 0
                    &&& q.wf()
                    &&& q.pair() == norm(
                        if d < 0 { -(n as int) } else { n as int },
                        iabs(d as int) as int,
                    )
                },
                None => d == 0 || n == i64::MIN || d == i64::MIN,
            },
    {
        if d == 0 || n == i64::MIN || d == i64::MIN {
            return None;
        }
        let (sn, sd): (i64, i64) = if d < 0 { (-n, -d) } else { (n, d) };
        proof {
            lemma_norm_eqv(sn as int, sd as int);
        }
        match rat_make(sn as i128, sd as i128) {
            Some(q) => Some(q),
            None => None,
        }
    }

    /// Whether the value is zero.
    pub fn is_zero(&self) -> (b: bool)
        ensures
            b == self.spec_is_zero(),
    {
        self.num == 0
    }

    /// The value with the opposite sign.
    pub fn neg(self) -> (r: Rat)
        requires
            self.wf(),
        ensures
            r.wf(),
            r == rat_neg(self),
            r.num == -self.num,
            r.den == self.den,
    {
        Rat { num: -self.num, den: self.den }
    }

    /// The magnitude of the value.
    pub fn abs(self) -> (r: Rat)
        requires
            self.wf(),
        ensures
            r.wf(),
            r == rat_abs(self),
            r.num as int == iabs(self.num as int),
            r.den == self.den,
    {
        if self.num < 0 {
            Rat { num: -self.num, den: self.den }
        } else {
            self
        }
    }
}

/// The rational with the opposite sign, for well-formed values.
pub open spec fn rat_neg(n: Rat) -> Rat {
    Rat { num: (-(n.num as int)) as i64, den: n.den }
}

/// The magnitude of a rational, for well-formed values.
pub open spec fn rat_abs(n: Rat) -> Rat {
    Rat { num: iabs(n.num as int) as i64, den: n.den }
}

/// Value equality of two fractions with nonzero denominators.
pub open spec fn eqv(p: (int, int), q: (int, int)) -> bool {
    p.0 * q.1 == q.0 * p.1
}

/// Unreduced sum of two rationals.
pub open spec fn raw_add(a: Rat, b: Rat) -> (int, int) {
    (a.num * b.den + b.num * a.den, a.den * b.den)
}

/// Unreduced difference of two rationals.
pub open spec fn raw_sub(a: Rat, b: Rat) -> (int, int) {
    (a.num * b.den - b.num * a.den, a.den * b.den)
}

/// Unreduced product of two rationals.
pub open spec fn raw_mul(a: Rat, b: Rat) -> (int, int) {
    (a.num * b.num, a.den * b.den)
}

/// Unreduced quotient of two rationals, the sign moved to the numerator.
pub open spec fn raw_div(a: Rat, b: Rat) -> (int, int)
    recommends
        b.num != 0,
{
    if b.num >= 0 {
        (a.num * b.den, a.den * b.num)
    } else {
        (-(a.num * b.den), -(a.den * b.num))
    }
}

/// The reduced `Rat` of a raw pair, or `None` when it does not fit.
pub open spec fn reduced(p: (int, int)) -> Option<Rat> {
    let q = norm(p.0, p.1);
    if fits(q.0, q.1) {
        Some(Rat { num: q.0 as i64, den: q.1 as i64 })
    } else {
        None
    }
}

/// A reduced raw pair names the same value as the pair itself.
pub proof fn lemma_reduced_eqv(p: (int, int))
    requires
        p.1 > 0,
    ensures
        reduced(p) matches Some(q) ==> q.wf() && q.den > 0 && eqv(q.pair(), p) && (q.num == 0
            <==> p.0 == 0) && (q.num > 0 <==> p.0 > 0) && (q.num < 0 <==> p.0 < 0),
{
    lemma_norm_eqv(p.0, p.1);
    if reduced(p) is Some {
        let q = reduced(p)->Some_0;
        assert((q.num == 0 <==> p.0 == 0) && (q.num > 0 <==> p.0 > 0) && (q.num < 0 <==> p.0 < 0))
            by (nonlinear_arith)
            requires
                (q.num as int) * p.1 == p.0 * (q.den as int),
                q.den as int > 0,
                p.1 > 0,
        {
        }
    }
}

/// Bounds of a product of two 64-bit-bounded factors.
proof fn lemma_prod_bound(x: int, y: int)
    by (nonlinear_arith)
    requires
        -(i64::MAX as int) <= x <= i64::MAX as int,
        -(i64::MAX as int) <= y <= i64::MAX as int,
    ensures
        -(i64::MAX as int) * (i64::MAX as int) <= x * y <= (i64::MAX as int) * (i64::MAX as int),
        x >= 1 && y >= 1 ==> x * y >= 1,
{
}

/// Reduced sum, or `None` when the reduced result does not fit.
pub(crate) fn rat_add(a: Rat, b: Rat) -> (r: Option<Rat>)
    requires
        a.wf(),
        b.wf(),
    ensures
        r == reduced(raw_add(a, b)),
        r matches Some(q) ==> q.wf(),
{
    proof {
        lemma_prod_bound(a.num as int, b.den as int);
        lemma_prod_bound(b.num as int, a.den as int);
        lemma_prod_bound(a.den as int, b.den as int);
        lemma_reduced_eqv(raw_add(a, b));
    }
    let n: i128 = a.num as i128 * b.den as i128 + b.num as i128 * a.den as i128;
    let d: i128 = a.den as i128 * b.den as i128;
    rat_make(n, d)
}

/// Reduced difference, or `None` when the reduced result does not fit.
pub(crate) fn rat_sub(a: Rat, b: Rat) -> (r: Option<Rat>)
    requires
        a.wf(),
        b.wf(),
    ensures
        r == reduced(raw_sub(a, b)),
        r matches Some(q) ==> q.wf(),
{
    proof {
        lemma_prod_bound(a.num as int, b.den as int);
        lemma_prod_bound(b.num as int, a.den as int);
        lemma_prod_bound(a.den as int, b.den as int);
        lemma_reduced_eqv(raw_sub(a, b));
    }
    let n: i128 = a.num as i128 * b.den as i128 - b.num as i128 * a.den as i128;
    let d: i128 = a.den as i128 * b.den as i128;
    rat_make(n, d)
}

/// Reduced product, or `None` when the reduced result does not fit.
pub(crate) fn rat_mul(a: Rat, b: Rat) -> (r: Option<Rat>)
    requires
        a.wf(),
        b.wf(),
    ensures
        r == reduced(raw_mul(a, b)),
        r matches Some(q) ==> q.wf(),
{
    proof {
        lemma_prod_bound(a.num as int, b.num as int);
        lemma_prod_bound(a.den as int, b.den as int);
        lemma_reduced_eqv(raw_mul(a, b));
    }
    let n: i128 = a.num as i128 * b.num as i128;
    let d: i128 = a.den as i128 * b.den as i128;
    rat_make(n, d)
}

/// Reduced quotient, or `None` when the reduced result does not fit.
pub(crate) fn rat_div(a: Rat, b: Rat) -> (r: Option<Rat>)
    requires
        a.wf(),
        b.wf(),
        b.num != 0,
    ensures
        r == reduced(raw_div(a, b)),
        r matches Some(q) ==> q.wf(),
{
    proof {
        lemma_prod_bound(a.num as int, b.den as int);
        lemma_prod_bound(a.den as int, b.num as int);
        assert(b.num > 0 ==> (a.den as int) * (b.num as int) >= 1) by (nonlinear_arith)
            requires
                a.den as int >= 1,
        {
        }
        assert(b.num < 0 ==> (a.den as int) * (b.num as int) <= -1) by (nonlinear_arith)
            requires
                a.den as int >= 1,
        {
        }
        lemma_reduced_eqv(raw_div(a, b));
    }
    let n0: i128 = a.num as i128 * b.den as i128;
    let d0: i128 = a.den as i128 * b.num as i128;
    if b.num >= 0 {
        rat_make(n0, d0)
    } else {
        rat_make(-n0, -d0)
    }
}

/// Euclid's algorithm.
fn gcd_u128(a: u128, b: u128) -> (g: u128)
    ensures
        g == gcd(a as nat, b as nat),
{
    let mut x = a;
    let mut y = b;
    while y != 0
        invariant
            gcd(x as nat, y as nat) == gcd(a as nat, b as nat),
        decreases y,
    {
        let r = x % y;
        x = y;
        y = r;
    }
    x
}

/// The reduced `Rat` of value `n / d`, or `None` when the reduced fraction
/// does not fit in 64 bits.
pub(crate) fn rat_make(n: i128, d: i128) -> (r: Option<Rat>)
    requires
        d > 0,
        n > i128::MIN,
    ensures
        match r {
            Some(q) => q.wf() && q.pair() == norm(n as int, d as int),
            None => !fits(norm(n as int, d as int).0, norm(n as int, d as int).1),
        },
{
    proof {
        lemma_norm_eqv(n as int, d as int);
    }
    let neg: bool = n < 0;
    let mag: u128 = if neg {
        (-(n as i128)) as u128
    } else {
        n as u128
    };
    assert(mag as nat == iabs(n as int));
    let g = gcd_u128(mag, d as u128);
    proof {
        lemma_gcd_divides(mag as nat, d as nat);
    }
    let rm: u128 = mag / g;
    let rd: u128 = d as u128 / g;
    proof {
        lemma_div_matches(mag as int, d as int, g as int, n as int);
    }
    if rm > (i64::MAX as u128) || rd > (i64::MAX as u128) {
        return None;
    }
    let num: i64 = if neg {
        -(rm as i64)
    } else {
        rm as i64
    };
    Some(Rat { num, den: rd as i64 })
}

/// Unsigned quotients agree with the signed reduced fraction.
proof fn lemma_div_matches(mag: int, d: int, g: int, n: int)
    requires
        g == gcd(iabs(n), d as nat),
        g > 0,
        d > 0,
        mag == iabs(n),
        mag % g == 0,
        d % g == 0,
    ensures
        n >= 0 ==> norm(n, d).0 == mag / g,
        n < 0 ==> norm(n, d).0 == -(mag / g),
        norm(n, d).1 == d / g,
        mag / g == iabs(norm(n, d).0),
        mag / g >= 0,
        d / g >= 1,
{
    lemma_fundamental_div_mod(mag, g);
    lemma_fundamental_div_mod(d, g);
    let km = mag / g;
    let kd = d / g;
    assert(km >= 0 && kd >= 1) by (nonlinear_arith)
        requires
            mag == g * km + (mag % g),
            d == g * kd + (d % g),
            mag % g == 0,
            d % g == 0,
            mag >= 0,
            d > 0,
            g > 0,
    {
    }
    if n < 0 {
        assert(n == (-km) * g + 0) by (nonlinear_arith)
            requires
                mag == g * km,
                mag == -n,
        {
        }
        lemma_fundamental_div_mod_converse(n, g, -km, 0);
    } else {
        assert(n == km * g + 0) by (nonlinear_arith)
            requires
                mag == g * km,
                mag == n,
        {
        }
        lemma_fundamental_div_mod_converse(n, g, km, 0);
    }
}

/// Numerator and denominator of a rational as a pair of integers.
pub open spec fn pair_of(r: Rat) -> (int, int) {
    (r.num as int, r.den as int)
}

/// Product of two integer pairs read as fractions.
pub open spec fn pmul(p: (int, int), q: (int, int)) -> (int, int) {
    (p.0 * q.0, p.1 * q.1)
}

/// Sum of two integer pairs read as fractions.
pub open spec fn padd(p: (int, int), q: (int, int)) -> (int, int) {
    (p.0 * q.1 + q.0 * p.1, p.1 * q.1)
}

/// Difference of two integer pairs read as fractions.
pub open spec fn psub(p: (int, int), q: (int, int)) -> (int, int) {
    (p.0 * q.1 - q.0 * p.1, p.1 * q.1)
}

/// The cross-multiplied meaning of a reduced product: the result, times the
/// input denominators, equals the input numerators times its denominator.
pub proof fn lemma_reduced_mul(x: Rat, y: Rat)
    requires
        x.wf(),
        y.wf(),
    ensures
        reduced(raw_mul(x, y)) matches Some(q) ==> q.wf() && q.den > 0 && q.num * (
        x.den as int * y.den as int) == (x.num as int * y.num as int) * q.den,
{
    assert(x.den as int * y.den as int > 0) by (nonlinear_arith)
        requires
            x.den as int > 0,
            y.den as int > 0,
    {
    }
    lemma_reduced_eqv(raw_mul(x, y));
}

/// The cross-multiplied meaning of a reduced difference.
pub proof fn lemma_reduced_sub(x: Rat, y: Rat)
    requires
        x.wf(),
        y.wf(),
    ensures
        reduced(raw_sub(x, y)) matches Some(q) ==> q.wf() && q.den > 0 && q.num * (
        x.den as int * y.den as int) == (x.num as int * y.den as int - y.num as int
            * x.den as int) * q.den,
{
    assert(x.den as int * y.den as int > 0) by (nonlinear_arith)
        requires
            x.den as int > 0,
            y.den as int > 0,
    {
    }
    lemma_reduced_eqv(raw_sub(x, y));
}

/// The cross-multiplied meaning of a reduced quotient, for either sign of
/// the divisor.
pub proof fn lemma_reduced_div(x: Rat, y: Rat)
    requires
        x.wf(),
        y.wf(),
        y.num != 0,
    ensures
        reduced(raw_div(x, y)) matches Some(q) ==> q.wf() && q.den > 0 && q.num * (
        x.den as int * y.num as int) == (x.num as int * y.den as int) * q.den,
{
    let xn = x.num as int;
    let xd = x.den as int;
    let yn = y.num as int;
    let yd = y.den as int;
    if y.num > 0 {
        assert(xd * yn > 0) by (nonlinear_arith)
            requires
                xd > 0,
                yn > 0,
        {
        }
        lemma_reduced_eqv(raw_div(x, y));
    } else {
        assert(-(xd * yn) > 0) by (nonlinear_arith)
            requires
                xd > 0,
                yn < 0,
        {
        }
        lemma_reduced_eqv(raw_div(x, y));
        if reduced(raw_div(x, y)) is Some {
            let q = reduced(raw_div(x, y))->Some_0;
            assert(q.num as int * (-(xd * yn)) == (-(xn * yd)) * q.den as int);
            assert(q.num * (xd * yn) == (xn * yd) * q.den) by (nonlinear_arith)
                requires
                    q.num as int * (-(xd * yn)) == (-(xn * yd)) * (q.den as int),
            {
            }
        }
    }
}

} // verus!
