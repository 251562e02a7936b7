//! Exact non-negative rational arithmetic.
//!
//! Difficulty values are ratios of two targets, so every quantity the
//! calculator manipulates is an exact non-negative rational.  A `Ratio`
//! stores a numerator and a non-zero denominator as `u64`; results of the
//! arithmetic operations are reduced by the greatest common divisor and an
//! operation reports `None` when the reduced result does not fit in `u64`.

use vstd::prelude::*;
use vstd::arithmetic::div_mod::{
    lemma_fundamental_div_mod, lemma_div_non_zero, lemma_div_is_ordered_by_denominator,
    lemma_div_pos_is_pos, lemma_mod_multiples_basic, lemma_div_multiples_vanish,
    lemma_mod_division_less_than_divisor, lemma_fundamental_div_mod_converse,
};
use vstd::arithmetic::mul::lemma_mul_inequality;

verus! {

/// Mathematical value of a `Ratio`: the fraction `num / den`.
pub ghost struct Frac {
    pub num: int,
    pub den: int,
}

/// A well-formed fraction is non-negative with a positive denominator.
pub open spec fn frac_wf(f: Frac) -> bool {
    f.num >= 0 && f.den >= 1
}

/// `a` and `b` denote the same rational number.
pub open spec fn frac_eq(a: Frac, b: Frac) -> bool {
    a.num * b.den == b.num * a.den
}

/// `a` is at most `b` as a rational number.
pub open spec fn frac_le(a: Frac, b: Frac) -> bool {
    a.num * b.den <= b.num * a.den
}

/// Exact (unreduced) sum of two fractions.
pub open spec fn frac_add(a: Frac, b: Frac) -> Frac {
    Frac { num: a.num * b.den + b.num * a.den, den: a.den * b.den }
}

/// Exact (unreduced) product of two fractions.
pub open spec fn frac_mul(a: Frac, b: Frac) -> Frac {
    Frac { num: a.num * b.num, den: a.den * b.den }
}

/// Exact (unreduced) quotient of two fractions.
pub open spec fn frac_div(a: Frac, b: Frac) -> Frac {
    Frac { num: a.num * b.den, den: a.den * b.num }
}

/// Greatest common divisor by Euclid's recursion.
pub open spec fn spec_gcd(a: nat, b: nat) -> nat
    decreases b,
{
    if b == 0 {
        a
    } else {
        spec_gcd(b, a % b)
    }
}

/// The fraction `n / d` reduced by the greatest common divisor.
pub open spec fn norm(n: int, d: int) -> Frac {
    let g = spec_gcd(n as nat, d as nat) as int;
    Frac { num: n / g, den: d / g }
}

/// Whether both components of a fraction fit into a `u64`.
pub open spec fn fits_u64(f: Frac) -> bool {
    f.num <= u64::MAX && f.den <= u64::MAX
}

/// Canonical result of an operation: the reduced fraction when it is
/// representable, `None` otherwise.
pub open spec fn norm_fit(f: Frac) -> Option<Frac> {
    let r = norm(f.num, f.den);
    if fits_u64(r) {
        Some(r)
    } else {
        None
    }
}

/// Canonical result of adding two represented fractions.  The sum of the
/// two cross products is formed in 128-bit arithmetic, so a sum beyond
/// `u128::MAX` is unrepresentable outright.
pub open spec fn spec_add(a: Frac, b: Frac) -> Option<Frac> {
    let s = frac_add(a, b);
    if s.num > u128::MAX {
        None
    } else {
        norm_fit(s)
    }
}

/// Canonical result of multiplying two represented fractions.
pub open spec fn spec_mul(a: Frac, b: Frac) -> Option<Frac> {
    norm_fit(frac_mul(a, b))
}

/// Canonical result of dividing two represented fractions; division by a
/// zero fraction is unrepresentable.
pub open spec fn spec_div(a: Frac, b: Frac) -> Option<Frac> {
    if b.num <= 0 {
        None
    } else {
        norm_fit(frac_div(a, b))
    }
}

/// Ceiling of the quotient `a / b` of two fractions, as an integer.
pub open spec fn frac_div_ceil(a: Frac, b: Frac) -> int {
    (a.num * b.den + a.den * b.num - 1) / (a.den * b.num)
}

/// The product of well-formed fractions is well-formed.
pub proof fn lemma_frac_mul_wf(a: Frac, b: Frac)
    requires
        frac_wf(a),
        frac_wf(b),
    ensures
        frac_wf(frac_mul(a, b)),
        a.num >= 1 && b.num >= 1 ==> frac_mul(a, b).num >= 1,
{
    assert(a.num * b.num >= 0 && a.den * b.den >= 1 && (a.num >= 1 && b.num >= 1 ==> a.num
        * b.num >= 1)) by (nonlinear_arith)
        requires
            a.num >= 0,
            b.num >= 0,
            a.den >= 1,
            b.den >= 1,
    ;
}

/// The quotient of a well-formed fraction by a positive one is well-formed.
pub proof fn lemma_frac_div_wf(a: Frac, b: Frac)
    requires
        frac_wf(a),
        frac_wf(b),
        b.num >= 1,
    ensures
        frac_wf(frac_div(a, b)),
        a.num >= 1 ==> frac_div(a, b).num >= 1,
{
    assert(a.num * b.den >= 0 && a.den * b.num >= 1 && (a.num >= 1 ==> a.num * b.den >= 1))
        by (nonlinear_arith)
        requires
            a.num >= 0,
            b.num >= 0,
            a.den >= 1,
            b.den >= 1,
            b.num >= 1,
    ;
}

/// A successful multiplication yields a well-formed represented fraction
/// equal in value to the exact product, positive when both factors are.
pub proof fn lemma_spec_mul_wf(a: Frac, b: Frac)
    requires
        frac_wf(a),
        frac_wf(b),
        spec_mul(a, b) is Some,
    ensures
        frac_wf(spec_mul(a, b)->0),
        fits_u64(spec_mul(a, b)->0),
        frac_eq(spec_mul(a, b)->0, frac_mul(a, b)),
        a.num >= 1 && b.num >= 1 ==> spec_mul(a, b)->0.num >= 1,
{
    lemma_frac_mul_wf(a, b);
    let p = frac_mul(a, b);
    lemma_norm_facts(p.num, p.den);
}

/// A successful division yields a well-formed represented fraction equal
/// in value to the exact quotient, positive when the dividend is.
pub proof fn lemma_spec_div_wf(a: Frac, b: Frac)
    requires
        frac_wf(a),
        frac_wf(b),
        spec_div(a, b) is Some,
    ensures
        frac_wf(spec_div(a, b)->0),
        fits_u64(spec_div(a, b)->0),
        frac_eq(spec_div(a, b)->0, frac_div(a, b)),
        a.num >= 1 ==> spec_div(a, b)->0.num >= 1,
{
    lemma_frac_div_wf(a, b);
    let p = frac_div(a, b);
    lemma_norm_facts(p.num, p.den);
}

/// The ceiling of a quotient of fractions is the least integer whose
/// product with the divisor reaches the dividend: writing the quotient as
/// `p / q` with `p = a.num * b.den` and `q = a.den * b.num`, the ceiling
/// `c` satisfies `c * q >= p`, and every integer `k` with `k * q >= p` is
/// at least `c`.
pub proof fn lemma_div_ceil_least(a: Frac, b: Frac)
    requires
        frac_wf(a),
        frac_wf(b),
        b.num >= 1,
    ensures
        0 <= frac_div_ceil(a, b) <= a.num * b.den,
        frac_div_ceil(a, b) * (a.den * b.num) >= a.num * b.den,
        forall|k: int|
            #[trigger] (k * (a.den * b.num)) >= a.num * b.den ==> k >= frac_div_ceil(a, b),
{
    assert(a.num * b.den >= 0 && a.den * b.num >= 1) by (nonlinear_arith)
        requires
            a.num >= 0,
            b.num >= 1,
            a.den >= 1,
            b.den >= 1,
    ;
    let p = a.num * b.den;
    let q = a.den * b.num;
    let c = frac_div_ceil(a, b);
    lemma_fundamental_div_mod(p + q - 1, q);
    lemma_mod_division_less_than_divisor(p + q - 1, q);
    let r = (p + q - 1) % q;
    assert(p + q - 1 == q * c + r);
    assert(c * q >= p);
    assert(c >= 0) by {
        lemma_div_pos_is_pos(p + q - 1, q);
    }
    assert(c <= p) by {
        if c > p {
            assert(q * c >= q * (p + 1)) by (nonlinear_arith)
                requires
                    q >= 1,
                    c >= p + 1,
            ;
            assert(q * (p + 1) >= p + q) by (nonlinear_arith)
                requires
                    q >= 1,
                    p >= 0,
            ;
        }
    }
    assert forall|k: int| #[trigger] (k * q) >= p implies k >= c by {
        if k < c {
            lemma_mul_inequality(k, c - 1, q);
            assert((c - 1) * q == c * q - q) by (nonlinear_arith);
            assert(c * q - q == p - 1 - r);
            assert(k * q <= p - 1 - r);
        }
    }
}

/// Euclid's recursion reaches a divisor of both arguments.
pub proof fn lemma_gcd_facts(a: nat, b: nat)
    requires
        b >= 1,
    ensures
        spec_gcd(a, b) >= 1,
        a as int % (spec_gcd(a, b) as int) == 0,
        b as int % (spec_gcd(a, b) as int) == 0,
        spec_gcd(a, b) <= b,
        a >= 1 ==> spec_gcd(a, b) <= a,
    decreases b,
{
    let g = spec_gcd(a, b) as int;
    if a % b == 0 {
        assert(spec_gcd(a, b) == spec_gcd(b, 0nat));
        assert(g == b);
        lemma_mod_multiples_basic(1, b as int);
        assert(b as int % (b as int) == 0);
        if a >= 1 {
            lemma_fundamental_div_mod(a as int, b as int);
            assert(a as int == b * (a as int / (b as int)));
            assert(a as int / (b as int) >= 1) by {
                lemma_div_pos_is_pos(a as int, b as int);
                if a as int / (b as int) == 0 {
                    assert(a as int == b * 0);
                }
            }
            assert(b <= a) by (nonlinear_arith)
                requires
                    a as int == b * (a as int / (b as int)),
                    a as int / (b as int) >= 1,
                    b >= 1,
            ;
        }
    } else {
        lemma_gcd_facts(b, a % b);
        assert(g == spec_gcd(b, a % b));
        assert(g >= 1);
        assert(b as int % g == 0);
        assert((a % b) as int % g == 0);
        // a = b * (a / b) + a % b, and g divides both b and a % b.
        lemma_fundamental_div_mod(a as int, b as int);
        let q = a as int / (b as int);
        lemma_fundamental_div_mod(b as int, g);
        lemma_fundamental_div_mod((a % b) as int, g);
        let kb = b as int / g;
        let kr = (a % b) as int / g;
        assert(a as int == (kb * q + kr) * g) by (nonlinear_arith)
            requires
                a as int == (b as int) * q + (a % b) as int,
                b as int == g * kb + (b as int % g),
                (a % b) as int == g * kr + ((a % b) as int % g),
                b as int % g == 0,
                (a % b) as int % g == 0,
        ;
        lemma_mod_multiples_basic(kb * q + kr, g);
        assert(a as int % g == 0);
        assert(spec_gcd(a, b) <= b) by {
            assert(spec_gcd(b, a % b) <= a % b || a % b == 0);
            assert(a % b < b);
        }
        if a >= 1 {
            lemma_fundamental_div_mod(a as int, g);
            lemma_div_pos_is_pos(a as int, g);
            assert(a as int / g >= 1) by {
                if a as int / g == 0 {
                    assert(a as int == g * 0 + a as int % g);
                }
            }
            assert(g <= a as int) by (nonlinear_arith)
                requires
                    a as int == g * (a as int / g),
                    a as int / g >= 1,
                    g >= 1,
            ;
        }
    }
}

/// Reduction by the greatest common divisor keeps the value of the
/// fraction, keeps positivity, and never enlarges either component.
pub proof fn lemma_norm_facts(n: int, d: int)
    requires
        n >= 0,
        d >= 1,
    ensures
        1 <= norm(n, d).den <= d,
        0 <= norm(n, d).num <= n,
        frac_eq(norm(n, d), Frac { num: n, den: d }),
        n >= 1 ==> norm(n, d).num >= 1,
        norm(n, d).num >= n / d,
        n >= 1 ==> norm(n, d).den >= d / n,
{
    lemma_gcd_facts(n as nat, d as nat);
    let g = spec_gcd(n as nat, d as nat) as int;
    let f = norm(n, d);
    lemma_fundamental_div_mod(n, g);
    lemma_fundamental_div_mod(d, g);
    assert(n == g * f.num);
    assert(d == g * f.den);
    lemma_div_pos_is_pos(n, g);
    lemma_div_non_zero(d, g);
    assert(f.num <= n && f.den <= d) by (nonlinear_arith)
        requires
            n == g * f.num,
            d == g * f.den,
            g >= 1,
            f.num >= 0,
            f.den >= 1,
    ;
    assert(f.num * d == n * f.den) by (nonlinear_arith)
        requires
            n == g * f.num,
            d == g * f.den,
    ;
    if n >= 1 {
        assert(f.num >= 1) by {
            if f.num == 0 {
                assert(n == g * 0);
            }
        }
        lemma_div_is_ordered_by_denominator(d, g, n);
        assert(f.den >= d / n);
    }
    lemma_div_is_ordered_by_denominator(n, g, d);
    assert(f.num >= n / d);
}

/// The sum of well-formed fractions is well-formed.
pub proof fn lemma_frac_add_wf(a: Frac, b: Frac)
    requires
        frac_wf(a),
        frac_wf(b),
    ensures
        frac_wf(frac_add(a, b)),
{
    assert(a.num * b.den + b.num * a.den >= 0 && a.den * b.den >= 1) by (nonlinear_arith)
        requires
            a.num >= 0,
            b.num >= 0,
            a.den >= 1,
            b.den >= 1,
    ;
}

/// Addition of fractions respects equality of values in its left argument.
#[verifier::rlimit(100)]
pub proof fn lemma_frac_add_congruence_left(a: Frac, a2: Frac, b: Frac)
    requires
        frac_wf(a),
        frac_wf(a2),
        frac_wf(b),
        frac_eq(a, a2),
    ensures
        frac_eq(frac_add(a, b), frac_add(a2, b)),
{
    lemma_scaled_sum_cross(a.num, a.den, a2.num, a2.den, b.num, b.den);
}

/// Cross-multiplied form of replacing one summand by an equal fraction.
#[verifier::rlimit(100)]
proof fn lemma_scaled_sum_cross(an: int, ad: int, cn: int, cd: int, bn: int, bd: int) by (nonlinear_arith)
    requires
        an * cd == cn * ad,
    ensures
        (an * bd + bn * ad) * (cd * bd) == (cn * bd + bn * cd) * (ad * bd),
{
}

/// Addition of fractions is commutative on the nose.
pub proof fn lemma_frac_add_comm(a: Frac, b: Frac)
    ensures
        frac_add(a, b) == frac_add(b, a),
{
    assert(a.num * b.den + b.num * a.den == b.num * a.den + a.num * b.den && a.den * b.den
        == b.den * a.den) by (nonlinear_arith);
}

/// Addition of fractions respects equality of values.
pub proof fn lemma_frac_add_congruence(a: Frac, a2: Frac, b: Frac, b2: Frac)
    requires
        frac_wf(a),
        frac_wf(a2),
        frac_wf(b),
        frac_wf(b2),
        frac_eq(a, a2),
        frac_eq(b, b2),
    ensures
        frac_eq(frac_add(a, b), frac_add(a2, b2)),
{
    lemma_frac_add_congruence_left(a, a2, b);
    lemma_frac_add_comm(a2, b);
    lemma_frac_add_congruence_left(b, b2, a2);
    lemma_frac_add_comm(b2, a2);
    lemma_frac_add_wf(a, b);
    lemma_frac_add_wf(a2, b);
    lemma_frac_add_wf(b2, a2);
    lemma_frac_eq_trans(frac_add(a, b), frac_add(b, a2), frac_add(a2, b2));
}

/// Addition of fractions is associative on the nose.
#[verifier::rlimit(100)]
pub proof fn lemma_frac_add_assoc(x: Frac, y: Frac, z: Frac)
    ensures
        frac_add(frac_add(x, y), z) == frac_add(x, frac_add(y, z)),
{
    assert((x.num * y.den + y.num * x.den) * z.den + z.num * (x.den * y.den) == x.num * (y.den
        * z.den) + (y.num * z.den + z.num * y.den) * x.den && (x.den * y.den) * z.den == x.den
        * (y.den * z.den)) by (nonlinear_arith);
}

/// Equality of fractions is transitive.
pub proof fn lemma_frac_eq_trans(a: Frac, b: Frac, c: Frac)
    requires
        frac_wf(a),
        frac_wf(b),
        frac_wf(c),
        frac_eq(a, b),
        frac_eq(b, c),
    ensures
        frac_eq(a, c),
{
    assert(a.num * c.den == c.num * a.den) by (nonlinear_arith)
        requires
            a.num * b.den == b.num * a.den,
            b.num * c.den == c.num * b.den,
            a.den >= 1,
            b.den >= 1,
            c.den >= 1,
    ;
}

/// Ordering of fractions is transitive.
pub proof fn lemma_frac_le_trans(a: Frac, b: Frac, c: Frac)
    requires
        frac_wf(a),
        frac_wf(b),
        frac_wf(c),
        frac_le(a, b),
        frac_le(b, c),
    ensures
        frac_le(a, c),
{
    assert(a.num * c.den <= c.num * a.den) by (nonlinear_arith)
        requires
            a.num * b.den <= b.num * a.den,
            b.num * c.den <= c.num * b.den,
            a.den >= 1,
            b.den >= 1,
            c.den >= 1,
    ;
}

/// An exact non-negative rational number, written `num / den`.
#[derive(Clone, Copy, Debug, PartialEq, Eq, Structural)]
pub struct Ratio {
    num: u64,
    den: u64,
}

impl View for Ratio {
    type V = Frac;

    closed spec fn view(&self) -> Frac {
        Frac { num: self.num as int, den: self.den as int }
    }
}

impl Ratio {
    /// A represented rational is well-formed when its denominator is positive.
    pub open spec fn wf(self) -> bool {
        frac_wf(self@) && fits_u64(self@)
    }

    /// Build a rational from a numerator and a non-zero denominator.
    pub fn new(num: u64, den: u64) -> (r: Ratio)
        requires
            den >= 1,
        ensures
            r.wf(),
            r@ == (Frac { num: num as int, den: den as int }),
    {
        Ratio { num, den }
    }

    /// The whole number `n`.
    pub fn from_u64(n: u64) -> (r: Ratio)
        ensures
            r.wf(),
            r@ == (Frac { num: n as int, den: 1 }),
    {
        Ratio { num: n, den: 1 }
    }

    /// Numerator as stored.
    pub fn num(&self) -> (r: u64)
        ensures
            r == self@.num,
    {
        self.num
    }

    /// Denominator as stored.
    pub fn den(&self) -> (r: u64)
        ensures
            r == self@.den,
    {
        self.den
    }

    /// Whether the value is strictly positive.
    pub fn is_positive(&self) -> (r: bool)
        ensures
            r == (self@.num >= 1),
    {
        self.num > 0
    }

    /// Exact comparison by cross multiplication.
    pub fn le(&self, other: &Ratio) -> (r: bool)
        requires
            self.wf(),
            other.wf(),
        ensures
            r == frac_le(self@, other@),
    {
        let l: u128 = wide_mul(self.num, other.den);
        let rr: u128 = wide_mul(other.num, self.den);
        l <= rr
    }

    /// Exact sum, reduced; `None` when the result is not representable.
    pub fn checked_add(&self, other: &Ratio) -> (r: Option<Ratio>)
        requires
            self.wf(),
            other.wf(),
        ensures
            r is Some <==> spec_add(self@, other@) is Some,
            r is Some ==> r->0@ == spec_add(self@, other@)->0 && r->0.wf(),
    {
        let p1: u128 = wide_mul(self.num, other.den);
        let p2: u128 = wide_mul(other.num, self.den);
        if p1 > u128::MAX - p2 {
            return None;
        }
        let n: u128 = p1 + p2;
        let d: u128 = wide_mul(self.den, other.den);
        assert(d >= 1) by (nonlinear_arith)
            requires
                self.den >= 1,
                other.den >= 1,
                d == self.den as int * other.den as int,
        ;
        reduce_and_fit(n, d)
    }

    /// Exact product, reduced; `None` when the result is not representable.
    pub fn checked_mul(&self, other: &Ratio) -> (r: Option<Ratio>)
        requires
            self.wf(),
            other.wf(),
        ensures
            r is Some <==> spec_mul(self@, other@) is Some,
            r is Some ==> r->0@ == spec_mul(self@, other@)->0 && r->0.wf(),
    {
        let n: u128 = wide_mul(self.num, other.num);
        let d: u128 = wide_mul(self.den, other.den);
        assert(d >= 1) by (nonlinear_arith)
            requires
                self.den >= 1,
                other.den >= 1,
                d == self.den as int * other.den as int,
        ;
        reduce_and_fit(n, d)
    }

    /// Exact quotient, reduced; `None` when the divisor is zero or the
    /// result is not representable.
    pub fn checked_div(&self, other: &Ratio) -> (r: Option<Ratio>)
        requires
            self.wf(),
            other.wf(),
        ensures
            r is Some <==> spec_div(self@, other@) is Some,
            r is Some ==> r->0@ == spec_div(self@, other@)->0 && r->0.wf(),
    {
        if other.num == 0 {
            return None;
        }
        let n: u128 = wide_mul(self.num, other.den);
        let d: u128 = wide_mul(self.den, other.num);
        assert(d >= 1) by (nonlinear_arith)
            requires
                self.den >= 1,
                other.num >= 1,
                d == self.den as int * other.num as int,
        ;
        reduce_and_fit(n, d)
    }

    /// Ceiling of `self / other`, exact, as an unsigned integer.
    pub fn div_ceil(&self, other: &Ratio) -> (r: u128)
        requires
            self.wf(),
            other.wf(),
            other@.num >= 1,
        ensures
            r == frac_div_ceil(self@, other@),
    {
        let p: u128 = wide_mul(self.num, other.den);
        let q: u128 = wide_mul(self.den, other.num);
        assert(q >= 1) by (nonlinear_arith)
            requires
                self.den >= 1,
                other.num >= 1,
                q == self.den as int * other.num as int,
        ;
        let quo: u128 = p / q;
        let rem: u128 = p % q;
        proof {
            lemma_fundamental_div_mod(p as int, q as int);
            lemma_mod_division_less_than_divisor(p as int, q as int);
            if rem >= 1 {
                assert(p as int + q - 1 == (quo as int + 1) * q + (rem - 1)) by (nonlinear_arith)
                    requires
                        p as int == q as int * (quo as int) + rem as int,
                ;
                lemma_fundamental_div_mod_converse(
                    p as int + q - 1,
                    q as int,
                    quo as int + 1,
                    rem as int - 1,
                );
            } else {
                assert(p as int + q - 1 == (quo as int) * q + (q - 1)) by (nonlinear_arith)
                    requires
                        p as int == q as int * (quo as int) + rem as int,
                        rem == 0,
                ;
                lemma_fundamental_div_mod_converse(
                    p as int + q - 1,
                    q as int,
                    quo as int,
                    q as int - 1,
                );
            }
            lemma_div_pos_is_pos(p as int, q as int);
            if rem >= 1 {
                assert(quo < p) by (nonlinear_arith)
                    requires
                        p as int == q as int * (quo as int) + rem as int,
                        rem >= 1,
                        q >= 1,
                        quo >= 0,
                ;
            }
        }
        if rem > 0 {
            quo + 1
        } else {
            quo
        }
    }
}

/// Product of two `u64` values, exact in 128-bit arithmetic.
fn wide_mul(a: u64, b: u64) -> (r: u128)
    ensures
        r == a as int * b as int,
{
    proof {
        assert((a as int) * (b as int) <= u128::MAX) by (nonlinear_arith)
            requires
                a <= u64::MAX,
                b <= u64::MAX,
        ;
    }
    (a as u128) * (b as u128)
}

/// Euclid's algorithm.
fn gcd_u128(a: u128, b: u128) -> (g: u128)
    ensures
        g as nat == spec_gcd(a as nat, b as nat),
{
    let mut x: u128 = a;
    let mut y: u128 = b;
    while y != 0
        invariant
            spec_gcd(x as nat, y as nat) == spec_gcd(a as nat, b as nat),
        decreases y,
    {
        let t: u128 = x % y;
        x = y;
        y = t;
    }
    x
}

/// Reduce `n / d` by the greatest common divisor and return it when the
/// reduced pair fits into `u64`.
pub(crate) fn reduce_and_fit(n: u128, d: u128) -> (r: Option<Ratio>)
    requires
        d >= 1,
    ensures
        r is Some <==> norm_fit(Frac { num: n as int, den: d as int }) is Some,
        r is Some ==> r->0@ == norm_fit(Frac { num: n as int, den: d as int })->0
            && r->0.wf(),
{
    proof {
        lemma_gcd_facts(n as nat, d as nat);
        lemma_norm_facts(n as int, d as int);
    }
    let g = gcd_u128(n, d);
    let rn: u128 = n / g;
    let rd: u128 = d / g;
    assert(rn == norm(n as int, d as int).num);
    assert(rd == norm(n as int, d as int).den);
    if rn <= u64::MAX as u128 && rd <= u64::MAX as u128 {
        Some(Ratio { num: rn as u64, den: rd as u64 })
    } else {
        None
    }
}

} // verus!
