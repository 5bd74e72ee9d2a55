//! Exact nonnegative rational numbers.
//!
//! Every retrieval metric in this crate is a ratio of two small integer
//! counts, so scores are kept as exact fractions rather than floats.  The
//! mathematical value of a fraction is modelled by a pair `(int, int)` of
//! numerator and denominator; two pairs are compared by cross-multiplication.

use vstd::prelude::*;

verus! {

/// The spec-level rational zero.
pub open spec fn rat_zero() -> (int, int) {
    (0int, 1int)
}

/// The spec-level rational one.
pub open spec fn rat_one() -> (int, int) {
    (1int, 1int)
}

/// A well-formed spec rational: positive denominator, nonnegative numerator.
pub open spec fn rat_wf(a: (int, int)) -> bool {
    a.1 >= 1 && a.0 >= 0
}

/// Equality of rationals by cross-multiplication (valid for positive
/// denominators).
pub open spec fn rat_eq(a: (int, int), b: (int, int)) -> bool {
    a.0 * b.1 == b.0 * a.1
}

/// Order on rationals by cross-multiplication (valid for positive
/// denominators).
pub open spec fn rat_le(a: (int, int), b: (int, int)) -> bool {
    a.0 * b.1 <= b.0 * a.1
}

/// Sum of two rationals, without reduction.
pub open spec fn rat_add(a: (int, int), b: (int, int)) -> (int, int) {
    (a.0 * b.1 + b.0 * a.1, a.1 * b.1)
}

/// A rational divided by a positive integer, without reduction.
pub open spec fn rat_div(a: (int, int), n: int) -> (int, int) {
    (a.0, a.1 * n)
}

/// Whether both components of a spec rational fit in a `u64`, so that a
/// `Frac` can hold it exactly.
pub open spec fn rat_fits(a: (int, int)) -> bool {
    a.0 <= u64::MAX && a.1 <= u64::MAX
}

/// The greatest common divisor, by Euclid's algorithm.
pub open spec fn gcd_nat(a: nat, b: nat) -> nat
    decreases b,
{
    if b == 0 {
        a
    } else {
        gcd_nat(b, a % b)
    }
}

/// `a` with numerator and denominator divided by their greatest common
/// divisor.
pub open spec fn rat_reduce(a: (int, int)) -> (int, int) {
    let g = gcd_nat(a.0 as nat, a.1 as nat) as int;
    (a.0 / g, a.1 / g)
}

/// The sum of two rationals, reduced, when the exact numerator and the
/// reduced components are representable; `None` otherwise.
pub open spec fn rat_checked_add(a: (int, int), b: (int, int)) -> Option<(int, int)> {
    let s = rat_add(a, b);
    let r = rat_reduce(s);
    if s.0 <= u128::MAX && rat_fits(r) {
        Some(r)
    } else {
        Option::None
    }
}

/// A rational divided by a positive count, reduced, when the reduced
/// components are representable; `None` otherwise.
pub open spec fn rat_checked_div(a: (int, int), k: int) -> Option<(int, int)> {
    let r = rat_reduce(rat_div(a, k));
    if rat_fits(r) {
        Some(r)
    } else {
        Option::None
    }
}

/// An exact nonnegative rational score, numerator over denominator.
/// The checked operations return reduced values; equality is decided by
/// cross-multiplication, so reduction never changes what a score means.
#[derive(Clone, Copy, Debug)]
pub struct Frac {
    pub num: u64,
    pub den: u64,
}

impl View for Frac {
    type V = (int, int);

    open spec fn view(&self) -> (int, int) {
        (self.num as int, self.den as int)
    }
}

proof fn lemma_mul_u64_fits_u128(x: u64, y: u64)
    by (nonlinear_arith)
    ensures
        0 <= (x as int) * (y as int) <= u128::MAX,
{
}

/// Product of two `u64` values, exact in a `u128`.
pub(crate) fn mul_wide(x: u64, y: u64) -> (r: u128)
    ensures
        r as int == (x as int) * (y as int),
{
    proof {
        lemma_mul_u64_fits_u128(x, y);
    }
    (x as u128) * (y as u128)
}

/// The greatest common divisor is positive and divides both arguments.
pub proof fn lemma_gcd_divides(a: nat, b: nat)
    requires
        a >= 1 || b >= 1,
    ensures
        gcd_nat(a, b) >= 1,
        a % gcd_nat(a, b) == 0,
        b % gcd_nat(a, b) == 0,
    decreases b,
{
    if b == 0 {
        vstd::arithmetic::div_mod::lemma_mod_multiples_basic(1, a as int);
        vstd::arithmetic::div_mod::lemma_mod_multiples_basic(0, a as int);
        assert(a as int % (a as int) == (1 * (a as int)) % (a as int));
        assert(0int % (a as int) == (0 * (a as int)) % (a as int));
    } else {
        lemma_gcd_divides(b, a % b);
        let g = gcd_nat(b, a % b) as int;
        let q = a as int / b as int;
        vstd::arithmetic::div_mod::lemma_fundamental_div_mod(a as int, b as int);
        vstd::arithmetic::div_mod::lemma_fundamental_div_mod(b as int, g);
        vstd::arithmetic::div_mod::lemma_fundamental_div_mod((a % b) as int, g);
        let k1 = b as int / g;
        let k2 = (a % b) as int / g;
        assert(a as int == (k1 * q + k2) * g) by (nonlinear_arith)
            requires
                a as int == (b as int) * q + (a % b) as int,
                b as int == g * k1,
                (a % b) as int == g * k2,
        ;
        vstd::arithmetic::div_mod::lemma_mod_multiples_basic(k1 * q + k2, g);
    }
}

/// Reducing a well-formed rational keeps it well-formed and keeps its value.
pub proof fn lemma_rat_reduce(a: (int, int))
    requires
        rat_wf(a),
    ensures
        rat_wf(rat_reduce(a)),
        rat_eq(rat_reduce(a), a),
{
    let g = gcd_nat(a.0 as nat, a.1 as nat) as int;
    lemma_gcd_divides(a.0 as nat, a.1 as nat);
    vstd::arithmetic::div_mod::lemma_fundamental_div_mod(a.0, g);
    vstd::arithmetic::div_mod::lemma_fundamental_div_mod(a.1, g);
    let n = a.0 / g;
    let d = a.1 / g;
    assert(d >= 1) by (nonlinear_arith)
        requires
            a.1 == g * d,
            a.1 >= 1,
            g >= 1,
    ;
    assert(n >= 0) by (nonlinear_arith)
        requires
            a.0 == g * n,
            a.0 >= 0,
            g >= 1,
    ;
    assert(n * a.1 == a.0 * d) by (nonlinear_arith)
        requires
            a.0 == g * n,
            a.1 == g * d,
    ;
}

/// Euclid's algorithm on `u128` values.
fn gcd_u128(a: u128, b: u128) -> (g: u128)
    ensures
        g as nat == gcd_nat(a as nat, b as nat),
{
    let mut x = a;
    let mut y = b;
    while y != 0
        invariant
            gcd_nat(x as nat, y as nat) == gcd_nat(a as nat, b as nat),
        decreases y,
    {
        let t = x % y;
        x = y;
        y = t;
    }
    x
}

impl Frac {
    /// A well-formed score: the denominator is positive.
    pub open spec fn wf(self) -> bool {
        self.den >= 1
    }

    /// The exact zero score.
    pub fn zero() -> (r: Frac)
        ensures
            r.wf(),
            r@ == rat_zero(),
    {
        Frac { num: 0, den: 1 }
    }

    /// A fraction with the given numerator and positive denominator.
    pub fn new(num: u64, den: u64) -> (r: Frac)
        requires
            den >= 1,
        ensures
            r.wf(),
            r@ == (num as int, den as int),
    {
        Frac { num, den }
    }

    /// Exact equality test of two scores, by cross-multiplication.
    pub fn eq_frac(&self, other: &Frac) -> (r: bool)
        requires
            self.wf(),
            other.wf(),
        ensures
            r == rat_eq(self@, other@),
    {
        mul_wide(self.num, other.den) == mul_wide(other.num, self.den)
    }

    /// Exact `<=` test of two scores, by cross-multiplication.
    pub fn le_frac(&self, other: &Frac) -> (r: bool)
        requires
            self.wf(),
            other.wf(),
        ensures
            r == rat_le(self@, other@),
    {
        mul_wide(self.num, other.den) <= mul_wide(other.num, self.den)
    }

    /// Exact sum, reduced by the greatest common divisor, or `None` when
    /// even the reduced result does not fit in `u64` components.
    pub fn checked_add(&self, other: &Frac) -> (r: Option<Frac>)
        requires
            self.wf(),
            other.wf(),
        ensures
            r is Some <==> rat_checked_add(self@, other@) is Some,
            r matches Some(f) ==> f.wf() && Some(f@) == rat_checked_add(self@, other@) && rat_eq(
                f@,
                rat_add(self@, other@),
            ),
    {
        let n1 = mul_wide(self.num, other.den);
        let n2 = mul_wide(other.num, self.den);
        let d = mul_wide(self.den, other.den);
        proof {
            lemma_mul_pos(self.den as int, other.den as int);
        }
        if n1 > u128::MAX - n2 {
            return None;
        }
        let n = n1 + n2;
        let g = gcd_u128(n, d);
        proof {
            lemma_gcd_divides(n as nat, d as nat);
            lemma_rat_reduce(rat_add(self@, other@));
        }
        let rn = n / g;
        let rd = d / g;
        if rn > u64::MAX as u128 || rd > u64::MAX as u128 {
            return None;
        }
        Some(Frac { num: rn as u64, den: rd as u64 })
    }

    /// Exact division by a positive count, reduced by the greatest common
    /// divisor, or `None` when even the reduced result does not fit in `u64`
    /// components.
    pub fn checked_div(&self, n: usize) -> (r: Option<Frac>)
        requires
            self.wf(),
            n >= 1,
        ensures
            r is Some <==> rat_checked_div(self@, n as int) is Some,
            r matches Some(f) ==> f.wf() && Some(f@) == rat_checked_div(self@, n as int)
                && rat_eq(f@, rat_div(self@, n as int)),
    {
        let d = mul_wide(self.den, n as u64);
        proof {
            lemma_mul_pos(self.den as int, n as int);
        }
        let g = gcd_u128(self.num as u128, d);
        proof {
            lemma_gcd_divides(self.num as nat, d as nat);
            lemma_rat_reduce(rat_div(self@, n as int));
        }
        let rn = (self.num as u128) / g;
        let rd = d / g;
        if rn > u64::MAX as u128 || rd > u64::MAX as u128 {
            return None;
        }
        Some(Frac { num: rn as u64, den: rd as u64 })
    }
}

proof fn lemma_mul_pos(a: int, b: int)
    by (nonlinear_arith)
    requires
        a >= 1,
        b >= 1,
    ensures
        a * b >= 1,
{
}

/// Multiplying a nonnegative number by a positive one never shrinks it.
pub(crate) proof fn lemma_mul_ge(a: int, b: int)
    by (nonlinear_arith)
    requires
        a >= 0,
        b >= 1,
    ensures
        a * b >= a,
        a * b >= 0,
{
}

pub(crate) proof fn lemma_mul_nonneg(a: int, b: int)
    by (nonlinear_arith)
    requires
        a >= 0,
        b >= 0,
    ensures
        a * b >= 0,
{
}

/// Adding the same rational to both sides keeps their order.
pub proof fn lemma_rat_add_le_same(a: (int, int), b: (int, int), t: (int, int))
    by (nonlinear_arith)
    requires
        rat_wf(a),
        rat_wf(b),
        rat_wf(t),
        rat_le(a, b),
    ensures
        rat_le(rat_add(a, t), rat_add(b, t)),
{
}

/// Adding a smaller rational keeps the sum smaller.
pub proof fn lemma_rat_add_le_right(a: (int, int), t1: (int, int), t2: (int, int))
    by (nonlinear_arith)
    requires
        rat_wf(a),
        rat_wf(t1),
        rat_wf(t2),
        rat_le(t1, t2),
    ensures
        rat_le(rat_add(a, t1), rat_add(a, t2)),
{
}

/// The order on rationals is transitive.
pub proof fn lemma_rat_le_trans(a: (int, int), b: (int, int), c: (int, int))
    by (nonlinear_arith)
    requires
        rat_wf(a),
        rat_wf(b),
        rat_wf(c),
        rat_le(a, b),
        rat_le(b, c),
    ensures
        rat_le(a, c),
{
}

/// Dividing both sides by the same positive count keeps their order.
pub proof fn lemma_rat_div_le(a: (int, int), b: (int, int), k: int)
    by (nonlinear_arith)
    requires
        rat_wf(a),
        rat_wf(b),
        k >= 1,
        rat_le(a, b),
    ensures
        rat_le(rat_div(a, k), rat_div(b, k)),
{
}

/// Equality of rational values is transitive.
pub proof fn lemma_rat_eq_trans(a: (int, int), b: (int, int), c: (int, int))
    by (nonlinear_arith)
    requires
        rat_wf(a),
        rat_wf(b),
        rat_wf(c),
        rat_eq(a, b),
        rat_eq(b, c),
    ensures
        rat_eq(a, c),
{
}

/// Equal-valued rationals stay equal-valued when the same rational is added.
pub proof fn lemma_rat_add_congr(a: (int, int), b: (int, int), t: (int, int))
    by (nonlinear_arith)
    requires
        rat_wf(a),
        rat_wf(b),
        rat_wf(t),
        rat_eq(a, b),
    ensures
        rat_eq(rat_add(a, t), rat_add(b, t)),
{
}

/// Adding equal-valued rationals to the same rational gives equal values.
pub proof fn lemma_rat_add_congr_right(a: (int, int), t1: (int, int), t2: (int, int))
    by (nonlinear_arith)
    requires
        rat_wf(a),
        rat_wf(t1),
        rat_wf(t2),
        rat_eq(t1, t2),
    ensures
        rat_eq(rat_add(a, t1), rat_add(a, t2)),
{
}

/// Equal-valued rationals stay equal-valued under division by the same count.
pub proof fn lemma_rat_div_congr(a: (int, int), b: (int, int), k: int)
    by (nonlinear_arith)
    requires
        rat_wf(a),
        rat_wf(b),
        k >= 1,
        rat_eq(a, b),
    ensures
        rat_eq(rat_div(a, k), rat_div(b, k)),
{
}

/// Adding a well-formed rational never shrinks either component.
pub(crate) proof fn lemma_rat_add_grows(a: (int, int), b: (int, int))
    requires
        rat_wf(a),
        rat_wf(b),
    ensures
        rat_wf(rat_add(a, b)),
        rat_add(a, b).0 >= a.0,
        rat_add(a, b).1 >= a.1,
{
    lemma_mul_ge(a.0, b.1);
    lemma_mul_nonneg(b.0, a.1);
    lemma_mul_ge(a.1, b.1);
}

} // verus!
