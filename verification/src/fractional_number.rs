//! Exact rational numbers for production rates.
//!
//! The arithmetic itself is done by `num_rational::Rational64`; a
//! `FractionalNumber` holds the numerator and denominator of the reduced
//! fraction (positive denominator, lowest terms), exactly as `Rational64`
//! stores them.
use vstd::prelude::*;
use crate::rational::{gcd, iabs, normalized, qeq, qadd, qsub, qmul, qdiv, qlt, qzero, qone};
use num_rational::Rational64;

use crate::text::{i64_to_string, concat, int_to_decimal};

verus! {

/// Largest value of `i64`, as an integer.
pub open spec fn i64_max() -> int {
    0x7fff_ffff_ffff_ffff
}

/// Constructs the reduced form of `n/d` with `num_rational` (`Ratio::new`:
/// divide by the gcd, then make the denominator positive; that negation is
/// the one step that can leave `i64`, which `new_fits` rules out).
#[verifier::external_body]
fn ratio_new(n: i64, d: i64) -> (r: (i64, i64))
    requires
        new_fits(n as int, d as int),
    ensures
        normalized((r.0 as int, r.1 as int)),
        qeq((r.0 as int, r.1 as int), (n as int, d as int)),
{
    let x = Rational64::new(n, d);
    (*x.numer(), *x.denom())
}

/// `num_rational` addition of two reduced fractions.
#[verifier::external_body]
fn ratio_add(an: i64, ad: i64, bn: i64, bd: i64) -> (r: (i64, i64))
    requires
        normalized((an as int, ad as int)),
        normalized((bn as int, bd as int)),
        add_fits((an as int, ad as int), (bn as int, bd as int)),
    ensures
        normalized((r.0 as int, r.1 as int)),
        qeq((r.0 as int, r.1 as int), qadd((an as int, ad as int), (bn as int, bd as int))),
{
    let x = Rational64::new_raw(an, ad) + Rational64::new_raw(bn, bd);
    (*x.numer(), *x.denom())
}

/// `num_rational` subtraction of two reduced fractions.
#[verifier::external_body]
fn ratio_sub(an: i64, ad: i64, bn: i64, bd: i64) -> (r: (i64, i64))
    requires
        normalized((an as int, ad as int)),
        normalized((bn as int, bd as int)),
        sub_fits((an as int, ad as int), (bn as int, bd as int)),
    ensures
        normalized((r.0 as int, r.1 as int)),
        qeq((r.0 as int, r.1 as int), qsub((an as int, ad as int), (bn as int, bd as int))),
{
    let x = Rational64::new_raw(an, ad) - Rational64::new_raw(bn, bd);
    (*x.numer(), *x.denom())
}

/// `num_rational` multiplication of two reduced fractions.
#[verifier::external_body]
fn ratio_mul(an: i64, ad: i64, bn: i64, bd: i64) -> (r: (i64, i64))
    requires
        normalized((an as int, ad as int)),
        normalized((bn as int, bd as int)),
        mul_fits((an as int, ad as int), (bn as int, bd as int)),
    ensures
        normalized((r.0 as int, r.1 as int)),
        qeq((r.0 as int, r.1 as int), qmul((an as int, ad as int), (bn as int, bd as int))),
{
    let x = Rational64::new_raw(an, ad) * Rational64::new_raw(bn, bd);
    (*x.numer(), *x.denom())
}

/// `num_rational` division of two reduced fractions (non-zero divisor).
#[verifier::external_body]
fn ratio_div(an: i64, ad: i64, bn: i64, bd: i64) -> (r: (i64, i64))
    requires
        normalized((an as int, ad as int)),
        normalized((bn as int, bd as int)),
        div_fits((an as int, ad as int), (bn as int, bd as int)),
    ensures
        normalized((r.0 as int, r.1 as int)),
        qeq((r.0 as int, r.1 as int), qdiv((an as int, ad as int), (bn as int, bd as int))),
{
    let x = Rational64::new_raw(an, ad) / Rational64::new_raw(bn, bd);
    (*x.numer(), *x.denom())
}

/// A fraction in lowest terms with a positive denominator.
#[derive(Debug, Clone, Copy, PartialEq, Eq, Structural)]
pub struct FractionalNumber {
    pub(crate) num: i64,
    pub(crate) den: i64,
}

impl View for FractionalNumber {
    type V = (int, int);

    closed spec fn view(&self) -> (int, int) {
        (self.num as int, self.den as int)
    }
}

/// Text of a fraction: the numerator, then `/` and the denominator unless it is one.
pub open spec fn fraction_text(q: (int, int)) -> Seq<char> {
    if q.1 == 1 {
        int_to_decimal(q.0)
    } else {
        int_to_decimal(q.0) + seq!['/'] + int_to_decimal(q.1)
    }
}

/// Smallest value of `i64`, as an integer.
pub open spec fn i64_min() -> int {
    -0x8000_0000_0000_0000
}

/// `x` is a value of `i64`.
pub open spec fn fits64(x: int) -> bool {
    i64_min() <= x <= i64_max()
}

/// A value of magnitude `m`, negative where `neg`, is a value of `i64`.
pub open spec fn signed_fits(neg: bool, m: int) -> bool {
    if neg {
        m <= 0x8000_0000_0000_0000
    } else {
        m <= i64_max()
    }
}

/// `Ratio::new(n, d)` stays within `i64`: the denominator is not zero, and
/// where it is negative the reduced numerator and denominator can be negated
/// (a reduced `i64::MIN` cannot).
pub open spec fn new_fits(n: int, d: int) -> bool {
    &&& d != 0
    &&& !(d < 0 && n != 0 && n != d && ((n == i64_min() && d % 2 != 0) || (d == i64_min() && n % 2 != 0)))
}

/// The denominator over which `num_rational` adds or subtracts two fractions
/// with different denominators: their least common multiple.
pub open spec fn common_den(a: (int, int), b: (int, int)) -> int {
    a.1 * (b.1 / (gcd(a.1 as nat, b.1 as nat) as int))
}

/// `a + b` (or `a - b`, where `sub`) as `num_rational` computes it stays
/// within `i64`: over equal denominators the numerators are added at once;
/// otherwise the common denominator, each numerator scaled to it, and their
/// sum (or difference) must each be a value of `i64`.
pub open spec fn addsub_fits(a: (int, int), b: (int, int), sub: bool) -> bool {
    if a.1 == b.1 {
        fits64(if sub { a.0 - b.0 } else { a.0 + b.0 })
    } else {
        let l = common_den(a, b);
        let x = a.0 * (l / a.1);
        let y = b.0 * (l / b.1);
        &&& l <= i64_max()
        &&& fits64(x)
        &&& fits64(y)
        &&& fits64(if sub { x - y } else { x + y })
    }
}

/// `a + b` stays within `i64` in every step that `num_rational` takes.
pub open spec fn add_fits(a: (int, int), b: (int, int)) -> bool {
    addsub_fits(a, b, false)
}

/// `a - b` stays within `i64` in every step that `num_rational` takes.
pub open spec fn sub_fits(a: (int, int), b: (int, int)) -> bool {
    addsub_fits(a, b, true)
}

/// `a * b` stays within `i64` in every step that `num_rational` takes: each
/// numerator is first divided by its gcd with the other denominator, and the
/// products of what is left must be values of `i64`.
pub open spec fn mul_fits(a: (int, int), b: (int, int)) -> bool {
    let g1 = gcd(iabs(a.0), b.1 as nat) as int;
    let g2 = gcd(a.1 as nat, iabs(b.0)) as int;
    &&& signed_fits((a.0 < 0) != (b.0 < 0), ((iabs(a.0) as int) / g1) * ((iabs(b.0) as int) / g2))
    &&& (a.1 / g2) * (b.1 / g1) <= i64_max()
}

/// `a / b` is defined and stays within `i64` in every step that
/// `num_rational` takes: the numerators are divided by their gcd (which
/// cannot be taken of `i64::MIN` with itself or with zero), so are the
/// denominators, the cross products must be values of `i64`, and where the
/// divisor is negative both can be negated.
pub open spec fn div_fits(a: (int, int), b: (int, int)) -> bool {
    let g1 = gcd(iabs(a.0), iabs(b.0)) as int;
    let g2 = gcd(a.1 as nat, b.1 as nat) as int;
    let xm = ((iabs(a.0) as int) / g1) * (b.1 / g2);
    let ym = (a.1 / g2) * ((iabs(b.0) as int) / g1);
    &&& b.0 != 0
    &&& !(iabs(b.0) == 0x8000_0000_0000_0000 && (a.0 == 0 || iabs(a.0) == 0x8000_0000_0000_0000))
    &&& signed_fits(a.0 < 0, xm)
    &&& signed_fits(b.0 < 0, ym)
    &&& (b.0 < 0 && a.0 != 0 && !(a.0 < 0 && xm == ym) ==> xm <= i64_max() && ym <= i64_max())
}

/// Multiplying by one always fits.
pub proof fn lemma_mul_one_fits(x: FractionalNumber)
    requires
        x@.1 > 0,
    ensures
        mul_fits(x@, qone()),
{
    let q = x@;
    assert(gcd(iabs(q.0), 1) == 1) by {
        reveal_with_fuel(gcd, 2);
    }
    assert(gcd(q.1 as nat, 1) == 1) by {
        reveal_with_fuel(gcd, 2);
    }
    let a = iabs(q.0) as int;
    assert(a / 1 == a && q.1 / 1 == q.1 && 1int / 1 == 1);
    assert(a * 1 == a && q.1 * 1 == q.1);
    assert(iabs(1) == 1);
}

/// The greatest common divisor, as `gcd` states it.
fn gcd_u128(a: u128, b: u128) -> (r: u128)
    ensures
        r == gcd(a as nat, b as nat),
    decreases b,
{
    if b == 0 {
        a
    } else {
        gcd_u128(b, a % b)
    }
}

/// The gcd of two numbers, not both zero, is positive.
proof fn lemma_gcd_pos(a: nat, b: nat)
    requires
        a > 0 || b > 0,
    ensures
        gcd(a, b) > 0,
    decreases b,
{
    if b > 0 {
        lemma_gcd_pos(b, a % b);
    }
}

/// Dividing by a positive number makes nothing larger.
proof fn lemma_div_le(x: nat, g: nat)
    requires
        g > 0,
    ensures
        x / g <= x,
{
    assert(x / g <= x) by (nonlinear_arith)
        requires
            g > 0,
    ;
}

/// The magnitude of an `i64`, as a `u128`.
fn mag(x: i64) -> (r: u128)
    ensures
        r == iabs(x as int),
        r <= 0x8000_0000_0000_0000,
{
    if x < 0 {
        (-(x as i128)) as u128
    } else {
        x as u128
    }
}

/// Whether an `i128` is a value of `i64`.
fn in_i64(x: i128) -> (r: bool)
    ensures
        r == fits64(x as int),
{
    -0x8000_0000_0000_0000 <= x && x <= 0x7fff_ffff_ffff_ffff
}

/// Whether `a + b` (or `a - b`, where `sub`) fits, as `addsub_fits` states it.
fn addsub_check(an: i64, ad: i64, bn: i64, bd: i64, sub: bool) -> (r: bool)
    requires
        ad > 0,
        bd > 0,
    ensures
        r == addsub_fits((an as int, ad as int), (bn as int, bd as int), sub),
{
    if ad == bd {
        let s: i128 = if sub { an as i128 - bn as i128 } else { an as i128 + bn as i128 };
        return in_i64(s);
    }
    let g = gcd_u128(ad as u128, bd as u128);
    proof {
        lemma_gcd_pos(ad as nat, bd as nat);
        lemma_div_le(bd as nat, g as nat);
    }
    let q: u128 = (bd as u128) / g;
    assert((ad as u128) * q <= 0x8000_0000_0000_0000 * 0x8000_0000_0000_0000) by (nonlinear_arith)
        requires
            ad <= 0x8000_0000_0000_0000,
            q <= 0x8000_0000_0000_0000,
            ad > 0,
    ;
    let l: u128 = (ad as u128) * q;
    if l > 0x7fff_ffff_ffff_ffff {
        return false;
    }
    proof {
        lemma_div_le(l as nat, ad as nat);
        lemma_div_le(l as nat, bd as nat);
    }
    let la: i128 = (l / (ad as u128)) as i128;
    let lb: i128 = (l / (bd as u128)) as i128;
    assert(-0x4000_0000_0000_0000_0000_0000_0000_0000 <= (an as i128) * la <= 0x4000_0000_0000_0000_0000_0000_0000_0000)
        by (nonlinear_arith)
        requires
            -0x8000_0000_0000_0000 <= an <= 0x8000_0000_0000_0000,
            0 <= la <= 0x8000_0000_0000_0000,
    ;
    assert(-0x4000_0000_0000_0000_0000_0000_0000_0000 <= (bn as i128) * lb <= 0x4000_0000_0000_0000_0000_0000_0000_0000)
        by (nonlinear_arith)
        requires
            -0x8000_0000_0000_0000 <= bn <= 0x8000_0000_0000_0000,
            0 <= lb <= 0x8000_0000_0000_0000,
    ;
    let x: i128 = (an as i128) * la;
    let y: i128 = (bn as i128) * lb;
    if !in_i64(x) || !in_i64(y) {
        return false;
    }
    let s: i128 = if sub { x - y } else { x + y };
    in_i64(s)
}

/// Whether `a * b` fits, as `mul_fits` states it.
fn mul_check(an: i64, ad: i64, bn: i64, bd: i64) -> (r: bool)
    requires
        ad > 0,
        bd > 0,
    ensures
        r == mul_fits((an as int, ad as int), (bn as int, bd as int)),
{
    let am = mag(an);
    let bm = mag(bn);
    let g1 = gcd_u128(am, bd as u128);
    let g2 = gcd_u128(ad as u128, bm);
    proof {
        lemma_gcd_pos(am as nat, bd as nat);
        lemma_gcd_pos(ad as nat, bm as nat);
        lemma_div_le(am as nat, g1 as nat);
        lemma_div_le(bm as nat, g2 as nat);
        lemma_div_le(ad as nat, g2 as nat);
        lemma_div_le(bd as nat, g1 as nat);
    }
    let p1 = am / g1;
    let p2 = bm / g2;
    let q1 = (ad as u128) / g2;
    let q2 = (bd as u128) / g1;
    assert(p1 * p2 <= 0x8000_0000_0000_0000 * 0x8000_0000_0000_0000) by (nonlinear_arith)
        requires
            p1 <= 0x8000_0000_0000_0000,
            p2 <= 0x8000_0000_0000_0000,
    ;
    assert(q1 * q2 <= 0x8000_0000_0000_0000 * 0x8000_0000_0000_0000) by (nonlinear_arith)
        requires
            q1 <= 0x8000_0000_0000_0000,
            q2 <= 0x8000_0000_0000_0000,
    ;
    let xm = p1 * p2;
    let ym = q1 * q2;
    let neg = (an < 0) != (bn < 0);
    let xok = if neg { xm <= 0x8000_0000_0000_0000 } else { xm <= 0x7fff_ffff_ffff_ffff };
    xok && ym <= 0x7fff_ffff_ffff_ffff
}

/// Whether `a / b` is defined and fits, as `div_fits` states it.
fn div_check(an: i64, ad: i64, bn: i64, bd: i64) -> (r: bool)
    requires
        ad > 0,
        bd > 0,
    ensures
        r == div_fits((an as int, ad as int), (bn as int, bd as int)),
{
    if bn == 0 {
        return false;
    }
    let am = mag(an);
    let bm = mag(bn);
    if bm == 0x8000_0000_0000_0000 && (am == 0 || am == 0x8000_0000_0000_0000) {
        return false;
    }
    let g1 = gcd_u128(am, bm);
    let g2 = gcd_u128(ad as u128, bd as u128);
    proof {
        lemma_gcd_pos(am as nat, bm as nat);
        lemma_gcd_pos(ad as nat, bd as nat);
        lemma_div_le(am as nat, g1 as nat);
        lemma_div_le(bm as nat, g1 as nat);
        lemma_div_le(ad as nat, g2 as nat);
        lemma_div_le(bd as nat, g2 as nat);
    }
    let p1 = am / g1;
    let p2 = (bd as u128) / g2;
    let q1 = (ad as u128) / g2;
    let q2 = bm / g1;
    assert(p1 * p2 <= 0x8000_0000_0000_0000 * 0x8000_0000_0000_0000) by (nonlinear_arith)
        requires
            p1 <= 0x8000_0000_0000_0000,
            p2 <= 0x8000_0000_0000_0000,
    ;
    assert(q1 * q2 <= 0x8000_0000_0000_0000 * 0x8000_0000_0000_0000) by (nonlinear_arith)
        requires
            q1 <= 0x8000_0000_0000_0000,
            q2 <= 0x8000_0000_0000_0000,
    ;
    let xm = p1 * p2;
    let ym = q1 * q2;
    let xok = if an < 0 { xm <= 0x8000_0000_0000_0000 } else { xm <= 0x7fff_ffff_ffff_ffff };
    let yok = if bn < 0 { ym <= 0x8000_0000_0000_0000 } else { ym <= 0x7fff_ffff_ffff_ffff };
    if !xok || !yok {
        return false;
    }
    if bn < 0 && an != 0 && !(an < 0 && xm == ym) {
        return xm <= 0x7fff_ffff_ffff_ffff && ym <= 0x7fff_ffff_ffff_ffff;
    }
    true
}

fn mul128(a: i128, b: i128) -> (r: i128)
    requires
        -0x8000_0000_0000_0000 <= a <= 0x8000_0000_0000_0000,
        -0x8000_0000_0000_0000 <= b <= 0x8000_0000_0000_0000,
    ensures
        r == a * b,
        -0x4000_0000_0000_0000_0000_0000_0000_0000 <= r <= 0x4000_0000_0000_0000_0000_0000_0000_0000,
{
    assert(-0x4000_0000_0000_0000_0000_0000_0000_0000 <= a * b <= 0x4000_0000_0000_0000_0000_0000_0000_0000)
        by (nonlinear_arith)
        requires
            -0x8000_0000_0000_0000 <= a <= 0x8000_0000_0000_0000,
            -0x8000_0000_0000_0000 <= b <= 0x8000_0000_0000_0000,
    ;
    a * b
}

fn abs128(x: i128) -> (r: i128)
    requires
        x > i128::MIN,
    ensures
        r == iabs(x as int),
{
    if x < 0 {
        -x
    } else {
        x
    }
}

impl FractionalNumber {
    #[verifier::type_invariant]
    pub(crate) open spec fn inv(self) -> bool {
        normalized(self@)
    }

    /// The reduced fraction `numerator/denominator` (see `new_fits` for the
    /// one case with a negative denominator that `i64` cannot hold).
    pub fn new(numerator: i64, denominator: i64) -> (r: Self)
        requires
            new_fits(numerator as int, denominator as int),
        ensures
            qeq(r@, (numerator as int, denominator as int)),
    {
        let (n, d) = ratio_new(numerator, denominator);
        FractionalNumber { num: n, den: d }
    }

    /// The integer `n` as a fraction `n/1`.
    pub fn from_integer(n: i64) -> (r: Self)
        ensures
            r@ == (n as int, 1int),
    {
        assert(gcd(iabs(n as int), 1) == 1) by {
            reveal_with_fuel(gcd, 3);
        }
        FractionalNumber { num: n, den: 1 }
    }

    /// Zero.
    pub fn zero() -> (r: Self)
        ensures
            r@ == qzero(),
    {
        Self::from_integer(0)
    }

    /// One.
    pub fn one() -> (r: Self)
        ensures
            r@ == qone(),
    {
        Self::from_integer(1)
    }

    pub fn numerator(&self) -> (r: i64)
        ensures
            r == self@.0,
    {
        self.num
    }

    pub fn denominator(&self) -> (r: i64)
        ensures
            r == self@.1,
            r > 0,
    {
        proof {
            use_type_invariant(self);
        }
        self.den
    }

    pub fn is_zero(&self) -> (r: bool)
        ensures
            r == (self@.0 == 0),
    {
        self.num == 0
    }

    pub fn is_negative(&self) -> (r: bool)
        ensures
            r == (self@.0 < 0),
    {
        self.num < 0
    }

    /// Absolute value.
    pub fn abs(&self) -> (r: Self)
        requires
            self@.0 != i64::MIN,
        ensures
            r@ == (iabs(self@.0) as int, self@.1),
    {
        proof {
            use_type_invariant(self);
        }
        if self.num < 0 {
            FractionalNumber { num: -self.num, den: self.den }
        } else {
            *self
        }
    }

    /// Whether `self + other` stays within `i64` in every step.
    pub fn fits_add(&self, other: &Self) -> (r: bool)
        ensures
            r == add_fits(self@, other@),
    {
        proof {
            use_type_invariant(self);
            use_type_invariant(other);
        }
        addsub_check(self.num, self.den, other.num, other.den, false)
    }

    /// Whether `self - other` stays within `i64` in every step.
    pub fn fits_sub(&self, other: &Self) -> (r: bool)
        ensures
            r == sub_fits(self@, other@),
    {
        proof {
            use_type_invariant(self);
            use_type_invariant(other);
        }
        addsub_check(self.num, self.den, other.num, other.den, true)
    }

    /// Whether `self * other` stays within `i64` in every step.
    pub fn fits_mul(&self, other: &Self) -> (r: bool)
        ensures
            r == mul_fits(self@, other@),
    {
        proof {
            use_type_invariant(self);
            use_type_invariant(other);
        }
        mul_check(self.num, self.den, other.num, other.den)
    }

    /// Whether `self / other` is defined and stays within `i64` in every step.
    pub fn fits_div(&self, other: &Self) -> (r: bool)
        ensures
            r == div_fits(self@, other@),
    {
        proof {
            use_type_invariant(self);
            use_type_invariant(other);
        }
        div_check(self.num, self.den, other.num, other.den)
    }

    /// Sum.
    pub fn add(self, rhs: Self) -> (r: Self)
        requires
            add_fits(self@, rhs@),
        ensures
            qeq(r@, qadd(self@, rhs@)),
    {
        proof {
            use_type_invariant(self);
            use_type_invariant(rhs);
        }
        let (n, d) = ratio_add(self.num, self.den, rhs.num, rhs.den);
        FractionalNumber { num: n, den: d }
    }

    /// Difference.
    pub fn sub(self, rhs: Self) -> (r: Self)
        requires
            sub_fits(self@, rhs@),
        ensures
            qeq(r@, qsub(self@, rhs@)),
    {
        proof {
            use_type_invariant(self);
            use_type_invariant(rhs);
        }
        let (n, d) = ratio_sub(self.num, self.den, rhs.num, rhs.den);
        FractionalNumber { num: n, den: d }
    }

    /// Product.
    pub fn mul(self, rhs: Self) -> (r: Self)
        requires
            mul_fits(self@, rhs@),
        ensures
            qeq(r@, qmul(self@, rhs@)),
    {
        proof {
            use_type_invariant(self);
            use_type_invariant(rhs);
        }
        let (n, d) = ratio_mul(self.num, self.den, rhs.num, rhs.den);
        FractionalNumber { num: n, den: d }
    }

    /// Quotient (non-zero divisor).
    pub fn div(self, rhs: Self) -> (r: Self)
        requires
            div_fits(self@, rhs@),
        ensures
            qeq(r@, qdiv(self@, rhs@)),
    {
        proof {
            use_type_invariant(self);
            use_type_invariant(rhs);
        }
        let (n, d) = ratio_div(self.num, self.den, rhs.num, rhs.den);
        FractionalNumber { num: n, den: d }
    }

    /// Sum, or `None` where `i64` would overflow.
    pub fn checked_add(self, rhs: Self) -> (r: Option<Self>)
        ensures
            r is Some <==> add_fits(self@, rhs@),
            r matches Some(v) ==> qeq(v@, qadd(self@, rhs@)),
    {
        if self.fits_add(&rhs) {
            Some(self.add(rhs))
        } else {
            None
        }
    }

    /// Difference, or `None` where `i64` would overflow.
    pub fn checked_sub(self, rhs: Self) -> (r: Option<Self>)
        ensures
            r is Some <==> sub_fits(self@, rhs@),
            r matches Some(v) ==> qeq(v@, qsub(self@, rhs@)),
    {
        if self.fits_sub(&rhs) {
            Some(self.sub(rhs))
        } else {
            None
        }
    }

    /// Product, or `None` where `i64` would overflow.
    pub fn checked_mul(self, rhs: Self) -> (r: Option<Self>)
        ensures
            r is Some <==> mul_fits(self@, rhs@),
            r matches Some(v) ==> qeq(v@, qmul(self@, rhs@)),
    {
        if self.fits_mul(&rhs) {
            Some(self.mul(rhs))
        } else {
            None
        }
    }

    /// Quotient, or `None` for a zero divisor or where `i64` would overflow.
    pub fn checked_div(self, rhs: Self) -> (r: Option<Self>)
        ensures
            r is Some <==> div_fits(self@, rhs@),
            r matches Some(v) ==> qeq(v@, qdiv(self@, rhs@)),
    {
        if self.fits_div(&rhs) {
            Some(self.div(rhs))
        } else {
            None
        }
    }

    /// The fraction as text: `"n"` for a whole number, else `"n/d"`.
    pub fn to_fraction_string(&self) -> (r: String)
        ensures
            r@ == fraction_text(self@),
    {
        if self.den == 1 {
            i64_to_string(self.num)
        } else {
            let s = concat(i64_to_string(self.num), "/");
            let d = i64_to_string(self.den);
            proof {
                reveal_strlit("/");
            }
            concat(s, d.as_str())
        }
    }

    /// Value comparison `self < other`.
    pub fn lt(&self, other: &Self) -> (r: bool)
        ensures
            r == qlt(self@, other@),
    {
        let a = mul128(self.num as i128, other.den as i128);
        let b = mul128(other.num as i128, self.den as i128);
        a < b
    }

    /// Whether `|self| > |other|` (values).
    pub fn abs_gt(&self, other: &Self) -> (r: bool)
        ensures
            r == (iabs(self@.0) * other@.1 > iabs(other@.0) * self@.1),
    {
        proof {
            use_type_invariant(self);
            use_type_invariant(other);
        }
        let a = mul128(abs128(self.num as i128), other.den as i128);
        let b = mul128(abs128(other.num as i128), self.den as i128);
        a > b
    }

    /// Value equality (the same as `==` for reduced fractions).
    pub fn value_eq(&self, other: &Self) -> (r: bool)
        ensures
            r == qeq(self@, other@),
    {
        let a = mul128(self.num as i128, other.den as i128);
        let b = mul128(other.num as i128, self.den as i128);
        a == b
    }
}

/// Two fractions with the same numerator and denominator are the same.
pub proof fn lemma_view_injective(a: FractionalNumber, b: FractionalNumber)
    ensures
        a@ == b@ ==> a == b,
{
}

impl Default for FractionalNumber {
    fn default() -> (r: Self)
        ensures
            r@ == qzero(),
    {
        Self::zero()
    }
}

} // verus!
