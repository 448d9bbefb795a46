//! Mathematical model of rational numbers used by the contracts: a rational
//! value is a pair `(numerator, denominator)` of integers, compared by
//! cross-multiplication.
use vstd::prelude::*;

verus! {

/// Greatest common divisor (Euclid).
pub open spec fn gcd(a: nat, b: nat) -> nat
    decreases b,
{
    if b == 0 {
        a
    } else {
        gcd(b, a % b)
    }
}

/// Absolute value of an integer.
pub open spec fn iabs(x: int) -> nat {
    if x < 0 {
        (-x) as nat
    } else {
        x as nat
    }
}

/// A pair is in lowest terms with a positive denominator.
pub open spec fn normalized(q: (int, int)) -> bool {
    q.1 > 0 && gcd(iabs(q.0), q.1 as nat) == 1
}

/// Two pairs denote the same rational value (denominators non-zero).
pub open spec fn qeq(a: (int, int), b: (int, int)) -> bool {
    a.0 * b.1 == b.0 * a.1
}

pub open spec fn qadd(a: (int, int), b: (int, int)) -> (int, int) {
    (a.0 * b.1 + b.0 * a.1, a.1 * b.1)
}

pub open spec fn qneg(a: (int, int)) -> (int, int) {
    (-a.0, a.1)
}

pub open spec fn qsub(a: (int, int), b: (int, int)) -> (int, int) {
    (a.0 * b.1 - b.0 * a.1, a.1 * b.1)
}

pub open spec fn qmul(a: (int, int), b: (int, int)) -> (int, int) {
    (a.0 * b.0, a.1 * b.1)
}

/// Quotient; the denominator keeps the sign of the dividend's denominator.
pub open spec fn qdiv(a: (int, int), b: (int, int)) -> (int, int) {
    if b.0 < 0 {
        (-(a.0 * b.1), a.1 * (-b.0))
    } else {
        (a.0 * b.1, a.1 * b.0)
    }
}

/// Strict order of values (denominators positive).
pub open spec fn qlt(a: (int, int), b: (int, int)) -> bool {
    a.0 * b.1 < b.0 * a.1
}

pub open spec fn qzero() -> (int, int) {
    (0, 1)
}

pub open spec fn qone() -> (int, int) {
    (1, 1)
}

/// A well-formed value: non-zero (positive) denominator.
pub open spec fn qwf(a: (int, int)) -> bool {
    a.1 > 0
}

pub proof fn lemma_qeq_refl(a: (int, int))
    ensures
        qeq(a, a),
{
}

pub proof fn lemma_qeq_sym(a: (int, int), b: (int, int))
    requires
        qeq(a, b),
    ensures
        qeq(b, a),
{
}

pub proof fn lemma_qeq_trans(a: (int, int), b: (int, int), c: (int, int))
    requires
        qwf(b),
        qeq(a, b),
        qeq(b, c),
    ensures
        qeq(a, c),
{
    assert(a.0 * b.1 * c.1 == b.0 * a.1 * c.1) by (nonlinear_arith)
        requires
            a.0 * b.1 == b.0 * a.1,
    ;
    assert(b.0 * c.1 * a.1 == c.0 * b.1 * a.1) by (nonlinear_arith)
        requires
            b.0 * c.1 == c.0 * b.1,
    ;
    assert((a.0 * c.1) * b.1 == (c.0 * a.1) * b.1) by (nonlinear_arith)
        requires
            a.0 * b.1 * c.1 == b.0 * a.1 * c.1,
            b.0 * c.1 * a.1 == c.0 * b.1 * a.1,
    ;
    assert(a.0 * c.1 == c.0 * a.1) by (nonlinear_arith)
        requires
            (a.0 * c.1) * b.1 == (c.0 * a.1) * b.1,
            b.1 > 0,
    ;
}

pub proof fn lemma_qadd_cong(a: (int, int), a2: (int, int), b: (int, int), b2: (int, int))
    requires
        qwf(a),
        qwf(a2),
        qwf(b),
        qwf(b2),
        qeq(a, a2),
        qeq(b, b2),
    ensures
        qeq(qadd(a, b), qadd(a2, b2)),
        qwf(qadd(a, b)),
{
    let (a0, a1, c0, c1, b0, b1, d0, d1) = (a.0, a.1, a2.0, a2.1, b.0, b.1, b2.0, b2.1);
    assert(a0 * c1 * (b1 * d1) == c0 * a1 * (b1 * d1)) by (nonlinear_arith)
        requires
            a0 * c1 == c0 * a1,
    ;
    assert(b0 * d1 * (a1 * c1) == d0 * b1 * (a1 * c1)) by (nonlinear_arith)
        requires
            b0 * d1 == d0 * b1,
    ;
    assert((a0 * b1 + b0 * a1) * (c1 * d1) == a0 * c1 * (b1 * d1) + b0 * d1 * (a1 * c1)) by {
        broadcast use vstd::arithmetic::mul::group_mul_properties;
    }
    assert((c0 * d1 + d0 * c1) * (a1 * b1) == c0 * a1 * (b1 * d1) + d0 * b1 * (a1 * c1)) by {
        broadcast use vstd::arithmetic::mul::group_mul_properties;
    }
    assert(a1 * b1 > 0) by (nonlinear_arith)
        requires
            a1 > 0,
            b1 > 0,
    ;
}


pub proof fn lemma_qsub_cong(a: (int, int), a2: (int, int), b: (int, int), b2: (int, int))
    requires
        qwf(a),
        qwf(a2),
        qwf(b),
        qwf(b2),
        qeq(a, a2),
        qeq(b, b2),
    ensures
        qeq(qsub(a, b), qsub(a2, b2)),
        qwf(qsub(a, b)),
{
    let (a0, a1, c0, c1, b0, b1, d0, d1) = (a.0, a.1, a2.0, a2.1, b.0, b.1, b2.0, b2.1);
    assert(a0 * c1 * (b1 * d1) == c0 * a1 * (b1 * d1)) by (nonlinear_arith)
        requires
            a0 * c1 == c0 * a1,
    ;
    assert(b0 * d1 * (a1 * c1) == d0 * b1 * (a1 * c1)) by (nonlinear_arith)
        requires
            b0 * d1 == d0 * b1,
    ;
    assert((a0 * b1 - b0 * a1) * (c1 * d1) == a0 * c1 * (b1 * d1) - b0 * d1 * (a1 * c1)) by {
        broadcast use vstd::arithmetic::mul::group_mul_properties;
    }
    assert((c0 * d1 - d0 * c1) * (a1 * b1) == c0 * a1 * (b1 * d1) - d0 * b1 * (a1 * c1)) by {
        broadcast use vstd::arithmetic::mul::group_mul_properties;
    }
    assert(a1 * b1 > 0) by (nonlinear_arith)
        requires
            a1 > 0,
            b1 > 0,
    ;
}

pub proof fn lemma_qmul_cong(a: (int, int), a2: (int, int), b: (int, int), b2: (int, int))
    requires
        qwf(a),
        qwf(a2),
        qwf(b),
        qwf(b2),
        qeq(a, a2),
        qeq(b, b2),
    ensures
        qeq(qmul(a, b), qmul(a2, b2)),
        qwf(qmul(a, b)),
{
    let (a0, a1, c0, c1, b0, b1, d0, d1) = (a.0, a.1, a2.0, a2.1, b.0, b.1, b2.0, b2.1);
    assert((a0 * c1) * (b0 * d1) == (c0 * a1) * (d0 * b1)) by (nonlinear_arith)
        requires
            a0 * c1 == c0 * a1,
            b0 * d1 == d0 * b1,
    ;
    assert((a0 * b0) * (c1 * d1) == (a0 * c1) * (b0 * d1)) by {
        broadcast use vstd::arithmetic::mul::group_mul_properties;
    }
    assert((c0 * d0) * (a1 * b1) == (c0 * a1) * (d0 * b1)) by {
        broadcast use vstd::arithmetic::mul::group_mul_properties;
    }
    assert(a1 * b1 > 0) by (nonlinear_arith)
        requires
            a1 > 0,
            b1 > 0,
    ;
}

pub proof fn lemma_qwf_ops(a: (int, int), b: (int, int))
    requires
        qwf(a),
        qwf(b),
    ensures
        qwf(qadd(a, b)),
        qwf(qsub(a, b)),
        qwf(qmul(a, b)),
{
    assert(a.1 * b.1 > 0) by (nonlinear_arith)
        requires
            a.1 > 0,
            b.1 > 0,
    ;
}

pub proof fn lemma_distr_sub(r: (int, int), p: (int, int), x: (int, int))
    requires
        qwf(r),
        qwf(p),
        qwf(x),
    ensures
        qeq(qmul(qsub(r, p), x), qsub(qmul(r, x), qmul(p, x))),
{
    let l = qmul(qsub(r, p), x);
    let rr = qsub(qmul(r, x), qmul(p, x));
    assert(l.0 * rr.1 == rr.0 * l.1) by {
        broadcast use vstd::arithmetic::mul::group_mul_properties;
    }
}

pub proof fn lemma_mul_assoc(f: (int, int), h: (int, int), x: (int, int))
    ensures
        qeq(qmul(qmul(f, h), x), qmul(f, qmul(h, x))),
{
    let l = qmul(qmul(f, h), x);
    let rr = qmul(f, qmul(h, x));
    assert(l.0 * rr.1 == rr.0 * l.1) by {
        broadcast use vstd::arithmetic::mul::group_mul_properties;
    }
}

pub proof fn lemma_sub_add_swap(p: (int, int), q: (int, int), s: (int, int), t: (int, int))
    requires
        qwf(p),
        qwf(q),
        qwf(s),
        qwf(t),
    ensures
        qeq(qadd(qsub(p, q), qsub(s, t)), qsub(qadd(p, s), qadd(q, t))),
{
    let (p0, p1, q0, q1, s0, s1, t0, t1) = (p.0, p.1, q.0, q.1, s.0, s.1, t.0, t.1);
    assert((p0 * q1 - q0 * p1) * (s1 * t1) + (s0 * t1 - t0 * s1) * (p1 * q1) == (p0 * s1 + s0
        * p1) * (q1 * t1) - (q0 * t1 + t0 * q1) * (p1 * s1)) by {
        broadcast use vstd::arithmetic::mul::group_mul_properties;
    }
    assert((p1 * q1) * (s1 * t1) == (p1 * s1) * (q1 * t1)) by {
        broadcast use vstd::arithmetic::mul::group_mul_properties;
    }
}

pub proof fn lemma_distr_add(f: (int, int), b: (int, int), y: (int, int))
    requires
        qwf(f),
        qwf(b),
        qwf(y),
    ensures
        qeq(qadd(qmul(f, b), qmul(f, y)), qmul(f, qadd(b, y))),
{
    let l = qadd(qmul(f, b), qmul(f, y));
    let rr = qmul(f, qadd(b, y));
    assert(l.0 * rr.1 == rr.0 * l.1) by {
        broadcast use vstd::arithmetic::mul::group_mul_properties;
    }
}

/// Distributing a scaled difference over a sum:
/// (A - F*B) + (R - F*H)*X  ==  (A + R*X) - F*(B + H*X).
pub proof fn lemma_lin_step(
    a: (int, int),
    b: (int, int),
    r: (int, int),
    h: (int, int),
    f: (int, int),
    x: (int, int),
)
    requires
        qwf(a),
        qwf(b),
        qwf(r),
        qwf(h),
        qwf(f),
        qwf(x),
    ensures
        qeq(
            qadd(qsub(a, qmul(f, b)), qmul(qsub(r, qmul(f, h)), x)),
            qsub(qadd(a, qmul(r, x)), qmul(f, qadd(b, qmul(h, x)))),
        ),
{
    let fb = qmul(f, b);
    let fh = qmul(f, h);
    let rx = qmul(r, x);
    let hx = qmul(h, x);
    let fhx1 = qmul(fh, x);
    let fhx2 = qmul(f, hx);
    lemma_qwf_ops(f, b);
    lemma_qwf_ops(f, h);
    lemma_qwf_ops(r, x);
    lemma_qwf_ops(h, x);
    lemma_qwf_ops(fh, x);
    lemma_qwf_ops(f, hx);
    lemma_qwf_ops(a, fb);
    lemma_qwf_ops(r, fh);
    lemma_qwf_ops(rx, fhx1);
    lemma_qwf_ops(rx, fhx2);
    lemma_qwf_ops(a, rx);
    lemma_qwf_ops(fb, fhx2);
    lemma_qwf_ops(b, hx);
    lemma_qwf_ops(f, qadd(b, hx));
    lemma_qwf_ops(qsub(r, fh), x);
    // S1..S3: (R - F*H)*X == R*X - F*(H*X)
    lemma_distr_sub(r, fh, x);
    lemma_mul_assoc(f, h, x);
    lemma_qeq_refl(rx);
    lemma_qsub_cong(rx, rx, fhx1, fhx2);
    lemma_qeq_trans(qmul(qsub(r, fh), x), qsub(rx, fhx1), qsub(rx, fhx2));
    // S4: (A - FB) + (RX - F(HX)) == (A + RX) - (FB + F(HX))
    let am = qsub(a, fb);
    lemma_qeq_refl(am);
    lemma_qadd_cong(am, am, qmul(qsub(r, fh), x), qsub(rx, fhx2));
    lemma_qwf_ops(am, qsub(rx, fhx2));
    lemma_sub_add_swap(a, fb, rx, fhx2);
    lemma_qeq_trans(
        qadd(am, qmul(qsub(r, fh), x)),
        qadd(am, qsub(rx, fhx2)),
        qsub(qadd(a, rx), qadd(fb, fhx2)),
    );
    // S5: FB + F(HX) == F(B + HX)
    lemma_distr_add(f, b, hx);
    let arx = qadd(a, rx);
    lemma_qeq_refl(arx);
    lemma_qwf_ops(arx, qadd(fb, fhx2));
    lemma_qsub_cong(arx, arx, qadd(fb, fhx2), qmul(f, qadd(b, hx)));
    lemma_qeq_trans(
        qadd(am, qmul(qsub(r, fh), x)),
        qsub(arx, qadd(fb, fhx2)),
        qsub(arx, qmul(f, qadd(b, hx))),
    );
}

/// If A - C == B - D and C == D then A == B.
pub proof fn lemma_cancel_sub(a: (int, int), b: (int, int), c: (int, int), d: (int, int))
    requires
        qwf(a),
        qwf(b),
        qwf(c),
        qwf(d),
        qeq(qsub(a, c), qsub(b, d)),
        qeq(c, d),
    ensures
        qeq(a, b),
{
    let (a0, a1, b0, b1, c0, c1, d0, d1) = (a.0, a.1, b.0, b.1, c.0, c.1, d.0, d.1);
    assert((a0 * c1 - c0 * a1) * (b1 * d1) == (a0 * b1) * (c1 * d1) - (c0 * d1) * (a1 * b1)) by {
        broadcast use vstd::arithmetic::mul::group_mul_properties;
    }
    assert((b0 * d1 - d0 * b1) * (a1 * c1) == (b0 * a1) * (c1 * d1) - (d0 * c1) * (a1 * b1)) by {
        broadcast use vstd::arithmetic::mul::group_mul_properties;
    }
    assert((c0 * d1) * (a1 * b1) == (d0 * c1) * (a1 * b1)) by (nonlinear_arith)
        requires
            c0 * d1 == d0 * c1,
    ;
    assert((a0 * b1) * (c1 * d1) == (b0 * a1) * (c1 * d1));
    assert(c1 * d1 > 0) by (nonlinear_arith)
        requires
            c1 > 0,
            d1 > 0,
    ;
    assert(a0 * b1 == b0 * a1) by (nonlinear_arith)
        requires
            (a0 * b1) * (c1 * d1) == (b0 * a1) * (c1 * d1),
            c1 * d1 > 0,
    ;
}


pub proof fn lemma_qdiv_wf(a: (int, int), b: (int, int))
    requires
        qwf(a),
        b.0 != 0,
    ensures
        qwf(qdiv(a, b)),
{
    if b.0 < 0 {
        assert(a.1 * (-b.0) > 0) by (nonlinear_arith)
            requires
                a.1 > 0,
                b.0 < 0,
        ;
    } else {
        assert(a.1 * b.0 > 0) by (nonlinear_arith)
            requires
                a.1 > 0,
                b.0 > 0,
        ;
    }
}

/// `(a / b) * b == a`.
pub proof fn lemma_div_mul_cancel(a: (int, int), b: (int, int))
    requires
        qwf(a),
        qwf(b),
        b.0 != 0,
    ensures
        qeq(qmul(qdiv(a, b), b), a),
        qeq(qmul(b, qdiv(a, b)), a),
{
    let (a0, a1, b0, b1) = (a.0, a.1, b.0, b.1);
    let q = qdiv(a, b);
    if b0 < 0 {
        let nb = -b0;
        assert(q == (-(a0 * b1), a1 * nb));
        assert((-(a0 * b1)) * b0 * a1 == a0 * (a1 * nb * b1)) by (nonlinear_arith)
            requires
                nb == -b0,
        ;
        assert(b0 * (-(a0 * b1)) * a1 == a0 * (b1 * (a1 * nb))) by (nonlinear_arith)
            requires
                nb == -b0,
        ;
    } else {
        assert(q == (a0 * b1, a1 * b0));
        assert((a0 * b1) * b0 * a1 == a0 * (a1 * b0 * b1)) by (nonlinear_arith);
        assert(b0 * (a0 * b1) * a1 == a0 * (b1 * (a1 * b0))) by (nonlinear_arith);
    }
}

/// `a - a' == 0` for equal values.
pub proof fn lemma_sub_same(a: (int, int), a2: (int, int))
    requires
        qeq(a, a2),
    ensures
        qsub(a, a2).0 == 0,
{
}

/// A value with a zero numerator equals zero.
pub proof fn lemma_zero_num(z: (int, int))
    requires
        z.0 == 0,
    ensures
        qeq(z, qzero()),
        qeq(qzero(), z),
{
}

/// `0 + t == t`.
pub proof fn lemma_add_zero_left(z: (int, int), t: (int, int))
    requires
        z.0 == 0,
    ensures
        qeq(qadd(z, t), t),
{
    let (z1, t0, t1) = (z.1, t.0, t.1);
    assert((0 * t1 + t0 * z1) * t1 == t0 * (z1 * t1)) by (nonlinear_arith);
}

/// `(c - s) + s == c`.
pub proof fn lemma_sub_add_cancel(c: (int, int), s: (int, int))
    ensures
        qeq(qadd(qsub(c, s), s), c),
{
    let (c0, c1, s0, s1) = (c.0, c.1, s.0, s.1);
    let u = c0 * s1 - s0 * c1;
    assert(u * s1 == c0 * s1 * s1 - s0 * c1 * s1) by (nonlinear_arith)
        requires
            u == c0 * s1 - s0 * c1,
    ;
    assert(s0 * (c1 * s1) == s0 * c1 * s1) by (nonlinear_arith);
    assert((c0 * s1 * s1) * c1 == c0 * ((c1 * s1) * s1)) by (nonlinear_arith);
}

/// `(z + t) + s == c` when `z == 0` and `t == c - s`.
pub proof fn lemma_backsub_close(z: (int, int), t: (int, int), s: (int, int), c: (int, int))
    requires
        qwf(z),
        qwf(t),
        qwf(s),
        qwf(c),
        z.0 == 0,
        qeq(t, qsub(c, s)),
    ensures
        qeq(qadd(qadd(z, t), s), c),
{
    lemma_add_zero_left(z, t);
    lemma_qwf_ops(z, t);
    lemma_qwf_ops(c, s);
    lemma_qeq_refl(s);
    lemma_qadd_cong(qadd(z, t), t, s, s);
    lemma_qadd_cong(t, qsub(c, s), s, s);
    lemma_qwf_ops(t, s);
    lemma_qeq_trans(qadd(qadd(z, t), s), qadd(t, s), qadd(qsub(c, s), s));
    lemma_sub_add_cancel(c, s);
    lemma_qwf_ops(qsub(c, s), s);
    lemma_qeq_trans(qadd(qadd(z, t), s), qadd(qsub(c, s), s), c);
}

/// A product with a zero-numerator factor is zero.
pub proof fn lemma_mul_zero_left(z: (int, int), x: (int, int))
    requires
        z.0 == 0,
    ensures
        qmul(z, x).0 == 0,
{
}

/// Two products with a zero-numerator left factor are equal.
pub proof fn lemma_mul_zero_eq(z: (int, int), x: (int, int), y: (int, int))
    requires
        z.0 == 0,
    ensures
        qeq(qmul(z, x), qmul(z, y)),
{
    assert((z.0 * x.0) * (z.1 * y.1) == 0) by (nonlinear_arith)
        requires
            z.0 == 0,
    ;
    assert((z.0 * y.0) * (z.1 * x.1) == 0) by (nonlinear_arith)
        requires
            z.0 == 0,
    ;
}


/// `a - f*b` is zero when `a` and `b` are.
pub proof fn lemma_zero_sub_mul(a: (int, int), f: (int, int), b: (int, int))
    requires
        a.0 == 0,
        b.0 == 0,
    ensures
        qsub(a, qmul(f, b)).0 == 0,
{
    assert(f.0 * b.0 == 0) by (nonlinear_arith)
        requires
            b.0 == 0,
    ;
    assert(a.0 * (f.1 * b.1) == 0) by (nonlinear_arith)
        requires
            a.0 == 0,
    ;
    assert((f.0 * b.0) * a.1 == 0) by (nonlinear_arith)
        requires
            f.0 * b.0 == 0,
    ;
}

/// Two values with zero numerators are equal.
pub proof fn lemma_zeros_eq(a: (int, int), b: (int, int))
    requires
        a.0 == 0,
        b.0 == 0,
    ensures
        qeq(a, b),
{
}

/// `x == y` and `y` has a positive denominator and zero numerator: `x` is zero.
pub proof fn lemma_eq_zero(x: (int, int), y: (int, int))
    requires
        qwf(x),
        qwf(y),
        qeq(x, y),
        y.0 == 0,
    ensures
        x.0 == 0,
{
    assert(x.0 * y.1 == 0);
    assert(x.0 == 0) by (nonlinear_arith)
        requires
            x.0 * y.1 == 0,
            y.1 > 0,
    ;
}


/// Bezout coefficients: `a * x + b * y == gcd(a, b)`.
pub proof fn lemma_bezout(a: nat, b: nat) -> (r: (int, int))
    ensures
        a * r.0 + b * r.1 == gcd(a, b),
    decreases b,
{
    if b == 0 {
        (1, 0)
    } else {
        let (x, y) = lemma_bezout(b, a % b);
        let q: int = (a / b) as int;
        let m: int = (a % b) as int;
        vstd::arithmetic::div_mod::lemma_fundamental_div_mod(a as int, b as int);
        assert(a * y + b * (x - q * y) == b * x + m * y) by (nonlinear_arith)
            requires
                a == b * q + m,
        ;
        (y, x - q * y)
    }
}

/// If `b` is coprime to `a` and divides `a * c`, it divides `c`.
pub proof fn lemma_coprime_divides(a: int, b: int, c: int, k: int) -> (m: int)
    requires
        b > 0,
        gcd(iabs(a), b as nat) == 1,
        a * c == b * k,
    ensures
        c == b * m,
{
    let (x, y) = lemma_bezout(iabs(a), b as nat);
    let ia: int = iabs(a) as int;
    let kk: int = if a < 0 { -k } else { k };
    assert(ia * c == b * kk) by (nonlinear_arith)
        requires
            a * c == b * k,
            a < 0 ==> ia == -a && kk == -k,
            a >= 0 ==> ia == a && kk == k,
    ;
    assert(c == (ia * c) * x + b * (c * y)) by (nonlinear_arith)
        requires
            ia * x + b * y == 1,
    ;
    assert((b * kk) * x + b * (c * y) == b * (kk * x + c * y)) by (nonlinear_arith);
    kk * x + c * y
}

/// A rational value has exactly one representation in lowest terms.
pub proof fn lemma_normalized_unique(p: (int, int), q: (int, int))
    requires
        normalized(p),
        normalized(q),
        qeq(p, q),
    ensures
        p == q,
{
    let m1 = lemma_coprime_divides(p.0, p.1, q.1, q.0);
    let m2 = lemma_coprime_divides(q.0, q.1, p.1, p.0);
    assert(p.1 == q.1) by (nonlinear_arith)
        requires
            p.1 > 0,
            q.1 > 0,
            q.1 == p.1 * m1,
            p.1 == q.1 * m2,
    ;
    assert(p.0 == q.0) by (nonlinear_arith)
        requires
            p.0 * q.1 == q.0 * p.1,
            p.1 == q.1,
            p.1 > 0,
    ;
}

/// The representation in lowest terms of a value (denominator non-zero).
pub open spec fn qcanon(q: (int, int)) -> (int, int) {
    choose|r: (int, int)| normalized(r) && qeq(r, q)
}

/// A reduced pair equal in value to `q` is `q`'s representation in lowest terms.
pub proof fn lemma_qcanon(v: (int, int), q: (int, int))
    requires
        normalized(v),
        q.1 != 0,
        qeq(v, q),
    ensures
        qcanon(q) == v,
{
    let r = qcanon(q);
    assert(normalized(r) && qeq(r, q));
    assert(qeq(r, v)) by (nonlinear_arith)
        requires
            r.0 * q.1 == q.0 * r.1,
            v.0 * q.1 == q.0 * v.1,
            q.1 != 0,
    ;
    lemma_normalized_unique(r, v);
}

} // verus!
