//! What a row of the rate equations means: how adding a term to a coefficient
//! or to the constant changes `row . x - constant`.
use vstd::prelude::*;
use crate::rational::{qeq, qadd, qsub, qmul, qneg, qzero, qwf, lemma_qeq_refl, lemma_qeq_sym, lemma_distr_add,
    lemma_qeq_trans, lemma_qadd_cong, lemma_qsub_cong, lemma_qmul_cong, lemma_qwf_ops};
use crate::linear::{dot, seq_wf, lemma_dot_wf, lemma_add_assoc};

verus! {

pub proof fn lemma_add_swap(a: (int, int), b: (int, int), c: (int, int))
    requires
        qwf(a),
        qwf(b),
        qwf(c),
    ensures
        qeq(qadd(qadd(a, b), c), qadd(qadd(a, c), b)),
{
    let (a0, a1, b0, b1, c0, c1) = (a.0, a.1, b.0, b.1, c.0, c.1);
    assert((a0 * b1 + b0 * a1) * c1 == a0 * b1 * c1 + b0 * a1 * c1) by (nonlinear_arith);
    assert(c0 * (a1 * b1) == c0 * a1 * b1) by (nonlinear_arith);
    assert((a0 * c1 + c0 * a1) * b1 == a0 * c1 * b1 + c0 * a1 * b1) by (nonlinear_arith);
    assert(b0 * (a1 * c1) == b0 * a1 * c1) by (nonlinear_arith);
    assert(a0 * b1 * c1 == a0 * c1 * b1) by (nonlinear_arith);
    assert((a1 * b1) * c1 == (a1 * c1) * b1) by (nonlinear_arith);
}

pub proof fn lemma_distr_right(a: (int, int), c: (int, int), x: (int, int))
    requires
        qwf(a),
        qwf(c),
        qwf(x),
    ensures
        qeq(qmul(qadd(a, c), x), qadd(qmul(a, x), qmul(c, x))),
{
    lemma_distr_add(x, a, c);
    assert(qmul(x, a) == qmul(a, x)) by {
        assert(x.0 * a.0 == a.0 * x.0) by (nonlinear_arith);
        assert(x.1 * a.1 == a.1 * x.1) by (nonlinear_arith);
    }
    assert(qmul(x, c) == qmul(c, x)) by {
        assert(x.0 * c.0 == c.0 * x.0) by (nonlinear_arith);
        assert(x.1 * c.1 == c.1 * x.1) by (nonlinear_arith);
    }
    assert(qmul(x, qadd(a, c)) == qmul(qadd(a, c), x)) by {
        let q = qadd(a, c);
        assert(x.0 * q.0 == q.0 * x.0) by (nonlinear_arith);
        assert(x.1 * q.1 == q.1 * x.1) by (nonlinear_arith);
    }
    lemma_qwf_ops(a, c);
    lemma_qwf_ops(a, x);
    lemma_qwf_ops(c, x);
    lemma_qeq_sym(qadd(qmul(x, a), qmul(x, c)), qmul(x, qadd(a, c)));
}

/// Sums over rows that agree on `[0, hi)` are equal.
pub proof fn lemma_dot_agree(r: Seq<(int, int)>, nr: Seq<(int, int)>, x: Seq<(int, int)>, hi: int)
    requires
        0 <= hi,
        forall|j: int| 0 <= j < hi ==> nr[j] == r[j],
    ensures
        dot(nr, x, 0, hi) == dot(r, x, 0, hi),
    decreases hi,
{
    if hi > 0 {
        lemma_dot_agree(r, nr, x, hi - 1);
    }
}

/// Adding `c` to coefficient `v` adds `c * x[v]` to the sum.
pub proof fn lemma_dot_bump(
    r: Seq<(int, int)>,
    nr: Seq<(int, int)>,
    x: Seq<(int, int)>,
    v: int,
    c: (int, int),
    hi: int,
)
    requires
        0 <= v < hi,
        hi <= r.len(),
        hi <= nr.len(),
        hi <= x.len(),
        seq_wf(r),
        seq_wf(nr),
        seq_wf(x),
        qwf(c),
        forall|j: int| 0 <= j < hi && j != v ==> nr[j] == r[j],
        qeq(nr[v], qadd(r[v], c)),
    ensures
        qeq(dot(nr, x, 0, hi), qadd(dot(r, x, 0, hi), qmul(c, x[v]))),
    decreases hi,
{
    let k = hi - 1;
    lemma_dot_wf(r, x, 0, k);
    lemma_dot_wf(nr, x, 0, k);
    lemma_qwf_ops(c, x[v]);
    if k == v {
        lemma_dot_agree(r, nr, x, k);
        let d = dot(r, x, 0, k);
        lemma_qwf_ops(r[v], c);
        lemma_qeq_refl(x[v]);
        lemma_qmul_cong(nr[v], qadd(r[v], c), x[v], x[v]);
        lemma_distr_right(r[v], c, x[v]);
        lemma_qwf_ops(qadd(r[v], c), x[v]);
        lemma_qeq_trans(qmul(nr[v], x[v]), qmul(qadd(r[v], c), x[v]), qadd(qmul(r[v], x[v]), qmul(c, x[v])));
        lemma_qwf_ops(nr[v], x[v]);
        lemma_qwf_ops(r[v], x[v]);
        lemma_qwf_ops(qmul(r[v], x[v]), qmul(c, x[v]));
        lemma_qeq_refl(d);
        lemma_qadd_cong(d, d, qmul(nr[v], x[v]), qadd(qmul(r[v], x[v]), qmul(c, x[v])));
        lemma_add_assoc(d, qmul(r[v], x[v]), qmul(c, x[v]));
        lemma_qeq_sym(qadd(qadd(d, qmul(r[v], x[v])), qmul(c, x[v])), qadd(d, qadd(qmul(r[v], x[v]), qmul(c, x[v]))));
        lemma_qwf_ops(d, qadd(qmul(r[v], x[v]), qmul(c, x[v])));
        lemma_qeq_trans(
            dot(nr, x, 0, hi),
            qadd(d, qadd(qmul(r[v], x[v]), qmul(c, x[v]))),
            qadd(qadd(d, qmul(r[v], x[v])), qmul(c, x[v])),
        );
    } else {
        lemma_dot_bump(r, nr, x, v, c, k);
        let d = dot(r, x, 0, k);
        let t = qmul(r[k], x[k]);
        lemma_qwf_ops(r[k], x[k]);
        lemma_qwf_ops(d, qmul(c, x[v]));
        lemma_qeq_refl(t);
        lemma_qadd_cong(dot(nr, x, 0, k), qadd(d, qmul(c, x[v])), t, t);
        lemma_add_swap(d, qmul(c, x[v]), t);
        lemma_qwf_ops(qadd(d, qmul(c, x[v])), t);
        lemma_qeq_trans(dot(nr, x, 0, hi), qadd(qadd(d, qmul(c, x[v])), t), qadd(qadd(d, t), qmul(c, x[v])));
    }
}

/// `(D + t) - K == (D - K) + t`.
pub proof fn lemma_sub_add_shift(d: (int, int), t: (int, int), k: (int, int))
    requires
        qwf(d),
        qwf(t),
        qwf(k),
    ensures
        qeq(qsub(qadd(d, t), k), qadd(qsub(d, k), t)),
{
    let (d0, d1, t0, t1, k0, k1) = (d.0, d.1, t.0, t.1, k.0, k.1);
    assert((d0 * t1 + t0 * d1) * k1 == d0 * t1 * k1 + t0 * d1 * k1) by (nonlinear_arith);
    assert(k0 * (d1 * t1) == k0 * d1 * t1) by (nonlinear_arith);
    assert((d0 * k1 - k0 * d1) * t1 == d0 * k1 * t1 - k0 * d1 * t1) by (nonlinear_arith);
    assert(t0 * (d1 * k1) == t0 * d1 * k1) by (nonlinear_arith);
    assert(d0 * t1 * k1 == d0 * k1 * t1) by (nonlinear_arith);
    assert((d1 * t1) * k1 == (d1 * k1) * t1) by (nonlinear_arith);
}

/// `D - (K - a) == (D - K) + a`.
pub proof fn lemma_sub_sub_shift(d: (int, int), k: (int, int), a: (int, int))
    requires
        qwf(d),
        qwf(k),
        qwf(a),
    ensures
        qeq(qsub(d, qsub(k, a)), qadd(qsub(d, k), a)),
{
    let (d0, d1, k0, k1, a0, a1) = (d.0, d.1, k.0, k.1, a.0, a.1);
    assert(d0 * (k1 * a1) == d0 * k1 * a1) by (nonlinear_arith);
    assert((k0 * a1 - a0 * k1) * d1 == k0 * a1 * d1 - a0 * k1 * d1) by (nonlinear_arith);
    assert((d0 * k1 - k0 * d1) * a1 == d0 * k1 * a1 - k0 * d1 * a1) by (nonlinear_arith);
    assert(a0 * (d1 * k1) == a0 * k1 * d1) by (nonlinear_arith);
    assert(k0 * a1 * d1 == k0 * d1 * a1) by (nonlinear_arith);
    assert(d1 * (k1 * a1) == (d1 * k1) * a1) by (nonlinear_arith);
}

/// `D - (K + a) == (D - K) + (-a)`.
pub proof fn lemma_sub_add_neg(d: (int, int), k: (int, int), a: (int, int))
    requires
        qwf(d),
        qwf(k),
        qwf(a),
    ensures
        qeq(qsub(d, qadd(k, a)), qadd(qsub(d, k), qneg(a))),
{
    let (d0, d1, k0, k1, a0, a1) = (d.0, d.1, k.0, k.1, a.0, a.1);
    assert(d0 * (k1 * a1) == d0 * k1 * a1) by (nonlinear_arith);
    assert((k0 * a1 + a0 * k1) * d1 == k0 * a1 * d1 + a0 * k1 * d1) by (nonlinear_arith);
    assert((d0 * k1 - k0 * d1) * a1 == d0 * k1 * a1 - k0 * d1 * a1) by (nonlinear_arith);
    assert((-a0) * (d1 * k1) == -(a0 * k1 * d1)) by (nonlinear_arith);
    assert(k0 * a1 * d1 == k0 * d1 * a1) by (nonlinear_arith);
    assert(d1 * (k1 * a1) == (d1 * k1) * a1) by (nonlinear_arith);
}

/// A coefficient grew by `c`: the meaning grows by `c * x`.
pub proof fn lemma_meaning_coef(
    d: (int, int),
    d2: (int, int),
    k: (int, int),
    m: (int, int),
    t: (int, int),
)
    requires
        qwf(d),
        qwf(d2),
        qwf(k),
        qwf(m),
        qwf(t),
        qeq(qsub(d, k), m),
        qeq(d2, qadd(d, t)),
    ensures
        qeq(qsub(d2, k), qadd(m, t)),
{
    lemma_qwf_ops(d, t);
    lemma_qeq_refl(k);
    lemma_qsub_cong(d2, qadd(d, t), k, k);
    lemma_sub_add_shift(d, t, k);
    lemma_qwf_ops(qadd(d, t), k);
    lemma_qeq_trans(qsub(d2, k), qsub(qadd(d, t), k), qadd(qsub(d, k), t));
    lemma_qwf_ops(d, k);
    lemma_qeq_refl(t);
    lemma_qadd_cong(qsub(d, k), m, t, t);
    lemma_qwf_ops(qsub(d, k), t);
    lemma_qeq_trans(qsub(d2, k), qadd(qsub(d, k), t), qadd(m, t));
}

/// The constant shrank by `a`: the meaning grows by `a`.
pub proof fn lemma_meaning_const_sub(
    d: (int, int),
    k: (int, int),
    k2: (int, int),
    m: (int, int),
    a: (int, int),
)
    requires
        qwf(d),
        qwf(k),
        qwf(k2),
        qwf(m),
        qwf(a),
        qeq(qsub(d, k), m),
        qeq(k2, qsub(k, a)),
    ensures
        qeq(qsub(d, k2), qadd(m, a)),
{
    lemma_qwf_ops(k, a);
    lemma_qeq_refl(d);
    lemma_qsub_cong(d, d, k2, qsub(k, a));
    lemma_sub_sub_shift(d, k, a);
    lemma_qwf_ops(d, qsub(k, a));
    lemma_qeq_trans(qsub(d, k2), qsub(d, qsub(k, a)), qadd(qsub(d, k), a));
    lemma_qwf_ops(d, k);
    lemma_qeq_refl(a);
    lemma_qadd_cong(qsub(d, k), m, a, a);
    lemma_qwf_ops(qsub(d, k), a);
    lemma_qeq_trans(qsub(d, k2), qadd(qsub(d, k), a), qadd(m, a));
}

/// The constant grew by `a`: the meaning shrinks by `a`.
pub proof fn lemma_meaning_const_add(
    d: (int, int),
    k: (int, int),
    k2: (int, int),
    m: (int, int),
    a: (int, int),
)
    requires
        qwf(d),
        qwf(k),
        qwf(k2),
        qwf(m),
        qwf(a),
        qeq(qsub(d, k), m),
        qeq(k2, qadd(k, a)),
    ensures
        qeq(qsub(d, k2), qadd(m, qneg(a))),
{
    lemma_qwf_ops(k, a);
    lemma_qeq_refl(d);
    lemma_qsub_cong(d, d, k2, qadd(k, a));
    lemma_sub_add_neg(d, k, a);
    lemma_qwf_ops(d, qadd(k, a));
    lemma_qeq_trans(qsub(d, k2), qsub(d, qadd(k, a)), qadd(qsub(d, k), qneg(a)));
    lemma_qwf_ops(d, k);
    assert(qwf(qneg(a)));
    lemma_qeq_refl(qneg(a));
    lemma_qadd_cong(qsub(d, k), m, qneg(a), qneg(a));
    lemma_qwf_ops(qsub(d, k), qneg(a));
    lemma_qeq_trans(qsub(d, k2), qadd(qsub(d, k), qneg(a)), qadd(m, qneg(a)));
}

/// A satisfied row (`D == K`) means zero.
pub proof fn lemma_meaning_zero(d: (int, int), k: (int, int), m: (int, int))
    requires
        qwf(d),
        qwf(k),
        qwf(m),
        qeq(qsub(d, k), m),
        qeq(d, k),
    ensures
        m.0 == 0,
{
    lemma_qwf_ops(d, k);
    let sq = qsub(d, k);
    let (s0, s1, m0, m1) = (sq.0, sq.1, m.0, m.1);
    assert(s0 == 0);
    assert(m0 * s1 == 0) by (nonlinear_arith)
        requires
            s0 == 0,
            s0 * m1 == m0 * s1,
    ;
    assert(m0 == 0) by (nonlinear_arith)
        requires
            m0 * s1 == 0,
            s1 > 0,
    ;
}

/// `a + (-b)` is zero exactly when `a == b`.
pub proof fn lemma_diff_zero(a: (int, int), b: (int, int))
    requires
        qwf(a),
        qwf(b),
        qadd(a, qneg(b)).0 == 0,
    ensures
        qeq(a, b),
{
    let (a0, a1, b0, b1) = (a.0, a.1, b.0, b.1);
    assert((-b0) * a1 == -(b0 * a1)) by (nonlinear_arith);
    assert(a0 * b1 + (-b0) * a1 == 0);
}

/// A meaning equal (as a value) to zero has a zero numerator.
pub proof fn lemma_qeq_zero_num(m: (int, int), z: (int, int))
    requires
        qwf(m),
        qwf(z),
        qeq(m, z),
        z.0 == 0,
    ensures
        m.0 == 0,
{
    let (m0, m1, z0, z1) = (m.0, m.1, z.0, z.1);
    assert(m0 * z1 == 0) by (nonlinear_arith)
        requires
            m0 * z1 == z0 * m1,
            z0 == 0,
    ;
    assert(m0 == 0) by (nonlinear_arith)
        requires
            m0 * z1 == 0,
            z1 > 0,
    ;
}

} // verus!
