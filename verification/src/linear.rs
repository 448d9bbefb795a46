//! Linear systems over rationals: the meaning of an augmented matrix `[A|b]`,
//! and the facts about it that Gaussian elimination relies on.
use vstd::prelude::*;
use crate::rational::{
    qwf, qeq, qadd, qsub, qmul, qzero, lemma_qeq_refl, lemma_qeq_sym, lemma_qeq_trans,
    lemma_qadd_cong, lemma_qsub_cong, lemma_qmul_cong, lemma_qwf_ops, lemma_lin_step,
    lemma_cancel_sub,
};

verus! {

/// `row[lo]*x[lo] + ... + row[hi-1]*x[hi-1]`.
pub open spec fn dot(row: Seq<(int, int)>, x: Seq<(int, int)>, lo: int, hi: int) -> (int, int)
    decreases hi - lo,
{
    if hi <= lo {
        qzero()
    } else {
        qadd(dot(row, x, lo, hi - 1), qmul(row[hi - 1], x[hi - 1]))
    }
}

/// Every entry has a positive denominator.
pub open spec fn seq_wf(v: Seq<(int, int)>) -> bool {
    forall|j: int| 0 <= j < v.len() ==> qwf(#[trigger] v[j])
}

/// `x` satisfies the augmented row `row` (coefficients `row[0..n]`, constant `row[n]`).
pub open spec fn row_sat(row: Seq<(int, int)>, x: Seq<(int, int)>, n: int) -> bool {
    qeq(dot(row, x, 0, n), row[n])
}

/// `x` satisfies every row of the augmented matrix `m`.
pub open spec fn sys_sat(m: Seq<Seq<(int, int)>>, x: Seq<(int, int)>, n: int) -> bool {
    forall|i: int| 0 <= i < m.len() ==> row_sat(#[trigger] m[i], x, n)
}

/// Every row has `n` coefficients and a constant, all well formed.
pub open spec fn mat_wf(m: Seq<Seq<(int, int)>>, n: int) -> bool {
    forall|i: int| 0 <= i < m.len() ==> (#[trigger] m[i]).len() == n + 1 && seq_wf(m[i])
}

/// A candidate solution: `n` well-formed values.
pub open spec fn candidate(x: Seq<(int, int)>, n: int) -> bool {
    x.len() == n && seq_wf(x)
}

/// Two systems have the same solutions.
pub open spec fn sys_equiv(m1: Seq<Seq<(int, int)>>, m2: Seq<Seq<(int, int)>>, n: int) -> bool {
    forall|x: Seq<(int, int)>| candidate(x, n) ==> (sys_sat(m1, x, n) <==> sys_sat(m2, x, n))
}

pub proof fn lemma_dot_wf(row: Seq<(int, int)>, x: Seq<(int, int)>, lo: int, hi: int)
    requires
        0 <= lo,
        hi <= row.len(),
        hi <= x.len(),
        seq_wf(row),
        seq_wf(x),
    ensures
        qwf(dot(row, x, lo, hi)),
    decreases hi - lo,
{
    if hi > lo {
        lemma_dot_wf(row, x, lo, hi - 1);
        lemma_qwf_ops(row[hi - 1], x[hi - 1]);
        lemma_qwf_ops(dot(row, x, lo, hi - 1), qmul(row[hi - 1], x[hi - 1]));
    }
}

/// Termwise-equal products give equal sums.
pub proof fn lemma_dot_cong(
    r1: Seq<(int, int)>,
    x1: Seq<(int, int)>,
    r2: Seq<(int, int)>,
    x2: Seq<(int, int)>,
    lo: int,
    hi: int,
)
    requires
        0 <= lo,
        hi <= r1.len(),
        hi <= x1.len(),
        hi <= r2.len(),
        hi <= x2.len(),
        seq_wf(r1),
        seq_wf(x1),
        seq_wf(r2),
        seq_wf(x2),
        forall|j: int|
            lo <= j < hi ==> qeq(#[trigger] qmul(r1[j], x1[j]), qmul(r2[j], x2[j])),
    ensures
        qeq(dot(r1, x1, lo, hi), dot(r2, x2, lo, hi)),
    decreases hi - lo,
{
    if hi > lo {
        lemma_dot_cong(r1, x1, r2, x2, lo, hi - 1);
        lemma_dot_wf(r1, x1, lo, hi - 1);
        lemma_dot_wf(r2, x2, lo, hi - 1);
        lemma_qwf_ops(r1[hi - 1], x1[hi - 1]);
        lemma_qwf_ops(r2[hi - 1], x2[hi - 1]);
        assert(qeq(qmul(r1[hi - 1], x1[hi - 1]), qmul(r2[hi - 1], x2[hi - 1])));
        lemma_qadd_cong(
            dot(r1, x1, lo, hi - 1),
            dot(r2, x2, lo, hi - 1),
            qmul(r1[hi - 1], x1[hi - 1]),
            qmul(r2[hi - 1], x2[hi - 1]),
        );
    } else {
        lemma_qeq_refl(qzero());
    }
}

/// `dot(new) == dot(r) - f*dot(h)` when `new[j] == r[j] - f*h[j]` for every `j`.
pub proof fn lemma_dot_lin(
    nr: Seq<(int, int)>,
    r: Seq<(int, int)>,
    h: Seq<(int, int)>,
    f: (int, int),
    x: Seq<(int, int)>,
    lo: int,
    hi: int,
)
    requires
        0 <= lo,
        hi <= nr.len(),
        hi <= r.len(),
        hi <= h.len(),
        hi <= x.len(),
        seq_wf(nr),
        seq_wf(r),
        seq_wf(h),
        seq_wf(x),
        qwf(f),
        forall|j: int| lo <= j < hi ==> qeq(#[trigger] nr[j], qsub(r[j], qmul(f, h[j]))),
    ensures
        qeq(dot(nr, x, lo, hi), qsub(dot(r, x, lo, hi), qmul(f, dot(h, x, lo, hi)))),
    decreases hi - lo,
{
    if hi > lo {
        let k = hi - 1;
        lemma_dot_lin(nr, r, h, f, x, lo, k);
        lemma_dot_wf(nr, x, lo, k);
        lemma_dot_wf(r, x, lo, k);
        lemma_dot_wf(h, x, lo, k);
        let dn = dot(nr, x, lo, k);
        let dr = dot(r, x, lo, k);
        let dh = dot(h, x, lo, k);
        lemma_qwf_ops(f, dh);
        lemma_qwf_ops(dr, qmul(f, dh));
        lemma_qwf_ops(f, h[k]);
        lemma_qwf_ops(r[k], qmul(f, h[k]));
        lemma_qwf_ops(nr[k], x[k]);
        lemma_qwf_ops(qsub(r[k], qmul(f, h[k])), x[k]);
        lemma_qeq_refl(x[k]);
        lemma_qmul_cong(nr[k], qsub(r[k], qmul(f, h[k])), x[k], x[k]);
        lemma_qadd_cong(
            dn,
            qsub(dr, qmul(f, dh)),
            qmul(nr[k], x[k]),
            qmul(qsub(r[k], qmul(f, h[k])), x[k]),
        );
        lemma_lin_step(dr, dh, r[k], h[k], f, x[k]);
        lemma_qwf_ops(qsub(dr, qmul(f, dh)), qmul(qsub(r[k], qmul(f, h[k])), x[k]));
        lemma_qeq_trans(
            dot(nr, x, lo, hi),
            qadd(qsub(dr, qmul(f, dh)), qmul(qsub(r[k], qmul(f, h[k])), x[k])),
            qsub(dot(r, x, lo, hi), qmul(f, dot(h, x, lo, hi))),
        );
    } else {
        assert(qeq(qzero(), qsub(qzero(), qmul(f, qzero())))) by (nonlinear_arith);
    }
}

/// A sum whose coefficients are all zero is zero.
pub proof fn lemma_dot_zero(row: Seq<(int, int)>, x: Seq<(int, int)>, lo: int, hi: int)
    requires
        0 <= lo,
        hi <= row.len(),
        hi <= x.len(),
        forall|j: int| lo <= j < hi ==> (#[trigger] row[j]).0 == 0,
    ensures
        dot(row, x, lo, hi).0 == 0,
    decreases hi - lo,
{
    if hi > lo {
        lemma_dot_zero(row, x, lo, hi - 1);
        let d = dot(row, x, lo, hi - 1);
        let p = qmul(row[hi - 1], x[hi - 1]);
        assert(p.0 == 0) by (nonlinear_arith)
            requires
                p.0 == row[hi - 1].0 * x[hi - 1].0,
                row[hi - 1].0 == 0,
        ;
        assert(d.0 * p.1 + p.0 * d.1 == 0) by (nonlinear_arith)
            requires
                d.0 == 0,
                p.0 == 0,
        ;
    }
}

/// The sum over `[lo, hi)` is the sum over `[lo, mid)` plus the sum over `[mid, hi)`.
pub proof fn lemma_dot_split(row: Seq<(int, int)>, x: Seq<(int, int)>, lo: int, mid: int, hi: int)
    requires
        0 <= lo <= mid <= hi,
        hi <= row.len(),
        hi <= x.len(),
        seq_wf(row),
        seq_wf(x),
    ensures
        qeq(dot(row, x, lo, hi), qadd(dot(row, x, lo, mid), dot(row, x, mid, hi))),
    decreases hi - mid,
{
    lemma_dot_wf(row, x, lo, mid);
    let a = dot(row, x, lo, mid);
    if hi == mid {
        assert(qeq(a, qadd(a, qzero()))) by (nonlinear_arith);
    } else {
        lemma_dot_split(row, x, lo, mid, hi - 1);
        let b = dot(row, x, mid, hi - 1);
        let c = qmul(row[hi - 1], x[hi - 1]);
        lemma_dot_wf(row, x, mid, hi - 1);
        lemma_dot_wf(row, x, lo, hi - 1);
        lemma_qwf_ops(row[hi - 1], x[hi - 1]);
        lemma_qwf_ops(a, b);
        lemma_qeq_refl(c);
        lemma_qadd_cong(dot(row, x, lo, hi - 1), qadd(a, b), c, c);
        lemma_add_assoc(a, b, c);
        lemma_qwf_ops(qadd(a, b), c);
        lemma_qeq_trans(dot(row, x, lo, hi), qadd(qadd(a, b), c), qadd(a, qadd(b, c)));
    }
}

pub proof fn lemma_add_assoc(a: (int, int), b: (int, int), c: (int, int))
    ensures
        qeq(qadd(qadd(a, b), c), qadd(a, qadd(b, c))),
{
    let (a0, a1, b0, b1, c0, c1) = (a.0, a.1, b.0, b.1, c.0, c.1);
    let ln = (a0 * b1 + b0 * a1) * c1 + c0 * (a1 * b1);
    let ld = (a1 * b1) * c1;
    let rn = a0 * (b1 * c1) + (b0 * c1 + c0 * b1) * a1;
    let rd = a1 * (b1 * c1);
    assert(ln == rn) by {
        broadcast use vstd::arithmetic::mul::group_mul_properties;
    }
    assert(ld == rd) by {
        broadcast use vstd::arithmetic::mul::group_mul_properties;
    }
    assert(qadd(qadd(a, b), c) == (ln, ld));
    assert(qadd(a, qadd(b, c)) == (rn, rd));
    assert(ln * rd == rn * ld);
}

/// Replacing row `i` by `row_i - f*row_h` (h != i) keeps the solution set.
pub proof fn lemma_row_op_equiv(
    m: Seq<Seq<(int, int)>>,
    i: int,
    h: int,
    nr: Seq<(int, int)>,
    f: (int, int),
    n: int,
)
    requires
        0 <= n,
        mat_wf(m, n),
        0 <= i < m.len(),
        0 <= h < m.len(),
        i != h,
        nr.len() == n + 1,
        seq_wf(nr),
        qwf(f),
        forall|j: int| 0 <= j <= n ==> qeq(#[trigger] nr[j], qsub(m[i][j], qmul(f, m[h][j]))),
    ensures
        sys_equiv(m.update(i, nr), m, n),
        mat_wf(m.update(i, nr), n),
{
    let m2 = m.update(i, nr);
    assert forall|x: Seq<(int, int)>| candidate(x, n) implies (sys_sat(m2, x, n) <==> sys_sat(
        m,
        x,
        n,
    )) by {
        let mi = m[i];
        let mh = m[h];
        assert(mat_wf(m, n));
        assert(mi.len() == n + 1 && seq_wf(mi));
        assert(mh.len() == n + 1 && seq_wf(mh));
        lemma_dot_lin(nr, mi, mh, f, x, 0, n);
        lemma_dot_wf(nr, x, 0, n);
        lemma_dot_wf(mi, x, 0, n);
        lemma_dot_wf(mh, x, 0, n);
        let dn = dot(nr, x, 0, n);
        let di = dot(mi, x, 0, n);
        let dh = dot(mh, x, 0, n);
        assert(qeq(nr[n], qsub(mi[n], qmul(f, mh[n]))));
        assert(qwf(mi[n]) && qwf(mh[n]) && qwf(nr[n]));
        lemma_qwf_ops(f, dh);
        lemma_qwf_ops(f, mh[n]);
        lemma_qwf_ops(di, qmul(f, dh));
        lemma_qwf_ops(mi[n], qmul(f, mh[n]));
        if sys_sat(m, x, n) {
            assert(row_sat(m[i], x, n));
            assert(row_sat(m[h], x, n));
            lemma_qeq_refl(f);
            lemma_qmul_cong(f, f, dh, mh[n]);
            lemma_qsub_cong(di, mi[n], qmul(f, dh), qmul(f, mh[n]));
            lemma_qeq_trans(dn, qsub(di, qmul(f, dh)), qsub(mi[n], qmul(f, mh[n])));
            lemma_qeq_sym(nr[n], qsub(mi[n], qmul(f, mh[n])));
            lemma_qeq_trans(dn, qsub(mi[n], qmul(f, mh[n])), nr[n]);
            assert forall|k: int| 0 <= k < m2.len() implies row_sat(#[trigger] m2[k], x, n) by {
                if k != i {
                    assert(row_sat(m[k], x, n));
                }
            }
        }
        if sys_sat(m2, x, n) {
            assert(row_sat(m2[i], x, n));
            assert(row_sat(m2[h], x, n));
            assert(m2[h] == mh);
            // dn == nr[n], dn == di - f*dh, nr[n] == mi[n] - f*mh[n]
            lemma_qeq_sym(dn, qsub(di, qmul(f, dh)));
            lemma_qeq_trans(qsub(di, qmul(f, dh)), dn, nr[n]);
            lemma_qeq_trans(qsub(di, qmul(f, dh)), nr[n], qsub(mi[n], qmul(f, mh[n])));
            lemma_qeq_refl(f);
            lemma_qmul_cong(f, f, dh, mh[n]);
            lemma_qwf_ops(f, dh);
            lemma_cancel_sub(di, mi[n], qmul(f, dh), qmul(f, mh[n]));
            assert forall|k: int| 0 <= k < m.len() implies row_sat(#[trigger] m[k], x, n) by {
                if k != i {
                    assert(m2[k] == m[k]);
                    assert(row_sat(m2[k], x, n));
                }
            }
        }
    }
    assert forall|k: int| 0 <= k < m2.len() implies (#[trigger] m2[k]).len() == n + 1 && seq_wf(
        m2[k],
    ) by {
        if k != i {
            assert(m2[k] == m[k]);
        }
    }
}

/// Exchanging two rows keeps the solution set.
pub proof fn lemma_swap_equiv(m: Seq<Seq<(int, int)>>, a: int, b: int, n: int)
    requires
        mat_wf(m, n),
        0 <= a < m.len(),
        0 <= b < m.len(),
    ensures
        sys_equiv(m.update(a, m[b]).update(b, m[a]), m, n),
        mat_wf(m.update(a, m[b]).update(b, m[a]), n),
{
    let m2 = m.update(a, m[b]).update(b, m[a]);
    assert forall|x: Seq<(int, int)>| candidate(x, n) implies (sys_sat(m2, x, n) <==> sys_sat(
        m,
        x,
        n,
    )) by {
        if sys_sat(m, x, n) {
            assert forall|k: int| 0 <= k < m2.len() implies row_sat(#[trigger] m2[k], x, n) by {
                if k == b {
                    assert(row_sat(m[a], x, n));
                } else if k == a {
                    assert(row_sat(m[b], x, n));
                } else {
                    assert(row_sat(m[k], x, n));
                }
            }
        }
        if sys_sat(m2, x, n) {
            assert forall|k: int| 0 <= k < m.len() implies row_sat(#[trigger] m[k], x, n) by {
                if k == a {
                    assert(row_sat(m2[b], x, n));
                } else if k == b {
                    if a == b {
                        assert(row_sat(m2[b], x, n));
                    } else {
                        assert(row_sat(m2[a], x, n));
                    }
                } else {
                    assert(row_sat(m2[k], x, n));
                }
            }
        }
    }
    assert forall|k: int| 0 <= k < m2.len() implies (#[trigger] m2[k]).len() == n + 1 && seq_wf(
        m2[k],
    ) by {
        if k == b {
            assert(m2[k] == m[a]);
        } else if k == a {
            assert(m2[k] == m[b]);
        } else {
            assert(m2[k] == m[k]);
        }
    }
}

} // verus!
