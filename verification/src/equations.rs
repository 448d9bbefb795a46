//! The rows of the rate equations: one per link, one per organizer, and one
//! for the rate that is set, each with what it means for a candidate solution.
use vstd::prelude::*;
use crate::fractional_number::{FractionalNumber, add_fits, sub_fits};
use crate::linear::{dot, seq_wf, candidate, lemma_dot_wf, lemma_dot_zero};
use crate::pin::Pin;
use crate::propagation::{var_entry, fixed_entry};
use crate::rate_calculator::fview;
use crate::rational::{qeq, qadd, qsub, qmul, qneg, qzero, qwf, qcanon, lemma_qcanon, lemma_qeq_refl, lemma_qeq_sym,
    lemma_qeq_trans, lemma_qwf_ops, lemma_zero_num};
use crate::row_meaning::{lemma_dot_bump, lemma_meaning_coef, lemma_meaning_const_sub,
    lemma_meaning_const_add};

verus! {

/// The rate of a pin under the assignment, for the variable values `x`:
/// `ratio * x[v]` for a pin with a variable, its fixed rate, or zero.
pub open spec fn pin_value(
    vars: Seq<(u64, usize, FractionalNumber)>,
    fixed: Seq<(u64, FractionalNumber)>,
    pid: u64,
    x: Seq<(int, int)>,
) -> (int, int) {
    match var_entry(vars, pid) {
        Some(i) => qmul(vars[i].2@, x[vars[i].1 as int]),
        None => match fixed_entry(fixed, pid) {
            Some(i) => fixed[i].1@,
            None => qzero(),
        },
    }
}

/// `row . x - k` equals `m(x)` for every candidate `x` of `n` values.
pub open spec fn row_means(
    row: Seq<FractionalNumber>,
    k: FractionalNumber,
    n: nat,
    m: spec_fn(Seq<(int, int)>) -> (int, int),
) -> bool {
    &&& row.len() == n
    &&& seq_wf(fview(row))
    &&& qwf(k@)
    &&& forall|x: Seq<(int, int)>| #[trigger] candidate(x, n as int) ==> qwf(m(x)) && qeq(qsub(dot(fview(row), x, 0, n as int), k@), m(x))
}

/// `n` zeros.
pub fn zeros(n: usize) -> (r: Vec<FractionalNumber>)
    ensures
        r@.len() == n,
        forall|j: int| 0 <= j < n ==> (#[trigger] r@[j])@ == qzero(),
{
    let mut r: Vec<FractionalNumber> = Vec::new();
    let mut i: usize = 0;
    while i < n
        invariant
            0 <= i <= n,
            r@.len() == i,
            forall|j: int| 0 <= j < i ==> (#[trigger] r@[j])@ == qzero(),
        decreases n - i,
    {
        r.push(FractionalNumber::zero());
        i += 1;
    }
    r
}

/// A zero row with a zero constant means zero.
pub proof fn lemma_zero_row_means(row: Seq<FractionalNumber>, k: FractionalNumber, n: nat)
    requires
        row.len() == n,
        forall|j: int| 0 <= j < n ==> (#[trigger] row[j])@ == qzero(),
        k@ == qzero(),
    ensures
        row_means(row, k, n, |x: Seq<(int, int)>| qzero()),
{
    assert forall|j: int| 0 <= j < n implies (#[trigger] fview(row)[j]).0 == 0 && qwf(fview(row)[j]) by {
        assert(fview(row)[j] == row[j]@);
    }
    assert forall|x: Seq<(int, int)>| #[trigger] candidate(x, n as int) implies qwf(qzero()) && qeq(qsub(dot(fview(row), x, 0, n as int), k@), qzero()) by {
        lemma_dot_zero(fview(row), x, 0, n as int);
        let d = dot(fview(row), x, 0, n as int);
        assert(qsub(d, k@).0 == 0);
    }
}

/// Swap the meaning for an equal one.
pub proof fn lemma_means_eq(
    row: Seq<FractionalNumber>,
    k: FractionalNumber,
    n: nat,
    m1: spec_fn(Seq<(int, int)>) -> (int, int),
    m2: spec_fn(Seq<(int, int)>) -> (int, int),
)
    requires
        row_means(row, k, n, m1),
        forall|x: Seq<(int, int)>| #[trigger] candidate(x, n as int) ==> qwf(m2(x)) && qeq(m1(x), m2(x)),
    ensures
        row_means(row, k, n, m2),
{
    assert forall|x: Seq<(int, int)>| #[trigger] candidate(x, n as int) implies qwf(m2(x)) && qeq(qsub(dot(fview(row), x, 0, n as int), k@), m2(x)) by {
        assert(qeq(m1(x), m2(x)));
        lemma_qeq_trans(qsub(dot(fview(row), x, 0, n as int), k@), m1(x), m2(x));
    }
}

/// Add `c` to coefficient `v`: the meaning grows by `c * x[v]`.
pub fn bump_coef(
    row: &mut Vec<FractionalNumber>,
    v: usize,
    c: FractionalNumber,
    Ghost(k): Ghost<FractionalNumber>,
    Ghost(n): Ghost<nat>,
    Ghost(m): Ghost<spec_fn(Seq<(int, int)>) -> (int, int)>,
) -> (ok: bool)
    requires
        v < n,
        row_means(old(row)@, k, n, m),
    ensures
        ok ==> row_means(final(row)@, k, n, |x: Seq<(int, int)>| qadd(m(x), qmul(c@, x[v as int]))),
        final(row)@.len() == old(row)@.len(),
        ok == add_fits(old(row)@[v as int]@, c@),
        ok ==> final(row)@ == old(row)@.update(v as int, final(row)@[v as int]) && qeq(
            final(row)@[v as int]@,
            qadd(old(row)@[v as int]@, c@),
        ),
        ok ==> fview(final(row)@) == fview(old(row)@).update(v as int, qcanon(qadd(old(row)@[v as int]@, c@))),
        !ok ==> final(row)@ == old(row)@,
{
    let cur = row[v];
    proof {
        use_type_invariant(&c);
    }
    match cur.checked_add(c) {
        Some(nv) => {
            let ghost r0 = row@;
            row.set(v, nv);
            proof {
                use_type_invariant(&nv);
                use_type_invariant(&cur);
                lemma_qwf_ops(cur@, c@);
                lemma_qcanon(nv@, qadd(cur@, c@));
                let f0 = fview(r0);
                let f1 = fview(row@);
                assert(f1 =~= f0.update(v as int, nv@));
                assert(seq_wf(f1));
                assert(f0[v as int] == cur@);
                assert forall|x: Seq<(int, int)>| #[trigger] candidate(x, n as int) implies qwf(qadd(m(x), qmul(c@, x[v as int]))) && qeq(qsub(dot(f1, x, 0, n as int), k@), qadd(m(x), qmul(c@, x[v as int]))) by {
                    lemma_dot_bump(f0, f1, x, v as int, c@, n as int);
                    lemma_dot_wf(f0, x, 0, n as int);
                    lemma_dot_wf(f1, x, 0, n as int);
                    lemma_qwf_ops(c@, x[v as int]);
                    lemma_qwf_ops(m(x), qmul(c@, x[v as int]));
                    lemma_meaning_coef(dot(f0, x, 0, n as int), dot(f1, x, 0, n as int), k@, m(x), qmul(c@, x[v as int]));
                }
            }
            true
        },
        None => false,
    }
}

/// Subtract `a` from the constant: the meaning grows by `a`.
pub fn const_sub(
    row: &Vec<FractionalNumber>,
    k: FractionalNumber,
    a: FractionalNumber,
    Ghost(n): Ghost<nat>,
    Ghost(m): Ghost<spec_fn(Seq<(int, int)>) -> (int, int)>,
) -> (r: Option<FractionalNumber>)
    requires
        row_means(row@, k, n, m),
    ensures
        r matches Some(k2) ==> row_means(row@, k2, n, |x: Seq<(int, int)>| qadd(m(x), a@)),
        r is Some <==> sub_fits(k@, a@),
        r matches Some(k2) ==> qeq(k2@, qsub(k@, a@)) && k2@ == qcanon(qsub(k@, a@)),
{
    proof {
        use_type_invariant(&a);
    }
    match k.checked_sub(a) {
        Some(k2) => {
            proof {
                use_type_invariant(&k2);
                use_type_invariant(&k);
                lemma_qwf_ops(k@, a@);
                lemma_qcanon(k2@, qsub(k@, a@));
                assert forall|x: Seq<(int, int)>| #[trigger] candidate(x, n as int) implies qwf(qadd(m(x), a@)) && qeq(qsub(dot(fview(row@), x, 0, n as int), k2@), qadd(m(x), a@)) by {
                    lemma_dot_wf(fview(row@), x, 0, n as int);
                    lemma_qwf_ops(m(x), a@);
                    lemma_meaning_const_sub(dot(fview(row@), x, 0, n as int), k@, k2@, m(x), a@);
                }
            }
            Some(k2)
        },
        None => None,
    }
}

/// Add `a` to the constant: the meaning shrinks by `a`.
pub fn const_add(
    row: &Vec<FractionalNumber>,
    k: FractionalNumber,
    a: FractionalNumber,
    Ghost(n): Ghost<nat>,
    Ghost(m): Ghost<spec_fn(Seq<(int, int)>) -> (int, int)>,
) -> (r: Option<FractionalNumber>)
    requires
        row_means(row@, k, n, m),
    ensures
        r matches Some(k2) ==> row_means(row@, k2, n, |x: Seq<(int, int)>| qadd(m(x), qneg(a@))),
        r is Some <==> add_fits(k@, a@),
        r matches Some(k2) ==> qeq(k2@, qadd(k@, a@)) && k2@ == qcanon(qadd(k@, a@)),
{
    proof {
        use_type_invariant(&a);
    }
    match k.checked_add(a) {
        Some(k2) => {
            proof {
                use_type_invariant(&k2);
                use_type_invariant(&k);
                lemma_qwf_ops(k@, a@);
                lemma_qcanon(k2@, qadd(k@, a@));
                assert forall|x: Seq<(int, int)>| #[trigger] candidate(x, n as int) implies qwf(qadd(m(x), qneg(a@))) && qeq(qsub(dot(fview(row@), x, 0, n as int), k2@), qadd(m(x), qneg(a@))) by {
                    lemma_dot_wf(fview(row@), x, 0, n as int);
                    lemma_qwf_ops(m(x), qneg(a@));
                    lemma_meaning_const_add(dot(fview(row@), x, 0, n as int), k@, k2@, m(x), a@);
                }
            }
            Some(k2)
        },
        None => None,
    }
}


pub proof fn lemma_add_neg(p: (int, int), q: (int, int))
    ensures
        qadd(p, qneg(q)) == qsub(p, q),
{
    let (p0, p1, q0, q1) = (p.0, p.1, q.0, q.1);
    assert((-q0) * p1 == -(q0 * p1)) by (nonlinear_arith);
}

pub proof fn lemma_mul_neg(r: (int, int), x: (int, int))
    ensures
        qmul(qneg(r), x) == qneg(qmul(r, x)),
{
    let (r0, x0) = (r.0, x.0);
    assert((-r0) * x0 == -(r0 * x0)) by (nonlinear_arith);
}

/// Subtract `a` from coefficient `v`: the meaning shrinks by `a * x[v]`.
pub fn drop_coef(
    row: &mut Vec<FractionalNumber>,
    v: usize,
    a: FractionalNumber,
    Ghost(k): Ghost<FractionalNumber>,
    Ghost(n): Ghost<nat>,
    Ghost(m): Ghost<spec_fn(Seq<(int, int)>) -> (int, int)>,
) -> (ok: bool)
    requires
        v < n,
        row_means(old(row)@, k, n, m),
    ensures
        ok ==> row_means(final(row)@, k, n, |x: Seq<(int, int)>| qsub(m(x), qmul(a@, x[v as int]))),
        final(row)@.len() == old(row)@.len(),
        ok == sub_fits(old(row)@[v as int]@, a@),
        ok ==> final(row)@ == old(row)@.update(v as int, final(row)@[v as int]) && qeq(
            final(row)@[v as int]@,
            qsub(old(row)@[v as int]@, a@),
        ),
        ok ==> fview(final(row)@) == fview(old(row)@).update(v as int, qcanon(qsub(old(row)@[v as int]@, a@))),
        !ok ==> final(row)@ == old(row)@,
{
    let cur = row[v];
    proof {
        use_type_invariant(&a);
    }
    match cur.checked_sub(a) {
        Some(nv) => {
            let ghost r0 = row@;
            row.set(v, nv);
            proof {
                use_type_invariant(&nv);
                use_type_invariant(&cur);
                lemma_qwf_ops(cur@, a@);
                lemma_qcanon(nv@, qsub(cur@, a@));
                let f0 = fview(r0);
                let f1 = fview(row@);
                assert(f1 =~= f0.update(v as int, nv@));
                assert(seq_wf(f1));
                assert(f0[v as int] == cur@);
                lemma_add_neg(cur@, a@);
                assert forall|x: Seq<(int, int)>| #[trigger] candidate(x, n as int) implies qwf(qsub(m(x), qmul(a@, x[v as int]))) && qeq(qsub(dot(f1, x, 0, n as int), k@), qsub(m(x), qmul(a@, x[v as int]))) by {
                    lemma_dot_bump(f0, f1, x, v as int, qneg(a@), n as int);
                    lemma_dot_wf(f0, x, 0, n as int);
                    lemma_dot_wf(f1, x, 0, n as int);
                    lemma_qwf_ops(qneg(a@), x[v as int]);
                    lemma_qwf_ops(a@, x[v as int]);
                    lemma_qwf_ops(m(x), qmul(qneg(a@), x[v as int]));
                    lemma_meaning_coef(dot(f0, x, 0, n as int), dot(f1, x, 0, n as int), k@, m(x), qmul(qneg(a@), x[v as int]));
                    lemma_mul_neg(a@, x[v as int]);
                    lemma_add_neg(m(x), qmul(a@, x[v as int]));
                    lemma_qwf_ops(m(x), qmul(a@, x[v as int]));
                }
            }
            true
        },
        None => false,
    }
}

/// The first entry for a pin among the variables: its variable and ratio.
pub fn lookup_var(vars: &Vec<(u64, usize, FractionalNumber)>, pid: u64) -> (r: Option<(usize, FractionalNumber)>)
    requires
        forall|i: int, j: int| 0 <= i < j < vars@.len() ==> (#[trigger] vars@[i]).0 != (#[trigger] vars@[j]).0,
    ensures
        match var_entry(vars@, pid) {
            Some(i) => r == Some((vars@[i].1, vars@[i].2)),
            None => r is None,
        },
{
    let mut i: usize = 0;
    while i < vars.len()
        invariant
            0 <= i <= vars@.len(),
            forall|a: int, b: int| 0 <= a < b < vars@.len() ==> (#[trigger] vars@[a]).0 != (#[trigger] vars@[b]).0,
            forall|j: int| 0 <= j < i ==> (#[trigger] vars@[j]).0 != pid,
        decreases vars.len() - i,
    {
        if vars[i].0 == pid {
            proof {
                let k = choose|k: int| 0 <= k < vars@.len() && (#[trigger] vars@[k]).0 == pid;
                if k != i {
                    if k < i {
                        assert(vars@[k].0 != pid);
                    } else {
                        assert(vars@[i as int].0 != vars@[k].0);
                    }
                }
            }
            return Some((vars[i].1, vars[i].2));
        }
        i += 1;
    }
    None
}

/// The first entry for a pin among the fixed rates.
pub fn lookup_fixed(fixed: &Vec<(u64, FractionalNumber)>, pid: u64) -> (r: Option<FractionalNumber>)
    requires
        forall|i: int, j: int| 0 <= i < j < fixed@.len() ==> (#[trigger] fixed@[i]).0 != (#[trigger] fixed@[j]).0,
    ensures
        match fixed_entry(fixed@, pid) {
            Some(i) => r == Some(fixed@[i].1),
            None => r is None,
        },
{
    let mut i: usize = 0;
    while i < fixed.len()
        invariant
            0 <= i <= fixed@.len(),
            forall|a: int, b: int| 0 <= a < b < fixed@.len() ==> (#[trigger] fixed@[a]).0 != (#[trigger] fixed@[b]).0,
            forall|j: int| 0 <= j < i ==> (#[trigger] fixed@[j]).0 != pid,
        decreases fixed.len() - i,
    {
        if fixed[i].0 == pid {
            proof {
                let k = choose|k: int| 0 <= k < fixed@.len() && (#[trigger] fixed@[k]).0 == pid;
                if k != i {
                    if k < i {
                        assert(fixed@[k].0 != pid);
                    } else {
                        assert(fixed@[i as int].0 != fixed@[k].0);
                    }
                }
            }
            return Some(fixed[i].1);
        }
        i += 1;
    }
    None
}

/// The entries of an assignment are usable for equations with `n` variables.
pub open spec fn entries_ok(
    vars: Seq<(u64, usize, FractionalNumber)>,
    fixed: Seq<(u64, FractionalNumber)>,
    n: nat,
) -> bool {
    &&& forall|i: int, j: int| 0 <= i < j < vars.len() ==> (#[trigger] vars[i]).0 != (#[trigger] vars[j]).0
    &&& forall|i: int, j: int| 0 <= i < j < fixed.len() ==> (#[trigger] fixed[i]).0 != (#[trigger] fixed[j]).0
    &&& forall|i: int| 0 <= i < vars.len() ==> (#[trigger] vars[i]).1 < n
}

/// The zero row of `n` coefficients.
pub open spec fn zero_row(n: nat) -> Seq<(int, int)> {
    Seq::new(n, |j: int| qzero())
}

/// Add `c` to coefficient `v` (`grow`) or take it away, in lowest terms;
/// `None` where that does not fit in 64-bit integers.
pub open spec fn coef_step(row: Seq<(int, int)>, k: (int, int), v: int, c: (int, int), grow: bool) -> Option<(Seq<(int, int)>, (int, int))> {
    if (if grow { add_fits(row[v], c) } else { sub_fits(row[v], c) }) {
        Some((row.update(v, qcanon(if grow { qadd(row[v], c) } else { qsub(row[v], c) })), k))
    } else {
        None
    }
}

/// Take `a` away from the constant (`grow`: the row's meaning grows) or add
/// it, in lowest terms; `None` where that does not fit in 64-bit integers.
pub open spec fn const_step(row: Seq<(int, int)>, k: (int, int), a: (int, int), grow: bool) -> Option<(Seq<(int, int)>, (int, int))> {
    if (if grow { sub_fits(k, a) } else { add_fits(k, a) }) {
        Some((row, qcanon(if grow { qsub(k, a) } else { qadd(k, a) })))
    } else {
        None
    }
}

/// The row and constant of a link from `s` to `e` with values in lowest
/// terms; `None` where a sum does not fit in 64-bit integers.
pub open spec fn link_row_state(
    vars: Seq<(u64, usize, FractionalNumber)>,
    fixed: Seq<(u64, FractionalNumber)>,
    n: nat,
    s: u64,
    e: u64,
) -> Option<(Seq<(int, int)>, (int, int))> {
    let st1 = match var_entry(vars, s) {
        Some(i) => coef_step(zero_row(n), qzero(), vars[i].1 as int, vars[i].2@, true),
        None => match fixed_entry(fixed, s) {
            Some(i) => const_step(zero_row(n), qzero(), fixed[i].1@, true),
            None => Some((zero_row(n), qzero())),
        },
    };
    match st1 {
        None => None,
        Some((row1, k1)) => match var_entry(vars, e) {
            Some(i) => coef_step(row1, k1, vars[i].1 as int, vars[i].2@, false),
            None => match fixed_entry(fixed, e) {
                Some(i) => const_step(row1, k1, fixed[i].1@, false),
                None => Some((row1, k1)),
            },
        },
    }
}

/// The row of a link from `s` to `e`: the rate at `s` equals the rate at `e`.
pub fn link_row(
    vars: &Vec<(u64, usize, FractionalNumber)>,
    fixed: &Vec<(u64, FractionalNumber)>,
    n: usize,
    s: u64,
    e: u64,
) -> (r: Option<(Vec<FractionalNumber>, FractionalNumber)>)
    requires
        entries_ok(vars@, fixed@, n as nat),
    ensures
        r matches Some((row, k)) ==> row_means(row@, k, n as nat, |x: Seq<(int, int)>| qsub(pin_value(vars@, fixed@, s, x), pin_value(vars@, fixed@, e, x))),
        r is Some <==> link_row_state(vars@, fixed@, n as nat, s, e) is Some,
        r matches Some((row, k)) ==> link_row_state(vars@, fixed@, n as nat, s, e) == Some((fview(row@), k@)),
{
    let ghost nn = n as nat;
    let mut row = zeros(n);
    let mut k = FractionalNumber::zero();
    let ghost vs = vars@;
    let ghost fs = fixed@;
    proof {
        lemma_zero_row_means(row@, k, nn);
        assert(fview(row@) =~= zero_row(nn));
    }
    let ghost m0 = |x: Seq<(int, int)>| qzero();
    let ghost m1 = |x: Seq<(int, int)>| pin_value(vs, fs, s, x);
    // the start pin
    match lookup_var(vars, s) {
        Some((v, ratio)) => {
            if !bump_coef(&mut row, v, ratio, Ghost(k), Ghost(nn), Ghost(m0)) {
                return None;
            }
            proof {
                lemma_means_eq(row@, k, nn, |x: Seq<(int, int)>| qadd(m0(x), qmul(ratio@, x[v as int])), m1);
            }
        },
        None => match lookup_fixed(fixed, s) {
            Some(a) => {
                match const_sub(&row, k, a, Ghost(nn), Ghost(m0)) {
                    Some(k2) => {
                        k = k2;
                        proof {
                            lemma_means_eq(row@, k, nn, |x: Seq<(int, int)>| qadd(m0(x), a@), m1);
                        }
                    },
                    None => {
                        return None;
                    },
                }
            },
            None => {
                proof {
                    lemma_means_eq(row@, k, nn, m0, m1);
                }
            },
        },
    }
    let ghost m2 = |x: Seq<(int, int)>| qsub(pin_value(vs, fs, s, x), pin_value(vs, fs, e, x));
    // the end pin
    match lookup_var(vars, e) {
        Some((v, ratio)) => {
            if !drop_coef(&mut row, v, ratio, Ghost(k), Ghost(nn), Ghost(m1)) {
                return None;
            }
            proof {
                lemma_means_eq(row@, k, nn, |x: Seq<(int, int)>| qsub(m1(x), qmul(ratio@, x[v as int])), m2);
            }
        },
        None => match lookup_fixed(fixed, e) {
            Some(a) => {
                match const_add(&row, k, a, Ghost(nn), Ghost(m1)) {
                    Some(k2) => {
                        k = k2;
                        proof {
                            assert forall|x: Seq<(int, int)>| #[trigger] candidate(x, nn as int) implies qwf(m2(x)) && qeq(qadd(m1(x), qneg(a@)), m2(x)) by {
                                lemma_add_neg(m1(x), a@);
                                lemma_qeq_refl(m2(x));
                            }
                            lemma_means_eq(row@, k, nn, |x: Seq<(int, int)>| qadd(m1(x), qneg(a@)), m2);
                        }
                    },
                    None => {
                        return None;
                    },
                }
            },
            None => {
                proof {
                    lemma_means_eq(row@, k, nn, m1, m2);
                }
            },
        },
    }
    Some((row, k))
}


/// The rate of an organizer pin under the assignment: `ratio * x[v]` for a
/// pin with a variable, else its current rate.
pub open spec fn org_value(vars: Seq<(u64, usize, FractionalNumber)>, p: Pin, x: Seq<(int, int)>) -> (int, int) {
    match var_entry(vars, p.id) {
        Some(i) => qmul(vars[i].2@, x[vars[i].1 as int]),
        None => p.current_rate@,
    }
}

/// The sum of `org_value` over the pins.
pub open spec fn org_sum(vars: Seq<(u64, usize, FractionalNumber)>, pins: Seq<Pin>, x: Seq<(int, int)>) -> (int, int)
    decreases pins.len(),
{
    if pins.len() == 0 {
        qzero()
    } else {
        qadd(org_sum(vars, pins.drop_last(), x), org_value(vars, pins.last(), x))
    }
}

pub proof fn lemma_sub_sub_assoc(a: (int, int), o: (int, int), t: (int, int))
    ensures
        qsub(qsub(a, o), t) == qsub(a, qadd(o, t)),
{
    let (a0, a1, o0, o1, t0, t1) = (a.0, a.1, o.0, o.1, t.0, t.1);
    assert((a0 * o1 - o0 * a1) * t1 == a0 * o1 * t1 - o0 * a1 * t1) by (nonlinear_arith);
    assert(t0 * (a1 * o1) == t0 * o1 * a1) by (nonlinear_arith);
    assert(a0 * (o1 * t1) == a0 * o1 * t1) by (nonlinear_arith);
    assert((o0 * t1 + t0 * o1) * a1 == o0 * a1 * t1 + t0 * o1 * a1) by (nonlinear_arith);
    assert((a1 * o1) * t1 == a1 * (o1 * t1)) by (nonlinear_arith);
}

/// One pin of an organizer added to its row: a pin with a variable adds to
/// (an input, `grow`) or takes from its coefficient, another pin's current
/// rate goes into the constant.
pub open spec fn org_step(
    vars: Seq<(u64, usize, FractionalNumber)>,
    st: Option<(Seq<(int, int)>, (int, int))>,
    p: Pin,
    grow: bool,
) -> Option<(Seq<(int, int)>, (int, int))> {
    match st {
        None => None,
        Some((row, k)) => match var_entry(vars, p.id) {
            Some(i) => coef_step(row, k, vars[i].1 as int, vars[i].2@, grow),
            None => const_step(row, k, p.current_rate@, grow),
        },
    }
}

/// The row and constant after the input pins `ins`, values in lowest terms.
pub open spec fn org_in_state(vars: Seq<(u64, usize, FractionalNumber)>, ins: Seq<Pin>, n: nat) -> Option<(Seq<(int, int)>, (int, int))>
    decreases ins.len(),
{
    if ins.len() == 0 {
        Some((zero_row(n), qzero()))
    } else {
        org_step(vars, org_in_state(vars, ins.drop_last(), n), ins.last(), true)
    }
}

/// The row and constant after the input pins and the output pins `outs`.
pub open spec fn org_row_state(vars: Seq<(u64, usize, FractionalNumber)>, ins: Seq<Pin>, outs: Seq<Pin>, n: nat) -> Option<(Seq<(int, int)>, (int, int))>
    decreases outs.len(),
{
    if outs.len() == 0 {
        org_in_state(vars, ins, n)
    } else {
        org_step(vars, org_row_state(vars, ins, outs.drop_last(), n), outs.last(), false)
    }
}

proof fn lemma_org_in_none(vars: Seq<(u64, usize, FractionalNumber)>, ins: Seq<Pin>, n: nat, m: int)
    requires
        0 <= m <= ins.len(),
        org_in_state(vars, ins.subrange(0, m), n) is None,
    ensures
        org_in_state(vars, ins, n) is None,
    decreases ins.len() - m,
{
    if m < ins.len() {
        assert(ins.subrange(0, m + 1).drop_last() =~= ins.subrange(0, m));
        lemma_org_in_none(vars, ins, n, m + 1);
    } else {
        assert(ins.subrange(0, m) =~= ins);
    }
}

proof fn lemma_org_out_none(vars: Seq<(u64, usize, FractionalNumber)>, ins: Seq<Pin>, outs: Seq<Pin>, n: nat, m: int)
    requires
        0 <= m <= outs.len(),
        org_row_state(vars, ins, outs.subrange(0, m), n) is None,
    ensures
        org_row_state(vars, ins, outs, n) is None,
    decreases outs.len() - m,
{
    if m < outs.len() {
        assert(outs.subrange(0, m + 1).drop_last() =~= outs.subrange(0, m));
        lemma_org_out_none(vars, ins, outs, n, m + 1);
    } else {
        assert(outs.subrange(0, m) =~= outs);
    }
}

/// The row of an organizer: the sum of its input rates equals the sum of its
/// output rates.
pub fn organizer_row(
    vars: &Vec<(u64, usize, FractionalNumber)>,
    fixed: &Vec<(u64, FractionalNumber)>,
    n: usize,
    ins: &Vec<Pin>,
    outs: &Vec<Pin>,
) -> (r: Option<(Vec<FractionalNumber>, FractionalNumber)>)
    requires
        entries_ok(vars@, fixed@, n as nat),
    ensures
        r matches Some((row, k)) ==> row_means(row@, k, n as nat, |x: Seq<(int, int)>| qsub(org_sum(vars@, ins@, x), org_sum(vars@, outs@, x))),
        r is Some <==> org_row_state(vars@, ins@, outs@, n as nat) is Some,
        r matches Some((row, k)) ==> org_row_state(vars@, ins@, outs@, n as nat) == Some((fview(row@), k@)),
{
    let ghost nn = n as nat;
    let ghost vs = vars@;
    let mut row = zeros(n);
    let mut k = FractionalNumber::zero();
    proof {
        lemma_zero_row_means(row@, k, nn);
        assert(fview(row@) =~= zero_row(nn));
        assert(ins@.subrange(0, 0) =~= Seq::<Pin>::empty());
        lemma_means_eq(row@, k, nn, |x: Seq<(int, int)>| qzero(), |x: Seq<(int, int)>| org_sum(vs, ins@.subrange(0, 0), x));
    }
    let mut i: usize = 0;
    while i < ins.len()
        invariant
            0 <= i <= ins@.len(),
            vs == vars@,
            nn == n as nat,
            entries_ok(vars@, fixed@, nn),
            row_means(row@, k, nn, |x: Seq<(int, int)>| org_sum(vs, ins@.subrange(0, i as int), x)),
            org_in_state(vs, ins@.subrange(0, i as int), nn) == Some((fview(row@), k@)),
        decreases ins.len() - i,
    {
        let ghost m = |x: Seq<(int, int)>| org_sum(vs, ins@.subrange(0, i as int), x);
        let ghost m2 = |x: Seq<(int, int)>| org_sum(vs, ins@.subrange(0, i + 1), x);
        let p = &ins[i];
        proof {
            assert(ins@.subrange(0, i + 1).drop_last() =~= ins@.subrange(0, i as int));
            assert(ins@.subrange(0, i + 1).last() == *p);
        }
        match lookup_var(vars, p.id) {
            Some((v, ratio)) => {
                if !bump_coef(&mut row, v, ratio, Ghost(k), Ghost(nn), Ghost(m)) {
                    proof {
                        lemma_org_in_none(vs, ins@, nn, i + 1);
                        assert(ins@.subrange(0, 0) =~= Seq::<Pin>::empty());
                        lemma_org_out_none(vs, ins@, outs@, nn, 0);
                    }
                    return None;
                }
                proof {
                    lemma_means_eq(row@, k, nn, |x: Seq<(int, int)>| qadd(m(x), qmul(ratio@, x[v as int])), m2);
                }
            },
            None => {
                match const_sub(&row, k, p.current_rate, Ghost(nn), Ghost(m)) {
                    Some(k2) => {
                        k = k2;
                        proof {
                            lemma_means_eq(row@, k, nn, |x: Seq<(int, int)>| qadd(m(x), p.current_rate@), m2);
                        }
                    },
                    None => {
                        proof {
                            lemma_org_in_none(vs, ins@, nn, i + 1);
                            assert(outs@.subrange(0, 0) =~= Seq::<Pin>::empty());
                            lemma_org_out_none(vs, ins@, outs@, nn, 0);
                        }
                        return None;
                    },
                }
            },
        }
        i += 1;
    }
    let ghost sin = |x: Seq<(int, int)>| org_sum(vs, ins@, x);
    proof {
        assert(ins@.subrange(0, ins@.len() as int) =~= ins@);
        assert(outs@.subrange(0, 0) =~= Seq::<Pin>::empty());
        lemma_means_eq(row@, k, nn, |x: Seq<(int, int)>| org_sum(vs, ins@.subrange(0, ins@.len() as int), x), |x: Seq<(int, int)>| qsub(sin(x), org_sum(vs, outs@.subrange(0, 0), x)));
    }
    let mut j: usize = 0;
    while j < outs.len()
        invariant
            0 <= j <= outs@.len(),
            vs == vars@,
            nn == n as nat,
            sin == (|x: Seq<(int, int)>| org_sum(vs, ins@, x)),
            entries_ok(vars@, fixed@, nn),
            row_means(row@, k, nn, |x: Seq<(int, int)>| qsub(sin(x), org_sum(vs, outs@.subrange(0, j as int), x))),
            org_row_state(vs, ins@, outs@.subrange(0, j as int), nn) == Some((fview(row@), k@)),
        decreases outs.len() - j,
    {
        let ghost m = |x: Seq<(int, int)>| qsub(sin(x), org_sum(vs, outs@.subrange(0, j as int), x));
        let ghost m2 = |x: Seq<(int, int)>| qsub(sin(x), org_sum(vs, outs@.subrange(0, j + 1), x));
        let p = &outs[j];
        proof {
            assert(outs@.subrange(0, j + 1).drop_last() =~= outs@.subrange(0, j as int));
            assert(outs@.subrange(0, j + 1).last() == *p);
        }
        match lookup_var(vars, p.id) {
            Some((v, ratio)) => {
                if !drop_coef(&mut row, v, ratio, Ghost(k), Ghost(nn), Ghost(m)) {
                    proof {
                        lemma_org_out_none(vs, ins@, outs@, nn, j + 1);
                    }
                    return None;
                }
                proof {
                    assert forall|x: Seq<(int, int)>| #[trigger] candidate(x, nn as int) implies qwf(m2(x)) && qeq(qsub(m(x), qmul(ratio@, x[v as int])), m2(x)) by {
                        lemma_sub_sub_assoc(sin(x), org_sum(vs, outs@.subrange(0, j as int), x), qmul(ratio@, x[v as int]));
                        lemma_qeq_refl(m2(x));
                    }
                    lemma_means_eq(row@, k, nn, |x: Seq<(int, int)>| qsub(m(x), qmul(ratio@, x[v as int])), m2);
                }
            },
            None => {
                match const_add(&row, k, p.current_rate, Ghost(nn), Ghost(m)) {
                    Some(k2) => {
                        k = k2;
                        proof {
                            assert forall|x: Seq<(int, int)>| #[trigger] candidate(x, nn as int) implies qwf(m2(x)) && qeq(qadd(m(x), qneg(p.current_rate@)), m2(x)) by {
                                lemma_add_neg(m(x), p.current_rate@);
                                lemma_sub_sub_assoc(sin(x), org_sum(vs, outs@.subrange(0, j as int), x), p.current_rate@);
                                lemma_qeq_refl(m2(x));
                            }
                            lemma_means_eq(row@, k, nn, |x: Seq<(int, int)>| qadd(m(x), qneg(p.current_rate@)), m2);
                        }
                    },
                    None => {
                        proof {
                            lemma_org_out_none(vs, ins@, outs@, nn, j + 1);
                        }
                        return None;
                    },
                }
            },
        }
        j += 1;
    }
    proof {
        assert(outs@.subrange(0, outs@.len() as int) =~= outs@);
    }
    Some((row, k))
}

/// The row that sets the pin with variable `v` and ratio `ratio` to `value`.
pub fn constraint_row(n: usize, v: usize, ratio: FractionalNumber, value: FractionalNumber) -> (r: (
    Vec<FractionalNumber>,
    FractionalNumber,
))
    requires
        v < n,
    ensures
        row_means(r.0@, r.1, n as nat, |x: Seq<(int, int)>| qsub(qmul(ratio@, x[v as int]), value@)),
        fview(r.0@) == zero_row(n as nat).update(v as int, ratio@),
        r.1 == value,
{
    let ghost nn = n as nat;
    let mut row = zeros(n);
    let zero = FractionalNumber::zero();
    proof {
        lemma_zero_row_means(row@, zero, nn);
    }
    let ghost r0 = row@;
    row.set(v, ratio);
    proof {
        use_type_invariant(&ratio);
        use_type_invariant(&value);
        let f0 = fview(r0);
        let f1 = fview(row@);
        assert(f1 =~= f0.update(v as int, ratio@));
        assert(f0 =~= zero_row(nn));
        assert(seq_wf(f1));
        assert(f0[v as int] == qzero());
        assert(qadd(qzero(), ratio@) == ratio@);
        assert forall|x: Seq<(int, int)>| #[trigger] candidate(x, nn as int) implies qwf(qsub(qmul(ratio@, x[v as int]), value@)) && qeq(qsub(dot(f1, x, 0, nn as int), value@), qsub(qmul(ratio@, x[v as int]), value@)) by {
            lemma_qeq_refl(ratio@);
            lemma_dot_bump(f0, f1, x, v as int, ratio@, nn as int);
            lemma_dot_wf(f0, x, 0, nn as int);
            lemma_dot_wf(f1, x, 0, nn as int);
            lemma_qwf_ops(ratio@, x[v as int]);
            assert(qeq(qsub(dot(f0, x, 0, nn as int), zero@), qzero()));
            lemma_meaning_coef(dot(f0, x, 0, nn as int), dot(f1, x, 0, nn as int), zero@, qzero(), qmul(ratio@, x[v as int]));
            let t = qmul(ratio@, x[v as int]);
            assert(qadd(qzero(), t) == t);
            assert(qadd(zero@, value@) == value@);
            lemma_meaning_const_add(dot(f1, x, 0, nn as int), zero@, value@, t, value@);
            lemma_add_neg(t, value@);
            lemma_qwf_ops(t, value@);
        }
    }
    (row, value)
}

} // verus!
