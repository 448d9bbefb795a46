//! Production rate calculation engine: Gaussian elimination over exact
//! rationals, plus the helpers used to set up rate equations.
use vstd::prelude::*;
use crate::fractional_number::{FractionalNumber, add_fits, sub_fits, mul_fits, div_fits};
use crate::rational::{
    iabs, qwf, qeq, qadd, qsub, qmul, qdiv, qzero, qcanon, lemma_qcanon, lemma_qeq_refl, lemma_qeq_sym,
    lemma_qeq_trans, lemma_qadd_cong, lemma_qsub_cong, lemma_qmul_cong, lemma_qwf_ops,
    lemma_qdiv_wf, lemma_div_mul_cancel, lemma_sub_same, lemma_zero_num, lemma_backsub_close,
    lemma_mul_zero_eq, lemma_zero_sub_mul, lemma_zeros_eq, lemma_eq_zero,
};
use crate::linear::{
    dot, seq_wf, row_sat, sys_sat, mat_wf, candidate, sys_equiv, lemma_dot_wf, lemma_dot_cong,
    lemma_dot_zero, lemma_dot_split, lemma_row_op_equiv, lemma_swap_equiv,
};

verus! {

/// Errors that can occur during rate calculation.
#[derive(Debug, Clone, Copy, PartialEq, Eq, Structural)]
pub enum RateError {
    /// System of equations has no solution
    NoSolution,
    /// Solution contains negative rates (impossible production)
    NegativeRate,
    /// Contradictory constraints (e.g., locked pins with incompatible rates)
    Contradiction,
    /// Singular matrix during Gaussian elimination
    SingularMatrix,
    /// An intermediate value does not fit in 64-bit integers
    Overflow,
}

impl RateError {
    /// The message that describes the error.
    pub fn message(&self) -> (r: String)
        ensures
            r@ == rate_error_text(*self),
    {
        match self {
            RateError::NoSolution => "No valid solution for production rates".to_owned(),
            RateError::NegativeRate => "Solution would produce negative rates".to_owned(),
            RateError::Contradiction => "Contradictory constraints in graph".to_owned(),
            RateError::SingularMatrix => "Singular matrix in linear system".to_owned(),
            RateError::Overflow => "Arithmetic overflow in linear system".to_owned(),
        }
    }
}

/// The message of each error.
pub open spec fn rate_error_text(e: RateError) -> Seq<char> {
    match e {
        RateError::NoSolution => "No valid solution for production rates"@,
        RateError::NegativeRate => "Solution would produce negative rates"@,
        RateError::Contradiction => "Contradictory constraints in graph"@,
        RateError::SingularMatrix => "Singular matrix in linear system"@,
        RateError::Overflow => "Arithmetic overflow in linear system"@,
    }
}

/// A pin taking part in a rate computation.
#[derive(Debug, Clone, Copy, PartialEq, Eq, Structural)]
pub struct PinConstraint {
    pub pin_id: u64,
    pub node_id: u64,
    pub is_locked: bool,
}

/// The other end of each link at the pin, in link order; each link is an
/// (output pin, input pin) pair.
pub open spec fn other_ends(links: Seq<(u64, u64)>, pid: u64) -> Seq<u64>
    decreases links.len(),
{
    if links.len() == 0 {
        Seq::empty()
    } else {
        let rest = other_ends(links.drop_last(), pid);
        let l = links.last();
        if l.0 == pid {
            rest.push(l.1)
        } else if l.1 == pid {
            rest.push(l.0)
        } else {
            rest
        }
    }
}

/// The pins linked to a pin: for each link at it, in order, its other end.
pub fn find_connected_pins(pin_id: u64, all_links: &[(u64, u64)]) -> (r: Vec<u64>)
    ensures
        r@ == other_ends(all_links@, pin_id),
{
    let mut connected: Vec<u64> = Vec::new();
    let mut i: usize = 0;
    while i < all_links.len()
        invariant
            0 <= i <= all_links@.len(),
            connected@ == other_ends(all_links@.subrange(0, i as int), pin_id),
        decreases all_links.len() - i,
    {
        proof {
            assert(all_links@.subrange(0, i + 1).drop_last() =~= all_links@.subrange(0, i as int));
        }
        let (output, input) = all_links[i];
        if output == pin_id {
            connected.push(input);
        } else if input == pin_id {
            connected.push(output);
        }
        i += 1;
    }
    proof {
        assert(all_links@.subrange(0, all_links@.len() as int) =~= all_links@);
    }
    connected
}

/// A valid rate is not negative.
pub fn validate_rate(rate: &FractionalNumber) -> (r: bool)
    ensures
        r == (rate@.0 >= 0),
{
    proof {
        use_type_invariant(rate);
    }
    rate.numerator() >= 0 && rate.denominator() > 0
}

/// Values of a sequence of fractions.
pub open spec fn fview(v: Seq<FractionalNumber>) -> Seq<(int, int)> {
    v.map_values(|f: FractionalNumber| f@)
}

/// Values of a matrix of fractions.
pub open spec fn mview(m: Seq<Vec<FractionalNumber>>) -> Seq<Seq<(int, int)>> {
    m.map_values(|r: Vec<FractionalNumber>| fview(r@))
}

/// The augmented matrix `[coefficients | constants]`.
pub open spec fn augmented(
    coefficients: Seq<Vec<FractionalNumber>>,
    constants: Seq<FractionalNumber>,
) -> Seq<Seq<(int, int)>> {
    Seq::new(
        coefficients.len(),
        |i: int| fview(coefficients[i]@).push(constants[i]@),
    )
}

/// Gaussian elimination solver for `Ax = b` over exact rationals.
pub struct LinearSolver {
    /// Augmented matrix [A|b]
    matrix: Vec<Vec<FractionalNumber>>,
    num_variables: usize,
}

impl LinearSolver {
    #[verifier::type_invariant]
    closed spec fn inv(self) -> bool {
        mat_wf(mview(self.matrix@), self.num_variables as int)
    }

    /// The augmented matrix of the system.
    pub closed spec fn system(self) -> Seq<Seq<(int, int)>> {
        mview(self.matrix@)
    }

    /// The number of unknowns.
    pub closed spec fn num_vars(self) -> nat {
        self.num_variables as nat
    }

    /// A solver for `coefficients * x = constants`.
    pub fn new(coefficients: Vec<Vec<FractionalNumber>>, constants: Vec<FractionalNumber>) -> (r:
        Result<Self, RateError>)
        ensures
            coefficients.len() == 0 ==> r == Err::<Self, RateError>(RateError::NoSolution),
            coefficients.len() > 0 && (exists|i: int|
                0 <= i < coefficients.len() && #[trigger] coefficients[i].len()
                    != coefficients[0].len()) ==> r == Err::<Self, RateError>(
                RateError::Contradiction),
            coefficients.len() > 0 && (forall|i: int|
                0 <= i < coefficients.len() ==> #[trigger] coefficients[i].len()
                    == coefficients[0].len()) && constants.len() != coefficients.len() ==> r
                == Err::<Self, RateError>(RateError::Contradiction),
            coefficients.len() > 0 && (forall|i: int|
                0 <= i < coefficients.len() ==> #[trigger] coefficients[i].len()
                    == coefficients[0].len()) && constants.len() == coefficients.len() ==> (r
                matches Ok(s) && s.num_vars() == coefficients[0].len() && s.system()
                =~= augmented(coefficients@, constants@)),
    {
        if coefficients.len() == 0 {
            return Err(RateError::NoSolution);
        }
        let num_variables = coefficients[0].len();
        let num_equations = coefficients.len();
        let mut q: usize = 0;
        while q < num_equations
            invariant
                0 <= q <= num_equations,
                num_equations == coefficients.len(),
                num_variables == coefficients[0].len(),
                forall|i: int| 0 <= i < q ==> #[trigger] coefficients[i].len() == num_variables,
            decreases num_equations - q,
        {
            if coefficients[q].len() != num_variables {
                return Err(RateError::Contradiction);
            }
            q += 1;
        }
        if constants.len() != num_equations {
            return Err(RateError::Contradiction);
        }
        let mut matrix: Vec<Vec<FractionalNumber>> = Vec::new();
        let mut i: usize = 0;
        while i < num_equations
            invariant
                0 <= i <= num_equations,
                num_equations == coefficients.len(),
                num_equations == constants.len(),
                num_variables == coefficients[0].len(),
                forall|t: int| 0 <= t < num_equations ==> #[trigger] coefficients[t].len() == num_variables,
                matrix.len() == i,
                forall|t: int|
                    0 <= t < i ==> #[trigger] fview(matrix[t]@) == fview(coefficients[t]@).push(
                        constants[t]@,
                    ),
                mat_wf(mview(matrix@), num_variables as int),
            decreases num_equations - i,
        {
            let mut row: Vec<FractionalNumber> = Vec::new();
            let mut j: usize = 0;
            while j < num_variables
                invariant
                    0 <= j <= num_variables,
                    i < num_equations,
                    num_equations == coefficients.len(),
                    coefficients[i as int].len() == num_variables,
                    row.len() == j,
                    forall|t: int| 0 <= t < j ==> #[trigger] row[t] == coefficients[i as int][t],
                    seq_wf(fview(row@)),
                decreases num_variables - j,
            {
                let v = coefficients[i][j];
                proof {
                    use_type_invariant(&v);
                }
                let ghost old_row = row@;
                row.push(v);
                assert(fview(row@) =~= fview(old_row).push(v@));
                j += 1;
            }
            let c = constants[i];
            proof {
                use_type_invariant(&c);
            }
            let ghost old_row = row@;
            row.push(c);
            assert(fview(row@) =~= fview(old_row).push(c@));
            assert(fview(row@) =~= fview(coefficients[i as int]@).push(constants[i as int]@));
            let ghost old_m = matrix@;
            matrix.push(row);
            assert(mview(matrix@) =~= mview(old_m).push(fview(row@)));
            i += 1;
        }
        let s = LinearSolver { matrix, num_variables };
        assert(s.system() =~= augmented(coefficients@, constants@)) by {
            assert forall|t: int| 0 <= t < num_equations implies #[trigger] s.system()[t]
                == augmented(coefficients@, constants@)[t] by {
                assert(fview(matrix[t]@) == fview(coefficients[t]@).push(constants[t]@));
            }
        }
        Ok(s)
    }


    /// Solve the linear system by Gaussian elimination with partial pivoting.
    /// Free unknowns are set to zero.
    pub fn solve(self) -> (r: Result<Vec<FractionalNumber>, RateError>)
        ensures
            r matches Ok(x) ==> x.len() == self.num_vars() && candidate(fview(x@), self.num_vars() as int) && sys_sat(
                self.system(),
                fview(x@),
                self.num_vars() as int,
            ) && forall|j: int| 0 <= j < x.len() ==> (#[trigger] x[j])@.0 >= 0,
            r == Err::<Vec<FractionalNumber>, RateError>(RateError::Contradiction) ==> forall|
                x: Seq<(int, int)>,
            |
                candidate(x, self.num_vars() as int) ==> !sys_sat(
                    self.system(),
                    x,
                    self.num_vars() as int,
                ),
            r == Err::<Vec<FractionalNumber>, RateError>(RateError::NegativeRate) ==> exists|
                x: Seq<(int, int)>,
            |
                candidate(x, self.num_vars() as int) && sys_sat(
                    self.system(),
                    x,
                    self.num_vars() as int,
                ) && exists|j: int| 0 <= j < x.len() && (#[trigger] x[j]).0 < 0,
            r matches Err(e) ==> e == RateError::Contradiction || e == RateError::NegativeRate
                || e == RateError::Overflow,
            r matches Ok(x) ==> solve_outcome(self.system(), self.num_vars() as int) == Ok::<Seq<(int, int)>, RateError>(fview(x@)),
            r matches Err(e) ==> solve_outcome(self.system(), self.num_vars() as int) == Err::<Seq<(int, int)>, RateError>(e),
    {
        proof {
            use_type_invariant(&self);
        }
        let ghost orig = self.system();
        let n = self.num_variables;
        let ghost ni = n as int;
        let mut m = self.matrix;
        let m_len = m.len();
        let mut h: usize = 0;
        let mut k: usize = 0;
        let ghost mut piv: Seq<int> = Seq::empty();
        while h < m_len && k < n
            invariant
                m@.len() == m_len,
                ni == n as int,
                mat_wf(mview(m@), ni),
                sys_equiv(mview(m@), orig, ni),
                h <= k <= n,
                h <= m_len,
                echelon(mview(m@), piv, h as int, k as int),
                below_zero(mview(m@), h as int, k as int),
                forward(mview(m@), h as int, k as int, ni) == forward(orig, 0, 0, ni),
                orig == self.system(),
                ni == self.num_vars(),
            decreases n - k,
        {
            let ghost mv0 = mview(m@);
            proof {
                assert(mview(m@)[h as int].len() == n + 1);
            }
            // Find the row with the largest absolute value in column k.
            let mut pivot_row: usize = h;
            let mut i: usize = h + 1;
            while i < m_len
                invariant
                    h < m_len,
                    k < n,
                    m@.len() == m_len,
                    mat_wf(mview(m@), ni),
                    ni == n as int,
                    h <= pivot_row < m_len,
                    h + 1 <= i <= m_len,
                    mv0 == mview(m@),
                    pivot_row == pivot_upto(mv0, h as int, k as int, i as int),
                    mview(m@)[pivot_row as int][k as int].0 == 0 ==> forall|r: int|
                        h <= r < i ==> (#[trigger] mview(m@)[r])[k as int].0 == 0,
                decreases m_len - i,
            {
                proof {
                    assert(mview(m@)[i as int].len() == n + 1);
                    assert(mview(m@)[pivot_row as int].len() == n + 1);
                    assert(m@[i as int]@.len() == n + 1);
                    assert(m@[pivot_row as int]@.len() == n + 1);
                }
                if m[i][k].abs_gt(&m[pivot_row][k]) {
                    proof {
                        let a = mview(m@)[i as int][k as int];
                        let p = mview(m@)[pivot_row as int][k as int];
                        assert(seq_wf(mview(m@)[pivot_row as int]));
                        assert(seq_wf(mview(m@)[i as int]));
                        assert(qwf(p) && qwf(a));
                        assert(iabs(a.0) * p.1 > iabs(p.0) * a.1);
                        assert(a.0 != 0) by (nonlinear_arith)
                            requires
                                iabs(a.0) * p.1 > iabs(p.0) * a.1,
                                a.1 > 0,
                                iabs(a.0) == (if a.0 < 0 { -a.0 } else { a.0 }),
                                iabs(p.0) >= 0,
                        ;
                    }
                    pivot_row = i;
                } else {
                    proof {
                        let a = mview(m@)[i as int][k as int];
                        let p = mview(m@)[pivot_row as int][k as int];
                        assert(seq_wf(mview(m@)[pivot_row as int]));
                        assert(qwf(p));
                        assert(qwf(a));
                        if p.0 == 0 {
                            assert(iabs(a.0) * p.1 <= iabs(p.0) * a.1);
                            assert(iabs(a.0) == 0) by (nonlinear_arith)
                                requires
                                    iabs(a.0) * p.1 <= iabs(p.0) * a.1,
                                    iabs(p.0) == 0,
                                    p.1 > 0,
                            ;
                        }
                    }
                }
                i += 1;
            }
            proof {
                assert(m@[pivot_row as int]@.len() == n + 1);
            }
            if m[pivot_row][k].numerator() == 0 {
                proof {
                    assert(forward(mv0, h as int, k as int, ni) == forward(mv0, h as int, k + 1, ni));
                    assert forall|r: int, j: int|
                        h <= r < mview(m@).len() && 0 <= j < k + 1 implies (
                    #[trigger] mview(m@)[r][j]).0 == 0 by {
                        if j < k {
                            assert(below_zero(mview(m@), h as int, k as int));
                        } else {
                            assert(mview(m@)[r][k as int].0 == 0);
                        }
                    }
                }
                k += 1;
                continue;
            }
            // Move the pivot row up to row h.

            if pivot_row != h {
                let ghost before = mview(m@);
                let mut tmp: Vec<FractionalNumber> = Vec::new();
                std::mem::swap(&mut m[pivot_row], &mut tmp);
                std::mem::swap(&mut m[h], &mut tmp);
                m[pivot_row] = tmp;
                proof {
                    assert(mview(m@) =~= before.update(h as int, before[pivot_row as int]).update(
                        pivot_row as int,
                        before[h as int],
                    ));
                    lemma_swap_equiv(before, h as int, pivot_row as int, ni);
                    lemma_equiv_trans(mview(m@), before, orig, ni);
                    assert(echelon(mview(m@), piv, h as int, k as int));
                    assert(below_zero(mview(m@), h as int, k as int));
                }
            }
            let ghost m1 = mview(m@);
            proof {
                assert(mview(m@)[h as int][k as int].0 != 0);
                if pivot_row == h {
                    assert(swap_rows(mv0, h as int, h as int) =~= mv0);
                }
                assert(m1 == swap_rows(mv0, h as int, pivot_row as int));
                assert(forward(orig, 0, 0, ni) == (match elim_rows(m1, h as int, k as int, ni, h + 1) {
                    None => None,
                    Some(m2) => forward(m2, h + 1, k + 1, ni),
                }));
            }
            // Eliminate column k below the pivot.

            let mut i: usize = h + 1;
            while i < m_len
                invariant
                    h < m_len,
                    k < n,
                    m@.len() == m_len,
                    ni == n as int,
                    forward(orig, 0, 0, ni) == (match elim_rows(m1, h as int, k as int, ni, h + 1) {
                        None => None,
                        Some(m2) => forward(m2, h + 1, k + 1, ni),
                    }),
                    elim_rows(mview(m@), h as int, k as int, ni, i as int) == elim_rows(m1, h as int, k as int, ni, h + 1),
                    orig == self.system(),
                    ni == self.num_vars(),
                    mat_wf(mview(m@), ni),
                    sys_equiv(mview(m@), orig, ni),
                    h + 1 <= i <= m_len,
                    mview(m@)[h as int][k as int].0 != 0,
                    echelon(mview(m@), piv, h as int, k as int),
                    below_zero(mview(m@), h as int, k as int),
                    forall|r: int| h + 1 <= r < i ==> (#[trigger] mview(m@)[r])[k as int].0 == 0,
                decreases m_len - i,
            {
                let ghost before = mview(m@);
                proof {
                    assert(before[i as int].len() == n + 1);
                    assert(before[h as int].len() == n + 1);
                    assert(m@[i as int]@.len() == n + 1);
                    assert(m@[h as int]@.len() == n + 1);
                    assert(seq_wf(before[i as int]));
                    assert(seq_wf(before[h as int]));
                }
                let factor = match m[i][k].checked_div(m[h][k]) {
                    Some(f) => f,
                    None => {
                        proof {
                            assert(elim_row(before[i as int], before[h as int], k as int, ni) is None);
                            assert(elim_rows(before, h as int, k as int, ni, i as int) is None);
                            assert(forward(orig, 0, 0, ni) is None);
                        }
                        return Err(RateError::Overflow);
                    },
                };
                proof {
                    use_type_invariant(&factor);
                    lemma_qdiv_wf(before[i as int][k as int], before[h as int][k as int]);
                    lemma_qcanon(factor@, qdiv(before[i as int][k as int], before[h as int][k as int]));
                }
                let ghost fq = factor@;
                let ghost bi = before[i as int];
                let ghost bh = before[h as int];
                let mut new_row: Vec<FractionalNumber> = Vec::new();
                let mut j: usize = 0;
                proof {
                    assert(m@[i as int].len() == n + 1);
                }
                while j <= n
                    invariant
                        0 <= j <= n + 1,
                        n < usize::MAX,
                        i < m_len,
                        h < m_len,
                        k < n,
                        m@.len() == m_len,
                        before == mview(m@),
                        bi == before[i as int],
                        bh == before[h as int],
                        bi.len() == n + 1,
                        bh.len() == n + 1,
                        m@[i as int]@.len() == n + 1,
                        m@[h as int]@.len() == n + 1,
                        seq_wf(bi),
                        seq_wf(bh),
                        qwf(fq),
                        fq == factor@,
                        qeq(fq, qdiv(bi[k as int], bh[k as int])),
                        bh[k as int].0 != 0,
                        forall|t: int| 0 <= t < k ==> (#[trigger] bi[t]).0 == 0 && bh[t].0 == 0,
                        new_row.len() == j,
                        seq_wf(fview(new_row@)),
                        forall|t: int|
                            0 <= t < j ==> qeq(
                                #[trigger] fview(new_row@)[t],
                                qsub(bi[t], qmul(fq, bh[t])),
                            ),
                        forall|t: int| 0 <= t < j && t <= k ==> (#[trigger] fview(new_row@)[t]).0 == 0,
                        fq == qcanon(qdiv(bi[k as int], bh[k as int])),
                        elim_entries(bi, bh, fq, k as int, j as int) == Some(fview(new_row@)),
                        forward(orig, 0, 0, ni) == (match elim_rows(m1, h as int, k as int, ni, h + 1) {
                            None => None,
                            Some(m2) => forward(m2, h + 1, k + 1, ni),
                        }),
                        elim_rows(before, h as int, k as int, ni, i as int) == elim_rows(m1, h as int, k as int, ni, h + 1),
                        div_fits(bi[k as int], bh[k as int]),
                        orig == self.system(),
                        ni == self.num_vars(),
                        ni == n as int,
                    decreases n + 1 - j,
                {
                    let ghost old_row = new_row@;
                    if j < k {
                        let v = m[i][j];
                        proof {
                            use_type_invariant(&v);
                            lemma_zero_sub_mul(bi[j as int], fq, bh[j as int]);
                            lemma_zeros_eq(v@, qsub(bi[j as int], qmul(fq, bh[j as int])));
                        }
                        new_row.push(v);
                    } else if j == k {
                        let v = FractionalNumber::zero();
                        proof {
                            use_type_invariant(&v);
                            let a = bi[k as int];
                            let b = bh[k as int];
                            lemma_qdiv_wf(a, b);
                            lemma_qeq_refl(b);
                            lemma_qmul_cong(fq, qdiv(a, b), b, b);
                            lemma_div_mul_cancel(a, b);
                            lemma_qwf_ops(fq, b);
                            lemma_qwf_ops(qdiv(a, b), b);
                            lemma_qeq_trans(qmul(fq, b), qmul(qdiv(a, b), b), a);
                            lemma_qeq_sym(qmul(fq, b), a);
                            lemma_sub_same(a, qmul(fq, b));
                            lemma_zeros_eq(v@, qsub(a, qmul(fq, b)));
                        }
                        new_row.push(v);
                    } else {
                        proof {
                            assert(bh[j as int] == m@[h as int]@[j as int]@);
                            assert(bi[j as int] == m@[i as int]@[j as int]@);
                        }
                        let p = match factor.checked_mul(m[h][j]) {
                            Some(p) => p,
                            None => {
                                proof {
                                    assert(elim_entries(bi, bh, fq, k as int, j + 1) is None);
                                    lemma_elim_entries_none(bi, bh, fq, k as int, j + 1, ni + 1);
                                    assert(elim_rows(before, h as int, k as int, ni, i as int) is None);
                                }
                                return Err(RateError::Overflow);
                            },
                        };
                        proof {
                            use_type_invariant(&p);
                            lemma_qwf_ops(fq, bh[j as int]);
                            lemma_qcanon(p@, qmul(fq, bh[j as int]));
                        }
                        let d = match m[i][j].checked_sub(p) {
                            Some(d) => d,
                            None => {
                                proof {
                                    assert(elim_entries(bi, bh, fq, k as int, j + 1) is None);
                                    lemma_elim_entries_none(bi, bh, fq, k as int, j + 1, ni + 1);
                                    assert(elim_rows(before, h as int, k as int, ni, i as int) is None);
                                }
                                return Err(RateError::Overflow);
                            },
                        };
                        proof {
                            use_type_invariant(&d);
                            lemma_qwf_ops(bi[j as int], p@);
                            lemma_qcanon(d@, qsub(bi[j as int], p@));
                            let a = bi[j as int];
                            let b = bh[j as int];
                            lemma_qwf_ops(fq, b);
                            lemma_qeq_refl(a);
                            lemma_qsub_cong(a, a, p@, qmul(fq, b));
                            lemma_qwf_ops(a, p@);
                            lemma_qeq_trans(d@, qsub(a, p@), qsub(a, qmul(fq, b)));
                        }
                        new_row.push(d);
                    }
                    proof {
                        assert(fview(new_row@) =~= fview(old_row).push(new_row@[j as int]@));
                    }
                    j += 1;
                }
                proof {
                    assert(fview(new_row@).len() == n + 1);
                    lemma_row_op_equiv(before, i as int, h as int, fview(new_row@), fq, ni);
                    assert(elim_row(bi, bh, k as int, ni) == Some(fview(new_row@)));
                }
                m[i] = new_row;
                proof {
                    assert(mview(m@) =~= before.update(i as int, fview(new_row@)));
                    assert(elim_rows(before, h as int, k as int, ni, i as int) == elim_rows(mview(m@), h as int, k as int, ni, i + 1));
                    lemma_equiv_trans(mview(m@), before, orig, ni);
                    let mv = mview(m@);
                    assert forall|r: int, j: int|
                        h <= r < mv.len() && 0 <= j < k implies (#[trigger] mv[r][j]).0 == 0 by {
                        if r != i {
                            assert(mv[r] == before[r]);
                        } else {
                            assert(mv[r] == fview(new_row@));
                            assert(qeq(fview(new_row@)[j], qsub(bi[j], qmul(fq, bh[j]))));
                            lemma_zero_sub_mul(bi[j], fq, bh[j]);
                            assert(seq_wf(fview(new_row@)));
                            lemma_qwf_ops(fq, bh[j]);
                            lemma_qwf_ops(bi[j], qmul(fq, bh[j]));
                            lemma_eq_zero(fview(new_row@)[j], qsub(bi[j], qmul(fq, bh[j])));
                        }
                    }
                    assert forall|r: int| h + 1 <= r < i + 1 implies (#[trigger] mv[r])[k as int].0
                        == 0 by {
                        if r != i {
                            assert(mv[r] == before[r]);
                        }
                    }
                    assert(echelon(mv, piv, h as int, k as int)) by {
                        assert forall|r: int| 0 <= r < h implies mv[r] == before[r] by {}
                    }
                }
                i += 1;
            }
            proof {
                let mv = mview(m@);
                let npiv = piv.push(k as int);
                assert(mv[h as int].len() == n + 1);
                assert forall|r: int, j: int|
                    0 <= r < h + 1 && 0 <= j < npiv[r] implies (#[trigger] mv[r][j]).0 == 0 by {
                    if r < h {
                        assert(echelon(mv, piv, h as int, k as int));
                    } else {
                        assert(below_zero(mv, h as int, k as int));
                    }
                }
                assert(echelon(mv, npiv, h + 1, k + 1));
                assert(elim_rows(mv, h as int, k as int, ni, m_len as int) == Some(mv));
                assert forall|r: int, j: int|
                    h + 1 <= r < mv.len() && 0 <= j < k + 1 implies (#[trigger] mv[r][j]).0
                    == 0 by {
                    if j < k {
                        assert(below_zero(mv, h as int, k as int));
                    } else {
                        assert(mv[r][k as int].0 == 0);
                    }
                }
                piv = npiv;
            }
            h += 1;
            k += 1;
        }
        proof {
            assert(forward(mview(m@), h as int, k as int, ni) == Some((mview(m@), h as int, k as int)));
        }
        // Rows below h have no non-zero coefficient: a non-zero constant there is a contradiction.

        let mut i: usize = h;
        while i < m_len
            invariant
                m@.len() == m_len,
                ni == n as int,
                forward(orig, 0, 0, ni) == Some((mview(m@), h as int, k as int)),
                mat_wf(mview(m@), ni),
                sys_equiv(mview(m@), orig, ni),
                h <= k <= n,
                h <= m_len,
                h == m_len || k == n,
                echelon(mview(m@), piv, h as int, k as int),
                below_zero(mview(m@), h as int, k as int),
                h <= i <= m_len,
                forall|r: int| h <= r < i ==> (#[trigger] mview(m@)[r])[ni].0 == 0,
                orig == self.system(),
                ni == self.num_vars(),
            decreases m_len - i,
        {
            proof {
                assert(mview(m@)[i as int].len() == n + 1);
                assert(m@[i as int]@.len() == n + 1);
            }
            if m[i][n].numerator() != 0 {
                proof {
                    let mv = mview(m@);
                    assert(k == n);
                    assert forall|x: Seq<(int, int)>| candidate(x, ni) implies !sys_sat(
                        orig,
                        x,
                        ni,
                    ) by {
                        assert(mv[i as int].len() == n + 1);
                        assert forall|j: int| 0 <= j < ni implies (#[trigger] mv[i as int][j]).0
                            == 0 by {
                            assert(below_zero(mv, h as int, k as int));
                        }
                        lemma_dot_zero(mv[i as int], x, 0, ni);
                        lemma_dot_wf(mv[i as int], x, 0, ni);
                        if sys_sat(mv, x, ni) {
                            assert(row_sat(mv[i as int], x, ni));
                            assert(seq_wf(mv[i as int]));
                            lemma_qeq_sym(dot(mv[i as int], x, 0, ni), mv[i as int][ni]);
                            lemma_eq_zero(mv[i as int][ni], dot(mv[i as int], x, 0, ni));
                        }
                    }
                    assert(mv[i as int][ni].0 != 0);
                    assert(exists|r: int| h <= r < mv.len() && (#[trigger] mv[r])[ni].0 != 0);
                }
                return Err(RateError::Contradiction);
            }
            i += 1;
        }
        // Back substitution.

        let mut sol: Vec<FractionalNumber> = Vec::new();
        let mut t: usize = 0;
        while t < n
            invariant
                0 <= t <= n,
                sol.len() == t,
                forall|q: int| 0 <= q < t ==> (#[trigger] sol[q])@ == qzero(),
            decreases n - t,
        {
            sol.push(FractionalNumber::zero());
            t += 1;
        }
        let ghost zeros = Seq::new(n as nat, |j: int| qzero());
        proof {
            assert(seq_wf(fview(sol@)));
            assert(fview(sol@) =~= zeros);
            assert(!exists|r: int| h <= r < mview(m@).len() && (#[trigger] mview(m@)[r])[ni].0 != 0);
        }
        let mut i: usize = h;
        while i > 0
            invariant
                m@.len() == m_len,
                ni == n as int,
                forward(orig, 0, 0, ni) == Some((mview(m@), h as int, k as int)),
                forall|r: int| h <= r < m_len ==> (#[trigger] mview(m@)[r])[ni].0 == 0,
                zeros == Seq::new(n as nat, |j: int| qzero()),
                back(mview(m@), ni, i as int, fview(sol@)) == back(mview(m@), ni, h as int, zeros),
                orig == self.system(),
                ni == self.num_vars(),
                mat_wf(mview(m@), ni),
                h <= k <= n,
                h <= m_len,
                echelon(mview(m@), piv, h as int, k as int),
                0 <= i <= h,
                sol.len() == n,
                seq_wf(fview(sol@)),
                forall|r: int| i <= r < h ==> row_sat(#[trigger] mview(m@)[r], fview(sol@), ni),
            decreases i,
        {
            i -= 1;
            let ghost mv = mview(m@);
            let ghost row = mv[i as int];
            proof {
                assert(row.len() == n + 1);
                assert(m@[i as int]@.len() == n + 1);
                assert(seq_wf(row));
                assert(0 <= piv[i as int] < k);
            }
            let mut pc: usize = 0;
            let ghost x0 = fview(sol@);
            proof {
                assert(back(mv, ni, i + 1, x0) == back(mv, ni, h as int, zeros));
                assert forall|q: int| 0 <= q < piv[i as int] implies (#[trigger] row[q]).0 == 0 by {
                    assert(echelon(mv, piv, h as int, k as int));
                }
                assert forall|q: int| 0 <= q <= n implies (#[trigger] m@[i as int]@[q])@ == row[q] by {
                    assert(row == fview(m@[i as int]@));
                }
            }
            while pc < n && m[i][pc].numerator() == 0
                invariant
                    i < m@.len(),
                    0 <= pc <= piv[i as int],
                    piv[i as int] < n,
                    m@[i as int]@.len() == n + 1,
                    mv == mview(m@),
                    row == mv[i as int],
                    row[piv[i as int]].0 != 0,
                    forall|q: int| 0 <= q < piv[i as int] ==> (#[trigger] row[q]).0 == 0,
                    forall|q: int| 0 <= q <= n ==> (#[trigger] m@[i as int]@[q])@ == row[q],
                    first_nonzero(row, pc as int, ni) == first_nonzero(row, 0, ni),
                    ni == n as int,
                    x0 == fview(sol@),
                    back(mv, ni, i + 1, x0) == back(mv, ni, h as int, zeros),
                    forward(orig, 0, 0, ni) == Some((mview(m@), h as int, k as int)),
                    forall|r: int| h <= r < m_len ==> (#[trigger] mview(m@)[r])[ni].0 == 0,
                    i < h,
                    h <= m_len,
                    m@.len() == m_len,
                    zeros == Seq::new(n as nat, |j: int| qzero()),
                    orig == self.system(),
                    ni == self.num_vars(),
                decreases n - pc,
            {
                proof {
                    assert(m@[i as int]@[pc as int]@ == row[pc as int]);
                }
                pc += 1;
            }
            proof {
                assert(pc == piv[i as int]);
                assert(first_nonzero(row, 0, ni) == pc);
            }
            let mut sum = FractionalNumber::zero();
            let mut j: usize = pc + 1;
            proof {
                lemma_qeq_refl(qzero());
            }
            while j < n
                invariant
                    i < m@.len(),
                    forall|q: int| 0 <= q <= n ==> (#[trigger] m@[i as int]@[q])@ == row[q],
                    forall|q: int| 0 <= q < n ==> (#[trigger] sol@[q])@ == x0[q],
                    pc < n,
                    pc + 1 <= j <= n,
                    m@[i as int]@.len() == n + 1,
                    mv == mview(m@),
                    row == mv[i as int],
                    row.len() == n + 1,
                    seq_wf(row),
                    sol.len() == n,
                    x0 == fview(sol@),
                    seq_wf(x0),
                    qwf(sum@),
                    qeq(sum@, dot(row, x0, pc + 1, j as int)),
                    row_sum(row, x0, pc + 1, j as int) == Some(sum@),
                    first_nonzero(row, 0, ni) == pc,
                    back(mv, ni, i + 1, x0) == back(mv, ni, h as int, zeros),
                    forward(orig, 0, 0, ni) == Some((mview(m@), h as int, k as int)),
                    forall|r: int| h <= r < m_len ==> (#[trigger] mview(m@)[r])[ni].0 == 0,
                    i < h,
                    h <= m_len,
                    m@.len() == m_len,
                    zeros == Seq::new(n as nat, |j: int| qzero()),
                    orig == self.system(),
                    ni == self.num_vars(),
                    ni == n as int,
                decreases n - j,
            {
                proof {
                    assert(m@[i as int]@[j as int]@ == row[j as int]);
                    assert(sol@[j as int]@ == x0[j as int]);
                }
                let p = match m[i][j].checked_mul(sol[j]) {
                    Some(p) => p,
                    None => {
                        proof {
                            assert(row_sum(row, x0, pc + 1, j + 1) is None);
                            lemma_row_sum_none(row, x0, pc + 1, j + 1, ni);
                            assert(back(mv, ni, i + 1, x0) is None);
                            assert(!exists|r: int| h <= r < mview(m@).len() && (#[trigger] mview(m@)[r])[ni].0 != 0);
                        }
                        return Err(RateError::Overflow);
                    },
                };
                proof {
                    use_type_invariant(&p);
                    lemma_qwf_ops(row[j as int], x0[j as int]);
                    lemma_qcanon(p@, qmul(row[j as int], x0[j as int]));
                }
                let s2 = match sum.checked_add(p) {
                    Some(s2) => s2,
                    None => {
                        proof {
                            assert(row_sum(row, x0, pc + 1, j + 1) is None);
                            lemma_row_sum_none(row, x0, pc + 1, j + 1, ni);
                            assert(back(mv, ni, i + 1, x0) is None);
                            assert(!exists|r: int| h <= r < mview(m@).len() && (#[trigger] mview(m@)[r])[ni].0 != 0);
                        }
                        return Err(RateError::Overflow);
                    },
                };
                proof {
                    use_type_invariant(&s2);
                    lemma_qwf_ops(sum@, p@);
                    lemma_qcanon(s2@, qadd(sum@, p@));
                    assert(row_sum(row, x0, pc + 1, j + 1) == Some(s2@));
                    let d = dot(row, x0, pc + 1, j as int);
                    lemma_dot_wf(row, x0, pc + 1, j as int);
                    lemma_qwf_ops(row[j as int], x0[j as int]);
                    lemma_qadd_cong(sum@, d, p@, qmul(row[j as int], x0[j as int]));
                    lemma_qwf_ops(sum@, p@);
                    lemma_qeq_trans(s2@, qadd(sum@, p@), dot(row, x0, pc + 1, j + 1));
                }
                sum = s2;
                j += 1;
            }
            proof {
                assert(m@[i as int]@[ni]@ == row[ni]);
                assert(m@[i as int]@[pc as int]@ == row[pc as int]);
                assert(row_sum(row, x0, pc + 1, ni) == Some(sum@));
            }
            let diff = match m[i][n].checked_sub(sum) {
                Some(d) => d,
                None => {
                    proof {
                        assert(back(mv, ni, i + 1, x0) is None);
                        assert(!exists|r: int| h <= r < mview(m@).len() && (#[trigger] mview(m@)[r])[ni].0 != 0);
                    }
                    return Err(RateError::Overflow);
                },
            };
            proof {
                use_type_invariant(&diff);
                lemma_qwf_ops(row[ni], sum@);
                lemma_qcanon(diff@, qsub(row[ni], sum@));
            }
            let val = match diff.checked_div(m[i][pc]) {
                Some(v) => v,
                None => {
                    proof {
                        assert(back(mv, ni, i + 1, x0) is None);
                        assert(!exists|r: int| h <= r < mview(m@).len() && (#[trigger] mview(m@)[r])[ni].0 != 0);
                    }
                    return Err(RateError::Overflow);
                },
            };
            proof {
                use_type_invariant(&val);
                lemma_qdiv_wf(diff@, row[pc as int]);
                lemma_qcanon(val@, qdiv(diff@, row[pc as int]));
            }
            sol[pc] = val;
            proof {
                let x1 = fview(sol@);
                assert(x1 =~= x0.update(pc as int, val@));
                assert(back(mv, ni, i + 1, x0) == back(mv, ni, i as int, x1));
                assert(seq_wf(x1));
                // Rows below i stay satisfied: their coefficient at column pc is zero.
                assert forall|r: int| i + 1 <= r < h implies row_sat(
                    #[trigger] mview(m@)[r],
                    x1,
                    ni,
                ) by {
                    let rr = mv[r];
                    assert(piv[i as int] < piv[r]);
                    assert(rr[pc as int].0 == 0);
                    assert(rr.len() == n + 1 && seq_wf(rr));
                    assert forall|q: int| 0 <= q < ni implies qeq(
                        #[trigger] qmul(rr[q], x1[q]),
                        qmul(rr[q], x0[q]),
                    ) by {
                        if q == pc {
                            lemma_mul_zero_eq(rr[q], x1[q], x0[q]);
                        } else {
                            lemma_qeq_refl(qmul(rr[q], x1[q]));
                        }
                    }
                    lemma_dot_cong(rr, x1, rr, x0, 0, ni);
                    assert(row_sat(rr, x0, ni));
                    lemma_dot_wf(rr, x1, 0, ni);
                    lemma_dot_wf(rr, x0, 0, ni);
                    lemma_qeq_trans(dot(rr, x1, 0, ni), dot(rr, x0, 0, ni), rr[ni]);
                }
                // Row i is satisfied by construction.
                let c = row[ni];
                let a = row[pc as int];
                let z = dot(row, x1, 0, pc as int);
                let tq = qmul(a, x1[pc as int]);
                let s1 = dot(row, x1, pc + 1, ni);
                assert forall|q: int| 0 <= q < pc implies (#[trigger] row[q]).0 == 0 by {}
                lemma_dot_zero(row, x1, 0, pc as int);
                lemma_dot_wf(row, x1, 0, pc as int);
                lemma_dot_wf(row, x1, pc + 1, ni);
                lemma_dot_wf(row, x0, pc + 1, ni);
                lemma_qwf_ops(a, x1[pc as int]);
                // s1 == dot over x0 == sum
                assert forall|q: int| pc + 1 <= q < ni implies qeq(
                    #[trigger] qmul(row[q], x1[q]),
                    qmul(row[q], x0[q]),
                ) by {
                    lemma_qeq_refl(qmul(row[q], x1[q]));
                }
                lemma_dot_cong(row, x1, row, x0, pc + 1, ni);
                lemma_qeq_sym(sum@, dot(row, x0, pc + 1, ni));
                lemma_qeq_trans(s1, dot(row, x0, pc + 1, ni), sum@);
                // tq == a * (diff / a) == diff == c - sum == c - s1
                lemma_qdiv_wf(diff@, a);
                lemma_qeq_refl(a);
                lemma_qmul_cong(a, a, val@, qdiv(diff@, a));
                lemma_div_mul_cancel(diff@, a);
                lemma_qwf_ops(a, qdiv(diff@, a));
                lemma_qeq_trans(tq, qmul(a, qdiv(diff@, a)), diff@);
                lemma_qwf_ops(c, sum@);
                lemma_qeq_trans(tq, diff@, qsub(c, sum@));
                lemma_qeq_refl(c);
                lemma_qeq_sym(s1, sum@);
                lemma_qsub_cong(c, c, sum@, s1);
                lemma_qwf_ops(c, s1);
                lemma_qeq_trans(tq, qsub(c, sum@), qsub(c, s1));
                lemma_backsub_close(z, tq, s1, c);
                lemma_dot_split(row, x1, 0, pc + 1, ni);
                assert(dot(row, x1, 0, pc + 1) == qadd(z, tq));
                lemma_qwf_ops(z, tq);
                lemma_qwf_ops(qadd(z, tq), s1);
                lemma_qeq_trans(dot(row, x1, 0, ni), qadd(qadd(z, tq), s1), c);
                assert(row_sat(mview(m@)[i as int], x1, ni));
            }
        }
        proof {
            let mv = mview(m@);
            let x = fview(sol@);
            assert forall|r: int| 0 <= r < mv.len() implies row_sat(#[trigger] mv[r], x, ni) by {
                if r >= h {
                    assert(mv[r].len() == n + 1);
                    assert forall|j: int| 0 <= j < ni implies (#[trigger] mv[r][j]).0 == 0 by {
                        assert(below_zero(mv, h as int, k as int));
                    }
                    lemma_dot_zero(mv[r], x, 0, ni);
                    lemma_zeros_eq(dot(mv[r], x, 0, ni), mv[r][ni]);
                }
            }
            assert(sys_sat(mv, x, ni));
            assert(candidate(x, ni));
            assert(sys_sat(orig, x, ni));
            assert(back(mv, ni, 0, x) == Some(x));
            assert(!exists|r: int| h <= r < mv.len() && (#[trigger] mv[r])[ni].0 != 0);
        }
        let mut q: usize = 0;
        while q < n
            invariant
                0 <= q <= n,
                sol.len() == n,
                forall|t: int| 0 <= t < q ==> (#[trigger] sol[t])@.0 >= 0,
                sys_sat(orig, fview(sol@), ni),
                candidate(fview(sol@), ni),
                orig == self.system(),
                ni == self.num_vars(),
                solve_outcome(orig, ni) == (if exists|j: int| 0 <= j < fview(sol@).len() && (#[trigger] fview(sol@)[j]).0 < 0 {
                    Err::<Seq<(int, int)>, RateError>(RateError::NegativeRate)
                } else {
                    Ok::<Seq<(int, int)>, RateError>(fview(sol@))
                }),
            decreases n - q,
        {
            if sol[q].numerator() < 0 {
                proof {
                    let x = fview(sol@);
                    assert(x[q as int].0 < 0);
                    assert(exists|j: int| 0 <= j < x.len() && (#[trigger] x[j]).0 < 0);
                    assert(candidate(x, ni) && sys_sat(orig, x, ni) && exists|j: int|
                        0 <= j < x.len() && (#[trigger] x[j]).0 < 0);
                }
                return Err(RateError::NegativeRate);
            }
            q += 1;
        }
        Ok(sol)
    }
}

/// Rows `0..h` are in echelon form with pivot columns `piv`, all before column `k`.
/// Once a step of the elimination of a row fails, so do the later ones.
proof fn lemma_elim_entries_none(ri: Seq<(int, int)>, rh: Seq<(int, int)>, f: (int, int), k: int, j: int, j2: int)
    requires
        elim_entries(ri, rh, f, k, j) is None,
        j <= j2,
    ensures
        elim_entries(ri, rh, f, k, j2) is None,
    decreases j2 - j,
{
    if j < j2 {
        lemma_elim_entries_none(ri, rh, f, k, j, j2 - 1);
    }
}

/// Once a step of a sum fails, so do the later ones.
proof fn lemma_row_sum_none(row: Seq<(int, int)>, x: Seq<(int, int)>, lo: int, j: int, j2: int)
    requires
        row_sum(row, x, lo, j) is None,
        j <= j2,
    ensures
        row_sum(row, x, lo, j2) is None,
    decreases j2 - j,
{
    if j < j2 {
        lemma_row_sum_none(row, x, lo, j, j2 - 1);
    }
}

/// `|a| > |b|` (values, positive denominators).
pub open spec fn abs_greater(a: (int, int), b: (int, int)) -> bool {
    iabs(a.0) * b.1 > iabs(b.0) * a.1
}

/// The pivot row for column `k` among rows `h .. i`: the first row whose
/// entry in that column is largest in absolute value.
pub open spec fn pivot_upto(m: Seq<Seq<(int, int)>>, h: int, k: int, i: int) -> int
    decreases i - h,
{
    if i <= h + 1 {
        h
    } else {
        let p = pivot_upto(m, h, k, i - 1);
        if abs_greater(m[i - 1][k], m[p][k]) {
            i - 1
        } else {
            p
        }
    }
}

/// `m` with rows `a` and `b` exchanged.
pub open spec fn swap_rows(m: Seq<Seq<(int, int)>>, a: int, b: int) -> Seq<Seq<(int, int)>> {
    m.update(a, m[b]).update(b, m[a])
}

/// The first `j` entries of row `ri` less `f` times row `rh`, column `k`
/// cleared and earlier columns kept, each in lowest terms; `None` where a
/// product or difference does not fit in 64-bit integers.
pub open spec fn elim_entries(ri: Seq<(int, int)>, rh: Seq<(int, int)>, f: (int, int), k: int, j: int) -> Option<Seq<(int, int)>>
    decreases j,
{
    if j <= 0 {
        Some(Seq::empty())
    } else {
        match elim_entries(ri, rh, f, k, j - 1) {
            None => None,
            Some(s) => {
                let t = j - 1;
                if t < k {
                    Some(s.push(ri[t]))
                } else if t == k {
                    Some(s.push(qzero()))
                } else if mul_fits(f, rh[t]) && sub_fits(ri[t], qcanon(qmul(f, rh[t]))) {
                    Some(s.push(qcanon(qsub(ri[t], qcanon(qmul(f, rh[t]))))))
                } else {
                    None
                }
            },
        }
    }
}

/// Row `ri` with column `k` eliminated against the pivot row `rh`.
pub open spec fn elim_row(ri: Seq<(int, int)>, rh: Seq<(int, int)>, k: int, n: int) -> Option<Seq<(int, int)>> {
    if div_fits(ri[k], rh[k]) {
        elim_entries(ri, rh, qcanon(qdiv(ri[k], rh[k])), k, n + 1)
    } else {
        None
    }
}

/// Rows `i ..` of `m` eliminated against row `h` in column `k`.
pub open spec fn elim_rows(m: Seq<Seq<(int, int)>>, h: int, k: int, n: int, i: int) -> Option<Seq<Seq<(int, int)>>>
    decreases m.len() - i,
{
    if i >= m.len() || i < 0 {
        Some(m)
    } else {
        match elim_row(m[i], m[h], k, n) {
            None => None,
            Some(r) => elim_rows(m.update(i, r), h, k, n, i + 1),
        }
    }
}

/// Forward elimination with partial pivoting from row `h` and column `k`:
/// the reduced matrix and where it stopped; `None` where a value does not
/// fit in 64-bit integers.
pub open spec fn forward(m: Seq<Seq<(int, int)>>, h: int, k: int, n: int) -> Option<(Seq<Seq<(int, int)>>, int, int)>
    decreases n - k,
{
    if h >= m.len() || k >= n || h < 0 || k < 0 {
        Some((m, h, k))
    } else {
        let p = pivot_upto(m, h, k, m.len() as int);
        if m[p][k].0 == 0 {
            forward(m, h, k + 1, n)
        } else {
            match elim_rows(swap_rows(m, h, p), h, k, n, h + 1) {
                None => None,
                Some(m2) => forward(m2, h + 1, k + 1, n),
            }
        }
    }
}

/// The first column before `n`, from `pc` on, with a non-zero entry of `row`.
pub open spec fn first_nonzero(row: Seq<(int, int)>, pc: int, n: int) -> int
    decreases n - pc,
{
    if pc >= n {
        n
    } else if row[pc].0 != 0 {
        pc
    } else {
        first_nonzero(row, pc + 1, n)
    }
}

/// The sum of `row[j] * x[j]` for `j` in `lo .. hi`, added up in order, each
/// step in lowest terms; `None` where a step does not fit.
pub open spec fn row_sum(row: Seq<(int, int)>, x: Seq<(int, int)>, lo: int, hi: int) -> Option<(int, int)>
    decreases hi - lo,
{
    if hi <= lo {
        Some(qzero())
    } else {
        match row_sum(row, x, lo, hi - 1) {
            None => None,
            Some(s) => {
                let p = qcanon(qmul(row[hi - 1], x[hi - 1]));
                if mul_fits(row[hi - 1], x[hi - 1]) && add_fits(s, p) {
                    Some(qcanon(qadd(s, p)))
                } else {
                    None
                }
            },
        }
    }
}

/// Back substitution over rows `i - 1` down to `0` of the reduced matrix,
/// starting from the values `x`; `None` where a value does not fit.
pub open spec fn back(m: Seq<Seq<(int, int)>>, n: int, i: int, x: Seq<(int, int)>) -> Option<Seq<(int, int)>>
    decreases i,
{
    if i <= 0 {
        Some(x)
    } else {
        let row = m[i - 1];
        let pc = first_nonzero(row, 0, n);
        match row_sum(row, x, pc + 1, n) {
            None => None,
            Some(s) => if sub_fits(row[n], s) && div_fits(qcanon(qsub(row[n], s)), row[pc]) {
                back(m, n, i - 1, x.update(pc, qcanon(qdiv(qcanon(qsub(row[n], s)), row[pc]))))
            } else {
                None
            },
        }
    }
}

/// What `solve` gives for the augmented matrix `m` with `n` unknowns:
/// forward elimination, a contradiction where a row without coefficients
/// has a non-zero constant, back substitution from all zeros, then a
/// refusal of negative values; overflow where any value does not fit.
pub open spec fn solve_outcome(m: Seq<Seq<(int, int)>>, n: int) -> Result<Seq<(int, int)>, RateError> {
    match forward(m, 0, 0, n) {
        None => Err(RateError::Overflow),
        Some((mr, h, k)) => if exists|r: int| h <= r < mr.len() && (#[trigger] mr[r])[n].0 != 0 {
            Err(RateError::Contradiction)
        } else {
            match back(mr, n, h, Seq::new(n as nat, |j: int| qzero())) {
                None => Err(RateError::Overflow),
                Some(x) => if exists|j: int| 0 <= j < x.len() && (#[trigger] x[j]).0 < 0 {
                    Err(RateError::NegativeRate)
                } else {
                    Ok(x)
                },
            }
        },
    }
}

pub open spec fn echelon(m: Seq<Seq<(int, int)>>, piv: Seq<int>, h: int, k: int) -> bool {
    &&& piv.len() == h
    &&& forall|r: int| 0 <= r < h ==> 0 <= #[trigger] piv[r] < k && m[r][piv[r]].0 != 0
    &&& forall|r: int, j: int| 0 <= r < h && 0 <= j < piv[r] ==> (#[trigger] m[r][j]).0 == 0
    &&& forall|r1: int, r2: int| 0 <= r1 < r2 < h ==> #[trigger] piv[r1] < #[trigger] piv[r2]
}

/// Rows from `h` on have zero coefficients in columns `0..k`.
pub open spec fn below_zero(m: Seq<Seq<(int, int)>>, h: int, k: int) -> bool {
    forall|r: int, j: int| h <= r < m.len() && 0 <= j < k ==> (#[trigger] m[r][j]).0 == 0
}

/// Having the same solutions is transitive.
pub proof fn lemma_equiv_trans(
    a: Seq<Seq<(int, int)>>,
    b: Seq<Seq<(int, int)>>,
    c: Seq<Seq<(int, int)>>,
    n: int,
)
    requires
        sys_equiv(a, b, n),
        sys_equiv(b, c, n),
    ensures
        sys_equiv(a, c, n),
{
    assert forall|x: Seq<(int, int)>| candidate(x, n) implies (sys_sat(a, x, n) <==> sys_sat(
        c,
        x,
        n,
    )) by {
        assert(sys_sat(a, x, n) <==> sys_sat(b, x, n));
        assert(sys_sat(b, x, n) <==> sys_sat(c, x, n));
    }
}


/// Which variable each unlocked pin gets, with its ratio (always one here);
/// where a pin is listed twice its later entry counts.
#[derive(Debug)]
pub struct VariableMapping {
    pub pin_to_variable: Vec<(u64, usize, FractionalNumber)>,
    pub num_variables: usize,
}

/// The variables of the unlocked constraints, numbered in order.
pub open spec fn unlocked_vars(cs: Seq<PinConstraint>) -> Seq<(u64, int)>
    decreases cs.len(),
{
    if cs.len() == 0 {
        Seq::empty()
    } else {
        let rest = unlocked_vars(cs.drop_last());
        if cs.last().is_locked { rest } else { rest.push((cs.last().pin_id, rest.len() as int)) }
    }
}

/// The variable of a pin: its last entry.
pub open spec fn var_of(vs: Seq<(u64, int)>, pin: u64) -> Option<int>
    decreases vs.len(),
{
    if vs.len() == 0 {
        None
    } else if vs.last().0 == pin {
        Some(vs.last().1)
    } else {
        var_of(vs.drop_last(), pin)
    }
}

/// A row of `n` zeros with the given entries set, the later one winning.
pub open spec fn unit_row(n: int, a: int, va: (int, int), b: int, vb: (int, int)) -> Seq<(int, int)> {
    Seq::new(n as nat, |j: int| if j == b { vb } else if j == a { va } else { (0int, 1int) })
}

/// The equations: one per link whose two pins both have variables
/// (`output - input = 0`), then one per locked rate whose pin has a variable
/// (`pin = rate`).
pub open spec fn equation_rows(vs: Seq<(u64, int)>, links: Seq<(u64, u64)>, locked: Seq<(u64, FractionalNumber)>) -> Seq<(Seq<(int, int)>, (int, int))>
    decreases links.len() + locked.len(),
{
    let n = vs.len() as int;
    if locked.len() > 0 {
        let rest = equation_rows(vs, links, locked.drop_last());
        match var_of(vs, locked.last().0) {
            Some(v) => rest.push((unit_row(n, v, (1int, 1int), v, (1int, 1int)), locked.last().1@)),
            None => rest,
        }
    } else if links.len() > 0 {
        let rest = equation_rows(vs, links.drop_last(), locked);
        match (var_of(vs, links.last().0), var_of(vs, links.last().1)) {
            (Some(a), Some(b)) => rest.push((unit_row(n, a, (1int, 1int), b, (-1int, 1int)), (0int, 1int))),
            _ => rest,
        }
    } else {
        Seq::empty()
    }
}

pub open spec fn rows_view(rows: Seq<Vec<FractionalNumber>>) -> Seq<Seq<(int, int)>> {
    rows.map_values(|r: Vec<FractionalNumber>| r@.map_values(|f: FractionalNumber| f@))
}

pub open spec fn values_view(v: Seq<FractionalNumber>) -> Seq<(int, int)> {
    v.map_values(|f: FractionalNumber| f@)
}

fn var_lookup(vars: &Vec<(u64, usize, FractionalNumber)>, pin: u64, Ghost(vs): Ghost<Seq<(u64, int)>>) -> (r: Option<usize>)
    requires
        vars@.len() == vs.len(),
        forall|i: int| 0 <= i < vs.len() ==> (#[trigger] vars@[i]).0 == vs[i].0 && vars@[i].1 == vs[i].1,
    ensures
        r matches Some(v) ==> var_of(vs, pin) == Some(v as int),
        r is None ==> var_of(vs, pin) is None,
{
    let mut k: usize = vars.len();
    assert(vs.subrange(0, k as int) =~= vs);
    while k > 0
        invariant
            k <= vs.len(),
            vars@.len() == vs.len(),
            forall|i: int| 0 <= i < vs.len() ==> (#[trigger] vars@[i]).0 == vs[i].0 && vars@[i].1 == vs[i].1,
            var_of(vs, pin) == var_of(vs.subrange(0, k as int), pin),
        decreases k,
    {
        assert(vs.subrange(0, k as int).drop_last() =~= vs.subrange(0, k - 1));
        if vars[k - 1].0 == pin {
            return Some(vars[k - 1].1);
        }
        k -= 1;
    }
    None
}

fn unit_row_exec(n: usize, a: usize, va: FractionalNumber, b: usize, vb: FractionalNumber) -> (r: Vec<FractionalNumber>)
    requires
        a < n,
        b < n,
    ensures
        r@.map_values(|f: FractionalNumber| f@) == unit_row(n as int, a as int, va@, b as int, vb@),
{
    let mut row: Vec<FractionalNumber> = Vec::new();
    let mut j: usize = 0;
    while j < n
        invariant
            j <= n,
            row@.len() == j,
            forall|q: int| 0 <= q < j ==> (#[trigger] row@[q])@ == (0int, 1int),
        decreases n - j,
    {
        row.push(FractionalNumber::zero());
        j += 1;
    }
    row.set(a, va);
    row.set(b, vb);
    assert(row@.map_values(|f: FractionalNumber| f@) =~= unit_row(n as int, a as int, va@, b as int, vb@));
    row
}

/// The equations for the rates of the constraint pins: a variable per
/// unlocked pin (in order), an equation per link between two such pins and
/// one per locked rate of such a pin. `NoSolution` where there is no
/// constraint, no variable or no equation. The locked rates are for distinct
/// pins.
pub fn build_equations(constraints: Vec<PinConstraint>, locked_pin_rates: Vec<(u64, FractionalNumber)>, links: Vec<(u64, u64)>) -> (r: Result<(Vec<Vec<FractionalNumber>>, Vec<FractionalNumber>, VariableMapping), RateError>)
    requires
        forall|i: int, j: int| 0 <= i < j < locked_pin_rates@.len() ==> (#[trigger] locked_pin_rates@[i]).0 != (#[trigger] locked_pin_rates@[j]).0,
    ensures
        (match r {
            Ok((rows, consts, mapping)) => {
                let vs = unlocked_vars(constraints@);
                let eqs = equation_rows(vs, links@, locked_pin_rates@);
                &&& constraints@.len() > 0
                &&& vs.len() > 0
                &&& eqs.len() > 0
                &&& mapping.num_variables == vs.len()
                &&& mapping.pin_to_variable@.len() == vs.len()
                &&& forall|i: int| 0 <= i < vs.len() ==> (#[trigger] mapping.pin_to_variable@[i]).0 == vs[i].0
                    && mapping.pin_to_variable@[i].1 == vs[i].1 && mapping.pin_to_variable@[i].2@ == (1int, 1int)
                &&& rows_view(rows@) == eqs.map_values(|e: (Seq<(int, int)>, (int, int))| e.0)
                &&& values_view(consts@) == eqs.map_values(|e: (Seq<(int, int)>, (int, int))| e.1)
            },
            Err(e) => e == RateError::NoSolution && (constraints@.len() == 0 || unlocked_vars(constraints@).len() == 0
                || equation_rows(unlocked_vars(constraints@), links@, locked_pin_rates@).len() == 0),
        }),
{
    if constraints.len() == 0 {
        return Err(RateError::NoSolution);
    }
    let ghost cs = constraints@;
    let mut vars: Vec<(u64, usize, FractionalNumber)> = Vec::new();
    let mut k: usize = 0;
    assert(cs.subrange(0, 0) =~= Seq::<PinConstraint>::empty());
    while k < constraints.len()
        invariant
            k <= constraints@.len(),
            cs == constraints@,
            vars@.len() == unlocked_vars(cs.subrange(0, k as int)).len(),
            vars@.len() <= k,
            forall|i: int| 0 <= i < vars@.len() ==> (#[trigger] vars@[i]).0 == unlocked_vars(cs.subrange(0, k as int))[i].0
                && vars@[i].1 == unlocked_vars(cs.subrange(0, k as int))[i].1 && vars@[i].2@ == (1int, 1int),
        decreases constraints.len() - k,
    {
        assert(cs.subrange(0, k + 1).drop_last() =~= cs.subrange(0, k as int));
        let c = constraints[k];
        if !c.is_locked {
            let n = vars.len();
            vars.push((c.pin_id, n, FractionalNumber::one()));
        }
        k += 1;
    }
    assert(cs.subrange(0, cs.len() as int) =~= cs);
    let ghost vs = unlocked_vars(cs);
    proof {
        lemma_unlocked_vars(cs);
    }
    let n = vars.len();
    if n == 0 {
        return Err(RateError::NoSolution);
    }
    let mut rows: Vec<Vec<FractionalNumber>> = Vec::new();
    let mut consts: Vec<FractionalNumber> = Vec::new();
    let ghost ls = links@;
    let ghost lk = locked_pin_rates@;
    assert(ls.subrange(0, 0) =~= Seq::<(u64, u64)>::empty());
    let mut t: usize = 0;
    while t < links.len()
        invariant
            t <= ls.len(),
            ls == links@,
            n == vars@.len(),
            n == vs.len(),
            forall|i: int| 0 <= i < vs.len() ==> (#[trigger] vars@[i]).0 == vs[i].0 && vars@[i].1 == vs[i].1,
            forall|i: int| 0 <= i < vs.len() ==> 0 <= #[trigger] vs[i].1 < vs.len(),
            rows_view(rows@) == equation_rows(vs, ls.subrange(0, t as int), Seq::empty()).map_values(|e: (Seq<(int, int)>, (int, int))| e.0),
            values_view(consts@) == equation_rows(vs, ls.subrange(0, t as int), Seq::empty()).map_values(|e: (Seq<(int, int)>, (int, int))| e.1),
        decreases links.len() - t,
    {
        assert(ls.subrange(0, t + 1).drop_last() =~= ls.subrange(0, t as int));
        let (o, i) = links[t];
        let ghost prev = equation_rows(vs, ls.subrange(0, t as int), Seq::empty());
        match (var_lookup(&vars, o, Ghost(vs)), var_lookup(&vars, i, Ghost(vs))) {
            (Some(a), Some(b)) => {
                proof {
                    lemma_var_range(vs, o);
                    lemma_var_range(vs, i);
                }
                let row = unit_row_exec(n, a, FractionalNumber::one(), b, FractionalNumber::from_integer(-1));
                let ghost rv = row@.map_values(|f: FractionalNumber| f@);
                let ghost r0 = rows@;
                let ghost c0 = consts@;
                rows.push(row);
                consts.push(FractionalNumber::zero());
                proof {
                    let nxt = equation_rows(vs, ls.subrange(0, t + 1), Seq::empty());
                    assert(ls.subrange(0, t + 1).last() == (o, i));
                    assert(nxt == prev.push((unit_row(n as int, a as int, (1int, 1int), b as int, (-1int, 1int)), (0int, 1int))));
                    assert(rows_view(rows@) =~= rows_view(r0).push(rv));
                    assert(values_view(consts@) =~= values_view(c0).push((0int, 1int)));
                    assert(rows_view(rows@) =~= nxt.map_values(|e: (Seq<(int, int)>, (int, int))| e.0));
                    assert(values_view(consts@) =~= nxt.map_values(|e: (Seq<(int, int)>, (int, int))| e.1));
                }
            },
            _ => {},
        }
        t += 1;
    }
    assert(ls.subrange(0, ls.len() as int) =~= ls);
    let mut q: usize = 0;
    assert(lk.subrange(0, 0) =~= Seq::<(u64, FractionalNumber)>::empty());
    while q < locked_pin_rates.len()
        invariant
            q <= lk.len(),
            lk == locked_pin_rates@,
            n == vars@.len(),
            n == vs.len(),
            forall|i: int| 0 <= i < vs.len() ==> (#[trigger] vars@[i]).0 == vs[i].0 && vars@[i].1 == vs[i].1,
            forall|i: int| 0 <= i < vs.len() ==> 0 <= #[trigger] vs[i].1 < vs.len(),
            rows_view(rows@) == equation_rows(vs, ls, lk.subrange(0, q as int)).map_values(|e: (Seq<(int, int)>, (int, int))| e.0),
            values_view(consts@) == equation_rows(vs, ls, lk.subrange(0, q as int)).map_values(|e: (Seq<(int, int)>, (int, int))| e.1),
        decreases locked_pin_rates.len() - q,
    {
        assert(lk.subrange(0, q + 1).drop_last() =~= lk.subrange(0, q as int));
        let (p, rate) = locked_pin_rates[q];
        match var_lookup(&vars, p, Ghost(vs)) {
            Some(a) => {
                proof {
                    lemma_var_range(vs, p);
                }
                let row = unit_row_exec(n, a, FractionalNumber::one(), a, FractionalNumber::one());
                let ghost rv = row@.map_values(|f: FractionalNumber| f@);
                let ghost r0 = rows@;
                let ghost c0 = consts@;
                let ghost prev = equation_rows(vs, ls, lk.subrange(0, q as int));
                rows.push(row);
                consts.push(rate);
                proof {
                    let nxt = equation_rows(vs, ls, lk.subrange(0, q + 1));
                    assert(lk.subrange(0, q + 1).last() == (p, rate));
                    assert(nxt == prev.push((unit_row(n as int, a as int, (1int, 1int), a as int, (1int, 1int)), rate@)));
                    assert(rows_view(rows@) =~= rows_view(r0).push(rv));
                    assert(values_view(consts@) =~= values_view(c0).push(rate@));
                    assert(rows_view(rows@) =~= nxt.map_values(|e: (Seq<(int, int)>, (int, int))| e.0));
                    assert(values_view(consts@) =~= nxt.map_values(|e: (Seq<(int, int)>, (int, int))| e.1));
                }
            },
            None => {},
        }
        q += 1;
    }
    assert(lk.subrange(0, lk.len() as int) =~= lk);
    if rows.len() == 0 {
        return Err(RateError::NoSolution);
    }
    Ok((rows, consts, VariableMapping { pin_to_variable: vars, num_variables: n }))
}

/// Variables are numbered below their count.
pub proof fn lemma_unlocked_vars(cs: Seq<PinConstraint>)
    ensures
        forall|i: int| 0 <= i < unlocked_vars(cs).len() ==> (#[trigger] unlocked_vars(cs)[i]).1 == i,
    decreases cs.len(),
{
    if cs.len() > 0 {
        let rest = unlocked_vars(cs.drop_last());
        lemma_unlocked_vars(cs.drop_last());
        assert forall|i: int| 0 <= i < unlocked_vars(cs).len() implies (#[trigger] unlocked_vars(cs)[i]).1 == i by {
            if i < rest.len() {
                assert(unlocked_vars(cs)[i] == rest[i]);
            }
        }
    }
}

pub proof fn lemma_var_range(vs: Seq<(u64, int)>, pin: u64)
    requires
        forall|i: int| 0 <= i < vs.len() ==> 0 <= #[trigger] vs[i].1 < vs.len(),
    ensures
        var_of(vs, pin) matches Some(v) ==> 0 <= v < vs.len(),
    decreases vs.len(),
{
    if vs.len() > 0 && vs.last().0 != pin {
        let d = vs.drop_last();
        assert forall|i: int| 0 <= i < d.len() implies 0 <= #[trigger] d[i].1 < vs.len() by {
            assert(d[i] == vs[i]);
        }
        lemma_var_range_bound(d, pin, vs.len() as int);
    }
}

pub proof fn lemma_var_range_bound(vs: Seq<(u64, int)>, pin: u64, bound: int)
    requires
        forall|i: int| 0 <= i < vs.len() ==> 0 <= #[trigger] vs[i].1 < bound,
    ensures
        var_of(vs, pin) matches Some(v) ==> 0 <= v < bound,
    decreases vs.len(),
{
    if vs.len() > 0 && vs.last().0 != pin {
        let d = vs.drop_last();
        assert forall|i: int| 0 <= i < d.len() implies 0 <= #[trigger] d[i].1 < bound by {
            assert(d[i] == vs[i]);
        }
        lemma_var_range_bound(d, pin, bound);
    }
}

} // verus!
