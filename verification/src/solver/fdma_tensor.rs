//! Four-diagonal matrix solver for multidimensional problems.
//!
//! Only one axis needs to be four-diagonal. Every other axis is
//! diagonalized by a generalized eigendecomposition `C^-1 A = Q L Q^-1`,
//! which turns the coupled system into one independent banded system per
//! eigenvalue. The eigendecomposition itself is irrational and enters as
//! data (the forward matrix `Q^-1 C^-1`, the backward matrix `Q`, and the
//! eigenvalues); for an axis whose operator is already diagonal, the
//! eigenvalues are supplied directly and no transform matrices are used.
//!
//! Per solve, three steps: multiply the right-hand side by the forward
//! matrix, solve one banded system `(A + lam_k C) y_k = rhs_k` per
//! eigenvalue, and multiply the result by the backward matrix. The middle
//! step is exact and its contract states it exactly; the transforms are
//! exact matrix products of the supplied data.
use crate::linalg::{all_wf, col_of, rat_dot, rats, Matrix};
use crate::rational::{lemma_eqv_trans, rat_add, rat_eqv, rat_mul, rat_wf, Rat, Rational};
use crate::solver::fdma::{fdma_apply, lemma_fdma_apply_combined, Fdma};
use vstd::prelude::*;

verus! {

broadcast use crate::rational::lemma_add_wf, crate::rational::lemma_mul_wf,
    crate::rational::lemma_neg_wf, crate::rational::lemma_term_or_zero_wf;

/// Tensor solver over one or two axes. The last axis stays banded; a
/// leading axis is either already diagonal (eigenvalues supplied, no
/// transforms) or diagonalized by a supplied eigendecomposition.
pub enum FdmaTensor {
    /// One axis: a single banded system, factorized at construction.
    Rank1 {
        /// The banded system, swept and ready to solve.
        fdma: Fdma,
    },
    /// Two axes: the first diagonalized, the second banded.
    Rank2 {
        /// Extent of the diagonalized axis.
        m: usize,
        /// Extent of the banded axis.
        n: usize,
        /// Banded operator `A` of the last axis.
        ay: Fdma,
        /// Banded operator `C` of the last axis.
        cy: Fdma,
        /// Eigenvalues of the first axis, one per mode.
        lam: Vec<Rational>,
        /// Forward transform `Q^-1 C^-1` of the first axis; `None` for an
        /// already-diagonal operator.
        fwd: Option<Matrix>,
        /// Backward transform `Q` of the first axis; `None` for an
        /// already-diagonal operator.
        bwd: Option<Matrix>,
        /// Whether a zero eigenvalue was perturbed at construction.
        singular: bool,
    },
}

impl FdmaTensor {
    /// Consistency of the stored data: a swept banded system for one
    /// axis; matching extents, well-formed eigenvalues and square
    /// transforms for two.
    pub open spec fn wf(self) -> bool {
        match self {
            FdmaTensor::Rank1 { fdma } => fdma.wf() && fdma.sweeped,
            FdmaTensor::Rank2 { m, n, ay, cy, lam, fwd, bwd, singular } => {
                &&& ay.wf()
                &&& cy.wf()
                &&& ay.n == n
                &&& cy.n == n
                &&& lam@.len() == m as int
                &&& all_wf(lam@)
                &&& m >= 1
                &&& (fwd matches Some(f) ==> f.wf() && f.rows == m && f.cols == m)
                &&& (bwd matches Some(b) ==> b.wf() && b.rows == m && b.cols == m)
                &&& (fwd is Some <==> bwd is Some)
            },
        }
    }

    /// One-dimensional problem: the matrix must be four-diagonal; its
    /// forward sweep is performed once, here.
    pub fn from_matrix_1d(a: &Matrix) -> (r: Option<FdmaTensor>)
        requires
            a.wf(),
            a.rows == a.cols,
            4 <= a.rows <= 0x4000_0000,
        ensures
            r matches Some(t) ==> t.wf() && t is Rank1 && t->fdma.n == a.rows
                && t->fdma.represents(a@),
    {
        let mut fdma: Fdma = Fdma::from_matrix(a)?;
        if !fdma.sweep() {
            return None;
        }
        proof {
            assert(fdma.represents(a@));
        }
        Some(FdmaTensor::Rank1 { fdma })
    }

    /// Two-dimensional problem from the per-axis data: banded operators
    /// `A`, `C` for the last axis, and for the first axis its
    /// eigenvalues together with the forward and backward transforms
    /// (both absent for an already-diagonal first-axis operator).
    pub fn from_parts_2d(
        ay: Fdma,
        cy: Fdma,
        lam: Vec<Rational>,
        fwd: Option<Matrix>,
        bwd: Option<Matrix>,
        singular: bool,
    ) -> (r: FdmaTensor)
        requires
            ay.wf(),
            cy.wf(),
            ay.n == cy.n,
            lam@.len() >= 1,
            all_wf(lam@),
            fwd matches Some(f) ==> f.wf() && f.rows as int == lam@.len() && f.cols as int
                == lam@.len(),
            bwd matches Some(b) ==> b.wf() && b.rows as int == lam@.len() && b.cols as int
                == lam@.len(),
            fwd is Some <==> bwd is Some,
        ensures
            r.wf(),
            r is Rank2,
            r->m as int == lam@.len(),
            r->n == ay.n,
            r->ay == ay,
            r->cy == cy,
            r->lam == lam,
            r->fwd == fwd,
            r->bwd == bwd,
            r->singular == singular,
    {
        let m: usize = lam.len();
        let n: usize = ay.n;
        FdmaTensor::Rank2 { m, n, ay, cy, lam, fwd, bwd, singular }
    }

    /// Solve the one-dimensional problem: the returned vector exactly
    /// satisfies the four-diagonal system with the given right-hand side.
    pub fn solve_1d(&self, input: &Vec<Rational>) -> (r: Option<Vec<Rational>>)
        requires
            self.wf(),
            self is Rank1,
            input@.len() == self->fdma.n as int,
            all_wf(input@),
        ensures
            r matches Some(x) ==> x@.len() == self->fdma.n as int && all_wf(x@) && forall|i: int|
                0 <= i < x@.len() ==> rat_eqv(
                    #[trigger] fdma_apply(
                        rats(self->fdma.low2@),
                        rats(self->fdma.diag@),
                        rats(self->fdma.up2@),
                        rats(self->fdma.up4@),
                        rats(x@),
                        i,
                    ),
                    rats(input@)[i],
                ),
    {
        match self {
            FdmaTensor::Rank1 { fdma } => fdma.solve(input),
            FdmaTensor::Rank2 { .. } => {
                proof {
                    assert(false);
                }
                None
            },
        }
    }

    /// Entry `(k, i)` of the forward-transformed right-hand side: row `k`
    /// of the forward matrix applied to column `i` of the input, or the
    /// input itself when the first axis is already diagonal.
    pub open spec fn rhs_entry(self, input: Seq<Seq<Rat>>, k: int, i: int) -> Rat {
        match self->fwd {
            Some(f) => rat_dot(f@[k], col_of(input, i)),
            None => input[k][i],
        }
    }

    /// Mode `k` of `y` exactly satisfies its banded system: row `i` of
    /// `(A + lam_k C) y_k` equals the transformed right-hand side.
    pub open spec fn modes_ok(self, input: Seq<Seq<Rat>>, y: Seq<Seq<Rat>>) -> bool {
        forall|k: int, i: int|
            0 <= k < self->m as int && 0 <= i < self->n as int ==> rat_eqv(
                rat_add(
                    #[trigger] fdma_apply(
                        rats(self->ay.low2@),
                        rats(self->ay.diag@),
                        rats(self->ay.up2@),
                        rats(self->ay.up4@),
                        y[k],
                        i,
                    ),
                    rat_mul(
                        rats(self->lam@)[k],
                        fdma_apply(
                            rats(self->cy.low2@),
                            rats(self->cy.diag@),
                            rats(self->cy.up2@),
                            rats(self->cy.up4@),
                            y[k],
                            i,
                        ),
                    ),
                ),
                self.rhs_entry(input, k, i),
            )
    }

    /// The output is the backward transform of `y`: row `k` of the
    /// backward matrix applied to column `j` of `y`, or `y` itself when
    /// the first axis is already diagonal.
    pub open spec fn out_ok(self, y: Seq<Seq<Rat>>, out: Seq<Seq<Rat>>) -> bool {
        match self->bwd {
            Some(b) => forall|k: int, j: int|
                0 <= k < self->m as int && 0 <= j < self->n as int ==> rat_eqv(
                    #[trigger] out[k][j],
                    rat_dot(b@[k], col_of(y, j)),
                ),
            None => out == y,
        }
    }

    /// Solve the two-dimensional problem: transform the right-hand side,
    /// solve one exact banded system per eigenvalue, transform back.
    /// The per-mode systems of the returned solution hold exactly.
    pub fn solve_2d(&self, input: &Matrix) -> (r: Option<Matrix>)
        requires
            self.wf(),
            self is Rank2,
            input.wf(),
            input.rows == self->m,
            input.cols == self->n,
        ensures
            r matches Some(out) ==> out.wf() && out.rows == self->m && out.cols == self->n
                && exists|y: Matrix|
                y.wf() && y.rows == self->m && y.cols == self->n && #[trigger] self.modes_ok(
                    input@,
                    y@,
                ) && self.out_ok(y@, out@),
    {
        match self {
            FdmaTensor::Rank2 { m, n, ay, cy, lam, fwd, bwd, singular } => {
                let m: usize = *m;
                let n: usize = *n;
                // Step 1: forward transform of the right-hand side.
                let rhs: Option<Matrix> = match fwd {
                    Some(f) => Some(f.matmul(input)?),
                    None => None,
                };
                // Step 2: one banded solve per eigenvalue.
                let mut rows_out: Vec<Vec<Rational>> = Vec::new();
                let mut k: usize = 0;
                while k < m
                    invariant
                        0 <= k <= m,
                        self.wf(),
                        self is Rank2,
                        self->m == m,
                        self->n == n,
                        *ay == self->ay,
                        *cy == self->cy,
                        lam@ == self->lam@,
                        input.wf(),
                        input.rows == m,
                        input.cols == n,
                        (rhs matches Some(q) ==> q.wf() && q.rows == m && q.cols == n && (forall|
                            k2: int,
                            i2: int,
                        |
                            0 <= k2 < m as int && 0 <= i2 < n as int ==> rat_eqv(
                                #[trigger] q@[k2][i2],
                                self.rhs_entry(input@, k2, i2),
                            ))),
                        (rhs is Some <==> self->fwd is Some),
                        rows_out@.len() == k as int,
                        forall|k2: int|
                            0 <= k2 < k as int ==> (#[trigger] rows_out@[k2])@.len() == n as int
                                && all_wf(rows_out@[k2]@),
                        forall|k2: int, i2: int|
                            0 <= k2 < k as int && 0 <= i2 < n as int ==> rat_eqv(
                                rat_add(
                                    #[trigger] fdma_apply(
                                        rats(self->ay.low2@),
                                        rats(self->ay.diag@),
                                        rats(self->ay.up2@),
                                        rats(self->ay.up4@),
                                        rats(rows_out@[k2]@),
                                        i2,
                                    ),
                                    rat_mul(
                                        rats(self->lam@)[k2],
                                        fdma_apply(
                                            rats(self->cy.low2@),
                                            rats(self->cy.diag@),
                                            rats(self->cy.up2@),
                                            rats(self->cy.up4@),
                                            rats(rows_out@[k2]@),
                                            i2,
                                        ),
                                    ),
                                ),
                                self.rhs_entry(input@, k2, i2),
                            ),
                    decreases m - k,
                {
                    let ghost gk = k as int;
                    let row: Vec<Rational> = match &rhs {
                        Some(q) => q.row(k),
                        None => input.row(k),
                    };
                    let lk: Rational = lam[k];
                    let mut combined: Fdma = ay.add_scaled(&lk, cy)?;
                    if !combined.sweep() {
                        return None;
                    }
                    let yk: Vec<Rational> = combined.solve(&row)?;
                    proof {
                        lam@[gk].lemma_wf_view();
                        crate::linalg::lemma_all_wf_rats(yk@);
                        crate::bases::chebyshev::lemma_all_wf_views(self->ay.low2@);
                        crate::bases::chebyshev::lemma_all_wf_views(self->ay.diag@);
                        crate::bases::chebyshev::lemma_all_wf_views(self->ay.up2@);
                        crate::bases::chebyshev::lemma_all_wf_views(self->ay.up4@);
                        crate::bases::chebyshev::lemma_all_wf_views(self->cy.low2@);
                        crate::bases::chebyshev::lemma_all_wf_views(self->cy.diag@);
                        crate::bases::chebyshev::lemma_all_wf_views(self->cy.up2@);
                        crate::bases::chebyshev::lemma_all_wf_views(self->cy.up4@);
                        crate::bases::chebyshev::lemma_all_wf_views(combined.low2@);
                        crate::bases::chebyshev::lemma_all_wf_views(combined.diag@);
                        crate::bases::chebyshev::lemma_all_wf_views(combined.up2@);
                        crate::bases::chebyshev::lemma_all_wf_views(combined.up4@);
                        assert forall|i2: int| 0 <= i2 < n as int implies rat_eqv(
                            rat_add(
                                #[trigger] fdma_apply(
                                    rats(self->ay.low2@),
                                    rats(self->ay.diag@),
                                    rats(self->ay.up2@),
                                    rats(self->ay.up4@),
                                    rats(yk@),
                                    i2,
                                ),
                                rat_mul(
                                    rats(self->lam@)[gk],
                                    fdma_apply(
                                        rats(self->cy.low2@),
                                        rats(self->cy.diag@),
                                        rats(self->cy.up2@),
                                        rats(self->cy.up4@),
                                        rats(yk@),
                                        i2,
                                    ),
                                ),
                            ),
                            self.rhs_entry(input@, gk, i2),
                        ) by {
                            lemma_fdma_apply_combined(
                                rats(combined.low2@),
                                rats(combined.diag@),
                                rats(combined.up2@),
                                rats(combined.up4@),
                                rats(self->ay.low2@),
                                rats(self->ay.diag@),
                                rats(self->ay.up2@),
                                rats(self->ay.up4@),
                                rats(self->cy.low2@),
                                rats(self->cy.diag@),
                                rats(self->cy.up2@),
                                rats(self->cy.up4@),
                                rats(self->lam@)[gk],
                                rats(yk@),
                                i2,
                            );
                            crate::linalg::lemma_all_wf_rats(row@);
                            row@[i2].lemma_wf_view();
                            crate::solver::fdma::lemma_fdma_apply_wf(
                                rats(self->ay.low2@),
                                rats(self->ay.diag@),
                                rats(self->ay.up2@),
                                rats(self->ay.up4@),
                                rats(yk@),
                                i2,
                            );
                            crate::solver::fdma::lemma_fdma_apply_wf(
                                rats(self->cy.low2@),
                                rats(self->cy.diag@),
                                rats(self->cy.up2@),
                                rats(self->cy.up4@),
                                rats(yk@),
                                i2,
                            );
                            crate::solver::fdma::lemma_fdma_apply_wf(
                                rats(combined.low2@),
                                rats(combined.diag@),
                                rats(combined.up2@),
                                rats(combined.up4@),
                                rats(yk@),
                                i2,
                            );
                            lemma_eqv_trans(
                                rat_add(
                                    fdma_apply(
                                        rats(self->ay.low2@),
                                        rats(self->ay.diag@),
                                        rats(self->ay.up2@),
                                        rats(self->ay.up4@),
                                        rats(yk@),
                                        i2,
                                    ),
                                    rat_mul(
                                        rats(self->lam@)[gk],
                                        fdma_apply(
                                            rats(self->cy.low2@),
                                            rats(self->cy.diag@),
                                            rats(self->cy.up2@),
                                            rats(self->cy.up4@),
                                            rats(yk@),
                                            i2,
                                        ),
                                    ),
                                ),
                                fdma_apply(
                                    rats(combined.low2@),
                                    rats(combined.diag@),
                                    rats(combined.up2@),
                                    rats(combined.up4@),
                                    rats(yk@),
                                    i2,
                                ),
                                rats(row@)[i2],
                            );
                            if self->fwd is Some {
                                let f = self->fwd->0;
                                assert(crate::linalg::all_rat_wf(f@[gk]));
                                assert(crate::linalg::all_rat_wf(col_of(input@, i2))) by {
                                    assert forall|t: int|
                                        0 <= t < col_of(input@, i2).len() implies rat_wf(
                                        #[trigger] col_of(input@, i2)[t],
                                    ) by {
                                        assert(crate::linalg::all_rat_wf(input@[t]));
                                    }
                                }
                                crate::linalg::lemma_rat_dot_wf(f@[gk], col_of(input@, i2));
                                lemma_eqv_trans(
                                    rat_add(
                                        fdma_apply(
                                            rats(self->ay.low2@),
                                            rats(self->ay.diag@),
                                            rats(self->ay.up2@),
                                            rats(self->ay.up4@),
                                            rats(yk@),
                                            i2,
                                        ),
                                        rat_mul(
                                            rats(self->lam@)[gk],
                                            fdma_apply(
                                                rats(self->cy.low2@),
                                                rats(self->cy.diag@),
                                                rats(self->cy.up2@),
                                                rats(self->cy.up4@),
                                                rats(yk@),
                                                i2,
                                            ),
                                        ),
                                    ),
                                    rats(row@)[i2],
                                    self.rhs_entry(input@, gk, i2),
                                );
                            }
                        }
                    }
                    rows_out.push(yk);
                    k = k + 1;
                }
                let y: Matrix = match Matrix::from_rows(m, n, rows_out) {
                    Some(v) => v,
                    None => {
                        // Every pushed row has length `n`.
                        proof {
                            assert(false);
                        }
                        return None;
                    },
                };
                proof {
                    assert forall|k2: int, i2: int|
                        0 <= k2 < self->m as int && 0 <= i2 < self->n as int implies rat_eqv(
                        rat_add(
                            #[trigger] fdma_apply(
                                rats(self->ay.low2@),
                                rats(self->ay.diag@),
                                rats(self->ay.up2@),
                                rats(self->ay.up4@),
                                y@[k2],
                                i2,
                            ),
                            rat_mul(
                                rats(self->lam@)[k2],
                                fdma_apply(
                                    rats(self->cy.low2@),
                                    rats(self->cy.diag@),
                                    rats(self->cy.up2@),
                                    rats(self->cy.up4@),
                                    y@[k2],
                                    i2,
                                ),
                            ),
                        ),
                        self.rhs_entry(input@, k2, i2),
                    ) by {
                        assert(y@[k2] == rats(rows_out@[k2]@));
                    }
                    assert(self.modes_ok(input@, y@));
                }
                // Step 3: backward transform of the solution.
                match bwd {
                    Some(b) => {
                        let out: Matrix = b.matmul(&y)?;
                        proof {
                            assert(self.out_ok(y@, out@));
                            assert(exists|w: Matrix|
                                w.wf() && w.rows == self->m && w.cols == self->n
                                    && #[trigger] self.modes_ok(input@, w@) && self.out_ok(
                                    w@,
                                    out@,
                                )) by {
                                assert(self.modes_ok(input@, y@));
                            }
                        }
                        Some(out)
                    },
                    None => {
                        proof {
                            assert(self.out_ok(y@, y@));
                            assert(exists|w: Matrix|
                                w.wf() && w.rows == self->m && w.cols == self->n
                                    && #[trigger] self.modes_ok(input@, w@) && self.out_ok(
                                    w@,
                                    y@,
                                )) by {
                                assert(self.modes_ok(input@, y@));
                            }
                        }
                        Some(y)
                    },
                }
            },
            FdmaTensor::Rank1 { .. } => {
                proof {
                    assert(false);
                }
                None
            },
        }
    }
}

} // verus!
