//! Poisson solver: assemble, per axis, the operator pair `(A, C)` that
//! turns `c * D2 u = f` into a banded or tensor system, and drive the
//! tensor solver with the matching right-hand-side pre-multiplication.
//!
//! For a Chebyshev-type basis the Laplacian is dense; both sides are
//! multiplied by the banded pseudo-inverse of the second derivative,
//! which makes the left-hand operator `A = c * (I_2 S)` and
//! `C = (I_2 B2) S` banded (`S` the stencil, `B2` the pseudo-inverse,
//! `I_2` the identity with its first two rows removed), and requires the
//! right-hand side to be pre-multiplied by `I_2 B2`. For a Fourier basis
//! the Laplacian is already diagonal: the eigenvalues `-k^2` are used
//! directly and no pre-multiplication is needed.
//!
//! Only composite Chebyshev and Fourier axes are assembled: a plain
//! (non-composite) Chebyshev axis would make the left-hand operator
//! rectangular (its row space skips the two lowest rows), which the
//! square banded factorization cannot take.
//!
//! A pure-Neumann or pure-Fourier Poisson problem is singular in its
//! zero mode: an exactly zero leading eigenvalue is perturbed by the
//! fixed amount `1 / 10^10` and the solver records that it did so; the
//! affected mode is defined only up to a constant and is fixed by the
//! caller.
use crate::bases::chebyshev::StencilChebyshev;
use crate::bases::composite::CompositeChebyshev;
use crate::bases::fourier::FourierR2c;
use crate::linalg::{all_rat_wf, all_wf, col_of, rat_dot, rats, Matrix};
use crate::rational::{
    lemma_eqv_trans, rat_eqv, rat_int, rat_is_zero, rat_mul, rat_neg, rat_sub, rat_wf, Rat,
    Rational,
};
use crate::solver::fdma::{fdma_apply, Fdma};
use crate::solver::fdma_tensor::FdmaTensor;
use vstd::prelude::*;

verus! {

broadcast use crate::rational::lemma_add_wf, crate::rational::lemma_mul_wf,
    crate::rational::lemma_neg_wf, crate::rational::lemma_term_or_zero_wf;

/// Entry `(i, j)` of the left-hand operator `c * (I_2 S)` of a composite
/// Chebyshev axis: row `i + 2` of the stencil, scaled by `c`.
pub open spec fn poisson_a_entry(diag: Seq<Rat>, low2: Seq<Rat>, c: Rat, i: int, j: int) -> Rat {
    if j == i {
        rat_mul(c, low2[j])
    } else if j == i + 2 {
        rat_mul(c, diag[j])
    } else {
        rat_int(0)
    }
}

/// Entry `(i, j)` of `I_2 B2`, the pseudo-inverse of the second
/// derivative with its first two rows removed: row `i` stands for
/// coefficient `k = i + 2` and carries `c_{k-2} / (4k(k-1))`,
/// `-1 / (2(k^2-1))` and `1 / (4k(k+1))` at columns `k-2`, `k`, `k+2`.
/// The two highest-mode columns are zero: the second derivative reaches
/// no coefficient above mode `n - 3`, so the pseudo-inverse reads none.
pub open spec fn pinv_row_entry(n: int, i: int, j: int) -> Rat {
    if j == i {
        Rat {
            n: if i == 0 {
                2int
            } else {
                1int
            },
            d: 4 * (i + 2) * (i + 1),
        }
    } else if j == i + 2 && j <= n - 3 {
        Rat { n: -1, d: 2 * ((i + 2) * (i + 2) - 1) }
    } else if j == i + 4 && j <= n - 3 {
        Rat { n: 1, d: 4 * (i + 2) * (i + 3) }
    } else {
        rat_int(0)
    }
}

/// Entry `(i, j)` of the dense stencil `S`: `diag[j]` on the main
/// diagonal and `low2[j]` two rows below it.
pub open spec fn stencil_dense_entry(diag: Seq<Rat>, low2: Seq<Rat>, i: int, j: int) -> Rat {
    if i == j {
        diag[j]
    } else if i == j + 2 {
        low2[j]
    } else {
        rat_int(0)
    }
}

/// The fixed perturbation taken out of an exactly zero leading
/// eigenvalue.
pub open spec fn singular_shift() -> Rat {
    Rat { n: 1, d: 10_000_000_000 }
}

/// Build `c * (I_2 S)` for a composite Chebyshev axis.
fn build_a_matrix(st: &StencilChebyshev, c: &Rational) -> (r: Option<Matrix>)
    requires
        st.wf(),
        c.wf(),
    ensures
        r matches Some(a) ==> a.wf() && a.rows == st.m && a.cols == st.m && forall|i: int, j: int|
            0 <= i < st.m as int && 0 <= j < st.m as int ==> rat_eqv(
                #[trigger] a@[i][j],
                poisson_a_entry(rats(st.diag@), rats(st.low2@), c@, i, j),
            ),
{
    let m: usize = st.m;
    let mut entries: Vec<Vec<Rational>> = Vec::new();
    let mut i: usize = 0;
    while i < m
        invariant
            0 <= i <= m,
            st.wf(),
            c.wf(),
            m == st.m,
            entries@.len() == i as int,
            forall|t: int|
                0 <= t < i as int ==> (#[trigger] entries@[t])@.len() == m as int && all_wf(
                    entries@[t]@,
                ),
            forall|t: int, j: int|
                0 <= t < i as int && 0 <= j < m as int ==> rat_eqv(
                    (#[trigger] entries@[t]@[j])@,
                    poisson_a_entry(rats(st.diag@), rats(st.low2@), c@, t, j),
                ),
        decreases m - i,
    {
        let mut row: Vec<Rational> = Vec::new();
        let mut j: usize = 0;
        while j < m
            invariant
                0 <= j <= m,
                i < m,
                st.wf(),
                c.wf(),
                m == st.m,
                row@.len() == j as int,
                all_wf(row@),
                forall|t: int|
                    0 <= t < j as int ==> rat_eqv(
                        (#[trigger] row@[t])@,
                        poisson_a_entry(rats(st.diag@), rats(st.low2@), c@, i as int, t),
                    ),
            decreases m - j,
        {
            let ghost gj = j as int;
            let v: Rational = if j == i {
                let p: Rational = c.mul(&st.low2[j])?;
                proof {
                    st.low2@[gj].lemma_wf_view();
                    c.lemma_wf_view();
                }
                p
            } else if j == i + 2 {
                let p: Rational = c.mul(&st.diag[j])?;
                proof {
                    st.diag@[gj].lemma_wf_view();
                    c.lemma_wf_view();
                }
                p
            } else {
                Rational::zero()
            };
            row.push(v);
            j = j + 1;
        }
        entries.push(row);
        i = i + 1;
    }
    let a: Matrix = match Matrix::from_rows(m, m, entries) {
        Some(v) => v,
        None => {
            proof {
                assert(false);
            }
            return None;
        },
    };
    Some(a)
}

/// Build `I_2 B2`, the banded pseudo-inverse of the second derivative
/// restricted to its valid rows.
fn build_pinv_rows(n: usize) -> (r: Matrix)
    requires
        4 <= n <= 0x4000_0000,
    ensures
        r.wf(),
        r.rows + 2 == n,
        r.cols == n,
        forall|i: int, j: int|
            0 <= i < n as int - 2 && 0 <= j < n as int ==> rat_eqv(
                #[trigger] r@[i][j],
                pinv_row_entry(n as int, i, j),
            ),
{
    let mut entries: Vec<Vec<Rational>> = Vec::new();
    let mut i: usize = 0;
    while i < n - 2
        invariant
            0 <= i <= n - 2,
            4 <= n <= 0x4000_0000,
            entries@.len() == i as int,
            forall|t: int|
                0 <= t < i as int ==> (#[trigger] entries@[t])@.len() == n as int && all_wf(
                    entries@[t]@,
                ),
            forall|t: int, j: int|
                0 <= t < i as int && 0 <= j < n as int ==> rat_eqv(
                    (#[trigger] entries@[t]@[j])@,
                    pinv_row_entry(n as int, t, j),
                ),
        decreases n - i,
    {
        let mut row: Vec<Rational> = Vec::new();
        let mut j: usize = 0;
        let ki: i64 = i as i64 + 2;
        proof {
            assert(4 * ki * (ki - 1) > 0 && 4 * ki * (ki - 1) <= 0x7fff_ffff_ffff_ffff && 2 * (ki
                * ki - 1) > 0 && 2 * (ki * ki - 1) <= 0x7fff_ffff_ffff_ffff && 4 * ki * (ki + 1)
                > 0 && 4 * ki * (ki + 1) <= 0x7fff_ffff_ffff_ffff) by (nonlinear_arith)
                requires
                    2 <= ki <= 0x4000_0002,
            ;
        }
        while j < n
            invariant
                0 <= j <= n,
                i < n - 2,
                4 <= n <= 0x4000_0000,
                ki == i as i64 + 2,
                4 * ki * (ki - 1) > 0,
                4 * ki * (ki - 1) <= 0x7fff_ffff_ffff_ffff,
                2 * (ki * ki - 1) > 0,
                2 * (ki * ki - 1) <= 0x7fff_ffff_ffff_ffff,
                4 * ki * (ki + 1) > 0,
                4 * ki * (ki + 1) <= 0x7fff_ffff_ffff_ffff,
                row@.len() == j as int,
                all_wf(row@),
                forall|t: int|
                    0 <= t < j as int ==> rat_eqv(
                        (#[trigger] row@[t])@,
                        pinv_row_entry(n as int, i as int, t),
                    ),
            decreases n - j,
        {
            let v: Rational = if j == i {
                let num: i64 = if i == 0 {
                    2
                } else {
                    1
                };
                match Rational::new(num, 4 * ki * (ki - 1)) {
                    Some(q) => q,
                    None => {
                        proof {
                            assert(false);
                        }
                        Rational::zero()
                    },
                }
            } else if j == i + 2 && j + 3 <= n {
                match Rational::new(-1, 2 * (ki * ki - 1)) {
                    Some(q) => q,
                    None => {
                        proof {
                            assert(false);
                        }
                        Rational::zero()
                    },
                }
            } else if j == i + 4 && j + 3 <= n {
                match Rational::new(1, 4 * ki * (ki + 1)) {
                    Some(q) => q,
                    None => {
                        proof {
                            assert(false);
                        }
                        Rational::zero()
                    },
                }
            } else {
                Rational::zero()
            };
            row.push(v);
            j = j + 1;
        }
        entries.push(row);
        i = i + 1;
    }
    match Matrix::from_rows(n - 2, n, entries) {
        Some(v) => v,
        None => {
            proof {
                assert(false);
            }
            Matrix::zeros(n - 2, n)
        },
    }
}

/// Build the dense stencil `S` of a composite Chebyshev axis.
fn build_stencil_dense(st: &StencilChebyshev) -> (r: Matrix)
    requires
        st.wf(),
    ensures
        r.wf(),
        r.rows == st.n,
        r.cols == st.m,
        forall|i: int, j: int|
            0 <= i < st.n as int && 0 <= j < st.m as int ==> #[trigger] r@[i][j]
                == stencil_dense_entry(rats(st.diag@), rats(st.low2@), i, j),
{
    let n: usize = st.n;
    let m: usize = st.m;
    let mut entries: Vec<Vec<Rational>> = Vec::new();
    let mut i: usize = 0;
    while i < n
        invariant
            0 <= i <= n,
            st.wf(),
            n == st.n,
            m == st.m,
            entries@.len() == i as int,
            forall|t: int|
                0 <= t < i as int ==> (#[trigger] entries@[t])@.len() == m as int && all_wf(
                    entries@[t]@,
                ),
            forall|t: int, j: int|
                0 <= t < i as int && 0 <= j < m as int ==> (#[trigger] entries@[t]@[j])@
                    == stencil_dense_entry(rats(st.diag@), rats(st.low2@), t, j),
        decreases n - i,
    {
        let mut row: Vec<Rational> = Vec::new();
        let mut j: usize = 0;
        while j < m
            invariant
                0 <= j <= m,
                i < n,
                st.wf(),
                n == st.n,
                m == st.m,
                row@.len() == j as int,
                all_wf(row@),
                forall|t: int|
                    0 <= t < j as int ==> (#[trigger] row@[t])@ == stencil_dense_entry(
                        rats(st.diag@),
                        rats(st.low2@),
                        i as int,
                        t,
                    ),
            decreases m - j,
        {
            let v: Rational = if i == j {
                st.diag[j]
            } else if i == j + 2 {
                st.low2[j]
            } else {
                Rational::zero()
            };
            row.push(v);
            j = j + 1;
        }
        entries.push(row);
        i = i + 1;
    }
    match Matrix::from_rows(n, m, entries) {
        Some(v) => v,
        None => {
            proof {
                assert(false);
            }
            Matrix::zeros(n, m)
        },
    }
}

/// Per-axis operator data of one composite Chebyshev axis, with the
/// matrices that witness how it was assembled.
pub open spec fn cheb_axis_assembled(
    st: StencilChebyshev,
    c: Rat,
    a: Fdma,
    cm_bands: Fdma,
) -> bool {
    exists|am: Matrix, pv: Matrix, sd: Matrix, cm: Matrix|
        #![trigger a.represents(am@), pv.wf(), sd.wf(), cm_bands.represents(cm@)]
        {
            &&& am.wf() && am.rows == st.m && am.cols == st.m
            &&& (forall|i: int, j: int|
                0 <= i < st.m as int && 0 <= j < st.m as int ==> rat_eqv(
                    #[trigger] am@[i][j],
                    poisson_a_entry(rats(st.diag@), rats(st.low2@), c, i, j),
                ))
            &&& pv.wf() && pv.rows + 2 == st.n && pv.cols == st.n
            &&& (forall|i: int, j: int|
                0 <= i < st.n as int - 2 && 0 <= j < st.n as int ==> rat_eqv(
                    #[trigger] pv@[i][j],
                    pinv_row_entry(st.n as int, i, j),
                ))
            &&& sd.wf() && sd.rows == st.n && sd.cols == st.m
            &&& (forall|i: int, j: int|
                0 <= i < st.n as int && 0 <= j < st.m as int ==> #[trigger] sd@[i][j]
                    == stencil_dense_entry(rats(st.diag@), rats(st.low2@), i, j))
            &&& cm.wf() && cm.rows == st.m && cm.cols == st.m
            &&& (forall|i: int, j: int|
                0 <= i < st.m as int && 0 <= j < st.m as int ==> rat_eqv(
                    #[trigger] cm@[i][j],
                    rat_dot(pv@[i], col_of(sd@, j)),
                ))
            &&& a.represents(am@)
            &&& cm_bands.represents(cm@)
        }
}

/// Assemble the banded operator pair `(A, C)` of one composite Chebyshev
/// axis: `A = c * (I_2 S)` and `C = (I_2 B2) S`, both four-diagonal.
fn cheb_axis_operators(st: &StencilChebyshev, c: &Rational) -> (r: Option<(Fdma, Fdma)>)
    requires
        st.wf(),
        c.wf(),
        st.m >= 4,
        st.n <= 0x4000_0000,
    ensures
        r matches Some(pair) ==> pair.0.wf() && pair.1.wf() && pair.0.n == st.m && pair.1.n == st.m
            && !pair.0.sweeped && !pair.1.sweeped && cheb_axis_assembled(*st, c@, pair.0, pair.1),
{
    let am: Matrix = build_a_matrix(st, c)?;
    let pv: Matrix = build_pinv_rows(st.n);
    let sd: Matrix = build_stencil_dense(st);
    let cm: Matrix = pv.matmul(&sd)?;
    let a_bands: Fdma = Fdma::from_matrix(&am)?;
    let c_bands: Fdma = Fdma::from_matrix(&cm)?;
    proof {
        assert(cheb_axis_assembled(*st, c@, a_bands, c_bands)) by {
            assert(a_bands.represents(am@));
            assert(c_bands.represents(cm@));
            assert(pv.wf());
            assert(sd.wf());
        }
    }
    Some((a_bands, c_bands))
}

/// Poisson solver: a tensor solver plus, per axis, the optional
/// right-hand-side pre-multiplication demanded by that axis's basis.
pub struct Poisson {
    /// The tensor solver over the assembled operator pairs.
    pub solver: FdmaTensor,
    /// Per axis, the pre-multiplication `I_2 B2` of the right-hand side,
    /// or `None` for a basis whose operator is already diagonal.
    pub matvec: Vec<Option<Matrix>>,
}

impl Poisson {
    /// The solver and the pre-multiplications fit together.
    pub open spec fn wf(self) -> bool {
        self.solver.wf() && match self.solver {
            FdmaTensor::Rank1 { fdma } => self.matvec@.len() == 1 && (self.matvec@[0] matches Some(
                v,
            ) ==> v.wf() && v.rows == fdma.n),
            FdmaTensor::Rank2 { m, n, .. } => self.matvec@.len() == 2 && (self.matvec@[0] matches Some(
                v,
            ) ==> v.wf() && v.rows == m) && (self.matvec@[1] matches Some(v) ==> v.wf() && v.rows
                == n),
        }
    }

    /// One-dimensional Poisson solver over a composite Chebyshev basis:
    /// assembles `A = c * (I_2 S)` and the pre-multiplication `I_2 B2`,
    /// and factorizes `A` once.
    pub fn from_composite_1d(base: &CompositeChebyshev, c: &Rational) -> (r: Option<Poisson>)
        requires
            base.wf(),
            c.wf(),
            base.m >= 4,
        ensures
            r matches Some(p) ==> p.wf() && (p.solver is Rank1) && p.solver->fdma.n == base.m
                && (p.matvec@[0] matches Some(mv) && mv.rows + 2 == base.n && mv.cols == base.n
                && (forall|i: int, j: int|
                0 <= i < base.n as int - 2 && 0 <= j < base.n as int ==> rat_eqv(
                    #[trigger] mv@[i][j],
                    pinv_row_entry(base.n as int, i, j),
                ))) && exists|am: Matrix|
                am.wf() && am.rows == base.m && am.cols == base.m && (forall|i: int, j: int|
                    0 <= i < base.m as int && 0 <= j < base.m as int ==> rat_eqv(
                        #[trigger] am@[i][j],
                        poisson_a_entry(rats(base.stencil.diag@), rats(base.stencil.low2@), c@, i, j),
                    )) && #[trigger] p.solver->fdma.represents(am@),
    {
        let am: Matrix = build_a_matrix(&base.stencil, c)?;
        let solver: FdmaTensor = FdmaTensor::from_matrix_1d(&am)?;
        let mv: Matrix = build_pinv_rows(base.n);
        let mut matvec: Vec<Option<Matrix>> = Vec::new();
        matvec.push(Some(mv));
        let p = Poisson { solver, matvec };
        Some(p)
    }

    /// Solve the one-dimensional problem `c * D2 u = f`: the returned
    /// coefficients exactly satisfy the banded system `A x = (I_2 B2) f`.
    pub fn solve_1d(&self, input: &Vec<Rational>) -> (r: Option<Vec<Rational>>)
        requires
            self.wf(),
            self.solver is Rank1,
            self.matvec@[0] is Some,
            input@.len() == (self.matvec@[0]->0).cols as int,
            all_wf(input@),
        ensures
            r matches Some(x) ==> x@.len() == self.solver->fdma.n as int && all_wf(x@) && forall|
                i: int,
            |
                0 <= i < x@.len() ==> rat_eqv(
                    #[trigger] fdma_apply(
                        rats(self.solver->fdma.low2@),
                        rats(self.solver->fdma.diag@),
                        rats(self.solver->fdma.up2@),
                        rats(self.solver->fdma.up4@),
                        rats(x@),
                        i,
                    ),
                    rat_dot((self.matvec@[0]->0)@[i], rats(input@)),
                ),
    {
        let rhs: Vec<Rational> = match &self.matvec[0] {
            Some(mv) => mv.matvec(input)?,
            None => {
                proof {
                    assert(false);
                }
                return None;
            },
        };
        let x: Vec<Rational> = self.solver.solve_1d(&rhs)?;
        proof {
            let mv = self.matvec@[0]->0;
            let f = self.solver->fdma;
            crate::linalg::lemma_all_wf_rats(input@);
            crate::linalg::lemma_all_wf_rats(rhs@);
            crate::linalg::lemma_all_wf_rats(x@);
            crate::bases::chebyshev::lemma_all_wf_views(f.low2@);
            crate::bases::chebyshev::lemma_all_wf_views(f.diag@);
            crate::bases::chebyshev::lemma_all_wf_views(f.up2@);
            crate::bases::chebyshev::lemma_all_wf_views(f.up4@);
            assert forall|i: int| 0 <= i < x@.len() implies rat_eqv(
                #[trigger] fdma_apply(
                    rats(f.low2@),
                    rats(f.diag@),
                    rats(f.up2@),
                    rats(f.up4@),
                    rats(x@),
                    i,
                ),
                rat_dot(mv@[i], rats(input@)),
            ) by {
                assert(all_rat_wf(mv@[i]));
                crate::linalg::lemma_rat_dot_wf(mv@[i], rats(input@));
                crate::solver::fdma::lemma_fdma_apply_wf(
                    rats(f.low2@),
                    rats(f.diag@),
                    rats(f.up2@),
                    rats(f.up4@),
                    rats(x@),
                    i,
                );
                rhs@[i].lemma_wf_view();
                lemma_eqv_trans(
                    fdma_apply(rats(f.low2@), rats(f.diag@), rats(f.up2@), rats(f.up4@), rats(x@), i),
                    rats(rhs@)[i],
                    rat_dot(mv@[i], rats(input@)),
                );
            }
        }
        Some(x)
    }

    /// Two-dimensional Poisson solver over a Fourier axis and a
    /// composite Chebyshev axis. The Fourier axis is diagonal with
    /// eigenvalues `cx * (-k^2)`; its zero mode makes the problem
    /// singular, so the leading eigenvalue is perturbed by the fixed
    /// shift and the solver records it.
    pub fn from_fourier_composite_2d(
        fx: &FourierR2c,
        by: &CompositeChebyshev,
        cx: &Rational,
        cy: &Rational,
    ) -> (r: Option<Poisson>)
        requires
            fx.wf(),
            by.wf(),
            cx.wf(),
            cy.wf(),
            by.m >= 4,
        ensures
            r matches Some(p) ==> p.wf() && (p.solver is Rank2) && p.solver->m == fx.m
                && p.solver->n == by.m && p.solver->fwd is None && p.solver->bwd is None
                && p.matvec@[0] is None && (p.matvec@[1] matches Some(mv) && mv.rows + 2 == by.n
                && mv.cols == by.n && (forall|i: int, j: int|
                0 <= i < by.n as int - 2 && 0 <= j < by.n as int ==> rat_eqv(
                    #[trigger] mv@[i][j],
                    pinv_row_entry(by.n as int, i, j),
                ))) && cheb_axis_assembled(by.stencil, cy@, p.solver->ay, p.solver->cy) && (forall|
                k: int,
            |
                1 <= k < fx.m as int ==> rat_eqv(
                    #[trigger] rats(p.solver->lam@)[k],
                    rat_mul(cx@, rat_int(-(k * k))),
                )) && p.solver->singular && rat_eqv(
                rats(p.solver->lam@)[0],
                rat_neg(singular_shift()),
            ),
    {
        let pair: (Fdma, Fdma) = cheb_axis_operators(&by.stencil, cy)?;
        let (ay, cyb) = pair;
        let lap: Vec<Rational> = fx.lap_diag();
        let mut lam: Vec<Rational> = Vec::new();
        let mut k: usize = 0;
        while k < fx.m
            invariant
                0 <= k <= fx.m,
                fx.wf(),
                cx.wf(),
                lap@.len() == fx.m as int,
                all_wf(lap@),
                forall|t: int|
                    0 <= t < fx.m as int ==> rat_eqv(#[trigger] rats(lap@)[t], rat_int(-(t * t))),
                lam@.len() == k as int,
                all_wf(lam@),
                forall|t: int|
                    0 <= t < k as int ==> rat_eqv(
                        (#[trigger] lam@[t])@,
                        rat_mul(cx@, rat_int(-(t * t))),
                    ),
            decreases fx.m - k,
        {
            let ghost gk = k as int;
            let v: Rational = cx.mul(&lap[k])?;
            proof {
                assert(rat_eqv(rats(lap@)[gk], rat_int(-(gk * gk))));
                assert(rats(lap@)[gk] == lap@[gk]@);
                lap@[gk].lemma_wf_view();
                v.lemma_wf_view();
                cx.lemma_wf_view();
                crate::rational::lemma_mul_congruence(cx@, cx@, lap@[gk]@, rat_int(-(gk * gk)));
                lemma_eqv_trans(v@, rat_mul(cx@, lap@[gk]@), rat_mul(cx@, rat_int(-(gk * gk))));
            }
            lam.push(v);
            k = k + 1;
        }
        // The zero wavenumber has eigenvalue exactly zero: perturb it and
        // record the fact.
        let shift: Rational = match Rational::new(1, 10_000_000_000) {
            Some(q) => q,
            None => {
                proof {
                    assert(false);
                }
                Rational::zero()
            },
        };
        let singular: bool = lam[0].is_zero();
        if singular {
            let l0: Rational = lam[0].sub(&shift)?;
            proof {
                assert(lam@[0].wf());
                lam@[0].lemma_wf_view();
                shift.lemma_wf_view();
                l0.lemma_wf_view();
                assert(rat_eqv(l0@, rat_neg(singular_shift()))) by (nonlinear_arith)
                    requires
                        rat_eqv(l0@, rat_sub(lam@[0]@, shift@)),
                        rat_is_zero(lam@[0]@),
                        lam@[0]@.d > 0,
                        l0@.d > 0,
                        shift@.d > 0,
                        rat_eqv(shift@, Rat { n: 1, d: 10_000_000_000 }),
                ;
            }
            lam[0] = l0;
            proof {
                crate::bases::chebyshev::lemma_all_wf_update(lam@, 0);
            }
        } else {
            proof {
                cx.lemma_wf_view();
                assert(lam@[0].wf());
                lam@[0].lemma_wf_view();
                assert(rat_eqv(lam@[0]@, rat_mul(cx@, rat_int(0))));
                assert(false) by (nonlinear_arith)
                    requires
                        rat_eqv(lam@[0]@, rat_mul(cx@, rat_int(0))),
                        !rat_is_zero(lam@[0]@),
                        cx@.d > 0,
                        lam@[0]@.d > 0,
                ;
            }
        }
        let solver: FdmaTensor = FdmaTensor::from_parts_2d(ay, cyb, lam, None, None, singular);
        let mv: Matrix = build_pinv_rows(by.n);
        let mut matvec: Vec<Option<Matrix>> = Vec::new();
        matvec.push(None);
        matvec.push(Some(mv));
        Some(Poisson { solver, matvec })
    }

    /// Two-dimensional Poisson solver over two composite Chebyshev axes.
    /// The first axis's generalized eigendecomposition is irrational and
    /// enters as data: its eigenvalues and the forward and backward
    /// transform matrices. An exactly zero leading eigenvalue is
    /// perturbed by the fixed shift.
    pub fn from_composite_composite_2d(
        bx: &CompositeChebyshev,
        by: &CompositeChebyshev,
        cy: &Rational,
        lam: Vec<Rational>,
        fwd: Matrix,
        bwd: Matrix,
    ) -> (r: Option<Poisson>)
        requires
            bx.wf(),
            by.wf(),
            cy.wf(),
            bx.m >= 2,
            by.m >= 4,
            lam@.len() == bx.m as int,
            all_wf(lam@),
            fwd.wf(),
            fwd.rows == bx.m,
            fwd.cols == bx.m,
            bwd.wf(),
            bwd.rows == bx.m,
            bwd.cols == bx.m,
        ensures
            r matches Some(p) ==> p.wf() && (p.solver is Rank2) && p.solver->m == bx.m
                && p.solver->n == by.m && p.solver->fwd == Some(fwd) && p.solver->bwd == Some(bwd)
                && cheb_axis_assembled(by.stencil, cy@, p.solver->ay, p.solver->cy) && (p.matvec@[0] matches Some(
                mvx,
            ) && mvx.rows + 2 == bx.n && mvx.cols == bx.n && (forall|i: int, j: int|
                0 <= i < bx.n as int - 2 && 0 <= j < bx.n as int ==> rat_eqv(
                    #[trigger] mvx@[i][j],
                    pinv_row_entry(bx.n as int, i, j),
                ))) && (p.matvec@[1] matches Some(mvy) && mvy.rows + 2 == by.n && mvy.cols == by.n
                && (forall|i: int, j: int|
                0 <= i < by.n as int - 2 && 0 <= j < by.n as int ==> rat_eqv(
                    #[trigger] mvy@[i][j],
                    pinv_row_entry(by.n as int, i, j),
                ))) && (rat_is_zero(rats(lam@)[0]) ==> p.solver->singular && rat_eqv(
                rats(p.solver->lam@)[0],
                rat_neg(singular_shift()),
            )) && (!rat_is_zero(rats(lam@)[0]) ==> !p.solver->singular && p.solver->lam@ == lam@),
    {
        let pair: (Fdma, Fdma) = cheb_axis_operators(&by.stencil, cy)?;
        let (ay, cyb) = pair;
        let mut lam: Vec<Rational> = lam;
        let shift: Rational = match Rational::new(1, 10_000_000_000) {
            Some(q) => q,
            None => {
                proof {
                    assert(false);
                }
                Rational::zero()
            },
        };
        let singular: bool = lam[0].is_zero();
        if singular {
            let l0: Rational = lam[0].sub(&shift)?;
            proof {
                assert(lam@[0].wf());
                lam@[0].lemma_wf_view();
                shift.lemma_wf_view();
                l0.lemma_wf_view();
                assert(rat_eqv(l0@, rat_neg(singular_shift()))) by (nonlinear_arith)
                    requires
                        rat_eqv(l0@, rat_sub(lam@[0]@, shift@)),
                        rat_is_zero(lam@[0]@),
                        lam@[0]@.d > 0,
                        l0@.d > 0,
                        shift@.d > 0,
                        rat_eqv(shift@, Rat { n: 1, d: 10_000_000_000 }),
                ;
            }
            lam[0] = l0;
            proof {
                crate::bases::chebyshev::lemma_all_wf_update(lam@, 0);
            }
        }
        let solver: FdmaTensor = FdmaTensor::from_parts_2d(
            ay,
            cyb,
            lam,
            Some(fwd),
            Some(bwd),
            singular,
        );
        let mvx: Matrix = build_pinv_rows(bx.n);
        let mvy: Matrix = build_pinv_rows(by.n);
        let mut matvec: Vec<Option<Matrix>> = Vec::new();
        matvec.push(Some(mvx));
        matvec.push(Some(mvy));
        Some(Poisson { solver, matvec })
    }

    /// The first pre-multiplication applied to the input, entry by
    /// entry.
    pub open spec fn axis0_entry(self, input: Seq<Seq<Rat>>, k: int, i: int) -> Rat {
        match self.matvec@[0] {
            Some(m0) => rat_dot(m0@[k], col_of(input, i)),
            None => input[k][i],
        }
    }

    /// The second pre-multiplication relates `mid` to `rhs` row by row.
    pub open spec fn axis1_ok(self, mid: Seq<Seq<Rat>>, rhs: Seq<Seq<Rat>>) -> bool {
        match self.matvec@[1] {
            Some(m1) => rhs.len() == mid.len() && (forall|k: int, i: int|
                0 <= k < rhs.len() && 0 <= i < self.solver->n as int ==> rat_eqv(
                    #[trigger] rhs[k][i],
                    rat_dot(m1@[i], mid[k]),
                )),
            None => rhs == mid,
        }
    }

    /// What a successful two-dimensional solve establishes: witnesses
    /// for the pre-multiplied right-hand side and the per-mode
    /// solutions tie `out` exactly to `input` through every step.
    pub open spec fn solved_2d(self, input: Matrix, out: Matrix) -> bool {
        exists|mid: Matrix, rhs: Matrix, y: Matrix|
            #![trigger self.axis1_ok(mid@, rhs@), self.solver.modes_ok(rhs@, y@)]
            {
                &&& mid.wf() && mid.rows == self.solver->m && self.axis1_ok(mid@, rhs@)
                &&& (forall|k: int, i: int|
                    0 <= k < self.solver->m as int && 0 <= i < mid.cols as int ==> rat_eqv(
                        #[trigger] mid@[k][i],
                        self.axis0_entry(input@, k, i),
                    ))
                &&& rhs.wf() && rhs.rows == self.solver->m && rhs.cols == self.solver->n
                &&& y.wf() && y.rows == self.solver->m && y.cols == self.solver->n
                &&& self.solver.modes_ok(rhs@, y@)
                &&& self.solver.out_ok(y@, out@)
            }
    }

    /// Solve the two-dimensional problem: pre-multiply the right-hand
    /// side along each axis as its basis demands, then run the tensor
    /// solver. The witnesses tie the output exactly to the input through
    /// every step.
    pub fn solve_2d(&self, input: &Matrix) -> (r: Option<Matrix>)
        requires
            self.wf(),
            self.solver is Rank2,
            input.wf(),
            input.rows == (if self.matvec@[0] is Some {
                (self.matvec@[0]->0).cols
            } else {
                self.solver->m
            }),
            input.cols == (if self.matvec@[1] is Some {
                (self.matvec@[1]->0).cols
            } else {
                self.solver->n
            }),
        ensures
            r matches Some(out) ==> out.wf() && out.rows == self.solver->m && out.cols
                == self.solver->n && self.solved_2d(*input, out),
    {
        // First axis.
        let mid: Matrix = match &self.matvec[0] {
            Some(m0) => m0.matmul(input)?,
            None => input.duplicate(),
        };
        proof {
            assert forall|k: int, i: int|
                0 <= k < self.solver->m as int && 0 <= i < mid.cols as int implies rat_eqv(
                #[trigger] mid@[k][i],
                self.axis0_entry(input@, k, i),
            ) by {
                if self.matvec@[0] is None {
                    assert(mid@[k][i] == input@[k][i]);
                }
            }
        }
        // Second axis: multiply each row of `mid` by the transpose of
        // the pre-multiplication.
        let rhs: Matrix = match &self.matvec[1] {
            Some(m1) => {
                let t: Matrix = mid.transpose();
                let tmp: Matrix = m1.matmul(&t)?;
                let back: Matrix = tmp.transpose();
                proof {
                    assert forall|k: int, i: int|
                        0 <= k < back.rows as int && 0 <= i < self.solver->n as int implies rat_eqv(
                        #[trigger] back@[k][i],
                        rat_dot((self.matvec@[1]->0)@[i], mid@[k]),
                    ) by {
                        assert(back@[k][i] == tmp@[i][k]);
                        assert(col_of(t@, k) =~= mid@[k]);
                    }
                }
                back
            },
            None => mid.duplicate(),
        };
        let out: Matrix = self.solver.solve_2d(&rhs)?;
        proof {
            assert(self.axis1_ok(mid@, rhs@));
            let w_y: Matrix = choose|y: Matrix|
                y.wf() && y.rows == self.solver->m && y.cols == self.solver->n
                    && #[trigger] self.solver.modes_ok(rhs@, y@) && self.solver.out_ok(y@, out@);
            assert(exists|mid2: Matrix, rhs2: Matrix, y: Matrix|
                #![trigger self.axis1_ok(mid2@, rhs2@), self.solver.modes_ok(rhs2@, y@)]
                {
                    &&& mid2.wf() && mid2.rows == self.solver->m && self.axis1_ok(mid2@, rhs2@)
                    &&& (forall|k: int, i: int|
                        0 <= k < self.solver->m as int && 0 <= i < mid2.cols as int ==> rat_eqv(
                            #[trigger] mid2@[k][i],
                            self.axis0_entry(input@, k, i),
                        ))
                    &&& rhs2.wf() && rhs2.rows == self.solver->m && rhs2.cols == self.solver->n
                    &&& y.wf() && y.rows == self.solver->m && y.cols == self.solver->n
                    &&& self.solver.modes_ok(rhs2@, y@)
                    &&& self.solver.out_ok(y@, out@)
                }) by {
                assert(self.axis1_ok(mid@, rhs@));
                assert(self.solver.modes_ok(rhs@, w_y@));
            }
        }
        Some(out)
    }

    /// Solve a complex two-dimensional problem componentwise: the
    /// operators are real, so the real and imaginary parts of the
    /// right-hand side solve independently and each returned component
    /// carries the full two-dimensional solve contract.
    pub fn solve_2d_parts(&self, re: &Matrix, im: &Matrix) -> (r: Option<(Matrix, Matrix)>)
        requires
            self.wf(),
            self.solver is Rank2,
            re.wf(),
            im.wf(),
            re.rows == (if self.matvec@[0] is Some {
                (self.matvec@[0]->0).cols
            } else {
                self.solver->m
            }),
            re.cols == (if self.matvec@[1] is Some {
                (self.matvec@[1]->0).cols
            } else {
                self.solver->n
            }),
            im.rows == re.rows,
            im.cols == re.cols,
        ensures
            r matches Some(pair) ==> pair.0.wf() && pair.1.wf() && pair.0.rows == self.solver->m
                && pair.0.cols == self.solver->n && pair.1.rows == self.solver->m && pair.1.cols
                == self.solver->n && self.solved_2d(*re, pair.0) && self.solved_2d(*im, pair.1),
    {
        let xr: Matrix = self.solve_2d(re)?;
        let xi: Matrix = self.solve_2d(im)?;
        Some((xr, xi))
    }
}

} // verus!
