//! Composite bases: linear combinations of a parent orthogonal basis
//! chosen to satisfy boundary conditions, connected to the parent by a
//! banded stencil matrix.
//!
//! Parent (`p`) and composite (`c`) coefficients are connected by the
//! stencil `S` as `p = S c`. `to_parent` is the banded product itself;
//! `from_parent` solves the normal equations `(S^T S) c = S^T p`.
//! Transforms compose with the parent basis: forward is the parent
//! forward followed by `from_parent`, backward is `to_parent` followed
//! by the parent backward, and differentiation happens in parent space.
use crate::bases::chebyshev::{
    cheb_bwd_corrected, cheb_deriv_iter, cheb_deriv_iter_fits, cheb_forward_fits,
    cheb_forward_spec, cheb_fwd_factor, from_parent_ok, lemma_all_wf_views,
    lemma_deriv_iter_fits_scaled, lemma_from_parent_ok_scaled, lemma_normal_rhs_congruence,
    normal_apply, normal_rhs, stencil_apply, stencil_apply_fits, Chebyshev, StencilChebyshev,
};
use crate::linalg::{all_rat_wf, all_wf, rat_dot, rats, seq_eqv, Matrix};
use crate::rational::{
    lemma_add_congruence, lemma_eqv_trans, lemma_mul_add_distrib, lemma_mul_congruence, rat_add,
    rat_eqv, rat_mul, rat_raw_fits, rat_scales_to, rat_wf, term_or_zero, Rat, Rational,
};
use vstd::prelude::*;

verus! {

broadcast use crate::rational::lemma_add_wf, crate::rational::lemma_mul_wf,
    crate::rational::lemma_neg_wf, crate::rational::lemma_term_or_zero_wf;

/// Sizes of a composite basis: `n` coefficients in parent space are
/// spanned by `m` composite coefficients, connected by a stencil.
pub struct Composite {
    /// Number of coefficients in parent space.
    pub n: usize,
    /// Number of coefficients in composite space.
    pub m: usize,
}

/// Which stencil a composite Chebyshev basis is built from.
#[derive(Clone, Copy, Debug, PartialEq, Eq, Structural)]
pub enum StencilKind {
    /// `phi_k = T_k - T_{k+2}`: zero boundary values.
    Dirichlet,
    /// `phi_k = T_k - (k^2/(k+2)^2) T_{k+2}`: zero boundary slopes.
    Neumann,
}

/// The parent-space image `S c` of composite coefficients, as a
/// sequence.
pub open spec fn stencil_apply_seq(diag: Seq<Rat>, low2: Seq<Rat>, c: Seq<Rat>, n: int) -> Seq<
    Rat,
> {
    Seq::new(n as nat, |i: int| stencil_apply(diag, low2, c, i))
}

proof fn lemma_mul_zero(x: Rat)
    requires
        rat_wf(x),
    ensures
        rat_eqv(rat_mul(x, crate::rational::rat_int(0)), crate::rational::rat_int(0)),
{
}

proof fn lemma_shift_right(a: Rat, b: Rat, x: Rat)
    requires
        rat_wf(a),
        rat_wf(b),
        rat_wf(x),
    ensures
        rat_eqv(rat_add(rat_add(a, b), x), rat_add(rat_add(a, x), b)),
{
    crate::rational::lemma_add_assoc(a, b, x);
    crate::rational::lemma_add_comm(b, x);
    crate::rational::lemma_add_congruence(a, a, rat_add(b, x), rat_add(x, b));
    crate::rational::lemma_add_assoc(a, x, b);
    crate::rational::lemma_eqv_sym(rat_add(rat_add(a, x), b), rat_add(a, rat_add(x, b)));
    crate::rational::lemma_add_wf(b, x);
    crate::rational::lemma_add_wf(x, b);
    crate::rational::lemma_add_wf(a, rat_add(b, x));
    crate::rational::lemma_add_wf(a, rat_add(x, b));
    crate::rational::lemma_add_wf(rat_add(a, b), x);
    crate::rational::lemma_add_wf(rat_add(a, x), b);
    lemma_eqv_trans(
        rat_add(rat_add(a, b), x),
        rat_add(a, rat_add(b, x)),
        rat_add(a, rat_add(x, b)),
    );
    lemma_eqv_trans(
        rat_add(rat_add(a, b), x),
        rat_add(a, rat_add(x, b)),
        rat_add(rat_add(a, x), b),
    );
}

/// The identity behind the `to_parent`/`from_parent` round trip: a
/// composite vector `c` itself satisfies the normal equations
/// `(S^T S) c = S^T (S c)` whose right-hand side is its own parent
/// image. `from_parent` returns a solution of exactly these equations,
/// so its result and `c` solve the same tridiagonal system. Concluding
/// that they are equal additionally needs uniqueness of that system's
/// solutions (nonsingularity of `S^T S`), which is not proved here:
/// `lemma_to_parent_injective` gives uniqueness of preimages under `S`
/// itself, not under `S^T S`. The runtime tests check the full round
/// trip on concrete vectors exactly.
pub proof fn lemma_round_trip_normal_equations(
    diag: Seq<Rat>,
    low2: Seq<Rat>,
    c: Seq<Rat>,
    i: int,
)
    requires
        all_rat_wf(diag),
        all_rat_wf(low2),
        all_rat_wf(c),
        diag.len() == c.len(),
        low2.len() == c.len(),
        0 <= i < c.len(),
    ensures
        rat_eqv(
            normal_rhs(
                diag,
                low2,
                stencil_apply_seq(diag, low2, c, c.len() as int + 2),
                i,
            ),
            normal_apply(diag, low2, c, i),
        ),
{
    let m = c.len() as int;
    let sp = stencil_apply_seq(diag, low2, c, m + 2);
    let di = diag[i];
    let li = low2[i];
    // The four products that both sides are made of.
    let p1 = rat_mul(rat_mul(di, di), c[i]);
    let p2 = term_or_zero(
        i >= 2,
        rat_mul(crate::bases::chebyshev::stn_upper(diag, low2, i - 2), c[i - 2]),
    );
    let p3 = rat_mul(rat_mul(li, li), c[i]);
    let p4 = term_or_zero(
        i + 2 < m,
        rat_mul(crate::bases::chebyshev::stn_upper(diag, low2, i), c[i + 2]),
    );
    let a1 = term_or_zero(i < m, rat_mul(di, c[i]));
    let a2 = term_or_zero(i >= 2, rat_mul(low2[i - 2], c[i - 2]));
    let b1 = term_or_zero(i + 2 < m, rat_mul(diag[i + 2], c[i + 2]));
    let b2 = term_or_zero(i + 2 >= 2, rat_mul(li, c[i]));
    assert(sp[i] == rat_add(a1, a2));
    assert(sp[i + 2] == rat_add(b1, b2));
    // First summand of the right-hand side: d_i * sp[i].
    lemma_mul_add_distrib(di, a1, a2);
    crate::rational::lemma_mul_assoc(di, di, c[i]);
    crate::rational::lemma_eqv_sym(
        rat_mul(rat_mul(di, di), c[i]),
        rat_mul(di, rat_mul(di, c[i])),
    );
    assert(rat_eqv(rat_mul(di, a1), p1)) by {
        crate::rational::lemma_eqv_sym(rat_mul(di, rat_mul(di, c[i])), p1);
    }
    assert(rat_eqv(rat_mul(di, a2), p2)) by {
        if i >= 2 {
            crate::rational::lemma_mul_assoc(di, low2[i - 2], c[i - 2]);
            crate::rational::lemma_eqv_sym(
                rat_mul(rat_mul(di, low2[i - 2]), c[i - 2]),
                rat_mul(di, rat_mul(low2[i - 2], c[i - 2])),
            );
        } else {
            lemma_mul_zero(di);
        }
    }
    crate::rational::lemma_add_congruence(rat_mul(di, a1), p1, rat_mul(di, a2), p2);
    lemma_eqv_trans(
        rat_mul(di, sp[i]),
        rat_add(rat_mul(di, a1), rat_mul(di, a2)),
        rat_add(p1, p2),
    );
    // Second summand: l_i * sp[i + 2].
    lemma_mul_add_distrib(li, b1, b2);
    assert(rat_eqv(rat_mul(li, b1), p4)) by {
        if i + 2 < m {
            crate::rational::lemma_mul_assoc(li, diag[i + 2], c[i + 2]);
            crate::rational::lemma_eqv_sym(
                rat_mul(rat_mul(li, diag[i + 2]), c[i + 2]),
                rat_mul(li, rat_mul(diag[i + 2], c[i + 2])),
            );
            crate::rational::lemma_mul_comm(li, diag[i + 2]);
            crate::rational::lemma_mul_congruence(
                rat_mul(li, diag[i + 2]),
                rat_mul(diag[i + 2], li),
                c[i + 2],
                c[i + 2],
            );
            lemma_eqv_trans(
                rat_mul(li, b1),
                rat_mul(rat_mul(li, diag[i + 2]), c[i + 2]),
                rat_mul(rat_mul(diag[i + 2], li), c[i + 2]),
            );
        } else {
            lemma_mul_zero(li);
        }
    }
    assert(rat_eqv(rat_mul(li, b2), p3)) by {
        crate::rational::lemma_mul_assoc(li, li, c[i]);
        crate::rational::lemma_eqv_sym(
            rat_mul(rat_mul(li, li), c[i]),
            rat_mul(li, rat_mul(li, c[i])),
        );
    }
    crate::rational::lemma_add_congruence(rat_mul(li, b1), p4, rat_mul(li, b2), p3);
    lemma_eqv_trans(
        rat_mul(li, sp[i + 2]),
        rat_add(rat_mul(li, b1), rat_mul(li, b2)),
        rat_add(p4, p3),
    );
    // The whole right-hand side, regrouped.
    crate::rational::lemma_add_congruence(
        rat_mul(di, sp[i]),
        rat_add(p1, p2),
        rat_mul(li, sp[i + 2]),
        rat_add(p4, p3),
    );
    crate::rational::lemma_add_exchange(p1, p2, p4, p3);
    lemma_eqv_trans(
        normal_rhs(diag, low2, sp, i),
        rat_add(rat_add(p1, p2), rat_add(p4, p3)),
        rat_add(rat_add(p1, p4), rat_add(p2, p3)),
    );
    // The target, built from the same four products: the diagonal of
    // the normal matrix splits as d_i^2 + l_i^2.
    let dm = crate::bases::chebyshev::stn_dmain(diag, low2, i);
    assert(rat_eqv(rat_mul(dm, c[i]), rat_add(p1, p3))) by {
        crate::rational::lemma_mul_comm(dm, c[i]);
        lemma_mul_add_distrib(c[i], rat_mul(di, di), rat_mul(li, li));
        crate::rational::lemma_mul_comm(c[i], rat_mul(di, di));
        crate::rational::lemma_mul_comm(c[i], rat_mul(li, li));
        crate::rational::lemma_add_congruence(
            rat_mul(c[i], rat_mul(di, di)),
            p1,
            rat_mul(c[i], rat_mul(li, li)),
            p3,
        );
        lemma_eqv_trans(
            rat_mul(dm, c[i]),
            rat_mul(c[i], dm),
            rat_add(rat_mul(c[i], rat_mul(di, di)), rat_mul(c[i], rat_mul(li, li))),
        );
        lemma_eqv_trans(
            rat_mul(dm, c[i]),
            rat_add(rat_mul(c[i], rat_mul(di, di)), rat_mul(c[i], rat_mul(li, li))),
            rat_add(p1, p3),
        );
    }
    // normal_apply = (p2 + dm c_i) + p4 ~ (p2 + (p1 + p3)) + p4
    crate::rational::lemma_add_congruence(p2, p2, rat_mul(dm, c[i]), rat_add(p1, p3));
    crate::rational::lemma_add_congruence(
        rat_add(p2, rat_mul(dm, c[i])),
        rat_add(p2, rat_add(p1, p3)),
        p4,
        p4,
    );
    // and (p1 + p4) + (p2 + p3) ~ (p2 + (p1 + p3)) + p4.
    crate::rational::lemma_add_comm(p1, p4);
    crate::rational::lemma_add_congruence(
        rat_add(p1, p4),
        rat_add(p4, p1),
        rat_add(p2, p3),
        rat_add(p2, p3),
    );
    crate::rational::lemma_add_exchange(p4, p1, p2, p3);
    lemma_eqv_trans(
        rat_add(rat_add(p1, p4), rat_add(p2, p3)),
        rat_add(rat_add(p4, p1), rat_add(p2, p3)),
        rat_add(rat_add(p4, p2), rat_add(p1, p3)),
    );
    lemma_shift_right(p4, p2, rat_add(p1, p3));
    lemma_eqv_trans(
        rat_add(rat_add(p1, p4), rat_add(p2, p3)),
        rat_add(rat_add(p4, p2), rat_add(p1, p3)),
        rat_add(rat_add(p4, rat_add(p1, p3)), p2),
    );
    crate::rational::lemma_add_comm(p4, rat_add(p1, p3));
    crate::rational::lemma_add_congruence(
        rat_add(p4, rat_add(p1, p3)),
        rat_add(rat_add(p1, p3), p4),
        p2,
        p2,
    );
    lemma_eqv_trans(
        rat_add(rat_add(p1, p4), rat_add(p2, p3)),
        rat_add(rat_add(p4, rat_add(p1, p3)), p2),
        rat_add(rat_add(rat_add(p1, p3), p4), p2),
    );
    lemma_shift_right(rat_add(p1, p3), p4, p2);
    lemma_eqv_trans(
        rat_add(rat_add(p1, p4), rat_add(p2, p3)),
        rat_add(rat_add(rat_add(p1, p3), p4), p2),
        rat_add(rat_add(rat_add(p1, p3), p2), p4),
    );
    crate::rational::lemma_add_comm(rat_add(p1, p3), p2);
    crate::rational::lemma_add_congruence(
        rat_add(rat_add(p1, p3), p2),
        rat_add(p2, rat_add(p1, p3)),
        p4,
        p4,
    );
    lemma_eqv_trans(
        rat_add(rat_add(p1, p4), rat_add(p2, p3)),
        rat_add(rat_add(rat_add(p1, p3), p2), p4),
        rat_add(rat_add(p2, rat_add(p1, p3)), p4),
    );
    crate::rational::lemma_eqv_sym(
        rat_add(rat_add(p2, rat_mul(dm, c[i])), p4),
        rat_add(rat_add(p2, rat_add(p1, p3)), p4),
    );
    lemma_eqv_trans(
        rat_add(rat_add(p1, p4), rat_add(p2, p3)),
        rat_add(rat_add(p2, rat_add(p1, p3)), p4),
        rat_add(rat_add(p2, rat_mul(dm, c[i])), p4),
    );
    lemma_eqv_trans(
        normal_rhs(diag, low2, sp, i),
        rat_add(rat_add(p1, p4), rat_add(p2, p3)),
        normal_apply(diag, low2, c, i),
    );
}

/// Composite basis over a Chebyshev parent, derived by a banded stencil.
pub struct CompositeChebyshev {
    /// Number of coefficients in parent space.
    pub n: usize,
    /// Number of coefficients in composite space.
    pub m: usize,
    /// Which boundary conditions the stencil encodes.
    pub kind: StencilKind,
    /// The parent basis.
    pub parent: Chebyshev,
    /// The stencil connecting composite to parent coefficients.
    pub stencil: StencilChebyshev,
}

impl CompositeChebyshev {
    /// Parent and stencil agree with the stated sizes.
    pub open spec fn wf(self) -> bool {
        self.parent.wf() && self.stencil.wf() && self.n == self.parent.n && self.n
            == self.stencil.n && self.m == self.stencil.m
    }

    /// Create a new composite basis over a Chebyshev parent of size `n`,
    /// with the stencil selected by `kind`.
    pub fn new(kind: StencilKind, n: usize, x: Vec<Rational>, dct: Matrix) -> (r:
        CompositeChebyshev)
        requires
            3 <= n <= 0x4000_0000,
            x@.len() == n as int,
            all_wf(x@),
            crate::bases::chebyshev::grid_wf(rats(x@)),
            dct.wf(),
            dct.rows == n,
            dct.cols == n,
        ensures
            r.wf(),
            r.n == n,
            r.m == n - 2,
            r.kind == kind,
            r.parent.dct == dct,
            (forall|k: int| 0 <= k < r.m as int ==> #[trigger] rats(r.stencil.diag@)[k] == crate::rational::rat_int(1)),
            kind == StencilKind::Dirichlet ==> forall|k: int|
                0 <= k < r.m as int ==> #[trigger] rats(r.stencil.low2@)[k]
                    == crate::rational::rat_int(-1),
            kind == StencilKind::Neumann ==> forall|k: int|
                0 <= k < r.m as int ==> rat_eqv(
                    #[trigger] rats(r.stencil.low2@)[k],
                    Rat { n: -(k * k), d: (k + 2) * (k + 2) },
                ),
    {
        let stencil: StencilChebyshev = match kind {
            StencilKind::Dirichlet => StencilChebyshev::dirichlet(n),
            StencilKind::Neumann => StencilChebyshev::neumann(n),
        };
        let m: usize = stencil.m;
        let parent: Chebyshev = Chebyshev::new(n, x, dct);
        CompositeChebyshev { n, m, kind, parent, stencil }
    }

    /// Return size of physical space.
    pub fn len_phys(&self) -> (r: usize)
        ensures
            r == self.n,
    {
        self.n
    }

    /// Return size of spectral space.
    pub fn len_spec(&self) -> (r: usize)
        ensures
            r == self.m,
    {
        self.m
    }

    /// Return grid coordinates.
    pub fn coords(&self) -> (r: &Vec<Rational>)
        ensures
            r == &self.parent.x,
    {
        &self.parent.x
    }

    /// Expand composite coefficients into parent coefficients via the
    /// stencil.
    pub fn to_parent(&self, composite: &Vec<Rational>) -> (r: Option<Vec<Rational>>)
        requires
            self.wf(),
            composite@.len() == self.m as int,
            all_wf(composite@),
        ensures
            r matches Some(p) ==> p@.len() == self.n as int && all_wf(p@) && forall|i: int|
                0 <= i < self.n as int ==> rat_eqv(
                    #[trigger] rats(p@)[i],
                    stencil_apply(
                        rats(self.stencil.diag@),
                        rats(self.stencil.low2@),
                        rats(composite@),
                        i,
                    ),
                ),
            crate::bases::chebyshev::stencil_apply_fits(
                rats(self.stencil.diag@),
                rats(self.stencil.low2@),
                rats(composite@),
                self.n as int,
            ) ==> r is Some,
    {
        self.stencil.to_parent(composite)
    }

    /// Contract parent coefficients to composite coefficients: the
    /// result exactly satisfies the normal equations
    /// `(S^T S) c = S^T p`.
    pub fn from_parent(&self, parent: &Vec<Rational>) -> (r: Option<Vec<Rational>>)
        requires
            self.wf(),
            self.m >= 2,
            parent@.len() == self.n as int,
            all_wf(parent@),
        ensures
            r matches Some(c) ==> c@.len() == self.m as int && all_wf(c@) && forall|i: int|
                0 <= i < self.m as int ==> rat_eqv(
                    #[trigger] normal_apply(
                        rats(self.stencil.diag@),
                        rats(self.stencil.low2@),
                        rats(c@),
                        i,
                    ),
                    normal_rhs(
                        rats(self.stencil.diag@),
                        rats(self.stencil.low2@),
                        rats(parent@),
                        i,
                    ),
                ),
            from_parent_ok(rats(self.stencil.diag@), rats(self.stencil.low2@), rats(parent@))
                ==> r is Some,
    {
        self.stencil.from_parent(parent)
    }

    /// Transform physical space to composite spectral space: parent
    /// forward transform, then `from_parent`. The result exactly
    /// satisfies the normal equations whose right-hand side comes from
    /// the parent's forward transform of the samples.
    pub fn forward(&self, v: &Vec<Rational>) -> (r: Option<Vec<Rational>>)
        requires
            self.wf(),
            self.m >= 2,
            v@.len() == self.n as int,
            all_wf(v@),
        ensures
            r matches Some(out) ==> out@.len() == self.m as int && all_wf(out@) && forall|i: int|
                0 <= i < self.m as int ==> rat_eqv(
                    #[trigger] normal_apply(
                        rats(self.stencil.diag@),
                        rats(self.stencil.low2@),
                        rats(out@),
                        i,
                    ),
                    normal_rhs(
                        rats(self.stencil.diag@),
                        rats(self.stencil.low2@),
                        cheb_forward_spec(self.parent.dct@, self.n as int, rats(v@)),
                        i,
                    ),
                ),
            cheb_forward_fits(self.parent.dct@, self.n as int, rats(v@)) && from_parent_ok(
                rats(self.stencil.diag@),
                rats(self.stencil.low2@),
                cheb_forward_spec(self.parent.dct@, self.n as int, rats(v@)),
            ) ==> r is Some,
    {
        let ghost rd = rats(self.stencil.diag@);
        let ghost rl = rats(self.stencil.low2@);
        let buffer: Vec<Rational> = match self.parent.forward(v) {
            Some(b) => b,
            None => {
                // The parent transform only fails outside the stated
                // fitting condition.
                return None;
            },
        };
        let out: Vec<Rational> = match self.stencil.from_parent(&buffer) {
            Some(o) => o,
            None => {
                // The computed parent coefficients shrink the exact
                // forward image entrywise, so the solve condition
                // carries over to them.
                proof {
                    let gn = self.n as int;
                    let target = cheb_forward_spec(self.parent.dct@, gn, rats(v@));
                    if cheb_forward_fits(self.parent.dct@, gn, rats(v@)) && from_parent_ok(
                        rd,
                        rl,
                        target,
                    ) {
                        lemma_all_wf_views(buffer@);
                        lemma_all_wf_views(v@);
                        lemma_all_wf_views(self.stencil.diag@);
                        lemma_all_wf_views(self.stencil.low2@);
                        crate::linalg::lemma_all_wf_rats(v@);
                        assert forall|t: int| 0 <= t < gn implies rat_wf(#[trigger] target[t])
                            && rat_scales_to(rats(buffer@)[t], target[t]) by {
                            assert(crate::linalg::all_rat_wf(self.parent.dct@[t]));
                            crate::linalg::lemma_rat_dot_wf(self.parent.dct@[t], rats(v@));
                            assert(target[t] == rat_mul(
                                rat_dot(self.parent.dct@[t], rats(v@)),
                                cheb_fwd_factor(gn, t),
                            ));
                        }
                        lemma_from_parent_ok_scaled(rd, rl, rats(buffer@), target);
                    }
                }
                return None;
            },
        };
        proof {
            let gn = self.n as int;
            let target = cheb_forward_spec(self.parent.dct@, gn, rats(v@));
            lemma_all_wf_views(buffer@);
            lemma_all_wf_views(v@);
            lemma_all_wf_views(out@);
            lemma_all_wf_views(self.stencil.diag@);
            lemma_all_wf_views(self.stencil.low2@);
            crate::linalg::lemma_all_wf_rats(v@);
            assert forall|t: int| 0 <= t < gn implies rat_wf(#[trigger] target[t]) && rat_eqv(
                rats(buffer@)[t],
                target[t],
            ) by {
                assert(crate::linalg::all_rat_wf(self.parent.dct@[t]));
                crate::linalg::lemma_rat_dot_wf(self.parent.dct@[t], rats(v@));
            }
            assert(seq_eqv(rats(buffer@), target));
            assert forall|i: int| 0 <= i < self.m as int implies rat_eqv(
                #[trigger] normal_apply(rd, rl, rats(out@), i),
                normal_rhs(rd, rl, target, i),
            ) by {
                lemma_normal_rhs_congruence(rd, rl, rats(buffer@), target, i);
                crate::bases::chebyshev::lemma_normal_apply_wf(rd, rl, rats(out@), i);
                lemma_eqv_trans(
                    normal_apply(rd, rl, rats(out@), i),
                    normal_rhs(rd, rl, rats(buffer@), i),
                    normal_rhs(rd, rl, target, i),
                );
            }
        }
        Some(out)
    }

    /// Transform composite spectral space to physical space:
    /// `to_parent`, then the parent backward transform. Entry `i` of the
    /// result is exactly the cosine-table row `i` applied to the
    /// backward-corrected parent image of the input.
    pub fn backward(&self, v: &Vec<Rational>) -> (r: Option<Vec<Rational>>)
        requires
            self.wf(),
            v@.len() == self.m as int,
            all_wf(v@),
        ensures
            r matches Some(out) ==> out@.len() == self.n as int && all_wf(out@) && forall|i: int|
                0 <= i < self.n as int ==> rat_eqv(
                    #[trigger] rats(out@)[i],
                    rat_dot(
                        self.parent.dct@[i],
                        cheb_bwd_corrected(
                            stencil_apply_seq(
                                rats(self.stencil.diag@),
                                rats(self.stencil.low2@),
                                rats(v@),
                                self.n as int,
                            ),
                            self.n as int,
                        ),
                    ),
                ),
            (crate::bases::chebyshev::stencil_apply_fits(
                rats(self.stencil.diag@),
                rats(self.stencil.low2@),
                rats(v@),
                self.n as int,
            ) && crate::bases::chebyshev::cheb_backward_fits(
                self.parent.dct@,
                self.n as int,
                stencil_apply_seq(
                    rats(self.stencil.diag@),
                    rats(self.stencil.low2@),
                    rats(v@),
                    self.n as int,
                ),
            )) ==> r is Some,
    {
        let ghost rd = rats(self.stencil.diag@);
        let ghost rl = rats(self.stencil.low2@);
        let ghost image = stencil_apply_seq(rd, rl, rats(v@), self.n as int);
        let ghost fits_hyp = crate::bases::chebyshev::stencil_apply_fits(
            rd,
            rl,
            rats(v@),
            self.n as int,
        ) && crate::bases::chebyshev::cheb_backward_fits(
            self.parent.dct@,
            self.n as int,
            image,
        );
        let buffer: Vec<Rational> = match self.stencil.to_parent(v) {
            Some(b) => b,
            None => {
                // Some stencil row does not fit.
                return None;
            },
        };
        let out: Vec<Rational> = match self.parent.backward(&buffer) {
            Some(o) => o,
            None => {
                // The parent transform of the (shrunk) parent image does
                // not fit; under the stated condition it would, since the
                // stored coefficients only shrink the image.
                proof {
                    if fits_hyp {
                        let gn = self.n as int;
                        lemma_all_wf_views(buffer@);
                        lemma_all_wf_views(v@);
                        assert forall|t: int| 0 <= t < gn implies rat_wf(#[trigger] image[t]) by {
                            lemma_all_wf_views(self.stencil.diag@);
                            lemma_all_wf_views(self.stencil.low2@);
                        }
                        let corr_b = cheb_bwd_corrected(rats(buffer@), gn);
                        let corr_i = cheb_bwd_corrected(image, gn);
                        assert forall|j: int|
                            0 <= j < gn implies rat_scales_to(
                            #[trigger] corr_b[j],
                            corr_i[j],
                        ) && rat_wf(corr_b[j]) && rat_wf(corr_i[j]) && rat_raw_fits(
                            rat_mul(
                                rats(buffer@)[j],
                                crate::bases::chebyshev::cheb_bwd_factor(gn, j),
                            ),
                        ) by {
                            crate::rational::lemma_scales_self(
                                crate::bases::chebyshev::cheb_bwd_factor(gn, j),
                            );
                            crate::rational::lemma_scales_mul(
                                rats(buffer@)[j],
                                image[j],
                                crate::bases::chebyshev::cheb_bwd_factor(gn, j),
                                crate::bases::chebyshev::cheb_bwd_factor(gn, j),
                            );
                            crate::rational::lemma_scales_fits(
                                rat_mul(
                                    rats(buffer@)[j],
                                    crate::bases::chebyshev::cheb_bwd_factor(gn, j),
                                ),
                                rat_mul(image[j], crate::bases::chebyshev::cheb_bwd_factor(gn, j)),
                            );
                        }
                        assert forall|i: int|
                            0 <= i < gn implies crate::linalg::rat_dot_fits(
                            #[trigger] self.parent.dct@[i],
                            corr_b,
                        ) by {
                            assert(all_rat_wf(self.parent.dct@[i]));
                            assert forall|t2: int|
                                0 <= t2 < self.parent.dct@[i].len() implies rat_scales_to(
                                #[trigger] self.parent.dct@[i][t2],
                                self.parent.dct@[i][t2],
                            ) by {
                                crate::rational::lemma_scales_self(self.parent.dct@[i][t2]);
                            }
                            crate::linalg::lemma_rat_dot_scaled(
                                self.parent.dct@[i],
                                self.parent.dct@[i],
                                corr_b,
                                corr_i,
                                gn,
                            );
                        }
                        assert forall|j: int| 0 <= j < gn implies rat_raw_fits(
                            rat_mul(
                                #[trigger] rats(buffer@)[j],
                                crate::bases::chebyshev::cheb_bwd_factor(gn, j),
                            ),
                        ) by {
                            assert(corr_b[j] == rat_mul(
                                rats(buffer@)[j],
                                crate::bases::chebyshev::cheb_bwd_factor(gn, j),
                            ));
                        }
                        assert(crate::bases::chebyshev::cheb_backward_fits(
                            self.parent.dct@,
                            gn,
                            rats(buffer@),
                        ));
                    }
                }
                return None;
            },
        };
        proof {
            let gn = self.n as int;
            let target_parent = stencil_apply_seq(rd, rl, rats(v@), gn);
            lemma_all_wf_views(buffer@);
            lemma_all_wf_views(v@);
            assert forall|t: int| 0 <= t < gn implies rat_wf(#[trigger] target_parent[t]) by {
                lemma_all_wf_views(self.stencil.diag@);
                lemma_all_wf_views(self.stencil.low2@);
            }
            assert(seq_eqv(rats(buffer@), target_parent));
            assert forall|i: int| 0 <= i < gn implies rat_eqv(
                #[trigger] rats(out@)[i],
                rat_dot(self.parent.dct@[i], cheb_bwd_corrected(target_parent, gn)),
            ) by {
                assert(all_rat_wf(self.parent.dct@[i]));
                // The backward correction respects value equality of the
                // parent coefficients, and so does the cosine-table row.
                assert forall|t: int|
                    0 <= t < gn implies rat_eqv(
                    #[trigger] cheb_bwd_corrected(rats(buffer@), gn)[t],
                    cheb_bwd_corrected(target_parent, gn)[t],
                ) && rat_wf(cheb_bwd_corrected(rats(buffer@), gn)[t]) && rat_wf(
                    cheb_bwd_corrected(target_parent, gn)[t],
                ) by {
                    lemma_mul_congruence(
                        rats(buffer@)[t],
                        target_parent[t],
                        crate::bases::chebyshev::cheb_bwd_factor(gn, t),
                        crate::bases::chebyshev::cheb_bwd_factor(gn, t),
                    );
                }
                crate::linalg::lemma_rat_dot_congruence(
                    self.parent.dct@[i],
                    self.parent.dct@[i],
                    cheb_bwd_corrected(rats(buffer@), gn),
                    cheb_bwd_corrected(target_parent, gn),
                );
                crate::linalg::lemma_rat_dot_wf(
                    self.parent.dct@[i],
                    cheb_bwd_corrected(rats(buffer@), gn),
                );
                crate::linalg::lemma_rat_dot_wf(
                    self.parent.dct@[i],
                    cheb_bwd_corrected(target_parent, gn),
                );
                out@[i].lemma_wf_view();
                lemma_eqv_trans(
                    rats(out@)[i],
                    rat_dot(self.parent.dct@[i], cheb_bwd_corrected(rats(buffer@), gn)),
                    rat_dot(self.parent.dct@[i], cheb_bwd_corrected(target_parent, gn)),
                );
            }
        }
        Some(out)
    }

    /// Differentiate composite coefficients `times` times in spectral
    /// space; the derivative coefficients come back in parent space.
    pub fn differentiate(&self, v: &Vec<Rational>, times: usize) -> (r: Option<Vec<Rational>>)
        requires
            self.wf(),
            v@.len() == self.m as int,
            all_wf(v@),
        ensures
            r matches Some(out) ==> out@.len() == self.n as int && all_wf(out@) && seq_eqv(
                rats(out@),
                cheb_deriv_iter(
                    stencil_apply_seq(
                        rats(self.stencil.diag@),
                        rats(self.stencil.low2@),
                        rats(v@),
                        self.n as int,
                    ),
                    times as nat,
                ),
            ),
            stencil_apply_fits(
                rats(self.stencil.diag@),
                rats(self.stencil.low2@),
                rats(v@),
                self.n as int,
            ) && cheb_deriv_iter_fits(
                stencil_apply_seq(
                    rats(self.stencil.diag@),
                    rats(self.stencil.low2@),
                    rats(v@),
                    self.n as int,
                ),
                times as nat,
            ) ==> r is Some,
    {
        let ghost rd = rats(self.stencil.diag@);
        let ghost rl = rats(self.stencil.low2@);
        let buffer: Vec<Rational> = match self.stencil.to_parent(v) {
            Some(b) => b,
            None => {
                // The banded product only fails outside the stated
                // fitting condition.
                return None;
            },
        };
        let out: Vec<Rational> = match Chebyshev::differentiate(&buffer, times) {
            Some(o) => o,
            None => {
                // The computed parent image shrinks the exact one
                // entrywise, so the fitting condition carries over.
                proof {
                    let gn = self.n as int;
                    let target_parent = stencil_apply_seq(rd, rl, rats(v@), gn);
                    if stencil_apply_fits(rd, rl, rats(v@), gn) && cheb_deriv_iter_fits(
                        target_parent,
                        times as nat,
                    ) {
                        lemma_all_wf_views(buffer@);
                        lemma_all_wf_views(v@);
                        lemma_all_wf_views(self.stencil.diag@);
                        lemma_all_wf_views(self.stencil.low2@);
                        assert forall|t: int| 0 <= t < gn implies rat_wf(
                            #[trigger] target_parent[t],
                        ) && rat_scales_to(rats(buffer@)[t], target_parent[t]) by {
                            assert(target_parent[t] == stencil_apply(rd, rl, rats(v@), t));
                        }
                        lemma_deriv_iter_fits_scaled(
                            rats(buffer@),
                            target_parent,
                            times as nat,
                        );
                    }
                }
                return None;
            },
        };
        proof {
            let gn = self.n as int;
            let target_parent = stencil_apply_seq(rd, rl, rats(v@), gn);
            lemma_all_wf_views(buffer@);
            lemma_all_wf_views(v@);
            assert forall|t: int| 0 <= t < gn implies rat_wf(#[trigger] target_parent[t]) by {
                lemma_all_wf_views(self.stencil.diag@);
                lemma_all_wf_views(self.stencil.low2@);
            }
            assert(seq_eqv(rats(buffer@), target_parent));
            crate::bases::chebyshev::lemma_deriv_iter_congruence(
                rats(buffer@),
                target_parent,
                times as nat,
            );
            crate::bases::chebyshev::lemma_deriv_iter_wf(rats(buffer@), times as nat);
            crate::bases::chebyshev::lemma_deriv_iter_wf(target_parent, times as nat);
            assert forall|i: int| 0 <= i < gn implies rat_eqv(
                #[trigger] rats(out@)[i],
                cheb_deriv_iter(target_parent, times as nat)[i],
            ) by {
                out@[i].lemma_wf_view();
                lemma_eqv_trans(
                    rats(out@)[i],
                    cheb_deriv_iter(rats(buffer@), times as nat)[i],
                    cheb_deriv_iter(target_parent, times as nat)[i],
                );
            }
        }
        Some(out)
    }
}

} // verus!
