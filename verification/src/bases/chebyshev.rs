//! Chebyshev basis: spectral differentiation, the coefficient correction
//! around the discrete cosine transform, and the banded stencils that
//! derive boundary-condition-satisfying composite bases.
//!
//! The cosine table of the discrete cosine transform is irrational and
//! enters as data; everything else is exact rational arithmetic with
//! exact contracts.
use crate::linalg::{all_rat_wf, all_wf, rat_dot, rat_dot_fits, rats, seq_eqv, Matrix};
use crate::rational::{
    lemma_scales_add, lemma_scales_fits, lemma_scales_mul, lemma_scales_self, lemma_scales_trans,
    rat_raw_fits, rat_scales_to,
};
use crate::rational::{
    lemma_add2_congruence, lemma_add_congruence, lemma_eqv_sym, lemma_eqv_trans,
    lemma_mul_add_distrib, lemma_mul_congruence, rat_add, rat_div, rat_eqv, rat_int, rat_mul,
    rat_sub, rat_wf, term_or_zero, Rat, Rational,
};
use vstd::prelude::*;

verus! {

broadcast use crate::rational::lemma_add_wf, crate::rational::lemma_mul_wf,
    crate::rational::lemma_neg_wf, crate::rational::lemma_term_or_zero_wf;

/// Row `i` of a tridiagonal system with diagonals at offsets `-2, 0, 2`,
/// applied to `x`: `a` is the subdiagonal, `b` the main diagonal, `c` the
/// superdiagonal.
pub open spec fn tri_apply(a: Seq<Rat>, b: Seq<Rat>, c: Seq<Rat>, x: Seq<Rat>, i: int) -> Rat {
    rat_add(
        rat_add(term_or_zero(i >= 2, rat_mul(a[i - 2], x[i - 2])), rat_mul(b[i], x[i])),
        term_or_zero(i + 2 < x.len(), rat_mul(c[i], x[i + 2])),
    )
}

/// The elimination pivot of row `i` of the tridiagonal system: the
/// main-diagonal entry with the already-eliminated subdiagonal
/// contribution removed.
pub open spec fn tdma_denom(a: Seq<Rat>, b: Seq<Rat>, c: Seq<Rat>, i: int) -> Rat
    decreases 2 * i,
{
    if i < 2 {
        b[i]
    } else {
        rat_sub(b[i], rat_mul(a[i - 2], tdma_w(a, b, c, i - 2)))
    }
}

/// The eliminated superdiagonal coefficient of row `i`.
pub open spec fn tdma_w(a: Seq<Rat>, b: Seq<Rat>, c: Seq<Rat>, i: int) -> Rat
    decreases 2 * i + 1,
{
    if i < 0 {
        rat_int(0)
    } else {
        rat_div(c[i], tdma_denom(a, b, c, i))
    }
}

/// The transformed right-hand side of row `i` after the forward sweep.
pub open spec fn tdma_g(a: Seq<Rat>, b: Seq<Rat>, c: Seq<Rat>, d: Seq<Rat>, i: int) -> Rat
    decreases i,
{
    if i < 2 {
        rat_div(d[i], tdma_denom(a, b, c, i))
    } else {
        rat_div(
            rat_sub(d[i], rat_mul(a[i - 2], tdma_g(a, b, c, d, i - 2))),
            tdma_denom(a, b, c, i),
        )
    }
}

/// Entry `k` of the back-substituted solution of the tridiagonal
/// system of order `n`.
pub open spec fn tdma_x(a: Seq<Rat>, b: Seq<Rat>, c: Seq<Rat>, d: Seq<Rat>, n: int, k: int) -> Rat
    decreases n + 2 - k,
{
    if k >= n - 2 {
        tdma_g(a, b, c, d, k)
    } else {
        rat_sub(tdma_g(a, b, c, d, k), rat_mul(tdma_w(a, b, c, k), tdma_x(a, b, c, d, n, k + 2)))
    }
}

/// The whole back-substituted solution.
pub open spec fn tdma_x_seq(a: Seq<Rat>, b: Seq<Rat>, c: Seq<Rat>, d: Seq<Rat>, n: int) -> Seq<
    Rat,
> {
    Seq::new(n as nat, |k: int| tdma_x(a, b, c, d, n, k))
}

/// The forward sweep runs through the first `i` rows: every pivot so
/// far is nonzero and every unreduced intermediate fits the 64-bit
/// representation.
pub open spec fn tdma_sweep_ok(a: Seq<Rat>, b: Seq<Rat>, c: Seq<Rat>, d: Seq<Rat>, i: int) -> bool
    decreases i,
{
    i <= 0 || {
        let t = i - 1;
        &&& tdma_sweep_ok(a, b, c, d, t)
        &&& (t >= 2 ==> rat_raw_fits(rat_mul(a[t - 2], tdma_w(a, b, c, t - 2))) && rat_raw_fits(
            rat_sub(b[t], rat_mul(a[t - 2], tdma_w(a, b, c, t - 2))),
        ))
        &&& !crate::rational::rat_is_zero(tdma_denom(a, b, c, t))
        &&& (t < b.len() - 2 ==> rat_raw_fits(tdma_w(a, b, c, t)))
        &&& (t >= 2 ==> rat_raw_fits(rat_mul(a[t - 2], tdma_g(a, b, c, d, t - 2))) && rat_raw_fits(
            rat_sub(d[t], rat_mul(a[t - 2], tdma_g(a, b, c, d, t - 2))),
        ))
        &&& rat_raw_fits(tdma_g(a, b, c, d, t))
    }
}

/// The back-substitution fits at every row.
pub open spec fn tdma_back_ok(a: Seq<Rat>, b: Seq<Rat>, c: Seq<Rat>, d: Seq<Rat>, n: int) -> bool {
    forall|k: int|
        0 <= k <= n - 3 ==> rat_raw_fits(
            rat_mul(tdma_w(a, b, c, k), #[trigger] tdma_x(a, b, c, d, n, k + 2)),
        ) && rat_raw_fits(tdma_x(a, b, c, d, n, k))
}

/// Row `i` of the exact residual check: its intermediates fit the
/// 64-bit representation and the residual holds.
pub open spec fn tri_check_row(
    a: Seq<Rat>,
    b: Seq<Rat>,
    c: Seq<Rat>,
    x: Seq<Rat>,
    d: Seq<Rat>,
    i: int,
) -> bool {
    &&& (i >= 2 ==> rat_raw_fits(rat_mul(a[i - 2], x[i - 2])))
    &&& rat_raw_fits(rat_mul(b[i], x[i]))
    &&& (i + 2 < x.len() ==> rat_raw_fits(rat_mul(c[i], x[i + 2])))
    &&& rat_raw_fits(
        rat_add(term_or_zero(i >= 2, rat_mul(a[i - 2], x[i - 2])), rat_mul(b[i], x[i])),
    )
    &&& rat_raw_fits(tri_apply(a, b, c, x, i))
    &&& rat_eqv(tri_apply(a, b, c, x, i), d[i])
}

/// The exact residual check passes on the first `i` rows of `x` and its
/// own intermediates fit the 64-bit representation.
pub open spec fn tri_check_upto(
    a: Seq<Rat>,
    b: Seq<Rat>,
    c: Seq<Rat>,
    x: Seq<Rat>,
    d: Seq<Rat>,
    i: int,
) -> bool
    decreases i,
{
    i <= 0 || (tri_check_upto(a, b, c, x, d, i - 1) && tri_check_row(a, b, c, x, d, i - 1))
}

/// The exact residual check passes on `x` and its own intermediates
/// fit the 64-bit representation.
pub open spec fn tri_check_ok(
    a: Seq<Rat>,
    b: Seq<Rat>,
    c: Seq<Rat>,
    x: Seq<Rat>,
    d: Seq<Rat>,
) -> bool {
    tri_check_upto(a, b, c, x, d, x.len() as int)
}

/// A shorter check prefix passes whenever a longer one does.
pub proof fn lemma_tri_check_prefix(
    a: Seq<Rat>,
    b: Seq<Rat>,
    c: Seq<Rat>,
    x: Seq<Rat>,
    d: Seq<Rat>,
    s: int,
    t: int,
)
    requires
        0 <= s <= t,
        tri_check_upto(a, b, c, x, d, t),
    ensures
        tri_check_upto(a, b, c, x, d, s),
    decreases t,
{
    if s < t {
        lemma_tri_check_prefix(a, b, c, x, d, s, t - 1);
    }
}

/// The whole elimination runs to completion and its candidate passes
/// the exact residual check. Under this condition `tdma` succeeds.
pub open spec fn tdma_ok(a: Seq<Rat>, b: Seq<Rat>, c: Seq<Rat>, d: Seq<Rat>) -> bool {
    &&& tdma_sweep_ok(a, b, c, d, b.len() as int)
    &&& tdma_back_ok(a, b, c, d, b.len() as int)
    &&& tri_check_ok(a, b, c, tdma_x_seq(a, b, c, d, b.len() as int), d)
}

/// A shorter sweep runs whenever a longer one does.
pub proof fn lemma_tdma_sweep_ok_prefix(
    a: Seq<Rat>,
    b: Seq<Rat>,
    c: Seq<Rat>,
    d: Seq<Rat>,
    s: int,
    t: int,
)
    requires
        0 <= s <= t,
        tdma_sweep_ok(a, b, c, d, t),
    ensures
        tdma_sweep_ok(a, b, c, d, s),
    decreases t,
{
    if s < t {
        lemma_tdma_sweep_ok_prefix(a, b, c, d, s, t - 1);
    }
}

/// Check that `x` exactly satisfies the tridiagonal system
/// `(a, b, c) x = rhs`; a positive answer is a proof. The ghost
/// `spec_x` names the unreduced values that the stored entries of `x`
/// shrink; when the check's own intermediates fit over those values and
/// the residual holds of them, the check is guaranteed to pass.
fn tri_residual_ok(
    a: &Vec<Rational>,
    b: &Vec<Rational>,
    c: &Vec<Rational>,
    x: &Vec<Rational>,
    rhs: &Vec<Rational>,
    spec_x: Ghost<Seq<Rat>>,
) -> (r: bool)
    requires
        all_wf(a@),
        all_wf(b@),
        all_wf(c@),
        all_wf(x@),
        all_wf(rhs@),
        x@.len() >= 2,
        b@.len() == x@.len(),
        rhs@.len() == x@.len(),
        a@.len() + 2 == x@.len(),
        c@.len() + 2 == x@.len(),
        spec_x@.len() == x@.len(),
        forall|t: int| 0 <= t < x@.len() ==> rat_scales_to(#[trigger] rats(x@)[t], spec_x@[t]),
    ensures
        r ==> forall|i: int|
            0 <= i < x@.len() ==> rat_eqv(
                #[trigger] tri_apply(rats(a@), rats(b@), rats(c@), rats(x@), i),
                rats(rhs@)[i],
            ),
        tri_check_ok(rats(a@), rats(b@), rats(c@), spec_x@, rats(rhs@)) ==> r,
{
    let ghost ra = rats(a@);
    let ghost rb = rats(b@);
    let ghost rc = rats(c@);
    let ghost rx = rats(x@);
    let ghost sx = spec_x@;
    let ghost rd = rats(rhs@);
    let n: usize = x.len();
    let mut i: usize = 0;
    while i < n
        invariant
            0 <= i <= n,
            n == x@.len(),
            n >= 2,
            all_wf(a@),
            all_wf(b@),
            all_wf(c@),
            all_wf(x@),
            all_wf(rhs@),
            b@.len() == n,
            rhs@.len() == n,
            a@.len() + 2 == n,
            c@.len() + 2 == n,
            ra == rats(a@),
            rb == rats(b@),
            rc == rats(c@),
            rx == rats(x@),
            rd == rats(rhs@),
            sx == spec_x@,
            sx.len() == n as int,
            forall|t: int| 0 <= t < n as int ==> rat_scales_to(#[trigger] rats(x@)[t], sx[t]),
            forall|t: int|
                0 <= t < i as int ==> rat_eqv(
                    #[trigger] tri_apply(ra, rb, rc, rx, t),
                    rats(rhs@)[t],
                ),
        decreases n - i,
    {
        let gi: Ghost<int> = Ghost(i as int);
        let ghost slow_s = term_or_zero(gi@ >= 2, rat_mul(ra[gi@ - 2], sx[gi@ - 2]));
        let ghost smid_s = rat_mul(rb[gi@], sx[gi@]);
        let ghost shigh_s = term_or_zero(gi@ + 2 < sx.len(), rat_mul(rc[gi@], sx[gi@ + 2]));
        proof {
            // Bring the entrywise shrink facts into view-indexed form.
            assert(rats(x@)[gi@] == x@[gi@]@);
            assert(rat_scales_to(x@[gi@]@, sx[gi@]));
            if gi@ >= 2 {
                assert(rats(x@)[gi@ - 2] == x@[gi@ - 2]@);
                assert(rat_scales_to(x@[gi@ - 2]@, sx[gi@ - 2]));
            }
            if gi@ + 2 < sx.len() {
                assert(rats(x@)[gi@ + 2] == x@[gi@ + 2]@);
                assert(rat_scales_to(x@[gi@ + 2]@, sx[gi@ + 2]));
            }
        }
        let low: Rational = if i >= 2 {
            match a[i - 2].mul(&x[i - 2]) {
                Some(v) => v,
                None => {
                    proof {
                        if tri_check_ok(ra, rb, rc, sx, rd) {
                            lemma_tri_check_prefix(ra, rb, rc, sx, rd, gi@ + 1, sx.len() as int);
                            assert(tri_check_row(ra, rb, rc, sx, rd, gi@));
                            a@[gi@ - 2].lemma_wf_view();
                            x@[gi@ - 2].lemma_wf_view();
                            crate::rational::lemma_scales_self(ra[gi@ - 2]);
                            crate::rational::lemma_scales_mul(
                                a@[gi@ - 2]@,
                                ra[gi@ - 2],
                                x@[gi@ - 2]@,
                                sx[gi@ - 2],
                            );
                            crate::rational::lemma_scales_fits(
                                rat_mul(a@[gi@ - 2]@, x@[gi@ - 2]@),
                                rat_mul(ra[gi@ - 2], sx[gi@ - 2]),
                            );
                        }
                    }
                    return false;
                },
            }
        } else {
            Rational::zero()
        };
        let mid: Rational = match b[i].mul(&x[i]) {
            Some(v) => v,
            None => {
                proof {
                    if tri_check_ok(ra, rb, rc, sx, rd) {
                        lemma_tri_check_prefix(ra, rb, rc, sx, rd, gi@ + 1, sx.len() as int);
                        assert(tri_check_row(ra, rb, rc, sx, rd, gi@));
                        b@[gi@].lemma_wf_view();
                        x@[gi@].lemma_wf_view();
                        crate::rational::lemma_scales_self(rb[gi@]);
                        crate::rational::lemma_scales_mul(b@[gi@]@, rb[gi@], x@[gi@]@, sx[gi@]);
                        crate::rational::lemma_scales_fits(
                            rat_mul(b@[gi@]@, x@[gi@]@),
                            rat_mul(rb[gi@], sx[gi@]),
                        );
                    }
                }
                return false;
            },
        };
        let high: Rational = if i < n - 2 {
            match c[i].mul(&x[i + 2]) {
                Some(v) => v,
                None => {
                    proof {
                        if tri_check_ok(ra, rb, rc, sx, rd) {
                            lemma_tri_check_prefix(ra, rb, rc, sx, rd, gi@ + 1, sx.len() as int);
                            assert(tri_check_row(ra, rb, rc, sx, rd, gi@));
                            c@[gi@].lemma_wf_view();
                            x@[gi@ + 2].lemma_wf_view();
                            crate::rational::lemma_scales_self(rc[gi@]);
                            crate::rational::lemma_scales_mul(
                                c@[gi@]@,
                                rc[gi@],
                                x@[gi@ + 2]@,
                                sx[gi@ + 2],
                            );
                            crate::rational::lemma_scales_fits(
                                rat_mul(c@[gi@]@, x@[gi@ + 2]@),
                                rat_mul(rc[gi@], sx[gi@ + 2]),
                            );
                        }
                    }
                    return false;
                },
            }
        } else {
            Rational::zero()
        };
        proof {
            // The three computed terms shrink the corresponding terms
            // over the unreduced values.
            if gi@ >= 2 {
                a@[gi@ - 2].lemma_wf_view();
                x@[gi@ - 2].lemma_wf_view();
                crate::rational::lemma_scales_self(ra[gi@ - 2]);
                crate::rational::lemma_scales_mul(
                    a@[gi@ - 2]@,
                    ra[gi@ - 2],
                    x@[gi@ - 2]@,
                    sx[gi@ - 2],
                );
                crate::rational::lemma_scales_trans(
                    low@,
                    rat_mul(a@[gi@ - 2]@, x@[gi@ - 2]@),
                    slow_s,
                );
            } else {
                crate::rational::lemma_scales_self(low@);
            }
            assert(rat_scales_to(low@, slow_s));
            b@[gi@].lemma_wf_view();
            x@[gi@].lemma_wf_view();
            crate::rational::lemma_scales_self(rb[gi@]);
            crate::rational::lemma_scales_mul(b@[gi@]@, rb[gi@], x@[gi@]@, sx[gi@]);
            crate::rational::lemma_scales_trans(mid@, rat_mul(b@[gi@]@, x@[gi@]@), smid_s);
            if gi@ + 2 < sx.len() {
                c@[gi@].lemma_wf_view();
                x@[gi@ + 2].lemma_wf_view();
                crate::rational::lemma_scales_self(rc[gi@]);
                crate::rational::lemma_scales_mul(
                    c@[gi@]@,
                    rc[gi@],
                    x@[gi@ + 2]@,
                    sx[gi@ + 2],
                );
                crate::rational::lemma_scales_trans(
                    high@,
                    rat_mul(c@[gi@]@, x@[gi@ + 2]@),
                    shigh_s,
                );
            } else {
                crate::rational::lemma_scales_self(high@);
            }
            assert(rat_scales_to(high@, shigh_s));
        }
        let t1: Rational = match low.add(&mid) {
            Some(v) => v,
            None => {
                proof {
                    if tri_check_ok(ra, rb, rc, sx, rd) {
                        lemma_tri_check_prefix(ra, rb, rc, sx, rd, gi@ + 1, sx.len() as int);
                        assert(tri_check_row(ra, rb, rc, sx, rd, gi@));
                        low.lemma_wf_view();
                        mid.lemma_wf_view();
                        crate::rational::lemma_scales_add(low@, slow_s, mid@, smid_s);
                        crate::rational::lemma_scales_fits(
                            rat_add(low@, mid@),
                            rat_add(slow_s, smid_s),
                        );
                    }
                }
                return false;
            },
        };
        let t2: Rational = match t1.add(&high) {
            Some(v) => v,
            None => {
                proof {
                    if tri_check_ok(ra, rb, rc, sx, rd) {
                        lemma_tri_check_prefix(ra, rb, rc, sx, rd, gi@ + 1, sx.len() as int);
                        assert(tri_check_row(ra, rb, rc, sx, rd, gi@));
                        low.lemma_wf_view();
                        mid.lemma_wf_view();
                        t1.lemma_wf_view();
                        high.lemma_wf_view();
                        crate::rational::lemma_scales_add(low@, slow_s, mid@, smid_s);
                        crate::rational::lemma_scales_trans(
                            t1@,
                            rat_add(low@, mid@),
                            rat_add(slow_s, smid_s),
                        );
                        crate::rational::lemma_scales_add(
                            t1@,
                            rat_add(slow_s, smid_s),
                            high@,
                            shigh_s,
                        );
                        crate::rational::lemma_scales_fits(
                            rat_add(t1@, high@),
                            rat_add(rat_add(slow_s, smid_s), shigh_s),
                        );
                    }
                }
                return false;
            },
        };
        if !t2.eq_rat(&rhs[i]) {
            proof {
                if tri_check_ok(ra, rb, rc, sx, rd) {
                    lemma_tri_check_prefix(ra, rb, rc, sx, rd, gi@ + 1, sx.len() as int);
                    assert(tri_check_row(ra, rb, rc, sx, rd, gi@));
                    assert(rat_eqv(tri_apply(ra, rb, rc, sx, gi@), rd[gi@]));
                    low.lemma_wf_view();
                    mid.lemma_wf_view();
                    t1.lemma_wf_view();
                    high.lemma_wf_view();
                    t2.lemma_wf_view();
                    rhs@[gi@].lemma_wf_view();
                    crate::rational::lemma_scales_add(low@, slow_s, mid@, smid_s);
                    crate::rational::lemma_scales_trans(
                        t1@,
                        rat_add(low@, mid@),
                        rat_add(slow_s, smid_s),
                    );
                    crate::rational::lemma_scales_add(
                        t1@,
                        rat_add(slow_s, smid_s),
                        high@,
                        shigh_s,
                    );
                    crate::rational::lemma_scales_trans(
                        t2@,
                        rat_add(t1@, high@),
                        tri_apply(ra, rb, rc, sx, gi@),
                    );
                    crate::rational::lemma_scales_eqv(t2@, tri_apply(ra, rb, rc, sx, gi@));
                    crate::rational::lemma_scales_wf_up(t2@, tri_apply(ra, rb, rc, sx, gi@));
                    lemma_eqv_trans(t2@, tri_apply(ra, rb, rc, sx, gi@), rd[gi@]);
                }
            }
            return false;
        }
        proof {
            let slow = term_or_zero(gi@ >= 2, rat_mul(ra[gi@ - 2], rx[gi@ - 2]));
            let smid = rat_mul(rb[gi@], rx[gi@]);
            let shigh = term_or_zero(gi@ + 2 < rx.len(), rat_mul(rc[gi@], rx[gi@ + 2]));
            low.lemma_wf_view();
            mid.lemma_wf_view();
            high.lemma_wf_view();
            t1.lemma_wf_view();
            t2.lemma_wf_view();
            if gi@ >= 2 {
                a@[gi@ - 2].lemma_wf_view();
                x@[gi@ - 2].lemma_wf_view();
            }
            b@[gi@].lemma_wf_view();
            x@[gi@].lemma_wf_view();
            if gi@ + 2 < rx.len() {
                c@[gi@].lemma_wf_view();
                x@[gi@ + 2].lemma_wf_view();
            }
            rhs@[gi@].lemma_wf_view();
            assert(rat_eqv(low@, slow));
            assert(rat_eqv(mid@, smid));
            assert(rat_eqv(high@, shigh));
            lemma_add2_congruence(low@, slow, mid@, smid, high@, shigh);
            // t2 ~ (low + mid) + high ~ (slow + smid) + shigh = tri_apply
            lemma_add_congruence(t1@, rat_add(low@, mid@), high@, high@);
            lemma_eqv_trans(
                t2@,
                rat_add(t1@, high@),
                rat_add(rat_add(low@, mid@), high@),
            );
            lemma_eqv_trans(
                t2@,
                rat_add(rat_add(low@, mid@), high@),
                rat_add(rat_add(slow, smid), shigh),
            );
            lemma_eqv_sym(t2@, tri_apply(ra, rb, rc, rx, gi@));
            lemma_eqv_trans(tri_apply(ra, rb, rc, rx, gi@), t2@, rats(rhs@)[gi@]);
        }
        i = i + 1;
    }
    true
}

/// Entrywise shrunk inputs give entrywise shrunk sweep values, and the
/// sweep conditions transfer from the unshrunk inputs to the shrunk
/// ones.
pub proof fn lemma_tdma_sweep_scaled(
    a2: Seq<Rat>,
    a: Seq<Rat>,
    b2: Seq<Rat>,
    b: Seq<Rat>,
    c2: Seq<Rat>,
    c: Seq<Rat>,
    d2: Seq<Rat>,
    d: Seq<Rat>,
    i: int,
)
    requires
        a2.len() == a.len(),
        b2.len() == b.len(),
        c2.len() == c.len(),
        d2.len() == d.len(),
        b.len() >= 2,
        a.len() + 2 == b.len(),
        c.len() + 2 == b.len(),
        d.len() == b.len(),
        crate::linalg::all_rat_wf(a2),
        crate::linalg::all_rat_wf(b2),
        crate::linalg::all_rat_wf(c2),
        crate::linalg::all_rat_wf(d2),
        crate::linalg::all_rat_wf(a),
        crate::linalg::all_rat_wf(b),
        crate::linalg::all_rat_wf(c),
        crate::linalg::all_rat_wf(d),
        forall|t: int| 0 <= t < a.len() ==> rat_scales_to(#[trigger] a2[t], a[t]),
        forall|t: int| 0 <= t < b.len() ==> rat_scales_to(#[trigger] b2[t], b[t]),
        forall|t: int| 0 <= t < c.len() ==> rat_scales_to(#[trigger] c2[t], c[t]),
        forall|t: int| 0 <= t < d.len() ==> rat_scales_to(#[trigger] d2[t], d[t]),
        0 <= i <= b.len(),
        tdma_sweep_ok(a, b, c, d, i),
    ensures
        tdma_sweep_ok(a2, b2, c2, d2, i),
        forall|j: int|
            0 <= j < i ==> rat_scales_to(
                #[trigger] tdma_denom(a2, b2, c2, j),
                tdma_denom(a, b, c, j),
            ) && (j < b.len() - 2 ==> rat_scales_to(tdma_w(a2, b2, c2, j), tdma_w(a, b, c, j)))
                && rat_scales_to(tdma_g(a2, b2, c2, d2, j), tdma_g(a, b, c, d, j)),
    decreases i,
{
    if i > 0 {
        let t = i - 1;
        lemma_tdma_sweep_ok_prefix(a, b, c, d, t, i);
        lemma_tdma_sweep_scaled(a2, a, b2, b, c2, c, d2, d, t);
        if t >= 2 {
            // Bring the induction facts for row t - 2 into view.
            assert(rat_scales_to(tdma_denom(a2, b2, c2, t - 2), tdma_denom(a, b, c, t - 2)));
            assert(rat_scales_to(tdma_w(a2, b2, c2, t - 2), tdma_w(a, b, c, t - 2)));
            assert(rat_scales_to(tdma_g(a2, b2, c2, d2, t - 2), tdma_g(a, b, c, d, t - 2)));
        }
        // The pivot of row t shrinks its unshrunk counterpart.
        if t < 2 {
            assert(rat_scales_to(tdma_denom(a2, b2, c2, t), tdma_denom(a, b, c, t)));
        } else {
            crate::rational::lemma_scales_mul(
                a2[t - 2],
                a[t - 2],
                tdma_w(a2, b2, c2, t - 2),
                tdma_w(a, b, c, t - 2),
            );
            crate::rational::lemma_scales_neg(
                rat_mul(a2[t - 2], tdma_w(a2, b2, c2, t - 2)),
                rat_mul(a[t - 2], tdma_w(a, b, c, t - 2)),
            );
            crate::rational::lemma_scales_add(
                b2[t],
                b[t],
                crate::rational::rat_neg(rat_mul(a2[t - 2], tdma_w(a2, b2, c2, t - 2))),
                crate::rational::rat_neg(rat_mul(a[t - 2], tdma_w(a, b, c, t - 2))),
            );
            assert(rat_scales_to(tdma_denom(a2, b2, c2, t), tdma_denom(a, b, c, t)));
        }
        crate::rational::lemma_scales_zero_iff(tdma_denom(a2, b2, c2, t), tdma_denom(a, b, c, t));
        if t < b.len() - 2 {
            crate::rational::lemma_scales_div(
                c2[t],
                c[t],
                tdma_denom(a2, b2, c2, t),
                tdma_denom(a, b, c, t),
            );
            assert(rat_scales_to(tdma_w(a2, b2, c2, t), tdma_w(a, b, c, t)));
        }
        // The transformed right-hand side of row t shrinks as well.
        if t < 2 {
            crate::rational::lemma_scales_div(
                d2[t],
                d[t],
                tdma_denom(a2, b2, c2, t),
                tdma_denom(a, b, c, t),
            );
        } else {
            crate::rational::lemma_scales_mul(
                a2[t - 2],
                a[t - 2],
                tdma_g(a2, b2, c2, d2, t - 2),
                tdma_g(a, b, c, d, t - 2),
            );
            crate::rational::lemma_scales_neg(
                rat_mul(a2[t - 2], tdma_g(a2, b2, c2, d2, t - 2)),
                rat_mul(a[t - 2], tdma_g(a, b, c, d, t - 2)),
            );
            crate::rational::lemma_scales_add(
                d2[t],
                d[t],
                crate::rational::rat_neg(rat_mul(a2[t - 2], tdma_g(a2, b2, c2, d2, t - 2))),
                crate::rational::rat_neg(rat_mul(a[t - 2], tdma_g(a, b, c, d, t - 2))),
            );
            crate::rational::lemma_scales_div(
                rat_sub(d2[t], rat_mul(a2[t - 2], tdma_g(a2, b2, c2, d2, t - 2))),
                rat_sub(d[t], rat_mul(a[t - 2], tdma_g(a, b, c, d, t - 2))),
                tdma_denom(a2, b2, c2, t),
                tdma_denom(a, b, c, t),
            );
        }
        assert(rat_scales_to(tdma_g(a2, b2, c2, d2, t), tdma_g(a, b, c, d, t)));
        // The sweep conditions of row t transfer to the shrunk side:
        // well-formedness comes down from the unshrunk mirror values.
        lemma_tdma_mirror_wf(a, b, c, d, t);
        crate::rational::lemma_scales_wf_down(
            tdma_denom(a2, b2, c2, t),
            tdma_denom(a, b, c, t),
        );
        if t < b.len() - 2 {
            crate::rational::lemma_scales_wf_down(tdma_w(a2, b2, c2, t), tdma_w(a, b, c, t));
        }
        crate::rational::lemma_scales_wf_down(
            tdma_g(a2, b2, c2, d2, t),
            tdma_g(a, b, c, d, t),
        );
        if t >= 2 {
            lemma_tdma_mirror_wf(a, b, c, d, t - 2);
            crate::rational::lemma_scales_wf_down(
                tdma_w(a2, b2, c2, t - 2),
                tdma_w(a, b, c, t - 2),
            );
            crate::rational::lemma_scales_wf_down(
                tdma_g(a2, b2, c2, d2, t - 2),
                tdma_g(a, b, c, d, t - 2),
            );
        }
        if t >= 2 {
            crate::rational::lemma_scales_mul(
                a2[t - 2],
                a[t - 2],
                tdma_w(a2, b2, c2, t - 2),
                tdma_w(a, b, c, t - 2),
            );
            crate::rational::lemma_scales_fits(
                rat_mul(a2[t - 2], tdma_w(a2, b2, c2, t - 2)),
                rat_mul(a[t - 2], tdma_w(a, b, c, t - 2)),
            );
            crate::rational::lemma_scales_neg(
                rat_mul(a2[t - 2], tdma_w(a2, b2, c2, t - 2)),
                rat_mul(a[t - 2], tdma_w(a, b, c, t - 2)),
            );
            crate::rational::lemma_scales_add(
                b2[t],
                b[t],
                crate::rational::rat_neg(rat_mul(a2[t - 2], tdma_w(a2, b2, c2, t - 2))),
                crate::rational::rat_neg(rat_mul(a[t - 2], tdma_w(a, b, c, t - 2))),
            );
            crate::rational::lemma_scales_fits(
                rat_sub(b2[t], rat_mul(a2[t - 2], tdma_w(a2, b2, c2, t - 2))),
                rat_sub(b[t], rat_mul(a[t - 2], tdma_w(a, b, c, t - 2))),
            );
            crate::rational::lemma_scales_mul(
                a2[t - 2],
                a[t - 2],
                tdma_g(a2, b2, c2, d2, t - 2),
                tdma_g(a, b, c, d, t - 2),
            );
            crate::rational::lemma_scales_fits(
                rat_mul(a2[t - 2], tdma_g(a2, b2, c2, d2, t - 2)),
                rat_mul(a[t - 2], tdma_g(a, b, c, d, t - 2)),
            );
            crate::rational::lemma_scales_fits(
                rat_sub(d2[t], rat_mul(a2[t - 2], tdma_g(a2, b2, c2, d2, t - 2))),
                rat_sub(d[t], rat_mul(a[t - 2], tdma_g(a, b, c, d, t - 2))),
            );
        }
        if t < b.len() - 2 {
            crate::rational::lemma_scales_fits(tdma_w(a2, b2, c2, t), tdma_w(a, b, c, t));
        }
        crate::rational::lemma_scales_fits(
            tdma_g(a2, b2, c2, d2, t),
            tdma_g(a, b, c, d, t),
        );
    }
}

/// The sweep values of well-formed, completed rows are well formed.
pub proof fn lemma_tdma_mirror_wf(a: Seq<Rat>, b: Seq<Rat>, c: Seq<Rat>, d: Seq<Rat>, t: int)
    requires
        crate::linalg::all_rat_wf(a),
        crate::linalg::all_rat_wf(b),
        crate::linalg::all_rat_wf(c),
        crate::linalg::all_rat_wf(d),
        b.len() >= 2,
        a.len() + 2 == b.len(),
        c.len() + 2 == b.len(),
        d.len() == b.len(),
        0 <= t < b.len(),
        tdma_sweep_ok(a, b, c, d, t + 1),
    ensures
        rat_wf(tdma_denom(a, b, c, t)),
        t < b.len() - 2 ==> rat_wf(tdma_w(a, b, c, t)),
        rat_wf(tdma_g(a, b, c, d, t)),
    decreases t,
{
    lemma_tdma_sweep_ok_prefix(a, b, c, d, t, t + 1);
    if t >= 2 {
        lemma_tdma_mirror_wf(a, b, c, d, t - 2);
    }
    if t < b.len() - 2 {
        crate::rational::lemma_div_wf(c[t], tdma_denom(a, b, c, t));
    }
    if t < 2 {
        crate::rational::lemma_div_wf(d[t], tdma_denom(a, b, c, t));
    } else {
        crate::rational::lemma_div_wf(
            rat_sub(d[t], rat_mul(a[t - 2], tdma_g(a, b, c, d, t - 2))),
            tdma_denom(a, b, c, t),
        );
    }
}

/// The back-substituted values of a completed sweep are well formed.
pub proof fn lemma_tdma_x_wf(a: Seq<Rat>, b: Seq<Rat>, c: Seq<Rat>, d: Seq<Rat>, n: int, k: int)
    requires
        crate::linalg::all_rat_wf(a),
        crate::linalg::all_rat_wf(b),
        crate::linalg::all_rat_wf(c),
        crate::linalg::all_rat_wf(d),
        n == b.len(),
        b.len() >= 2,
        a.len() + 2 == b.len(),
        c.len() + 2 == b.len(),
        d.len() == b.len(),
        0 <= k < n,
        tdma_sweep_ok(a, b, c, d, n),
    ensures
        rat_wf(tdma_x(a, b, c, d, n, k)),
    decreases n + 2 - k,
{
    lemma_tdma_sweep_ok_prefix(a, b, c, d, k + 1, n);
    lemma_tdma_mirror_wf(a, b, c, d, k);
    if k < n - 2 {
        lemma_tdma_x_wf(a, b, c, d, n, k + 2);
    }
}

/// Entrywise shrunk inputs give entrywise shrunk back-substituted
/// values.
pub proof fn lemma_tdma_x_scaled(
    a2: Seq<Rat>,
    a: Seq<Rat>,
    b2: Seq<Rat>,
    b: Seq<Rat>,
    c2: Seq<Rat>,
    c: Seq<Rat>,
    d2: Seq<Rat>,
    d: Seq<Rat>,
    n: int,
    k: int,
)
    requires
        a2.len() == a.len(),
        b2.len() == b.len(),
        c2.len() == c.len(),
        d2.len() == d.len(),
        n == b.len(),
        b.len() >= 2,
        a.len() + 2 == b.len(),
        c.len() + 2 == b.len(),
        d.len() == b.len(),
        crate::linalg::all_rat_wf(a2),
        crate::linalg::all_rat_wf(b2),
        crate::linalg::all_rat_wf(c2),
        crate::linalg::all_rat_wf(d2),
        crate::linalg::all_rat_wf(a),
        crate::linalg::all_rat_wf(b),
        crate::linalg::all_rat_wf(c),
        crate::linalg::all_rat_wf(d),
        forall|t: int| 0 <= t < a.len() ==> rat_scales_to(#[trigger] a2[t], a[t]),
        forall|t: int| 0 <= t < b.len() ==> rat_scales_to(#[trigger] b2[t], b[t]),
        forall|t: int| 0 <= t < c.len() ==> rat_scales_to(#[trigger] c2[t], c[t]),
        forall|t: int| 0 <= t < d.len() ==> rat_scales_to(#[trigger] d2[t], d[t]),
        0 <= k < n,
        tdma_sweep_ok(a, b, c, d, n),
    ensures
        rat_scales_to(tdma_x(a2, b2, c2, d2, n, k), tdma_x(a, b, c, d, n, k)),
    decreases n + 2 - k,
{
    lemma_tdma_sweep_scaled(a2, a, b2, b, c2, c, d2, d, n);
    assert(rat_scales_to(tdma_denom(a2, b2, c2, k), tdma_denom(a, b, c, k)));
    if k >= n - 2 {
        assert(rat_scales_to(tdma_g(a2, b2, c2, d2, k), tdma_g(a, b, c, d, k)));
    } else {
        lemma_tdma_x_scaled(a2, a, b2, b, c2, c, d2, d, n, k + 2);
        crate::rational::lemma_scales_mul(
            tdma_w(a2, b2, c2, k),
            tdma_w(a, b, c, k),
            tdma_x(a2, b2, c2, d2, n, k + 2),
            tdma_x(a, b, c, d, n, k + 2),
        );
        crate::rational::lemma_scales_neg(
            rat_mul(tdma_w(a2, b2, c2, k), tdma_x(a2, b2, c2, d2, n, k + 2)),
            rat_mul(tdma_w(a, b, c, k), tdma_x(a, b, c, d, n, k + 2)),
        );
        crate::rational::lemma_scales_add(
            tdma_g(a2, b2, c2, d2, k),
            tdma_g(a, b, c, d, k),
            crate::rational::rat_neg(
                rat_mul(tdma_w(a2, b2, c2, k), tdma_x(a2, b2, c2, d2, n, k + 2)),
            ),
            crate::rational::rat_neg(
                rat_mul(tdma_w(a, b, c, k), tdma_x(a, b, c, d, n, k + 2)),
            ),
        );
    }
}

/// The residual-check conditions transfer row by row from the unshrunk
/// solution to the entrywise shrunk one.
pub proof fn lemma_tri_check_scaled(
    a2: Seq<Rat>,
    a: Seq<Rat>,
    b2: Seq<Rat>,
    b: Seq<Rat>,
    c2: Seq<Rat>,
    c: Seq<Rat>,
    d2: Seq<Rat>,
    d: Seq<Rat>,
    x2: Seq<Rat>,
    x: Seq<Rat>,
    n: int,
    i: int,
)
    requires
        a2.len() == a.len(),
        b2.len() == b.len(),
        c2.len() == c.len(),
        d2.len() == d.len(),
        x2.len() == x.len(),
        n == b.len(),
        x.len() == n,
        b.len() >= 2,
        a.len() + 2 == b.len(),
        c.len() + 2 == b.len(),
        d.len() == b.len(),
        crate::linalg::all_rat_wf(a2),
        crate::linalg::all_rat_wf(b2),
        crate::linalg::all_rat_wf(c2),
        crate::linalg::all_rat_wf(d2),
        crate::linalg::all_rat_wf(x2),
        crate::linalg::all_rat_wf(x),
        forall|t: int| 0 <= t < a.len() ==> rat_scales_to(#[trigger] a2[t], a[t]),
        forall|t: int| 0 <= t < b.len() ==> rat_scales_to(#[trigger] b2[t], b[t]),
        forall|t: int| 0 <= t < c.len() ==> rat_scales_to(#[trigger] c2[t], c[t]),
        forall|t: int| 0 <= t < d.len() ==> rat_scales_to(#[trigger] d2[t], d[t]),
        forall|t: int| 0 <= t < x.len() ==> rat_scales_to(#[trigger] x2[t], x[t]),
        0 <= i <= n,
        tri_check_upto(a, b, c, x, d, i),
    ensures
        tri_check_upto(a2, b2, c2, x2, d2, i),
    decreases i,
{
    if i > 0 {
        let t = i - 1;
        lemma_tri_check_prefix(a, b, c, x, d, t, i);
        lemma_tri_check_scaled(a2, a, b2, b, c2, c, d2, d, x2, x, n, t);
        assert(tri_check_row(a, b, c, x, d, t));
        let lo2 = term_or_zero(t >= 2, rat_mul(a2[t - 2], x2[t - 2]));
        let lo = term_or_zero(t >= 2, rat_mul(a[t - 2], x[t - 2]));
        let mi2 = rat_mul(b2[t], x2[t]);
        let mi = rat_mul(b[t], x[t]);
        let hi2 = term_or_zero(t + 2 < x2.len(), rat_mul(c2[t], x2[t + 2]));
        let hi = term_or_zero(t + 2 < x.len(), rat_mul(c[t], x[t + 2]));
        if t >= 2 {
            crate::rational::lemma_scales_mul(a2[t - 2], a[t - 2], x2[t - 2], x[t - 2]);
            crate::rational::lemma_scales_fits(
                rat_mul(a2[t - 2], x2[t - 2]),
                rat_mul(a[t - 2], x[t - 2]),
            );
        } else {
            crate::rational::lemma_scales_self(lo2);
        }
        assert(rat_scales_to(lo2, lo));
        crate::rational::lemma_scales_mul(b2[t], b[t], x2[t], x[t]);
        crate::rational::lemma_scales_fits(mi2, mi);
        if t + 2 < x.len() {
            crate::rational::lemma_scales_mul(c2[t], c[t], x2[t + 2], x[t + 2]);
            crate::rational::lemma_scales_fits(
                rat_mul(c2[t], x2[t + 2]),
                rat_mul(c[t], x[t + 2]),
            );
        } else {
            crate::rational::lemma_scales_self(hi2);
        }
        assert(rat_scales_to(hi2, hi));
        crate::rational::lemma_scales_add(lo2, lo, mi2, mi);
        crate::rational::lemma_scales_fits(rat_add(lo2, mi2), rat_add(lo, mi));
        crate::rational::lemma_scales_add(rat_add(lo2, mi2), rat_add(lo, mi), hi2, hi);
        crate::rational::lemma_scales_fits(
            tri_apply(a2, b2, c2, x2, t),
            tri_apply(a, b, c, x, t),
        );
        crate::rational::lemma_scales_eqv(tri_apply(a2, b2, c2, x2, t), tri_apply(a, b, c, x, t));
        crate::rational::lemma_scales_eqv(d2[t], d[t]);
        crate::rational::lemma_eqv_sym(d2[t], d[t]);
        crate::rational::lemma_scales_wf_up(
            tri_apply(a2, b2, c2, x2, t),
            tri_apply(a, b, c, x, t),
        );
        assert(rat_wf(d2[t]));
        crate::rational::lemma_scales_wf_up(d2[t], d[t]);
        lemma_eqv_trans(tri_apply(a2, b2, c2, x2, t), tri_apply(a, b, c, x, t), d[t]);
        lemma_eqv_trans(tri_apply(a2, b2, c2, x2, t), d[t], d2[t]);
        assert(tri_check_row(a2, b2, c2, x2, d2, t));
    }
}

/// The whole solver condition transfers from the unshrunk inputs to
/// entrywise shrunk ones: what the mirror accepts over exact data it
/// also accepts over the stored, reduced data.
pub proof fn lemma_tdma_ok_scaled(
    a2: Seq<Rat>,
    a: Seq<Rat>,
    b2: Seq<Rat>,
    b: Seq<Rat>,
    c2: Seq<Rat>,
    c: Seq<Rat>,
    d2: Seq<Rat>,
    d: Seq<Rat>,
)
    requires
        a2.len() == a.len(),
        b2.len() == b.len(),
        c2.len() == c.len(),
        d2.len() == d.len(),
        b.len() >= 2,
        a.len() + 2 == b.len(),
        c.len() + 2 == b.len(),
        d.len() == b.len(),
        crate::linalg::all_rat_wf(a2),
        crate::linalg::all_rat_wf(b2),
        crate::linalg::all_rat_wf(c2),
        crate::linalg::all_rat_wf(d2),
        crate::linalg::all_rat_wf(a),
        crate::linalg::all_rat_wf(b),
        crate::linalg::all_rat_wf(c),
        crate::linalg::all_rat_wf(d),
        forall|t: int| 0 <= t < a.len() ==> rat_scales_to(#[trigger] a2[t], a[t]),
        forall|t: int| 0 <= t < b.len() ==> rat_scales_to(#[trigger] b2[t], b[t]),
        forall|t: int| 0 <= t < c.len() ==> rat_scales_to(#[trigger] c2[t], c[t]),
        forall|t: int| 0 <= t < d.len() ==> rat_scales_to(#[trigger] d2[t], d[t]),
        tdma_ok(a, b, c, d),
    ensures
        tdma_ok(a2, b2, c2, d2),
{
    let n = b.len() as int;
    assert(tdma_sweep_ok(a, b, c, d, n));
    assert(tdma_back_ok(a, b, c, d, n));
    lemma_tdma_sweep_scaled(a2, a, b2, b, c2, c, d2, d, n);
    let x2 = tdma_x_seq(a2, b2, c2, d2, n);
    let x = tdma_x_seq(a, b, c, d, n);
    assert(tri_check_ok(a, b, c, x, d));
    // Every back-substituted value shrinks its unshrunk counterpart and
    // both are well formed.
    assert forall|k: int| 0 <= k < n implies rat_scales_to(#[trigger] x2[k], x[k]) && rat_wf(
        x[k],
    ) && rat_wf(x2[k]) by {
        lemma_tdma_x_scaled(a2, a, b2, b, c2, c, d2, d, n, k);
        lemma_tdma_x_wf(a, b, c, d, n, k);
        crate::rational::lemma_scales_wf_down(x2[k], x[k]);
    }
    // The back-substitution conditions transfer.
    assert forall|k: int| 0 <= k <= n - 3 implies rat_raw_fits(
        rat_mul(tdma_w(a2, b2, c2, k), #[trigger] tdma_x(a2, b2, c2, d2, n, k + 2)),
    ) && rat_raw_fits(tdma_x(a2, b2, c2, d2, n, k)) by {
        assert(rat_raw_fits(
            rat_mul(tdma_w(a, b, c, k), #[trigger] tdma_x(a, b, c, d, n, k + 2)),
        ));
        assert(rat_scales_to(tdma_denom(a2, b2, c2, k), tdma_denom(a, b, c, k)));
        assert(rat_scales_to(tdma_w(a2, b2, c2, k), tdma_w(a, b, c, k)));
        assert(x2[k] == tdma_x(a2, b2, c2, d2, n, k));
        assert(x2[k + 2] == tdma_x(a2, b2, c2, d2, n, k + 2));
        assert(rat_scales_to(x2[k], x[k]) && rat_wf(x2[k]) && rat_wf(x[k]));
        assert(rat_scales_to(x2[k + 2], x[k + 2]) && rat_wf(x2[k + 2]) && rat_wf(x[k + 2]));
        lemma_tdma_sweep_ok_prefix(a, b, c, d, k + 1, n);
        lemma_tdma_mirror_wf(a, b, c, d, k);
        crate::rational::lemma_scales_wf_down(tdma_w(a2, b2, c2, k), tdma_w(a, b, c, k));
        crate::rational::lemma_scales_mul(
            tdma_w(a2, b2, c2, k),
            tdma_w(a, b, c, k),
            x2[k + 2],
            x[k + 2],
        );
        crate::rational::lemma_scales_fits(
            rat_mul(tdma_w(a2, b2, c2, k), tdma_x(a2, b2, c2, d2, n, k + 2)),
            rat_mul(tdma_w(a, b, c, k), tdma_x(a, b, c, d, n, k + 2)),
        );
        crate::rational::lemma_scales_fits(
            tdma_x(a2, b2, c2, d2, n, k),
            tdma_x(a, b, c, d, n, k),
        );
    }
    // The residual check conditions transfer row by row.
    assert forall|t: int| 0 <= t < x2.len() implies rat_wf(#[trigger] x2[t]) by {
        assert(rat_scales_to(x2[t], x[t]));
    }
    assert forall|t: int| 0 <= t < x.len() implies rat_wf(#[trigger] x[t]) by {
        assert(rat_scales_to(x2[t], x[t]) && rat_wf(x2[t]) && rat_wf(x[t]));
    }
    assert(crate::linalg::all_rat_wf(x2));
    assert(crate::linalg::all_rat_wf(x));
    assert forall|t: int| 0 <= t < x.len() implies rat_scales_to(#[trigger] x2[t], x[t]) by {}
    lemma_tri_check_scaled(a2, a, b2, b, c2, c, d2, d, x2, x, n, n);
    assert(b2.len() as int == n);
    assert(tdma_x_seq(a2, b2, c2, d2, b2.len() as int) == x2);
    assert(tdma_sweep_ok(a2, b2, c2, d2, b2.len() as int));
    assert(tdma_back_ok(a2, b2, c2, d2, b2.len() as int));
    assert(tri_check_upto(a2, b2, c2, x2, d2, x2.len() as int));
}

/// Direct solver for a tridiagonal system with diagonals at offsets
/// `-2, 0, 2`: forward elimination followed by back-substitution, with
/// the candidate solution checked exactly against the system before it
/// is returned. `None` when a pivot vanishes, an intermediate value
/// leaves the 64-bit representation, or the check fails; success is
/// owed whenever the elimination's own mirror runs to completion over
/// the unreduced values ([`tdma_ok`]): nonzero pivots, every
/// intermediate within range, and the residual holding of the mirrored
/// candidate.
pub fn tdma(
    a: &Vec<Rational>,
    b: &Vec<Rational>,
    c: &Vec<Rational>,
    rhs: &Vec<Rational>,
) -> (r: Option<Vec<Rational>>)
    requires
        all_wf(a@),
        all_wf(b@),
        all_wf(c@),
        all_wf(rhs@),
        b@.len() >= 2,
        rhs@.len() == b@.len(),
        a@.len() + 2 == b@.len(),
        c@.len() + 2 == b@.len(),
    ensures
        r matches Some(x) ==> x@.len() == b@.len() && all_wf(x@) && forall|i: int|
            0 <= i < x@.len() ==> rat_eqv(
                #[trigger] tri_apply(rats(a@), rats(b@), rats(c@), rats(x@), i),
                rats(rhs@)[i],
            ),
        tdma_ok(rats(a@), rats(b@), rats(c@), rats(rhs@)) ==> r is Some,
{
    let ghost ra = rats(a@);
    let ghost rb = rats(b@);
    let ghost rc = rats(c@);
    let ghost rds = rats(rhs@);
    let n: usize = b.len();
    // Forward sweep: w is the eliminated superdiagonal, g the transformed
    // right-hand side.
    let mut w: Vec<Rational> = Vec::new();
    let mut g: Vec<Rational> = Vec::new();
    let mut i: usize = 0;
    while i < n
        invariant
            0 <= i <= n,
            n == b@.len(),
            n >= 2,
            all_wf(a@),
            all_wf(b@),
            all_wf(c@),
            all_wf(rhs@),
            rhs@.len() == n,
            a@.len() + 2 == n,
            c@.len() + 2 == n,
            ra == rats(a@),
            rb == rats(b@),
            rc == rats(c@),
            rds == rats(rhs@),
            w@.len() == i as int,
            g@.len() == i as int,
            all_wf(w@),
            all_wf(g@),
            forall|t: int|
                0 <= t < i as int && t < n as int - 2 ==> rat_scales_to(
                    (#[trigger] w@[t])@,
                    tdma_w(ra, rb, rc, t),
                ),
            forall|t: int|
                0 <= t < i as int ==> rat_scales_to(
                    (#[trigger] g@[t])@,
                    tdma_g(ra, rb, rc, rds, t),
                ),
        decreases n - i,
    {
        let ghost gi = i as int;
        let ghost sw = tdma_w(ra, rb, rc, gi - 2);
        let ghost sdenom = tdma_denom(ra, rb, rc, gi);
        let denom: Rational;
        if i >= 2 {
            let aw: Rational = match a[i - 2].mul(&w[i - 2]) {
                Some(v) => v,
                None => {
                    // The eliminated subdiagonal term does not fit.
                    proof {
                        if tdma_ok(ra, rb, rc, rds) {
                            lemma_tdma_sweep_ok_prefix(ra, rb, rc, rds, gi + 1, n as int);
                            a@[gi - 2].lemma_wf_view();
                            w@[gi - 2].lemma_wf_view();
                            crate::rational::lemma_scales_self(ra[gi - 2]);
                            crate::rational::lemma_scales_mul(
                                a@[gi - 2]@,
                                ra[gi - 2],
                                w@[gi - 2]@,
                                sw,
                            );
                            crate::rational::lemma_scales_fits(
                                rat_mul(a@[gi - 2]@, w@[gi - 2]@),
                                rat_mul(ra[gi - 2], sw),
                            );
                        }
                    }
                    return None;
                },
            };
            let d0: Rational = match b[i].sub(&aw) {
                Some(v) => v,
                None => {
                    // The pivot itself does not fit.
                    proof {
                        if tdma_ok(ra, rb, rc, rds) {
                            lemma_tdma_sweep_ok_prefix(ra, rb, rc, rds, gi + 1, n as int);
                            a@[gi - 2].lemma_wf_view();
                            w@[gi - 2].lemma_wf_view();
                            b@[gi].lemma_wf_view();
                            aw.lemma_wf_view();
                            crate::rational::lemma_scales_self(ra[gi - 2]);
                            crate::rational::lemma_scales_mul(
                                a@[gi - 2]@,
                                ra[gi - 2],
                                w@[gi - 2]@,
                                sw,
                            );
                            crate::rational::lemma_scales_trans(
                                aw@,
                                rat_mul(a@[gi - 2]@, w@[gi - 2]@),
                                rat_mul(ra[gi - 2], sw),
                            );
                            crate::rational::lemma_scales_self(b@[gi]@);
                            crate::rational::lemma_scales_neg(aw@, rat_mul(ra[gi - 2], sw));
                            crate::rational::lemma_scales_add(
                                b@[gi]@,
                                rb[gi],
                                crate::rational::rat_neg(aw@),
                                crate::rational::rat_neg(rat_mul(ra[gi - 2], sw)),
                            );
                            crate::rational::lemma_scales_fits(
                                rat_sub(b@[gi]@, aw@),
                                rat_sub(rb[gi], rat_mul(ra[gi - 2], sw)),
                            );
                        }
                    }
                    return None;
                },
            };
            proof {
                a@[gi - 2].lemma_wf_view();
                w@[gi - 2].lemma_wf_view();
                b@[gi].lemma_wf_view();
                aw.lemma_wf_view();
                crate::rational::lemma_scales_self(ra[gi - 2]);
                crate::rational::lemma_scales_mul(a@[gi - 2]@, ra[gi - 2], w@[gi - 2]@, sw);
                crate::rational::lemma_scales_trans(
                    aw@,
                    rat_mul(a@[gi - 2]@, w@[gi - 2]@),
                    rat_mul(ra[gi - 2], sw),
                );
                crate::rational::lemma_scales_self(b@[gi]@);
                crate::rational::lemma_scales_neg(aw@, rat_mul(ra[gi - 2], sw));
                crate::rational::lemma_scales_add(
                    b@[gi]@,
                    rb[gi],
                    crate::rational::rat_neg(aw@),
                    crate::rational::rat_neg(rat_mul(ra[gi - 2], sw)),
                );
                crate::rational::lemma_scales_trans(d0@, rat_sub(b@[gi]@, aw@), sdenom);
                assert(rat_scales_to(d0@, sdenom));
            }
            denom = d0;
        } else {
            denom = b[i];
            proof {
                crate::rational::lemma_scales_self(denom@);
                assert(rat_scales_to(denom@, sdenom));
            }
        }
        if denom.is_zero() {
            // A vanishing pivot: the system is singular up to this row.
            proof {
                if tdma_ok(ra, rb, rc, rds) {
                    lemma_tdma_sweep_ok_prefix(ra, rb, rc, rds, gi + 1, n as int);
                    crate::rational::lemma_scales_zero_iff(denom@, sdenom);
                }
            }
            return None;
        }
        proof {
            crate::rational::lemma_scales_zero_iff(denom@, sdenom);
            assert(!crate::rational::rat_is_zero(sdenom));
        }
        let wi: Rational = if i < n - 2 {
            match c[i].div(&denom) {
                Some(v) => v,
                None => {
                    // The eliminated superdiagonal coefficient does not fit.
                    proof {
                        if tdma_ok(ra, rb, rc, rds) {
                            lemma_tdma_sweep_ok_prefix(ra, rb, rc, rds, gi + 1, n as int);
                            c@[gi].lemma_wf_view();
                            denom.lemma_wf_view();
                            crate::rational::lemma_scales_self(rc[gi]);
                            crate::rational::lemma_scales_div(c@[gi]@, rc[gi], denom@, sdenom);
                            crate::rational::lemma_div_wf(c@[gi]@, denom@);
                            crate::rational::lemma_scales_fits(
                                rat_div(c@[gi]@, denom@),
                                tdma_w(ra, rb, rc, gi),
                            );
                        }
                    }
                    return None;
                },
            }
        } else {
            Rational::zero()
        };
        proof {
            if gi < n as int - 2 {
                c@[gi].lemma_wf_view();
                denom.lemma_wf_view();
                crate::rational::lemma_scales_self(rc[gi]);
                crate::rational::lemma_scales_div(c@[gi]@, rc[gi], denom@, sdenom);
                crate::rational::lemma_scales_trans(
                    wi@,
                    rat_div(c@[gi]@, denom@),
                    tdma_w(ra, rb, rc, gi),
                );
            }
        }
        let ghost sg = tdma_g(ra, rb, rc, rds, gi - 2);
        let gi_val: Rational;
        if i >= 2 {
            let ag: Rational = match a[i - 2].mul(&g[i - 2]) {
                Some(v) => v,
                None => {
                    // The eliminated right-hand-side term does not fit.
                    proof {
                        if tdma_ok(ra, rb, rc, rds) {
                            lemma_tdma_sweep_ok_prefix(ra, rb, rc, rds, gi + 1, n as int);
                            a@[gi - 2].lemma_wf_view();
                            g@[gi - 2].lemma_wf_view();
                            crate::rational::lemma_scales_self(ra[gi - 2]);
                            crate::rational::lemma_scales_mul(
                                a@[gi - 2]@,
                                ra[gi - 2],
                                g@[gi - 2]@,
                                sg,
                            );
                            crate::rational::lemma_scales_fits(
                                rat_mul(a@[gi - 2]@, g@[gi - 2]@),
                                rat_mul(ra[gi - 2], sg),
                            );
                        }
                    }
                    return None;
                },
            };
            let num: Rational = match rhs[i].sub(&ag) {
                Some(v) => v,
                None => {
                    // The transformed right-hand side does not fit.
                    proof {
                        if tdma_ok(ra, rb, rc, rds) {
                            lemma_tdma_sweep_ok_prefix(ra, rb, rc, rds, gi + 1, n as int);
                            a@[gi - 2].lemma_wf_view();
                            g@[gi - 2].lemma_wf_view();
                            rhs@[gi].lemma_wf_view();
                            ag.lemma_wf_view();
                            crate::rational::lemma_scales_self(ra[gi - 2]);
                            crate::rational::lemma_scales_mul(
                                a@[gi - 2]@,
                                ra[gi - 2],
                                g@[gi - 2]@,
                                sg,
                            );
                            crate::rational::lemma_scales_trans(
                                ag@,
                                rat_mul(a@[gi - 2]@, g@[gi - 2]@),
                                rat_mul(ra[gi - 2], sg),
                            );
                            crate::rational::lemma_scales_self(rhs@[gi]@);
                            crate::rational::lemma_scales_neg(ag@, rat_mul(ra[gi - 2], sg));
                            crate::rational::lemma_scales_add(
                                rhs@[gi]@,
                                rds[gi],
                                crate::rational::rat_neg(ag@),
                                crate::rational::rat_neg(rat_mul(ra[gi - 2], sg)),
                            );
                            crate::rational::lemma_scales_fits(
                                rat_sub(rhs@[gi]@, ag@),
                                rat_sub(rds[gi], rat_mul(ra[gi - 2], sg)),
                            );
                        }
                    }
                    return None;
                },
            };
            gi_val = match num.div(&denom) {
                Some(v) => v,
                None => {
                    // The sweep's right-hand-side quotient does not fit.
                    proof {
                        if tdma_ok(ra, rb, rc, rds) {
                            lemma_tdma_sweep_ok_prefix(ra, rb, rc, rds, gi + 1, n as int);
                            a@[gi - 2].lemma_wf_view();
                            g@[gi - 2].lemma_wf_view();
                            rhs@[gi].lemma_wf_view();
                            ag.lemma_wf_view();
                            num.lemma_wf_view();
                            crate::rational::lemma_scales_self(ra[gi - 2]);
                            crate::rational::lemma_scales_mul(
                                a@[gi - 2]@,
                                ra[gi - 2],
                                g@[gi - 2]@,
                                sg,
                            );
                            crate::rational::lemma_scales_trans(
                                ag@,
                                rat_mul(a@[gi - 2]@, g@[gi - 2]@),
                                rat_mul(ra[gi - 2], sg),
                            );
                            crate::rational::lemma_scales_self(rhs@[gi]@);
                            crate::rational::lemma_scales_neg(ag@, rat_mul(ra[gi - 2], sg));
                            crate::rational::lemma_scales_add(
                                rhs@[gi]@,
                                rds[gi],
                                crate::rational::rat_neg(ag@),
                                crate::rational::rat_neg(rat_mul(ra[gi - 2], sg)),
                            );
                            crate::rational::lemma_scales_trans(
                                num@,
                                rat_sub(rhs@[gi]@, ag@),
                                rat_sub(rds[gi], rat_mul(ra[gi - 2], sg)),
                            );
                            crate::rational::lemma_scales_div(
                                num@,
                                rat_sub(rds[gi], rat_mul(ra[gi - 2], sg)),
                                denom@,
                                sdenom,
                            );
                            num.lemma_wf_view();
                            denom.lemma_wf_view();
                            crate::rational::lemma_div_wf(num@, denom@);
                            crate::rational::lemma_scales_fits(
                                rat_div(num@, denom@),
                                tdma_g(ra, rb, rc, rds, gi),
                            );
                        }
                    }
                    return None;
                },
            };
            proof {
                a@[gi - 2].lemma_wf_view();
                g@[gi - 2].lemma_wf_view();
                rhs@[gi].lemma_wf_view();
                ag.lemma_wf_view();
                num.lemma_wf_view();
                crate::rational::lemma_scales_self(ra[gi - 2]);
                crate::rational::lemma_scales_mul(a@[gi - 2]@, ra[gi - 2], g@[gi - 2]@, sg);
                crate::rational::lemma_scales_trans(
                    ag@,
                    rat_mul(a@[gi - 2]@, g@[gi - 2]@),
                    rat_mul(ra[gi - 2], sg),
                );
                crate::rational::lemma_scales_self(rhs@[gi]@);
                crate::rational::lemma_scales_neg(ag@, rat_mul(ra[gi - 2], sg));
                crate::rational::lemma_scales_add(
                    rhs@[gi]@,
                    rds[gi],
                    crate::rational::rat_neg(ag@),
                    crate::rational::rat_neg(rat_mul(ra[gi - 2], sg)),
                );
                crate::rational::lemma_scales_trans(
                    num@,
                    rat_sub(rhs@[gi]@, ag@),
                    rat_sub(rds[gi], rat_mul(ra[gi - 2], sg)),
                );
                crate::rational::lemma_scales_div(
                    num@,
                    rat_sub(rds[gi], rat_mul(ra[gi - 2], sg)),
                    denom@,
                    sdenom,
                );
                crate::rational::lemma_scales_trans(
                    gi_val@,
                    rat_div(num@, denom@),
                    tdma_g(ra, rb, rc, rds, gi),
                );
            }
        } else {
            gi_val = match rhs[i].div(&denom) {
                Some(v) => v,
                None => {
                    // The transformed right-hand side does not fit.
                    proof {
                        if tdma_ok(ra, rb, rc, rds) {
                            lemma_tdma_sweep_ok_prefix(ra, rb, rc, rds, gi + 1, n as int);
                            rhs@[gi].lemma_wf_view();
                            crate::rational::lemma_scales_self(rds[gi]);
                            crate::rational::lemma_scales_div(rhs@[gi]@, rds[gi], denom@, sdenom);
                            denom.lemma_wf_view();
                            crate::rational::lemma_div_wf(rhs@[gi]@, denom@);
                            crate::rational::lemma_scales_fits(
                                rat_div(rhs@[gi]@, denom@),
                                tdma_g(ra, rb, rc, rds, gi),
                            );
                        }
                    }
                    return None;
                },
            };
            proof {
                rhs@[gi].lemma_wf_view();
                crate::rational::lemma_scales_self(rds[gi]);
                crate::rational::lemma_scales_div(rhs@[gi]@, rds[gi], denom@, sdenom);
                crate::rational::lemma_scales_trans(
                    gi_val@,
                    rat_div(rhs@[gi]@, denom@),
                    tdma_g(ra, rb, rc, rds, gi),
                );
            }
        }
        w.push(wi);
        g.push(gi_val);
        i = i + 1;
    }
    // Back-substitution, from the last two rows upward.
    let mut x: Vec<Rational> = Vec::new();
    let mut j: usize = 0;
    while j < n
        invariant
            0 <= j <= n,
            x@.len() == j as int,
            all_wf(x@),
            all_wf(g@),
            g@.len() == n,
            forall|t: int| 0 <= t < j as int ==> (#[trigger] x@[t]) == g@[t],
        decreases n - j,
    {
        x.push(g[j]);
        j = j + 1;
    }
    let mut k: usize = n - 2;
    proof {
        assert forall|t: int| k as int <= t < n as int implies rat_scales_to(
            (#[trigger] x@[t])@,
            tdma_x(ra, rb, rc, rds, n as int, t),
        ) by {
            assert(x@[t] == g@[t]);
        }
    }
    while k > 0
        invariant
            0 <= k <= n - 2,
            n == b@.len(),
            n >= 2,
            ra == rats(a@),
            rb == rats(b@),
            rc == rats(c@),
            rds == rats(rhs@),
            all_wf(a@),
            all_wf(rhs@),
            a@.len() + 2 == n,
            x@.len() == n,
            w@.len() == n,
            all_wf(x@),
            all_wf(w@),
            all_wf(g@),
            g@.len() == n,
            forall|t: int|
                0 <= t < n as int - 2 ==> rat_scales_to(
                    (#[trigger] w@[t])@,
                    tdma_w(ra, rb, rc, t),
                ),
            forall|t: int|
                0 <= t < n as int ==> rat_scales_to(
                    (#[trigger] g@[t])@,
                    tdma_g(ra, rb, rc, rds, t),
                ),
            forall|t: int|
                k as int <= t < n as int ==> rat_scales_to(
                    (#[trigger] x@[t])@,
                    tdma_x(ra, rb, rc, rds, n as int, t),
                ),
            forall|t: int| 0 <= t < k as int ==> (#[trigger] x@[t]) == g@[t],
        decreases k,
    {
        let idx: usize = k - 1;
        let ghost gx = idx as int;
        let ghost sxk = tdma_x(ra, rb, rc, rds, n as int, gx + 2);
        let t: Rational = match w[idx].mul(&x[idx + 2]) {
            Some(v) => v,
            None => {
                // The back-substitution product does not fit.
                proof {
                    if tdma_ok(ra, rb, rc, rds) {
                        assert(rat_raw_fits(rat_mul(
                            tdma_w(ra, rb, rc, gx),
                            tdma_x(ra, rb, rc, rds, n as int, gx + 2),
                        )));
                        w@[gx].lemma_wf_view();
                        x@[gx + 2].lemma_wf_view();
                        crate::rational::lemma_scales_mul(
                            w@[gx]@,
                            tdma_w(ra, rb, rc, gx),
                            x@[gx + 2]@,
                            sxk,
                        );
                        crate::rational::lemma_scales_fits(
                            rat_mul(w@[gx]@, x@[gx + 2]@),
                            rat_mul(tdma_w(ra, rb, rc, gx), sxk),
                        );
                    }
                }
                return None;
            },
        };
        let v: Rational = match g[idx].sub(&t) {
            Some(v) => v,
            None => {
                // The back-substituted entry does not fit.
                proof {
                    if tdma_ok(ra, rb, rc, rds) {
                        assert(rat_raw_fits(tdma_x(ra, rb, rc, rds, n as int, gx)));
                        w@[gx].lemma_wf_view();
                        x@[gx + 2].lemma_wf_view();
                        g@[gx].lemma_wf_view();
                        t.lemma_wf_view();
                        crate::rational::lemma_scales_mul(
                            w@[gx]@,
                            tdma_w(ra, rb, rc, gx),
                            x@[gx + 2]@,
                            sxk,
                        );
                        crate::rational::lemma_scales_trans(
                            t@,
                            rat_mul(w@[gx]@, x@[gx + 2]@),
                            rat_mul(tdma_w(ra, rb, rc, gx), sxk),
                        );
                        crate::rational::lemma_scales_neg(
                            t@,
                            rat_mul(tdma_w(ra, rb, rc, gx), sxk),
                        );
                        crate::rational::lemma_scales_add(
                            g@[gx]@,
                            tdma_g(ra, rb, rc, rds, gx),
                            crate::rational::rat_neg(t@),
                            crate::rational::rat_neg(rat_mul(tdma_w(ra, rb, rc, gx), sxk)),
                        );
                        crate::rational::lemma_scales_fits(
                            rat_sub(g@[gx]@, t@),
                            tdma_x(ra, rb, rc, rds, n as int, gx),
                        );
                    }
                }
                return None;
            },
        };
        proof {
            w@[gx].lemma_wf_view();
            x@[gx + 2].lemma_wf_view();
            g@[gx].lemma_wf_view();
            t.lemma_wf_view();
            v.lemma_wf_view();
            crate::rational::lemma_scales_mul(
                w@[gx]@,
                tdma_w(ra, rb, rc, gx),
                x@[gx + 2]@,
                sxk,
            );
            crate::rational::lemma_scales_trans(
                t@,
                rat_mul(w@[gx]@, x@[gx + 2]@),
                rat_mul(tdma_w(ra, rb, rc, gx), sxk),
            );
            crate::rational::lemma_scales_neg(t@, rat_mul(tdma_w(ra, rb, rc, gx), sxk));
            crate::rational::lemma_scales_add(
                g@[gx]@,
                tdma_g(ra, rb, rc, rds, gx),
                crate::rational::rat_neg(t@),
                crate::rational::rat_neg(rat_mul(tdma_w(ra, rb, rc, gx), sxk)),
            );
            crate::rational::lemma_scales_trans(
                v@,
                rat_sub(g@[gx]@, t@),
                tdma_x(ra, rb, rc, rds, n as int, gx),
            );
        }
        x[idx] = v;
        proof {
            lemma_all_wf_update(x@, gx);
        }
        k = k - 1;
    }
    let ghost sx_seq = tdma_x_seq(ra, rb, rc, rds, n as int);
    proof {
        assert forall|t: int| 0 <= t < n as int implies rat_scales_to(
            #[trigger] rats(x@)[t],
            sx_seq[t],
        ) by {
            assert(rats(x@)[t] == x@[t]@);
        }
    }
    if tri_residual_ok(a, b, c, &x, rhs, Ghost(sx_seq)) {
        Some(x)
    } else {
        // The check can only reject what the mirror already rejects.
        proof {
            if tdma_ok(ra, rb, rc, rds) {
                assert(tri_check_ok(ra, rb, rc, sx_seq, rds));
            }
        }
        None
    }
}

/// Weighted tail sum of the Chebyshev derivative recurrence: the sum of
/// `2 j a[j]` over `j, j+2, j+4, ...` up to the end of `a`.
pub open spec fn cheb_dsum(a: Seq<Rat>, j: int) -> Rat
    decreases a.len() + 2 - j,
{
    if j < 0 || j >= a.len() {
        rat_int(0)
    } else {
        rat_add(rat_mul(rat_int(2 * j), a[j]), cheb_dsum(a, j + 2))
    }
}

/// Coefficient `k` of the derivative of a Chebyshev series `a`:
/// `c'_k = (2 / c_k) * sum of j a[j] over j > k with j - k odd`,
/// where `c_0 = 2` and `c_k = 1` otherwise.
pub open spec fn cheb_deriv(a: Seq<Rat>, k: int) -> Rat {
    if k == 0 {
        rat_mul(Rat { n: 1, d: 2 }, cheb_dsum(a, 1))
    } else {
        cheb_dsum(a, k + 1)
    }
}

/// All derivative coefficients of a Chebyshev series.
pub open spec fn cheb_deriv_seq(a: Seq<Rat>) -> Seq<Rat> {
    Seq::new(a.len(), |k: int| cheb_deriv(a, k))
}

/// The derivative recurrence applied `times` times.
pub open spec fn cheb_deriv_iter(a: Seq<Rat>, times: nat) -> Seq<Rat>
    decreases times,
{
    if times == 0 {
        a
    } else {
        cheb_deriv_seq(cheb_deriv_iter(a, (times - 1) as nat))
    }
}

/// The tail sum of a well-formed series is well formed.
pub proof fn lemma_cheb_dsum_wf(a: Seq<Rat>, j: int)
    requires
        all_rat_wf(a),
    ensures
        rat_wf(cheb_dsum(a, j)),
    decreases a.len() + 2 - j,
{
    if j < 0 || j >= a.len() {
    } else {
        lemma_cheb_dsum_wf(a, j + 2);
    }
}

/// The tail sum respects value equality of the series.
pub proof fn lemma_cheb_dsum_congruence(a: Seq<Rat>, b: Seq<Rat>, j: int)
    requires
        all_rat_wf(a),
        all_rat_wf(b),
        seq_eqv(a, b),
    ensures
        rat_eqv(cheb_dsum(a, j), cheb_dsum(b, j)),
    decreases a.len() + 2 - j,
{
    if j < 0 || j >= a.len() {
    } else {
        lemma_cheb_dsum_congruence(a, b, j + 2);
        lemma_cheb_dsum_wf(a, j + 2);
        lemma_cheb_dsum_wf(b, j + 2);
        lemma_mul_congruence(rat_int(2 * j), rat_int(2 * j), a[j], b[j]);
        lemma_add_congruence(
            rat_mul(rat_int(2 * j), a[j]),
            rat_mul(rat_int(2 * j), b[j]),
            cheb_dsum(a, j + 2),
            cheb_dsum(b, j + 2),
        );
    }
}

/// Every derivative coefficient of a well-formed series is well formed.
pub proof fn lemma_cheb_deriv_seq_wf(a: Seq<Rat>)
    requires
        all_rat_wf(a),
    ensures
        all_rat_wf(cheb_deriv_seq(a)),
{
    assert forall|k: int| 0 <= k < cheb_deriv_seq(a).len() implies rat_wf(
        #[trigger] cheb_deriv_seq(a)[k],
    ) by {
        lemma_cheb_dsum_wf(a, 1);
        lemma_cheb_dsum_wf(a, k + 1);
    }
}

/// The derivative coefficients respect value equality of the series.
pub proof fn lemma_cheb_deriv_seq_congruence(a: Seq<Rat>, b: Seq<Rat>)
    requires
        all_rat_wf(a),
        all_rat_wf(b),
        seq_eqv(a, b),
    ensures
        seq_eqv(cheb_deriv_seq(a), cheb_deriv_seq(b)),
{
    assert forall|k: int| 0 <= k < cheb_deriv_seq(a).len() implies rat_eqv(
        #[trigger] cheb_deriv_seq(a)[k],
        cheb_deriv_seq(b)[k],
    ) by {
        lemma_cheb_dsum_congruence(a, b, 1);
        lemma_cheb_dsum_congruence(a, b, k + 1);
        lemma_cheb_dsum_wf(a, 1);
        lemma_cheb_dsum_wf(b, 1);
        lemma_mul_congruence(Rat { n: 1, d: 2 }, Rat { n: 1, d: 2 }, cheb_dsum(a, 1), cheb_dsum(b, 1));
    }
}

proof fn lemma_half_fold(v: Rat, s: Rat)
    by (nonlinear_arith)
    requires
        rat_wf(v),
        rat_wf(s),
    ensures
        rat_eqv(
            rat_add(v, rat_mul(s, Rat { n: 1, d: 2 })),
            rat_mul(Rat { n: 1, d: 2 }, rat_add(rat_mul(rat_int(2), v), s)),
        ),
{
}

/// The forward correction that turns type-I discrete cosine transform
/// output into Chebyshev coefficients: divide entry `i` by
/// `(n - 1) (-1)^i`, and halve the first and last entry.
pub open spec fn cheb_fwd_factor(n: int, i: int) -> Rat {
    Rat {
        n: if i % 2 == 0 {
            1int
        } else {
            -1int
        },
        d: (n - 1) * (if i == 0 || i == n - 1 {
            2int
        } else {
            1int
        }),
    }
}

/// The backward correction applied before the discrete cosine transform:
/// multiply entry `i` by `(-1)^i / 2`, and double the first and last
/// entry.
pub open spec fn cheb_bwd_factor(n: int, i: int) -> Rat {
    Rat {
        n: (if i % 2 == 0 {
            1int
        } else {
            -1int
        }) * (if i == 0 || i == n - 1 {
            2int
        } else {
            1int
        }),
        d: 2,
    }
}

/// A series with the backward correction applied entrywise.
pub open spec fn cheb_bwd_corrected(v: Seq<Rat>, n: int) -> Seq<Rat> {
    Seq::new(v.len(), |j: int| rat_mul(v[j], cheb_bwd_factor(n, j)))
}

/// The forward transform as a sequence: cosine-table row `i` applied to
/// the samples, then the forward correction.
pub open spec fn cheb_forward_spec(dct: Seq<Seq<Rat>>, n: int, v: Seq<Rat>) -> Seq<Rat> {
    Seq::new(n as nat, |i: int| rat_mul(rat_dot(dct[i], v), cheb_fwd_factor(n, i)))
}

/// The right-hand side of the normal equations respects value equality
/// of the parent vector.
pub proof fn lemma_normal_rhs_congruence(
    diag: Seq<Rat>,
    low2: Seq<Rat>,
    p: Seq<Rat>,
    p2: Seq<Rat>,
    i: int,
)
    requires
        all_rat_wf(diag),
        all_rat_wf(low2),
        all_rat_wf(p),
        all_rat_wf(p2),
        seq_eqv(p, p2),
        0 <= i < diag.len(),
        i < low2.len(),
        i + 2 < p.len(),
    ensures
        rat_eqv(normal_rhs(diag, low2, p, i), normal_rhs(diag, low2, p2, i)),
        rat_wf(normal_rhs(diag, low2, p, i)),
        rat_wf(normal_rhs(diag, low2, p2, i)),
{
    lemma_mul_congruence(diag[i], diag[i], p[i], p2[i]);
    lemma_mul_congruence(low2[i], low2[i], p[i + 2], p2[i + 2]);
    lemma_add_congruence(
        rat_mul(diag[i], p[i]),
        rat_mul(diag[i], p2[i]),
        rat_mul(low2[i], p[i + 2]),
        rat_mul(low2[i], p2[i + 2]),
    );
}

/// The two corrections compose to the constant factor `1 / (2 (n - 1))`,
/// independent of the entry index: a cosine table with
/// `D D = 2 (n - 1) I` therefore makes `backward` invert `forward`.
pub proof fn lemma_correction_round_trip(n: int, i: int)
    requires
        n >= 2,
        0 <= i < n,
    ensures
        rat_eqv(
            rat_mul(cheb_fwd_factor(n, i), cheb_bwd_factor(n, i)),
            Rat { n: 1, d: 2 * (n - 1) },
        ),
{
    assert(rat_eqv(
        rat_mul(cheb_fwd_factor(n, i), cheb_bwd_factor(n, i)),
        Rat { n: 1, d: 2 * (n - 1) },
    )) by (nonlinear_arith)
        requires
            n >= 2,
            0 <= i < n,
    ;
}

/// Every unreduced intermediate of the forward transform fits the
/// 64-bit representation: the cosine-table accumulations and each
/// corrected coefficient. Under this condition `forward` succeeds.
pub open spec fn cheb_forward_fits(dct: Seq<Seq<Rat>>, n: int, v: Seq<Rat>) -> bool {
    &&& (forall|i: int| 0 <= i < n ==> rat_dot_fits(#[trigger] dct[i], v))
    &&& (forall|i: int|
        0 <= i < n ==> rat_raw_fits(
            rat_mul(rat_dot(#[trigger] dct[i], v), cheb_fwd_factor(n, i)),
        ))
}

/// Every unreduced intermediate of the backward transform fits the
/// 64-bit representation: each corrected coefficient and the
/// cosine-table accumulations over them. Under this condition
/// `backward` succeeds.
pub open spec fn cheb_backward_fits(dct: Seq<Seq<Rat>>, n: int, v: Seq<Rat>) -> bool {
    &&& (forall|j: int|
        0 <= j < n ==> rat_raw_fits(rat_mul(#[trigger] v[j], cheb_bwd_factor(n, j))))
    &&& (forall|i: int| 0 <= i < n ==> rat_dot_fits(#[trigger] dct[i], cheb_bwd_corrected(v, n)))
}

/// Every unreduced intermediate of the stencil product fits the 64-bit
/// representation: both banded terms of each row and their sum. Under
/// this condition `to_parent` succeeds.
pub open spec fn stencil_apply_fits(diag: Seq<Rat>, low2: Seq<Rat>, c: Seq<Rat>, n: int) -> bool {
    forall|i: int|
        0 <= i < n ==> {
            &&& (i < c.len() ==> rat_raw_fits(rat_mul(diag[i], c[i])))
            &&& (i >= 2 ==> rat_raw_fits(rat_mul(low2[i - 2], c[i - 2])))
            &&& rat_raw_fits(#[trigger] stencil_apply(diag, low2, c, i))
        }
}

/// A physical grid is an ordered sequence of coordinates running from
/// `-1` to `1`: strictly increasing, with those exact endpoints.
pub open spec fn grid_wf(x: Seq<Rat>) -> bool {
    &&& x.len() >= 2
    &&& rat_eqv(x[0], rat_int(-1))
    &&& rat_eqv(x[x.len() - 1], rat_int(1))
    &&& (forall|k: int| 0 <= k < x.len() - 1 ==> crate::rational::rat_lt(#[trigger] x[k], x[k + 1]))
}

/// Orthogonal Chebyshev basis of size `n`.
///
/// The grid coordinates and the cosine table of the type-I discrete
/// cosine transform are irrational, so they enter as data prepared by
/// the caller; the coefficient corrections around the table and the
/// derivative recurrence are exact.
pub struct Chebyshev {
    /// Number of coefficients in parent space.
    pub n: usize,
    /// Number of coefficients in composite space (equal to `n` for an
    /// orthogonal basis).
    pub m: usize,
    /// Grid points in physical space.
    pub x: Vec<Rational>,
    /// Cosine table of the type-I discrete cosine transform, `n` by `n`.
    pub dct: Matrix,
}

impl Chebyshev {
    /// The basis is consistent: square cosine table of order `n`, grid of
    /// length `n`, and a size small enough for exact index arithmetic.
    pub open spec fn wf(self) -> bool {
        &&& self.m == self.n
        &&& 2 <= self.n <= 0x4000_0000
        &&& self.x@.len() == self.n as int
        &&& all_wf(self.x@)
        &&& grid_wf(rats(self.x@))
        &&& self.dct.wf()
        &&& self.dct.rows == self.n
        &&& self.dct.cols == self.n
    }

    /// Creates a new basis from its size, grid coordinates and cosine
    /// table.
    pub fn new(n: usize, x: Vec<Rational>, dct: Matrix) -> (r: Chebyshev)
        requires
            2 <= n <= 0x4000_0000,
            x@.len() == n as int,
            all_wf(x@),
            grid_wf(rats(x@)),
            dct.wf(),
            dct.rows == n,
            dct.cols == n,
        ensures
            r.wf(),
            r.n == n,
            r.m == n,
            r.x == x,
            r.dct == dct,
    {
        Chebyshev { n, m: n, x, dct }
    }

    /// Return size of physical space.
    pub fn len_phys(&self) -> (r: usize)
        ensures
            r == self.n,
    {
        self.n
    }

    /// Return size of spectral space.
    pub fn len_spec(&self) -> (r: usize)
        ensures
            r == self.m,
    {
        self.m
    }

    /// Return grid coordinates.
    pub fn coords(&self) -> (r: &Vec<Rational>)
        ensures
            r == &self.x,
    {
        &self.x
    }

    fn fwd_factor(&self, i: usize) -> (r: Rational)
        requires
            self.wf(),
            i < self.n,
        ensures
            r.wf(),
            rat_eqv(r@, cheb_fwd_factor(self.n as int, i as int)),
            rat_scales_to(r@, cheb_fwd_factor(self.n as int, i as int)),
    {
        let sign: i64 = if i % 2 == 0 {
            1
        } else {
            -1
        };
        let scale: i64 = if i == 0 || i == self.n - 1 {
            2
        } else {
            1
        };
        let den: i64 = (self.n as i64 - 1) * scale;
        match Rational::new(sign, den) {
            Some(v) => v,
            None => {
                // `den` is positive, so this branch is unreachable.
                proof {
                    assert(false);
                }
                Rational::zero()
            },
        }
    }

    fn bwd_factor(&self, i: usize) -> (r: Rational)
        requires
            self.wf(),
            i < self.n,
        ensures
            r.wf(),
            rat_eqv(r@, cheb_bwd_factor(self.n as int, i as int)),
            rat_scales_to(r@, cheb_bwd_factor(self.n as int, i as int)),
    {
        let sign: i64 = if i % 2 == 0 {
            1
        } else {
            -1
        };
        let scale: i64 = if i == 0 || i == self.n - 1 {
            2
        } else {
            1
        };
        match Rational::new(sign * scale, 2) {
            Some(v) => v,
            None => {
                proof {
                    assert(false);
                }
                Rational::zero()
            },
        }
    }

    /// Transform physical space to Chebyshev space: apply the cosine
    /// table, then the forward correction.
    pub fn forward(&self, v: &Vec<Rational>) -> (r: Option<Vec<Rational>>)
        requires
            self.wf(),
            v@.len() == self.n as int,
            all_wf(v@),
        ensures
            r matches Some(out) ==> out@.len() == self.n as int && all_wf(out@) && forall|i: int|
                0 <= i < self.n as int ==> rat_eqv(
                    #[trigger] rats(out@)[i],
                    rat_mul(rat_dot(self.dct@[i], rats(v@)), cheb_fwd_factor(self.n as int, i)),
                ) && rat_scales_to(
                    rats(out@)[i],
                    rat_mul(rat_dot(self.dct@[i], rats(v@)), cheb_fwd_factor(self.n as int, i)),
                ),
            cheb_forward_fits(self.dct@, self.n as int, rats(v@)) ==> r is Some,
    {
        let u: Vec<Rational> = match self.dct.matvec(v) {
            Some(u) => u,
            None => {
                // Some cosine-table accumulation does not fit.
                proof {
                    if cheb_forward_fits(self.dct@, self.n as int, rats(v@)) {
                        assert(forall|t: int|
                            0 <= t < self.dct.rows as int ==> rat_dot_fits(
                                #[trigger] self.dct@[t],
                                rats(v@),
                            ));
                    }
                }
                return None;
            },
        };
        let n: usize = self.n;
        let mut out: Vec<Rational> = Vec::new();
        let mut i: usize = 0;
        while i < n
            invariant
                0 <= i <= n,
                self.wf(),
                n == self.n,
                v@.len() == n as int,
                all_wf(v@),
                u@.len() == n as int,
                all_wf(u@),
                forall|t: int|
                    0 <= t < n as int ==> rat_eqv(
                        #[trigger] rats(u@)[t],
                        rat_dot(self.dct@[t], rats(v@)),
                    ) && rat_scales_to(rats(u@)[t], rat_dot(self.dct@[t], rats(v@))),
                out@.len() == i as int,
                all_wf(out@),
                forall|t: int|
                    0 <= t < i as int ==> rat_eqv(
                        (#[trigger] out@[t])@,
                        rat_mul(
                            rat_dot(self.dct@[t], rats(v@)),
                            cheb_fwd_factor(n as int, t),
                        ),
                    ) && rat_scales_to(
                        out@[t]@,
                        rat_mul(
                            rat_dot(self.dct@[t], rats(v@)),
                            cheb_fwd_factor(n as int, t),
                        ),
                    ),
            decreases n - i,
        {
            let ghost gi = i as int;
            let f: Rational = self.fwd_factor(i);
            let w: Rational = match u[i].mul(&f) {
                Some(w) => w,
                None => {
                    // The corrected coefficient at this index does not fit.
                    proof {
                        if cheb_forward_fits(self.dct@, n as int, rats(v@)) {
                            assert(rats(u@)[gi] == u@[gi]@);
                            assert(rat_scales_to(u@[gi]@, rat_dot(self.dct@[gi], rats(v@))));
                            u@[gi].lemma_wf_view();
                            f.lemma_wf_view();
                            lemma_scales_mul(
                                u@[gi]@,
                                rat_dot(self.dct@[gi], rats(v@)),
                                f@,
                                cheb_fwd_factor(n as int, gi),
                            );
                            lemma_scales_fits(
                                rat_mul(u@[gi]@, f@),
                                rat_mul(
                                    rat_dot(self.dct@[gi], rats(v@)),
                                    cheb_fwd_factor(n as int, gi),
                                ),
                            );
                        }
                    }
                    return None;
                },
            };
            proof {
                u@[gi].lemma_wf_view();
                f.lemma_wf_view();
                w.lemma_wf_view();
                crate::linalg::lemma_all_wf_rats(v@);
                assert(all_rat_wf(self.dct@[gi]));
                crate::linalg::lemma_rat_dot_wf(self.dct@[gi], rats(v@));
                assert(rat_eqv(rats(u@)[gi], rat_dot(self.dct@[gi], rats(v@))));
                assert(rats(u@)[gi] == u@[gi]@);
                lemma_mul_congruence(
                    u@[gi]@,
                    rat_dot(self.dct@[gi], rats(v@)),
                    f@,
                    cheb_fwd_factor(n as int, gi),
                );
                lemma_eqv_trans(
                    w@,
                    rat_mul(u@[gi]@, f@),
                    rat_mul(rat_dot(self.dct@[gi], rats(v@)), cheb_fwd_factor(n as int, gi)),
                );
                lemma_scales_mul(
                    u@[gi]@,
                    rat_dot(self.dct@[gi], rats(v@)),
                    f@,
                    cheb_fwd_factor(n as int, gi),
                );
                lemma_scales_trans(
                    w@,
                    rat_mul(u@[gi]@, f@),
                    rat_mul(rat_dot(self.dct@[gi], rats(v@)), cheb_fwd_factor(n as int, gi)),
                );
            }
            out.push(w);
            i = i + 1;
        }
        Some(out)
    }

    /// Transform Chebyshev space to physical space: apply the backward
    /// correction, then the cosine table.
    pub fn backward(&self, v: &Vec<Rational>) -> (r: Option<Vec<Rational>>)
        requires
            self.wf(),
            v@.len() == self.n as int,
            all_wf(v@),
        ensures
            r matches Some(out) ==> out@.len() == self.n as int && all_wf(out@) && forall|i: int|
                0 <= i < self.n as int ==> rat_eqv(
                    #[trigger] rats(out@)[i],
                    rat_dot(self.dct@[i], cheb_bwd_corrected(rats(v@), self.n as int)),
                ),
            cheb_backward_fits(self.dct@, self.n as int, rats(v@)) ==> r is Some,
    {
        let n: usize = self.n;
        let ghost target = cheb_bwd_corrected(rats(v@), n as int);
        let mut buf: Vec<Rational> = Vec::new();
        let mut j: usize = 0;
        while j < n
            invariant
                0 <= j <= n,
                self.wf(),
                n == self.n,
                v@.len() == n as int,
                all_wf(v@),
                target == cheb_bwd_corrected(rats(v@), n as int),
                buf@.len() == j as int,
                all_wf(buf@),
                forall|t: int|
                    0 <= t < j as int ==> rat_eqv((#[trigger] buf@[t])@, target[t])
                        && rat_scales_to(buf@[t]@, target[t]),
            decreases n - j,
        {
            let ghost gj = j as int;
            let f: Rational = self.bwd_factor(j);
            let w: Rational = match v[j].mul(&f) {
                Some(w) => w,
                None => {
                    // The corrected coefficient at this index does not fit.
                    proof {
                        if cheb_backward_fits(self.dct@, n as int, rats(v@)) {
                            v@[gj].lemma_wf_view();
                            f.lemma_wf_view();
                            lemma_scales_self(v@[gj]@);
                            lemma_scales_mul(
                                v@[gj]@,
                                rats(v@)[gj],
                                f@,
                                cheb_bwd_factor(n as int, gj),
                            );
                            lemma_scales_fits(
                                rat_mul(v@[gj]@, f@),
                                rat_mul(rats(v@)[gj], cheb_bwd_factor(n as int, gj)),
                            );
                        }
                    }
                    return None;
                },
            };
            proof {
                lemma_scales_self(v@[gj]@);
                lemma_scales_mul(v@[gj]@, rats(v@)[gj], f@, cheb_bwd_factor(n as int, gj));
                v@[gj].lemma_wf_view();
                f.lemma_wf_view();
                w.lemma_wf_view();
                lemma_mul_congruence(v@[gj]@, rats(v@)[gj], f@, cheb_bwd_factor(n as int, gj));
                lemma_eqv_trans(
                    w@,
                    rat_mul(v@[gj]@, f@),
                    rat_mul(rats(v@)[gj], cheb_bwd_factor(n as int, gj)),
                );
                crate::rational::lemma_scales_trans(
                    w@,
                    rat_mul(v@[gj]@, f@),
                    rat_mul(rats(v@)[gj], cheb_bwd_factor(n as int, gj)),
                );
            }
            buf.push(w);
            j = j + 1;
        }
        let out: Vec<Rational> = match self.dct.matvec(&buf) {
            Some(out) => out,
            None => {
                // Some cosine-table accumulation over the corrected
                // coefficients does not fit; since the stored coefficients
                // only shrink the corrected ones, neither would the stated
                // accumulation.
                proof {
                    if cheb_backward_fits(self.dct@, n as int, rats(v@)) {
                        crate::linalg::lemma_all_wf_rats(buf@);
                        assert forall|t: int|
                            0 <= t < self.dct.rows as int implies rat_dot_fits(
                            #[trigger] self.dct@[t],
                            rats(buf@),
                        ) by {
                            assert(all_rat_wf(self.dct@[t]));
                            assert forall|t2: int|
                                0 <= t2 < self.dct@[t].len() implies rat_scales_to(
                                #[trigger] self.dct@[t][t2],
                                self.dct@[t][t2],
                            ) by {
                                lemma_scales_self(self.dct@[t][t2]);
                            }
                            assert forall|t2: int|
                                0 <= t2 < rats(buf@).len() implies rat_scales_to(
                                #[trigger] rats(buf@)[t2],
                                target[t2],
                            ) by {}
                            crate::linalg::lemma_rat_dot_scaled(
                                self.dct@[t],
                                self.dct@[t],
                                rats(buf@),
                                target,
                                n as int,
                            );
                        }
                    }
                }
                return None;
            },
        };
        proof {
            crate::linalg::lemma_all_wf_rats(v@);
            crate::linalg::lemma_all_wf_rats(buf@);
            assert forall|t: int| 0 <= t < target.len() implies rat_wf(#[trigger] target[t]) by {
                v@[t].lemma_wf_view();
            }
            assert forall|i: int| 0 <= i < n as int implies rat_eqv(
                #[trigger] rats(out@)[i],
                rat_dot(self.dct@[i], target),
            ) by {
                assert(all_rat_wf(self.dct@[i]));
                assert(seq_eqv(rats(buf@), target));
                crate::linalg::lemma_rat_dot_congruence(
                    self.dct@[i],
                    self.dct@[i],
                    rats(buf@),
                    target,
                );
                crate::linalg::lemma_rat_dot_wf(self.dct@[i], rats(buf@));
                crate::linalg::lemma_rat_dot_wf(self.dct@[i], target);
                out@[i].lemma_wf_view();
                lemma_eqv_trans(
                    rats(out@)[i],
                    rat_dot(self.dct@[i], rats(buf@)),
                    rat_dot(self.dct@[i], target),
                );
            }
        }
        Some(out)
    }

    /// Differentiate a spectral series once, by the Chebyshev recurrence.
    pub fn differentiate_once(a: &Vec<Rational>) -> (r: Option<Vec<Rational>>)
        requires
            all_wf(a@),
            3 <= a@.len() <= 0x4000_0000,
        ensures
            r matches Some(out) ==> out@.len() == a@.len() && all_wf(out@) && forall|k: int|
                0 <= k < a@.len() ==> rat_eqv(
                    #[trigger] rats(out@)[k],
                    cheb_deriv(rats(a@), k),
                ) && rat_scales_to(rats(out@)[k], cheb_deriv(rats(a@), k)),
            cheb_deriv_once_fits(rats(a@)) ==> r is Some,
    {
        let ghost ra = rats(a@);
        proof {
            crate::linalg::lemma_all_wf_rats(a@);
        }
        let n: usize = a.len();
        // First pass: out[i] holds the single recurrence term
        // 2 (i+1) a[i+1]; the head starts from a[1] and the tail is zero.
        let mut x: Vec<Rational> = Vec::new();
        x.push(a[1]);
        let mut i: usize = 1;
        while i < n - 1
            invariant
                1 <= i <= n - 1,
                n == a@.len(),
                3 <= n <= 0x4000_0000,
                all_wf(a@),
                ra == rats(a@),
                all_rat_wf(ra),
                x@.len() == i as int,
                all_wf(x@),
                x@[0]@ == ra[1],
                forall|t: int|
                    1 <= t < i as int ==> rat_eqv(
                        (#[trigger] x@[t])@,
                        rat_mul(rat_int(2 * (t + 1)), ra[t + 1]),
                    ) && rat_scales_to(x@[t]@, rat_mul(rat_int(2 * (t + 1)), ra[t + 1])),
            decreases n - i,
        {
            let ghost gi = i as int;
            let factor: Rational = Rational::from_i64(2 * (i as i64 + 1));
            let v: Rational = match factor.mul(&a[i + 1]) {
                Some(q) => q,
                None => {
                    // The recurrence term at this index does not fit.
                    proof {
                        if cheb_deriv_once_fits(ra) {
                            assert(rat_raw_fits(rat_mul(rat_int(2 * (gi + 1)), ra[gi + 1])));
                        }
                    }
                    return None;
                },
            };
            proof {
                a@[gi + 1].lemma_wf_view();
                v.lemma_wf_view();
            }
            x.push(v);
            i = i + 1;
        }
        x.push(Rational::zero());
        // Second pass, descending: accumulate every second tail term.
        let mut k: usize = n - 2;
        proof {
            assert(rat_eqv(x@[n - 1]@, cheb_dsum(ra, n as int)));
            assert(cheb_dsum(ra, n as int + 1) == rat_int(0));
            let m0 = rat_mul(rat_int(2 * (n as int - 1)), ra[n as int - 1]);
            assert(cheb_dsum(ra, n as int - 1) == rat_add(m0, cheb_dsum(ra, n as int + 1)));
            assert(rat_add(m0, rat_int(0)) == m0) by (nonlinear_arith);
            assert(rat_eqv(x@[n - 2]@, cheb_dsum(ra, n as int - 1)));
            lemma_scales_self(x@[n - 1]@);
            assert(rat_scales_to(x@[n - 1]@, cheb_dsum(ra, n as int)));
            assert(rat_scales_to(x@[n - 2]@, cheb_dsum(ra, n as int - 1)));
        }
        while k > 1
            invariant
                1 <= k <= n - 2,
                n == a@.len(),
                3 <= n <= 0x4000_0000,
                all_wf(a@),
                ra == rats(a@),
                all_rat_wf(ra),
                x@.len() == n as int,
                all_wf(x@),
                x@[0]@ == ra[1],
                forall|t: int|
                    1 <= t < k as int ==> rat_eqv(
                        (#[trigger] x@[t])@,
                        rat_mul(rat_int(2 * (t + 1)), ra[t + 1]),
                    ) && rat_scales_to(x@[t]@, rat_mul(rat_int(2 * (t + 1)), ra[t + 1])),
                forall|t: int|
                    k as int <= t < n as int ==> rat_eqv((#[trigger] x@[t])@, cheb_dsum(ra, t + 1))
                        && rat_scales_to(x@[t]@, cheb_dsum(ra, t + 1)),
            decreases k,
        {
            let idx: usize = k - 1;
            let ghost gx = idx as int;
            let v: Rational = match x[idx].add(&x[idx + 2]) {
                Some(q) => q,
                None => {
                    // The accumulated tail sum at this index does not fit.
                    proof {
                        if cheb_deriv_once_fits(ra) {
                            assert(rat_raw_fits(cheb_dsum(ra, gx + 1)));
                            x@[gx].lemma_wf_view();
                            x@[gx + 2].lemma_wf_view();
                            lemma_scales_add(
                                x@[gx]@,
                                rat_mul(rat_int(2 * (gx + 1)), ra[gx + 1]),
                                x@[gx + 2]@,
                                cheb_dsum(ra, gx + 3),
                            );
                            assert(cheb_dsum(ra, gx + 1) == rat_add(
                                rat_mul(rat_int(2 * (gx + 1)), ra[gx + 1]),
                                cheb_dsum(ra, gx + 3),
                            ));
                            lemma_scales_fits(
                                rat_add(x@[gx]@, x@[gx + 2]@),
                                cheb_dsum(ra, gx + 1),
                            );
                        }
                    }
                    return None;
                },
            };
            proof {
                lemma_scales_add(
                    x@[gx]@,
                    rat_mul(rat_int(2 * (gx + 1)), ra[gx + 1]),
                    x@[gx + 2]@,
                    cheb_dsum(ra, gx + 3),
                );
                crate::rational::lemma_scales_trans(
                    v@,
                    rat_add(x@[gx]@, x@[gx + 2]@),
                    rat_add(rat_mul(rat_int(2 * (gx + 1)), ra[gx + 1]), cheb_dsum(ra, gx + 3)),
                );
                x@[gx].lemma_wf_view();
                x@[gx + 2].lemma_wf_view();
                v.lemma_wf_view();
                a@[gx + 1].lemma_wf_view();
                lemma_cheb_dsum_wf(ra, gx + 3);
                lemma_add_congruence(
                    x@[gx]@,
                    rat_mul(rat_int(2 * (gx + 1)), ra[gx + 1]),
                    x@[gx + 2]@,
                    cheb_dsum(ra, gx + 3),
                );
                lemma_eqv_trans(
                    v@,
                    rat_add(x@[gx]@, x@[gx + 2]@),
                    rat_add(rat_mul(rat_int(2 * (gx + 1)), ra[gx + 1]), cheb_dsum(ra, gx + 3)),
                );
                assert(cheb_dsum(ra, gx + 1) == rat_add(
                    rat_mul(rat_int(2 * (gx + 1)), ra[gx + 1]),
                    cheb_dsum(ra, gx + 3),
                ));
            }
            x[idx] = v;
            proof {
                lemma_all_wf_update(x@, gx);
            }
            k = k - 1;
        }
        // Halving correction of the zeroth coefficient.
        let half: Rational = match Rational::new(1, 2) {
            Some(v) => v,
            None => {
                proof {
                    assert(false);
                }
                Rational::zero()
            },
        };
        let q: Rational = match x[2].mul(&half) {
            Some(w) => w,
            None => {
                // The halved tail sum does not fit.
                proof {
                    if cheb_deriv_once_fits(ra) {
                        x@[2].lemma_wf_view();
                        half.lemma_wf_view();
                        lemma_scales_mul(x@[2]@, cheb_dsum(ra, 3), half@, Rat { n: 1, d: 2 });
                        lemma_scales_fits(
                            rat_mul(x@[2]@, half@),
                            rat_mul(cheb_dsum(ra, 3), Rat { n: 1, d: 2 }),
                        );
                    }
                }
                return None;
            },
        };
        let v0: Rational = match x[0].add(&q) {
            Some(w) => w,
            None => {
                // The corrected zeroth coefficient does not fit.
                proof {
                    if cheb_deriv_once_fits(ra) {
                        x@[0].lemma_wf_view();
                        x@[2].lemma_wf_view();
                        half.lemma_wf_view();
                        q.lemma_wf_view();
                        lemma_scales_self(x@[0]@);
                        lemma_scales_mul(x@[2]@, cheb_dsum(ra, 3), half@, Rat { n: 1, d: 2 });
                        crate::rational::lemma_scales_trans(
                            q@,
                            rat_mul(x@[2]@, half@),
                            rat_mul(cheb_dsum(ra, 3), Rat { n: 1, d: 2 }),
                        );
                        lemma_scales_add(
                            x@[0]@,
                            ra[1],
                            q@,
                            rat_mul(cheb_dsum(ra, 3), Rat { n: 1, d: 2 }),
                        );
                        lemma_scales_fits(
                            rat_add(x@[0]@, q@),
                            rat_add(ra[1], rat_mul(cheb_dsum(ra, 3), Rat { n: 1, d: 2 })),
                        );
                    }
                }
                return None;
            },
        };
        proof {
            x@[0].lemma_wf_view();
            x@[2].lemma_wf_view();
            half.lemma_wf_view();
            q.lemma_wf_view();
            v0.lemma_wf_view();
            a@[1].lemma_wf_view();
            lemma_cheb_dsum_wf(ra, 3);
            lemma_mul_congruence(x@[2]@, cheb_dsum(ra, 3), half@, Rat { n: 1, d: 2 });
            lemma_eqv_trans(
                q@,
                rat_mul(x@[2]@, half@),
                rat_mul(cheb_dsum(ra, 3), Rat { n: 1, d: 2 }),
            );
            lemma_add_congruence(
                x@[0]@,
                ra[1],
                q@,
                rat_mul(cheb_dsum(ra, 3), Rat { n: 1, d: 2 }),
            );
            lemma_eqv_trans(
                v0@,
                rat_add(x@[0]@, q@),
                rat_add(ra[1], rat_mul(cheb_dsum(ra, 3), Rat { n: 1, d: 2 })),
            );
            lemma_half_fold(ra[1], cheb_dsum(ra, 3));
            assert(cheb_dsum(ra, 1) == rat_add(rat_mul(rat_int(2), ra[1]), cheb_dsum(ra, 3)));
            lemma_cheb_dsum_wf(ra, 1);
            lemma_eqv_trans(
                v0@,
                rat_add(ra[1], rat_mul(cheb_dsum(ra, 3), Rat { n: 1, d: 2 })),
                rat_mul(Rat { n: 1, d: 2 }, cheb_dsum(ra, 1)),
            );
            // The halved-sum form is the raw representation of the
            // derivative's zeroth coefficient, component for component.
            assert(rat_add(ra[1], rat_mul(cheb_dsum(ra, 3), Rat { n: 1, d: 2 })) == rat_mul(
                Rat { n: 1, d: 2 },
                cheb_dsum(ra, 1),
            )) by (nonlinear_arith)
                requires
                    cheb_dsum(ra, 1) == rat_add(
                        rat_mul(rat_int(2), ra[1]),
                        cheb_dsum(ra, 3),
                    ),
            ;
            lemma_scales_self(x@[0]@);
            lemma_scales_mul(x@[2]@, cheb_dsum(ra, 3), half@, Rat { n: 1, d: 2 });
            crate::rational::lemma_scales_trans(
                q@,
                rat_mul(x@[2]@, half@),
                rat_mul(cheb_dsum(ra, 3), Rat { n: 1, d: 2 }),
            );
            lemma_scales_add(x@[0]@, ra[1], q@, rat_mul(cheb_dsum(ra, 3), Rat { n: 1, d: 2 }));
            crate::rational::lemma_scales_trans(
                v0@,
                rat_add(x@[0]@, q@),
                rat_add(ra[1], rat_mul(cheb_dsum(ra, 3), Rat { n: 1, d: 2 })),
            );
            assert(rat_scales_to(v0@, cheb_deriv(ra, 0)));
        }
        x[0] = v0;
        proof {
            lemma_all_wf_update(x@, 0);
            assert forall|k: int| 0 <= k < n as int implies rat_eqv(
                #[trigger] rats(x@)[k],
                cheb_deriv(ra, k),
            ) && rat_scales_to(rats(x@)[k], cheb_deriv(ra, k)) by {
                assert(rats(x@)[k] == x@[k]@);
                if k >= 1 {
                    assert(rat_eqv(x@[k]@, cheb_dsum(ra, k + 1)));
                    assert(rat_scales_to(x@[k]@, cheb_dsum(ra, k + 1)));
                }
            }
        }
        Some(x)
    }

    /// Differentiate a spectral series `times` times along its axis.
    pub fn differentiate(a: &Vec<Rational>, times: usize) -> (r: Option<Vec<Rational>>)
        requires
            all_wf(a@),
            3 <= a@.len() <= 0x4000_0000,
        ensures
            r matches Some(out) ==> out@.len() == a@.len() && all_wf(out@) && seq_eqv(
                rats(out@),
                cheb_deriv_iter(rats(a@), times as nat),
            ),
            cheb_deriv_iter_fits(rats(a@), times as nat) ==> r is Some,
    {
        let ghost ra = rats(a@);
        let n: usize = a.len();
        let mut cur: Vec<Rational> = Vec::new();
        let mut c: usize = 0;
        while c < n
            invariant
                0 <= c <= n,
                n == a@.len(),
                all_wf(a@),
                cur@.len() == c as int,
                forall|t: int| 0 <= t < c as int ==> (#[trigger] cur@[t]) == a@[t],
            decreases n - c,
        {
            cur.push(a[c]);
            c = c + 1;
        }
        proof {
            assert(cur@ =~= a@);
            assert(rats(cur@) =~= ra);
            crate::linalg::lemma_all_wf_rats(a@);
            assert(seq_eqv(rats(cur@), cheb_deriv_iter(ra, 0)));
            assert forall|k: int| 0 <= k < n as int implies rat_scales_to(
                #[trigger] rats(cur@)[k],
                cheb_deriv_iter(ra, 0)[k],
            ) by {
                lemma_scales_self(rats(cur@)[k]);
            }
        }
        let mut t: usize = 0;
        while t < times
            invariant
                0 <= t <= times,
                n == a@.len(),
                3 <= n <= 0x4000_0000,
                ra == rats(a@),
                all_rat_wf(ra),
                cur@.len() == n as int,
                all_wf(cur@),
                seq_eqv(rats(cur@), cheb_deriv_iter(ra, t as nat)),
                forall|k: int|
                    0 <= k < n as int ==> rat_scales_to(
                        #[trigger] rats(cur@)[k],
                        cheb_deriv_iter(ra, t as nat)[k],
                    ),
            decreases times - t,
        {
            let next: Vec<Rational> = match Self::differentiate_once(&cur) {
                Some(nx) => nx,
                None => {
                    // The stored coefficients shrink the exact iterated
                    // coefficients entrywise, so the fitting condition
                    // carries over to them.
                    proof {
                        if cheb_deriv_iter_fits(ra, times as nat) {
                            assert(cheb_deriv_once_fits(cheb_deriv_iter(ra, t as nat)));
                            crate::linalg::lemma_all_wf_rats(cur@);
                            lemma_deriv_iter_wf(ra, t as nat);
                            lemma_cheb_deriv_once_fits_scaled(
                                rats(cur@),
                                cheb_deriv_iter(ra, t as nat),
                            );
                        }
                    }
                    return None;
                },
            };
            proof {
                let prev_spec = cheb_deriv_iter(ra, t as nat);
                let next_spec = cheb_deriv_iter(ra, (t + 1) as nat);
                crate::linalg::lemma_all_wf_rats(cur@);
                crate::linalg::lemma_all_wf_rats(next@);
                lemma_deriv_iter_wf(ra, t as nat);
                lemma_cheb_deriv_seq_congruence(rats(cur@), prev_spec);
                lemma_cheb_deriv_seq_wf(rats(cur@));
                lemma_cheb_deriv_seq_wf(prev_spec);
                assert(next_spec == cheb_deriv_seq(prev_spec));
                assert forall|k: int| 0 <= k < n as int implies rat_eqv(
                    #[trigger] rats(next@)[k],
                    next_spec[k],
                ) && rat_scales_to(rats(next@)[k], next_spec[k]) by {
                    assert(rat_eqv(rats(next@)[k], cheb_deriv(rats(cur@), k)));
                    assert(rat_eqv(cheb_deriv_seq(rats(cur@))[k], cheb_deriv_seq(prev_spec)[k]));
                    next@[k].lemma_wf_view();
                    assert(rat_wf(cheb_deriv_seq(rats(cur@))[k]));
                    assert(rat_wf(next_spec[k]));
                    lemma_eqv_trans(
                        rats(next@)[k],
                        cheb_deriv_seq(rats(cur@))[k],
                        next_spec[k],
                    );
                    assert(rat_scales_to(rats(next@)[k], cheb_deriv(rats(cur@), k)));
                    lemma_cheb_deriv_scaled(rats(cur@), prev_spec, k);
                    assert(next_spec[k] == cheb_deriv(prev_spec, k));
                    crate::rational::lemma_scales_trans(
                        rats(next@)[k],
                        cheb_deriv(rats(cur@), k),
                        cheb_deriv(prev_spec, k),
                    );
                }
            }
            cur = next;
            t = t + 1;
        }
        Some(cur)
    }
}

/// Iterated derivative coefficients of a well-formed series stay well
/// formed.
pub proof fn lemma_deriv_iter_wf(a: Seq<Rat>, times: nat)
    requires
        all_rat_wf(a),
    ensures
        all_rat_wf(cheb_deriv_iter(a, times)),
        cheb_deriv_iter(a, times).len() == a.len(),
    decreases times,
{
    if times == 0 {
    } else {
        lemma_deriv_iter_wf(a, (times - 1) as nat);
        lemma_cheb_deriv_seq_wf(cheb_deriv_iter(a, (times - 1) as nat));
    }
}

/// The linear combination `a f + b g` of two coefficient series,
/// entry by entry.
pub open spec fn lincomb(a: Rat, f: Seq<Rat>, b: Rat, g: Seq<Rat>) -> Seq<Rat> {
    Seq::new(f.len(), |i: int| rat_add(rat_mul(a, f[i]), rat_mul(b, g[i])))
}

proof fn lemma_scale_pull(c: Rat, a: Rat, x: Rat)
    requires
        rat_wf(c),
        rat_wf(a),
        rat_wf(x),
    ensures
        rat_eqv(rat_mul(c, rat_mul(a, x)), rat_mul(a, rat_mul(c, x))),
{
    broadcast use vstd::arithmetic::mul::group_mul_properties;

    let cn = c.n;
    let cd = c.d;
    let an = a.n;
    let ad = a.d;
    let xn = x.n;
    let xd = x.d;
    assert((cn * (an * xn)) * (ad * (cd * xd)) == (an * (cn * xn)) * (cd * (ad * xd)));
}

proof fn lemma_dsum_linear(a: Rat, f: Seq<Rat>, b: Rat, g: Seq<Rat>, j: int)
    requires
        rat_wf(a),
        rat_wf(b),
        all_rat_wf(f),
        all_rat_wf(g),
        f.len() == g.len(),
    ensures
        rat_eqv(
            cheb_dsum(lincomb(a, f, b, g), j),
            rat_add(rat_mul(a, cheb_dsum(f, j)), rat_mul(b, cheb_dsum(g, j))),
        ),
    decreases f.len() + 2 - j,
{
    let h = lincomb(a, f, b, g);
    assert forall|t: int| 0 <= t < h.len() implies rat_wf(#[trigger] h[t]) by {}
    lemma_cheb_dsum_wf(f, j);
    lemma_cheb_dsum_wf(g, j);
    lemma_cheb_dsum_wf(h, j);
    if j < 0 || j >= f.len() {
        assert(cheb_dsum(h, j) == rat_int(0));
        assert(rat_eqv(
            rat_int(0),
            rat_add(rat_mul(a, rat_int(0)), rat_mul(b, rat_int(0))),
        )) by (nonlinear_arith)
            requires
                rat_wf(a),
                rat_wf(b),
        ;
    } else {
        let c2j = rat_int(2 * j);
        let tf = rat_mul(c2j, f[j]);
        let tg = rat_mul(c2j, g[j]);
        let sf2 = cheb_dsum(f, j + 2);
        let sg2 = cheb_dsum(g, j + 2);
        lemma_cheb_dsum_wf(f, j + 2);
        lemma_cheb_dsum_wf(g, j + 2);
        lemma_cheb_dsum_wf(h, j + 2);
        // The head term distributes over the combination.
        lemma_mul_add_distrib(c2j, rat_mul(a, f[j]), rat_mul(b, g[j]));
        lemma_scale_pull(c2j, a, f[j]);
        lemma_scale_pull(c2j, b, g[j]);
        lemma_add_congruence(
            rat_mul(c2j, rat_mul(a, f[j])),
            rat_mul(a, tf),
            rat_mul(c2j, rat_mul(b, g[j])),
            rat_mul(b, tg),
        );
        lemma_eqv_trans(
            rat_mul(c2j, h[j]),
            rat_add(rat_mul(c2j, rat_mul(a, f[j])), rat_mul(c2j, rat_mul(b, g[j]))),
            rat_add(rat_mul(a, tf), rat_mul(b, tg)),
        );
        // The tail is linear by induction.
        lemma_dsum_linear(a, f, b, g, j + 2);
        lemma_add_congruence(
            rat_mul(c2j, h[j]),
            rat_add(rat_mul(a, tf), rat_mul(b, tg)),
            cheb_dsum(h, j + 2),
            rat_add(rat_mul(a, sf2), rat_mul(b, sg2)),
        );
        // Regroup the four terms by their factor.
        crate::rational::lemma_add_exchange(
            rat_mul(a, tf),
            rat_mul(b, tg),
            rat_mul(a, sf2),
            rat_mul(b, sg2),
        );
        lemma_eqv_trans(
            cheb_dsum(h, j),
            rat_add(
                rat_add(rat_mul(a, tf), rat_mul(b, tg)),
                rat_add(rat_mul(a, sf2), rat_mul(b, sg2)),
            ),
            rat_add(
                rat_add(rat_mul(a, tf), rat_mul(a, sf2)),
                rat_add(rat_mul(b, tg), rat_mul(b, sg2)),
            ),
        );
        // Pull each factor back out.
        lemma_mul_add_distrib(a, tf, sf2);
        lemma_mul_add_distrib(b, tg, sg2);
        crate::rational::lemma_eqv_sym(
            rat_mul(a, rat_add(tf, sf2)),
            rat_add(rat_mul(a, tf), rat_mul(a, sf2)),
        );
        crate::rational::lemma_eqv_sym(
            rat_mul(b, rat_add(tg, sg2)),
            rat_add(rat_mul(b, tg), rat_mul(b, sg2)),
        );
        lemma_add_congruence(
            rat_add(rat_mul(a, tf), rat_mul(a, sf2)),
            rat_mul(a, rat_add(tf, sf2)),
            rat_add(rat_mul(b, tg), rat_mul(b, sg2)),
            rat_mul(b, rat_add(tg, sg2)),
        );
        lemma_eqv_trans(
            cheb_dsum(h, j),
            rat_add(
                rat_add(rat_mul(a, tf), rat_mul(a, sf2)),
                rat_add(rat_mul(b, tg), rat_mul(b, sg2)),
            ),
            rat_add(rat_mul(a, rat_add(tf, sf2)), rat_mul(b, rat_add(tg, sg2))),
        );
        assert(cheb_dsum(f, j) == rat_add(tf, sf2));
        assert(cheb_dsum(g, j) == rat_add(tg, sg2));
    }
}

/// Differentiation is linear: the derivative coefficients of
/// `a f + b g` equal `a` times those of `f` plus `b` times those of `g`,
/// coefficient by coefficient.
pub proof fn lemma_differentiate_linear(a: Rat, f: Seq<Rat>, b: Rat, g: Seq<Rat>, k: int)
    requires
        rat_wf(a),
        rat_wf(b),
        all_rat_wf(f),
        all_rat_wf(g),
        f.len() == g.len(),
        0 <= k < f.len(),
    ensures
        rat_eqv(
            cheb_deriv(lincomb(a, f, b, g), k),
            rat_add(rat_mul(a, cheb_deriv(f, k)), rat_mul(b, cheb_deriv(g, k))),
        ),
{
    let h = lincomb(a, f, b, g);
    assert forall|t: int| 0 <= t < h.len() implies rat_wf(#[trigger] h[t]) by {}
    if k == 0 {
        let half = Rat { n: 1, d: 2 };
        lemma_dsum_linear(a, f, b, g, 1);
        lemma_cheb_dsum_wf(f, 1);
        lemma_cheb_dsum_wf(g, 1);
        lemma_cheb_dsum_wf(h, 1);
        // half * dsum(h, 1) ~ half * (a dsum(f,1) + b dsum(g,1))
        lemma_mul_congruence(
            half,
            half,
            cheb_dsum(h, 1),
            rat_add(rat_mul(a, cheb_dsum(f, 1)), rat_mul(b, cheb_dsum(g, 1))),
        );
        // distribute the half and pull it inside each factor
        lemma_mul_add_distrib(half, rat_mul(a, cheb_dsum(f, 1)), rat_mul(b, cheb_dsum(g, 1)));
        lemma_scale_pull(half, a, cheb_dsum(f, 1));
        lemma_scale_pull(half, b, cheb_dsum(g, 1));
        lemma_add_congruence(
            rat_mul(half, rat_mul(a, cheb_dsum(f, 1))),
            rat_mul(a, rat_mul(half, cheb_dsum(f, 1))),
            rat_mul(half, rat_mul(b, cheb_dsum(g, 1))),
            rat_mul(b, rat_mul(half, cheb_dsum(g, 1))),
        );
        lemma_eqv_trans(
            rat_mul(half, cheb_dsum(h, 1)),
            rat_mul(half, rat_add(rat_mul(a, cheb_dsum(f, 1)), rat_mul(b, cheb_dsum(g, 1)))),
            rat_add(
                rat_mul(half, rat_mul(a, cheb_dsum(f, 1))),
                rat_mul(half, rat_mul(b, cheb_dsum(g, 1))),
            ),
        );
        lemma_eqv_trans(
            rat_mul(half, cheb_dsum(h, 1)),
            rat_add(
                rat_mul(half, rat_mul(a, cheb_dsum(f, 1))),
                rat_mul(half, rat_mul(b, cheb_dsum(g, 1))),
            ),
            rat_add(
                rat_mul(a, rat_mul(half, cheb_dsum(f, 1))),
                rat_mul(b, rat_mul(half, cheb_dsum(g, 1))),
            ),
        );
    } else {
        lemma_dsum_linear(a, f, b, g, k + 1);
    }
}

/// The iterated derivative respects value equality of the series.
pub proof fn lemma_deriv_iter_congruence(a: Seq<Rat>, b: Seq<Rat>, times: nat)
    requires
        all_rat_wf(a),
        all_rat_wf(b),
        seq_eqv(a, b),
    ensures
        seq_eqv(cheb_deriv_iter(a, times), cheb_deriv_iter(b, times)),
    decreases times,
{
    if times == 0 {
    } else {
        lemma_deriv_iter_congruence(a, b, (times - 1) as nat);
        lemma_deriv_iter_wf(a, (times - 1) as nat);
        lemma_deriv_iter_wf(b, (times - 1) as nat);
        lemma_cheb_deriv_seq_congruence(
            cheb_deriv_iter(a, (times - 1) as nat),
            cheb_deriv_iter(b, (times - 1) as nat),
        );
    }
}

/// Every unreduced intermediate of one derivative pass fits the 64-bit
/// representation: the recurrence terms, the accumulated tail sums, and
/// the halving correction of the zeroth coefficient. Under this
/// condition one differentiation succeeds.
pub open spec fn cheb_deriv_once_fits(a: Seq<Rat>) -> bool {
    &&& (forall|t: int|
        1 <= t < a.len() - 1 ==> rat_raw_fits(rat_mul(rat_int(2 * (t + 1)), #[trigger] a[t + 1])))
    &&& (forall|k: int| 1 <= k <= a.len() - 3 ==> rat_raw_fits(#[trigger] cheb_dsum(a, k + 1)))
    &&& rat_raw_fits(rat_mul(cheb_dsum(a, 3), Rat { n: 1, d: 2 }))
    &&& rat_raw_fits(rat_add(a[1], rat_mul(cheb_dsum(a, 3), Rat { n: 1, d: 2 })))
}

/// Every step of `times` repeated differentiations fits the 64-bit
/// representation, measured on the exact iterated coefficients.
pub open spec fn cheb_deriv_iter_fits(a: Seq<Rat>, times: nat) -> bool {
    forall|t: nat| t < times ==> cheb_deriv_once_fits(#[trigger] cheb_deriv_iter(a, t))
}


/// Entrywise shrinking carries through any number of differentiation
/// steps, coefficient by coefficient.
pub proof fn lemma_deriv_iter_scaled(a2: Seq<Rat>, a: Seq<Rat>, times: nat)
    requires
        a2.len() == a.len(),
        all_rat_wf(a),
        all_rat_wf(a2),
        forall|t: int| 0 <= t < a.len() ==> rat_scales_to(#[trigger] a2[t], a[t]),
    ensures
        forall|k: int|
            0 <= k < a.len() ==> rat_scales_to(
                #[trigger] cheb_deriv_iter(a2, times)[k],
                cheb_deriv_iter(a, times)[k],
            ),
    decreases times,
{
    lemma_deriv_iter_wf(a, times);
    lemma_deriv_iter_wf(a2, times);
    if times == 0 {
        assert forall|k: int| 0 <= k < a.len() implies rat_scales_to(
            #[trigger] cheb_deriv_iter(a2, times)[k],
            cheb_deriv_iter(a, times)[k],
        ) by {
            assert(cheb_deriv_iter(a2, times)[k] == a2[k]);
            assert(cheb_deriv_iter(a, times)[k] == a[k]);
        }
    } else {
        lemma_deriv_iter_scaled(a2, a, (times - 1) as nat);
        let prev2 = cheb_deriv_iter(a2, (times - 1) as nat);
        let prev = cheb_deriv_iter(a, (times - 1) as nat);
        lemma_deriv_iter_wf(a, (times - 1) as nat);
        lemma_deriv_iter_wf(a2, (times - 1) as nat);
        assert forall|k: int| 0 <= k < a.len() implies rat_scales_to(
            #[trigger] cheb_deriv_iter(a2, times)[k],
            cheb_deriv_iter(a, times)[k],
        ) by {
            assert(cheb_deriv_iter(a2, times)[k] == cheb_deriv(prev2, k));
            assert(cheb_deriv_iter(a, times)[k] == cheb_deriv(prev, k));
            lemma_cheb_deriv_scaled(prev2, prev, k);
        }
    }
}

/// Entrywise shrinking preserves the fitting condition of iterated
/// differentiation: what fits over exact coefficients also fits over
/// stored, reduced coefficients.
pub proof fn lemma_deriv_iter_fits_scaled(a2: Seq<Rat>, a: Seq<Rat>, times: nat)
    requires
        a2.len() == a.len(),
        3 <= a.len() <= 0x4000_0000,
        all_rat_wf(a),
        all_rat_wf(a2),
        forall|t: int| 0 <= t < a.len() ==> rat_scales_to(#[trigger] a2[t], a[t]),
        cheb_deriv_iter_fits(a, times),
    ensures
        cheb_deriv_iter_fits(a2, times),
{
    assert forall|t: nat| t < times implies cheb_deriv_once_fits(
        #[trigger] cheb_deriv_iter(a2, t),
    ) by {
        assert(cheb_deriv_once_fits(cheb_deriv_iter(a, t)));
        lemma_deriv_iter_wf(a, t);
        lemma_deriv_iter_wf(a2, t);
        lemma_deriv_iter_scaled(a2, a, t);
        lemma_cheb_deriv_once_fits_scaled(cheb_deriv_iter(a2, t), cheb_deriv_iter(a, t));
    }
}

/// Entrywise shrinking of a series carries through the weighted tail
/// sum: the shrunk series' sum shrinks the exact series' sum.
pub proof fn lemma_cheb_dsum_scaled(a2: Seq<Rat>, a: Seq<Rat>, j: int)
    requires
        a2.len() == a.len(),
        all_rat_wf(a),
        all_rat_wf(a2),
        forall|t: int| 0 <= t < a.len() ==> rat_scales_to(#[trigger] a2[t], a[t]),
    ensures
        rat_scales_to(cheb_dsum(a2, j), cheb_dsum(a, j)),
    decreases a.len() + 2 - j,
{
    if j < 0 || j >= a.len() {
        lemma_scales_self(rat_int(0));
    } else {
        lemma_cheb_dsum_scaled(a2, a, j + 2);
        lemma_scales_self(rat_int(2 * j));
        lemma_scales_mul(rat_int(2 * j), rat_int(2 * j), a2[j], a[j]);
        lemma_scales_add(
            rat_mul(rat_int(2 * j), a2[j]),
            rat_mul(rat_int(2 * j), a[j]),
            cheb_dsum(a2, j + 2),
            cheb_dsum(a, j + 2),
        );
    }
}

/// Entrywise shrinking carries through the derivative recurrence,
/// coefficient by coefficient.
pub proof fn lemma_cheb_deriv_scaled(a2: Seq<Rat>, a: Seq<Rat>, k: int)
    requires
        a2.len() == a.len(),
        all_rat_wf(a),
        all_rat_wf(a2),
        forall|t: int| 0 <= t < a.len() ==> rat_scales_to(#[trigger] a2[t], a[t]),
    ensures
        rat_scales_to(cheb_deriv(a2, k), cheb_deriv(a, k)),
{
    if k == 0 {
        lemma_cheb_dsum_scaled(a2, a, 1);
        lemma_scales_self(Rat { n: 1, d: 2 });
        lemma_scales_mul(
            Rat { n: 1, d: 2 },
            Rat { n: 1, d: 2 },
            cheb_dsum(a2, 1),
            cheb_dsum(a, 1),
        );
    } else {
        lemma_cheb_dsum_scaled(a2, a, k + 1);
    }
}

/// Entrywise shrinking preserves the fitting condition of one
/// differentiation: what fits over exact coefficients also fits over
/// stored, reduced coefficients.
pub proof fn lemma_cheb_deriv_once_fits_scaled(a2: Seq<Rat>, a: Seq<Rat>)
    requires
        a2.len() == a.len(),
        3 <= a.len() <= 0x4000_0000,
        all_rat_wf(a),
        all_rat_wf(a2),
        forall|t: int| 0 <= t < a.len() ==> rat_scales_to(#[trigger] a2[t], a[t]),
        cheb_deriv_once_fits(a),
    ensures
        cheb_deriv_once_fits(a2),
{
    let n = a.len() as int;
    assert forall|t: int| 1 <= t < n - 1 implies rat_raw_fits(
        rat_mul(rat_int(2 * (t + 1)), #[trigger] a2[t + 1]),
    ) by {
        assert(rat_raw_fits(rat_mul(rat_int(2 * (t + 1)), a[t + 1])));
        lemma_scales_self(rat_int(2 * (t + 1)));
        lemma_scales_mul(rat_int(2 * (t + 1)), rat_int(2 * (t + 1)), a2[t + 1], a[t + 1]);
        lemma_scales_fits(
            rat_mul(rat_int(2 * (t + 1)), a2[t + 1]),
            rat_mul(rat_int(2 * (t + 1)), a[t + 1]),
        );
    }
    assert forall|k: int| 1 <= k <= n - 3 implies rat_raw_fits(#[trigger] cheb_dsum(a2, k + 1)) by {
        assert(rat_raw_fits(cheb_dsum(a, k + 1)));
        lemma_cheb_dsum_scaled(a2, a, k + 1);
        lemma_cheb_dsum_wf(a2, k + 1);
        lemma_scales_fits(cheb_dsum(a2, k + 1), cheb_dsum(a, k + 1));
    }
    lemma_cheb_dsum_scaled(a2, a, 3);
    lemma_cheb_dsum_wf(a2, 3);
    lemma_scales_self(Rat { n: 1, d: 2 });
    lemma_scales_mul(cheb_dsum(a2, 3), cheb_dsum(a, 3), Rat { n: 1, d: 2 }, Rat { n: 1, d: 2 });
    lemma_scales_fits(
        rat_mul(cheb_dsum(a2, 3), Rat { n: 1, d: 2 }),
        rat_mul(cheb_dsum(a, 3), Rat { n: 1, d: 2 }),
    );
    lemma_scales_add(
        a2[1],
        a[1],
        rat_mul(cheb_dsum(a2, 3), Rat { n: 1, d: 2 }),
        rat_mul(cheb_dsum(a, 3), Rat { n: 1, d: 2 }),
    );
    lemma_scales_fits(
        rat_add(a2[1], rat_mul(cheb_dsum(a2, 3), Rat { n: 1, d: 2 })),
        rat_add(a[1], rat_mul(cheb_dsum(a, 3), Rat { n: 1, d: 2 })),
    );
}

/// Updating one entry of a well-formed vector with a well-formed value
/// keeps every entry well formed.
pub proof fn lemma_all_wf_update(s: Seq<Rational>, i: int)
    requires
        forall|t: int| 0 <= t < s.len() && t != i ==> (#[trigger] s[t]).wf(),
        0 <= i < s.len() ==> s[i].wf(),
    ensures
        all_wf(s),
{
}

/// Banded stencil connecting a composite Chebyshev basis of size `m` to
/// its parent basis of size `n = m + 2`: a main diagonal and a
/// subdiagonal at offset `-2`.
pub struct StencilChebyshev {
    /// Number of coefficients in parent space.
    pub n: usize,
    /// Number of coefficients in composite space.
    pub m: usize,
    /// Main diagonal, length `m`.
    pub diag: Vec<Rational>,
    /// Subdiagonal at offset `-2`, length `m`.
    pub low2: Vec<Rational>,
}

/// Row `i` of the stencil applied to composite coefficients `c`:
/// `diag[i] * c[i] + low2[i-2] * c[i-2]`, each term present only where
/// its index exists.
pub open spec fn stencil_apply(diag: Seq<Rat>, low2: Seq<Rat>, c: Seq<Rat>, i: int) -> Rat {
    rat_add(
        term_or_zero(i < c.len(), rat_mul(diag[i], c[i])),
        term_or_zero(i >= 2, rat_mul(low2[i - 2], c[i - 2])),
    )
}

/// Entry `i` of the main diagonal of the normal matrix `S^T S`.
pub open spec fn stn_dmain(diag: Seq<Rat>, low2: Seq<Rat>, i: int) -> Rat {
    rat_add(rat_mul(diag[i], diag[i]), rat_mul(low2[i], low2[i]))
}

/// Entry `i` of the off diagonal (offset `2`) of the normal matrix
/// `S^T S`.
pub open spec fn stn_upper(diag: Seq<Rat>, low2: Seq<Rat>, i: int) -> Rat {
    rat_mul(diag[i + 2], low2[i])
}

/// Row `i` of the normal matrix `S^T S` applied to `x`.
pub open spec fn normal_apply(diag: Seq<Rat>, low2: Seq<Rat>, x: Seq<Rat>, i: int) -> Rat {
    rat_add(
        rat_add(
            term_or_zero(i >= 2, rat_mul(stn_upper(diag, low2, i - 2), x[i - 2])),
            rat_mul(stn_dmain(diag, low2, i), x[i]),
        ),
        term_or_zero(i + 2 < x.len(), rat_mul(stn_upper(diag, low2, i), x[i + 2])),
    )
}

/// A row of the normal matrix applied to a well-formed vector is well
/// formed.
pub proof fn lemma_normal_apply_wf(diag: Seq<Rat>, low2: Seq<Rat>, x: Seq<Rat>, i: int)
    requires
        all_rat_wf(diag),
        all_rat_wf(low2),
        all_rat_wf(x),
        diag.len() == x.len(),
        low2.len() == x.len(),
        0 <= i < x.len(),
    ensures
        rat_wf(normal_apply(diag, low2, x, i)),
{
    if i >= 2 {
        assert(rat_wf(diag[i]) && rat_wf(low2[i - 2]) && rat_wf(x[i - 2]));
    }
    assert(rat_wf(diag[i]) && rat_wf(low2[i]) && rat_wf(x[i]));
    if i + 2 < x.len() {
        assert(rat_wf(diag[i + 2]) && rat_wf(low2[i]) && rat_wf(x[i + 2]));
    }
}

/// Entry `i` of `S^T p`: `diag[i] * p[i] + low2[i] * p[i+2]`.
pub open spec fn normal_rhs(diag: Seq<Rat>, low2: Seq<Rat>, p: Seq<Rat>, i: int) -> Rat {
    rat_add(rat_mul(diag[i], p[i]), rat_mul(low2[i], p[i + 2]))
}

/// The main diagonal of the normal matrix `S^T S`, as a sequence.
pub open spec fn normal_dm_seq(diag: Seq<Rat>, low2: Seq<Rat>) -> Seq<Rat> {
    Seq::new(diag.len(), |i: int| stn_dmain(diag, low2, i))
}

/// The off diagonal of the normal matrix `S^T S`, as a sequence.
pub open spec fn normal_up_seq(diag: Seq<Rat>, low2: Seq<Rat>) -> Seq<Rat> {
    Seq::new((diag.len() - 2) as nat, |i: int| stn_upper(diag, low2, i))
}

/// The right-hand side `S^T p`, as a sequence.
pub open spec fn normal_rhs_seq(diag: Seq<Rat>, low2: Seq<Rat>, p: Seq<Rat>) -> Seq<Rat> {
    Seq::new(diag.len(), |i: int| normal_rhs(diag, low2, p, i))
}

/// Every unreduced intermediate of the normal-equation assembly fits
/// the 64-bit representation, and the tridiagonal elimination of the
/// assembled system runs to completion. Under this condition
/// `from_parent` succeeds.
pub open spec fn from_parent_ok(diag: Seq<Rat>, low2: Seq<Rat>, p: Seq<Rat>) -> bool {
    &&& (forall|i: int|
        0 <= i < diag.len() ==> rat_raw_fits(rat_mul(diag[i], diag[i])) && rat_raw_fits(
            rat_mul(low2[i], low2[i]),
        ) && rat_raw_fits(#[trigger] stn_dmain(diag, low2, i)))
    &&& (forall|i: int|
        0 <= i < diag.len() - 2 ==> rat_raw_fits(#[trigger] stn_upper(diag, low2, i)))
    &&& (forall|i: int|
        0 <= i < diag.len() ==> rat_raw_fits(rat_mul(diag[i], p[i])) && rat_raw_fits(
            rat_mul(low2[i], p[i + 2]),
        ) && rat_raw_fits(#[trigger] normal_rhs(diag, low2, p, i)))
    &&& tdma_ok(
        normal_up_seq(diag, low2),
        normal_dm_seq(diag, low2),
        normal_up_seq(diag, low2),
        normal_rhs_seq(diag, low2, p),
    )
}

/// Entrywise shrinking of the parent coefficients preserves the
/// success condition of the normal-equation assembly and solve: what
/// the condition accepts over exact parent data it also accepts over
/// stored, reduced data.
pub proof fn lemma_from_parent_ok_scaled(
    diag: Seq<Rat>,
    low2: Seq<Rat>,
    p2: Seq<Rat>,
    p: Seq<Rat>,
)
    requires
        diag.len() >= 2,
        low2.len() == diag.len(),
        p.len() >= diag.len() + 2,
        p2.len() == p.len(),
        all_rat_wf(diag),
        all_rat_wf(low2),
        all_rat_wf(p),
        all_rat_wf(p2),
        forall|t: int| 0 <= t < p.len() ==> rat_scales_to(#[trigger] p2[t], p[t]),
        from_parent_ok(diag, low2, p),
    ensures
        from_parent_ok(diag, low2, p2),
{
    let m = diag.len() as int;
    assert forall|i: int| 0 <= i < m implies rat_raw_fits(rat_mul(diag[i], p2[i]))
        && rat_raw_fits(rat_mul(low2[i], p2[i + 2])) && rat_raw_fits(
        #[trigger] normal_rhs(diag, low2, p2, i),
    ) && rat_scales_to(normal_rhs(diag, low2, p2, i), normal_rhs(diag, low2, p, i)) by {
        assert(rat_raw_fits(normal_rhs(diag, low2, p, i)));
        lemma_scales_self(diag[i]);
        lemma_scales_self(low2[i]);
        lemma_scales_mul(diag[i], diag[i], p2[i], p[i]);
        lemma_scales_mul(low2[i], low2[i], p2[i + 2], p[i + 2]);
        lemma_scales_fits(rat_mul(diag[i], p2[i]), rat_mul(diag[i], p[i]));
        lemma_scales_fits(rat_mul(low2[i], p2[i + 2]), rat_mul(low2[i], p[i + 2]));
        lemma_scales_add(
            rat_mul(diag[i], p2[i]),
            rat_mul(diag[i], p[i]),
            rat_mul(low2[i], p2[i + 2]),
            rat_mul(low2[i], p[i + 2]),
        );
        lemma_scales_fits(normal_rhs(diag, low2, p2, i), normal_rhs(diag, low2, p, i));
    }
    let sup = normal_up_seq(diag, low2);
    let sdm = normal_dm_seq(diag, low2);
    let srh = normal_rhs_seq(diag, low2, p);
    let srh2 = normal_rhs_seq(diag, low2, p2);
    assert forall|t: int| 0 <= t < m implies rat_wf(#[trigger] sdm[t]) && rat_scales_to(
        sdm[t],
        sdm[t],
    ) by {
        assert(rat_raw_fits(stn_dmain(diag, low2, t)));
        lemma_scales_self(sdm[t]);
    }
    assert forall|t: int| 0 <= t < m - 2 implies rat_wf(#[trigger] sup[t]) && rat_scales_to(
        sup[t],
        sup[t],
    ) by {
        lemma_scales_self(sup[t]);
    }
    assert forall|t: int| 0 <= t < m implies rat_wf(#[trigger] srh[t]) && rat_wf(srh2[t])
        && rat_scales_to(#[trigger] srh2[t], srh[t]) by {
        assert(rat_scales_to(normal_rhs(diag, low2, p2, t), normal_rhs(diag, low2, p, t)));
    }
    lemma_tdma_ok_scaled(sup, sup, sdm, sdm, sup, sup, srh2, srh);
    assert forall|i: int| 0 <= i < diag.len() implies rat_raw_fits(
        #[trigger] rat_mul(diag[i], diag[i]),
    ) by {
        assert(rat_raw_fits(stn_dmain(diag, low2, i)));
    }
    assert forall|i: int| 0 <= i < diag.len() implies rat_raw_fits(
        #[trigger] rat_mul(low2[i], low2[i]),
    ) by {
        assert(rat_raw_fits(stn_dmain(diag, low2, i)));
    }
    assert forall|i: int| 0 <= i < diag.len() implies rat_raw_fits(
        #[trigger] stn_dmain(diag, low2, i),
    ) by {
        assert(rat_raw_fits(stn_dmain(diag, low2, i)));
    }
    assert forall|i: int| 0 <= i < diag.len() - 2 implies rat_raw_fits(
        #[trigger] stn_upper(diag, low2, i),
    ) by {
        assert(rat_raw_fits(stn_upper(diag, low2, i)));
    }
    assert forall|i: int| 0 <= i < diag.len() implies rat_raw_fits(
        #[trigger] rat_mul(diag[i], p2[i]),
    ) by {
        assert(rat_raw_fits(normal_rhs(diag, low2, p2, i)));
        assert(rat_raw_fits(rat_mul(diag[i], p2[i])));
    }
    assert forall|i: int| 0 <= i < diag.len() implies rat_raw_fits(
        #[trigger] rat_mul(low2[i], p2[i + 2]),
    ) by {
        assert(rat_raw_fits(normal_rhs(diag, low2, p2, i)));
        assert(rat_raw_fits(rat_mul(low2[i], p2[i + 2])));
    }
    assert forall|i: int| 0 <= i < diag.len() implies rat_raw_fits(
        #[trigger] normal_rhs(diag, low2, p2, i),
    ) by {
        assert(rat_raw_fits(normal_rhs(diag, low2, p2, i)));
    }
    assert(tdma_ok(
        normal_up_seq(diag, low2),
        normal_dm_seq(diag, low2),
        normal_up_seq(diag, low2),
        normal_rhs_seq(diag, low2, p2),
    ));
    assert(from_parent_ok(diag, low2, p2));
}

impl StencilChebyshev {
    /// The stencil is consistent: composite size `m = n - 2` and both
    /// bands have length `m`, with well-formed entries.
    pub open spec fn wf(self) -> bool {
        self.m >= 1 && self.m + 2 == self.n && self.diag@.len() == self.m as int
            && self.low2@.len() == self.m as int && all_wf(self.diag@) && all_wf(self.low2@)
    }

    /// Return size of composite space (number of coefficients) from size
    /// in parent space.
    pub fn get_m(n: usize) -> (m: usize)
        requires
            n >= 2,
        ensures
            m == n - 2,
    {
        n - 2
    }

    /// Stencil of the Chebyshev-Dirichlet composite space:
    /// `phi_k = T_k - T_{k+2}`, so the main diagonal is `1` and the
    /// subdiagonal is `-1`.
    pub fn dirichlet(n: usize) -> (r: StencilChebyshev)
        requires
            3 <= n,
        ensures
            r.wf(),
            r.n == n,
            r.m == n - 2,
            forall|k: int| 0 <= k < r.m as int ==> #[trigger] rats(r.diag@)[k] == rat_int(1),
            forall|k: int| 0 <= k < r.m as int ==> #[trigger] rats(r.low2@)[k] == rat_int(-1),
    {
        let m: usize = Self::get_m(n);
        let mut diag: Vec<Rational> = Vec::new();
        let mut low2: Vec<Rational> = Vec::new();
        let mut k: usize = 0;
        while k < m
        invariant
            0 <= k <= m,
            diag@.len() == k as int,
            low2@.len() == k as int,
            forall|t: int|
                0 <= t < k as int ==> (#[trigger] diag@[t]).wf() && diag@[t]@ == rat_int(1),
            forall|t: int|
                0 <= t < k as int ==> (#[trigger] low2@[t]).wf() && low2@[t]@ == rat_int(-1),
        decreases m - k,
        {
            diag.push(Rational::from_i64(1));
            low2.push(Rational::from_i64(-1));
            k = k + 1;
        }
        StencilChebyshev { n, m, diag, low2 }
    }

    /// Stencil of the Chebyshev-Neumann composite space:
    /// `phi_k = T_k - (k^2 / (k+2)^2) T_{k+2}`.
    pub fn neumann(n: usize) -> (r: StencilChebyshev)
        requires
            3 <= n,
            n <= 0x4000_0000,
        ensures
            r.wf(),
            r.n == n,
            r.m == n - 2,
            forall|k: int| 0 <= k < r.m as int ==> #[trigger] rats(r.diag@)[k] == rat_int(1),
            forall|k: int|
                0 <= k < r.m as int ==> rat_eqv(
                    #[trigger] rats(r.low2@)[k],
                    Rat { n: -(k * k), d: (k + 2) * (k + 2) },
                ),
    {
        let m: usize = Self::get_m(n);
        let mut diag: Vec<Rational> = Vec::new();
        let mut low2: Vec<Rational> = Vec::new();
        let mut k: usize = 0;
        while k < m
        invariant
            0 <= k <= m,
            m < 0x4000_0000,
            diag@.len() == k as int,
            low2@.len() == k as int,
            forall|t: int|
                0 <= t < k as int ==> (#[trigger] diag@[t]).wf() && diag@[t]@ == rat_int(1),
            forall|t: int|
                0 <= t < k as int ==> (#[trigger] low2@[t]).wf() && rat_eqv(
                    low2@[t]@,
                    Rat { n: -(t * t), d: (t + 2) * (t + 2) },
                ),
        decreases m - k,
        {
            diag.push(Rational::from_i64(1));
            let kk: i64 = k as i64;
            proof {
                assert((kk + 2) * (kk + 2) <= 0x7fff_ffff_ffff_ffff && kk * kk
                    <= 0x7fff_ffff_ffff_ffff && (kk + 2) * (kk + 2) > 0) by (nonlinear_arith)
                    requires
                        0 <= kk < 0x4000_0000,
                ;
            }
            let num: i64 = -(kk * kk);
            let den: i64 = (kk + 2) * (kk + 2);
            let v: Rational = match Rational::new(num, den) {
                Some(v) => v,
                None => {
                    // `den` is positive, so this branch is unreachable.
                    proof {
                        assert(false);
                    }
                    Rational::zero()
                },
            };
            low2.push(v);
            k = k + 1;
        }
        StencilChebyshev { n, m, diag, low2 }
    }

    /// Multiply the stencil with a composite-space vector, yielding the
    /// parent-space vector `S c`.
    pub fn to_parent(&self, composite: &Vec<Rational>) -> (r: Option<Vec<Rational>>)
        requires
            self.wf(),
            composite@.len() == self.m as int,
            all_wf(composite@),
        ensures
            r matches Some(p) ==> p@.len() == self.n as int && all_wf(p@) && forall|i: int|
                0 <= i < self.n as int ==> rat_eqv(
                    #[trigger] rats(p@)[i],
                    stencil_apply(rats(self.diag@), rats(self.low2@), rats(composite@), i),
                ) && rat_scales_to(
                    rats(p@)[i],
                    stencil_apply(rats(self.diag@), rats(self.low2@), rats(composite@), i),
                ),
            stencil_apply_fits(
                rats(self.diag@),
                rats(self.low2@),
                rats(composite@),
                self.n as int,
            ) ==> r is Some,
    {
        let ghost rd = rats(self.diag@);
        let ghost rl = rats(self.low2@);
        let ghost rc = rats(composite@);
        let n: usize = self.n;
        let m: usize = self.m;
        let mut out: Vec<Rational> = Vec::new();
        let mut i: usize = 0;
        while i < n
            invariant
                0 <= i <= n,
                self.wf(),
                n == self.n,
                m == self.m,
                composite@.len() == m as int,
                all_wf(composite@),
                rd == rats(self.diag@),
                rl == rats(self.low2@),
                rc == rats(composite@),
                out@.len() == i as int,
                all_wf(out@),
                forall|t: int|
                    0 <= t < i as int ==> rat_eqv(
                        (#[trigger] out@[t])@,
                        stencil_apply(rd, rl, rc, t),
                    ) && rat_scales_to(out@[t]@, stencil_apply(rd, rl, rc, t)),
            decreases n - i,
        {
            let ghost gi = i as int;
            let main: Rational = if i < m {
                match self.diag[i].mul(&composite[i]) {
                    Some(q) => q,
                    None => {
                        // The diagonal term at this row does not fit.
                        proof {
                            if stencil_apply_fits(rd, rl, rc, n as int) {
                                assert(rat_raw_fits(stencil_apply(rd, rl, rc, gi)));
                                assert(rat_raw_fits(rat_mul(rd[gi], rc[gi])));
                            }
                        }
                        return None;
                    },
                }
            } else {
                Rational::zero()
            };
            let lowt: Rational = if i >= 2 {
                match self.low2[i - 2].mul(&composite[i - 2]) {
                    Some(q) => q,
                    None => {
                        // The subdiagonal term at this row does not fit.
                        proof {
                            if stencil_apply_fits(rd, rl, rc, n as int) {
                                assert(rat_raw_fits(stencil_apply(rd, rl, rc, gi)));
                                assert(rat_raw_fits(rat_mul(rl[gi - 2], rc[gi - 2])));
                            }
                        }
                        return None;
                    },
                }
            } else {
                Rational::zero()
            };
            let v: Rational = match main.add(&lowt) {
                Some(q) => q,
                None => {
                    // The row sum does not fit.
                    proof {
                        if stencil_apply_fits(rd, rl, rc, n as int) {
                            assert(rat_raw_fits(stencil_apply(rd, rl, rc, gi)));
                            let smain = term_or_zero(gi < rc.len(), rat_mul(rd[gi], rc[gi]));
                            let slow = term_or_zero(gi >= 2, rat_mul(rl[gi - 2], rc[gi - 2]));
                            main.lemma_wf_view();
                            lowt.lemma_wf_view();
                            if gi < rc.len() {
                                self.diag@[gi].lemma_wf_view();
                                composite@[gi].lemma_wf_view();
                            }
                            if gi >= 2 {
                                self.low2@[gi - 2].lemma_wf_view();
                                composite@[gi - 2].lemma_wf_view();
                            }
                            assert(rat_scales_to(main@, smain)) by {
                                if gi < rc.len() {
                                } else {
                                    lemma_scales_self(main@);
                                }
                            }
                            assert(rat_scales_to(lowt@, slow)) by {
                                if gi >= 2 {
                                } else {
                                    lemma_scales_self(lowt@);
                                }
                            }
                            lemma_scales_add(main@, smain, lowt@, slow);
                            lemma_scales_fits(rat_add(main@, lowt@), rat_add(smain, slow));
                        }
                    }
                    return None;
                },
            };
            proof {
                let smain = term_or_zero(gi < rc.len(), rat_mul(rd[gi], rc[gi]));
                let slow = term_or_zero(gi >= 2, rat_mul(rl[gi - 2], rc[gi - 2]));
                main.lemma_wf_view();
                lowt.lemma_wf_view();
                v.lemma_wf_view();
                if gi < rc.len() {
                    self.diag@[gi].lemma_wf_view();
                    composite@[gi].lemma_wf_view();
                }
                if gi >= 2 {
                    self.low2@[gi - 2].lemma_wf_view();
                    composite@[gi - 2].lemma_wf_view();
                }
                assert(rat_eqv(main@, smain));
                assert(rat_eqv(lowt@, slow));
                lemma_add_congruence(main@, smain, lowt@, slow);
                lemma_eqv_trans(v@, rat_add(main@, lowt@), rat_add(smain, slow));
                assert(rat_scales_to(main@, smain)) by {
                    if gi < rc.len() {
                    } else {
                        lemma_scales_self(main@);
                    }
                }
                assert(rat_scales_to(lowt@, slow)) by {
                    if gi >= 2 {
                    } else {
                        lemma_scales_self(lowt@);
                    }
                }
                lemma_scales_add(main@, smain, lowt@, slow);
                crate::rational::lemma_scales_trans(
                    v@,
                    rat_add(main@, lowt@),
                    rat_add(smain, slow),
                );
            }
            out.push(v);
            i = i + 1;
        }
        Some(out)
    }

    /// Multiply the inverse of the stencil with a parent-space vector.
    ///
    /// This solves the normal equations `(S^T S) c = S^T p` (the
    /// least-squares preimage) rather than forming an inverse; the
    /// returned vector exactly satisfies them.
    pub fn from_parent(&self, parent: &Vec<Rational>) -> (r: Option<Vec<Rational>>)
        requires
            self.wf(),
            // The tridiagonal elimination works on at least two
            // composite coefficients.
            self.m >= 2,
            parent@.len() == self.n as int,
            all_wf(parent@),
        ensures
            r matches Some(c) ==> c@.len() == self.m as int && all_wf(c@) && forall|i: int|
                0 <= i < self.m as int ==> rat_eqv(
                    #[trigger] normal_apply(rats(self.diag@), rats(self.low2@), rats(c@), i),
                    normal_rhs(rats(self.diag@), rats(self.low2@), rats(parent@), i),
                ),
            from_parent_ok(rats(self.diag@), rats(self.low2@), rats(parent@)) ==> r is Some,
    {
        let ghost rd = rats(self.diag@);
        let ghost rl = rats(self.low2@);
        let ghost rp = rats(parent@);
        let m: usize = self.m;
        // Main diagonal and off diagonal of the symmetric normal matrix.
        let mut dm: Vec<Rational> = Vec::new();
        let mut i: usize = 0;
        while i < m
            invariant
                0 <= i <= m,
                self.wf(),
                m == self.m,
                rd == rats(self.diag@),
                rl == rats(self.low2@),
                rp == rats(parent@),
                all_wf(parent@),
                dm@.len() == i as int,
                all_wf(dm@),
                forall|t: int|
                    0 <= t < i as int ==> rat_eqv((#[trigger] dm@[t])@, stn_dmain(rd, rl, t))
                        && rat_scales_to(dm@[t]@, stn_dmain(rd, rl, t)),
            decreases m - i,
        {
            let ghost gi = i as int;
            let d2: Rational = match self.diag[i].mul(&self.diag[i]) {
                Some(q) => q,
                None => {
                    // The squared diagonal entry does not fit.
                    proof {
                        if from_parent_ok(rd, rl, rp) {
                            assert(rat_raw_fits(stn_dmain(rd, rl, gi)));
                            assert(rat_raw_fits(rat_mul(rd[gi], rd[gi])));
                        }
                    }
                    return None;
                },
            };
            let l2: Rational = match self.low2[i].mul(&self.low2[i]) {
                Some(q) => q,
                None => {
                    // The squared subdiagonal entry does not fit.
                    proof {
                        if from_parent_ok(rd, rl, rp) {
                            assert(rat_raw_fits(stn_dmain(rd, rl, gi)));
                            assert(rat_raw_fits(rat_mul(rl[gi], rl[gi])));
                        }
                    }
                    return None;
                },
            };
            let v: Rational = match d2.add(&l2) {
                Some(q) => q,
                None => {
                    // The normal-matrix diagonal entry does not fit.
                    proof {
                        if from_parent_ok(rd, rl, rp) {
                            assert(rat_raw_fits(stn_dmain(rd, rl, gi)));
                            d2.lemma_wf_view();
                            l2.lemma_wf_view();
                            crate::rational::lemma_scales_add(
                                d2@,
                                rat_mul(rd[gi], rd[gi]),
                                l2@,
                                rat_mul(rl[gi], rl[gi]),
                            );
                            crate::rational::lemma_scales_fits(
                                rat_add(d2@, l2@),
                                stn_dmain(rd, rl, gi),
                            );
                        }
                    }
                    return None;
                },
            };
            proof {
                self.diag@[gi].lemma_wf_view();
                self.low2@[gi].lemma_wf_view();
                d2.lemma_wf_view();
                l2.lemma_wf_view();
                v.lemma_wf_view();
                lemma_add_congruence(
                    d2@,
                    rat_mul(rd[gi], rd[gi]),
                    l2@,
                    rat_mul(rl[gi], rl[gi]),
                );
                lemma_eqv_trans(v@, rat_add(d2@, l2@), stn_dmain(rd, rl, gi));
                crate::rational::lemma_scales_add(
                    d2@,
                    rat_mul(rd[gi], rd[gi]),
                    l2@,
                    rat_mul(rl[gi], rl[gi]),
                );
                crate::rational::lemma_scales_trans(
                    v@,
                    rat_add(d2@, l2@),
                    stn_dmain(rd, rl, gi),
                );
            }
            dm.push(v);
            i = i + 1;
        }
        let mut up: Vec<Rational> = Vec::new();
        let mut j: usize = 0;
        while j + 2 < m
            invariant
                0 <= j,
                j <= m,
                j + 2 <= m,
                self.wf(),
                m == self.m,
                rd == rats(self.diag@),
                rl == rats(self.low2@),
                rp == rats(parent@),
                all_wf(parent@),
                up@.len() == j as int,
                all_wf(up@),
                forall|t: int|
                    0 <= t < j as int ==> rat_eqv((#[trigger] up@[t])@, stn_upper(rd, rl, t))
                        && rat_scales_to(up@[t]@, stn_upper(rd, rl, t)),
            decreases m - j,
        {
            let ghost gj = j as int;
            let v: Rational = match self.diag[j + 2].mul(&self.low2[j]) {
                Some(q) => q,
                None => {
                    // The normal-matrix off-diagonal entry does not fit.
                    proof {
                        if from_parent_ok(rd, rl, rp) {
                            assert(rat_raw_fits(stn_upper(rd, rl, gj)));
                        }
                    }
                    return None;
                },
            };
            proof {
                self.diag@[gj + 2].lemma_wf_view();
                self.low2@[gj].lemma_wf_view();
                v.lemma_wf_view();
            }
            up.push(v);
            j = j + 1;
        }
        // Right-hand side S^T p.
        let mut rhs: Vec<Rational> = Vec::new();
        let mut k: usize = 0;
        while k < m
            invariant
                0 <= k <= m,
                self.wf(),
                m == self.m,
                parent@.len() == self.n as int,
                all_wf(parent@),
                rd == rats(self.diag@),
                rl == rats(self.low2@),
                rp == rats(parent@),
                all_wf(parent@),
                rp == rats(parent@),
                rhs@.len() == k as int,
                all_wf(rhs@),
                forall|t: int|
                    0 <= t < k as int ==> rat_eqv((#[trigger] rhs@[t])@, normal_rhs(rd, rl, rp, t))
                        && rat_scales_to(rhs@[t]@, normal_rhs(rd, rl, rp, t)),
            decreases m - k,
        {
            let ghost gk = k as int;
            let t1: Rational = match self.diag[k].mul(&parent[k]) {
                Some(q) => q,
                None => {
                    // The diagonal right-hand-side term does not fit.
                    proof {
                        if from_parent_ok(rd, rl, rp) {
                            assert(rat_raw_fits(normal_rhs(rd, rl, rp, gk)));
                            assert(rat_raw_fits(rat_mul(rd[gk], rp[gk])));
                        }
                    }
                    return None;
                },
            };
            let t2: Rational = match self.low2[k].mul(&parent[k + 2]) {
                Some(q) => q,
                None => {
                    // The subdiagonal right-hand-side term does not fit.
                    proof {
                        if from_parent_ok(rd, rl, rp) {
                            assert(rat_raw_fits(normal_rhs(rd, rl, rp, gk)));
                            assert(rat_raw_fits(rat_mul(rl[gk], rp[gk + 2])));
                        }
                    }
                    return None;
                },
            };
            let v: Rational = match t1.add(&t2) {
                Some(q) => q,
                None => {
                    // The right-hand-side entry does not fit.
                    proof {
                        if from_parent_ok(rd, rl, rp) {
                            assert(rat_raw_fits(normal_rhs(rd, rl, rp, gk)));
                            t1.lemma_wf_view();
                            t2.lemma_wf_view();
                            crate::rational::lemma_scales_add(
                                t1@,
                                rat_mul(rd[gk], rp[gk]),
                                t2@,
                                rat_mul(rl[gk], rp[gk + 2]),
                            );
                            crate::rational::lemma_scales_fits(
                                rat_add(t1@, t2@),
                                normal_rhs(rd, rl, rp, gk),
                            );
                        }
                    }
                    return None;
                },
            };
            proof {
                self.diag@[gk].lemma_wf_view();
                self.low2@[gk].lemma_wf_view();
                parent@[gk].lemma_wf_view();
                parent@[gk + 2].lemma_wf_view();
                t1.lemma_wf_view();
                t2.lemma_wf_view();
                v.lemma_wf_view();
                lemma_add_congruence(
                    t1@,
                    rat_mul(rd[gk], rp[gk]),
                    t2@,
                    rat_mul(rl[gk], rp[gk + 2]),
                );
                lemma_eqv_trans(v@, rat_add(t1@, t2@), normal_rhs(rd, rl, rp, gk));
                crate::rational::lemma_scales_add(
                    t1@,
                    rat_mul(rd[gk], rp[gk]),
                    t2@,
                    rat_mul(rl[gk], rp[gk + 2]),
                );
                crate::rational::lemma_scales_trans(
                    v@,
                    rat_add(t1@, t2@),
                    normal_rhs(rd, rl, rp, gk),
                );
            }
            rhs.push(v);
            k = k + 1;
        }
        // Solve the tridiagonal system; the subdiagonal equals the off
        // diagonal because the normal matrix is symmetric.
        let x: Vec<Rational> = match tdma(&up, &dm, &up, &rhs) {
            Some(q) => q,
            None => {
                // The stored bands only shrink the assembled system, so
                // the elimination condition carries over to them.
                proof {
                    if from_parent_ok(rd, rl, rp) {
                        let sup = normal_up_seq(rd, rl);
                        let sdm = normal_dm_seq(rd, rl);
                        let srh = normal_rhs_seq(rd, rl, rp);
                        lemma_all_wf_views(up@);
                        lemma_all_wf_views(dm@);
                        lemma_all_wf_views(rhs@);
                        lemma_all_wf_views(self.diag@);
                        lemma_all_wf_views(self.low2@);
                        lemma_all_wf_views(parent@);
                        assert forall|t: int| 0 <= t < sdm.len() implies rat_wf(
                            #[trigger] sdm[t],
                        ) && rat_raw_fits(stn_dmain(rd, rl, t)) by {}
                        assert forall|t: int| 0 <= t < sup.len() implies rat_wf(
                            #[trigger] sup[t],
                        ) by {}
                        assert forall|t: int| 0 <= t < srh.len() implies rat_wf(
                            #[trigger] srh[t],
                        ) by {}
                        assert forall|t: int| 0 <= t < sdm.len() implies rat_scales_to(
                            #[trigger] rats(dm@)[t],
                            sdm[t],
                        ) by {
                            assert(rats(dm@)[t] == dm@[t]@);
                        }
                        assert forall|t: int| 0 <= t < sup.len() implies rat_scales_to(
                            #[trigger] rats(up@)[t],
                            sup[t],
                        ) by {
                            assert(rats(up@)[t] == up@[t]@);
                        }
                        assert forall|t: int| 0 <= t < srh.len() implies rat_scales_to(
                            #[trigger] rats(rhs@)[t],
                            srh[t],
                        ) by {
                            assert(rats(rhs@)[t] == rhs@[t]@);
                        }
                        lemma_tdma_ok_scaled(
                            rats(up@),
                            sup,
                            rats(dm@),
                            sdm,
                            rats(up@),
                            sup,
                            rats(rhs@),
                            srh,
                        );
                    }
                }
                return None;
            },
        };
        proof {
            let ru = rats(up@);
            let rdm = rats(dm@);
            let rx = rats(x@);
            let rr = rats(rhs@);
            assert forall|i2: int| 0 <= i2 < self.m as int implies rat_eqv(
                #[trigger] normal_apply(rd, rl, rx, i2),
                normal_rhs(rd, rl, rp, i2),
            ) by {
                lemma_all_wf_views(x@);
                lemma_all_wf_views(up@);
                lemma_all_wf_views(dm@);
                lemma_all_wf_views(rhs@);
                lemma_all_wf_views(self.diag@);
                lemma_all_wf_views(self.low2@);
                lemma_all_wf_views(parent@);
                let slow = term_or_zero(i2 >= 2, rat_mul(stn_upper(rd, rl, i2 - 2), rx[i2 - 2]));
                let smid = rat_mul(stn_dmain(rd, rl, i2), rx[i2]);
                let shigh = term_or_zero(
                    i2 + 2 < rx.len(),
                    rat_mul(stn_upper(rd, rl, i2), rx[i2 + 2]),
                );
                let tlow = term_or_zero(i2 >= 2, rat_mul(ru[i2 - 2], rx[i2 - 2]));
                let tmid = rat_mul(rdm[i2], rx[i2]);
                let thigh = term_or_zero(i2 + 2 < rx.len(), rat_mul(ru[i2], rx[i2 + 2]));
                if i2 >= 2 {
                    lemma_mul_congruence(
                        ru[i2 - 2],
                        stn_upper(rd, rl, i2 - 2),
                        rx[i2 - 2],
                        rx[i2 - 2],
                    );
                }
                lemma_mul_congruence(rdm[i2], stn_dmain(rd, rl, i2), rx[i2], rx[i2]);
                if i2 + 2 < rx.len() {
                    lemma_mul_congruence(ru[i2], stn_upper(rd, rl, i2), rx[i2 + 2], rx[i2 + 2]);
                }
                lemma_add2_congruence(tlow, slow, tmid, smid, thigh, shigh);
                lemma_eqv_sym(rat_add(rat_add(tlow, tmid), thigh), rat_add(rat_add(slow, smid), shigh));
                lemma_eqv_trans(
                    normal_apply(rd, rl, rx, i2),
                    tri_apply(ru, rdm, ru, rx, i2),
                    rr[i2],
                );
                lemma_eqv_trans(normal_apply(rd, rl, rx, i2), rr[i2], normal_rhs(rd, rl, rp, i2));
            }
        }
        Some(x)
    }
}

proof fn lemma_stencil_injective_at(diag: Seq<Rat>, low2: Seq<Rat>, c1: Seq<Rat>, c2: Seq<Rat>, i: int)
    requires
        all_rat_wf(diag),
        all_rat_wf(low2),
        all_rat_wf(c1),
        all_rat_wf(c2),
        c1.len() == c2.len(),
        diag.len() == c1.len(),
        low2.len() == c1.len(),
        forall|t: int| 0 <= t < diag.len() ==> !crate::rational::rat_is_zero(#[trigger] diag[t]),
        forall|t: int|
            0 <= t < c1.len() ==> rat_eqv(
                #[trigger] stencil_apply(diag, low2, c1, t),
                stencil_apply(diag, low2, c2, t),
            ),
        0 <= i < c1.len(),
    ensures
        rat_eqv(c1[i], c2[i]),
    decreases i,
{
    let lo1 = term_or_zero(i >= 2, rat_mul(low2[i - 2], c1[i - 2]));
    let lo2 = term_or_zero(i >= 2, rat_mul(low2[i - 2], c2[i - 2]));
    if i >= 2 {
        lemma_stencil_injective_at(diag, low2, c1, c2, i - 2);
        lemma_mul_congruence(low2[i - 2], low2[i - 2], c1[i - 2], c2[i - 2]);
    }
    assert(rat_eqv(lo1, lo2));
    // Row `i` of the stencil holds the diagonal term plus the low term;
    // cancel the low term, then the nonzero diagonal factor.
    assert(rat_eqv(stencil_apply(diag, low2, c1, i), stencil_apply(diag, low2, c2, i)));
    assert(rat_eqv(
        rat_add(rat_mul(diag[i], c1[i]), lo1),
        rat_add(rat_mul(diag[i], c2[i]), lo2),
    ));
    crate::rational::lemma_add_cancel(
        rat_mul(diag[i], c1[i]),
        rat_mul(diag[i], c2[i]),
        lo1,
        lo2,
    );
    crate::rational::lemma_mul_cancel(diag[i], c1[i], c2[i]);
}

/// The stencil is injective: two composite-space vectors with the same
/// parent-space image are equal, value by value. Together with the
/// contract of `from_parent` — its result satisfies the normal
/// equations of the stencil — this pins the `to_parent`/`from_parent`
/// round trip down to the unique preimage.
pub proof fn lemma_to_parent_injective(
    diag: Seq<Rat>,
    low2: Seq<Rat>,
    c1: Seq<Rat>,
    c2: Seq<Rat>,
)
    requires
        all_rat_wf(diag),
        all_rat_wf(low2),
        all_rat_wf(c1),
        all_rat_wf(c2),
        c1.len() == c2.len(),
        diag.len() == c1.len(),
        low2.len() == c1.len(),
        forall|t: int| 0 <= t < diag.len() ==> !crate::rational::rat_is_zero(#[trigger] diag[t]),
        forall|t: int|
            0 <= t < c1.len() ==> rat_eqv(
                #[trigger] stencil_apply(diag, low2, c1, t),
                stencil_apply(diag, low2, c2, t),
            ),
    ensures
        seq_eqv(c1, c2),
{
    assert forall|i: int| 0 <= i < c1.len() implies rat_eqv(#[trigger] c1[i], c2[i]) by {
        lemma_stencil_injective_at(diag, low2, c1, c2, i);
    }
}

/// Every entry of a well-formed vector has a well-formed value; stated
/// over the whole sequence for use inside quantified proofs.
pub proof fn lemma_all_wf_views(s: Seq<Rational>)
    requires
        all_wf(s),
    ensures
        forall|i: int| 0 <= i < s.len() ==> rat_wf(#[trigger] rats(s)[i]),
{
    assert forall|i: int| 0 <= i < s.len() implies rat_wf(#[trigger] rats(s)[i]) by {
        s[i].lemma_wf_view();
    }
}

} // verus!
