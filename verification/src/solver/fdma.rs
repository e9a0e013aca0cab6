//! Four-diagonal banded solver: a real matrix with nonzero diagonals at
//! offsets `-2, 0, 2, 4`, factorized once by a forward sweep and then
//! solved repeatedly for different right-hand sides.
//!
//! A returned solution is exact: before it is handed out, it is checked
//! entry by entry against the original bands, so the solver's contract
//! does not depend on the elimination algebra. The flip side of that
//! design is that `sweep` and `solve` state what a returned
//! factorization or solution satisfies, not when one is owed: a
//! guarantee of success would amount to verifying the elimination
//! algebra itself, which this crate instead checks exactly at run time.
//! Construction and combination (`from_matrix`, `add_scaled`) do carry
//! exact success conditions.
use crate::bases::chebyshev::lemma_all_wf_update;
use crate::linalg::{all_wf, rat_dot, rats, Matrix};
use crate::rational::{
    lemma_add3_congruence, lemma_eqv_sym, lemma_eqv_trans, lemma_scales_add, lemma_scales_fits,
    lemma_scales_self, rat_add, rat_eqv, rat_is_zero, rat_mul, rat_raw_fits, rat_scales_to, rat_wf,
    term_or_zero, Rat, Rational,
};
use vstd::prelude::*;

verus! {

broadcast use crate::rational::lemma_add_wf, crate::rational::lemma_mul_wf,
    crate::rational::lemma_neg_wf, crate::rational::lemma_term_or_zero_wf;

/// Row `i` of the four-diagonal system applied to `x`: the bands sit at
/// offsets `-2, 0, 2, 4`.
pub open spec fn fdma_apply(
    low2: Seq<Rat>,
    diag: Seq<Rat>,
    up2: Seq<Rat>,
    up4: Seq<Rat>,
    x: Seq<Rat>,
    i: int,
) -> Rat {
    rat_add(
        rat_add(
            rat_add(term_or_zero(i >= 2, rat_mul(low2[i - 2], x[i - 2])), rat_mul(diag[i], x[i])),
            term_or_zero(i + 2 < x.len(), rat_mul(up2[i], x[i + 2])),
        ),
        term_or_zero(i + 4 < x.len(), rat_mul(up4[i], x[i + 4])),
    )
}

/// Row `i` of the banded application, restricted to the band positions
/// below `t`: the prefix of the row that a partial inner product has
/// already covered.
pub open spec fn fdma_apply_upto(
    low2: Seq<Rat>,
    diag: Seq<Rat>,
    up2: Seq<Rat>,
    up4: Seq<Rat>,
    x: Seq<Rat>,
    i: int,
    t: int,
) -> Rat {
    rat_add(
        rat_add(
            rat_add(
                term_or_zero(i >= 2 && i - 2 < t, rat_mul(low2[i - 2], x[i - 2])),
                term_or_zero(i < t, rat_mul(diag[i], x[i])),
            ),
            term_or_zero(i + 2 < x.len() && i + 2 < t, rat_mul(up2[i], x[i + 2])),
        ),
        term_or_zero(i + 4 < x.len() && i + 4 < t, rat_mul(up4[i], x[i + 4])),
    )
}

/// The inner product of a dense row with `x` equals the banded
/// application, when the row agrees with the four bands and vanishes
/// off them: the dense statement `M x = b`, row by row, follows from
/// the banded one.
pub proof fn lemma_dot_of_banded_row(
    row: Seq<Rat>,
    low2: Seq<Rat>,
    diag: Seq<Rat>,
    up2: Seq<Rat>,
    up4: Seq<Rat>,
    x: Seq<Rat>,
    i: int,
)
    requires
        crate::linalg::all_rat_wf(row),
        crate::linalg::all_rat_wf(low2),
        crate::linalg::all_rat_wf(diag),
        crate::linalg::all_rat_wf(up2),
        crate::linalg::all_rat_wf(up4),
        crate::linalg::all_rat_wf(x),
        row.len() == x.len(),
        diag.len() == x.len(),
        low2.len() + 2 == x.len(),
        up2.len() + 2 == x.len(),
        up4.len() + 4 == x.len(),
        0 <= i < x.len(),
        i >= 2 ==> row[i - 2] == low2[i - 2],
        row[i] == diag[i],
        i + 2 < x.len() ==> row[i + 2] == up2[i],
        i + 4 < x.len() ==> row[i + 4] == up4[i],
        forall|j: int|
            0 <= j < row.len() && j != i - 2 && j != i && j != i + 2 && j != i + 4
                ==> rat_is_zero(#[trigger] row[j]),
    ensures
        rat_eqv(rat_dot(row, x), fdma_apply(low2, diag, up2, up4, x, i)),
{
    let n = x.len() as int;
    lemma_dot_of_banded_row_upto(row, low2, diag, up2, up4, x, i, n);
    assert(row.take(n) =~= row);
    assert(x.take(n) =~= x);
    assert(fdma_apply_upto(low2, diag, up2, up4, x, i, n) == fdma_apply(
        low2,
        diag,
        up2,
        up4,
        x,
        i,
    ));
}

proof fn lemma_dot_of_banded_row_upto(
    row: Seq<Rat>,
    low2: Seq<Rat>,
    diag: Seq<Rat>,
    up2: Seq<Rat>,
    up4: Seq<Rat>,
    x: Seq<Rat>,
    i: int,
    t: int,
)
    requires
        crate::linalg::all_rat_wf(row),
        crate::linalg::all_rat_wf(low2),
        crate::linalg::all_rat_wf(diag),
        crate::linalg::all_rat_wf(up2),
        crate::linalg::all_rat_wf(up4),
        crate::linalg::all_rat_wf(x),
        row.len() == x.len(),
        diag.len() == x.len(),
        low2.len() + 2 == x.len(),
        up2.len() + 2 == x.len(),
        up4.len() + 4 == x.len(),
        0 <= i < x.len(),
        0 <= t <= x.len(),
        i >= 2 ==> row[i - 2] == low2[i - 2],
        row[i] == diag[i],
        i + 2 < x.len() ==> row[i + 2] == up2[i],
        i + 4 < x.len() ==> row[i + 4] == up4[i],
        forall|j: int|
            0 <= j < row.len() && j != i - 2 && j != i && j != i + 2 && j != i + 4
                ==> rat_is_zero(#[trigger] row[j]),
    ensures
        rat_eqv(
            rat_dot(row.take(t), x.take(t)),
            fdma_apply_upto(low2, diag, up2, up4, x, i, t),
        ),
    decreases t,
{
    lemma_fdma_apply_upto_wf(low2, diag, up2, up4, x, i, t);
    if t == 0 {
        assert(rat_dot(row.take(0), x.take(0)) == crate::rational::rat_int(0));
    } else {
        lemma_dot_of_banded_row_upto(row, low2, diag, up2, up4, x, i, t - 1);
        lemma_fdma_apply_upto_wf(low2, diag, up2, up4, x, i, t - 1);
        crate::linalg::lemma_rat_dot_take_step(row, x, t - 1);
        crate::linalg::lemma_all_rat_wf_take(row, t - 1);
        crate::linalg::lemma_all_rat_wf_take(x, t - 1);
        crate::linalg::lemma_rat_dot_wf(row.take(t - 1), x.take(t - 1));
        crate::linalg::lemma_all_rat_wf_take(row, t);
        crate::linalg::lemma_all_rat_wf_take(x, t);
        crate::linalg::lemma_rat_dot_wf(row.take(t), x.take(t));
        let prev = fdma_apply_upto(low2, diag, up2, up4, x, i, t - 1);
        let step = rat_mul(row[t - 1], x[t - 1]);
        // dot(take t) = dot(take t-1) + row[t-1] x[t-1], and the new term
        // is either the next band term or zero.
        crate::rational::lemma_add_congruence(
            rat_dot(row.take(t - 1), x.take(t - 1)),
            prev,
            step,
            step,
        );
        if t - 1 == i - 2 || t - 1 == i || (t - 1 == i + 2 && i + 2 < x.len()) || (t - 1 == i + 4
            && i + 4 < x.len()) {
            // The band slots above t-1 are still zero, so the partial
            // chains on both sides collapse to the filled prefix and the
            // new term slots in exactly.
            lemma_upto_extend_band(low2, diag, up2, up4, x, i, t - 1);
            crate::rational::lemma_eqv_trans(
                rat_dot(row.take(t), x.take(t)),
                rat_add(prev, step),
                fdma_apply_upto(low2, diag, up2, up4, x, i, t),
            );
        } else {
            assert(rat_is_zero(row[t - 1]));
            crate::rational::lemma_mul_by_zero(row[t - 1], x[t - 1]);
            crate::rational::lemma_add_zero(prev, step);
            assert(fdma_apply_upto(low2, diag, up2, up4, x, i, t) == prev);
            crate::rational::lemma_eqv_trans(
                rat_dot(row.take(t), x.take(t)),
                rat_add(prev, step),
                prev,
            );
        }
    }
}

proof fn lemma_fdma_apply_upto_wf(
    low2: Seq<Rat>,
    diag: Seq<Rat>,
    up2: Seq<Rat>,
    up4: Seq<Rat>,
    x: Seq<Rat>,
    i: int,
    t: int,
)
    requires
        crate::linalg::all_rat_wf(low2),
        crate::linalg::all_rat_wf(diag),
        crate::linalg::all_rat_wf(up2),
        crate::linalg::all_rat_wf(up4),
        crate::linalg::all_rat_wf(x),
        diag.len() == x.len(),
        low2.len() + 2 == x.len(),
        up2.len() + 2 == x.len(),
        up4.len() + 4 == x.len(),
        0 <= i < x.len(),
    ensures
        rat_wf(fdma_apply_upto(low2, diag, up2, up4, x, i, t)),
{
    if i >= 2 {
        assert(rat_wf(low2[i - 2]) && rat_wf(x[i - 2]));
    }
    assert(rat_wf(diag[i]) && rat_wf(x[i]));
    if i + 2 < x.len() {
        assert(rat_wf(up2[i]) && rat_wf(x[i + 2]));
    }
    if i + 4 < x.len() {
        assert(rat_wf(up4[i]) && rat_wf(x[i + 4]));
    }
}

proof fn lemma_collapse2(w: Rat)
    requires
        rat_wf(w),
    ensures
        rat_eqv(rat_add(rat_add(w, crate::rational::rat_int(0)), crate::rational::rat_int(0)), w),
        rat_wf(rat_add(rat_add(w, crate::rational::rat_int(0)), crate::rational::rat_int(0))),
{
    let zero = crate::rational::rat_int(0);
    crate::rational::lemma_add_zero(w, zero);
    crate::rational::lemma_add_zero(rat_add(w, zero), zero);
    crate::rational::lemma_eqv_trans(rat_add(rat_add(w, zero), zero), rat_add(w, zero), w);
}

proof fn lemma_upto_extend_band(
    low2: Seq<Rat>,
    diag: Seq<Rat>,
    up2: Seq<Rat>,
    up4: Seq<Rat>,
    x: Seq<Rat>,
    i: int,
    p: int,
)
    requires
        crate::linalg::all_rat_wf(low2),
        crate::linalg::all_rat_wf(diag),
        crate::linalg::all_rat_wf(up2),
        crate::linalg::all_rat_wf(up4),
        crate::linalg::all_rat_wf(x),
        diag.len() == x.len(),
        low2.len() + 2 == x.len(),
        up2.len() + 2 == x.len(),
        up4.len() + 4 == x.len(),
        0 <= i < x.len(),
        0 <= p < x.len(),
        p == i - 2 || p == i || (p == i + 2 && i + 2 < x.len()) || (p == i + 4 && i + 4 < x.len()),
    ensures
        rat_eqv(
            rat_add(
                fdma_apply_upto(low2, diag, up2, up4, x, i, p),
                rat_mul(
                    if p == i - 2 {
                        low2[i - 2]
                    } else if p == i {
                        diag[i]
                    } else if p == i + 2 {
                        up2[i]
                    } else {
                        up4[i]
                    },
                    x[p],
                ),
            ),
            fdma_apply_upto(low2, diag, up2, up4, x, i, p + 1),
        ),
{
    // Band slots at positions `>= p` are still zero in the prefix at
    // `p`; collapsing the trailing zeros turns both sides into the same
    // chain around the new term.
    let zero = crate::rational::rat_int(0);
    let upto_p = fdma_apply_upto(low2, diag, up2, up4, x, i, p);
    let upto_q = fdma_apply_upto(low2, diag, up2, up4, x, i, p + 1);
    if p == i - 2 {
        let m0 = rat_mul(low2[i - 2], x[i - 2]);
        assert(upto_p == rat_add(rat_add(rat_add(zero, zero), zero), zero));
        assert(upto_q == rat_add(rat_add(rat_add(m0, zero), zero), zero));
        crate::rational::lemma_add_zero(zero, zero);
        lemma_collapse2(rat_add(zero, zero));
        crate::rational::lemma_eqv_trans(upto_p, rat_add(zero, zero), zero);
        crate::rational::lemma_add_congruence(upto_p, zero, m0, m0);
        crate::rational::lemma_add_comm(zero, m0);
        crate::rational::lemma_add_zero(m0, zero);
        crate::rational::lemma_eqv_trans(rat_add(zero, m0), rat_add(m0, zero), m0);
        crate::rational::lemma_eqv_trans(rat_add(upto_p, m0), rat_add(zero, m0), m0);
        crate::rational::lemma_add_zero(m0, zero);
        lemma_collapse2(rat_add(m0, zero));
        crate::rational::lemma_eqv_trans(upto_q, rat_add(m0, zero), m0);
        crate::rational::lemma_eqv_sym(upto_q, m0);
        crate::rational::lemma_eqv_trans(rat_add(upto_p, m0), m0, upto_q);
    } else if p == i {
        let s1 = term_or_zero(i >= 2 && i - 2 < p, rat_mul(low2[i - 2], x[i - 2]));
        let m0 = rat_mul(diag[i], x[i]);
        assert(term_or_zero(i >= 2 && i - 2 < p + 1, rat_mul(low2[i - 2], x[i - 2])) == s1);
        assert(upto_p == rat_add(rat_add(rat_add(s1, zero), zero), zero));
        assert(upto_q == rat_add(rat_add(rat_add(s1, m0), zero), zero));
        crate::rational::lemma_add_zero(s1, zero);
        lemma_collapse2(rat_add(s1, zero));
        crate::rational::lemma_eqv_trans(upto_p, rat_add(s1, zero), s1);
        crate::rational::lemma_add_congruence(upto_p, s1, m0, m0);
        lemma_collapse2(rat_add(s1, m0));
        crate::rational::lemma_eqv_sym(upto_q, rat_add(s1, m0));
        crate::rational::lemma_eqv_trans(rat_add(upto_p, m0), rat_add(s1, m0), upto_q);
    } else if p == i + 2 {
        let s1 = term_or_zero(i >= 2 && i - 2 < p, rat_mul(low2[i - 2], x[i - 2]));
        let s2 = rat_mul(diag[i], x[i]);
        let w = rat_add(s1, s2);
        let m0 = rat_mul(up2[i], x[i + 2]);
        assert(term_or_zero(i >= 2 && i - 2 < p + 1, rat_mul(low2[i - 2], x[i - 2])) == s1);
        assert(term_or_zero(i < p, rat_mul(diag[i], x[i])) == s2);
        assert(term_or_zero(i < p + 1, rat_mul(diag[i], x[i])) == s2);
        assert(upto_p == rat_add(rat_add(w, zero), zero));
        assert(upto_q == rat_add(rat_add(w, m0), zero));
        lemma_collapse2(w);
        crate::rational::lemma_add_congruence(upto_p, w, m0, m0);
        crate::rational::lemma_add_zero(rat_add(w, m0), zero);
        crate::rational::lemma_eqv_sym(upto_q, rat_add(w, m0));
        crate::rational::lemma_eqv_trans(rat_add(upto_p, m0), rat_add(w, m0), upto_q);
    } else {
        let s1 = term_or_zero(i >= 2 && i - 2 < p, rat_mul(low2[i - 2], x[i - 2]));
        let s2 = rat_mul(diag[i], x[i]);
        let s3 = term_or_zero(i + 2 < x.len() && i + 2 < p, rat_mul(up2[i], x[i + 2]));
        let w = rat_add(rat_add(s1, s2), s3);
        let m0 = rat_mul(up4[i], x[i + 4]);
        assert(term_or_zero(i >= 2 && i - 2 < p + 1, rat_mul(low2[i - 2], x[i - 2])) == s1);
        assert(term_or_zero(i < p, rat_mul(diag[i], x[i])) == s2);
        assert(term_or_zero(i < p + 1, rat_mul(diag[i], x[i])) == s2);
        assert(term_or_zero(i + 2 < x.len() && i + 2 < p + 1, rat_mul(up2[i], x[i + 2])) == s3);
        assert(upto_p == rat_add(w, zero));
        assert(upto_q == rat_add(w, m0));
        crate::rational::lemma_add_zero(w, zero);
        crate::rational::lemma_add_congruence(upto_p, w, m0, m0);
    }
}

/// A row of a four-diagonal application over well-formed bands and
/// vector is well formed.
pub proof fn lemma_fdma_apply_wf(
    low2: Seq<Rat>,
    diag: Seq<Rat>,
    up2: Seq<Rat>,
    up4: Seq<Rat>,
    x: Seq<Rat>,
    i: int,
)
    requires
        crate::linalg::all_rat_wf(low2),
        crate::linalg::all_rat_wf(diag),
        crate::linalg::all_rat_wf(up2),
        crate::linalg::all_rat_wf(up4),
        crate::linalg::all_rat_wf(x),
        diag.len() == x.len(),
        low2.len() + 2 == x.len(),
        up2.len() + 2 == x.len(),
        up4.len() + 4 == x.len(),
        0 <= i < x.len(),
    ensures
        rat_wf(fdma_apply(low2, diag, up2, up4, x, i)),
{
    if i >= 2 {
        assert(rat_wf(low2[i - 2]) && rat_wf(x[i - 2]));
    }
    assert(rat_wf(diag[i]) && rat_wf(x[i]));
    if i + 2 < x.len() {
        assert(rat_wf(up2[i]) && rat_wf(x[i + 2]));
    }
    if i + 4 < x.len() {
        assert(rat_wf(up4[i]) && rat_wf(x[i + 4]));
    }
}

proof fn lemma_zero_term_split(s: Rat, p: Rat, q: Rat, lam: Rat)
    by (nonlinear_arith)
    requires
        s == crate::rational::rat_int(0),
        p == crate::rational::rat_int(0),
        q == crate::rational::rat_int(0),
        rat_wf(lam),
    ensures
        rat_eqv(s, rat_add(p, rat_mul(lam, q))),
{
}

/// Applying a combined band set `c ~ a + lam * b` to a vector equals
/// applying `a` and `b` separately: row by row,
/// `(A + lam C) x = A x + lam (C x)`.
pub proof fn lemma_fdma_apply_combined(
    cl: Seq<Rat>,
    cd: Seq<Rat>,
    cu2: Seq<Rat>,
    cu4: Seq<Rat>,
    al: Seq<Rat>,
    ad: Seq<Rat>,
    au2: Seq<Rat>,
    au4: Seq<Rat>,
    bl: Seq<Rat>,
    bd: Seq<Rat>,
    bu2: Seq<Rat>,
    bu4: Seq<Rat>,
    lam: Rat,
    x: Seq<Rat>,
    i: int,
)
    requires
        crate::linalg::all_rat_wf(cl),
        crate::linalg::all_rat_wf(cd),
        crate::linalg::all_rat_wf(cu2),
        crate::linalg::all_rat_wf(cu4),
        crate::linalg::all_rat_wf(al),
        crate::linalg::all_rat_wf(ad),
        crate::linalg::all_rat_wf(au2),
        crate::linalg::all_rat_wf(au4),
        crate::linalg::all_rat_wf(bl),
        crate::linalg::all_rat_wf(bd),
        crate::linalg::all_rat_wf(bu2),
        crate::linalg::all_rat_wf(bu4),
        crate::linalg::all_rat_wf(x),
        rat_wf(lam),
        cd.len() == x.len(),
        ad.len() == x.len(),
        bd.len() == x.len(),
        cl.len() + 2 == x.len(),
        al.len() + 2 == x.len(),
        bl.len() + 2 == x.len(),
        cu2.len() + 2 == x.len(),
        au2.len() + 2 == x.len(),
        bu2.len() + 2 == x.len(),
        cu4.len() + 4 == x.len(),
        au4.len() + 4 == x.len(),
        bu4.len() + 4 == x.len(),
        forall|j: int|
            0 <= j < cd.len() ==> rat_eqv(#[trigger] cd[j], rat_add(ad[j], rat_mul(lam, bd[j]))),
        forall|j: int|
            0 <= j < cl.len() ==> rat_eqv(#[trigger] cl[j], rat_add(al[j], rat_mul(lam, bl[j]))),
        forall|j: int|
            0 <= j < cu2.len() ==> rat_eqv(
                #[trigger] cu2[j],
                rat_add(au2[j], rat_mul(lam, bu2[j])),
            ),
        forall|j: int|
            0 <= j < cu4.len() ==> rat_eqv(
                #[trigger] cu4[j],
                rat_add(au4[j], rat_mul(lam, bu4[j])),
            ),
        0 <= i < x.len(),
    ensures
        rat_eqv(
            fdma_apply(cl, cd, cu2, cu4, x, i),
            rat_add(
                fdma_apply(al, ad, au2, au4, x, i),
                rat_mul(lam, fdma_apply(bl, bd, bu2, bu4, x, i)),
            ),
        ),
{
    let n = x.len() as int;
    let s1 = term_or_zero(i >= 2, rat_mul(cl[i - 2], x[i - 2]));
    let s2 = rat_mul(cd[i], x[i]);
    let s3 = term_or_zero(i + 2 < n, rat_mul(cu2[i], x[i + 2]));
    let s4 = term_or_zero(i + 4 < n, rat_mul(cu4[i], x[i + 4]));
    let p1 = term_or_zero(i >= 2, rat_mul(al[i - 2], x[i - 2]));
    let p2 = rat_mul(ad[i], x[i]);
    let p3 = term_or_zero(i + 2 < n, rat_mul(au2[i], x[i + 2]));
    let p4 = term_or_zero(i + 4 < n, rat_mul(au4[i], x[i + 4]));
    let q1 = term_or_zero(i >= 2, rat_mul(bl[i - 2], x[i - 2]));
    let q2 = rat_mul(bd[i], x[i]);
    let q3 = term_or_zero(i + 2 < n, rat_mul(bu2[i], x[i + 2]));
    let q4 = term_or_zero(i + 4 < n, rat_mul(bu4[i], x[i + 4]));
    if i >= 2 {
        crate::rational::lemma_term_split(cl[i - 2], al[i - 2], bl[i - 2], lam, x[i - 2]);
    } else {
        lemma_zero_term_split(s1, p1, q1, lam);
    }
    crate::rational::lemma_term_split(cd[i], ad[i], bd[i], lam, x[i]);
    if i + 2 < n {
        crate::rational::lemma_term_split(cu2[i], au2[i], bu2[i], lam, x[i + 2]);
    } else {
        lemma_zero_term_split(s3, p3, q3, lam);
    }
    if i + 4 < n {
        crate::rational::lemma_term_split(cu4[i], au4[i], bu4[i], lam, x[i + 4]);
    } else {
        lemma_zero_term_split(s4, p4, q4, lam);
    }
    assert(rat_eqv(s1, rat_add(p1, rat_mul(lam, q1))));
    assert(rat_eqv(s2, rat_add(p2, rat_mul(lam, q2))));
    assert(rat_eqv(s3, rat_add(p3, rat_mul(lam, q3))));
    assert(rat_eqv(s4, rat_add(p4, rat_mul(lam, q4))));
    crate::linalg::lemma_add4_split(
        s1,
        s2,
        s3,
        s4,
        p1,
        p2,
        p3,
        p4,
        rat_mul(lam, q1),
        rat_mul(lam, q2),
        rat_mul(lam, q3),
        rat_mul(lam, q4),
    );
    crate::linalg::lemma_scaled_chain4(lam, q1, q2, q3, q4);
    let pchain = rat_add(rat_add(rat_add(p1, p2), p3), p4);
    let qmchain = rat_add(
        rat_add(rat_add(rat_mul(lam, q1), rat_mul(lam, q2)), rat_mul(lam, q3)),
        rat_mul(lam, q4),
    );
    let qchain = rat_add(rat_add(rat_add(q1, q2), q3), q4);
    crate::rational::lemma_add_congruence(pchain, pchain, qmchain, rat_mul(lam, qchain));
    lemma_eqv_trans(
        rat_add(rat_add(rat_add(s1, s2), s3), s4),
        rat_add(pchain, qmchain),
        rat_add(pchain, rat_mul(lam, qchain)),
    );
}

/// Every unreduced intermediate of a band combination `a + lam * b`
/// fits the 64-bit representation. Under this condition the
/// combination succeeds.
pub open spec fn band_combine_fits(a: Seq<Rat>, lam: Rat, b: Seq<Rat>) -> bool {
    forall|i: int|
        0 <= i < a.len() ==> rat_raw_fits(rat_mul(lam, #[trigger] b[i])) && rat_raw_fits(
            rat_add(a[i], rat_mul(lam, b[i])),
        )
}

/// Four-diagonal banded matrix with its cached forward-sweep factors.
pub struct Fdma {
    /// Order of the matrix.
    pub n: usize,
    /// Subdiagonal at offset `-2`: entry `j` belongs to row `j + 2`.
    pub low2: Vec<Rational>,
    /// Main diagonal.
    pub diag: Vec<Rational>,
    /// Superdiagonal at offset `2`.
    pub up2: Vec<Rational>,
    /// Superdiagonal at offset `4`.
    pub up4: Vec<Rational>,
    /// Whether the forward sweep has been performed.
    pub sweeped: bool,
    /// Elimination multipliers, valid when `sweeped`.
    pub al: Vec<Rational>,
    /// Eliminated main diagonal, valid when `sweeped`.
    pub fdiag: Vec<Rational>,
    /// Eliminated superdiagonal at offset `2`, valid when `sweeped`.
    pub fup2: Vec<Rational>,
}

impl Fdma {
    /// Band lengths are consistent with the order, and every entry is
    /// well formed.
    pub open spec fn wf(self) -> bool {
        self.n >= 4 && self.low2@.len() + 2 == self.n as int && self.diag@.len() == self.n as int
            && self.up2@.len() + 2 == self.n as int && self.up4@.len() + 4 == self.n as int
            && all_wf(self.low2@) && all_wf(self.diag@) && all_wf(self.up2@) && all_wf(self.up4@)
            && (self.sweeped ==> self.al@.len() + 2 == self.n as int && self.fdiag@.len()
            == self.n as int && self.fup2@.len() + 2 == self.n as int && all_wf(self.al@) && all_wf(
            self.fdiag@,
        ) && all_wf(self.fup2@))
    }

    /// Build the solver from its bands; the sweep is still to come.
    pub fn from_bands(
        low2: Vec<Rational>,
        diag: Vec<Rational>,
        up2: Vec<Rational>,
        up4: Vec<Rational>,
    ) -> (r: Fdma)
        requires
            diag@.len() >= 4,
            low2@.len() + 2 == diag@.len(),
            up2@.len() + 2 == diag@.len(),
            up4@.len() + 4 == diag@.len(),
            all_wf(low2@),
            all_wf(diag@),
            all_wf(up2@),
            all_wf(up4@),
        ensures
            r.wf(),
            r.n == diag@.len(),
            r.low2 == low2,
            r.diag == diag,
            r.up2 == up2,
            r.up4 == up4,
            !r.sweeped,
    {
        let n: usize = diag.len();
        Fdma {
            n,
            low2,
            diag,
            up2,
            up4,
            sweeped: false,
            al: Vec::new(),
            fdiag: Vec::new(),
            fup2: Vec::new(),
        }
    }

    /// The bands reproduce the dense square table `m` of the same order:
    /// they agree with its four diagonals, and everything off those
    /// diagonals is zero.
    pub open spec fn represents(self, m: Seq<Seq<Rat>>) -> bool {
        &&& m.len() == self.n as int
        &&& (forall|i: int| 0 <= i < self.n as int ==> #[trigger] rats(self.diag@)[i] == m[i][i])
        &&& (forall|j: int|
            0 <= j < self.n as int - 2 ==> #[trigger] rats(self.low2@)[j] == m[j + 2][j])
        &&& (forall|i: int|
            0 <= i < self.n as int - 2 ==> #[trigger] rats(self.up2@)[i] == m[i][i + 2])
        &&& (forall|i: int|
            0 <= i < self.n as int - 4 ==> #[trigger] rats(self.up4@)[i] == m[i][i + 4])
        &&& (forall|i: int, j: int|
            0 <= i < self.n as int && 0 <= j < self.n as int && j != i && j != i + 2 && j != i + 4
                && i != j + 2 ==> rat_is_zero(#[trigger] m[i][j]))
    }

    /// Extract the four bands from a dense matrix. Succeeds exactly when
    /// every entry outside the four diagonals is zero; the bands then
    /// reproduce the matrix entry for entry.
    pub fn from_matrix(m: &Matrix) -> (r: Option<Fdma>)
        requires
            m.wf(),
            m.rows == m.cols,
            4 <= m.rows <= 0x4000_0000,
        ensures
            r matches Some(f) ==> f.wf() && f.n == m.rows && !f.sweeped && f.represents(m@),
            (forall|i: int, j: int|
                0 <= i < m.rows as int && 0 <= j < m.rows as int && j != i && j != i + 2 && j != i
                    + 4 && i != j + 2 ==> rat_is_zero(#[trigger] m@[i][j])) ==> r is Some,
    {
        let n: usize = m.rows;
        let mut i: usize = 0;
        while i < n
            invariant
                0 <= i <= n,
                m.wf(),
                m.rows == n,
                m.cols == n,
                n <= 0x4000_0000,
                forall|i2: int, j2: int|
                    0 <= i2 < i as int && 0 <= j2 < n as int && j2 != i2 && j2 != i2 + 2 && j2 != i2
                        + 4 && i2 != j2 + 2 ==> rat_is_zero(#[trigger] m@[i2][j2]),
            decreases n - i,
        {
            let mut j: usize = 0;
            while j < n
                invariant
                    0 <= j <= n,
                    i < n,
                    m.wf(),
                    m.rows == n,
                    m.cols == n,
                    n <= 0x4000_0000,
                    forall|j2: int|
                        0 <= j2 < j as int && j2 != i as int && j2 != i as int + 2 && j2 != i as int
                            + 4 && i as int != j2 + 2 ==> rat_is_zero(#[trigger] m@[i as int][j2]),
                decreases n - j,
            {
                let off_band: bool = j != i && j != i + 2 && j != i + 4 && i != j + 2;
                if off_band {
                    if !m.get(i, j).is_zero() {
                        // The entry just read witnesses that the matrix is
                        // not four-diagonal.
                        proof {
                            if forall|i2: int, j2: int|
                                0 <= i2 < n as int && 0 <= j2 < n as int && j2 != i2 && j2 != i2
                                    + 2 && j2 != i2 + 4 && i2 != j2 + 2 ==> rat_is_zero(
                                #[trigger] m@[i2][j2],
                            ) {
                                assert(rat_is_zero(m@[i as int][j as int]));
                            }
                        }
                        return None;
                    }
                }
                j = j + 1;
            }
            i = i + 1;
        }
        let mut low2: Vec<Rational> = Vec::new();
        let mut diag: Vec<Rational> = Vec::new();
        let mut up2: Vec<Rational> = Vec::new();
        let mut up4: Vec<Rational> = Vec::new();
        let mut k: usize = 0;
        while k < n
            invariant
                0 <= k <= n,
                m.wf(),
                m.rows == n,
                m.cols == n,
                n >= 4,
                diag@.len() == k as int,
                all_wf(diag@),
                forall|t: int| 0 <= t < k as int ==> (#[trigger] diag@[t])@ == m@[t][t],
            decreases n - k,
        {
            diag.push(m.get(k, k));
            k = k + 1;
        }
        let mut k2: usize = 0;
        while k2 < n - 2
            invariant
                0 <= k2 <= n - 2,
                m.wf(),
                m.rows == n,
                m.cols == n,
                n >= 4,
                low2@.len() == k2 as int,
                up2@.len() == k2 as int,
                all_wf(low2@),
                all_wf(up2@),
                forall|t: int| 0 <= t < k2 as int ==> (#[trigger] low2@[t])@ == m@[t + 2][t],
                forall|t: int| 0 <= t < k2 as int ==> (#[trigger] up2@[t])@ == m@[t][t + 2],
            decreases n - k2,
        {
            low2.push(m.get(k2 + 2, k2));
            up2.push(m.get(k2, k2 + 2));
            k2 = k2 + 1;
        }
        let mut k4: usize = 0;
        while k4 < n - 4
            invariant
                0 <= k4 <= n - 4,
                m.wf(),
                m.rows == n,
                m.cols == n,
                n >= 4,
                up4@.len() == k4 as int,
                all_wf(up4@),
                forall|t: int| 0 <= t < k4 as int ==> (#[trigger] up4@[t])@ == m@[t][t + 4],
            decreases n - k4,
        {
            up4.push(m.get(k4, k4 + 4));
            k4 = k4 + 1;
        }
        Some(Self::from_bands(low2, diag, up2, up4))
    }

    /// Linear combination `self + lam * other`, band by band: the
    /// per-eigenvalue system of the tensor solver.
    pub fn add_scaled(&self, lam: &Rational, other: &Fdma) -> (r: Option<Fdma>)
        requires
            self.wf(),
            other.wf(),
            lam.wf(),
            self.n == other.n,
        ensures
            band_combine_fits(rats(self.low2@), lam@, rats(other.low2@)) && band_combine_fits(
                rats(self.diag@),
                lam@,
                rats(other.diag@),
            ) && band_combine_fits(rats(self.up2@), lam@, rats(other.up2@)) && band_combine_fits(
                rats(self.up4@),
                lam@,
                rats(other.up4@),
            ) ==> r is Some,
            r matches Some(f) ==> f.wf() && f.n == self.n && !f.sweeped && (forall|i: int|
                0 <= i < self.n as int ==> rat_eqv(
                    #[trigger] rats(f.diag@)[i],
                    rat_add(rats(self.diag@)[i], rat_mul(lam@, rats(other.diag@)[i])),
                )) && (forall|i: int|
                0 <= i < self.n as int - 2 ==> rat_eqv(
                    #[trigger] rats(f.low2@)[i],
                    rat_add(rats(self.low2@)[i], rat_mul(lam@, rats(other.low2@)[i])),
                )) && (forall|i: int|
                0 <= i < self.n as int - 2 ==> rat_eqv(
                    #[trigger] rats(f.up2@)[i],
                    rat_add(rats(self.up2@)[i], rat_mul(lam@, rats(other.up2@)[i])),
                )) && (forall|i: int|
                0 <= i < self.n as int - 4 ==> rat_eqv(
                    #[trigger] rats(f.up4@)[i],
                    rat_add(rats(self.up4@)[i], rat_mul(lam@, rats(other.up4@)[i])),
                )),
    {
        let low2: Vec<Rational> = Self::band_add_scaled(&self.low2, lam, &other.low2)?;
        let diag: Vec<Rational> = Self::band_add_scaled(&self.diag, lam, &other.diag)?;
        let up2: Vec<Rational> = Self::band_add_scaled(&self.up2, lam, &other.up2)?;
        let up4: Vec<Rational> = Self::band_add_scaled(&self.up4, lam, &other.up4)?;
        Some(Self::from_bands(low2, diag, up2, up4))
    }

    fn band_add_scaled(a: &Vec<Rational>, lam: &Rational, b: &Vec<Rational>) -> (r: Option<
        Vec<Rational>,
    >)
        requires
            all_wf(a@),
            all_wf(b@),
            lam.wf(),
            a@.len() == b@.len(),
        ensures
            r matches Some(v) ==> v@.len() == a@.len() && all_wf(v@) && forall|i: int|
                0 <= i < a@.len() ==> rat_eqv(
                    #[trigger] rats(v@)[i],
                    rat_add(rats(a@)[i], rat_mul(lam@, rats(b@)[i])),
                ),
            band_combine_fits(rats(a@), lam@, rats(b@)) ==> r is Some,
    {
        let n: usize = a.len();
        let mut out: Vec<Rational> = Vec::new();
        let mut i: usize = 0;
        while i < n
            invariant
                0 <= i <= n,
                n == a@.len(),
                n == b@.len(),
                all_wf(a@),
                all_wf(b@),
                lam.wf(),
                out@.len() == i as int,
                all_wf(out@),
                forall|t: int|
                    0 <= t < i as int ==> rat_eqv(
                        (#[trigger] out@[t])@,
                        rat_add(rats(a@)[t], rat_mul(lam@, rats(b@)[t])),
                    ),
            decreases n - i,
        {
            let ghost gi = i as int;
            let t: Rational = match lam.mul(&b[i]) {
                Some(q) => q,
                None => {
                    // The scaled term at this index does not fit.
                    proof {
                        if band_combine_fits(rats(a@), lam@, rats(b@)) {
                            assert(rat_raw_fits(rat_mul(lam@, rats(b@)[gi])));
                        }
                    }
                    return None;
                },
            };
            let v: Rational = match a[i].add(&t) {
                Some(q) => q,
                None => {
                    // The combined entry at this index does not fit.
                    proof {
                        if band_combine_fits(rats(a@), lam@, rats(b@)) {
                            assert(rat_raw_fits(rat_add(rats(a@)[gi], rat_mul(lam@, rats(b@)[gi]))));
                            a@[gi].lemma_wf_view();
                            t.lemma_wf_view();
                            lemma_scales_self(a@[gi]@);
                            lemma_scales_add(a@[gi]@, rats(a@)[gi], t@, rat_mul(lam@, rats(b@)[gi]));
                            lemma_scales_fits(
                                rat_add(a@[gi]@, t@),
                                rat_add(rats(a@)[gi], rat_mul(lam@, rats(b@)[gi])),
                            );
                        }
                    }
                    return None;
                },
            };
            proof {
                a@[gi].lemma_wf_view();
                b@[gi].lemma_wf_view();
                lam.lemma_wf_view();
                t.lemma_wf_view();
                v.lemma_wf_view();
                crate::rational::lemma_add_congruence(
                    a@[gi]@,
                    rats(a@)[gi],
                    t@,
                    rat_mul(lam@, rats(b@)[gi]),
                );
                lemma_eqv_trans(
                    v@,
                    rat_add(a@[gi]@, t@),
                    rat_add(rats(a@)[gi], rat_mul(lam@, rats(b@)[gi])),
                );
            }
            out.push(v);
            i = i + 1;
        }
        Some(out)
    }

    /// One-time forward elimination, caching the factors used by
    /// [`Fdma::solve`]. Fails (and leaves the matrix unswept) when a
    /// pivot vanishes or an intermediate value leaves the 64-bit
    /// representation.
    pub fn sweep(&mut self) -> (ok: bool)
        requires
            old(self).wf(),
        ensures
            final(self).wf(),
            final(self).n == old(self).n,
            final(self).low2 == old(self).low2,
            final(self).diag == old(self).diag,
            final(self).up2 == old(self).up2,
            final(self).up4 == old(self).up4,
            ok ==> final(self).sweeped,
    {
        let n: usize = self.n;
        let mut fdiag: Vec<Rational> = Vec::new();
        let mut fup2: Vec<Rational> = Vec::new();
        let mut al: Vec<Rational> = Vec::new();
        let mut c: usize = 0;
        while c < n
            invariant
                0 <= c <= n,
                self.wf(),
                n == self.n,
                fdiag@.len() == c as int,
                all_wf(fdiag@),
            decreases n - c,
        {
            fdiag.push(self.diag[c]);
            c = c + 1;
        }
        let mut c2: usize = 0;
        while c2 < n - 2
            invariant
                0 <= c2 <= n - 2,
                self.wf(),
                n == self.n,
                fup2@.len() == c2 as int,
                all_wf(fup2@),
            decreases n - c2,
        {
            fup2.push(self.up2[c2]);
            c2 = c2 + 1;
        }
        let mut i: usize = 2;
        while i < n
            invariant
                2 <= i <= n,
                self.wf(),
                n == self.n,
                n >= 4,
                fdiag@.len() == n as int,
                fup2@.len() + 2 == n as int,
                al@.len() == i as int - 2,
                all_wf(fdiag@),
                all_wf(fup2@),
                all_wf(al@),
            decreases n - i,
        {
            let pivot: Rational = fdiag[i - 2];
            if pivot.is_zero() {
                return false;
            }
            let a: Rational = match self.low2[i - 2].div(&pivot) {
                Some(v) => v,
                None => {
                    return false;
                },
            };
            let t: Rational = match a.mul(&fup2[i - 2]) {
                Some(v) => v,
                None => {
                    return false;
                },
            };
            let nd: Rational = match fdiag[i].sub(&t) {
                Some(v) => v,
                None => {
                    return false;
                },
            };
            fdiag[i] = nd;
            proof {
                lemma_all_wf_update(fdiag@, i as int);
            }
            if i < n - 2 {
                let t2: Rational = match a.mul(&self.up4[i - 2]) {
                    Some(v) => v,
                    None => {
                        return false;
                    },
                };
                let nu: Rational = match fup2[i].sub(&t2) {
                    Some(v) => v,
                    None => {
                        return false;
                    },
                };
                fup2[i] = nu;
                proof {
                    lemma_all_wf_update(fup2@, i as int);
                }
            }
            al.push(a);
            i = i + 1;
        }
        self.al = al;
        self.fdiag = fdiag;
        self.fup2 = fup2;
        self.sweeped = true;
        true
    }

    /// Check that `x` exactly satisfies the four-diagonal system with
    /// right-hand side `rhs`; a positive answer is a proof.
    fn residual_ok(&self, x: &Vec<Rational>, rhs: &Vec<Rational>) -> (r: bool)
        requires
            self.wf(),
            x@.len() == self.n as int,
            rhs@.len() == self.n as int,
            all_wf(x@),
            all_wf(rhs@),
        ensures
            r ==> forall|i: int|
                0 <= i < self.n as int ==> rat_eqv(
                    #[trigger] fdma_apply(
                        rats(self.low2@),
                        rats(self.diag@),
                        rats(self.up2@),
                        rats(self.up4@),
                        rats(x@),
                        i,
                    ),
                    rats(rhs@)[i],
                ),
    {
        let ghost rl = rats(self.low2@);
        let ghost rd = rats(self.diag@);
        let ghost ru2 = rats(self.up2@);
        let ghost ru4 = rats(self.up4@);
        let ghost rx = rats(x@);
        let n: usize = self.n;
        let mut i: usize = 0;
        while i < n
            invariant
                0 <= i <= n,
                self.wf(),
                n == self.n,
                x@.len() == n as int,
                rhs@.len() == n as int,
                all_wf(x@),
                all_wf(rhs@),
                rl == rats(self.low2@),
                rd == rats(self.diag@),
                ru2 == rats(self.up2@),
                ru4 == rats(self.up4@),
                rx == rats(x@),
                forall|t: int|
                    0 <= t < i as int ==> rat_eqv(
                        #[trigger] fdma_apply(rl, rd, ru2, ru4, rx, t),
                        rats(rhs@)[t],
                    ),
            decreases n - i,
        {
            let ghost gi = i as int;
            let low: Rational = if i >= 2 {
                match self.low2[i - 2].mul(&x[i - 2]) {
                    Some(v) => v,
                    None => {
                        return false;
                    },
                }
            } else {
                Rational::zero()
            };
            let mid: Rational = match self.diag[i].mul(&x[i]) {
                Some(v) => v,
                None => {
                    return false;
                },
            };
            let high2: Rational = if i < n - 2 {
                match self.up2[i].mul(&x[i + 2]) {
                    Some(v) => v,
                    None => {
                        return false;
                    },
                }
            } else {
                Rational::zero()
            };
            let high4: Rational = if i < n - 4 {
                match self.up4[i].mul(&x[i + 4]) {
                    Some(v) => v,
                    None => {
                        return false;
                    },
                }
            } else {
                Rational::zero()
            };
            let t1: Rational = match low.add(&mid) {
                Some(v) => v,
                None => {
                    return false;
                },
            };
            let t2: Rational = match t1.add(&high2) {
                Some(v) => v,
                None => {
                    return false;
                },
            };
            let t3: Rational = match t2.add(&high4) {
                Some(v) => v,
                None => {
                    return false;
                },
            };
            if !t3.eq_rat(&rhs[i]) {
                return false;
            }
            proof {
                let slow = term_or_zero(gi >= 2, rat_mul(rl[gi - 2], rx[gi - 2]));
                let smid = rat_mul(rd[gi], rx[gi]);
                let shigh2 = term_or_zero(gi + 2 < rx.len(), rat_mul(ru2[gi], rx[gi + 2]));
                let shigh4 = term_or_zero(gi + 4 < rx.len(), rat_mul(ru4[gi], rx[gi + 4]));
                low.lemma_wf_view();
                mid.lemma_wf_view();
                high2.lemma_wf_view();
                high4.lemma_wf_view();
                t1.lemma_wf_view();
                t2.lemma_wf_view();
                t3.lemma_wf_view();
                if gi >= 2 {
                    self.low2@[gi - 2].lemma_wf_view();
                    x@[gi - 2].lemma_wf_view();
                }
                self.diag@[gi].lemma_wf_view();
                x@[gi].lemma_wf_view();
                if gi + 2 < rx.len() {
                    self.up2@[gi].lemma_wf_view();
                    x@[gi + 2].lemma_wf_view();
                }
                if gi + 4 < rx.len() {
                    self.up4@[gi].lemma_wf_view();
                    x@[gi + 4].lemma_wf_view();
                }
                rhs@[gi].lemma_wf_view();
                assert(rat_eqv(low@, slow));
                assert(rat_eqv(mid@, smid));
                assert(rat_eqv(high2@, shigh2));
                assert(rat_eqv(high4@, shigh4));
                lemma_add3_congruence(
                    low@,
                    slow,
                    mid@,
                    smid,
                    high2@,
                    shigh2,
                    high4@,
                    shigh4,
                );
                crate::rational::lemma_add_congruence(t1@, rat_add(low@, mid@), high2@, high2@);
                lemma_eqv_trans(t2@, rat_add(t1@, high2@), rat_add(rat_add(low@, mid@), high2@));
                crate::rational::lemma_add_congruence(
                    t2@,
                    rat_add(rat_add(low@, mid@), high2@),
                    high4@,
                    high4@,
                );
                lemma_eqv_trans(
                    t3@,
                    rat_add(t2@, high4@),
                    rat_add(rat_add(rat_add(low@, mid@), high2@), high4@),
                );
                lemma_eqv_trans(
                    t3@,
                    rat_add(rat_add(rat_add(low@, mid@), high2@), high4@),
                    rat_add(rat_add(rat_add(slow, smid), shigh2), shigh4),
                );
                lemma_eqv_sym(t3@, fdma_apply(rl, rd, ru2, ru4, rx, gi));
                lemma_eqv_trans(fdma_apply(rl, rd, ru2, ru4, rx, gi), t3@, rats(rhs@)[gi]);
            }
            i = i + 1;
        }
        true
    }

    /// Back-substitution using the cached sweep factors, then an exact
    /// check of the candidate against the original bands. A returned
    /// vector exactly satisfies the four-diagonal system.
    pub fn solve(&self, rhs: &Vec<Rational>) -> (r: Option<Vec<Rational>>)
        requires
            self.wf(),
            self.sweeped,
            rhs@.len() == self.n as int,
            all_wf(rhs@),
        ensures
            r matches Some(x) ==> x@.len() == self.n as int && all_wf(x@) && forall|i: int|
                0 <= i < self.n as int ==> rat_eqv(
                    #[trigger] fdma_apply(
                        rats(self.low2@),
                        rats(self.diag@),
                        rats(self.up2@),
                        rats(self.up4@),
                        rats(x@),
                        i,
                    ),
                    rats(rhs@)[i],
                ),
    {
        let n: usize = self.n;
        // Forward pass on the right-hand side.
        let mut d: Vec<Rational> = Vec::new();
        let mut c: usize = 0;
        while c < n
            invariant
                0 <= c <= n,
                self.wf(),
                n == self.n,
                rhs@.len() == n as int,
                all_wf(rhs@),
                d@.len() == c as int,
                all_wf(d@),
            decreases n - c,
        {
            d.push(rhs[c]);
            c = c + 1;
        }
        let mut i: usize = 2;
        while i < n
            invariant
                2 <= i <= n,
                self.wf(),
                self.sweeped,
                n == self.n,
                d@.len() == n as int,
                all_wf(d@),
            decreases n - i,
        {
            let t: Rational = self.al[i - 2].mul(&d[i - 2])?;
            let nd: Rational = d[i].sub(&t)?;
            d[i] = nd;
            proof {
                lemma_all_wf_update(d@, i as int);
            }
            i = i + 1;
        }
        // Back-substitution.
        let mut x: Vec<Rational> = d;
        let mut k: usize = n;
        while k > 0
            invariant
                0 <= k <= n,
                self.wf(),
                self.sweeped,
                n == self.n,
                n >= 4,
                x@.len() == n as int,
                all_wf(x@),
            decreases k,
        {
            let idx: usize = k - 1;
            let pivot: Rational = self.fdiag[idx];
            if pivot.is_zero() {
                return None;
            }
            let mut num: Rational = x[idx];
            if idx < n - 2 {
                let t: Rational = self.fup2[idx].mul(&x[idx + 2])?;
                num = num.sub(&t)?;
            }
            if idx < n - 4 {
                let t: Rational = self.up4[idx].mul(&x[idx + 4])?;
                num = num.sub(&t)?;
            }
            let v: Rational = num.div(&pivot)?;
            x[idx] = v;
            proof {
                lemma_all_wf_update(x@, idx as int);
            }
            k = k - 1;
        }
        if self.residual_ok(&x, rhs) {
            Some(x)
        } else {
            None
        }
    }
}

} // verus!
