//! Dense vectors and matrices of exact rational scalars.
//!
//! A vector is a plain `Vec<Rational>`; a matrix is a rectangular
//! row-major table. Contracts speak about the spec-level images
//! ([`rats`] of a vector, the view of a [`Matrix`]) and state each
//! entry of a result as an exact rational formula.
use crate::rational::{
    lemma_add_congruence, lemma_add_exchange, lemma_eqv_sym, lemma_eqv_trans,
    lemma_mul_add_distrib, lemma_scales_add, lemma_scales_fits, lemma_scales_mul,
    lemma_scales_self, lemma_scales_trans, rat_add, rat_eqv, rat_int, rat_mul, rat_raw_fits,
    rat_scales_to, rat_wf, Rat, Rational,
};
use vstd::prelude::*;

verus! {

broadcast use crate::rational::lemma_add_wf, crate::rational::lemma_mul_wf,
    crate::rational::lemma_neg_wf, crate::rational::lemma_term_or_zero_wf;

/// The sequence of mathematical values of a vector of scalars.
pub open spec fn rats(s: Seq<Rational>) -> Seq<Rat> {
    Seq::new(s.len(), |i: int| s[i]@)
}

/// Inner product of two rational sequences, folded from the back.
pub open spec fn rat_dot(a: Seq<Rat>, b: Seq<Rat>) -> Rat
    decreases a.len(),
{
    if a.len() == 0 || b.len() == 0 {
        rat_int(0)
    } else {
        rat_add(rat_dot(a.drop_last(), b.drop_last()), rat_mul(a.last(), b.last()))
    }
}

/// The intermediates of the inner-product accumulation over the first
/// `t` entries all fit the 64-bit representation as they stand: each
/// product of paired entries, and each running partial sum.
pub open spec fn rat_dot_fits_upto(a: Seq<Rat>, b: Seq<Rat>, t: int) -> bool
    decreases t,
{
    t <= 0 || {
        &&& rat_dot_fits_upto(a, b, t - 1)
        &&& rat_raw_fits(rat_mul(a[t - 1], b[t - 1]))
        &&& rat_raw_fits(
            rat_add(rat_dot(a.take(t - 1), b.take(t - 1)), rat_mul(a[t - 1], b[t - 1])),
        )
    }
}

/// Every unreduced intermediate of the inner product fits the 64-bit
/// representation; under this condition [`dot`] is guaranteed to
/// succeed.
pub open spec fn rat_dot_fits(a: Seq<Rat>, b: Seq<Rat>) -> bool {
    rat_dot_fits_upto(a, b, a.len() as int)
}

/// A shorter accumulation fits whenever a longer one does.
pub proof fn lemma_dot_fits_prefix(a: Seq<Rat>, b: Seq<Rat>, s: int, t: int)
    requires
        0 <= s <= t,
        rat_dot_fits_upto(a, b, t),
    ensures
        rat_dot_fits_upto(a, b, s),
    decreases t,
{
    if s < t {
        lemma_dot_fits_prefix(a, b, s, t - 1);
    }
}

/// Entrywise shrunk operands give a shrunk inner product, and inherit
/// the fitting of every intermediate from the unshrunk operands.
pub proof fn lemma_rat_dot_scaled(a2: Seq<Rat>, a: Seq<Rat>, b2: Seq<Rat>, b: Seq<Rat>, t: int)
    requires
        a2.len() == a.len(),
        b2.len() == b.len(),
        b.len() == a.len(),
        all_rat_wf(a2),
        all_rat_wf(b2),
        forall|i: int| 0 <= i < a.len() ==> rat_scales_to(#[trigger] a2[i], a[i]),
        forall|i: int| 0 <= i < b.len() ==> rat_scales_to(#[trigger] b2[i], b[i]),
        0 <= t <= a.len(),
    ensures
        rat_scales_to(rat_dot(a2.take(t), b2.take(t)), rat_dot(a.take(t), b.take(t))),
        rat_dot_fits_upto(a, b, t) ==> rat_dot_fits_upto(a2, b2, t),
    decreases t,
{
    broadcast use crate::rational::lemma_add_wf, crate::rational::lemma_mul_wf;

    if t == 0 {
        assert(rat_dot(a2.take(0), b2.take(0)) == rat_int(0));
        lemma_scales_self(rat_int(0));
    } else {
        lemma_rat_dot_scaled(a2, a, b2, b, t - 1);
        lemma_rat_dot_take_step(a2, b2, t - 1);
        lemma_rat_dot_take_step(a, b, t - 1);
        lemma_scales_mul(a2[t - 1], a[t - 1], b2[t - 1], b[t - 1]);
        lemma_scales_add(
            rat_dot(a2.take(t - 1), b2.take(t - 1)),
            rat_dot(a.take(t - 1), b.take(t - 1)),
            rat_mul(a2[t - 1], b2[t - 1]),
            rat_mul(a[t - 1], b[t - 1]),
        );
        if rat_dot_fits_upto(a, b, t) {
            lemma_all_rat_wf_take(a2, t - 1);
            lemma_all_rat_wf_take(b2, t - 1);
            lemma_rat_dot_wf(a2.take(t - 1), b2.take(t - 1));
            lemma_scales_fits(rat_mul(a2[t - 1], b2[t - 1]), rat_mul(a[t - 1], b[t - 1]));
            lemma_scales_fits(
                rat_add(
                    rat_dot(a2.take(t - 1), b2.take(t - 1)),
                    rat_mul(a2[t - 1], b2[t - 1]),
                ),
                rat_add(rat_dot(a.take(t - 1), b.take(t - 1)), rat_mul(a[t - 1], b[t - 1])),
            );
        }
    }
}

/// Every scalar of the vector is well formed.
pub open spec fn all_wf(s: Seq<Rational>) -> bool {
    forall|i: int| 0 <= i < s.len() ==> (#[trigger] s[i]).wf()
}

/// Every rational of the sequence is well formed.
pub open spec fn all_rat_wf(s: Seq<Rat>) -> bool {
    forall|i: int| 0 <= i < s.len() ==> rat_wf(#[trigger] s[i])
}

/// Elementwise value equality of two rational sequences.
pub open spec fn seq_eqv(a: Seq<Rat>, b: Seq<Rat>) -> bool {
    a.len() == b.len() && forall|i: int| 0 <= i < a.len() ==> rat_eqv(#[trigger] a[i], b[i])
}

/// Column `j` of a rational table.
pub open spec fn col_of(m: Seq<Seq<Rat>>, j: int) -> Seq<Rat> {
    Seq::new(m.len(), |i: int| m[i][j])
}

/// Every row of the table has length `cols` and well-formed entries.
pub open spec fn table_wf(m: Seq<Seq<Rat>>, cols: int) -> bool {
    forall|i: int|
        0 <= i < m.len() ==> (#[trigger] m[i]).len() == cols && all_rat_wf(m[i])
}

/// A well-formed vector has a well-formed value sequence.
pub proof fn lemma_all_wf_rats(s: Seq<Rational>)
    requires
        all_wf(s),
    ensures
        all_rat_wf(rats(s)),
{
    assert forall|i: int| 0 <= i < rats(s).len() implies rat_wf(#[trigger] rats(s)[i]) by {
        s[i].lemma_wf_view();
    }
}

/// A prefix of a well-formed rational sequence is well formed.
pub proof fn lemma_all_rat_wf_take(s: Seq<Rat>, i: int)
    requires
        all_rat_wf(s),
        0 <= i <= s.len(),
    ensures
        all_rat_wf(s.take(i)),
{
}

/// The inner product of two rational sequences is well formed.
pub proof fn lemma_rat_dot_wf(a: Seq<Rat>, b: Seq<Rat>)
    requires
        all_rat_wf(a),
        all_rat_wf(b),
    ensures
        rat_wf(rat_dot(a, b)),
    decreases a.len(),
{
    if a.len() == 0 || b.len() == 0 {
    } else {
        assert(all_rat_wf(a.drop_last()) && all_rat_wf(b.drop_last()));
        lemma_rat_dot_wf(a.drop_last(), b.drop_last());
        assert(rat_wf(rat_mul(a.last(), b.last()))) by (nonlinear_arith)
            requires
                a.last().d > 0,
                b.last().d > 0,
        ;
        assert(rat_wf(rat_add(rat_dot(a.drop_last(), b.drop_last()), rat_mul(a.last(), b.last()))))
            by (nonlinear_arith)
            requires
                rat_wf(rat_dot(a.drop_last(), b.drop_last())),
                rat_wf(rat_mul(a.last(), b.last())),
        ;
    }
}

/// Extending both sequences by one entry extends their inner product by
/// the product of the new entries.
pub proof fn lemma_rat_dot_take_step(a: Seq<Rat>, b: Seq<Rat>, i: int)
    requires
        0 <= i < a.len(),
        i < b.len(),
    ensures
        rat_dot(a.take(i + 1), b.take(i + 1)) == rat_add(
            rat_dot(a.take(i), b.take(i)),
            rat_mul(a[i], b[i]),
        ),
{
    let a1 = a.take(i + 1);
    let b1 = b.take(i + 1);
    assert(a1.drop_last() =~= a.take(i));
    assert(b1.drop_last() =~= b.take(i));
    assert(a1.last() == a[i]);
    assert(b1.last() == b[i]);
}

/// The inner product respects value equality of its operands.
pub proof fn lemma_rat_dot_congruence(a: Seq<Rat>, a2: Seq<Rat>, b: Seq<Rat>, b2: Seq<Rat>)
    requires
        all_rat_wf(a),
        all_rat_wf(a2),
        all_rat_wf(b),
        all_rat_wf(b2),
        seq_eqv(a, a2),
        seq_eqv(b, b2),
        a.len() == b.len(),
    ensures
        rat_eqv(rat_dot(a, b), rat_dot(a2, b2)),
    decreases a.len(),
{
    if a.len() == 0 {
    } else {
        assert(seq_eqv(a.drop_last(), a2.drop_last()));
        assert(seq_eqv(b.drop_last(), b2.drop_last()));
        lemma_rat_dot_congruence(a.drop_last(), a2.drop_last(), b.drop_last(), b2.drop_last());
        lemma_rat_dot_wf(a.drop_last(), b.drop_last());
        lemma_rat_dot_wf(a2.drop_last(), b2.drop_last());
        assert(rat_eqv(a.last(), a2.last()));
        assert(rat_eqv(b.last(), b2.last()));
        crate::rational::lemma_mul_congruence(a.last(), a2.last(), b.last(), b2.last());
        lemma_add_congruence(
            rat_dot(a.drop_last(), b.drop_last()),
            rat_dot(a2.drop_last(), b2.drop_last()),
            rat_mul(a.last(), b.last()),
            rat_mul(a2.last(), b2.last()),
        );
    }
}

/// Exact inner product of two vectors. `None` only when some
/// intermediate value leaves the 64-bit representation.
pub fn dot(a: &Vec<Rational>, b: &Vec<Rational>) -> (r: Option<Rational>)
    requires
        a@.len() == b@.len(),
        all_wf(a@),
        all_wf(b@),
    ensures
        r matches Some(v) ==> v.wf() && rat_eqv(v@, rat_dot(rats(a@), rats(b@)))
            && rat_scales_to(v@, rat_dot(rats(a@), rats(b@))),
        rat_dot_fits(rats(a@), rats(b@)) ==> r is Some,
{
    let ghost ra = rats(a@);
    let ghost rb = rats(b@);
    proof {
        lemma_all_wf_rats(a@);
        lemma_all_wf_rats(b@);
        lemma_scales_self(rat_int(0));
        assert(rat_dot(ra.take(0), rb.take(0)) == rat_int(0));
    }
    let n: usize = a.len();
    let mut acc: Rational = Rational::zero();
    let mut i: usize = 0;
    while i < n
        invariant
            0 <= i <= n,
            n == a@.len(),
            n == b@.len(),
            all_wf(a@),
            all_wf(b@),
            ra == rats(a@),
            rb == rats(b@),
            all_rat_wf(ra),
            all_rat_wf(rb),
            acc.wf(),
            rat_eqv(acc@, rat_dot(ra.take(i as int), rb.take(i as int))),
            rat_scales_to(acc@, rat_dot(ra.take(i as int), rb.take(i as int))),
        decreases n - i,
    {
        let ghost gi = i as int;
        let p: Rational = match a[i].mul(&b[i]) {
            Some(v) => v,
            None => {
                // The product of this pair does not fit, so the
                // accumulation as a whole does not fit.
                proof {
                    if rat_dot_fits(ra, rb) {
                        lemma_dot_fits_prefix(ra, rb, gi + 1, n as int);
                    }
                }
                return None;
            },
        };
        let next: Rational = match acc.add(&p) {
            Some(v) => v,
            None => {
                // The running sum at this step does not fit.
                proof {
                    if rat_dot_fits(ra, rb) {
                        lemma_dot_fits_prefix(ra, rb, gi + 1, n as int);
                        lemma_rat_dot_take_step(ra, rb, gi);
                        lemma_scales_add(
                            acc@,
                            rat_dot(ra.take(gi), rb.take(gi)),
                            p@,
                            rat_mul(ra[gi], rb[gi]),
                        );
                        acc.lemma_wf_view();
                        p.lemma_wf_view();
                        lemma_scales_fits(
                            rat_add(acc@, p@),
                            rat_add(rat_dot(ra.take(gi), rb.take(gi)), rat_mul(ra[gi], rb[gi])),
                        );
                    }
                }
                return None;
            },
        };
        proof {
            lemma_rat_dot_take_step(ra, rb, gi);
            lemma_scales_add(acc@, rat_dot(ra.take(gi), rb.take(gi)), p@, rat_mul(ra[gi], rb[gi]));
            lemma_scales_trans(
                next@,
                rat_add(acc@, p@),
                rat_add(rat_dot(ra.take(gi), rb.take(gi)), rat_mul(ra[gi], rb[gi])),
            );
            lemma_all_rat_wf_take(ra, gi);
            lemma_all_rat_wf_take(rb, gi);
            lemma_rat_dot_wf(ra.take(gi), rb.take(gi));
            acc.lemma_wf_view();
            p.lemma_wf_view();
            next.lemma_wf_view();
            assert(rat_eqv(p@, rat_mul(ra[gi], rb[gi])));
            assert(rat_wf(rat_mul(ra[gi], rb[gi]))) by (nonlinear_arith)
                requires
                    rat_wf(ra[gi]),
                    rat_wf(rb[gi]),
            ;
            lemma_add_congruence(
                acc@,
                rat_dot(ra.take(gi), rb.take(gi)),
                p@,
                rat_mul(ra[gi], rb[gi]),
            );
            lemma_eqv_trans(
                next@,
                rat_add(acc@, p@),
                rat_add(rat_dot(ra.take(gi), rb.take(gi)), rat_mul(ra[gi], rb[gi])),
            );
            assert(rat_wf(rat_add(rat_dot(ra.take(gi), rb.take(gi)), rat_mul(ra[gi], rb[gi]))))
                by (nonlinear_arith)
                requires
                    rat_wf(rat_dot(ra.take(gi), rb.take(gi))),
                    rat_wf(rat_mul(ra[gi], rb[gi])),
            ;
        }
        acc = next;
        i = i + 1;
    }
    proof {
        assert(ra.take(n as int) =~= ra);
        assert(rb.take(n as int) =~= rb);
    }
    Some(acc)
}

/// A four-term sum splits termwise: when each `s_t` is a sum `p_t + q_t`,
/// the chain of the `s_t` equals the chain of the `p_t` plus the chain of
/// the `q_t`.
pub proof fn lemma_add4_split(
    s1: Rat,
    s2: Rat,
    s3: Rat,
    s4: Rat,
    p1: Rat,
    p2: Rat,
    p3: Rat,
    p4: Rat,
    q1: Rat,
    q2: Rat,
    q3: Rat,
    q4: Rat,
)
    requires
        rat_wf(s1),
        rat_wf(s2),
        rat_wf(s3),
        rat_wf(s4),
        rat_wf(p1),
        rat_wf(p2),
        rat_wf(p3),
        rat_wf(p4),
        rat_wf(q1),
        rat_wf(q2),
        rat_wf(q3),
        rat_wf(q4),
        rat_eqv(s1, rat_add(p1, q1)),
        rat_eqv(s2, rat_add(p2, q2)),
        rat_eqv(s3, rat_add(p3, q3)),
        rat_eqv(s4, rat_add(p4, q4)),
    ensures
        rat_eqv(
            rat_add(rat_add(rat_add(s1, s2), s3), s4),
            rat_add(
                rat_add(rat_add(rat_add(p1, p2), p3), p4),
                rat_add(rat_add(rat_add(q1, q2), q3), q4),
            ),
        ),
{
    let pp2 = rat_add(p1, p2);
    let qq2 = rat_add(q1, q2);
    let pp3 = rat_add(pp2, p3);
    let qq3 = rat_add(qq2, q3);
    let pp4 = rat_add(pp3, p4);
    let qq4 = rat_add(qq3, q4);
    // s1 + s2
    lemma_add_congruence(s1, rat_add(p1, q1), s2, rat_add(p2, q2));
    lemma_add_exchange(p1, q1, p2, q2);
    lemma_eqv_trans(
        rat_add(s1, s2),
        rat_add(rat_add(p1, q1), rat_add(p2, q2)),
        rat_add(pp2, qq2),
    );
    // (s1 + s2) + s3
    lemma_add_congruence(rat_add(s1, s2), rat_add(pp2, qq2), s3, rat_add(p3, q3));
    lemma_add_exchange(pp2, qq2, p3, q3);
    lemma_eqv_trans(
        rat_add(rat_add(s1, s2), s3),
        rat_add(rat_add(pp2, qq2), rat_add(p3, q3)),
        rat_add(pp3, qq3),
    );
    // ((s1 + s2) + s3) + s4
    lemma_add_congruence(rat_add(rat_add(s1, s2), s3), rat_add(pp3, qq3), s4, rat_add(p4, q4));
    lemma_add_exchange(pp3, qq3, p4, q4);
    lemma_eqv_trans(
        rat_add(rat_add(rat_add(s1, s2), s3), s4),
        rat_add(rat_add(pp3, qq3), rat_add(p4, q4)),
        rat_add(pp4, qq4),
    );
}

/// A scalar factor distributes over a four-term chain of sums.
pub proof fn lemma_scaled_chain4(lam: Rat, q1: Rat, q2: Rat, q3: Rat, q4: Rat)
    requires
        rat_wf(lam),
        rat_wf(q1),
        rat_wf(q2),
        rat_wf(q3),
        rat_wf(q4),
    ensures
        rat_eqv(
            rat_add(
                rat_add(rat_add(rat_mul(lam, q1), rat_mul(lam, q2)), rat_mul(lam, q3)),
                rat_mul(lam, q4),
            ),
            rat_mul(lam, rat_add(rat_add(rat_add(q1, q2), q3), q4)),
        ),
{
    let c2 = rat_add(q1, q2);
    let c3 = rat_add(c2, q3);
    let c4 = rat_add(c3, q4);
    let m2 = rat_add(rat_mul(lam, q1), rat_mul(lam, q2));
    let m3 = rat_add(m2, rat_mul(lam, q3));
    let m4 = rat_add(m3, rat_mul(lam, q4));
    lemma_mul_add_distrib(lam, q1, q2);
    lemma_eqv_sym(rat_mul(lam, c2), m2);
    lemma_mul_add_distrib(lam, c2, q3);
    lemma_add_congruence(rat_mul(lam, c2), m2, rat_mul(lam, q3), rat_mul(lam, q3));
    lemma_eqv_trans(rat_mul(lam, c3), rat_add(rat_mul(lam, c2), rat_mul(lam, q3)), m3);
    lemma_mul_add_distrib(lam, c3, q4);
    lemma_add_congruence(rat_mul(lam, c3), m3, rat_mul(lam, q4), rat_mul(lam, q4));
    lemma_eqv_trans(rat_mul(lam, c4), rat_add(rat_mul(lam, c3), rat_mul(lam, q4)), m4);
    lemma_eqv_sym(rat_mul(lam, c4), m4);
}

/// A rectangular, row-major table of exact rational scalars.
#[derive(Debug)]
pub struct Matrix {
    /// Number of rows.
    pub rows: usize,
    /// Number of columns.
    pub cols: usize,
    /// Row-major storage; kept consistent with `rows` and `cols` by
    /// [`Matrix::wf`].
    pub data: Vec<Vec<Rational>>,
}

impl View for Matrix {
    type V = Seq<Seq<Rat>>;

    closed spec fn view(&self) -> Seq<Seq<Rat>> {
        Seq::new(self.data@.len(), |i: int| rats(self.data@[i]@))
    }
}

impl Matrix {
    /// The representation invariant: the table is rectangular with the
    /// stated dimensions and well-formed entries.
    pub open spec fn wf(self) -> bool {
        self.inv() && self@.len() == self.rows as int && table_wf(self@, self.cols as int)
    }

    /// Storage-level part of the invariant.
    pub open spec fn inv(self) -> bool {
        self.data@.len() == self.rows as int && forall|i: int|
            0 <= i < self.data@.len() ==> (#[trigger] self.data@[i])@.len() == self.cols as int
                && all_wf(self.data@[i]@)
    }

    proof fn lemma_data_wf(self)
        requires
            self.inv(),
        ensures
            self.wf(),
    {
        assert forall|i: int| 0 <= i < self@.len() implies (#[trigger] self@[i]).len()
            == self.cols as int && all_rat_wf(self@[i]) by {
            lemma_all_wf_rats(self.data@[i]@);
        }
    }

    /// Build a matrix from its rows. Succeeds exactly when every row has
    /// the stated length.
    pub fn from_rows(rows: usize, cols: usize, entries: Vec<Vec<Rational>>) -> (r: Option<Matrix>)
        requires
            entries@.len() == rows as int,
            forall|i: int| 0 <= i < entries@.len() ==> all_wf((#[trigger] entries@[i])@),
        ensures
            (r matches Some(m) ==> m.wf() && m.rows == rows && m.cols == cols && forall|i: int|
                0 <= i < rows as int ==> #[trigger] m@[i] == rats(entries@[i]@)),
            (forall|i: int|
                0 <= i < entries@.len() ==> (#[trigger] entries@[i])@.len() == cols as int) ==> r
                is Some,
    {
        let n: usize = entries.len();
        let mut i: usize = 0;
        while i < n
            invariant
                0 <= i <= n,
                n == entries@.len(),
                forall|k: int| 0 <= k < i as int ==> (#[trigger] entries@[k])@.len() == cols as int,
            decreases n - i,
        {
            if entries[i].len() != cols {
                return None;
            }
            i = i + 1;
        }
        let m = Matrix { rows, cols, data: entries };
        proof {
            m.lemma_data_wf();
        }
        Some(m)
    }

    /// The all-zero matrix of the given dimensions.
    pub fn zeros(rows: usize, cols: usize) -> (r: Matrix)
        ensures
            r.wf(),
            r.rows == rows,
            r.cols == cols,
            forall|i: int, j: int|
                0 <= i < rows as int && 0 <= j < cols as int ==> #[trigger] r@[i][j] == rat_int(0),
    {
        let mut data: Vec<Vec<Rational>> = Vec::new();
        let mut i: usize = 0;
        while i < rows
            invariant
                0 <= i <= rows,
                data@.len() == i as int,
                forall|k: int|
                    0 <= k < i as int ==> (#[trigger] data@[k])@.len() == cols as int && all_wf(
                        data@[k]@,
                    ) && (forall|j: int|
                        0 <= j < cols as int ==> (#[trigger] data@[k]@[j])@ == rat_int(0)),
            decreases rows - i,
        {
            let mut row: Vec<Rational> = Vec::new();
            let mut j: usize = 0;
            while j < cols
                invariant
                    0 <= j <= cols,
                    row@.len() == j as int,
                    forall|t: int|
                        0 <= t < j as int ==> (#[trigger] row@[t]).wf() && row@[t]@ == rat_int(0),
                decreases cols - j,
            {
                row.push(Rational::zero());
                j = j + 1;
            }
            data.push(row);
            i = i + 1;
        }
        let m = Matrix { rows, cols, data };
        proof {
            m.lemma_data_wf();
        }
        m
    }

    /// The identity matrix of order `n`.
    pub fn identity(n: usize) -> (r: Matrix)
        ensures
            r.wf(),
            r.rows == n,
            r.cols == n,
            forall|i: int, j: int|
                0 <= i < n as int && 0 <= j < n as int ==> #[trigger] r@[i][j] == (if i == j {
                    rat_int(1)
                } else {
                    rat_int(0)
                }),
    {
        let mut data: Vec<Vec<Rational>> = Vec::new();
        let mut i: usize = 0;
        while i < n
            invariant
                0 <= i <= n,
                data@.len() == i as int,
                forall|k: int|
                    0 <= k < i as int ==> (#[trigger] data@[k])@.len() == n as int && all_wf(
                        data@[k]@,
                    ) && (forall|j: int|
                        0 <= j < n as int ==> (#[trigger] data@[k]@[j])@ == (if k == j {
                            rat_int(1)
                        } else {
                            rat_int(0)
                        })),
            decreases n - i,
        {
            let mut row: Vec<Rational> = Vec::new();
            let mut j: usize = 0;
            while j < n
                invariant
                    0 <= j <= n,
                    row@.len() == j as int,
                    forall|t: int|
                        0 <= t < j as int ==> (#[trigger] row@[t]).wf() && row@[t]@ == (if t
                            == i as int {
                            rat_int(1)
                        } else {
                            rat_int(0)
                        }),
                decreases n - j,
            {
                if j == i {
                    row.push(Rational::one());
                } else {
                    row.push(Rational::zero());
                }
                j = j + 1;
            }
            data.push(row);
            i = i + 1;
        }
        let m = Matrix { rows: n, cols: n, data };
        proof {
            m.lemma_data_wf();
        }
        m
    }

    /// An entrywise copy.
    pub fn duplicate(&self) -> (r: Matrix)
        requires
            self.wf(),
        ensures
            r.wf(),
            r.rows == self.rows,
            r.cols == self.cols,
            r@ == self@,
    {
        let rows: usize = self.rows;
        let mut data: Vec<Vec<Rational>> = Vec::new();
        let mut i: usize = 0;
        while i < rows
            invariant
                0 <= i <= rows,
                self.wf(),
                rows == self.rows,
                data@.len() == i as int,
                forall|k: int|
                    0 <= k < i as int ==> (#[trigger] data@[k])@.len() == self.cols as int && all_wf(
                        data@[k]@,
                    ) && rats(data@[k]@) == self@[k],
            decreases rows - i,
        {
            let row: Vec<Rational> = self.row(i);
            data.push(row);
            i = i + 1;
        }
        let m = Matrix { rows, cols: self.cols, data };
        proof {
            m.lemma_data_wf();
            assert(m@ =~= self@);
        }
        m
    }

    /// Read one entry.
    pub fn get(&self, i: usize, j: usize) -> (r: Rational)
        requires
            self.wf(),
            i < self.rows,
            j < self.cols,
        ensures
            r@ == self@[i as int][j as int],
            r.wf(),
    {
        let r = self.data[i][j];
        r
    }

    /// Copy of row `i`.
    pub fn row(&self, i: usize) -> (r: Vec<Rational>)
        requires
            self.wf(),
            i < self.rows,
        ensures
            rats(r@) == self@[i as int],
            all_wf(r@),
            r@.len() == self.cols as int,
    {
        let cols: usize = self.cols;
        let mut out: Vec<Rational> = Vec::new();
        let mut j: usize = 0;
        while j < cols
            invariant
                0 <= j <= cols,
                self.wf(),
                i < self.rows,
                cols == self.cols,
                out@.len() == j as int,
                forall|t: int|
                    0 <= t < j as int ==> (#[trigger] out@[t]).wf() && out@[t]@ == self@[i as int][t],
            decreases cols - j,
        {
            let v = self.get(i, j);
            out.push(v);
            j = j + 1;
        }
        proof {
            assert(rats(out@) =~= self@[i as int]);
        }
        out
    }

    /// Copy of column `j`.
    pub fn col(&self, j: usize) -> (r: Vec<Rational>)
        requires
            self.wf(),
            j < self.cols,
        ensures
            rats(r@) == col_of(self@, j as int),
            all_wf(r@),
            r@.len() == self.rows as int,
    {
        let rows: usize = self.rows;
        let mut out: Vec<Rational> = Vec::new();
        let mut i: usize = 0;
        while i < rows
            invariant
                0 <= i <= rows,
                self.wf(),
                j < self.cols,
                rows == self.rows,
                out@.len() == i as int,
                forall|t: int|
                    0 <= t < i as int ==> (#[trigger] out@[t]).wf() && out@[t]@ == self@[t][j as int],
            decreases rows - i,
        {
            let v = self.get(i, j);
            out.push(v);
            i = i + 1;
        }
        proof {
            assert(rats(out@) =~= col_of(self@, j as int));
        }
        out
    }

    /// The transposed matrix.
    pub fn transpose(&self) -> (r: Matrix)
        requires
            self.wf(),
        ensures
            r.wf(),
            r.rows == self.cols,
            r.cols == self.rows,
            forall|i: int, j: int|
                0 <= i < self.cols as int && 0 <= j < self.rows as int ==> #[trigger] r@[i][j]
                    == self@[j][i],
    {
        let rows: usize = self.cols;
        let cols: usize = self.rows;
        let mut data: Vec<Vec<Rational>> = Vec::new();
        let mut i: usize = 0;
        while i < rows
            invariant
                0 <= i <= rows,
                self.wf(),
                rows == self.cols,
                cols == self.rows,
                data@.len() == i as int,
                forall|k: int|
                    0 <= k < i as int ==> (#[trigger] data@[k])@.len() == cols as int && all_wf(
                        data@[k]@,
                    ) && (forall|j: int|
                        0 <= j < cols as int ==> (#[trigger] data@[k]@[j])@ == self@[j][k]),
            decreases rows - i,
        {
            let row: Vec<Rational> = self.col(i);
            proof {
                assert forall|j: int| 0 <= j < cols as int implies (#[trigger] row@[j])@
                    == self@[j][i as int] by {
                    assert(rats(row@)[j] == col_of(self@, i as int)[j]);
                }
            }
            data.push(row);
            i = i + 1;
        }
        let m = Matrix { rows, cols, data };
        proof {
            m.lemma_data_wf();
        }
        m
    }

    /// Exact matrix-vector product: entry `i` of the result is the inner
    /// product of row `i` with `x`.
    pub fn matvec(&self, x: &Vec<Rational>) -> (r: Option<Vec<Rational>>)
        requires
            self.wf(),
            x@.len() == self.cols as int,
            all_wf(x@),
        ensures
            r matches Some(v) ==> all_wf(v@) && v@.len() == self.rows as int && forall|i: int|
                0 <= i < self.rows as int ==> rat_eqv(
                    #[trigger] rats(v@)[i],
                    rat_dot(self@[i], rats(x@)),
                ) && rat_scales_to(rats(v@)[i], rat_dot(self@[i], rats(x@))),
            (forall|i: int|
                0 <= i < self.rows as int ==> rat_dot_fits(#[trigger] self@[i], rats(x@))) ==> r
                is Some,
    {
        let rows: usize = self.rows;
        let mut out: Vec<Rational> = Vec::new();
        let mut i: usize = 0;
        while i < rows
            invariant
                0 <= i <= rows,
                self.wf(),
                rows == self.rows,
                x@.len() == self.cols as int,
                all_wf(x@),
                out@.len() == i as int,
                forall|t: int|
                    0 <= t < i as int ==> (#[trigger] out@[t]).wf() && rat_eqv(
                        out@[t]@,
                        rat_dot(self@[t], rats(x@)),
                    ) && rat_scales_to(out@[t]@, rat_dot(self@[t], rats(x@))),
            decreases rows - i,
        {
            let ghost gi = i as int;
            let row: Vec<Rational> = self.row(i);
            let v: Rational = match dot(&row, x) {
                Some(v) => v,
                None => {
                    // This row's accumulation does not fit.
                    proof {
                        if forall|t: int|
                            0 <= t < rows as int ==> rat_dot_fits(#[trigger] self@[t], rats(x@)) {
                            assert(rat_dot_fits(self@[gi], rats(x@)));
                        }
                    }
                    return None;
                },
            };
            out.push(v);
            i = i + 1;
        }
        Some(out)
    }

    /// Exact matrix product: entry `(i, j)` of the result is the inner
    /// product of row `i` of `self` with column `j` of `other`.
    pub fn matmul(&self, other: &Matrix) -> (r: Option<Matrix>)
        requires
            self.wf(),
            other.wf(),
            self.cols == other.rows,
        ensures
            r matches Some(m) ==> m.wf() && m.rows == self.rows && m.cols == other.cols && forall|
                i: int,
                j: int,
            |
                0 <= i < self.rows as int && 0 <= j < other.cols as int ==> rat_eqv(
                    #[trigger] m@[i][j],
                    rat_dot(self@[i], col_of(other@, j)),
                ),
            (forall|i: int, j: int|
                0 <= i < self.rows as int && 0 <= j < other.cols as int ==> rat_dot_fits(
                    #[trigger] self@[i],
                    #[trigger] col_of(other@, j),
                )) ==> r is Some,
    {
        let rows: usize = self.rows;
        let cols: usize = other.cols;
        let mut data: Vec<Vec<Rational>> = Vec::new();
        let mut i: usize = 0;
        while i < rows
            invariant
                0 <= i <= rows,
                self.wf(),
                other.wf(),
                self.cols == other.rows,
                rows == self.rows,
                cols == other.cols,
                data@.len() == i as int,
                forall|k: int|
                    0 <= k < i as int ==> (#[trigger] data@[k])@.len() == cols as int && all_wf(
                        data@[k]@,
                    ) && (forall|j: int|
                        0 <= j < cols as int ==> rat_eqv(
                            (#[trigger] data@[k]@[j])@,
                            rat_dot(self@[k], col_of(other@, j)),
                        )),
            decreases rows - i,
        {
            let row: Vec<Rational> = self.row(i);
            let mut out_row: Vec<Rational> = Vec::new();
            let mut j: usize = 0;
            while j < cols
                invariant
                    0 <= j <= cols,
                    self.wf(),
                    other.wf(),
                    self.cols == other.rows,
                    rows == self.rows,
                    cols == other.cols,
                    i < rows,
                    rats(row@) == self@[i as int],
                    all_wf(row@),
                    row@.len() == self.cols as int,
                    out_row@.len() == j as int,
                    forall|t: int|
                        0 <= t < j as int ==> (#[trigger] out_row@[t]).wf() && rat_eqv(
                            out_row@[t]@,
                            rat_dot(self@[i as int], col_of(other@, t)),
                        ),
                decreases cols - j,
            {
                let c: Vec<Rational> = other.col(j);
                let v: Rational = match dot(&row, &c) {
                    Some(v) => v,
                    None => {
                        // This entry's accumulation does not fit.
                        proof {
                            if forall|i2: int, j2: int|
                                0 <= i2 < rows as int && 0 <= j2 < cols as int ==> rat_dot_fits(
                                #[trigger] self@[i2],
                                #[trigger] col_of(other@, j2),
                            ) {
                                assert(rat_dot_fits(self@[i as int], col_of(other@, j as int)));
                            }
                        }
                        return None;
                    },
                };
                out_row.push(v);
                j = j + 1;
            }
            data.push(out_row);
            i = i + 1;
        }
        let m = Matrix { rows, cols, data };
        proof {
            m.lemma_data_wf();
            assert forall|i2: int, j2: int|
                0 <= i2 < self.rows as int && 0 <= j2 < cols as int implies rat_eqv(
                #[trigger] m@[i2][j2],
                rat_dot(self@[i2], col_of(other@, j2)),
            ) by {
                assert(m@[i2][j2] == data@[i2]@[j2]@);
            }
        }
        Some(m)
    }
}

} // verus!
