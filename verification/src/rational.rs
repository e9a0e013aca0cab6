//! Exact rational scalar used by every numerical kernel of the crate.
//!
//! The executable type [`Rational`] stores a reduced fraction in `i64`
//! fields; its mathematical value is the spec-level pair [`Rat`].
//! Arithmetic is exact: every operation either returns the true rational
//! result (reduced, and proved equivalent to the spec-level formula) or
//! reports, by returning `None`, that the reduced result does not fit the
//! 64-bit representation. Intermediate products are computed in 128 bits,
//! which cannot overflow for 64-bit operands.
use vstd::prelude::*;

verus! {

/// Mathematical value of a rational scalar: a numerator over a positive
/// denominator. Two `Rat`s with different fields may denote the same
/// number; [`rat_eqv`] compares them by cross-multiplication.
pub struct Rat {
    pub n: int,
    pub d: int,
}

/// A spec-level rational is well formed when its denominator is positive.
pub open spec fn rat_wf(a: Rat) -> bool {
    a.d > 0
}

/// Value equality of two rationals, by cross-multiplication.
pub open spec fn rat_eqv(a: Rat, b: Rat) -> bool {
    a.n * b.d == b.n * a.d
}

/// Sum of two rationals.
pub open spec fn rat_add(a: Rat, b: Rat) -> Rat {
    Rat { n: a.n * b.d + b.n * a.d, d: a.d * b.d }
}

/// Additive inverse.
pub open spec fn rat_neg(a: Rat) -> Rat {
    Rat { n: -a.n, d: a.d }
}

/// Difference of two rationals.
pub open spec fn rat_sub(a: Rat, b: Rat) -> Rat {
    rat_add(a, rat_neg(b))
}

/// Product of two rationals.
pub open spec fn rat_mul(a: Rat, b: Rat) -> Rat {
    Rat { n: a.n * b.n, d: a.d * b.d }
}

/// Quotient of two rationals; the sign moves to the numerator so the
/// result keeps a positive denominator. Meaningful only for `b.n != 0`.
pub open spec fn rat_div(a: Rat, b: Rat) -> Rat {
    if b.n >= 0 {
        Rat { n: a.n * b.d, d: a.d * b.n }
    } else {
        Rat { n: -(a.n * b.d), d: -(a.d * b.n) }
    }
}

/// The rational denoting the integer `i`.
pub open spec fn rat_int(i: int) -> Rat {
    Rat { n: i, d: 1 }
}

/// Whether a rational denotes zero.
pub open spec fn rat_is_zero(a: Rat) -> bool {
    a.n == 0
}

/// Strict order on rationals with positive denominators, by
/// cross-multiplication.
pub open spec fn rat_lt(a: Rat, b: Rat) -> bool {
    a.n * b.d < b.n * a.d
}

/// The floor of the quotient `a / b`, for a nonnegative `a` and positive
/// `b`.
pub open spec fn rat_floor_div(a: Rat, b: Rat) -> int {
    (a.n * b.d) / (a.d * b.n)
}

/// `a` modulo a positive period `b`: `a - floor(a / b) * b`.
pub open spec fn rat_mod_pos(a: Rat, b: Rat) -> Rat {
    rat_sub(a, rat_mul(rat_int(rat_floor_div(a, b)), b))
}

/// Strict order respects value equality.
pub proof fn lemma_lt_congruence(a1: Rat, a2: Rat, b1: Rat, b2: Rat)
    by (nonlinear_arith)
    requires
        rat_wf(a1),
        rat_wf(a2),
        rat_wf(b1),
        rat_wf(b2),
        rat_eqv(a1, a2),
        rat_eqv(b1, b2),
    ensures
        rat_lt(a1, b1) == rat_lt(a2, b2),
{
}

/// Whether both fields of `a` fit the 64-bit representation as they
/// stand, before any reduction.
pub open spec fn rat_raw_fits(a: Rat) -> bool {
    -0x7fff_ffff_ffff_ffff <= a.n <= 0x7fff_ffff_ffff_ffff && 0 < a.d <= 0x7fff_ffff_ffff_ffff
}

/// `v` is the fraction `r` shrunk componentwise by the factor `g`.
pub open spec fn rat_scaled_by(v: Rat, r: Rat, g: int) -> bool {
    g >= 1 && v.n * g == r.n && v.d * g == r.d
}

/// `v` is the fraction `r` shrunk componentwise by some positive factor:
/// the same value, with fields no larger in magnitude. Each arithmetic
/// operation returns a result in this relation to its unreduced formula,
/// which is what lets a whole pipeline promise success whenever every
/// unreduced intermediate fits the 64-bit representation.
pub open spec fn rat_scales_to(v: Rat, r: Rat) -> bool {
    exists|g: int| rat_scaled_by(v, r, g)
}

/// Every fraction shrinks to itself, by the factor one.
pub proof fn lemma_scales_self(v: Rat)
    ensures
        rat_scales_to(v, v),
{
    assert(rat_scaled_by(v, v, 1));
}

/// A shrunk fraction denotes the same value.
pub proof fn lemma_scales_eqv(v: Rat, r: Rat)
    requires
        rat_scales_to(v, r),
    ensures
        rat_eqv(v, r),
{
    let g = choose|g: int| rat_scaled_by(v, r, g);
    assert(rat_eqv(v, r)) by (nonlinear_arith)
        requires
            v.n * g == r.n,
            v.d * g == r.d,
    ;
}

/// If the unshrunk fraction fits the 64-bit representation, so does the
/// shrunk one.
pub proof fn lemma_scales_fits(v: Rat, r: Rat)
    requires
        rat_wf(v),
        rat_scales_to(v, r),
        rat_raw_fits(r),
    ensures
        rat_raw_fits(v),
{
    let g = choose|g: int| rat_scaled_by(v, r, g);
    assert(rat_raw_fits(v)) by (nonlinear_arith)
        requires
            g >= 1,
            v.n * g == r.n,
            v.d * g == r.d,
            v.d > 0,
            -0x7fff_ffff_ffff_ffff <= r.n <= 0x7fff_ffff_ffff_ffff,
            0 < r.d <= 0x7fff_ffff_ffff_ffff,
    ;
}

/// Shrinking does not change whether the value is zero.
pub proof fn lemma_scales_zero_iff(v: Rat, r: Rat)
    requires
        rat_scales_to(v, r),
    ensures
        rat_is_zero(v) == rat_is_zero(r),
{
    let g = choose|g: int| rat_scaled_by(v, r, g);
    assert(rat_is_zero(v) == rat_is_zero(r)) by (nonlinear_arith)
        requires
            g >= 1,
            v.n * g == r.n,
    ;
}

/// A well-formed shrunk fraction has a well-formed original.
pub proof fn lemma_scales_wf_up(v: Rat, r: Rat)
    requires
        rat_scales_to(v, r),
        rat_wf(v),
    ensures
        rat_wf(r),
{
    let g = choose|g: int| rat_scaled_by(v, r, g);
    assert(rat_wf(r)) by (nonlinear_arith)
        requires
            g >= 1,
            v.d * g == r.d,
            v.d > 0,
    ;
}

/// A shrunk fraction of a well-formed original is well formed.
pub proof fn lemma_scales_wf_down(v: Rat, r: Rat)
    requires
        rat_scales_to(v, r),
        rat_wf(r),
    ensures
        rat_wf(v),
{
    let g = choose|g: int| rat_scaled_by(v, r, g);
    assert(rat_wf(v)) by (nonlinear_arith)
        requires
            g >= 1,
            v.d * g == r.d,
            r.d > 0,
    ;
}

/// Shrinking composes.
pub proof fn lemma_scales_trans(a: Rat, b: Rat, c: Rat)
    requires
        rat_scales_to(a, b),
        rat_scales_to(b, c),
    ensures
        rat_scales_to(a, c),
{
    let g1 = choose|g: int| rat_scaled_by(a, b, g);
    let g2 = choose|g: int| rat_scaled_by(b, c, g);
    assert(g1 * g2 >= 1) by (nonlinear_arith)
        requires
            g1 >= 1,
            g2 >= 1,
    ;
    vstd::arithmetic::mul::lemma_mul_is_associative(a.n, g1, g2);
    vstd::arithmetic::mul::lemma_mul_is_associative(a.d, g1, g2);
    assert(rat_scaled_by(a, c, g1 * g2));
}

/// Products of pairs may be regrouped by partner.
pub proof fn lemma_mul_exchange(a: int, b: int, c: int, d: int)
    ensures
        (a * b) * (c * d) == (a * c) * (b * d),
{
    vstd::arithmetic::mul::lemma_mul_is_associative(a, b, c * d);
    vstd::arithmetic::mul::lemma_mul_is_associative(b, c, d);
    vstd::arithmetic::mul::lemma_mul_is_commutative(b, c);
    vstd::arithmetic::mul::lemma_mul_is_associative(c, b, d);
    vstd::arithmetic::mul::lemma_mul_is_associative(a, c, b * d);
}

/// Sums of shrunk fractions shrink to the sum of the unshrunk ones.
pub proof fn lemma_scales_add(v1: Rat, r1: Rat, v2: Rat, r2: Rat)
    requires
        rat_scales_to(v1, r1),
        rat_scales_to(v2, r2),
    ensures
        rat_scales_to(rat_add(v1, v2), rat_add(r1, r2)),
{
    let g1 = choose|g: int| rat_scaled_by(v1, r1, g);
    let g2 = choose|g: int| rat_scaled_by(v2, r2, g);
    assert(g1 * g2 >= 1) by (nonlinear_arith)
        requires
            g1 >= 1,
            g2 >= 1,
    ;
    vstd::arithmetic::mul::lemma_mul_is_distributive_add_other_way(
        g1 * g2,
        v1.n * v2.d,
        v2.n * v1.d,
    );
    lemma_mul_exchange(v1.n, v2.d, g1, g2);
    lemma_mul_exchange(v2.n, v1.d, g2, g1);
    vstd::arithmetic::mul::lemma_mul_is_commutative(g1, g2);
    lemma_mul_exchange(v1.d, v2.d, g1, g2);
    assert(rat_scaled_by(rat_add(v1, v2), rat_add(r1, r2), g1 * g2));
}

/// Products of shrunk fractions shrink to the product of the unshrunk
/// ones.
pub proof fn lemma_scales_mul(v1: Rat, r1: Rat, v2: Rat, r2: Rat)
    requires
        rat_scales_to(v1, r1),
        rat_scales_to(v2, r2),
    ensures
        rat_scales_to(rat_mul(v1, v2), rat_mul(r1, r2)),
{
    let g1 = choose|g: int| rat_scaled_by(v1, r1, g);
    let g2 = choose|g: int| rat_scaled_by(v2, r2, g);
    assert(g1 * g2 >= 1) by (nonlinear_arith)
        requires
            g1 >= 1,
            g2 >= 1,
    ;
    lemma_mul_exchange(v1.n, v2.n, g1, g2);
    lemma_mul_exchange(v1.d, v2.d, g1, g2);
    assert(rat_scaled_by(rat_mul(v1, v2), rat_mul(r1, r2), g1 * g2));
}

/// Negations of shrunk fractions shrink to the negated unshrunk one.
pub proof fn lemma_scales_neg(v: Rat, r: Rat)
    requires
        rat_scales_to(v, r),
    ensures
        rat_scales_to(rat_neg(v), rat_neg(r)),
{
    let g = choose|g: int| rat_scaled_by(v, r, g);
    assert(rat_scaled_by(rat_neg(v), rat_neg(r), g)) by (nonlinear_arith)
        requires
            g >= 1,
            v.n * g == r.n,
            v.d * g == r.d,
    ;
}

/// Quotients of shrunk fractions shrink to the quotient of the unshrunk
/// ones, for a nonzero divisor.
pub proof fn lemma_scales_div(v1: Rat, r1: Rat, v2: Rat, r2: Rat)
    requires
        rat_scales_to(v1, r1),
        rat_scales_to(v2, r2),
        !rat_is_zero(r2),
    ensures
        rat_scales_to(rat_div(v1, v2), rat_div(r1, r2)),
{
    let g1 = choose|g: int| rat_scaled_by(v1, r1, g);
    let g2 = choose|g: int| rat_scaled_by(v2, r2, g);
    assert((v2.n >= 0) == (r2.n >= 0)) by (nonlinear_arith)
        requires
            g2 >= 1,
            v2.n * g2 == r2.n,
            r2.n != 0,
    ;
    assert(g1 * g2 >= 1) by (nonlinear_arith)
        requires
            g1 >= 1,
            g2 >= 1,
    ;
    lemma_mul_exchange(v1.n, v2.d, g1, g2);
    vstd::arithmetic::mul::lemma_mul_is_commutative(g1, g2);
    lemma_mul_exchange(v1.d, v2.n, g1, g2);
    if r2.n >= 0 {
        assert(rat_scaled_by(
            Rat { n: v1.n * v2.d, d: v1.d * v2.n },
            Rat { n: r1.n * r2.d, d: r1.d * r2.n },
            g1 * g2,
        ));
    } else {
        vstd::arithmetic::mul::lemma_mul_unary_negation(v1.n * v2.d, g1 * g2);
        vstd::arithmetic::mul::lemma_mul_unary_negation(v1.d * v2.n, g1 * g2);
        assert(rat_scaled_by(
            Rat { n: -(v1.n * v2.d), d: -(v1.d * v2.n) },
            Rat { n: -(r1.n * r2.d), d: -(r1.d * r2.n) },
            g1 * g2,
        ));
    }
}

/// Exact rational scalar: a reduced fraction with a positive denominator.
#[derive(Clone, Copy, Debug)]
pub struct Rational {
    n: i64,
    d: i64,
}

impl View for Rational {
    type V = Rat;

    closed spec fn view(&self) -> Rat {
        Rat { n: self.n as int, d: self.d as int }
    }
}

impl Rational {
    /// A well-formed scalar has a well-formed mathematical value.
    pub proof fn lemma_wf_view(self)
        requires
            self.wf(),
        ensures
            rat_wf(self@),
    {
    }
}

/// Equivalence is symmetric.
pub proof fn lemma_eqv_sym(a: Rat, b: Rat)
    requires
        rat_eqv(a, b),
    ensures
        rat_eqv(b, a),
{
}

/// Equivalence is transitive on well-formed rationals.
pub proof fn lemma_eqv_trans(a: Rat, b: Rat, c: Rat)
    by (nonlinear_arith)
    requires
        rat_wf(a),
        rat_wf(b),
        rat_wf(c),
        rat_eqv(a, b),
        rat_eqv(b, c),
    ensures
        rat_eqv(a, c),
{
}

/// `t` when `cond` holds, the rational zero otherwise. Used to state
/// banded matrix rows uniformly near the boundary.
pub open spec fn term_or_zero(cond: bool, t: Rat) -> Rat {
    if cond {
        t
    } else {
        rat_int(0)
    }
}

/// `term_or_zero` of a well-formed term is well formed.
pub broadcast proof fn lemma_term_or_zero_wf(cond: bool, t: Rat)
    requires
        cond ==> rat_wf(t),
    ensures
        #[trigger] rat_wf(term_or_zero(cond, t)),
{
}

/// The sum of well-formed rationals is well formed.
pub broadcast proof fn lemma_add_wf(a: Rat, b: Rat)
    by (nonlinear_arith)
    requires
        rat_wf(a),
        rat_wf(b),
    ensures
        #[trigger] rat_wf(rat_add(a, b)),
{
}

/// The product of well-formed rationals is well formed.
pub broadcast proof fn lemma_mul_wf(a: Rat, b: Rat)
    by (nonlinear_arith)
    requires
        rat_wf(a),
        rat_wf(b),
    ensures
        #[trigger] rat_wf(rat_mul(a, b)),
{
}

/// The quotient of well-formed rationals with a nonzero divisor is
/// well formed.
pub proof fn lemma_div_wf(a: Rat, b: Rat)
    by (nonlinear_arith)
    requires
        rat_wf(a),
        rat_wf(b),
        !rat_is_zero(b),
    ensures
        rat_wf(rat_div(a, b)),
{
}

/// The negation of a well-formed rational is well formed.
pub broadcast proof fn lemma_neg_wf(a: Rat)
    requires
        rat_wf(a),
    ensures
        #[trigger] rat_wf(rat_neg(a)),
{
}

/// Addition respects equivalence.
pub proof fn lemma_add_congruence(a1: Rat, a2: Rat, b1: Rat, b2: Rat)
    requires
        rat_wf(a1),
        rat_wf(a2),
        rat_wf(b1),
        rat_wf(b2),
        rat_eqv(a1, a2),
        rat_eqv(b1, b2),
    ensures
        rat_eqv(rat_add(a1, b1), rat_add(a2, b2)),
        rat_wf(rat_add(a1, b1)),
        rat_wf(rat_add(a2, b2)),
{
    broadcast use vstd::arithmetic::mul::group_mul_properties;

    lemma_add_wf(a1, b1);
    lemma_add_wf(a2, b2);
    assert((a1.n * b1.d + b1.n * a1.d) * (a2.d * b2.d) == (a1.n * a2.d) * (b1.d * b2.d) + (b1.n
        * b2.d) * (a1.d * a2.d));
    assert((a2.n * b2.d + b2.n * a2.d) * (a1.d * b1.d) == (a2.n * a1.d) * (b1.d * b2.d) + (b2.n
        * b1.d) * (a1.d * a2.d));
}

/// Multiplication respects equivalence.
pub proof fn lemma_mul_congruence(a1: Rat, a2: Rat, b1: Rat, b2: Rat)
    requires
        rat_wf(a1),
        rat_wf(a2),
        rat_wf(b1),
        rat_wf(b2),
        rat_eqv(a1, a2),
        rat_eqv(b1, b2),
    ensures
        rat_eqv(rat_mul(a1, b1), rat_mul(a2, b2)),
        rat_wf(rat_mul(a1, b1)),
        rat_wf(rat_mul(a2, b2)),
{
    broadcast use vstd::arithmetic::mul::group_mul_properties;

    lemma_mul_wf(a1, b1);
    lemma_mul_wf(a2, b2);
    assert((a1.n * b1.n) * (a2.d * b2.d) == (a1.n * a2.d) * (b1.n * b2.d));
    assert((a2.n * b2.n) * (a1.d * b1.d) == (a2.n * a1.d) * (b2.n * b1.d));
}

/// A three-term sum `(lo + mid) + hi` respects equivalence termwise.
pub proof fn lemma_add2_congruence(lo: Rat, lo2: Rat, mid: Rat, mid2: Rat, hi: Rat, hi2: Rat)
    requires
        rat_wf(lo),
        rat_wf(lo2),
        rat_wf(mid),
        rat_wf(mid2),
        rat_wf(hi),
        rat_wf(hi2),
        rat_eqv(lo, lo2),
        rat_eqv(mid, mid2),
        rat_eqv(hi, hi2),
    ensures
        rat_eqv(rat_add(rat_add(lo, mid), hi), rat_add(rat_add(lo2, mid2), hi2)),
        rat_wf(rat_add(rat_add(lo, mid), hi)),
        rat_wf(rat_add(rat_add(lo2, mid2), hi2)),
{
    lemma_add_congruence(lo, lo2, mid, mid2);
    lemma_add_congruence(rat_add(lo, mid), rat_add(lo2, mid2), hi, hi2);
}

/// A four-term sum `((a + b) + c) + d` respects equivalence termwise.
pub proof fn lemma_add3_congruence(
    a: Rat,
    a2: Rat,
    b: Rat,
    b2: Rat,
    c: Rat,
    c2: Rat,
    d: Rat,
    d2: Rat,
)
    requires
        rat_wf(a),
        rat_wf(a2),
        rat_wf(b),
        rat_wf(b2),
        rat_wf(c),
        rat_wf(c2),
        rat_wf(d),
        rat_wf(d2),
        rat_eqv(a, a2),
        rat_eqv(b, b2),
        rat_eqv(c, c2),
        rat_eqv(d, d2),
    ensures
        rat_eqv(
            rat_add(rat_add(rat_add(a, b), c), d),
            rat_add(rat_add(rat_add(a2, b2), c2), d2),
        ),
        rat_wf(rat_add(rat_add(rat_add(a, b), c), d)),
        rat_wf(rat_add(rat_add(rat_add(a2, b2), c2), d2)),
{
    lemma_add2_congruence(a, a2, b, b2, c, c2);
    lemma_add_congruence(rat_add(rat_add(a, b), c), rat_add(rat_add(a2, b2), c2), d, d2);
}

/// Negation respects equivalence.
pub proof fn lemma_neg_congruence(a1: Rat, a2: Rat)
    requires
        rat_eqv(a1, a2),
    ensures
        rat_eqv(rat_neg(a1), rat_neg(a2)),
        rat_wf(a1) ==> rat_wf(rat_neg(a1)),
{
    assert(rat_eqv(rat_neg(a1), rat_neg(a2))) by (nonlinear_arith)
        requires
            rat_eqv(a1, a2),
    ;
}

/// Multiplication distributes over addition up to equivalence.
pub proof fn lemma_mul_add_distrib(a: Rat, x: Rat, y: Rat)
    requires
        rat_wf(a),
        rat_wf(x),
        rat_wf(y),
    ensures
        rat_eqv(rat_mul(a, rat_add(x, y)), rat_add(rat_mul(a, x), rat_mul(a, y))),
{
    broadcast use vstd::arithmetic::mul::group_mul_properties;

    let an = a.n;
    let ad = a.d;
    let xn = x.n;
    let xd = x.d;
    let yn = y.n;
    let yd = y.d;
    assert((an * (xn * yd + yn * xd)) * ((ad * xd) * (ad * yd)) == ((an * xn) * (ad * yd) + (an
        * yn) * (ad * xd)) * (ad * (xd * yd)));
}

/// Multiplication of rationals is commutative up to equivalence.
pub proof fn lemma_mul_comm(a: Rat, b: Rat)
    requires
        rat_wf(a),
        rat_wf(b),
    ensures
        rat_eqv(rat_mul(a, b), rat_mul(b, a)),
{
    broadcast use vstd::arithmetic::mul::group_mul_properties;

    assert((a.n * b.n) * (b.d * a.d) == (b.n * a.n) * (a.d * b.d));
}

/// Multiplication of rationals is associative up to equivalence.
pub proof fn lemma_mul_assoc(a: Rat, b: Rat, c: Rat)
    requires
        rat_wf(a),
        rat_wf(b),
        rat_wf(c),
    ensures
        rat_eqv(rat_mul(rat_mul(a, b), c), rat_mul(a, rat_mul(b, c))),
{
    broadcast use vstd::arithmetic::mul::group_mul_properties;

    assert(((a.n * b.n) * c.n) * (a.d * (b.d * c.d)) == (a.n * (b.n * c.n)) * ((a.d * b.d) * c.d));
}

/// Addition of rationals is associative up to equivalence.
pub proof fn lemma_add_assoc(a: Rat, b: Rat, c: Rat)
    requires
        rat_wf(a),
        rat_wf(b),
        rat_wf(c),
    ensures
        rat_eqv(rat_add(rat_add(a, b), c), rat_add(a, rat_add(b, c))),
{
    broadcast use vstd::arithmetic::mul::group_mul_properties;

    let an = a.n;
    let ad = a.d;
    let bn = b.n;
    let bd = b.d;
    let cn = c.n;
    let cd = c.d;
    assert(((an * bd + bn * ad) * cd + cn * (ad * bd)) * (ad * (bd * cd)) == (an * (bd * cd) + (bn
        * cd + cn * bd) * ad) * ((ad * bd) * cd));
}

/// The middle operands of a sum of sums may be exchanged.
pub proof fn lemma_add_exchange(a: Rat, b: Rat, c: Rat, d: Rat)
    requires
        rat_wf(a),
        rat_wf(b),
        rat_wf(c),
        rat_wf(d),
    ensures
        rat_eqv(rat_add(rat_add(a, b), rat_add(c, d)), rat_add(rat_add(a, c), rat_add(b, d))),
{
    lemma_add_wf(a, b);
    lemma_add_wf(c, d);
    lemma_add_wf(b, d);
    lemma_add_wf(a, c);
    lemma_add_wf(b, c);
    lemma_add_wf(c, b);
    lemma_add_wf(b, rat_add(c, d));
    lemma_add_wf(rat_add(b, c), d);
    lemma_add_wf(rat_add(c, b), d);
    lemma_add_wf(c, rat_add(b, d));
    lemma_add_wf(a, rat_add(b, rat_add(c, d)));
    lemma_add_wf(a, rat_add(c, rat_add(b, d)));
    lemma_add_wf(rat_add(a, b), rat_add(c, d));
    lemma_add_wf(rat_add(a, c), rat_add(b, d));
    // (a + b) + (c + d) ~ a + (b + (c + d))
    lemma_add_assoc(a, b, rat_add(c, d));
    // b + (c + d) ~ (b + c) + d ~ (c + b) + d ~ c + (b + d)
    lemma_add_assoc(b, c, d);
    lemma_eqv_sym(rat_add(rat_add(b, c), d), rat_add(b, rat_add(c, d)));
    lemma_add_comm(b, c);
    lemma_add_congruence(rat_add(b, c), rat_add(c, b), d, d);
    lemma_add_assoc(c, b, d);
    lemma_eqv_trans(rat_add(b, rat_add(c, d)), rat_add(rat_add(b, c), d), rat_add(rat_add(c, b), d));
    lemma_eqv_trans(rat_add(b, rat_add(c, d)), rat_add(rat_add(c, b), d), rat_add(c, rat_add(b, d)));
    // substitute under a + _
    lemma_add_congruence(a, a, rat_add(b, rat_add(c, d)), rat_add(c, rat_add(b, d)));
    lemma_eqv_trans(
        rat_add(rat_add(a, b), rat_add(c, d)),
        rat_add(a, rat_add(b, rat_add(c, d))),
        rat_add(a, rat_add(c, rat_add(b, d))),
    );
    // a + (c + (b + d)) ~ (a + c) + (b + d)
    lemma_add_assoc(a, c, rat_add(b, d));
    lemma_eqv_sym(rat_add(rat_add(a, c), rat_add(b, d)), rat_add(a, rat_add(c, rat_add(b, d))));
    lemma_eqv_trans(
        rat_add(rat_add(a, b), rat_add(c, d)),
        rat_add(a, rat_add(c, rat_add(b, d))),
        rat_add(rat_add(a, c), rat_add(b, d)),
    );
}

/// A combined coefficient applied to a value splits into the plain part
/// and the scaled part: from `cb ~ ab + lam * bb` follows
/// `cb * xv ~ ab * xv + lam * (bb * xv)`.
pub proof fn lemma_term_split(cb: Rat, ab: Rat, bb: Rat, lam: Rat, xv: Rat)
    requires
        rat_wf(cb),
        rat_wf(ab),
        rat_wf(bb),
        rat_wf(lam),
        rat_wf(xv),
        rat_eqv(cb, rat_add(ab, rat_mul(lam, bb))),
    ensures
        rat_eqv(rat_mul(cb, xv), rat_add(rat_mul(ab, xv), rat_mul(lam, rat_mul(bb, xv)))),
{
    let q = rat_mul(lam, bb);
    lemma_mul_wf(lam, bb);
    lemma_add_wf(ab, q);
    lemma_mul_wf(cb, xv);
    lemma_mul_wf(rat_add(ab, q), xv);
    lemma_mul_wf(xv, rat_add(ab, q));
    lemma_mul_wf(xv, ab);
    lemma_mul_wf(xv, q);
    lemma_mul_wf(ab, xv);
    lemma_mul_wf(q, xv);
    lemma_mul_wf(bb, xv);
    lemma_mul_wf(lam, rat_mul(bb, xv));
    lemma_add_wf(rat_mul(xv, ab), rat_mul(xv, q));
    lemma_add_wf(rat_mul(ab, xv), rat_mul(q, xv));
    lemma_add_wf(rat_mul(ab, xv), rat_mul(lam, rat_mul(bb, xv)));
    lemma_mul_congruence(cb, rat_add(ab, q), xv, xv);
    lemma_mul_comm(rat_add(ab, q), xv);
    lemma_eqv_trans(rat_mul(cb, xv), rat_mul(rat_add(ab, q), xv), rat_mul(xv, rat_add(ab, q)));
    lemma_mul_add_distrib(xv, ab, q);
    lemma_eqv_trans(
        rat_mul(cb, xv),
        rat_mul(xv, rat_add(ab, q)),
        rat_add(rat_mul(xv, ab), rat_mul(xv, q)),
    );
    lemma_mul_comm(xv, ab);
    lemma_mul_comm(xv, q);
    lemma_add_congruence(rat_mul(xv, ab), rat_mul(ab, xv), rat_mul(xv, q), rat_mul(q, xv));
    lemma_eqv_trans(
        rat_mul(cb, xv),
        rat_add(rat_mul(xv, ab), rat_mul(xv, q)),
        rat_add(rat_mul(ab, xv), rat_mul(q, xv)),
    );
    lemma_mul_assoc(lam, bb, xv);
    lemma_add_congruence(
        rat_mul(ab, xv),
        rat_mul(ab, xv),
        rat_mul(q, xv),
        rat_mul(lam, rat_mul(bb, xv)),
    );
    lemma_eqv_trans(
        rat_mul(cb, xv),
        rat_add(rat_mul(ab, xv), rat_mul(q, xv)),
        rat_add(rat_mul(ab, xv), rat_mul(lam, rat_mul(bb, xv))),
    );
}

/// Adding a zero-valued rational changes nothing.
pub proof fn lemma_add_zero(v: Rat, z: Rat)
    by (nonlinear_arith)
    requires
        rat_wf(v),
        rat_wf(z),
        rat_is_zero(z),
    ensures
        rat_eqv(rat_add(v, z), v),
{
}

/// Multiplying by a zero-valued rational gives zero.
pub proof fn lemma_mul_by_zero(a: Rat, x: Rat)
    by (nonlinear_arith)
    requires
        rat_wf(a),
        rat_wf(x),
        rat_is_zero(a),
    ensures
        rat_eqv(rat_mul(a, x), rat_int(0)),
        rat_is_zero(rat_mul(a, x)),
{
}

/// Equal sums with equal second terms have equal first terms.
pub proof fn lemma_add_cancel(x1: Rat, x2: Rat, y1: Rat, y2: Rat)
    requires
        rat_wf(x1),
        rat_wf(x2),
        rat_wf(y1),
        rat_wf(y2),
        rat_eqv(rat_add(x1, y1), rat_add(x2, y2)),
        rat_eqv(y1, y2),
    ensures
        rat_eqv(x1, x2),
{
    broadcast use vstd::arithmetic::mul::group_mul_properties;

    let a = x1.n;
    let b = x1.d;
    let c = x2.n;
    let d = x2.d;
    let p = y1.n;
    let q = y1.d;
    let r = y2.n;
    let s = y2.d;
    // Hypotheses, written out over the fields.
    assert((a * q + p * b) * (d * s) == (c * s + r * d) * (b * q));
    assert(p * s == r * q);
    // Expand both products and cancel the equal low terms.
    assert((a * q + p * b) * (d * s) == (a * q) * (d * s) + (p * b) * (d * s));
    assert((c * s + r * d) * (b * q) == (c * s) * (b * q) + (r * d) * (b * q));
    assert((p * b) * (d * s) == (r * d) * (b * q)) by (nonlinear_arith)
        requires
            p * s == r * q,
    ;
    assert((a * q) * (d * s) == (c * s) * (b * q));
    assert((a * q) * (d * s) == (a * d) * (q * s));
    assert((c * s) * (b * q) == (c * b) * (q * s));
    assert(a * d == c * b) by (nonlinear_arith)
        requires
            (a * d) * (q * s) == (c * b) * (q * s),
            q > 0,
            s > 0,
    ;
}

/// Equal products with an equal nonzero factor have equal cofactors.
pub proof fn lemma_mul_cancel(k: Rat, x1: Rat, x2: Rat)
    by (nonlinear_arith)
    requires
        rat_wf(k),
        rat_wf(x1),
        rat_wf(x2),
        !rat_is_zero(k),
        rat_eqv(rat_mul(k, x1), rat_mul(k, x2)),
    ensures
        rat_eqv(x1, x2),
{
}

/// Addition of rationals is commutative up to equivalence.
pub proof fn lemma_add_comm(a: Rat, b: Rat)
    by (nonlinear_arith)
    requires
        rat_wf(a),
        rat_wf(b),
    ensures
        rat_eqv(rat_add(a, b), rat_add(b, a)),
{
}

proof fn lemma_mul_bound(a: int, b: int, m: int)
    by (nonlinear_arith)
    requires
        -m <= a <= m,
        -m <= b <= m,
        0 <= m,
    ensures
        -(m * m) <= a * b <= m * m,
{
}

proof fn lemma_mul_pos_range(a: int, b: int, m: int)
    by (nonlinear_arith)
    requires
        1 <= a <= m,
        1 <= b <= m,
    ensures
        1 <= a * b <= m * m,
{
}

proof fn lemma_reduce_eqv(qn: int, qd: int, g: int, na: int, dd: int)
    by (nonlinear_arith)
    requires
        na == qn * g,
        dd == qd * g,
    ensures
        na * qd == qn * dd,
        (-na) * qd == (-qn) * dd,
{
}

/// Greatest common divisor by Euclid's algorithm; used only to shrink a
/// fraction, exactness of the shrink is checked by the caller.
fn gcd_u128(a: u128, b: u128) -> (g: u128)
    requires
        a > 0 || b > 0,
    ensures
        g > 0,
{
    let mut x: u128 = a;
    let mut y: u128 = b;
    while y > 0
        invariant
            x > 0 || y > 0,
        decreases y,
    {
        let t: u128 = x % y;
        x = y;
        y = t;
    }
    x
}

impl Rational {
    /// The representation invariant: positive denominator, and a numerator
    /// whose negation is still representable.
    pub closed spec fn wf(self) -> bool {
        0 < self.d && -0x7fff_ffff_ffff_ffff <= self.n
    }

    /// Bring a sign/magnitude fraction into `i64` range, shrinking it by the
    /// greatest common divisor first. Returns `None` only when even the
    /// shrunk fraction does not fit; a fraction whose raw fields fit always
    /// succeeds.
    fn reduce(neg: bool, n_abs: u128, d: u128) -> (r: Option<Rational>)
        requires
            0 < d,
        ensures
            (r matches Some(v) ==> v.wf() && rat_eqv(
                v@,
                Rat { n: if neg { -(n_abs as int) } else { n_abs as int }, d: d as int },
            ) && rat_scales_to(
                v@,
                Rat { n: if neg { -(n_abs as int) } else { n_abs as int }, d: d as int },
            )),
            n_abs <= 0x7fff_ffff_ffff_ffff && d <= 0x7fff_ffff_ffff_ffff ==> r is Some,
    {
        let ghost orig = Rat { n: if neg { -(n_abs as int) } else { n_abs as int }, d: d as int };
        if n_abs == 0 {
            let v = Rational { n: 0, d: 1 };
            assert(rat_eqv(v@, orig)) by (nonlinear_arith)
                requires
                    v@.n == 0,
                    v@.d == 1,
                    orig.n == 0,
            ;
            assert(rat_scaled_by(v@, orig, d as int)) by (nonlinear_arith)
                requires
                    v@.n == 0,
                    v@.d == 1,
                    orig.n == 0,
                    orig.d == d as int,
                    d >= 1,
            ;
            return Some(v);
        }
        let g: u128 = gcd_u128(n_abs, d);
        if n_abs % g == 0 && d % g == 0 {
            let qn: u128 = n_abs / g;
            let qd: u128 = d / g;
            proof {
                vstd::arithmetic::div_mod::lemma_fundamental_div_mod(n_abs as int, g as int);
                vstd::arithmetic::div_mod::lemma_fundamental_div_mod(d as int, g as int);
                assert(n_abs as int == qn as int * g as int && d as int == qd as int * g as int)
                    by (nonlinear_arith)
                    requires
                        n_abs as int == g as int * (n_abs as int / g as int) + (n_abs as int) % (
                        g as int),
                        d as int == g as int * (d as int / g as int) + (d as int) % (g as int),
                        qn as int == n_abs as int / g as int,
                        qd as int == d as int / g as int,
                        (n_abs as int) % (g as int) == 0,
                        (d as int) % (g as int) == 0,
                ;
                assert(qn <= n_abs && qd <= d && qd > 0) by (nonlinear_arith)
                    requires
                        n_abs as int == qn as int * g as int,
                        d as int == qd as int * g as int,
                        g >= 1,
                        n_abs > 0,
                        d > 0,
                        qn >= 0,
                        qd >= 0,
                ;
            }
            if qn <= 0x7fff_ffff_ffff_ffff && qd <= 0x7fff_ffff_ffff_ffff {
                let v = Rational {
                    n: if neg {
                        -(qn as i64)
                    } else {
                        qn as i64
                    },
                    d: qd as i64,
                };
                proof {
                    lemma_reduce_eqv(qn as int, qd as int, g as int, n_abs as int, d as int);
                    assert(rat_scaled_by(v@, orig, g as int)) by (nonlinear_arith)
                        requires
                            qn as int * g as int == n_abs as int,
                            qd as int * g as int == d as int,
                            g >= 1,
                            v@.n == if neg { -(qn as int) } else { qn as int },
                            v@.d == qd as int,
                            orig.n == if neg { -(n_abs as int) } else { n_abs as int },
                            orig.d == d as int,
                    ;
                }
                Some(v)
            } else {
                None
            }
        } else {
            // Unreachable for a true divisor, but nothing downstream relies
            // on Euclid's algorithm: fall back to the unreduced fraction.
            if n_abs <= 0x7fff_ffff_ffff_ffff && d <= 0x7fff_ffff_ffff_ffff {
                let v = Rational {
                    n: if neg {
                        -(n_abs as i64)
                    } else {
                        n_abs as i64
                    },
                    d: d as i64,
                };
                assert(rat_eqv(v@, orig));
                proof {
                    assert(rat_scaled_by(v@, orig, 1int));
                }
                Some(v)
            } else {
                None
            }
        }
    }

    fn from_parts_i128(n: i128, d: i128) -> (r: Option<Rational>)
        requires
            0 < d,
            -0x7fff_ffff_ffff_ffff_ffff_ffff_ffff_ffff <= n,
        ensures
            (r matches Some(v) ==> v.wf() && rat_eqv(v@, Rat { n: n as int, d: d as int })
                && rat_scales_to(v@, Rat { n: n as int, d: d as int })),
            rat_raw_fits(Rat { n: n as int, d: d as int }) ==> r is Some,
    {
        let neg: bool = n < 0;
        let n_abs: u128 = if n < 0 {
            (-n) as u128
        } else {
            n as u128
        };
        Self::reduce(neg, n_abs, d as u128)
    }

    /// The rational denoting the integer `n`.
    pub fn from_i64(n: i64) -> (r: Rational)
        requires
            n != i64::MIN,
        ensures
            r.wf(),
            r@ == rat_int(n as int),
    {
        Rational { n, d: 1 }
    }

    /// The rational `num / den`. Fails only for a zero denominator.
    pub fn new(num: i64, den: i64) -> (r: Option<Rational>)
        requires
            num != i64::MIN,
            den != i64::MIN,
        ensures
            (r matches Some(v) ==> v.wf() && den != 0 && rat_eqv(
                v@,
                Rat { n: num as int, d: den as int },
            )),
            (r matches Some(v) ==> (den > 0 ==> rat_scales_to(
                v@,
                Rat { n: num as int, d: den as int },
            ))),
            den != 0 ==> r is Some,
    {
        if den == 0 {
            return None;
        }
        let neg: bool = (num < 0) != (den < 0);
        let n_abs: u128 = if num < 0 {
            (-num) as u128
        } else {
            num as u128
        };
        let d_abs: u128 = if den < 0 {
            (-den) as u128
        } else {
            den as u128
        };
        let r = Self::reduce(neg, n_abs, d_abs);
        proof {
            let v0 = Rat {
                n: if neg { -(n_abs as int) } else { n_abs as int },
                d: d_abs as int,
            };
            let tgt = Rat { n: num as int, d: den as int };
            if r is Some {
                let v = r->0;
                assert(rat_eqv(v@, v0));
                assert(v0.n * tgt.d == tgt.n * v0.d) by (nonlinear_arith)
                    requires
                        v0.n == if neg { -(n_abs as int) } else { n_abs as int },
                        v0.d == d_abs as int,
                        tgt.n == num as int,
                        tgt.d == den as int,
                        n_abs as int == if num < 0 { -(num as int) } else { num as int },
                        d_abs as int == if den < 0 { -(den as int) } else { den as int },
                        neg == ((num < 0) != (den < 0)),
                        den != 0,
                ;
                assert(rat_eqv(v@, tgt)) by (nonlinear_arith)
                    requires
                        rat_eqv(v@, v0),
                        rat_eqv(v0, tgt),
                        v0.d > 0,
                ;
            }
        }
        r
    }

    /// The rational zero.
    pub fn zero() -> (r: Rational)
        ensures
            r.wf(),
            r@ == rat_int(0),
    {
        Rational { n: 0, d: 1 }
    }

    /// The rational one.
    pub fn one() -> (r: Rational)
        ensures
            r.wf(),
            r@ == rat_int(1),
    {
        Rational { n: 1, d: 1 }
    }

    /// The numerator of the reduced fraction.
    pub fn numer(&self) -> (r: i64)
        ensures
            r as int == self@.n,
    {
        self.n
    }

    /// The denominator of the reduced fraction.
    pub fn denom(&self) -> (r: i64)
        ensures
            r as int == self@.d,
    {
        self.d
    }

    /// Whether this scalar denotes zero.
    pub fn is_zero(&self) -> (r: bool)
        ensures
            r == rat_is_zero(self@),
    {
        self.n == 0
    }

    /// Value equality with another scalar.
    pub fn eq_rat(&self, other: &Rational) -> (r: bool)
        requires
            self.wf(),
            other.wf(),
        ensures
            r == rat_eqv(self@, other@),
    {
        proof {
            lemma_mul_bound(self.n as int, other.d as int, 0x7fff_ffff_ffff_ffff);
            lemma_mul_bound(other.n as int, self.d as int, 0x7fff_ffff_ffff_ffff);
        }
        let lhs: i128 = self.n as i128 * other.d as i128;
        let rhs: i128 = other.n as i128 * self.d as i128;
        lhs == rhs
    }

    /// Strict order against another scalar.
    pub fn lt(&self, other: &Rational) -> (r: bool)
        requires
            self.wf(),
            other.wf(),
        ensures
            r == rat_lt(self@, other@),
    {
        proof {
            lemma_mul_bound(self.n as int, other.d as int, 0x7fff_ffff_ffff_ffff);
            lemma_mul_bound(other.n as int, self.d as int, 0x7fff_ffff_ffff_ffff);
        }
        let lhs: i128 = self.n as i128 * other.d as i128;
        let rhs: i128 = other.n as i128 * self.d as i128;
        lhs < rhs
    }

    /// Remainder of this scalar modulo a positive period, by flooring
    /// the quotient: the value `self - floor(self / other) * other`.
    pub fn mod_pos(&self, other: &Rational) -> (r: Option<Rational>)
        requires
            self.wf(),
            other.wf(),
            self@.n >= 0,
            other@.n > 0,
        ensures
            r matches Some(v) ==> v.wf() && rat_eqv(v@, rat_mod_pos(self@, other@)),
            (rat_floor_div(self@, other@) <= 0x7fff_ffff_ffff_ffff && rat_raw_fits(
                rat_mul(rat_int(rat_floor_div(self@, other@)), other@),
            ) && rat_raw_fits(rat_mod_pos(self@, other@))) ==> r is Some,
    {
        proof {
            lemma_mul_bound(self.n as int, other.d as int, 0x7fff_ffff_ffff_ffff);
            lemma_mul_bound(self.d as int, other.n as int, 0x7fff_ffff_ffff_ffff);
        }
        let num: i128 = self.n as i128 * other.d as i128;
        let den: i128 = self.d as i128 * other.n as i128;
        proof {
            assert(den > 0) by (nonlinear_arith)
                requires
                    den as int == self@.d * other@.n,
                    self@.d > 0,
                    other@.n > 0,
            ;
            assert(0 <= num / den <= num) by (nonlinear_arith)
                requires
                    num >= 0,
                    den > 0,
            ;
        }
        let q: i128 = num / den;
        proof {
            assert(q as int == rat_floor_div(self@, other@));
        }
        if q > 0x7fff_ffff_ffff_ffff {
            // The quotient itself does not fit.
            return None;
        }
        let qr: Rational = Rational { n: q as i64, d: 1 };
        let p: Rational = match qr.mul(other) {
            Some(w) => w,
            None => {
                // The subtracted multiple does not fit.
                proof {
                    assert(qr@ == rat_int(rat_floor_div(self@, other@)));
                }
                return None;
            },
        };
        let v: Rational = match self.sub(&p) {
            Some(w) => w,
            None => {
                // The remainder itself does not fit.
                proof {
                    qr.lemma_wf_view();
                    p.lemma_wf_view();
                    assert(qr@ == rat_int(rat_floor_div(self@, other@)));
                    if rat_raw_fits(rat_mod_pos(self@, other@)) {
                        lemma_scales_self(self@);
                        lemma_scales_neg(p@, rat_mul(rat_int(rat_floor_div(self@, other@)), other@));
                        lemma_scales_add(
                            self@,
                            self@,
                            rat_neg(p@),
                            rat_neg(rat_mul(rat_int(rat_floor_div(self@, other@)), other@)),
                        );
                        lemma_neg_wf(p@);
                        lemma_add_wf(self@, rat_neg(p@));
                        lemma_scales_fits(rat_sub(self@, p@), rat_mod_pos(self@, other@));
                    }
                }
                return None;
            },
        };
        proof {
            qr.lemma_wf_view();
            p.lemma_wf_view();
            v.lemma_wf_view();
            assert(qr@ == rat_int(rat_floor_div(self@, other@)));
            lemma_mul_wf(rat_int(rat_floor_div(self@, other@)), other@);
            lemma_neg_wf(p@);
            lemma_neg_wf(rat_mul(rat_int(rat_floor_div(self@, other@)), other@));
            lemma_add_wf(self@, rat_neg(p@));
            lemma_add_wf(self@, rat_neg(rat_mul(rat_int(rat_floor_div(self@, other@)), other@)));
            lemma_neg_congruence(p@, rat_mul(rat_int(rat_floor_div(self@, other@)), other@));
            lemma_add_congruence(
                self@,
                self@,
                rat_neg(p@),
                rat_neg(rat_mul(rat_int(rat_floor_div(self@, other@)), other@)),
            );
            lemma_eqv_trans(
                v@,
                rat_sub(self@, p@),
                rat_mod_pos(self@, other@),
            );
        }
        Some(v)
    }

    /// Additive inverse; exact and always representable.
    pub fn neg(&self) -> (r: Rational)
        requires
            self.wf(),
        ensures
            r.wf(),
            r@ == rat_neg(self@),
    {
        Rational { n: -self.n, d: self.d }
    }

    /// Exact sum. `None` only when the reduced result leaves `i64` range.
    pub fn add(&self, other: &Rational) -> (r: Option<Rational>)
        requires
            self.wf(),
            other.wf(),
        ensures
            (r matches Some(v) ==> v.wf() && rat_eqv(v@, rat_add(self@, other@))
                && rat_scales_to(v@, rat_add(self@, other@))),
            rat_raw_fits(rat_add(self@, other@)) ==> r is Some,
    {
        let m: i128 = 0x7fff_ffff_ffff_ffff;
        proof {
            lemma_mul_bound(self.n as int, other.d as int, m as int);
            lemma_mul_bound(other.n as int, self.d as int, m as int);
            lemma_mul_pos_range(self.d as int, other.d as int, m as int);
        }
        let n: i128 = self.n as i128 * other.d as i128 + other.n as i128 * self.d as i128;
        let d: i128 = self.d as i128 * other.d as i128;
        Self::from_parts_i128(n, d)
    }

    /// Exact difference. `None` only when the reduced result leaves `i64`
    /// range.
    pub fn sub(&self, other: &Rational) -> (r: Option<Rational>)
        requires
            self.wf(),
            other.wf(),
        ensures
            (r matches Some(v) ==> v.wf() && rat_eqv(v@, rat_sub(self@, other@))
                && rat_scales_to(v@, rat_sub(self@, other@))),
            rat_raw_fits(rat_sub(self@, other@)) ==> r is Some,
    {
        self.add(&other.neg())
    }

    /// Exact product. `None` only when the reduced result leaves `i64`
    /// range.
    pub fn mul(&self, other: &Rational) -> (r: Option<Rational>)
        requires
            self.wf(),
            other.wf(),
        ensures
            (r matches Some(v) ==> v.wf() && rat_eqv(v@, rat_mul(self@, other@))
                && rat_scales_to(v@, rat_mul(self@, other@))),
            rat_raw_fits(rat_mul(self@, other@)) ==> r is Some,
    {
        let m: i128 = 0x7fff_ffff_ffff_ffff;
        proof {
            lemma_mul_bound(self.n as int, other.n as int, m as int);
            lemma_mul_pos_range(self.d as int, other.d as int, m as int);
        }
        let n: i128 = self.n as i128 * other.n as i128;
        let d: i128 = self.d as i128 * other.d as i128;
        Self::from_parts_i128(n, d)
    }

    /// Exact quotient. The divisor must be nonzero; `None` only when the
    /// reduced result leaves `i64` range.
    pub fn div(&self, other: &Rational) -> (r: Option<Rational>)
        requires
            self.wf(),
            other.wf(),
            !rat_is_zero(other@),
        ensures
            (r matches Some(v) ==> v.wf() && rat_eqv(v@, rat_div(self@, other@))
                && rat_scales_to(v@, rat_div(self@, other@))),
            rat_raw_fits(rat_div(self@, other@)) ==> r is Some,
    {
        let m: i128 = 0x7fff_ffff_ffff_ffff;
        proof {
            lemma_mul_bound(self.n as int, other.d as int, m as int);
            lemma_mul_bound(self.d as int, other.n as int, m as int);
        }
        let n0: i128 = self.n as i128 * other.d as i128;
        let d0: i128 = self.d as i128 * other.n as i128;
        proof {
            assert((other@.n > 0 ==> d0 > 0) && (other@.n < 0 ==> d0 < 0)) by (nonlinear_arith)
                requires
                    d0 as int == self@.d * other@.n,
                    self@.d > 0,
            ;
        }
        if d0 < 0 {
            Self::from_parts_i128(-n0, -d0)
        } else {
            Self::from_parts_i128(n0, d0)
        }
    }
}

} // verus!
