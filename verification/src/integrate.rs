//! Decisions of the fixed-point time loop.
//!
//! The loop itself performs outside work every step (the solver update,
//! persisted writes); what this module owns is the decision taken after
//! each step: whether the state is due to be written, and whether the
//! loop stops, with the reason. The caller runs the loop, performs the
//! actions, and feeds the next state back in.
use crate::rational::{
    lemma_eqv_trans, lemma_lt_congruence, lemma_mul_wf, lemma_scales_fits, lemma_scales_mul,
    lemma_scales_self, rat_add, rat_eqv, rat_floor_div, rat_int, rat_lt, rat_mod_pos, rat_mul,
    rat_raw_fits, rat_sub, rat_wf, Rat, Rational,
};
use vstd::prelude::*;

verus! {

broadcast use crate::rational::lemma_add_wf, crate::rational::lemma_mul_wf,
    crate::rational::lemma_neg_wf, crate::rational::lemma_term_or_zero_wf;

/// Why the time loop ends.
#[derive(Clone, Copy, Debug, PartialEq, Eq, Structural)]
pub enum StopReason {
    /// The simulated time reached the configured limit.
    TimeLimit,
    /// The number of steps reached the configured limit.
    StepLimit,
    /// The integrator's own exit predicate asked to stop.
    ExitCondition,
}

/// What the loop does after one step: write the state or not, and stop
/// with a reason or continue.
pub struct StepDecision {
    /// Whether the state is due to be written.
    pub save: bool,
    /// `Some` ends the loop.
    pub stop: Option<StopReason>,
}

/// Half of `dt`.
pub open spec fn rat_half(dt: Rat) -> Rat {
    rat_mul(dt, Rat { n: 1, d: 2 })
}

/// A write is due when the time, taken modulo the save interval, lies
/// within half a step of the interval boundary.
pub open spec fn save_due(time: Rat, dt: Rat, ds: Rat) -> bool {
    rat_lt(rat_mod_pos(time, ds), rat_half(dt)) || rat_lt(
        crate::rational::rat_sub(ds, rat_half(dt)),
        rat_mod_pos(time, ds),
    )
}

/// The loop stops when `time + eps >= max_time`.
pub open spec fn time_limit_reached(time: Rat, eps: Rat, max_time: Rat) -> bool {
    !rat_lt(rat_add(time, eps), max_time)
}

/// Decide what the loop does after one step, from the state it can see:
/// the time and step just reached, the limits, and the integrator's own
/// exit predicate. `None` only when an intermediate value leaves the
/// 64-bit representation.
pub fn integrate_decision(
    time: &Rational,
    dt: &Rational,
    eps_dt: &Rational,
    max_time: &Rational,
    timestep: usize,
    max_timestep: usize,
    save_intervall: Option<&Rational>,
    exit_requested: bool,
) -> (r: Option<StepDecision>)
    requires
        time.wf(),
        dt.wf(),
        eps_dt.wf(),
        max_time.wf(),
        time@.n >= 0,
        save_intervall matches Some(ds) ==> ds.wf() && ds@.n > 0,
    ensures
        r matches Some(d) ==> {
            &&& d.save == (save_intervall matches Some(ds) && save_due(time@, dt@, ds@))
            &&& d.stop == (if time_limit_reached(time@, eps_dt@, max_time@) {
                Some(StopReason::TimeLimit)
            } else if timestep >= max_timestep {
                Some(StopReason::StepLimit)
            } else if exit_requested {
                Some(StopReason::ExitCondition)
            } else {
                None
            })
        },
        (rat_raw_fits(rat_half(dt@)) && rat_raw_fits(rat_add(time@, eps_dt@)) && (
        save_intervall matches Some(ds) ==> {
            &&& rat_floor_div(time@, ds@) <= 0x7fff_ffff_ffff_ffff
            &&& rat_raw_fits(rat_mul(rat_int(rat_floor_div(time@, ds@)), ds@))
            &&& rat_raw_fits(rat_mod_pos(time@, ds@))
            &&& rat_raw_fits(rat_sub(ds@, rat_half(dt@)))
        })) ==> r is Some,
{
    let ghost fits_hyp = rat_raw_fits(rat_half(dt@)) && rat_raw_fits(rat_add(time@, eps_dt@)) && (
    match save_intervall {
        Some(ds) => rat_floor_div(time@, ds@) <= 0x7fff_ffff_ffff_ffff && rat_raw_fits(
            rat_mul(rat_int(rat_floor_div(time@, ds@)), ds@),
        ) && rat_raw_fits(rat_mod_pos(time@, ds@)) && rat_raw_fits(rat_sub(ds@, rat_half(dt@))),
        None => true,
    });
    let half: Rational = match Rational::new(1, 2) {
        Some(q) => q,
        None => {
            proof {
                assert(false);
            }
            Rational::zero()
        },
    };
    let half_dt: Rational = match dt.mul(&half) {
        Some(q) => q,
        None => {
            // Half the step does not fit.
            proof {
                if fits_hyp {
                    dt.lemma_wf_view();
                    half.lemma_wf_view();
                    lemma_scales_self(dt@);
                    lemma_scales_mul(dt@, dt@, half@, Rat { n: 1, d: 2 });
                    lemma_scales_fits(rat_mul(dt@, half@), rat_half(dt@));
                }
            }
            return None;
        },
    };
    let save: bool = match save_intervall {
        Some(ds) => {
            let m: Rational = match time.mod_pos(ds) {
                Some(q) => q,
                None => {
                    // The time modulo the interval does not fit.
                    return None;
                },
            };
            let upper: Rational = match ds.sub(&half_dt) {
                Some(q) => q,
                None => {
                    // The upper window bound does not fit.
                    proof {
                        if fits_hyp {
                            ds.lemma_wf_view();
                            half_dt.lemma_wf_view();
                            dt.lemma_wf_view();
                            half.lemma_wf_view();
                            lemma_scales_self(ds@);
                            lemma_scales_self(dt@);
                            lemma_scales_mul(dt@, dt@, half@, Rat { n: 1, d: 2 });
                            crate::rational::lemma_scales_trans(
                                half_dt@,
                                rat_mul(dt@, half@),
                                rat_half(dt@),
                            );
                            crate::rational::lemma_scales_neg(half_dt@, rat_half(dt@));
                            crate::rational::lemma_scales_add(
                                ds@,
                                ds@,
                                crate::rational::rat_neg(half_dt@),
                                crate::rational::rat_neg(rat_half(dt@)),
                            );
                            crate::rational::lemma_neg_wf(half_dt@);
                            crate::rational::lemma_add_wf(
                                ds@,
                                crate::rational::rat_neg(half_dt@),
                            );
                            lemma_scales_fits(rat_sub(ds@, half_dt@), rat_sub(ds@, rat_half(dt@)));
                        }
                    }
                    return None;
                },
            };
            let c1: bool = m.lt(&half_dt);
            let c2: bool = upper.lt(&m);
            proof {
                m.lemma_wf_view();
                half.lemma_wf_view();
                half_dt.lemma_wf_view();
                upper.lemma_wf_view();
                time.lemma_wf_view();
                dt.lemma_wf_view();
                ds.lemma_wf_view();
                assert(rat_wf(rat_half(dt@)));
                assert(rat_wf(rat_mod_pos(time@, ds@))) by {
                    crate::rational::lemma_mul_wf(
                        crate::rational::rat_int(crate::rational::rat_floor_div(time@, ds@)),
                        ds@,
                    );
                    crate::rational::lemma_neg_wf(
                        rat_mul(
                            crate::rational::rat_int(
                                crate::rational::rat_floor_div(time@, ds@),
                            ),
                            ds@,
                        ),
                    );
                }
                assert(rat_wf(crate::rational::rat_sub(ds@, rat_half(dt@)))) by {
                    crate::rational::lemma_neg_wf(rat_half(dt@));
                }
                // half_dt ~ dt/2 and m ~ time mod ds carry the exec
                // comparisons over to the spec formulas.
                crate::rational::lemma_mul_congruence(dt@, dt@, half@, Rat { n: 1, d: 2 });
                lemma_eqv_trans(half_dt@, rat_mul(dt@, half@), rat_half(dt@));
                assert(rat_eqv(half_dt@, rat_half(dt@)));
                lemma_lt_congruence(m@, rat_mod_pos(time@, ds@), half_dt@, rat_half(dt@));
                crate::rational::lemma_neg_congruence(half_dt@, rat_half(dt@));
                crate::rational::lemma_add_congruence(
                    ds@,
                    ds@,
                    crate::rational::rat_neg(half_dt@),
                    crate::rational::rat_neg(rat_half(dt@)),
                );
                lemma_eqv_trans(
                    upper@,
                    crate::rational::rat_sub(ds@, half_dt@),
                    crate::rational::rat_sub(ds@, rat_half(dt@)),
                );
                lemma_lt_congruence(
                    upper@,
                    crate::rational::rat_sub(ds@, rat_half(dt@)),
                    m@,
                    rat_mod_pos(time@, ds@),
                );
            }
            c1 || c2
        },
        None => false,
    };
    let reached: Rational = match time.add(eps_dt) {
        Some(q) => q,
        None => {
            // The advanced time does not fit.
            return None;
        },
    };
    let time_over: bool = !reached.lt(max_time);
    proof {
        reached.lemma_wf_view();
        time.lemma_wf_view();
        eps_dt.lemma_wf_view();
        max_time.lemma_wf_view();
        lemma_lt_congruence(reached@, rat_add(time@, eps_dt@), max_time@, max_time@);
    }
    let stop: Option<StopReason> = if time_over {
        Some(StopReason::TimeLimit)
    } else if timestep >= max_timestep {
        Some(StopReason::StepLimit)
    } else if exit_requested {
        Some(StopReason::ExitCondition)
    } else {
        None
    };
    Some(StepDecision { save, stop })
}

} // verus!
