use vstd::prelude::*;

use crate::fixed::SCALE;

verus! {

/// One half in scaled units: `SCALE / 2`.
pub const SIG_MID: i64 = 32768;

/// Knee between the middle and outer segments, about 7/3 in scaled units:
/// the point where the two floored segments meet without a jump.
pub const SIG_KNEE: i64 = 152917;

/// Saturation point of the piecewise sigmoid, at 5 in scaled units.
pub const SIG_SAT: i64 = 5 * SCALE;

/// Intercept of the middle segment, 5/8 in scaled units.
pub const SIG_B1: i64 = 40960;

/// Intercept of the outer segment, 27/32 in scaled units.
pub const SIG_B2: i64 = 55296;

/// The sigmoid nonlinearity and its derivative on scaled fixed-point
/// scalars.
pub struct Activation {}

/// The rising half of the piecewise-linear sigmoid approximation, for a
/// nonnegative argument below the saturation point.  Its slopes and
/// intercepts are powers of two, so every segment is exact in binary fixed
/// point.
pub open spec fn sigmoid_pos_spec(x: int) -> int {
    if x < SCALE {
        SIG_MID + x / 4
    } else if x < SIG_KNEE {
        SIG_B1 + x / 8
    } else {
        SIG_B2 + x / 32
    }
}

/// The scaled sigmoid: odd-symmetric around `(0, 1/2)`, saturating one
/// scalar step inside the open unit interval.
pub open spec fn sigmoid_spec(x: int) -> int {
    if x >= SIG_SAT {
        SCALE - 1
    } else if x <= -(SIG_SAT as int) {
        1
    } else if x >= 0 {
        sigmoid_pos_spec(x)
    } else {
        SCALE - sigmoid_pos_spec(-x)
    }
}

/// The backpropagation damping factor in terms of an already-sigmoided
/// activation value `a`: the scaled product `a * (1 - a)`.
pub open spec fn sigmoid_deriv_spec(a: int) -> int {
    (a * (SCALE - a)) / (SCALE as int)
}

/// The rising half stays within `[1/2, 1)` on its domain.
pub proof fn lemma_sigmoid_pos_range(x: int)
    requires
        0 <= x < SIG_SAT,
    ensures
        SIG_MID <= sigmoid_pos_spec(x) <= SCALE - 1,
{
    if x < SCALE {
        vstd::arithmetic::div_mod::lemma_div_pos_is_pos(x, 4);
        vstd::arithmetic::div_mod::lemma_div_is_ordered(x, SCALE - 1, 4);
    } else if x < SIG_KNEE {
        vstd::arithmetic::div_mod::lemma_div_is_ordered(SCALE as int, x, 8);
        vstd::arithmetic::div_mod::lemma_div_is_ordered(x, SIG_KNEE - 1, 8);
    } else {
        vstd::arithmetic::div_mod::lemma_div_is_ordered(SIG_KNEE as int, x, 32);
        vstd::arithmetic::div_mod::lemma_div_is_ordered(x, SIG_SAT - 1, 32);
    }
}

/// The sigmoid's range: every value lies strictly between 0 and 1, that is,
/// strictly between 0 and `SCALE` in scaled units.
pub proof fn lemma_sigmoid_range(x: int)
    ensures
        0 < sigmoid_spec(x) < SCALE,
{
    if x >= SIG_SAT {
    } else if x <= -(SIG_SAT as int) {
    } else if x >= 0 {
        lemma_sigmoid_pos_range(x);
    } else {
        lemma_sigmoid_pos_range(-x);
    }
}

/// The rising half never decreases on its domain: within a segment the
/// floored division is monotone, and at each boundary the segments join.
pub proof fn lemma_sigmoid_pos_monotone(x1: int, x2: int)
    requires
        0 <= x1 <= x2 < SIG_SAT,
    ensures
        sigmoid_pos_spec(x1) <= sigmoid_pos_spec(x2),
{
    if x2 < SCALE {
        vstd::arithmetic::div_mod::lemma_div_is_ordered(x1, x2, 4);
    } else if x1 < SCALE && x2 < SIG_KNEE {
        vstd::arithmetic::div_mod::lemma_div_is_ordered(x1, SCALE - 1, 4);
        vstd::arithmetic::div_mod::lemma_div_is_ordered(SCALE as int, x2, 8);
    } else if x1 < SCALE {
        vstd::arithmetic::div_mod::lemma_div_is_ordered(x1, SCALE - 1, 4);
        vstd::arithmetic::div_mod::lemma_div_is_ordered(SIG_KNEE as int, x2, 32);
    } else if x2 < SIG_KNEE {
        vstd::arithmetic::div_mod::lemma_div_is_ordered(x1, x2, 8);
    } else if x1 < SIG_KNEE {
        vstd::arithmetic::div_mod::lemma_div_is_ordered(x1, SIG_KNEE - 1, 8);
        vstd::arithmetic::div_mod::lemma_div_is_ordered(SIG_KNEE as int, x2, 32);
    } else {
        vstd::arithmetic::div_mod::lemma_div_is_ordered(x1, x2, 32);
    }
}

/// The sigmoid never decreases: a larger input gives a value at least as
/// large, the floored fixed-point form of the true sigmoid's strict
/// increase.
pub proof fn lemma_sigmoid_monotone(x1: int, x2: int)
    requires
        x1 <= x2,
    ensures
        sigmoid_spec(x1) <= sigmoid_spec(x2),
{
    lemma_sigmoid_range(x1);
    lemma_sigmoid_range(x2);
    if x1 >= SIG_SAT || x2 <= -(SIG_SAT as int) {
    } else if x2 >= SIG_SAT || x1 <= -(SIG_SAT as int) {
    } else if x1 >= 0 {
        lemma_sigmoid_pos_monotone(x1, x2);
    } else if x2 >= 0 {
        lemma_sigmoid_pos_range(-x1);
        lemma_sigmoid_pos_range(x2);
    } else {
        lemma_sigmoid_pos_monotone(-x2, -x1);
    }
}

/// The sigmoid of zero is exactly one half.
pub proof fn lemma_sigmoid_at_zero()
    ensures
        sigmoid_spec(0) == SIG_MID,
{
}

impl Activation {
    /// The scaled sigmoid of `x`: pinned to `sigmoid_spec`, and strictly
    /// inside the open unit interval.
    pub fn sigmoid_function(x: i64) -> (r: i64)
        ensures
            r == sigmoid_spec(x as int),
            0 < r < SCALE,
    {
        proof {
            lemma_sigmoid_range(x as int);
        }
        if x >= SIG_SAT {
            SCALE - 1
        } else if x <= -SIG_SAT {
            1
        } else if x >= 0 {
            Self::sigmoid_pos(x)
        } else {
            SCALE - Self::sigmoid_pos(-x)
        }
    }

    /// The rising half of the piecewise sigmoid on a nonnegative argument.
    fn sigmoid_pos(x: i64) -> (r: i64)
        requires
            0 <= x < SIG_SAT,
        ensures
            r == sigmoid_pos_spec(x as int),
    {
        if x < SCALE {
            SIG_MID + ((x as u64) / 4) as i64
        } else if x < SIG_KNEE {
            SIG_B1 + ((x as u64) / 8) as i64
        } else {
            SIG_B2 + ((x as u64) / 32) as i64
        }
    }

    /// The backpropagation damping factor `a * (1 - a)` of an activation
    /// value, in scaled units: exactly `sigmoid_deriv_spec`, and at most a
    /// quarter.
    pub fn sigmoid_derivative(x: i64) -> (r: i64)
        requires
            0 <= x <= SCALE,
        ensures
            r == sigmoid_deriv_spec(x as int),
            0 <= r <= SCALE / 4,
    {
        proof {
            vstd::arithmetic::mul::lemma_mul_nonnegative(x as int, SCALE - x as int);
            vstd::arithmetic::mul::lemma_mul_upper_bound(x as int, SCALE as int, SCALE - x as int, SCALE as int);
            assert(4 * ((x as int) * (SCALE - x as int)) <= (SCALE as int) * (SCALE as int))
                by (nonlinear_arith)
                requires 0 <= x as int <= SCALE as int;
            vstd::arithmetic::div_mod::lemma_div_is_ordered(
                (x as int) * (SCALE - x as int),
                (SCALE as int) * (SCALE as int) / 4,
                SCALE as int,
            );
        }
        let p: i64 = x * (SCALE - x);
        ((p as u64) / (SCALE as u64)) as i64
    }
}

} // verus!
