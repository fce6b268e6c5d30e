//! Weight arithmetic for the search index.
//!
//! Accumulated match weights are unsigned and clamp at `u64::MAX` instead of
//! wrapping, so indexing and querying are total over all caller-supplied
//! weights.

use vstd::prelude::*;

verus! {

/// Mathematical value of adding two weights, clamped at `u64::MAX`.
pub open spec fn sat_add_spec(a: u64, b: u64) -> u64 {
    if a + b <= u64::MAX {
        (a + b) as u64
    } else {
        u64::MAX
    }
}

/// Mathematical value of multiplying two weights, clamped at `u64::MAX`.
pub open spec fn sat_mul_spec(a: u64, b: u64) -> u64 {
    if a * b <= u64::MAX {
        (a * b) as u64
    } else {
        u64::MAX
    }
}

/// Mathematical value of subtracting a weight, clamped at zero.
pub open spec fn sat_sub_spec(a: u64, b: u64) -> u64 {
    if a >= b {
        (a - b) as u64
    } else {
        0
    }
}

/// Subtracts a weight, clamping at zero.
pub fn sat_sub(a: u64, b: u64) -> (r: u64)
    ensures
        r == sat_sub_spec(a, b),
{
    if a >= b {
        a - b
    } else {
        0
    }
}

/// Adds two weights, clamping at the largest representable value.
pub fn sat_add(a: u64, b: u64) -> (r: u64)
    ensures
        r == sat_add_spec(a, b),
{
    if a <= u64::MAX - b {
        a + b
    } else {
        u64::MAX
    }
}

/// Multiplies two weights, clamping at the largest representable value.
pub fn sat_mul(a: u64, b: u64) -> (r: u64)
    ensures
        r == sat_mul_spec(a, b),
{
    if b == 0 {
        0
    } else if a <= u64::MAX / b {
        proof {
            lemma_mul_le_div(a, b);
        }
        a * b
    } else {
        proof {
            lemma_mul_gt_div(a, b);
        }
        u64::MAX
    }
}

/// A product of weights is positive exactly when both factors are.
pub proof fn lemma_sat_mul_pos(a: u64, b: u64)
    ensures
        sat_mul_spec(a, b) > 0 <==> (a > 0 && b > 0),
{
    if a > 0 && b > 0 {
        assert(a * b >= 1) by (nonlinear_arith)
            requires
                a >= 1 && b >= 1,
        ;
    }
    if a == 0 || b == 0 {
        assert(a * b == 0) by (nonlinear_arith)
            requires
                a == 0 || b == 0,
        ;
    }
}

/// A sum of weights is positive exactly when one summand is.
pub proof fn lemma_sat_add_pos(a: u64, b: u64)
    ensures
        sat_add_spec(a, b) > 0 <==> (a > 0 || b > 0),
{
}

/// Clamped addition is commutative.
pub proof fn lemma_sat_add_comm(a: u64, b: u64)
    ensures
        sat_add_spec(a, b) == sat_add_spec(b, a),
{
}

/// Clamped addition is associative.
pub proof fn lemma_sat_add_assoc(a: u64, b: u64, c: u64)
    ensures
        sat_add_spec(sat_add_spec(a, b), c) == sat_add_spec(a, sat_add_spec(b, c)),
{
}

proof fn lemma_mul_le_div(a: u64, b: u64)
    requires
        b > 0,
        a <= u64::MAX as int / b as int,
    ensures
        a * b <= u64::MAX,
{
    assert(a * b <= (u64::MAX as int / b as int) * b) by (nonlinear_arith)
        requires
            b > 0,
            a <= u64::MAX as int / b as int,
    ;
    assert((u64::MAX as int / b as int) * b <= u64::MAX) by (nonlinear_arith)
        requires
            b > 0,
    ;
}

proof fn lemma_mul_gt_div(a: u64, b: u64)
    requires
        b > 0,
        a > u64::MAX as int / b as int,
    ensures
        a * b > u64::MAX,
{
    assert(a * b >= (u64::MAX as int / b as int + 1) * b) by (nonlinear_arith)
        requires
            b > 0,
            a >= u64::MAX as int / b as int + 1,
    ;
    assert((u64::MAX as int / b as int + 1) * b > u64::MAX) by (nonlinear_arith)
        requires
            b > 0,
    ;
}

} // verus!
