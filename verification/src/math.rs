//! Integer arithmetic shared by the contracts.
use vstd::prelude::*;

verus! {

/// Basis points in a whole: 10,000 is 100%.
pub const BPS_DENOM: i128 = 10_000;

/// The quotient of `a` by `b`, rounded toward zero.
pub open spec fn quot(a: int, b: int) -> int {
    if a >= 0 {
        a / b
    } else {
        -((-a) / b)
    }
}

/// Whether 128 signed bits hold `v`.
pub open spec fn fits(v: int) -> bool {
    i128::MIN <= v <= i128::MAX
}

/// The distance of `v` from zero.
pub open spec fn magnitude(v: int) -> int {
    if v < 0 {
        -v
    } else {
        v
    }
}

/// The smaller of two numbers.
pub open spec fn least(a: int, b: int) -> int {
    if a <= b {
        a
    } else {
        b
    }
}

/// The larger of two numbers.
pub open spec fn most(a: int, b: int) -> int {
    if a <= b {
        b
    } else {
        a
    }
}

/// `v` moved into `[lo, hi]`.
pub open spec fn clamped(v: int, lo: int, hi: int) -> int {
    if v < lo {
        lo
    } else if v > hi {
        hi
    } else {
        v
    }
}

/// `a` divided by `b`, rounded toward zero.
pub fn divide(a: i128, b: i128) -> (q: i128)
    requires
        b != 0,
        fits(quot(a as int, b as int)),
    ensures
        q == quot(a as int, b as int),
{
    a / b
}

/// `v` moved into `[0, hi]`.
pub fn clamp_to(v: i128, hi: i128) -> (r: i128)
    requires
        0 <= hi,
    ensures
        r == clamped(v as int, 0, hi as int),
{
    if v < 0 {
        0
    } else if v > hi {
        hi
    } else {
        v
    }
}

/// Dividing by a positive number never moves away from zero.
pub proof fn lemma_quot_shrinks(a: int, b: int)
    requires
        b > 0,
    ensures
        magnitude(quot(a, b)) <= magnitude(a),
        a >= 0 ==> 0 <= quot(a, b) <= a,
        a <= 0 ==> a <= quot(a, b) <= 0,
{
    let m = magnitude(a);
    assert(0 <= m / b <= m) by (nonlinear_arith)
        requires
            b > 0,
            m >= 0,
    ;
    if a == 0 {
        assert(0int / b == 0) by (nonlinear_arith)
            requires
                b > 0,
        ;
    }
}

/// Division by a positive number keeps the order of the dividends.
pub proof fn lemma_quot_monotone(a: int, c: int, b: int)
    requires
        b > 0,
        a <= c,
    ensures
        quot(a, b) <= quot(c, b),
{
    lemma_quot_shrinks(a, b);
    lemma_quot_shrinks(c, b);
    if a >= 0 {
        vstd::arithmetic::div_mod::lemma_div_is_ordered(a, c, b);
    } else if c < 0 {
        vstd::arithmetic::div_mod::lemma_div_is_ordered(-c, -a, b);
    }
}

/// A larger positive divisor gives a quotient that is no larger, for
/// dividends that are not negative.
pub proof fn lemma_quot_antitone(a: int, b: int, d: int)
    requires
        0 <= a,
        0 < b <= d,
    ensures
        0 <= quot(a, d) <= quot(a, b),
{
    vstd::arithmetic::div_mod::lemma_div_is_ordered_by_denominator(a, b, d);
    lemma_quot_shrinks(a, d);
}

/// A quotient by a positive number is the whole number of times that the
/// divisor goes into the dividend; what is left over has the dividend's sign.
pub proof fn quotients_round_toward_zero(a: int, b: int)
    requires
        b > 0,
    ensures
        a >= 0 ==> quot(a, b) * b <= a < (quot(a, b) + 1) * b && quot(a, b) >= 0,
        a <= 0 ==> (quot(a, b) - 1) * b < a <= quot(a, b) * b && quot(a, b) <= 0,
{
    let m = magnitude(a);
    let q = m / b;
    vstd::arithmetic::div_mod::lemma_fundamental_div_mod(m, b);
    vstd::arithmetic::div_mod::lemma_mod_bound(m, b);
    assert(q >= 0) by (nonlinear_arith)
        requires
            q == m / b,
            m >= 0,
            b > 0,
    ;
    assert(q * b <= m && m < (q + 1) * b) by (nonlinear_arith)
        requires
            m == b * q + m % b,
            0 <= m % b < b,
    ;
    assert((-q) * b == -(q * b)) by (nonlinear_arith);
    assert((-q - 1) * b == -((q + 1) * b)) by (nonlinear_arith);
    if a == 0 {
        assert(q == 0) by (nonlinear_arith)
            requires
                q * b <= 0,
                q >= 0,
                b > 0,
        ;
    }
}

/// No number but one rounds a quotient of numbers above zero down.
pub proof fn lemma_floor_is_unique(a: int, b: int, p: int, q: int)
    requires
        b > 0,
        p * b <= a < (p + 1) * b,
        q * b <= a < (q + 1) * b,
    ensures
        p == q,
{
    if p < q {
        assert((p + 1) * b <= q * b) by (nonlinear_arith)
            requires
                p + 1 <= q,
                b > 0,
        ;
    } else if q < p {
        assert((q + 1) * b <= p * b) by (nonlinear_arith)
            requires
                q + 1 <= p,
                b > 0,
        ;
    }
}

/// The smaller and the larger of two numbers are those numbers; a clamped
/// number is within its bounds, and itself where it was within them; a
/// magnitude is never negative.
pub proof fn bounds_hold(a: int, b: int, v: int)
    ensures
        least(a, b) <= a && least(a, b) <= b && (least(a, b) == a || least(a, b) == b),
        most(a, b) >= a && most(a, b) >= b && least(a, b) + most(a, b) == a + b,
        a <= b ==> a <= clamped(v, a, b) <= b,
        a <= v <= b ==> clamped(v, a, b) == v,
        v < a <= b ==> clamped(v, a, b) == a,
        a <= b < v ==> clamped(v, a, b) == b,
        magnitude(v) >= 0 && (magnitude(v) == v || magnitude(v) == -v),
{
}

} // verus!
