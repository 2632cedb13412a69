//! Fixed-point arithmetic: a number `v` stands for `v / SCALE`.
use crate::math;
use vstd::prelude::*;

verus! {

/// The fixed-point unit.
pub const SCALE: i128 = 1_000_000_000_000;

/// The number one.
pub const ONE: i128 = SCALE;

/// Why a computation has no result.
#[derive(Clone, Copy, PartialEq, Eq, Structural, Debug)]
pub enum MathError {
    /// A value left the range of 128 signed bits.
    Overflow,
    /// A divisor was zero.
    DivideByZero,
    /// A value was below the domain of the function.
    NegativeInput,
}

/// `a * b`.
pub open spec fn product(a: int, b: int) -> Result<i128, MathError> {
    if math::fits(a * b) {
        Ok(math::quot(a * b, SCALE as int) as i128)
    } else {
        Err(MathError::Overflow)
    }
}

/// `a / b`.
pub open spec fn ratio(a: int, b: int) -> Result<i128, MathError> {
    scaled(a, SCALE as int, b)
}

/// `a * b / c` for plain integers.
pub open spec fn scaled(a: int, b: int, c: int) -> Result<i128, MathError> {
    if c == 0 {
        Err(MathError::DivideByZero)
    } else if math::fits(a * b) && math::fits(math::quot(a * b, c)) {
        Ok(math::quot(a * b, c) as i128)
    } else {
        Err(MathError::Overflow)
    }
}

/// Multiply two fixed-point numbers.
pub fn fp_mul(a: i128, b: i128) -> (r: Result<i128, MathError>)
    ensures
        r == product(a as int, b as int),
{
    match a.checked_mul(b) {
        Some(p) => {
            proof {
                math::lemma_quot_shrinks(p as int, SCALE as int);
            }
            Ok(p / SCALE)
        },
        None => Err(MathError::Overflow),
    }
}

/// `a * b / c` for plain integers, rounded toward zero.
pub fn mul_div(a: i128, b: i128, c: i128) -> (r: Result<i128, MathError>)
    ensures
        r == scaled(a as int, b as int, c as int),
{
    if c == 0 {
        return Err(MathError::DivideByZero);
    }
    match a.checked_mul(b) {
        Some(p) => {
            if c == -1 && p == i128::MIN {
                assert(!math::fits(math::quot(p as int, c as int)));
                return Err(MathError::Overflow);
            }
            proof {
                lemma_quot_fits(p as int, c as int);
            }
            Ok(p / c)
        },
        None => Err(MathError::Overflow),
    }
}

/// Divide two fixed-point numbers.
pub fn fp_div(a: i128, b: i128) -> (r: Result<i128, MathError>)
    ensures
        r == ratio(a as int, b as int),
{
    mul_div(a, SCALE, b)
}

proof fn lemma_quot_fits(p: int, c: int)
    requires
        math::fits(p),
        c != 0,
        !(p == i128::MIN && c == -1),
    ensures
        math::fits(math::quot(p, c)),
{
    let m = if p < 0 { -p } else { p };
    let d = if c < 0 { -c } else { c };
    if c > 0 {
        math::lemma_quot_shrinks(p, c);
    } else {
        assert(m / c == -(m / d)) by (nonlinear_arith)
            requires
                m >= 0,
                c < 0,
                d == -c,
        ;
        assert(0 <= m / d <= m) by (nonlinear_arith)
            requires
                m >= 0,
                d > 0,
        ;
        if p == i128::MIN {
            assert(m / d <= m / 2) by (nonlinear_arith)
                requires
                    m >= 0,
                    d >= 2,
            ;
        }
    }
}

/// How many terms of the series [`fp_exp`] adds up.
pub const EXP_TERMS: u32 = 64;

/// Term `k` of the series of `e^x`: `x^k / k!`, rounded down at each step.
pub open spec fn exp_term(x: int, k: nat) -> int
    decreases k,
{
    if k == 0 {
        SCALE as int
    } else {
        math::quot(math::quot(exp_term(x, (k - 1) as nat) * x, SCALE as int), k as int)
    }
}

/// The first `n` terms, added up.
pub open spec fn exp_sum(x: int, n: nat) -> int
    decreases n,
{
    if n == 0 {
        0
    } else {
        exp_sum(x, (n - 1) as nat) + exp_term(x, (n - 1) as nat)
    }
}

/// `e^x` as [`fp_exp`] computes it.
pub open spec fn exp_value(x: int) -> int {
    exp_sum(x, EXP_TERMS as nat)
}

/// Whether every step of the series stays in range.
pub open spec fn exp_in_range(x: int) -> bool {
    &&& forall|k: nat| k + 1 < EXP_TERMS ==> math::fits(#[trigger] exp_term(x, k) * x)
    &&& math::fits(exp_value(x))
}

proof fn lemma_exp_term_monotone(x: int, y: int, k: nat)
    requires
        0 <= x <= y,
    ensures
        0 <= exp_term(x, k) <= exp_term(y, k),
    decreases k,
{
    if k > 0 {
        let j = (k - 1) as nat;
        lemma_exp_term_monotone(x, y, j);
        let a = exp_term(x, j);
        let b = exp_term(y, j);
        assert(0 <= a * x <= b * y) by (nonlinear_arith)
            requires
                0 <= a <= b,
                0 <= x <= y,
        ;
        math::lemma_quot_monotone(a * x, b * y, SCALE as int);
        math::lemma_quot_shrinks(a * x, SCALE as int);
        math::lemma_quot_shrinks(math::quot(a * x, SCALE as int), k as int);
        math::lemma_quot_monotone(math::quot(a * x, SCALE as int), math::quot(b * y, SCALE as int), k as int);
    }
}

proof fn lemma_exp_sum_monotone(x: int, y: int, n: nat, m: nat)
    requires
        0 <= x <= y,
        n <= m,
    ensures
        0 <= exp_sum(x, n) <= exp_sum(y, m),
    decreases m,
{
    if m > 0 {
        let j = (m - 1) as nat;
        lemma_exp_term_monotone(x, y, j);
        if n < m {
            lemma_exp_sum_monotone(x, y, n, j);
        } else {
            lemma_exp_sum_monotone(x, y, j, j);
        }
    }
}

/// `e^x` grows with `x`, and where it is in range for `y` it is for all
/// smaller arguments.
pub proof fn exp_is_monotone(x: int, y: int)
    requires
        0 <= x <= y,
    ensures
        exp_value(x) <= exp_value(y),
        exp_in_range(y) ==> exp_in_range(x),
{
    lemma_exp_sum_monotone(x, y, EXP_TERMS as nat, EXP_TERMS as nat);
    if exp_in_range(y) {
        assert forall|k: nat| k + 1 < EXP_TERMS implies math::fits(#[trigger] exp_term(x, k) * x) by {
            lemma_exp_term_monotone(x, y, k);
            let a = exp_term(x, k);
            let b = exp_term(y, k);
            assert(math::fits(exp_term(y, k) * y));
            assert(0 <= a * x <= b * y) by (nonlinear_arith)
                requires
                    0 <= a <= b,
                    0 <= x <= y,
            ;
        }
    }
}

/// `e^x` is at least `1 + x`.
pub proof fn exp_is_above_its_tangent(x: int)
    requires
        0 <= x,
    ensures
        exp_value(x) >= SCALE + x,
{
    lemma_exp_sum_monotone(x, x, 2, EXP_TERMS as nat);
    reveal_with_fuel(exp_sum, 3);
    reveal_with_fuel(exp_term, 2);
    let s = SCALE as int;
    assert(math::quot(s * x, s) == x) by {
        assert(s * x >= 0) by (nonlinear_arith)
            requires
                s > 0,
                x >= 0,
        ;
        vstd::arithmetic::div_mod::lemma_div_multiples_vanish(x, s);
        assert(s * x == x * s) by (nonlinear_arith);
    }
}

/// Each term is at most the one before it times `x / k`.
proof fn lemma_exp_term_step(x: int, k: nat)
    requires
        0 <= x,
        k > 0,
    ensures
        0 <= exp_term(x, k),
        k * SCALE * exp_term(x, k) <= exp_term(x, (k - 1) as nat) * x,
{
    lemma_exp_term_monotone(x, x, (k - 1) as nat);
    lemma_exp_term_monotone(x, x, k);
    let a = exp_term(x, (k - 1) as nat);
    let p = a * x;
    assert(p >= 0) by (nonlinear_arith)
        requires
            p == a * x,
            a >= 0,
            x >= 0,
    ;
    let q = p / (SCALE as int);
    let e = q / (k as int);
    assert(e * k <= q) by (nonlinear_arith)
        requires
            e == q / (k as int),
            k > 0,
            q >= 0,
    ;
    assert(k * SCALE * e == SCALE * (e * k)) by (nonlinear_arith);
}

/// The first terms are the number one and `x` itself.
proof fn lemma_exp_first_terms(x: int)
    requires
        0 <= x,
    ensures
        exp_term(x, 0) == SCALE,
        exp_term(x, 1) == x,
        exp_sum(x, 2) == SCALE + x,
{
    reveal_with_fuel(exp_sum, 3);
    reveal_with_fuel(exp_term, 2);
    let s = SCALE as int;
    assert(s * x >= 0) by (nonlinear_arith)
        requires
            s > 0,
            x >= 0,
    ;
    vstd::arithmetic::div_mod::lemma_div_multiples_vanish(x, s);
    assert(s * x == x * s) by (nonlinear_arith);
}

proof fn lemma_exp_sum_bound(x: int, n: nat)
    requires
        0 <= x,
        n >= 2,
    ensures
        exp_sum(x, n) * (2 * SCALE - x) <= SCALE * (2 * SCALE + x) - x * exp_term(
            x,
            (n - 1) as nat,
        ),
    decreases n,
{
    let s = SCALE as int;
    lemma_exp_first_terms(x);
    if n == 2 {
        assert((s + x) * (2 * s - x) == s * (2 * s + x) - x * x) by (nonlinear_arith);
    } else {
        let j = (n - 1) as nat;
        lemma_exp_sum_bound(x, j);
        lemma_exp_term_step(x, j);
        let before = exp_sum(x, j);
        let a = exp_term(x, (j - 1) as nat);
        let e = exp_term(x, j);
        assert((before + e) * (2 * s - x) == before * (2 * s - x) + 2 * s * e - x * e)
            by (nonlinear_arith);
        assert(2 * s * e <= j * s * e) by (nonlinear_arith)
            requires
                j >= 2,
                s > 0,
                e >= 0,
        ;
        assert(a * x == x * a) by (nonlinear_arith);
    }
}

/// Below two, `e^x` is at most `(2 + x) / (2 - x)`.
pub proof fn exp_is_below_its_fraction(x: int)
    requires
        0 <= x,
    ensures
        exp_value(x) * (2 * SCALE - x) <= SCALE * (2 * SCALE + x),
{
    lemma_exp_sum_bound(x, EXP_TERMS as nat);
    let last = exp_term(x, (EXP_TERMS - 1) as nat);
    lemma_exp_term_monotone(x, x, (EXP_TERMS - 1) as nat);
    assert(x * last >= 0) by (nonlinear_arith)
        requires
            x >= 0,
            last >= 0,
    ;
}

/// `e^x` is at least `1 + x + x^2 / 2`, but for the rounding of the last.
pub proof fn exp_is_above_its_parabola(x: int)
    requires
        0 <= x,
    ensures
        exp_value(x) >= SCALE + x + x * x / (SCALE as int) / 2,
{
    lemma_exp_first_terms(x);
    lemma_exp_sum_monotone(x, x, 3, EXP_TERMS as nat);
    assert(x * x >= 0) by (nonlinear_arith);
    assert(exp_sum(x, 3) == exp_sum(x, 2) + exp_term(x, 2));
}

proof fn lemma_exp_terms_small(x: int, k: nat)
    requires
        0 <= x <= 2 * SCALE,
    ensures
        0 <= exp_term(x, k) <= 2 * SCALE,
        0 <= exp_sum(x, k) <= k * 2 * SCALE,
    decreases k,
{
    if k > 0 {
        let j = (k - 1) as nat;
        lemma_exp_terms_small(x, j);
        lemma_exp_term_step(x, k);
        lemma_exp_first_terms(x);
        if k >= 2 {
            let s = SCALE as int;
            let a = exp_term(x, j);
            let e = exp_term(x, k);
            assert(e <= a) by (nonlinear_arith)
                requires
                    k * s * e <= a * x,
                    0 <= x <= 2 * s,
                    0 <= a,
                    0 <= e,
                    k >= 2,
                    s > 0,
            ;
        }
    }
}

/// Up to two, `e^x` is in range.
pub proof fn lemma_exp_small_in_range(x: int)
    requires
        0 <= x <= 2 * SCALE,
    ensures
        exp_in_range(x),
{
    assert forall|k: nat| k + 1 < EXP_TERMS implies math::fits(#[trigger] exp_term(x, k) * x) by {
        lemma_exp_terms_small(x, k);
        let a = exp_term(x, k);
        assert(0 <= a * x <= 4_000_000_000_000_000_000_000_000) by (nonlinear_arith)
            requires
                0 <= a <= 2_000_000_000_000,
                0 <= x <= 2_000_000_000_000,
        ;
    }
    lemma_exp_terms_small(x, EXP_TERMS as nat);
}

proof fn lemma_exp_term_doubles(x: int, k: nat)
    requires
        0 <= x,
        k > 0,
    ensures
        exp_term(2 * x, k) >= 2 * exp_term(x, k),
    decreases k,
{
    lemma_exp_first_terms(x);
    lemma_exp_first_terms(2 * x);
    if k > 1 {
        let j = (k - 1) as nat;
        lemma_exp_term_doubles(x, j);
        lemma_exp_term_monotone(x, 2 * x, j);
        let s = SCALE as int;
        let a = exp_term(x, j);
        let b = exp_term(2 * x, j);
        let p = a * x;
        assert(0 <= 2 * p <= b * (2 * x)) by (nonlinear_arith)
            requires
                p == a * x,
                0 <= 2 * a <= b,
                0 <= x,
        ;
        math::lemma_quot_monotone(2 * p, b * (2 * x), s);
        let q = p / s;
        assert(2 * q <= 2 * p / s) by (nonlinear_arith)
            requires
                q == p / s,
                s > 0,
                p >= 0,
        ;
        math::lemma_quot_shrinks(p, s);
        math::lemma_quot_monotone(2 * q, (b * (2 * x)) / s, k as int);
        assert(2 * (q / (k as int)) <= 2 * q / (k as int)) by (nonlinear_arith)
            requires
                k > 0,
                q >= 0,
        ;
    }
}

proof fn lemma_exp_sum_doubles(x: int, n: nat)
    requires
        0 <= x,
        n > 0,
    ensures
        exp_sum(2 * x, n) - SCALE >= 2 * (exp_sum(x, n) - SCALE),
    decreases n,
{
    if n == 1 {
        reveal_with_fuel(exp_sum, 2);
    } else {
        lemma_exp_sum_doubles(x, (n - 1) as nat);
        lemma_exp_term_doubles(x, (n - 1) as nat);
    }
}

/// From `x` to `2x`, what `e^x` has above one at least doubles.
pub proof fn exp_doubles_its_excess(x: int)
    requires
        0 <= x,
    ensures
        exp_value(2 * x) - SCALE >= 2 * (exp_value(x) - SCALE),
{
    lemma_exp_sum_doubles(x, EXP_TERMS as nat);
}

/// `e^x` for `x >= 0`.
pub open spec fn exponential(x: int) -> Result<i128, MathError> {
    if x < 0 {
        Err(MathError::NegativeInput)
    } else if exp_in_range(x) {
        Ok(exp_value(x) as i128)
    } else {
        Err(MathError::Overflow)
    }
}

/// `e^x`, by its series.
pub fn fp_exp(x: i128) -> (r: Result<i128, MathError>)
    ensures
        r == exponential(x as int),
{
    if x < 0 {
        return Err(MathError::NegativeInput);
    }
    let ghost gx = x as int;
    let mut term: i128 = SCALE;
    let mut sum: i128 = SCALE;
    let mut k: u32 = 1;
    proof {
        reveal_with_fuel(exp_sum, 2);
    }
    while k < EXP_TERMS
        invariant
            1 <= k <= EXP_TERMS,
            gx == x,
            x >= 0,
            term == exp_term(gx, (k - 1) as nat),
            sum == exp_sum(gx, k as nat),
            forall|j: nat| j + 1 < k ==> math::fits(#[trigger] exp_term(gx, j) * gx),
        decreases EXP_TERMS - k,
    {
        let p = match term.checked_mul(x) {
            Some(p) => p,
            None => {
                assert(!math::fits(exp_term(gx, (k - 1) as nat) * gx));
                return Err(MathError::Overflow);
            },
        };
        proof {
            lemma_exp_term_monotone(gx, gx, (k - 1) as nat);
            lemma_exp_term_monotone(gx, gx, k as nat);
            assert(p >= 0) by (nonlinear_arith)
                requires
                    p == term * x,
                    term >= 0,
                    x >= 0,
            ;
            math::lemma_quot_shrinks(p as int, SCALE as int);
        }
        let q = p / SCALE;
        term = q / (k as i128);
        sum = match sum.checked_add(term) {
            Some(s) => s,
            None => {
                proof {
                    lemma_exp_sum_monotone(gx, gx, (k + 1) as nat, EXP_TERMS as nat);
                    assert(exp_sum(gx, (k + 1) as nat) == exp_sum(gx, k as nat) + exp_term(
                        gx,
                        k as nat,
                    ));
                }
                return Err(MathError::Overflow);
            },
        };
        k += 1;
    }
    Ok(sum)
}

/// Whether `e^r` is above `x`, or out of range.
pub open spec fn exp_exceeds(r: int, x: int) -> bool {
    !exp_in_range(r) || exp_value(r) > x
}

/// `r` is the largest number with `e^r <= x`.
pub open spec fn is_log(x: int, r: int) -> bool {
    0 <= r && !exp_exceeds(r, x) && exp_exceeds(r + 1, x)
}

/// The natural logarithm of `x`: the inverse of [`fp_exp`], rounded down.
pub open spec fn log_value(x: int) -> int {
    choose|r: int| is_log(x, r)
}

/// There is one logarithm.
pub proof fn log_is_unique(x: int, r: int)
    requires
        is_log(x, r),
    ensures
        log_value(x) == r,
{
    let s = log_value(x);
    assert(is_log(x, s));
    if s < r {
        exp_is_monotone(s + 1, r);
    } else if r < s {
        exp_is_monotone(r + 1, s);
    }
}

/// The logarithm keeps the order of its arguments.
pub proof fn log_is_monotone(x: int, y: int)
    requires
        x <= y,
        is_log(x, log_value(x)),
        is_log(y, log_value(y)),
    ensures
        log_value(x) <= log_value(y),
{
    let a = log_value(x);
    let b = log_value(y);
    if b < a {
        exp_is_monotone(b + 1, a);
    }
}

/// `ln(x)` for `x >= 1`.
pub open spec fn logarithm(x: int) -> Result<i128, MathError> {
    if x < ONE {
        Err(MathError::NegativeInput)
    } else {
        Ok(log_value(x) as i128)
    }
}

/// The natural logarithm, by bisection of [`fp_exp`].
pub fn fp_ln(x: i128) -> (r: Result<i128, MathError>)
    ensures
        r == logarithm(x as int),
        r matches Ok(v) ==> is_log(x as int, v as int) && v == log_value(x as int),
{
    if x < ONE {
        return Err(MathError::NegativeInput);
    }
    let mut lo: i128 = 0;
    let mut hi: i128 = x;
    proof {
        lemma_exp_zero();
        exp_is_above_its_tangent(x as int);
    }
    while lo + 1 < hi
        invariant
            0 <= lo < hi <= x,
            !exp_exceeds(lo as int, x as int),
            exp_exceeds(hi as int, x as int),
        decreases hi - lo,
    {
        let mid = lo + (hi - lo) / 2;
        let over = match fp_exp(mid) {
            Ok(v) => v > x,
            Err(_) => true,
        };
        if over {
            hi = mid;
        } else {
            lo = mid;
        }
    }
    proof {
        assert(is_log(x as int, lo as int));
        log_is_unique(x as int, lo as int);
    }
    Ok(lo)
}

proof fn lemma_exp_zero_terms(k: nat)
    ensures
        exp_term(0, k) == (if k == 0 {
            SCALE as int
        } else {
            0
        }),
        exp_sum(0, k) == (if k == 0 {
            0
        } else {
            SCALE as int
        }),
    decreases k,
{
    if k > 0 {
        lemma_exp_zero_terms((k - 1) as nat);
        assert(0int / (k as int) == 0) by (nonlinear_arith)
            requires
                k > 0,
        ;
    }
}

proof fn lemma_exp_zero()
    ensures
        exp_value(0) == SCALE,
        exp_in_range(0),
{
    lemma_exp_zero_terms(EXP_TERMS as nat);
}

/// Every number from one on has a logarithm.
pub proof fn lemma_log_in_range(x: int)
    requires
        ONE <= x <= i128::MAX,
    ensures
        is_log(x, log_value(x)),
        0 <= log_value(x) <= x,
{
    lemma_exp_zero();
    exp_is_above_its_tangent(x);
    let r = lemma_log_between(x, 0, x);
    log_is_unique(x, r);
}

/// Between a number whose exponential is not above `x` and one whose
/// exponential is, there is a logarithm.
proof fn lemma_log_between(x: int, lo: int, hi: int) -> (r: int)
    requires
        0 <= lo < hi,
        !exp_exceeds(lo, x),
        exp_exceeds(hi, x),
    ensures
        is_log(x, r),
        lo <= r < hi,
    decreases hi - lo,
{
    if exp_exceeds(lo + 1, x) {
        lo
    } else {
        lemma_log_between(x, lo + 1, hi)
    }
}

/// One to any power is one: its logarithm is zero.
pub proof fn lemma_power_of_one(t: int)
    ensures
        log_value(ONE as int) == 0,
        math::quot(0 * t, SCALE as int) == 0,
        exponential(0) == Ok::<i128, MathError>(ONE),
{
    lemma_exp_zero();
    exp_is_above_its_tangent(1);
    assert(is_log(ONE as int, 0));
    log_is_unique(ONE as int, 0);
}

/// A product in fixed point is the product of the numbers that are meant,
/// rounded toward zero; it is refused only where the plain product leaves the
/// range.
pub proof fn products_are_rounded(a: int, b: int)
    ensures
        product(a, b) is Ok <==> i128::MIN <= a * b <= i128::MAX,
        product(a, b) matches Ok(p) ==> {
            &&& a * b >= 0 ==> p * 1_000_000_000_000 <= a * b < (p + 1) * 1_000_000_000_000
            &&& a * b <= 0 ==> (p - 1) * 1_000_000_000_000 < a * b <= p * 1_000_000_000_000
        },
{
    math::quotients_round_toward_zero(a * b, 1_000_000_000_000);
    math::lemma_quot_shrinks(a * b, 1_000_000_000_000);
}

/// `a * b / c` is rounded toward zero; it is refused only for a divisor of
/// zero, or where a product or a quotient leaves the range.
pub proof fn quotients_are_rounded(a: int, b: int, c: int)
    requires
        c >= 0,
    ensures
        scaled(a, b, c) == Err::<i128, MathError>(MathError::DivideByZero) <==> c == 0,
        c > 0 ==> (scaled(a, b, c) is Ok <==> i128::MIN <= a * b <= i128::MAX),
        scaled(a, b, c) matches Ok(q) ==> {
            &&& a * b >= 0 ==> q * c <= a * b < (q + 1) * c
            &&& a * b <= 0 ==> (q - 1) * c < a * b <= q * c
        },
{
    if c > 0 {
        math::quotients_round_toward_zero(a * b, c);
        math::lemma_quot_shrinks(a * b, c);
    }
}

/// A ratio in fixed point is the quotient times the unit, rounded toward zero.
pub proof fn ratios_are_rounded(a: int, b: int)
    requires
        b > 0,
    ensures
        ratio(a, b) is Ok <==> i128::MIN <= a * 1_000_000_000_000 <= i128::MAX,
        ratio(a, b) matches Ok(q) ==> {
            &&& a >= 0 ==> q * b <= a * 1_000_000_000_000 < (q + 1) * b && q >= 0
            &&& a <= 0 ==> (q - 1) * b < a * 1_000_000_000_000 <= q * b && q <= 0
        },
{
    quotients_are_rounded(a, 1_000_000_000_000, b);
    math::quotients_round_toward_zero(a * 1_000_000_000_000, b);
    math::lemma_quot_shrinks(a * 1_000_000_000_000, b);
}

/// Each term of the series is the one before it times `x / k`, rounded down
/// once.
pub proof fn exp_terms_follow(x: int, k: nat)
    requires
        0 <= x,
        k > 0,
    ensures
        exp_term(x, 0) == 1_000_000_000_000,
        k * 1_000_000_000_000 * exp_term(x, k) <= exp_term(x, (k - 1) as nat) * x < k
            * 1_000_000_000_000 * (exp_term(x, k) + 1),
{
    lemma_exp_term_step(x, k);
    lemma_exp_term_monotone(x, x, (k - 1) as nat);
    let p = exp_term(x, (k - 1) as nat) * x;
    assert(p >= 0) by (nonlinear_arith)
        requires
            p == exp_term(x, (k - 1) as nat) * x,
            exp_term(x, (k - 1) as nat) >= 0,
            x >= 0,
    ;
    let q = math::quot(p, SCALE as int);
    math::quotients_round_toward_zero(p, SCALE as int);
    math::quotients_round_toward_zero(q, k as int);
    let e = exp_term(x, k);
    assert(p < k * SCALE * (e + 1)) by (nonlinear_arith)
        requires
            p < (q + 1) * SCALE,
            q + 1 <= (e + 1) * k,
            SCALE > 0,
    ;
}

proof fn lemma_exp_terms_halve(x: int, j: nat)
    requires
        0 <= x <= 2 * SCALE,
    ensures
        0 <= exp_term(x, j + 3) * vstd::arithmetic::power2::pow2(j) <= 2 * SCALE,
    decreases j,
{
    use_pow2(j);
    if j == 0 {
        lemma_exp_terms_small(x, 3);
    } else {
        let i = (j - 1) as nat;
        lemma_exp_terms_halve(x, i);
        lemma_exp_term_step(x, j + 3);
        use_pow2(i);
        lemma_exp_terms_small(x, i + 3);
        vstd::arithmetic::power2::lemma_pow2_unfold(j);
        let (a, e, s) = (exp_term(x, i + 3), exp_term(x, j + 3), SCALE as int);
        let (p, k) = (vstd::arithmetic::power2::pow2(i) as int, j + 3);
        assert(2 * e <= a) by (nonlinear_arith)
            requires
                k * s * e <= a * x,
                0 <= x <= 2 * s,
                0 <= a,
                0 <= e,
                k >= 4,
                s > 0,
        ;
        assert(0 <= e * (2 * p) <= a * p) by (nonlinear_arith)
            requires
                2 * e <= a,
                0 <= e,
                0 < p,
        ;
    }
}

proof fn use_pow2(j: nat)
    ensures
        vstd::arithmetic::power2::pow2(0) == 1,
        vstd::arithmetic::power2::pow2(j) > 0,
{
    vstd::arithmetic::power2::lemma_pow2_pos(j);
    vstd::arithmetic::power2::lemma2_to64();
}

proof fn lemma_exp_terms_are_gone(x: int, k: nat)
    requires
        0 <= x <= 2 * SCALE,
        k >= 64,
    ensures
        exp_term(x, k) == 0,
    decreases k,
{
    if k == 64 {
        lemma_exp_terms_halve(x, 61);
        vstd::arithmetic::power2::lemma2_to64_rest();
        let e = exp_term(x, 64);
        lemma_exp_terms_small(x, 64);
        assert(e * 0x2000000000000000 <= 2_000_000_000_000);
    } else {
        lemma_exp_terms_are_gone(x, (k - 1) as nat);
        lemma_exp_term_step(x, k);
        let e = exp_term(x, k);
        assert(e == 0) by (nonlinear_arith)
            requires
                k * SCALE * e <= 0 * x,
                e >= 0,
                k >= 64,
                SCALE > 0,
        ;
    }
}

/// The series is added up to its end: up to two, more terms add nothing.
pub proof fn the_series_is_complete(x: int, n: nat)
    requires
        0 <= x <= 2_000_000_000_000,
        n >= EXP_TERMS,
    ensures
        exp_sum(x, n) == exp_value(x),
        exp_sum(x, 0) == 0,
        exp_sum(x, n + 1) == exp_sum(x, n) + exp_term(x, n),
    decreases n,
{
    if n > EXP_TERMS {
        the_series_is_complete(x, (n - 1) as nat);
        lemma_exp_terms_are_gone(x, (n - 1) as nat);
    }
}

/// The logarithm inverts the exponential: it is the largest number whose
/// exponential is not above the argument.
pub proof fn the_logarithm_inverts_the_exponential(x: int)
    requires
        1_000_000_000_000 <= x <= i128::MAX,
    ensures
        logarithm(x) is Ok,
        ({
            let r = logarithm(x)->Ok_0;
            &&& 0 <= r
            &&& exponential(r as int) is Ok && exponential(r as int)->Ok_0 <= x
            &&& exponential(r + 1) is Ok ==> exponential(r + 1)->Ok_0 > x
        }),
{
    lemma_log_in_range(x);
}

} // verus!
