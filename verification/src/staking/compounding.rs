//! What a principal earns over a time.
use crate::fixed_point;
use crate::fixed_point::{MathError, ONE};
use crate::math;
use crate::staking::records::CompoundingMode;
use vstd::prelude::*;

verus! {

/// Seconds in a year of 365 days.
pub const SECONDS_PER_YEAR: i128 = 31_536_000;

/// By how much one unit grows in `elapsed` seconds, less the unit itself.
pub open spec fn growth(mode: CompoundingMode, apr: int, elapsed: int) -> Result<i128, MathError> {
    match fixed_point::scaled(apr, elapsed, SECONDS_PER_YEAR as int) {
        Err(e) => Err(e),
        Ok(rate) => match mode {
            CompoundingMode::Simple => Ok(rate),
            CompoundingMode::Continuous => match fixed_point::exponential(rate as int) {
                Err(e) => Err(e),
                Ok(factor) => Ok((factor - ONE) as i128),
            },
        },
    }
}

/// What `principal` earns in `elapsed` seconds at the yearly rate `apr`.
pub open spec fn yield_for(mode: CompoundingMode, principal: int, apr: int, elapsed: int) -> Result<
    i128,
    MathError,
> {
    if principal < 0 || apr < 0 {
        Err(MathError::NegativeInput)
    } else {
        match growth(mode, apr, elapsed) {
            Err(e) => Err(e),
            Ok(g) => fixed_point::product(principal, g as int),
        }
    }
}

/// Computes yields in one mode.
pub struct YieldCalculator {
    pub mode: CompoundingMode,
}

impl YieldCalculator {
    /// A calculator for `mode`.
    pub fn new(mode: CompoundingMode) -> (calculator: YieldCalculator)
        ensures
            calculator.mode == mode,
    {
        YieldCalculator { mode }
    }

    /// What `principal` earns in `elapsed_seconds` at the yearly rate `apr`.
    pub fn compute_yield(&self, principal: i128, apr: i128, elapsed_seconds: u64) -> (r: Result<
        i128,
        MathError,
    >)
        ensures
            r == yield_for(self.mode, principal as int, apr as int, elapsed_seconds as int),
    {
        if principal < 0 || apr < 0 {
            return Err(MathError::NegativeInput);
        }
        let rate = match fixed_point::mul_div(apr, elapsed_seconds as i128, SECONDS_PER_YEAR) {
            Ok(r) => r,
            Err(e) => {
                return Err(e);
            },
        };
        proof {
            lemma_rate_is_not_negative(apr as int, elapsed_seconds as int);
        }
        let grown: i128 = match self.mode {
            CompoundingMode::Simple => rate,
            CompoundingMode::Continuous => match fixed_point::fp_exp(rate) {
                Ok(factor) => {
                    proof {
                        fixed_point::exp_is_above_its_tangent(rate as int);
                    }
                    factor - ONE
                },
                Err(e) => {
                    return Err(e);
                },
            },
        };
        fixed_point::fp_mul(principal, grown)
    }
}

proof fn lemma_rate_is_not_negative(apr: int, elapsed: int)
    requires
        apr >= 0,
        elapsed >= 0,
    ensures
        math::quot(apr * elapsed, SECONDS_PER_YEAR as int) >= 0,
{
    assert(apr * elapsed >= 0) by (nonlinear_arith)
        requires
            apr >= 0,
            elapsed >= 0,
    ;
    math::lemma_quot_shrinks(apr * elapsed, SECONDS_PER_YEAR as int);
}

/// A position never loses by earning.
pub proof fn yields_are_not_negative(
    mode: CompoundingMode,
    principal: int,
    apr: int,
    elapsed: int,
)
    requires
        elapsed >= 0,
        yield_for(mode, principal, apr, elapsed) is Ok,
    ensures
        yield_for(mode, principal, apr, elapsed)->Ok_0 >= 0,
{
    lemma_rate_is_not_negative(apr, elapsed);
    let rate = math::quot(apr * elapsed, SECONDS_PER_YEAR as int);
    if mode == CompoundingMode::Continuous {
        fixed_point::exp_is_above_its_tangent(rate);
    }
    let g = growth(mode, apr, elapsed)->Ok_0 as int;
    assert(principal * g >= 0) by (nonlinear_arith)
        requires
            principal >= 0,
            g >= 0,
    ;
    math::lemma_quot_shrinks(principal * g, fixed_point::SCALE as int);
}

/// Simple yield: the principal times the yearly rate times the share of the
/// year that has passed, with the rate for that time and the yield each
/// rounded down. Gives the rate for the time.
pub proof fn simple_yields_are_in_proportion(principal: int, apr: int, elapsed: int) -> (rate: int)
    requires
        elapsed >= 0,
        yield_for(CompoundingMode::Simple, principal, apr, elapsed) is Ok,
    ensures
        principal >= 0 && apr >= 0,
        rate * 31_536_000 <= apr * elapsed < (rate + 1) * 31_536_000,
        ({
            let y = yield_for(CompoundingMode::Simple, principal, apr, elapsed)->Ok_0;
            y * 1_000_000_000_000 <= principal * rate < (y + 1) * 1_000_000_000_000
        }),
{
    let rate = lemma_rate(apr, elapsed);
    fixed_point::products_are_rounded(principal, rate);
    assert(principal * rate >= 0) by (nonlinear_arith)
        requires
            principal >= 0,
            rate >= 0,
    ;
    rate
}

proof fn lemma_rate(apr: int, elapsed: int) -> (rate: int)
    requires
        apr >= 0,
        elapsed >= 0,
        fixed_point::scaled(apr, elapsed, SECONDS_PER_YEAR as int) is Ok,
    ensures
        rate == fixed_point::scaled(apr, elapsed, SECONDS_PER_YEAR as int)->Ok_0,
        rate >= 0,
        rate * 31_536_000 <= apr * elapsed < (rate + 1) * 31_536_000,
{
    lemma_rate_is_not_negative(apr, elapsed);
    fixed_point::quotients_are_rounded(apr, elapsed, 31_536_000);
    assert(apr * elapsed >= 0) by (nonlinear_arith)
        requires
            apr >= 0,
            elapsed >= 0,
    ;
    fixed_point::scaled(apr, elapsed, SECONDS_PER_YEAR as int)->Ok_0 as int
}

/// Continuous yield: with `rate` the rate for the time, the principal earns
/// `e^rate - 1`, rounded down. That is at least `rate + rate^2 / 2`, less
/// rounding, and below a rate of two at most `2 rate / (2 - rate)`. Gives the
/// rate for the time.
pub proof fn continuous_yields_compound(principal: int, apr: int, elapsed: int) -> (rate: int)
    requires
        elapsed >= 0,
        yield_for(CompoundingMode::Continuous, principal, apr, elapsed) is Ok,
    ensures
        principal >= 0 && apr >= 0,
        rate * 31_536_000 <= apr * elapsed < (rate + 1) * 31_536_000,
        ({
            let y = yield_for(CompoundingMode::Continuous, principal, apr, elapsed)->Ok_0;
            let grown = fixed_point::exp_value(rate) - 1_000_000_000_000;
            &&& y * 1_000_000_000_000 <= principal * grown < (y + 1) * 1_000_000_000_000
            &&& principal * (rate + rate * rate / 2_000_000_000_000) < (y + 1) * 1_000_000_000_000
            &&& y * (2_000_000_000_000 - rate) <= 2 * principal * rate || rate > 2_000_000_000_000
        }),
{
    let rate = lemma_rate(apr, elapsed);
    let s: int = 1_000_000_000_000;
    let grown = fixed_point::exp_value(rate) - s;
    fixed_point::exp_is_above_its_tangent(rate);
    fixed_point::exp_is_above_its_parabola(rate);
    fixed_point::exp_is_below_its_fraction(rate);
    fixed_point::products_are_rounded(principal, grown);
    assert(principal * grown >= 0) by (nonlinear_arith)
        requires
            principal >= 0,
            grown >= 0,
    ;
    let y = yield_for(CompoundingMode::Continuous, principal, apr, elapsed)->Ok_0 as int;
    assert(rate * rate >= 0) by (nonlinear_arith);
    assert(rate * rate / s / 2 == rate * rate / (2 * s)) by {
        vstd::arithmetic::div_mod::lemma_div_denominator(rate * rate, s, 2);
    }
    let low = rate + rate * rate / 2_000_000_000_000;
    assert(principal * low <= principal * grown) by (nonlinear_arith)
        requires
            low <= grown,
            principal >= 0,
    ;
    if rate <= 2 * s {
        assert(grown * (2 * s - rate) <= 2 * s * rate) by (nonlinear_arith)
            requires
                (grown + s) * (2 * s - rate) <= s * (2 * s + rate),
        ;
        assert(y * (2 * s - rate) <= 2 * principal * rate) by (nonlinear_arith)
            requires
                y * s <= principal * grown,
                grown * (2 * s - rate) <= 2 * s * rate,
                2 * s - rate >= 0,
                principal >= 0,
                s == 1_000_000_000_000,
        ;
    }
    rate
}

/// On the same terms a continuous position earns no less than a simple one,
/// and more where the interest on the interest comes to a unit.
pub proof fn compounding_earns_more(principal: int, apr: int, elapsed: int)
    requires
        elapsed >= 0,
        yield_for(CompoundingMode::Simple, principal, apr, elapsed) is Ok,
        yield_for(CompoundingMode::Continuous, principal, apr, elapsed) is Ok,
    ensures
        ({
            let simple = yield_for(CompoundingMode::Simple, principal, apr, elapsed)->Ok_0;
            let continuous = yield_for(CompoundingMode::Continuous, principal, apr, elapsed)->Ok_0;
            let rate = apr * elapsed / 31_536_000;
            &&& simple <= continuous
            &&& principal * (rate * rate / 2_000_000_000_000) >= 1_000_000_000_000 ==> simple
                < continuous
        }),
{
    let simple = yield_for(CompoundingMode::Simple, principal, apr, elapsed)->Ok_0 as int;
    let continuous = yield_for(CompoundingMode::Continuous, principal, apr, elapsed)->Ok_0 as int;
    let a = simple_yields_are_in_proportion(principal, apr, elapsed);
    let b = continuous_yields_compound(principal, apr, elapsed);
    math::lemma_floor_is_unique(apr * elapsed, 31_536_000, a, b);
    let rate = apr * elapsed / 31_536_000;
    assert(rate == a) by {
        math::quotients_round_toward_zero(apr * elapsed, 31_536_000);
        assert(apr * elapsed >= 0) by (nonlinear_arith)
            requires
                apr >= 0,
                elapsed >= 0,
        ;
        math::lemma_floor_is_unique(apr * elapsed, 31_536_000, a, rate);
    }
    let more = a * a / 2_000_000_000_000;
    assert(a * a >= 0) by (nonlinear_arith);
    assert(principal * (a + more) == principal * a + principal * more) by (nonlinear_arith);
    assert(principal * more >= 0) by (nonlinear_arith)
        requires
            principal >= 0,
            more >= 0,
    ;
    assert(simple * 1_000_000_000_000 < (continuous + 1) * 1_000_000_000_000);
}

/// More time, a larger principal or a higher rate never earns less.
pub proof fn yields_grow_with_their_terms(
    mode: CompoundingMode,
    low: (int, int, int),
    high: (int, int, int),
)
    requires
        low.0 <= high.0,
        low.1 <= high.1,
        0 <= low.2 <= high.2,
        yield_for(mode, low.0, low.1, low.2) is Ok,
        yield_for(mode, high.0, high.1, high.2) is Ok,
    ensures
        yield_for(mode, low.0, low.1, low.2)->Ok_0 <= yield_for(mode, high.0, high.1, high.2)->Ok_0,
{
    let a = lemma_rate(low.1, low.2);
    let b = lemma_rate(high.1, high.2);
    assert(low.1 * low.2 <= high.1 * high.2) by (nonlinear_arith)
        requires
            0 <= low.1 <= high.1,
            0 <= low.2 <= high.2,
    ;
    fixed_point::exp_is_monotone(a, b);
    fixed_point::exp_is_above_its_tangent(a);
    fixed_point::exp_is_above_its_tangent(b);
    let g = growth(mode, low.1, low.2)->Ok_0 as int;
    let h = growth(mode, high.1, high.2)->Ok_0 as int;
    assert(0 <= low.0 * g <= high.0 * h) by (nonlinear_arith)
        requires
            0 <= low.0 <= high.0,
            0 <= g <= h,
    ;
    math::lemma_quot_monotone(low.0 * g, high.0 * h, fixed_point::SCALE as int);
}

/// Nothing is earned on a negative principal or at a negative rate: that is
/// refused, and as such. Nothing at all is earned in no time.
pub proof fn negative_terms_are_refused(
    mode: CompoundingMode,
    principal: int,
    apr: int,
    elapsed: int,
)
    ensures
        principal < 0 || apr < 0 ==> yield_for(mode, principal, apr, elapsed) == Err::<
            i128,
            MathError,
        >(MathError::NegativeInput),
        principal >= 0 && 0 <= apr && (elapsed == 0 || apr == 0) ==> yield_for(
            mode,
            principal,
            apr,
            elapsed,
        ) == Ok::<i128, MathError>(0),
{
    if principal >= 0 && apr >= 0 && (elapsed == 0 || apr == 0) {
        assert(apr * elapsed == 0) by (nonlinear_arith)
            requires
                elapsed == 0 || apr == 0,
        ;
        math::lemma_quot_shrinks(0, SECONDS_PER_YEAR as int);
        fixed_point::lemma_power_of_one(0);
        math::lemma_quot_shrinks(0, fixed_point::SCALE as int);
        assert(principal * 0 == 0);
    }
}

} // verus!
