//! Performance metrics in fixed point.
use crate::fixed_point;
use crate::fixed_point::{MathError, SCALE};
use crate::host;
use crate::math;
use vstd::prelude::*;

verus! {

/// Why a metric has no value.
#[derive(Clone, Copy, PartialEq, Eq, Structural, Debug)]
pub enum PerfError {
    /// A divisor was zero.
    DivideByZero,
    /// A value left the range of 128 signed bits.
    Overflow,
    /// The series is too short.
    InsufficientData,
}

/// What a failed computation means for a metric.
pub open spec fn perf_error(e: MathError) -> PerfError {
    match e {
        MathError::DivideByZero => PerfError::DivideByZero,
        _ => PerfError::Overflow,
    }
}

/// `a / b` in fixed point.
pub open spec fn ratio(a: int, b: int) -> Result<i128, PerfError> {
    match fixed_point::ratio(a, b) {
        Ok(q) => Ok(q),
        Err(e) => Err(perf_error(e)),
    }
}

/// `a * b` in fixed point.
pub open spec fn product(a: int, b: int) -> Result<i128, PerfError> {
    match fixed_point::product(a, b) {
        Ok(p) => Ok(p),
        Err(e) => Err(perf_error(e)),
    }
}

fn blame(e: MathError) -> (r: PerfError)
    ensures
        r == perf_error(e),
{
    match e {
        MathError::DivideByZero => PerfError::DivideByZero,
        MathError::Overflow => PerfError::Overflow,
        MathError::NegativeInput => PerfError::Overflow,
    }
}

/// Divide two fixed-point numbers.
pub fn fp_div(a: i128, b: i128) -> (r: Result<i128, PerfError>)
    ensures
        r == ratio(a as int, b as int),
{
    match fixed_point::fp_div(a, b) {
        Ok(q) => Ok(q),
        Err(e) => Err(blame(e)),
    }
}

fn fp_mul(a: i128, b: i128) -> (r: Result<i128, PerfError>)
    ensures
        r == product(a as int, b as int),
{
    match fixed_point::fp_mul(a, b) {
        Ok(p) => Ok(p),
        Err(e) => Err(blame(e)),
    }
}

/// The sum of terms; `None` where a term is missing or a partial sum leaves
/// the range.
pub open spec fn total(terms: Seq<Option<int>>) -> Option<int>
    decreases terms.len(),
{
    if terms.len() == 0 {
        Some(0)
    } else {
        match (total(terms.drop_last()), terms.last()) {
            (Some(sum), Some(term)) => if math::fits(sum + term) {
                Some(sum + term)
            } else {
                None
            },
            _ => None,
        }
    }
}

/// The square of a fixed-point number.
pub open spec fn square(d: int) -> Option<int> {
    if math::fits(d) && math::fits(d * d) {
        Some(d * d / SCALE as int)
    } else {
        None
    }
}

/// The average of a series; 0 where there is nothing in it.
pub open spec fn mean(gains: Seq<i128>) -> Option<int> {
    if gains.len() == 0 {
        Some(0)
    } else {
        match total(plain_terms(gains)) {
            Some(sum) => Some(math::quot(sum, gains.len() as int)),
            None => None,
        }
    }
}

/// A sum of squares shared among a number of terms; 0 where there are none.
pub open spec fn per_term(sum: int, terms: int) -> int {
    if terms <= 0 {
        0
    } else {
        sum / terms
    }
}

/// The items of a series.
pub open spec fn plain_terms(gains: Seq<i128>) -> Seq<Option<int>> {
    Seq::new(gains.len(), |i: int| Some(gains[i] as int))
}

/// How far each item is from `center`, squared.
pub open spec fn spread_terms(gains: Seq<i128>, center: int) -> Seq<Option<int>> {
    Seq::new(gains.len(), |i: int| square(gains[i] - center))
}

/// How far each item is below `target`, squared.
pub open spec fn shortfall_terms(gains: Seq<i128>, target: int) -> Seq<Option<int>> {
    Seq::new(
        gains.len(),
        |i: int|
            if gains[i] < target {
                square(gains[i] - target)
            } else {
                Some(0)
            },
    )
}

/// Whether `r` is the integer square root of `x`.
pub open spec fn is_root(x: int, r: int) -> bool {
    0 <= r && r * r <= x < (r + 1) * (r + 1)
}

/// The integer square root.
pub open spec fn root(x: int) -> int {
    choose|r: int| is_root(x, r)
}

/// The square root of a fixed-point number.
pub open spec fn fp_root(v: int) -> Option<int> {
    if math::fits(v * SCALE) {
        Some(root(v * SCALE))
    } else {
        None
    }
}

/// The risk-free return of one period.
pub open spec fn period_rate(rate: int, periods: int) -> int {
    math::quot(rate, periods)
}

/// An excess return for its risk, scaled to a year; 0 where there is no risk.
pub open spec fn per_risk(excess: int, risk: Option<int>, periods: int) -> Result<
    i128,
    PerfError,
> {
    match risk {
        None => Err(PerfError::Overflow),
        Some(risk) => if risk == 0 {
            Ok(0)
        } else {
            match ratio(excess, risk) {
                Err(e) => Err(e),
                Ok(q) => match fp_root(periods * SCALE) {
                    None => Err(PerfError::Overflow),
                    Some(scale) => product(q as int, scale),
                },
            }
        },
    }
}

/// The Sharpe ratio: the mean excess return over the standard deviation. A
/// single return has nothing to deviate from, so that its deviation is 0.
pub open spec fn sharpe(gains: Seq<i128>, rate: int, periods: int) -> Result<i128, PerfError> {
    if periods == 0 {
        Err(PerfError::DivideByZero)
    } else {
        match mean(gains) {
            None => Err(PerfError::Overflow),
            Some(center) => match total(spread_terms(gains, center)) {
                None => Err(PerfError::Overflow),
                Some(sum) => per_risk(
                    center - period_rate(rate, periods),
                    fp_root(per_term(sum, gains.len() - 1)),
                    periods,
                ),
            },
        }
    }
}

/// The Sortino ratio: the mean excess return over the downside deviation. That
/// of a single return is how far it is below the risk-free one.
pub open spec fn sortino(gains: Seq<i128>, rate: int, periods: int) -> Result<i128, PerfError> {
    if periods == 0 {
        Err(PerfError::DivideByZero)
    } else {
        let target = period_rate(rate, periods);
        match mean(gains) {
            None => Err(PerfError::Overflow),
            Some(center) => match total(shortfall_terms(gains, target)) {
                None => Err(PerfError::Overflow),
                Some(sum) => per_risk(
                    center - target,
                    fp_root(per_term(sum, gains.len() as int)),
                    periods,
                ),
            },
        }
    }
}

/// The highest of the valuations.
pub open spec fn peak(values: Seq<i128>) -> int
    recommends
        values.len() > 0,
    decreases values.len(),
{
    if values.len() <= 1 {
        values[0] as int
    } else {
        let before = peak(values.drop_last());
        if values.last() > before {
            values.last() as int
        } else {
            before
        }
    }
}

/// How far the last valuation is below the highest one.
pub open spec fn decline(values: Seq<i128>) -> Result<i128, PerfError> {
    let top = peak(values);
    if top <= 0 {
        Ok(0)
    } else {
        ratio(top - values.last(), top)
    }
}

/// The largest decline from a peak.
pub open spec fn drawdown(values: Seq<i128>) -> Result<i128, PerfError>
    decreases values.len(),
{
    if values.len() == 0 {
        Ok(0)
    } else {
        match (drawdown(values.drop_last()), decline(values)) {
            (Err(e), _) => Err(e),
            (_, Err(e)) => Err(e),
            (Ok(before), Ok(last)) => if last > before {
                Ok(last)
            } else {
                Ok(before)
            },
        }
    }
}

/// The valuations' growth factors chained together; a period that starts from
/// nothing counts for none.
pub open spec fn growth(values: Seq<i128>) -> Result<i128, PerfError>
    decreases values.len(),
{
    if values.len() <= 1 {
        Ok(SCALE)
    } else {
        match growth(values.drop_last()) {
            Err(e) => Err(e),
            Ok(before) => {
                let start = values[values.len() - 2];
                if start <= 0 {
                    Ok(before)
                } else {
                    match ratio(values.last() as int, start as int) {
                        Err(e) => Err(e),
                        Ok(factor) => product(before as int, factor as int),
                    }
                }
            },
        }
    }
}

/// The time-weighted return: the chained growth less one.
pub open spec fn weighted(values: Seq<i128>) -> Result<i128, PerfError> {
    if values.len() < 2 {
        Err(PerfError::InsufficientData)
    } else {
        match growth(values) {
            Err(e) => Err(e),
            Ok(factor) => if math::fits(factor - SCALE) {
                Ok((factor - SCALE) as i128)
            } else {
                Err(PerfError::Overflow)
            },
        }
    }
}

/// A growth and a decline are never refused for want of valuations.
pub(crate) proof fn lemma_series_are_long_enough(values: Seq<i128>)
    ensures
        drawdown(values) != Err::<i128, PerfError>(PerfError::InsufficientData),
        growth(values) != Err::<i128, PerfError>(PerfError::InsufficientData),
    decreases values.len(),
{
    if values.len() > 0 {
        lemma_series_are_long_enough(values.drop_last());
    }
}

/// There is one integer square root.
proof fn lemma_root_is_unique(x: int, a: int, b: int)
    requires
        is_root(x, a),
        is_root(x, b),
    ensures
        a == b,
{
    if a < b {
        assert((a + 1) * (a + 1) <= b * b) by (nonlinear_arith)
            requires
                0 <= a,
                a + 1 <= b,
        ;
    } else if b < a {
        assert((b + 1) * (b + 1) <= a * a) by (nonlinear_arith)
            requires
                0 <= b,
                b + 1 <= a,
        ;
    }
}

/// The first number whose square leaves the range.
const ROOT_LIMIT: i128 = 13_043_817_825_332_782_213;

/// The integer square root of a number that is not negative.
fn integer_root(x: i128) -> (r: i128)
    requires
        x >= 0,
    ensures
        r == root(x as int),
        is_root(x as int, r as int),
{
    let mut lo: i128 = 0;
    let mut hi: i128 = ROOT_LIMIT;
    while lo + 1 < hi
        invariant
            0 <= lo < hi <= ROOT_LIMIT,
            lo * lo <= x < hi * hi,
        decreases hi - lo,
    {
        let mid = lo + (hi - lo) / 2;
        assert(0 <= mid * mid <= (ROOT_LIMIT - 1) * (ROOT_LIMIT - 1)) by (nonlinear_arith)
            requires
                0 <= mid <= ROOT_LIMIT - 1,
        ;
        if mid * mid <= x {
            lo = mid;
        } else {
            hi = mid;
        }
    }
    proof {
        assert(hi == lo + 1);
        assert(is_root(x as int, lo as int));
        lemma_root_is_unique(x as int, lo as int, root(x as int));
    }
    lo
}

/// The square root of a fixed-point number that is not negative.
fn fixed_root(v: i128) -> (r: Option<i128>)
    requires
        v >= 0,
    ensures
        match r {
            Some(s) => fp_root(v as int) == Some(s as int) && s >= 0,
            None => fp_root(v as int) is None,
        },
{
    match v.checked_mul(SCALE) {
        Some(x) => Some(integer_root(x)),
        None => None,
    }
}

/// The square of `a - b`.
fn squared(a: i128, b: i128) -> (r: Option<i128>)
    ensures
        match r {
            Some(s) => square(a - b) == Some(s as int) && s >= 0,
            None => square(a - b) is None,
        },
{
    match a.checked_sub(b) {
        None => None,
        Some(d) => match d.checked_mul(d) {
            None => None,
            Some(p) => {
                assert(d * d >= 0) by (nonlinear_arith);
                Some(p / SCALE)
            },
        },
    }
}

/// One more term of a sum.
fn add_term(sum: Option<i128>, term: Option<i128>) -> (r: Option<i128>)
    ensures
        r == (match (sum, term) {
            (Some(a), Some(b)) => if math::fits(a + b) {
                Some((a + b) as i128)
            } else {
                None
            },
            _ => None,
        }),
{
    match sum {
        None => None,
        Some(a) => match term {
            None => None,
            Some(b) => a.checked_add(b),
        },
    }
}

/// Whether an exec sum is the spec one.
pub open spec fn stands_for(sum: Option<i128>, value: Option<int>) -> bool {
    match sum {
        Some(s) => value == Some(s as int),
        None => value is None,
    }
}

proof fn lemma_total_step(terms: Seq<Option<int>>, i: int)
    requires
        0 <= i < terms.len(),
    ensures
        total(terms.take(i + 1)) == (match (total(terms.take(i)), terms[i]) {
            (Some(sum), Some(term)) => if math::fits(sum + term) {
                Some(sum + term)
            } else {
                None
            },
            _ => None,
        }),
{
    assert(terms.take(i + 1).drop_last() =~= terms.take(i));
    assert(terms.take(i + 1).last() == terms[i]);
}

/// Squares add up to no less than nothing.
proof fn lemma_total_not_negative(terms: Seq<Option<int>>)
    requires
        forall|i: int|
            0 <= i < terms.len() ==> (#[trigger] terms[i] matches Some(t) ==> t >= 0),
    ensures
        total(terms) matches Some(sum) ==> sum >= 0,
    decreases terms.len(),
{
    if terms.len() > 0 {
        assert(terms.last() == terms[terms.len() - 1]);
        lemma_total_not_negative(terms.drop_last());
    }
}

proof fn lemma_squares_not_negative(gains: Seq<i128>, center: int)
    ensures
        total(spread_terms(gains, center)) matches Some(sum) ==> sum >= 0,
        total(shortfall_terms(gains, center)) matches Some(sum) ==> sum >= 0,
{
    assert forall|i: int| 0 <= i < gains.len() implies (square(#[trigger] gains[i] - center)
        matches Some(t) ==> t >= 0) by {
        let d = gains[i] - center;
        assert(d * d >= 0) by (nonlinear_arith);
    }
    lemma_total_not_negative(spread_terms(gains, center));
    lemma_total_not_negative(shortfall_terms(gains, center));
}

/// The average of a series; 0 where there is nothing in it.
fn average(gains: &soroban_sdk::Vec<i128>) -> (r: Option<i128>)
    ensures
        stands_for(r, mean(host::numbers(*gains))),
{
    let ghost series = host::numbers(*gains);
    let ghost terms = plain_terms(series);
    let n = host::count(gains);
    if n == 0 {
        return Some(0);
    }
    let mut sum: Option<i128> = Some(0);
    let mut i: u32 = 0;
    assert(terms.take(0) =~= Seq::<Option<int>>::empty());
    while i < n
        invariant
            series == host::numbers(*gains),
            terms == plain_terms(series),
            n == series.len(),
            i <= n,
            stands_for(sum, total(terms.take(i as int))),
        decreases n - i,
    {
        let term = host::number_at(gains, i);
        proof {
            lemma_total_step(terms, i as int);
        }
        sum = add_term(sum, term);
        i += 1;
    }
    assert(terms.take(n as int) =~= terms);
    match sum {
        None => None,
        Some(s) => {
            proof {
                math::lemma_quot_shrinks(s as int, n as int);
            }
            Some(math::divide(s, n as i128))
        },
    }
}

/// A sum of squares shared among a number of terms; 0 where there are none.
fn share_among(sum: i128, terms: i128) -> (r: i128)
    requires
        sum >= 0,
    ensures
        r == per_term(sum as int, terms as int),
        r >= 0,
{
    if terms <= 0 {
        return 0;
    }
    proof {
        math::lemma_quot_shrinks(sum as int, terms as int);
    }
    sum / terms
}

/// The sum of the squared distances from `center`.
fn sum_of_spread(gains: &soroban_sdk::Vec<i128>, center: i128) -> (r: Option<i128>)
    ensures
        stands_for(r, total(spread_terms(host::numbers(*gains), center as int))),
{
    let ghost series = host::numbers(*gains);
    let ghost terms = spread_terms(series, center as int);
    let n = host::count(gains);
    let mut sum: Option<i128> = Some(0);
    let mut i: u32 = 0;
    assert(terms.take(0) =~= Seq::<Option<int>>::empty());
    while i < n
        invariant
            series == host::numbers(*gains),
            terms == spread_terms(series, center as int),
            n == series.len(),
            i <= n,
            stands_for(sum, total(terms.take(i as int))),
        decreases n - i,
    {
        let term = match host::number_at(gains, i) {
            Some(x) => squared(x, center),
            None => None,
        };
        proof {
            lemma_total_step(terms, i as int);
        }
        sum = add_term(sum, term);
        i += 1;
    }
    assert(terms.take(n as int) =~= terms);
    sum
}

/// The sum of the squared distances below `target`.
fn sum_of_shortfall(gains: &soroban_sdk::Vec<i128>, target: i128) -> (r: Option<i128>)
    ensures
        stands_for(r, total(shortfall_terms(host::numbers(*gains), target as int))),
{
    let ghost series = host::numbers(*gains);
    let ghost terms = shortfall_terms(series, target as int);
    let n = host::count(gains);
    let mut sum: Option<i128> = Some(0);
    let mut i: u32 = 0;
    assert(terms.take(0) =~= Seq::<Option<int>>::empty());
    while i < n
        invariant
            series == host::numbers(*gains),
            terms == shortfall_terms(series, target as int),
            n == series.len(),
            i <= n,
            stands_for(sum, total(terms.take(i as int))),
        decreases n - i,
    {
        let term = match host::number_at(gains, i) {
            Some(x) => if x < target {
                squared(x, target)
            } else {
                Some(0)
            },
            None => None,
        };
        proof {
            lemma_total_step(terms, i as int);
        }
        sum = add_term(sum, term);
        i += 1;
    }
    assert(terms.take(n as int) =~= terms);
    sum
}

/// The excess of `center` over `rate`, for a risk, scaled to a year.
fn scale_to_year(center: i128, rate: i128, risk: Option<i128>, periods: u64) -> (r: Result<
    i128,
    PerfError,
>)
    requires
        risk matches Some(s) ==> s >= 0,
    ensures
        r == per_risk(
            center - rate,
            match risk {
                Some(s) => Some(s as int),
                None => None,
            },
            periods as int,
        ),
{
    let risk = match risk {
        Some(s) => s,
        None => return Err(PerfError::Overflow),
    };
    if risk == 0 {
        return Ok(0);
    }
    let excess = match center.checked_sub(rate) {
        Some(d) => d,
        None => {
            assert(!math::fits((center - rate) * SCALE));
            return Err(PerfError::Overflow);
        },
    };
    match fp_div(excess, risk) {
        Err(e) => Err(e),
        Ok(q) => match fixed_root(periods as i128 * SCALE) {
            None => Err(PerfError::Overflow),
            Some(scale) => fp_mul(q, scale),
        },
    }
}

/// The Sharpe ratio of a series of gains: the mean excess over the
/// risk-free rate, for the standard deviation, scaled to a year.
pub(crate) fn sharpe_ratio(gains: &soroban_sdk::Vec<i128>, risk_free_rate: i128, periods: u64) -> (r:
    Result<i128, PerfError>)
    ensures
        r == sharpe(host::numbers(*gains), risk_free_rate as int, periods as int),
{
    let n = host::count(gains);
    if periods == 0 {
        return Err(PerfError::DivideByZero);
    }
    let center = match average(gains) {
        Some(m) => m,
        None => return Err(PerfError::Overflow),
    };
    let sum = match sum_of_spread(gains, center) {
        Some(s) => s,
        None => return Err(PerfError::Overflow),
    };
    proof {
        lemma_squares_not_negative(host::numbers(*gains), center as int);
        math::lemma_quot_shrinks(risk_free_rate as int, periods as int);
    }
    let rate = math::divide(risk_free_rate, periods as i128);
    let risk = fixed_root(share_among(sum, n as i128 - 1));
    scale_to_year(center, rate, risk, periods)
}

/// The Sortino ratio of a series of gains: the mean excess over the
/// risk-free rate, for the downside deviation, scaled to a year.
pub(crate) fn sortino_ratio(gains: &soroban_sdk::Vec<i128>, risk_free_rate: i128, periods: u64) -> (r:
    Result<i128, PerfError>)
    ensures
        r == sortino(host::numbers(*gains), risk_free_rate as int, periods as int),
{
    let n = host::count(gains);
    if periods == 0 {
        return Err(PerfError::DivideByZero);
    }
    proof {
        math::lemma_quot_shrinks(risk_free_rate as int, periods as int);
    }
    let rate = math::divide(risk_free_rate, periods as i128);
    let center = match average(gains) {
        Some(m) => m,
        None => return Err(PerfError::Overflow),
    };
    let sum = match sum_of_shortfall(gains, rate) {
        Some(s) => s,
        None => return Err(PerfError::Overflow),
    };
    proof {
        lemma_squares_not_negative(host::numbers(*gains), rate as int);
    }
    let risk = fixed_root(share_among(sum, n as i128));
    scale_to_year(center, rate, risk, periods)
}

/// How far `value` is below `top`.
fn decline_from(top: i128, value: i128) -> (r: Result<i128, PerfError>)
    ensures
        r == (if top <= 0 {
            Ok(0)
        } else {
            ratio(top - value, top as int)
        }),
{
    if top <= 0 {
        return Ok(0);
    }
    match top.checked_sub(value) {
        Some(d) => fp_div(d, top),
        None => {
            assert(!math::fits((top - value) * SCALE));
            Err(PerfError::Overflow)
        },
    }
}

/// A failure in a part of the series is one of the whole.
proof fn lemma_drawdown_fails(values: Seq<i128>, k: int)
    requires
        0 <= k <= values.len(),
        drawdown(values.take(k)) is Err,
    ensures
        drawdown(values) == drawdown(values.take(k)),
    decreases values.len() - k,
{
    if k == values.len() {
        assert(values.take(k) =~= values);
    } else {
        assert(values.take(k + 1).drop_last() =~= values.take(k));
        lemma_drawdown_fails(values, k + 1);
    }
}

/// The largest decline from a peak, as a fraction of the peak.
pub(crate) fn max_drawdown(values: &soroban_sdk::Vec<i128>) -> (r: Result<i128, PerfError>)
    ensures
        r == (if host::numbers(*values).len() == 0 {
            Err(PerfError::InsufficientData)
        } else {
            drawdown(host::numbers(*values))
        }),
{
    let ghost all = host::numbers(*values);
    let n = host::count(values);
    let mut top: i128 = match host::number_at(values, 0) {
        Some(v) => v,
        None => return Err(PerfError::InsufficientData),
    };
    let mut worst: i128 = 0;
    let mut i: u32 = 0;
    assert(all.take(0) =~= Seq::<i128>::empty());
    while i < n
        invariant
            all == host::numbers(*values),
            n == all.len(),
            0 < n,
            i <= n,
            top == (if i == 0 {
                all[0] as int
            } else {
                peak(all.take(i as int))
            }),
            drawdown(all.take(i as int)) == Ok::<i128, PerfError>(worst),
        decreases n - i,
    {
        let ghost next = all.take(i + 1);
        assert(next.drop_last() =~= all.take(i as int));
        assert(next.last() == all[i as int]);
        if let Some(value) = host::number_at(values, i) {
            if value > top {
                top = value;
            }
            assert(top == peak(next));
            match decline_from(top, value) {
                Err(e) => {
                    proof {
                        lemma_drawdown_fails(all, i + 1);
                    }
                    return Err(e);
                },
                Ok(d) => {
                    if d > worst {
                        worst = d;
                    }
                },
            }
        }
        i += 1;
    }
    assert(all.take(n as int) =~= all);
    Ok(worst)
}

/// A failure in a part of the series is one of the whole.
proof fn lemma_growth_fails(values: Seq<i128>, k: int)
    requires
        0 <= k <= values.len(),
        growth(values.take(k)) is Err,
    ensures
        growth(values) == growth(values.take(k)),
    decreases values.len() - k,
{
    if k == values.len() {
        assert(values.take(k) =~= values);
    } else {
        assert(values.take(k + 1).drop_last() =~= values.take(k));
        lemma_growth_fails(values, k + 1);
    }
}

/// The time-weighted return over a series of valuations.
pub(crate) fn time_weighted_return(values: &soroban_sdk::Vec<i128>) -> (r: Result<i128, PerfError>)
    ensures
        r == weighted(host::numbers(*values)),
{
    let ghost all = host::numbers(*values);
    let n = host::count(values);
    if n < 2 {
        return Err(PerfError::InsufficientData);
    }
    let mut start: i128 = match host::number_at(values, 0) {
        Some(v) => v,
        None => 0,
    };
    let mut factor: i128 = SCALE;
    let mut i: u32 = 1;
    while i < n
        invariant
            all == host::numbers(*values),
            n == all.len(),
            1 <= i <= n,
            start == all[i - 1],
            growth(all.take(i as int)) == Ok::<i128, PerfError>(factor),
        decreases n - i,
    {
        let ghost next = all.take(i + 1);
        assert(next.drop_last() =~= all.take(i as int));
        assert(next.last() == all[i as int]);
        assert(next[next.len() - 2] == all[i - 1]);
        if let Some(value) = host::number_at(values, i) {
            if start > 0 {
                let step = match fp_div(value, start) {
                    Err(e) => Err(e),
                    Ok(q) => fp_mul(factor, q),
                };
                match step {
                    Err(e) => {
                        proof {
                            lemma_growth_fails(all, i + 1);
                        }
                        return Err(e);
                    },
                    Ok(g) => {
                        factor = g;
                    },
                }
            }
            start = value;
        }
        i += 1;
    }
    assert(all.take(n as int) =~= all);
    match factor.checked_sub(SCALE) {
        Some(d) => Ok(d),
        None => Err(PerfError::Overflow),
    }
}

/// Valuations that are not negative fall from their peak by no less than
/// nothing and no more than all of it.
pub proof fn a_drawdown_is_a_share(values: Seq<i128>)
    requires
        forall|i: int| 0 <= i < values.len() ==> 0 <= #[trigger] values[i],
        drawdown(values) is Ok,
    ensures
        0 <= drawdown(values)->Ok_0 <= SCALE,
    decreases values.len(),
{
    if values.len() > 0 {
        let before = values.drop_last();
        assert forall|i: int| 0 <= i < before.len() implies 0 <= #[trigger] before[i] by {
            assert(before[i] == values[i]);
        }
        a_drawdown_is_a_share(before);
        lemma_peak_is_above(values, values.len() - 1);
        let top = peak(values);
        let fall = top - values.last();
        if top > 0 {
            assert(0 <= fall * SCALE / top <= SCALE) by (nonlinear_arith)
                requires
                    0 <= fall <= top,
                    0 < top,
                    SCALE > 0,
            ;
        }
    }
}

/// The peak is no lower than any valuation.
pub proof fn lemma_peak_is_above(values: Seq<i128>, i: int)
    requires
        0 <= i < values.len(),
    ensures
        values[i] <= peak(values),
    decreases values.len(),
{
    if i < values.len() - 1 {
        lemma_peak_is_above(values.drop_last(), i);
    }
}

proof fn lemma_decline_is_rounded_down(values: Seq<i128>)
    requires
        values.len() > 0,
        decline(values) is Ok,
    ensures
        decline(values)->Ok_0 >= 0,
        peak(values) > 0 ==> decline(values)->Ok_0 * peak(values) <= (peak(values) - values.last())
            * 1_000_000_000_000 < (decline(values)->Ok_0 + 1) * peak(values),
{
    lemma_peak_is_above(values, values.len() - 1);
    if peak(values) > 0 {
        fixed_point::ratios_are_rounded(peak(values) - values.last(), peak(values));
    }
}

/// The peak is one of the valuations. Gives its place.
proof fn lemma_peak_is_attained(values: Seq<i128>) -> (i: int)
    requires
        values.len() > 0,
    ensures
        0 <= i < values.len(),
        values[i] == peak(values),
    decreases values.len(),
{
    if values.len() == 1 {
        0
    } else if values.last() > peak(values.drop_last()) {
        values.len() - 1
    } else {
        lemma_peak_is_attained(values.drop_last())
    }
}

/// The maximum drawdown is no less than any fall: from any valuation above
/// zero to any later one that is not negative, in parts of the first and
/// rounded down.
pub proof fn no_fall_exceeds_the_drawdown(values: Seq<i128>, i: int, j: int)
    requires
        drawdown(values) is Ok,
        0 <= i <= j < values.len(),
        values[i] > 0,
        values[j] >= 0,
    ensures
        drawdown(values)->Ok_0 >= 0,
        (values[i] - values[j]) * 1_000_000_000_000 < (drawdown(values)->Ok_0 + 1) * values[i],
    decreases values.len(),
{
    lemma_drawdown_is_not_negative(values);
    let d = drawdown(values)->Ok_0 as int;
    let v = values[i] as int;
    if j < values.len() - 1 {
        let less = values.drop_last();
        no_fall_exceeds_the_drawdown(less, i, j);
        let b = drawdown(less)->Ok_0 as int;
        assert((b + 1) * v <= (d + 1) * v) by (nonlinear_arith)
            requires
                b <= d,
                v > 0,
        ;
    } else {
        lemma_peak_is_above(values, i);
        lemma_decline_is_rounded_down(values);
        let e = decline(values)->Ok_0 as int;
        let top = peak(values);
        let w = values[j] as int;
        let s: int = 1_000_000_000_000;
        assert((e + 1) * top <= (d + 1) * top) by (nonlinear_arith)
            requires
                e <= d,
                top > 0,
        ;
        assert((v - w) * s < (d + 1) * v) by (nonlinear_arith)
            requires
                (top - w) * s < (d + 1) * top,
                0 < v <= top,
                0 <= w,
                0 <= d,
                s > 0,
        {
            assert((top - w) * s * v < (d + 1) * top * v);
            assert((v - w) * top <= (top - w) * v);
            assert((v - w) * top * s <= (top - w) * v * s);
            assert(((v - w) * s) * top < ((d + 1) * v) * top);
        }
    }
}

proof fn lemma_drawdown_is_not_negative(values: Seq<i128>)
    requires
        drawdown(values) is Ok,
    ensures
        drawdown(values)->Ok_0 >= 0,
    decreases values.len(),
{
    if values.len() > 0 {
        lemma_drawdown_is_not_negative(values.drop_last());
    }
}

/// The maximum drawdown happened: it is the fall from one of the valuations to
/// a later one, in parts of the first and rounded down; or it is zero. Gives
/// the places of the two.
pub proof fn a_drawdown_happened(values: Seq<i128>) -> (fall: (int, int))
    requires
        drawdown(values) is Ok,
    ensures
        ({
            let d = drawdown(values)->Ok_0;
            let (i, j) = fall;
            d == 0 || (0 <= i <= j < values.len() && values[i] > 0 && d * values[i] <= (values[i]
                - values[j]) * 1_000_000_000_000 < (d + 1) * values[i])
        }),
    decreases values.len(),
{
    if values.len() == 0 {
        (0, 0)
    } else {
        let less = values.drop_last();
        let d = drawdown(values)->Ok_0 as int;
        if decline(values)->Ok_0 > drawdown(less)->Ok_0 {
            lemma_decline_is_rounded_down(values);
            lemma_drawdown_is_not_negative(less);
            let i = lemma_peak_is_attained(values);
            (i, values.len() - 1)
        } else {
            let (i, j) = a_drawdown_happened(less);
            (i, j)
        }
    }
}

/// A fall that was recovered is not forgotten: a longer history never has a
/// smaller drawdown.
pub proof fn drawdowns_are_not_forgotten(values: Seq<i128>, k: int)
    requires
        0 <= k <= values.len(),
        drawdown(values) is Ok,
    ensures
        drawdown(values.take(k)) is Ok,
        drawdown(values.take(k))->Ok_0 <= drawdown(values)->Ok_0,
    decreases values.len(),
{
    if k == values.len() {
        assert(values.take(k) =~= values);
    } else {
        drawdowns_are_not_forgotten(values.drop_last(), k);
        assert(values.drop_last().take(k) =~= values.take(k));
    }
}

/// A series of valuations that are not negative and fit in fixed point has a
/// drawdown; one that never falls has none at all.
pub proof fn drawdowns_exist(values: Seq<i128>)
    requires
        forall|i: int|
            0 <= i < values.len() ==> 0 <= #[trigger] values[i] && values[i] * 1_000_000_000_000
                <= i128::MAX,
    ensures
        drawdown(values) is Ok,
        (forall|i: int, j: int|
            0 <= i < j < values.len() ==> #[trigger] values[i] <= #[trigger] values[j]) ==> drawdown(
            values,
        ) == Ok::<i128, PerfError>(0),
    decreases values.len(),
{
    if values.len() > 0 {
        let less = values.drop_last();
        assert forall|i: int| 0 <= i < less.len() implies 0 <= #[trigger] less[i] && less[i]
            * 1_000_000_000_000 <= i128::MAX by {
            assert(less[i] == values[i]);
        }
        drawdowns_exist(less);
        let at = lemma_peak_is_attained(values);
        lemma_peak_is_above(values, values.len() - 1);
        let top = peak(values);
        assert(values[at] == top);
        assert(0 <= values[values.len() - 1]);
        if top > 0 {
            fixed_point::ratios_are_rounded(top - values.last(), top);
        }
        if forall|i: int, j: int|
            0 <= i < j < values.len() ==> #[trigger] values[i] <= #[trigger] values[j] {
            assert forall|i: int, j: int| 0 <= i < j < less.len() implies #[trigger] less[i]
                <= #[trigger] less[j] by {
                assert(values[i] <= values[j]);
            }
            if at < values.len() - 1 {
                assert(values[at] <= values[values.len() - 1]);
            }
            if top > 0 {
                let q = decline(values)->Ok_0 as int;
                assert(q == 0) by (nonlinear_arith)
                    requires
                        q * top <= 0,
                        q >= 0,
                        top > 0,
                ;
            }
        }
    }
}

/// Each period multiplies the growth by the period's own factor: the value at
/// its end over the value at its start, both steps rounded toward zero. A
/// period that starts from nothing counts for none. Gives the factor.
pub proof fn growth_compounds(values: Seq<i128>, next: i128) -> (factor: int)
    requires
        values.len() > 0,
        growth(values.push(next)) is Ok,
    ensures
        growth(values) is Ok,
        values.last() <= 0 ==> growth(values.push(next)) == growth(values),
        values.last() > 0 && next >= 0 ==> factor * values.last() <= next * 1_000_000_000_000 < (
        factor + 1) * values.last() && factor >= 0,
        values.last() > 0 && next >= 0 && growth(values)->Ok_0 >= 0 ==> growth(
            values.push(next),
        )->Ok_0 * 1_000_000_000_000 <= growth(values)->Ok_0 * factor < (growth(
            values.push(next),
        )->Ok_0 + 1) * 1_000_000_000_000 && growth(values.push(next))->Ok_0 >= 0,
        growth(seq![next]) == Ok::<i128, PerfError>(1_000_000_000_000),
{
    let longer = values.push(next);
    assert(longer.drop_last() =~= values);
    let start = values.last() as int;
    assert(longer[longer.len() - 2] == start);
    if start > 0 {
        let f = ratio(next as int, start)->Ok_0 as int;
        fixed_point::ratios_are_rounded(next as int, start);
        let g = growth(values)->Ok_0 as int;
        fixed_point::products_are_rounded(g, f);
        if next >= 0 && g >= 0 {
            assert(g * f >= 0) by (nonlinear_arith)
                requires
                    g >= 0,
                    f >= 0,
            ;
            math::quotients_round_toward_zero(g * f, SCALE as int);
        }
        f
    } else {
        0
    }
}

/// Where no valuation is below or at zero, the chained growth is that from the
/// first valuation to the last, but for rounding, which only takes away; over
/// a single period it is exactly that, rounded down.
pub proof fn growth_is_from_first_to_last(values: Seq<i128>)
    requires
        values.len() > 0,
        growth(values) is Ok,
        forall|i: int| 0 <= i < values.len() ==> 0 < #[trigger] values[i],
    ensures
        0 <= growth(values)->Ok_0,
        growth(values)->Ok_0 * values[0] <= values.last() * 1_000_000_000_000,
        values.len() == 2 ==> values[1] * 1_000_000_000_000 < (growth(values)->Ok_0 + 1)
            * values[0],
    decreases values.len(),
{
    let s: int = 1_000_000_000_000;
    if values.len() == 1 {
    } else {
        let less = values.drop_last();
        assert(values =~= less.push(values.last()));
        assert forall|i: int| 0 <= i < less.len() implies 0 < #[trigger] less[i] by {
            assert(less[i] == values[i]);
        }
        assert(0 < values[values.len() - 1]);
        assert(0 < less[less.len() - 1]);
        assert(0 < values[0]);
        let f = growth_compounds(less, values.last());
        growth_is_from_first_to_last(less);
        let (g, h) = (growth(less)->Ok_0 as int, growth(values)->Ok_0 as int);
        let (a, b, c) = (values[0] as int, less.last() as int, values.last() as int);
        assert(g * f * a <= f * b * s) by (nonlinear_arith)
            requires
                g * a <= b * s,
                f >= 0,
        ;
        assert(h * s * a <= g * f * a) by (nonlinear_arith)
            requires
                h * s <= g * f,
                a > 0,
        ;
        assert(f * b * s <= c * s * s) by (nonlinear_arith)
            requires
                f * b <= c * s,
                s > 0,
        ;
        assert(h * a <= c * s) by (nonlinear_arith)
            requires
                h * s * a <= c * s * s,
                s == 1_000_000_000_000,
        ;
        if values.len() == 2 {
            assert(less =~= seq![values[0]]);
            assert(g == s);
            assert(h == f) by (nonlinear_arith)
                requires
                    h * s <= s * f < (h + 1) * s,
                    s > 0,
            ;
        }
    }
}

/// The time-weighted return is the growth less one; valuations fewer than two
/// have none.
pub proof fn a_return_is_growth_less_one(values: Seq<i128>)
    ensures
        weighted(values) == Err::<i128, PerfError>(PerfError::InsufficientData) ==> values.len()
            < 2,
        values.len() < 2 ==> weighted(values) == Err::<i128, PerfError>(
            PerfError::InsufficientData,
        ),
        weighted(values) matches Ok(r) ==> growth(values) is Ok && r + 1_000_000_000_000 == growth(
            values,
        )->Ok_0,
        values.len() >= 2 && growth(values) is Ok && growth(values)->Ok_0 >= 0 ==> weighted(
            values,
        ) is Ok,
{
    lemma_series_are_long_enough(values);
}

/// A total is the sum of its terms: it is what a single term is, and totals of
/// parts add up.
pub proof fn totals_add_up(a: Seq<Option<int>>, b: Seq<Option<int>>, t: int)
    requires
        total(a + b) is Some,
    ensures
        total(a) is Some,
        total(b) matches Some(sum) ==> total(a + b)->0 == total(a)->0 + sum,
        math::fits(t) ==> total(seq![Some(t)]) == Some(t),
        total(Seq::<Option<int>>::empty()) == Some(0int),
        forall|i: int| 0 <= i < a.len() ==> (#[trigger] a[i]) is Some,
    decreases b.len(),
{
    reveal_with_fuel(total, 2);
    assert(seq![Some(t)].drop_last() =~= Seq::<Option<int>>::empty());
    if b.len() == 0 {
        assert(a + b =~= a);
        lemma_all_terms(a);
    } else {
        assert((a + b).drop_last() =~= a + b.drop_last());
        assert((a + b).last() == b.last());
        totals_add_up(a, b.drop_last(), t);
    }
}

proof fn lemma_all_terms(a: Seq<Option<int>>)
    requires
        total(a) is Some,
    ensures
        forall|i: int| 0 <= i < a.len() ==> (#[trigger] a[i]) is Some,
    decreases a.len(),
{
    if a.len() > 0 {
        lemma_all_terms(a.drop_last());
        assert forall|i: int| 0 <= i < a.len() implies (#[trigger] a[i]) is Some by {
            if i < a.len() - 1 {
                assert(a[i] == a.drop_last()[i]);
            }
        }
    }
}

/// The terms of a deviation are squares in fixed point, rounded down: of how
/// far each return is from the center; and for the downside of how far it is
/// below the target, where it is.
pub proof fn deviations_are_squares(gains: Seq<i128>, center: int, i: int)
    requires
        0 <= i < gains.len(),
    ensures
        spread_terms(gains, center).len() == gains.len(),
        shortfall_terms(gains, center).len() == gains.len(),
        plain_terms(gains).len() == gains.len(),
        plain_terms(gains)[i] == Some(gains[i] as int),
        spread_terms(gains, center)[i] matches Some(q) ==> q * 1_000_000_000_000 <= (gains[i]
            - center) * (gains[i] - center) < (q + 1) * 1_000_000_000_000,
        gains[i] >= center ==> shortfall_terms(gains, center)[i] == Some(0int),
        gains[i] < center ==> shortfall_terms(gains, center)[i] == spread_terms(gains, center)[i],
{
    let d = gains[i] - center;
    assert(d * d >= 0) by (nonlinear_arith);
    math::quotients_round_toward_zero(d * d, SCALE as int);
}

/// What a ratio rests on: the mean return, the variance, the deviation, the
/// excess for each unit of risk, and the factor for a year.
pub struct RiskFigures {
    pub mean: int,
    pub sum: int,
    pub spread: int,
    pub variance: int,
    pub risk: int,
    pub rate: int,
    pub per_risk: int,
    pub yearly: int,
}

/// The Sharpe ratio of at least two returns is the mean return less the
/// risk-free one, over the standard deviation of the sample, times the square
/// root of the periods of a year; each step is rounded toward zero. It is zero
/// where the returns do not deviate. Gives the figures that it rests on.
pub proof fn the_sharpe_ratio_is_excess_over_deviation(
    gains: Seq<i128>,
    rate: int,
    periods: int,
) -> (f: RiskFigures)
    requires
        gains.len() >= 2,
        periods > 0,
        sharpe(gains, rate, periods) is Ok,
    ensures
        ({
            let n = gains.len() as int;
            let s: int = 1_000_000_000_000;
            let ratio = sharpe(gains, rate, periods)->Ok_0;
            let excess = f.mean - f.rate;
            &&& total(plain_terms(gains)) == Some(f.sum)
            &&& f.sum >= 0 ==> f.mean * n <= f.sum < (f.mean + 1) * n
            &&& f.sum <= 0 ==> (f.mean - 1) * n < f.sum <= f.mean * n
            &&& total(spread_terms(gains, f.mean)) == Some(f.spread)
            &&& f.variance * (n - 1) <= f.spread < (f.variance + 1) * (n - 1)
            &&& 0 <= f.risk && f.risk * f.risk <= f.variance * s < (f.risk + 1) * (f.risk + 1)
            &&& rate >= 0 ==> f.rate * periods <= rate < (f.rate + 1) * periods
            &&& rate <= 0 ==> (f.rate - 1) * periods < rate <= f.rate * periods
            &&& 0 <= f.yearly && f.yearly * f.yearly <= periods * s * s < (f.yearly + 1) * (f.yearly
                + 1)
            &&& f.risk == 0 ==> ratio == 0
            &&& f.risk > 0 && excess >= 0 ==> f.per_risk * f.risk <= excess * s < (f.per_risk + 1)
                * f.risk && ratio * s <= f.per_risk * f.yearly < (ratio + 1) * s
            &&& f.risk > 0 && excess <= 0 ==> (f.per_risk - 1) * f.risk < excess * s <= f.per_risk
                * f.risk && (ratio - 1) * s < f.per_risk * f.yearly <= ratio * s
        }),
{
    let n = gains.len() as int;
    let sum = total(plain_terms(gains))->0;
    let m = mean(gains)->0;
    let spread = total(spread_terms(gains, m))->0;
    math::quotients_round_toward_zero(sum, n);
    lemma_spread_is_not_negative(spread_terms(gains, m), gains, m, false);
    let v = per_term(spread, n - 1);
    math::quotients_round_toward_zero(spread, n - 1);
    math::quotients_round_toward_zero(rate, periods);
    let (risk, q, y) = lemma_per_risk(m - period_rate(rate, periods), v, periods);
    RiskFigures {
        mean: m,
        sum,
        spread,
        variance: v,
        risk,
        rate: period_rate(rate, periods),
        per_risk: q,
        yearly: y,
    }
}

/// The Sortino ratio is the mean return less the risk-free one, over the
/// downside deviation, times the square root of the periods of a year; each
/// step is rounded toward zero. Only returns below the risk-free one deviate.
/// Gives the figures that it rests on.
pub proof fn the_sortino_ratio_is_excess_over_shortfall(
    gains: Seq<i128>,
    rate: int,
    periods: int,
) -> (f: RiskFigures)
    requires
        gains.len() >= 1,
        periods > 0,
        sortino(gains, rate, periods) is Ok,
    ensures
        ({
            let n = gains.len() as int;
            let s: int = 1_000_000_000_000;
            let ratio = sortino(gains, rate, periods)->Ok_0;
            let excess = f.mean - f.rate;
            &&& total(plain_terms(gains)) == Some(f.sum)
            &&& f.sum >= 0 ==> f.mean * n <= f.sum < (f.mean + 1) * n
            &&& f.sum <= 0 ==> (f.mean - 1) * n < f.sum <= f.mean * n
            &&& total(shortfall_terms(gains, f.rate)) == Some(f.spread)
            &&& f.variance * n <= f.spread < (f.variance + 1) * n
            &&& 0 <= f.risk && f.risk * f.risk <= f.variance * s < (f.risk + 1) * (f.risk + 1)
            &&& rate >= 0 ==> f.rate * periods <= rate < (f.rate + 1) * periods
            &&& rate <= 0 ==> (f.rate - 1) * periods < rate <= f.rate * periods
            &&& 0 <= f.yearly && f.yearly * f.yearly <= periods * s * s < (f.yearly + 1) * (f.yearly
                + 1)
            &&& f.risk == 0 ==> ratio == 0
            &&& f.risk > 0 && excess >= 0 ==> f.per_risk * f.risk <= excess * s < (f.per_risk + 1)
                * f.risk && ratio * s <= f.per_risk * f.yearly < (ratio + 1) * s
            &&& f.risk > 0 && excess <= 0 ==> (f.per_risk - 1) * f.risk < excess * s <= f.per_risk
                * f.risk && (ratio - 1) * s < f.per_risk * f.yearly <= ratio * s
        }),
{
    let n = gains.len() as int;
    let target = period_rate(rate, periods);
    let sum = total(plain_terms(gains))->0;
    let m = mean(gains)->0;
    let spread = total(shortfall_terms(gains, target))->0;
    math::quotients_round_toward_zero(sum, n);
    lemma_spread_is_not_negative(shortfall_terms(gains, target), gains, target, true);
    let v = per_term(spread, n);
    math::quotients_round_toward_zero(spread, n);
    math::quotients_round_toward_zero(rate, periods);
    let (risk, q, y) = lemma_per_risk(m - target, v, periods);
    RiskFigures { mean: m, sum, spread, variance: v, risk, rate: target, per_risk: q, yearly: y }
}

proof fn lemma_spread_is_not_negative(
    terms: Seq<Option<int>>,
    gains: Seq<i128>,
    center: int,
    below: bool,
)
    requires
        terms == (if below {
            shortfall_terms(gains, center)
        } else {
            spread_terms(gains, center)
        }),
        total(terms) is Some,
    ensures
        total(terms)->0 >= 0,
    decreases terms.len(),
{
    if terms.len() > 0 {
        let fewer = gains.drop_last();
        if below {
            assert(terms.drop_last() =~= shortfall_terms(fewer, center));
        } else {
            assert(terms.drop_last() =~= spread_terms(fewer, center));
        }
        lemma_spread_is_not_negative(terms.drop_last(), fewer, center, below);
        let d = gains.last() - center;
        assert(d * d >= 0) by (nonlinear_arith);
    }
}

proof fn lemma_root_exists(x: int) -> (r: int)
    requires
        x >= 0,
    ensures
        is_root(x, r),
        r == root(x),
    decreases x,
{
    let r = if x == 0 {
        assert(0 * 0 == 0 && (0 + 1) * (0 + 1) == 1) by (nonlinear_arith);
        0
    } else {
        let q = lemma_root_exists(x - 1);
        if x < (q + 1) * (q + 1) {
            q
        } else {
            assert((q + 2) * (q + 2) > (q + 1) * (q + 1)) by (nonlinear_arith)
                requires
                    q >= 0,
            ;
            q + 1
        }
    };
    lemma_root_is_unique(x, r, root(x));
    r
}

/// The risk, the excess for each unit of it, and the factor for a year.
proof fn lemma_per_risk(excess: int, variance: int, periods: int) -> (r: (int, int, int))
    requires
        variance >= 0,
        periods > 0,
        per_risk(excess, fp_root(variance), periods) is Ok,
    ensures
        ({
            let s: int = 1_000_000_000_000;
            let (risk, q, yearly) = r;
            let ratio = per_risk(excess, fp_root(variance), periods)->Ok_0;
            &&& 0 <= risk && risk * risk <= variance * s < (risk + 1) * (risk + 1)
            &&& 0 <= yearly && yearly * yearly <= periods * s * s < (yearly + 1) * (yearly + 1)
            &&& risk == 0 ==> ratio == 0
            &&& risk > 0 && excess >= 0 ==> q * risk <= excess * s < (q + 1) * risk && ratio * s <= q
                * yearly < (ratio + 1) * s
            &&& risk > 0 && excess <= 0 ==> (q - 1) * risk < excess * s <= q * risk && (ratio - 1) * s
                < q * yearly <= ratio * s
        }),
{
    let s: int = 1_000_000_000_000;
    assert(variance * s >= 0 && periods * s * s >= 0) by (nonlinear_arith)
        requires
            variance >= 0,
            periods > 0,
            s > 0,
    ;
    let risk = lemma_root_exists(variance * s);
    let yearly = lemma_root_exists(periods * s * s);
    if risk == 0 {
        (risk, 0, yearly)
    } else {
        let q = ratio(excess, risk)->Ok_0 as int;
        fixed_point::ratios_are_rounded(excess, risk);
        fixed_point::products_are_rounded(q, yearly);
        if excess >= 0 {
            assert(q * yearly >= 0) by (nonlinear_arith)
                requires
                    q >= 0,
                    yearly >= 0,
            ;
        }
        if excess <= 0 {
            assert(q * yearly <= 0) by (nonlinear_arith)
                requires
                    q <= 0,
                    yearly >= 0,
            ;
        }
        (risk, q, yearly)
    }
}

/// A single return does not deviate, so that its Sharpe ratio is zero; a year
/// without periods has no ratios.
pub proof fn ratios_need_risk_and_periods(gains: Seq<i128>, rate: int, periods: int)
    ensures
        periods == 0 ==> sharpe(gains, rate, periods) == Err::<i128, PerfError>(
            PerfError::DivideByZero,
        ) && sortino(gains, rate, periods) == Err::<i128, PerfError>(PerfError::DivideByZero),
        gains.len() <= 1 && sharpe(gains, rate, periods) is Ok ==> sharpe(gains, rate, periods)->Ok_0
            == 0,
{
    if gains.len() <= 1 {
        let r = lemma_root_exists(0);
        assert(r == 0) by (nonlinear_arith)
            requires
                0 <= r,
                r * r <= 0,
        ;
        assert(fp_root(0) == Some(0int));
    }
}

/// An average stands for the sum of all items: as many times as there are
/// items it is the sum, but for rounding. Nothing averages to nothing, and a
/// sum out of range has no average.
pub proof fn averages_stand_for_the_sum(gains: Seq<i128>)
    ensures
        gains.len() == 0 ==> mean(gains) == Some(0int),
        gains.len() > 0 && total(plain_terms(gains)) is None ==> mean(gains) is None,
        gains.len() > 0 && total(plain_terms(gains)) is Some ==> {
            let n = gains.len() as int;
            let sum = total(plain_terms(gains))->0;
            let m = mean(gains)->0;
            &&& mean(gains) is Some
            &&& sum >= 0 ==> m * n <= sum < (m + 1) * n
            &&& sum <= 0 ==> (m - 1) * n < sum <= m * n
        },
{
    if gains.len() > 0 && total(plain_terms(gains)) is Some {
        math::quotients_round_toward_zero(total(plain_terms(gains))->0, gains.len() as int);
    }
}

} // verus!
