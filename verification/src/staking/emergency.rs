//! Early withdrawal of a locked stake, for a penalty that decays as the unlock
//! date comes closer.
//!
//! Rates are in basis points: `[0, 10_000]` is `[0%, 100%]`. The decay is
//! linear, `start + (end - start) * elapsed / total`, or exponential,
//! `start * (end / start)^(elapsed / total)`.
use crate::fixed_point;
use crate::fixed_point::{MathError, ONE, SCALE};
use crate::math;
use crate::staking::Error;
use crate::table;
use crate::table::Table;
use crate::values::Address;
use vstd::prelude::*;

verus! {

/// The highest penalty: 100%.
pub const MAX_BPS: i128 = 10_000;

/// Basis points in a whole.
pub const BPS_SCALE: i128 = 10_000;

/// One basis point as a fixed-point number.
pub const BPS_UNIT: i128 = 100_000_000;

/// How the penalty moves from its start to its end.
#[derive(Clone, Copy, PartialEq, Eq, Structural, Debug)]
pub enum PenaltyDecayFunction {
    /// By the same amount in every second.
    Linear,
    /// Fast at first, slowly near the end.
    Exponential,
    /// Not at all: the start penalty holds until the unlock date.
    Custom,
}

/// The rules of early withdrawal.
#[derive(Clone, Copy, PartialEq, Eq, Structural, Debug)]
pub struct EmergencyUnstakeConfig {
    /// The penalty when the lock has just begun.
    pub penalty_start_bps: i128,
    /// The penalty from the unlock date on.
    pub penalty_end_bps: i128,
    pub decay_function: PenaltyDecayFunction,
    /// How long a staker waits between two early withdrawals.
    pub cooldown_seconds: u64,
    /// Who receives the penalties.
    pub treasury: Address,
    pub enabled: bool,
}

/// One early withdrawal.
#[derive(Clone, Copy, PartialEq, Eq, Structural, Debug)]
pub struct EmergencyUnstakeRecord {
    pub staker: Address,
    pub timestamp: u64,
    pub amount_requested: i128,
    pub penalty_amount: i128,
    pub amount_returned: i128,
    pub penalty_bps_applied: i128,
    pub original_unlock_ts: u64,
    pub lock_start_ts: u64,
    /// Whether some of the balance stays staked.
    pub is_partial: bool,
}

/// A penalty that is due to the treasury.
#[derive(Clone, Copy, PartialEq, Eq, Structural, Debug)]
pub struct PenaltyDistributionEvent {
    pub staker: Address,
    pub treasury: Address,
    pub penalty_amount: i128,
    pub timestamp: u64,
}

/// What is published about an early withdrawal.
#[derive(Clone, Copy, PartialEq, Eq, Structural, Debug)]
pub enum EmergencyNotice {
    Penalty(PenaltyDistributionEvent),
    Unstaked(EmergencyUnstakeRecord),
}

/// Everything kept about early withdrawals, and the notices to publish.
pub struct EmergencyStore {
    pub config: Option<EmergencyUnstakeConfig>,
    pub cooldowns: Table<Address, u64>,
    pub histories: Table<Address, Vec<EmergencyUnstakeRecord>>,
    pub outbox: Vec<EmergencyNotice>,
}

/// The store as a value.
pub struct EmergencyLedger {
    pub config: Option<EmergencyUnstakeConfig>,
    pub cooldowns: Map<Address, u64>,
    pub histories: Map<Address, Seq<EmergencyUnstakeRecord>>,
    pub outbox: Seq<EmergencyNotice>,
}

impl View for EmergencyStore {
    type V = EmergencyLedger;

    open spec fn view(&self) -> EmergencyLedger {
        EmergencyLedger {
            config: self.config,
            cooldowns: self.cooldowns@,
            histories: table::lists(self.histories@),
            outbox: self.outbox@,
        }
    }
}

impl EmergencyStore {
    /// A store without configuration or history.
    pub fn new() -> (store: EmergencyStore)
        ensures
            store@.config is None,
            store@.cooldowns == Map::<Address, u64>::empty(),
            store@.histories == Map::<Address, Seq<EmergencyUnstakeRecord>>::empty(),
            store@.outbox == Seq::<EmergencyNotice>::empty(),
    {
        let store = EmergencyStore {
            config: None,
            cooldowns: Table::new(),
            histories: Table::new(),
            outbox: Vec::new(),
        };
        assert(store@.histories =~= Map::<Address, Seq<EmergencyUnstakeRecord>>::empty());
        assert(store@.outbox =~= Seq::<EmergencyNotice>::empty());
        store
    }
}

// ---------------------------------------------------------------------------
// The penalty
// ---------------------------------------------------------------------------

/// `start + (end - start) * elapsed / total`, in fixed-point steps.
pub open spec fn linear_rate(start: int, end: int, elapsed: int, total: int) -> Result<
    i128,
    MathError,
> {
    match fixed_point::ratio(elapsed, total) {
        Err(e) => Err(e),
        Ok(progress) => if !math::fits(end - start) {
            Err(MathError::Overflow)
        } else {
            match fixed_point::product(end - start, progress as int) {
                Err(e) => Err(e),
                Ok(change) => if math::fits(start + change) {
                    Ok((start + change) as i128)
                } else {
                    Err(MathError::Overflow)
                },
            }
        },
    }
}

/// `base^t` for `base >= 1`.
pub open spec fn power(base: int, t: int) -> Result<i128, MathError> {
    match fixed_point::logarithm(base) {
        Err(e) => Err(e),
        Ok(l) => match fixed_point::product(l as int, t) {
            Err(e) => Err(e),
            Ok(x) => fixed_point::exponential(x as int),
        },
    }
}

/// `value * by^t`; for `by` below one as a division by `(1 / by)^t`.
pub open spec fn moved(value: int, by: int, t: int) -> Result<i128, MathError> {
    if by >= ONE {
        match power(by, t) {
            Err(e) => Err(e),
            Ok(factor) => fixed_point::product(value, factor as int),
        }
    } else {
        match fixed_point::ratio(ONE as int, by) {
            Err(e) => Err(e),
            Ok(inverse) => match power(inverse as int, t) {
                Err(e) => Err(e),
                Ok(factor) => fixed_point::ratio(value, factor as int),
            },
        }
    }
}

/// A rate moved between the two bounds.
pub open spec fn between(rate: int, start: int, end: int) -> int {
    math::clamped(rate, math::least(start, end), math::most(start, end))
}

/// `start * (end / start)^(elapsed / total)`, kept between the two bounds where
/// rounding leads out of them; linear where a bound is not positive.
pub open spec fn exponential_rate(start: int, end: int, elapsed: int, total: int) -> Result<
    i128,
    MathError,
> {
    if start <= 0 || end <= 0 {
        linear_rate(start, end, elapsed, total)
    } else {
        match fixed_point::ratio(elapsed, total) {
            Err(e) => Err(e),
            Ok(t) => if !math::fits(start * BPS_UNIT) || !math::fits(end * BPS_UNIT) {
                Err(MathError::Overflow)
            } else {
                match fixed_point::ratio(end * BPS_UNIT, start * BPS_UNIT) {
                    Err(e) => Err(e),
                    Ok(by) => match moved(start * BPS_UNIT, by as int, t as int) {
                        Err(e) => Err(e),
                        Ok(bps) => match fixed_point::product(bps as int, BPS_SCALE as int) {
                            Err(e) => Err(e),
                            Ok(rate) => Ok(between(rate as int, start, end) as i128),
                        },
                    },
                }
            },
        }
    }
}

/// The rate before it is moved into `[0, MAX_BPS]`.
pub open spec fn raw_rate(config: EmergencyUnstakeConfig, elapsed: int, total: int) -> Result<
    i128,
    MathError,
> {
    let start = config.penalty_start_bps;
    let end = config.penalty_end_bps;
    if total == 0 || elapsed == 0 {
        Ok(start)
    } else if elapsed >= total {
        Ok(end)
    } else {
        match config.decay_function {
            PenaltyDecayFunction::Linear => linear_rate(start as int, end as int, elapsed, total),
            PenaltyDecayFunction::Exponential => exponential_rate(
                start as int,
                end as int,
                elapsed,
                total,
            ),
            PenaltyDecayFunction::Custom => Ok(start),
        }
    }
}

/// The penalty rate `elapsed` seconds into a lock of `total` seconds.
pub open spec fn penalty_rate(config: EmergencyUnstakeConfig, elapsed: int, total: int) -> Result<
    i128,
    MathError,
> {
    match raw_rate(config, elapsed, total) {
        Err(e) => Err(e),
        Ok(bps) => Ok(math::clamped(bps as int, 0, MAX_BPS as int) as i128),
    }
}

/// An amount parted into the penalty and the rest.
pub open spec fn penalty_split(amount: int, penalty_bps: int) -> Result<(i128, i128), MathError> {
    if penalty_bps == 0 {
        Ok((0i128, amount as i128))
    } else if penalty_bps >= MAX_BPS {
        Ok((amount as i128, 0i128))
    } else {
        match fixed_point::scaled(amount, penalty_bps, BPS_SCALE as int) {
            Err(e) => Err(e),
            Ok(penalty) => if math::fits(amount - penalty) {
                Ok((penalty, (amount - penalty) as i128))
            } else {
                Err(MathError::Overflow)
            },
        }
    }
}

/// Computes penalties.
pub struct PenaltyCalculator;

impl PenaltyCalculator {
    /// The penalty rate, in `[0, MAX_BPS]`.
    pub fn compute_penalty_bps(
        config: &EmergencyUnstakeConfig,
        elapsed_seconds: u64,
        total_lock_seconds: u64,
    ) -> (r: Result<i128, MathError>)
        ensures
            r == penalty_rate(*config, elapsed_seconds as int, total_lock_seconds as int),
    {
        if total_lock_seconds == 0 || elapsed_seconds == 0 {
            return Ok(math::clamp_to(config.penalty_start_bps, MAX_BPS));
        }
        if elapsed_seconds >= total_lock_seconds {
            return Ok(math::clamp_to(config.penalty_end_bps, MAX_BPS));
        }
        let start = config.penalty_start_bps;
        let end = config.penalty_end_bps;
        let rate = match config.decay_function {
            PenaltyDecayFunction::Linear => Self::linear_decay(
                start,
                end,
                elapsed_seconds,
                total_lock_seconds,
            ),
            PenaltyDecayFunction::Exponential => Self::exponential_decay(
                start,
                end,
                elapsed_seconds,
                total_lock_seconds,
            ),
            PenaltyDecayFunction::Custom => Ok(start),
        };
        match rate {
            Ok(bps) => Ok(math::clamp_to(bps, MAX_BPS)),
            Err(e) => Err(e),
        }
    }

    fn linear_decay(start: i128, end: i128, elapsed: u64, total: u64) -> (r: Result<
        i128,
        MathError,
    >)
        ensures
            r == linear_rate(start as int, end as int, elapsed as int, total as int),
    {
        let progress = match fixed_point::fp_div(elapsed as i128, total as i128) {
            Ok(p) => p,
            Err(e) => {
                return Err(e);
            },
        };
        let delta = match end.checked_sub(start) {
            Some(d) => d,
            None => {
                return Err(MathError::Overflow);
            },
        };
        let change = match fixed_point::fp_mul(delta, progress) {
            Ok(c) => c,
            Err(e) => {
                return Err(e);
            },
        };
        match start.checked_add(change) {
            Some(bps) => Ok(bps),
            None => Err(MathError::Overflow),
        }
    }

    fn power(base: i128, t: i128) -> (r: Result<i128, MathError>)
        ensures
            r == power(base as int, t as int),
    {
        match fixed_point::fp_ln(base) {
            Err(e) => Err(e),
            Ok(l) => match fixed_point::fp_mul(l, t) {
                Err(e) => Err(e),
                Ok(x) => fixed_point::fp_exp(x),
            },
        }
    }

    fn exponential_decay(start: i128, end: i128, elapsed: u64, total: u64) -> (r: Result<
        i128,
        MathError,
    >)
        ensures
            r == exponential_rate(start as int, end as int, elapsed as int, total as int),
    {
        if start <= 0 || end <= 0 {
            return Self::linear_decay(start, end, elapsed, total);
        }
        let t = match fixed_point::fp_div(elapsed as i128, total as i128) {
            Ok(t) => t,
            Err(e) => {
                return Err(e);
            },
        };
        let start_fp = match start.checked_mul(BPS_UNIT) {
            Some(v) => v,
            None => {
                return Err(MathError::Overflow);
            },
        };
        let end_fp = match end.checked_mul(BPS_UNIT) {
            Some(v) => v,
            None => {
                return Err(MathError::Overflow);
            },
        };
        let by = match fixed_point::fp_div(end_fp, start_fp) {
            Ok(v) => v,
            Err(e) => {
                return Err(e);
            },
        };
        let moved_fp = if by >= ONE {
            // The penalty grows over time, which is unusual but allowed.
            match Self::power(by, t) {
                Ok(factor) => fixed_point::fp_mul(start_fp, factor),
                Err(e) => Err(e),
            }
        } else {
            match fixed_point::fp_div(ONE, by) {
                Err(e) => Err(e),
                Ok(inverse) => match Self::power(inverse, t) {
                    Ok(factor) => fixed_point::fp_div(start_fp, factor),
                    Err(e) => Err(e),
                },
            }
        };
        let rate = match moved_fp {
            Ok(bps) => match fixed_point::fp_mul(bps, BPS_SCALE) {
                Ok(rate) => rate,
                Err(e) => {
                    return Err(e);
                },
            },
            Err(e) => {
                return Err(e);
            },
        };
        let (low, high) = if start <= end {
            (start, end)
        } else {
            (end, start)
        };
        if rate < low {
            Ok(low)
        } else if rate > high {
            Ok(high)
        } else {
            Ok(rate)
        }
    }

    /// Part an amount into the penalty and what is left.
    pub fn apply_penalty(amount: i128, penalty_bps: i128) -> (r: Result<(i128, i128), MathError>)
        ensures
            r == penalty_split(amount as int, penalty_bps as int),
    {
        if penalty_bps == 0 {
            return Ok((0, amount));
        }
        if penalty_bps >= MAX_BPS {
            return Ok((amount, 0));
        }
        match fixed_point::mul_div(amount, penalty_bps, BPS_SCALE) {
            Err(e) => Err(e),
            Ok(penalty) => match amount.checked_sub(penalty) {
                Some(net) => Ok((penalty, net)),
                None => Err(MathError::Overflow),
            },
        }
    }
}

// ---------------------------------------------------------------------------
// Laws of the penalty
// ---------------------------------------------------------------------------

/// A penalty is never below 0% or above 100%.
pub proof fn penalty_is_a_share(config: EmergencyUnstakeConfig, elapsed: int, total: int)
    requires
        penalty_rate(config, elapsed, total) is Ok,
    ensures
        0 <= penalty_rate(config, elapsed, total)->Ok_0 <= MAX_BPS,
{
}

/// The penalty and the rest add up to the amount, and a share of an amount is
/// between nothing and all of it.
pub proof fn nothing_is_lost_in_a_penalty(amount: i128, penalty_bps: i128)
    requires
        penalty_split(amount as int, penalty_bps as int) is Ok,
    ensures
        ({
            let (penalty, net) = penalty_split(amount as int, penalty_bps as int)->Ok_0;
            &&& penalty + net == amount
            &&& 0 <= penalty_bps && 0 <= amount ==> 0 <= penalty <= amount
        }),
{
    if 0 < penalty_bps < MAX_BPS && 0 <= amount {
        let part = amount * penalty_bps;
        assert(0 <= part <= amount * BPS_SCALE) by (nonlinear_arith)
            requires
                part == amount * penalty_bps,
                0 <= amount,
                0 < penalty_bps < BPS_SCALE,
        ;
        math::lemma_quot_monotone(part, amount * BPS_SCALE, BPS_SCALE as int);
        math::lemma_quot_shrinks(part, BPS_SCALE as int);
    }
}

/// Progress through the lock, as a fixed-point number, grows and stays below
/// one.
proof fn lemma_progress(e1: int, e2: int, total: int)
    requires
        0 < e1 <= e2 < total,
    ensures
        0 <= math::quot(e1 * SCALE, total) <= math::quot(e2 * SCALE, total) < SCALE,
{
    assert(e1 * SCALE <= e2 * SCALE);
    math::lemma_quot_monotone(e1 * SCALE, e2 * SCALE, total);
    math::lemma_quot_shrinks(e1 * SCALE, total);
    assert(e2 * SCALE / total < SCALE) by (nonlinear_arith)
        requires
            0 < e2 < total,
    ;
}

/// A linear change is at most the whole difference, and grows with progress.
proof fn lemma_change(delta: int, p1: int, p2: int)
    requires
        delta <= 0,
        0 <= p1 <= p2 < SCALE,
    ensures
        delta <= math::quot(delta * p2, SCALE as int) <= math::quot(delta * p1, SCALE as int) <= 0,
{
    assert(delta * SCALE <= delta * p2 <= delta * p1 <= 0) by (nonlinear_arith)
        requires
            delta <= 0,
            0 <= p1 <= p2 < SCALE,
    ;
    math::lemma_quot_monotone(delta * p2, delta * p1, SCALE as int);
    math::lemma_quot_monotone(delta * SCALE, delta * p2, SCALE as int);
    math::lemma_quot_shrinks(delta * p1, SCALE as int);
    let d = -delta;
    assert((d * SCALE) / (SCALE as int) == d) by {
        vstd::arithmetic::div_mod::lemma_div_multiples_vanish(d, SCALE as int);
    }
}

/// A linear rate is between its bounds.
proof fn lemma_linear_between(start: int, end: int, elapsed: int, total: int)
    requires
        0 < elapsed < total,
        linear_rate(start, end, elapsed, total) is Ok,
    ensures
        math::least(start, end) <= linear_rate(start, end, elapsed, total)->Ok_0 <= math::most(
            start,
            end,
        ),
{
    let delta = end - start;
    let p = math::quot(elapsed * SCALE, total);
    lemma_progress(elapsed, elapsed, total);
    if delta <= 0 {
        lemma_change(delta, p, p);
    } else {
        lemma_change(-delta, p, p);
        assert(delta * p == -((-delta) * p)) by (nonlinear_arith);
        assert(0 <= delta * p) by (nonlinear_arith)
            requires
                0 < delta,
                0 <= p,
        ;
    }
}

/// The penalty is between the start and the end of the rules, moved into
/// `[0, MAX_BPS]`.
pub proof fn penalties_stay_between_their_bounds(
    config: EmergencyUnstakeConfig,
    elapsed: int,
    total: int,
)
    requires
        0 <= elapsed,
        0 <= total,
        penalty_rate(config, elapsed, total) is Ok,
    ensures
        ({
            let start = math::clamped(config.penalty_start_bps as int, 0, MAX_BPS as int);
            let end = math::clamped(config.penalty_end_bps as int, 0, MAX_BPS as int);
            math::least(start, end) <= penalty_rate(config, elapsed, total)->Ok_0 <= math::most(
                start,
                end,
            )
        }),
{
    let start = config.penalty_start_bps as int;
    let end = config.penalty_end_bps as int;
    if 0 < elapsed < total && !(config.decay_function is Custom) {
        if config.decay_function is Linear || start <= 0 || end <= 0 {
            lemma_linear_between(start, end, elapsed, total);
        }
    }
}

/// A linear penalty never grows while time passes, through the unlock date
/// and after.
pub proof fn linear_penalty_never_grows(
    config: EmergencyUnstakeConfig,
    earlier: int,
    later: int,
    total: int,
)
    requires
        config.decay_function == PenaltyDecayFunction::Linear,
        config.penalty_end_bps <= config.penalty_start_bps,
        0 <= earlier <= later,
        0 <= total,
        penalty_rate(config, earlier, total) is Ok,
        penalty_rate(config, later, total) is Ok,
    ensures
        penalty_rate(config, later, total)->Ok_0 <= penalty_rate(config, earlier, total)->Ok_0,
{
    let delta = config.penalty_end_bps - config.penalty_start_bps;
    if 0 < earlier < total {
        lemma_progress(earlier, earlier, total);
        let p1 = math::quot(earlier * SCALE, total);
        lemma_change(delta, p1, p1);
        if later < total {
            lemma_progress(earlier, later, total);
            lemma_change(delta, p1, math::quot(later * SCALE, total));
        }
    } else if 0 < later < total {
        lemma_progress(later, later, total);
        let p2 = math::quot(later * SCALE, total);
        lemma_change(delta, p2, p2);
    }
}

/// Where `base^t` is known for two exponents, the larger one gives the larger
/// power, and none is below one.
proof fn lemma_power_monotone(base: int, t1: int, t2: int)
    requires
        base >= ONE,
        base <= i128::MAX,
        0 <= t1 <= t2,
        power(base, t1) is Ok,
        power(base, t2) is Ok,
    ensures
        ONE <= power(base, t1)->Ok_0 <= power(base, t2)->Ok_0,
{
    fixed_point::lemma_log_in_range(base);
    let l = fixed_point::log_value(base);
    assert(0 <= l * t1 <= l * t2) by (nonlinear_arith)
        requires
            0 <= l,
            0 <= t1 <= t2,
    ;
    let x1 = math::quot(l * t1, SCALE as int);
    let x2 = math::quot(l * t2, SCALE as int);
    math::lemma_quot_monotone(l * t1, l * t2, SCALE as int);
    math::lemma_quot_shrinks(l * t1, SCALE as int);
    math::lemma_quot_shrinks(l * t2, SCALE as int);
    fixed_point::exp_is_monotone(x1, x2);
    fixed_point::exp_is_above_its_tangent(x1);
}

/// An exponential penalty never grows while time passes, through the unlock
/// date and after.
pub proof fn exponential_penalty_never_grows(
    config: EmergencyUnstakeConfig,
    earlier: int,
    later: int,
    total: int,
)
    requires
        config.decay_function == PenaltyDecayFunction::Exponential,
        config.penalty_end_bps <= config.penalty_start_bps,
        0 <= earlier <= later,
        0 <= total,
        penalty_rate(config, earlier, total) is Ok,
        penalty_rate(config, later, total) is Ok,
    ensures
        penalty_rate(config, later, total)->Ok_0 <= penalty_rate(config, earlier, total)->Ok_0,
{
    let start = config.penalty_start_bps as int;
    let end = config.penalty_end_bps as int;
    if start <= 0 || end <= 0 {
        let linear = EmergencyUnstakeConfig {
            decay_function: PenaltyDecayFunction::Linear,
            ..config
        };
        linear_penalty_never_grows(linear, earlier, later, total);
    } else if 0 < later < total {
        let value = start * BPS_UNIT;
        let by = math::quot(end * BPS_UNIT * SCALE, value);
        math::lemma_quot_monotone(end * BPS_UNIT * SCALE, value * SCALE, value);
        assert((value * SCALE) / value == SCALE) by {
            vstd::arithmetic::div_mod::lemma_div_multiples_vanish(SCALE as int, value);
            assert(value * SCALE == SCALE * value) by (nonlinear_arith);
        }
        assert(end * BPS_UNIT * SCALE <= value * SCALE);
        assert(by <= ONE);
        math::lemma_quot_shrinks(end * BPS_UNIT * SCALE, value);
        lemma_progress(later, later, total);
        let t2 = math::quot(later * SCALE, total);
        let base = if by >= ONE { by } else { math::quot(ONE * SCALE, by) };
        if by < ONE {
            assert(by != 0);
            assert(ONE * SCALE / by >= ONE) by (nonlinear_arith)
                requires
                    0 < by < ONE,
                    ONE == SCALE,
            ;
        }
        let f2 = power(base, t2)->Ok_0 as int;
        lemma_power_monotone(base, t2, t2);
        if by >= ONE {
            fixed_point::lemma_power_of_one(t2);
            if earlier > 0 {
                lemma_progress(earlier, later, total);
                fixed_point::lemma_power_of_one(math::quot(earlier * SCALE, total));
            }
            assert((value * SCALE) / (SCALE as int) == value) by {
                vstd::arithmetic::div_mod::lemma_div_multiples_vanish(value, SCALE as int);
            }
            assert((value * BPS_SCALE) / (SCALE as int) == start);
        } else {
            math::lemma_quot_antitone(value * SCALE, ONE as int, f2);
            let v2 = math::quot(value * SCALE, f2);
            assert(v2 <= value);
            math::lemma_quot_monotone(v2 * BPS_SCALE, value * BPS_SCALE, SCALE as int);
            assert((value * BPS_SCALE) / (SCALE as int) == start);
            if earlier > 0 {
                lemma_progress(earlier, later, total);
                let t1 = math::quot(earlier * SCALE, total);
                lemma_power_monotone(base, t1, t2);
                let f1 = power(base, t1)->Ok_0 as int;
                math::lemma_quot_antitone(value * SCALE, f1, f2);
                let v1 = math::quot(value * SCALE, f1);
                math::lemma_quot_monotone(v2 * BPS_SCALE, v1 * BPS_SCALE, SCALE as int);
            }
        }
    }
}

/// Halfway, a linear rate is the mean of its bounds, rounded to the start.
proof fn lemma_linear_halfway(start: int, end: int, elapsed: int)
    requires
        0 < elapsed,
        linear_rate(start, end, elapsed, 2 * elapsed) is Ok,
    ensures
        math::quot(elapsed * SCALE, 2 * elapsed) == SCALE / 2,
        linear_rate(start, end, elapsed, 2 * elapsed)->Ok_0 == start + math::quot(end - start, 2),
{
    let half = SCALE as int / 2;
    assert(elapsed * SCALE / (2 * elapsed) == half) by (nonlinear_arith)
        requires
            0 < elapsed,
            half == 500_000_000_000,
            SCALE == 1_000_000_000_000,
    ;
    let d = math::magnitude(end - start);
    assert(d * half / (SCALE as int) == d / 2) by (nonlinear_arith)
        requires
            d >= 0,
            half == 500_000_000_000,
            SCALE == 1_000_000_000_000,
    ;
    assert((end - start) * half == (if end >= start {
        d * half
    } else {
        -(d * half)
    })) by (nonlinear_arith)
        requires
            d == (if end - start < 0 {
                -(end - start)
            } else {
                end - start
            }),
    ;
    assert(d * half >= 0) by (nonlinear_arith)
        requires
            d >= 0,
            half >= 0,
    ;
}

/// Where `e^(2x)` is about `start / end`, `e^x` is above the start over the
/// mean.
proof fn lemma_root_is_large(start: int, end: int, base: int, x: int)
    requires
        0 < end < start <= 2 * MAX_BPS,
        end * (base + 1) > start * SCALE,
        0 <= x,
        fixed_point::exp_exceeds(2 * x + 2, base),
    ensures
        2 * SCALE * start < fixed_point::exp_value(x) * (start + end),
{
    let s = SCALE as int;
    let f = fixed_point::exp_value(x);
    let both = start + end;
    fixed_point::exp_is_above_its_parabola(x);
    if x >= s - 1 {
        assert(x * x / s / 2 >= 1) by (nonlinear_arith)
            requires
                x >= s - 1,
                s == 1_000_000_000_000,
        ;
        assert(2 * s * start < f * both) by (nonlinear_arith)
            requires
                f >= 2 * s,
                s > 0,
                both == start + end,
                0 < end,
                0 < start,
        ;
    } else {
        let w = 2 * x + 2;
        fixed_point::lemma_exp_small_in_range(w);
        fixed_point::exp_is_below_its_fraction(w);
        let e = fixed_point::exp_value(w);
        let gap = s - x - 1;
        assert(e > base);
        assert(e * (2 * s - w) == 2 * (e * gap)) by (nonlinear_arith)
            requires
                2 * s - w == 2 * gap,
        ;
        assert(s * (2 * s + w) == 2 * (s * (s + x + 1))) by (nonlinear_arith)
            requires
                w == 2 * x + 2,
        ;
        assert((base + 1) * gap <= e * gap) by (nonlinear_arith)
            requires
                base + 1 <= e,
                gap > 0,
        ;
        assert(start * s * gap < end * (s * (s + x + 1))) by (nonlinear_arith)
            requires
                start * s < end * (base + 1),
                (base + 1) * gap <= s * (s + x + 1),
                gap > 0,
                0 < end,
        ;
        assert(start * gap < end * (s + x + 1)) by (nonlinear_arith)
            requires
                start * s * gap < end * (s * (s + x + 1)),
                s > 0,
        ;
        assert(2 * s * start < (s + x + 1) * both) by (nonlinear_arith)
            requires
                start * gap < end * (s + x + 1),
                gap == s - x - 1,
                both == start + end,
        ;
        assert(x >= 2_000_000) by (nonlinear_arith)
            requires
                2 * s * start < (s + x + 1) * both,
                both == start + end,
                end + 1 <= start,
                0 < end,
                start <= 20_000,
                s == 1_000_000_000_000,
        ;
        assert(x * x / s / 2 >= 1) by (nonlinear_arith)
            requires
                x >= 2_000_000,
                s == 1_000_000_000_000,
        ;
        assert((s + x + 1) * both <= f * both) by (nonlinear_arith)
            requires
                s + x + 1 <= f,
                both > 0,
        ;
    }
}

/// Half of a logarithm, as a product in fixed point.
proof fn lemma_half(l: int)
    requires
        0 <= l,
    ensures
        math::quot(l * (SCALE / 2), SCALE as int) == l / 2,
{
    let half = SCALE as int / 2;
    assert(l * half / (SCALE as int) == l / 2) by (nonlinear_arith)
        requires
            l >= 0,
            half == 500_000_000_000,
            SCALE == 1_000_000_000_000,
    ;
    assert(l * half >= 0) by (nonlinear_arith)
        requires
            l >= 0,
            half >= 0,
    ;
}

/// Halfway from a start to a lower end, an exponential rate is below the mean
/// of the two.
proof fn lemma_falling_halfway(start: int, end: int, elapsed: int)
    requires
        0 < elapsed,
        0 < end < start <= 2 * MAX_BPS,
        math::quot(elapsed * SCALE, 2 * elapsed) == SCALE / 2,
        exponential_rate(start, end, elapsed, 2 * elapsed) is Ok,
    ensures
        exponential_rate(start, end, elapsed, 2 * elapsed)->Ok_0 < start + math::quot(
            end - start,
            2,
        ),
{
    let s = SCALE as int;
    let value = start * BPS_UNIT;
    let by = math::quot(end * BPS_UNIT * SCALE, value);
    assert(by < s && by * start <= end * s) by (nonlinear_arith)
        requires
            by == (end * BPS_UNIT * SCALE) / value,
            value == start * BPS_UNIT,
            BPS_UNIT == 100_000_000,
            s == SCALE,
            0 < end < start,
            0 < s,
    ;
    math::lemma_quot_shrinks(end * BPS_UNIT * SCALE, value);
    assert(by != 0);
    let base = math::quot(ONE * SCALE, by);
    assert(base >= s && (base + 1) * by > s * s) by (nonlinear_arith)
        requires
            base == (ONE * SCALE) / by,
            ONE == s,
            SCALE == s,
            0 < by < s,
    ;
    assert(end * (base + 1) > start * s) by (nonlinear_arith)
        requires
            (base + 1) * by > s * s,
            by * start <= end * s,
            0 < s,
            0 < start,
            0 < by,
            base + 1 > 0,
    ;
    fixed_point::lemma_log_in_range(base);
    let l = fixed_point::log_value(base);
    lemma_half(l);
    let x = l / 2;
    fixed_point::exp_is_monotone(l + 1, 2 * x + 2);
    lemma_root_is_large(start, end, base, x);
    let f = fixed_point::exp_value(x);
    fixed_point::exp_is_above_its_tangent(x);
    let v = math::quot(value * SCALE, f);
    let both = start + end;
    assert(2 * v < both * BPS_UNIT) by (nonlinear_arith)
        requires
            v == (value * SCALE) / f,
            value == start * BPS_UNIT,
            2 * SCALE * start < f * both,
            f > 0,
            BPS_UNIT > 0,
            both > 0,
    ;
    math::lemma_quot_shrinks(value * SCALE, f);
    let rate = math::quot(v * BPS_SCALE, s);
    assert(2 * rate < both) by (nonlinear_arith)
        requires
            rate == (v * BPS_SCALE) / s,
            2 * v < both * BPS_UNIT,
            BPS_SCALE * BPS_UNIT == s,
            BPS_SCALE > 0,
            s > 0,
    ;
}

/// Halfway from a start to a higher end, an exponential rate is no more than
/// the mean of the two.
proof fn lemma_rising_halfway(start: int, end: int, elapsed: int)
    requires
        0 < elapsed,
        0 < start <= end,
        math::quot(elapsed * SCALE, 2 * elapsed) == SCALE / 2,
        exponential_rate(start, end, elapsed, 2 * elapsed) is Ok,
    ensures
        exponential_rate(start, end, elapsed, 2 * elapsed)->Ok_0 <= start + math::quot(
            end - start,
            2,
        ),
{
    let s = SCALE as int;
    let value = start * BPS_UNIT;
    let by = math::quot(end * BPS_UNIT * SCALE, value);
    assert(by >= s && by * start <= end * s) by (nonlinear_arith)
        requires
            by == (end * BPS_UNIT * SCALE) / value,
            value == start * BPS_UNIT,
            BPS_UNIT == 100_000_000,
            s == SCALE,
            0 < start <= end,
            0 < s,
    ;
    fixed_point::lemma_log_in_range(by);
    let l = fixed_point::log_value(by);
    lemma_half(l);
    let x = l / 2;
    fixed_point::exp_is_monotone(2 * x, l);
    fixed_point::exp_doubles_its_excess(x);
    let f = fixed_point::exp_value(x);
    fixed_point::exp_is_above_its_tangent(x);
    assert(2 * f <= by + s);
    let v = math::quot(value * f, s);
    let both = start + end;
    assert(2 * v <= both * BPS_UNIT) by (nonlinear_arith)
        requires
            v == (value * f) / s,
            value == start * BPS_UNIT,
            2 * f <= by + s,
            by * start <= end * s,
            both == start + end,
            0 < start,
            0 < s,
            BPS_UNIT > 0,
    ;
    assert(value * f >= 0) by (nonlinear_arith)
        requires
            value >= 0,
            f >= 0,
    ;
    math::lemma_quot_shrinks(value * f, s);
    let rate = math::quot(v * BPS_SCALE, s);
    assert(2 * rate <= both) by (nonlinear_arith)
        requires
            rate == (v * BPS_SCALE) / s,
            2 * v <= both * BPS_UNIT,
            BPS_SCALE * BPS_UNIT == s,
            BPS_SCALE > 0,
            s > 0,
    ;
}

/// Halfway through a lock, an exponential penalty is at most the linear one
/// with the same start and end. It is below it where the penalty falls from a
/// proper share to another.
pub proof fn exponential_is_below_linear_halfway(
    exponential: EmergencyUnstakeConfig,
    linear: EmergencyUnstakeConfig,
    elapsed: int,
)
    requires
        exponential.decay_function == PenaltyDecayFunction::Exponential,
        linear.decay_function == PenaltyDecayFunction::Linear,
        exponential.penalty_start_bps == linear.penalty_start_bps,
        exponential.penalty_end_bps == linear.penalty_end_bps,
        0 < elapsed,
        penalty_rate(exponential, elapsed, 2 * elapsed) is Ok,
        penalty_rate(linear, elapsed, 2 * elapsed) is Ok,
    ensures
        penalty_rate(exponential, elapsed, 2 * elapsed)->Ok_0 <= penalty_rate(
            linear,
            elapsed,
            2 * elapsed,
        )->Ok_0,
        0 < linear.penalty_end_bps < linear.penalty_start_bps <= MAX_BPS ==> penalty_rate(
            exponential,
            elapsed,
            2 * elapsed,
        )->Ok_0 < penalty_rate(linear, elapsed, 2 * elapsed)->Ok_0,
{
    let start = linear.penalty_start_bps as int;
    let end = linear.penalty_end_bps as int;
    lemma_linear_halfway(start, end, elapsed);
    if start > 0 && end > 0 {
        if start <= end {
            lemma_rising_halfway(start, end, elapsed);
        } else if start <= 2 * MAX_BPS {
            lemma_falling_halfway(start, end, elapsed);
        }
    }
}

// ---------------------------------------------------------------------------
// Withdrawing
// ---------------------------------------------------------------------------

/// Seconds from `from` to `to`, 0 where `to` comes first.
pub open spec fn seconds_between(from: u64, to: u64) -> int {
    if to >= from {
        to - from
    } else {
        0
    }
}

impl EmergencyLedger {
    /// Until when a staker has to wait; 0 where there is nothing to wait for.
    pub open spec fn cooldown_end(self, staker: Address) -> u64 {
        table::value_or(self.cooldowns, staker, 0)
    }

    /// The penalty rate at `now` for a lock.
    pub open spec fn rate(self, lock_start_ts: u64, unlock_ts: u64, now: u64) -> Result<
        i128,
        MathError,
    > {
        penalty_rate(
            self.config->0,
            seconds_between(lock_start_ts, now),
            seconds_between(lock_start_ts, unlock_ts),
        )
    }

    /// Why an early withdrawal is refused.
    pub open spec fn refusal(
        self,
        staker: Address,
        amount: i128,
        current_balance: i128,
        lock_start_ts: u64,
        unlock_ts: u64,
        now: u64,
    ) -> Option<Error> {
        if self.config is None {
            Some(Error::EmergencyConfigNotInitialized)
        } else if !self.config->0.enabled {
            Some(Error::EmergencyUnstakeDisabled)
        } else if amount <= 0 {
            Some(Error::InvalidEmergencyUnstakeAmount)
        } else if amount > current_balance {
            Some(Error::InsufficientBalance)
        } else if now < self.cooldown_end(staker) {
            Some(Error::CooldownActive)
        } else if self.rate(lock_start_ts, unlock_ts, now) is Err {
            Some(Error::InvalidEmergencyUnstakeAmount)
        } else {
            None
        }
    }

    /// Whether an early withdrawal, if it is not refused, stays in range.
    pub open spec fn can_withdraw(
        self,
        staker: Address,
        amount: i128,
        current_balance: i128,
        lock_start_ts: u64,
        unlock_ts: u64,
        now: u64,
    ) -> bool {
        self.refusal(staker, amount, current_balance, lock_start_ts, unlock_ts, now) is None ==> {
            &&& penalty_split(
                amount as int,
                self.rate(lock_start_ts, unlock_ts, now)->Ok_0 as int,
            ) is Ok
            &&& now + self.config->0.cooldown_seconds <= u64::MAX
        }
    }

    /// The record of an early withdrawal that is not refused.
    pub open spec fn withdrawal(
        self,
        staker: Address,
        amount: i128,
        current_balance: i128,
        lock_start_ts: u64,
        unlock_ts: u64,
        now: u64,
    ) -> EmergencyUnstakeRecord {
        let rate = self.rate(lock_start_ts, unlock_ts, now)->Ok_0;
        let (penalty, net) = penalty_split(amount as int, rate as int)->Ok_0;
        EmergencyUnstakeRecord {
            staker,
            timestamp: now,
            amount_requested: amount,
            penalty_amount: penalty,
            amount_returned: net,
            penalty_bps_applied: rate,
            original_unlock_ts: unlock_ts,
            lock_start_ts,
            is_partial: amount < current_balance,
        }
    }

    /// What is published about a withdrawal.
    pub open spec fn notices(self, record: EmergencyUnstakeRecord) -> Seq<EmergencyNotice> {
        let unstaked = EmergencyNotice::Unstaked(record);
        if record.penalty_amount > 0 {
            seq![
                EmergencyNotice::Penalty(
                    PenaltyDistributionEvent {
                        staker: record.staker,
                        treasury: self.config->0.treasury,
                        penalty_amount: record.penalty_amount,
                        timestamp: record.timestamp,
                    },
                ),
                unstaked,
            ]
        } else {
            seq![unstaked]
        }
    }

    /// The state after a withdrawal.
    pub open spec fn after(self, record: EmergencyUnstakeRecord) -> EmergencyLedger {
        let cooldown = self.config->0.cooldown_seconds;
        EmergencyLedger {
            config: self.config,
            cooldowns: if cooldown > 0 {
                self.cooldowns.insert(record.staker, (record.timestamp + cooldown) as u64)
            } else {
                self.cooldowns
            },
            histories: self.histories.insert(
                record.staker,
                table::list_at(self.histories, record.staker).push(record),
            ),
            outbox: self.outbox + self.notices(record),
        }
    }
}

/// A staker who withdrew early is refused until the cooldown has passed.
pub proof fn cooldown_blocks_the_next_withdrawal(
    ledger: EmergencyLedger,
    record: EmergencyUnstakeRecord,
    amount: i128,
    current_balance: i128,
    lock_start_ts: u64,
    unlock_ts: u64,
    now: u64,
)
    requires
        ledger.config is Some,
        ledger.config->0.enabled,
        record.timestamp + ledger.config->0.cooldown_seconds <= u64::MAX,
        ledger.config->0.cooldown_seconds > 0,
        0 < amount <= current_balance,
        now < record.timestamp + ledger.config->0.cooldown_seconds,
    ensures
        ledger.after(record).refusal(
            record.staker,
            amount,
            current_balance,
            lock_start_ts,
            unlock_ts,
            now,
        ) == Some(Error::CooldownActive),
{
}

/// Executes early withdrawals.
pub struct EmergencyUnstakeExecutor;

impl EmergencyUnstakeExecutor {
    /// Whether an early withdrawal, if it is not refused, stays in range.
    pub fn can_execute(
        store: &EmergencyStore,
        staker: &Address,
        amount: i128,
        current_balance: i128,
        lock_start_ts: u64,
        unlock_ts: u64,
        now: u64,
    ) -> (b: bool)
        ensures
            b == store@.can_withdraw(
                *staker,
                amount,
                current_balance,
                lock_start_ts,
                unlock_ts,
                now,
            ),
    {
        let config = match store.config {
            Some(c) => c,
            None => {
                return true;
            },
        };
        if !config.enabled || amount <= 0 || amount > current_balance
            || EmergencyUnstakeQuery::in_cooldown(store, staker, now) {
            return true;
        }
        match PenaltyCalculator::compute_penalty_bps(
            &config,
            now.saturating_sub(lock_start_ts),
            unlock_ts.saturating_sub(lock_start_ts),
        ) {
            Ok(bps) => PenaltyCalculator::apply_penalty(amount, bps).is_ok() && now.checked_add(
                config.cooldown_seconds,
            ).is_some(),
            Err(_) => true,
        }
    }

    /// Withdraw `amount` of a locked stake early: check the request, compute
    /// the penalty, keep a record and start the cooldown. The balance itself
    /// is the caller's to change. A refused request changes nothing.
    pub fn execute(
        store: &mut EmergencyStore,
        staker: &Address,
        amount: i128,
        current_balance: i128,
        lock_start_ts: u64,
        unlock_ts: u64,
        now: u64,
    ) -> (r: Result<EmergencyUnstakeRecord, Error>)
        requires
            old(store)@.can_withdraw(
                *staker,
                amount,
                current_balance,
                lock_start_ts,
                unlock_ts,
                now,
            ),
        ensures
            match old(store)@.refusal(
                *staker,
                amount,
                current_balance,
                lock_start_ts,
                unlock_ts,
                now,
            ) {
                Some(e) => r == Err::<EmergencyUnstakeRecord, Error>(e) && final(store)@ == old(
                    store,
                )@,
                None => {
                    let record = old(store)@.withdrawal(
                        *staker,
                        amount,
                        current_balance,
                        lock_start_ts,
                        unlock_ts,
                        now,
                    );
                    r == Ok::<EmergencyUnstakeRecord, Error>(record) && final(store)@ == old(
                        store,
                    )@.after(record)
                },
            },
    {
        let ghost ledger = store@;
        let config = match store.config {
            Some(c) => c,
            None => {
                return Err(Error::EmergencyConfigNotInitialized);
            },
        };
        if !config.enabled {
            return Err(Error::EmergencyUnstakeDisabled);
        }
        if amount <= 0 {
            return Err(Error::InvalidEmergencyUnstakeAmount);
        }
        if amount > current_balance {
            return Err(Error::InsufficientBalance);
        }
        let cooldown_end = EmergencyUnstakeQuery::cooldown_end(store, staker);
        if now < cooldown_end {
            return Err(Error::CooldownActive);
        }
        let total_lock_seconds = unlock_ts.saturating_sub(lock_start_ts);
        let elapsed = now.saturating_sub(lock_start_ts);
        let penalty_bps = match PenaltyCalculator::compute_penalty_bps(
            &config,
            elapsed,
            total_lock_seconds,
        ) {
            Ok(bps) => bps,
            Err(_) => {
                return Err(Error::InvalidEmergencyUnstakeAmount);
            },
        };
        let split = PenaltyCalculator::apply_penalty(amount, penalty_bps);
        assert(split is Ok);
        let (penalty_amount, amount_returned) = match split {
            Ok(parts) => parts,
            Err(_) => (0, amount),
        };
        if penalty_amount > 0 {
            store.outbox.push(
                EmergencyNotice::Penalty(
                    PenaltyDistributionEvent {
                        staker: *staker,
                        treasury: config.treasury,
                        penalty_amount,
                        timestamp: now,
                    },
                ),
            );
        }
        let record = EmergencyUnstakeRecord {
            staker: *staker,
            timestamp: now,
            amount_requested: amount,
            penalty_amount,
            amount_returned,
            penalty_bps_applied: penalty_bps,
            original_unlock_ts: unlock_ts,
            lock_start_ts,
            is_partial: amount < current_balance,
        };
        table::append(&mut store.histories, *staker, record);
        if config.cooldown_seconds > 0 {
            store.cooldowns.set(*staker, now + config.cooldown_seconds);
        }
        store.outbox.push(EmergencyNotice::Unstaked(record));
        assert(store@.outbox =~= ledger.outbox + ledger.notices(record));
        Ok(record)
    }
}

/// Reads what is kept about early withdrawals.
pub struct EmergencyUnstakeQuery;

impl EmergencyUnstakeQuery {
    /// The rules in force.
    pub fn config(store: &EmergencyStore) -> (config: Option<EmergencyUnstakeConfig>)
        ensures
            config == store@.config,
    {
        store.config
    }

    /// Until when a staker has to wait; 0 where there is nothing to wait for.
    pub fn cooldown_end(store: &EmergencyStore, staker: &Address) -> (end: u64)
        ensures
            end == store@.cooldown_end(*staker),
    {
        match store.cooldowns.get(staker) {
            Some(end) => *end,
            None => 0,
        }
    }

    /// Whether a staker has to wait at `now`.
    pub fn in_cooldown(store: &EmergencyStore, staker: &Address, now: u64) -> (b: bool)
        ensures
            b == (store@.cooldown_end(*staker) > now),
    {
        Self::cooldown_end(store, staker) > now
    }

    /// The early withdrawals of a staker, oldest first.
    pub fn history(store: &EmergencyStore, staker: &Address) -> (list: Vec<EmergencyUnstakeRecord>)
        ensures
            list@ == table::list_at(store@.histories, *staker),
    {
        table::list_of(&store.histories, staker)
    }

    /// The penalty rate that an early withdrawal would have at `now`.
    pub fn preview_penalty_bps(
        store: &EmergencyStore,
        lock_start_ts: u64,
        unlock_ts: u64,
        now: u64,
    ) -> (bps: Option<i128>)
        ensures
            bps == (if store@.config is Some {
                match store@.rate(lock_start_ts, unlock_ts, now) {
                    Ok(bps) => Some(bps),
                    Err(_) => None,
                }
            } else {
                None
            }),
    {
        let config = match store.config {
            Some(c) => c,
            None => {
                return None;
            },
        };
        let total_lock_seconds = unlock_ts.saturating_sub(lock_start_ts);
        let elapsed = now.saturating_sub(lock_start_ts);
        match PenaltyCalculator::compute_penalty_bps(&config, elapsed, total_lock_seconds) {
            Ok(bps) => Some(bps),
            Err(_) => None,
        }
    }
}

/// The preview names the rate that a withdrawal at the same moment applies.
pub proof fn the_preview_is_applied(
    ledger: EmergencyLedger,
    staker: Address,
    amount: i128,
    current_balance: i128,
    lock_start_ts: u64,
    unlock_ts: u64,
    now: u64,
)
    requires
        ledger.refusal(staker, amount, current_balance, lock_start_ts, unlock_ts, now) is None,
    ensures
        ledger.rate(lock_start_ts, unlock_ts, now) == Ok::<i128, MathError>(
            ledger.withdrawal(
                staker,
                amount,
                current_balance,
                lock_start_ts,
                unlock_ts,
                now,
            ).penalty_bps_applied,
        ),
{
}

/// The penalty is that of the start when the lock has just begun, and that of
/// the end from the unlock date on, each moved between nothing and the whole.
/// A custom penalty stays that of the start up to the unlock date.
pub proof fn penalties_start_and_end_as_set(
    config: EmergencyUnstakeConfig,
    elapsed: int,
    total: int,
)
    requires
        0 <= elapsed,
        0 <= total,
    ensures
        ({
            let start = config.penalty_start_bps;
            let end = config.penalty_end_bps;
            let r = penalty_rate(config, elapsed, total);
            let at_start = elapsed == 0 || total == 0 || (elapsed < total && config.decay_function
                == PenaltyDecayFunction::Custom);
            &&& at_start ==> r is Ok
            &&& at_start && 0 <= start <= 10_000 ==> r->Ok_0 == start
            &&& at_start && start > 10_000 ==> r->Ok_0 == 10_000
            &&& at_start && start < 0 ==> r->Ok_0 == 0
            &&& 0 < total <= elapsed ==> r is Ok
            &&& 0 < total <= elapsed && 0 <= end <= 10_000 ==> r->Ok_0 == end
            &&& 0 < total <= elapsed && end > 10_000 ==> r->Ok_0 == 10_000
            &&& 0 < total <= elapsed && end < 0 ==> r->Ok_0 == 0
        }),
{
}

/// While the lock runs, a linear penalty has moved from its start toward its
/// end by the share of the lock that has passed: the move is rounded down, and
/// the share is cut after its twelfth decimal.
pub proof fn linear_penalties_move_with_the_time(
    config: EmergencyUnstakeConfig,
    elapsed: int,
    total: int,
)
    requires
        config.decay_function == PenaltyDecayFunction::Linear,
        0 <= config.penalty_end_bps <= config.penalty_start_bps <= 10_000,
        0 < elapsed < total <= u64::MAX,
    ensures
        penalty_rate(config, elapsed, total) is Ok,
        ({
            let moved = config.penalty_start_bps - penalty_rate(config, elapsed, total)->Ok_0;
            let whole = config.penalty_start_bps - config.penalty_end_bps;
            let s: int = 1_000_000_000_000;
            &&& 0 <= moved
            &&& moved * total <= whole * elapsed
            &&& whole * elapsed * s < ((moved + 1) * s + whole) * total
        }),
{
    let start = config.penalty_start_bps as int;
    let end = config.penalty_end_bps as int;
    let d = start - end;
    let s: int = 1_000_000_000_000;
    fixed_point::ratios_are_rounded(elapsed, total);
    let p = fixed_point::ratio(elapsed, total)->Ok_0 as int;
    assert(p <= s) by (nonlinear_arith)
        requires
            p * total <= elapsed * s,
            elapsed < total,
            0 < total,
            s > 0,
    {
        assert(elapsed * s <= total * s);
        assert(p * total <= s * total);
    }
    assert(-(d * p) == (-d) * p) by (nonlinear_arith);
    assert(0 <= d * p <= 10_000 * s) by (nonlinear_arith)
        requires
            0 <= d <= 10_000,
            0 <= p <= s,
    ;
    fixed_point::products_are_rounded(end - start, p);
    let change = fixed_point::product(end - start, p)->Ok_0 as int;
    let k = -change;
    math::quotients_round_toward_zero((end - start) * p, s);
    assert(k * s <= d * p < (k + 1) * s) by {
        assert((change - 1) * s == -((k + 1) * s)) by (nonlinear_arith)
            requires
                k == -change,
        ;
        assert(change * s == -(k * s)) by (nonlinear_arith)
            requires
                k == -change,
        ;
    }
    assert(k <= d) by (nonlinear_arith)
        requires
            k * s <= d * p,
            p <= s,
            0 <= d,
            s > 0,
    ;
    assert(k * total <= d * elapsed) by (nonlinear_arith)
        requires
            k * s <= d * p,
            p * total <= elapsed * s,
            0 <= d,
            total > 0,
            s > 0,
    {
        assert(k * s * total <= d * p * total);
        assert(d * (p * total) <= d * (elapsed * s));
        assert((k * total) * s <= (d * elapsed) * s);
    }
    assert(d * elapsed * s < ((k + 1) * s + d) * total) by (nonlinear_arith)
        requires
            d * p < (k + 1) * s,
            elapsed * s < (p + 1) * total,
            0 <= d,
            total > 0,
    {
        assert(d * (elapsed * s) <= d * ((p + 1) * total));
        assert(d * ((p + 1) * total) == (d * p + d) * total);
        assert((d * p + d) * total < ((k + 1) * s + d) * total);
    }
}

/// Through the first half of a lock, an exponential penalty has not fallen
/// below the harmonic mean of its start and its end, but for rounding.
pub proof fn exponential_penalties_fall_gently(
    config: EmergencyUnstakeConfig,
    elapsed: int,
    total: int,
)
    requires
        config.decay_function == PenaltyDecayFunction::Exponential,
        0 < config.penalty_end_bps <= config.penalty_start_bps <= 10_000,
        0 < 2 * elapsed <= total,
        penalty_rate(config, elapsed, total) is Ok,
    ensures
        (penalty_rate(config, elapsed, total)->Ok_0 + 3) * (config.penalty_start_bps
            + config.penalty_end_bps) > 2 * config.penalty_start_bps * config.penalty_end_bps,
{
    let start = config.penalty_start_bps as int;
    let end = config.penalty_end_bps as int;
    let s = SCALE as int;
    let value = start * BPS_UNIT;
    fixed_point::ratios_are_rounded(elapsed, total);
    let t = fixed_point::ratio(elapsed, total)->Ok_0 as int;
    assert(2 * t <= s) by (nonlinear_arith)
        requires
            t * total <= elapsed * s,
            2 * elapsed <= total,
            0 < elapsed,
            s > 0,
    ;
    let by = math::quot(end * BPS_UNIT * SCALE, value);
    assert(by <= s && by * start <= end * s && end * s < (by + 1) * start) by (nonlinear_arith)
        requires
            by == (end * BPS_UNIT * SCALE) / value,
            value == start * BPS_UNIT,
            BPS_UNIT == 100_000_000,
            s == SCALE,
            0 < end <= start,
            0 < s,
    ;
    math::lemma_quot_shrinks(end * BPS_UNIT * SCALE, value);
    assert(by >= 99_999_999) by (nonlinear_arith)
        requires
            end * s < (by + 1) * start,
            1 <= end,
            0 < start <= 10_000,
            s == 1_000_000_000_000,
    ;
    let rate = exponential_rate(start, end, elapsed, total)->Ok_0 as int;
    if by >= ONE {
        assert(end == start) by (nonlinear_arith)
            requires
                by == s,
                by * start <= end * s,
                end <= start,
                s > 0,
        ;
        assert(rate == start);
        assert((start + 3) * (start + end) > 2 * start * end) by (nonlinear_arith)
            requires
                start == end,
                0 < start,
        ;
    } else {
        let base = math::quot(ONE * SCALE, by);
        assert(base >= s && base * by <= s * s) by (nonlinear_arith)
            requires
                base == (ONE * SCALE) / by,
                ONE == s,
                SCALE == s,
                0 < by < s,
        ;
        fixed_point::lemma_log_in_range(base);
        let l = fixed_point::log_value(base);
        let x = math::quot(l * t, s);
        assert(0 <= l * t && 2 * (l * t) <= l * s) by (nonlinear_arith)
            requires
                0 <= l,
                0 <= t,
                2 * t <= s,
        ;
        math::quotients_round_toward_zero(l * t, s);
        assert(2 * x <= l) by (nonlinear_arith)
            requires
                x * s <= l * t,
                2 * (l * t) <= l * s,
                s > 0,
        ;
        fixed_point::exp_is_monotone(2 * x, l);
        fixed_point::exp_doubles_its_excess(x);
        let f = fixed_point::exp_value(x);
        fixed_point::exp_is_above_its_tangent(x);
        assert(2 * f <= base + s);
        let v = math::quot(value * SCALE, f);
        assert((v + 1) * f > value * s) by (nonlinear_arith)
            requires
                v == (value * SCALE) / f,
                f > 0,
                value >= 0,
                SCALE == s,
        ;
        math::lemma_quot_shrinks(value * SCALE, f);
        let raw = math::quot(v * BPS_SCALE, s);
        assert((raw + 1) * 100_000_000 > v) by (nonlinear_arith)
            requires
                raw == (v * BPS_SCALE) / s,
                BPS_SCALE == 10_000,
                s == 1_000_000_000_000,
                v >= 0,
        ;
        assert(rate >= raw || rate == start);
        lemma_gentle(start, end, by, base, f, v, raw);
        let both = start + end;
        if rate == start {
            assert((rate + 3) * both > 2 * start * end) by (nonlinear_arith)
                requires
                    rate == start,
                    both == start + end,
                    0 < end <= start,
            ;
        } else {
            assert((rate + 3) * both >= (raw + 3) * both) by (nonlinear_arith)
                requires
                    rate >= raw,
                    both > 0,
            ;
        }
    }
}

proof fn lemma_gentle(start: int, end: int, by: int, base: int, f: int, v: int, raw: int)
    requires
        0 < end <= start <= 10_000,
        end * SCALE < (by + 1) * start,
        by >= 99_999_999,
        base * by <= SCALE * SCALE,
        base >= SCALE,
        0 < f,
        2 * f <= base + SCALE,
        (v + 1) * f > start * BPS_UNIT * SCALE,
        (raw + 1) * 100_000_000 > v,
        v >= 0,
    ensures
        (raw + 3) * (start + end) > 2 * start * end,
{
    let s: int = 1_000_000_000_000;
    let u: int = 100_000_000;
    assert(start * BPS_UNIT * SCALE == start * u * s);
    // (raw + 2) * f > start * s
    assert((raw + 2) * u > v + 1);
    assert((raw + 2) * f > start * s) by (nonlinear_arith)
        requires
            (raw + 2) * u > v + 1,
            (v + 1) * f > start * u * s,
            f > 0,
            u > 0,
    {
        assert((raw + 2) * u * f > (v + 1) * f);
        assert(((raw + 2) * f) * u > (start * s) * u);
    }
    assert(raw >= -1);
    let r = raw + 2;
    assert(r * (base + s) > 2 * start * s) by (nonlinear_arith)
        requires
            r * f > start * s,
            2 * f <= base + s,
            r >= 1,
    ;
    assert(base * end * s <= (s * s + base) * start) by (nonlinear_arith)
        requires
            base * by <= s * s,
            end * s < (by + 1) * start,
            base >= 0,
            0 < start,
    {
        assert(base * (end * s) <= base * ((by + 1) * start));
        assert(base * ((by + 1) * start) == (base * by + base) * start);
        assert((base * by + base) * start <= (s * s + base) * start);
    }
    assert(base <= 10_001 * s) by (nonlinear_arith)
        requires
            base * by <= s * s,
            by >= 99_999_999,
            s == 1_000_000_000_000,
    ;
    if (r + 1) * (start + end) <= 2 * start * end {
        assert(r <= 10_000) by (nonlinear_arith)
            requires
                (r + 1) * (start + end) <= 2 * start * end,
                0 < end <= start <= 10_000,
        ;
        assert(r * (base * end * s + s * s * end) > 2 * start * end * s * s) by (nonlinear_arith)
            requires
                r * (base + s) > 2 * start * s,
                end > 0,
                s > 0,
        {
            assert(r * (base + s) * end > 2 * start * s * end);
            assert(r * (base + s) * end * s > 2 * start * s * end * s);
        }
        assert(r * ((s * s + base) * start + s * s * end) >= r * (base * end * s + s * s * end))
            by (nonlinear_arith)
            requires
                base * end * s <= (s * s + base) * start,
                r >= 1,
        ;
        assert(r * base <= 10_000 * (10_001 * s)) by (nonlinear_arith)
            requires
                1 <= r <= 10_000,
                0 <= base <= 10_001 * s,
        ;
        assert(r * base * start <= 10_000 * (10_001 * s) * 10_000) by (nonlinear_arith)
            requires
                0 <= r * base <= 10_000 * (10_001 * s),
                0 < start <= 10_000,
        ;
        assert(r * ((s * s + base) * start + s * s * end) == r * (start + end) * (s * s) + r * base
            * start) by (nonlinear_arith);
        assert(2 * start * end * s * s == 2 * start * end * (s * s)) by (nonlinear_arith);
        let need = 2 * start * end;
        let have = r * (start + end);
        assert(have + (start + end) <= need) by (nonlinear_arith)
            requires
                (r + 1) * (start + end) <= need,
                have == r * (start + end),
        ;
        assert(have * (s * s) <= (need - 2) * (s * s)) by (nonlinear_arith)
            requires
                have + 2 <= need,
                s > 0,
        ;
        assert(false);
    }
}

/// The penalty on an amount is the rate's share of it in ten-thousandths,
/// rounded down, and the rest is returned.
pub proof fn penalties_are_shares_of_the_amount(amount: i128, penalty_bps: i128)
    requires
        amount >= 0,
        0 <= penalty_bps <= 10_000,
        amount * 10_000 <= i128::MAX,
    ensures
        penalty_split(amount as int, penalty_bps as int) is Ok,
        ({
            let (penalty, net) = penalty_split(amount as int, penalty_bps as int)->Ok_0;
            &&& penalty * 10_000 <= amount * penalty_bps < (penalty + 1) * 10_000
            &&& penalty + net == amount
        }),
{
    assert(0 <= amount * penalty_bps <= amount * 10_000) by (nonlinear_arith)
        requires
            amount >= 0,
            0 <= penalty_bps <= 10_000,
    ;
    fixed_point::quotients_are_rounded(amount as int, penalty_bps as int, 10_000);
    lemma_split_exists(amount, penalty_bps);
}

proof fn lemma_split_exists(amount: i128, penalty_bps: i128)
    requires
        amount >= 0,
        0 <= penalty_bps <= 10_000,
        0 <= amount * penalty_bps <= i128::MAX,
    ensures
        penalty_split(amount as int, penalty_bps as int) is Ok,
{
    math::lemma_quot_shrinks(amount * penalty_bps, BPS_SCALE as int);
    if 0 < penalty_bps < 10_000 {
        assert(math::quot(amount * penalty_bps, 10_000) <= amount) by {
            math::quotients_round_toward_zero(amount * penalty_bps, 10_000);
            assert(amount * penalty_bps <= amount * 10_000) by (nonlinear_arith)
                requires
                    amount >= 0,
                    penalty_bps <= 10_000,
            ;
        }
    }
}

/// An early withdrawal is refused for the first of these that holds: there are
/// no rules, the rules do not allow it, nothing is asked for, more is asked
/// for than is staked, or the cooldown has not passed.
pub proof fn withdrawals_are_refused_for_a_reason(
    ledger: EmergencyLedger,
    staker: Address,
    amount: i128,
    current_balance: i128,
    lock_start_ts: u64,
    unlock_ts: u64,
    now: u64,
)
    ensures
        ({
            let r = ledger.refusal(staker, amount, current_balance, lock_start_ts, unlock_ts, now);
            let waits = ledger.cooldowns.contains_key(staker) && now < ledger.cooldowns[staker];
            &&& r == Some(Error::EmergencyConfigNotInitialized) <==> ledger.config is None
            &&& r == Some(Error::EmergencyUnstakeDisabled) <==> ledger.config is Some
                && !ledger.config->0.enabled
            &&& ledger.config is Some && ledger.config->0.enabled && amount <= 0 ==> r == Some(
                Error::InvalidEmergencyUnstakeAmount,
            )
            &&& r == Some(Error::InsufficientBalance) <==> ledger.config is Some
                && ledger.config->0.enabled && 0 < amount && current_balance < amount
            &&& r == Some(Error::CooldownActive) <==> ledger.config is Some
                && ledger.config->0.enabled && 0 < amount <= current_balance && waits
            &&& r is None <==> ledger.config is Some && ledger.config->0.enabled && 0 < amount
                <= current_balance && !waits && ledger.rate(lock_start_ts, unlock_ts, now) is Ok
        }),
{
}

/// The rate of a withdrawal is that of the rules for the seconds since the
/// lock began, out of those from its beginning to the unlock date.
pub proof fn rates_follow_the_lock(
    ledger: EmergencyLedger,
    lock_start_ts: u64,
    unlock_ts: u64,
    now: u64,
)
    requires
        ledger.config is Some,
        lock_start_ts <= unlock_ts,
    ensures
        lock_start_ts <= now ==> ledger.rate(lock_start_ts, unlock_ts, now) == penalty_rate(
            ledger.config->0,
            now - lock_start_ts,
            unlock_ts - lock_start_ts,
        ),
        now < lock_start_ts ==> ledger.rate(lock_start_ts, unlock_ts, now) == penalty_rate(
            ledger.config->0,
            0,
            unlock_ts - lock_start_ts,
        ),
{
}

/// A withdrawal records what was asked for, what was kept back and what was
/// returned, which add up; it says whether some of the balance stays. The
/// record joins the staker's history, the treasury is told of a penalty that
/// is due, and the cooldown starts.
pub proof fn withdrawals_are_accounted_for(
    ledger: EmergencyLedger,
    staker: Address,
    amount: i128,
    current_balance: i128,
    lock_start_ts: u64,
    unlock_ts: u64,
    now: u64,
    other: Address,
)
    requires
        ledger.refusal(staker, amount, current_balance, lock_start_ts, unlock_ts, now) is None,
        ledger.can_withdraw(staker, amount, current_balance, lock_start_ts, unlock_ts, now),
    ensures
        ({
            let record = ledger.withdrawal(
                staker,
                amount,
                current_balance,
                lock_start_ts,
                unlock_ts,
                now,
            );
            let after = ledger.after(record);
            let cooldown = ledger.config->0.cooldown_seconds;
            let n = ledger.outbox.len() as int;
            &&& record.staker == staker && record.timestamp == now && record.amount_requested
                == amount && record.original_unlock_ts == unlock_ts && record.lock_start_ts
                == lock_start_ts
            &&& 0 <= record.penalty_amount <= amount
            &&& record.penalty_amount + record.amount_returned == amount
            &&& amount * 10_000 <= i128::MAX ==> record.penalty_amount * 10_000 <= amount
                * record.penalty_bps_applied < (record.penalty_amount + 1) * 10_000
            &&& record.is_partial <==> amount < current_balance
            &&& table::list_at(after.histories, staker) == table::list_at(
                ledger.histories,
                staker,
            ).push(record)
            &&& other != staker ==> table::list_at(after.histories, other) == table::list_at(
                ledger.histories,
                other,
            ) && after.cooldown_end(other) == ledger.cooldown_end(other)
            &&& cooldown > 0 ==> after.cooldown_end(staker) == now + cooldown
            &&& cooldown == 0 ==> after.cooldowns == ledger.cooldowns
            &&& after.outbox.last() == EmergencyNotice::Unstaked(record)
            &&& record.penalty_amount > 0 ==> after.outbox.len() == n + 2 && after.outbox[n]
                == EmergencyNotice::Penalty(
                PenaltyDistributionEvent {
                    staker,
                    treasury: ledger.config->0.treasury,
                    penalty_amount: record.penalty_amount,
                    timestamp: now,
                },
            )
            &&& record.penalty_amount == 0 ==> after.outbox.len() == n + 1
            &&& after.config == ledger.config
        }),
{
    let rate = ledger.rate(lock_start_ts, unlock_ts, now)->Ok_0;
    nothing_is_lost_in_a_penalty(amount, rate);
    if amount * 10_000 <= i128::MAX {
        penalties_are_shares_of_the_amount(amount, rate);
    }
}

} // verus!
