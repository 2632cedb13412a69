use astraport::fixed_point::{MathError, ONE, SCALE};
use astraport::staking::alerts::{
    AlertConfig, AlertKind, AlertMonitor, AlertSeverity, AlertThreshold,
};
use astraport::staking::compounding::{YieldCalculator, SECONDS_PER_YEAR};
use astraport::staking::emergency::{
    EmergencyNotice, EmergencyStore, EmergencyUnstakeConfig, EmergencyUnstakeExecutor,
    EmergencyUnstakeQuery, PenaltyCalculator, PenaltyDecayFunction, MAX_BPS,
};
use astraport::staking::engine::YieldEngine;
use astraport::staking::records::{CompoundingMode, DistributionType};
use astraport::staking::Error;
use astraport::values::{Address, Symbol};

fn address(n: u128) -> Address {
    Address { is_contract: false, hi: 3, lo: n }
}

fn symbol(text: &str) -> Symbol {
    Symbol::from_text(text)
}

fn test_config(
    start_bps: i128,
    end_bps: i128,
    decay: PenaltyDecayFunction,
) -> EmergencyUnstakeConfig {
    EmergencyUnstakeConfig {
        penalty_start_bps: start_bps,
        penalty_end_bps: end_bps,
        decay_function: decay,
        cooldown_seconds: 86_400,
        treasury: address(99),
        enabled: true,
    }
}

#[test]
fn linear_start_penalty_at_elapsed_zero() {
    let cfg = test_config(3000, 500, PenaltyDecayFunction::Linear);
    let bps = PenaltyCalculator::compute_penalty_bps(&cfg, 0, 30 * 24 * 3600).unwrap();
    assert_eq!(bps, 3000, "at t=0, penalty must equal start");
}

#[test]
fn linear_end_penalty_at_full_elapsed() {
    let cfg = test_config(3000, 500, PenaltyDecayFunction::Linear);
    let total = 30u64 * 24 * 3600;
    let bps = PenaltyCalculator::compute_penalty_bps(&cfg, total, total).unwrap();
    assert_eq!(bps, 500, "at t=total, penalty must equal end");
}

#[test]
fn linear_midpoint_penalty() {
    let cfg = test_config(3000, 500, PenaltyDecayFunction::Linear);
    let total = 30u64 * 24 * 3600;
    let bps = PenaltyCalculator::compute_penalty_bps(&cfg, total / 2, total).unwrap();
    let expected = 1750i128;
    let diff = (bps - expected).abs();
    assert!(diff <= 5, "mid-point linear penalty {} != {}", bps, expected);
}

#[test]
fn linear_penalty_is_monotone_decreasing() {
    let cfg = test_config(5000, 0, PenaltyDecayFunction::Linear);
    let total = 90u64 * 24 * 3600;
    let mut prev = MAX_BPS;
    for pct in [0u64, 10, 25, 50, 75, 90, 100] {
        let elapsed = total * pct / 100;
        let bps = PenaltyCalculator::compute_penalty_bps(&cfg, elapsed, total).unwrap();
        assert!(
            bps <= prev,
            "penalty not decreasing at {}%: prev={}, now={}",
            pct,
            prev,
            bps
        );
        prev = bps;
    }
}

#[test]
fn exponential_start_penalty_at_elapsed_zero() {
    let cfg = test_config(3000, 500, PenaltyDecayFunction::Exponential);
    let bps = PenaltyCalculator::compute_penalty_bps(&cfg, 0, 30 * 24 * 3600).unwrap();
    assert_eq!(bps, 3000);
}

#[test]
fn exponential_end_penalty_at_full_elapsed() {
    let cfg = test_config(3000, 500, PenaltyDecayFunction::Exponential);
    let total = 30u64 * 24 * 3600;
    let bps = PenaltyCalculator::compute_penalty_bps(&cfg, total, total).unwrap();
    assert_eq!(bps, 500);
}

#[test]
fn exponential_midpoint_less_than_linear_midpoint() {
    let start = 4000i128;
    let end = 400i128;
    let total = 30u64 * 24 * 3600;
    let half = total / 2;

    let linear_mid = PenaltyCalculator::compute_penalty_bps(
        &test_config(start, end, PenaltyDecayFunction::Linear),
        half,
        total,
    )
    .unwrap();
    let exp_mid = PenaltyCalculator::compute_penalty_bps(
        &test_config(start, end, PenaltyDecayFunction::Exponential),
        half,
        total,
    )
    .unwrap();

    assert!(
        exp_mid < linear_mid,
        "exponential mid {} should be < linear mid {}",
        exp_mid,
        linear_mid
    );
}

#[test]
fn halfway_an_exponential_penalty_is_at_most_the_linear_one() {
    for (start, end) in [(2i128, 1i128), (4_000, 400), (10_000, 1), (10_000, 9_999)] {
        let exponential = test_config(start, end, PenaltyDecayFunction::Exponential);
        let linear = test_config(start, end, PenaltyDecayFunction::Linear);
        for half in [1u64, 7, 1_296_000] {
            let low = PenaltyCalculator::compute_penalty_bps(&exponential, half, 2 * half);
            let high = PenaltyCalculator::compute_penalty_bps(&linear, half, 2 * half);
            assert!(low.unwrap() < high.unwrap());
        }
    }
    let growing = test_config(100, 400, PenaltyDecayFunction::Exponential);
    let linear = test_config(100, 400, PenaltyDecayFunction::Linear);
    assert!(PenaltyCalculator::compute_penalty_bps(&growing, 2, 4).unwrap() <= 250);
    assert_eq!(PenaltyCalculator::compute_penalty_bps(&linear, 2, 4), Ok(250));
}

#[test]
fn exponential_penalty_is_monotone_decreasing() {
    let cfg = test_config(5000, 100, PenaltyDecayFunction::Exponential);
    let total = 90u64 * 24 * 3600;
    let mut prev = MAX_BPS;
    for pct in [0u64, 10, 25, 50, 75, 90, 100] {
        let elapsed = total * pct / 100;
        let bps = PenaltyCalculator::compute_penalty_bps(&cfg, elapsed, total).unwrap();
        assert!(
            bps <= prev,
            "exp penalty not decreasing at {}%: prev={}, now={}",
            pct,
            prev,
            bps
        );
        prev = bps;
    }
}

#[test]
fn an_exponential_penalty_stays_above_its_end() {
    let cfg = test_config(5768, 370, PenaltyDecayFunction::Exponential);
    let total = 1_000_000_000_000_000u64;
    assert_eq!(PenaltyCalculator::compute_penalty_bps(&cfg, total - 1, total), Ok(370));
    assert_eq!(PenaltyCalculator::compute_penalty_bps(&cfg, total, total), Ok(370));
    let growing = test_config(100, 400, PenaltyDecayFunction::Exponential);
    assert_eq!(PenaltyCalculator::compute_penalty_bps(&growing, 1, 4), Ok(141));
    assert_eq!(PenaltyCalculator::compute_penalty_bps(&growing, 9, 4), Ok(400));
}

#[test]
fn apply_zero_penalty_returns_full_amount() {
    let (penalty, net) = PenaltyCalculator::apply_penalty(1_000_000, 0).unwrap();
    assert_eq!(penalty, 0);
    assert_eq!(net, 1_000_000);
}

#[test]
fn apply_full_penalty_returns_zero_net() {
    let (penalty, net) = PenaltyCalculator::apply_penalty(1_000_000, MAX_BPS).unwrap();
    assert_eq!(penalty, 1_000_000);
    assert_eq!(net, 0);
}

#[test]
fn apply_ten_percent_penalty() {
    let (penalty, net) = PenaltyCalculator::apply_penalty(1_000_000, 1_000).unwrap();
    assert_eq!(penalty, 100_000);
    assert_eq!(net, 900_000);
}

#[test]
fn apply_penalty_is_exact_on_round_number() {
    let (penalty, net) = PenaltyCalculator::apply_penalty(8_000, 2_500).unwrap();
    assert_eq!(penalty, 2_000);
    assert_eq!(net, 6_000);
}

#[test]
fn custom_decay_always_returns_start() {
    let cfg = test_config(2500, 100, PenaltyDecayFunction::Custom);
    let total = 30u64 * 24 * 3600;
    for elapsed in [0u64, total / 4, total / 2, total * 3 / 4] {
        let bps = PenaltyCalculator::compute_penalty_bps(&cfg, elapsed, total).unwrap();
        assert_eq!(bps, 2500, "custom decay should always return start_bps");
    }
}

#[test]
fn penalty_clamped_to_max_bps() {
    let cfg = test_config(20_000, 0, PenaltyDecayFunction::Linear);
    let bps = PenaltyCalculator::compute_penalty_bps(&cfg, 0, 86_400).unwrap();
    assert_eq!(bps, MAX_BPS, "penalty must be clamped at MAX_BPS");
}

#[test]
fn penalty_clamped_to_zero() {
    let cfg = test_config(1000, -500, PenaltyDecayFunction::Linear);
    let total = 86_400u64;
    let bps = PenaltyCalculator::compute_penalty_bps(&cfg, total, total).unwrap();
    assert_eq!(bps, 0, "penalty must be clamped at 0");
}

#[test]
fn a_penalty_that_leaves_the_range_overflows() {
    assert_eq!(PenaltyCalculator::apply_penalty(i128::MAX, 5_000), Err(MathError::Overflow));
}

fn store(config: EmergencyUnstakeConfig) -> EmergencyStore {
    let mut store = EmergencyStore::new();
    store.config = Some(config);
    store
}

#[test]
fn an_early_withdrawal_pays_its_penalty() {
    let mut store = store(test_config(1_000, 0, PenaltyDecayFunction::Custom));
    assert_eq!(EmergencyUnstakeQuery::preview_penalty_bps(&store, 0, 1_000, 500), Some(1_000));
    let record =
        EmergencyUnstakeExecutor::execute(&mut store, &address(1), 600, 1_000, 0, 1_000, 500)
            .unwrap();
    assert_eq!(record.penalty_amount, 60);
    assert_eq!(record.amount_returned, 540);
    assert_eq!(record.penalty_bps_applied, 1_000);
    assert!(record.is_partial);
    assert_eq!(EmergencyUnstakeQuery::history(&store, &address(1)), vec![record]);
    assert_eq!(store.outbox.len(), 2);
    assert!(matches!(store.outbox[0], EmergencyNotice::Penalty(_)));
    assert_eq!(store.outbox[1], EmergencyNotice::Unstaked(record));
}

#[test]
fn a_second_withdrawal_waits_for_the_cooldown() {
    let mut store = store(test_config(1_000, 0, PenaltyDecayFunction::Linear));
    EmergencyUnstakeExecutor::execute(&mut store, &address(1), 100, 1_000, 0, 1_000, 500).unwrap();
    assert_eq!(EmergencyUnstakeQuery::cooldown_end(&store, &address(1)), 500 + 86_400);
    assert!(EmergencyUnstakeQuery::in_cooldown(&store, &address(1), 86_899));
    let again =
        EmergencyUnstakeExecutor::execute(&mut store, &address(1), 100, 900, 0, 1_000, 86_899);
    assert_eq!(again, Err(Error::CooldownActive));
    assert_eq!(EmergencyUnstakeQuery::history(&store, &address(1)).len(), 1);
    assert!(!EmergencyUnstakeQuery::in_cooldown(&store, &address(1), 86_900));
    let later =
        EmergencyUnstakeExecutor::execute(&mut store, &address(1), 900, 900, 0, 1_000, 86_900);
    assert!(!later.unwrap().is_partial);
}

#[test]
fn a_withdrawal_is_refused_for_a_reason() {
    let mut nothing = EmergencyStore::new();
    assert_eq!(
        EmergencyUnstakeExecutor::execute(&mut nothing, &address(1), 1, 1, 0, 10, 5),
        Err(Error::EmergencyConfigNotInitialized)
    );
    assert_eq!(EmergencyUnstakeQuery::config(&nothing), None);
    let mut off = store(EmergencyUnstakeConfig {
        enabled: false,
        ..test_config(1_000, 0, PenaltyDecayFunction::Linear)
    });
    assert_eq!(
        EmergencyUnstakeExecutor::execute(&mut off, &address(1), 1, 1, 0, 10, 5),
        Err(Error::EmergencyUnstakeDisabled)
    );
    let mut on = store(test_config(1_000, 0, PenaltyDecayFunction::Linear));
    assert_eq!(
        EmergencyUnstakeExecutor::execute(&mut on, &address(1), 0, 1, 0, 10, 5),
        Err(Error::InvalidEmergencyUnstakeAmount)
    );
    assert_eq!(
        EmergencyUnstakeExecutor::execute(&mut on, &address(1), 2, 1, 0, 10, 5),
        Err(Error::InsufficientBalance)
    );
}

#[test]
fn a_year_of_simple_yield_is_the_rate() {
    let simple = YieldCalculator::new(CompoundingMode::Simple);
    assert_eq!(simple.compute_yield(1_000_000, SCALE / 10, SECONDS_PER_YEAR as u64), Ok(100_000));
    let continuous = YieldCalculator::new(CompoundingMode::Continuous);
    let grown = continuous
        .compute_yield(1_000_000, SCALE / 10, SECONDS_PER_YEAR as u64)
        .unwrap();
    assert!(grown > 105_000 && grown < 105_200);
    assert_eq!(simple.compute_yield(1_000_000, SCALE / 10, 0), Ok(0));
}

fn engine() -> YieldEngine {
    let mut engine = YieldEngine::new();
    engine
        .open_position(&address(1), &symbol("XLM"), 1_000_000, ONE, CompoundingMode::Simple, 0)
        .unwrap();
    engine
}

#[test]
fn accruing_twice_at_one_moment_accrues_once() {
    let mut engine = engine();
    let year = SECONDS_PER_YEAR as u64;
    let first = engine.accrue(&address(1), &symbol("XLM"), year / 2).unwrap();
    assert_eq!(first.accrued_yield, 500_000);
    let second = engine.accrue(&address(1), &symbol("XLM"), year / 2).unwrap();
    assert_eq!(second, first);
    assert_eq!(engine.current_yield(&address(1), &symbol("XLM"), year), Ok(1_000_000));
}

#[test]
fn a_claim_is_paid_from_the_reserve() {
    let mut engine = engine();
    let year = SECONDS_PER_YEAR as u64;
    assert_eq!(engine.fund_reserve(&symbol("XLM"), 300_000), 300_000);
    let results = engine.batch_claim(&vec![address(1), address(2)], &symbol("XLM"), year / 4);
    assert_eq!(results.len(), 2);
    assert_eq!(results[0], (address(1), 250_000));
    assert_eq!(results[1], (address(2), 0));
    assert_eq!(engine.reserve_balance(&symbol("XLM")), 50_000);
    assert_eq!(engine.total_yield_claimed(&address(1), &symbol("XLM")), 250_000);
    let history = engine.distribution_history(&address(1), &symbol("XLM"));
    assert_eq!(history.len(), 1);
    assert_eq!(history[0].distribution_type, DistributionType::BatchClaim);
    assert_eq!(history[0].reserve_after, 50_000);
}

#[test]
fn a_claim_pays_all_that_was_accrued() {
    let mut engine = engine();
    let half = SECONDS_PER_YEAR as u64 / 2;
    let xlm = symbol("XLM");
    assert_eq!(engine.claim(&address(1), &xlm, half), Ok(500_000));
    assert_eq!(engine.claim(&address(1), &xlm, half), Ok(0));
    assert_eq!(engine.claim(&address(2), &xlm, half), Err(MathError::NegativeInput));
    let record = engine.load_record(&address(1), &xlm).unwrap();
    assert_eq!((record.accrued_yield, record.last_accrual_ts), (0, half));
    let history = engine.history(&address(1), &xlm);
    let seen: Vec<(i128, i128, bool)> =
        history.iter().map(|e| (e.yield_earned, e.cumulative_yield, e.is_claim)).collect();
    assert_eq!(seen, vec![(500_000, 500_000, false), (0, 0, true), (0, 0, true)]);
}

#[test]
fn a_part_of_what_was_accrued_can_be_claimed() {
    let mut engine = engine();
    let half = SECONDS_PER_YEAR as u64 / 2;
    let xlm = symbol("XLM");
    assert_eq!(engine.claim_yield_partial(&address(1), &xlm, 100_000, half), Ok(100_000));
    assert_eq!(engine.claim_yield_partial(&address(1), &xlm, 900_000, half), Ok(400_000));
    assert_eq!(
        engine.claim_yield_partial(&address(2), &xlm, 1, half),
        Err(MathError::NegativeInput)
    );
    let history = engine.history(&address(1), &xlm);
    let seen: Vec<(i128, i128, bool)> =
        history.iter().map(|e| (e.yield_earned, e.cumulative_yield, e.is_claim)).collect();
    assert_eq!(seen, vec![(500_000, 500_000, false), (0, 400_000, true), (0, 0, true)]);
}

#[test]
fn a_claim_on_an_empty_reserve_still_accrues() {
    let mut engine = engine();
    let half = SECONDS_PER_YEAR as u64 / 2;
    let xlm = symbol("XLM");
    engine.fund_reserve(&xlm, 5);
    engine.withdraw_reserve(&xlm, 5);
    assert_eq!(engine.claim_yield_partial(&address(1), &xlm, 1, half), Ok(0));
    assert_eq!(engine.load_record(&address(1), &xlm).unwrap().accrued_yield, 500_000);
    assert_eq!(engine.batch_claim(&vec![address(1)], &xlm, 2 * half), vec![(address(1), 0)]);
    assert_eq!(engine.load_record(&address(1), &xlm).unwrap().accrued_yield, 1_000_000);
    let history = engine.history(&address(1), &xlm);
    let seen: Vec<(u64, i128)> =
        history.iter().map(|e| (e.period_seconds, e.cumulative_yield)).collect();
    assert_eq!(seen, vec![(half, 500_000), (half, 1_000_000)]);
}

#[test]
fn a_scheduled_payment_is_made_when_it_is_due() {
    let mut engine = engine();
    engine.fund_reserve(&symbol("XLM"), 1_000);
    engine.schedule_distribution(&address(1), &symbol("XLM"), 400, 100, 0);
    assert_eq!(engine.process_distribution(&address(1), &symbol("XLM"), 99), 0);
    assert_eq!(engine.process_distribution(&address(1), &symbol("XLM"), 100), 400);
    assert_eq!(engine.process_distribution(&address(1), &symbol("XLM"), 101), 0);
    assert_eq!(engine.reserve_balance(&symbol("XLM")), 600);
    assert!(engine.schedules(&address(1), &symbol("XLM"))[0].executed);
}

fn threshold(kind: AlertKind, trigger_value: i128) -> AlertThreshold {
    AlertThreshold {
        kind,
        trigger_value,
        severity: AlertSeverity::Warning,
        label: "watch".to_string(),
        enabled: true,
    }
}

#[test]
fn alerts_fire_and_are_acknowledged() {
    let mut monitor = AlertMonitor::new();
    let asset = symbol("XLM");
    monitor.set_config(AlertConfig {
        staker: address(1),
        asset,
        thresholds: vec![
            threshold(AlertKind::BalanceDrop, 1_000),
            threshold(AlertKind::YieldUnderperformance, 50),
            threshold(AlertKind::UpcomingUnlock, 60),
        ],
        alerts_enabled: true,
    });
    assert_eq!(monitor.check(&address(1), &asset, 1_000, 50, 0, 10), 0);
    assert_eq!(monitor.check(&address(1), &asset, 999, 49, 70, 11), 3);
    let history = monitor.history(&address(1), &asset);
    assert_eq!(history.len(), 3);
    assert_eq!(history[0].observed_value, 999);
    assert_eq!(history[2].observed_value, 59);
    assert_eq!(history[0].label, "watch");
    monitor.acknowledge(&address(1), &asset, 1);
    let pending = monitor.pending_alerts(&address(1), &asset);
    assert_eq!(pending.len(), 2);
    assert_eq!(pending[1].index, 2);
    monitor.set_alerts_enabled(&address(1), &asset, false);
    assert_eq!(monitor.check(&address(1), &asset, 1, 1, 0, 12), 0);
}

#[test]
fn alert_thresholds_are_added_and_removed() {
    let mut monitor = AlertMonitor::new();
    let asset = symbol("XLM");
    monitor.set_config(AlertConfig {
        staker: address(1),
        asset,
        thresholds: vec![],
        alerts_enabled: true,
    });
    let config =
        monitor.add_threshold(&address(1), &asset, threshold(AlertKind::BalanceDrop, 5));
    assert_eq!(config.thresholds.len(), 1);
    let config = monitor.remove_threshold(&address(1), &asset, 0);
    assert_eq!(config.thresholds.len(), 0);
}

#[test]
fn payments_out_of_range_are_noticed() {
    let mut engine = engine();
    let xlm = symbol("XLM");
    assert!(engine.can_distribute(&address(1), &xlm, 100));
    engine.schedule_distribution(&address(1), &xlm, i128::MAX, 100, 0);
    engine.schedule_distribution(&address(1), &xlm, 1, 200, 0);
    assert!(engine.can_distribute(&address(1), &xlm, 100));
    assert!(!engine.can_distribute(&address(1), &xlm, 200));
    engine.schedule_distribution(&address(2), &xlm, 1, 100, u64::MAX);
    assert!(!engine.can_distribute(&address(2), &xlm, 100));

    assert_eq!(engine.process_distribution(&address(1), &xlm, 100), i128::MAX);
    assert!(engine.can_total(&address(1), &xlm));
    assert_eq!(engine.process_distribution(&address(1), &xlm, 200), 1);
    assert!(!engine.can_total(&address(1), &xlm));
}

#[test]
fn withdrawals_out_of_range_are_noticed() {
    let mut free = store(test_config(1_000, 0, PenaltyDecayFunction::Linear));
    let ask = |store: &EmergencyStore, amount: i128, now: u64| {
        EmergencyUnstakeExecutor::can_execute(store, &address(1), amount, i128::MAX, 0, 10, now)
    };
    assert!(ask(&free, 1_000, 5));
    assert!(!ask(&free, i128::MAX, 5));
    assert!(ask(&free, 0, 5));
    assert!(!ask(&free, 1_000, u64::MAX));
    free.config = None;
    assert!(ask(&free, i128::MAX, 5));
}
