use astraport::fixed_point::SCALE;
use astraport::valuation::contract::ValuationContract;
use astraport::valuation::records::ValuationError;
use astraport::values::Symbol;
use soroban_sdk::Env;

fn symbol(text: &str) -> Symbol {
    Symbol::from_text(text)
}

fn contract() -> ValuationContract {
    let mut contract = ValuationContract::new();
    contract.initialize();
    contract
}

fn approx(a: i128, b: i128, tol: i128) {
    let diff = (a - b).abs();
    assert!(diff <= tol, "expected {} ~= {} within {}, diff was {}", a, b, tol, diff);
}

#[test]
fn test_initialize() {
    let mut contract = ValuationContract::new();
    let result = contract.initialize();
    assert_eq!(result, symbol("ok"));
}

#[test]
fn test_set_and_get_asset() {
    let mut contract = contract();
    let pid = symbol("port1");
    let xlm = symbol("XLM");
    contract.set_asset(pid, xlm, 1000, SCALE, SCALE / 2);

    let assets = contract.get_assets(pid);
    assert_eq!(assets.len(), 1);
    let a = assets[0];
    assert_eq!(a.asset, xlm);
    assert_eq!(a.quantity, 1000);
    assert_eq!(a.current_price, SCALE);
}

#[test]
fn test_update_asset() {
    let mut contract = contract();
    let pid = symbol("port1");
    let xlm = symbol("XLM");
    contract.set_asset(pid, xlm, 1000, SCALE, SCALE);
    contract.set_asset(pid, xlm, 2000, SCALE * 2, SCALE);

    let assets = contract.get_assets(pid);
    assert_eq!(assets.len(), 1);
    assert_eq!(assets[0].quantity, 2000);
    assert_eq!(assets[0].current_price, SCALE * 2);
}

#[test]
fn test_remove_asset() {
    let mut contract = contract();
    let pid = symbol("port1");
    let xlm = symbol("XLM");
    contract.set_asset(pid, xlm, 1000, SCALE, SCALE);
    assert!(contract.remove_asset(pid, xlm));
    assert!(contract.get_assets(pid).is_empty());
}

#[test]
fn test_calculate_portfolio_value_single_asset() {
    let mut contract = contract();
    let pid = symbol("port1");
    contract.set_asset(pid, symbol("XLM"), 1000, 2 * SCALE, SCALE);
    assert_eq!(contract.calculate_portfolio_value(pid), 2000 * SCALE);
}

#[test]
fn test_calculate_portfolio_value_multiple_assets() {
    let mut contract = contract();
    let pid = symbol("port1");
    contract.set_asset(pid, symbol("XLM"), 1000, SCALE, SCALE);
    contract.set_asset(pid, symbol("USDC"), 500, 2 * SCALE, SCALE);
    assert_eq!(contract.calculate_portfolio_value(pid), 2000 * SCALE);
}

#[test]
fn test_calculate_portfolio_value_empty() {
    let contract = ValuationContract::new();
    assert_eq!(contract.calculate_portfolio_value(symbol("port1")), 0);
}

#[test]
fn test_asset_allocation() {
    let mut contract = contract();
    let pid = symbol("port1");
    contract.set_asset(pid, symbol("XLM"), 1000, SCALE, SCALE);
    contract.set_asset(pid, symbol("USDC"), 500, 2 * SCALE, SCALE);

    let alloc = contract.get_asset_allocation(pid).unwrap();
    assert_eq!(alloc.len(), 2);

    let total_bps: u32 = alloc.iter().map(|a| a.allocation_bps).sum();
    assert!(
        (total_bps as i64 - 10_000).unsigned_abs() <= 10,
        "Allocation should sum to ~10000, got {}",
        total_bps
    );
    for a in alloc.iter() {
        assert!(
            (a.allocation_bps as i64 - 5_000).unsigned_abs() <= 10,
            "Each allocation should be ~5000 bps, got {}",
            a.allocation_bps
        );
    }
}

#[test]
fn test_asset_allocation_empty() {
    let contract = ValuationContract::new();
    assert_eq!(
        contract.get_asset_allocation(symbol("port1")),
        Err(ValuationError::EmptyPortfolio)
    );
}

#[test]
fn test_calculate_returns() {
    let mut contract = contract();
    let pid = symbol("port1");
    contract.set_initial_investment(pid, 1000 * SCALE);
    contract.set_asset(pid, symbol("XLM"), 1000, SCALE + SCALE / 2, SCALE);

    let result = contract.calculate_returns(pid).unwrap();
    assert_eq!(result.absolute_return, 500 * SCALE);
    approx(result.percentage_return, SCALE / 2, SCALE / 1000);
}

#[test]
fn test_calculate_returns_zero_investment() {
    let contract = ValuationContract::new();
    assert_eq!(
        contract.calculate_returns(symbol("port1")),
        Err(ValuationError::ZeroInitialInvestment)
    );
}

#[test]
fn test_take_and_compare_snapshots() {
    let mut contract = contract();
    let pid = symbol("port1");
    let xlm = symbol("XLM");
    contract.set_initial_investment(pid, 1000 * SCALE);

    contract.set_asset(pid, xlm, 1000, SCALE, SCALE);
    let s1 = contract.take_snapshot(pid, 0);
    assert_eq!(s1.total_value, 1000 * SCALE);

    contract.set_asset(pid, xlm, 1000, SCALE + SCALE / 2, SCALE);
    let s2 = contract.take_snapshot(pid, 0);
    assert_eq!(s2.total_value, 1500 * SCALE);

    let (change, pct, _) = contract.compare_snapshots(pid, 0, 1).unwrap();
    assert_eq!(change, 500 * SCALE);
    approx(pct, SCALE / 2, SCALE / 1000);
}

#[test]
fn test_valuation_history() {
    let mut contract = contract();
    let pid = symbol("port1");
    contract.set_initial_investment(pid, 1000 * SCALE);
    contract.set_asset(pid, symbol("XLM"), 1000, SCALE, SCALE);

    contract.take_snapshot(pid, 0);
    contract.take_snapshot(pid, 86400);

    let history = contract.get_valuation_history(pid);
    assert_eq!(history.len(), 2);
    assert_eq!(history[0].total_value, 1000 * SCALE);
    assert_eq!(history[1].total_value, 1000 * SCALE);
}

#[test]
fn test_risk_free_rate_config() {
    let mut contract = contract();
    let rf = contract.get_risk_free_rate();
    assert_eq!(rf, 4 * SCALE / 100);

    contract.set_risk_free_rate(3 * SCALE / 100);
    assert_eq!(contract.get_risk_free_rate(), 3 * SCALE / 100);
}

#[test]
fn test_performance_metrics_insufficient_data() {
    let env = Env::default();
    let contract = contract();
    assert_eq!(
        contract.calculate_performance_metrics(&env, symbol("port1")),
        Err(ValuationError::InsufficientData)
    );
}

#[test]
fn test_remove_nonexistent_asset() {
    let mut contract = ValuationContract::new();
    assert!(!contract.remove_asset(symbol("port1"), symbol("XLM")));
}

#[test]
fn initializing_again_keeps_the_settings() {
    let mut contract = ValuationContract::new();
    contract.set_risk_free_rate(7);
    contract.initialize();
    assert_eq!(contract.get_risk_free_rate(), 7);
    assert_eq!(contract.get_annualization_period(), 365);
}

#[test]
fn the_last_asset_bears_the_rounding() {
    let mut contract = contract();
    let pid = symbol("p");
    contract.set_asset(pid, symbol("A"), 1, 1, 0);
    contract.set_asset(pid, symbol("B"), 1, 1, 0);
    contract.set_asset(pid, symbol("C"), 1, 1, 0);
    let shares: Vec<u32> = contract
        .get_asset_allocation(pid)
        .unwrap()
        .iter()
        .map(|a| a.allocation_bps)
        .collect();
    assert_eq!(shares, vec![3_333, 3_333, 3_334]);
}

#[test]
fn a_total_out_of_range_is_the_upper_limit() {
    let mut contract = contract();
    let pid = symbol("p");
    contract.set_asset(pid, symbol("A"), 1, i128::MAX, 0);
    contract.set_asset(pid, symbol("B"), 1, 1, 0);
    assert_eq!(contract.calculate_portfolio_value(pid), i128::MAX);
}

#[test]
fn a_worthless_portfolio_has_no_return() {
    let mut contract = contract();
    let pid = symbol("p");
    contract.set_initial_investment(pid, 5);
    assert_eq!(contract.calculate_returns(pid), Err(ValuationError::EmptyPortfolio));
    contract.set_asset(pid, symbol("A"), 1, -1, 0);
    contract.set_initial_investment(pid, i128::MAX);
    assert_eq!(contract.calculate_returns(pid), Err(ValuationError::MathError));
}

#[test]
fn a_snapshot_records_gain_and_assets() {
    let mut contract = contract();
    let pid = symbol("p");
    contract.set_asset(pid, symbol("B"), 10, 30, 20);
    contract.set_asset(pid, symbol("A"), 2, 50, 50);
    let taken = contract.take_snapshot(pid, 9);
    assert_eq!(taken.total_value, 400);
    assert_eq!(taken.total_cost_basis, 300);
    assert_eq!(taken.asset_count, 2);
    assert_eq!(contract.get_latest_snapshot(pid), Some(taken));
    assert_eq!(contract.get_snapshot_history(pid), vec![taken]);
    let history = contract.get_valuation_history(pid);
    assert_eq!(history[0].absolute_return, 100);
    assert_eq!(history[0].percentage_return, SCALE / 3);
    assert_eq!(history[0].asset_values.get(&symbol("B")), Some(&300));
    assert_eq!(history[0].asset_values.get(&symbol("C")), None);
}

#[test]
fn snapshots_out_of_order_are_not_compared() {
    let mut contract = contract();
    let pid = symbol("p");
    contract.set_asset(pid, symbol("A"), 1, 10, 1);
    contract.take_snapshot(pid, 5);
    contract.take_snapshot(pid, 25);
    assert_eq!(contract.compare_snapshots(pid, 0, 1), Ok((0, 0, 20)));
    assert_eq!(contract.compare_snapshots(pid, 1, 0), Err(ValuationError::InsufficientData));
    assert_eq!(contract.compare_snapshots(pid, 0, 2), Err(ValuationError::InsufficientData));
}

#[test]
fn metrics_follow_the_history() {
    let env = Env::default();
    let mut contract = contract();
    contract.set_risk_free_rate(0);
    contract.set_annualization_period(1);
    let pid = symbol("p");
    for price in [100, 120, 90] {
        contract.set_asset(pid, symbol("A"), 1, price * SCALE, SCALE);
        contract.take_snapshot(pid, 1);
    }
    let metrics = contract.calculate_performance_metrics(&env, pid).unwrap();
    assert_eq!(metrics.max_drawdown, SCALE / 4);
    assert_eq!(metrics.time_weighted_return, -SCALE / 10);
    // The mean of +20% and -25% is -2.5%; their deviation is 31.8198%.
    approx(metrics.sharpe_ratio, -78_567_420_131, 1_000);
    // The downside deviation is 25% over the square root of two.
    approx(metrics.sortino_ratio, -141_421_356_237, 1_000);
}

#[test]
fn metrics_need_periods_in_a_year() {
    let env = Env::default();
    let mut contract = contract();
    contract.set_annualization_period(0);
    let pid = symbol("p");
    for price in [100, 120, 90] {
        contract.set_asset(pid, symbol("A"), 1, price * SCALE, SCALE);
        contract.take_snapshot(pid, 1);
    }
    assert_eq!(
        contract.calculate_performance_metrics(&env, pid),
        Err(ValuationError::MathError)
    );
}

#[test]
fn valuation_error_codes() {
    assert_eq!(ValuationError::EmptyPortfolio.code(), 1);
    assert_eq!(ValuationError::ZeroInitialInvestment.code(), 2);
    assert_eq!(ValuationError::InsufficientData.code(), 3);
    assert_eq!(ValuationError::MathError.code(), 4);
    assert_eq!(ValuationError::PortfolioNotFound.code(), 5);
}

#[test]
fn two_valuations_have_metrics() {
    let env = Env::default();
    let mut contract = contract();
    contract.set_risk_free_rate(0);
    contract.set_annualization_period(1);
    for (name, second, sortino) in [("down", 80, -SCALE), ("up", 120, 0)] {
        let pid = symbol(name);
        contract.set_asset(pid, symbol("A"), 1, 100 * SCALE, SCALE);
        contract.take_snapshot(pid, 1);
        assert_eq!(
            contract.calculate_performance_metrics(&env, pid),
            Err(ValuationError::InsufficientData)
        );
        contract.set_asset(pid, symbol("A"), 1, second * SCALE, SCALE);
        contract.take_snapshot(pid, 2);
        let metrics = contract.calculate_performance_metrics(&env, pid).unwrap();
        // A single return does not deviate from itself.
        assert_eq!(metrics.sharpe_ratio, 0);
        assert_eq!(metrics.sortino_ratio, sortino);
        assert_eq!(metrics.time_weighted_return, (second - 100) * SCALE / 100);
    }
}

#[test]
fn shares_add_up_although_a_holding_is_owed() {
    let mut contract = contract();
    let pid = symbol("p");
    contract.set_asset(pid, symbol("A"), 1, 200, 0);
    contract.set_asset(pid, symbol("B"), 1, -100, 0);
    let shares: Vec<(i128, u32)> = contract
        .get_asset_allocation(pid)
        .unwrap()
        .iter()
        .map(|a| (a.market_value, a.allocation_bps))
        .collect();
    assert_eq!(shares, vec![(200, 10_000), (-100, 0)]);
    contract.set_asset(pid, symbol("C"), 1, 100, 0);
    let shares: Vec<u32> = contract
        .get_asset_allocation(pid)
        .unwrap()
        .iter()
        .map(|a| a.allocation_bps)
        .collect();
    assert_eq!(shares, vec![10_000, 0, 0]);
}

#[test]
fn values_out_of_range_are_noticed() {
    let mut contract = contract();
    let pid = symbol("p");
    assert!(contract.is_valued(pid) && contract.is_recordable(pid));
    contract.set_asset(pid, symbol("A"), 1, i128::MAX, 1);
    assert!(contract.is_valued(pid) && contract.is_recordable(pid));
    contract.set_asset(pid, symbol("B"), 2, 1, i128::MAX);
    assert!(contract.is_valued(pid) && !contract.is_recordable(pid));
    contract.set_asset(pid, symbol("B"), 2, i128::MAX, 1);
    assert!(!contract.is_valued(pid) && !contract.is_recordable(pid));
    let loss = symbol("loss");
    contract.set_asset(loss, symbol("A"), 1, i128::MIN, 1);
    assert!(contract.is_valued(loss) && !contract.is_recordable(loss));
}
