use astraport::rebalancing::multi_asset_rebalancer::{
    ExecutionStrategy, MultiAssetRebalancer, RebalanceError, SimulationResult,
};
use astraport::rebalancing::RebalanceAdjustment;
use astraport::values::Symbol;

fn symbol(text: &str) -> Symbol {
    Symbol::from_text(text)
}

fn drift(asset: &str, drift_bps: i32) -> RebalanceAdjustment {
    RebalanceAdjustment { asset: symbol(asset), drift_bps }
}

fn simulate(
    strategy: ExecutionStrategy,
    adjustments: &Vec<RebalanceAdjustment>,
) -> SimulationResult {
    match MultiAssetRebalancer::simulate_rebalance(symbol("p"), strategy, adjustments) {
        Ok(result) => result,
        Err(_) => panic!("a simulation always succeeds"),
    }
}

#[test]
fn what_is_above_is_sold_for_what_is_below() {
    let adjustments = vec![
        drift("USDC", -300),
        drift("BTC", 2),
        drift("XLM", 0),
        drift("ETH", 1),
        drift("DAI", -1),
        drift("SOL", 5),
    ];
    let result = simulate(ExecutionStrategy::MinimalCost, &adjustments);
    assert_eq!(result.trades.len(), 2);
    assert_eq!(result.trades[0].asset_to_sell, symbol("BTC"));
    assert_eq!(result.trades[0].asset_to_buy, symbol("USDC"));
    assert_eq!(result.trades[0].amount_to_sell, 200_000_000);
    assert_eq!(result.trades[0].expected_amount_to_buy, 10_000_000_000_000);
    assert_eq!(result.trades[1].asset_to_sell, symbol("ETH"));
    assert_eq!(result.trades[1].asset_to_buy, symbol("DAI"));
    // 20 bps of 200,000,000 and 25 bps of 100,000,000.
    assert_eq!(result.total_fee, 400_000 + 250_000);
    // 10 for each million of the first, 20 for each million of the second.
    assert_eq!(result.slippage_bps, 2_000 + 2_000);
}

#[test]
fn speed_is_paid_for() {
    let adjustments = vec![drift("BTC", 1), drift("USDC", -1)];
    let cost = simulate(ExecutionStrategy::MinimalCost, &adjustments);
    let time = simulate(ExecutionStrategy::MinimalTime, &adjustments);
    let balanced = simulate(ExecutionStrategy::Balanced, &adjustments);
    assert_eq!(cost.trades[0].expected_amount_to_buy, 5_000_000_000_000);
    assert_eq!(time.trades[0].expected_amount_to_buy, 4_950_000_000_000);
    assert_eq!(balanced.trades[0].expected_amount_to_buy, 4_975_000_000_000);
    assert_eq!(cost.total_fee, time.total_fee);
}

#[test]
fn rebalancing_notes_each_trade() {
    let adjustments = vec![drift("USDC", 1), drift("BTC", -1)];
    let result = simulate(ExecutionStrategy::Balanced, &adjustments);
    assert_eq!(result.total_fee, 50_000);
    assert_eq!(result.slippage_bps, 100);
    let mut rebalancer = MultiAssetRebalancer::new();
    assert_eq!(
        rebalancer.rebalance(symbol("p"), ExecutionStrategy::Balanced, &adjustments),
        Ok(())
    );
    assert_eq!(rebalancer.log.len(), 1);
    assert_eq!(rebalancer.log[0].trade, result.trades[0]);
    assert_eq!(rebalancer.log[0].fee, 5_000_000);
    assert_eq!(rebalancer.log[0].slippage_bps, 10_000);
}

#[test]
fn without_a_pair_there_is_no_trade() {
    let result = simulate(ExecutionStrategy::Balanced, &vec![drift("BTC", 9)]);
    assert_eq!(result.trades, vec![]);
    assert_eq!(result.total_fee, 0);
    assert_eq!(result.slippage_bps, 0);
}

#[test]
fn rebalance_error_codes() {
    assert_eq!(RebalanceError::InvalidAllocation.code(), 1);
    assert_eq!(RebalanceError::InvalidCurrentHoldings.code(), 2);
    assert_eq!(RebalanceError::TargetAllocationNotFound.code(), 3);
    assert_eq!(RebalanceError::CurrentHoldingsNotFound.code(), 4);
    assert_eq!(RebalanceError::ExecutionFailed.code(), 5);
}

#[test]
fn slippage_out_of_range_is_noticed() {
    let strategy = ExecutionStrategy::MinimalCost;
    let one = vec![drift("SOL", 1_000), drift("DAI", -1_000)];
    assert!(MultiAssetRebalancer::is_predictable(strategy, &one));
    assert!(MultiAssetRebalancer::is_feasible(strategy, &one));
    let part = simulate(strategy, &one).slippage_bps;
    let pairs = (u32::MAX as u128 / part) as usize;
    let mut many = Vec::new();
    for _ in 0..pairs {
        many.extend(one.iter().copied());
    }
    assert!(MultiAssetRebalancer::is_predictable(strategy, &many));
    many.extend(one.iter().copied());
    assert!(!MultiAssetRebalancer::is_predictable(strategy, &many));
    assert!(!MultiAssetRebalancer::is_feasible(strategy, &many));
}
