//! Trades that bring several assets back to their targets.
use crate::rebalancing::RebalanceAdjustment;
use crate::table;
use crate::values;
use crate::values::Symbol;
use vstd::prelude::*;

verus! {

/// Why a request was refused.
#[derive(Clone, Copy, PartialEq, Eq, PartialOrd, Ord, Structural, Debug)]
pub enum RebalanceError {
    InvalidAllocation,
    InvalidCurrentHoldings,
    TargetAllocationNotFound,
    CurrentHoldingsNotFound,
    ExecutionFailed,
}

impl RebalanceError {
    /// The number of the error.
    pub open spec fn number(self) -> u32 {
        match self {
            RebalanceError::InvalidAllocation => 1,
            RebalanceError::InvalidCurrentHoldings => 2,
            RebalanceError::TargetAllocationNotFound => 3,
            RebalanceError::CurrentHoldingsNotFound => 4,
            RebalanceError::ExecutionFailed => 5,
        }
    }

    /// The number of the error.
    pub fn code(self) -> (n: u32)
        ensures
            n == self.number(),
    {
        match self {
            RebalanceError::InvalidAllocation => 1,
            RebalanceError::InvalidCurrentHoldings => 2,
            RebalanceError::TargetAllocationNotFound => 3,
            RebalanceError::CurrentHoldingsNotFound => 4,
            RebalanceError::ExecutionFailed => 5,
        }
    }
}

/// What a rebalancing is to spare.
#[derive(Clone, Copy, PartialEq, Eq, Structural, Debug)]
pub enum ExecutionStrategy {
    MinimalCost,
    MinimalTime,
    Balanced,
}

/// What a trade gives up for speed.
#[derive(Clone, Copy, PartialEq, Eq, Structural, Debug)]
pub enum Tradeoff {
    Cost,
    Time,
    Balanced,
}

/// An exchange of one asset for another.
#[derive(Clone, Copy, PartialEq, Eq, Structural, Debug)]
pub struct Trade {
    pub asset_to_sell: Symbol,
    pub asset_to_buy: Symbol,
    pub amount_to_sell: u128,
    pub expected_amount_to_buy: u128,
}

/// What a rebalancing would do.
pub struct SimulationResult {
    pub trades: Vec<Trade>,
    pub total_fee: u128,
    pub slippage_bps: u128,
}

/// A share in basis points.
#[derive(Clone, Copy, PartialEq, Eq, Structural, Debug)]
pub struct Percentage(pub u32);

/// A trade that was made, with its part of the fee and of the slippage.
#[derive(Clone, Copy, PartialEq, Eq, Structural, Debug)]
pub struct TradeNote {
    pub trade: Trade,
    pub fee: u128,
    pub slippage_bps: u128,
}

/// The value of the portfolio that trades are made for.
pub const PORTFOLIO_VALUE: u128 = 1_000_000_000_000;

/// The price of what is sold.
pub const SELL_PRICE: u128 = 50_000;

/// The units of an asset to which fees and slippage refer.
pub const UNITS: u128 = 1_000_000;

/// The fee on an asset of which nothing else is known, in basis points.
pub const DEFAULT_FEE_BPS: u128 = 30;

/// The slippage of a pair of which nothing else is known, in basis points.
pub const DEFAULT_SLIPPAGE_BPS: u128 = 20;

/// One more than the largest percentage.
pub const PERCENTAGE_LIMIT: u128 = 0x1_0000_0000;

/// The tradeoff of a strategy.
pub open spec fn tradeoff_of(strategy: ExecutionStrategy) -> Tradeoff {
    match strategy {
        ExecutionStrategy::MinimalCost => Tradeoff::Cost,
        ExecutionStrategy::MinimalTime => Tradeoff::Time,
        ExecutionStrategy::Balanced => Tradeoff::Balanced,
    }
}

/// The adjustments of assets that are above their targets.
pub open spec fn above(adjustments: Seq<RebalanceAdjustment>) -> Seq<RebalanceAdjustment> {
    adjustments.filter(|a: RebalanceAdjustment| a.drift_bps > 0)
}

/// The adjustments of assets that are below their targets.
pub open spec fn below(adjustments: Seq<RebalanceAdjustment>) -> Seq<RebalanceAdjustment> {
    adjustments.filter(|a: RebalanceAdjustment| a.drift_bps < 0)
}

/// How much of an asset is sold for its drift.
pub open spec fn amount_sold(drift_bps: int) -> int {
    PORTFOLIO_VALUE * drift_bps / 10_000
}

/// What an amount that is sold is expected to buy.
pub open spec fn amount_bought(sold: int, tradeoff: Tradeoff) -> int {
    let base = sold * SELL_PRICE;
    match tradeoff {
        Tradeoff::Cost => base,
        Tradeoff::Time => base * 99 / 100,
        Tradeoff::Balanced => base * 995 / 1000,
    }
}

/// A trade for an asset above its target and one below.
pub open spec fn trade_for(
    over: RebalanceAdjustment,
    under: RebalanceAdjustment,
    tradeoff: Tradeoff,
) -> Trade {
    Trade {
        asset_to_sell: over.asset,
        asset_to_buy: under.asset,
        amount_to_sell: amount_sold(over.drift_bps as int) as u128,
        expected_amount_to_buy: amount_bought(
            amount_sold(over.drift_bps as int),
            tradeoff,
        ) as u128,
    }
}

/// The trades for a list of adjustments: the first asset above its target for
/// the first one below, and so on while there are both.
pub open spec fn trades_for(adjustments: Seq<RebalanceAdjustment>, tradeoff: Tradeoff) -> Seq<
    Trade,
> {
    let over = above(adjustments);
    let under = below(adjustments);
    Seq::new(
        if over.len() <= under.len() {
            over.len()
        } else {
            under.len()
        },
        |i: int| trade_for(over[i], under[i], tradeoff),
    )
}

/// The fee on selling an asset, in basis points.
pub open spec fn fee_rate(asset: Symbol) -> u128 {
    if asset == values::symbol_of("BTC"@) {
        20
    } else if asset == values::symbol_of("ETH"@) {
        25
    } else if asset == values::symbol_of("USDC"@) {
        5
    } else {
        DEFAULT_FEE_BPS
    }
}

/// The fee on a trade.
pub open spec fn trade_fee(trade: Trade) -> int {
    trade.amount_to_sell * fee_rate(trade.asset_to_sell) / 10_000
}

/// The fees on trades.
pub open spec fn total_fee(trades: Seq<Trade>) -> int
    decreases trades.len(),
{
    if trades.len() == 0 {
        0
    } else {
        total_fee(trades.drop_last()) + trade_fee(trades.last())
    }
}

/// The slippage of a pair for a number of units sold, in basis points.
pub open spec fn slippage_factor(sell: Symbol, buy: Symbol) -> u128 {
    if sell == values::symbol_of("BTC"@) && buy == values::symbol_of("USDC"@) {
        10
    } else if sell == values::symbol_of("ETH"@) && buy == values::symbol_of("USDC"@) {
        15
    } else if sell == values::symbol_of("USDC"@) && buy == values::symbol_of("BTC"@) {
        1
    } else {
        DEFAULT_SLIPPAGE_BPS
    }
}

/// The slippage of an amount of a pair: its low 32 bits.
pub open spec fn slippage(sell: Symbol, buy: Symbol, amount: int) -> int {
    (amount * slippage_factor(sell, buy) / UNITS as int) % PERCENTAGE_LIMIT as int
}

/// The slippage of trades.
pub open spec fn total_slippage(trades: Seq<Trade>) -> int
    decreases trades.len(),
{
    if trades.len() == 0 {
        0
    } else {
        let last = trades.last();
        total_slippage(trades.drop_last()) + slippage(
            last.asset_to_sell,
            last.asset_to_buy,
            last.amount_to_sell as int,
        )
    }
}

/// What is noted of trades: each bears fee and slippage by its units.
pub open spec fn notes(trades: Seq<Trade>) -> Seq<TradeNote> {
    Seq::new(
        trades.len(),
        |i: int|
            TradeNote {
                trade: trades[i],
                fee: (total_fee(trades) * trades[i].amount_to_sell / UNITS as int) as u128,
                slippage_bps: (total_slippage(trades) * trades[i].amount_to_sell
                    / UNITS as int) as u128,
            },
    )
}

/// Whether what is noted of trades fits the numbers that hold it.
pub open spec fn notable(trades: Seq<Trade>) -> bool {
    forall|i: int|
        0 <= i < trades.len() ==> total_fee(trades) * (#[trigger] trades[i]).amount_to_sell
            <= u128::MAX && total_slippage(trades) * trades[i].amount_to_sell <= u128::MAX
}

/// The trades of a strategy.
pub open spec fn plan(adjustments: Seq<RebalanceAdjustment>, strategy: ExecutionStrategy) -> Seq<
    Trade,
> {
    trades_for(adjustments, tradeoff_of(strategy))
}

proof fn lemma_sold(drift_bps: int)
    ensures
        amount_sold(drift_bps) == 100_000_000 * drift_bps,
{
}

/// Whether trades are small enough for their fees to be added up.
pub open spec fn modest(trades: Seq<Trade>) -> bool {
    forall|i: int|
        0 <= i < trades.len() ==> (#[trigger] trades[i]).amount_to_sell <= 0x8000_0000
            * 100_000_000
}

proof fn lemma_total_fee_bound(trades: Seq<Trade>)
    requires
        modest(trades),
    ensures
        0 <= total_fee(trades) <= trades.len() * 1_000_000_000_000_000,
    decreases trades.len(),
{
    if trades.len() > 0 {
        let before = trades.drop_last();
        assert forall|i: int| 0 <= i < before.len() implies (
        #[trigger] before[i]).amount_to_sell <= 0x8000_0000 * 100_000_000 by {
            assert(before[i] == trades[i]);
        }
        lemma_total_fee_bound(before);
        let last = trades[trades.len() - 1];
        let rate = fee_rate(last.asset_to_sell);
        assert(0 <= last.amount_to_sell * rate <= 0x8000_0000 * 100_000_000 * 30)
            by (nonlinear_arith)
            requires
                0 <= last.amount_to_sell <= 0x8000_0000 * 100_000_000,
                0 <= rate <= 30,
        ;
    }
}

proof fn lemma_total_slippage_grows(trades: Seq<Trade>, k: int)
    requires
        0 <= k <= trades.len(),
    ensures
        0 <= total_slippage(trades.take(k)) <= total_slippage(trades),
    decreases trades.len(),
{
    if k == trades.len() {
        assert(trades.take(k) =~= trades);
        if k > 0 {
            lemma_total_slippage_grows(trades.drop_last(), k - 1);
            assert(trades.drop_last().take(k - 1) =~= trades.drop_last());
        }
    } else {
        lemma_total_slippage_grows(trades.drop_last(), k);
        assert(trades.drop_last().take(k) =~= trades.take(k));
    }
}

/// Plans and notes the trades of a rebalancing.
pub struct MultiAssetRebalancer {
    /// The trades that were made, in order.
    pub log: Vec<TradeNote>,
}

impl MultiAssetRebalancer {
    /// A rebalancer that has made no trades.
    pub fn new() -> (rebalancer: Self)
        ensures
            rebalancer.log@ == Seq::<TradeNote>::empty(),
    {
        MultiAssetRebalancer { log: Vec::new() }
    }

    /// Make the trades of a strategy and note each.
    pub fn rebalance(
        &mut self,
        _portfolio_id: Symbol,
        strategy: ExecutionStrategy,
        adjustments: &Vec<RebalanceAdjustment>,
    ) -> (r: Result<(), RebalanceError>)
        requires
            total_slippage(plan(adjustments@, strategy)) <= u32::MAX,
            notable(plan(adjustments@, strategy)),
        ensures
            r is Ok,
            final(self).log@ == old(self).log@ + notes(plan(adjustments@, strategy)),
    {
        let (trades, fee, slippage_bps) = Self::execute_strategy(strategy, adjustments);
        let ghost all = notes(trades@);
        let ghost before = self.log@;
        let mut i: usize = 0;
        assert(self.log@ =~= before + all.take(0));
        while i < trades.len()
            invariant
                i <= trades@.len(),
                notable(trades@),
                fee == total_fee(trades@),
                slippage_bps == total_slippage(trades@),
                all == notes(trades@),
                self.log@ == before + all.take(i as int),
            decreases trades@.len() - i,
        {
            let trade = trades[i];
            assert(total_fee(trades@) * trades@[i as int].amount_to_sell <= u128::MAX);
            assert(fee * trade.amount_to_sell >= 0 && slippage_bps * trade.amount_to_sell >= 0)
                by (nonlinear_arith)
                requires
                    fee >= 0,
                    slippage_bps >= 0,
                    trade.amount_to_sell >= 0,
            ;
            self.log.push(
                TradeNote {
                    trade,
                    fee: fee * trade.amount_to_sell / UNITS,
                    slippage_bps: slippage_bps * trade.amount_to_sell / UNITS,
                },
            );
            i += 1;
            assert(all.take(i as int) =~= all.take(i - 1).push(all[i - 1]));
            assert(self.log@ =~= before + all.take(i as int));
        }
        assert(all.take(i as int) =~= all);
        Ok(())
    }

    /// What rebalancing would do.
    pub fn simulate_rebalance(
        _portfolio_id: Symbol,
        strategy: ExecutionStrategy,
        adjustments: &Vec<RebalanceAdjustment>,
    ) -> (r: Result<SimulationResult, RebalanceError>)
        requires
            total_slippage(plan(adjustments@, strategy)) <= u32::MAX,
        ensures
            r matches Ok(s) && s.trades@ == plan(adjustments@, strategy) && s.total_fee
                == total_fee(s.trades@) && s.slippage_bps == total_slippage(s.trades@),
    {
        let (trades, fee, slippage_bps) = Self::execute_strategy(strategy, adjustments);
        Ok(SimulationResult { trades, total_fee: fee, slippage_bps })
    }

    /// Whether the slippage of a strategy's trades can be added up.
    pub fn is_predictable(strategy: ExecutionStrategy, adjustments: &Vec<RebalanceAdjustment>) -> (b:
        bool)
        ensures
            b == (total_slippage(plan(adjustments@, strategy)) <= u32::MAX),
    {
        let trades = Self::generate_trades(adjustments, Self::tradeoff(strategy));
        let mut total: u32 = 0;
        let mut i: usize = 0;
        assert(trades@.take(0) =~= Seq::<Trade>::empty());
        while i < trades.len()
            invariant
                i <= trades@.len(),
                modest(trades@),
                trades@ == plan(adjustments@, strategy),
                total == total_slippage(trades@.take(i as int)),
            decreases trades@.len() - i,
        {
            assert(trades@.take(i + 1).drop_last() =~= trades@.take(i as int));
            assert(trades@.take(i + 1).last() == trades@[i as int]);
            let part = Self::predict_slippage(
                trades[i].asset_to_sell,
                trades[i].asset_to_buy,
                trades[i].amount_to_sell,
            );
            total = match total.checked_add(part.0) {
                Some(sum) => sum,
                None => {
                    proof {
                        lemma_total_slippage_grows(trades@, i + 1);
                    }
                    return false;
                },
            };
            i += 1;
        }
        assert(trades@.take(i as int) =~= trades@);
        true
    }

    /// Whether a strategy's trades can be made: their slippage can be added up
    /// and what is noted of each fits.
    pub fn is_feasible(strategy: ExecutionStrategy, adjustments: &Vec<RebalanceAdjustment>) -> (b:
        bool)
        ensures
            b == (total_slippage(plan(adjustments@, strategy)) <= u32::MAX && notable(
                plan(adjustments@, strategy),
            )),
    {
        if !Self::is_predictable(strategy, adjustments) {
            return false;
        }
        let (trades, fee, slippage_bps) = Self::execute_strategy(strategy, adjustments);
        let mut i: usize = 0;
        while i < trades.len()
            invariant
                i <= trades@.len(),
                trades@ == plan(adjustments@, strategy),
                fee == total_fee(trades@),
                slippage_bps == total_slippage(trades@),
                forall|j: int|
                    0 <= j < i ==> total_fee(trades@) * (#[trigger] trades@[j]).amount_to_sell
                        <= u128::MAX && total_slippage(trades@) * trades@[j].amount_to_sell
                        <= u128::MAX,
            decreases trades@.len() - i,
        {
            let amount = trades[i].amount_to_sell;
            if fee.checked_mul(amount).is_none() || slippage_bps.checked_mul(amount).is_none() {
                assert(total_fee(trades@) * trades@[i as int].amount_to_sell > u128::MAX
                    || total_slippage(trades@) * trades@[i as int].amount_to_sell > u128::MAX)
                    by {
                    assert(fee * amount >= 0 && slippage_bps * amount >= 0) by (nonlinear_arith)
                        requires
                            fee >= 0,
                            slippage_bps >= 0,
                            amount >= 0,
                    ;
                }
                return false;
            }
            i += 1;
        }
        true
    }

    fn tradeoff(strategy: ExecutionStrategy) -> (tradeoff: Tradeoff)
        ensures
            tradeoff == tradeoff_of(strategy),
    {
        match strategy {
            ExecutionStrategy::MinimalCost => Tradeoff::Cost,
            ExecutionStrategy::MinimalTime => Tradeoff::Time,
            ExecutionStrategy::Balanced => Tradeoff::Balanced,
        }
    }

    /// The trades of a strategy with their fees and slippage.
    fn execute_strategy(
        strategy: ExecutionStrategy,
        adjustments: &Vec<RebalanceAdjustment>,
    ) -> (r: (Vec<Trade>, u128, u128))
        requires
            total_slippage(plan(adjustments@, strategy)) <= u32::MAX,
        ensures
            r.0@ == plan(adjustments@, strategy),
            r.1 == total_fee(r.0@),
            r.2 == total_slippage(r.0@),
    {
        let trades = Self::generate_trades(adjustments, Self::tradeoff(strategy));
        let fee = Self::calculate_total_fees(&trades);
        let mut total: u32 = 0;
        let mut i: usize = 0;
        assert(trades@.take(0) =~= Seq::<Trade>::empty());
        while i < trades.len()
            invariant
                i <= trades@.len(),
                modest(trades@),
                total_slippage(trades@) <= u32::MAX,
                total == total_slippage(trades@.take(i as int)),
            decreases trades@.len() - i,
        {
            assert(trades@.take(i + 1).drop_last() =~= trades@.take(i as int));
            assert(trades@.take(i + 1).last() == trades@[i as int]);
            proof {
                lemma_total_slippage_grows(trades@, i + 1);
            }
            let part = Self::predict_slippage(
                trades[i].asset_to_sell,
                trades[i].asset_to_buy,
                trades[i].amount_to_sell,
            );
            total += part.0;
            i += 1;
        }
        assert(trades@.take(i as int) =~= trades@);
        (trades, fee, total as u128)
    }

    /// Those of the adjustments that are above their targets, and those that
    /// are below.
    fn split_adjustments(adjustments: &Vec<RebalanceAdjustment>) -> (r: (
        Vec<RebalanceAdjustment>,
        Vec<RebalanceAdjustment>,
    ))
        ensures
            r.0@ == above(adjustments@),
            r.1@ == below(adjustments@),
    {
        let ghost over = |a: RebalanceAdjustment| a.drift_bps > 0;
        let ghost under = |a: RebalanceAdjustment| a.drift_bps < 0;
        let mut sells: Vec<RebalanceAdjustment> = Vec::new();
        let mut buys: Vec<RebalanceAdjustment> = Vec::new();
        let mut i: usize = 0;
        proof {
            table::lemma_filter_none(adjustments@, over);
            table::lemma_filter_none(adjustments@, under);
        }
        while i < adjustments.len()
            invariant
                i <= adjustments@.len(),
                over == (|a: RebalanceAdjustment| a.drift_bps > 0),
                under == (|a: RebalanceAdjustment| a.drift_bps < 0),
                sells@ == adjustments@.take(i as int).filter(over),
                buys@ == adjustments@.take(i as int).filter(under),
            decreases adjustments@.len() - i,
        {
            proof {
                table::lemma_filter_step(adjustments@, i as int, over);
                table::lemma_filter_step(adjustments@, i as int, under);
            }
            if adjustments[i].drift_bps > 0 {
                sells.push(adjustments[i]);
            } else if adjustments[i].drift_bps < 0 {
                buys.push(adjustments[i]);
            }
            i += 1;
        }
        assert(adjustments@.take(i as int) =~= adjustments@);
        (sells, buys)
    }

    /// The trades for a list of adjustments.
    fn generate_trades(adjustments: &Vec<RebalanceAdjustment>, tradeoff: Tradeoff) -> (trades: Vec<
        Trade,
    >)
        ensures
            trades@ == trades_for(adjustments@, tradeoff),
            modest(trades@),
    {
        let (sells, buys) = Self::split_adjustments(adjustments);
        let count = if sells.len() <= buys.len() {
            sells.len()
        } else {
            buys.len()
        };
        let ghost all = trades_for(adjustments@, tradeoff);
        let ghost over = |a: RebalanceAdjustment| a.drift_bps > 0;
        let mut trades: Vec<Trade> = Vec::new();
        let mut i: usize = 0;
        while i < count
            invariant
                i <= count,
                count == all.len(),
                count <= sells@.len(),
                count <= buys@.len(),
                over == (|a: RebalanceAdjustment| a.drift_bps > 0),
                sells@ == adjustments@.filter(over),
                sells@ == above(adjustments@),
                buys@ == below(adjustments@),
                all == trades_for(adjustments@, tradeoff),
                trades@ == all.take(i as int),
                modest(trades@),
            decreases count - i,
        {
            let sell = sells[i];
            proof {
                adjustments@.lemma_filter_pred(over, i as int);
                lemma_sold(sell.drift_bps as int);
            }
            let amount_to_sell = PORTFOLIO_VALUE * (sell.drift_bps as u128) / 10_000;
            let base = amount_to_sell * SELL_PRICE;
            let expected_amount_to_buy = match tradeoff {
                Tradeoff::Cost => base,
                Tradeoff::Time => base * 99 / 100,
                Tradeoff::Balanced => base * 995 / 1000,
            };
            trades.push(
                Trade {
                    asset_to_sell: sell.asset,
                    asset_to_buy: buys[i].asset,
                    amount_to_sell,
                    expected_amount_to_buy,
                },
            );
            i += 1;
            assert(trades@ =~= all.take(i as int));
        }
        assert(all.take(i as int) =~= all);
        trades
    }

    /// The fees on trades.
    fn calculate_total_fees(trades: &Vec<Trade>) -> (total: u128)
        requires
            modest(trades@),
        ensures
            total == total_fee(trades@),
    {
        let btc = Symbol::from_text("BTC");
        let eth = Symbol::from_text("ETH");
        let usdc = Symbol::from_text("USDC");
        let mut total: u128 = 0;
        let mut i: usize = 0;
        assert(trades@.take(0) =~= Seq::<Trade>::empty());
        while i < trades.len()
            invariant
                i <= trades@.len(),
                modest(trades@),
                btc == values::symbol_of("BTC"@),
                eth == values::symbol_of("ETH"@),
                usdc == values::symbol_of("USDC"@),
                total == total_fee(trades@.take(i as int)),
            decreases trades@.len() - i,
        {
            let trade = trades[i];
            let rate: u128 = if trade.asset_to_sell == btc {
                20
            } else if trade.asset_to_sell == eth {
                25
            } else if trade.asset_to_sell == usdc {
                5
            } else {
                DEFAULT_FEE_BPS
            };
            let ghost next = trades@.take(i + 1);
            proof {
                assert(next.drop_last() =~= trades@.take(i as int));
                assert(next.last() == trade);
                assert(0 <= trade.amount_to_sell * rate <= 0x8000_0000 * 100_000_000 * 30)
                    by (nonlinear_arith)
                    requires
                        0 <= trade.amount_to_sell <= 0x8000_0000 * 100_000_000,
                        0 <= rate <= 30,
                ;
                assert(modest(next)) by {
                    assert forall|j: int| 0 <= j < next.len() implies (
                    #[trigger] next[j]).amount_to_sell <= 0x8000_0000 * 100_000_000 by {
                        assert(next[j] == trades@[j]);
                    }
                }
                lemma_total_fee_bound(next);
            }
            total += trade.amount_to_sell * rate / 10_000;
            i += 1;
        }
        assert(trades@.take(i as int) =~= trades@);
        total
    }

    /// The slippage of selling an amount of one asset for another.
    fn predict_slippage(asset_to_sell: Symbol, asset_to_buy: Symbol, amount_to_sell: u128) -> (p:
        Percentage)
        requires
            amount_to_sell * DEFAULT_SLIPPAGE_BPS <= u128::MAX,
        ensures
            p.0 == slippage(asset_to_sell, asset_to_buy, amount_to_sell as int),
    {
        let btc = Symbol::from_text("BTC");
        let eth = Symbol::from_text("ETH");
        let usdc = Symbol::from_text("USDC");
        let factor: u128 = if asset_to_sell == btc && asset_to_buy == usdc {
            10
        } else if asset_to_sell == eth && asset_to_buy == usdc {
            15
        } else if asset_to_sell == usdc && asset_to_buy == btc {
            1
        } else {
            DEFAULT_SLIPPAGE_BPS
        };
        assert(0 <= amount_to_sell * factor <= amount_to_sell * DEFAULT_SLIPPAGE_BPS)
            by (nonlinear_arith)
            requires
                0 <= amount_to_sell,
                0 <= factor <= DEFAULT_SLIPPAGE_BPS,
        ;
        Percentage((amount_to_sell * factor / UNITS % PERCENTAGE_LIMIT) as u32)
    }
}

/// Every trade sells an asset that is above its target and buys one that is
/// below, and there are as many trades as there are such pairs.
pub proof fn trades_close_the_gaps(
    adjustments: Seq<RebalanceAdjustment>,
    strategy: ExecutionStrategy,
    i: int,
)
    requires
        0 <= i < plan(adjustments, strategy).len(),
    ensures
        above(adjustments)[i].drift_bps > 0,
        below(adjustments)[i].drift_bps < 0,
        plan(adjustments, strategy)[i].asset_to_sell == above(adjustments)[i].asset,
        plan(adjustments, strategy)[i].asset_to_buy == below(adjustments)[i].asset,
        plan(adjustments, strategy)[i].amount_to_sell == 100_000_000 * above(
            adjustments,
        )[i].drift_bps,
{
    adjustments.lemma_filter_pred(|a: RebalanceAdjustment| a.drift_bps > 0, i);
    adjustments.lemma_filter_pred(|a: RebalanceAdjustment| a.drift_bps < 0, i);
    lemma_sold(above(adjustments)[i].drift_bps as int);
}

/// The faster a trade is, the less it buys.
pub proof fn speed_costs(sold: int)
    requires
        0 <= sold,
    ensures
        amount_bought(sold, Tradeoff::Time) <= amount_bought(sold, Tradeoff::Balanced),
        amount_bought(sold, Tradeoff::Balanced) <= amount_bought(sold, Tradeoff::Cost),
{
}

/// What is sold does not depend on the strategy.
pub proof fn strategies_sell_alike(
    adjustments: Seq<RebalanceAdjustment>,
    a: ExecutionStrategy,
    b: ExecutionStrategy,
)
    ensures
        plan(adjustments, a).len() == plan(adjustments, b).len(),
        total_fee(plan(adjustments, a)) == total_fee(plan(adjustments, b)),
        total_slippage(plan(adjustments, a)) == total_slippage(plan(adjustments, b)),
{
    lemma_same_sales(plan(adjustments, a), plan(adjustments, b));
}

proof fn lemma_same_sales(a: Seq<Trade>, b: Seq<Trade>)
    requires
        a.len() == b.len(),
        forall|i: int|
            0 <= i < a.len() ==> (#[trigger] a[i]).asset_to_sell == b[i].asset_to_sell
                && a[i].asset_to_buy == b[i].asset_to_buy && a[i].amount_to_sell
                == b[i].amount_to_sell,
    ensures
        total_fee(a) == total_fee(b),
        total_slippage(a) == total_slippage(b),
    decreases a.len(),
{
    if a.len() > 0 {
        let n = a.len() - 1;
        assert(a[n].asset_to_sell == b[n].asset_to_sell);
        assert forall|i: int| 0 <= i < n implies (
        #[trigger] a.drop_last()[i]).asset_to_sell == b.drop_last()[i].asset_to_sell
            && a.drop_last()[i].asset_to_buy == b.drop_last()[i].asset_to_buy
            && a.drop_last()[i].amount_to_sell == b.drop_last()[i].amount_to_sell by {
            assert(a.drop_last()[i] == a[i]);
        }
        lemma_same_sales(a.drop_last(), b.drop_last());
    }
}

/// The fee on a trade is a rate of what is sold, in ten-thousandths and
/// rounded down: 20 for BTC, 25 for ETH, 5 for USDC, and 30 for every other
/// asset. A trade of 10,000 units or more is never free.
pub proof fn every_sale_bears_its_fee(trade: Trade)
    ensures
        ({
            let (sold, fee) = (trade.amount_to_sell as int, trade_fee(trade));
            let asset = trade.asset_to_sell;
            let btc = values::symbol_of(seq!['B', 'T', 'C']);
            let eth = values::symbol_of(seq!['E', 'T', 'H']);
            let usdc = values::symbol_of(seq!['U', 'S', 'D', 'C']);
            &&& asset == btc ==> fee * 10_000 <= sold * 20 < (fee + 1) * 10_000
            &&& asset == eth ==> fee * 10_000 <= sold * 25 < (fee + 1) * 10_000
            &&& asset == usdc ==> fee * 10_000 <= sold * 5 < (fee + 1) * 10_000
            &&& asset != btc && asset != eth && asset != usdc ==> fee * 10_000 <= sold * 30 < (fee
                + 1) * 10_000
            &&& sold >= 10_000 ==> fee > 0
        }),
{
    lemma_asset_names();
}

proof fn lemma_asset_names()
    ensures
        "BTC"@ == seq!['B', 'T', 'C'],
        "ETH"@ == seq!['E', 'T', 'H'],
        "USDC"@ == seq!['U', 'S', 'D', 'C'],
        values::symbol_of("BTC"@) != values::symbol_of("ETH"@),
        values::symbol_of("BTC"@) != values::symbol_of("USDC"@),
        values::symbol_of("ETH"@) != values::symbol_of("USDC"@),
{
    reveal_strlit("BTC");
    reveal_strlit("ETH");
    reveal_strlit("USDC");
    assert("BTC"@ =~= seq!['B', 'T', 'C']);
    assert("ETH"@ =~= seq!['E', 'T', 'H']);
    assert("USDC"@ =~= seq!['U', 'S', 'D', 'C']);
    values::symbol_reads_back("BTC"@);
    values::symbol_reads_back("ETH"@);
    values::symbol_reads_back("USDC"@);
    assert("BTC"@[0] != "ETH"@[0]);
    assert("BTC"@.len() != "USDC"@.len());
    assert("ETH"@.len() != "USDC"@.len());
}

/// Fees and slippage are sums over the trades.
pub proof fn fees_and_slippage_add_up(a: Seq<Trade>, b: Seq<Trade>, t: Trade)
    ensures
        total_fee(seq![t]) == trade_fee(t),
        total_fee(a + b) == total_fee(a) + total_fee(b),
        total_slippage(seq![t]) == slippage(
            t.asset_to_sell,
            t.asset_to_buy,
            t.amount_to_sell as int,
        ),
        total_slippage(a + b) == total_slippage(a) + total_slippage(b),
    decreases b.len(),
{
    reveal_with_fuel(total_fee, 2);
    reveal_with_fuel(total_slippage, 2);
    assert(seq![t].drop_last() =~= Seq::<Trade>::empty());
    if b.len() == 0 {
        assert(a + b =~= a);
    } else {
        fees_and_slippage_add_up(a, b.drop_last(), t);
        assert((a + b).drop_last() =~= a + b.drop_last());
        assert((a + b).last() == b.last());
    }
}

/// A plan with a trade of 10,000 units or more has a fee above zero.
pub proof fn plans_are_not_free(trades: Seq<Trade>, i: int)
    requires
        0 <= i < trades.len(),
        trades[i].amount_to_sell >= 10_000,
    ensures
        total_fee(trades) > 0,
{
    every_sale_bears_its_fee(trades[i]);
    assert(trades =~= trades.take(i) + (seq![trades[i]] + trades.skip(i + 1)));
    fees_and_slippage_add_up(trades.take(i), seq![trades[i]] + trades.skip(i + 1), trades[i]);
    fees_and_slippage_add_up(seq![trades[i]], trades.skip(i + 1), trades[i]);
    lemma_fees_are_not_negative(trades.take(i));
    lemma_fees_are_not_negative(trades.skip(i + 1));
}

proof fn lemma_fees_are_not_negative(trades: Seq<Trade>)
    ensures
        total_fee(trades) >= 0,
    decreases trades.len(),
{
    if trades.len() > 0 {
        lemma_fees_are_not_negative(trades.drop_last());
        every_sale_bears_its_fee(trades.last());
    }
}

/// The slippage of a trade grows with what is sold: for each million units by
/// 10 when BTC, by 15 when ETH is sold for USDC, by 1 when USDC is sold for
/// BTC, and by 20 for every other pair, rounded down; what 32 bits do not hold
/// is cut off.
pub proof fn slippage_grows_with_the_sale(sell: Symbol, buy: Symbol, amount: int)
    requires
        amount >= 0,
    ensures
        ({
            let btc = values::symbol_of(seq!['B', 'T', 'C']);
            let eth = values::symbol_of(seq!['E', 'T', 'H']);
            let usdc = values::symbol_of(seq!['U', 'S', 'D', 'C']);
            let part = slippage(sell, buy, amount);
            let factor = if sell == btc && buy == usdc {
                10int
            } else if sell == eth && buy == usdc {
                15
            } else if sell == usdc && buy == btc {
                1
            } else {
                20
            };
            &&& 0 <= part < 0x1_0000_0000
            &&& amount * factor < 0x1_0000_0000 * 1_000_000 ==> part * 1_000_000 <= amount * factor
                < (part + 1) * 1_000_000
        }),
{
    lemma_asset_names();
    let factor = slippage_factor(sell, buy) as int;
    let whole = amount * factor / 1_000_000;
    assert(amount * factor >= 0) by (nonlinear_arith)
        requires
            amount >= 0,
            factor >= 0,
    ;
    if whole < 0x1_0000_0000 {
        assert(whole % 0x1_0000_0000 == whole);
    }
}

/// What is bought is what is sold at its price of 50,000; a fast trade gives
/// up a hundredth of that, and a balanced one five thousandths, rounded down.
pub proof fn speed_has_its_price(sold: int)
    requires
        0 <= sold,
    ensures
        amount_bought(sold, Tradeoff::Cost) == sold * 50_000,
        amount_bought(sold, Tradeoff::Time) * 100 <= sold * 50_000 * 99 < (amount_bought(
            sold,
            Tradeoff::Time,
        ) + 1) * 100,
        amount_bought(sold, Tradeoff::Balanced) * 1000 <= sold * 50_000 * 995 < (amount_bought(
            sold,
            Tradeoff::Balanced,
        ) + 1) * 1000,
{
}

/// An asset counts as above its target where it drifted up at all, and as
/// below where it drifted down at all, in the order of the adjustments.
pub proof fn every_drift_counts(adjustments: Seq<RebalanceAdjustment>, a: RebalanceAdjustment)
    ensures
        above(adjustments.push(a)) == (if a.drift_bps > 0 {
            above(adjustments).push(a)
        } else {
            above(adjustments)
        }),
        below(adjustments.push(a)) == (if a.drift_bps < 0 {
            below(adjustments).push(a)
        } else {
            below(adjustments)
        }),
        above(Seq::empty()).len() == 0,
        below(Seq::empty()).len() == 0,
{
    let longer = adjustments.push(a);
    let over = |b: RebalanceAdjustment| b.drift_bps > 0;
    let under = |b: RebalanceAdjustment| b.drift_bps < 0;
    let n = adjustments.len() as int;
    table::lemma_filter_step(longer, n, over);
    table::lemma_filter_step(longer, n, under);
    table::lemma_filter_none(longer, over);
    table::lemma_filter_none(longer, under);
    assert(longer.take(n) =~= adjustments);
    assert(longer.take(n + 1) =~= longer);
    assert(longer.take(0) =~= Seq::<RebalanceAdjustment>::empty());
}

/// A plan has a trade for every pair of an asset above and one below its
/// target, taken in order. What each sells is the drift's share of the
/// portfolio; what it is expected to buy follows from the strategy.
pub proof fn plans_pair_the_drifts(
    adjustments: Seq<RebalanceAdjustment>,
    strategy: ExecutionStrategy,
    i: int,
)
    ensures
        plan(adjustments, strategy).len() <= above(adjustments).len(),
        plan(adjustments, strategy).len() <= below(adjustments).len(),
        plan(adjustments, strategy).len() == above(adjustments).len() || plan(
            adjustments,
            strategy,
        ).len() == below(adjustments).len(),
        0 <= i < plan(adjustments, strategy).len() ==> {
            let trade = plan(adjustments, strategy)[i];
            let base = trade.amount_to_sell * 50_000;
            &&& trade.asset_to_sell == above(adjustments)[i].asset
            &&& trade.asset_to_buy == below(adjustments)[i].asset
            &&& trade.amount_to_sell * 10_000 == 1_000_000_000_000 * above(adjustments)[i].drift_bps
            &&& strategy == ExecutionStrategy::MinimalCost ==> trade.expected_amount_to_buy == base
            &&& strategy == ExecutionStrategy::MinimalTime ==> trade.expected_amount_to_buy * 100
                <= base * 99 < (trade.expected_amount_to_buy + 1) * 100
            &&& strategy == ExecutionStrategy::Balanced ==> trade.expected_amount_to_buy * 1000
                <= base * 995 < (trade.expected_amount_to_buy + 1) * 1000
        },
{
    if 0 <= i < plan(adjustments, strategy).len() {
        trades_close_the_gaps(adjustments, strategy, i);
        lemma_sold(above(adjustments)[i].drift_bps as int);
    }
}

/// Each trade is noted with the part of the whole fee and of the whole
/// slippage that its units bear, for a million units all of it, rounded down.
pub proof fn notes_share_fee_and_slippage(trades: Seq<Trade>, i: int)
    requires
        0 <= i < trades.len(),
        notable(trades),
    ensures
        notes(trades).len() == trades.len(),
        notes(trades)[i].trade == trades[i],
        notes(trades)[i].fee * 1_000_000 <= total_fee(trades) * trades[i].amount_to_sell < (notes(
            trades,
        )[i].fee + 1) * 1_000_000,
        total_slippage(trades) >= 0 ==> notes(trades)[i].slippage_bps * 1_000_000
            <= total_slippage(trades) * trades[i].amount_to_sell < (notes(trades)[i].slippage_bps
            + 1) * 1_000_000,
{
    lemma_fees_are_not_negative(trades);
    let (f, s, a) = (total_fee(trades), total_slippage(trades), trades[i].amount_to_sell as int);
    assert(f * a >= 0) by (nonlinear_arith)
        requires
            f >= 0,
            a >= 0,
    ;
    if s >= 0 {
        assert(s * a >= 0) by (nonlinear_arith)
            requires
                s >= 0,
                a >= 0,
        ;
    }
    assert(f * trades[i].amount_to_sell <= u128::MAX);
}

} // verus!
