//! The valuation contract.
use crate::fixed_point::SCALE;
use crate::host;
use crate::math;
use crate::table;
use crate::table::{OrderedTable, Table};
use crate::valuation::performance;
use crate::valuation::performance::PerfError;
use crate::valuation::records;
use crate::valuation::records::{
    AssetAllocation, PerformanceMetrics, PortfolioAsset, PortfolioReturns, PortfolioSnapshot,
    Valuation, ValuationError, ValuationHistoryEntry,
};
use crate::values;
use crate::values::Symbol;
use soroban_sdk::Env;
use vstd::prelude::*;

verus! {

/// The annualized risk-free rate where none was set: 4% in fixed
/// point.
pub const DEFAULT_RISK_FREE_RATE: i128 = 40_000_000_000;

/// The periods of a year where none were set: days.
pub const DEFAULT_ANNUALIZATION_PERIOD: u64 = 365;

/// All of a portfolio in basis points.
pub const WHOLE_BPS: u32 = 10_000;

/// Portfolios and their valuations.
pub struct ValuationContract {
    pub risk_free_rate: Option<i128>,
    pub annualization_period: Option<u64>,
    pub assets: Table<Symbol, Vec<PortfolioAsset>>,
    pub initial_investments: Table<Symbol, i128>,
    pub latest_snapshots: Table<Symbol, PortfolioSnapshot>,
    pub snapshots: Table<Symbol, Vec<PortfolioSnapshot>>,
    pub histories: Table<Symbol, Vec<ValuationHistoryEntry>>,
}

/// The contract's state as a value.
#[verifier::ext_equal]
pub struct ValuationLedger {
    pub risk_free_rate: Option<i128>,
    pub annualization_period: Option<u64>,
    pub assets: Map<Symbol, Seq<PortfolioAsset>>,
    pub initial_investments: Map<Symbol, i128>,
    pub latest_snapshots: Map<Symbol, PortfolioSnapshot>,
    pub snapshots: Map<Symbol, Seq<PortfolioSnapshot>>,
    pub histories: Map<Symbol, Seq<Valuation>>,
}

/// Histories as values.
pub open spec fn history_values(histories: Map<Symbol, Seq<ValuationHistoryEntry>>) -> Map<
    Symbol,
    Seq<Valuation>,
> {
    histories.map_values(|entries: Seq<ValuationHistoryEntry>| records::valuations(entries))
}

impl View for ValuationContract {
    type V = ValuationLedger;

    open spec fn view(&self) -> ValuationLedger {
        ValuationLedger {
            risk_free_rate: self.risk_free_rate,
            annualization_period: self.annualization_period,
            assets: table::lists(self.assets@),
            initial_investments: self.initial_investments@,
            latest_snapshots: self.latest_snapshots@,
            snapshots: table::lists(self.snapshots@),
            histories: history_values(table::lists(self.histories@)),
        }
    }
}

/// What a holding is worth.
pub open spec fn market_value(a: PortfolioAsset) -> int {
    a.quantity * a.current_price
}

/// What a holding cost.
pub open spec fn cost(a: PortfolioAsset) -> int {
    a.quantity * a.cost_basis
}

/// What each holding is worth.
pub open spec fn market_values(assets: Seq<PortfolioAsset>) -> Seq<int> {
    Seq::new(assets.len(), |i: int| market_value(assets[i]))
}

/// What each holding cost.
pub open spec fn costs(assets: Seq<PortfolioAsset>) -> Seq<int> {
    Seq::new(assets.len(), |i: int| cost(assets[i]))
}

/// Whether 128 signed bits hold each of the numbers.
pub open spec fn all_fit(numbers: Seq<int>) -> bool {
    forall|i: int| 0 <= i < numbers.len() ==> math::fits(#[trigger] numbers[i])
}

/// A sum that goes to the upper limit where a partial sum leaves the range.
pub open spec fn capped_sum(numbers: Seq<int>) -> int
    decreases numbers.len(),
{
    if numbers.len() == 0 {
        0
    } else {
        let sum = capped_sum(numbers.drop_last()) + numbers.last();
        if math::fits(sum) {
            sum
        } else {
            i128::MAX as int
        }
    }
}

/// The plain sum.
pub open spec fn sum(numbers: Seq<int>) -> int
    decreases numbers.len(),
{
    if numbers.len() == 0 {
        0
    } else {
        sum(numbers.drop_last()) + numbers.last()
    }
}

/// The value of a portfolio.
pub open spec fn portfolio_value(assets: Seq<PortfolioAsset>) -> int {
    capped_sum(market_values(assets))
}

/// The position of an asset; the length where it is not held.
pub open spec fn asset_at(assets: Seq<PortfolioAsset>, asset: Symbol) -> int
    decreases assets.len(),
{
    if assets.len() == 0 || assets[0].asset == asset {
        0
    } else {
        1 + asset_at(assets.drop_first(), asset)
    }
}

/// Holdings with one replaced, or added where it was not held.
pub open spec fn with_asset(assets: Seq<PortfolioAsset>, a: PortfolioAsset) -> Seq<
    PortfolioAsset,
> {
    let at = asset_at(assets, a.asset);
    if at < assets.len() {
        assets.update(at, a)
    } else {
        assets.push(a)
    }
}

/// The part of a total that a value is, in basis points rounded down. A value
/// below nothing, or one so large that its ten-thousandfold leaves the range,
/// is no part.
pub open spec fn part(value: int, total: int) -> int {
    if 0 <= value && math::fits(value * WHOLE_BPS) {
        value * WHOLE_BPS / total
    } else {
        0
    }
}

/// How much of the whole the first holdings have: their parts, as long as
/// there is something left.
pub open spec fn allotted(assets: Seq<PortfolioAsset>, total: int) -> int
    decreases assets.len(),
{
    if assets.len() == 0 {
        0
    } else {
        math::least(
            allotted(assets.drop_last(), total) + part(market_value(assets.last()), total),
            WHOLE_BPS as int,
        )
    }
}

/// The share of a holding: its part of the total, as far as the holdings
/// before it leave that much; the last one has all that is left.
pub open spec fn share(assets: Seq<PortfolioAsset>, i: int) -> int {
    let total = portfolio_value(assets);
    let with = if i == assets.len() - 1 {
        WHOLE_BPS as int
    } else {
        allotted(assets.take(i + 1), total)
    };
    with - allotted(assets.take(i), total)
}

/// The shares of the holdings.
pub open spec fn shares(assets: Seq<PortfolioAsset>) -> Seq<AssetAllocation> {
    Seq::new(
        assets.len(),
        |i: int|
            AssetAllocation {
                asset: assets[i].asset,
                market_value: market_value(assets[i]) as i128,
                allocation_bps: share(assets, i) as u32,
            },
    )
}

/// What each asset is worth.
pub open spec fn asset_values(assets: Seq<PortfolioAsset>) -> Map<Symbol, i128>
    decreases assets.len(),
{
    if assets.len() == 0 {
        Map::empty()
    } else {
        asset_values(assets.drop_last()).insert(
            assets.last().asset,
            market_value(assets.last()) as i128,
        )
    }
}

/// The total values of a history.
pub open spec fn total_values(history: Seq<Valuation>) -> Seq<i128> {
    Seq::new(history.len(), |i: int| history[i].total_value)
}

/// The return of each period that started from something.
pub open spec fn period_gains(values: Seq<i128>) -> Result<Seq<i128>, PerfError>
    decreases values.len(),
{
    if values.len() <= 1 {
        Ok(Seq::empty())
    } else {
        match period_gains(values.drop_last()) {
            Err(e) => Err(e),
            Ok(gains) => {
                let start = values[values.len() - 2];
                if start <= 0 {
                    Ok(gains)
                } else {
                    match performance::ratio(values.last() - start, start as int) {
                        Err(e) => Err(e),
                        Ok(gain) => Ok(gains.push(gain)),
                    }
                }
            },
        }
    }
}

/// The metrics of a series of valuations.
pub open spec fn metrics(values: Seq<i128>, rate: int, periods: int) -> Result<
    PerformanceMetrics,
    PerfError,
> {
    if values.len() < 2 {
        Err(PerfError::InsufficientData)
    } else {
        match period_gains(values) {
            Err(e) => Err(e),
            Ok(gains) => match (
                performance::sharpe(gains, rate, periods),
                performance::sortino(gains, rate, periods),
                performance::drawdown(values),
                performance::weighted(values),
            ) {
                (Err(e), _, _, _) => Err(e),
                (_, Err(e), _, _) => Err(e),
                (_, _, Err(e), _) => Err(e),
                (_, _, _, Err(e)) => Err(e),
                (
                    Ok(sharpe_ratio),
                    Ok(sortino_ratio),
                    Ok(max_drawdown),
                    Ok(time_weighted_return),
                ) => Ok(
                    PerformanceMetrics {
                        sharpe_ratio,
                        sortino_ratio,
                        max_drawdown,
                        time_weighted_return,
                    },
                ),
            },
        }
    }
}

/// Metrics are refused for want of data where there are fewer than two
/// valuations, and only there.
pub proof fn two_valuations_are_enough(values: Seq<i128>, rate: int, periods: int)
    ensures
        metrics(values, rate, periods) == Err::<PerformanceMetrics, PerfError>(
            PerfError::InsufficientData,
        ) <==> values.len() < 2,
{
    if values.len() >= 2 {
        lemma_gains_are_long_enough(values);
        performance::lemma_series_are_long_enough(values);
    }
}

proof fn lemma_gains_are_long_enough(values: Seq<i128>)
    ensures
        period_gains(values) != Err::<Seq<i128>, PerfError>(PerfError::InsufficientData),
    decreases values.len(),
{
    if values.len() > 0 {
        lemma_gains_are_long_enough(values.drop_last());
    }
}

/// How one snapshot differs from another.
pub open spec fn evolution(older: PortfolioSnapshot, newer: PortfolioSnapshot) -> Result<
    (i128, i128, u64),
    ValuationError,
> {
    let change = newer.total_value - older.total_value;
    let elapsed = if newer.timestamp >= older.timestamp {
        (newer.timestamp - older.timestamp) as u64
    } else {
        0
    };
    if !math::fits(change) {
        Err(ValuationError::MathError)
    } else if older.total_value <= 0 {
        Ok((change as i128, 0, elapsed))
    } else {
        match performance::ratio(change, older.total_value as int) {
            Err(e) => Err(records::refusal(e)),
            Ok(fraction) => Ok((change as i128, fraction, elapsed)),
        }
    }
}

impl ValuationLedger {
    /// The holdings of a portfolio.
    pub open spec fn holdings(self, portfolio_id: Symbol) -> Seq<PortfolioAsset> {
        table::list_at(self.assets, portfolio_id)
    }

    /// The value of a portfolio.
    pub open spec fn value(self, portfolio_id: Symbol) -> int {
        portfolio_value(self.holdings(portfolio_id))
    }

    /// Whether each holding's value is in range.
    pub open spec fn valued(self, portfolio_id: Symbol) -> bool {
        all_fit(market_values(self.holdings(portfolio_id)))
    }

    /// Whether what a snapshot records of a portfolio is in range.
    pub open spec fn recordable(self, portfolio_id: Symbol) -> bool {
        let assets = self.holdings(portfolio_id);
        &&& self.valued(portfolio_id)
        &&& all_fit(costs(assets))
        &&& capped_sum(costs(assets)) > 0 ==> math::fits(
            portfolio_value(assets) - capped_sum(costs(assets)),
        )
        &&& assets.len() <= u32::MAX
    }

    /// What was put into a portfolio.
    pub open spec fn investment(self, portfolio_id: Symbol) -> i128 {
        table::value_or(self.initial_investments, portfolio_id, 0)
    }

    /// The risk-free rate that is used.
    pub open spec fn rate(self) -> i128 {
        match self.risk_free_rate {
            Some(rate) => rate,
            None => DEFAULT_RISK_FREE_RATE,
        }
    }

    /// The periods of a year that are used.
    pub open spec fn periods(self) -> u64 {
        match self.annualization_period {
            Some(periods) => periods,
            None => DEFAULT_ANNUALIZATION_PERIOD,
        }
    }

    /// The return on the initial investment.
    pub open spec fn gains(self, portfolio_id: Symbol) -> Result<
        PortfolioReturns,
        ValuationError,
    > {
        let initial = self.investment(portfolio_id);
        let value = self.value(portfolio_id);
        if initial == 0 {
            Err(ValuationError::ZeroInitialInvestment)
        } else if value == 0 {
            Err(ValuationError::EmptyPortfolio)
        } else if !math::fits(value - initial) {
            Err(ValuationError::MathError)
        } else {
            match performance::ratio(value - initial, initial as int) {
                Err(e) => Err(records::refusal(e)),
                Ok(fraction) => Ok(
                    PortfolioReturns {
                        absolute_return: (value - initial) as i128,
                        percentage_return: fraction,
                    },
                ),
            }
        }
    }

    /// A snapshot of a portfolio.
    pub open spec fn snapshot(self, portfolio_id: Symbol, now: u64) -> PortfolioSnapshot {
        let held = self.holdings(portfolio_id);
        PortfolioSnapshot {
            timestamp: now,
            total_value: portfolio_value(held) as i128,
            total_cost_basis: capped_sum(costs(held)) as i128,
            asset_count: held.len() as u32,
        }
    }

    /// A valuation of a portfolio: its gain counts where it cost something.
    pub open spec fn valuation(self, portfolio_id: Symbol, now: u64) -> Valuation {
        let held = self.holdings(portfolio_id);
        let value = portfolio_value(held);
        let spent = capped_sum(costs(held));
        Valuation {
            timestamp: now,
            total_value: value as i128,
            absolute_return: if spent > 0 {
                (value - spent) as i128
            } else {
                0
            },
            percentage_return: if spent > 0 {
                match performance::ratio(value - spent, spent) {
                    Ok(fraction) => fraction,
                    Err(_) => 0,
                }
            } else {
                0
            },
            asset_values: asset_values(held),
        }
    }

    /// The state after a snapshot.
    pub open spec fn recorded(self, portfolio_id: Symbol, now: u64) -> ValuationLedger {
        let taken = self.snapshot(portfolio_id, now);
        ValuationLedger {
            latest_snapshots: self.latest_snapshots.insert(portfolio_id, taken),
            snapshots: self.snapshots.insert(
                portfolio_id,
                table::list_at(self.snapshots, portfolio_id).push(taken),
            ),
            histories: self.histories.insert(
                portfolio_id,
                table::list_at(self.histories, portfolio_id).push(
                    self.valuation(portfolio_id, now),
                ),
            ),
            ..self
        }
    }

    /// How two snapshots of a portfolio differ.
    pub open spec fn comparison(self, portfolio_id: Symbol, older: int, newer: int) -> Result<
        (i128, i128, u64),
        ValuationError,
    > {
        let taken = table::list_at(self.snapshots, portfolio_id);
        if older >= taken.len() || newer >= taken.len() || older >= newer {
            Err(ValuationError::InsufficientData)
        } else {
            evolution(taken[older], taken[newer])
        }
    }
}

/// Whether the per-asset values of each entry can be looked up.
pub open spec fn histories_wf(histories: Map<Symbol, Seq<ValuationHistoryEntry>>) -> bool {
    forall|id: Symbol, i: int|
        histories.contains_key(id) && 0 <= i < histories[id].len() ==> (
        #[trigger] histories[id][i]).asset_values.wf()
}

proof fn lemma_capped_sum_step(numbers: Seq<int>, i: int)
    requires
        0 <= i < numbers.len(),
    ensures
        capped_sum(numbers.take(i + 1)) == ({
            let s = capped_sum(numbers.take(i)) + numbers[i];
            if math::fits(s) {
                s
            } else {
                i128::MAX as int
            }
        }),
{
    assert(numbers.take(i + 1).drop_last() =~= numbers.take(i));
    assert(numbers.take(i + 1).last() == numbers[i]);
}

proof fn lemma_asset_at(assets: Seq<PortfolioAsset>, asset: Symbol, at: int)
    requires
        0 <= at <= assets.len(),
        forall|j: int| 0 <= j < at ==> (#[trigger] assets[j]).asset != asset,
        at < assets.len() ==> assets[at].asset == asset,
    ensures
        asset_at(assets, asset) == at,
    decreases at,
{
    if at > 0 {
        let rest = assets.drop_first();
        assert(assets[0].asset != asset);
        assert forall|j: int| 0 <= j < at - 1 implies (#[trigger] rest[j]).asset != asset by {
            assert(rest[j] == assets[j + 1]);
        }
        lemma_asset_at(rest, asset, at - 1);
    }
}

/// Where an asset stands among holdings.
fn find_asset(assets: &Vec<PortfolioAsset>, asset: Symbol) -> (at: usize)
    ensures
        at == asset_at(assets@, asset),
        at <= assets@.len(),
{
    let mut i: usize = 0;
    while i < assets.len()
        invariant
            i <= assets@.len(),
            forall|j: int| 0 <= j < i ==> (#[trigger] assets@[j]).asset != asset,
        decreases assets@.len() - i,
    {
        if assets[i].asset == asset {
            proof {
                lemma_asset_at(assets@, asset, i as int);
            }
            return i;
        }
        i += 1;
    }
    proof {
        lemma_asset_at(assets@, asset, i as int);
    }
    i
}

/// Whether the value of each holding is in range.
fn values_fit(assets: &Vec<PortfolioAsset>) -> (b: bool)
    ensures
        b == all_fit(market_values(assets@)),
{
    let ghost numbers = market_values(assets@);
    let mut i: usize = 0;
    while i < assets.len()
        invariant
            i <= assets@.len(),
            numbers == market_values(assets@),
            forall|j: int| 0 <= j < i ==> math::fits(#[trigger] numbers[j]),
        decreases assets@.len() - i,
    {
        if assets[i].quantity.checked_mul(assets[i].current_price).is_none() {
            assert(!math::fits(numbers[i as int]));
            return false;
        }
        i += 1;
    }
    true
}

/// Whether the cost of each holding is in range.
fn costs_fit(assets: &Vec<PortfolioAsset>) -> (b: bool)
    ensures
        b == all_fit(costs(assets@)),
{
    let ghost numbers = costs(assets@);
    let mut i: usize = 0;
    while i < assets.len()
        invariant
            i <= assets@.len(),
            numbers == costs(assets@),
            forall|j: int| 0 <= j < i ==> math::fits(#[trigger] numbers[j]),
        decreases assets@.len() - i,
    {
        if assets[i].quantity.checked_mul(assets[i].cost_basis).is_none() {
            assert(!math::fits(numbers[i as int]));
            return false;
        }
        i += 1;
    }
    true
}

/// The value of holdings.
fn sum_values(assets: &Vec<PortfolioAsset>) -> (total: i128)
    requires
        all_fit(market_values(assets@)),
    ensures
        total == portfolio_value(assets@),
{
    let ghost numbers = market_values(assets@);
    let mut total: i128 = 0;
    let mut i: usize = 0;
    assert(numbers.take(0) =~= Seq::<int>::empty());
    while i < assets.len()
        invariant
            i <= assets@.len(),
            numbers == market_values(assets@),
            all_fit(numbers),
            total == capped_sum(numbers.take(i as int)),
        decreases assets@.len() - i,
    {
        assert(math::fits(numbers[i as int]));
        let value = assets[i].quantity * assets[i].current_price;
        proof {
            lemma_capped_sum_step(numbers, i as int);
        }
        total = match total.checked_add(value) {
            Some(s) => s,
            None => i128::MAX,
        };
        i += 1;
    }
    assert(numbers.take(i as int) =~= numbers);
    total
}

/// The cost of holdings: quantity times cost for each.
fn calculate_total_cost_basis(assets: &Vec<PortfolioAsset>) -> (total: i128)
    requires
        all_fit(costs(assets@)),
    ensures
        total == capped_sum(costs(assets@)),
{
    let ghost numbers = costs(assets@);
    let mut total: i128 = 0;
    let mut i: usize = 0;
    assert(numbers.take(0) =~= Seq::<int>::empty());
    while i < assets.len()
        invariant
            i <= assets@.len(),
            numbers == costs(assets@),
            all_fit(numbers),
            total == capped_sum(numbers.take(i as int)),
        decreases assets@.len() - i,
    {
        assert(math::fits(numbers[i as int]));
        let spent = assets[i].quantity * assets[i].cost_basis;
        proof {
            lemma_capped_sum_step(numbers, i as int);
        }
        total = match total.checked_add(spent) {
            Some(s) => s,
            None => i128::MAX,
        };
        i += 1;
    }
    assert(numbers.take(i as int) =~= numbers);
    total
}

/// The part of a total that a value is.
fn part_of(value: i128, total: i128) -> (bps: i128)
    requires
        total > 0,
    ensures
        bps == part(value as int, total as int),
        bps >= 0,
{
    if value < 0 {
        return 0;
    }
    match value.checked_mul(WHOLE_BPS as i128) {
        Some(scaled) => {
            proof {
                math::lemma_quot_shrinks(scaled as int, total as int);
            }
            scaled / total
        },
        None => 0,
    }
}

/// The parts of holdings never shrink what is allotted, nor exceed the whole.
proof fn lemma_allotted_grows(assets: Seq<PortfolioAsset>, total: int, i: int)
    requires
        0 <= i < assets.len(),
        0 < total,
    ensures
        0 <= allotted(assets.take(i), total) <= allotted(assets.take(i + 1), total) <= WHOLE_BPS,
        allotted(assets.take(i + 1), total) == math::least(
            allotted(assets.take(i), total) + part(market_value(assets[i]), total),
            WHOLE_BPS as int,
        ),
    decreases i,
{
    assert(assets.take(i + 1).drop_last() =~= assets.take(i));
    assert(assets.take(i + 1).last() == assets[i]);
    let value = market_value(assets[i]);
    if 0 <= value {
        assert(0 <= value * WHOLE_BPS / total) by (nonlinear_arith)
            requires
                0 <= value,
                0 < total,
        ;
    }
    if i > 0 {
        lemma_allotted_grows(assets, total, i - 1);
    } else {
        assert(assets.take(0).len() == 0);
    }
}

/// The shares of holdings that are worth more than nothing.
fn allocate(assets: &Vec<PortfolioAsset>, total: i128) -> (result: Vec<AssetAllocation>)
    requires
        assets@.len() > 0,
        all_fit(market_values(assets@)),
        total == portfolio_value(assets@),
        total > 0,
    ensures
        result@ == shares(assets@),
{
    let ghost numbers = market_values(assets@);
    let ghost all = shares(assets@);
    let mut result: Vec<AssetAllocation> = Vec::new();
    let mut allocated: u32 = 0;
    let mut i: usize = 0;
    while i < assets.len()
        invariant
            i <= assets@.len(),
            all == shares(assets@),
            numbers == market_values(assets@),
            all_fit(numbers),
            total == portfolio_value(assets@),
            total > 0,
            result@ == all.take(i as int),
            allocated <= WHOLE_BPS,
            i < assets@.len() ==> allocated == allotted(assets@.take(i as int), total as int),
        decreases assets@.len() - i,
    {
        assert(math::fits(numbers[i as int]));
        let value = assets[i].quantity * assets[i].current_price;
        proof {
            lemma_allotted_grows(assets@, total as int, i as int);
        }
        let left = WHOLE_BPS - allocated;
        let parts = part_of(value, total);
        let bps = if i == assets.len() - 1 || parts > left as i128 {
            left
        } else {
            parts as u32
        };
        allocated = allocated + bps;
        result.push(
            AssetAllocation { asset: assets[i].asset, market_value: value, allocation_bps: bps },
        );
        i += 1;
        assert(result@ =~= all.take(i as int));
    }
    assert(all.take(i as int) =~= all);
    result
}

/// The values of holdings by asset.
fn value_by_asset(assets: &Vec<PortfolioAsset>) -> (by_asset: OrderedTable<Symbol, i128>)
    requires
        all_fit(market_values(assets@)),
    ensures
        by_asset.wf(),
        by_asset.view() == asset_values(assets@),
{
    let ghost numbers = market_values(assets@);
    let mut by_asset: OrderedTable<Symbol, i128> = OrderedTable::new();
    let mut i: usize = 0;
    assert(assets@.take(0) =~= Seq::<PortfolioAsset>::empty());
    while i < assets.len()
        invariant
            i <= assets@.len(),
            numbers == market_values(assets@),
            all_fit(numbers),
            by_asset.wf(),
            by_asset.view() == asset_values(assets@.take(i as int)),
        decreases assets@.len() - i,
    {
        assert(math::fits(numbers[i as int]));
        let value = assets[i].quantity * assets[i].current_price;
        assert(assets@.take(i + 1).drop_last() =~= assets@.take(i as int));
        by_asset.set(assets[i].asset, value);
        i += 1;
    }
    assert(assets@.take(i as int) =~= assets@);
    by_asset
}

/// A failure in a part of the series is one of the whole.
proof fn lemma_period_gains_fail(values: Seq<i128>, k: int)
    requires
        0 <= k <= values.len(),
        period_gains(values.take(k)) is Err,
    ensures
        period_gains(values) is Err,
        period_gains(values)->Err_0 == period_gains(values.take(k))->Err_0,
    decreases values.len() - k,
{
    if k == values.len() {
        assert(values.take(k) =~= values);
    } else {
        assert(values.take(k + 1).drop_last() =~= values.take(k));
        lemma_period_gains_fail(values, k + 1);
    }
}

/// There is at most one gain per period.
proof fn lemma_period_gains_len(values: Seq<i128>)
    ensures
        period_gains(values) matches Ok(gains) ==> gains.len() <= values.len(),
    decreases values.len(),
{
    if values.len() > 1 {
        lemma_period_gains_len(values.drop_last());
    }
}

/// The total values of a history, in a host vector.
fn collect_values(env: &Env, history: &Vec<ValuationHistoryEntry>) -> (values: soroban_sdk::Vec<
    i128,
>)
    requires
        history@.len() <= u32::MAX,
    ensures
        host::numbers(values) == total_values(records::valuations(history@)),
{
    let ghost all = total_values(records::valuations(history@));
    let mut values = host::no_numbers(env);
    let mut i: usize = 0;
    while i < history.len()
        invariant
            i <= history@.len() <= u32::MAX,
            all == total_values(records::valuations(history@)),
            host::numbers(values) == all.take(i as int),
        decreases history@.len() - i,
    {
        host::push_number(&mut values, history[i].total_value);
        i += 1;
        assert(all.take(i as int) =~= all.take(i - 1).push(all[i - 1]));
    }
    assert(all.take(i as int) =~= all);
    values
}

/// The return of each period of a history, in a host vector.
fn collect_gains(env: &Env, history: &Vec<ValuationHistoryEntry>) -> (r: Result<
    soroban_sdk::Vec<i128>,
    PerfError,
>)
    requires
        1 <= history@.len() <= u32::MAX,
    ensures
        match r {
            Ok(gains) => period_gains(total_values(records::valuations(history@))) == Ok::<
                Seq<i128>,
                PerfError,
            >(host::numbers(gains)),
            Err(e) => period_gains(total_values(records::valuations(history@))) == Err::<
                Seq<i128>,
                PerfError,
            >(e),
        },
{
    let ghost all = total_values(records::valuations(history@));
    let mut gains = host::no_numbers(env);
    let mut i: usize = 1;
    while i < history.len()
        invariant
            1 <= i <= history@.len() <= u32::MAX,
            all == total_values(records::valuations(history@)),
            period_gains(all.take(i as int)) == Ok::<Seq<i128>, PerfError>(host::numbers(gains)),
        decreases history@.len() - i,
    {
        let ghost next = all.take(i + 1);
        assert(next.drop_last() =~= all.take(i as int));
        assert(next.last() == all[i as int]);
        assert(next[next.len() - 2] == all[i - 1]);
        proof {
            lemma_period_gains_len(all.take(i as int));
        }
        let start = history[i - 1].total_value;
        let end = history[i].total_value;
        if start > 0 {
            let gain = match end.checked_sub(start) {
                Some(d) => performance::fp_div(d, start),
                None => {
                    assert(!math::fits((end - start) * SCALE));
                    Err(PerfError::Overflow)
                },
            };
            match gain {
                Err(e) => {
                    proof {
                        lemma_period_gains_fail(all, i + 1);
                    }
                    return Err(e);
                },
                Ok(g) => host::push_number(&mut gains, g),
            }
        }
        i += 1;
    }
    assert(all.take(i as int) =~= all);
    Ok(gains)
}

/// The metrics of a history.
fn measure(env: &Env, history: &Vec<ValuationHistoryEntry>, rate: i128, periods: u64) -> (r:
    Result<PerformanceMetrics, PerfError>)
    requires
        history@.len() <= u32::MAX,
    ensures
        r == metrics(
            total_values(records::valuations(history@)),
            rate as int,
            periods as int,
        ),
{
    if history.len() < 2 {
        return Err(PerfError::InsufficientData);
    }
    let gains = match collect_gains(env, history) {
        Ok(gains) => gains,
        Err(e) => return Err(e),
    };
    let sharpe_ratio = match performance::sharpe_ratio(&gains, rate, periods) {
        Ok(v) => v,
        Err(e) => return Err(e),
    };
    let sortino_ratio = match performance::sortino_ratio(&gains, rate, periods) {
        Ok(v) => v,
        Err(e) => return Err(e),
    };
    let values = collect_values(env, history);
    let max_drawdown = match performance::max_drawdown(&values) {
        Ok(v) => v,
        Err(e) => return Err(e),
    };
    let time_weighted_return = match performance::time_weighted_return(&values) {
        Ok(v) => v,
        Err(e) => return Err(e),
    };
    Ok(PerformanceMetrics { sharpe_ratio, sortino_ratio, max_drawdown, time_weighted_return })
}

/// The shares as numbers.
pub open spec fn share_sum(shares: Seq<AssetAllocation>) -> int
    decreases shares.len(),
{
    if shares.len() == 0 {
        0
    } else {
        share_sum(shares.drop_last()) + shares.last().allocation_bps
    }
}

/// A sum of numbers that are not negative grows with its terms.
proof fn lemma_sum_grows(numbers: Seq<int>, i: int)
    requires
        0 <= i <= numbers.len(),
        forall|j: int| 0 <= j < numbers.len() ==> 0 <= #[trigger] numbers[j],
    ensures
        0 <= sum(numbers.take(i)) <= sum(numbers),
        i < numbers.len() ==> sum(numbers.take(i)) + numbers[i] <= sum(numbers),
    decreases numbers.len(),
{
    if numbers.len() == 0 {
        assert(numbers.take(i) =~= numbers);
    } else {
        let before = numbers.drop_last();
        assert forall|j: int| 0 <= j < before.len() implies 0 <= #[trigger] before[j] by {
            assert(before[j] == numbers[j]);
        }
        assert(numbers.last() == numbers[numbers.len() - 1]);
        if i == numbers.len() {
            assert(numbers.take(i) =~= numbers);
            lemma_sum_grows(before, before.len() as int);
            assert(before.take(before.len() as int) =~= before);
        } else {
            lemma_sum_grows(before, i);
            assert(numbers.take(i) =~= before.take(i));
            if i == before.len() {
                assert(before.take(i) =~= before);
            } else {
                assert(numbers[i] == before[i]);
            }
        }
    }
}

/// A sum that stays in range is not capped.
proof fn lemma_sum_is_not_capped(numbers: Seq<int>)
    requires
        forall|j: int| 0 <= j < numbers.len() ==> 0 <= #[trigger] numbers[j],
        math::fits(sum(numbers)),
    ensures
        capped_sum(numbers) == sum(numbers),
    decreases numbers.len(),
{
    if numbers.len() > 0 {
        let before = numbers.drop_last();
        assert forall|j: int| 0 <= j < before.len() implies 0 <= #[trigger] before[j] by {
            assert(before[j] == numbers[j]);
        }
        lemma_sum_grows(numbers, numbers.len() - 1);
        assert(numbers.take(numbers.len() - 1) =~= before);
        lemma_sum_is_not_capped(before);
    }
}

proof fn lemma_shares_up_to(assets: Seq<PortfolioAsset>, i: int)
    requires
        0 <= i < assets.len(),
        portfolio_value(assets) > 0,
    ensures
        share_sum(shares(assets).take(i)) == allotted(assets.take(i), portfolio_value(assets)),
        0 <= share(assets, i) <= WHOLE_BPS,
    decreases i,
{
    let total = portfolio_value(assets);
    lemma_allotted_grows(assets, total, i);
    if i > 0 {
        lemma_shares_up_to(assets, i - 1);
        lemma_allotted_grows(assets, total, i - 1);
        let before = shares(assets).take(i);
        assert(before.drop_last() =~= shares(assets).take(i - 1));
        assert(before.last() == shares(assets)[i - 1]);
    } else {
        assert(shares(assets).take(0).len() == 0);
        assert(assets.take(0).len() == 0);
    }
}

/// The shares of a portfolio that is worth more than nothing add up to exactly
/// the whole, and none is more than that.
pub proof fn allocations_are_complete(assets: Seq<PortfolioAsset>)
    requires
        portfolio_value(assets) > 0,
    ensures
        share_sum(shares(assets)) == WHOLE_BPS,
        shares(assets).len() == assets.len(),
        forall|i: int| 0 <= i < assets.len() ==> 0 <= #[trigger] share(assets, i) <= WHOLE_BPS,
{
    assert(assets.len() > 0) by {
        if assets.len() == 0 {
            assert(market_values(assets).len() == 0);
        }
    }
    let n = assets.len() - 1;
    lemma_shares_up_to(assets, n);
    assert(shares(assets).drop_last() =~= shares(assets).take(n));
    assert forall|i: int| 0 <= i < assets.len() implies 0 <= #[trigger] share(assets, i)
        <= WHOLE_BPS by {
        lemma_shares_up_to(assets, i);
    }
}

/// Parts of holdings that are worth no less than nothing leave room for each
/// other.
proof fn lemma_parts_leave_room(assets: Seq<PortfolioAsset>, total: int)
    requires
        forall|i: int| 0 <= i < assets.len() ==> 0 <= market_value(#[trigger] assets[i]),
        sum(market_values(assets)) <= total,
        0 < total,
    ensures
        allotted(assets, total) * total <= WHOLE_BPS * sum(market_values(assets)),
        0 <= sum(market_values(assets)),
        assets.len() > 0 ==> allotted(assets, total) == allotted(assets.drop_last(), total) + part(
            market_value(assets.last()),
            total,
        ),
    decreases assets.len(),
{
    let numbers = market_values(assets);
    if assets.len() == 0 {
        assert(numbers.len() == 0);
        assert(0 * total == 0);
    } else {
        let before = assets.drop_last();
        let last = assets[assets.len() - 1];
        let value = market_value(last);
        assert(numbers.drop_last() =~= market_values(before));
        assert(numbers.last() == value);
        assert forall|i: int| 0 <= i < before.len() implies 0 <= market_value(
            #[trigger] before[i],
        ) by {
            assert(before[i] == assets[i]);
        }
        lemma_parts_leave_room(before, total);
        let rest = allotted(before, total);
        let p = part(value, total);
        assert(0 <= p && p * total <= value * WHOLE_BPS) by {
            if math::fits(value * WHOLE_BPS) {
                assert(0 <= p && p * total <= value * WHOLE_BPS) by (nonlinear_arith)
                    requires
                        p == value * WHOLE_BPS / total,
                        0 <= value,
                        0 < total,
                ;
            } else {
                assert(0 * total == 0);
            }
        }
        assert((rest + p) * total == rest * total + p * total) by (nonlinear_arith);
        assert(rest + p <= WHOLE_BPS) by (nonlinear_arith)
            requires
                (rest + p) * total <= WHOLE_BPS * sum(numbers),
                sum(numbers) <= total,
                0 < total,
                WHOLE_BPS == 10_000,
        ;
    }
}

/// Where no holding is worth less than nothing and the value is in range,
/// every holding but the last has exactly its part of the total, rounded down.
pub proof fn shares_are_rounded_down(assets: Seq<PortfolioAsset>, i: int)
    requires
        forall|j: int| 0 <= j < assets.len() ==> 0 <= market_value(#[trigger] assets[j]),
        math::fits(sum(market_values(assets))),
        portfolio_value(assets) > 0,
        0 <= i < assets.len() - 1,
    ensures
        share(assets, i) == part(market_value(assets[i]), portfolio_value(assets)),
{
    let numbers = market_values(assets);
    let total = portfolio_value(assets);
    let some = assets.take(i + 1);
    assert forall|j: int| 0 <= j < numbers.len() implies 0 <= #[trigger] numbers[j] by {
        assert(0 <= market_value(assets[j]));
    }
    lemma_sum_is_not_capped(numbers);
    lemma_sum_grows(numbers, i + 1);
    assert(market_values(some) =~= numbers.take(i + 1));
    assert forall|j: int| 0 <= j < some.len() implies 0 <= market_value(#[trigger] some[j]) by {
        assert(some[j] == assets[j]);
    }
    lemma_parts_leave_room(some, total);
    assert(some.drop_last() =~= assets.take(i));
    assert(some.last() == assets[i]);
}

/// What is held of an asset after it is set is what was set, and every other
/// asset is held as before.
pub proof fn setting_an_asset_is_seen(assets: Seq<PortfolioAsset>, a: PortfolioAsset)
    ensures
        with_asset(assets, a)[asset_at(with_asset(assets, a), a.asset)] == a,
        asset_at(with_asset(assets, a), a.asset) == asset_at(assets, a.asset),
        forall|i: int|
            0 <= i < assets.len() && i != asset_at(assets, a.asset) ==> #[trigger] with_asset(
                assets,
                a,
            )[i] == assets[i],
{
    lemma_asset_at_is_first(assets, a.asset);
    let at = asset_at(assets, a.asset);
    let changed = with_asset(assets, a);
    assert forall|j: int| 0 <= j < at implies (#[trigger] changed[j]).asset != a.asset by {
        assert(assets[j].asset != a.asset);
    }
    lemma_asset_at(changed, a.asset, at);
}

/// Taking out an asset that was just put in gives back what was held before.
pub proof fn removing_undoes_adding(assets: Seq<PortfolioAsset>, a: PortfolioAsset)
    requires
        asset_at(assets, a.asset) == assets.len(),
    ensures
        with_asset(assets, a).remove(asset_at(with_asset(assets, a), a.asset)) == assets,
{
    setting_an_asset_is_seen(assets, a);
    assert(with_asset(assets, a).remove(assets.len() as int) =~= assets);
}

proof fn lemma_asset_at_is_first(assets: Seq<PortfolioAsset>, asset: Symbol)
    ensures
        0 <= asset_at(assets, asset) <= assets.len(),
        asset_at(assets, asset) < assets.len() ==> assets[asset_at(assets, asset)].asset == asset,
        forall|j: int| 0 <= j < asset_at(assets, asset) ==> (#[trigger] assets[j]).asset != asset,
    decreases assets.len(),
{
    if assets.len() > 0 && assets[0].asset != asset {
        let rest = assets.drop_first();
        lemma_asset_at_is_first(rest, asset);
        assert forall|j: int| 0 <= j < asset_at(assets, asset) implies (
        #[trigger] assets[j]).asset != asset by {
            if j > 0 {
                assert(rest[j - 1] == assets[j]);
            }
        }
        let at = asset_at(rest, asset);
        if at < rest.len() {
            assert(rest[at] == assets[at + 1]);
        }
    }
}

/// Every snapshot is kept: it is the latest one and the last of the history,
/// and nothing that was recorded before changes.
pub proof fn history_only_grows(ledger: ValuationLedger, portfolio_id: Symbol, now: u64)
    ensures
        ({
            let after = ledger.recorded(portfolio_id, now);
            &&& after.latest_snapshots[portfolio_id] == ledger.snapshot(portfolio_id, now)
            &&& after.snapshots[portfolio_id].last() == ledger.snapshot(portfolio_id, now)
            &&& after.snapshots[portfolio_id].drop_last() == table::list_at(
                ledger.snapshots,
                portfolio_id,
            )
            &&& after.histories[portfolio_id].drop_last() == table::list_at(
                ledger.histories,
                portfolio_id,
            )
            &&& forall|other: Symbol|
                other != portfolio_id ==> table::list_at(after.histories, other) == table::list_at(
                    ledger.histories,
                    other,
                )
        }),
{
    let after = ledger.recorded(portfolio_id, now);
    assert(after.snapshots[portfolio_id].drop_last() =~= table::list_at(
        ledger.snapshots,
        portfolio_id,
    ));
    assert(after.histories[portfolio_id].drop_last() =~= table::list_at(
        ledger.histories,
        portfolio_id,
    ));
}

impl ValuationContract {
    /// The entries of each history keep their assets in order.
    pub open spec fn wf(&self) -> bool {
        histories_wf(table::lists(self.histories@))
    }

    /// A contract that holds nothing.
    pub fn new() -> (contract: Self)
        ensures
            contract.wf(),
            contract@ == (ValuationLedger {
                risk_free_rate: None,
                annualization_period: None,
                assets: Map::empty(),
                initial_investments: Map::empty(),
                latest_snapshots: Map::empty(),
                snapshots: Map::empty(),
                histories: Map::empty(),
            }),
    {
        let contract = ValuationContract {
            risk_free_rate: None,
            annualization_period: None,
            assets: Table::new(),
            initial_investments: Table::new(),
            latest_snapshots: Table::new(),
            snapshots: Table::new(),
            histories: Table::new(),
        };
        assert(contract@.assets =~= Map::empty());
        assert(contract@.snapshots =~= Map::empty());
        assert(contract@.histories =~= Map::empty());
        contract
    }

    /// Set the risk-free rate and the annualization period where they are not
    /// set yet.
    pub fn initialize(&mut self) -> (ok: Symbol)
        requires
            old(self).wf(),
        ensures
            final(self).wf(),
            ok == values::symbol_of("ok"@),
            final(self)@ == (ValuationLedger {
                risk_free_rate: Some(old(self)@.rate()),
                annualization_period: Some(old(self)@.periods()),
                ..old(self)@
            }),
    {
        if self.risk_free_rate.is_none() {
            self.risk_free_rate = Some(DEFAULT_RISK_FREE_RATE);
        }
        if self.annualization_period.is_none() {
            self.annualization_period = Some(DEFAULT_ANNUALIZATION_PERIOD);
        }
        Symbol::from_text("ok")
    }

    /// Set the annualized risk-free rate, in fixed point.
    pub fn set_risk_free_rate(&mut self, rate: i128)
        requires
            old(self).wf(),
        ensures
            final(self).wf(),
            final(self)@ == (ValuationLedger { risk_free_rate: Some(rate), ..old(self)@ }),
    {
        self.risk_free_rate = Some(rate);
    }

    /// The annualized risk-free rate.
    pub fn get_risk_free_rate(&self) -> (rate: i128)
        ensures
            rate == self@.rate(),
    {
        match self.risk_free_rate {
            Some(rate) => rate,
            None => DEFAULT_RISK_FREE_RATE,
        }
    }

    /// Set how many periods a year has.
    pub fn set_annualization_period(&mut self, periods: u64)
        requires
            old(self).wf(),
        ensures
            final(self).wf(),
            final(self)@ == (ValuationLedger { annualization_period: Some(periods), ..old(self)@ }),
    {
        self.annualization_period = Some(periods);
    }

    /// How many periods a year has.
    pub fn get_annualization_period(&self) -> (periods: u64)
        ensures
            periods == self@.periods(),
    {
        match self.annualization_period {
            Some(periods) => periods,
            None => DEFAULT_ANNUALIZATION_PERIOD,
        }
    }

    /// Put an asset into a portfolio, or replace its quantity, price and cost.
    pub fn set_asset(
        &mut self,
        portfolio_id: Symbol,
        asset: Symbol,
        quantity: i128,
        current_price: i128,
        cost_basis: i128,
    )
        requires
            old(self).wf(),
        ensures
            final(self).wf(),
            final(self)@ == (ValuationLedger {
                assets: old(self)@.assets.insert(
                    portfolio_id,
                    with_asset(
                        old(self)@.holdings(portfolio_id),
                        PortfolioAsset { asset, quantity, current_price, cost_basis },
                    ),
                ),
                ..old(self)@
            }),
    {
        let ghost before = self@.assets;
        let ghost held = self@.holdings(portfolio_id);
        let mut list: Vec<PortfolioAsset> = match self.assets.take(&portfolio_id) {
            Some(list) => list,
            None => Vec::new(),
        };
        assert(list@ =~= held);
        let at = find_asset(&list, asset);
        let entry = PortfolioAsset { asset, quantity, current_price, cost_basis };
        if at < list.len() {
            list.set(at, entry);
        } else {
            list.push(entry);
        }
        assert(list@ =~= with_asset(held, entry));
        let ghost changed = list@;
        self.assets.set(portfolio_id, list);
        assert(self@.assets =~= before.insert(portfolio_id, changed));
    }

    /// Take an asset out of a portfolio; whether it was held.
    pub fn remove_asset(&mut self, portfolio_id: Symbol, asset: Symbol) -> (found: bool)
        requires
            old(self).wf(),
        ensures
            final(self).wf(),
            found == (asset_at(old(self)@.holdings(portfolio_id), asset) < old(self)@.holdings(
                portfolio_id,
            ).len()),
            final(self)@ == (if found {
                ValuationLedger {
                    assets: old(self)@.assets.insert(
                        portfolio_id,
                        old(self)@.holdings(portfolio_id).remove(
                            asset_at(old(self)@.holdings(portfolio_id), asset),
                        ),
                    ),
                    ..old(self)@
                }
            } else {
                old(self)@
            }),
    {
        let ghost before = self@.assets;
        let at = match self.assets.get(&portfolio_id) {
            Some(list) => {
                assert(list@ =~= self@.holdings(portfolio_id));
                let at = find_asset(list, asset);
                if at >= list.len() {
                    return false;
                }
                at
            },
            None => return false,
        };
        if let Some(mut list) = self.assets.take(&portfolio_id) {
            list.remove(at);
            let ghost changed = list@;
            self.assets.set(portfolio_id, list);
            assert(self@.assets =~= before.insert(portfolio_id, changed));
        }
        true
    }

    /// Set what was put into a portfolio.
    pub fn set_initial_investment(&mut self, portfolio_id: Symbol, amount: i128)
        requires
            old(self).wf(),
        ensures
            final(self).wf(),
            final(self)@ == (ValuationLedger {
                initial_investments: old(self)@.initial_investments.insert(portfolio_id, amount),
                ..old(self)@
            }),
    {
        self.initial_investments.set(portfolio_id, amount);
    }

    /// What was put into a portfolio; 0 where nothing was set.
    pub fn get_initial_investment(&self, portfolio_id: Symbol) -> (amount: i128)
        ensures
            amount == self@.investment(portfolio_id),
    {
        match self.initial_investments.get(&portfolio_id) {
            Some(amount) => *amount,
            None => 0,
        }
    }

    /// The value of a portfolio at current prices; 0 for one that is empty or
    /// unknown. A total that leaves the range is the upper limit.
    pub fn calculate_portfolio_value(&self, portfolio_id: Symbol) -> (total: i128)
        requires
            self@.valued(portfolio_id),
        ensures
            total == self@.value(portfolio_id),
    {
        match self.assets.get(&portfolio_id) {
            Some(list) => {
                assert(list@ =~= self@.holdings(portfolio_id));
                sum_values(list)
            },
            None => {
                assert(market_values(self@.holdings(portfolio_id)).len() == 0);
                0
            },
        }
    }

    /// The holdings of a portfolio.
    pub fn get_assets(&self, portfolio_id: Symbol) -> (assets: Vec<PortfolioAsset>)
        ensures
            assets@ == self@.holdings(portfolio_id),
    {
        table::list_of(&self.assets, &portfolio_id)
    }

    /// The share of each asset in basis points; the last one bears the
    /// rounding, so that the shares add up to the whole.
    pub fn get_asset_allocation(&self, portfolio_id: Symbol) -> (r: Result<
        Vec<AssetAllocation>,
        ValuationError,
    >)
        requires
            self@.valued(portfolio_id),
        ensures
            r is Ok <==> self@.value(portfolio_id) > 0,
            r matches Ok(list) ==> list@ == shares(self@.holdings(portfolio_id)) && share_sum(list@)
                == WHOLE_BPS,
            r matches Err(e) ==> e == ValuationError::EmptyPortfolio,
    {
        let list = match self.assets.get(&portfolio_id) {
            Some(list) => list,
            None => {
                assert(market_values(self@.holdings(portfolio_id)).len() == 0);
                return Err(ValuationError::EmptyPortfolio);
            },
        };
        assert(list@ =~= self@.holdings(portfolio_id));
        let total = sum_values(list);
        if list.len() == 0 || total <= 0 {
            assert(list@.len() == 0 ==> market_values(list@).len() == 0);
            return Err(ValuationError::EmptyPortfolio);
        }
        proof {
            allocations_are_complete(list@);
        }
        Ok(allocate(list, total))
    }

    /// The absolute and relative return on the initial investment.
    pub fn calculate_returns(&self, portfolio_id: Symbol) -> (r: Result<
        PortfolioReturns,
        ValuationError,
    >)
        requires
            self@.valued(portfolio_id),
        ensures
            r == self@.gains(portfolio_id),
    {
        let current = self.calculate_portfolio_value(portfolio_id);
        let initial = self.get_initial_investment(portfolio_id);
        if initial == 0 {
            return Err(ValuationError::ZeroInitialInvestment);
        }
        if current == 0 {
            return Err(ValuationError::EmptyPortfolio);
        }
        let absolute_return = match current.checked_sub(initial) {
            Some(d) => d,
            None => return Err(ValuationError::MathError),
        };
        match performance::fp_div(absolute_return, initial) {
            Ok(percentage_return) => Ok(PortfolioReturns { absolute_return, percentage_return }),
            Err(e) => Err(ValuationError::from(e)),
        }
    }

    /// The performance of a portfolio over its valuation history, of which it
    /// takes two entries at least.
    pub fn calculate_performance_metrics(&self, env: &Env, portfolio_id: Symbol) -> (r: Result<
        PerformanceMetrics,
        ValuationError,
    >)
        requires
            table::list_at(self@.histories, portfolio_id).len() <= u32::MAX,
        ensures
            r == (match metrics(
                total_values(table::list_at(self@.histories, portfolio_id)),
                self@.rate() as int,
                self@.periods() as int,
            ) {
                Ok(m) => Ok(m),
                Err(e) => Err(records::refusal(e)),
            }),
    {
        let history = match self.histories.get(&portfolio_id) {
            Some(history) => history,
            None => {
                assert(total_values(table::list_at(self@.histories, portfolio_id)).len() == 0);
                return Err(ValuationError::InsufficientData);
            },
        };
        assert(records::valuations(history@) =~= table::list_at(self@.histories, portfolio_id));
        match measure(env, history, self.get_risk_free_rate(), self.get_annualization_period()) {
            Ok(m) => Ok(m),
            Err(e) => Err(ValuationError::from(e)),
        }
    }

    /// Whether each holding's value is in range, so that a portfolio can be
    /// valued.
    pub fn is_valued(&self, portfolio_id: Symbol) -> (b: bool)
        ensures
            b == self@.valued(portfolio_id),
    {
        values_fit(&self.get_assets(portfolio_id))
    }

    /// Whether what a snapshot records of a portfolio is in range.
    pub fn is_recordable(&self, portfolio_id: Symbol) -> (b: bool)
        ensures
            b == self@.recordable(portfolio_id),
    {
        let assets = self.get_assets(portfolio_id);
        if assets.len() > u32::MAX as usize || !values_fit(&assets) || !costs_fit(&assets) {
            return false;
        }
        let total_value = sum_values(&assets);
        let total_cost_basis = calculate_total_cost_basis(&assets);
        total_cost_basis <= 0 || total_value.checked_sub(total_cost_basis).is_some()
    }

    /// Record the value, the cost and the number of assets of a portfolio at a
    /// moment, and add a valuation to its history.
    pub fn take_snapshot(&mut self, portfolio_id: Symbol, now: u64) -> (taken: PortfolioSnapshot)
        requires
            old(self).wf(),
            old(self)@.recordable(portfolio_id),
        ensures
            final(self).wf(),
            taken == old(self)@.snapshot(portfolio_id, now),
            final(self)@ == old(self)@.recorded(portfolio_id, now),
    {
        let assets = self.get_assets(portfolio_id);
        let total_value = sum_values(&assets);
        let total_cost_basis = calculate_total_cost_basis(&assets);
        let taken = PortfolioSnapshot {
            timestamp: now,
            total_value,
            total_cost_basis,
            asset_count: assets.len() as u32,
        };
        let mut absolute_return: i128 = 0;
        let mut percentage_return: i128 = 0;
        if total_cost_basis > 0 {
            absolute_return = total_value - total_cost_basis;
            if let Ok(fraction) = performance::fp_div(absolute_return, total_cost_basis) {
                percentage_return = fraction;
            }
        }
        let entry = ValuationHistoryEntry {
            timestamp: now,
            total_value,
            absolute_return,
            percentage_return,
            asset_values: value_by_asset(&assets),
        };
        let ghost before = table::lists(self.histories@);
        let ghost added = entry;
        assert(added@ == old(self)@.valuation(portfolio_id, now));
        self.latest_snapshots.set(portfolio_id, taken);
        table::append(&mut self.snapshots, portfolio_id, taken);
        table::append(&mut self.histories, portfolio_id, entry);
        proof {
            let after = table::lists(self.histories@);
            let longer = table::list_at(before, portfolio_id).push(added);
            assert(after == before.insert(portfolio_id, longer));
            assert(records::valuations(longer) =~= table::list_at(
                history_values(before),
                portfolio_id,
            ).push(added@));
            assert(history_values(after) =~= history_values(before).insert(
                portfolio_id,
                records::valuations(longer),
            ));
        }
        taken
    }

    /// The most recent snapshot of a portfolio.
    pub fn get_latest_snapshot(&self, portfolio_id: Symbol) -> (taken: Option<PortfolioSnapshot>)
        ensures
            taken == (if self@.latest_snapshots.contains_key(portfolio_id) {
                Some(self@.latest_snapshots[portfolio_id])
            } else {
                None
            }),
    {
        match self.latest_snapshots.get(&portfolio_id) {
            Some(taken) => Some(*taken),
            None => None,
        }
    }

    /// The snapshots of a portfolio, oldest first.
    pub fn get_snapshot_history(&self, portfolio_id: Symbol) -> (taken: Vec<PortfolioSnapshot>)
        ensures
            taken@ == table::list_at(self@.snapshots, portfolio_id),
    {
        table::list_of(&self.snapshots, &portfolio_id)
    }

    /// How a portfolio changed between two snapshots: in value, as a fraction
    /// of the older value, and over how many seconds.
    pub fn compare_snapshots(&self, portfolio_id: Symbol, older_index: u32, newer_index: u32) -> (r:
        Result<(i128, i128, u64), ValuationError>)
        ensures
            r == self@.comparison(portfolio_id, older_index as int, newer_index as int),
    {
        let taken = self.get_snapshot_history(portfolio_id);
        if older_index as usize >= taken.len() || newer_index as usize >= taken.len() {
            return Err(ValuationError::InsufficientData);
        }
        if older_index >= newer_index {
            return Err(ValuationError::InsufficientData);
        }
        let older = taken[older_index as usize];
        let newer = taken[newer_index as usize];
        let change = match newer.total_value.checked_sub(older.total_value) {
            Some(d) => d,
            None => return Err(ValuationError::MathError),
        };
        let elapsed = newer.timestamp.saturating_sub(older.timestamp);
        if older.total_value > 0 {
            match performance::fp_div(change, older.total_value) {
                Ok(fraction) => Ok((change, fraction, elapsed)),
                Err(e) => Err(ValuationError::from(e)),
            }
        } else {
            Ok((change, 0, elapsed))
        }
    }

    /// The valuation history of a portfolio, oldest first.
    pub fn get_valuation_history(&self, portfolio_id: Symbol) -> (history: Vec<
        &ValuationHistoryEntry,
    >)
        requires
            self.wf(),
        ensures
            records::valuations(table::targets(history@)) == table::list_at(
                self@.histories,
                portfolio_id,
            ),
            forall|i: int| 0 <= i < history@.len() ==> (#[trigger] history@[i]).asset_values.wf(),
    {
        let history = table::refer_to(&self.histories, &portfolio_id);
        proof {
            let all = table::lists(self.histories@);
            assert(records::valuations(table::targets(history@)) =~= table::list_at(
                self@.histories,
                portfolio_id,
            ));
            assert forall|i: int| 0 <= i < history@.len() implies (
            #[trigger] history@[i]).asset_values.wf() by {
                assert(table::targets(history@)[i] == *history@[i]);
                assert(all.contains_key(portfolio_id));
                assert(all[portfolio_id][i] == *history@[i]);
            }
        }
        history
    }
}

/// A portfolio is worth what its holdings are worth: each adds its quantity
/// times its price, as long as the sum stays in range, and one without
/// holdings is worth nothing. What it cost adds up in the same way.
pub proof fn holdings_add_up(assets: Seq<PortfolioAsset>, a: PortfolioAsset)
    ensures
        portfolio_value(Seq::empty()) == 0,
        capped_sum(costs(Seq::empty())) == 0,
        i128::MIN <= portfolio_value(assets) + a.quantity * a.current_price <= i128::MAX
            ==> portfolio_value(assets.push(a)) == portfolio_value(assets) + a.quantity
            * a.current_price,
        portfolio_value(assets) + a.quantity * a.current_price > i128::MAX ==> portfolio_value(
            assets.push(a),
        ) == i128::MAX,
        i128::MIN <= capped_sum(costs(assets)) + a.quantity * a.cost_basis <= i128::MAX
            ==> capped_sum(costs(assets.push(a))) == capped_sum(costs(assets)) + a.quantity
            * a.cost_basis,
{
    let longer = assets.push(a);
    assert(market_values(longer).drop_last() =~= market_values(assets));
    assert(market_values(longer).last() == a.quantity * a.current_price);
    assert(costs(longer).drop_last() =~= costs(assets));
    assert(costs(longer).last() == a.quantity * a.cost_basis);
}

/// Every holding but the last has its part of the total in ten-thousandths,
/// rounded down, and is named with what it is worth.
pub proof fn shares_are_parts_of_the_total(assets: Seq<PortfolioAsset>, i: int)
    requires
        forall|j: int| 0 <= j < assets.len() ==> 0 <= market_value(#[trigger] assets[j]),
        math::fits(sum(market_values(assets))),
        portfolio_value(assets) > 0,
        0 <= i < assets.len(),
        assets[i].quantity * assets[i].current_price * 10_000 <= i128::MAX,
    ensures
        shares(assets)[i].asset == assets[i].asset,
        shares(assets)[i].market_value == assets[i].quantity * assets[i].current_price,
        i < assets.len() - 1 ==> {
            let share = shares(assets)[i].allocation_bps;
            share * portfolio_value(assets) <= assets[i].quantity * assets[i].current_price * 10_000
                < (share + 1) * portfolio_value(assets)
        },
{
    let value = market_value(assets[i]);
    let total = portfolio_value(assets);
    assert(0 <= market_value(assets[i]));
    allocations_are_complete(assets);
    assert(0 <= share(assets, i) <= WHOLE_BPS);
    if i < assets.len() - 1 {
        shares_are_rounded_down(assets, i);
        math::quotients_round_toward_zero(value * 10_000, total);
    }
}

/// The gain on the initial investment is the value less what was invested, and
/// its fraction is that over what was invested, rounded toward zero. Without
/// an investment, or without any value, there is none.
pub proof fn gains_are_on_the_investment(ledger: ValuationLedger, portfolio_id: Symbol)
    ensures
        ({
            let invested = ledger.investment(portfolio_id);
            let gain = ledger.value(portfolio_id) - invested;
            let r = ledger.gains(portfolio_id);
            &&& r == Err::<PortfolioReturns, ValuationError>(ValuationError::ZeroInitialInvestment)
                <==> invested == 0
            &&& r == Err::<PortfolioReturns, ValuationError>(ValuationError::EmptyPortfolio)
                <==> invested != 0 && ledger.value(portfolio_id) == 0
            &&& invested > 0 && ledger.value(portfolio_id) != 0 && i128::MIN <= gain
                * 1_000_000_000_000 <= i128::MAX ==> r is Ok
            &&& r matches Ok(g) ==> {
                &&& g.absolute_return == gain
                &&& invested > 0 && gain >= 0 ==> g.percentage_return * invested <= gain
                    * 1_000_000_000_000 < (g.percentage_return + 1) * invested
                &&& invested > 0 && gain <= 0 ==> (g.percentage_return - 1) * invested < gain
                    * 1_000_000_000_000 <= g.percentage_return * invested
            }
        }),
{
    let invested = ledger.investment(portfolio_id);
    let gain = ledger.value(portfolio_id) - invested;
    if invested > 0 {
        crate::fixed_point::ratios_are_rounded(gain, invested as int);
    }
}

/// Between two snapshots a portfolio changed by the difference of its values,
/// in parts of the older one where that is above zero, and over the time from
/// the older to the newer.
pub proof fn evolution_is_the_difference(older: PortfolioSnapshot, newer: PortfolioSnapshot)
    ensures
        evolution(older, newer) matches Ok((change, fraction, elapsed)) ==> {
            &&& change == newer.total_value - older.total_value
            &&& newer.timestamp >= older.timestamp ==> elapsed == newer.timestamp - older.timestamp
            &&& newer.timestamp < older.timestamp ==> elapsed == 0
            &&& older.total_value <= 0 ==> fraction == 0
            &&& older.total_value > 0 && change >= 0 ==> fraction * older.total_value <= change
                * 1_000_000_000_000 < (fraction + 1) * older.total_value
            &&& older.total_value > 0 && change <= 0 ==> (fraction - 1) * older.total_value < change
                * 1_000_000_000_000 <= fraction * older.total_value
        },
        i128::MIN <= (newer.total_value - older.total_value) * 1_000_000_000_000 <= i128::MAX
            ==> evolution(older, newer) is Ok,
{
    if older.total_value > 0 {
        crate::fixed_point::ratios_are_rounded(
            newer.total_value - older.total_value,
            older.total_value as int,
        );
    }
}

/// Snapshots are compared by their places in the order in which they were
/// taken: the older one must come first, and both must be there.
pub proof fn snapshots_are_compared_in_order(
    ledger: ValuationLedger,
    portfolio_id: Symbol,
    older: int,
    newer: int,
)
    requires
        0 <= older,
        0 <= newer,
    ensures
        ({
            let taken = table::list_at(ledger.snapshots, portfolio_id);
            &&& older < newer < taken.len() ==> ledger.comparison(portfolio_id, older, newer)
                == evolution(taken[older], taken[newer])
            &&& !(older < newer < taken.len()) ==> ledger.comparison(portfolio_id, older, newer)
                == Err::<(i128, i128, u64), ValuationError>(ValuationError::InsufficientData)
        }),
{
}

/// A snapshot records the moment, the value, the cost and the number of the
/// holdings; the valuation that goes with it records the same moment and
/// value, and the gain on the cost where there was one.
pub proof fn snapshots_tell_the_holdings(
    ledger: ValuationLedger,
    portfolio_id: Symbol,
    now: u64,
)
    requires
        ledger.recordable(portfolio_id),
    ensures
        ({
            let held = table::list_at(ledger.assets, portfolio_id);
            let after = ledger.recorded(portfolio_id, now);
            let taken = table::list_at(after.snapshots, portfolio_id).last();
            let entry = table::list_at(after.histories, portfolio_id).last();
            let (value, spent) = (portfolio_value(held), capped_sum(costs(held)));
            &&& table::list_at(after.snapshots, portfolio_id).len() == table::list_at(
                ledger.snapshots,
                portfolio_id,
            ).len() + 1
            &&& table::list_at(after.histories, portfolio_id).len() == table::list_at(
                ledger.histories,
                portfolio_id,
            ).len() + 1
            &&& taken.timestamp == now && taken.total_value == value && taken.total_cost_basis
                == spent && taken.asset_count == held.len()
            &&& entry.timestamp == now && entry.total_value == value
            &&& spent <= 0 ==> entry.absolute_return == 0 && entry.percentage_return == 0
            &&& spent > 0 ==> entry.absolute_return == value - spent
            &&& spent > 0 && value >= spent && (value - spent) * 1_000_000_000_000 <= i128::MAX
                ==> entry.percentage_return * spent <= (value - spent) * 1_000_000_000_000 < (
            entry.percentage_return + 1) * spent
            &&& spent > 0 && value <= spent && (value - spent) * 1_000_000_000_000 >= i128::MIN ==> (
            entry.percentage_return - 1) * spent < (value - spent) * 1_000_000_000_000
                <= entry.percentage_return * spent
            &&& entry.asset_values == asset_values(held)
            &&& after.assets == ledger.assets && after.initial_investments
                == ledger.initial_investments
        }),
{
    let held = ledger.holdings(portfolio_id);
    let (value, spent) = (portfolio_value(held), capped_sum(costs(held)));
    lemma_capped_sum_fits(market_values(held));
    lemma_capped_sum_fits(costs(held));
    if spent > 0 {
        crate::fixed_point::ratios_are_rounded(value - spent, spent);
    }
}

proof fn lemma_capped_sum_fits(numbers: Seq<int>)
    ensures
        math::fits(capped_sum(numbers)),
    decreases numbers.len(),
{
    if numbers.len() > 0 {
        lemma_capped_sum_fits(numbers.drop_last());
    }
}

/// Each asset that is held once is recorded with what it is worth.
pub proof fn each_asset_is_recorded(assets: Seq<PortfolioAsset>, i: int)
    requires
        0 <= i < assets.len(),
        all_fit(market_values(assets)),
        forall|j: int| i < j < assets.len() ==> (#[trigger] assets[j]).asset != assets[i].asset,
    ensures
        asset_values(assets).contains_key(assets[i].asset),
        asset_values(assets)[assets[i].asset] == assets[i].quantity * assets[i].current_price,
    decreases assets.len(),
{
    assert(math::fits(market_values(assets)[i]));
    if i < assets.len() - 1 {
        let less = assets.drop_last();
        assert forall|k: int| 0 <= k < market_values(less).len() implies math::fits(
            #[trigger] market_values(less)[k],
        ) by {
            assert(market_values(less)[k] == market_values(assets)[k]);
        }
        assert forall|j: int| i < j < less.len() implies (#[trigger] less[j]).asset
            != less[i].asset by {
            assert(less[j] == assets[j]);
        }
        each_asset_is_recorded(less, i);
        assert(assets[assets.len() - 1].asset != assets[i].asset);
    }
}

/// Before they are set, the risk-free rate is four in a hundred and a year has
/// 365 periods; once set, they are what was set.
pub proof fn settings_have_defaults(ledger: ValuationLedger)
    ensures
        ledger.risk_free_rate is None ==> ledger.rate() * 100 == 4 * 1_000_000_000_000,
        ledger.annualization_period is None ==> ledger.periods() == 365,
        ledger.risk_free_rate matches Some(rate) ==> ledger.rate() == rate,
        ledger.annualization_period matches Some(periods) ==> ledger.periods() == periods,
{
}

/// Each period that starts from something adds its return: the change over the
/// value that it started from, rounded toward zero.
pub proof fn each_period_has_its_return(values: Seq<i128>, next: i128)
    requires
        values.len() > 0,
        period_gains(values.push(next)) is Ok,
    ensures
        period_gains(values) is Ok,
        period_gains(seq![next]) == Ok::<Seq<i128>, PerfError>(Seq::empty()),
        ({
            let before = period_gains(values)->Ok_0;
            let after = period_gains(values.push(next))->Ok_0;
            let start = values.last();
            &&& start <= 0 ==> after == before
            &&& start > 0 ==> {
                &&& after.len() == before.len() + 1 && after.drop_last() == before
                &&& next >= start ==> after.last() * start <= (next - start) * 1_000_000_000_000 < (
                after.last() + 1) * start
                &&& next <= start ==> (after.last() - 1) * start < (next - start) * 1_000_000_000_000
                    <= after.last() * start
            }
        }),
{
    let longer = values.push(next);
    assert(longer.drop_last() =~= values);
    assert(longer[longer.len() - 2] == values.last());
    if values.last() > 0 {
        crate::fixed_point::ratios_are_rounded(next - values.last(), values.last() as int);
        assert(period_gains(longer)->Ok_0.drop_last() =~= period_gains(values)->Ok_0);
    }
}

/// The metrics are those of the whole series: the ratios are of its periodic
/// returns, the drawdown and the time-weighted return of its valuations.
pub proof fn metrics_are_of_the_whole_series(values: Seq<i128>, rate: int, periods: int)
    ensures
        metrics(values, rate, periods) matches Ok(m) ==> {
            let gains = period_gains(values)->Ok_0;
            &&& period_gains(values) is Ok
            &&& performance::sharpe(gains, rate, periods) == Ok::<i128, PerfError>(m.sharpe_ratio)
            &&& performance::sortino(gains, rate, periods) == Ok::<i128, PerfError>(
                m.sortino_ratio,
            )
            &&& performance::drawdown(values) == Ok::<i128, PerfError>(m.max_drawdown)
            &&& performance::weighted(values) == Ok::<i128, PerfError>(m.time_weighted_return)
        },
        forall|i: int, history: Seq<Valuation>|
            0 <= i < history.len() ==> #[trigger] total_values(history)[i] == history[i].total_value,
        forall|history: Seq<Valuation>| (#[trigger] total_values(history)).len() == history.len(),
{
}

/// The drawdown that the metrics report is at least every fall between two
/// valuations that are above zero.
pub proof fn reported_drawdowns_cover_every_fall(
    values: Seq<i128>,
    rate: int,
    periods: int,
    i: int,
    j: int,
)
    requires
        metrics(values, rate, periods) is Ok,
        0 <= i <= j < values.len(),
        values[i] > 0,
        values[j] >= 0,
    ensures
        (values[i] - values[j]) * 1_000_000_000_000 < (metrics(
            values,
            rate,
            periods,
        )->Ok_0.max_drawdown + 1) * values[i],
{
    performance::no_fall_exceeds_the_drawdown(values, i, j);
}

/// A portfolio without a recorded investment had none, and one without
/// recorded holdings has none.
pub proof fn portfolios_start_with_nothing(ledger: ValuationLedger, portfolio_id: Symbol)
    ensures
        !ledger.initial_investments.contains_key(portfolio_id) ==> ledger.investment(portfolio_id)
            == 0,
        ledger.initial_investments.contains_key(portfolio_id) ==> ledger.investment(portfolio_id)
            == ledger.initial_investments[portfolio_id],
        ledger.holdings(portfolio_id).len() == 0 ==> ledger.value(portfolio_id) == 0,
{
    assert(market_values(Seq::<PortfolioAsset>::empty()) =~= Seq::<int>::empty());
    if ledger.holdings(portfolio_id).len() == 0 {
        assert(ledger.holdings(portfolio_id) =~= Seq::<PortfolioAsset>::empty());
    }
}

} // verus!
