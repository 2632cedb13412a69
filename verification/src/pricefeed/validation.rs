//! Price validation: staleness, anomalies and fallbacks.
use crate::host;
use crate::math;
use crate::math::BPS_DENOM;
use crate::pricefeed::aggregation;
use crate::pricefeed::aggregation::AggregateEngine;
use crate::pricefeed::oracle;
use crate::pricefeed::oracle::OracleManager;
use crate::pricefeed::records::{
    AggregatedPrice, AggregationMethod, PriceDataPoint, PriceFeedError, PriceFeedLedger,
    PriceFeedStore, PriceHistoryEntry, PriceStatus, PriceValidationConfig,
    DEFAULT_CACHE_TTL_SECONDS, DEFAULT_MAX_DEVIATION_BPS, MAX_PRICE_HISTORY,
};
use crate::table;
use crate::values::Symbol;
use soroban_sdk::Env;
use vstd::prelude::*;
use vstd::relations;
use vstd::seq_lib;

verus! {

/// The settings where none were made.
pub open spec fn default_config() -> PriceValidationConfig {
    PriceValidationConfig {
        max_deviation_bps: DEFAULT_MAX_DEVIATION_BPS,
        default_ttl_seconds: DEFAULT_CACHE_TTL_SECONDS,
        max_history_entries: MAX_PRICE_HISTORY,
        alert_on_anomaly: true,
    }
}

/// The settings where none were made.
pub fn default_validation_config() -> (config: PriceValidationConfig)
    ensures
        config == default_config(),
{
    PriceValidationConfig {
        max_deviation_bps: DEFAULT_MAX_DEVIATION_BPS,
        default_ttl_seconds: DEFAULT_CACHE_TTL_SECONDS,
        max_history_entries: MAX_PRICE_HISTORY,
        alert_on_anomaly: true,
    }
}

/// Whether a price is too old, or its age unknown.
pub open spec fn stale(config: PriceValidationConfig, point: PriceDataPoint, now: u64) -> bool {
    now == 0 || point.timestamp == 0 || now - point.timestamp > config.default_ttl_seconds
}

/// The prices that are not too old.
pub open spec fn fresh(
    config: PriceValidationConfig,
    points: Seq<PriceDataPoint>,
    now: u64,
) -> Seq<PriceDataPoint> {
    points.filter(|p: PriceDataPoint| !stale(config, p, now))
}

/// The order of numbers.
pub open spec fn ascending() -> spec_fn(i128, i128) -> bool {
    |a: i128, b: i128| a <= b
}

/// Numbers in ascending order.
pub open spec fn sorted(numbers: Seq<i128>) -> Seq<i128> {
    numbers.sort_by(ascending())
}

/// The numbers of a list of prices.
pub open spec fn prices(points: Seq<PriceDataPoint>) -> Seq<i128> {
    Seq::new(points.len(), |i: int| points[i].price)
}

/// The sum of the two numbers in the middle of an even count.
pub open spec fn middle_sum(numbers: Seq<i128>) -> int {
    let half = numbers.len() as int / 2;
    numbers[half - 1] + numbers[half]
}

/// The number in the middle, or half the sum of the two that are.
pub open spec fn middle(numbers: Seq<i128>) -> int {
    if numbers.len() % 2 == 1 {
        numbers[numbers.len() as int / 2] as int
    } else {
        math::quot(middle_sum(numbers), 2)
    }
}

/// Whether the middle can be computed in 128 signed bits.
pub open spec fn has_middle(points: Seq<PriceDataPoint>) -> bool {
    points.len() > 0 && points.len() % 2 == 0 ==> math::fits(middle_sum(sorted(prices(points))))
}

/// The median of a list of prices.
pub open spec fn median(points: Seq<PriceDataPoint>) -> Option<i128> {
    if points.len() == 0 {
        None
    } else {
        Some(middle(sorted(prices(points))) as i128)
    }
}

/// By how much a price differs from a median, in basis points of the median's
/// size.
pub open spec fn deviation(price: int, median: int) -> int {
    math::magnitude(price - median) * BPS_DENOM / math::magnitude(median)
}

/// Whether a price differs from a median by more than a limit. Nothing can
/// be compared with a median of zero.
pub open spec fn anomalous(price: int, median: int, max_deviation_bps: int) -> bool {
    median != 0 && deviation(price, median) > max_deviation_bps
}

/// Whether the deviation can be computed in 128 signed bits.
pub open spec fn has_deviation(price: int, median: int) -> bool {
    median != 0 ==> math::fits(price - median) && math::fits(
        math::magnitude(price - median) * BPS_DENOM,
    )
}

/// A price that is marked where it is an anomaly.
pub open spec fn marked(
    config: PriceValidationConfig,
    point: PriceDataPoint,
    median: int,
) -> PriceDataPoint {
    if anomalous(point.price as int, median, config.max_deviation_bps as int) {
        PriceDataPoint { status: PriceStatus::Anomalous, ..point }
    } else {
        point
    }
}

/// Prices, each marked where it is an anomaly among them.
pub open spec fn screened(config: PriceValidationConfig, points: Seq<PriceDataPoint>) -> Seq<
    PriceDataPoint,
> {
    match median(points) {
        None => points,
        Some(m) => Seq::new(points.len(), |i: int| marked(config, points[i], m as int)),
    }
}

/// Whether prices can be compared in 128 signed bits.
pub open spec fn comparable(points: Seq<PriceDataPoint>) -> bool {
    &&& has_middle(points)
    &&& median(points) matches Some(m) ==> forall|i: int|
        0 <= i < points.len() ==> has_deviation((#[trigger] points[i]).price as int, m as int)
}

/// The prices that are not marked as anomalies.
pub open spec fn unsuspected(points: Seq<PriceDataPoint>) -> Seq<PriceDataPoint> {
    points.filter(|p: PriceDataPoint| p.status != PriceStatus::Anomalous)
}

/// A history with a price added, of which the most recent ones stay.
pub open spec fn extended(history: Seq<PriceHistoryEntry>, entry: PriceHistoryEntry, max: int) -> Seq<
    PriceHistoryEntry,
> {
    let longer = history.push(entry);
    if longer.len() <= max {
        longer
    } else {
        longer.skip(longer.len() - max)
    }
}

impl PriceFeedLedger {
    /// The settings in force.
    pub open spec fn config(self) -> PriceValidationConfig {
        match self.validation_config {
            Some(config) => config,
            None => default_config(),
        }
    }

    /// The aggregation method in force.
    pub open spec fn method(self) -> AggregationMethod {
        match self.default_method {
            Some(method) => method,
            None => AggregationMethod::Median,
        }
    }

    /// The prices of an asset that oracles offer and that are fresh.
    pub open spec fn candidates(self, asset: Symbol, now: u64) -> Seq<PriceDataPoint> {
        fresh(
            self.config(),
            oracle::offers(self, oracle::active(oracle::providers(self.oracles)), asset, now),
            now,
        )
    }

    /// The prices of an asset that can be relied on.
    pub open spec fn reliable(self, asset: Symbol, now: u64) -> Seq<PriceDataPoint> {
        unsuspected(screened(self.config(), self.candidates(asset, now)))
    }

    /// The cached price of an asset, for twice the time it is kept.
    pub open spec fn cached(self, asset: Symbol, now: u64) -> Option<AggregatedPrice> {
        if self.cached_prices.contains_key(asset) && now - self.cached_prices[asset].cached_at
            <= self.cached_prices[asset].ttl_seconds * 2 {
            Some(self.cached_prices[asset].aggregated)
        } else {
            None
        }
    }

    /// The price of an asset: what the oracles say, or else what is cached, or
    /// else what was set to fall back on.
    pub open spec fn resolution(self, asset: Symbol, now: u64) -> Result<
        AggregatedPrice,
        PriceFeedError,
    > {
        let points = self.reliable(asset, now);
        if points.len() > 0 {
            Ok(aggregation::aggregated(points, self.method(), now))
        } else if self.cached(asset, now) is Some {
            Ok(self.cached(asset, now)->Some_0)
        } else if self.fallback_prices.contains_key(asset) {
            Ok(
                AggregatedPrice {
                    asset,
                    price: self.fallback_prices[asset],
                    timestamp: now,
                    num_sources: 0,
                    method: AggregationMethod::Latest,
                    status: PriceStatus::Fallback,
                },
            )
        } else {
            Err(PriceFeedError::NoPriceData)
        }
    }

    /// Whether the price of an asset can be computed in the available bits.
    pub open spec fn resolvable(self, asset: Symbol, now: u64) -> bool {
        &&& self.candidates(asset, now).len() <= u32::MAX
        &&& comparable(self.candidates(asset, now))
        &&& self.method() == AggregationMethod::Median ==> has_middle(self.reliable(asset, now))
        &&& self.cached_prices.contains_key(asset) ==> self.cached_prices[asset].ttl_seconds * 2
            <= u64::MAX
    }
}

/// The settings in force.
pub fn get_validation_config(store: &PriceFeedStore) -> (config: PriceValidationConfig)
    ensures
        config == store@.config(),
{
    match store.validation_config {
        Some(config) => config,
        None => default_validation_config(),
    }
}

/// Change the settings.
pub fn set_validation_config(store: &mut PriceFeedStore, config: &PriceValidationConfig)
    requires
        old(store).wf(),
    ensures
        final(store).wf(),
        final(store)@ == (PriceFeedLedger { validation_config: Some(*config), ..old(store)@ }),
{
    store.validation_config = Some(*config);
}

/// Whether a price is too old for the settings, or its age unknown.
pub fn is_stale(store: &PriceFeedStore, data_point: &PriceDataPoint, now: u64) -> (b: bool)
    ensures
        b == stale(store@.config(), *data_point, now),
{
    if now == 0 || data_point.timestamp == 0 {
        return true;
    }
    let age = now.saturating_sub(data_point.timestamp);
    let config = get_validation_config(store);
    age > config.default_ttl_seconds
}

/// The prices that are not too old.
pub fn filter_stale(store: &PriceFeedStore, data_points: &Vec<PriceDataPoint>, now: u64) -> (list:
    Vec<PriceDataPoint>)
    ensures
        list@ == fresh(store@.config(), data_points@, now),
{
    let ghost config = store@.config();
    let ghost keep = |p: PriceDataPoint| !stale(config, p, now);
    let mut list: Vec<PriceDataPoint> = Vec::new();
    let mut i: usize = 0;
    proof {
        table::lemma_filter_none(data_points@, keep);
    }
    while i < data_points.len()
        invariant
            i <= data_points@.len(),
            config == store@.config(),
            keep == (|p: PriceDataPoint| !stale(config, p, now)),
            list@ == data_points@.take(i as int).filter(keep),
        decreases data_points@.len() - i,
    {
        proof {
            table::lemma_filter_step(data_points@, i as int, keep);
        }
        if !is_stale(store, &data_points[i], now) {
            list.push(data_points[i]);
        }
        i += 1;
    }
    assert(data_points@.take(i as int) =~= data_points@);
    list
}

/// Whether numbers ascend.
pub open spec fn is_sorted(numbers: Seq<i128>) -> bool {
    forall|i: int, j: int| 0 <= i < j < numbers.len() ==> numbers[i] <= numbers[j]
}

/// There is one way to sort numbers.
proof fn lemma_sorted_is(numbers: Seq<i128>, ordered: Seq<i128>)
    requires
        is_sorted(ordered),
        ordered.to_multiset() == numbers.to_multiset(),
    ensures
        ordered == sorted(numbers),
{
    let leq = ascending();
    assert(relations::total_ordering(leq));
    assert(relations::sorted_by(ordered, leq));
    numbers.lemma_sort_by_ensures(leq);
    seq_lib::lemma_sorted_unique(ordered, numbers.sort_by(leq), leq);
}

/// Sorting keeps the count.
pub proof fn lemma_sorted_len(numbers: Seq<i128>)
    ensures
        sorted(numbers).len() == numbers.len(),
        is_sorted(sorted(numbers)),
        sorted(numbers).to_multiset() == numbers.to_multiset(),
{
    let leq = ascending();
    assert(relations::total_ordering(leq));
    numbers.lemma_sort_by_ensures(leq);
    let s = sorted(numbers);
    seq_lib::to_multiset_len(numbers);
    seq_lib::to_multiset_len(s);
    assert forall|i: int, j: int| 0 <= i < j < s.len() implies s[i] <= s[j] by {
        assert(leq(s[i], s[j]));
    }
}

/// A host vector with a number put in its place.
fn insert_sorted(env: &Env, list: soroban_sdk::Vec<i128>, x: i128) -> (longer: soroban_sdk::Vec<
    i128,
>)
    requires
        is_sorted(host::numbers(list)),
        host::numbers(list).len() < u32::MAX,
    ensures
        is_sorted(host::numbers(longer)),
        host::numbers(longer).len() == host::numbers(list).len() + 1,
        host::numbers(longer).to_multiset() == host::numbers(list).to_multiset().insert(x),
{
    let ghost before = host::numbers(list);
    let n = host::count(&list);
    let mut i: u32 = 0;
    let mut longer = host::no_numbers(env);
    while i < n
        invariant_except_break
            i <= n,
        invariant
            before == host::numbers(list),
            n == before.len(),
            n < u32::MAX,
            i <= n,
            host::numbers(longer) == before.take(i as int),
            forall|j: int| 0 <= j < i ==> before[j] <= x,
        ensures
            i < n ==> x < before[i as int],
        decreases n - i,
    {
        let here = match host::number_at(&list, i) {
            Some(v) => v,
            None => x,
        };
        if x < here {
            break;
        }
        host::push_number(&mut longer, here);
        i += 1;
        assert(before.take(i as int) =~= before.take(i - 1).push(before[i - 1]));
    }
    host::push_number(&mut longer, x);
    let ghost at = i as int;
    assert(host::numbers(longer) =~= before.insert(at, x).take(at + 1));
    while i < n
        invariant
            before == host::numbers(list),
            n == before.len(),
            n < u32::MAX,
            0 <= at <= i <= n,
            host::numbers(longer) == before.insert(at, x).take(i + 1),
        decreases n - i,
    {
        let here = match host::number_at(&list, i) {
            Some(v) => v,
            None => x,
        };
        host::push_number(&mut longer, here);
        i += 1;
        assert(before.insert(at, x).take(i + 1) =~= before.insert(at, x).take(i as int).push(
            before.insert(at, x)[i as int],
        ));
    }
    proof {
        assert(before.insert(at, x).take(n + 1) =~= before.insert(at, x));
        seq_lib::to_multiset_insert(before, at, x);
    }
    longer
}

/// The numbers of a list of prices, in ascending order.
fn sort_prices(env: &Env, points: &Vec<PriceDataPoint>) -> (list: soroban_sdk::Vec<i128>)
    requires
        points@.len() <= u32::MAX,
    ensures
        host::numbers(list) == sorted(prices(points@)),
        host::numbers(list).len() == points@.len(),
{
    let ghost numbers = prices(points@);
    let mut list = host::no_numbers(env);
    let mut i: usize = 0;
    assert(numbers.take(0) =~= Seq::<i128>::empty());
    while i < points.len()
        invariant
            i <= points@.len() <= u32::MAX,
            numbers == prices(points@),
            is_sorted(host::numbers(list)),
            host::numbers(list).len() == i,
            host::numbers(list).to_multiset() == numbers.take(i as int).to_multiset(),
        decreases points@.len() - i,
    {
        list = insert_sorted(env, list, points[i].price);
        proof {
            assert(numbers.take(i + 1) =~= numbers.take(i as int).push(numbers[i as int]));
            seq_lib::to_multiset_build(numbers.take(i as int), numbers[i as int]);
        }
        i += 1;
    }
    proof {
        assert(numbers.take(i as int) =~= numbers);
        lemma_sorted_is(numbers, host::numbers(list));
    }
    list
}

/// Whether the middle of a list of prices can be computed.
fn middle_fits(env: &Env, points: &Vec<PriceDataPoint>) -> (b: bool)
    requires
        points@.len() <= u32::MAX,
    ensures
        b == has_middle(points@),
{
    if points.len() == 0 || points.len() % 2 == 1 {
        return true;
    }
    let list = sort_prices(env, points);
    let half = host::count(&list) / 2;
    match (host::number_at(&list, half - 1), host::number_at(&list, half)) {
        (Some(lower), Some(upper)) => lower.checked_add(upper).is_some(),
        _ => false,
    }
}

/// Whether the deviation of a price can be computed.
fn deviation_fits(price: i128, median: i128) -> (b: bool)
    ensures
        b == has_deviation(price as int, median as int),
{
    if median == 0 {
        return true;
    }
    match price.checked_sub(median) {
        None => false,
        Some(gap) => if gap >= 0 {
            gap.checked_mul(BPS_DENOM).is_some()
        } else if gap == i128::MIN {
            false
        } else {
            (-gap).checked_mul(BPS_DENOM).is_some()
        },
    }
}

/// Whether prices can be compared with each other.
fn comparison_fits(env: &Env, points: &Vec<PriceDataPoint>) -> (b: bool)
    requires
        points@.len() <= u32::MAX,
    ensures
        b == comparable(points@),
{
    if !middle_fits(env, points) {
        return false;
    }
    let m = match calculate_median(env, points) {
        Some(m) => m,
        None => return true,
    };
    let mut i: usize = 0;
    while i < points.len()
        invariant
            i <= points@.len(),
            median(points@) == Some(m),
            has_middle(points@),
            forall|j: int|
                0 <= j < i ==> has_deviation((#[trigger] points@[j]).price as int, m as int),
        decreases points@.len() - i,
    {
        if !deviation_fits(points[i].price, m) {
            assert(!has_deviation(points@[i as int].price as int, m as int));
            return false;
        }
        i += 1;
    }
    true
}

/// The median of a list of prices; `None` where there are none. Of an even
/// count, half the sum of the two in the middle.
pub fn calculate_median(env: &Env, points: &Vec<PriceDataPoint>) -> (m: Option<i128>)
    requires
        points@.len() <= u32::MAX,
        has_middle(points@),
    ensures
        m == median(points@),
{
    if points.len() == 0 {
        return None;
    }
    let list = sort_prices(env, points);
    let n = host::count(&list);
    let half = n / 2;
    let upper = match host::number_at(&list, half) {
        Some(v) => v,
        None => 0,
    };
    if n % 2 == 1 {
        Some(upper)
    } else {
        let lower = match host::number_at(&list, half - 1) {
            Some(v) => v,
            None => 0,
        };
        let total = lower + upper;
        proof {
            math::lemma_quot_shrinks(total as int, 2);
        }
        Some(math::divide(total, 2))
    }
}

/// Whether a price deviates from the median by more than a limit in basis
/// points.
pub fn is_anomalous(price: i128, median: i128, max_deviation_bps: i128) -> (b: bool)
    requires
        has_deviation(price as int, median as int),
    ensures
        b == anomalous(price as int, median as int, max_deviation_bps as int),
{
    if median == 0 {
        return false;
    }
    let gap = price - median;
    let scaled = if gap < 0 {
        (-gap) * BPS_DENOM
    } else {
        gap * BPS_DENOM
    };
    let size: u128 = if median < 0 {
        (-(median + 1)) as u128 + 1
    } else {
        median as u128
    };
    proof {
        assert(0 <= scaled as int / size as int <= scaled) by (nonlinear_arith)
            requires
                0 <= scaled,
                0 < size,
        ;
    }
    (scaled as u128 / size) as i128 > max_deviation_bps
}

/// The fresh prices of a list, each marked where it is an anomaly among them.
pub fn validate_prices(
    env: &Env,
    store: &PriceFeedStore,
    data_points: &Vec<PriceDataPoint>,
    now: u64,
) -> (list: Vec<PriceDataPoint>)
    requires
        fresh(store@.config(), data_points@, now).len() <= u32::MAX,
        comparable(fresh(store@.config(), data_points@, now)),
    ensures
        list@ == screened(store@.config(), fresh(store@.config(), data_points@, now)),
{
    let config = get_validation_config(store);
    let points = filter_stale(store, data_points, now);
    let m = match calculate_median(env, &points) {
        Some(m) => m,
        None => return points,
    };
    let ghost all = screened(config, points@);
    let mut list: Vec<PriceDataPoint> = Vec::new();
    let mut i: usize = 0;
    while i < points.len()
        invariant
            i <= points@.len(),
            all == screened(config, points@),
            comparable(points@),
            median(points@) == Some(m),
            list@ == all.take(i as int),
        decreases points@.len() - i,
    {
        let point = points[i];
        assert(has_deviation(points@[i as int].price as int, m as int));
        if is_anomalous(point.price, m, config.max_deviation_bps) {
            let mut flagged = point;
            flagged.status = PriceStatus::Anomalous;
            list.push(flagged);
        } else {
            list.push(point);
        }
        i += 1;
        assert(list@ =~= all.take(i as int));
    }
    assert(all.take(i as int) =~= all);
    list
}

/// Set the price of an asset to fall back on.
pub fn set_fallback_price(store: &mut PriceFeedStore, asset: Symbol, price: i128)
    requires
        old(store).wf(),
    ensures
        final(store).wf(),
        final(store)@ == (PriceFeedLedger {
            fallback_prices: old(store)@.fallback_prices.insert(asset, price),
            ..old(store)@
        }),
{
    store.fallback_prices.set(asset, price);
}

/// The price of an asset to fall back on.
pub fn get_fallback_price(store: &PriceFeedStore, asset: Symbol) -> (price: Option<i128>)
    ensures
        price == (if store@.fallback_prices.contains_key(asset) {
            Some(store@.fallback_prices[asset])
        } else {
            None
        }),
{
    match store.fallback_prices.get(&asset) {
        Some(price) => Some(*price),
        None => None,
    }
}

/// The prices of a list that are not marked as anomalies.
fn without_anomalies(points: &Vec<PriceDataPoint>) -> (list: Vec<PriceDataPoint>)
    ensures
        list@ == unsuspected(points@),
{
    let ghost keep = |p: PriceDataPoint| p.status != PriceStatus::Anomalous;
    let mut list: Vec<PriceDataPoint> = Vec::new();
    let mut i: usize = 0;
    proof {
        table::lemma_filter_none(points@, keep);
    }
    while i < points.len()
        invariant
            i <= points@.len(),
            keep == (|p: PriceDataPoint| p.status != PriceStatus::Anomalous),
            list@ == points@.take(i as int).filter(keep),
        decreases points@.len() - i,
    {
        proof {
            table::lemma_filter_step(points@, i as int, keep);
        }
        if points[i].status != PriceStatus::Anomalous {
            list.push(points[i]);
        }
        i += 1;
    }
    assert(points@.take(i as int) =~= points@);
    list
}

/// The price of an asset, from the first of these that has one: the fresh
/// prices of the active oracles, the cache (for twice the time that a price
/// is kept), the fallback price.
pub fn resolve_price(env: &Env, store: &PriceFeedStore, asset: Symbol, now: u64) -> (r: Result<
    AggregatedPrice,
    PriceFeedError,
>)
    requires
        store.wf(),
        store@.resolvable(asset, now),
    ensures
        r == store@.resolution(asset, now),
{
    let offered = OracleManager::fetch_all_for_asset(store, asset, now);
    let valid = validate_prices(env, store, &offered, now);
    let points = without_anomalies(&valid);
    if points.len() > 0 {
        let method = get_default_aggregation_method(store);
        proof {
            lemma_filter_shrinks(
                valid@,
                |p: PriceDataPoint| p.status != PriceStatus::Anomalous,
            );
        }
        return Ok(AggregateEngine::aggregate(env, &points, method, now));
    }
    if let Some(cached) = store.cached_prices.get(&asset) {
        let age = now.saturating_sub(cached.cached_at);
        let grace_ttl = cached.ttl_seconds * 2;
        if age <= grace_ttl {
            return Ok(cached.aggregated);
        }
    }
    match get_fallback_price(store, asset) {
        Some(price) => Ok(
            AggregatedPrice {
                asset,
                price,
                timestamp: now,
                num_sources: 0,
                method: AggregationMethod::Latest,
                status: PriceStatus::Fallback,
            },
        ),
        None => Err(PriceFeedError::NoPriceData),
    }
}

/// Whether the price of an asset can be computed in the available bits.
pub fn can_resolve(env: &Env, store: &PriceFeedStore, asset: Symbol, now: u64) -> (b: bool)
    requires
        store.wf(),
    ensures
        b == store@.resolvable(asset, now),
{
    let offered = OracleManager::fetch_all_for_asset(store, asset, now);
    let points = filter_stale(store, &offered, now);
    if points.len() > u32::MAX as usize || !comparison_fits(env, &points) {
        return false;
    }
    if let Some(cached) = store.cached_prices.get(&asset) {
        if cached.ttl_seconds.checked_mul(2).is_none() {
            return false;
        }
    }
    match get_default_aggregation_method(store) {
        AggregationMethod::Median => {
            let valid = validate_prices(env, store, &offered, now);
            let reliable = without_anomalies(&valid);
            proof {
                lemma_filter_shrinks(
                    valid@,
                    |p: PriceDataPoint| p.status != PriceStatus::Anomalous,
                );
            }
            middle_fits(env, &reliable)
        },
        AggregationMethod::Latest => true,
    }
}

/// Filtering adds nothing.
proof fn lemma_filter_shrinks<T>(s: Seq<T>, keep: spec_fn(T) -> bool)
    ensures
        s.filter(keep).len() <= s.len(),
    decreases s.len(),
{
    reveal(Seq::filter);
    if s.len() > 0 {
        lemma_filter_shrinks(s.drop_last(), keep);
    }
}

/// Add a price to the history of an asset, which keeps the most recent ones.
pub fn record_price_history(
    store: &mut PriceFeedStore,
    asset: Symbol,
    price: i128,
    num_sources: u32,
    now: u64,
)
    requires
        old(store).wf(),
    ensures
        final(store).wf(),
        final(store)@ == (PriceFeedLedger {
            histories: old(store)@.histories.insert(
                asset,
                extended(
                    table::list_at(old(store)@.histories, asset),
                    PriceHistoryEntry { price, timestamp: now, num_sources },
                    old(store)@.config().max_history_entries as int,
                ),
            ),
            ..old(store)@
        }),
{
    let config = get_validation_config(store);
    let max = config.max_history_entries as usize;
    let ghost before = store@.histories;
    let mut history: Vec<PriceHistoryEntry> = match store.histories.take(&asset) {
        Some(history) => history,
        None => Vec::new(),
    };
    assert(history@ =~= table::list_at(before, asset));
    history.push(PriceHistoryEntry { price, timestamp: now, num_sources });
    let ghost longer = history@;
    let ghost mut gone: int = 0;
    assert(longer.skip(0) =~= longer);
    while history.len() > max
        invariant
            0 <= gone <= longer.len(),
            history@ == longer.skip(gone),
            gone > 0 ==> history@.len() >= max,
        decreases history@.len(),
    {
        history.remove(0);
        proof {
            gone = gone + 1;
        }
        assert(history@ =~= longer.skip(gone));
    }
    let ghost kept = history@;
    assert(gone > 0 ==> gone == longer.len() - max);
    store.histories.set(asset, history);
    assert(store@.histories =~= before.insert(asset, kept));
}

/// The prices of an asset in the past, oldest first.
pub fn get_price_history(store: &PriceFeedStore, asset: Symbol) -> (history: Vec<PriceHistoryEntry>)
    ensures
        history@ == table::list_at(store@.histories, asset),
{
    table::list_of(&store.histories, &asset)
}

/// The aggregation method in force.
pub fn get_default_aggregation_method(store: &PriceFeedStore) -> (method: AggregationMethod)
    ensures
        method == store@.method(),
{
    match store.default_method {
        Some(method) => method,
        None => AggregationMethod::Median,
    }
}

/// Change the aggregation method.
pub fn set_default_aggregation_method(store: &mut PriceFeedStore, method: &AggregationMethod)
    requires
        old(store).wf(),
    ensures
        final(store).wf(),
        final(store)@ == (PriceFeedLedger { default_method: Some(*method), ..old(store)@ }),
{
    store.default_method = Some(*method);
}

/// The median lies between the lowest and the highest price.
pub proof fn the_median_is_between(points: Seq<PriceDataPoint>)
    requires
        points.len() > 0,
        has_middle(points),
    ensures
        ({
            let s = sorted(prices(points));
            s[0] <= median(points)->Some_0 <= s[s.len() - 1]
        }),
{
    lemma_sorted_len(prices(points));
    let s = sorted(prices(points));
    let half = s.len() as int / 2;
    if half > 0 {
        assert(s[0] <= s[half] <= s[s.len() - 1]);
        assert(s[0] <= s[half - 1] <= s[s.len() - 1]);
    }
}

/// The order of the prices does not matter for the median.
pub proof fn the_median_ignores_the_order(a: Seq<PriceDataPoint>, b: Seq<PriceDataPoint>)
    requires
        prices(a).to_multiset() == prices(b).to_multiset(),
    ensures
        median(a) == median(b),
{
    lemma_sorted_len(prices(a));
    lemma_sorted_len(prices(b));
    lemma_sorted_is(prices(b), sorted(prices(a)));
    seq_lib::to_multiset_len(prices(a));
    seq_lib::to_multiset_len(prices(b));
}

/// A price equal to the median is no anomaly.
pub proof fn the_median_is_no_anomaly(median: int, max_deviation_bps: int)
    requires
        0 <= max_deviation_bps,
    ensures
        !anomalous(median, median, max_deviation_bps),
{
    if median != 0 {
        assert(0int / median == 0) by (nonlinear_arith)
            requires
                median != 0,
        ;
    }
}

/// A price is unresolved only where every source fails: no oracle offers a
/// reliable one, none is cached, and there is none to fall back on.
pub proof fn resolution_fails_only_without_sources(
    ledger: PriceFeedLedger,
    asset: Symbol,
    now: u64,
)
    ensures
        ledger.resolution(asset, now) is Err <==> ledger.reliable(asset, now).len() == 0
            && ledger.cached(asset, now) is None && !ledger.fallback_prices.contains_key(asset),
        ledger.resolution(asset, now) matches Err(e) ==> e == PriceFeedError::NoPriceData,
{
}

/// A history never outgrows its limit, and the newest price is the last.
pub proof fn the_history_is_bounded(
    history: Seq<PriceHistoryEntry>,
    entry: PriceHistoryEntry,
    max: int,
)
    requires
        0 <= max,
    ensures
        extended(history, entry, max).len() <= max,
        max > 0 ==> extended(history, entry, max).last() == entry,
{
}

/// A price is fresh where its age is known and no more than the settings
/// allow. The fresh prices keep their order, and none is left out.
pub proof fn fresh_prices_are_young(
    config: PriceValidationConfig,
    points: Seq<PriceDataPoint>,
    p: PriceDataPoint,
    now: u64,
)
    ensures
        !stale(config, p, now) <==> now > 0 && p.timestamp > 0 && now <= p.timestamp
            + config.default_ttl_seconds,
        fresh(config, points.push(p), now) == (if !stale(config, p, now) {
            fresh(config, points, now).push(p)
        } else {
            fresh(config, points, now)
        }),
        fresh(config, Seq::empty(), now).len() == 0,
{
    let keep = |q: PriceDataPoint| !stale(config, q, now);
    let longer = points.push(p);
    let n = points.len() as int;
    table::lemma_filter_step(longer, n, keep);
    table::lemma_filter_none(longer, keep);
    assert(longer.take(n) =~= points);
    assert(longer.take(n + 1) =~= longer);
    assert(longer.take(0) =~= Seq::<PriceDataPoint>::empty());
}

/// Prices are sorted before their middle is taken: they ascend, and they are
/// the same prices.
pub proof fn sorting_keeps_the_prices(points: Seq<PriceDataPoint>, i: int, j: int)
    requires
        0 <= i <= j < points.len(),
    ensures
        sorted(prices(points)).len() == points.len(),
        sorted(prices(points))[i] <= sorted(prices(points))[j],
        sorted(prices(points)).to_multiset() == prices(points).to_multiset(),
        prices(points)[i] == points[i].price,
{
    lemma_sorted_len(prices(points));
    prices(points).lemma_sort_by_ensures(ascending());
    assert(relations::total_ordering(ascending()));
    if i < j {
        assert(sorted(prices(points))[i] <= sorted(prices(points))[j]);
    }
}

/// The median has at least half of the sorted prices at or below it, and at
/// least half at or above it. For an odd count it is one of the prices; for an
/// even count it is half the sum of the two in the middle, but for rounding.
pub proof fn the_median_halves_the_prices(points: Seq<PriceDataPoint>, i: int)
    requires
        points.len() > 0,
        has_middle(points),
    ensures
        ({
            let s = sorted(prices(points));
            let n = points.len() as int;
            let m = median(points)->Some_0;
            &&& median(points) is Some
            &&& 0 <= i && 2 * i < n ==> s[i] <= m
            &&& i < n && 2 * (i + 1) > n ==> m <= s[i]
            &&& n % 2 == 1 ==> m == s[(n - 1) / 2]
            &&& n % 2 == 0 ==> s[n / 2 - 1] + s[n / 2] - 1 <= 2 * m <= s[n / 2 - 1] + s[n / 2] + 1
        }),
{
    lemma_sorted_len(prices(points));
    let s = sorted(prices(points));
    let n = points.len() as int;
    let half = n / 2;
    if n % 2 == 0 {
        assert(half >= 1);
        assert(s[half - 1] <= s[half]);
        if 0 <= i < half - 1 {
            assert(s[i] <= s[half - 1]);
        }
        if half < i < n {
            assert(s[half] <= s[i]);
        }
    } else {
        if 0 <= i < half {
            assert(s[i] <= s[half]);
        }
        if half < i < n {
            assert(s[half] <= s[i]);
        }
    }
}

/// A price is an anomaly where it differs from the median by more than the
/// limit, in whole ten-thousandths of the median's size, above or below. No
/// price is one next to a median of zero.
pub proof fn anomalies_are_far_from_the_median(price: int, median: int, max_deviation_bps: int)
    requires
        0 <= max_deviation_bps,
    ensures
        median > 0 && price >= median ==> (anomalous(price, median, max_deviation_bps) <==> (price
            - median) * 10_000 >= (max_deviation_bps + 1) * median),
        median > 0 && price <= median ==> (anomalous(price, median, max_deviation_bps) <==> (median
            - price) * 10_000 >= (max_deviation_bps + 1) * median),
        median < 0 && price >= median ==> (anomalous(price, median, max_deviation_bps) <==> (price
            - median) * 10_000 >= (max_deviation_bps + 1) * (-median)),
        median == 0 ==> !anomalous(price, median, max_deviation_bps),
{
    if median != 0 {
        let b = math::magnitude(median);
        let a = math::magnitude(price - median) * 10_000;
        let q = a / b;
        let k = max_deviation_bps + 1;
        math::quotients_round_toward_zero(a, b);
        if q >= k {
            assert(k * b <= q * b) by (nonlinear_arith)
                requires
                    k <= q,
                    b > 0,
            ;
        } else {
            assert((q + 1) * b <= k * b) by (nonlinear_arith)
                requires
                    q + 1 <= k,
                    b > 0,
            ;
        }
    }
}

/// Screening marks the anomalies among prices and changes nothing else about
/// them; what can be relied on is what is not marked.
pub proof fn screening_marks_anomalies(
    config: PriceValidationConfig,
    points: Seq<PriceDataPoint>,
    i: int,
)
    requires
        0 <= i < points.len(),
    ensures
        ({
            let seen = screened(config, points);
            let m = median(points)->Some_0;
            &&& seen.len() == points.len()
            &&& seen[i].price == points[i].price && seen[i].asset == points[i].asset
                && seen[i].provider_id == points[i].provider_id && seen[i].timestamp
                == points[i].timestamp
            &&& anomalous(points[i].price as int, m as int, config.max_deviation_bps as int)
                ==> seen[i].status == PriceStatus::Anomalous
            &&& !anomalous(points[i].price as int, m as int, config.max_deviation_bps as int)
                ==> seen[i].status == points[i].status
            &&& unsuspected(seen).contains(seen[i]) <==> seen[i].status != PriceStatus::Anomalous
        }),
{
    let seen = screened(config, points);
    let keep = |p: PriceDataPoint| p.status != PriceStatus::Anomalous;
    if keep(seen[i]) {
        seen.lemma_filter_contains(keep, i);
    }
    if unsuspected(seen).contains(seen[i]) {
        let k = unsuspected(seen).index_of(seen[i]);
        seen.lemma_filter_pred(keep, k);
    }
}

/// Nothing that was set leaves a deviation of five in a hundred, five minutes
/// of freshness, a hundred prices of history, and the median.
pub proof fn settings_have_defaults(ledger: PriceFeedLedger)
    ensures
        ledger.validation_config is None ==> ledger.config().max_deviation_bps == 500
            && ledger.config().default_ttl_seconds == 300 && ledger.config().max_history_entries
            == 100 && ledger.config().alert_on_anomaly,
        ledger.validation_config matches Some(config) ==> ledger.config() == config,
        ledger.default_method is None ==> ledger.method() == AggregationMethod::Median,
        ledger.default_method matches Some(method) ==> ledger.method() == method,
{
}

/// The sources of a price are asked in order. What the oracles say counts
/// where any of it can be relied on; else what is cached, for twice the time
/// it is kept; else what was set to fall back on, which is marked as such and
/// has no sources.
pub proof fn sources_are_asked_in_order(ledger: PriceFeedLedger, asset: Symbol, now: u64)
    ensures
        ({
            let r = ledger.resolution(asset, now);
            let points = ledger.reliable(asset, now);
            let kept = ledger.cached_prices[asset];
            let in_time = ledger.cached_prices.contains_key(asset) && now <= kept.cached_at + 2
                * kept.ttl_seconds;
            &&& points.len() > 0 ==> r == Ok::<AggregatedPrice, PriceFeedError>(
                aggregation::aggregated(points, ledger.method(), now),
            )
            &&& points.len() == 0 && in_time ==> r == Ok::<AggregatedPrice, PriceFeedError>(
                kept.aggregated,
            )
            &&& points.len() == 0 && !in_time && ledger.fallback_prices.contains_key(asset) ==> {
                &&& r is Ok
                &&& r->Ok_0.asset == asset && r->Ok_0.price == ledger.fallback_prices[asset]
                &&& r->Ok_0.timestamp == now && r->Ok_0.num_sources == 0 && r->Ok_0.status
                    == PriceStatus::Fallback
            }
        }),
{
}

/// Every price that is relied on was offered by an oracle, is fresh, and is no
/// anomaly among those that are.
pub proof fn reliable_prices_are_fresh(
    ledger: PriceFeedLedger,
    asset: Symbol,
    now: u64,
    i: int,
)
    requires
        0 <= i < ledger.reliable(asset, now).len(),
    ensures
        ({
            let p = ledger.reliable(asset, now)[i];
            &&& !stale(ledger.config(), p, now)
            &&& p.status != PriceStatus::Anomalous
            &&& !anomalous(
                p.price as int,
                median(ledger.candidates(asset, now))->Some_0 as int,
                ledger.config().max_deviation_bps as int,
            )
        }),
{
    let config = ledger.config();
    let from = ledger.candidates(asset, now);
    let seen = screened(config, from);
    let kept = unsuspected(seen);
    let keep = |p: PriceDataPoint| p.status != PriceStatus::Anomalous;
    let young = |p: PriceDataPoint| !stale(config, p, now);
    seen.lemma_filter_pred(keep, i);
    seen.lemma_filter_contains_rev(keep, kept[i]);
    let k = seen.index_of(kept[i]);
    screening_marks_anomalies(config, from, k);
    let all = oracle::offers(
        ledger,
        oracle::active(oracle::providers(ledger.oracles)),
        asset,
        now,
    );
    all.lemma_filter_pred(young, k);
}

/// A history keeps its most recent prices in order.
pub proof fn histories_keep_the_most_recent(
    history: Seq<PriceHistoryEntry>,
    entry: PriceHistoryEntry,
    max: int,
    i: int,
)
    requires
        0 <= max,
    ensures
        ({
            let after = extended(history, entry, max);
            &&& history.len() < max ==> after.len() == history.len() + 1
            &&& history.len() >= max ==> after.len() == max
            &&& 0 <= i < after.len() - 1 ==> after[i] == history[history.len() + 1 - after.len()
                + i]
        }),
{
}

} // verus!
