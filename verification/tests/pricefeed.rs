use astraport::pricefeed::oracle::OracleManager;
use astraport::pricefeed::records::{
    AggregatedPrice, AggregationMethod, CachedPrice, OracleProvider, PriceDataPoint,
    PriceFeedError, PriceFeedStore, PriceStatus, PriceValidationConfig,
};
use astraport::pricefeed::validation::{
    calculate_median, can_resolve, default_validation_config, filter_stale, get_default_aggregation_method,
    get_fallback_price, get_price_history, get_validation_config, is_anomalous, is_stale,
    record_price_history, resolve_price, set_default_aggregation_method, set_fallback_price,
    set_validation_config, validate_prices,
};
use astraport::values::Symbol;
use soroban_sdk::Env;

fn symbol(text: &str) -> Symbol {
    Symbol::from_text(text)
}

fn provider(id: &str, is_active: bool) -> OracleProvider {
    OracleProvider { provider_id: symbol(id), name: symbol(id), is_active, max_staleness: 100 }
}

fn point(id: &str, price: i128, timestamp: u64) -> PriceDataPoint {
    PriceDataPoint {
        asset: symbol("BTC"),
        provider_id: symbol(id),
        price,
        timestamp,
        status: PriceStatus::Valid,
    }
}

fn feed(prices: &[(&str, i128, u64)]) -> PriceFeedStore {
    let mut store = PriceFeedStore::new();
    for (id, price, timestamp) in prices {
        OracleManager::register_provider(&mut store, provider(id, true)).unwrap();
        OracleManager::submit_price(&mut store, point(id, *price, *timestamp));
    }
    store
}

#[test]
fn a_provider_is_registered_once() {
    let mut store = PriceFeedStore::new();
    assert_eq!(
        OracleManager::register_provider(&mut store, provider("a", true)),
        Ok(symbol("a"))
    );
    assert_eq!(
        OracleManager::register_provider(&mut store, provider("a", false)),
        Err(PriceFeedError::OracleAlreadyExists)
    );
    assert_eq!(OracleManager::get_provider(&store, symbol("a")), Some(provider("a", true)));
    assert_eq!(
        OracleManager::update_provider(&mut store, provider("b", true)),
        Err(PriceFeedError::OracleNotFound)
    );
    OracleManager::update_provider(&mut store, provider("a", false)).unwrap();
    assert_eq!(OracleManager::get_active_providers(&store), vec![]);
    assert_eq!(OracleManager::remove_provider(&mut store, symbol("a")), Ok(()));
    assert_eq!(
        OracleManager::remove_provider(&mut store, symbol("a")),
        Err(PriceFeedError::OracleNotFound)
    );
}

#[test]
fn providers_are_listed_by_id() {
    let store = feed(&[("c", 1, 1), ("a", 2, 1), ("b", 3, 1)]);
    let ids: Vec<Symbol> =
        OracleManager::get_all_providers(&store).iter().map(|p| p.provider_id).collect();
    assert_eq!(ids, vec![symbol("a"), symbol("b"), symbol("c")]);
}

#[test]
fn a_submitted_price_is_fetched_back() {
    let mut store = PriceFeedStore::new();
    assert_eq!(OracleManager::fetch_price(&store, symbol("BTC"), symbol("a")), None);
    let n = OracleManager::batch_submit_prices(
        &mut store,
        &vec![point("a", 1, 5), point("b", 2, 5), point("a", 3, 6)],
    );
    assert_eq!(n, 3);
    assert_eq!(
        OracleManager::fetch_price(&store, symbol("BTC"), symbol("a")),
        Some(point("a", 3, 6))
    );
    assert_eq!(OracleManager::submit_price(&mut store, point("a", 4, 7)), symbol("ok"));
}

#[test]
fn prices_older_than_their_oracle_allows_are_left_out() {
    let mut store = feed(&[("a", 10, 900), ("b", 11, 899), ("c", 12, 950)]);
    OracleManager::update_provider(&mut store, provider("c", false)).unwrap();
    let points = OracleManager::fetch_all_for_asset(&store, symbol("BTC"), 1_000);
    assert_eq!(points, vec![point("a", 10, 900)]);
    assert_eq!(OracleManager::fetch_all_for_asset(&store, symbol("ETH"), 1_000), vec![]);
}

#[test]
fn the_default_settings_hold_until_they_are_changed() {
    let mut store = PriceFeedStore::new();
    assert_eq!(get_validation_config(&store), default_validation_config());
    assert_eq!(default_validation_config().max_deviation_bps, 500);
    assert_eq!(default_validation_config().default_ttl_seconds, 300);
    assert_eq!(default_validation_config().max_history_entries, 100);
    assert!(default_validation_config().alert_on_anomaly);
    let config = PriceValidationConfig {
        default_ttl_seconds: 10,
        ..default_validation_config()
    };
    set_validation_config(&mut store, &config);
    assert_eq!(get_validation_config(&store), config);
    assert_eq!(get_default_aggregation_method(&store), AggregationMethod::Median);
    set_default_aggregation_method(&mut store, &AggregationMethod::Latest);
    assert_eq!(get_default_aggregation_method(&store), AggregationMethod::Latest);
}

#[test]
fn a_price_is_stale_after_its_time() {
    let store = PriceFeedStore::new();
    assert!(!is_stale(&store, &point("a", 1, 700), 1_000));
    assert!(is_stale(&store, &point("a", 1, 699), 1_000));
    assert!(is_stale(&store, &point("a", 1, 0), 1_000));
    assert!(is_stale(&store, &point("a", 1, 700), 0));
    let points = vec![point("a", 1, 10), point("b", 2, 800)];
    assert_eq!(filter_stale(&store, &points, 1_000), vec![point("b", 2, 800)]);
}

#[test]
fn the_median_is_the_middle() {
    let env = Env::default();
    assert_eq!(calculate_median(&env, &vec![]), None);
    assert_eq!(calculate_median(&env, &vec![point("a", 7, 1)]), Some(7));
    let odd = vec![point("a", 30, 1), point("b", 10, 1), point("c", 20, 1)];
    assert_eq!(calculate_median(&env, &odd), Some(20));
    let even = vec![
        point("a", 30, 1),
        point("b", 10, 1),
        point("c", 25, 1),
        point("d", 10, 1),
    ];
    assert_eq!(calculate_median(&env, &even), Some(17));
    let negative = vec![point("a", -4, 1), point("b", -1, 1)];
    assert_eq!(calculate_median(&env, &negative), Some(-2));
}

#[test]
fn an_anomaly_is_beyond_the_limit() {
    assert!(!is_anomalous(105, 100, 500));
    assert!(is_anomalous(106, 100, 500));
    assert!(is_anomalous(94, 100, 500));
    assert!(!is_anomalous(95, 100, 500));
    assert!(!is_anomalous(1_000, 0, 500));
}

#[test]
fn anomalies_are_marked_and_stale_prices_dropped() {
    let env = Env::default();
    let store = PriceFeedStore::new();
    let points = vec![
        point("a", 100, 990),
        point("b", 200, 990),
        point("c", 101, 990),
        point("d", 100, 5),
    ];
    let valid = validate_prices(&env, &store, &points, 1_000);
    let status: Vec<PriceStatus> = valid.iter().map(|p| p.status).collect();
    assert_eq!(
        status,
        vec![PriceStatus::Valid, PriceStatus::Anomalous, PriceStatus::Valid]
    );
}

#[test]
fn a_price_is_resolved_from_the_oracles_first() {
    let env = Env::default();
    let mut store = feed(&[("a", 100, 990), ("b", 102, 991), ("c", 300, 992)]);
    set_fallback_price(&mut store, symbol("BTC"), 1);
    let price = resolve_price(&env, &store, symbol("BTC"), 1_000).unwrap();
    assert_eq!(
        price,
        AggregatedPrice {
            asset: symbol("BTC"),
            price: 101,
            timestamp: 1_000,
            num_sources: 2,
            method: AggregationMethod::Median,
            status: PriceStatus::Valid,
        }
    );
    set_default_aggregation_method(&mut store, &AggregationMethod::Latest);
    assert_eq!(resolve_price(&env, &store, symbol("BTC"), 1_000).unwrap().price, 102);
}

#[test]
fn the_cache_serves_for_twice_its_time() {
    let env = Env::default();
    let mut store = PriceFeedStore::new();
    let aggregated = AggregatedPrice {
        asset: symbol("BTC"),
        price: 55,
        timestamp: 10,
        num_sources: 3,
        method: AggregationMethod::Median,
        status: PriceStatus::Valid,
    };
    store
        .cached_prices
        .set(symbol("BTC"), CachedPrice { aggregated, cached_at: 100, ttl_seconds: 50 });
    assert_eq!(resolve_price(&env, &store, symbol("BTC"), 200), Ok(aggregated));
    assert_eq!(
        resolve_price(&env, &store, symbol("BTC"), 201),
        Err(PriceFeedError::NoPriceData)
    );
    set_fallback_price(&mut store, symbol("BTC"), 9);
    assert_eq!(get_fallback_price(&store, symbol("BTC")), Some(9));
    let fallback = resolve_price(&env, &store, symbol("BTC"), 201).unwrap();
    assert_eq!(fallback.price, 9);
    assert_eq!(fallback.num_sources, 0);
    assert_eq!(fallback.status, PriceStatus::Fallback);
    assert_eq!(fallback.method, AggregationMethod::Latest);
}

#[test]
fn the_price_history_keeps_the_most_recent() {
    let mut store = PriceFeedStore::new();
    let config = PriceValidationConfig { max_history_entries: 2, ..default_validation_config() };
    set_validation_config(&mut store, &config);
    for (price, now) in [(1, 10), (2, 20), (3, 30)] {
        record_price_history(&mut store, symbol("BTC"), price, 4, now);
    }
    let history = get_price_history(&store, symbol("BTC"));
    assert_eq!(history.len(), 2);
    assert_eq!(history[0].price, 2);
    assert_eq!(history[1].price, 3);
    assert_eq!(history[1].timestamp, 30);
    assert_eq!(history[1].num_sources, 4);
}

#[test]
fn a_price_below_nothing_deviates_too() {
    assert!(is_anomalous(-200, -100, 500));
    assert!(is_anomalous(100, -100, 500));
    assert!(!is_anomalous(-105, -100, 500));
    assert!(is_anomalous(-106, -100, 500));
    assert!(!is_anomalous(i128::MIN, i128::MIN, 0));
}

#[test]
fn each_oracle_is_heard_once() {
    let mut store = feed(&[("a", 10, 500), ("b", 20, 900), ("c", 30, 950)]);
    OracleManager::register_provider(&mut store, provider("d", false)).unwrap();
    OracleManager::submit_price(&mut store, point("d", 40, 950));
    OracleManager::submit_price(&mut store, point("e", 50, 950));
    OracleManager::submit_price(&mut store, point("c", 31, 960));
    let heard = OracleManager::fetch_all_for_asset(&store, symbol("BTC"), 1_000);
    assert_eq!(heard, vec![point("b", 20, 900), point("c", 31, 960)]);
}

#[test]
fn prices_out_of_range_are_noticed() {
    let env = Env::default();
    let now = 1_000;
    assert!(can_resolve(&env, &PriceFeedStore::new(), symbol("BTC"), now));
    assert!(can_resolve(&env, &feed(&[("a", 100, 990), ("b", 102, 990)]), symbol("BTC"), now));
    let huge = feed(&[("a", i128::MAX, 990), ("b", i128::MAX, 990)]);
    assert!(!can_resolve(&env, &huge, symbol("BTC"), now));
    assert!(can_resolve(&env, &huge, symbol("ETH"), now));
    let wide = feed(&[("a", i128::MIN, 990), ("b", 1, 990), ("c", 2, 990)]);
    assert!(!can_resolve(&env, &wide, symbol("BTC"), now));
}
