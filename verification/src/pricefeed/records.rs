//! What the price feed keeps.
use crate::table;
use crate::table::{OrderedTable, Table};
use crate::values::Symbol;
use vstd::prelude::*;

verus! {

/// The deviation from the median above which a price is an anomaly, in basis
/// points, where none was set.
pub const DEFAULT_MAX_DEVIATION_BPS: i128 = 500;

/// How many seconds a price counts as fresh where nothing else was set.
pub const DEFAULT_CACHE_TTL_SECONDS: u64 = 300;

/// How many prices a history keeps where nothing else was set.
pub const MAX_PRICE_HISTORY: u32 = 100;

/// Why a request was refused.
#[derive(Clone, Copy, PartialEq, Eq, PartialOrd, Ord, Structural, Debug)]
pub enum PriceFeedError {
    /// The oracle is not registered.
    OracleNotFound,
    /// The oracle is registered already.
    OracleAlreadyExists,
    /// No source has a price.
    NoPriceData,
}

/// What is known about a price.
#[derive(Clone, Copy, PartialEq, Eq, Structural, Debug)]
pub enum PriceStatus {
    Valid,
    Stale,
    Anomalous,
    Fallback,
}

/// How several prices become one.
#[derive(Clone, Copy, PartialEq, Eq, Structural, Debug)]
pub enum AggregationMethod {
    /// The middle one of the sorted prices.
    Median,
    /// The most recent one.
    Latest,
}

/// An oracle.
#[derive(Clone, Copy, PartialEq, Eq, Structural, Debug)]
pub struct OracleProvider {
    pub provider_id: Symbol,
    pub name: Symbol,
    pub is_active: bool,
    /// The age in seconds beyond which its prices no longer count.
    pub max_staleness: u64,
}

/// A price that an oracle submitted.
#[derive(Clone, Copy, PartialEq, Eq, Structural, Debug)]
pub struct PriceDataPoint {
    pub asset: Symbol,
    pub provider_id: Symbol,
    pub price: i128,
    pub timestamp: u64,
    pub status: PriceStatus,
}

/// A price that stands for several.
#[derive(Clone, Copy, PartialEq, Eq, Structural, Debug)]
pub struct AggregatedPrice {
    pub asset: Symbol,
    pub price: i128,
    pub timestamp: u64,
    pub num_sources: u32,
    pub method: AggregationMethod,
    pub status: PriceStatus,
}

/// An aggregated price that is kept for a while.
#[derive(Clone, Copy, PartialEq, Eq, Structural, Debug)]
pub struct CachedPrice {
    pub aggregated: AggregatedPrice,
    pub cached_at: u64,
    pub ttl_seconds: u64,
}

/// A price of the past.
#[derive(Clone, Copy, PartialEq, Eq, Structural, Debug)]
pub struct PriceHistoryEntry {
    pub price: i128,
    pub timestamp: u64,
    pub num_sources: u32,
}

/// How prices are validated.
#[derive(Clone, Copy, PartialEq, Eq, Structural, Debug)]
pub struct PriceValidationConfig {
    pub max_deviation_bps: i128,
    pub default_ttl_seconds: u64,
    pub max_history_entries: u32,
    pub alert_on_anomaly: bool,
}

/// The state of the price feed.
pub struct PriceFeedStore {
    pub oracles: OrderedTable<Symbol, OracleProvider>,
    pub latest_points: Table<(Symbol, Symbol), PriceDataPoint>,
    pub validation_config: Option<PriceValidationConfig>,
    pub fallback_prices: Table<Symbol, i128>,
    pub cached_prices: Table<Symbol, CachedPrice>,
    pub histories: Table<Symbol, Vec<PriceHistoryEntry>>,
    pub default_method: Option<AggregationMethod>,
}

/// The state of the price feed as a value.
#[verifier::ext_equal]
pub struct PriceFeedLedger {
    pub oracles: Map<Symbol, OracleProvider>,
    pub latest_points: Map<(Symbol, Symbol), PriceDataPoint>,
    pub validation_config: Option<PriceValidationConfig>,
    pub fallback_prices: Map<Symbol, i128>,
    pub cached_prices: Map<Symbol, CachedPrice>,
    pub histories: Map<Symbol, Seq<PriceHistoryEntry>>,
    pub default_method: Option<AggregationMethod>,
}

impl View for PriceFeedStore {
    type V = PriceFeedLedger;

    open spec fn view(&self) -> PriceFeedLedger {
        PriceFeedLedger {
            oracles: self.oracles.view(),
            latest_points: self.latest_points@,
            validation_config: self.validation_config,
            fallback_prices: self.fallback_prices@,
            cached_prices: self.cached_prices@,
            histories: table::lists(self.histories@),
            default_method: self.default_method,
        }
    }
}

impl PriceFeedLedger {
    /// The price that an oracle submitted last for an asset.
    pub open spec fn point(self, asset: Symbol, provider_id: Symbol) -> Option<PriceDataPoint> {
        if self.latest_points.contains_key((asset, provider_id)) {
            Some(self.latest_points[(asset, provider_id)])
        } else {
            None
        }
    }

    /// Oracles are filed under their ids, and prices under the asset and the
    /// oracle that they are of.
    pub open spec fn wf(self) -> bool {
        &&& forall|id: Symbol| #[trigger]
            self.oracles.contains_key(id) ==> self.oracles[id].provider_id == id
        &&& forall|key: (Symbol, Symbol)| #[trigger]
            self.latest_points.contains_key(key) ==> self.latest_points[key].asset == key.0
                && self.latest_points[key].provider_id == key.1
    }
}

impl PriceFeedStore {
    /// Each oracle is registered once, and everything is filed under its own
    /// id.
    pub open spec fn wf(&self) -> bool {
        &&& self.oracles.wf()
        &&& self@.wf()
    }

    /// A price feed without oracles.
    pub fn new() -> (store: Self)
        ensures
            store.wf(),
            store@ == (PriceFeedLedger {
                oracles: Map::empty(),
                latest_points: Map::empty(),
                validation_config: None,
                fallback_prices: Map::empty(),
                cached_prices: Map::empty(),
                histories: Map::empty(),
                default_method: None,
            }),
    {
        let store = PriceFeedStore {
            oracles: OrderedTable::new(),
            latest_points: Table::new(),
            validation_config: None,
            fallback_prices: Table::new(),
            cached_prices: Table::new(),
            histories: Table::new(),
            default_method: None,
        };
        assert(store@.histories =~= Map::empty());
        store
    }
}

} // verus!
