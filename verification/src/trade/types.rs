//! What the trading engine stores and hands out.
use crate::table::{Duplicate, Table};
use crate::values::{Address, Symbol};
use vstd::prelude::*;

verus! {

/// Orders that one side of a book may hold.
pub const MAX_ORDERS_PER_PAIR: u32 = 100;

/// Why a trade was refused.
#[derive(Clone, Copy, PartialEq, Eq, Structural, Debug)]
pub enum TradeError {
    /// The side of the book is full.
    MaxOrdersReached,
    /// An amount or price is not positive, or below the pair's minimum.
    InvalidOrderAmount,
    /// No such order, or it is no longer open.
    OrderNotFound,
    /// The caller neither owns the order nor is the administrator.
    NotOrderOwner,
    /// The batch has no legs.
    EmptyBatch,
    /// The pair is not configured.
    PairNotFound,
    /// The pair is switched off.
    PairInactive,
    /// The price is worse than the tolerance allows.
    SlippageExceeded,
    /// The book cannot fill the order.
    InsufficientLiquidity,
    /// A total left the range of its type.
    ArithmeticOverflow,
}

/// The side an order takes.
#[derive(Clone, Copy, PartialEq, Eq, Structural, Debug)]
pub enum OrderSide {
    Buy,
    Sell,
}

/// Where an order is in its life.
#[derive(Clone, Copy, PartialEq, Eq, Structural, Debug)]
pub enum OrderStatus {
    Active,
    PartiallyFilled,
    Filled,
    Cancelled,
}

/// A limit order.
#[derive(Clone, Copy, PartialEq, Eq, Structural, Debug)]
pub struct Order {
    pub order_id: u64,
    pub pair_id: Symbol,
    pub owner: Address,
    pub side: OrderSide,
    pub price: i128,
    pub amount: i128,
    pub remaining: i128,
    pub status: OrderStatus,
    pub created_at: u64,
}

/// The open orders of a pair, best price first on either side.
pub struct OrderBook {
    pub pair_id: Symbol,
    pub bids: Vec<Order>,
    pub asks: Vec<Order>,
}

/// An order book as a value.
pub struct BookView {
    pub pair_id: Symbol,
    pub bids: Seq<Order>,
    pub asks: Seq<Order>,
}

impl BookView {
    /// The orders on one side.
    pub open spec fn side(self, side: OrderSide) -> Seq<Order> {
        match side {
            OrderSide::Buy => self.bids,
            OrderSide::Sell => self.asks,
        }
    }

    /// The book with one side replaced.
    pub open spec fn with_side(self, side: OrderSide, orders: Seq<Order>) -> BookView {
        match side {
            OrderSide::Buy => BookView { bids: orders, ..self },
            OrderSide::Sell => BookView { asks: orders, ..self },
        }
    }
}

impl View for OrderBook {
    type V = BookView;

    open spec fn view(&self) -> BookView {
        BookView { pair_id: self.pair_id, bids: self.bids@, asks: self.asks@ }
    }
}

impl Duplicate for OrderBook {
    fn duplicate(&self) -> (copy: Self) {
        OrderBook {
            pair_id: self.pair_id,
            bids: crate::table::copy_list(&self.bids),
            asks: crate::table::copy_list(&self.asks),
        }
    }
}

/// The top of a book.
#[derive(Clone, Copy, PartialEq, Eq, Structural, Debug)]
pub struct OrderBookSnapshot {
    pub pair_id: Symbol,
    pub bid_count: u32,
    pub ask_count: u32,
    pub best_bid: i128,
    pub best_ask: i128,
    pub spread: i128,
}

/// One execution against a resting order.
#[derive(Clone, Copy, PartialEq, Eq, Structural, Debug)]
pub struct Fill {
    pub order_id: u64,
    pub pair_id: Symbol,
    pub taker: Address,
    pub maker: Address,
    pub side: OrderSide,
    pub price: i128,
    pub amount: i128,
    pub fee: i128,
}

/// The configuration of a trading pair.
#[derive(Clone, Copy, PartialEq, Eq, Structural, Debug)]
pub struct TradePair {
    pub pair_id: Symbol,
    pub base_asset: Symbol,
    pub quote_asset: Symbol,
    pub is_active: bool,
    pub min_order_size: i128,
    pub max_order_size: i128,
    pub fee_bps: i128,
}

/// One leg of an atomic batch.
#[derive(Clone, Copy, PartialEq, Eq, Structural, Debug)]
pub struct TradeLeg {
    pub pair_id: Symbol,
    pub side: OrderSide,
    pub price: i128,
    pub amount: i128,
    pub max_slippage_bps: Option<i128>,
}

/// How far a fill may stray from the limit price.
#[derive(Clone, Copy, PartialEq, Eq, Structural, Debug)]
pub struct SlippageConfig {
    pub max_slippage_bps: i128,
    pub enabled: bool,
}

impl Default for SlippageConfig {
    fn default() -> (config: Self)
        ensures
            config == unset_slippage(),
    {
        SlippageConfig { max_slippage_bps: 0, enabled: false }
    }
}

/// The tolerance of a pair for which none was set: no check is made.
pub open spec fn unset_slippage() -> SlippageConfig {
    SlippageConfig { max_slippage_bps: 0, enabled: false }
}

/// What one leg of a batch did.
pub struct LegResult {
    pub pair_id: Symbol,
    pub fills: Vec<Fill>,
    pub filled_amount: i128,
    pub avg_price: i128,
    pub total_fees: i128,
}

/// The outcome of a leg as a value.
pub struct LegView {
    pub pair_id: Symbol,
    pub fills: Seq<Fill>,
    pub filled_amount: int,
    pub avg_price: int,
    pub total_fees: int,
}

impl View for LegResult {
    type V = LegView;

    open spec fn view(&self) -> LegView {
        LegView {
            pair_id: self.pair_id,
            fills: self.fills@,
            filled_amount: self.filled_amount as int,
            avg_price: self.avg_price as int,
            total_fees: self.total_fees as int,
        }
    }
}

/// What an atomic batch did.
pub struct AtomicBatchResult {
    pub success: bool,
    pub legs: Vec<LegResult>,
    pub total_fills: u32,
    pub executed_at: u64,
    pub failure_reason: Symbol,
}

/// Everything the trading engine keeps between calls.
pub struct TradeStore {
    pub books: Table<Symbol, OrderBook>,
    pub counters: Table<Symbol, u64>,
    pub orders: Table<(Symbol, u64), Order>,
    pub pairs: Vec<TradePair>,
    pub slippage: Table<Symbol, SlippageConfig>,
    pub volumes: Table<Symbol, i128>,
}

/// The trading engine's state as a value.
pub struct TradeLedger {
    pub books: Map<Symbol, BookView>,
    pub counters: Map<Symbol, u64>,
    pub orders: Map<(Symbol, u64), Order>,
    pub pairs: Seq<TradePair>,
    pub slippage: Map<Symbol, SlippageConfig>,
    pub volumes: Map<Symbol, i128>,
}

impl View for TradeStore {
    type V = TradeLedger;

    open spec fn view(&self) -> TradeLedger {
        TradeLedger {
            books: self.books@.map_values(|b: OrderBook| b@),
            counters: self.counters@,
            orders: self.orders@,
            pairs: self.pairs@,
            slippage: self.slippage@,
            volumes: self.volumes@,
        }
    }
}

impl TradeStore {
    /// A store in which nothing has happened.
    pub fn new() -> (store: TradeStore)
        ensures
            store@.books == Map::<Symbol, BookView>::empty(),
            store@.counters == Map::<Symbol, u64>::empty(),
            store@.orders == Map::<(Symbol, u64), Order>::empty(),
            store@.pairs == Seq::<TradePair>::empty(),
            store@.slippage == Map::<Symbol, SlippageConfig>::empty(),
            store@.volumes == Map::<Symbol, i128>::empty(),
    {
        let store = TradeStore {
            books: Table::new(),
            counters: Table::new(),
            orders: Table::new(),
            pairs: Vec::new(),
            slippage: Table::new(),
            volumes: Table::new(),
        };
        assert(store@.books =~= Map::<Symbol, BookView>::empty());
        store
    }

    /// A second store with the same content.
    pub fn copy(&self) -> (store: TradeStore)
        ensures
            store@ == self@,
    {
        let store = TradeStore {
            books: self.books.duplicate(),
            counters: self.counters.copy(),
            orders: self.orders.copy(),
            pairs: crate::table::copy_list(&self.pairs),
            slippage: self.slippage.copy(),
            volumes: self.volumes.copy(),
        };
        assert(store@.books =~= self@.books);
        store
    }
}

} // verus!
