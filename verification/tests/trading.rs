use astraport::trade::engine::{abort_batch, execute_atomic_batch};
use astraport::trade::orderbook::{
    calculate_fee, cancel_order, get_book_snapshot, get_order, get_pair_config, load_book,
    match_order, place_order, set_pair_config,
};
use astraport::trade::slippage::{
    check_slippage, get_slippage_config, min_acceptable_buy_price, min_acceptable_sell_price,
    set_slippage_config, validate_slippage_pre_trade,
};
use astraport::trade::types::{
    Order, OrderSide, OrderStatus, SlippageConfig, TradeError, TradeLeg, TradePair, TradeStore,
    MAX_ORDERS_PER_PAIR,
};
use astraport::values::{Address, Symbol};

fn address(n: u128) -> Address {
    Address { is_contract: false, hi: 5, lo: n }
}

fn pair_id() -> Symbol {
    Symbol::from_text("XLM_USDC")
}

fn pair() -> TradePair {
    TradePair {
        pair_id: pair_id(),
        base_asset: Symbol::from_text("XLM"),
        quote_asset: Symbol::from_text("USDC"),
        is_active: true,
        min_order_size: 1,
        max_order_size: 1_000_000,
        fee_bps: 100,
    }
}

fn store() -> TradeStore {
    let mut store = TradeStore::new();
    store.pairs.push(pair());
    store
}

fn leg(side: OrderSide, price: i128, amount: i128) -> TradeLeg {
    TradeLeg { pair_id: pair_id(), side, price, amount, max_slippage_bps: Some(10_000) }
}

#[test]
fn a_pair_is_configured_in_place_of_its_last_configuration() {
    let mut store = TradeStore::new();
    let other = TradePair { pair_id: Symbol::from_text("BTC_USDC"), fee_bps: 7, ..pair() };
    set_pair_config(&mut store, pair());
    set_pair_config(&mut store, other);
    set_pair_config(&mut store, TradePair { fee_bps: 25, ..pair() });
    assert_eq!(store.pairs.len(), 2);
    assert_eq!(get_pair_config(&store, &pair_id()).fee_bps, 25);
    assert_eq!(get_pair_config(&store, &other.pair_id), other);
    let unknown = get_pair_config(&store, &Symbol::from_text("ETH_USDC"));
    assert_eq!((unknown.fee_bps, unknown.max_order_size), (0, i128::MAX));
}

#[test]
fn bids_fall_and_asks_rise() {
    let mut store = store();
    for (price, now) in [(10, 1), (12, 2), (11, 3), (12, 4)] {
        place_order(&mut store, &pair_id(), &address(1), OrderSide::Buy, price, 5, now).unwrap();
    }
    for (price, now) in [(20, 5), (18, 6), (19, 7)] {
        place_order(&mut store, &pair_id(), &address(1), OrderSide::Sell, price, 5, now).unwrap();
    }
    let book = load_book(&store, &pair_id());
    let bids: Vec<(i128, u64)> = book.bids.iter().map(|o| (o.price, o.created_at)).collect();
    assert_eq!(bids, vec![(12, 2), (12, 4), (11, 3), (10, 1)]);
    let asks: Vec<i128> = book.asks.iter().map(|o| o.price).collect();
    assert_eq!(asks, vec![18, 19, 20]);
    let snapshot = get_book_snapshot(&store, &pair_id());
    assert_eq!(snapshot.best_bid, 12);
    assert_eq!(snapshot.best_ask, 18);
    assert_eq!(snapshot.spread, 6);
    assert_eq!((snapshot.bid_count, snapshot.ask_count), (4, 3));
}

#[test]
fn an_order_must_be_for_something() {
    let mut store = store();
    assert_eq!(
        place_order(&mut store, &pair_id(), &address(1), OrderSide::Buy, 1, 0, 1),
        Err(TradeError::InvalidOrderAmount)
    );
    assert_eq!(
        place_order(&mut store, &pair_id(), &address(1), OrderSide::Buy, 0, 1, 1),
        Err(TradeError::InvalidOrderAmount)
    );
}

#[test]
fn a_side_of_the_book_is_limited() {
    let mut store = store();
    for n in 0..MAX_ORDERS_PER_PAIR {
        place_order(&mut store, &pair_id(), &address(1), OrderSide::Buy, 5, 1, n as u64).unwrap();
    }
    assert_eq!(
        place_order(&mut store, &pair_id(), &address(1), OrderSide::Buy, 5, 1, 999),
        Err(TradeError::MaxOrdersReached)
    );
}

#[test]
fn matching_takes_the_best_price_first() {
    let mut store = store();
    let a = place_order(&mut store, &pair_id(), &address(1), OrderSide::Sell, 20, 5, 1).unwrap();
    let b = place_order(&mut store, &pair_id(), &address(2), OrderSide::Sell, 10, 5, 2).unwrap();
    place_order(&mut store, &pair_id(), &address(3), OrderSide::Sell, 30, 5, 3).unwrap();
    let (fills, filled) = match_order(&mut store, &pair_id(), &address(9), OrderSide::Buy, 12, 25);
    assert_eq!(filled, 10);
    let taken: Vec<(u64, i128, i128)> =
        fills.iter().map(|f| (f.order_id, f.price, f.amount)).collect();
    assert_eq!(taken, vec![(b, 10, 5), (a, 20, 5)]);
    assert_eq!(get_order(&store, &pair_id(), a).unwrap().status, OrderStatus::Filled);
    assert_eq!(get_book_snapshot(&store, &pair_id()).ask_count, 1);
}

#[test]
fn a_part_of_an_order_stays() {
    let mut store = store();
    let a = place_order(&mut store, &pair_id(), &address(1), OrderSide::Buy, 20, 5, 1).unwrap();
    let (fills, filled) = match_order(&mut store, &pair_id(), &address(9), OrderSide::Sell, 2, 15);
    assert_eq!(filled, 2);
    assert_eq!(fills.len(), 1);
    assert_eq!(fills[0].maker, address(1));
    assert_eq!(fills[0].taker, address(9));
    let order = get_order(&store, &pair_id(), a).unwrap();
    assert_eq!(order.remaining, 3);
    assert_eq!(order.status, OrderStatus::PartiallyFilled);
    assert_eq!(load_book(&store, &pair_id()).bids[0].remaining, 3);
}

#[test]
fn an_order_is_cancelled_by_its_owner() {
    let mut store = store();
    let id = place_order(&mut store, &pair_id(), &address(1), OrderSide::Buy, 20, 5, 1).unwrap();
    assert_eq!(
        cancel_order(&mut store, &pair_id(), id, &address(2), false),
        Err(TradeError::NotOrderOwner)
    );
    assert_eq!(cancel_order(&mut store, &pair_id(), id, &address(1), false), Ok(()));
    assert_eq!(get_order(&store, &pair_id(), id).unwrap().status, OrderStatus::Cancelled);
    assert_eq!(get_book_snapshot(&store, &pair_id()).bid_count, 0);
    assert_eq!(
        cancel_order(&mut store, &pair_id(), id, &address(1), false),
        Err(TradeError::OrderNotFound)
    );
    let id = place_order(&mut store, &pair_id(), &address(1), OrderSide::Sell, 9, 5, 1).unwrap();
    assert_eq!(cancel_order(&mut store, &pair_id(), id, &address(2), true), Ok(()));
}

#[test]
fn a_fee_is_a_share_of_the_value() {
    assert_eq!(calculate_fee(100, 50, 30), 15);
    assert_eq!(calculate_fee(1, 1, 30), 0);
}

#[test]
fn a_price_within_the_tolerance_passes() {
    let config = SlippageConfig { max_slippage_bps: 100, enabled: true };
    assert_eq!(min_acceptable_buy_price(1_000, &config), 1_010);
    assert_eq!(min_acceptable_sell_price(1_000, &config), 990);
    assert_eq!(check_slippage(1_000, 1_010, OrderSide::Buy, &config), Ok(()));
    assert_eq!(
        check_slippage(1_000, 1_011, OrderSide::Buy, &config),
        Err(TradeError::SlippageExceeded)
    );
    assert_eq!(check_slippage(1_000, 990, OrderSide::Sell, &config), Ok(()));
    assert_eq!(
        check_slippage(1_000, 989, OrderSide::Sell, &config),
        Err(TradeError::SlippageExceeded)
    );
    let off = SlippageConfig { enabled: false, ..config };
    assert_eq!(check_slippage(1_000, 9_999, OrderSide::Buy, &off), Ok(()));
}

#[test]
fn the_book_is_looked_at_before_a_trade() {
    let mut store = store();
    let config = SlippageConfig { max_slippage_bps: 100, enabled: true };
    set_slippage_config(&mut store, &pair_id(), &config);
    assert_eq!(get_slippage_config(&store, &pair_id()), config);
    assert_eq!(
        validate_slippage_pre_trade(&store, &pair_id(), OrderSide::Buy, 100, 5, None),
        Ok(())
    );
    place_order(&mut store, &pair_id(), &address(1), OrderSide::Sell, 102, 5, 1).unwrap();
    assert_eq!(
        validate_slippage_pre_trade(&store, &pair_id(), OrderSide::Buy, 100, 5, None),
        Err(TradeError::SlippageExceeded)
    );
    assert_eq!(
        validate_slippage_pre_trade(&store, &pair_id(), OrderSide::Buy, 102, 5, None),
        Ok(())
    );
}

#[test]
fn a_batch_is_all_or_nothing() {
    let mut store = store();
    let ask = place_order(&mut store, &pair_id(), &address(1), OrderSide::Sell, 10, 5, 1).unwrap();
    let legs = vec![leg(OrderSide::Buy, 10, 3), leg(OrderSide::Buy, 10, 0)];
    let refused = execute_atomic_batch(&mut store, &address(9), &legs, &vec![pair()], 50);
    assert!(matches!(refused, Err(TradeError::InvalidOrderAmount)));
    assert_eq!(get_order(&store, &pair_id(), ask).unwrap().remaining, 5);
    let legs = vec![leg(OrderSide::Buy, 10, 3), leg(OrderSide::Buy, 10, 2)];
    let done = execute_atomic_batch(&mut store, &address(9), &legs, &vec![pair()], 50).unwrap();
    assert!(done.success);
    assert_eq!(done.legs.len(), 2);
    assert_eq!(done.total_fills, 2);
    assert_eq!(done.legs[0].filled_amount, 3);
    assert_eq!(done.legs[0].avg_price, 10);
    assert_eq!(done.executed_at, 50);
    assert_eq!(get_order(&store, &pair_id(), ask).unwrap().status, OrderStatus::Filled);
}

#[test]
fn every_leg_is_checked_before_the_first_one_trades() {
    let mut store = store();
    place_order(&mut store, &pair_id(), &address(1), OrderSide::Sell, 100, 5, 1).unwrap();
    place_order(&mut store, &pair_id(), &address(1), OrderSide::Sell, 200, 5, 2).unwrap();
    let config = SlippageConfig { max_slippage_bps: 500, enabled: true };
    set_slippage_config(&mut store, &pair_id(), &config);
    let strict = || TradeLeg { max_slippage_bps: None, ..leg(OrderSide::Buy, 100, 5) };
    let legs = vec![strict(), strict()];
    let done = execute_atomic_batch(&mut store, &address(9), &legs, &vec![pair()], 50).unwrap();
    assert_eq!(done.legs[0].filled_amount, 5);
    assert_eq!(done.legs[1].filled_amount, 0);
    assert_eq!(done.legs[1].avg_price, 0);
    let refused = execute_atomic_batch(&mut store, &address(9), &legs, &vec![pair()], 60);
    assert!(matches!(refused, Err(TradeError::SlippageExceeded)));
    let loose = vec![leg(OrderSide::Buy, 100, 5)];
    let done = execute_atomic_batch(&mut store, &address(9), &loose, &vec![pair()], 60);
    assert_eq!(done.unwrap().total_fills, 0);
}

#[test]
fn a_batch_is_refused_for_a_reason() {
    let mut store = store();
    let empty = execute_atomic_batch(&mut store, &address(9), &vec![], &vec![pair()], 50);
    assert!(matches!(empty, Err(TradeError::EmptyBatch)));
    let legs = vec![leg(OrderSide::Buy, 10, 3)];
    let unknown = execute_atomic_batch(&mut store, &address(9), &legs, &vec![], 50);
    assert!(matches!(unknown, Err(TradeError::PairNotFound)));
    let off = TradePair { is_active: false, ..pair() };
    let inactive = execute_atomic_batch(&mut store, &address(9), &legs, &vec![off], 50);
    assert!(matches!(inactive, Err(TradeError::PairInactive)));
    let small = TradePair { min_order_size: 4, ..pair() };
    let too_small = execute_atomic_batch(&mut store, &address(9), &legs, &vec![small], 50);
    assert!(matches!(too_small, Err(TradeError::InvalidOrderAmount)));
}

#[test]
fn aborting_gives_a_reason() {
    assert_eq!(abort_batch("empty_batch"), TradeError::EmptyBatch);
    assert_eq!(abort_batch("pair_not_found"), TradeError::PairNotFound);
    assert_eq!(abort_batch("slippage_exceeded"), TradeError::SlippageExceeded);
    assert_eq!(abort_batch("insufficient_liquidity"), TradeError::InsufficientLiquidity);
    assert_eq!(abort_batch("anything else"), TradeError::EmptyBatch);
}

fn resting(store: &TradeStore) -> (Vec<Order>, Vec<Order>) {
    let book = load_book(store, &pair_id());
    (book.bids, book.asks)
}

#[test]
fn cancelling_gives_the_book_back() {
    let mut store = store();
    for (side, price) in [(OrderSide::Buy, 10), (OrderSide::Buy, 12), (OrderSide::Sell, 20)] {
        place_order(&mut store, &pair_id(), &address(1), side, price, 5, 1).unwrap();
    }
    let before = resting(&store);
    for (side, price) in [(OrderSide::Buy, 11), (OrderSide::Buy, 12), (OrderSide::Sell, 19)] {
        for is_admin in [false, true] {
            let id =
                place_order(&mut store, &pair_id(), &address(2), side, price, 4, 2).unwrap();
            assert_ne!(resting(&store), before);
            assert_eq!(
                cancel_order(&mut store, &pair_id(), id, &address(3), false),
                Err(TradeError::NotOrderOwner)
            );
            let caller = if is_admin { address(3) } else { address(2) };
            assert_eq!(cancel_order(&mut store, &pair_id(), id, &caller, is_admin), Ok(()));
            assert_eq!(resting(&store), before);
            let order = get_order(&store, &pair_id(), id).unwrap();
            assert_eq!((order.status, order.remaining), (OrderStatus::Cancelled, 0));
            assert_eq!(
                cancel_order(&mut store, &pair_id(), id, &caller, is_admin),
                Err(TradeError::OrderNotFound)
            );
        }
    }
}
