//! Slippage protection.
//!
//! Slippage is how far a fill price is worse than the limit price, in basis
//! points of the limit price. A price that is better than the limit is never
//! refused.
use crate::math;
use crate::math::BPS_DENOM;
use crate::trade::orderbook;
use crate::trade::types;
use crate::trade::types::{OrderSide, SlippageConfig, TradeError, TradeLedger, TradeStore};
use crate::values::Symbol;
use vstd::prelude::*;

verus! {

impl TradeLedger {
    /// The tolerance of a pair; no check before one is set.
    pub open spec fn tolerance(self, pair_id: Symbol) -> SlippageConfig {
        if self.slippage.contains_key(pair_id) {
            self.slippage[pair_id]
        } else {
            types::unset_slippage()
        }
    }
}

/// Whether a tolerance is checked at all.
pub open spec fn is_checked(config: SlippageConfig) -> bool {
    config.enabled && config.max_slippage_bps > 0
}

/// How much worse than the limit a fill price is.
pub open spec fn shortfall(limit_price: int, fill_price: int, side: OrderSide) -> int {
    match side {
        OrderSide::Buy => fill_price - limit_price,
        OrderSide::Sell => limit_price - fill_price,
    }
}

/// What the check of a fill price against a limit price gives.
pub open spec fn slippage_verdict(
    limit_price: int,
    fill_price: int,
    side: OrderSide,
    config: SlippageConfig,
) -> Result<(), TradeError> {
    let worse = shortfall(limit_price, fill_price, side);
    if !is_checked(config) {
        Ok(())
    } else if limit_price <= 0 || fill_price <= 0 {
        Err(TradeError::SlippageExceeded)
    } else if worse <= 0 {
        Ok(())
    } else if !math::fits(worse * BPS_DENOM) {
        Err(TradeError::ArithmeticOverflow)
    } else if worse * BPS_DENOM / limit_price > config.max_slippage_bps {
        Err(TradeError::SlippageExceeded)
    } else {
        Ok(())
    }
}

/// Set the tolerance of a pair.
pub fn set_slippage_config(store: &mut TradeStore, pair_id: &Symbol, config: &SlippageConfig)
    ensures
        final(store)@ == (TradeLedger {
            slippage: old(store)@.slippage.insert(*pair_id, *config),
            ..old(store)@
        }),
{
    store.slippage.set(*pair_id, *config);
}

/// The tolerance of a pair.
pub fn get_slippage_config(store: &TradeStore, pair_id: &Symbol) -> (config: SlippageConfig)
    ensures
        config == store@.tolerance(*pair_id),
{
    match store.slippage.get(pair_id) {
        Some(c) => *c,
        None => SlippageConfig::default(),
    }
}

/// Check a fill price against the limit price of an order.
pub fn check_slippage(
    limit_price: i128,
    fill_price: i128,
    side: OrderSide,
    config: &SlippageConfig,
) -> (r: Result<(), TradeError>)
    ensures
        r == slippage_verdict(limit_price as int, fill_price as int, side, *config),
{
    if !config.enabled || config.max_slippage_bps <= 0 {
        return Ok(());
    }
    if limit_price <= 0 || fill_price <= 0 {
        return Err(TradeError::SlippageExceeded);
    }
    let worse: i128 = match side {
        OrderSide::Buy => {
            if fill_price <= limit_price {
                return Ok(());
            }
            fill_price - limit_price
        },
        OrderSide::Sell => {
            if fill_price >= limit_price {
                return Ok(());
            }
            limit_price - fill_price
        },
    };
    match worse.checked_mul(BPS_DENOM) {
        None => Err(TradeError::ArithmeticOverflow),
        Some(scaled) => {
            proof {
                math::lemma_quot_shrinks(scaled as int, limit_price as int);
            }
            let slippage_bps = scaled / limit_price;
            if slippage_bps > config.max_slippage_bps {
                Err(TradeError::SlippageExceeded)
            } else {
                Ok(())
            }
        },
    }
}

/// What the check against the best price in the book gives; nothing is
/// refused while the other side is empty.
pub open spec fn pre_trade_verdict(
    ledger: TradeLedger,
    pair_id: Symbol,
    side: OrderSide,
    limit_price: int,
    config: SlippageConfig,
) -> Result<(), TradeError> {
    let makers = ledger.book(pair_id).side(orderbook::opposite(side));
    if makers.len() == 0 {
        Ok(())
    } else {
        slippage_verdict(limit_price, makers[0].price as int, side, config)
    }
}

/// Check a limit price against the best price in the book before trading,
/// with the given tolerance or else the pair's own.
pub fn validate_slippage_pre_trade(
    store: &TradeStore,
    pair_id: &Symbol,
    side: OrderSide,
    limit_price: i128,
    _amount: i128,
    config_override: Option<&SlippageConfig>,
) -> (r: Result<(), TradeError>)
    ensures
        r == pre_trade_verdict(
            store@,
            *pair_id,
            side,
            limit_price as int,
            match config_override {
                Some(c) => *c,
                None => store@.tolerance(*pair_id),
            },
        ),
{
    let config = match config_override {
        Some(c) => *c,
        None => get_slippage_config(store, pair_id),
    };
    if !config.enabled || config.max_slippage_bps <= 0 {
        return Ok(());
    }
    let book = orderbook::load_book(store, pair_id);
    let worst_price: i128 = match side {
        OrderSide::Buy => {
            if book.asks.len() == 0 {
                return Ok(());
            }
            book.asks[0].price
        },
        OrderSide::Sell => {
            if book.bids.len() == 0 {
                return Ok(());
            }
            book.bids[0].price
        },
    };
    check_slippage(limit_price, worst_price, side, &config)
}

/// How far a price may be off its limit.
pub open spec fn leeway(limit_price: int, config: SlippageConfig) -> int {
    limit_price * config.max_slippage_bps / (BPS_DENOM as int)
}

/// The highest price that a buy order accepts, 0 where nothing is checked.
pub fn min_acceptable_buy_price(limit_price: i128, config: &SlippageConfig) -> (price: i128)
    requires
        is_checked(*config) && limit_price > 0 ==> math::fits(
            limit_price * config.max_slippage_bps,
        ) && math::fits(limit_price + leeway(limit_price as int, *config)),
    ensures
        price == (if is_checked(*config) && limit_price > 0 {
            limit_price + leeway(limit_price as int, *config)
        } else {
            0
        }),
{
    if !config.enabled || config.max_slippage_bps <= 0 || limit_price <= 0 {
        return 0;
    }
    proof {
        let product = limit_price * config.max_slippage_bps;
        assert(product >= 0) by (nonlinear_arith)
            requires
                product == limit_price * config.max_slippage_bps,
                limit_price > 0,
                config.max_slippage_bps > 0,
        ;
    }
    limit_price + (limit_price * config.max_slippage_bps / BPS_DENOM)
}

/// The lowest price that a sell order accepts, at least 1; 0 where nothing
/// is checked.
pub fn min_acceptable_sell_price(limit_price: i128, config: &SlippageConfig) -> (price: i128)
    requires
        is_checked(*config) && limit_price > 0 ==> math::fits(
            limit_price * config.max_slippage_bps,
        ),
    ensures
        price == (if !(is_checked(*config) && limit_price > 0) {
            0
        } else if limit_price - leeway(limit_price as int, *config) < 1 {
            1
        } else {
            limit_price - leeway(limit_price as int, *config)
        }),
{
    if !config.enabled || config.max_slippage_bps <= 0 || limit_price <= 0 {
        return 0;
    }
    proof {
        let product = limit_price * config.max_slippage_bps;
        assert(product >= 0) by (nonlinear_arith)
            requires
                product == limit_price * config.max_slippage_bps,
                limit_price > 0,
                config.max_slippage_bps > 0,
        ;
    }
    let min_price = limit_price - (limit_price * config.max_slippage_bps / BPS_DENOM);
    if min_price < 1 {
        1
    } else {
        min_price
    }
}

/// A buy that is filled no higher than the highest acceptable price, or a
/// sell no lower than the lowest one, passes the slippage check.
pub proof fn acceptable_prices_pass(
    limit_price: i128,
    fill_price: i128,
    side: OrderSide,
    config: SlippageConfig,
)
    requires
        limit_price > 0,
        fill_price > 0,
        is_checked(config),
        math::fits(limit_price * config.max_slippage_bps),
        shortfall(limit_price as int, fill_price as int, side) <= leeway(
            limit_price as int,
            config,
        ),
    ensures
        slippage_verdict(limit_price as int, fill_price as int, side, config)
            == Ok::<(), TradeError>(()),
{
    let worse = shortfall(limit_price as int, fill_price as int, side);
    let product = limit_price * config.max_slippage_bps;
    if worse > 0 {
        assert(worse * BPS_DENOM <= product);
        assert(worse * BPS_DENOM / (limit_price as int) <= config.max_slippage_bps)
            by (nonlinear_arith)
            requires
                worse * BPS_DENOM <= limit_price * config.max_slippage_bps,
                limit_price > 0,
        ;
    }
}

/// The check lets a price through exactly where it is no worse than the limit
/// by more than the tolerance, counted in whole ten-thousandths of the limit:
/// worse is higher for a buy and lower for a sell. A tolerance that is
/// switched off or not above zero checks nothing.
pub proof fn tolerances_are_shares_of_the_limit(
    limit_price: int,
    fill_price: int,
    side: OrderSide,
    config: SlippageConfig,
)
    ensures
        !config.enabled || config.max_slippage_bps <= 0 ==> slippage_verdict(
            limit_price,
            fill_price,
            side,
            config,
        ) is Ok,
        config.enabled && config.max_slippage_bps > 0 && (limit_price <= 0 || fill_price <= 0)
            ==> slippage_verdict(limit_price, fill_price, side, config) == Err::<(), TradeError>(
            TradeError::SlippageExceeded,
        ),
        config.enabled && config.max_slippage_bps > 0 && limit_price > 0 && fill_price > 0 ==> {
            let verdict = slippage_verdict(limit_price, fill_price, side, config);
            let worse = if side == OrderSide::Buy {
                fill_price - limit_price
            } else {
                limit_price - fill_price
            };
            let within = worse * 10_000 < (config.max_slippage_bps + 1) * limit_price;
            &&& verdict is Ok ==> within
            &&& worse * 10_000 <= i128::MAX && within ==> verdict is Ok
            &&& worse * 10_000 <= i128::MAX && !within ==> verdict == Err::<(), TradeError>(
                TradeError::SlippageExceeded,
            )
            &&& worse * 10_000 > i128::MAX ==> verdict == Err::<(), TradeError>(
                TradeError::ArithmeticOverflow,
            )
        },
{
    if is_checked(config) && limit_price > 0 && fill_price > 0 {
        let worse = shortfall(limit_price, fill_price, side);
        let max = config.max_slippage_bps as int;
        if worse > 0 {
            let a = worse * 10_000;
            math::quotients_round_toward_zero(a, limit_price);
            let q = a / limit_price;
            if q <= max {
                assert((q + 1) * limit_price <= (max + 1) * limit_price) by (nonlinear_arith)
                    requires
                        q <= max,
                        limit_price > 0,
                ;
            } else {
                assert((max + 1) * limit_price <= q * limit_price) by (nonlinear_arith)
                    requires
                        max + 1 <= q,
                        limit_price > 0,
                ;
            }
        } else {
            assert((max + 1) * limit_price > 0) by (nonlinear_arith)
                requires
                    max > 0,
                    limit_price > 0,
            ;
        }
    }
}

/// How far a price may be off its limit is the tolerance in ten-thousandths of
/// the limit, rounded down.
pub proof fn leeways_are_shares_of_the_limit(limit_price: int, config: SlippageConfig)
    requires
        limit_price > 0,
        config.max_slippage_bps > 0,
    ensures
        leeway(limit_price, config) * 10_000 <= limit_price * config.max_slippage_bps < (leeway(
            limit_price,
            config,
        ) + 1) * 10_000,
{
}

/// Before trading, a buy is held against the lowest ask and a sell against the
/// highest bid; nothing is refused where that side is empty.
pub proof fn the_best_price_is_checked(
    ledger: TradeLedger,
    pair_id: Symbol,
    limit_price: int,
    config: SlippageConfig,
)
    ensures
        ledger.book(pair_id).asks.len() == 0 ==> pre_trade_verdict(
            ledger,
            pair_id,
            OrderSide::Buy,
            limit_price,
            config,
        ) is Ok,
        ledger.book(pair_id).asks.len() > 0 ==> pre_trade_verdict(
            ledger,
            pair_id,
            OrderSide::Buy,
            limit_price,
            config,
        ) == slippage_verdict(
            limit_price,
            ledger.book(pair_id).asks[0].price as int,
            OrderSide::Buy,
            config,
        ),
        ledger.book(pair_id).bids.len() == 0 ==> pre_trade_verdict(
            ledger,
            pair_id,
            OrderSide::Sell,
            limit_price,
            config,
        ) is Ok,
        ledger.book(pair_id).bids.len() > 0 ==> pre_trade_verdict(
            ledger,
            pair_id,
            OrderSide::Sell,
            limit_price,
            config,
        ) == slippage_verdict(
            limit_price,
            ledger.book(pair_id).bids[0].price as int,
            OrderSide::Sell,
            config,
        ),
{
}

} // verus!
