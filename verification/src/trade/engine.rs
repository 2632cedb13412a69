//! Atomic execution of trades over several pairs.
//!
//! A batch is a list of legs that all succeed or leave no trace. Every leg is
//! checked before the first one trades. The legs then trade on a copy of the
//! books, and the copy takes the place of the books only where every leg's
//! average price is within its tolerance.
use crate::math;
use crate::trade::orderbook;
use crate::trade::slippage;
use crate::trade::types::{
    AtomicBatchResult, Fill, LegResult, LegView, Order, OrderSide, SlippageConfig, TradeError,
    TradeLedger, TradeLeg, TradePair, TradeStore,
};
use crate::values;
use crate::values::{Address, Symbol};
use vstd::prelude::*;

verus! {

/// What fills cost in all.
pub open spec fn notional(fills: Seq<Fill>) -> int
    decreases fills.len(),
{
    if fills.len() == 0 {
        0
    } else {
        notional(fills.drop_last()) + fills.last().amount * fills.last().price
    }
}

/// What fills pay in fees.
pub open spec fn fees(fills: Seq<Fill>) -> int
    decreases fills.len(),
{
    if fills.len() == 0 {
        0
    } else {
        fees(fills.drop_last()) + fills.last().fee
    }
}

/// The tolerance of a leg: the pair's own, or else the leg's override.
pub open spec fn leg_tolerance(ledger: TradeLedger, leg: TradeLeg) -> SlippageConfig {
    match leg.max_slippage_bps {
        Some(bps) => SlippageConfig { max_slippage_bps: bps, enabled: true },
        None => ledger.tolerance(leg.pair_id),
    }
}

/// Why a leg is refused before it trades.
pub open spec fn leg_refusal(
    ledger: TradeLedger,
    leg: TradeLeg,
    pairs: Seq<TradePair>,
) -> Result<(), TradeError> {
    match orderbook::pair_in(pairs, leg.pair_id) {
        None => Err(TradeError::PairNotFound),
        Some(pair) => if !pair.is_active {
            Err(TradeError::PairInactive)
        } else if leg.amount <= 0 || leg.price <= 0 || leg.amount < pair.min_order_size {
            Err(TradeError::InvalidOrderAmount)
        } else {
            slippage::pre_trade_verdict(
                ledger,
                leg.pair_id,
                leg.side,
                leg.price as int,
                leg_tolerance(ledger, leg),
            )
        },
    }
}

/// What a leg did, as the fills tell.
pub open spec fn leg_outcome(pair_id: Symbol, fills: Seq<Fill>, filled: int) -> LegView {
    LegView {
        pair_id,
        fills,
        filled_amount: filled,
        avg_price: if filled > 0 {
            math::quot(notional(fills), filled)
        } else {
            0
        },
        total_fees: fees(fills),
    }
}

impl TradeLedger {
    /// The volume traded on a pair so far.
    pub open spec fn volume(self, pair_id: Symbol) -> i128 {
        if self.volumes.contains_key(pair_id) {
            self.volumes[pair_id]
        } else {
            0
        }
    }
}

/// The checks before any leg trades; the first leg that is refused gives the
/// error.
pub open spec fn preflight(
    ledger: TradeLedger,
    legs: Seq<TradeLeg>,
    pairs: Seq<TradePair>,
) -> Result<(), TradeError>
    decreases legs.len(),
{
    if legs.len() == 0 {
        Ok(())
    } else {
        match preflight(ledger, legs.drop_last(), pairs) {
            Err(e) => Err(e),
            Ok(_) => leg_refusal(ledger, legs.last(), pairs),
        }
    }
}

/// The state and the outcome of a leg that traded, or why it fails.
pub open spec fn run_leg(ledger: TradeLedger, user: Address, leg: TradeLeg) -> Result<
    (TradeLedger, LegView),
    TradeError,
> {
    let fills = ledger.fills(leg.pair_id, user, leg.side, leg.amount as int, leg.price);
    let filled = ledger.filled(leg.pair_id, leg.side, leg.amount as int, leg.price);
    let matched = ledger.after_matching(leg.pair_id, leg.side, leg.amount as int, leg.price);
    let volume = ledger.volume(leg.pair_id) + notional(fills);
    if !math::fits(notional(fills)) || !math::fits(fees(fills)) || !math::fits(volume) {
        Err(TradeError::ArithmeticOverflow)
    } else {
        Ok(
            (
                TradeLedger {
                    volumes: matched.volumes.insert(leg.pair_id, volume as i128),
                    ..matched
                },
                leg_outcome(leg.pair_id, fills, filled),
            ),
        )
    }
}

/// What the check of a leg's average price gives.
pub open spec fn leg_verdict(ledger: TradeLedger, leg: TradeLeg, outcome: LegView) -> Result<
    (),
    TradeError,
> {
    let config = leg_tolerance(ledger, leg);
    if config.enabled && outcome.filled_amount > 0 && outcome.avg_price > 0 {
        slippage::slippage_verdict(leg.price as int, outcome.avg_price, leg.side, config)
    } else {
        Ok(())
    }
}

/// The checks after all legs traded; the first leg that fails gives the error.
pub open spec fn price_check(
    ledger: TradeLedger,
    legs: Seq<TradeLeg>,
    done: Seq<LegView>,
) -> Result<(), TradeError>
    decreases legs.len(),
{
    if legs.len() == 0 {
        Ok(())
    } else {
        match price_check(ledger, legs.drop_last(), done.drop_last()) {
            Err(e) => Err(e),
            Ok(_) => leg_verdict(ledger, legs.last(), done.last()),
        }
    }
}

/// The state after some legs, what each did, and how many fills they made.
pub struct Progress {
    pub ledger: TradeLedger,
    pub legs: Seq<LegView>,
    pub fills: int,
}

/// Legs that trade one after another, each on the state that the one before
/// left; the first failure is the batch's.
pub open spec fn run_legs(ledger: TradeLedger, user: Address, legs: Seq<TradeLeg>) -> Result<
    Progress,
    TradeError,
>
    decreases legs.len(),
{
    if legs.len() == 0 {
        Ok(Progress { ledger, legs: Seq::empty(), fills: 0 })
    } else {
        match run_legs(ledger, user, legs.drop_last()) {
            Err(e) => Err(e),
            Ok(so_far) => match run_leg(so_far.ledger, user, legs.last()) {
                Err(e) => Err(e),
                Ok(done) => if so_far.fills + done.1.fills.len() > u32::MAX {
                    Err(TradeError::ArithmeticOverflow)
                } else {
                    Ok(
                        Progress {
                            ledger: done.0,
                            legs: so_far.legs.push(done.1),
                            fills: so_far.fills + done.1.fills.len(),
                        },
                    )
                },
            },
        }
    }
}

/// What the legs of a result did.
pub open spec fn outcomes(legs: Seq<LegResult>) -> Seq<LegView> {
    Seq::new(legs.len(), |i: int| legs[i]@)
}

/// The state after a batch and what it did, or why it fails.
pub open spec fn run_batch(
    ledger: TradeLedger,
    user: Address,
    legs: Seq<TradeLeg>,
    pairs: Seq<TradePair>,
) -> Result<Progress, TradeError> {
    if legs.len() == 0 {
        Err(TradeError::EmptyBatch)
    } else if preflight(ledger, legs, pairs) is Err {
        Err(preflight(ledger, legs, pairs)->Err_0)
    } else {
        match run_legs(ledger, user, legs) {
            Err(e) => Err(e),
            Ok(done) => match price_check(ledger, legs, done.legs) {
                Err(e) => Err(e),
                Ok(_) => Ok(done),
            },
        }
    }
}

/// Legs of which one is refused are refused.
proof fn lemma_early_refusal(
    ledger: TradeLedger,
    legs: Seq<TradeLeg>,
    pairs: Seq<TradePair>,
    k: int,
)
    requires
        0 <= k <= legs.len(),
        preflight(ledger, legs.take(k), pairs) is Err,
    ensures
        preflight(ledger, legs, pairs) == preflight(ledger, legs.take(k), pairs),
    decreases legs.len(),
{
    if k == legs.len() {
        assert(legs.take(k) =~= legs);
    } else {
        assert(legs.drop_last().take(k) =~= legs.take(k));
        lemma_early_refusal(ledger, legs.drop_last(), pairs, k);
    }
}

/// Legs of which one fails fail.
proof fn lemma_early_failure(ledger: TradeLedger, user: Address, legs: Seq<TradeLeg>, k: int)
    requires
        0 <= k <= legs.len(),
        run_legs(ledger, user, legs.take(k)) is Err,
    ensures
        run_legs(ledger, user, legs) == run_legs(ledger, user, legs.take(k)),
    decreases legs.len(),
{
    if k == legs.len() {
        assert(legs.take(k) =~= legs);
    } else {
        assert(legs.drop_last().take(k) =~= legs.take(k));
        lemma_early_failure(ledger, user, legs.drop_last(), k);
    }
}

/// Legs of which one misses its price are aborted.
proof fn lemma_early_abort(
    ledger: TradeLedger,
    legs: Seq<TradeLeg>,
    done: Seq<LegView>,
    k: int,
)
    requires
        0 <= k <= legs.len(),
        legs.len() == done.len(),
        price_check(ledger, legs.take(k), done.take(k)) is Err,
    ensures
        price_check(ledger, legs, done) == price_check(ledger, legs.take(k), done.take(k)),
    decreases legs.len(),
{
    if k == legs.len() {
        assert(legs.take(k) =~= legs);
        assert(done.take(k) =~= done);
    } else {
        assert(legs.drop_last().take(k) =~= legs.take(k));
        assert(done.drop_last().take(k) =~= done.take(k));
        lemma_early_abort(ledger, legs.drop_last(), done.drop_last(), k);
    }
}

/// Fills that come out of matching have amounts and prices above zero, so
/// that totals only grow.
spec fn are_sound(fills: Seq<Fill>) -> bool {
    forall|i: int|
        0 <= i < fills.len() ==> (#[trigger] fills[i]).amount > 0 && fills[i].price > 0
            && fills[i].fee >= 0
}

proof fn lemma_fills_are_sound(
    makers: Seq<Order>,
    taker: Address,
    side: OrderSide,
    pair_id: Symbol,
    amount: int,
    limit_price: i128,
    fee_bps: i128,
)
    requires
        orderbook::side_wf(orderbook::opposite(side), makers),
        amount <= i128::MAX,
    ensures
        are_sound(
            orderbook::fills_against(makers, taker, side, pair_id, amount, limit_price, fee_bps),
        ),
    decreases makers.len(),
{
    if !orderbook::stops(makers, side, amount, limit_price) {
        let q = orderbook::taken_by(makers[0], amount);
        let rest = makers.drop_first();
        assert(makers[0].remaining > 0);
        orderbook::lemma_rest_wf(orderbook::opposite(side), makers);
        lemma_fills_are_sound(rest, taker, side, pair_id, amount - q, limit_price, fee_bps);
        orderbook::lemma_fee_in_range(q, makers[0].price as int, fee_bps as int);
        let more = orderbook::fills_against(
            rest,
            taker,
            side,
            pair_id,
            amount - q,
            limit_price,
            fee_bps,
        );
        let fills = orderbook::fills_against(
            makers,
            taker,
            side,
            pair_id,
            amount,
            limit_price,
            fee_bps,
        );
        assert forall|i: int| 0 <= i < fills.len() implies (#[trigger] fills[i]).amount > 0
            && fills[i].price > 0 && fills[i].fee >= 0 by {
            if i > 0 {
                assert(fills[i] == more[i - 1]);
            }
        }
    }
}

/// Totals over a prefix are no larger than totals over the whole.
proof fn lemma_totals_grow(fills: Seq<Fill>, k: int)
    requires
        are_sound(fills),
        0 <= k <= fills.len(),
    ensures
        0 <= notional(fills.take(k)) <= notional(fills),
        0 <= fees(fills.take(k)) <= fees(fills),
    decreases fills.len(),
{
    if k == fills.len() {
        assert(fills.take(k) =~= fills);
        if k > 0 {
            let less = fills.drop_last();
            assert(are_sound(less)) by {
                assert forall|i: int| 0 <= i < less.len() implies (#[trigger] less[i]).amount > 0
                    && less[i].price > 0 && less[i].fee >= 0 by {
                    assert(less[i] == fills[i]);
                }
            }
            lemma_totals_grow(less, k - 1);
            assert(less.take(k - 1) =~= less);
            let last = fills.last();
            assert(last.amount * last.price >= 0) by (nonlinear_arith)
                requires
                    last.amount > 0,
                    last.price > 0,
            ;
        }
    } else {
        let less = fills.drop_last();
        assert(are_sound(less)) by {
            assert forall|i: int| 0 <= i < less.len() implies (#[trigger] less[i]).amount > 0
                && less[i].price > 0 && less[i].fee >= 0 by {
                assert(less[i] == fills[i]);
            }
        }
        lemma_totals_grow(less, k);
        assert(less.take(k) =~= fills.take(k));
        let last = fills.last();
        assert(last.amount * last.price >= 0) by (nonlinear_arith)
            requires
                last.amount > 0,
                last.price > 0,
        ;
    }
}

/// Add up what fills cost and pay.
fn totals(fills: &Vec<Fill>) -> (r: Option<(i128, i128)>)
    requires
        are_sound(fills@),
    ensures
        r == (if math::fits(notional(fills@)) && math::fits(fees(fills@)) {
            Some((notional(fills@) as i128, fees(fills@) as i128))
        } else {
            None
        }),
{
    let mut total_notional: i128 = 0;
    let mut total_fees: i128 = 0;
    let mut j: usize = 0;
    while j < fills.len()
        invariant
            j <= fills@.len(),
            are_sound(fills@),
            total_notional == notional(fills@.take(j as int)),
            total_fees == fees(fills@.take(j as int)),
        decreases fills@.len() - j,
    {
        let fill = fills[j];
        proof {
            lemma_totals_grow(fills@, j as int);
            lemma_totals_grow(fills@, j + 1);
            assert(fills@.take(j + 1).drop_last() =~= fills@.take(j as int));
            assert(fill.amount * fill.price >= 0) by (nonlinear_arith)
                requires
                    fill.amount > 0,
                    fill.price > 0,
            ;
        }
        let cost = match fill.amount.checked_mul(fill.price) {
            Some(c) => c,
            None => {
                return None;
            },
        };
        total_notional = match total_notional.checked_add(cost) {
            Some(t) => t,
            None => {
                return None;
            },
        };
        total_fees = match total_fees.checked_add(fill.fee) {
            Some(t) => t,
            None => {
                return None;
            },
        };
        j += 1;
    }
    assert(fills@.take(j as int) =~= fills@);
    Some((total_notional, total_fees))
}

/// The tolerance of a leg.
fn resolve_tolerance(store: &TradeStore, leg: &TradeLeg) -> (config: SlippageConfig)
    ensures
        config == leg_tolerance(store@, *leg),
{
    let mut config = slippage::get_slippage_config(store, &leg.pair_id);
    if let Some(override_bps) = leg.max_slippage_bps {
        config.max_slippage_bps = override_bps;
        config.enabled = true;
    }
    config
}

/// Check a leg before it trades.
fn check_leg(store: &TradeStore, leg: &TradeLeg, pair_configs: &Vec<TradePair>) -> (r: Result<
    (),
    TradeError,
>)
    ensures
        r == leg_refusal(store@, *leg, pair_configs@),
{
    let pair = match orderbook::find_pair(pair_configs, &leg.pair_id) {
        Some(p) => p,
        None => {
            return Err(TradeError::PairNotFound);
        },
    };
    if !pair.is_active {
        return Err(TradeError::PairInactive);
    }
    if leg.amount <= 0 || leg.price <= 0 {
        return Err(TradeError::InvalidOrderAmount);
    }
    if leg.amount < pair.min_order_size {
        return Err(TradeError::InvalidOrderAmount);
    }
    let config = resolve_tolerance(store, leg);
    slippage::validate_slippage_pre_trade(
        store,
        &leg.pair_id,
        leg.side,
        leg.price,
        leg.amount,
        Some(&config),
    )
}

/// Run one leg on `store`. Where the leg fails, what it left in `store` is of
/// no use.
fn execute_leg(store: &mut TradeStore, user: &Address, leg: &TradeLeg) -> (r: Result<
    LegResult,
    TradeError,
>)
    requires
        old(store)@.wf(),
    ensures
        final(store)@.wf(),
        match run_leg(old(store)@, *user, *leg) {
            Ok(done) => r is Ok && final(store)@ == done.0 && r->Ok_0@ == done.1,
            Err(e) => r is Err && r->Err_0 == e,
        },
        r is Ok && r->Ok_0.filled_amount > 0 ==> r->Ok_0.avg_price * r->Ok_0.filled_amount
            <= notional(r->Ok_0.fills@) < (r->Ok_0.avg_price + 1) * r->Ok_0.filled_amount,
{
    let ghost ledger = store@;
    let (fills, filled_amount) = orderbook::match_order(
        store,
        &leg.pair_id,
        user,
        leg.side,
        leg.amount,
        leg.price,
    );
    proof {
        assert(orderbook::book_wf(leg.pair_id, ledger.book(leg.pair_id)));
        lemma_fills_are_sound(
            ledger.book(leg.pair_id).side(orderbook::opposite(leg.side)),
            *user,
            leg.side,
            leg.pair_id,
            leg.amount as int,
            leg.price,
            ledger.fee_bps(leg.pair_id),
        );
    }
    let (total_notional, total_fees) = match totals(&fills) {
        Some(t) => t,
        None => {
            return Err(TradeError::ArithmeticOverflow);
        },
    };
    proof {
        lemma_totals_grow(fills@, 0);
        if filled_amount > 0 {
            math::lemma_quot_shrinks(total_notional as int, filled_amount as int);
            math::quotients_round_toward_zero(total_notional as int, filled_amount as int);
        }
    }
    let avg_price: i128 = if filled_amount > 0 {
        total_notional / filled_amount
    } else {
        0
    };
    let current_volume: i128 = match store.volumes.get(&leg.pair_id) {
        Some(v) => *v,
        None => 0,
    };
    let volume = match current_volume.checked_add(total_notional) {
        Some(v) => v,
        None => {
            return Err(TradeError::ArithmeticOverflow);
        },
    };
    store.volumes.set(leg.pair_id, volume);
    Ok(LegResult { pair_id: leg.pair_id, fills, filled_amount, avg_price, total_fees })
}

/// Check every leg before any of them trades.
fn check_legs(store: &TradeStore, legs: &Vec<TradeLeg>, pair_configs: &Vec<TradePair>) -> (r: Result<
    (),
    TradeError,
>)
    ensures
        r == preflight(store@, legs@, pair_configs@),
{
    let mut i: usize = 0;
    while i < legs.len()
        invariant
            i <= legs@.len(),
            preflight(store@, legs@.take(i as int), pair_configs@) is Ok,
        decreases legs@.len() - i,
    {
        assert(legs@.take(i + 1).drop_last() =~= legs@.take(i as int));
        assert(legs@.take(i + 1).last() == legs@[i as int]);
        match check_leg(store, &legs[i], pair_configs) {
            Ok(_) => {},
            Err(e) => {
                proof {
                    lemma_early_refusal(store@, legs@, pair_configs@, i + 1);
                }
                return Err(e);
            },
        }
        i += 1;
    }
    assert(legs@.take(i as int) =~= legs@);
    Ok(())
}

/// Check the average price of every leg after all of them traded.
fn check_prices(store: &TradeStore, legs: &Vec<TradeLeg>, results: &Vec<LegResult>) -> (r: Result<
    (),
    TradeError,
>)
    requires
        legs@.len() == results@.len(),
    ensures
        r == price_check(store@, legs@, outcomes(results@)),
{
    let ghost done = outcomes(results@);
    let mut i: usize = 0;
    while i < legs.len()
        invariant
            i <= legs@.len(),
            legs@.len() == results@.len(),
            done == outcomes(results@),
            price_check(store@, legs@.take(i as int), done.take(i as int)) is Ok,
        decreases legs@.len() - i,
    {
        let leg = &legs[i];
        let result = &results[i];
        let config = resolve_tolerance(store, leg);
        proof {
            assert(legs@.take(i + 1).drop_last() =~= legs@.take(i as int));
            assert(done.take(i + 1).drop_last() =~= done.take(i as int));
            assert(legs@.take(i + 1).last() == *leg);
            assert(done.take(i + 1).last() == result@);
        }
        if config.enabled && result.filled_amount > 0 && result.avg_price > 0 {
            match slippage::check_slippage(leg.price, result.avg_price, leg.side, &config) {
                Ok(_) => {},
                Err(e) => {
                    proof {
                        lemma_early_abort(store@, legs@, done, i + 1);
                    }
                    return Err(e);
                },
            }
        }
        i += 1;
    }
    assert(legs@.take(i as int) =~= legs@);
    assert(done.take(i as int) =~= done);
    Ok(())
}

/// Execute a batch of legs, all of them or none.
///
/// Every leg is checked against its pair, its amount and its tolerance; then
/// the legs are matched one after another; then every leg's average price is
/// checked. The first failure gives the error and leaves everything as it was.
pub fn execute_atomic_batch(
    store: &mut TradeStore,
    user: &Address,
    legs: &Vec<TradeLeg>,
    pair_configs: &Vec<TradePair>,
    now: u64,
) -> (r: Result<AtomicBatchResult, TradeError>)
    requires
        old(store)@.wf(),
    ensures
        final(store)@.wf(),
        r is Err ==> *final(store) == *old(store),
        match run_batch(old(store)@, *user, legs@, pair_configs@) {
            Err(e) => r is Err && r->Err_0 == e,
            Ok(done) => {
                &&& r is Ok
                &&& final(store)@ == done.ledger
                &&& r->Ok_0.success
                &&& outcomes(r->Ok_0.legs@) == done.legs
                &&& r->Ok_0.total_fills == done.fills
                &&& r->Ok_0.executed_at == now
                &&& r->Ok_0.failure_reason == values::symbol_of(""@)
            },
        },
{
    if legs.len() == 0 {
        return Err(TradeError::EmptyBatch);
    }
    let ghost ledger = store@;
    match check_legs(store, legs, pair_configs) {
        Ok(_) => {},
        Err(e) => {
            return Err(e);
        },
    }
    let mut work = store.copy();
    let mut leg_results: Vec<LegResult> = Vec::new();
    let mut total_fills: u32 = 0;
    let mut i: usize = 0;
    assert(outcomes(leg_results@) =~= Seq::<LegView>::empty());
    while i < legs.len()
        invariant
            i <= legs@.len(),
            legs@.len() > 0,
            *store == *old(store),
            store@ == ledger,
            work@.wf(),
            ledger.wf(),
            preflight(ledger, legs@, pair_configs@) is Ok,
            leg_results@.len() == i,
            run_legs(ledger, *user, legs@.take(i as int)) == Ok::<Progress, TradeError>(
                Progress {
                    ledger: work@,
                    legs: outcomes(leg_results@),
                    fills: total_fills as int,
                },
            ),
        decreases legs@.len() - i,
    {
        let leg = legs[i];
        let ghost before = leg_results@;
        assert(legs@.take(i + 1).drop_last() =~= legs@.take(i as int));
        assert(legs@.take(i + 1).last() == leg);
        let result = match execute_leg(&mut work, user, &leg) {
            Ok(result) => result,
            Err(e) => {
                proof {
                    lemma_early_failure(ledger, *user, legs@, i + 1);
                }
                return Err(e);
            },
        };
        let fill_count = result.fills.len();
        if fill_count > (u32::MAX - total_fills) as usize {
            proof {
                lemma_early_failure(ledger, *user, legs@, i + 1);
            }
            return Err(TradeError::ArithmeticOverflow);
        }
        total_fills = total_fills + fill_count as u32;
        leg_results.push(result);
        assert(outcomes(leg_results@) =~= outcomes(before).push(result@));
        i += 1;
    }
    assert(legs@.take(i as int) =~= legs@);
    match check_prices(store, legs, &leg_results) {
        Ok(_) => {},
        Err(e) => {
            return Err(e);
        },
    }
    *store = work;
    Ok(
        AtomicBatchResult {
            success: true,
            legs: leg_results,
            total_fills,
            executed_at: now,
            failure_reason: Symbol::from_text(""),
        },
    )
}

/// Every fill of a leg is at a price that the leg accepts, and the leg trades
/// no more than it asked for.
pub proof fn legs_trade_within_their_limits(
    ledger: TradeLedger,
    user: Address,
    leg: TradeLeg,
)
    requires
        ledger.wf(),
        0 <= leg.amount,
        run_leg(ledger, user, leg) is Ok,
    ensures
        ({
            let outcome = run_leg(ledger, user, leg)->Ok_0.1;
            &&& 0 <= outcome.filled_amount <= leg.amount
            &&& orderbook::filled_quantity(outcome.fills) == outcome.filled_amount
            &&& forall|i: int|
                0 <= i < outcome.fills.len() ==> orderbook::crosses(
                    leg.side,
                    (#[trigger] outcome.fills[i]).price,
                    leg.price,
                )
        }),
{
    assert(orderbook::book_wf(leg.pair_id, ledger.book(leg.pair_id)));
    orderbook::matching_conserves_quantity(
        ledger.book(leg.pair_id).side(orderbook::opposite(leg.side)),
        user,
        leg.side,
        leg.pair_id,
        leg.amount as int,
        leg.price,
        ledger.fee_bps(leg.pair_id),
    );
}

proof fn lemma_quantity_from_the_end(fills: Seq<Fill>)
    requires
        fills.len() > 0,
    ensures
        orderbook::filled_quantity(fills) == orderbook::filled_quantity(fills.drop_last())
            + fills.last().amount,
    decreases fills.len(),
{
    let rest = fills.drop_first();
    if rest.len() == 0 {
        assert(fills.drop_last() =~= Seq::<Fill>::empty());
        assert(rest =~= Seq::<Fill>::empty());
        reveal_with_fuel(orderbook::filled_quantity, 2);
    } else {
        lemma_quantity_from_the_end(rest);
        assert(rest.drop_last() =~= fills.drop_last().drop_first());
        assert(fills.drop_last()[0] == fills[0]);
    }
}

/// Fills at prices on one side of a limit cost, in all, on that side of the
/// limit for each unit.
proof fn lemma_cost_is_within_the_limit(
    fills: Seq<Fill>,
    side: OrderSide,
    limit_price: i128,
)
    requires
        forall|i: int|
            0 <= i < fills.len() ==> orderbook::crosses(
                side,
                (#[trigger] fills[i]).price,
                limit_price,
            ) && fills[i].amount > 0,
    ensures
        match side {
            OrderSide::Buy => notional(fills) <= limit_price
                * orderbook::filled_quantity(fills),
            OrderSide::Sell => notional(fills) >= limit_price
                * orderbook::filled_quantity(fills),
        },
    decreases fills.len(),
{
    if fills.len() > 0 {
        let less = fills.drop_last();
        let last = fills.last();
        assert forall|i: int| 0 <= i < less.len() implies orderbook::crosses(
            side,
            (#[trigger] less[i]).price,
            limit_price,
        ) && less[i].amount > 0 by {
            assert(less[i] == fills[i]);
        }
        lemma_cost_is_within_the_limit(less, side, limit_price);
        lemma_quantity_from_the_end(fills);
        assert(last == fills[fills.len() - 1]);
        let q = orderbook::filled_quantity(less);
        let a = last.amount as int;
        let p = last.price as int;
        let l = limit_price as int;
        assert(l * (q + a) == l * q + l * a) by (nonlinear_arith);
        if p <= l {
            assert(a * p <= l * a) by (nonlinear_arith)
                requires
                    p <= l,
                    a > 0,
            ;
        }
        if p >= l {
            assert(a * p >= l * a) by (nonlinear_arith)
                requires
                    p >= l,
                    a > 0,
            ;
        }
    }
}

/// A leg that traded did so, on average, at its limit price or better, so that
/// no tolerance aborts it.
pub proof fn traded_legs_keep_their_price(
    rules: TradeLedger,
    ledger: TradeLedger,
    user: Address,
    leg: TradeLeg,
)
    requires
        ledger.wf(),
        0 <= leg.amount,
        0 < leg.price,
        run_leg(ledger, user, leg) is Ok,
    ensures
        leg_verdict(rules, leg, run_leg(ledger, user, leg)->Ok_0.1) is Ok,
{
    let outcome = run_leg(ledger, user, leg)->Ok_0.1;
    let fills = outcome.fills;
    let filled = outcome.filled_amount;
    assert(orderbook::book_wf(leg.pair_id, ledger.book(leg.pair_id)));
    orderbook::matching_conserves_quantity(
        ledger.book(leg.pair_id).side(orderbook::opposite(leg.side)),
        user,
        leg.side,
        leg.pair_id,
        leg.amount as int,
        leg.price,
        ledger.fee_bps(leg.pair_id),
    );
    lemma_cost_is_within_the_limit(fills, leg.side, leg.price);
    if filled > 0 {
        assert(leg.price * filled >= 0) by (nonlinear_arith)
            requires
                leg.price > 0,
                filled > 0,
        ;
        vstd::arithmetic::div_mod::lemma_div_multiples_vanish(leg.price as int, filled);
        assert(filled * leg.price == leg.price * filled) by (nonlinear_arith);
        match leg.side {
            OrderSide::Buy => {
                math::lemma_quot_monotone(notional(fills), leg.price * filled, filled);
            },
            OrderSide::Sell => {
                math::lemma_quot_monotone(leg.price * filled, notional(fills), filled);
            },
        }
        assert(math::quot(leg.price * filled, filled) == leg.price);
    }
}

/// The error that stands for a reason to abort a batch.
pub open spec fn abort_reason(reason: Seq<char>) -> TradeError {
    if reason == "pair_not_found"@ {
        TradeError::PairNotFound
    } else if reason == "slippage_exceeded"@ {
        TradeError::SlippageExceeded
    } else if reason == "insufficient_liquidity"@ {
        TradeError::InsufficientLiquidity
    } else {
        TradeError::EmptyBatch
    }
}

/// The error that stands for a reason to abort a batch; a reason that is not
/// known counts as an empty batch.
pub fn abort_batch(reason: &str) -> (error: TradeError)
    ensures
        error == abort_reason(reason@),
{
    if values::same_text(reason, "pair_not_found") {
        TradeError::PairNotFound
    } else if values::same_text(reason, "slippage_exceeded") {
        TradeError::SlippageExceeded
    } else if values::same_text(reason, "insufficient_liquidity") {
        TradeError::InsufficientLiquidity
    } else {
        TradeError::EmptyBatch
    }
}

/// What fills cost and pay are sums over the fills: a fill costs its amount
/// times its price and pays its fee, and fills put together cost and pay
/// together.
pub proof fn costs_and_fees_add_up(a: Seq<Fill>, b: Seq<Fill>, f: Fill)
    ensures
        notional(seq![f]) == f.amount * f.price,
        notional(a + b) == notional(a) + notional(b),
        fees(seq![f]) == f.fee,
        fees(a + b) == fees(a) + fees(b),
    decreases b.len(),
{
    reveal_with_fuel(notional, 2);
    reveal_with_fuel(fees, 2);
    assert(seq![f].drop_last() =~= Seq::<Fill>::empty());
    if b.len() == 0 {
        assert(a + b =~= a);
    } else {
        costs_and_fees_add_up(a, b.drop_last(), f);
        assert((a + b).drop_last() =~= a + b.drop_last());
        assert((a + b).last() == b.last());
    }
}

/// What a leg reports accounts for every fill. The average price times the
/// filled amount is what the fills cost, but for less than one unit of price;
/// the fees are those of the fills; the filled amount is theirs; and the
/// volume of the pair grows by what they cost, while no other pair's does.
pub proof fn a_leg_accounts_for_its_fills(
    ledger: TradeLedger,
    user: Address,
    leg: TradeLeg,
    other: Symbol,
)
    requires
        ledger.wf(),
        0 <= leg.amount,
        run_leg(ledger, user, leg) is Ok,
    ensures
        ({
            let after = run_leg(ledger, user, leg)->Ok_0.0;
            let done = run_leg(ledger, user, leg)->Ok_0.1;
            &&& done.pair_id == leg.pair_id
            &&& done.filled_amount > 0 ==> done.avg_price * done.filled_amount <= notional(
                done.fills,
            ) < (done.avg_price + 1) * done.filled_amount
            &&& done.filled_amount == 0 ==> done.avg_price == 0
            &&& done.total_fees == fees(done.fills)
            &&& done.filled_amount == orderbook::filled_quantity(done.fills)
            &&& after.volume(leg.pair_id) == ledger.volume(leg.pair_id) + notional(done.fills)
            &&& other != leg.pair_id ==> after.volume(other) == ledger.volume(other)
                && after.book(other) == ledger.book(other)
        }),
{
    let done = run_leg(ledger, user, leg)->Ok_0.1;
    legs_trade_within_their_limits(ledger, user, leg);
    let makers = ledger.book(leg.pair_id).side(orderbook::opposite(leg.side));
    assert(orderbook::book_wf(leg.pair_id, ledger.book(leg.pair_id)));
    lemma_fills_are_sound(
        makers,
        user,
        leg.side,
        leg.pair_id,
        leg.amount as int,
        leg.price,
        ledger.fee_bps(leg.pair_id),
    );
    lemma_totals_grow(done.fills, 0);
    if done.filled_amount > 0 {
        math::quotients_round_toward_zero(notional(done.fills), done.filled_amount);
    }
}

/// The average price of a leg lies between the lowest and the highest price of
/// its fills.
pub proof fn an_average_is_between_its_prices(
    ledger: TradeLedger,
    user: Address,
    leg: TradeLeg,
    low: i128,
    high: i128,
)
    requires
        ledger.wf(),
        0 <= leg.amount,
        run_leg(ledger, user, leg) is Ok,
        run_leg(ledger, user, leg)->Ok_0.1.filled_amount > 0,
        forall|i: int|
            0 <= i < run_leg(ledger, user, leg)->Ok_0.1.fills.len() ==> low <= (#[trigger] run_leg(
                ledger,
                user,
                leg,
            )->Ok_0.1.fills[i]).price <= high,
    ensures
        low <= run_leg(ledger, user, leg)->Ok_0.1.avg_price <= high,
{
    let done = run_leg(ledger, user, leg)->Ok_0.1;
    a_leg_accounts_for_its_fills(ledger, user, leg, leg.pair_id);
    legs_trade_within_their_limits(ledger, user, leg);
    let makers = ledger.book(leg.pair_id).side(orderbook::opposite(leg.side));
    assert(orderbook::book_wf(leg.pair_id, ledger.book(leg.pair_id)));
    lemma_fills_are_sound(
        makers,
        user,
        leg.side,
        leg.pair_id,
        leg.amount as int,
        leg.price,
        ledger.fee_bps(leg.pair_id),
    );
    lemma_cost_is_within_the_limit(done.fills, OrderSide::Buy, high);
    lemma_cost_is_within_the_limit(done.fills, OrderSide::Sell, low);
    let (n, p, q) = (notional(done.fills), done.avg_price, done.filled_amount);
    assert(low <= p) by (nonlinear_arith)
        requires
            low * q <= n,
            n < (p + 1) * q,
            q > 0,
    ;
    assert(p <= high) by (nonlinear_arith)
        requires
            n <= high * q,
            p * q <= n,
            q > 0,
    ;
}

/// Every leg that is let through names a pair that is configured and active,
/// is for an amount and a price above zero and no less than the pair's
/// smallest order, and has the best price of the book within its tolerance; a
/// batch of such legs is let through.
pub proof fn checked_legs_are_sound(
    ledger: TradeLedger,
    legs: Seq<TradeLeg>,
    pairs: Seq<TradePair>,
    i: int,
)
    requires
        0 <= i < legs.len(),
        preflight(ledger, legs, pairs) is Ok,
    ensures
        ({
            let leg = legs[i];
            let pair = orderbook::pair_in(pairs, leg.pair_id);
            &&& pair is Some && pair->0.is_active
            &&& leg.amount > 0 && leg.price > 0 && leg.amount >= pair->0.min_order_size
            &&& leg.side == OrderSide::Buy && ledger.book(leg.pair_id).asks.len() > 0
                ==> slippage::slippage_verdict(
                leg.price as int,
                ledger.book(leg.pair_id).asks[0].price as int,
                OrderSide::Buy,
                leg_tolerance(ledger, leg),
            ) is Ok
            &&& leg.side == OrderSide::Sell && ledger.book(leg.pair_id).bids.len() > 0
                ==> slippage::slippage_verdict(
                leg.price as int,
                ledger.book(leg.pair_id).bids[0].price as int,
                OrderSide::Sell,
                leg_tolerance(ledger, leg),
            ) is Ok
        }),
    decreases legs.len(),
{
    if i < legs.len() - 1 {
        checked_legs_are_sound(ledger, legs.drop_last(), pairs, i);
    }
}

/// A leg is refused for a reason: the pair is not configured, it is not
/// active, the amount or the price is out of bounds, or the best price is
/// beyond the tolerance.
pub proof fn legs_are_refused_for_a_reason(
    ledger: TradeLedger,
    leg: TradeLeg,
    pairs: Seq<TradePair>,
)
    ensures
        ({
            let r = leg_refusal(ledger, leg, pairs);
            let pair = orderbook::pair_in(pairs, leg.pair_id);
            &&& r == Err::<(), TradeError>(TradeError::PairNotFound) <==> pair is None
            &&& r == Err::<(), TradeError>(TradeError::PairInactive) <==> pair is Some
                && !pair->0.is_active
            &&& r == Err::<(), TradeError>(TradeError::InvalidOrderAmount) <==> pair is Some
                && pair->0.is_active && !(leg.amount > 0 && leg.price > 0 && leg.amount
                >= pair->0.min_order_size)
            &&& r is Ok && pair is Some ==> pair->0.is_active
            &&& pair is Some && pair->0.is_active && leg.amount > 0 && leg.price > 0 && leg.amount
                >= pair->0.min_order_size && ledger.book(leg.pair_id).asks.len() == 0
                && ledger.book(leg.pair_id).bids.len() == 0 ==> r is Ok
        }),
{
}

/// A leg's own tolerance takes the place of the pair's, and is checked even
/// where the pair's is switched off.
pub proof fn a_leg_can_set_its_tolerance(ledger: TradeLedger, leg: TradeLeg)
    ensures
        leg.max_slippage_bps matches Some(bps) ==> leg_tolerance(ledger, leg).max_slippage_bps == bps
            && leg_tolerance(ledger, leg).enabled,
        leg.max_slippage_bps is None && ledger.slippage.contains_key(leg.pair_id) ==> leg_tolerance(
            ledger,
            leg,
        ) == ledger.slippage[leg.pair_id],
        leg.max_slippage_bps is None && !ledger.slippage.contains_key(leg.pair_id)
            ==> !leg_tolerance(ledger, leg).enabled,
{
}

/// The legs of a batch trade one after another: each leg's report is that of
/// trading alone on the state that the legs before it left, there is one
/// report for each leg, and the fills are counted over all of them.
pub proof fn legs_trade_in_order(ledger: TradeLedger, user: Address, legs: Seq<TradeLeg>, k: int)
    requires
        run_legs(ledger, user, legs) is Ok,
        0 <= k < legs.len(),
    ensures
        run_legs(ledger, user, legs)->Ok_0.legs.len() == legs.len(),
        run_legs(ledger, user, legs.take(k)) is Ok,
        ({
            let before = run_legs(ledger, user, legs.take(k))->Ok_0;
            let after = run_legs(ledger, user, legs.take(k + 1))->Ok_0;
            let one = run_leg(before.ledger, user, legs[k]);
            &&& one is Ok
            &&& run_legs(ledger, user, legs)->Ok_0.legs[k] == one->Ok_0.1
            &&& after.ledger == one->Ok_0.0
            &&& after.fills == before.fills + one->Ok_0.1.fills.len()
        }),
        run_legs(ledger, user, legs.take(0))->Ok_0.ledger == ledger,
        run_legs(ledger, user, legs.take(0))->Ok_0.fills == 0,
        legs.take(legs.len() as int) == legs,
    decreases legs.len(),
{
    let n = legs.len() - 1;
    assert(legs.take(legs.len() as int) =~= legs);
    assert(legs.drop_last() =~= legs.take(n));
    if k < n {
        legs_trade_in_order(ledger, user, legs.drop_last(), k);
        assert(legs.drop_last().take(k) =~= legs.take(k));
        assert(legs.drop_last().take(k + 1) =~= legs.take(k + 1));
    } else {
        lemma_one_report_each(ledger, user, legs.drop_last());
        assert(legs.take(k + 1) =~= legs);
    }
}

proof fn lemma_one_report_each(ledger: TradeLedger, user: Address, legs: Seq<TradeLeg>)
    requires
        run_legs(ledger, user, legs) is Ok,
    ensures
        run_legs(ledger, user, legs)->Ok_0.legs.len() == legs.len(),
    decreases legs.len(),
{
    if legs.len() > 0 {
        lemma_one_report_each(ledger, user, legs.drop_last());
    }
}

/// A batch succeeds only as a whole: it has legs, every leg was let through,
/// every leg traded, and every leg's average price is within its tolerance.
/// An empty batch is refused as such.
pub proof fn a_batch_is_all_or_nothing(
    ledger: TradeLedger,
    user: Address,
    legs: Seq<TradeLeg>,
    pairs: Seq<TradePair>,
    i: int,
)
    ensures
        legs.len() == 0 ==> run_batch(ledger, user, legs, pairs) == Err::<Progress, TradeError>(
            TradeError::EmptyBatch,
        ),
        run_batch(ledger, user, legs, pairs) matches Ok(done) ==> {
            &&& legs.len() > 0
            &&& preflight(ledger, legs, pairs) is Ok
            &&& run_legs(ledger, user, legs) == Ok::<Progress, TradeError>(done)
            &&& done.legs.len() == legs.len()
            &&& 0 <= i < legs.len() ==> leg_refusal(ledger, legs[i], pairs) is Ok && leg_verdict(
                ledger,
                legs[i],
                done.legs[i],
            ) is Ok
        },
        legs.len() > 0 && preflight(ledger, legs, pairs) is Err ==> run_batch(
            ledger,
            user,
            legs,
            pairs,
        ) is Err,
{
    match run_batch(ledger, user, legs, pairs) {
        Ok(done) => {
            lemma_one_report_each(ledger, user, legs);
            if 0 <= i < legs.len() {
                lemma_each_verdict(ledger, legs, done.legs, i);
                lemma_each_check(ledger, legs, pairs, i);
            }
        },
        Err(_) => {},
    }
}

proof fn lemma_each_check(
    ledger: TradeLedger,
    legs: Seq<TradeLeg>,
    pairs: Seq<TradePair>,
    i: int,
)
    requires
        0 <= i < legs.len(),
        preflight(ledger, legs, pairs) is Ok,
    ensures
        leg_refusal(ledger, legs[i], pairs) is Ok,
    decreases legs.len(),
{
    if i < legs.len() - 1 {
        lemma_each_check(ledger, legs.drop_last(), pairs, i);
    }
}

proof fn lemma_each_verdict(
    ledger: TradeLedger,
    legs: Seq<TradeLeg>,
    done: Seq<LegView>,
    i: int,
)
    requires
        0 <= i < legs.len(),
        legs.len() == done.len(),
        price_check(ledger, legs, done) is Ok,
    ensures
        leg_verdict(ledger, legs[i], done[i]) is Ok,
    decreases legs.len(),
{
    if i < legs.len() - 1 {
        lemma_each_verdict(ledger, legs.drop_last(), done.drop_last(), i);
    }
}

/// A leg that traded on average beyond its tolerance fails: the average of a
/// buy may lie above the limit, and that of a sell below it, by no more than
/// the tolerance.
pub proof fn averages_beyond_the_tolerance_fail(
    ledger: TradeLedger,
    leg: TradeLeg,
    outcome: LegView,
)
    requires
        leg_verdict(ledger, leg, outcome) is Ok,
        leg_tolerance(ledger, leg).enabled,
        leg_tolerance(ledger, leg).max_slippage_bps > 0,
        outcome.filled_amount > 0,
        outcome.avg_price > 0,
        leg.price > 0,
    ensures
        leg.side == OrderSide::Buy ==> (outcome.avg_price - leg.price) * 10_000 < (leg_tolerance(
            ledger,
            leg,
        ).max_slippage_bps + 1) * leg.price,
        leg.side == OrderSide::Sell ==> (leg.price - outcome.avg_price) * 10_000 < (leg_tolerance(
            ledger,
            leg,
        ).max_slippage_bps + 1) * leg.price,
{
    slippage::tolerances_are_shares_of_the_limit(
        leg.price as int,
        outcome.avg_price,
        leg.side,
        leg_tolerance(ledger, leg),
    );
}

/// A batch that is given up says why: for each reason that has a name there is
/// an error of its own, and nothing else is answered with one of these.
pub proof fn reasons_have_their_errors(reason: Seq<char>)
    ensures
        abort_reason(reason) == TradeError::PairNotFound <==> reason == "pair_not_found"@,
        abort_reason(reason) == TradeError::SlippageExceeded <==> reason == "slippage_exceeded"@,
        abort_reason(reason) == TradeError::InsufficientLiquidity <==> reason
            == "insufficient_liquidity"@,
        abort_reason(reason) == TradeError::EmptyBatch <==> reason != "pair_not_found"@ && reason
            != "slippage_exceeded"@ && reason != "insufficient_liquidity"@,
{
    reveal_strlit("pair_not_found");
    reveal_strlit("slippage_exceeded");
    reveal_strlit("insufficient_liquidity");
    assert("pair_not_found"@.len() != "slippage_exceeded"@.len());
    assert("pair_not_found"@.len() != "insufficient_liquidity"@.len());
    assert("slippage_exceeded"@.len() != "insufficient_liquidity"@.len());
}

} // verus!
