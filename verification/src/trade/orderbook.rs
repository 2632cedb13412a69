//! Order book management and price-time priority matching.
//!
//! Orders at one price are matched in the order in which they were placed.
use crate::math;
use crate::math::BPS_DENOM;
use crate::trade::types::{
    BookView, Fill, Order, OrderBook, OrderBookSnapshot, OrderSide, OrderStatus, TradeError,
    TradeLedger, TradePair, TradeStore, MAX_ORDERS_PER_PAIR,
};
use crate::values;
use crate::values::{Address, Symbol};
use vstd::prelude::*;

verus! {

// ---------------------------------------------------------------------------
// Books
// ---------------------------------------------------------------------------

/// Whether a resting order at `a` is matched no later than one at `b`.
pub open spec fn at_least_as_good(side: OrderSide, a: i128, b: i128) -> bool {
    match side {
        OrderSide::Buy => a >= b,
        OrderSide::Sell => a <= b,
    }
}

/// One side of a book: open orders of that side, best price first.
pub open spec fn side_wf(side: OrderSide, orders: Seq<Order>) -> bool {
    &&& orders.len() <= MAX_ORDERS_PER_PAIR
    &&& forall|i: int|
        0 <= i < orders.len() ==> (#[trigger] orders[i]).side == side && orders[i].price > 0
            && orders[i].remaining > 0
    &&& forall|i: int, j: int|
        0 <= i < j < orders.len() ==> at_least_as_good(
            side,
            (#[trigger] orders[i]).price,
            (#[trigger] orders[j]).price,
        )
}

/// A book that is filed under its own pair and sorted on either side.
pub open spec fn book_wf(pair_id: Symbol, book: BookView) -> bool {
    &&& book.pair_id == pair_id
    &&& side_wf(OrderSide::Buy, book.bids)
    &&& side_wf(OrderSide::Sell, book.asks)
}

/// Orders with ids of their own that were all handed out before `next_id`.
pub open spec fn ids_wf(orders: Seq<Order>, next_id: u64) -> bool {
    &&& forall|i: int| 0 <= i < orders.len() ==> (#[trigger] orders[i]).order_id < next_id
    &&& forall|i: int, j: int|
        0 <= i < j < orders.len() ==> (#[trigger] orders[i]).order_id != (
        #[trigger] orders[j]).order_id
}

/// A book without orders.
pub open spec fn empty_book(pair_id: Symbol) -> BookView {
    BookView { pair_id, bids: Seq::empty(), asks: Seq::empty() }
}

/// The first configuration of `pair_id`.
pub open spec fn pair_in(pairs: Seq<TradePair>, pair_id: Symbol) -> Option<TradePair>
    decreases pairs.len(),
{
    if pairs.len() == 0 {
        None
    } else if pairs[0].pair_id == pair_id {
        Some(pairs[0])
    } else {
        pair_in(pairs.drop_first(), pair_id)
    }
}

/// The configurations of the pairs other than `pair_id`.
pub open spec fn pairs_but(pairs: Seq<TradePair>, pair_id: Symbol) -> Seq<TradePair>
    decreases pairs.len(),
{
    if pairs.len() == 0 {
        Seq::empty()
    } else if pairs[0].pair_id == pair_id {
        pairs_but(pairs.drop_first(), pair_id)
    } else {
        seq![pairs[0]] + pairs_but(pairs.drop_first(), pair_id)
    }
}

/// A pair that was configured is found as it was given, and no other pair is
/// found otherwise than before.
pub proof fn a_configured_pair_is_found(pairs: Seq<TradePair>, pair: TradePair, other: Symbol)
    ensures
        pair_in(pairs_but(pairs, pair.pair_id).push(pair), pair.pair_id) == Some(pair),
        other != pair.pair_id ==> pair_in(pairs_but(pairs, pair.pair_id).push(pair), other)
            == pair_in(pairs, other),
    decreases pairs.len(),
{
    let kept = pairs_but(pairs, pair.pair_id);
    if pairs.len() == 0 {
        assert(pair_in(kept.push(pair).drop_first(), other) is None);
    } else {
        let rest = pairs_but(pairs.drop_first(), pair.pair_id);
        a_configured_pair_is_found(pairs.drop_first(), pair, other);
        if pairs[0].pair_id != pair.pair_id {
            assert(kept.push(pair).drop_first() =~= rest.push(pair));
        }
    }
}

impl TradeLedger {
    /// Every stored book is well formed, and no id stands twice on a side.
    pub open spec fn wf(self) -> bool {
        forall|p: Symbol| #[trigger]
            self.books.contains_key(p) ==> book_wf(p, self.books[p]) && ids_wf(
                self.books[p].bids,
                self.next_id(p),
            ) && ids_wf(self.books[p].asks, self.next_id(p))
    }

    /// The book of a pair; an empty one before the first order.
    pub open spec fn book(self, pair_id: Symbol) -> BookView {
        if self.books.contains_key(pair_id) {
            self.books[pair_id]
        } else {
            empty_book(pair_id)
        }
    }

    /// The id that the next order of a pair gets.
    pub open spec fn next_id(self, pair_id: Symbol) -> u64 {
        if self.counters.contains_key(pair_id) {
            self.counters[pair_id]
        } else {
            1
        }
    }

    /// The fee rate of a pair; none before the pair is configured.
    pub open spec fn fee_bps(self, pair_id: Symbol) -> i128 {
        match pair_in(self.pairs, pair_id) {
            Some(p) => p.fee_bps,
            None => 0,
        }
    }
}

/// Take the book of a pair out of the store.
fn take_book(store: &mut TradeStore, pair_id: &Symbol) -> (book: OrderBook)
    ensures
        book@ == old(store)@.book(*pair_id),
        final(store)@ == (TradeLedger { books: old(store)@.books.remove(*pair_id), ..old(store)@ }),
{
    let taken = store.books.take(pair_id);
    assert(store@.books =~= old(store)@.books.remove(*pair_id));
    match taken {
        Some(book) => book,
        None => {
            let book = OrderBook { pair_id: *pair_id, bids: Vec::new(), asks: Vec::new() };
            assert(book@ =~= empty_book(*pair_id));
            book
        },
    }
}

/// The order book of a pair; an empty one before the first order.
pub fn load_book(store: &TradeStore, pair_id: &Symbol) -> (book: OrderBook)
    ensures
        book@ == store@.book(*pair_id),
{
    match store.books.get(pair_id) {
        Some(book) => OrderBook {
            pair_id: book.pair_id,
            bids: crate::table::copy_list(&book.bids),
            asks: crate::table::copy_list(&book.asks),
        },
        None => {
            let book = OrderBook { pair_id: *pair_id, bids: Vec::new(), asks: Vec::new() };
            assert(book@ =~= empty_book(*pair_id));
            book
        },
    }
}

/// Store an order book under its own pair.
pub fn save_book(store: &mut TradeStore, book: OrderBook)
    ensures
        final(store)@ == (TradeLedger {
            books: old(store)@.books.insert(book.pair_id, book@),
            ..old(store)@
        }),
{
    let ghost view = book@;
    let pair_id = book.pair_id;
    store.books.set(pair_id, book);
    assert(store@.books =~= old(store)@.books.insert(pair_id, view));
}

/// Hand out the next order id of a pair and advance its counter.
pub fn next_order_id(store: &mut TradeStore, pair_id: &Symbol) -> (order_id: u64)
    requires
        old(store)@.next_id(*pair_id) < u64::MAX,
    ensures
        order_id == old(store)@.next_id(*pair_id),
        final(store)@ == (TradeLedger {
            counters: old(store)@.counters.insert(*pair_id, (order_id + 1) as u64),
            ..old(store)@
        }),
{
    let current: u64 = match store.counters.get(pair_id) {
        Some(n) => *n,
        None => 1,
    };
    store.counters.set(*pair_id, current + 1);
    current
}

// ---------------------------------------------------------------------------
// Insertion
// ---------------------------------------------------------------------------

/// Whether an incoming order at `price` goes before a resting one at `resting`.
pub open spec fn strictly_better(side: OrderSide, price: i128, resting: i128) -> bool {
    match side {
        OrderSide::Buy => price > resting,
        OrderSide::Sell => price < resting,
    }
}

/// Where an order at `price` enters: before the first order with a worse
/// price, behind all orders at the same price.
pub open spec fn entry_point(side: OrderSide, orders: Seq<Order>, price: i128) -> int
    decreases orders.len(),
{
    if orders.len() == 0 || strictly_better(side, price, orders[0].price) {
        0
    } else {
        1 + entry_point(side, orders.drop_first(), price)
    }
}

/// One side with `order` filed in it.
pub open spec fn filed(orders: Seq<Order>, order: Order) -> Seq<Order> {
    orders.insert(entry_point(order.side, orders, order.price), order)
}

proof fn lemma_entry_point(side: OrderSide, orders: Seq<Order>, price: i128)
    ensures
        0 <= entry_point(side, orders, price) <= orders.len(),
        forall|j: int|
            0 <= j < entry_point(side, orders, price) ==> !strictly_better(
                side,
                price,
                (#[trigger] orders[j]).price,
            ),
        entry_point(side, orders, price) < orders.len() ==> strictly_better(
            side,
            price,
            orders[entry_point(side, orders, price)].price,
        ),
    decreases orders.len(),
{
    if orders.len() == 0 || strictly_better(side, price, orders[0].price) {
    } else {
        let rest = orders.drop_first();
        lemma_entry_point(side, rest, price);
        assert forall|j: int| 0 <= j < entry_point(side, orders, price) implies !strictly_better(
            side,
            price,
            (#[trigger] orders[j]).price,
        ) by {
            if j > 0 {
                assert(orders[j] == rest[j - 1]);
            }
        }
    }
}

/// The entry point is the only position with no worse order before it and a
/// worse one behind it.
proof fn lemma_entry_point_is(side: OrderSide, orders: Seq<Order>, price: i128, at: int)
    requires
        0 <= at <= orders.len(),
        forall|j: int|
            0 <= j < at ==> !strictly_better(side, price, (#[trigger] orders[j]).price),
        at < orders.len() ==> strictly_better(side, price, orders[at].price),
    ensures
        entry_point(side, orders, price) == at,
{
    lemma_entry_point(side, orders, price);
    let e = entry_point(side, orders, price);
    if e < at {
        assert(!strictly_better(side, price, orders[e].price));
    } else if at < e {
        assert(!strictly_better(side, price, orders[at].price));
    }
}

/// Filing an open order keeps a side sorted.
pub proof fn filing_keeps_the_side_sorted(side: OrderSide, orders: Seq<Order>, order: Order)
    requires
        side_wf(side, orders),
        orders.len() < MAX_ORDERS_PER_PAIR,
        order.side == side,
        order.price > 0,
        order.remaining > 0,
    ensures
        side_wf(side, filed(orders, order)),
{
    lemma_entry_point(side, orders, order.price);
    let e = entry_point(side, orders, order.price);
    let next = filed(orders, order);
    assert forall|i: int| 0 <= i < next.len() implies (#[trigger] next[i]).side == side
        && next[i].price > 0 && next[i].remaining > 0 by {
        if i < e {
            assert(next[i] == orders[i]);
        } else if i > e {
            assert(next[i] == orders[i - 1]);
        }
    }
    assert forall|i: int, j: int| 0 <= i < j < next.len() implies at_least_as_good(
        side,
        (#[trigger] next[i]).price,
        (#[trigger] next[j]).price,
    ) by {
        let pi = if i < e { i } else { i - 1 };
        let pj = if j < e { j } else { j - 1 };
        if i != e {
            assert(next[i] == orders[pi]);
        }
        if j != e {
            assert(next[j] == orders[pj]);
        }
        if i == e {
            if pj > e {
                assert(at_least_as_good(side, orders[e].price, orders[pj].price));
            }
        } else if j != e {
            assert(at_least_as_good(side, orders[pi].price, orders[pj].price));
        }
    }
}

/// Time priority: an order enters behind every order that was there at the
/// same price, and those keep their places.
pub proof fn filing_respects_time(side: OrderSide, orders: Seq<Order>, order: Order)
    requires
        side_wf(side, orders),
        order.side == side,
    ensures
        forall|i: int|
            0 <= i < orders.len() && (#[trigger] orders[i]).price == order.price ==> i < entry_point(
                side,
                orders,
                order.price,
            ) && filed(orders, order)[i] == orders[i],
{
    lemma_entry_point(side, orders, order.price);
    let e = entry_point(side, orders, order.price);
    assert forall|i: int|
        0 <= i < orders.len() && (#[trigger] orders[i]).price == order.price implies i < e
        && filed(orders, order)[i] == orders[i] by {
        if i >= e {
            if e < i {
                assert(at_least_as_good(side, orders[e].price, orders[i].price));
            }
        }
    }
}

/// File `order` in `orders`, which is one side of a book.
fn insert_order_sorted(orders: &mut Vec<Order>, order: &Order) -> (r: Result<(), TradeError>)
    ensures
        old(orders)@.len() >= MAX_ORDERS_PER_PAIR ==> r == Err::<(), TradeError>(
            TradeError::MaxOrdersReached,
        ) && final(orders)@ == old(orders)@,
        old(orders)@.len() < MAX_ORDERS_PER_PAIR ==> r == Ok::<(), TradeError>(())
            && final(orders)@ == filed(old(orders)@, *order),
{
    if orders.len() >= MAX_ORDERS_PER_PAIR as usize {
        return Err(TradeError::MaxOrdersReached);
    }
    let mut at: usize = 0;
    while at < orders.len() && !goes_before(order.side, order.price, orders[at].price)
        invariant
            orders@ == old(orders)@,
            at <= orders@.len(),
            forall|j: int|
                0 <= j < at ==> !strictly_better(
                    order.side,
                    order.price,
                    (#[trigger] orders@[j]).price,
                ),
        decreases orders@.len() - at,
    {
        at += 1;
    }
    proof {
        lemma_entry_point_is(order.side, orders@, order.price, at as int);
    }
    orders.insert(at, *order);
    Ok(())
}

fn goes_before(side: OrderSide, price: i128, resting: i128) -> (b: bool)
    ensures
        b == strictly_better(side, price, resting),
{
    match side {
        OrderSide::Buy => price > resting,
        OrderSide::Sell => price < resting,
    }
}

/// Filing an order under the next id keeps the ids apart.
proof fn lemma_filed_ids(orders: Seq<Order>, order: Order)
    requires
        ids_wf(orders, order.order_id),
        order.order_id < u64::MAX,
    ensures
        ids_wf(filed(orders, order), (order.order_id + 1) as u64),
{
    lemma_entry_point(order.side, orders, order.price);
    let e = entry_point(order.side, orders, order.price);
    let next = filed(orders, order);
    assert forall|i: int| 0 <= i < next.len() implies (#[trigger] next[i]).order_id
        < order.order_id + 1 by {
        if i != e {
            assert(next[i] == orders[if i < e { i } else { i - 1 }]);
        }
    }
    assert forall|i: int, j: int| 0 <= i < j < next.len() implies (#[trigger] next[i]).order_id
        != (#[trigger] next[j]).order_id by {
        if i != e {
            assert(next[i] == orders[if i < e { i } else { i - 1 }]);
        }
        if j != e {
            assert(next[j] == orders[if j < e { j } else { j - 1 }]);
        }
    }
}

// ---------------------------------------------------------------------------
// Placing and cancelling
// ---------------------------------------------------------------------------

/// The order that placing makes.
pub open spec fn new_order(
    order_id: u64,
    pair_id: Symbol,
    owner: Address,
    side: OrderSide,
    price: i128,
    amount: i128,
    now: u64,
) -> Order {
    Order {
        order_id,
        pair_id,
        owner,
        side,
        price,
        amount,
        remaining: amount,
        status: OrderStatus::Active,
        created_at: now,
    }
}

impl TradeLedger {
    /// The state after `order` was filed under the next id of its pair.
    pub open spec fn after_placing(self, order: Order) -> TradeLedger {
        let book = self.book(order.pair_id);
        TradeLedger {
            books: self.books.insert(
                order.pair_id,
                book.with_side(order.side, filed(book.side(order.side), order)),
            ),
            counters: self.counters.insert(order.pair_id, (order.order_id + 1) as u64),
            orders: self.orders.insert((order.pair_id, order.order_id), order),
            ..self
        }
    }
}

/// Place a limit order and hand out its id. A refused order changes nothing.
pub fn place_order(
    store: &mut TradeStore,
    pair_id: &Symbol,
    owner: &Address,
    side: OrderSide,
    price: i128,
    amount: i128,
    now: u64,
) -> (r: Result<u64, TradeError>)
    requires
        old(store)@.wf(),
        old(store)@.next_id(*pair_id) < u64::MAX,
    ensures
        final(store)@.wf(),
        ({
            let ledger = old(store)@;
            if amount <= 0 || price <= 0 {
                r == Err::<u64, TradeError>(TradeError::InvalidOrderAmount) && final(store)@
                    == ledger
            } else if ledger.book(*pair_id).side(side).len() >= MAX_ORDERS_PER_PAIR {
                r == Err::<u64, TradeError>(TradeError::MaxOrdersReached) && final(store)@
                    == ledger
            } else {
                r == Ok::<u64, TradeError>(ledger.next_id(*pair_id)) && final(store)@
                    == ledger.after_placing(
                    new_order(ledger.next_id(*pair_id), *pair_id, *owner, side, price, amount, now),
                )
            }
        }),
{
    if amount <= 0 {
        return Err(TradeError::InvalidOrderAmount);
    }
    if price <= 0 {
        return Err(TradeError::InvalidOrderAmount);
    }
    let ghost ledger = store@;
    let mut book = load_book(store, pair_id);
    let full = match side {
        OrderSide::Buy => book.bids.len() >= MAX_ORDERS_PER_PAIR as usize,
        OrderSide::Sell => book.asks.len() >= MAX_ORDERS_PER_PAIR as usize,
    };
    if full {
        return Err(TradeError::MaxOrdersReached);
    }
    let order_id = next_order_id(store, pair_id);
    let order = Order {
        order_id,
        pair_id: *pair_id,
        owner: *owner,
        side,
        price,
        amount,
        remaining: amount,
        status: OrderStatus::Active,
        created_at: now,
    };
    proof {
        filing_keeps_the_side_sorted(side, ledger.book(*pair_id).side(side), order);
        lemma_filed_ids(ledger.book(*pair_id).side(side), order);
    }
    let filed_in = match side {
        OrderSide::Buy => insert_order_sorted(&mut book.bids, &order),
        OrderSide::Sell => insert_order_sorted(&mut book.asks, &order),
    };
    assert(filed_in is Ok);
    save_book(store, book);
    store.orders.set((*pair_id, order_id), order);
    proof {
        assert(store@ == ledger.after_placing(order));
        assert(book@ == ledger.book(*pair_id).with_side(
            side,
            filed(ledger.book(*pair_id).side(side), order),
        ));
    }
    Ok(order_id)
}

/// `orders` without the first order that has the id.
pub open spec fn without(orders: Seq<Order>, order_id: u64) -> Seq<Order>
    decreases orders.len(),
{
    if orders.len() == 0 {
        orders
    } else if orders[0].order_id == order_id {
        orders.drop_first()
    } else {
        seq![orders[0]] + without(orders.drop_first(), order_id)
    }
}

proof fn lemma_without_at(orders: Seq<Order>, order_id: u64, at: int)
    requires
        0 <= at <= orders.len(),
        forall|j: int| 0 <= j < at ==> (#[trigger] orders[j]).order_id != order_id,
        at < orders.len() ==> orders[at].order_id == order_id,
    ensures
        without(orders, order_id) == (if at < orders.len() {
            orders.remove(at)
        } else {
            orders
        }),
    decreases orders.len(),
{
    if orders.len() > 0 {
        let rest = orders.drop_first();
        if at == 0 {
            assert(orders.remove(0) =~= rest);
        } else {
            assert(orders[0].order_id != order_id);
            assert forall|j: int| 0 <= j < at - 1 implies (#[trigger] rest[j]).order_id
                != order_id by {
                assert(rest[j] == orders[j + 1]);
            }
            lemma_without_at(rest, order_id, at - 1);
            if at < orders.len() {
                assert(orders.remove(at) =~= seq![orders[0]] + rest.remove(at - 1));
            } else {
                assert(orders =~= seq![orders[0]] + rest);
            }
        }
    }
}

/// Taking orders out of a side keeps the rest sorted.
proof fn lemma_without_wf(side: OrderSide, orders: Seq<Order>, order_id: u64)
    requires
        side_wf(side, orders),
    ensures
        side_wf(side, without(orders, order_id)),
{
    lemma_first_with(orders, order_id);
    let at = first_with(orders, order_id);
    lemma_without_at(orders, order_id, at);
    if at < orders.len() {
        let next = orders.remove(at);
        assert forall|i: int| 0 <= i < next.len() implies (#[trigger] next[i]).side == side
            && next[i].price > 0 && next[i].remaining > 0 by {
            assert(next[i] == orders[if i < at { i } else { i + 1 }]);
        }
        assert forall|i: int, j: int| 0 <= i < j < next.len() implies at_least_as_good(
            side,
            (#[trigger] next[i]).price,
            (#[trigger] next[j]).price,
        ) by {
            assert(next[i] == orders[if i < at { i } else { i + 1 }]);
            assert(next[j] == orders[if j < at { j } else { j + 1 }]);
        }
    }
}

/// Taking an order out of a side keeps the ids of the rest apart.
proof fn lemma_without_ids(orders: Seq<Order>, order_id: u64, next_id: u64)
    requires
        ids_wf(orders, next_id),
    ensures
        ids_wf(without(orders, order_id), next_id),
{
    lemma_first_with(orders, order_id);
    let at = first_with(orders, order_id);
    lemma_without_at(orders, order_id, at);
    if at < orders.len() {
        let next = orders.remove(at);
        assert forall|i: int| 0 <= i < next.len() implies (#[trigger] next[i]).order_id < next_id by {
            assert(next[i] == orders[if i < at { i } else { i + 1 }]);
        }
        assert forall|i: int, j: int| 0 <= i < j < next.len() implies (#[trigger] next[i]).order_id
            != (#[trigger] next[j]).order_id by {
            assert(next[i] == orders[if i < at { i } else { i + 1 }]);
            assert(next[j] == orders[if j < at { j } else { j + 1 }]);
        }
    }
}

spec fn first_with(orders: Seq<Order>, order_id: u64) -> int
    decreases orders.len(),
{
    if orders.len() == 0 || orders[0].order_id == order_id {
        0
    } else {
        1 + first_with(orders.drop_first(), order_id)
    }
}

proof fn lemma_first_with(orders: Seq<Order>, order_id: u64)
    ensures
        0 <= first_with(orders, order_id) <= orders.len(),
        forall|j: int|
            0 <= j < first_with(orders, order_id) ==> (#[trigger] orders[j]).order_id != order_id,
        first_with(orders, order_id) < orders.len() ==> orders[first_with(
            orders,
            order_id,
        )].order_id == order_id,
    decreases orders.len(),
{
    if orders.len() == 0 || orders[0].order_id == order_id {
    } else {
        let rest = orders.drop_first();
        lemma_first_with(rest, order_id);
        assert forall|j: int| 0 <= j < first_with(orders, order_id) implies (
        #[trigger] orders[j]).order_id != order_id by {
            if j > 0 {
                assert(orders[j] == rest[j - 1]);
            }
        }
    }
}

fn remove_by_id(orders: &mut Vec<Order>, order_id: u64)
    ensures
        final(orders)@ == without(old(orders)@, order_id),
{
    let mut at: usize = 0;
    while at < orders.len() && orders[at].order_id != order_id
        invariant
            orders@ == old(orders)@,
            at <= orders@.len(),
            forall|j: int| 0 <= j < at ==> (#[trigger] orders@[j]).order_id != order_id,
        decreases orders@.len() - at,
    {
        at += 1;
    }
    proof {
        lemma_without_at(orders@, order_id, at as int);
    }
    if at < orders.len() {
        orders.remove(at);
    }
}

/// Remove an order from its side of the book.
pub fn remove_order_from_book(book: &mut OrderBook, order: &Order)
    ensures
        final(book)@ == old(book)@.with_side(
            order.side,
            without(old(book)@.side(order.side), order.order_id),
        ),
{
    match order.side {
        OrderSide::Buy => remove_by_id(&mut book.bids, order.order_id),
        OrderSide::Sell => remove_by_id(&mut book.asks, order.order_id),
    }
}

/// Whether an order can still be filled or cancelled.
pub open spec fn is_open(order: Order) -> bool {
    order.status == OrderStatus::Active || order.status == OrderStatus::PartiallyFilled
}

impl TradeLedger {
    /// What a request to cancel is answered.
    pub open spec fn cancel_verdict(
        self,
        pair_id: Symbol,
        order_id: u64,
        caller: Address,
        is_admin: bool,
    ) -> Result<(), TradeError> {
        let key = (pair_id, order_id);
        if !self.orders.contains_key(key) || !is_open(self.orders[key]) {
            Err(TradeError::OrderNotFound)
        } else if !is_admin && self.orders[key].owner != caller {
            Err(TradeError::NotOrderOwner)
        } else {
            Ok(())
        }
    }

    /// The state after `order` was cancelled.
    pub open spec fn after_cancelling(self, pair_id: Symbol, order_id: u64) -> TradeLedger {
        let order = self.orders[(pair_id, order_id)];
        let book = self.book(pair_id);
        TradeLedger {
            books: self.books.insert(
                book.pair_id,
                book.with_side(order.side, without(book.side(order.side), order.order_id)),
            ),
            orders: self.orders.insert(
                (pair_id, order_id),
                Order { status: OrderStatus::Cancelled, remaining: 0, ..order },
            ),
            ..self
        }
    }
}

/// Cancel an open order, as its owner or as the administrator.
pub fn cancel_order(
    store: &mut TradeStore,
    pair_id: &Symbol,
    order_id: u64,
    caller: &Address,
    is_admin: bool,
) -> (r: Result<(), TradeError>)
    requires
        old(store)@.wf(),
    ensures
        final(store)@.wf(),
        r == old(store)@.cancel_verdict(*pair_id, order_id, *caller, is_admin),
        final(store)@ == (if r is Ok {
            old(store)@.after_cancelling(*pair_id, order_id)
        } else {
            old(store)@
        }),
{
    let ghost ledger = store@;
    let mut order: Order = match store.orders.get(&(*pair_id, order_id)) {
        Some(o) => *o,
        None => {
            return Err(TradeError::OrderNotFound);
        },
    };
    if order.status != OrderStatus::Active && order.status != OrderStatus::PartiallyFilled {
        return Err(TradeError::OrderNotFound);
    }
    if !is_admin && order.owner != *caller {
        return Err(TradeError::NotOrderOwner);
    }
    let mut book = take_book(store, pair_id);
    proof {
        let next_id = ledger.next_id(*pair_id);
        lemma_without_wf(OrderSide::Buy, ledger.book(*pair_id).bids, order.order_id);
        lemma_without_wf(OrderSide::Sell, ledger.book(*pair_id).asks, order.order_id);
        lemma_without_ids(ledger.book(*pair_id).bids, order.order_id, next_id);
        lemma_without_ids(ledger.book(*pair_id).asks, order.order_id, next_id);
    }
    remove_order_from_book(&mut book, &order);
    save_book(store, book);
    order.status = OrderStatus::Cancelled;
    order.remaining = 0;
    store.orders.set((*pair_id, order_id), order);
    proof {
        assert(store@.books =~= ledger.after_cancelling(*pair_id, order_id).books);
    }
    Ok(())
}

/// Taking an order out undoes filing it, where nobody had its id before.
pub proof fn taking_out_undoes_filing(orders: Seq<Order>, order: Order)
    requires
        ids_wf(orders, order.order_id),
    ensures
        without(filed(orders, order), order.order_id) == orders,
{
    lemma_entry_point(order.side, orders, order.price);
    let e = entry_point(order.side, orders, order.price);
    let next = filed(orders, order);
    assert forall|j: int| 0 <= j < e implies (#[trigger] next[j]).order_id != order.order_id by {
        assert(next[j] == orders[j]);
    }
    lemma_without_at(next, order.order_id, e);
    assert(next.remove(e) =~= orders);
}

/// An order that was just placed can be cancelled by its owner and by the
/// administrator and by nobody else. Cancelling it gives the book back as it
/// was before; only the record of the order and the advanced counter stay, and
/// it cannot be cancelled twice.
pub proof fn cancelling_undoes_placing(
    ledger: TradeLedger,
    pair_id: Symbol,
    owner: Address,
    side: OrderSide,
    price: i128,
    amount: i128,
    now: u64,
    caller: Address,
    is_admin: bool,
)
    requires
        ledger.wf(),
        ledger.next_id(pair_id) < u64::MAX,
        amount > 0,
        price > 0,
        ledger.book(pair_id).side(side).len() < MAX_ORDERS_PER_PAIR,
    ensures
        ({
            let order_id = ledger.next_id(pair_id);
            let order = new_order(order_id, pair_id, owner, side, price, amount, now);
            let placed = ledger.after_placing(order);
            let cancelled = placed.after_cancelling(pair_id, order_id);
            &&& placed.cancel_verdict(pair_id, order_id, caller, is_admin) == (if is_admin || caller
                == owner {
                Ok::<(), TradeError>(())
            } else {
                Err::<(), TradeError>(TradeError::NotOrderOwner)
            })
            &&& forall|p: Symbol| #[trigger] cancelled.book(p) == ledger.book(p)
            &&& cancelled.orders == ledger.orders.insert(
                (pair_id, order_id),
                Order { status: OrderStatus::Cancelled, remaining: 0, ..order },
            )
            &&& cancelled.next_id(pair_id) == order_id + 1
            &&& cancelled.cancel_verdict(pair_id, order_id, caller, is_admin) == Err::<
                (),
                TradeError,
            >(TradeError::OrderNotFound)
        }),
{
    let order_id = ledger.next_id(pair_id);
    let order = new_order(order_id, pair_id, owner, side, price, amount, now);
    let placed = ledger.after_placing(order);
    let cancelled = placed.after_cancelling(pair_id, order_id);
    taking_out_undoes_filing(ledger.book(pair_id).side(side), order);
    assert(placed.orders[(pair_id, order_id)] == order);
    assert(cancelled.orders =~= ledger.orders.insert(
        (pair_id, order_id),
        Order { status: OrderStatus::Cancelled, remaining: 0, ..order },
    ));
    assert(cancelled.book(pair_id) == ledger.book(pair_id));
}

/// An order by pair and id.
pub fn get_order(store: &TradeStore, pair_id: &Symbol, order_id: u64) -> (order: Option<Order>)
    ensures
        order == store@.orders.get((*pair_id, order_id)),
{
    match store.orders.get(&(*pair_id, order_id)) {
        Some(o) => Some(*o),
        None => None,
    }
}

/// The best price of a side, 0 when the side is empty.
pub open spec fn best_price(orders: Seq<Order>) -> i128 {
    if orders.len() > 0 {
        orders[0].price
    } else {
        0
    }
}

/// The top of a pair's book. The spread is 0 unless both sides have orders.
pub fn get_book_snapshot(store: &TradeStore, pair_id: &Symbol) -> (snapshot: OrderBookSnapshot)
    requires
        store@.wf(),
    ensures
        ({
            let book = store@.book(*pair_id);
            &&& snapshot.pair_id == *pair_id
            &&& snapshot.bid_count == book.bids.len()
            &&& snapshot.ask_count == book.asks.len()
            &&& snapshot.best_bid == best_price(book.bids)
            &&& snapshot.best_ask == best_price(book.asks)
            &&& snapshot.spread == (if book.bids.len() > 0 && book.asks.len() > 0 {
                best_price(book.asks) - best_price(book.bids)
            } else {
                0
            })
        }),
{
    let book = load_book(store, pair_id);
    assert(book_wf(*pair_id, book@));
    let best_bid: i128 = if book.bids.len() > 0 {
        book.bids[0].price
    } else {
        0
    };
    let best_ask: i128 = if book.asks.len() > 0 {
        book.asks[0].price
    } else {
        0
    };
    let spread: i128 = if best_bid > 0 && best_ask > 0 {
        best_ask - best_bid
    } else {
        0
    };
    OrderBookSnapshot {
        pair_id: *pair_id,
        bid_count: book.bids.len() as u32,
        ask_count: book.asks.len() as u32,
        best_bid,
        best_ask,
        spread,
    }
}

// ---------------------------------------------------------------------------
// Matching
// ---------------------------------------------------------------------------

/// Whether a taker on `side` with this limit trades at `price`.
pub open spec fn crosses(side: OrderSide, price: i128, limit_price: i128) -> bool {
    match side {
        OrderSide::Buy => price <= limit_price,
        OrderSide::Sell => price >= limit_price,
    }
}

/// The side that a taker trades against.
pub open spec fn opposite(side: OrderSide) -> OrderSide {
    match side {
        OrderSide::Buy => OrderSide::Sell,
        OrderSide::Sell => OrderSide::Buy,
    }
}

/// Whether matching stops in front of `makers`.
pub open spec fn stops(makers: Seq<Order>, side: OrderSide, amount: int, limit_price: i128) -> bool {
    amount <= 0 || makers.len() == 0 || !crosses(side, makers[0].price, limit_price)
}

/// How much of `amount` the first maker takes.
pub open spec fn taken_by(maker: Order, amount: int) -> int {
    math::least(amount, maker.remaining as int)
}

/// A maker after `quantity` of it was filled.
pub open spec fn reduced(maker: Order, quantity: int) -> Order {
    Order {
        remaining: (maker.remaining - quantity) as i128,
        status: if maker.remaining == quantity {
            OrderStatus::Filled
        } else {
            OrderStatus::PartiallyFilled
        },
        ..maker
    }
}

/// The fills that an incoming order makes, in order: the makers are taken one
/// after another, each at its own price.
pub open spec fn fills_against(
    makers: Seq<Order>,
    taker: Address,
    side: OrderSide,
    pair_id: Symbol,
    amount: int,
    limit_price: i128,
    fee_bps: i128,
) -> Seq<Fill>
    decreases makers.len(),
{
    if stops(makers, side, amount, limit_price) {
        Seq::empty()
    } else {
        let q = taken_by(makers[0], amount);
        seq![
            Fill {
                order_id: makers[0].order_id,
                pair_id,
                taker,
                maker: makers[0].owner,
                side,
                price: makers[0].price,
                amount: q as i128,
                fee: fee_of(q, makers[0].price as int, fee_bps as int) as i128,
            },
        ] + fills_against(
            makers.drop_first(),
            taker,
            side,
            pair_id,
            amount - q,
            limit_price,
            fee_bps,
        )
    }
}

/// How much is filled in all.
pub open spec fn filled_against(
    makers: Seq<Order>,
    side: OrderSide,
    amount: int,
    limit_price: i128,
) -> int
    decreases makers.len(),
{
    if stops(makers, side, amount, limit_price) {
        0
    } else {
        let q = taken_by(makers[0], amount);
        q + filled_against(makers.drop_first(), side, amount - q, limit_price)
    }
}

/// The makers that stay in the book.
pub open spec fn makers_left(
    makers: Seq<Order>,
    side: OrderSide,
    amount: int,
    limit_price: i128,
) -> Seq<Order>
    decreases makers.len(),
{
    if stops(makers, side, amount, limit_price) {
        makers
    } else {
        let q = taken_by(makers[0], amount);
        let rest = makers_left(makers.drop_first(), side, amount - q, limit_price);
        if q == makers[0].remaining {
            rest
        } else {
            seq![reduced(makers[0], q)] + rest
        }
    }
}

/// The order records after matching: each maker that was touched is updated.
pub open spec fn orders_after(
    orders: Map<(Symbol, u64), Order>,
    makers: Seq<Order>,
    side: OrderSide,
    pair_id: Symbol,
    amount: int,
    limit_price: i128,
) -> Map<(Symbol, u64), Order>
    decreases makers.len(),
{
    if stops(makers, side, amount, limit_price) {
        orders
    } else {
        let q = taken_by(makers[0], amount);
        orders_after(
            orders.insert((pair_id, makers[0].order_id), reduced(makers[0], q)),
            makers.drop_first(),
            side,
            pair_id,
            amount - q,
            limit_price,
        )
    }
}

impl TradeLedger {
    /// The state after an incoming order was matched.
    pub open spec fn after_matching(
        self,
        pair_id: Symbol,
        side: OrderSide,
        amount: int,
        limit_price: i128,
    ) -> TradeLedger {
        let book = self.book(pair_id);
        let makers = book.side(opposite(side));
        TradeLedger {
            books: self.books.insert(
                pair_id,
                book.with_side(opposite(side), makers_left(makers, side, amount, limit_price)),
            ),
            orders: orders_after(self.orders, makers, side, pair_id, amount, limit_price),
            ..self
        }
    }

    /// The fills of an incoming order.
    pub open spec fn fills(
        self,
        pair_id: Symbol,
        taker: Address,
        side: OrderSide,
        amount: int,
        limit_price: i128,
    ) -> Seq<Fill> {
        fills_against(
            self.book(pair_id).side(opposite(side)),
            taker,
            side,
            pair_id,
            amount,
            limit_price,
            self.fee_bps(pair_id),
        )
    }

    /// How much of an incoming order is filled.
    pub open spec fn filled(
        self,
        pair_id: Symbol,
        side: OrderSide,
        amount: int,
        limit_price: i128,
    ) -> int {
        filled_against(self.book(pair_id).side(opposite(side)), side, amount, limit_price)
    }
}

/// A side without its first order is still sorted.
pub proof fn lemma_rest_wf(side: OrderSide, orders: Seq<Order>)
    requires
        side_wf(side, orders),
        orders.len() > 0,
    ensures
        side_wf(side, orders.drop_first()),
{
    let rest = orders.drop_first();
    assert forall|i: int| 0 <= i < rest.len() implies (#[trigger] rest[i]).side == side
        && rest[i].price > 0 && rest[i].remaining > 0 by {
        assert(rest[i] == orders[i + 1]);
    }
    assert forall|i: int, j: int| 0 <= i < j < rest.len() implies at_least_as_good(
        side,
        (#[trigger] rest[i]).price,
        (#[trigger] rest[j]).price,
    ) by {
        assert(rest[i] == orders[i + 1]);
        assert(rest[j] == orders[j + 1]);
    }
}

spec fn has_id(orders: Seq<Order>, order_id: u64) -> bool {
    exists|k: int| 0 <= k < orders.len() && (#[trigger] orders[k]).order_id == order_id
}

/// Who has an id among the makers that stay had it before.
proof fn lemma_left_has_no_new_id(
    makers: Seq<Order>,
    side: OrderSide,
    amount: int,
    limit_price: i128,
    order_id: u64,
)
    requires
        has_id(makers_left(makers, side, amount, limit_price), order_id),
    ensures
        has_id(makers, order_id),
    decreases makers.len(),
{
    if !stops(makers, side, amount, limit_price) {
        let q = taken_by(makers[0], amount);
        let rest = makers.drop_first();
        let left = makers_left(rest, side, amount - q, limit_price);
        let all = makers_left(makers, side, amount, limit_price);
        let i = choose|i: int| 0 <= i < all.len() && (#[trigger] all[i]).order_id == order_id;
        if q != makers[0].remaining && i == 0 {
            assert(makers[0].order_id == order_id);
        } else {
            let at: int = if q != makers[0].remaining { i - 1 } else { i };
            assert(left[at].order_id == order_id);
            lemma_left_has_no_new_id(rest, side, amount - q, limit_price, order_id);
            let k = choose|k: int| 0 <= k < rest.len() && (#[trigger] rest[k]).order_id == order_id;
            assert(makers[k + 1].order_id == order_id);
        }
    }
}

/// Matching keeps the ids of the makers that stay apart.
proof fn lemma_left_ids(
    makers: Seq<Order>,
    side: OrderSide,
    amount: int,
    limit_price: i128,
    next_id: u64,
)
    requires
        ids_wf(makers, next_id),
    ensures
        ids_wf(makers_left(makers, side, amount, limit_price), next_id),
    decreases makers.len(),
{
    if !stops(makers, side, amount, limit_price) {
        let q = taken_by(makers[0], amount);
        let rest = makers.drop_first();
        assert(ids_wf(rest, next_id)) by {
            assert forall|i: int| 0 <= i < rest.len() implies (#[trigger] rest[i]).order_id
                < next_id by {
                assert(rest[i] == makers[i + 1]);
            }
            assert forall|i: int, j: int| 0 <= i < j < rest.len() implies (
            #[trigger] rest[i]).order_id != (#[trigger] rest[j]).order_id by {
                assert(rest[i] == makers[i + 1] && rest[j] == makers[j + 1]);
            }
        }
        lemma_left_ids(rest, side, amount - q, limit_price, next_id);
        let left = makers_left(rest, side, amount - q, limit_price);
        if q != makers[0].remaining {
            let first = reduced(makers[0], q);
            let all = seq![first] + left;
            assert forall|j: int| 0 <= j < left.len() implies (#[trigger] left[j]).order_id
                != first.order_id by {
                if left[j].order_id == first.order_id {
                    lemma_left_has_no_new_id(rest, side, amount - q, limit_price, first.order_id);
                    let k = choose|k: int|
                        0 <= k < rest.len() && (#[trigger] rest[k]).order_id == first.order_id;
                    assert(makers[k + 1] == rest[k]);
                    assert(makers[0].order_id != makers[k + 1].order_id);
                }
            }
            assert forall|i: int| 0 <= i < all.len() implies (#[trigger] all[i]).order_id
                < next_id by {
                if i > 0 {
                    assert(all[i] == left[i - 1]);
                }
            }
            assert forall|i: int, j: int| 0 <= i < j < all.len() implies (#[trigger] all[i]).order_id
                != (#[trigger] all[j]).order_id by {
                assert(all[j] == left[j - 1]);
                if i > 0 {
                    assert(all[i] == left[i - 1]);
                }
            }
        }
    }
}

/// Matching keeps a side sorted and its orders open.
pub proof fn matching_keeps_the_side_sorted(
    makers: Seq<Order>,
    side: OrderSide,
    amount: int,
    limit_price: i128,
)
    requires
        side_wf(opposite(side), makers),
    ensures
        side_wf(opposite(side), makers_left(makers, side, amount, limit_price)),
        makers_left(makers, side, amount, limit_price).len() <= makers.len(),
        makers_left(makers, side, amount, limit_price).len() > 0 ==> makers.len() > 0
            && at_least_as_good(
            opposite(side),
            makers[0].price,
            makers_left(makers, side, amount, limit_price)[0].price,
        ),
    decreases makers.len(),
{
    if !stops(makers, side, amount, limit_price) {
        let q = taken_by(makers[0], amount);
        let rest = makers.drop_first();
        lemma_rest_wf(opposite(side), makers);
        matching_keeps_the_side_sorted(rest, side, amount - q, limit_price);
        let left = makers_left(rest, side, amount - q, limit_price);
        if left.len() > 0 {
            assert(at_least_as_good(opposite(side), makers[0].price, makers[1].price));
            assert(rest[0] == makers[1]);
        }
        if q != makers[0].remaining {
            let next = seq![reduced(makers[0], q)] + left;
            assert(next == makers_left(makers, side, amount, limit_price));
            assert(makers[0].side == opposite(side));
            assert forall|i: int| 0 <= i < next.len() implies (#[trigger] next[i]).side == opposite(
                side,
            ) && next[i].price > 0 && next[i].remaining > 0 by {
                if i > 0 {
                    assert(next[i] == left[i - 1]);
                }
            }
            assert forall|i: int, j: int| 0 <= i < j < next.len() implies at_least_as_good(
                opposite(side),
                (#[trigger] next[i]).price,
                (#[trigger] next[j]).price,
            ) by {
                assert(next[j] == left[j - 1]);
                if i > 0 {
                    assert(next[i] == left[i - 1]);
                } else if j > 1 {
                    assert(at_least_as_good(opposite(side), left[0].price, left[j - 1].price));
                }
            }
        }
    }
}

/// The open quantity on a side.
pub open spec fn open_quantity(orders: Seq<Order>) -> int
    decreases orders.len(),
{
    if orders.len() == 0 {
        0
    } else {
        orders[0].remaining + open_quantity(orders.drop_first())
    }
}

/// What fills add up to.
pub open spec fn filled_quantity(fills: Seq<Fill>) -> int
    decreases fills.len(),
{
    if fills.len() == 0 {
        0
    } else {
        fills[0].amount + filled_quantity(fills.drop_first())
    }
}

/// Nothing is made or lost in matching: the fills add up to the filled
/// amount, which is what leaves the book and is at most what was asked for;
/// and every fill is at a price the taker accepts.
pub proof fn matching_conserves_quantity(
    makers: Seq<Order>,
    taker: Address,
    side: OrderSide,
    pair_id: Symbol,
    amount: int,
    limit_price: i128,
    fee_bps: i128,
)
    requires
        side_wf(opposite(side), makers),
        amount <= i128::MAX,
    ensures
        ({
            let fills = fills_against(makers, taker, side, pair_id, amount, limit_price, fee_bps);
            let filled = filled_against(makers, side, amount, limit_price);
            &&& filled_quantity(fills) == filled
            &&& open_quantity(makers) == open_quantity(
                makers_left(makers, side, amount, limit_price),
            ) + filled
            &&& 0 <= filled
            &&& amount >= 0 ==> filled <= amount
            &&& fills.len() <= makers.len()
            &&& forall|i: int|
                0 <= i < fills.len() ==> crosses(side, (#[trigger] fills[i]).price, limit_price)
                    && fills[i].amount > 0 && fills[i].price == makers[i].price
                    && fills[i].order_id == makers[i].order_id
        }),
    decreases makers.len(),
{
    if !stops(makers, side, amount, limit_price) {
        let q = taken_by(makers[0], amount);
        let rest = makers.drop_first();
        assert(makers[0].remaining > 0);
        lemma_rest_wf(opposite(side), makers);
        matching_conserves_quantity(
            rest,
            taker,
            side,
            pair_id,
            amount - q,
            limit_price,
            fee_bps,
        );
        let fills = fills_against(makers, taker, side, pair_id, amount, limit_price, fee_bps);
        let more = fills_against(rest, taker, side, pair_id, amount - q, limit_price, fee_bps);
        assert(fills.drop_first() =~= more);
        assert forall|i: int| 0 <= i < fills.len() implies crosses(
            side,
            (#[trigger] fills[i]).price,
            limit_price,
        ) && fills[i].amount > 0 && fills[i].price == makers[i].price && fills[i].order_id
            == makers[i].order_id by {
            if i > 0 {
                assert(fills[i] == more[i - 1]);
                assert(rest[i - 1] == makers[i]);
            }
        }
        let left = makers_left(rest, side, amount - q, limit_price);
        if q != makers[0].remaining {
            let next = seq![reduced(makers[0], q)] + left;
            assert(next.drop_first() =~= left);
            assert(next[0] == reduced(makers[0], q));
        }
    }
}

/// Matching goes as far as it can: an order that is not filled completely
/// leaves no maker at a price that the taker accepts.
pub proof fn matching_is_exhaustive(
    makers: Seq<Order>,
    side: OrderSide,
    amount: int,
    limit_price: i128,
)
    requires
        side_wf(opposite(side), makers),
        filled_against(makers, side, amount, limit_price) < amount,
    ensures
        makers_left(makers, side, amount, limit_price).len() > 0 ==> !crosses(
            side,
            makers_left(makers, side, amount, limit_price)[0].price,
            limit_price,
        ),
    decreases makers.len(),
{
    if !stops(makers, side, amount, limit_price) {
        let q = taken_by(makers[0], amount);
        let rest = makers.drop_first();
        lemma_rest_wf(opposite(side), makers);
        if q == amount {
            assert(filled_against(rest, side, 0, limit_price) == 0);
        }
        matching_is_exhaustive(rest, side, amount - q, limit_price);
    }
}

/// Match `amount` against `makers`, the side of the book opposite to the
/// taker.
fn match_side(
    makers: &mut Vec<Order>,
    store: &mut TradeStore,
    pair_id: &Symbol,
    taker: &Address,
    side: OrderSide,
    amount: i128,
    limit_price: i128,
    fee_bps: i128,
) -> (r: (Vec<Fill>, i128))
    requires
        side_wf(opposite(side), old(makers)@),
    ensures
        r.0@ == fills_against(
            old(makers)@,
            *taker,
            side,
            *pair_id,
            amount as int,
            limit_price,
            fee_bps,
        ),
        r.1 == filled_against(old(makers)@, side, amount as int, limit_price),
        final(makers)@ == makers_left(old(makers)@, side, amount as int, limit_price),
        final(store)@ == (TradeLedger {
            orders: orders_after(
                old(store)@.orders,
                old(makers)@,
                side,
                *pair_id,
                amount as int,
                limit_price,
            ),
            ..old(store)@
        }),
{
    let mut fills: Vec<Fill> = Vec::new();
    let mut remaining_amount = amount;
    let ghost start = makers@;
    let ghost orders = store@.orders;
    let mut going = true;
    proof {
        matching_conserves_quantity(
            start,
            *taker,
            side,
            *pair_id,
            amount as int,
            limit_price,
            fee_bps,
        );
    }
    while going && remaining_amount > 0 && makers.len() > 0
        invariant
            remaining_amount > 0 ==> side_wf(opposite(side), makers@),
            remaining_amount <= amount,
            amount >= 0 ==> remaining_amount >= 0,
            amount < 0 ==> remaining_amount == amount,
            !going ==> stops(makers@, side, remaining_amount as int, limit_price),
            fills@ + fills_against(
                makers@,
                *taker,
                side,
                *pair_id,
                remaining_amount as int,
                limit_price,
                fee_bps,
            ) == fills_against(start, *taker, side, *pair_id, amount as int, limit_price, fee_bps),
            makers_left(makers@, side, remaining_amount as int, limit_price) == makers_left(
                start,
                side,
                amount as int,
                limit_price,
            ),
            (amount - remaining_amount) + filled_against(
                makers@,
                side,
                remaining_amount as int,
                limit_price,
            ) == filled_against(start, side, amount as int, limit_price),
            store@ == (TradeLedger { orders: store@.orders, ..old(store)@ }),
            orders_after(
                store@.orders,
                makers@,
                side,
                *pair_id,
                remaining_amount as int,
                limit_price,
            ) == orders_after(orders, start, side, *pair_id, amount as int, limit_price),
        decreases makers@.len() + remaining_amount + (if going { 1int } else { 0 }),
    {
        let maker = makers[0];
        let accepted = match side {
            OrderSide::Buy => maker.price <= limit_price,
            OrderSide::Sell => maker.price >= limit_price,
        };
        if !accepted {
            going = false;
        } else {
            let ghost before = makers@;
            let ghost left = remaining_amount as int;
            assert(maker.remaining > 0);
            let fill_qty = if remaining_amount <= maker.remaining {
                remaining_amount
            } else {
                maker.remaining
            };
            let fee = calculate_fee(fill_qty, maker.price, fee_bps);
            let ghost done = fills@;
            fills.push(
                Fill {
                    order_id: maker.order_id,
                    pair_id: *pair_id,
                    taker: *taker,
                    maker: maker.owner,
                    side,
                    price: maker.price,
                    amount: fill_qty,
                    fee,
                },
            );
            remaining_amount = remaining_amount - fill_qty;
            let updated_remaining = maker.remaining - fill_qty;
            let mut updated = maker;
            updated.remaining = updated_remaining;
            if updated_remaining == 0 {
                updated.status = OrderStatus::Filled;
                makers.remove(0);
                assert(makers@ =~= before.drop_first());
            } else {
                updated.status = OrderStatus::PartiallyFilled;
                makers.set(0, updated);
                assert(remaining_amount == 0);
                assert(makers@ =~= seq![updated] + before.drop_first());
            }
            let ghost records = store@.orders;
            store.orders.set((*pair_id, maker.order_id), updated);
            proof {
                let noted = records.insert((*pair_id, maker.order_id), updated);
                assert(store@.orders == noted);
                let q = fill_qty as int;
                assert(!stops(before, side, left, limit_price));
                assert(q == taken_by(before[0], left));
                assert(updated == reduced(before[0], q));
                let rest = before.drop_first();
                assert(fills@ =~= done + seq![fills@.last()]);
                assert(fills@ + fills_against(
                    rest,
                    *taker,
                    side,
                    *pair_id,
                    left - q,
                    limit_price,
                    fee_bps,
                ) =~= done + fills_against(
                    before,
                    *taker,
                    side,
                    *pair_id,
                    left,
                    limit_price,
                    fee_bps,
                ));
                if updated_remaining != 0 {
                    assert(makers_left(rest, side, 0, limit_price) == rest);
                    assert(makers_left(makers@, side, 0, limit_price) == makers@);
                    assert(filled_against(rest, side, 0, limit_price) == 0);
                    assert(filled_against(makers@, side, 0, limit_price) == 0);
                    assert(orders_after(noted, rest, side, *pair_id, 0, limit_price) == noted);
                    assert(orders_after(noted, makers@, side, *pair_id, 0, limit_price) == noted);
                } else if remaining_amount > 0 {
                    lemma_rest_wf(opposite(side), before);
                }
            }
        }
    }
    assert(stops(makers@, side, remaining_amount as int, limit_price));
    assert(fills@ + Seq::<Fill>::empty() =~= fills@);
    (fills, amount - remaining_amount)
}

proof fn lemma_matching_keeps_wf(
    ledger: TradeLedger,
    pair_id: Symbol,
    side: OrderSide,
    amount: int,
    limit_price: i128,
)
    requires
        ledger.wf(),
    ensures
        ledger.after_matching(pair_id, side, amount, limit_price).wf(),
{
    let makers = ledger.book(pair_id).side(opposite(side));
    let after = ledger.after_matching(pair_id, side, amount, limit_price);
    assert(book_wf(pair_id, ledger.book(pair_id)));
    assert(ids_wf(makers, ledger.next_id(pair_id)));
    matching_keeps_the_side_sorted(makers, side, amount, limit_price);
    lemma_left_ids(makers, side, amount, limit_price, ledger.next_id(pair_id));
    assert forall|p: Symbol| #[trigger] after.books.contains_key(p) implies book_wf(
        p,
        after.books[p],
    ) && ids_wf(after.books[p].bids, after.next_id(p)) && ids_wf(
        after.books[p].asks,
        after.next_id(p),
    ) by {
        assert(after.next_id(p) == ledger.next_id(p));
        if p != pair_id {
            assert(ledger.books.contains_key(p));
        }
    }
}

/// Match an incoming order against the book: a buy against the asks from the
/// lowest, a sell against the bids from the highest. The incoming order
/// itself is not stored.
pub fn match_order(
    store: &mut TradeStore,
    pair_id: &Symbol,
    taker: &Address,
    side: OrderSide,
    amount: i128,
    limit_price: i128,
) -> (r: (Vec<Fill>, i128))
    requires
        old(store)@.wf(),
    ensures
        final(store)@.wf(),
        r.0@ == old(store)@.fills(*pair_id, *taker, side, amount as int, limit_price),
        r.1 == old(store)@.filled(*pair_id, side, amount as int, limit_price),
        final(store)@ == old(store)@.after_matching(*pair_id, side, amount as int, limit_price),
{
    let ghost ledger = store@;
    let pair = get_pair_config(store, pair_id);
    let mut book = take_book(store, pair_id);
    proof {
        assert(book_wf(*pair_id, ledger.book(*pair_id)));
    }
    let r = match side {
        OrderSide::Buy => match_side(
            &mut book.asks,
            store,
            pair_id,
            taker,
            side,
            amount,
            limit_price,
            pair.fee_bps,
        ),
        OrderSide::Sell => match_side(
            &mut book.bids,
            store,
            pair_id,
            taker,
            side,
            amount,
            limit_price,
            pair.fee_bps,
        ),
    };
    save_book(store, book);
    proof {
        let after = ledger.after_matching(*pair_id, side, amount as int, limit_price);
        assert(store@.books =~= after.books);
        assert(store@ == after);
        lemma_matching_keeps_wf(ledger, *pair_id, side, amount as int, limit_price);
    }
    r
}

/// Set the configuration of a pair, in place of any that it has.
pub fn set_pair_config(store: &mut TradeStore, pair: TradePair)
    ensures
        final(store)@ == (TradeLedger {
            pairs: pairs_but(old(store)@.pairs, pair.pair_id).push(pair),
            ..old(store)@
        }),
{
    let mut kept: Vec<TradePair> = Vec::new();
    let mut i: usize = 0;
    assert(store.pairs@.skip(0) =~= store.pairs@);
    assert(kept@ + pairs_but(store.pairs@, pair.pair_id) =~= pairs_but(store.pairs@, pair.pair_id));
    while i < store.pairs.len()
        invariant
            i <= store.pairs@.len(),
            *store == *old(store),
            pairs_but(store.pairs@, pair.pair_id) == kept@ + pairs_but(
                store.pairs@.skip(i as int),
                pair.pair_id,
            ),
        decreases store.pairs@.len() - i,
    {
        let p = store.pairs[i];
        let ghost rest = store.pairs@.skip(i as int);
        let ghost before = kept@;
        assert(rest[0] == p);
        assert(rest.drop_first() =~= store.pairs@.skip(i + 1));
        if p.pair_id != pair.pair_id {
            kept.push(p);
            assert(before + (seq![p] + pairs_but(rest.drop_first(), pair.pair_id)) =~= kept@
                + pairs_but(rest.drop_first(), pair.pair_id));
        }
        i += 1;
    }
    assert(kept@ =~= pairs_but(store.pairs@, pair.pair_id));
    kept.push(pair);
    store.pairs = kept;
}

/// The configuration of a pair; one without fee or limits before it is set.
pub fn get_pair_config(store: &TradeStore, pair_id: &Symbol) -> (pair: TradePair)
    ensures
        pair == (match pair_in(store@.pairs, *pair_id) {
            Some(p) => p,
            None => unset_pair(*pair_id),
        }),
{
    match find_pair(&store.pairs, pair_id) {
        Some(p) => p,
        None => {
            let none = Symbol::from_text("NONE");
            TradePair {
                pair_id: *pair_id,
                base_asset: none,
                quote_asset: none,
                is_active: true,
                min_order_size: 0,
                max_order_size: i128::MAX,
                fee_bps: 0,
            }
        },
    }
}

/// The configuration of a pair for which none was set.
pub open spec fn unset_pair(pair_id: Symbol) -> TradePair {
    TradePair {
        pair_id,
        base_asset: values::symbol_of("NONE"@),
        quote_asset: values::symbol_of("NONE"@),
        is_active: true,
        min_order_size: 0,
        max_order_size: i128::MAX,
        fee_bps: 0,
    }
}

/// The first configuration of `pair_id` in `pairs`.
pub fn find_pair(pairs: &Vec<TradePair>, pair_id: &Symbol) -> (pair: Option<TradePair>)
    ensures
        pair == pair_in(pairs@, *pair_id),
{
    let mut i: usize = 0;
    assert(pairs@.skip(0) =~= pairs@);
    while i < pairs.len()
        invariant
            i <= pairs@.len(),
            pair_in(pairs@, *pair_id) == pair_in(pairs@.skip(i as int), *pair_id),
        decreases pairs@.len() - i,
    {
        let p = pairs[i];
        assert(pairs@.skip(i as int)[0] == p);
        assert(pairs@.skip(i as int).drop_first() =~= pairs@.skip(i + 1));
        if p.pair_id == *pair_id {
            return Some(p);
        }
        i += 1;
    }
    None
}

/// The fee of a fill: `quantity * price * fee_bps / 10,000`. Products that
/// leave the range count as the largest number.
pub open spec fn fee_of(quantity: int, price: int, fee_bps: int) -> int {
    if fee_bps <= 0 {
        0
    } else {
        let notional = if math::fits(quantity * price) {
            quantity * price
        } else {
            i128::MAX as int
        };
        let gross = if math::fits(notional * fee_bps) {
            notional * fee_bps
        } else {
            i128::MAX as int
        };
        math::quot(gross, BPS_DENOM as int)
    }
}

/// A fee on a positive amount at a positive price is not negative and fits.
pub proof fn lemma_fee_in_range(quantity: int, price: int, fee_bps: int)
    requires
        quantity > 0,
        price > 0,
    ensures
        0 <= fee_of(quantity, price, fee_bps) <= i128::MAX,
{
    if fee_bps > 0 {
        let notional = if math::fits(quantity * price) {
            quantity * price
        } else {
            i128::MAX as int
        };
        assert(quantity * price >= 0) by (nonlinear_arith)
            requires
                quantity > 0,
                price > 0,
        ;
        assert(notional * fee_bps >= 0) by (nonlinear_arith)
            requires
                notional >= 0,
                fee_bps > 0,
        ;
    }
}

/// The trading fee of a fill.
pub fn calculate_fee(fill_qty: i128, price: i128, fee_bps: i128) -> (fee: i128)
    ensures
        fee == fee_of(fill_qty as int, price as int, fee_bps as int),
{
    if fee_bps <= 0 {
        return 0;
    }
    let notional = match fill_qty.checked_mul(price) {
        Some(n) => n,
        None => i128::MAX,
    };
    let gross = match notional.checked_mul(fee_bps) {
        Some(g) => g,
        None => i128::MAX,
    };
    proof {
        math::lemma_quot_shrinks(gross as int, BPS_DENOM as int);
    }
    gross / BPS_DENOM
}

// ---------------------------------------------------------------------------
// What trading comes to
// ---------------------------------------------------------------------------

/// The first configuration that has the id is found; none is found only where
/// no configuration has it.
pub proof fn the_first_pair_is_found(pairs: Seq<TradePair>, pair_id: Symbol)
    ensures
        match pair_in(pairs, pair_id) {
            Some(p) => exists|i: int|
                0 <= i < pairs.len() && #[trigger] pairs[i] == p && p.pair_id == pair_id && (
                forall|j: int| 0 <= j < i ==> (#[trigger] pairs[j]).pair_id != pair_id),
            None => forall|i: int|
                0 <= i < pairs.len() ==> (#[trigger] pairs[i]).pair_id != pair_id,
        },
    decreases pairs.len(),
{
    if pairs.len() > 0 && pairs[0].pair_id != pair_id {
        let rest = pairs.drop_first();
        the_first_pair_is_found(rest, pair_id);
        match pair_in(rest, pair_id) {
            Some(p) => {
                let k = choose|i: int|
                    0 <= i < rest.len() && #[trigger] rest[i] == p && p.pair_id == pair_id && (
                    forall|j: int| 0 <= j < i ==> (#[trigger] rest[j]).pair_id != pair_id);
                assert(pairs[k + 1] == p);
                assert forall|j: int| 0 <= j < k + 1 implies (#[trigger] pairs[j]).pair_id
                    != pair_id by {
                    if j > 0 {
                        assert(pairs[j] == rest[j - 1]);
                    }
                }
            },
            None => {
                assert forall|i: int| 0 <= i < pairs.len() implies (#[trigger] pairs[i]).pair_id
                    != pair_id by {
                    if i > 0 {
                        assert(pairs[i] == rest[i - 1]);
                    }
                }
            },
        }
    } else if pairs.len() > 0 {
        assert(pairs[0] == pair_in(pairs, pair_id)->0);
    }
}

/// The fee of a fill is its cost times the rate in ten-thousandths, rounded
/// down; a pair without a rate takes none.
pub proof fn a_fee_is_its_rate_of_the_cost(quantity: int, price: int, fee_bps: int)
    requires
        quantity > 0,
        price > 0,
    ensures
        fee_bps <= 0 ==> fee_of(quantity, price, fee_bps) == 0,
        fee_bps > 0 && quantity * price * fee_bps <= i128::MAX ==> fee_of(quantity, price, fee_bps)
            * 10_000 <= quantity * price * fee_bps < (fee_of(quantity, price, fee_bps) + 1) * 10_000,
        fee_bps > 0 && quantity * price * fee_bps > i128::MAX ==> fee_of(quantity, price, fee_bps)
            * 10_000 <= i128::MAX < (fee_of(quantity, price, fee_bps) + 1) * 10_000,
{
    let cost = quantity * price;
    assert(cost > 0) by (nonlinear_arith)
        requires
            cost == quantity * price,
            quantity > 0,
            price > 0,
    ;
    if fee_bps > 0 {
        assert(cost <= cost * fee_bps) by (nonlinear_arith)
            requires
                cost > 0,
                fee_bps > 0,
        ;
        assert(i128::MAX * fee_bps >= i128::MAX) by (nonlinear_arith)
            requires
                fee_bps > 0,
        ;
        math::quotients_round_toward_zero(cost * fee_bps, 10_000);
        math::quotients_round_toward_zero(i128::MAX as int, 10_000);
    }
}

/// The fills of an incoming order go through the makers from the best one on:
/// each is with the maker in its place, at the maker's own price, for the
/// taker; each but the last takes all that its maker has, and the last does so
/// where the order is not filled completely. They end where the order is
/// filled, the makers are used up, or the next maker's price is beyond the
/// limit.
pub proof fn fills_go_through_the_makers(
    makers: Seq<Order>,
    taker: Address,
    side: OrderSide,
    pair_id: Symbol,
    amount: int,
    limit_price: i128,
    fee_bps: i128,
)
    requires
        side_wf(opposite(side), makers),
        0 <= amount <= i128::MAX,
    ensures
        ({
            let fills = fills_against(makers, taker, side, pair_id, amount, limit_price, fee_bps);
            let filled = filled_against(makers, side, amount, limit_price);
            &&& fills.len() <= makers.len()
            &&& forall|i: int|
                0 <= i < fills.len() ==> {
                    &&& (#[trigger] fills[i]).order_id == makers[i].order_id
                    &&& fills[i].maker == makers[i].owner
                    &&& fills[i].taker == taker
                    &&& fills[i].pair_id == pair_id
                    &&& fills[i].side == side
                    &&& fills[i].price == makers[i].price
                    &&& 0 < fills[i].amount <= makers[i].remaining
                    &&& fills[i].fee == fee_of(
                        fills[i].amount as int,
                        fills[i].price as int,
                        fee_bps as int,
                    )
                    &&& side == OrderSide::Buy ==> fills[i].price <= limit_price
                    &&& side == OrderSide::Sell ==> fills[i].price >= limit_price
                    &&& i + 1 < fills.len() || filled < amount ==> fills[i].amount
                        == makers[i].remaining
                }
            &&& filled < amount && fills.len() < makers.len() && side == OrderSide::Buy
                ==> makers[fills.len() as int].price > limit_price
            &&& filled < amount && fills.len() < makers.len() && side == OrderSide::Sell
                ==> makers[fills.len() as int].price < limit_price
            &&& filled <= amount
            &&& filled_quantity(fills) == filled
        }),
    decreases makers.len(),
{
    matching_conserves_quantity(makers, taker, side, pair_id, amount, limit_price, fee_bps);
    if !stops(makers, side, amount, limit_price) {
        let q = taken_by(makers[0], amount);
        let rest = makers.drop_first();
        assert(makers[0].remaining > 0);
        lemma_rest_wf(opposite(side), makers);
        fills_go_through_the_makers(
            rest,
            taker,
            side,
            pair_id,
            amount - q,
            limit_price,
            fee_bps,
        );
        lemma_fee_in_range(q, makers[0].price as int, fee_bps as int);
        let fills = fills_against(makers, taker, side, pair_id, amount, limit_price, fee_bps);
        let more = fills_against(rest, taker, side, pair_id, amount - q, limit_price, fee_bps);
        let filled = filled_against(makers, side, amount, limit_price);
        assert(filled == q + filled_against(rest, side, amount - q, limit_price));
        assert(fills =~= seq![fills[0]] + more);
        assert forall|i: int| 0 <= i < fills.len() implies {
            &&& (#[trigger] fills[i]).order_id == makers[i].order_id
            &&& fills[i].maker == makers[i].owner
            &&& fills[i].taker == taker
            &&& fills[i].pair_id == pair_id
            &&& fills[i].side == side
            &&& fills[i].price == makers[i].price
            &&& 0 < fills[i].amount <= makers[i].remaining
            &&& fills[i].fee == fee_of(
                fills[i].amount as int,
                fills[i].price as int,
                fee_bps as int,
            )
            &&& side == OrderSide::Buy ==> fills[i].price <= limit_price
            &&& side == OrderSide::Sell ==> fills[i].price >= limit_price
            &&& i + 1 < fills.len() || filled < amount ==> fills[i].amount == makers[i].remaining
        } by {
            if i > 0 {
                assert(fills[i] == more[i - 1]);
                assert(rest[i - 1] == makers[i]);
            } else if q == amount {
                assert(more.len() == 0);
            }
        }
    }
}

/// What matching leaves of the makers: those behind the last fill as they
/// were, and before them the last maker where it was filled in part, with that
/// part taken off.
pub proof fn makers_keep_what_was_not_taken(
    makers: Seq<Order>,
    taker: Address,
    side: OrderSide,
    pair_id: Symbol,
    amount: int,
    limit_price: i128,
    fee_bps: i128,
)
    requires
        side_wf(opposite(side), makers),
        0 <= amount <= i128::MAX,
    ensures
        ({
            let fills = fills_against(makers, taker, side, pair_id, amount, limit_price, fee_bps);
            let left = makers_left(makers, side, amount, limit_price);
            let n = fills.len() as int;
            if n == 0 || fills[n - 1].amount == makers[n - 1].remaining {
                left == makers.skip(n)
            } else {
                left == seq![
                    Order {
                        remaining: (makers[n - 1].remaining - fills[n - 1].amount) as i128,
                        status: OrderStatus::PartiallyFilled,
                        ..makers[n - 1]
                    },
                ] + makers.skip(n)
            }
        }),
    decreases makers.len(),
{
    let fills = fills_against(makers, taker, side, pair_id, amount, limit_price, fee_bps);
    let left = makers_left(makers, side, amount, limit_price);
    if stops(makers, side, amount, limit_price) {
        assert(makers.skip(0) =~= makers);
    } else {
        let q = taken_by(makers[0], amount);
        let rest = makers.drop_first();
        assert(makers[0].remaining > 0);
        lemma_rest_wf(opposite(side), makers);
        makers_keep_what_was_not_taken(
            rest,
            taker,
            side,
            pair_id,
            amount - q,
            limit_price,
            fee_bps,
        );
        fills_go_through_the_makers(
            rest,
            taker,
            side,
            pair_id,
            amount - q,
            limit_price,
            fee_bps,
        );
        let more = fills_against(rest, taker, side, pair_id, amount - q, limit_price, fee_bps);
        let n = fills.len() as int;
        assert(fills =~= seq![fills[0]] + more);
        assert(rest.skip(more.len() as int) =~= makers.skip(n));
        if more.len() > 0 {
            assert(fills[n - 1] == more[more.len() - 1]);
            assert(makers[n - 1] == rest[more.len() - 1]);
        } else {
            assert(rest =~= makers.skip(1));
            assert(rest.skip(0) =~= rest);
        }
    }
}

proof fn lemma_untouched_records(
    orders: Map<(Symbol, u64), Order>,
    makers: Seq<Order>,
    side: OrderSide,
    pair_id: Symbol,
    amount: int,
    limit_price: i128,
    key: (Symbol, u64),
)
    requires
        forall|i: int| 0 <= i < makers.len() ==> (pair_id, (#[trigger] makers[i]).order_id) != key,
    ensures
        ({
            let after = orders_after(orders, makers, side, pair_id, amount, limit_price);
            after.contains_key(key) == orders.contains_key(key) && after[key] == orders[key]
        }),
    decreases makers.len(),
{
    if !stops(makers, side, amount, limit_price) {
        let q = taken_by(makers[0], amount);
        let rest = makers.drop_first();
        let next = orders.insert((pair_id, makers[0].order_id), reduced(makers[0], q));
        assert((pair_id, makers[0].order_id) != key);
        assert forall|i: int| 0 <= i < rest.len() implies (
            pair_id,
            (#[trigger] rest[i]).order_id,
        ) != key by {
            assert(rest[i] == makers[i + 1]);
        }
        lemma_untouched_records(next, rest, side, pair_id, amount - q, limit_price, key);
    }
}

/// The record of each maker that was filled shows what is left of it, and
/// whether that is nothing; all other records stay as they were.
pub proof fn records_show_what_was_filled(
    orders: Map<(Symbol, u64), Order>,
    makers: Seq<Order>,
    taker: Address,
    side: OrderSide,
    pair_id: Symbol,
    amount: int,
    limit_price: i128,
    fee_bps: i128,
    key: (Symbol, u64),
)
    requires
        side_wf(opposite(side), makers),
        forall|i: int, j: int|
            0 <= i < j < makers.len() ==> (#[trigger] makers[i]).order_id != (
            #[trigger] makers[j]).order_id,
        0 <= amount <= i128::MAX,
    ensures
        ({
            let fills = fills_against(makers, taker, side, pair_id, amount, limit_price, fee_bps);
            let after = orders_after(orders, makers, side, pair_id, amount, limit_price);
            &&& forall|i: int|
                0 <= i < fills.len() ==> {
                    let k = (pair_id, (#[trigger] fills[i]).order_id);
                    &&& after.contains_key(k)
                    &&& after[k].remaining == makers[i].remaining - fills[i].amount
                    &&& after[k].status == (if makers[i].remaining == fills[i].amount {
                        OrderStatus::Filled
                    } else {
                        OrderStatus::PartiallyFilled
                    })
                    &&& after[k].owner == makers[i].owner && after[k].price == makers[i].price
                        && after[k].amount == makers[i].amount && after[k].side == makers[i].side
                        && after[k].order_id == makers[i].order_id && after[k].created_at
                        == makers[i].created_at && after[k].pair_id == makers[i].pair_id
                }
            &&& (forall|i: int|
                0 <= i < fills.len() ==> (pair_id, (#[trigger] fills[i]).order_id) != key)
                ==> after.contains_key(key) == orders.contains_key(key) && after[key]
                == orders[key]
        }),
    decreases makers.len(),
{
    let fills = fills_against(makers, taker, side, pair_id, amount, limit_price, fee_bps);
    let after = orders_after(orders, makers, side, pair_id, amount, limit_price);
    if !stops(makers, side, amount, limit_price) {
        let q = taken_by(makers[0], amount);
        let rest = makers.drop_first();
        assert(makers[0].remaining > 0);
        lemma_rest_wf(opposite(side), makers);
        let first = (pair_id, makers[0].order_id);
        let next = orders.insert(first, reduced(makers[0], q));
        assert forall|i: int, j: int| 0 <= i < j < rest.len() implies (
        #[trigger] rest[i]).order_id != (#[trigger] rest[j]).order_id by {
            assert(rest[i] == makers[i + 1] && rest[j] == makers[j + 1]);
        }
        records_show_what_was_filled(
            next,
            rest,
            taker,
            side,
            pair_id,
            amount - q,
            limit_price,
            fee_bps,
            key,
        );
        assert forall|i: int| 0 <= i < rest.len() implies (
            pair_id,
            (#[trigger] rest[i]).order_id,
        ) != first by {
            assert(rest[i] == makers[i + 1]);
            assert(makers[0].order_id != makers[i + 1].order_id);
        }
        lemma_untouched_records(next, rest, side, pair_id, amount - q, limit_price, first);
        matching_conserves_quantity(
            rest,
            taker,
            side,
            pair_id,
            amount - q,
            limit_price,
            fee_bps,
        );
        let more = fills_against(rest, taker, side, pair_id, amount - q, limit_price, fee_bps);
        assert(fills =~= seq![fills[0]] + more);
        assert forall|i: int| 0 <= i < fills.len() implies {
            let k = (pair_id, (#[trigger] fills[i]).order_id);
            &&& after.contains_key(k)
            &&& after[k].remaining == makers[i].remaining - fills[i].amount
            &&& after[k].status == (if makers[i].remaining == fills[i].amount {
                OrderStatus::Filled
            } else {
                OrderStatus::PartiallyFilled
            })
            &&& after[k].owner == makers[i].owner && after[k].price == makers[i].price
                && after[k].amount == makers[i].amount && after[k].side == makers[i].side
                && after[k].order_id == makers[i].order_id && after[k].created_at
                == makers[i].created_at && after[k].pair_id == makers[i].pair_id
        } by {
            if i > 0 {
                assert(fills[i] == more[i - 1]);
                assert(rest[i - 1] == makers[i]);
            }
        }
        if forall|i: int|
            0 <= i < fills.len() ==> (pair_id, (#[trigger] fills[i]).order_id) != key {
            assert((pair_id, fills[0].order_id) != key);
            assert forall|i: int| 0 <= i < more.len() implies (
                pair_id,
                (#[trigger] more[i]).order_id,
            ) != key by {
                assert(more[i] == fills[i + 1]);
            }
        }
    }
}

/// Who buys trades with those who sell, and who sells with those who buy; the
/// taker's own side of the book, and every other book, stay as they were.
pub proof fn buyers_meet_sellers(
    ledger: TradeLedger,
    pair_id: Symbol,
    taker: Address,
    amount: int,
    limit_price: i128,
)
    ensures
        ledger.fills(pair_id, taker, OrderSide::Buy, amount, limit_price) == fills_against(
            ledger.book(pair_id).asks,
            taker,
            OrderSide::Buy,
            pair_id,
            amount,
            limit_price,
            ledger.fee_bps(pair_id),
        ),
        ledger.fills(pair_id, taker, OrderSide::Sell, amount, limit_price) == fills_against(
            ledger.book(pair_id).bids,
            taker,
            OrderSide::Sell,
            pair_id,
            amount,
            limit_price,
            ledger.fee_bps(pair_id),
        ),
        ledger.after_matching(pair_id, OrderSide::Buy, amount, limit_price).book(pair_id).bids
            == ledger.book(pair_id).bids,
        ledger.after_matching(pair_id, OrderSide::Sell, amount, limit_price).book(pair_id).asks
            == ledger.book(pair_id).asks,
        forall|p: Symbol, side: OrderSide|
            p != pair_id ==> (#[trigger] ledger.after_matching(
                pair_id,
                side,
                amount,
                limit_price,
            ).book(p)) == ledger.book(p),
{
}

/// An order that was placed rests in full: its record has the terms that were
/// given, it stands on its side of its book, nothing else moved, and the next
/// order gets the next id.
pub proof fn a_placed_order_rests(
    ledger: TradeLedger,
    pair_id: Symbol,
    owner: Address,
    side: OrderSide,
    price: i128,
    amount: i128,
    now: u64,
    other: Symbol,
)
    requires
        ledger.wf(),
        ledger.next_id(pair_id) < u64::MAX,
        amount > 0,
        price > 0,
        ledger.book(pair_id).side(side).len() < MAX_ORDERS_PER_PAIR,
    ensures
        ({
            let id = ledger.next_id(pair_id);
            let placed = ledger.after_placing(
                new_order(id, pair_id, owner, side, price, amount, now),
            );
            let record = placed.orders[(pair_id, id)];
            let orders = if side == OrderSide::Buy {
                placed.book(pair_id).bids
            } else {
                placed.book(pair_id).asks
            };
            let before = if side == OrderSide::Buy {
                ledger.book(pair_id).bids
            } else {
                ledger.book(pair_id).asks
            };
            &&& placed.orders.contains_key((pair_id, id))
            &&& record.order_id == id && record.pair_id == pair_id && record.owner == owner
                && record.side == side && record.price == price && record.amount == amount
                && record.remaining == amount && record.status == OrderStatus::Active
                && record.created_at == now
            &&& orders.contains(record)
            &&& orders.to_multiset() == before.to_multiset().insert(record)
            &&& side == OrderSide::Buy ==> placed.book(pair_id).asks == ledger.book(pair_id).asks
            &&& side == OrderSide::Sell ==> placed.book(pair_id).bids == ledger.book(pair_id).bids
            &&& other != pair_id ==> placed.book(other) == ledger.book(other)
            &&& placed.next_id(pair_id) == id + 1
            &&& other != pair_id ==> placed.next_id(other) == ledger.next_id(other)
            &&& placed.volumes == ledger.volumes && placed.pairs == ledger.pairs
        }),
{
    let id = ledger.next_id(pair_id);
    let order = new_order(id, pair_id, owner, side, price, amount, now);
    let before = ledger.book(pair_id).side(side);
    lemma_entry_point(side, before, price);
    let e = entry_point(side, before, price);
    let after = filed(before, order);
    assert(after[e] == order);
    vstd::seq_lib::lemma_multiset_commutative(before.take(e), before.skip(e));
    assert(before =~= before.take(e) + before.skip(e));
    assert(after =~= before.take(e) + (seq![order] + before.skip(e)));
    vstd::seq_lib::lemma_multiset_commutative(before.take(e), seq![order] + before.skip(e));
    vstd::seq_lib::lemma_multiset_commutative(seq![order], before.skip(e));
    assert(seq![order] =~= Seq::<Order>::empty().push(order));
    broadcast use vstd::seq_lib::group_to_multiset_ensures;
    assert(Seq::<Order>::empty().to_multiset() =~= vstd::multiset::Multiset::empty());
    assert(seq![order].to_multiset() =~= vstd::multiset::Multiset::singleton(order));
    assert(after.to_multiset() =~= before.to_multiset().insert(order));
}

/// Only an order that is still open can be cancelled, and only by its owner or
/// the administrator. It then has nothing left, and stands on its book no
/// more, where no other order has its id.
pub proof fn cancelling_takes_an_order_off(
    ledger: TradeLedger,
    pair_id: Symbol,
    order_id: u64,
    caller: Address,
    is_admin: bool,
)
    requires
        ledger.wf(),
    ensures
        ({
            let key = (pair_id, order_id);
            let order = ledger.orders[key];
            let verdict = ledger.cancel_verdict(pair_id, order_id, caller, is_admin);
            let after = ledger.after_cancelling(pair_id, order_id);
            &&& verdict is Ok <==> ledger.orders.contains_key(key) && (order.status
                == OrderStatus::Active || order.status == OrderStatus::PartiallyFilled) && (is_admin
                || caller == order.owner)
            &&& verdict == Err::<(), TradeError>(TradeError::NotOrderOwner) ==> caller
                != order.owner && !is_admin
            &&& verdict is Ok ==> {
                &&& after.orders[key].status == OrderStatus::Cancelled
                &&& after.orders[key].remaining == 0
                &&& after.orders[key].owner == order.owner && after.orders[key].amount
                    == order.amount
                &&& order.order_id == order_id && order.side == OrderSide::Buy ==> forall|i: int|
                    0 <= i < after.book(pair_id).bids.len() ==> (#[trigger] after.book(
                        pair_id,
                    ).bids[i]).order_id != order_id
                &&& order.order_id == order_id && order.side == OrderSide::Sell ==> forall|i: int|
                    0 <= i < after.book(pair_id).asks.len() ==> (#[trigger] after.book(
                        pair_id,
                    ).asks[i]).order_id != order_id
            }
        }),
{
    let order = ledger.orders[(pair_id, order_id)];
    let book = ledger.book(pair_id);
    assert(book.pair_id == pair_id);
    lemma_without_is_gone(book.side(order.side), order.order_id);
}

proof fn lemma_without_is_gone(orders: Seq<Order>, order_id: u64)
    requires
        forall|i: int, j: int|
            0 <= i < j < orders.len() ==> (#[trigger] orders[i]).order_id != (
            #[trigger] orders[j]).order_id,
    ensures
        forall|i: int|
            0 <= i < without(orders, order_id).len() ==> (#[trigger] without(
                orders,
                order_id,
            )[i]).order_id != order_id,
    decreases orders.len(),
{
    if orders.len() > 0 {
        let rest = orders.drop_first();
        assert forall|i: int, j: int| 0 <= i < j < rest.len() implies (
        #[trigger] rest[i]).order_id != (#[trigger] rest[j]).order_id by {
            assert(rest[i] == orders[i + 1] && rest[j] == orders[j + 1]);
        }
        lemma_without_is_gone(rest, order_id);
        let out = without(orders, order_id);
        assert forall|i: int| 0 <= i < out.len() implies (#[trigger] out[i]).order_id
            != order_id by {
            if orders[0].order_id == order_id {
                assert(out[i] == orders[i + 1]);
                assert(orders[0].order_id != orders[i + 1].order_id);
            } else if i > 0 {
                assert(out[i] == without(rest, order_id)[i - 1]);
            }
        }
    }
}

/// The best bid is the highest one and the best ask the lowest.
pub proof fn the_best_price_is_best(ledger: TradeLedger, pair_id: Symbol, i: int)
    requires
        ledger.wf(),
    ensures
        0 <= i < ledger.book(pair_id).bids.len() ==> best_price(ledger.book(pair_id).bids)
            >= ledger.book(pair_id).bids[i].price,
        0 <= i < ledger.book(pair_id).asks.len() ==> best_price(ledger.book(pair_id).asks)
            <= ledger.book(pair_id).asks[i].price,
        ledger.book(pair_id).bids.len() > 0 ==> best_price(ledger.book(pair_id).bids) > 0 && exists|
            j: int,
        |
            0 <= j < ledger.book(pair_id).bids.len() && (#[trigger] ledger.book(
                pair_id,
            ).bids[j]).price == best_price(ledger.book(pair_id).bids),
        ledger.book(pair_id).asks.len() > 0 ==> best_price(ledger.book(pair_id).asks) > 0 && exists|
            j: int,
        |
            0 <= j < ledger.book(pair_id).asks.len() && (#[trigger] ledger.book(
                pair_id,
            ).asks[j]).price == best_price(ledger.book(pair_id).asks),
{
    let book = ledger.book(pair_id);
    assert(book_wf(pair_id, book));
    if book.bids.len() > 0 {
        assert(book.bids[0].price == best_price(book.bids));
        if 0 < i < book.bids.len() {
            assert(at_least_as_good(OrderSide::Buy, book.bids[0].price, book.bids[i].price));
        }
    }
    if book.asks.len() > 0 {
        assert(book.asks[0].price == best_price(book.asks));
        if 0 < i < book.asks.len() {
            assert(at_least_as_good(OrderSide::Sell, book.asks[0].price, book.asks[i].price));
        }
    }
}

/// A pair that was not configured trades freely: it is active, takes any
/// order, and no fee is charged on it.
pub proof fn an_unset_pair_trades_freely(
    ledger: TradeLedger,
    pair_id: Symbol,
    quantity: int,
    price: int,
)
    requires
        pair_in(ledger.pairs, pair_id) is None,
        0 <= quantity <= i128::MAX,
    ensures
        unset_pair(pair_id).is_active,
        unset_pair(pair_id).pair_id == pair_id,
        unset_pair(pair_id).min_order_size <= quantity <= unset_pair(pair_id).max_order_size,
        fee_of(quantity, price, unset_pair(pair_id).fee_bps as int) == 0,
        fee_of(quantity, price, ledger.fee_bps(pair_id) as int) == 0,
{
}

/// What fills add up to is the sum of their amounts.
pub proof fn quantities_add_up(a: Seq<Fill>, b: Seq<Fill>, f: Fill)
    ensures
        filled_quantity(a + b) == filled_quantity(a) + filled_quantity(b),
        filled_quantity(seq![f]) == f.amount,
    decreases a.len(),
{
    reveal_with_fuel(filled_quantity, 2);
    assert(seq![f].drop_first() =~= Seq::<Fill>::empty());
    if a.len() == 0 {
        assert(a + b =~= b);
    } else {
        quantities_add_up(a.drop_first(), b, f);
        assert((a + b).drop_first() =~= a.drop_first() + b);
        assert((a + b)[0] == a[0]);
    }
}

/// The orders of a pair are numbered from one, in a book that starts empty.
pub proof fn books_start_empty(ledger: TradeLedger, pair_id: Symbol)
    ensures
        !ledger.counters.contains_key(pair_id) ==> ledger.next_id(pair_id) == 1,
        ledger.counters.contains_key(pair_id) ==> ledger.next_id(pair_id)
            == ledger.counters[pair_id],
        !ledger.books.contains_key(pair_id) ==> ledger.book(pair_id).bids.len() == 0
            && ledger.book(pair_id).asks.len() == 0,
        ledger.books.contains_key(pair_id) ==> ledger.book(pair_id) == ledger.books[pair_id],
{
}

} // verus!
