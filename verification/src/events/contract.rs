//! The events contract: its state, portfolio events and subscriptions.
//!
//! A call that is refused changes nothing.
use crate::events::subscriptions;
use crate::events::subscriptions::{DeliveryMetrics, DeliveryRecord, ManagedSubscription};
use crate::events::types;
use crate::events::types::{
    AITrigger, AnalysisMetrics, AnalysisResult, AnalysisView, Error, Event, Notice, PortfolioEventType,
    Recommendation, Subscription,
};
use crate::table;
use crate::table::{OrderedTable, Table};
use crate::values;
use crate::values::{Address, Symbol};
use vstd::prelude::*;

verus! {

/// Triggers and analyses, events and subscriptions, deliveries, and the
/// notices to publish.
pub struct EventsContract {
    pub next_id: u64,
    pub triggers: OrderedTable<Symbol, AITrigger>,
    pub metrics: AnalysisMetrics,
    pub analyses: OrderedTable<u64, AnalysisResult>,
    pub statuses: Table<u64, u32>,
    pub recommendations: OrderedTable<u64, Recommendation>,
    pub subscriptions: Table<Symbol, Vec<Subscription>>,
    pub histories: Table<Symbol, Vec<Event>>,
    pub managed_ids: Table<Symbol, Vec<u64>>,
    pub managed: Table<u64, ManagedSubscription>,
    pub deliveries: Table<Address, Vec<DeliveryRecord>>,
    pub batches: Table<Address, Vec<u64>>,
    pub severities: Table<u64, u32>,
    pub sub_counter: u64,
    pub delivery_metrics: DeliveryMetrics,
    pub outbox: Vec<Notice>,
}

/// The contract's state as a value.
pub struct EventsLedger {
    pub next_id: u64,
    pub triggers: Map<Symbol, AITrigger>,
    pub metrics: AnalysisMetrics,
    pub analyses: Map<u64, AnalysisView>,
    pub statuses: Map<u64, u32>,
    pub recommendations: Map<u64, Recommendation>,
    pub subscriptions: Map<Symbol, Seq<Subscription>>,
    pub histories: Map<Symbol, Seq<Event>>,
    pub managed_ids: Map<Symbol, Seq<u64>>,
    pub managed: Map<u64, ManagedSubscription>,
    pub deliveries: Map<Address, Seq<DeliveryRecord>>,
    pub batches: Map<Address, Seq<u64>>,
    pub severities: Map<u64, u32>,
    pub sub_counter: u64,
    pub delivery_metrics: DeliveryMetrics,
    pub outbox: Seq<Notice>,
}

impl View for EventsContract {
    type V = EventsLedger;

    open spec fn view(&self) -> EventsLedger {
        EventsLedger {
            next_id: self.next_id,
            triggers: self.triggers.view(),
            metrics: self.metrics,
            analyses: self.analyses.view().map_values(|a: AnalysisResult| a@),
            statuses: self.statuses@,
            recommendations: self.recommendations.view(),
            subscriptions: table::lists(self.subscriptions@),
            histories: table::lists(self.histories@),
            managed_ids: table::lists(self.managed_ids@),
            managed: self.managed@,
            deliveries: table::lists(self.deliveries@),
            batches: table::lists(self.batches@),
            severities: self.severities@,
            sub_counter: self.sub_counter,
            delivery_metrics: self.delivery_metrics,
            outbox: self.outbox@,
        }
    }
}

/// The subscriptions of a portfolio: numbered in the order in which they were
/// made, and active at most once for each subscriber.
pub open spec fn subscriptions_wf(portfolio_id: Symbol, subs: Seq<Subscription>) -> bool {
    &&& forall|i: int|
        0 <= i < subs.len() ==> (#[trigger] subs[i]).order_index == i && subs[i].portfolio_id
            == portfolio_id
    &&& forall|i: int, j: int|
        0 <= i < j < subs.len() && (#[trigger] subs[i]).is_active && (#[trigger] subs[j]).is_active
            ==> subs[i].subscriber != subs[j].subscriber
}

/// Ids of managed subscriptions in the order in which they were handed out:
/// none stands twice.
pub open spec fn managed_ids_wf(ids: Seq<u64>, sub_counter: u64) -> bool {
    &&& forall|i: int| 0 <= i < ids.len() ==> #[trigger] ids[i] <= sub_counter
    &&& forall|i: int, j: int| 0 <= i < j < ids.len() ==> #[trigger] ids[i] < #[trigger] ids[j]
}

/// The events of a portfolio: ids ascend, and none is above the last one that
/// was handed out.
pub open spec fn history_wf(portfolio_id: Symbol, events: Seq<Event>, next_id: u64) -> bool {
    &&& forall|i: int|
        0 <= i < events.len() ==> (#[trigger] events[i]).event_id <= next_id
            && events[i].portfolio_id == portfolio_id
    &&& forall|i: int, j: int|
        0 <= i < j < events.len() ==> (#[trigger] events[i]).event_id < (
        #[trigger] events[j]).event_id
}

/// Whether a subscription is for an event type.
pub open spec fn is_for(sub: Subscription, event_type: PortfolioEventType) -> bool {
    sub.is_active && (sub.event_types@.len() == 0 || sub.event_types@.contains(event_type))
}

/// The subscriptions that are for an event type.
pub open spec fn chosen(subs: Seq<Subscription>, event_type: PortfolioEventType) -> Seq<
    Subscription,
> {
    subs.filter(|s: Subscription| is_for(s, event_type))
}

/// The notices to subscribers about an event, in the order in which they
/// subscribed.
pub open spec fn notifications(subs: Seq<Subscription>, event: Event) -> Seq<Notice> {
    chosen(subs, event.event_type).map_values(
        |s: Subscription|
            Notice::Notify {
                subscriber: s.subscriber,
                portfolio_id: event.portfolio_id,
                event_id: event.event_id,
            },
    )
}

/// A list without the active subscriptions of a subscriber.
pub open spec fn deactivated(subs: Seq<Subscription>, subscriber: Address) -> Seq<Subscription> {
    subs.map_values(
        |s: Subscription|
            if s.subscriber == subscriber {
                Subscription { is_active: false, ..s }
            } else {
                s
            },
    )
}

/// Whether a subscriber has an active subscription.
pub open spec fn has_active(subs: Seq<Subscription>, subscriber: Address) -> bool {
    exists|i: int|
        0 <= i < subs.len() && (#[trigger] subs[i]).subscriber == subscriber && subs[i].is_active
}

impl EventsLedger {
    /// Lists are in order, and ids were handed out.
    pub open spec fn wf(self) -> bool {
        &&& forall|id: Symbol| #[trigger]
            self.triggers.contains_key(id) ==> self.triggers[id].trigger_id == id
        &&& forall|id: u64| #[trigger]
            self.analyses.contains_key(id) ==> id <= self.next_id
                && self.analyses[id].analysis_id == id
        &&& forall|id: u64| #[trigger]
            self.recommendations.contains_key(id) ==> id <= self.next_id
        &&& forall|p: Symbol| #[trigger]
            self.subscriptions.contains_key(p) ==> subscriptions_wf(p, self.subscriptions[p])
        &&& forall|p: Symbol| #[trigger]
            self.histories.contains_key(p) ==> history_wf(p, self.histories[p], self.next_id)
        &&& forall|id: u64| #[trigger] self.managed.contains_key(id) ==> id <= self.sub_counter
        &&& forall|p: Symbol| #[trigger]
            self.managed_ids.contains_key(p) ==> managed_ids_wf(
                self.managed_ids[p],
                self.sub_counter,
            )
    }

    /// The state with a notice to publish.
    pub open spec fn published(self, notice: Notice) -> EventsLedger {
        EventsLedger { outbox: self.outbox.push(notice), ..self }
    }

    /// The state after an event: kept in the history, published, and notified
    /// to the subscribers that it is for.
    pub open spec fn emitted(self, event: Event) -> EventsLedger {
        EventsLedger {
            next_id: event.event_id,
            histories: self.histories.insert(
                event.portfolio_id,
                table::list_at(self.histories, event.portfolio_id).push(event),
            ),
            outbox: self.outbox.push(
                Notice::PortfolioEvent {
                    portfolio_id: event.portfolio_id,
                    event_type: event.event_type,
                    event_id: event.event_id,
                },
            ) + notifications(
                table::list_at(self.subscriptions, event.portfolio_id),
                event,
            ),
            ..self
        }
    }
}

/// Notices go out in the order of the subscriptions, one for each subscription
/// that the event is for and none for any other.
pub proof fn subscribers_are_notified_in_order(
    portfolio_id: Symbol,
    subs: Seq<Subscription>,
    event: Event,
)
    requires
        subscriptions_wf(portfolio_id, subs),
    ensures
        ({
            let to = chosen(subs, event.event_type);
            &&& notifications(subs, event).len() == to.len()
            &&& forall|k: int|
                0 <= k < to.len() ==> is_for(#[trigger] to[k], event.event_type) && notifications(
                    subs,
                    event,
                )[k] == (Notice::Notify {
                    subscriber: to[k].subscriber,
                    portfolio_id: event.portfolio_id,
                    event_id: event.event_id,
                })
            &&& forall|k: int, m: int|
                0 <= k < m < to.len() ==> (#[trigger] to[k]).order_index < (
                #[trigger] to[m]).order_index
            &&& forall|i: int|
                0 <= i < subs.len() && is_for(#[trigger] subs[i], event.event_type)
                    ==> to.contains(subs[i])
        }),
{
    let keep = |s: Subscription| is_for(s, event.event_type);
    lemma_filter_keeps(subs, keep);
    let to = chosen(subs, event.event_type);
    assert(to == subs.filter(keep));
    assert forall|k: int, m: int| 0 <= k < m < to.len() implies (#[trigger] to[k]).order_index < (
    #[trigger] to[m]).order_index by {
        lemma_filter_keeps_order(portfolio_id, subs, keep, k, m);
    }
    assert forall|i: int| 0 <= i < subs.len() && is_for(#[trigger] subs[i], event.event_type) implies to.contains(subs[i]) by {
        subs.lemma_filter_contains_rev(keep, subs[i]);
    }
}

proof fn lemma_filter_keeps(subs: Seq<Subscription>, keep: spec_fn(Subscription) -> bool)
    ensures
        forall|k: int| 0 <= k < subs.filter(keep).len() ==> keep(#[trigger] subs.filter(keep)[k]),
    decreases subs.len(),
{
    reveal(Seq::filter);
    if subs.len() > 0 {
        lemma_filter_keeps(subs.drop_last(), keep);
    }
}

proof fn lemma_filter_keeps_order(
    portfolio_id: Symbol,
    subs: Seq<Subscription>,
    keep: spec_fn(Subscription) -> bool,
    k: int,
    m: int,
)
    requires
        subscriptions_wf(portfolio_id, subs),
        0 <= k < m < subs.filter(keep).len(),
    ensures
        subs.filter(keep)[k].order_index < subs.filter(keep)[m].order_index,
        subs.filter(keep)[m].order_index < subs.len(),
    decreases subs.len(),
{
    reveal(Seq::filter);
    if subs.len() > 0 {
        let less = subs.drop_last();
        assert(subscriptions_wf(portfolio_id, less)) by {
            assert forall|i: int| 0 <= i < less.len() implies (#[trigger] less[i]).order_index == i
                && less[i].portfolio_id == portfolio_id by {
                assert(less[i] == subs[i]);
            }
            assert forall|i: int, j: int|
                0 <= i < j < less.len() && (#[trigger] less[i]).is_active && (
                #[trigger] less[j]).is_active implies less[i].subscriber != less[j].subscriber by {
                assert(less[i] == subs[i] && less[j] == subs[j]);
            }
        }
        assert(subs[subs.len() - 1].order_index == subs.len() - 1);
        if m < less.filter(keep).len() {
            lemma_filter_keeps_order(portfolio_id, less, keep, k, m);
        } else {
            lemma_filter_in_range(portfolio_id, less, keep, k);
        }
    }
}

proof fn lemma_filter_in_range(
    portfolio_id: Symbol,
    subs: Seq<Subscription>,
    keep: spec_fn(Subscription) -> bool,
    k: int,
)
    requires
        subscriptions_wf(portfolio_id, subs),
        0 <= k < subs.filter(keep).len(),
    ensures
        subs.filter(keep)[k].order_index < subs.len(),
    decreases subs.len(),
{
    reveal(Seq::filter);
    if subs.len() > 0 {
        let less = subs.drop_last();
        assert(subscriptions_wf(portfolio_id, less)) by {
            assert forall|i: int| 0 <= i < less.len() implies (#[trigger] less[i]).order_index == i
                && less[i].portfolio_id == portfolio_id by {
                assert(less[i] == subs[i]);
            }
            assert forall|i: int, j: int|
                0 <= i < j < less.len() && (#[trigger] less[i]).is_active && (
                #[trigger] less[j]).is_active implies less[i].subscriber != less[j].subscriber by {
                assert(less[i] == subs[i] && less[j] == subs[j]);
            }
        }
        assert(subs[subs.len() - 1].order_index == subs.len() - 1);
        if k < less.filter(keep).len() {
            lemma_filter_in_range(portfolio_id, less, keep, k);
        }
    }
}

/// An event id is new: above every id in the histories.
pub proof fn event_ids_ascend(ledger: EventsLedger, event: Event)
    requires
        ledger.wf(),
        event.event_id == ledger.next_id + 1,
    ensures
        ledger.emitted(event).wf(),
        forall|p: Symbol, i: int|
            #![trigger ledger.histories[p][i]]
            ledger.histories.contains_key(p) && 0 <= i < ledger.histories[p].len()
                ==> ledger.histories[p][i].event_id < event.event_id,
{
    let after = ledger.emitted(event);
    let log = table::list_at(ledger.histories, event.portfolio_id);
    assert forall|p: Symbol| #[trigger] after.histories.contains_key(p) implies history_wf(
        p,
        after.histories[p],
        after.next_id,
    ) by {
        let events = after.histories[p];
        if p == event.portfolio_id {
            assert forall|i: int| 0 <= i < events.len() implies (#[trigger] events[i]).event_id
                <= after.next_id && events[i].portfolio_id == p by {
                if i < log.len() {
                    assert(events[i] == log[i]);
                    assert(ledger.histories.contains_key(p));
                }
            }
            assert forall|i: int, j: int| 0 <= i < j < events.len() implies (
            #[trigger] events[i]).event_id < (#[trigger] events[j]).event_id by {
                assert(events[i] == log[i]);
                assert(ledger.histories.contains_key(p));
                if j < log.len() {
                    assert(events[j] == log[j]);
                }
            }
        } else {
            assert(ledger.histories.contains_key(p));
        }
    }
}

/// What does not touch triggers, analyses, events and subscriptions keeps the
/// state in order, as long as managed subscriptions have ids that were handed
/// out.
pub proof fn lemma_wf_kept(before: EventsLedger, after: EventsLedger)
    requires
        before.wf(),
        after.next_id == before.next_id,
        after.triggers == before.triggers,
        after.analyses == before.analyses,
        after.recommendations == before.recommendations,
        after.subscriptions == before.subscriptions,
        after.histories == before.histories,
        after.sub_counter == before.sub_counter,
        after.managed_ids == before.managed_ids,
        forall|id: u64| #[trigger]
            after.managed.contains_key(id) ==> before.managed.contains_key(id),
    ensures
        after.wf(),
{
}

impl EventsContract {
    /// The tables and the state are in order.
    pub open spec fn wf(&self) -> bool {
        &&& self.triggers.wf()
        &&& self.analyses.wf()
        &&& self.recommendations.wf()
        &&& self@.wf()
    }

    /// A contract in which nothing has happened.
    pub fn new() -> (contract: EventsContract)
        ensures
            contract.wf(),
            contract@ == (EventsLedger {
                next_id: 0,
                triggers: Map::empty(),
                metrics: types::no_analyses(),
                analyses: Map::empty(),
                statuses: Map::empty(),
                recommendations: Map::empty(),
                subscriptions: Map::empty(),
                histories: Map::empty(),
                managed_ids: Map::empty(),
                managed: Map::empty(),
                deliveries: Map::empty(),
                batches: Map::empty(),
                severities: Map::empty(),
                sub_counter: 0,
                delivery_metrics: subscriptions::no_deliveries(),
                outbox: Seq::empty(),
            }),
    {
        let contract = EventsContract {
            next_id: 0,
            triggers: OrderedTable::new(),
            metrics: AnalysisMetrics::default(),
            analyses: OrderedTable::new(),
            statuses: Table::new(),
            recommendations: OrderedTable::new(),
            subscriptions: Table::new(),
            histories: Table::new(),
            managed_ids: Table::new(),
            managed: Table::new(),
            deliveries: Table::new(),
            batches: Table::new(),
            severities: Table::new(),
            sub_counter: 0,
            delivery_metrics: DeliveryMetrics::new(),
            outbox: Vec::new(),
        };
        assert(contract@.analyses =~= Map::empty());
        assert(contract@.subscriptions =~= Map::empty());
        assert(contract@.histories =~= Map::empty());
        assert(contract@.managed_ids =~= Map::empty());
        assert(contract@.deliveries =~= Map::empty());
        assert(contract@.batches =~= Map::empty());
        assert(contract@.outbox =~= Seq::empty());
        contract
    }

    /// Make sure that there are metrics; a contract has them from the start.
    pub fn initialize(&mut self) -> (r: Symbol)
        ensures
            r == values::symbol_of("OK"@),
            *final(self) == *old(self),
    {
        Symbol::from_text("OK")
    }

    // -----------------------------------------------------------------------
    // Subscriptions
    // -----------------------------------------------------------------------

    /// Subscribe to the events of a portfolio, of the types given or, where
    /// none is given, of all types. One who is subscribed stays as they are.
    pub fn subscribe(
        &mut self,
        portfolio_id: Symbol,
        subscriber: Address,
        event_types: Vec<PortfolioEventType>,
        now: u64,
    ) -> (r: Result<Symbol, Error>)
        requires
            old(self).wf(),
            table::list_at(old(self)@.subscriptions, portfolio_id).len() < u32::MAX,
        ensures
            final(self).wf(),
            r == Ok::<Symbol, Error>(values::symbol_of("OK"@)),
            ({
                let subs = table::list_at(old(self)@.subscriptions, portfolio_id);
                if has_active(subs, subscriber) {
                    final(self)@ == old(self)@
                } else {
                    final(self)@ == (EventsLedger {
                        subscriptions: old(self)@.subscriptions.insert(
                            portfolio_id,
                            subs.push(
                                Subscription {
                                    subscriber,
                                    portfolio_id,
                                    event_types,
                                    order_index: subs.len() as u32,
                                    subscribed_at: now,
                                    is_active: true,
                                },
                            ),
                        ),
                        ..old(self)@
                    }).published(
                        Notice::Subscribed {
                            portfolio_id,
                            subscriber,
                            order_index: subs.len() as u32,
                        },
                    )
                }
            }),
    {
        let ghost ledger = self@;
        let ghost subs = table::list_at(ledger.subscriptions, portfolio_id);
        if self.is_subscribed(&portfolio_id, &subscriber) {
            return Ok(Symbol::from_text("OK"));
        }
        let order_index: u32 = match self.subscriptions.get(&portfolio_id) {
            Some(list) => list.len() as u32,
            None => 0,
        };
        let sub = Subscription {
            subscriber,
            portfolio_id,
            event_types,
            order_index,
            subscribed_at: now,
            is_active: true,
        };
        table::append(&mut self.subscriptions, portfolio_id, sub);
        self.outbox.push(Notice::Subscribed { portfolio_id, subscriber, order_index });
        proof {
            let list = self@.subscriptions[portfolio_id];
            assert(list == subs.push(sub));
            assert(subscriptions_wf(portfolio_id, subs));
            assert forall|i: int| 0 <= i < list.len() implies (#[trigger] list[i]).order_index == i
                && list[i].portfolio_id == portfolio_id by {
                if i < subs.len() {
                    assert(list[i] == subs[i]);
                }
            }
            assert forall|i: int, j: int|
                0 <= i < j < list.len() && (#[trigger] list[i]).is_active && (
                #[trigger] list[j]).is_active implies list[i].subscriber != list[j].subscriber by {
                assert(list[i] == subs[i]);
                if j < subs.len() {
                    assert(list[j] == subs[j]);
                }
            }
            assert(subscriptions_wf(portfolio_id, list));
        }
        Ok(Symbol::from_text("OK"))
    }

    fn is_subscribed(&self, portfolio_id: &Symbol, subscriber: &Address) -> (b: bool)
        ensures
            b == has_active(table::list_at(self@.subscriptions, *portfolio_id), *subscriber),
    {
        let subs = table::refer_to(&self.subscriptions, portfolio_id);
        let ghost list = table::list_at(self@.subscriptions, *portfolio_id);
        let mut i: usize = 0;
        while i < subs.len()
            invariant
                i <= subs@.len(),
                table::targets(subs@) == list,
                forall|j: int|
                    0 <= j < i ==> !((#[trigger] list[j]).subscriber == *subscriber
                        && list[j].is_active),
                list == table::list_at(self@.subscriptions, *portfolio_id),
            decreases subs@.len() - i,
        {
            let s = subs[i];
            assert(*s == list[i as int]);
            if s.subscriber == *subscriber && s.is_active {
                return true;
            }
            i += 1;
        }
        false
    }

    /// End a subscription to the events of a portfolio.
    pub fn unsubscribe(&mut self, portfolio_id: Symbol, subscriber: Address) -> (r: Result<
        Symbol,
        Error,
    >)
        requires
            old(self).wf(),
        ensures
            final(self).wf(),
            ({
                let subs = table::list_at(old(self)@.subscriptions, portfolio_id);
                if !has_active(subs, subscriber) {
                    r == Err::<Symbol, Error>(Error::NotFound) && final(self)@ == old(self)@
                } else {
                    r == Ok::<Symbol, Error>(values::symbol_of("OK"@)) && final(self)@ == (
                    EventsLedger {
                        subscriptions: old(self)@.subscriptions.insert(
                            portfolio_id,
                            deactivated(subs, subscriber),
                        ),
                        ..old(self)@
                    }).published(Notice::Unsubscribed { portfolio_id, subscriber })
                }
            }),
    {
        let ghost ledger = self@;
        let ghost subs = table::list_at(ledger.subscriptions, portfolio_id);
        if !self.is_subscribed(&portfolio_id, &subscriber) {
            return Err(Error::NotFound);
        }
        let mut list: Vec<Subscription> = match self.subscriptions.take(&portfolio_id) {
            Some(list) => list,
            None => Vec::new(),
        };
        assert(list@ =~= subs);
        let mut i: usize = 0;
        while i < list.len()
            invariant
                i <= list@.len(),
                list@.len() == subs.len(),
                forall|j: int|
                    0 <= j < i ==> (#[trigger] list@[j]) == deactivated(subs, subscriber)[j],
                forall|j: int| i <= j < subs.len() ==> (#[trigger] list@[j]) == subs[j],
            decreases list@.len() - i,
        {
            if list[i].subscriber == subscriber {
                list[i].is_active = false;
            }
            i += 1;
        }
        assert(list@ =~= deactivated(subs, subscriber));
        table::put_list(&mut self.subscriptions, portfolio_id, list);
        self.outbox.push(Notice::Unsubscribed { portfolio_id, subscriber });
        proof {
            assert(self@.subscriptions =~= ledger.subscriptions.insert(
                portfolio_id,
                deactivated(subs, subscriber),
            ));
            let after = self@.subscriptions[portfolio_id];
            assert(subscriptions_wf(portfolio_id, subs));
            assert forall|i: int| 0 <= i < after.len() implies (#[trigger] after[i]).order_index
                == i && after[i].portfolio_id == portfolio_id by {
                assert(subs[i].order_index == i);
            }
            assert forall|i: int, j: int|
                0 <= i < j < after.len() && (#[trigger] after[i]).is_active && (
                #[trigger] after[j]).is_active implies after[i].subscriber
                != after[j].subscriber by {
                assert(subs[i].is_active && subs[j].is_active);
            }
            assert(subscriptions_wf(portfolio_id, after));
        }
        Ok(Symbol::from_text("OK"))
    }

    /// Subscribe to all events of a portfolio.
    pub fn subscribe_all(&mut self, portfolio_id: Symbol, subscriber: Address, now: u64) -> (r:
        Result<Symbol, Error>)
        requires
            old(self).wf(),
            table::list_at(old(self)@.subscriptions, portfolio_id).len() < u32::MAX,
        ensures
            final(self).wf(),
            r == Ok::<Symbol, Error>(values::symbol_of("OK"@)),
            has_active(
                table::list_at(old(self)@.subscriptions, portfolio_id),
                subscriber,
            ) ==> final(self)@ == old(self)@,
            !has_active(table::list_at(old(self)@.subscriptions, portfolio_id), subscriber) ==> {
                let subs = table::list_at(old(self)@.subscriptions, portfolio_id);
                let added = final(self)@.subscriptions[portfolio_id];
                &&& added == subs.push(added.last())
                &&& added.last().event_types@.len() == 0
                &&& added.last().subscriber == subscriber && added.last().is_active
                &&& added.last().portfolio_id == portfolio_id && added.last().subscribed_at == now
                &&& added.last().order_index == subs.len()
                &&& final(self)@ == (EventsLedger {
                    subscriptions: old(self)@.subscriptions.insert(portfolio_id, added),
                    ..old(self)@
                }).published(
                    Notice::Subscribed {
                        portfolio_id,
                        subscriber,
                        order_index: added.last().order_index,
                    },
                )
            },
    {
        self.subscribe(portfolio_id, subscriber, Vec::new(), now)
    }

    /// End a subscription to the events of a portfolio.
    pub fn unsubscribe_all(&mut self, portfolio_id: Symbol, subscriber: Address) -> (r: Result<
        Symbol,
        Error,
    >)
        requires
            old(self).wf(),
        ensures
            final(self).wf(),
            ({
                let subs = table::list_at(old(self)@.subscriptions, portfolio_id);
                if !has_active(subs, subscriber) {
                    r == Err::<Symbol, Error>(Error::NotFound) && final(self)@ == old(self)@
                } else {
                    r == Ok::<Symbol, Error>(values::symbol_of("OK"@)) && final(self)@ == (
                    EventsLedger {
                        subscriptions: old(self)@.subscriptions.insert(
                            portfolio_id,
                            deactivated(subs, subscriber),
                        ),
                        ..old(self)@
                    }).published(Notice::Unsubscribed { portfolio_id, subscriber })
                }
            }),
    {
        self.unsubscribe(portfolio_id, subscriber)
    }

    // -----------------------------------------------------------------------
    // Events
    // -----------------------------------------------------------------------

    /// The notices about an event for those who subscribed to it.
    fn notifications_for(&self, event: &Event) -> (notices: Vec<Notice>)
        ensures
            notices@ == notifications(
                table::list_at(self@.subscriptions, event.portfolio_id),
                *event,
            ),
    {
        let subs = table::refer_to(&self.subscriptions, &event.portfolio_id);
        let ghost list = table::list_at(self@.subscriptions, event.portfolio_id);
        let ghost keep = |s: Subscription| is_for(s, event.event_type);
        let ghost notice = |s: Subscription|
            Notice::Notify {
                subscriber: s.subscriber,
                portfolio_id: event.portfolio_id,
                event_id: event.event_id,
            };
        let mut notices: Vec<Notice> = Vec::new();
        let mut i: usize = 0;
        proof {
            table::lemma_filter_none(list, keep);
            assert(notices@ =~= list.take(0).filter(keep).map_values(notice));
        }
        while i < subs.len()
            invariant
                i <= subs@.len(),
                table::targets(subs@) == list,
                keep == (|s: Subscription| is_for(s, event.event_type)),
                notice == (|s: Subscription|
                    Notice::Notify {
                        subscriber: s.subscriber,
                        portfolio_id: event.portfolio_id,
                        event_id: event.event_id,
                    }),
                notices@ == list.take(i as int).filter(keep).map_values(notice),
            decreases subs@.len() - i,
        {
            let s = subs[i];
            proof {
                assert(*s == list[i as int]);
                table::lemma_filter_step(list, i as int, keep);
            }
            if s.is_active && subscriptions::wants(&s.event_types, &event.event_type) {
                notices.push(
                    Notice::Notify {
                        subscriber: s.subscriber,
                        portfolio_id: event.portfolio_id,
                        event_id: event.event_id,
                    },
                );
            }
            i += 1;
            assert(notices@ =~= list.take(i as int).filter(keep).map_values(notice));
        }
        assert(list.take(i as int) =~= list);
        notices
    }

    /// Keep, publish and notify an event; gives its id.
    pub(crate) fn store_event(
        &mut self,
        portfolio_id: Symbol,
        event_type: PortfolioEventType,
        details: OrderedTable<Symbol, Vec<u8>>,
        metadata: Vec<u8>,
        now: u64,
    ) -> (event_id: u64)
        requires
            old(self).wf(),
            old(self)@.next_id < u64::MAX,
        ensures
            final(self).wf(),
            event_id == old(self)@.next_id + 1,
            final(self)@ == old(self)@.emitted(
                Event {
                    event_id,
                    portfolio_id,
                    event_type,
                    timestamp: now,
                    details,
                    metadata,
                },
            ),
    {
        let ghost ledger = self@;
        let event_id = self.hand_out_id();
        let event = Event {
            event_id,
            portfolio_id,
            event_type,
            timestamp: now,
            details,
            metadata,
        };
        proof {
            event_ids_ascend(ledger, event);
        }
        let mut notices = self.notifications_for(&event);
        self.outbox.push(Notice::PortfolioEvent { portfolio_id, event_type, event_id });
        self.outbox.append(&mut notices);
        table::append(&mut self.histories, portfolio_id, event);
        assert(self@ == ledger.emitted(event));
        event_id
    }

    /// The next id.
    pub(crate) fn hand_out_id(&mut self) -> (id: u64)
        requires
            old(self)@.next_id < u64::MAX,
        ensures
            id == old(self)@.next_id + 1,
            final(self)@ == (EventsLedger { next_id: id, ..old(self)@ }),
            *final(self) == (EventsContract { next_id: id, ..*old(self) }),
    {
        self.next_id = self.next_id + 1;
        self.next_id
    }

    /// Emit a portfolio event and notify the subscribers that it is for.
    pub fn emit_event(
        &mut self,
        portfolio_id: Symbol,
        event_type: PortfolioEventType,
        details: OrderedTable<Symbol, Vec<u8>>,
        metadata: Vec<u8>,
        now: u64,
    ) -> (r: Result<&Event, Error>)
        requires
            old(self).wf(),
            old(self)@.next_id < u64::MAX,
        ensures
            final(self).wf(),
            r is Ok,
            *r->Ok_0 == (Event {
                event_id: (old(self)@.next_id + 1) as u64,
                portfolio_id,
                event_type,
                timestamp: now,
                details,
                metadata,
            }),
            final(self)@ == old(self)@.emitted(*r->Ok_0),
    {
        let ghost before = table::list_at(self@.histories, portfolio_id);
        let event_id = self.store_event(portfolio_id, event_type, details, metadata, now);
        proof {
            let event = Event {
                event_id,
                portfolio_id,
                event_type,
                timestamp: now,
                details,
                metadata,
            };
            assert(self@.histories[portfolio_id] == before.push(event));
            assert(self@.histories.contains_key(portfolio_id));
            assert(self.histories@[portfolio_id]@ == before.push(event));
        }
        match self.histories.get(&portfolio_id) {
            Some(log) => {
                let n = log.len();
                Ok(&log[n - 1])
            },
            None => Err(Error::NotFound),
        }
    }

    /// Emit a portfolio event without metadata.
    pub fn emit_event_simple(
        &mut self,
        portfolio_id: Symbol,
        event_type: PortfolioEventType,
        details: OrderedTable<Symbol, Vec<u8>>,
        now: u64,
    ) -> (r: Result<&Event, Error>)
        requires
            old(self).wf(),
            old(self)@.next_id < u64::MAX,
        ensures
            final(self).wf(),
            r is Ok,
            r->Ok_0.event_id == old(self)@.next_id + 1,
            r->Ok_0.portfolio_id == portfolio_id,
            r->Ok_0.event_type == event_type,
            r->Ok_0.timestamp == now,
            r->Ok_0.details == details,
            r->Ok_0.metadata@ == Seq::<u8>::empty(),
            final(self)@ == old(self)@.emitted(*r->Ok_0),
    {
        let metadata: Vec<u8> = Vec::new();
        assert(metadata@ =~= Seq::<u8>::empty());
        self.emit_event(portfolio_id, event_type, details, metadata, now)
    }

    // -----------------------------------------------------------------------
    // Queries
    // -----------------------------------------------------------------------

    /// The subscriptions of a portfolio, in the order in which they were made.
    pub fn get_subscriptions(&self, portfolio_id: &Symbol) -> (list: Vec<&Subscription>)
        ensures
            table::targets(list@) == table::list_at(self@.subscriptions, *portfolio_id),
    {
        table::refer_to(&self.subscriptions, portfolio_id)
    }

    /// The active subscriptions of a portfolio, in the order in which they
    /// were made.
    pub fn get_active_subscriptions(&self, portfolio_id: &Symbol) -> (active: Vec<&Subscription>)
        ensures
            table::targets(active@) == table::list_at(self@.subscriptions, *portfolio_id).filter(
                |s: Subscription| s.is_active,
            ),
    {
        let all = self.get_subscriptions(portfolio_id);
        let ghost list = table::targets(all@);
        let ghost keep = |s: Subscription| s.is_active;
        let mut active: Vec<&Subscription> = Vec::new();
        let mut i: usize = 0;
        proof {
            table::lemma_filter_none(list, keep);
            assert(table::targets(active@) =~= list.take(0).filter(keep));
        }
        while i < all.len()
            invariant
                i <= all@.len(),
                table::targets(all@) == list,
                keep == (|s: Subscription| s.is_active),
                table::targets(active@) == list.take(i as int).filter(keep),
            decreases all@.len() - i,
        {
            let s = all[i];
            proof {
                assert(*s == list[i as int]);
                table::lemma_filter_step(list, i as int, keep);
                table::lemma_targets_push(active@, s);
            }
            if s.is_active {
                active.push(s);
            }
            i += 1;
        }
        assert(list.take(i as int) =~= list);
        active
    }

    /// The events of a portfolio, oldest first.
    pub fn get_event_history(&self, portfolio_id: &Symbol) -> (list: Vec<&Event>)
        ensures
            table::targets(list@) == table::list_at(self@.histories, *portfolio_id),
    {
        table::refer_to(&self.histories, portfolio_id)
    }

    /// The events of a portfolio of one type, oldest first.
    pub fn get_events_by_type(&self, portfolio_id: &Symbol, event_type: PortfolioEventType) -> (
        filtered: Vec<&Event>)
        ensures
            table::targets(filtered@) == table::list_at(self@.histories, *portfolio_id).filter(
                |e: Event| e.event_type == event_type,
            ),
    {
        let all = self.get_event_history(portfolio_id);
        let ghost list = table::targets(all@);
        let ghost keep = |e: Event| e.event_type == event_type;
        let mut filtered: Vec<&Event> = Vec::new();
        let mut i: usize = 0;
        proof {
            table::lemma_filter_none(list, keep);
            assert(table::targets(filtered@) =~= list.take(0).filter(keep));
        }
        while i < all.len()
            invariant
                i <= all@.len(),
                table::targets(all@) == list,
                keep == (|e: Event| e.event_type == event_type),
                table::targets(filtered@) == list.take(i as int).filter(keep),
            decreases all@.len() - i,
        {
            let e = all[i];
            proof {
                assert(*e == list[i as int]);
                table::lemma_filter_step(list, i as int, keep);
                table::lemma_targets_push(filtered@, e);
            }
            if e.event_type == event_type {
                filtered.push(e);
            }
            i += 1;
        }
        assert(list.take(i as int) =~= list);
        filtered
    }

    /// The events of a portfolio from one time to another, both included,
    /// oldest first.
    pub fn get_events_by_time_range(
        &self,
        portfolio_id: &Symbol,
        from_timestamp: u64,
        to_timestamp: u64,
    ) -> (filtered: Vec<&Event>)
        ensures
            table::targets(filtered@) == table::list_at(self@.histories, *portfolio_id).filter(
                |e: Event| from_timestamp <= e.timestamp <= to_timestamp,
            ),
    {
        let all = self.get_event_history(portfolio_id);
        let ghost list = table::targets(all@);
        let ghost keep = |e: Event| from_timestamp <= e.timestamp <= to_timestamp;
        let mut filtered: Vec<&Event> = Vec::new();
        let mut i: usize = 0;
        proof {
            table::lemma_filter_none(list, keep);
            assert(table::targets(filtered@) =~= list.take(0).filter(keep));
        }
        while i < all.len()
            invariant
                i <= all@.len(),
                table::targets(all@) == list,
                keep == (|e: Event| from_timestamp <= e.timestamp <= to_timestamp),
                table::targets(filtered@) == list.take(i as int).filter(keep),
            decreases all@.len() - i,
        {
            let e = all[i];
            proof {
                assert(*e == list[i as int]);
                table::lemma_filter_step(list, i as int, keep);
                table::lemma_targets_push(filtered@, e);
            }
            if e.timestamp >= from_timestamp && e.timestamp <= to_timestamp {
                filtered.push(e);
            }
            i += 1;
        }
        assert(list.take(i as int) =~= list);
        filtered
    }

    /// The events of a portfolio of one type from one time to another, both
    /// included, oldest first.
    pub fn get_events_filtered(
        &self,
        portfolio_id: &Symbol,
        event_type: PortfolioEventType,
        from_timestamp: u64,
        to_timestamp: u64,
    ) -> (filtered: Vec<&Event>)
        ensures
            table::targets(filtered@) == table::list_at(self@.histories, *portfolio_id).filter(
                |e: Event|
                    e.event_type == event_type && from_timestamp <= e.timestamp <= to_timestamp,
            ),
    {
        let all = self.get_event_history(portfolio_id);
        let ghost list = table::targets(all@);
        let ghost keep = |e: Event|
            e.event_type == event_type && from_timestamp <= e.timestamp <= to_timestamp;
        let mut filtered: Vec<&Event> = Vec::new();
        let mut i: usize = 0;
        proof {
            table::lemma_filter_none(list, keep);
            assert(table::targets(filtered@) =~= list.take(0).filter(keep));
        }
        while i < all.len()
            invariant
                i <= all@.len(),
                table::targets(all@) == list,
                keep == (|e: Event|
                    e.event_type == event_type && from_timestamp <= e.timestamp <= to_timestamp),
                table::targets(filtered@) == list.take(i as int).filter(keep),
            decreases all@.len() - i,
        {
            let e = all[i];
            proof {
                assert(*e == list[i as int]);
                table::lemma_filter_step(list, i as int, keep);
                table::lemma_targets_push(filtered@, e);
            }
            if e.event_type == event_type && e.timestamp >= from_timestamp && e.timestamp
                <= to_timestamp {
                filtered.push(e);
            }
            i += 1;
        }
        assert(list.take(i as int) =~= list);
        filtered
    }

    /// How many events a portfolio has.
    pub fn get_event_count(&self, portfolio_id: &Symbol) -> (n: u32)
        requires
            table::list_at(self@.histories, *portfolio_id).len() <= u32::MAX,
        ensures
            n == table::list_at(self@.histories, *portfolio_id).len(),
    {
        match self.histories.get(portfolio_id) {
            Some(log) => log.len() as u32,
            None => 0,
        }
    }
}

/// An event is added to its portfolio's history as the latest, and to no
/// other; it is published before its subscribers are told.
pub proof fn events_are_recorded(ledger: EventsLedger, event: Event, other: Symbol)
    ensures
        ({
            let after = ledger.emitted(event);
            let p = event.portfolio_id;
            let before = ledger.outbox.len() as int;
            &&& table::list_at(after.histories, p) == table::list_at(ledger.histories, p).push(
                event,
            )
            &&& other != p ==> table::list_at(after.histories, other) == table::list_at(
                ledger.histories,
                other,
            )
            &&& after.outbox.take(before) == ledger.outbox
            &&& after.outbox[before] == (Notice::PortfolioEvent {
                portfolio_id: p,
                event_type: event.event_type,
                event_id: event.event_id,
            })
            &&& after.outbox.skip(before + 1) == notifications(
                table::list_at(ledger.subscriptions, p),
                event,
            )
            &&& after.subscriptions == ledger.subscriptions
        }),
{
    let after = ledger.emitted(event);
    let before = ledger.outbox.len() as int;
    assert(after.outbox.take(before) =~= ledger.outbox);
    assert(after.outbox.skip(before + 1) =~= notifications(
        table::list_at(ledger.subscriptions, event.portfolio_id),
        event,
    ));
}

/// Subscribers are told of the events that they asked for while they are
/// active: of all where they named none. Nobody is told of others.
pub proof fn subscribers_hear_what_they_asked_for(
    subs: Seq<Subscription>,
    sub: Subscription,
    event_type: PortfolioEventType,
)
    ensures
        !sub.is_active ==> chosen(subs.push(sub), event_type) == chosen(subs, event_type),
        sub.is_active && sub.event_types@.len() == 0 ==> chosen(subs.push(sub), event_type)
            == chosen(subs, event_type).push(sub),
        sub.is_active && sub.event_types@.len() > 0 ==> chosen(subs.push(sub), event_type) == (
        if sub.event_types@.contains(event_type) {
            chosen(subs, event_type).push(sub)
        } else {
            chosen(subs, event_type)
        }),
        chosen(Seq::empty(), event_type).len() == 0,
{
    let keep = |s: Subscription| is_for(s, event_type);
    let longer = subs.push(sub);
    let n = subs.len() as int;
    table::lemma_filter_step(longer, n, keep);
    table::lemma_filter_none(longer, keep);
    assert(longer.take(n) =~= subs);
    assert(longer.take(n + 1) =~= longer);
    assert(longer.take(0) =~= Seq::<Subscription>::empty());
}

/// After a subscriber leaves, none of their subscriptions is active, and those
/// of others are as they were.
pub proof fn leaving_ends_a_subscription(subs: Seq<Subscription>, subscriber: Address, i: int)
    requires
        0 <= i < subs.len(),
    ensures
        ({
            let after = deactivated(subs, subscriber);
            &&& after.len() == subs.len()
            &&& !has_active(after, subscriber)
            &&& subs[i].subscriber == subscriber ==> !after[i].is_active && after[i].subscriber
                == subscriber && after[i].order_index == subs[i].order_index
            &&& subs[i].subscriber != subscriber ==> after[i] == subs[i]
            &&& has_active(subs, subscriber) <== subs[i].subscriber == subscriber
                && subs[i].is_active
        }),
{
}

} // verus!
