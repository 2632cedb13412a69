//! Managed subscriptions and the delivery of events to them.
//!
//! An event that is dispatched leaves a delivery record for every managed
//! subscription that it passes the filter of. A record waits until it is due,
//! is delivered, and can then be acknowledged; a failed attempt makes it wait
//! longer.
use crate::events::contract;
use crate::events::contract::{EventsContract, EventsLedger};
use crate::events::subscriptions;
use crate::events::subscriptions::{
    DeliveryMetrics, DeliveryMode, DeliveryRecord, DeliveryStatus, EventFilter,
    ManagedSubscription, SubscriptionPreferences, SubscriptionStatus,
};
use crate::events::types::{Error, Event, Notice, PortfolioEventType};
use crate::table;
use crate::table::OrderedTable;
use crate::values;
use crate::values::{Address, Symbol};
use vstd::prelude::*;

verus! {

// ---------------------------------------------------------------------------
// Delivery of records
// ---------------------------------------------------------------------------

/// Whether a record waits, for no longer than until `limit`.
pub open spec fn is_due(record: DeliveryRecord, limit: u64) -> bool {
    record.status == DeliveryStatus::Pending && record.next_retry_at <= limit
}

/// The records that wait for no longer than until `limit`: those that are to
/// be delivered at that moment, and all that wait where there is no limit.
pub open spec fn due(records: Seq<DeliveryRecord>, limit: u64) -> Seq<DeliveryRecord> {
    records.filter(|r: DeliveryRecord| is_due(r, limit))
}

/// A record after the delivery, at `now`, of what is due by `limit`.
pub open spec fn served(record: DeliveryRecord, limit: u64, now: u64) -> DeliveryRecord {
    if is_due(record, limit) {
        DeliveryRecord {
            attempts: (record.attempts + 1) as u32,
            status: DeliveryStatus::Delivered,
            delivered_at: Some(now),
            ..record
        }
    } else {
        record
    }
}

/// The records after the delivery, at `now`, of what is due by `limit`.
pub open spec fn all_served(records: Seq<DeliveryRecord>, limit: u64, now: u64) -> Seq<
    DeliveryRecord,
> {
    records.map_values(|r: DeliveryRecord| served(r, limit, now))
}

/// How many of the records belong to a subscription.
pub open spec fn count_for(records: Seq<DeliveryRecord>, id: u64) -> nat {
    records.filter(|r: DeliveryRecord| r.subscription_id == id).len()
}

/// The subscriptions after deliveries were counted, one after another.
pub open spec fn credited(
    managed: Map<u64, ManagedSubscription>,
    records: Seq<DeliveryRecord>,
) -> Map<u64, ManagedSubscription>
    decreases records.len(),
{
    if records.len() == 0 {
        managed
    } else {
        let so_far = credited(managed, records.drop_last());
        let id = records.last().subscription_id;
        if so_far.contains_key(id) {
            so_far.insert(
                id,
                ManagedSubscription {
                    total_delivered: (so_far[id].total_delivered + 1) as u64,
                    ..so_far[id]
                },
            )
        } else {
            so_far
        }
    }
}

/// How many of the records had been tried before.
pub open spec fn tried_before(records: Seq<DeliveryRecord>) -> nat {
    records.filter(|r: DeliveryRecord| r.attempts > 0).len()
}

/// The notices of deliveries to a subscriber.
pub open spec fn delivery_notices(subscriber: Address, records: Seq<DeliveryRecord>) -> Seq<Notice> {
    records.map_values(
        |r: DeliveryRecord|
            Notice::Delivered {
                subscriber,
                event_id: r.event_id,
                subscription_id: r.subscription_id,
            },
    )
}

/// The events that records deliver.
pub open spec fn event_ids(records: Seq<DeliveryRecord>) -> Seq<u64> {
    records.map_values(|r: DeliveryRecord| r.event_id)
}

/// The metrics after records were delivered.
pub open spec fn metrics_after_delivery(
    metrics: DeliveryMetrics,
    records: Seq<DeliveryRecord>,
) -> DeliveryMetrics {
    if records.len() == 0 {
        metrics
    } else {
        DeliveryMetrics {
            total_delivered: (metrics.total_delivered + records.len()) as u32,
            total_retry_attempts: if metrics.total_retry_attempts + tried_before(records)
                > u32::MAX {
                u32::MAX
            } else {
                (metrics.total_retry_attempts + tried_before(records)) as u32
            },
            ..metrics
        }
    }
}

impl EventsLedger {
    /// The state after everything that is due to a subscriber by `limit` was
    /// delivered at `now`.
    pub open spec fn delivering(self, subscriber: Address, limit: u64, now: u64) -> EventsLedger {
        let records = table::list_at(self.deliveries, subscriber);
        let served_now = due(records, limit);
        EventsLedger {
            deliveries: self.deliveries.insert(subscriber, all_served(records, limit, now)),
            managed: credited(self.managed, served_now),
            delivery_metrics: metrics_after_delivery(self.delivery_metrics, served_now),
            outbox: self.outbox + delivery_notices(subscriber, served_now),
            ..self
        }
    }

    /// The state after a subscriber's batch was flushed, if there is one:
    /// everything that waits was delivered, due or not.
    pub open spec fn flushing(self, subscriber: Address, now: u64) -> EventsLedger {
        if table::list_at(self.batches, subscriber).len() == 0 {
            self
        } else {
            let after = self.delivering(subscriber, u64::MAX, now);
            EventsLedger { batches: after.batches.remove(subscriber), ..after }
        }
    }

    /// The state after an event was emitted with a severity.
    pub open spec fn rated(self, event: Event, severity: u32) -> EventsLedger {
        let emitted = self.emitted(event);
        EventsLedger {
            severities: emitted.severities.insert(event.event_id, severity),
            ..emitted
        }
    }

    /// Whether the counters hold the delivery of what is due to a subscriber
    /// by `limit`.
    pub open spec fn can_deliver(self, subscriber: Address, limit: u64) -> bool {
        let records = due(table::list_at(self.deliveries, subscriber), limit);
        &&& self.delivery_metrics.total_delivered + records.len() <= u32::MAX
        &&& forall|id: u64| #[trigger]
            self.managed.contains_key(id) ==> self.managed[id].total_delivered + count_for(
                records,
                id,
            ) <= u64::MAX
        &&& forall|i: int| 0 <= i < records.len() ==> (#[trigger] records[i]).attempts < u32::MAX
    }

    /// Whether the counters hold a flush of a subscriber's batch.
    pub open spec fn can_flush(self, subscriber: Address) -> bool {
        table::list_at(self.batches, subscriber).len() > 0 ==> self.can_deliver(
            subscriber,
            u64::MAX,
        )
    }

    /// The managed subscriptions among `ids` that an event goes to.
    pub open spec fn recipients(
        self,
        ids: Seq<u64>,
        event_type: PortfolioEventType,
        severity: u32,
        details: Map<Symbol, Vec<u8>>,
    ) -> Seq<u64> {
        ids.filter(
            |id: u64|
                self.managed.contains_key(id) && self.managed[id].status
                    == SubscriptionStatus::Active && self.managed[id].filter.passes(
                    event_type,
                    severity,
                    details,
                ),
        )
    }

    /// The state after an event was noted for one managed subscription: as a
    /// record, and in batch mode in the subscriber's batch.
    pub open spec fn noted(self, id: u64, event_id: u64, now: u64) -> EventsLedger {
        let sub = self.managed[id];
        let record = DeliveryRecord {
            event_id,
            subscription_id: id,
            subscriber: sub.subscriber,
            status: DeliveryStatus::Pending,
            attempts: 0,
            next_retry_at: (now + subscriptions::backoff(0)) as u64,
            delivered_at: None,
            acked_at: None,
        };
        EventsLedger {
            managed: self.managed.insert(
                id,
                ManagedSubscription { last_event_received_at: Some(now), ..sub },
            ),
            deliveries: self.deliveries.insert(
                sub.subscriber,
                table::list_at(self.deliveries, sub.subscriber).push(record),
            ),
            batches: if sub.prefs.mode == DeliveryMode::Batch {
                self.batches.insert(
                    sub.subscriber,
                    table::list_at(self.batches, sub.subscriber).push(event_id),
                )
            } else {
                self.batches
            },
            ..self
        }
    }

    /// Whether one more event makes a subscription's batch full.
    pub open spec fn fills_batch(self, id: u64) -> bool {
        let sub = self.managed[id];
        sub.prefs.mode == DeliveryMode::Batch && table::list_at(
            self.batches,
            sub.subscriber,
        ).len() + 1 >= sub.prefs.batch_size
    }

    /// The state after an event was queued for one managed subscription. A
    /// full batch is flushed.
    pub open spec fn queued(self, id: u64, event_id: u64, now: u64) -> EventsLedger {
        let noted = self.noted(id, event_id, now);
        if self.fills_batch(id) {
            noted.flushing(self.managed[id].subscriber, now)
        } else {
            noted
        }
    }

    /// Whether an event can be queued for one managed subscription: the next
    /// attempt is at a time that there is, and the counters hold a flush where
    /// there is one.
    pub open spec fn can_queue(self, id: u64, event_id: u64, now: u64) -> bool {
        &&& now < u64::MAX
        &&& self.fills_batch(id) ==> self.noted(id, event_id, now).can_flush(
            self.managed[id].subscriber,
        )
    }

    /// The state after an event was queued for managed subscriptions, one
    /// after another.
    pub open spec fn queued_for(self, ids: Seq<u64>, event_id: u64, now: u64) -> EventsLedger
        decreases ids.len(),
    {
        if ids.len() == 0 {
            self
        } else {
            self.queued_for(ids.drop_last(), event_id, now).queued(ids.last(), event_id, now)
        }
    }

    /// The managed subscriptions that an event goes to.
    pub open spec fn recipients_of(self, event: Event, severity: u32) -> Seq<u64> {
        self.recipients(
            table::list_at(self.managed_ids, event.portfolio_id),
            event.event_type,
            severity,
            event.details.view(),
        )
    }

    /// The state after an event was emitted with a severity and queued for the
    /// managed subscriptions that it goes to.
    pub open spec fn dispatched(self, event: Event, severity: u32, now: u64) -> EventsLedger {
        let to = self.recipients_of(event, severity);
        let after = self.rated(event, severity).queued_for(to, event.event_id, now);
        EventsLedger {
            delivery_metrics: DeliveryMetrics {
                total_dispatched: (after.delivery_metrics.total_dispatched + 1) as u32,
                ..after.delivery_metrics
            },
            ..after
        }
    }

    /// Whether the counters hold the dispatch of an event.
    pub open spec fn can_dispatch(self, event: Event, severity: u32, now: u64) -> bool {
        &&& self.next_id < u64::MAX
        &&& self.delivery_metrics.total_dispatched < u32::MAX
        &&& self.rated(event, severity).can_queue_for(
            self.recipients_of(event, severity),
            event.event_id,
            now,
        )
    }

    /// Whether the counters hold a failed attempt at a delivery.
    pub open spec fn can_fail(self, subscriber: Address, event_id: u64, now: u64) -> bool {
        let records = table::list_at(self.deliveries, subscriber);
        let at = failing_at(records, event_id, subscriber);
        at < records.len() ==> {
            &&& now + subscriptions::backoff(records[at].attempts as nat) <= u64::MAX
            &&& records[at].attempts < u32::MAX
            &&& self.delivery_metrics.total_failed < u32::MAX
            &&& self.managed.contains_key(records[at].subscription_id)
                ==> self.managed[records[at].subscription_id].total_failed < u64::MAX
        }
    }

    /// Whether the counters hold the acknowledgement of a delivery.
    pub open spec fn can_acknowledge(self, subscriber: Address, event_id: u64, now: u64) -> bool {
        let records = table::list_at(self.deliveries, subscriber);
        let at = delivered_at(records, event_id);
        at < records.len() ==> {
            &&& self.delivery_metrics.total_acknowledged < u32::MAX
            &&& 0 <= latency(records[at], now)
            &&& self.delivery_metrics.latency_sum_secs + latency(records[at], now) <= u64::MAX
        }
    }

    /// Whether an event can be queued for managed subscriptions, one after
    /// another.
    pub open spec fn can_queue_for(self, ids: Seq<u64>, event_id: u64, now: u64) -> bool {
        forall|k: int|
            0 <= k < ids.len() ==> #[trigger] self.queued_for(
                ids.take(k),
                event_id,
                now,
            ).can_queue(ids[k], event_id, now)
    }
}

/// What is delivered is no longer due: delivering a second time delivers
/// nothing and changes no record.
pub proof fn nothing_is_delivered_twice(
    records: Seq<DeliveryRecord>,
    limit: u64,
    now: u64,
    later: u64,
)
    ensures
        due(all_served(records, limit, now), limit).len() == 0,
        all_served(all_served(records, limit, now), limit, later) == all_served(
            records,
            limit,
            now,
        ),
{
    let keep = |r: DeliveryRecord| is_due(r, limit);
    let after = all_served(records, limit, now);
    after.lemma_all_neg_filter_empty(keep);
    assert(all_served(after, limit, later) =~= after);
}

/// After a batch was flushed, nothing waits for the subscriber and their batch
/// is empty.
pub proof fn a_flush_leaves_nothing_waiting(ledger: EventsLedger, subscriber: Address, now: u64)
    requires
        table::list_at(ledger.batches, subscriber).len() > 0,
    ensures
        ({
            let after = ledger.flushing(subscriber, now);
            &&& table::list_at(after.batches, subscriber).len() == 0
            &&& forall|i: int|
                0 <= i < table::list_at(after.deliveries, subscriber).len() ==> (
                #[trigger] table::list_at(after.deliveries, subscriber)[i]).status
                    != DeliveryStatus::Pending
        }),
{
    let records = table::list_at(ledger.deliveries, subscriber);
    let after = ledger.flushing(subscriber, now);
    assert(table::list_at(after.deliveries, subscriber) == all_served(records, u64::MAX, now));
}

/// How many records there are under a subscriber of an event for a managed
/// subscription.
pub open spec fn records_of(
    ledger: EventsLedger,
    subscriber: Address,
    id: u64,
    event_id: u64,
) -> nat {
    count_of(table::list_at(ledger.deliveries, subscriber), id, event_id)
}

/// How many of the records are of an event for a managed subscription.
pub open spec fn count_of(records: Seq<DeliveryRecord>, id: u64, event_id: u64) -> nat {
    records.filter(|r: DeliveryRecord| r.subscription_id == id && r.event_id == event_id).len()
}

proof fn lemma_count_of_push(
    records: Seq<DeliveryRecord>,
    record: DeliveryRecord,
    id: u64,
    event_id: u64,
)
    ensures
        count_of(records.push(record), id, event_id) == count_of(records, id, event_id) + (
        if record.subscription_id == id && record.event_id == event_id {
            1nat
        } else {
            0nat
        }),
{
    reveal(Seq::filter);
    assert(records.push(record).drop_last() =~= records);
}

/// Delivery keeps records of what they are.
proof fn lemma_serving_keeps_count(
    records: Seq<DeliveryRecord>,
    limit: u64,
    now: u64,
    id: u64,
    event_id: u64,
)
    ensures
        count_of(all_served(records, limit, now), id, event_id) == count_of(records, id, event_id),
    decreases records.len(),
{
    reveal(Seq::filter);
    if records.len() > 0 {
        let before = records.drop_last();
        let last = records.last();
        lemma_serving_keeps_count(before, limit, now, id, event_id);
        assert(all_served(records, limit, now) =~= all_served(before, limit, now).push(
            served(last, limit, now),
        ));
        assert(records =~= before.push(last));
        lemma_count_of_push(all_served(before, limit, now), served(last, limit, now), id, event_id);
        lemma_count_of_push(before, last, id, event_id);
    } else {
        assert(all_served(records, limit, now) =~= records);
    }
}

/// Counting deliveries leaves subscriptions with whom they belong to.
proof fn lemma_credited_keeps_subscribers(
    managed: Map<u64, ManagedSubscription>,
    records: Seq<DeliveryRecord>,
    id: u64,
)
    ensures
        credited(managed, records).contains_key(id) == managed.contains_key(id),
        managed.contains_key(id) ==> credited(managed, records)[id].subscriber
            == managed[id].subscriber,
    decreases records.len(),
{
    if records.len() > 0 {
        lemma_credited_keeps_subscribers(managed, records.drop_last(), id);
    }
}

/// Queuing an event adds one record of it for the subscription.
proof fn lemma_queued(
    ledger: EventsLedger,
    to: u64,
    queued_event: u64,
    now: u64,
    subscriber: Address,
    id: u64,
    event_id: u64,
)
    requires
        ledger.managed.contains_key(to),
    ensures
        ({
            let after = ledger.queued(to, queued_event, now);
            &&& records_of(after, subscriber, id, event_id) == records_of(
                ledger,
                subscriber,
                id,
                event_id,
            ) + (if to == id && queued_event == event_id && ledger.managed[to].subscriber
                == subscriber {
                1nat
            } else {
                0nat
            })
            &&& forall|k: u64| #[trigger]
                after.managed.contains_key(k) == ledger.managed.contains_key(k)
            &&& forall|k: u64| #[trigger]
                ledger.managed.contains_key(k) ==> after.managed[k].subscriber
                    == ledger.managed[k].subscriber
        }),
{
    let owner = ledger.managed[to].subscriber;
    let noted = ledger.noted(to, queued_event, now);
    let after = ledger.queued(to, queued_event, now);
    let old_list = table::list_at(ledger.deliveries, owner);
    let new_list = table::list_at(noted.deliveries, owner);
    assert(new_list == old_list.push(new_list.last()));
    lemma_count_of_push(old_list, new_list.last(), id, event_id);
    assert(records_of(after, subscriber, id, event_id) == records_of(
        noted,
        subscriber,
        id,
        event_id,
    )) by {
        lemma_serving_keeps_count(new_list, u64::MAX, now, id, event_id);
    }
    let records = due(new_list, u64::MAX);
    assert forall|k: u64| #[trigger]
        after.managed.contains_key(k) == ledger.managed.contains_key(k) by {
        lemma_credited_keeps_subscribers(noted.managed, records, k);
    }
    assert forall|k: u64| #[trigger]
        ledger.managed.contains_key(k) implies after.managed[k].subscriber
        == ledger.managed[k].subscriber by {
        lemma_credited_keeps_subscribers(noted.managed, records, k);
    }
}

/// Queuing an event for several subscriptions adds one record for each.
proof fn lemma_queued_for(
    ledger: EventsLedger,
    to: Seq<u64>,
    queued_event: u64,
    now: u64,
    subscriber: Address,
    id: u64,
    event_id: u64,
)
    requires
        to.no_duplicates(),
        forall|k: int| 0 <= k < to.len() ==> ledger.managed.contains_key(#[trigger] to[k]),
    ensures
        ({
            let after = ledger.queued_for(to, queued_event, now);
            &&& records_of(after, subscriber, id, event_id) == records_of(
                ledger,
                subscriber,
                id,
                event_id,
            ) + (if to.contains(id) && queued_event == event_id && ledger.managed[id].subscriber
                == subscriber {
                1nat
            } else {
                0nat
            })
            &&& forall|k: u64| #[trigger]
                after.managed.contains_key(k) == ledger.managed.contains_key(k)
            &&& forall|k: u64| #[trigger]
                ledger.managed.contains_key(k) ==> after.managed[k].subscriber
                    == ledger.managed[k].subscriber
        }),
    decreases to.len(),
{
    if to.len() > 0 {
        let before = to.drop_last();
        let last = to.last();
        assert forall|k: int| 0 <= k < before.len() implies ledger.managed.contains_key(
            #[trigger] before[k],
        ) by {
            assert(before[k] == to[k]);
        }
        assert(to[to.len() - 1] == last);
        lemma_queued_for(ledger, before, queued_event, now, subscriber, id, event_id);
        let middle = ledger.queued_for(before, queued_event, now);
        assert(middle.managed.contains_key(last));
        lemma_queued(middle, last, queued_event, now, subscriber, id, event_id);
        let after = ledger.queued_for(to, queued_event, now);
        assert forall|k: u64| #[trigger]
            ledger.managed.contains_key(k) implies after.managed[k].subscriber
            == ledger.managed[k].subscriber by {
            assert(middle.managed.contains_key(k));
        }
        assert forall|k: u64| #[trigger]
            after.managed.contains_key(k) == ledger.managed.contains_key(k) by {
            assert(middle.managed.contains_key(k) == ledger.managed.contains_key(k));
        }
        assert(to.contains(last));
        if before.contains(id) {
            let k = choose|k: int| 0 <= k < before.len() && before[k] == id;
            assert(to[k] == id);
        } else if to.contains(id) {
            let k = choose|k: int| 0 <= k < to.len() && to[k] == id;
            if k < before.len() {
                assert(before[k] == id);
            }
        }
        assert(to.contains(id) == (before.contains(id) || id == last));
        assert(!(before.contains(id) && id == last));
    }
}

proof fn lemma_filter_keeps_apart(ids: Seq<u64>, keep: spec_fn(u64) -> bool)
    requires
        ids.no_duplicates(),
    ensures
        ids.filter(keep).no_duplicates(),
    decreases ids.len(),
{
    reveal(Seq::filter);
    if ids.len() > 0 {
        let before = ids.drop_last();
        lemma_filter_keeps_apart(before, keep);
        let kept = before.filter(keep);
        assert forall|i: int| 0 <= i < kept.len() implies #[trigger] kept[i] != ids.last() by {
            assert(kept.contains(kept[i]));
            before.lemma_filter_contains_rev(keep, kept[i]);
            let k = choose|k: int| 0 <= k < before.len() && before[k] == kept[i];
            assert(ids[k] == kept[i]);
        }
    }
}

/// An event that is dispatched leaves exactly one new record for each managed
/// subscription that it goes to, under whom the subscription belongs to, and
/// none for any other; no other event gets a record.
pub proof fn each_recipient_gets_one_record(
    ledger: EventsLedger,
    event: Event,
    severity: u32,
    now: u64,
    subscriber: Address,
    id: u64,
    event_id: u64,
)
    requires
        ledger.wf(),
    ensures
        ({
            let to = ledger.recipients_of(event, severity);
            let after = ledger.dispatched(event, severity, now);
            records_of(after, subscriber, id, event_id) == records_of(
                ledger,
                subscriber,
                id,
                event_id,
            ) + (if to.contains(id) && event.event_id == event_id && ledger.managed[id].subscriber
                == subscriber {
                1nat
            } else {
                0nat
            })
        }),
{
    let ids = table::list_at(ledger.managed_ids, event.portfolio_id);
    let keep = |id: u64|
        ledger.managed.contains_key(id) && ledger.managed[id].status == SubscriptionStatus::Active
            && ledger.managed[id].filter.passes(event.event_type, severity, event.details.view());
    let to = ledger.recipients(ids, event.event_type, severity, event.details.view());
    assert(to == ids.filter(keep));
    assert(ids.no_duplicates());
    lemma_filter_keeps_apart(ids, keep);
    assert forall|k: int| 0 <= k < to.len() implies ledger.managed.contains_key(
        #[trigger] to[k],
    ) by {
        ids.lemma_filter_pred(keep, k);
    }
    let rated = ledger.rated(event, severity);
    lemma_queued_for(rated, to, event.event_id, now, subscriber, id, event_id);
}

proof fn lemma_count_push(records: Seq<DeliveryRecord>, record: DeliveryRecord, id: u64)
    ensures
        count_for(records.push(record), id) == count_for(records, id) + (if record.subscription_id
            == id {
            1int
        } else {
            0
        }),
{
    reveal(Seq::filter);
    assert(records.push(record).drop_last() =~= records);
}

/// Counting deliveries changes nothing but the counters, and each by the
/// deliveries to its subscription.
proof fn lemma_credited(managed: Map<u64, ManagedSubscription>, records: Seq<DeliveryRecord>)
    requires
        forall|id: u64| #[trigger]
            managed.contains_key(id) ==> managed[id].total_delivered + count_for(records, id)
                <= u64::MAX,
    ensures
        credited(managed, records).dom() == managed.dom(),
        forall|id: u64| #[trigger]
            managed.contains_key(id) ==> credited(managed, records)[id] == (ManagedSubscription {
                total_delivered: (managed[id].total_delivered + count_for(records, id)) as u64,
                ..managed[id]
            }),
    decreases records.len(),
{
    reveal(Seq::filter);
    if records.len() > 0 {
        let rest = records.drop_last();
        assert(rest.push(records.last()) =~= records);
        assert forall|id: u64| #[trigger] managed.contains_key(id) implies
            managed[id].total_delivered + count_for(rest, id) <= u64::MAX by {
            lemma_count_push(rest, records.last(), id);
        }
        lemma_credited(managed, rest);
        assert(credited(managed, records).dom() =~= managed.dom());
        assert forall|id: u64| #[trigger] managed.contains_key(id) implies credited(
            managed,
            records,
        )[id] == (ManagedSubscription {
            total_delivered: (managed[id].total_delivered + count_for(records, id)) as u64,
            ..managed[id]
        }) by {
            lemma_count_push(rest, records.last(), id);
        }
    }
}

impl EventsContract {
    // -----------------------------------------------------------------------
    // Managed subscriptions
    // -----------------------------------------------------------------------

    /// Create a managed subscription; gives its id.
    pub fn create_subscription(
        &mut self,
        portfolio_id: Symbol,
        subscriber: Address,
        filter: EventFilter,
        prefs: SubscriptionPreferences,
        now: u64,
    ) -> (r: Result<u64, Error>)
        requires
            old(self).wf(),
            old(self)@.sub_counter < u64::MAX,
        ensures
            final(self).wf(),
            r == Ok::<u64, Error>((old(self)@.sub_counter + 1) as u64),
            ({
                let id = (old(self)@.sub_counter + 1) as u64;
                final(self)@ == (EventsLedger {
                    sub_counter: id,
                    managed_ids: old(self)@.managed_ids.insert(
                        portfolio_id,
                        table::list_at(old(self)@.managed_ids, portfolio_id).push(id),
                    ),
                    managed: old(self)@.managed.insert(
                        id,
                        ManagedSubscription {
                            id,
                            subscriber,
                            portfolio_id,
                            filter,
                            prefs,
                            created_at: now,
                            last_event_received_at: None,
                            status: SubscriptionStatus::Active,
                            total_delivered: 0,
                            total_failed: 0,
                        },
                    ),
                    ..old(self)@
                }).published(
                    Notice::SubscriptionCreated { portfolio_id, subscription_id: id },
                )
            }),
    {
        let id = self.sub_counter + 1;
        self.sub_counter = id;
        let sub = ManagedSubscription {
            id,
            subscriber,
            portfolio_id,
            filter,
            prefs,
            created_at: now,
            last_event_received_at: None,
            status: SubscriptionStatus::Active,
            total_delivered: 0,
            total_failed: 0,
        };
        table::append(&mut self.managed_ids, portfolio_id, id);
        self.managed.set(id, sub);
        self.outbox.push(Notice::SubscriptionCreated { portfolio_id, subscription_id: id });
        Ok(id)
    }

    /// Change the delivery preferences of a managed subscription.
    pub fn update_subscription_prefs(
        &mut self,
        subscription_id: u64,
        prefs: SubscriptionPreferences,
    ) -> (r: Result<Symbol, Error>)
        requires
            old(self).wf(),
        ensures
            final(self).wf(),
            ({
                let ledger = old(self)@;
                let sub = ledger.managed[subscription_id];
                if !ledger.managed.contains_key(subscription_id) {
                    r == Err::<Symbol, Error>(Error::NotFound) && final(self)@ == ledger
                } else if sub.status == SubscriptionStatus::Cancelled {
                    r == Err::<Symbol, Error>(Error::InvalidState) && final(self)@ == ledger
                } else {
                    r == Ok::<Symbol, Error>(values::symbol_of("OK"@)) && final(self)@ == (
                    EventsLedger {
                        managed: ledger.managed.insert(
                            subscription_id,
                            ManagedSubscription { prefs, ..sub },
                        ),
                        ..ledger
                    })
                }
            }),
    {
        let ghost ledger = self@;
        match self.managed.get(&subscription_id) {
            Some(sub) => {
                if let SubscriptionStatus::Cancelled = sub.status {
                    return Err(Error::InvalidState);
                }
            },
            None => {
                return Err(Error::NotFound);
            },
        }
        if let Some(mut sub) = self.managed.take(&subscription_id) {
            sub.prefs = prefs;
            self.managed.set(subscription_id, sub);
            assert(self@.managed =~= ledger.managed.insert(
                subscription_id,
                ManagedSubscription { prefs, ..ledger.managed[subscription_id] },
            ));
        }
        Ok(Symbol::from_text("OK"))
    }

    /// Stop the delivery of events for a time.
    pub fn pause_subscription(&mut self, subscription_id: u64) -> (r: Result<Symbol, Error>)
        requires
            old(self).wf(),
        ensures
            final(self).wf(),
            r == status_answer(old(self)@, subscription_id, SubscriptionStatus::Paused),
            final(self)@ == with_status(old(self)@, subscription_id, SubscriptionStatus::Paused),
    {
        self.set_subscription_status(subscription_id, SubscriptionStatus::Paused)
    }

    /// Take the delivery of events up again.
    pub fn resume_subscription(&mut self, subscription_id: u64) -> (r: Result<Symbol, Error>)
        requires
            old(self).wf(),
        ensures
            final(self).wf(),
            r == status_answer(old(self)@, subscription_id, SubscriptionStatus::Active),
            final(self)@ == with_status(old(self)@, subscription_id, SubscriptionStatus::Active),
    {
        self.set_subscription_status(subscription_id, SubscriptionStatus::Active)
    }

    /// End a managed subscription for good.
    pub fn cancel_subscription(&mut self, subscription_id: u64) -> (r: Result<Symbol, Error>)
        requires
            old(self).wf(),
        ensures
            final(self).wf(),
            r == status_answer(old(self)@, subscription_id, SubscriptionStatus::Cancelled),
            final(self)@ == with_status(old(self)@, subscription_id, SubscriptionStatus::Cancelled),
    {
        self.set_subscription_status(subscription_id, SubscriptionStatus::Cancelled)
    }

    fn set_subscription_status(&mut self, subscription_id: u64, status: SubscriptionStatus) -> (r:
        Result<Symbol, Error>)
        requires
            old(self).wf(),
        ensures
            final(self).wf(),
            r == status_answer(old(self)@, subscription_id, status),
            final(self)@ == with_status(old(self)@, subscription_id, status),
    {
        let ghost ledger = self@;
        match self.managed.get(&subscription_id) {
            Some(sub) => {
                if sub.status == SubscriptionStatus::Cancelled && status
                    != SubscriptionStatus::Cancelled {
                    return Err(Error::InvalidState);
                }
            },
            None => {
                return Err(Error::NotFound);
            },
        }
        if let Some(mut sub) = self.managed.take(&subscription_id) {
            sub.status = status;
            self.managed.set(subscription_id, sub);
            assert(self@.managed =~= with_status(ledger, subscription_id, status).managed);
        }
        Ok(Symbol::from_text("OK"))
    }

    /// A managed subscription.
    pub fn get_managed_subscription(&self, subscription_id: u64) -> (sub: Option<
        &ManagedSubscription,
    >)
        ensures
            sub is Some <==> self@.managed.contains_key(subscription_id),
            sub matches Some(s) ==> *s == self@.managed[subscription_id],
    {
        self.managed.get(&subscription_id)
    }

    /// The ids of the managed subscriptions to a portfolio.
    pub fn list_managed_subscriptions(&self, portfolio_id: &Symbol) -> (ids: Vec<u64>)
        ensures
            ids@ == table::list_at(self@.managed_ids, *portfolio_id),
    {
        table::list_of(&self.managed_ids, portfolio_id)
    }

    // -----------------------------------------------------------------------
    // Delivery
    // -----------------------------------------------------------------------

    /// Emit an event with a severity and queue it for every managed
    /// subscription that it passes the filter of; gives the event's id.
    pub fn dispatch_event(
        &mut self,
        portfolio_id: Symbol,
        event_type: PortfolioEventType,
        severity: u32,
        details: OrderedTable<Symbol, Vec<u8>>,
        metadata: Vec<u8>,
        now: u64,
    ) -> (r: Result<u64, Error>)
        requires
            old(self).wf(),
            details.wf(),
            old(self)@.can_dispatch(
                Event {
                    event_id: (old(self)@.next_id + 1) as u64,
                    portfolio_id,
                    event_type,
                    timestamp: now,
                    details,
                    metadata,
                },
                severity,
                now,
            ),
        ensures
            final(self).wf(),
            r == Ok::<u64, Error>((old(self)@.next_id + 1) as u64),
            final(self)@ == old(self)@.dispatched(
                Event {
                    event_id: (old(self)@.next_id + 1) as u64,
                    portfolio_id,
                    event_type,
                    timestamp: now,
                    details,
                    metadata,
                },
                severity,
                now,
            ),
    {
        let dispatched = self.try_dispatch_event(
            portfolio_id,
            event_type,
            severity,
            details,
            metadata,
            now,
        );
        assert(dispatched is Some);
        match dispatched {
            Some(event_id) => Ok(event_id),
            None => Err(Error::InvalidState),
        }
    }

    /// Dispatch an event where the counters hold that. Where they do not, there
    /// is no answer, and what was done until then is of no use.
    pub fn try_dispatch_event(
        &mut self,
        portfolio_id: Symbol,
        event_type: PortfolioEventType,
        severity: u32,
        details: OrderedTable<Symbol, Vec<u8>>,
        metadata: Vec<u8>,
        now: u64,
    ) -> (r: Option<u64>)
        requires
            old(self).wf(),
            details.wf(),
        ensures
            final(self).wf(),
            ({
                let event = Event {
                    event_id: (old(self)@.next_id + 1) as u64,
                    portfolio_id,
                    event_type,
                    timestamp: now,
                    details,
                    metadata,
                };
                match r {
                    Some(id) => old(self)@.can_dispatch(event, severity, now) && id
                        == event.event_id && final(self)@ == old(self)@.dispatched(
                        event,
                        severity,
                        now,
                    ),
                    None => !old(self)@.can_dispatch(event, severity, now),
                }
            }),
    {
        if self.next_id == u64::MAX || self.delivery_metrics.total_dispatched == u32::MAX {
            return None;
        }
        let ghost ledger = self@;
        let to = self.find_recipients(&portfolio_id, &event_type, severity, &details);
        let event_id = self.store_event(portfolio_id, event_type, details, metadata, now);
        self.severities.set(event_id, severity);
        let ghost rated = self@;
        let mut i: usize = 0;
        assert(to@.take(0) =~= Seq::<u64>::empty());
        while i < to.len()
            invariant
                i <= to@.len(),
                self.wf(),
                self@ == rated.queued_for(to@.take(i as int), event_id, now),
                forall|k: int|
                    0 <= k < i ==> #[trigger] rated.queued_for(to@.take(k), event_id, now).can_queue(
                        to@[k],
                        event_id,
                        now,
                    ),
                self@.delivery_metrics.total_dispatched == rated.delivery_metrics.total_dispatched,
                forall|k: int|
                    0 <= k < to@.len() ==> rated.managed.contains_key(#[trigger] to@[k]),
                self@.managed.dom() == rated.managed.dom(),
                rated.delivery_metrics.total_dispatched < u32::MAX,
                ({
                    let event = Event {
                        event_id: (ledger.next_id + 1) as u64,
                        portfolio_id,
                        event_type,
                        timestamp: now,
                        details,
                        metadata,
                    };
                    &&& event_id == event.event_id
                    &&& rated == ledger.rated(event, severity)
                    &&& to@ == ledger.recipients_of(event, severity)
                }),
                ledger == old(self)@,
            decreases to@.len() - i,
        {
            let sub_id = to[i];
            proof {
                assert(to@.take(i + 1).drop_last() =~= to@.take(i as int));
                assert(rated.managed.contains_key(to@[i as int]));
                assert(self@.managed.contains_key(sub_id));
            }
            if !self.try_queue(sub_id, event_id, now) {
                assert(!rated.queued_for(to@.take(i as int), event_id, now).can_queue(
                    to@[i as int],
                    event_id,
                    now,
                ));
                return None;
            }
            i += 1;
        }
        assert(to@.take(i as int) =~= to@);
        let ghost queued = self@;
        self.delivery_metrics.total_dispatched = self.delivery_metrics.total_dispatched + 1;
        proof {
            contract::lemma_wf_kept(queued, self@);
        }
        Some(event_id)
    }

    /// The managed subscriptions to a portfolio that an event goes to.
    fn find_recipients(
        &self,
        portfolio_id: &Symbol,
        event_type: &PortfolioEventType,
        severity: u32,
        details: &OrderedTable<Symbol, Vec<u8>>,
    ) -> (to: Vec<u64>)
        requires
            details.wf(),
        ensures
            to@ == self@.recipients(
                table::list_at(self@.managed_ids, *portfolio_id),
                *event_type,
                severity,
                details.view(),
            ),
            forall|k: int| 0 <= k < to@.len() ==> self@.managed.contains_key(#[trigger] to@[k]),
    {
        let ids = self.list_managed_subscriptions(portfolio_id);
        let ghost keep = |id: u64|
            self@.managed.contains_key(id) && self@.managed[id].status
                == SubscriptionStatus::Active && self@.managed[id].filter.passes(
                *event_type,
                severity,
                details.view(),
            );
        let mut to: Vec<u64> = Vec::new();
        let mut i: usize = 0;
        proof {
            table::lemma_filter_none(ids@, keep);
        }
        while i < ids.len()
            invariant
                i <= ids@.len(),
                details.wf(),
                keep == (|id: u64|
                    self@.managed.contains_key(id) && self@.managed[id].status
                        == SubscriptionStatus::Active && self@.managed[id].filter.passes(
                        *event_type,
                        severity,
                        details.view(),
                    )),
                to@ == ids@.take(i as int).filter(keep),
                forall|k: int| 0 <= k < to@.len() ==> self@.managed.contains_key(#[trigger] to@[k]),
            decreases ids@.len() - i,
        {
            let id = ids[i];
            proof {
                table::lemma_filter_step(ids@, i as int, keep);
            }
            if let Some(sub) = self.managed.get(&id) {
                if sub.status.is_receives_events() && sub.filter.matches(
                    event_type,
                    severity,
                    details,
                ) {
                    to.push(id);
                }
            }
            i += 1;
        }
        assert(ids@.take(i as int) =~= ids@);
        to
    }

    /// Queue an event for one managed subscription where the counters hold
    /// that.
    fn try_queue(&mut self, sub_id: u64, event_id: u64, now: u64) -> (done: bool)
        requires
            old(self).wf(),
            old(self)@.managed.contains_key(sub_id),
        ensures
            final(self).wf(),
            done == old(self)@.can_queue(sub_id, event_id, now),
            done ==> final(self)@ == old(self)@.queued(sub_id, event_id, now),
            final(self)@.managed.dom() == old(self)@.managed.dom(),
            final(self)@.delivery_metrics.total_dispatched == old(
                self,
            )@.delivery_metrics.total_dispatched,
    {
        if now == u64::MAX {
            return false;
        }
        let ghost ledger = self@;
        let mut subscriber = Address { is_contract: false, hi: 0, lo: 0 };
        let mut prefs = SubscriptionPreferences { mode: DeliveryMode::Immediate, batch_size: 0 };
        if let Some(mut sub) = self.managed.take(&sub_id) {
            subscriber = sub.subscriber;
            prefs = sub.prefs;
            sub.last_event_received_at = Some(now);
            self.managed.set(sub_id, sub);
        }
        proof {
            contract::lemma_wf_kept(ledger, self@);
            assert(self@.managed =~= ledger.noted(sub_id, event_id, now).managed);
            assert(self@.managed.dom() =~= ledger.managed.dom());
        }
        self.enqueue_delivery(
            DeliveryRecord {
                event_id,
                subscription_id: sub_id,
                subscriber,
                status: DeliveryStatus::Pending,
                attempts: 0,
                next_retry_at: now + subscriptions::backoff_delay(0),
                delivered_at: None,
                acked_at: None,
            },
        );
        if let DeliveryMode::Batch = prefs.mode {
            let ghost before = self@;
            table::append(&mut self.batches, subscriber, event_id);
            assert(self@.batches.contains_key(subscriber));
            assert(self@.batches[subscriber] == self.batches@[subscriber]@);
            let size: usize = match self.batches.get(&subscriber) {
                Some(batch) => batch.len(),
                None => 0,
            };
            let ghost noted = self@;
            proof {
                contract::lemma_wf_kept(before, noted);
                assert(noted == ledger.noted(sub_id, event_id, now));
            }
            if size >= prefs.batch_size as usize {
                assert(ledger.fills_batch(sub_id));
                if !self.can_flush(&subscriber) {
                    return false;
                }
                proof {
                    lemma_credited(
                        noted.managed,
                        due(table::list_at(noted.deliveries, subscriber), u64::MAX),
                    );
                }
                let flushed = self.flush_batch(subscriber, now);
            }
        }
        true
    }

    /// Add a record to those of its subscriber.
    fn enqueue_delivery(&mut self, record: DeliveryRecord)
        requires
            old(self).wf(),
        ensures
            final(self).wf(),
            final(self)@ == (EventsLedger {
                deliveries: old(self)@.deliveries.insert(
                    record.subscriber,
                    table::list_at(old(self)@.deliveries, record.subscriber).push(record),
                ),
                ..old(self)@
            }),
    {
        let ghost ledger = self@;
        table::append(&mut self.deliveries, record.subscriber, record);
        proof {
            contract::lemma_wf_kept(ledger, self@);
        }
    }

    /// Count a delivery for a managed subscription.
    fn credit(&mut self, subscription_id: u64)
        requires
            old(self).wf(),
            old(self)@.managed.contains_key(subscription_id)
                ==> old(self)@.managed[subscription_id].total_delivered < u64::MAX,
        ensures
            final(self).wf(),
            final(self)@ == (EventsLedger { managed: final(self)@.managed, ..old(self)@ }),
            final(self)@.managed == (if old(self)@.managed.contains_key(subscription_id) {
                old(self)@.managed.insert(
                    subscription_id,
                    ManagedSubscription {
                        total_delivered: (old(self)@.managed[subscription_id].total_delivered
                            + 1) as u64,
                        ..old(self)@.managed[subscription_id]
                    },
                )
            } else {
                old(self)@.managed
            }),
    {
        let ghost ledger = self@;
        if let Some(mut sub) = self.managed.take(&subscription_id) {
            sub.total_delivered = sub.total_delivered + 1;
            self.managed.set(subscription_id, sub);
            assert(self@.managed =~= ledger.managed.insert(
                subscription_id,
                ManagedSubscription {
                    total_delivered: (ledger.managed[subscription_id].total_delivered + 1) as u64,
                    ..ledger.managed[subscription_id]
                },
            ));
        } else {
            assert(self@.managed =~= ledger.managed);
        }
    }

    /// Deliver everything that is due to a subscriber; gives the ids of the
    /// events.
    pub fn deliver_pending(&mut self, subscriber: Address, now: u64) -> (r: Result<Vec<u64>, Error>)
        requires
            old(self).wf(),
            old(self)@.can_deliver(subscriber, now),
        ensures
            final(self).wf(),
            r is Ok,
            r->Ok_0@ == event_ids(due(table::list_at(old(self)@.deliveries, subscriber), now)),
            final(self)@ == old(self)@.delivering(subscriber, now, now),
    {
        Ok(self.deliver(subscriber, now, now))
    }

    /// Deliver, at `now`, what is due to a subscriber by `limit`; gives the ids
    /// of the events.
    fn deliver(&mut self, subscriber: Address, limit: u64, now: u64) -> (delivered: Vec<u64>)
        requires
            old(self).wf(),
            old(self)@.can_deliver(subscriber, limit),
        ensures
            final(self).wf(),
            delivered@ == event_ids(due(table::list_at(old(self)@.deliveries, subscriber), limit)),
            final(self)@ == old(self)@.delivering(subscriber, limit, now),
    {
        let ghost ledger = self@;
        let records = table::list_of(&self.deliveries, &subscriber);
        let ghost keep = |rec: DeliveryRecord| is_due(rec, limit);
        let ghost retried = |rec: DeliveryRecord| rec.attempts > 0;
        let mut updated: Vec<DeliveryRecord> = Vec::new();
        let mut delivered: Vec<u64> = Vec::new();
        let mut retries: u32 = 0;
        let mut i: usize = 0;
        proof {
            table::lemma_filter_none(records@, keep);
            let none = records@.take(0).filter(keep);
            assert(none =~= Seq::<DeliveryRecord>::empty());
            assert(event_ids(none) =~= Seq::<u64>::empty());
            assert(self@.outbox =~= ledger.outbox + delivery_notices(subscriber, none));
            assert(updated@ =~= all_served(records@.take(0), limit, now));
            reveal(Seq::filter);
        }
        while i < records.len()
            invariant
                i <= records@.len(),
                self.wf(),
                ledger.wf(),
                records@ == table::list_at(ledger.deliveries, subscriber),
                keep == (|rec: DeliveryRecord| is_due(rec, limit)),
                ledger.can_deliver(subscriber, limit),
                updated@ == all_served(records@.take(i as int), limit, now),
                ({
                    let so_far = records@.take(i as int).filter(keep);
                    &&& so_far.len() <= due(records@, limit).len()
                    &&& delivered@ == event_ids(so_far)
                    &&& retries == tried_before(so_far)
                    &&& retries <= so_far.len()
                    &&& self@ == (EventsLedger {
                        managed: credited(ledger.managed, so_far),
                        outbox: ledger.outbox + delivery_notices(subscriber, so_far),
                        ..ledger
                    })
                }),
            decreases records@.len() - i,
        {
            let ghost so_far = records@.take(i as int).filter(keep);
            let mut rec = records[i];
            let ghost before = rec;
            proof {
                table::lemma_filter_step(records@, i as int, keep);
                lemma_due_prefix(records@, limit, i + 1);
                assert(records@.take(i + 1).filter(keep).len() <= due(records@, limit).len());
                assert(all_served(records@.take(i + 1), limit, now) =~= all_served(
                    records@.take(i as int),
                    limit,
                    now,
                ).push(served(before, limit, now)));
            }
            if rec.status == DeliveryStatus::Pending && rec.next_retry_at <= limit {
                proof {
                    let all = so_far.push(before);
                    assert(all.drop_last() =~= so_far);
                    reveal(Seq::filter);
                    assert(event_ids(all) =~= event_ids(so_far).push(before.event_id));
                    assert(delivery_notices(subscriber, all) =~= delivery_notices(
                        subscriber,
                        so_far,
                    ).push(
                        Notice::Delivered {
                            subscriber,
                            event_id: before.event_id,
                            subscription_id: before.subscription_id,
                        },
                    ));
                    let whole = due(records@, limit);
                    assert(all == whole.take(all.len() as int));
                    assert(so_far =~= whole.take(so_far.len() as int));
                    assert(all[so_far.len() as int] == before);
                    assert(whole[so_far.len() as int] == before);
                    assert forall|id: u64| #[trigger] ledger.managed.contains_key(id) implies
                        ledger.managed[id].total_delivered + count_for(so_far, id) <= u64::MAX by {
                        lemma_count_prefix(whole, id, so_far.len() as int);
                    }
                    lemma_credited(ledger.managed, so_far);
                }
                if rec.attempts > 0 {
                    retries = retries + 1;
                }
                rec.attempts = rec.attempts + 1;
                rec.status = DeliveryStatus::Delivered;
                rec.delivered_at = Some(now);
                self.outbox.push(
                    Notice::Delivered {
                        subscriber,
                        event_id: rec.event_id,
                        subscription_id: rec.subscription_id,
                    },
                );
                delivered.push(rec.event_id);
                proof {
                    let id = before.subscription_id;
                    if self@.managed.contains_key(id) {
                        assert(ledger.managed.contains_key(id));
                        lemma_count_push(so_far, before, id);
                        lemma_count_prefix(due(records@, limit), id, so_far.len() as int + 1);
                    }
                }
                self.credit(rec.subscription_id);
                assert(self@.outbox =~= ledger.outbox + delivery_notices(
                    subscriber,
                    so_far.push(before),
                ));
            }
            updated.push(rec);
            i += 1;
        }
        assert(records@.take(i as int) =~= records@);
        if delivered.len() > 0 {
            self.delivery_metrics.total_delivered = self.delivery_metrics.total_delivered
                + delivered.len() as u32;
            self.delivery_metrics.total_retry_attempts =
            self.delivery_metrics.total_retry_attempts.saturating_add(retries);
        }
        table::put_list(&mut self.deliveries, subscriber, updated);
        proof {
            lemma_credited(ledger.managed, due(records@, limit));
            contract::lemma_wf_kept(ledger, self@);
        }
        delivered
    }

    /// Report that an attempt to deliver an event failed; the next attempt is
    /// due after a wait that grows with the number of attempts.
    pub fn mark_delivery_failed(&mut self, subscriber: Address, event_id: u64, now: u64) -> (r:
        Result<Symbol, Error>)
        requires
            old(self).wf(),
            old(self)@.can_fail(subscriber, event_id, now),
        ensures
            final(self).wf(),
            ({
                let ledger = old(self)@;
                let records = table::list_at(ledger.deliveries, subscriber);
                let at = failing_at(records, event_id, subscriber);
                if at == records.len() {
                    r == Err::<Symbol, Error>(Error::NotFound) && final(self)@ == ledger
                } else {
                    let id = records[at].subscription_id;
                    r == Ok::<Symbol, Error>(values::symbol_of("OK"@)) && final(self)@ == (
                    EventsLedger {
                        deliveries: ledger.deliveries.insert(
                            subscriber,
                            records.update(at, failed(records[at], now)),
                        ),
                        delivery_metrics: DeliveryMetrics {
                            total_failed: (ledger.delivery_metrics.total_failed + 1) as u32,
                            ..ledger.delivery_metrics
                        },
                        managed: if ledger.managed.contains_key(id) {
                            ledger.managed.insert(
                                id,
                                ManagedSubscription {
                                    total_failed: (ledger.managed[id].total_failed + 1) as u64,
                                    ..ledger.managed[id]
                                },
                            )
                        } else {
                            ledger.managed
                        },
                        ..ledger
                    }).published(Notice::DeliveryFailed { subscriber, event_id })
                }
            }),
    {
        let ghost ledger = self@;
        let mut records = table::list_of(&self.deliveries, &subscriber);
        let ghost list = records@;
        let mut at: usize = 0;
        while at < records.len() && !(records[at].event_id == event_id && records[at].subscriber
            == subscriber && records[at].status == DeliveryStatus::Pending)
            invariant
                at <= records@.len(),
                records@ == list,
                forall|j: int|
                    0 <= j < at ==> !is_failing(#[trigger] records@[j], event_id, subscriber),
            decreases records@.len() - at,
        {
            at += 1;
        }
        proof {
            lemma_failing_at(list, event_id, subscriber, at as int);
        }
        if at == records.len() {
            return Err(Error::NotFound);
        }
        let mut rec = records[at];
        rec.attempts = rec.attempts + 1;
        rec.next_retry_at = now + subscriptions::backoff_delay(rec.attempts - 1);
        self.delivery_metrics.total_failed = self.delivery_metrics.total_failed + 1;
        let id = rec.subscription_id;
        if let Some(mut sub) = self.managed.take(&id) {
            sub.total_failed = sub.total_failed + 1;
            self.managed.set(id, sub);
            assert(self@.managed =~= ledger.managed.insert(
                id,
                ManagedSubscription {
                    total_failed: (ledger.managed[id].total_failed + 1) as u64,
                    ..ledger.managed[id]
                },
            ));
        } else {
            assert(self@.managed =~= ledger.managed);
        }
        records.set(at, rec);
        table::put_list(&mut self.deliveries, subscriber, records);
        self.outbox.push(Notice::DeliveryFailed { subscriber, event_id });
        Ok(Symbol::from_text("OK"))
    }

    /// Acknowledge the receipt of an event that was delivered.
    pub fn acknowledge(&mut self, subscriber: Address, event_id: u64, now: u64) -> (r: Result<
        Symbol,
        Error,
    >)
        requires
            old(self).wf(),
            old(self)@.can_acknowledge(subscriber, event_id, now),
        ensures
            final(self).wf(),
            ({
                let ledger = old(self)@;
                let records = table::list_at(ledger.deliveries, subscriber);
                let at = delivered_at(records, event_id);
                if !ledger.deliveries.contains_key(subscriber) {
                    r == Err::<Symbol, Error>(Error::NotFound) && final(self)@ == ledger
                } else if at == records.len() {
                    r == Err::<Symbol, Error>(Error::InvalidState) && final(self)@ == ledger
                } else {
                    r == Ok::<Symbol, Error>(values::symbol_of("OK"@)) && final(self)@ == (
                    EventsLedger {
                        deliveries: ledger.deliveries.insert(
                            subscriber,
                            records.update(
                                at,
                                DeliveryRecord {
                                    status: DeliveryStatus::Acknowledged,
                                    acked_at: Some(now),
                                    ..records[at]
                                },
                            ),
                        ),
                        delivery_metrics: DeliveryMetrics {
                            total_acknowledged: (ledger.delivery_metrics.total_acknowledged
                                + 1) as u32,
                            latency_sum_secs: (ledger.delivery_metrics.latency_sum_secs + latency(
                                records[at],
                                now,
                            )) as u64,
                            ..ledger.delivery_metrics
                        },
                        ..ledger
                    })
                }
            }),
    {
        if !self.deliveries.has(&subscriber) {
            return Err(Error::NotFound);
        }
        let mut records = table::list_of(&self.deliveries, &subscriber);
        let ghost list = records@;
        let mut at: usize = 0;
        while at < records.len() && !(records[at].event_id == event_id && records[at].status
            == DeliveryStatus::Delivered)
            invariant
                at <= records@.len(),
                records@ == list,
                forall|j: int| 0 <= j < at ==> !is_delivered(#[trigger] records@[j], event_id),
            decreases records@.len() - at,
        {
            at += 1;
        }
        proof {
            lemma_delivered_at(list, event_id, at as int);
        }
        if at == records.len() {
            return Err(Error::InvalidState);
        }
        let mut rec = records[at];
        rec.status = DeliveryStatus::Acknowledged;
        rec.acked_at = Some(now);
        let since: u64 = match rec.delivered_at {
            Some(t) => t,
            None => now,
        };
        self.delivery_metrics.total_acknowledged = self.delivery_metrics.total_acknowledged + 1;
        self.delivery_metrics.latency_sum_secs = self.delivery_metrics.latency_sum_secs + (now
            - since);
        records.set(at, rec);
        table::put_list(&mut self.deliveries, subscriber, records);
        Ok(Symbol::from_text("OK"))
    }

    /// Deliver everything that waits for a subscriber, due or not, and empty
    /// their batch; gives the ids of the events. Without a batch nothing
    /// happens.
    pub fn flush_batch(&mut self, subscriber: Address, now: u64) -> (r: Result<Vec<u64>, Error>)
        requires
            old(self).wf(),
            old(self)@.can_flush(subscriber),
        ensures
            final(self).wf(),
            r is Ok,
            final(self)@ == old(self)@.flushing(subscriber, now),
            r->Ok_0@ == (if table::list_at(old(self)@.batches, subscriber).len() == 0 {
                Seq::<u64>::empty()
            } else {
                event_ids(due(table::list_at(old(self)@.deliveries, subscriber), u64::MAX))
            }),
    {
        let size: usize = match self.batches.get(&subscriber) {
            Some(batch) => batch.len(),
            None => 0,
        };
        assert(size == table::list_at(self@.batches, subscriber).len());
        if size == 0 {
            let none: Vec<u64> = Vec::new();
            assert(none@ =~= Seq::<u64>::empty());
            return Ok(none);
        }
        let flushed = self.deliver(subscriber, u64::MAX, now);
        let ghost after = self@;
        self.batches.take(&subscriber);
        assert(self@.batches =~= after.batches.remove(subscriber));
        proof {
            contract::lemma_wf_kept(after, self@);
        }
        Ok(flushed)
    }

    /// All records of a subscriber.
    pub fn get_delivery_records(&self, subscriber: &Address) -> (records: Vec<DeliveryRecord>)
        ensures
            records@ == table::list_at(self@.deliveries, *subscriber),
    {
        table::list_of(&self.deliveries, subscriber)
    }

    /// The severity that an event was dispatched with, 0 for others.
    pub fn get_event_severity(&self, event_id: u64) -> (severity: u32)
        ensures
            severity == table::value_or(self@.severities, event_id, 0u32),
    {
        match self.severities.get(&event_id) {
            Some(s) => *s,
            None => 0,
        }
    }

    /// How deliveries fare.
    pub fn get_delivery_metrics(&self) -> (metrics: DeliveryMetrics)
        ensures
            metrics == self@.delivery_metrics,
    {
        self.delivery_metrics
    }
}

/// What is due of a prefix comes first in what is due of the whole.
proof fn lemma_due_prefix(records: Seq<DeliveryRecord>, limit: u64, k: int)
    requires
        0 <= k <= records.len(),
    ensures
        due(records.take(k), limit).len() <= due(records, limit).len(),
        due(records.take(k), limit) == due(records, limit).take(
            due(records.take(k), limit).len() as int,
        ),
    decreases records.len() - k,
{
    let keep = |r: DeliveryRecord| is_due(r, limit);
    if k == records.len() {
        assert(records.take(k) =~= records);
        assert(due(records, limit) =~= due(records, limit).take(
            due(records, limit).len() as int,
        ));
    } else {
        table::lemma_filter_step(records, k, keep);
        lemma_due_prefix(records, limit, k + 1);
        let some = due(records.take(k), limit);
        let more = due(records.take(k + 1), limit);
        assert(some =~= more.take(some.len() as int));
        assert(some =~= due(records, limit).take(some.len() as int));
    }
}

/// A prefix has no more records of a subscription than the whole.
proof fn lemma_count_prefix(records: Seq<DeliveryRecord>, id: u64, k: int)
    requires
        0 <= k <= records.len(),
    ensures
        count_for(records.take(k), id) <= count_for(records, id),
    decreases records.len() - k,
{
    if k == records.len() {
        assert(records.take(k) =~= records);
    } else {
        assert(records.take(k).push(records[k]) =~= records.take(k + 1));
        lemma_count_push(records.take(k), records[k], id);
        lemma_count_prefix(records, id, k + 1);
    }
}

/// The answer to a change of status.
pub open spec fn status_answer(
    ledger: EventsLedger,
    subscription_id: u64,
    status: SubscriptionStatus,
) -> Result<Symbol, Error> {
    if !ledger.managed.contains_key(subscription_id) {
        Err(Error::NotFound)
    } else if ledger.managed[subscription_id].status == SubscriptionStatus::Cancelled && status
        != SubscriptionStatus::Cancelled {
        Err(Error::InvalidState)
    } else {
        Ok(values::symbol_of("OK"@))
    }
}

/// The state after a change of status, if it is allowed.
pub open spec fn with_status(
    ledger: EventsLedger,
    subscription_id: u64,
    status: SubscriptionStatus,
) -> EventsLedger {
    if status_answer(ledger, subscription_id, status) is Ok {
        EventsLedger {
            managed: ledger.managed.insert(
                subscription_id,
                ManagedSubscription { status, ..ledger.managed[subscription_id] },
            ),
            ..ledger
        }
    } else {
        ledger
    }
}

/// A subscription that was cancelled stays cancelled, whatever status is asked
/// for, and no event goes to it.
pub proof fn cancelling_is_permanent(
    ledger: EventsLedger,
    subscription_id: u64,
    status: SubscriptionStatus,
    event_type: PortfolioEventType,
    severity: u32,
    details: Map<Symbol, Vec<u8>>,
)
    requires
        ledger.managed.contains_key(subscription_id),
        ledger.managed[subscription_id].status == SubscriptionStatus::Cancelled,
    ensures
        with_status(ledger, subscription_id, status).managed[subscription_id].status
            == SubscriptionStatus::Cancelled,
        ledger.recipients(seq![subscription_id], event_type, severity, details).len() == 0,
{
    let keep = |id: u64|
        ledger.managed.contains_key(id) && ledger.managed[id].status == SubscriptionStatus::Active
            && ledger.managed[id].filter.passes(event_type, severity, details);
    seq![subscription_id].lemma_all_neg_filter_empty(keep);
}

/// Pausing and resuming leaves an active subscription as it was.
pub proof fn resuming_undoes_pausing(ledger: EventsLedger, subscription_id: u64)
    requires
        ledger.managed.contains_key(subscription_id),
        ledger.managed[subscription_id].status == SubscriptionStatus::Active,
    ensures
        with_status(
            with_status(ledger, subscription_id, SubscriptionStatus::Paused),
            subscription_id,
            SubscriptionStatus::Active,
        ) == ledger,
{
    assert(with_status(
        with_status(ledger, subscription_id, SubscriptionStatus::Paused),
        subscription_id,
        SubscriptionStatus::Active,
    ).managed =~= ledger.managed);
}

/// Whether a record is the pending delivery of an event to a subscriber.
pub open spec fn is_failing(record: DeliveryRecord, event_id: u64, subscriber: Address) -> bool {
    record.event_id == event_id && record.subscriber == subscriber && record.status
        == DeliveryStatus::Pending
}

/// The position of the first pending delivery of an event; the length where
/// there is none.
pub open spec fn failing_at(
    records: Seq<DeliveryRecord>,
    event_id: u64,
    subscriber: Address,
) -> int
    decreases records.len(),
{
    if records.len() == 0 || is_failing(records[0], event_id, subscriber) {
        0
    } else {
        1 + failing_at(records.drop_first(), event_id, subscriber)
    }
}

/// A record after an attempt failed.
pub open spec fn failed(record: DeliveryRecord, now: u64) -> DeliveryRecord {
    DeliveryRecord {
        attempts: (record.attempts + 1) as u32,
        next_retry_at: (now + subscriptions::backoff(record.attempts as nat)) as u64,
        ..record
    }
}

pub(crate) proof fn lemma_failing_at(
    records: Seq<DeliveryRecord>,
    event_id: u64,
    subscriber: Address,
    at: int,
)
    requires
        0 <= at <= records.len(),
        forall|j: int| 0 <= j < at ==> !is_failing(#[trigger] records[j], event_id, subscriber),
        at < records.len() ==> is_failing(records[at], event_id, subscriber),
    ensures
        failing_at(records, event_id, subscriber) == at,
    decreases records.len(),
{
    if records.len() > 0 && at > 0 {
        assert(!is_failing(records[0], event_id, subscriber));
        let rest = records.drop_first();
        assert forall|j: int| 0 <= j < at - 1 implies !is_failing(
            #[trigger] rest[j],
            event_id,
            subscriber,
        ) by {
            assert(rest[j] == records[j + 1]);
        }
        lemma_failing_at(rest, event_id, subscriber, at - 1);
    }
}

/// Whether a record is the delivery of an event that waits to be acknowledged.
pub open spec fn is_delivered(record: DeliveryRecord, event_id: u64) -> bool {
    record.event_id == event_id && record.status == DeliveryStatus::Delivered
}

/// The position of the first delivery of an event that waits to be
/// acknowledged; the length where there is none.
pub open spec fn delivered_at(records: Seq<DeliveryRecord>, event_id: u64) -> int
    decreases records.len(),
{
    if records.len() == 0 || is_delivered(records[0], event_id) {
        0
    } else {
        1 + delivered_at(records.drop_first(), event_id)
    }
}

/// Seconds from the delivery of a record to `now`.
pub open spec fn latency(record: DeliveryRecord, now: u64) -> int {
    match record.delivered_at {
        Some(t) => now - t,
        None => 0,
    }
}

pub(crate) proof fn lemma_delivered_at(records: Seq<DeliveryRecord>, event_id: u64, at: int)
    requires
        0 <= at <= records.len(),
        forall|j: int| 0 <= j < at ==> !is_delivered(#[trigger] records[j], event_id),
        at < records.len() ==> is_delivered(records[at], event_id),
    ensures
        delivered_at(records, event_id) == at,
    decreases records.len(),
{
    if records.len() > 0 && at > 0 {
        assert(!is_delivered(records[0], event_id));
        let rest = records.drop_first();
        assert forall|j: int| 0 <= j < at - 1 implies !is_delivered(
            #[trigger] rest[j],
            event_id,
        ) by {
            assert(rest[j] == records[j + 1]);
        }
        lemma_delivered_at(rest, event_id, at - 1);
    }
}

/// A record is delivered where it waits and its time has come: it is then
/// marked as delivered at that moment, and the attempt is counted. Every other
/// record stays as it is. What is delivered keeps its order.
pub proof fn waiting_records_are_delivered(
    records: Seq<DeliveryRecord>,
    record: DeliveryRecord,
    limit: u64,
    now: u64,
)
    requires
        record.attempts < u32::MAX,
    ensures
        ({
            let waits = record.status == DeliveryStatus::Pending && record.next_retry_at <= limit;
            let after = all_served(records.push(record), limit, now);
            let last = after[records.len() as int];
            &&& after.len() == records.len() + 1
            &&& after.drop_last() == all_served(records, limit, now)
            &&& waits ==> {
                &&& due(records.push(record), limit) == due(records, limit).push(record)
                &&& last.status == DeliveryStatus::Delivered
                &&& last.delivered_at == Some(now)
                &&& last.attempts == record.attempts + 1
            }
            &&& !waits ==> due(records.push(record), limit) == due(records, limit) && last == record
            &&& last.event_id == record.event_id && last.subscription_id == record.subscription_id
                && last.subscriber == record.subscriber && last.acked_at == record.acked_at
                && last.next_retry_at == record.next_retry_at
        }),
        due(Seq::empty(), limit).len() == 0,
{
    let keep = |r: DeliveryRecord| is_due(r, limit);
    let longer = records.push(record);
    let n = records.len() as int;
    table::lemma_filter_step(longer, n, keep);
    table::lemma_filter_none(longer, keep);
    assert(longer.take(n) =~= records);
    assert(longer.take(n + 1) =~= longer);
    assert(longer.take(0) =~= Seq::<DeliveryRecord>::empty());
    assert(all_served(longer, limit, now).drop_last() =~= all_served(records, limit, now));
}

/// Each delivery is credited to its subscription, counted, and published, once.
pub proof fn deliveries_are_accounted_for(
    ledger: EventsLedger,
    subscriber: Address,
    limit: u64,
    now: u64,
    id: u64,
    i: int,
)
    requires
        ledger.can_deliver(subscriber, limit),
    ensures
        ({
            let records = due(table::list_at(ledger.deliveries, subscriber), limit);
            let after = ledger.delivering(subscriber, limit, now);
            let before = ledger.outbox.len() as int;
            &&& after.delivery_metrics.total_delivered == ledger.delivery_metrics.total_delivered
                + records.len()
            &&& after.delivery_metrics.total_dispatched == ledger.delivery_metrics.total_dispatched
            &&& after.delivery_metrics.total_failed == ledger.delivery_metrics.total_failed
            &&& after.managed.contains_key(id) == ledger.managed.contains_key(id)
            &&& ledger.managed.contains_key(id) ==> after.managed[id].total_delivered
                == ledger.managed[id].total_delivered + count_for(records, id)
                && after.managed[id].total_failed == ledger.managed[id].total_failed
            &&& after.outbox.len() == before + records.len()
            &&& after.outbox.take(before) == ledger.outbox
            &&& 0 <= i < records.len() ==> after.outbox[before + i] == (Notice::Delivered {
                subscriber,
                event_id: records[i].event_id,
                subscription_id: records[i].subscription_id,
            })
        }),
{
    let records = due(table::list_at(ledger.deliveries, subscriber), limit);
    lemma_credited(ledger.managed, records);
    let after = ledger.delivering(subscriber, limit, now);
    assert(after.outbox.take(ledger.outbox.len() as int) =~= ledger.outbox);
    assert(after.managed.dom().contains(id) == ledger.managed.dom().contains(id));
}

/// Counting by subscription, and counting what was tried before, is adding up
/// one by one.
pub proof fn records_are_counted(
    records: Seq<DeliveryRecord>,
    record: DeliveryRecord,
    id: u64,
)
    ensures
        count_for(Seq::empty(), id) == 0,
        tried_before(Seq::empty()) == 0,
        record.subscription_id == id ==> count_for(records.push(record), id) == count_for(
            records,
            id,
        ) + 1,
        record.subscription_id != id ==> count_for(records.push(record), id) == count_for(
            records,
            id,
        ),
        record.attempts > 0 ==> tried_before(records.push(record)) == tried_before(records) + 1,
        record.attempts == 0 ==> tried_before(records.push(record)) == tried_before(records),
{
    let tried = |r: DeliveryRecord| r.attempts > 0;
    let owned = |r: DeliveryRecord| r.subscription_id == id;
    let longer = records.push(record);
    let n = records.len() as int;
    table::lemma_filter_step(longer, n, tried);
    table::lemma_filter_none(longer, tried);
    table::lemma_filter_step(longer, n, owned);
    table::lemma_filter_none(longer, owned);
    assert(longer.take(n) =~= records);
    assert(longer.take(n + 1) =~= longer);
    assert(longer.take(0) =~= Seq::<DeliveryRecord>::empty());
}

/// Deliveries of what was tried before are counted as retries, as far as the
/// counter reaches.
pub proof fn retries_are_counted(metrics: DeliveryMetrics, records: Seq<DeliveryRecord>)
    ensures
        metrics.total_retry_attempts + tried_before(records) <= u32::MAX ==> metrics_after_delivery(
            metrics,
            records,
        ).total_retry_attempts == metrics.total_retry_attempts + tried_before(records),
        metrics.total_retry_attempts + tried_before(records) > u32::MAX ==> metrics_after_delivery(
            metrics,
            records,
        ).total_retry_attempts == u32::MAX,
        metrics_after_delivery(metrics, records).total_acknowledged == metrics.total_acknowledged,
        metrics_after_delivery(metrics, records).latency_sum_secs == metrics.latency_sum_secs,
{
    let tried = |r: DeliveryRecord| r.attempts > 0;
    if records.len() == 0 {
        table::lemma_filter_none(records, tried);
        assert(records.take(0) =~= records);
    }
}

/// The subscriptions that get an event are those that are active and whose
/// filter lets it through, in their order.
pub proof fn active_subscriptions_get_events(
    ledger: EventsLedger,
    ids: Seq<u64>,
    id: u64,
    event_type: PortfolioEventType,
    severity: u32,
    details: Map<Symbol, Vec<u8>>,
)
    ensures
        ({
            let before = ledger.recipients(ids, event_type, severity, details);
            let after = ledger.recipients(ids.push(id), event_type, severity, details);
            let sub = ledger.managed[id];
            let gets = ledger.managed.contains_key(id) && sub.status == SubscriptionStatus::Active
                && sub.filter.passes(event_type, severity, details);
            &&& gets ==> after == before.push(id)
            &&& !gets ==> after == before
        }),
        ledger.recipients(Seq::empty(), event_type, severity, details).len() == 0,
{
    let keep = |k: u64|
        ledger.managed.contains_key(k) && ledger.managed[k].status == SubscriptionStatus::Active
            && ledger.managed[k].filter.passes(event_type, severity, details);
    let longer = ids.push(id);
    let n = ids.len() as int;
    table::lemma_filter_step(longer, n, keep);
    table::lemma_filter_none(longer, keep);
    assert(longer.take(n) =~= ids);
    assert(longer.take(n + 1) =~= longer);
    assert(longer.take(0) =~= Seq::<u64>::empty());
}

/// An event for a subscription leaves a record that waits for a second, last
/// among its subscriber's, and is collected where the subscription is served
/// in batches.
pub proof fn events_wait_to_be_delivered(
    ledger: EventsLedger,
    id: u64,
    event_id: u64,
    now: u64,
    other: Address,
)
    requires
        now < u64::MAX,
    ensures
        ({
            let sub = ledger.managed[id];
            let after = ledger.noted(id, event_id, now);
            let before = table::list_at(ledger.deliveries, sub.subscriber);
            let records = table::list_at(after.deliveries, sub.subscriber);
            let last = records[before.len() as int];
            &&& records.len() == before.len() + 1
            &&& records.drop_last() == before
            &&& last.event_id == event_id && last.subscription_id == id && last.subscriber
                == sub.subscriber
            &&& last.status == DeliveryStatus::Pending && last.attempts == 0
                && last.next_retry_at == now + 1 && last.delivered_at is None
                && last.acked_at is None
            &&& after.managed[id].last_event_received_at == Some(now)
            &&& other != sub.subscriber ==> table::list_at(after.deliveries, other)
                == table::list_at(ledger.deliveries, other)
            &&& sub.prefs.mode == DeliveryMode::Batch ==> table::list_at(
                after.batches,
                sub.subscriber,
            ) == table::list_at(ledger.batches, sub.subscriber).push(event_id)
            &&& sub.prefs.mode == DeliveryMode::Immediate ==> after.batches == ledger.batches
        }),
{
    subscriptions::waits_double_up_to_an_hour(0);
    let sub = ledger.managed[id];
    let after = ledger.noted(id, event_id, now);
    let records = table::list_at(after.deliveries, sub.subscriber);
    assert(records.drop_last() =~= table::list_at(ledger.deliveries, sub.subscriber));
}

/// A batch goes out when it has as many events as the subscription asks for,
/// and not before; afterwards nothing is collected. Events that are not sent
/// in batches are not held together.
pub proof fn full_batches_go_out(ledger: EventsLedger, id: u64, event_id: u64, now: u64)
    ensures
        ({
            let sub = ledger.managed[id];
            let collected = table::list_at(ledger.batches, sub.subscriber).len() as int;
            let after = ledger.queued(id, event_id, now);
            &&& sub.prefs.mode == DeliveryMode::Batch && collected + 1 >= sub.prefs.batch_size
                ==> table::list_at(after.batches, sub.subscriber).len() == 0
            &&& sub.prefs.mode == DeliveryMode::Batch && collected + 1 < sub.prefs.batch_size
                ==> table::list_at(after.batches, sub.subscriber).len() == collected + 1
                && after.outbox == ledger.outbox
            &&& sub.prefs.mode == DeliveryMode::Immediate ==> after == ledger.noted(
                id,
                event_id,
                now,
            )
        }),
{
    let sub = ledger.managed[id];
    if ledger.fills_batch(id) {
        a_flush_leaves_nothing_waiting(ledger.noted(id, event_id, now), sub.subscriber, now);
    }
}

/// An event that is dispatched is in its portfolio's history, keeps the
/// severity that it was given, and is counted once.
pub proof fn dispatched_events_are_recorded(
    ledger: EventsLedger,
    event: Event,
    severity: u32,
    now: u64,
)
    requires
        ledger.can_dispatch(event, severity, now),
    ensures
        ({
            let after = ledger.dispatched(event, severity, now);
            &&& table::list_at(after.histories, event.portfolio_id) == table::list_at(
                ledger.histories,
                event.portfolio_id,
            ).push(event)
            &&& after.severities.contains_key(event.event_id)
            &&& after.severities[event.event_id] == severity
            &&& after.delivery_metrics.total_dispatched == ledger.delivery_metrics.total_dispatched
                + 1
        }),
{
    let to = ledger.recipients_of(event, severity);
    contract::events_are_recorded(ledger, event, event.portfolio_id);
    lemma_queueing_keeps(ledger.rated(event, severity), to, event.event_id, now);
}

/// Queueing an event touches neither histories nor severities, and dispatches
/// nothing by itself.
proof fn lemma_queueing_keeps(ledger: EventsLedger, ids: Seq<u64>, event_id: u64, now: u64)
    ensures
        ({
            let after = ledger.queued_for(ids, event_id, now);
            &&& after.histories == ledger.histories
            &&& after.severities == ledger.severities
            &&& after.delivery_metrics.total_dispatched == ledger.delivery_metrics.total_dispatched
        }),
    decreases ids.len(),
{
    if ids.len() > 0 {
        lemma_queueing_keeps(ledger, ids.drop_last(), event_id, now);
    }
}

/// A subscription takes any status until it is cancelled. One that does not
/// exist, or that is cancelled and should be anything else, is refused, and
/// nothing changes.
pub proof fn statuses_change_until_cancelled(
    ledger: EventsLedger,
    id: u64,
    status: SubscriptionStatus,
    other: u64,
)
    ensures
        ({
            let known = ledger.managed.contains_key(id);
            let cancelled = ledger.managed[id].status == SubscriptionStatus::Cancelled;
            let answer = status_answer(ledger, id, status);
            let after = with_status(ledger, id, status);
            &&& !known ==> answer == Err::<Symbol, Error>(Error::NotFound) && after == ledger
            &&& known && cancelled && status != SubscriptionStatus::Cancelled ==> answer == Err::<
                Symbol,
                Error,
            >(Error::InvalidState) && after == ledger
            &&& known && !cancelled ==> answer is Ok && after.managed[id].status == status
                && after.managed[id].subscriber == ledger.managed[id].subscriber
            &&& other != id && ledger.managed.contains_key(other) ==> after.managed[other]
                == ledger.managed[other]
        }),
{
}

/// An attempt that failed is the first record of the event that still waits
/// for the subscriber; it waits on, longer with every attempt.
pub proof fn failures_are_tried_again(
    records: Seq<DeliveryRecord>,
    event_id: u64,
    subscriber: Address,
    i: int,
    now: u64,
)
    requires
        0 <= i < records.len(),
        now + 3_600 <= u64::MAX,
    ensures
        ({
            let at = failing_at(records, event_id, subscriber);
            let after = failed(records[at], now);
            let fits = records[i].event_id == event_id && records[i].subscriber == subscriber
                && records[i].status == DeliveryStatus::Pending;
            &&& fits ==> at <= i
            &&& i < at ==> !fits
            &&& i == at ==> fits
            &&& at < records.len() && records[at].attempts < u32::MAX ==> {
                &&& after.attempts == records[at].attempts + 1
                &&& after.status == records[at].status
                &&& now < after.next_retry_at <= now + 3_600
                &&& after.next_retry_at == now + subscriptions::backoff(records[at].attempts as nat)
            }
        }),
    decreases records.len(),
{
    let rest = records.drop_first();
    lemma_failing_at_range(rest, event_id, subscriber);
    if !is_failing(records[0], event_id, subscriber) && i > 0 {
        failures_are_tried_again(rest, event_id, subscriber, i - 1, now);
        assert(rest[i - 1] == records[i]);
    }
    let at = failing_at(records, event_id, subscriber);
    lemma_failing_at_range(records, event_id, subscriber);
    if at < records.len() {
        let attempts = records[at].attempts as nat;
        subscriptions::backoff_never_shrinks(attempts, attempts);
    }
}

proof fn lemma_failing_at_range(records: Seq<DeliveryRecord>, event_id: u64, subscriber: Address)
    ensures
        0 <= failing_at(records, event_id, subscriber) <= records.len(),
    decreases records.len(),
{
    if records.len() > 0 {
        lemma_failing_at_range(records.drop_first(), event_id, subscriber);
    }
}

/// What is acknowledged is the first record of the event that was delivered;
/// the time it took is counted from its delivery.
pub proof fn the_first_delivery_is_acknowledged(
    records: Seq<DeliveryRecord>,
    event_id: u64,
    i: int,
    now: u64,
)
    requires
        0 <= i < records.len(),
    ensures
        ({
            let at = delivered_at(records, event_id);
            let fits = records[i].event_id == event_id && records[i].status
                == DeliveryStatus::Delivered;
            &&& fits ==> at <= i
            &&& i < at ==> !fits
            &&& i == at ==> fits
            &&& records[i].delivered_at is Some ==> latency(records[i], now)
                + records[i].delivered_at->0 == now
            &&& records[i].delivered_at is None ==> latency(records[i], now) == 0
        }),
    decreases records.len(),
{
    let rest = records.drop_first();
    lemma_delivered_at_range(rest, event_id);
    if !is_delivered(records[0], event_id) && i > 0 {
        the_first_delivery_is_acknowledged(rest, event_id, i - 1, now);
        assert(rest[i - 1] == records[i]);
    }
}

proof fn lemma_delivered_at_range(records: Seq<DeliveryRecord>, event_id: u64)
    ensures
        0 <= delivered_at(records, event_id) <= records.len(),
    decreases records.len(),
{
    if records.len() > 0 {
        lemma_delivered_at_range(records.drop_first(), event_id);
    }
}

} // verus!
