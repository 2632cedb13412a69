//! Whether the counters of the events contract hold a request.
//!
//! Counters that are full would wrap around; whoever cannot rule that out asks
//! before the request.
use crate::events::analysis;
use crate::events::contract::EventsContract;
use crate::events::delivery;
use crate::events::subscriptions;
use crate::events::subscriptions::{DeliveryRecord, DeliveryStatus};
use crate::events::triggers;
use crate::events::triggers::TriggerEvaluator;
use crate::events::types::{AITrigger, AnalysisStatus, EventType};
use crate::table;
use crate::values::{Address, Symbol, U256};
use vstd::prelude::*;

verus! {

/// How many of the records belong to a subscription.
fn count_records(records: &Vec<DeliveryRecord>, id: u64) -> (n: usize)
    ensures
        n == delivery::count_for(records@, id),
{
    let ghost keep = |r: DeliveryRecord| r.subscription_id == id;
    let mut n: usize = 0;
    let mut i: usize = 0;
    proof {
        table::lemma_filter_none(records@, keep);
    }
    while i < records.len()
        invariant
            i <= records@.len(),
            keep == (|r: DeliveryRecord| r.subscription_id == id),
            n == records@.take(i as int).filter(keep).len(),
            n <= i,
        decreases records@.len() - i,
    {
        proof {
            table::lemma_filter_step(records@, i as int, keep);
        }
        if records[i].subscription_id == id {
            n += 1;
        }
        i += 1;
    }
    assert(records@.take(i as int) =~= records@);
    n
}

/// The records that wait for no longer than until `limit`.
fn due_records(records: &Vec<DeliveryRecord>, limit: u64) -> (list: Vec<DeliveryRecord>)
    ensures
        list@ == delivery::due(records@, limit),
{
    let ghost keep = |r: DeliveryRecord| delivery::is_due(r, limit);
    let mut list: Vec<DeliveryRecord> = Vec::new();
    let mut i: usize = 0;
    proof {
        table::lemma_filter_none(records@, keep);
    }
    while i < records.len()
        invariant
            i <= records@.len(),
            keep == (|r: DeliveryRecord| delivery::is_due(r, limit)),
            list@ == records@.take(i as int).filter(keep),
        decreases records@.len() - i,
    {
        proof {
            table::lemma_filter_step(records@, i as int, keep);
        }
        if records[i].status == DeliveryStatus::Pending && records[i].next_retry_at <= limit {
            list.push(records[i]);
        }
        i += 1;
    }
    assert(records@.take(i as int) =~= records@);
    list
}

/// Without a record of its own, a subscription has none among others.
proof fn lemma_no_count(records: Seq<DeliveryRecord>, id: u64)
    requires
        forall|i: int| 0 <= i < records.len() ==> (#[trigger] records[i]).subscription_id != id,
    ensures
        delivery::count_for(records, id) == 0,
    decreases records.len(),
{
    reveal(Seq::filter);
    if records.len() > 0 {
        let before = records.drop_last();
        assert forall|i: int| 0 <= i < before.len() implies (
        #[trigger] before[i]).subscription_id != id by {
            assert(before[i] == records[i]);
        }
        assert(records[records.len() - 1] == records.last());
        lemma_no_count(before, id);
    }
}

impl EventsContract {
    /// Whether the analyses that an event asks for can be counted.
    pub fn can_process_event(&self, event_type: u32, current_value: Option<U256>) -> (b: bool)
        requires
            self.wf(),
        ensures
            b == self@.can_ask(event_type, current_value),
    {
        let event = EventType::from(event_type);
        let value = analysis::see_value(current_value);
        let ghost entries = table::ordered(self@.triggers);
        let ghost keep = |t: (Symbol, AITrigger)|
            t.1.is_active && triggers::fires(t.1, event, value);
        let mut n: usize = 0;
        let mut i: usize = 0;
        proof {
            self.triggers.lemma_in_order();
            table::lemma_filter_none(entries, keep);
        }
        while i < self.triggers.len()
            invariant
                i <= self.triggers.in_order().len(),
                self.triggers.in_order() == entries,
                entries == table::ordered(self@.triggers),
                keep == (|t: (Symbol, AITrigger)|
                    t.1.is_active && triggers::fires(t.1, event, value)),
                n == entries.take(i as int).filter(keep).len(),
                n <= i,
            decreases self.triggers.in_order().len() - i,
        {
            proof {
                table::lemma_filter_step(entries, i as int, keep);
            }
            let (_, trigger) = self.triggers.at(i);
            if trigger.is_active && TriggerEvaluator::evaluate(trigger, event, value) {
                n += 1;
            }
            i += 1;
        }
        assert(entries.take(i as int) =~= entries);
        self.next_id.checked_add(n as u64).is_some() && self.metrics.total_analyses.checked_add(
            n as u64,
        ).is_some()
    }

    /// Whether a report of how an analysis has come along can be counted.
    pub fn can_update_analysis(&self, analysis_id: u64, status: u32, latency_ms: Option<u64>) -> (b:
        bool)
        requires
            self.wf(),
        ensures
            b == self@.can_report(analysis_id, status, latency_ms),
    {
        let latency: u64 = match (self.analyses.get(&analysis_id), latency_ms) {
            (None, _) => return true,
            (Some(_), Some(l)) => l,
            (Some(analysis), None) => analysis.latency_ms,
        };
        match AnalysisStatus::from(status) {
            AnalysisStatus::Completed => {
                let average = self.metrics.average_latency_ms as u128;
                let count = self.metrics.successful_analyses as u128;
                assert(0 <= average * count <= u128::MAX - u64::MAX) by (nonlinear_arith)
                    requires
                        0 <= average <= u64::MAX,
                        0 <= count <= u64::MAX,
                ;
                let sum = average * count;
                self.next_id < u64::MAX && self.metrics.successful_analyses < u64::MAX && (latency
                    == 0 || sum + latency as u128 <= u64::MAX as u128)
            },
            AnalysisStatus::Failed => self.metrics.failed_analyses < u64::MAX,
            AnalysisStatus::TimedOut => self.metrics.timed_out_analyses < u64::MAX,
            _ => true,
        }
    }

    /// Whether it can be counted that an analysis took too long.
    pub fn can_time_out(&self, analysis_id: u64) -> (b: bool)
        requires
            self.wf(),
        ensures
            b == self@.can_time_out(analysis_id),
    {
        match self.analyses.get(&analysis_id) {
            Some(analysis) => analysis.status > AnalysisStatus::InProgress.code()
                || self.metrics.timed_out_analyses < u64::MAX,
            None => true,
        }
    }

    /// Whether an answer to a recommendation can be counted.
    pub fn can_take_feedback(&self, recommendation_id: u64, accepted: bool) -> (b: bool)
        requires
            self.wf(),
        ensures
            b == self@.can_take_feedback(recommendation_id, accepted),
    {
        if self.recommendations.get(&recommendation_id).is_none() {
            return true;
        }
        if accepted {
            self.metrics.recommendations_accepted < u64::MAX
        } else {
            self.metrics.recommendations_rejected < u64::MAX
        }
    }

    /// Whether what is due to a subscriber by `limit` can be delivered.
    pub fn can_deliver(&self, subscriber: &Address, limit: u64) -> (b: bool)
        ensures
            b == self@.can_deliver(*subscriber, limit),
    {
        let records = due_records(&table::list_of(&self.deliveries, subscriber), limit);
        if records.len() > (u32::MAX - self.delivery_metrics.total_delivered) as usize {
            return false;
        }
        let mut i: usize = 0;
        while i < records.len()
            invariant
                i <= records@.len() <= u32::MAX,
                records@ == delivery::due(table::list_at(self@.deliveries, *subscriber), limit),
                forall|j: int| 0 <= j < i ==> (#[trigger] records@[j]).attempts < u32::MAX,
                forall|j: int|
                    0 <= j < i && self@.managed.contains_key((#[trigger] records@[j]).subscription_id)
                        ==> self@.managed[records@[j].subscription_id].total_delivered
                        + delivery::count_for(records@, records@[j].subscription_id) <= u64::MAX,
            decreases records@.len() - i,
        {
            let record = records[i];
            assert(record == records@[i as int]);
            if record.attempts == u32::MAX {
                return false;
            }
            if let Some(sub) = self.managed.get(&record.subscription_id) {
                let n = count_records(&records, record.subscription_id);
                if sub.total_delivered.checked_add(n as u64).is_none() {
                    return false;
                }
            }
            i += 1;
        }
        proof {
            assert forall|id: u64| #[trigger]
                self@.managed.contains_key(id) implies self@.managed[id].total_delivered
                + delivery::count_for(records@, id) <= u64::MAX by {
                if exists|j: int|
                    0 <= j < records@.len() && (#[trigger] records@[j]).subscription_id == id {
                    let j = choose|j: int|
                        0 <= j < records@.len() && (#[trigger] records@[j]).subscription_id == id;
                    assert(self@.managed.contains_key(records@[j].subscription_id));
                } else {
                    lemma_no_count(records@, id);
                }
            }
        }
        true
    }

    /// Whether a subscriber's batch can be flushed.
    pub fn can_flush(&self, subscriber: &Address) -> (b: bool)
        ensures
            b == self@.can_flush(*subscriber),
    {
        let batch = table::list_of(&self.batches, subscriber);
        batch.len() == 0 || self.can_deliver(subscriber, u64::MAX)
    }

    /// Whether a failed attempt at a delivery can be counted.
    pub fn can_mark_failed(&self, subscriber: &Address, event_id: u64, now: u64) -> (b: bool)
        ensures
            b == self@.can_fail(*subscriber, event_id, now),
    {
        let records = table::list_of(&self.deliveries, subscriber);
        let mut at: usize = 0;
        while at < records.len() && !(records[at].event_id == event_id && records[at].subscriber
            == *subscriber && records[at].status == DeliveryStatus::Pending)
            invariant
                at <= records@.len(),
                forall|j: int|
                    0 <= j < at ==> !delivery::is_failing(
                        #[trigger] records@[j],
                        event_id,
                        *subscriber,
                    ),
            decreases records@.len() - at,
        {
            at += 1;
        }
        proof {
            delivery::lemma_failing_at(records@, event_id, *subscriber, at as int);
        }
        if at == records.len() {
            return true;
        }
        let record = records[at];
        let counted = match self.managed.get(&record.subscription_id) {
            Some(sub) => sub.total_failed < u64::MAX,
            None => true,
        };
        counted && record.attempts < u32::MAX && self.delivery_metrics.total_failed < u32::MAX
            && now.checked_add(subscriptions::backoff_delay(record.attempts)).is_some()
    }

    /// Whether the acknowledgement of a delivery can be counted.
    pub fn can_acknowledge(&self, subscriber: &Address, event_id: u64, now: u64) -> (b: bool)
        ensures
            b == self@.can_acknowledge(*subscriber, event_id, now),
    {
        let records = table::list_of(&self.deliveries, subscriber);
        let mut at: usize = 0;
        while at < records.len() && !(records[at].event_id == event_id && records[at].status
            == DeliveryStatus::Delivered)
            invariant
                at <= records@.len(),
                forall|j: int|
                    0 <= j < at ==> !delivery::is_delivered(#[trigger] records@[j], event_id),
            decreases records@.len() - at,
        {
            at += 1;
        }
        proof {
            delivery::lemma_delivered_at(records@, event_id, at as int);
        }
        if at == records.len() {
            return true;
        }
        let since: u64 = match records[at].delivered_at {
            Some(t) => t,
            None => now,
        };
        since <= now && self.delivery_metrics.total_acknowledged < u32::MAX
            && self.delivery_metrics.latency_sum_secs.checked_add(now - since).is_some()
    }
}

} // verus!
