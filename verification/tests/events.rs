use astraport::events::contract::EventsContract;
use astraport::events::subscriptions::{
    backoff_delay, DeliveryMode, DeliveryStatus, EventFilter, SubscriptionPreferences,
    SubscriptionStatus,
};
use astraport::events::types::{
    AITrigger, AnalysisStatus, Error, EventType, Notice, PortfolioEventType,
    RecommendationType,
};
use astraport::table::OrderedTable;
use astraport::values::{Address, Symbol, U256};

fn address(n: u128) -> Address {
    Address { is_contract: false, hi: 7, lo: n }
}

fn symbol(text: &str) -> Symbol {
    Symbol::from_text(text)
}

fn trigger(id: &str, event_type: EventType, owner: Address) -> AITrigger {
    AITrigger {
        trigger_id: symbol(id),
        name: symbol("test"),
        event_types: vec![event_type.code()],
        has_threshold: false,
        threshold: U256::from_u32(0),
        has_operator: false,
        operator: 0,
        ai_service_endpoint: address(900),
        timeout: 5000,
        is_active: true,
        owner,
    }
}

fn emit(contract: &mut EventsContract, event_type: PortfolioEventType, now: u64) -> u64 {
    contract
        .emit_event(symbol("port001"), event_type, OrderedTable::new(), vec![], now)
        .unwrap()
        .event_id
}

#[test]
fn test_full_subscribe_emit_unsubscribe_workflow() {
    let mut contract = EventsContract::new();
    let portfolio_id = symbol("port001");
    let subscriber = address(1);

    let event_types = vec![PortfolioEventType::Rebalanced, PortfolioEventType::BalanceChanged];
    let sub_result = contract.subscribe(portfolio_id, subscriber, event_types, 0);
    assert_eq!(sub_result, Ok(symbol("OK")));

    let subs = contract.get_active_subscriptions(&portfolio_id);
    assert_eq!(subs.len(), 1);
    assert!(subs[0].is_active);

    let mut details = OrderedTable::new();
    details.set(symbol("asset"), vec![0x58]);
    details.set(symbol("drift"), vec![0x05]);
    let event = contract
        .emit_event(portfolio_id, PortfolioEventType::Rebalanced, details, vec![], 0)
        .unwrap();
    assert_eq!(event.event_type, PortfolioEventType::Rebalanced);
    assert_eq!(event.portfolio_id, portfolio_id);
    assert_eq!(event.details.get(&symbol("drift")), Some(&vec![0x05]));

    contract
        .emit_event(
            portfolio_id,
            PortfolioEventType::AllocationUpdated,
            OrderedTable::new(),
            vec![],
            0,
        )
        .unwrap();

    let history = contract.get_event_history(&portfolio_id);
    assert_eq!(history.len(), 2);
    assert_eq!(history[0].event_type, PortfolioEventType::Rebalanced);
    assert_eq!(history[1].event_type, PortfolioEventType::AllocationUpdated);

    let rebal_events = contract.get_events_by_type(&portfolio_id, PortfolioEventType::Rebalanced);
    assert_eq!(rebal_events.len(), 1);

    let unsub_result = contract.unsubscribe(portfolio_id, subscriber);
    assert_eq!(unsub_result, Ok(symbol("OK")));

    let active = contract.get_active_subscriptions(&portfolio_id);
    assert_eq!(active.len(), 0);
}

#[test]
fn test_multiple_subscribers_maintain_order() {
    let mut contract = EventsContract::new();
    let portfolio_id = symbol("port001");
    let sub1 = address(1);
    let sub2 = address(2);
    let sub3 = address(3);

    contract.subscribe(portfolio_id, sub1, vec![], 0).unwrap();
    contract.subscribe(portfolio_id, sub2, vec![], 0).unwrap();
    contract.subscribe(portfolio_id, sub3, vec![], 0).unwrap();

    let subs = contract.get_active_subscriptions(&portfolio_id);
    assert_eq!(subs.len(), 3);
    assert_eq!(subs[0].subscriber, sub1);
    assert_eq!(subs[1].subscriber, sub2);
    assert_eq!(subs[2].subscriber, sub3);
    assert_eq!(subs[0].order_index, 0);
    assert_eq!(subs[1].order_index, 1);
    assert_eq!(subs[2].order_index, 2);

    emit(&mut contract, PortfolioEventType::Rebalanced, 0);
    emit(&mut contract, PortfolioEventType::ThresholdBreached, 0);
    emit(&mut contract, PortfolioEventType::TradeExecuted, 0);

    let history = contract.get_event_history(&portfolio_id);
    assert_eq!(history.len(), 3);
}

#[test]
fn test_event_type_filtering() {
    let mut contract = EventsContract::new();
    let portfolio_id = symbol("port001");

    contract
        .subscribe(portfolio_id, address(1), vec![PortfolioEventType::Rebalanced], 0)
        .unwrap();
    contract
        .subscribe(portfolio_id, address(2), vec![PortfolioEventType::TradeExecuted], 0)
        .unwrap();

    emit(&mut contract, PortfolioEventType::Rebalanced, 0);
    emit(&mut contract, PortfolioEventType::TradeExecuted, 0);
    emit(&mut contract, PortfolioEventType::BalanceChanged, 0);

    let history = contract.get_event_history(&portfolio_id);
    assert_eq!(history.len(), 3);
    assert_eq!(
        contract.get_events_by_type(&portfolio_id, PortfolioEventType::Rebalanced).len(),
        1
    );
    assert_eq!(
        contract.get_events_by_type(&portfolio_id, PortfolioEventType::TradeExecuted).len(),
        1
    );
    assert_eq!(
        contract.get_events_by_type(&portfolio_id, PortfolioEventType::BalanceChanged).len(),
        1
    );
}

#[test]
fn test_time_range_query() {
    let mut contract = EventsContract::new();
    let portfolio_id = symbol("port001");

    for _ in 0..5 {
        emit(&mut contract, PortfolioEventType::Rebalanced, 0);
    }

    let all = contract.get_events_by_time_range(&portfolio_id, 0, 100_000);
    assert_eq!(all.len(), 5);

    let none = contract.get_events_by_time_range(&portfolio_id, 50_000, 60_000);
    assert_eq!(none.len(), 0);
}

#[test]
fn test_event_count_tracking() {
    let mut contract = EventsContract::new();
    let portfolio_id = symbol("port001");

    assert_eq!(contract.get_event_count(&portfolio_id), 0);

    emit(&mut contract, PortfolioEventType::Rebalanced, 0);
    assert_eq!(contract.get_event_count(&portfolio_id), 1);

    emit(&mut contract, PortfolioEventType::BalanceChanged, 0);
    assert_eq!(contract.get_event_count(&portfolio_id), 2);
}

#[test]
fn test_cross_contract_event_triggers_ai_analysis() {
    let mut contract = EventsContract::new();
    let owner = address(1);
    let ai_service = address(2);

    let trigger = AITrigger {
        trigger_id: symbol("rebal_ai"),
        name: symbol("RebalAI"),
        event_types: vec![EventType::PortfolioRebalance.code()],
        has_threshold: false,
        threshold: U256::from_u32(0),
        has_operator: false,
        operator: 0,
        ai_service_endpoint: ai_service,
        timeout: 30000,
        is_active: true,
        owner,
    };
    contract.add_trigger(trigger).unwrap();

    let portfolio_id = symbol("port001");
    contract.subscribe(portfolio_id, address(3), vec![], 0).unwrap();
    emit(&mut contract, PortfolioEventType::Rebalanced, 0);

    let analyses = contract
        .process_event(
            portfolio_id,
            EventType::PortfolioRebalance.code(),
            &vec![0x01],
            None,
            0,
        )
        .unwrap();
    assert_eq!(analyses.len(), 1);

    let history = contract.get_event_history(&portfolio_id);
    assert_eq!(history.len(), 1);

    let portfolio_analyses = contract.get_portfolio_analyses(&portfolio_id);
    assert_eq!(portfolio_analyses.len(), 1);
}

#[test]
fn test_unsubscribe_nonexistent_errors() {
    let mut contract = EventsContract::new();
    let result = contract.unsubscribe(symbol("port001"), address(1));
    assert!(result.is_err());
}

#[test]
fn test_duplicate_trigger_rejected() {
    let mut contract = EventsContract::new();
    let owner = address(1);
    contract.add_trigger(trigger("dup001", EventType::CustomEvent, owner)).unwrap();
    let result = contract.add_trigger(trigger("dup001", EventType::CustomEvent, owner));
    assert!(result.is_err());
}

#[test]
fn test_subscribe_requires_auth() {
    let mut contract = EventsContract::new();
    let result = contract.subscribe(symbol("port001"), address(1), vec![], 0);
    assert!(result.is_ok());
}

#[test]
fn test_remove_trigger_unauthorized() {
    let mut contract = EventsContract::new();
    let owner = address(1);
    contract.add_trigger(trigger("auth01", EventType::CustomEvent, owner)).unwrap();
    contract.remove_trigger(symbol("auth01"), owner).unwrap();
    let triggers = contract.get_all_triggers();
    assert_eq!(triggers.len(), 0);
}

#[test]
fn a_trigger_is_removed_by_its_owner_only() {
    let mut contract = EventsContract::new();
    contract.add_trigger(trigger("t", EventType::CustomEvent, address(1))).unwrap();
    assert_eq!(contract.remove_trigger(symbol("t"), address(2)), Err(Error::Unauthorized));
    assert_eq!(contract.remove_trigger(symbol("x"), address(1)), Err(Error::NotFound));
    assert_eq!(contract.get_all_triggers().len(), 1);
}

#[test]
fn subscribers_are_notified_in_the_order_of_subscription() {
    let mut contract = EventsContract::new();
    let portfolio_id = symbol("port001");
    contract.subscribe(portfolio_id, address(1), vec![], 5).unwrap();
    contract
        .subscribe(portfolio_id, address(2), vec![PortfolioEventType::TradeExecuted], 6)
        .unwrap();
    contract.subscribe(portfolio_id, address(3), vec![], 7).unwrap();
    let before = contract.outbox.len();
    let event_id = emit(&mut contract, PortfolioEventType::Rebalanced, 8);
    assert_eq!(
        contract.outbox[before..].to_vec(),
        vec![
            Notice::PortfolioEvent {
                portfolio_id,
                event_type: PortfolioEventType::Rebalanced,
                event_id,
            },
            Notice::Notify { subscriber: address(1), portfolio_id, event_id },
            Notice::Notify { subscriber: address(3), portfolio_id, event_id },
        ]
    );
}

#[test]
fn event_ids_ascend_by_one() {
    let mut contract = EventsContract::new();
    let a = emit(&mut contract, PortfolioEventType::Rebalanced, 1);
    let b = emit(&mut contract, PortfolioEventType::Custom, 2);
    assert_eq!(b, a + 1);
}

#[test]
fn subscribing_twice_keeps_the_first_subscription() {
    let mut contract = EventsContract::new();
    let portfolio_id = symbol("p");
    contract.subscribe(portfolio_id, address(1), vec![], 1).unwrap();
    contract
        .subscribe(portfolio_id, address(1), vec![PortfolioEventType::Custom], 2)
        .unwrap();
    let subs = contract.get_subscriptions(&portfolio_id);
    assert_eq!(subs.len(), 1);
    assert_eq!(subs[0].subscribed_at, 1);
}

#[test]
fn a_threshold_decides_whether_a_trigger_fires() {
    let mut contract = EventsContract::new();
    let mut t = trigger("t", EventType::VolatilitySpike, address(1));
    t.has_threshold = true;
    t.threshold = U256::from_u32(100);
    t.has_operator = true;
    t.operator = 0;
    contract.add_trigger(t).unwrap();
    let p = symbol("p");
    let spike = EventType::VolatilitySpike.code();
    let low = contract.process_event(p, spike, &vec![], Some(U256::from_u32(100)), 0).unwrap();
    assert_eq!(low.len(), 0);
    let high = contract.process_event(p, spike, &vec![], Some(U256::from_u32(101)), 0).unwrap();
    assert_eq!(high.len(), 1);
    let other = contract
        .process_event(p, EventType::TradeExecuted.code(), &vec![], Some(U256::from_u32(101)), 0)
        .unwrap();
    assert_eq!(other.len(), 0);
}

#[test]
fn a_completed_analysis_makes_a_recommendation() {
    let mut contract = EventsContract::new();
    contract.add_trigger(trigger("t", EventType::CustomEvent, address(1))).unwrap();
    let p = symbol("p");
    let ids = contract
        .process_event(p, EventType::CustomEvent.code(), &vec![], None, 10)
        .unwrap();
    let done = contract.update_analysis_status(
        ids[0],
        AnalysisStatus::Completed.code(),
        Some(40),
        Some(vec![1]),
        None,
        20,
    );
    assert!(done.is_ok());
    let recommendations = contract.get_portfolio_recommendations(&p);
    assert_eq!(recommendations.len(), 1);
    assert_eq!(recommendations[0].analysis_id, ids[0]);
    assert_eq!(recommendations[0].action_type, RecommendationType::Buy.code());
    assert_eq!(recommendations[0].confidence_score, 85);
    assert_eq!(contract.get_metrics().successful_analyses, 1);
    assert_eq!(contract.get_metrics().average_latency_ms, 40);
    contract
        .process_recommendation_feedback(recommendations[0].recommendation_id, true)
        .unwrap();
    assert_eq!(contract.get_metrics().recommendations_accepted, 1);
}

#[test]
fn an_unknown_analysis_is_not_found() {
    let mut contract = EventsContract::new();
    assert_eq!(
        contract.update_analysis_status(5, AnalysisStatus::Failed.code(), None, None, None, 0),
        Err(Error::NotFound)
    );
    assert_eq!(contract.process_timeout(5), Err(Error::NotFound));
    assert_eq!(contract.process_recommendation_feedback(5, true), Err(Error::NotFound));
}

fn everything() -> EventFilter {
    EventFilter { event_types: vec![], min_severity: 0, required_details: vec![] }
}

fn at_once() -> SubscriptionPreferences {
    SubscriptionPreferences { mode: DeliveryMode::Immediate, batch_size: 1 }
}

fn dispatch(contract: &mut EventsContract, severity: u32, now: u64) -> u64 {
    contract
        .dispatch_event(
            symbol("p"),
            PortfolioEventType::TradeExecuted,
            severity,
            OrderedTable::new(),
            vec![],
            now,
        )
        .unwrap()
}

#[test]
fn a_dispatched_event_is_delivered_once_and_acknowledged() {
    let mut contract = EventsContract::new();
    let sub = contract
        .create_subscription(symbol("p"), address(1), everything(), at_once(), 1)
        .unwrap();
    let event = dispatch(&mut contract, 3, 10);
    assert_eq!(contract.get_event_severity(event), 3);
    assert_eq!(contract.deliver_pending(address(1), 11), Ok(vec![event]));
    assert_eq!(contract.deliver_pending(address(1), 12), Ok(vec![]));
    assert_eq!(contract.get_managed_subscription(sub).unwrap().total_delivered, 1);
    assert!(contract.acknowledge(address(1), event, 15).is_ok());
    let records = contract.get_delivery_records(&address(1));
    assert_eq!(records.len(), 1);
    assert_eq!(records[0].status, DeliveryStatus::Acknowledged);
    assert_eq!(records[0].acked_at, Some(15));
    assert_eq!(contract.get_delivery_metrics().total_acknowledged, 1);
    assert_eq!(contract.get_delivery_metrics().latency_sum_secs, 4);
}

#[test]
fn a_filter_keeps_events_out() {
    let mut contract = EventsContract::new();
    let filter = EventFilter { min_severity: 5, ..everything() };
    contract.create_subscription(symbol("p"), address(1), filter, at_once(), 1).unwrap();
    dispatch(&mut contract, 4, 2);
    assert_eq!(contract.get_delivery_records(&address(1)).len(), 0);
    dispatch(&mut contract, 5, 3);
    assert_eq!(contract.get_delivery_records(&address(1)).len(), 1);
}

#[test]
fn a_paused_subscription_receives_nothing_until_it_is_resumed() {
    let mut contract = EventsContract::new();
    let sub = contract
        .create_subscription(symbol("p"), address(1), everything(), at_once(), 1)
        .unwrap();
    contract.pause_subscription(sub).unwrap();
    dispatch(&mut contract, 0, 2);
    assert_eq!(contract.get_delivery_records(&address(1)).len(), 0);
    contract.resume_subscription(sub).unwrap();
    assert_eq!(contract.get_managed_subscription(sub).unwrap().status, SubscriptionStatus::Active);
    dispatch(&mut contract, 0, 3);
    assert_eq!(contract.get_delivery_records(&address(1)).len(), 1);
}

#[test]
fn a_cancelled_subscription_stays_cancelled() {
    let mut contract = EventsContract::new();
    let sub = contract
        .create_subscription(symbol("p"), address(1), everything(), at_once(), 1)
        .unwrap();
    contract.cancel_subscription(sub).unwrap();
    assert_eq!(contract.resume_subscription(sub), Err(Error::InvalidState));
    assert_eq!(contract.pause_subscription(77), Err(Error::NotFound));
}

#[test]
fn a_failed_delivery_waits_longer_each_time() {
    assert_eq!(backoff_delay(0), 1);
    assert_eq!(backoff_delay(1), 2);
    assert_eq!(backoff_delay(11), 2_048);
    assert_eq!(backoff_delay(12), 3_600);
    assert_eq!(backoff_delay(u32::MAX), 3_600);
    let mut contract = EventsContract::new();
    contract.create_subscription(symbol("p"), address(1), everything(), at_once(), 1).unwrap();
    let event = dispatch(&mut contract, 0, 100);
    contract.mark_delivery_failed(address(1), event, 100).unwrap();
    let records = contract.get_delivery_records(&address(1));
    assert_eq!(records[0].attempts, 1);
    assert!(records[0].next_retry_at > 100);
    assert_eq!(contract.deliver_pending(address(1), 100), Ok(vec![]));
    assert_eq!(
        contract.deliver_pending(address(1), records[0].next_retry_at),
        Ok(vec![event])
    );
}

#[test]
fn a_full_batch_is_delivered_at_once() {
    let mut contract = EventsContract::new();
    let prefs = SubscriptionPreferences { mode: DeliveryMode::Batch, batch_size: 2 };
    let sub = contract
        .create_subscription(symbol("p"), address(1), everything(), prefs, 1)
        .unwrap();
    dispatch(&mut contract, 0, 10);
    assert_eq!(contract.get_delivery_records(&address(1))[0].status, DeliveryStatus::Pending);
    dispatch(&mut contract, 0, 10);
    let records = contract.get_delivery_records(&address(1));
    assert_eq!(records.len(), 2);
    for record in &records {
        assert_eq!(record.status, DeliveryStatus::Delivered);
        assert_eq!(record.delivered_at, Some(10));
    }
    assert_eq!(contract.get_managed_subscription(sub).unwrap().total_delivered, 2);
    assert_eq!(contract.get_delivery_metrics().total_delivered, 2);
    assert_eq!(contract.flush_batch(address(1), 20), Ok(vec![]));
}

#[test]
fn a_flush_delivers_what_waits_before_it_is_due() {
    let mut contract = EventsContract::new();
    let prefs = SubscriptionPreferences { mode: DeliveryMode::Batch, batch_size: 9 };
    contract.create_subscription(symbol("p"), address(1), everything(), prefs, 1).unwrap();
    let first = dispatch(&mut contract, 0, 10);
    let second = dispatch(&mut contract, 0, 10);
    contract.mark_delivery_failed(address(1), first, 10).unwrap();
    assert_eq!(contract.deliver_pending(address(1), 10), Ok(vec![]));
    assert_eq!(contract.flush_batch(address(1), 10), Ok(vec![first, second]));
    assert_eq!(contract.get_delivery_metrics().total_retry_attempts, 1);
    assert_eq!(contract.flush_batch(address(1), 11), Ok(vec![]));
}

#[test]
fn a_flush_without_a_batch_delivers_nothing() {
    let mut contract = EventsContract::new();
    contract.create_subscription(symbol("p"), address(1), everything(), at_once(), 1).unwrap();
    let event = dispatch(&mut contract, 0, 10);
    assert_eq!(contract.flush_batch(address(1), 50), Ok(vec![]));
    assert_eq!(contract.deliver_pending(address(1), 50), Ok(vec![event]));
}

#[test]
fn event_error_codes() {
    assert_eq!(Error::AlreadyExists.code(), 1);
    assert_eq!(Error::NotFound.code(), 2);
    assert_eq!(Error::Unauthorized.code(), 3);
    assert_eq!(Error::InvalidState.code(), 4);
}

#[test]
fn each_recipient_has_one_record() {
    let mut contract = EventsContract::new();
    let batch = SubscriptionPreferences { mode: DeliveryMode::Batch, batch_size: 1 };
    let picky = EventFilter { event_types: vec![], min_severity: 9, required_details: vec![] };
    let first =
        contract.create_subscription(symbol("p"), address(1), everything(), at_once(), 0).unwrap();
    let second =
        contract.create_subscription(symbol("p"), address(1), everything(), batch, 0).unwrap();
    contract.create_subscription(symbol("p"), address(1), picky, at_once(), 0).unwrap();
    contract.create_subscription(symbol("q"), address(1), everything(), at_once(), 0).unwrap();
    let event_id = dispatch(&mut contract, 1, 10);
    let records: Vec<(u64, u64)> = contract
        .get_delivery_records(&address(1))
        .iter()
        .map(|r| (r.subscription_id, r.event_id))
        .collect();
    assert_eq!(records, vec![(first, event_id), (second, event_id)]);
}

#[test]
fn full_counters_rule_requests_out() {
    let mut contract = EventsContract::new();
    let id =
        contract.create_subscription(symbol("p"), address(1), everything(), at_once(), 0).unwrap();
    let event_id = dispatch(&mut contract, 1, 10);
    assert!(contract.can_deliver(&address(1), 11));
    assert!(contract.can_mark_failed(&address(1), event_id, 11));
    assert!(!contract.can_mark_failed(&address(1), event_id, u64::MAX));
    assert!(contract.can_acknowledge(&address(1), event_id, 5));

    let mut sub = contract.managed.take(&id).unwrap();
    sub.total_delivered = u64::MAX;
    contract.managed.set(id, sub);
    assert!(!contract.can_deliver(&address(1), 11));
    assert!(contract.can_deliver(&address(1), 10));
    assert!(contract.can_flush(&address(1)));
    let mut sub = contract.managed.take(&id).unwrap();
    sub.total_delivered = 0;
    contract.managed.set(id, sub);

    assert_eq!(contract.deliver_pending(address(1), 11), Ok(vec![event_id]));
    assert!(!contract.can_acknowledge(&address(1), event_id, 5));
    assert!(contract.can_acknowledge(&address(1), event_id, 11));
    contract.delivery_metrics.total_acknowledged = u32::MAX;
    assert!(!contract.can_acknowledge(&address(1), event_id, 11));
}

#[test]
fn a_dispatch_is_answered_where_the_counters_hold_it() {
    let mut contract = EventsContract::new();
    let batch = SubscriptionPreferences { mode: DeliveryMode::Batch, batch_size: 1 };
    contract.create_subscription(symbol("p"), address(1), everything(), batch, 0).unwrap();
    let ask = |contract: &mut EventsContract| {
        contract.try_dispatch_event(
            symbol("p"),
            PortfolioEventType::TradeExecuted,
            1,
            OrderedTable::new(),
            vec![],
            10,
        )
    };
    assert_eq!(ask(&mut contract), Some(1));
    assert_eq!(contract.delivery_metrics.total_delivered, 1);
    contract.delivery_metrics.total_delivered = u32::MAX;
    assert_eq!(ask(&mut contract), None);
    let mut full = EventsContract::new();
    full.next_id = u64::MAX;
    assert_eq!(ask(&mut full), None);
}

#[test]
fn full_counters_rule_analyses_out() {
    let mut contract = EventsContract::new();
    contract.add_trigger(trigger("t", EventType::TradeExecuted, address(1))).unwrap();
    let code = EventType::TradeExecuted.code();
    assert!(contract.can_process_event(code, None));
    contract.next_id = u64::MAX;
    assert!(!contract.can_process_event(code, None));
    assert!(contract.can_process_event(EventType::VolatilitySpike.code(), None));
    contract.next_id = 0;
    let ids = contract.process_event(symbol("p"), code, &vec![], None, 0).unwrap();
    let done = AnalysisStatus::Completed.code();
    assert!(contract.can_update_analysis(ids[0], done, Some(5)));
    contract.metrics.successful_analyses = u64::MAX;
    assert!(!contract.can_update_analysis(ids[0], done, Some(5)));
    assert!(contract.can_update_analysis(ids[0] + 1, done, Some(5)));
    assert!(contract.can_time_out(ids[0]));
    contract.metrics.timed_out_analyses = u64::MAX;
    assert!(!contract.can_time_out(ids[0]));
    contract.metrics.recommendations_accepted = u64::MAX;
    assert!(contract.can_take_feedback(77, true));
}
