//! Managed subscriptions: filters, delivery preferences and delivery records.
use crate::events::types::PortfolioEventType;
use crate::table::OrderedTable;
use crate::values::{Address, Symbol};
use vstd::prelude::*;

verus! {

/// The longest wait between two delivery attempts, in seconds.
pub const MAX_BACKOFF_SECS: u64 = 3_600;

/// How events reach a subscriber.
#[derive(Clone, Copy, PartialEq, Eq, Structural, Debug)]
pub enum DeliveryMode {
    /// Each by itself.
    Immediate,
    /// Collected, and sent together.
    Batch,
}

/// Where a delivery is.
#[derive(Clone, Copy, PartialEq, Eq, Structural, Debug)]
pub enum DeliveryStatus {
    Pending,
    Delivered,
    Acknowledged,
}

/// Where a managed subscription is.
#[derive(Clone, Copy, PartialEq, Eq, Structural, Debug)]
pub enum SubscriptionStatus {
    Active,
    Paused,
    Cancelled,
}

impl SubscriptionStatus {
    /// Whether events are delivered in this status.
    pub fn is_receives_events(&self) -> (b: bool)
        ensures
            b == (*self == SubscriptionStatus::Active),
    {
        match self {
            SubscriptionStatus::Active => true,
            _ => false,
        }
    }
}

/// Which events a managed subscription is for.
pub struct EventFilter {
    /// None means all.
    pub event_types: Vec<PortfolioEventType>,
    pub min_severity: u32,
    /// Details that an event must have.
    pub required_details: Vec<Symbol>,
}

impl EventFilter {
    /// Whether an event passes.
    pub open spec fn passes(
        self,
        event_type: PortfolioEventType,
        severity: u32,
        details: Map<Symbol, Vec<u8>>,
    ) -> bool {
        &&& self.event_types@.len() == 0 || self.event_types@.contains(event_type)
        &&& severity >= self.min_severity
        &&& forall|i: int|
            0 <= i < self.required_details@.len() ==> details.contains_key(
                #[trigger] self.required_details@[i],
            )
    }

    /// Whether an event passes.
    pub fn matches(
        &self,
        event_type: &PortfolioEventType,
        severity: u32,
        details: &OrderedTable<Symbol, Vec<u8>>,
    ) -> (b: bool)
        requires
            details.wf(),
        ensures
            b == self.passes(*event_type, severity, details.view()),
    {
        if !wants(&self.event_types, event_type) {
            return false;
        }
        if severity < self.min_severity {
            return false;
        }
        let mut i: usize = 0;
        while i < self.required_details.len()
            invariant
                i <= self.required_details@.len(),
                details.wf(),
                forall|j: int|
                    0 <= j < i ==> details.view().contains_key(
                        #[trigger] self.required_details@[j],
                    ),
            decreases self.required_details@.len() - i,
        {
            if details.get(&self.required_details[i]).is_none() {
                return false;
            }
            i += 1;
        }
        true
    }
}

/// Whether a list of types, of which none means all, has a type.
pub fn wants(event_types: &Vec<PortfolioEventType>, event_type: &PortfolioEventType) -> (b: bool)
    ensures
        b == (event_types@.len() == 0 || event_types@.contains(*event_type)),
{
    if event_types.len() == 0 {
        return true;
    }
    let mut i: usize = 0;
    while i < event_types.len()
        invariant
            i <= event_types@.len(),
            forall|j: int| 0 <= j < i ==> event_types@[j] != *event_type,
        decreases event_types@.len() - i,
    {
        if event_types[i] == *event_type {
            return true;
        }
        i += 1;
    }
    false
}

/// How a subscriber wants events delivered.
#[derive(Clone, Copy, PartialEq, Eq, Structural, Debug)]
pub struct SubscriptionPreferences {
    pub mode: DeliveryMode,
    /// How many events make a batch.
    pub batch_size: u32,
}

/// A subscription with a filter and preferences.
pub struct ManagedSubscription {
    pub id: u64,
    pub subscriber: Address,
    pub portfolio_id: Symbol,
    pub filter: EventFilter,
    pub prefs: SubscriptionPreferences,
    pub created_at: u64,
    pub last_event_received_at: Option<u64>,
    pub status: SubscriptionStatus,
    pub total_delivered: u64,
    pub total_failed: u64,
}

/// One event on its way to one subscriber.
#[derive(Clone, Copy, PartialEq, Eq, Structural, Debug)]
pub struct DeliveryRecord {
    pub event_id: u64,
    pub subscription_id: u64,
    pub subscriber: Address,
    pub status: DeliveryStatus,
    pub attempts: u32,
    pub next_retry_at: u64,
    pub delivered_at: Option<u64>,
    pub acked_at: Option<u64>,
}

/// How deliveries fare.
#[derive(Clone, Copy, PartialEq, Eq, Structural, Debug)]
pub struct DeliveryMetrics {
    pub total_dispatched: u32,
    pub total_delivered: u32,
    pub total_retry_attempts: u32,
    pub total_failed: u32,
    pub total_acknowledged: u32,
    /// Seconds from delivery to acknowledgement, added up.
    pub latency_sum_secs: u64,
}

/// Metrics before the first delivery.
pub open spec fn no_deliveries() -> DeliveryMetrics {
    DeliveryMetrics {
        total_dispatched: 0,
        total_delivered: 0,
        total_retry_attempts: 0,
        total_failed: 0,
        total_acknowledged: 0,
        latency_sum_secs: 0,
    }
}

impl DeliveryMetrics {
    /// Metrics before the first delivery.
    pub fn new() -> (metrics: DeliveryMetrics)
        ensures
            metrics == no_deliveries(),
    {
        DeliveryMetrics {
            total_dispatched: 0,
            total_delivered: 0,
            total_retry_attempts: 0,
            total_failed: 0,
            total_acknowledged: 0,
            latency_sum_secs: 0,
        }
    }
}

/// Seconds to wait after `attempt` failures: one second, doubled each time, up
/// to an hour.
pub open spec fn backoff(attempt: nat) -> nat
    decreases attempt,
{
    if attempt == 0 {
        1
    } else {
        let doubled = 2 * backoff((attempt - 1) as nat);
        if doubled > MAX_BACKOFF_SECS {
            MAX_BACKOFF_SECS as nat
        } else {
            doubled
        }
    }
}

proof fn lemma_backoff_range(attempt: nat)
    ensures
        1 <= backoff(attempt) <= MAX_BACKOFF_SECS,
    decreases attempt,
{
    if attempt > 0 {
        lemma_backoff_range((attempt - 1) as nat);
    }
}

proof fn lemma_backoff_stays(attempt: nat, later: nat)
    requires
        attempt <= later,
        backoff(attempt) == MAX_BACKOFF_SECS,
    ensures
        backoff(later) == MAX_BACKOFF_SECS,
    decreases later,
{
    if attempt < later {
        lemma_backoff_stays(attempt, (later - 1) as nat);
    }
}

/// Waits never get shorter, and none is longer than an hour.
pub proof fn backoff_never_shrinks(attempt: nat, later: nat)
    requires
        attempt <= later,
    ensures
        1 <= backoff(attempt) <= backoff(later) <= MAX_BACKOFF_SECS,
    decreases later,
{
    lemma_backoff_range(attempt);
    lemma_backoff_range(later);
    if attempt < later {
        backoff_never_shrinks(attempt, (later - 1) as nat);
    }
}

/// Seconds to wait after `attempt` failures.
pub fn backoff_delay(attempt: u32) -> (delay: u64)
    ensures
        delay == backoff(attempt as nat),
        1 <= delay <= MAX_BACKOFF_SECS,
{
    let mut delay: u64 = 1;
    let mut n: u32 = 0;
    while n < attempt && delay < MAX_BACKOFF_SECS
        invariant
            n <= attempt,
            delay == backoff(n as nat),
            1 <= delay <= MAX_BACKOFF_SECS,
        decreases attempt - n,
    {
        delay = 2 * delay;
        if delay > MAX_BACKOFF_SECS {
            delay = MAX_BACKOFF_SECS;
        }
        n += 1;
    }
    proof {
        if n < attempt {
            lemma_backoff_stays(n as nat, attempt as nat);
        }
    }
    delay
}

/// The wait before another attempt starts at a second and doubles with each
/// attempt until it reaches an hour.
pub proof fn waits_double_up_to_an_hour(attempt: nat)
    ensures
        backoff(0) == 1,
        2 * backoff(attempt) <= 3_600 ==> backoff(attempt + 1) == 2 * backoff(attempt),
        2 * backoff(attempt) > 3_600 ==> backoff(attempt + 1) == 3_600,
{
    lemma_backoff_range(attempt);
}

/// A filter lets an event through that is of one of its types, or of any where
/// it names none; that is severe enough; and that has every detail it asks
/// for. It holds back every other.
pub proof fn filters_let_through_what_they_ask_for(
    filter: EventFilter,
    event_type: PortfolioEventType,
    severity: u32,
    details: Map<Symbol, Vec<u8>>,
    i: int,
)
    ensures
        severity < filter.min_severity ==> !filter.passes(event_type, severity, details),
        filter.event_types@.len() > 0 && !filter.event_types@.contains(event_type)
            ==> !filter.passes(event_type, severity, details),
        0 <= i < filter.required_details@.len() && !details.contains_key(
            filter.required_details@[i],
        ) ==> !filter.passes(event_type, severity, details),
        severity >= filter.min_severity && (filter.event_types@.len() == 0
            || filter.event_types@.contains(event_type)) && (forall|j: int|
            0 <= j < filter.required_details@.len() ==> details.contains_key(
                #[trigger] filter.required_details@[j],
            )) ==> filter.passes(event_type, severity, details),
{
}

/// At the start nothing was dispatched, delivered, tried again, failed or
/// acknowledged.
pub proof fn counting_starts_at_nothing()
    ensures
        ({
            let m = no_deliveries();
            &&& m.total_dispatched + m.total_delivered + m.total_retry_attempts == 0
            &&& m.total_failed + m.total_acknowledged + m.latency_sum_secs == 0
        }),
{
}

} // verus!
