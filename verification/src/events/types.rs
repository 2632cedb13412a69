//! What the events contract stores and hands out.
use crate::table::OrderedTable;
use crate::values::{Address, Symbol, U256};
use vstd::prelude::*;

verus! {

/// Why a call was refused.
#[derive(Clone, Copy, PartialEq, Eq, PartialOrd, Ord, Structural, Debug)]
pub enum Error {
    AlreadyExists,
    NotFound,
    Unauthorized,
    InvalidState,
}

impl Error {
    /// The number under which an error is reported.
    pub open spec fn number(self) -> u32 {
        match self {
            Error::AlreadyExists => 1,
            Error::NotFound => 2,
            Error::Unauthorized => 3,
            Error::InvalidState => 4,
        }
    }

    /// The number under which an error is reported.
    pub fn code(self) -> (code: u32)
        ensures
            code == self.number(),
    {
        match self {
            Error::AlreadyExists => 1,
            Error::NotFound => 2,
            Error::Unauthorized => 3,
            Error::InvalidState => 4,
        }
    }
}

/// What happened to a portfolio.
#[derive(Clone, Copy, PartialEq, Eq, Structural, Debug)]
pub enum PortfolioEventType {
    Rebalanced,
    BalanceChanged,
    AllocationUpdated,
    ThresholdBreached,
    TradeExecuted,
    PriceAlertTriggered,
    Custom,
}

impl PortfolioEventType {
    /// The type as a number.
    pub open spec fn number(self) -> u32 {
        match self {
            PortfolioEventType::Rebalanced => 0,
            PortfolioEventType::BalanceChanged => 1,
            PortfolioEventType::AllocationUpdated => 2,
            PortfolioEventType::ThresholdBreached => 3,
            PortfolioEventType::TradeExecuted => 4,
            PortfolioEventType::PriceAlertTriggered => 5,
            PortfolioEventType::Custom => 99,
        }
    }

    /// The type as a number.
    pub fn code(self) -> (code: u32)
        ensures
            code == self.number(),
    {
        match self {
            PortfolioEventType::Rebalanced => 0,
            PortfolioEventType::BalanceChanged => 1,
            PortfolioEventType::AllocationUpdated => 2,
            PortfolioEventType::ThresholdBreached => 3,
            PortfolioEventType::TradeExecuted => 4,
            PortfolioEventType::PriceAlertTriggered => 5,
            PortfolioEventType::Custom => 99,
        }
    }
}

/// A portfolio event. Ids ascend over all portfolios.
pub struct Event {
    pub event_id: u64,
    pub portfolio_id: Symbol,
    pub event_type: PortfolioEventType,
    pub timestamp: u64,
    pub details: OrderedTable<Symbol, Vec<u8>>,
    pub metadata: Vec<u8>,
}

/// Who wants to hear of which events of a portfolio.
pub struct Subscription {
    pub subscriber: Address,
    pub portfolio_id: Symbol,
    /// None means all.
    pub event_types: Vec<PortfolioEventType>,
    /// The position among the portfolio's subscriptions.
    pub order_index: u32,
    pub subscribed_at: u64,
    pub is_active: bool,
}

/// What can trigger an analysis.
#[derive(Clone, Copy, PartialEq, Eq, Structural, Debug)]
pub enum EventType {
    PortfolioRebalance,
    TradeExecuted,
    PriceThresholdCrossed,
    VolatilitySpike,
    LiquidityChange,
    CustomEvent,
}

impl EventType {
    /// The type as a number.
    pub open spec fn number(self) -> u32 {
        match self {
            EventType::PortfolioRebalance => 0,
            EventType::TradeExecuted => 1,
            EventType::PriceThresholdCrossed => 2,
            EventType::VolatilitySpike => 3,
            EventType::LiquidityChange => 4,
            EventType::CustomEvent => 99,
        }
    }

    /// The type that a number stands for; one that is not known is custom.
    pub open spec fn of(value: u32) -> EventType {
        if value == 0 {
            EventType::PortfolioRebalance
        } else if value == 1 {
            EventType::TradeExecuted
        } else if value == 2 {
            EventType::PriceThresholdCrossed
        } else if value == 3 {
            EventType::VolatilitySpike
        } else if value == 4 {
            EventType::LiquidityChange
        } else {
            EventType::CustomEvent
        }
    }

    /// The type as a number.
    pub fn code(self) -> (code: u32)
        ensures
            code == self.number(),
    {
        match self {
            EventType::PortfolioRebalance => 0,
            EventType::TradeExecuted => 1,
            EventType::PriceThresholdCrossed => 2,
            EventType::VolatilitySpike => 3,
            EventType::LiquidityChange => 4,
            EventType::CustomEvent => 99,
        }
    }
}

impl From<u32> for EventType {
    fn from(value: u32) -> (event_type: Self) {
        match value {
            0 => EventType::PortfolioRebalance,
            1 => EventType::TradeExecuted,
            2 => EventType::PriceThresholdCrossed,
            3 => EventType::VolatilitySpike,
            4 => EventType::LiquidityChange,
            _ => EventType::CustomEvent,
        }
    }
}

impl vstd::std_specs::convert::FromSpecImpl<u32> for EventType {
    open spec fn obeys_from_spec() -> bool {
        true
    }

    open spec fn from_spec(value: u32) -> Self {
        EventType::of(value)
    }
}

/// How a value is held against a threshold.
#[derive(Clone, Copy, PartialEq, Eq, Structural, Debug)]
pub enum ComparisonOperator {
    GreaterThan,
    LessThan,
    EqualTo,
    GreaterOrEqual,
    LessOrEqual,
}

impl ComparisonOperator {
    /// The operator that a number stands for; one that is not known is
    /// greater-than.
    pub open spec fn of(value: u32) -> ComparisonOperator {
        if value == 1 {
            ComparisonOperator::LessThan
        } else if value == 2 {
            ComparisonOperator::EqualTo
        } else if value == 3 {
            ComparisonOperator::GreaterOrEqual
        } else if value == 4 {
            ComparisonOperator::LessOrEqual
        } else {
            ComparisonOperator::GreaterThan
        }
    }

    /// Whether `value` stands in this relation to `threshold`.
    pub open spec fn holds(self, value: int, threshold: int) -> bool {
        match self {
            ComparisonOperator::GreaterThan => value > threshold,
            ComparisonOperator::LessThan => value < threshold,
            ComparisonOperator::EqualTo => value == threshold,
            ComparisonOperator::GreaterOrEqual => value >= threshold,
            ComparisonOperator::LessOrEqual => value <= threshold,
        }
    }
}

impl From<u32> for ComparisonOperator {
    fn from(value: u32) -> (operator: Self) {
        match value {
            0 => ComparisonOperator::GreaterThan,
            1 => ComparisonOperator::LessThan,
            2 => ComparisonOperator::EqualTo,
            3 => ComparisonOperator::GreaterOrEqual,
            4 => ComparisonOperator::LessOrEqual,
            _ => ComparisonOperator::GreaterThan,
        }
    }
}

impl vstd::std_specs::convert::FromSpecImpl<u32> for ComparisonOperator {
    open spec fn obeys_from_spec() -> bool {
        true
    }

    open spec fn from_spec(value: u32) -> Self {
        ComparisonOperator::of(value)
    }
}

/// How far an analysis has come.
#[derive(Clone, Copy, PartialEq, Eq, Structural, Debug)]
pub enum AnalysisStatus {
    Pending,
    InProgress,
    Completed,
    Failed,
    TimedOut,
}

impl AnalysisStatus {
    /// The status as a number.
    pub open spec fn number(self) -> u32 {
        match self {
            AnalysisStatus::Pending => 0,
            AnalysisStatus::InProgress => 1,
            AnalysisStatus::Completed => 2,
            AnalysisStatus::Failed => 3,
            AnalysisStatus::TimedOut => 4,
        }
    }

    /// The status that a number stands for; one that is not known is pending.
    pub open spec fn of(value: u32) -> AnalysisStatus {
        if value == 1 {
            AnalysisStatus::InProgress
        } else if value == 2 {
            AnalysisStatus::Completed
        } else if value == 3 {
            AnalysisStatus::Failed
        } else if value == 4 {
            AnalysisStatus::TimedOut
        } else {
            AnalysisStatus::Pending
        }
    }

    /// The status as a number.
    pub fn code(self) -> (code: u32)
        ensures
            code == self.number(),
    {
        match self {
            AnalysisStatus::Pending => 0,
            AnalysisStatus::InProgress => 1,
            AnalysisStatus::Completed => 2,
            AnalysisStatus::Failed => 3,
            AnalysisStatus::TimedOut => 4,
        }
    }
}

impl From<u32> for AnalysisStatus {
    fn from(value: u32) -> (status: Self) {
        match value {
            0 => AnalysisStatus::Pending,
            1 => AnalysisStatus::InProgress,
            2 => AnalysisStatus::Completed,
            3 => AnalysisStatus::Failed,
            4 => AnalysisStatus::TimedOut,
            _ => AnalysisStatus::Pending,
        }
    }
}

impl vstd::std_specs::convert::FromSpecImpl<u32> for AnalysisStatus {
    open spec fn obeys_from_spec() -> bool {
        true
    }

    open spec fn from_spec(value: u32) -> Self {
        AnalysisStatus::of(value)
    }
}

/// What an analysis recommends.
#[derive(Clone, Copy, PartialEq, Eq, Structural, Debug)]
pub enum RecommendationType {
    Hold,
    Buy,
    Sell,
    Rebalance,
    Monitor,
    NoAction,
}

impl RecommendationType {
    /// The type as a number.
    pub open spec fn number(self) -> u32 {
        match self {
            RecommendationType::Hold => 0,
            RecommendationType::Buy => 1,
            RecommendationType::Sell => 2,
            RecommendationType::Rebalance => 3,
            RecommendationType::Monitor => 4,
            RecommendationType::NoAction => 5,
        }
    }

    /// The type that a number stands for; one that is not known is no action.
    pub open spec fn of(value: u32) -> RecommendationType {
        if value == 0 {
            RecommendationType::Hold
        } else if value == 1 {
            RecommendationType::Buy
        } else if value == 2 {
            RecommendationType::Sell
        } else if value == 3 {
            RecommendationType::Rebalance
        } else if value == 4 {
            RecommendationType::Monitor
        } else {
            RecommendationType::NoAction
        }
    }

    /// The type as a number.
    pub fn code(self) -> (code: u32)
        ensures
            code == self.number(),
    {
        match self {
            RecommendationType::Hold => 0,
            RecommendationType::Buy => 1,
            RecommendationType::Sell => 2,
            RecommendationType::Rebalance => 3,
            RecommendationType::Monitor => 4,
            RecommendationType::NoAction => 5,
        }
    }
}

impl From<u32> for RecommendationType {
    fn from(value: u32) -> (recommendation: Self) {
        match value {
            0 => RecommendationType::Hold,
            1 => RecommendationType::Buy,
            2 => RecommendationType::Sell,
            3 => RecommendationType::Rebalance,
            4 => RecommendationType::Monitor,
            _ => RecommendationType::NoAction,
        }
    }
}

impl vstd::std_specs::convert::FromSpecImpl<u32> for RecommendationType {
    open spec fn obeys_from_spec() -> bool {
        true
    }

    open spec fn from_spec(value: u32) -> Self {
        RecommendationType::of(value)
    }
}

/// When an analysis is asked for.
pub struct AITrigger {
    pub trigger_id: Symbol,
    pub name: Symbol,
    pub event_types: Vec<u32>,
    pub has_threshold: bool,
    pub threshold: U256,
    pub has_operator: bool,
    pub operator: u32,
    pub ai_service_endpoint: Address,
    pub timeout: u64,
    pub is_active: bool,
    pub owner: Address,
}

/// A value, a threshold, and how they are compared.
#[derive(Clone, Copy, PartialEq, Eq, Structural, Debug)]
pub struct TriggerCondition {
    pub current_value: i128,
    pub threshold: i128,
    pub operator: ComparisonOperator,
}

/// An analysis that was asked for.
pub struct AnalysisResult {
    pub analysis_id: u64,
    pub trigger_id: Symbol,
    pub portfolio_id: Symbol,
    pub timestamp: u64,
    pub latency_ms: u64,
    pub status: u32,
    pub raw_output: Vec<u8>,
    pub error_message: Symbol,
}

/// An analysis as a value.
pub struct AnalysisView {
    pub analysis_id: u64,
    pub trigger_id: Symbol,
    pub portfolio_id: Symbol,
    pub timestamp: u64,
    pub latency_ms: u64,
    pub status: u32,
    pub raw_output: Seq<u8>,
    pub error_message: Symbol,
}

impl View for AnalysisResult {
    type V = AnalysisView;

    open spec fn view(&self) -> AnalysisView {
        AnalysisView {
            analysis_id: self.analysis_id,
            trigger_id: self.trigger_id,
            portfolio_id: self.portfolio_id,
            timestamp: self.timestamp,
            latency_ms: self.latency_ms,
            status: self.status,
            raw_output: self.raw_output@,
            error_message: self.error_message,
        }
    }
}

/// What came out of an analysis.
#[derive(Clone, Copy, PartialEq, Eq, Structural, Debug)]
pub struct Recommendation {
    pub recommendation_id: u64,
    pub analysis_id: u64,
    pub portfolio_id: Symbol,
    pub action_type: u32,
    pub asset: Symbol,
    pub has_amount: bool,
    pub amount: U256,
    pub confidence_score: u32,
    pub timestamp: u64,
    pub accepted: Option<bool>,
}

/// How analyses fare.
#[derive(Clone, Copy, PartialEq, Eq, Structural, Debug)]
pub struct AnalysisMetrics {
    pub total_analyses: u64,
    pub successful_analyses: u64,
    pub failed_analyses: u64,
    pub timed_out_analyses: u64,
    pub average_latency_ms: u64,
    pub recommendations_accepted: u64,
    pub recommendations_rejected: u64,
}

/// Metrics before the first analysis.
pub open spec fn no_analyses() -> AnalysisMetrics {
    AnalysisMetrics {
        total_analyses: 0,
        successful_analyses: 0,
        failed_analyses: 0,
        timed_out_analyses: 0,
        average_latency_ms: 0,
        recommendations_accepted: 0,
        recommendations_rejected: 0,
    }
}

impl Default for AnalysisMetrics {
    fn default() -> (metrics: Self)
        ensures
            metrics == no_analyses(),
    {
        AnalysisMetrics {
            total_analyses: 0,
            successful_analyses: 0,
            failed_analyses: 0,
            timed_out_analyses: 0,
            average_latency_ms: 0,
            recommendations_accepted: 0,
            recommendations_rejected: 0,
        }
    }
}

/// What is published.
#[derive(Clone, Copy, PartialEq, Eq, Structural, Debug)]
pub enum Notice {
    TriggerAdded { trigger_id: Symbol },
    TriggerRemoved { trigger_id: Symbol },
    AnalysisSubmitted { portfolio_id: Symbol, trigger_id: Symbol, analysis_id: u64 },
    AnalysisRequested { portfolio_id: Symbol, trigger_id: Symbol, analysis_id: u64 },
    AnalysisError { trigger_id: Symbol, error: Symbol },
    Recommended { portfolio_id: Symbol, analysis_id: u64, recommendation_id: u64 },
    TimedOut { analysis_id: u64 },
    Subscribed { portfolio_id: Symbol, subscriber: Address, order_index: u32 },
    Unsubscribed { portfolio_id: Symbol, subscriber: Address },
    PortfolioEvent { portfolio_id: Symbol, event_type: PortfolioEventType, event_id: u64 },
    Notify { subscriber: Address, portfolio_id: Symbol, event_id: u64 },
    SubscriptionCreated { portfolio_id: Symbol, subscription_id: u64 },
    Delivered { subscriber: Address, event_id: u64, subscription_id: u64 },
    DeliveryFailed { subscriber: Address, event_id: u64 },
}

/// Every kind has a number of its own that stands for it, and a number that
/// stands for none is taken as the kind that is assumed: an event of the
/// user's own, an analysis that waits, no action.
pub proof fn numbers_stand_for_kinds(
    event_type: EventType,
    status: AnalysisStatus,
    action: RecommendationType,
    number: u32,
)
    ensures
        EventType::of(event_type.number()) == event_type,
        AnalysisStatus::of(status.number()) == status,
        RecommendationType::of(action.number()) == action,
        number > 4 ==> EventType::of(number) == EventType::CustomEvent && AnalysisStatus::of(number)
            == AnalysisStatus::Pending && RecommendationType::of(number)
            == RecommendationType::NoAction,
        number <= 4 ==> EventType::of(number).number() == number && AnalysisStatus::of(
            number,
        ).number() == number && RecommendationType::of(number).number() == number,
        status.number() <= 1 <==> status is Pending || status is InProgress,
        AnalysisStatus::of(number) is Completed <==> number == 2,
        AnalysisStatus::of(number) is Failed <==> number == 3,
        AnalysisStatus::of(number) is TimedOut <==> number == 4,
{
}

/// Operators go by number: below, equal, not below, not above, and above for
/// every other number. Of two values at most one is below the other, and an
/// operator that allows equality is the denial of the opposite strict one.
pub proof fn operators_compare(number: u32, value: int, threshold: int)
    ensures
        number == 1 ==> (ComparisonOperator::of(number).holds(value, threshold) <==> value
            < threshold),
        number == 2 ==> (ComparisonOperator::of(number).holds(value, threshold) <==> value
            == threshold),
        number == 3 ==> (ComparisonOperator::of(number).holds(value, threshold) <==> !(value
            < threshold)),
        number == 4 ==> (ComparisonOperator::of(number).holds(value, threshold) <==> !(value
            > threshold)),
        number == 0 || number > 4 ==> (ComparisonOperator::of(number).holds(value, threshold)
            <==> value > threshold),
{
}

/// At the start no analysis was asked for, and none has ended.
pub proof fn counting_starts_at_nothing()
    ensures
        ({
            let m = no_analyses();
            &&& m.total_analyses + m.successful_analyses + m.failed_analyses == 0
            &&& m.timed_out_analyses + m.average_latency_ms == 0
            &&& m.recommendations_accepted + m.recommendations_rejected == 0
        }),
{
}

} // verus!
