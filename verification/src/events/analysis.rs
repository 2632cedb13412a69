//! Triggers, the analyses they ask for, and the recommendations that come of
//! them.
use crate::events::contract::{EventsContract, EventsLedger};
use crate::events::triggers;
use crate::events::triggers::TriggerEvaluator;
use crate::events::types::{
    AITrigger, AnalysisMetrics, AnalysisResult, AnalysisStatus, AnalysisView, Error, EventType,
    Notice, Recommendation, RecommendationType,
};
use crate::math;
use crate::table;
use crate::table::{OrderedTable, Table};
use crate::values;
use crate::values::{Address, Symbol, U256};
use vstd::prelude::*;

verus! {

/// A service that runs analyses.
pub trait AIServiceClient {
    /// Ask for an analysis; gives its id.
    fn submit_analysis(
        contract: &mut EventsContract,
        trigger: &AITrigger,
        portfolio_id: Symbol,
        event_data: &Vec<u8>,
    ) -> (r: Result<u64, Symbol>)
        requires
            old(contract)@.next_id < u64::MAX,
    ;

    /// How far an analysis has come.
    fn check_analysis_status(contract: &EventsContract, analysis_id: u64) -> (r: Result<
        AnalysisStatus,
        Symbol,
    >);
}

/// A service that reads requests off the published notices.
pub struct SorobanAIServiceClient;

impl AIServiceClient for SorobanAIServiceClient {
    fn submit_analysis(
        contract: &mut EventsContract,
        trigger: &AITrigger,
        portfolio_id: Symbol,
        event_data: &Vec<u8>,
    ) -> (r: Result<u64, Symbol>)
        ensures
            r == Ok::<u64, Symbol>((old(contract)@.next_id + 1) as u64),
            final(contract)@ == (EventsLedger {
                next_id: (old(contract)@.next_id + 1) as u64,
                ..old(contract)@
            }).published(
                Notice::AnalysisSubmitted {
                    portfolio_id,
                    trigger_id: trigger.trigger_id,
                    analysis_id: (old(contract)@.next_id + 1) as u64,
                },
            ),
            final(contract).triggers == old(contract).triggers,
            final(contract).analyses == old(contract).analyses,
            final(contract).recommendations == old(contract).recommendations,
    {
        let analysis_id = contract.hand_out_id();
        contract.outbox.push(
            Notice::AnalysisSubmitted { portfolio_id, trigger_id: trigger.trigger_id, analysis_id },
        );
        Ok(analysis_id)
    }

    fn check_analysis_status(contract: &EventsContract, analysis_id: u64) -> (r: Result<
        AnalysisStatus,
        Symbol,
    >)
        ensures
            r == (if contract@.statuses.contains_key(analysis_id) {
                Ok::<AnalysisStatus, Symbol>(AnalysisStatus::of(contract@.statuses[analysis_id]))
            } else {
                Err::<AnalysisStatus, Symbol>(values::symbol_of("NOT_FOUND"@))
            }),
    {
        match contract.statuses.get(&analysis_id) {
            Some(status) => Ok(AnalysisStatus::from(*status)),
            None => Err(Symbol::from_text("NOT_FOUND")),
        }
    }
}

/// What the output of a service recommends: its action, or else none.
pub open spec fn action_of(ai_output: Map<Symbol, u32>) -> u32 {
    let action = values::symbol_of("action"@);
    if ai_output.contains_key(action) {
        RecommendationType::of(ai_output[action]).number()
    } else {
        RecommendationType::NoAction.number()
    }
}

/// The recommendation of a completed analysis.
pub open spec fn recommendation_of(
    analysis: AnalysisView,
    ai_output: Map<Symbol, u32>,
    id: u64,
    now: u64,
) -> Recommendation {
    Recommendation {
        recommendation_id: id,
        analysis_id: analysis.analysis_id,
        portfolio_id: analysis.portfolio_id,
        action_type: action_of(ai_output),
        asset: values::symbol_of(""@),
        has_amount: false,
        amount: U256 { hi: 0, lo: 0 },
        confidence_score: table::value_or(ai_output, values::symbol_of("conf"@), 0u32),
        timestamp: now,
        accepted: None,
    }
}

/// Turns analyses into recommendations.
pub struct RecommendationEngine;

impl RecommendationEngine {
    /// The recommendation of an analysis, which must be completed.
    pub fn generate_recommendation(
        contract: &mut EventsContract,
        analysis: &AnalysisResult,
        ai_output: &Table<Symbol, u32>,
        now: u64,
    ) -> (r: Result<Recommendation, Symbol>)
        requires
            old(contract)@.next_id < u64::MAX,
        ensures
            if analysis.status != AnalysisStatus::Completed.number() {
                r == Err::<Recommendation, Symbol>(values::symbol_of("BAD_STATE"@))
                    && *final(contract) == *old(contract)
            } else {
                r == Ok::<Recommendation, Symbol>(
                    recommendation_of(
                        analysis@,
                        ai_output@,
                        (old(contract)@.next_id + 1) as u64,
                        now,
                    ),
                ) && *final(contract) == (EventsContract {
                    next_id: (old(contract)@.next_id + 1) as u64,
                    ..*old(contract)
                })
            },
    {
        if analysis.status != AnalysisStatus::Completed.code() {
            return Err(Symbol::from_text("BAD_STATE"));
        }
        let action_type = match ai_output.get(&Symbol::from_text("action")) {
            Some(action) => RecommendationType::from(*action).code(),
            None => RecommendationType::NoAction.code(),
        };
        let confidence: u32 = match ai_output.get(&Symbol::from_text("conf")) {
            Some(c) => *c,
            None => 0,
        };
        let recommendation_id = contract.hand_out_id();
        Ok(
            Recommendation {
                recommendation_id,
                analysis_id: analysis.analysis_id,
                portfolio_id: analysis.portfolio_id,
                action_type,
                asset: Symbol::from_text(""),
                has_amount: false,
                amount: U256 { hi: 0, lo: 0 },
                confidence_score: confidence,
                timestamp: now,
                accepted: None,
            },
        )
    }
}

/// How sure a recommendation is that comes of an output.
pub const OUTPUT_CONFIDENCE: u32 = 85;

/// What the raw output of a service says: its first byte is the action.
pub open spec fn read_output(raw_output: Seq<u8>) -> Map<Symbol, u32> {
    if raw_output.len() == 0 {
        Map::empty()
    } else {
        Map::<Symbol, u32>::empty().insert(
            values::symbol_of("action"@),
            raw_output[0] as u32,
        ).insert(values::symbol_of("conf"@), OUTPUT_CONFIDENCE)
    }
}

/// A recommendation follows the first byte of the output; without output
/// there is nothing to do.
pub proof fn recommendations_follow_the_output(raw_output: Seq<u8>)
    ensures
        raw_output.len() > 0 ==> action_of(read_output(raw_output)) == RecommendationType::of(
            raw_output[0] as u32,
        ).number(),
        raw_output.len() == 0 ==> action_of(read_output(raw_output))
            == RecommendationType::NoAction.number(),
{
    reveal_strlit("action");
    reveal_strlit("conf");
    assert("action"@.len() != "conf"@.len());
    if values::symbol_of("action"@) == values::symbol_of("conf"@) {
        values::symbols_tell_texts_apart("action"@, "conf"@);
    }
}

/// An analysis that was just asked for.
pub open spec fn requested_analysis(
    analysis_id: u64,
    trigger_id: Symbol,
    portfolio_id: Symbol,
    now: u64,
) -> AnalysisView {
    AnalysisView {
        analysis_id,
        trigger_id,
        portfolio_id,
        timestamp: now,
        latency_ms: 0,
        status: AnalysisStatus::Pending.number(),
        raw_output: Seq::empty(),
        error_message: values::symbol_of(""@),
    }
}

/// The bytes of an output, if there is one.
pub open spec fn bytes_of(raw_output: Option<Vec<u8>>) -> Option<Seq<u8>> {
    match raw_output {
        Some(o) => Some(o@),
        None => None,
    }
}

/// An analysis with a new status and whatever came with it.
pub open spec fn reported(
    analysis: AnalysisView,
    status: u32,
    latency_ms: Option<u64>,
    raw_output: Option<Seq<u8>>,
    error: Option<Symbol>,
) -> AnalysisView {
    AnalysisView {
        status,
        latency_ms: match latency_ms {
            Some(l) => l,
            None => analysis.latency_ms,
        },
        raw_output: match raw_output {
            Some(o) => o,
            None => analysis.raw_output,
        },
        error_message: match error {
            Some(e) => e,
            None => values::symbol_of(""@),
        },
        ..analysis
    }
}

/// The average latency after one more completed analysis; one without a
/// latency does not count.
pub open spec fn average_after(metrics: AnalysisMetrics, latency_ms: u64) -> int {
    let before = metrics.successful_analyses;
    if latency_ms == 0 {
        metrics.average_latency_ms as int
    } else if before == 0 {
        latency_ms as int
    } else {
        (metrics.average_latency_ms * before + latency_ms) / (before + 1)
    }
}

/// The metrics after an analysis got a status.
pub open spec fn counted(
    metrics: AnalysisMetrics,
    status: AnalysisStatus,
    latency_ms: u64,
) -> AnalysisMetrics {
    match status {
        AnalysisStatus::Completed => AnalysisMetrics {
            successful_analyses: (metrics.successful_analyses + 1) as u64,
            average_latency_ms: average_after(metrics, latency_ms) as u64,
            ..metrics
        },
        AnalysisStatus::Failed => AnalysisMetrics {
            failed_analyses: (metrics.failed_analyses + 1) as u64,
            ..metrics
        },
        AnalysisStatus::TimedOut => AnalysisMetrics {
            timed_out_analyses: (metrics.timed_out_analyses + 1) as u64,
            ..metrics
        },
        _ => metrics,
    }
}

/// Whether the metrics can count one more status.
pub open spec fn can_count(
    metrics: AnalysisMetrics,
    status: AnalysisStatus,
    latency_ms: u64,
) -> bool {
    match status {
        AnalysisStatus::Completed => metrics.successful_analyses < u64::MAX && (latency_ms > 0
            ==> metrics.average_latency_ms * metrics.successful_analyses + latency_ms <= u64::MAX),
        AnalysisStatus::Failed => metrics.failed_analyses < u64::MAX,
        AnalysisStatus::TimedOut => metrics.timed_out_analyses < u64::MAX,
        _ => true,
    }
}

/// The average latency stays between the old average and the new latency.
pub proof fn the_average_is_between(metrics: AnalysisMetrics, latency_ms: u64)
    requires
        latency_ms > 0,
        metrics.successful_analyses > 0,
    ensures
        ({
            let old_average = metrics.average_latency_ms;
            let new_average = average_after(metrics, latency_ms);
            &&& old_average <= latency_ms ==> old_average <= new_average <= latency_ms
            &&& latency_ms <= old_average ==> latency_ms <= new_average <= old_average
        }),
{
    let a = metrics.average_latency_ms as int;
    let n = metrics.successful_analyses as int;
    let l = latency_ms as int;
    let q = (a * n + l) / (n + 1);
    if a <= l {
        assert(a <= q <= l) by (nonlinear_arith)
            requires
                a <= l,
                n > 0,
                q == (a * n + l) / (n + 1),
        ;
    }
    if l <= a {
        assert(l <= q <= a) by (nonlinear_arith)
            requires
                l <= a,
                n > 0,
                q == (a * n + l) / (n + 1),
        ;
    }
}

/// Which triggers fire, in the order of their ids.
pub open spec fn fired(
    triggers: Map<Symbol, AITrigger>,
    event_type: EventType,
    value: Option<i128>,
) -> Seq<Symbol> {
    table::ordered(triggers).filter(
        |t: (Symbol, AITrigger)| t.1.is_active && triggers::fires(t.1, event_type, value),
    ).map_values(|t: (Symbol, AITrigger)| t.0)
}

/// The value of an event as the triggers see it; one that 128 signed bits do
/// not hold counts as none.
pub open spec fn seen_value(current_value: Option<U256>) -> Option<i128> {
    match current_value {
        Some(v) => if v.value() <= i128::MAX {
            Some(v.value() as i128)
        } else {
            None
        },
        None => None,
    }
}

/// The value of an event as the triggers see it.
pub(crate) fn see_value(current_value: Option<U256>) -> (value: Option<i128>)
    ensures
        value == seen_value(current_value),
{
    match current_value {
        Some(v) => match v.to_u128() {
            Some(n) => {
                if n <= i128::MAX as u128 {
                    Some(n as i128)
                } else {
                    None
                }
            },
            None => None,
        },
        None => None,
    }
}

impl EventsLedger {
    /// Whether the counters hold the analyses that an event asks for.
    pub open spec fn can_ask(self, event_type: u32, current_value: Option<U256>) -> bool {
        let n = fired(self.triggers, EventType::of(event_type), seen_value(current_value)).len();
        &&& self.next_id + n <= u64::MAX
        &&& self.metrics.total_analyses + n <= u64::MAX
    }

    /// Whether the counters hold a report of how an analysis has come along.
    pub open spec fn can_report(
        self,
        analysis_id: u64,
        status: u32,
        latency_ms: Option<u64>,
    ) -> bool {
        self.analyses.contains_key(analysis_id) ==> {
            let latency = match latency_ms {
                Some(l) => l,
                None => self.analyses[analysis_id].latency_ms,
            };
            &&& can_count(self.metrics, AnalysisStatus::of(status), latency)
            &&& AnalysisStatus::of(status) == AnalysisStatus::Completed ==> self.next_id < u64::MAX
        }
    }

    /// Whether the counters hold that an analysis took too long.
    pub open spec fn can_time_out(self, analysis_id: u64) -> bool {
        self.analyses.contains_key(analysis_id) && self.analyses[analysis_id].status
            <= AnalysisStatus::InProgress.number() ==> self.metrics.timed_out_analyses < u64::MAX
    }

    /// Whether the counters hold an answer to a recommendation.
    pub open spec fn can_take_feedback(self, recommendation_id: u64, accepted: bool) -> bool {
        self.recommendations.contains_key(recommendation_id) ==> if accepted {
            self.metrics.recommendations_accepted < u64::MAX
        } else {
            self.metrics.recommendations_rejected < u64::MAX
        }
    }

    /// The state after analyses were asked for, one after another.
    pub open spec fn asked_for(
        self,
        portfolio_id: Symbol,
        trigger_ids: Seq<Symbol>,
        now: u64,
    ) -> EventsLedger
        decreases trigger_ids.len(),
    {
        if trigger_ids.len() == 0 {
            self
        } else {
            let so_far = self.asked_for(portfolio_id, trigger_ids.drop_last(), now);
            let trigger_id = trigger_ids.last();
            let analysis_id = (so_far.next_id + 1) as u64;
            EventsLedger {
                next_id: analysis_id,
                analyses: so_far.analyses.insert(
                    analysis_id,
                    requested_analysis(analysis_id, trigger_id, portfolio_id, now),
                ),
                statuses: so_far.statuses.insert(analysis_id, AnalysisStatus::Pending.number()),
                metrics: AnalysisMetrics {
                    total_analyses: (so_far.metrics.total_analyses + 1) as u64,
                    ..so_far.metrics
                },
                outbox: so_far.outbox.push(
                    Notice::AnalysisSubmitted { portfolio_id, trigger_id, analysis_id },
                ).push(Notice::AnalysisRequested { portfolio_id, trigger_id, analysis_id }),
                ..so_far
            }
        }
    }

    /// The state after an analysis got a status; a completed one gives a
    /// recommendation.
    pub open spec fn after_report(
        self,
        analysis_id: u64,
        analysis: AnalysisView,
        now: u64,
    ) -> EventsLedger {
        let status = AnalysisStatus::of(analysis.status);
        let counted_in = EventsLedger {
            analyses: self.analyses.insert(analysis_id, analysis),
            statuses: self.statuses.insert(analysis_id, analysis.status),
            metrics: counted(self.metrics, status, analysis.latency_ms),
            ..self
        };
        if status == AnalysisStatus::Completed {
            let id = (self.next_id + 1) as u64;
            EventsLedger {
                next_id: id,
                recommendations: self.recommendations.insert(
                    id,
                    recommendation_of(analysis, read_output(analysis.raw_output), id, now),
                ),
                ..counted_in
            }.published(
                Notice::Recommended {
                    portfolio_id: analysis.portfolio_id,
                    analysis_id,
                    recommendation_id: id,
                },
            )
        } else {
            counted_in
        }
    }
}

/// Asking for analyses hands out the ids that follow the last one.
proof fn lemma_asked_for(
    ledger: EventsLedger,
    portfolio_id: Symbol,
    trigger_ids: Seq<Symbol>,
    now: u64,
)
    requires
        ledger.next_id + trigger_ids.len() <= u64::MAX,
        ledger.metrics.total_analyses + trigger_ids.len() <= u64::MAX,
    ensures
        ledger.asked_for(portfolio_id, trigger_ids, now).next_id == ledger.next_id
            + trigger_ids.len(),
        ledger.asked_for(portfolio_id, trigger_ids, now).metrics.total_analyses
            == ledger.metrics.total_analyses + trigger_ids.len(),
        ledger.asked_for(portfolio_id, trigger_ids, now).triggers == ledger.triggers,
    decreases trigger_ids.len(),
{
    if trigger_ids.len() > 0 {
        lemma_asked_for(ledger, portfolio_id, trigger_ids.drop_last(), now);
    }
}

impl EventsContract {
    /// Add a trigger; its id must be new.
    pub fn add_trigger(&mut self, trigger: AITrigger) -> (r: Result<Symbol, Error>)
        requires
            old(self).wf(),
        ensures
            final(self).wf(),
            if old(self)@.triggers.contains_key(trigger.trigger_id) {
                r == Err::<Symbol, Error>(Error::AlreadyExists) && final(self)@ == old(self)@
            } else {
                r == Ok::<Symbol, Error>(values::symbol_of("OK"@)) && final(self)@ == (EventsLedger {
                    triggers: old(self)@.triggers.insert(trigger.trigger_id, trigger),
                    ..old(self)@
                }).published(Notice::TriggerAdded { trigger_id: trigger.trigger_id })
            },
    {
        let trigger_id = trigger.trigger_id;
        if self.triggers.get(&trigger_id).is_some() {
            return Err(Error::AlreadyExists);
        }
        let ghost ledger = self@;
        self.triggers.set(trigger_id, trigger);
        self.outbox.push(Notice::TriggerAdded { trigger_id });
        assert(self@.analyses == ledger.analyses);
        assert(self@.wf());
        Ok(Symbol::from_text("OK"))
    }

    /// Remove a trigger, as its owner.
    pub fn remove_trigger(&mut self, trigger_id: Symbol, owner: Address) -> (r: Result<
        Symbol,
        Error,
    >)
        requires
            old(self).wf(),
        ensures
            final(self).wf(),
            if !old(self)@.triggers.contains_key(trigger_id) {
                r == Err::<Symbol, Error>(Error::NotFound) && final(self)@ == old(self)@
            } else if old(self)@.triggers[trigger_id].owner != owner {
                r == Err::<Symbol, Error>(Error::Unauthorized) && final(self)@ == old(self)@
            } else {
                r == Ok::<Symbol, Error>(values::symbol_of("OK"@)) && final(self)@ == (EventsLedger {
                    triggers: old(self)@.triggers.remove(trigger_id),
                    ..old(self)@
                }).published(Notice::TriggerRemoved { trigger_id })
            },
    {
        match self.triggers.get(&trigger_id) {
            Some(trigger) => {
                if trigger.owner != owner {
                    return Err(Error::Unauthorized);
                }
            },
            None => {
                return Err(Error::NotFound);
            },
        }
        let ghost ledger = self@;
        self.triggers.take(&trigger_id);
        self.outbox.push(Notice::TriggerRemoved { trigger_id });
        assert(self@.analyses == ledger.analyses);
        assert(self@.wf());
        Ok(Symbol::from_text("OK"))
    }

    /// Ask for an analysis for every active trigger that fires on an event;
    /// gives the ids of the analyses.
    pub fn process_event(
        &mut self,
        portfolio_id: Symbol,
        event_type: u32,
        event_data: &Vec<u8>,
        current_value: Option<U256>,
        now: u64,
    ) -> (r: Result<Vec<u64>, Error>)
        requires
            old(self).wf(),
            old(self)@.can_ask(event_type, current_value),
        ensures
            final(self).wf(),
            r is Ok,
            ({
                let ids = fired(
                    old(self)@.triggers,
                    EventType::of(event_type),
                    seen_value(current_value),
                );
                &&& r->Ok_0@ == Seq::new(
                    ids.len(),
                    |i: int| (old(self)@.next_id + 1 + i) as u64,
                )
                &&& final(self)@ == old(self)@.asked_for(portfolio_id, ids, now)
            }),
    {
        let ghost ledger = self@;
        let event = EventType::from(event_type);
        let value = see_value(current_value);
        let ghost entries = table::ordered(ledger.triggers);
        let ghost keep = |t: (Symbol, AITrigger)|
            t.1.is_active && triggers::fires(t.1, event, value);
        let ghost name = |t: (Symbol, AITrigger)| t.0;
        let ghost ids = fired(ledger.triggers, event, value);
        let mut triggers: OrderedTable<Symbol, AITrigger> = OrderedTable::new();
        std::mem::swap(&mut triggers, &mut self.triggers);
        let mut analysis_ids: Vec<u64> = Vec::new();
        let mut i: usize = 0;
        proof {
            triggers.lemma_in_order();
            table::lemma_filter_none(entries, keep);
            assert(entries.take(0).filter(keep).map_values(name) =~= Seq::<Symbol>::empty());
            assert(analysis_ids@ =~= Seq::<u64>::new(
                0,
                |k: int| (ledger.next_id + 1 + k) as u64,
            ));
        }
        while i < triggers.len()
            invariant
                i <= triggers.in_order().len(),
                triggers.in_order() == entries,
                entries == table::ordered(ledger.triggers),
                triggers.wf(),
                triggers.view() == ledger.triggers,
                ledger.wf(),
                self.wf(),
                self.triggers.view() == Map::<Symbol, AITrigger>::empty(),
                keep == (|t: (Symbol, AITrigger)|
                    t.1.is_active && triggers::fires(t.1, event, value)),
                name == (|t: (Symbol, AITrigger)| t.0),
                ids == entries.filter(keep).map_values(name),
                ledger.next_id + ids.len() <= u64::MAX,
                ledger.metrics.total_analyses + ids.len() <= u64::MAX,
                ({
                    let so_far = entries.take(i as int).filter(keep).map_values(name);
                    &&& analysis_ids@ == Seq::new(
                        so_far.len(),
                        |k: int| (ledger.next_id + 1 + k) as u64,
                    )
                    &&& self@ == (EventsLedger {
                        triggers: Map::empty(),
                        ..ledger.asked_for(portfolio_id, so_far, now)
                    })
                }),
            decreases triggers.in_order().len() - i,
        {
            let ghost so_far = entries.take(i as int).filter(keep).map_values(name);
            proof {
                table::lemma_filter_step(entries, i as int, keep);
                lemma_filter_grows(entries, keep, i + 1);
                triggers.lemma_in_order();
            }
            let (trigger_id, trigger) = triggers.at(i);
            assert((*trigger_id, *trigger) == entries[i as int]);
            assert(trigger.trigger_id == *trigger_id);
            if trigger.is_active && TriggerEvaluator::evaluate(trigger, event, value) {
                assert(entries.take(i + 1).filter(keep).map_values(name) =~= so_far.push(
                    *trigger_id,
                ));
                assert(so_far.push(*trigger_id).drop_last() =~= so_far);
                proof {
                    lemma_asked_for(ledger, portfolio_id, so_far, now);
                }
                match SorobanAIServiceClient::submit_analysis(
                    self,
                    trigger,
                    portfolio_id,
                    event_data,
                ) {
                    Ok(analysis_id) => {
                        let analysis = AnalysisResult {
                            analysis_id,
                            trigger_id: *trigger_id,
                            portfolio_id,
                            timestamp: now,
                            latency_ms: 0,
                            status: AnalysisStatus::Pending.code(),
                            raw_output: Vec::new(),
                            error_message: Symbol::from_text(""),
                        };
                        let ghost before = self@.analyses;
                        let ghost view = analysis@;
                        assert(view == requested_analysis(
                            analysis_id,
                            *trigger_id,
                            portfolio_id,
                            now,
                        ));
                        self.analyses.set(analysis_id, analysis);
                        assert(self@.analyses =~= before.insert(analysis_id, view));
                        self.statuses.set(analysis_id, AnalysisStatus::Pending.code());
                        self.metrics.total_analyses = self.metrics.total_analyses + 1;
                        analysis_ids.push(analysis_id);
                        self.outbox.push(
                            Notice::AnalysisRequested {
                                portfolio_id,
                                trigger_id: *trigger_id,
                                analysis_id,
                            },
                        );
                        proof {
                            let all = so_far.push(*trigger_id);
                            assert(analysis_ids@ =~= Seq::new(
                                all.len(),
                                |k: int| (ledger.next_id + 1 + k) as u64,
                            ));
                            assert(self@ == (EventsLedger {
                                triggers: Map::empty(),
                                ..ledger.asked_for(portfolio_id, all, now)
                            }));
                        }
                    },
                    Err(error) => {
                        self.outbox.push(Notice::AnalysisError { trigger_id: *trigger_id, error });
                    },
                }
            } else {
                assert(entries.take(i + 1).filter(keep).map_values(name) =~= so_far);
            }
            i += 1;
        }
        assert(entries.take(i as int) =~= entries);
        proof {
            lemma_asked_for(ledger, portfolio_id, ids, now);
        }
        let ghost after = self@;
        std::mem::swap(&mut triggers, &mut self.triggers);
        proof {
            assert(after.wf());
            assert(self@.analyses == after.analyses);
            assert(self@ == (EventsLedger { triggers: ledger.triggers, ..after }));
            assert(self@.recommendations == after.recommendations);
            assert(self@.subscriptions == after.subscriptions);
            assert(self@.histories == after.histories);
            assert(self@.managed == after.managed);
        }
        Ok(analysis_ids)
    }

    /// Report how an analysis has come along. A completed one gives a
    /// recommendation.
    pub fn update_analysis_status(
        &mut self,
        analysis_id: u64,
        status: u32,
        latency_ms: Option<u64>,
        raw_output: Option<Vec<u8>>,
        error: Option<Symbol>,
        now: u64,
    ) -> (r: Result<Symbol, Error>)
        requires
            old(self).wf(),
            old(self)@.can_report(analysis_id, status, latency_ms),
        ensures
            final(self).wf(),
            if !old(self)@.analyses.contains_key(analysis_id) {
                r == Err::<Symbol, Error>(Error::NotFound) && final(self)@ == old(self)@
            } else {
                r == Ok::<Symbol, Error>(values::symbol_of("OK"@)) && final(self)@ == old(
                    self,
                )@.after_report(
                    analysis_id,
                    reported(
                        old(self)@.analyses[analysis_id],
                        status,
                        latency_ms,
                        bytes_of(raw_output),
                        error,
                    ),
                    now,
                )
            },
    {
        let ghost ledger = self@;
        let ghost output = bytes_of(raw_output);
        assert(self.analyses.view().contains_key(analysis_id) == ledger.analyses.contains_key(
            analysis_id,
        ));
        let mut analysis = match self.analyses.take(&analysis_id) {
            Some(a) => a,
            None => {
                assert(self@ == ledger);
                return Err(Error::NotFound);
            },
        };
        assert(analysis@ == ledger.analyses[analysis_id]);
        let new_status = AnalysisStatus::from(status);
        analysis.status = status;
        if let Some(latency) = latency_ms {
            analysis.latency_ms = latency;
        }
        if let Some(raw) = raw_output {
            analysis.raw_output = raw;
        }
        analysis.error_message = match error {
            Some(e) => e,
            None => Symbol::from_text(""),
        };
        let ghost after = reported(
            ledger.analyses[analysis_id],
            status,
            latency_ms,
            output,
            error,
        );
        assert(analysis@ == after);
        self.statuses.set(analysis_id, status);
        match new_status {
            AnalysisStatus::Completed => {
                let before = self.metrics.successful_analyses;
                if analysis.latency_ms > 0 && before > 0 {
                    let average = self.metrics.average_latency_ms;
                    proof {
                        the_average_is_between(ledger.metrics, analysis.latency_ms);
                        assert(0 <= average * before) by (nonlinear_arith)
                            requires
                                0 <= average,
                                0 <= before,
                        ;
                    }
                    self.metrics.average_latency_ms = (average * before + analysis.latency_ms) / (
                    before + 1);
                } else if analysis.latency_ms > 0 {
                    self.metrics.average_latency_ms = analysis.latency_ms;
                }
                self.metrics.successful_analyses = before + 1;
            },
            AnalysisStatus::Failed => {
                self.metrics.failed_analyses = self.metrics.failed_analyses + 1;
            },
            AnalysisStatus::TimedOut => {
                self.metrics.timed_out_analyses = self.metrics.timed_out_analyses + 1;
            },
            _ => {},
        }
        if let AnalysisStatus::Completed = new_status {
            let mut ai_output: Table<Symbol, u32> = Table::new();
            if analysis.raw_output.len() > 0 {
                ai_output.set(Symbol::from_text("action"), analysis.raw_output[0] as u32);
                ai_output.set(Symbol::from_text("conf"), OUTPUT_CONFIDENCE);
            }
            assert(ai_output@ == read_output(analysis.raw_output@));
            if let Ok(recommendation) = RecommendationEngine::generate_recommendation(
                self,
                &analysis,
                &ai_output,
                now,
            ) {
                let recommendation_id = recommendation.recommendation_id;
                self.recommendations.set(recommendation_id, recommendation);
                self.outbox.push(
                    Notice::Recommended {
                        portfolio_id: analysis.portfolio_id,
                        analysis_id,
                        recommendation_id,
                    },
                );
            }
        }
        self.analyses.set(analysis_id, analysis);
        proof {
            assert(self@.analyses =~= ledger.analyses.insert(analysis_id, after));
            assert(self@ == ledger.after_report(analysis_id, after, now));
        }
        Ok(Symbol::from_text("OK"))
    }

    /// Give an analysis up that is pending or in progress.
    pub fn process_timeout(&mut self, analysis_id: u64) -> (r: Result<Symbol, Error>)
        requires
            old(self).wf(),
            old(self)@.can_time_out(analysis_id),
        ensures
            final(self).wf(),
            ({
                let ledger = old(self)@;
                let analysis = ledger.analyses[analysis_id];
                if !ledger.analyses.contains_key(analysis_id) {
                    r == Err::<Symbol, Error>(Error::NotFound) && final(self)@ == ledger
                } else if analysis.status != AnalysisStatus::Pending.number() && analysis.status
                    != AnalysisStatus::InProgress.number() {
                    r == Err::<Symbol, Error>(Error::InvalidState) && final(self)@ == ledger
                } else {
                    r == Ok::<Symbol, Error>(values::symbol_of("OK"@)) && final(self)@ == (
                    EventsLedger {
                        analyses: ledger.analyses.insert(
                            analysis_id,
                            AnalysisView {
                                status: AnalysisStatus::TimedOut.number(),
                                error_message: values::symbol_of("TIMEOUT"@),
                                ..analysis
                            },
                        ),
                        statuses: ledger.statuses.insert(
                            analysis_id,
                            AnalysisStatus::TimedOut.number(),
                        ),
                        metrics: AnalysisMetrics {
                            timed_out_analyses: (ledger.metrics.timed_out_analyses + 1) as u64,
                            ..ledger.metrics
                        },
                        ..ledger
                    }).published(Notice::TimedOut { analysis_id })
                }
            }),
    {
        let ghost ledger = self@;
        assert(self.analyses.view().contains_key(analysis_id) == ledger.analyses.contains_key(
            analysis_id,
        ));
        match self.analyses.get(&analysis_id) {
            Some(analysis) => {
                assert(analysis@ == ledger.analyses[analysis_id]);
                if analysis.status != AnalysisStatus::Pending.code() && analysis.status
                    != AnalysisStatus::InProgress.code() {
                    return Err(Error::InvalidState);
                }
            },
            None => {
                return Err(Error::NotFound);
            },
        }
        let taken = self.analyses.take(&analysis_id);
        if let Some(mut analysis) = taken {
            assert(analysis@ == ledger.analyses[analysis_id]);
            analysis.status = AnalysisStatus::TimedOut.code();
            analysis.error_message = Symbol::from_text("TIMEOUT");
            let ghost after = analysis@;
            self.analyses.set(analysis_id, analysis);
            assert(self@.analyses =~= ledger.analyses.insert(analysis_id, after));
        }
        self.statuses.set(analysis_id, AnalysisStatus::TimedOut.code());
        self.metrics.timed_out_analyses = self.metrics.timed_out_analyses + 1;
        self.outbox.push(Notice::TimedOut { analysis_id });
        Ok(Symbol::from_text("OK"))
    }

    /// Note whether a recommendation was accepted.
    pub fn process_recommendation_feedback(&mut self, recommendation_id: u64, accepted: bool) -> (r:
        Result<Symbol, Error>)
        requires
            old(self).wf(),
            old(self)@.can_take_feedback(recommendation_id, accepted),
        ensures
            final(self).wf(),
            ({
                let ledger = old(self)@;
                let metrics = ledger.metrics;
                if !ledger.recommendations.contains_key(recommendation_id) {
                    r == Err::<Symbol, Error>(Error::NotFound) && final(self)@ == ledger
                } else {
                    r == Ok::<Symbol, Error>(values::symbol_of("OK"@)) && final(self)@ == (
                    EventsLedger {
                        recommendations: ledger.recommendations.insert(
                            recommendation_id,
                            Recommendation {
                                accepted: Some(accepted),
                                ..ledger.recommendations[recommendation_id]
                            },
                        ),
                        metrics: if accepted {
                            AnalysisMetrics {
                                recommendations_accepted: (metrics.recommendations_accepted + 1) as u64,
                                ..metrics
                            }
                        } else {
                            AnalysisMetrics {
                                recommendations_rejected: (metrics.recommendations_rejected + 1) as u64,
                                ..metrics
                            }
                        },
                        ..ledger
                    })
                }
            }),
    {
        let mut rec = match self.recommendations.get(&recommendation_id) {
            Some(rec) => *rec,
            None => {
                return Err(Error::NotFound);
            },
        };
        rec.accepted = Some(accepted);
        self.recommendations.set(recommendation_id, rec);
        if accepted {
            self.metrics.recommendations_accepted = self.metrics.recommendations_accepted + 1;
        } else {
            self.metrics.recommendations_rejected = self.metrics.recommendations_rejected + 1;
        }
        Ok(Symbol::from_text("OK"))
    }

    /// The analyses of a portfolio, in the order of their ids.
    pub fn get_portfolio_analyses(&self, portfolio_id: &Symbol) -> (results: Vec<&AnalysisResult>)
        requires
            self.wf(),
        ensures
            table::targets(results@) == table::ordered(self.analyses.view()).filter(
                |e: (u64, AnalysisResult)| e.1.portfolio_id == *portfolio_id,
            ).map_values(|e: (u64, AnalysisResult)| e.1),
    {
        let ghost entries = self.analyses.in_order();
        let ghost keep = |e: (u64, AnalysisResult)| e.1.portfolio_id == *portfolio_id;
        let ghost value = |e: (u64, AnalysisResult)| e.1;
        let mut results: Vec<&AnalysisResult> = Vec::new();
        let mut i: usize = 0;
        proof {
            self.analyses.lemma_in_order();
            table::lemma_filter_none(entries, keep);
            assert(table::targets(results@) =~= entries.take(0).filter(keep).map_values(value));
        }
        while i < self.analyses.len()
            invariant
                i <= entries.len(),
                entries == self.analyses.in_order(),
                keep == (|e: (u64, AnalysisResult)| e.1.portfolio_id == *portfolio_id),
                value == (|e: (u64, AnalysisResult)| e.1),
                table::targets(results@) == entries.take(i as int).filter(keep).map_values(value),
            decreases entries.len() - i,
        {
            let entry = self.analyses.at(i);
            proof {
                table::lemma_filter_step(entries, i as int, keep);
                table::lemma_targets_push(results@, &entry.1);
            }
            let ghost so_far = entries.take(i as int).filter(keep);
            if entry.1.portfolio_id == *portfolio_id {
                results.push(&entry.1);
                assert(so_far.push(*entry).map_values(value) =~= so_far.map_values(value).push(
                    entry.1,
                ));
            }
            i += 1;
        }
        assert(entries.take(i as int) =~= entries);
        results
    }

    /// The recommendations for a portfolio, in the order of their ids.
    pub fn get_portfolio_recommendations(&self, portfolio_id: &Symbol) -> (results: Vec<
        Recommendation,
    >)
        requires
            self.wf(),
        ensures
            results@ == table::ordered(self@.recommendations).filter(
                |e: (u64, Recommendation)| e.1.portfolio_id == *portfolio_id,
            ).map_values(|e: (u64, Recommendation)| e.1),
    {
        let ghost entries = self.recommendations.in_order();
        let ghost keep = |e: (u64, Recommendation)| e.1.portfolio_id == *portfolio_id;
        let ghost value = |e: (u64, Recommendation)| e.1;
        let mut results: Vec<Recommendation> = Vec::new();
        let mut i: usize = 0;
        proof {
            self.recommendations.lemma_in_order();
            table::lemma_filter_none(entries, keep);
            assert(results@ =~= entries.take(0).filter(keep).map_values(value));
        }
        while i < self.recommendations.len()
            invariant
                i <= entries.len(),
                entries == self.recommendations.in_order(),
                keep == (|e: (u64, Recommendation)| e.1.portfolio_id == *portfolio_id),
                value == (|e: (u64, Recommendation)| e.1),
                results@ == entries.take(i as int).filter(keep).map_values(value),
            decreases entries.len() - i,
        {
            let entry = self.recommendations.at(i);
            proof {
                table::lemma_filter_step(entries, i as int, keep);
            }
            if entry.1.portfolio_id == *portfolio_id {
                results.push(entry.1);
            }
            i += 1;
            assert(results@ =~= entries.take(i as int).filter(keep).map_values(value));
        }
        assert(entries.take(i as int) =~= entries);
        results
    }

    /// How analyses fare.
    pub fn get_metrics(&self) -> (metrics: AnalysisMetrics)
        ensures
            metrics == self@.metrics,
    {
        self.metrics
    }

    /// All triggers, in the order of their ids.
    pub fn get_all_triggers(&self) -> (results: Vec<&AITrigger>)
        requires
            self.wf(),
        ensures
            table::targets(results@) == table::ordered(self@.triggers).map_values(
                |e: (Symbol, AITrigger)| e.1,
            ),
    {
        let ghost entries = self.triggers.in_order();
        let ghost value = |e: (Symbol, AITrigger)| e.1;
        let mut results: Vec<&AITrigger> = Vec::new();
        let mut i: usize = 0;
        proof {
            self.triggers.lemma_in_order();
            assert(table::targets(results@) =~= entries.take(0).map_values(value));
        }
        while i < self.triggers.len()
            invariant
                i <= entries.len(),
                entries == self.triggers.in_order(),
                value == (|e: (Symbol, AITrigger)| e.1),
                table::targets(results@) == entries.take(i as int).map_values(value),
            decreases entries.len() - i,
        {
            let entry = self.triggers.at(i);
            proof {
                table::lemma_targets_push(results@, &entry.1);
            }
            results.push(&entry.1);
            i += 1;
            assert(entries.take(i as int).map_values(value) =~= entries.take(i - 1).map_values(
                value,
            ).push(entry.1));
        }
        assert(entries.take(i as int) =~= entries);
        results
    }
}

/// Filtering a prefix keeps no more than filtering the whole.
proof fn lemma_filter_grows<T>(s: Seq<T>, keep: spec_fn(T) -> bool, k: int)
    requires
        0 <= k <= s.len(),
    ensures
        s.take(k).filter(keep).len() <= s.filter(keep).len(),
    decreases s.len() - k,
{
    if k == s.len() {
        assert(s.take(k) =~= s);
    } else {
        table::lemma_filter_step(s, k, keep);
        lemma_filter_grows(s, keep, k + 1);
    }
}

/// The average latency accounts for every analysis that told one: together the
/// average and the count before give back what was measured, but for
/// rounding. An analysis that told none does not move it.
pub proof fn averages_account_for_every_latency(metrics: AnalysisMetrics, latency_ms: u64)
    ensures
        ({
            let n = metrics.successful_analyses as int;
            let before = metrics.average_latency_ms as int;
            let after = average_after(metrics, latency_ms);
            &&& latency_ms == 0 ==> after == before
            &&& latency_ms > 0 && n == 0 ==> after == latency_ms
            &&& latency_ms > 0 && n > 0 ==> after * (n + 1) <= before * n + latency_ms < (after + 1)
                * (n + 1)
        }),
{
    let n = metrics.successful_analyses as int;
    let total = metrics.average_latency_ms * n + latency_ms;
    assert(0 <= metrics.average_latency_ms * n) by (nonlinear_arith)
        requires
            0 <= n,
            0 <= metrics.average_latency_ms,
    ;
    math::quotients_round_toward_zero(total, n + 1);
    assert(total / (n + 1) * (n + 1) <= total < (total / (n + 1) + 1) * (n + 1)) by (nonlinear_arith)
        requires
            n >= 0,
            total >= 0,
    ;
}

/// A report is counted once, under what became of the analysis; one that is
/// under way is not counted.
pub proof fn reports_are_counted_once(
    metrics: AnalysisMetrics,
    status: AnalysisStatus,
    latency_ms: u64,
)
    requires
        can_count(metrics, status, latency_ms),
    ensures
        ({
            let after = counted(metrics, status, latency_ms);
            &&& after.successful_analyses - metrics.successful_analyses == (if status is Completed {
                1int
            } else {
                0
            })
            &&& after.failed_analyses - metrics.failed_analyses == (if status is Failed {
                1int
            } else {
                0
            })
            &&& after.timed_out_analyses - metrics.timed_out_analyses == (if status is TimedOut {
                1int
            } else {
                0
            })
            &&& after.total_analyses == metrics.total_analyses
            &&& after.recommendations_accepted == metrics.recommendations_accepted
            &&& after.recommendations_rejected == metrics.recommendations_rejected
            &&& !(status is Completed) ==> after.average_latency_ms == metrics.average_latency_ms
        }),
{
}

/// A report changes an analysis to what it says. What it is silent on stays,
/// but an error is told anew each time.
pub proof fn reports_say_what_changed(
    analysis: AnalysisView,
    status: u32,
    latency_ms: Option<u64>,
    raw_output: Option<Seq<u8>>,
    error: Option<Symbol>,
)
    ensures
        ({
            let after = reported(analysis, status, latency_ms, raw_output, error);
            &&& after.status == status
            &&& latency_ms is Some ==> after.latency_ms == latency_ms->0
            &&& latency_ms is None ==> after.latency_ms == analysis.latency_ms
            &&& raw_output is Some ==> after.raw_output == raw_output->0
            &&& raw_output is None ==> after.raw_output == analysis.raw_output
            &&& error is Some ==> after.error_message == error->0
            &&& error is None ==> after.error_message == values::symbol_of(""@)
            &&& after.analysis_id == analysis.analysis_id && after.trigger_id == analysis.trigger_id
                && after.portfolio_id == analysis.portfolio_id && after.timestamp
                == analysis.timestamp
        }),
{
}

/// A recommendation tells what the first byte of the output says: one of the
/// five actions by its number, or none. It names its analysis, and nobody has
/// taken or refused it yet.
pub proof fn recommendations_tell_their_analysis(analysis: AnalysisView, id: u64, now: u64)
    ensures
        ({
            let r = recommendation_of(analysis, read_output(analysis.raw_output), id, now);
            &&& r.recommendation_id == id && r.analysis_id == analysis.analysis_id && r.portfolio_id
                == analysis.portfolio_id && r.timestamp == now && r.accepted is None
                && !r.has_amount
            &&& analysis.raw_output.len() == 0 ==> r.action_type == 5 && r.confidence_score == 0
            &&& analysis.raw_output.len() > 0 ==> r.confidence_score == 85 && r.action_type
                == math::least(analysis.raw_output[0] as int, 5)
        }),
{
    reveal_strlit("action");
    reveal_strlit("conf");
    assert("action"@.len() != "conf"@.len());
    if values::symbol_of("action"@) == values::symbol_of("conf"@) {
        values::symbols_tell_texts_apart("action"@, "conf"@);
    }
}

/// Exactly the active triggers that the event sets off fire.
pub proof fn active_triggers_fire(
    triggers: OrderedTable<Symbol, AITrigger>,
    event_type: EventType,
    value: Option<i128>,
    id: Symbol,
)
    requires
        triggers.wf(),
    ensures
        fired(triggers.view(), event_type, value).contains(id) <==> triggers.view().contains_key(id)
            && triggers.view()[id].is_active && triggers::fires(
            triggers.view()[id],
            event_type,
            value,
        ),
{
    triggers.lemma_in_order();
    let m = triggers.view();
    let s = table::ordered(m);
    let keep = |t: (Symbol, AITrigger)| t.1.is_active && triggers::fires(t.1, event_type, value);
    let kept = s.filter(keep);
    let ids = fired(m, event_type, value);
    if ids.contains(id) {
        let k = ids.index_of(id);
        s.lemma_filter_pred(keep, k);
        s.lemma_filter_contains_rev(keep, kept[k]);
        let i = s.index_of(kept[k]);
        assert(m[s[i].0] == s[i].1);
    }
    if m.contains_key(id) && m[id].is_active && triggers::fires(m[id], event_type, value) {
        let i = choose|i: int| 0 <= i < s.len() && (#[trigger] s[i]).0 == id;
        assert(m[s[i].0] == s[i].1);
        s.lemma_filter_contains(keep, i);
        let k = kept.index_of(s[i]);
        assert(ids[k] == id);
    }
}

/// Each trigger that fired gets an analysis of its own, under the next id,
/// which waits; every one of them is counted and asked for in order.
pub proof fn each_trigger_gets_an_analysis(
    ledger: EventsLedger,
    portfolio_id: Symbol,
    trigger_ids: Seq<Symbol>,
    now: u64,
    k: int,
)
    requires
        0 <= k < trigger_ids.len(),
        ledger.next_id + trigger_ids.len() <= u64::MAX,
        ledger.metrics.total_analyses + trigger_ids.len() <= u64::MAX,
    ensures
        ({
            let after = ledger.asked_for(portfolio_id, trigger_ids, now);
            let id = (ledger.next_id + k + 1) as u64;
            &&& after.next_id == ledger.next_id + trigger_ids.len()
            &&& after.metrics.total_analyses == ledger.metrics.total_analyses + trigger_ids.len()
            &&& after.analyses.contains_key(id) && after.statuses.contains_key(id)
            &&& after.statuses[id] == 0
            &&& after.analyses[id].analysis_id == id && after.analyses[id].trigger_id
                == trigger_ids[k] && after.analyses[id].portfolio_id == portfolio_id
                && after.analyses[id].timestamp == now && after.analyses[id].status == 0
                && after.analyses[id].latency_ms == 0
            &&& after.outbox.len() == ledger.outbox.len() + 2 * trigger_ids.len()
            &&& after.outbox[ledger.outbox.len() + 2 * k + 1] == (Notice::AnalysisRequested {
                portfolio_id,
                trigger_id: trigger_ids[k],
                analysis_id: id,
            })
        }),
    decreases trigger_ids.len(),
{
    let less = trigger_ids.drop_last();
    lemma_asked_for(ledger, portfolio_id, less, now);
    lemma_asked_for(ledger, portfolio_id, trigger_ids, now);
    if k < less.len() {
        each_trigger_gets_an_analysis(ledger, portfolio_id, less, now, k);
        assert(less[k] == trigger_ids[k]);
    } else {
        lemma_asked_outbox(ledger, portfolio_id, less, now);
    }
}

proof fn lemma_asked_outbox(
    ledger: EventsLedger,
    portfolio_id: Symbol,
    trigger_ids: Seq<Symbol>,
    now: u64,
)
    ensures
        ledger.asked_for(portfolio_id, trigger_ids, now).outbox.len() == ledger.outbox.len() + 2
            * trigger_ids.len(),
    decreases trigger_ids.len(),
{
    if trigger_ids.len() > 0 {
        lemma_asked_outbox(ledger, portfolio_id, trigger_ids.drop_last(), now);
    }
}

/// An analysis that is completed, and no other, brings a recommendation, which
/// is kept under the next id and published.
pub proof fn completed_analyses_bring_recommendations(
    ledger: EventsLedger,
    analysis_id: u64,
    analysis: AnalysisView,
    now: u64,
)
    requires
        ledger.next_id < u64::MAX,
    ensures
        ({
            let after = ledger.after_report(analysis_id, analysis, now);
            let id = (ledger.next_id + 1) as u64;
            &&& after.analyses == ledger.analyses.insert(analysis_id, analysis)
            &&& after.statuses == ledger.statuses.insert(analysis_id, analysis.status)
            &&& analysis.status == 2 ==> after.next_id == id && after.recommendations.contains_key(
                id,
            ) && after.recommendations[id].recommendation_id == id
                && after.recommendations[id].analysis_id == analysis.analysis_id
                && after.outbox == ledger.outbox.push(
                Notice::Recommended {
                    portfolio_id: analysis.portfolio_id,
                    analysis_id,
                    recommendation_id: id,
                },
            )
            &&& analysis.status != 2 ==> after.next_id == ledger.next_id && after.recommendations
                == ledger.recommendations && after.outbox == ledger.outbox
        }),
{
}

/// A value is compared where it fits the range that is compared in, as what it
/// is; one that does not fit, or that was not told, is not compared.
pub proof fn values_are_compared_where_they_fit(current_value: Option<U256>)
    ensures
        current_value is Some && current_value->0.value() <= i128::MAX ==> seen_value(current_value)
            is Some && seen_value(current_value)->0 == current_value->0.value(),
        current_value is Some && current_value->0.value() > i128::MAX ==> seen_value(
            current_value,
        ) is None,
        current_value is None ==> seen_value(current_value) is None,
{
}

} // verus!
