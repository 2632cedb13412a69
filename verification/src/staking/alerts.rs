//! Alerts on balances, yields and unlock dates.
//!
//! A staker sets thresholds for an asset; checking them against what is
//! observed fires an alert for each one that is breached. An alert is
//! published and kept in a history, where it can be acknowledged.
use crate::table;
use crate::table::{Replicate, Table};
use crate::values::{Address, Symbol};
use vstd::prelude::*;

verus! {

/// Thresholds that one configuration may hold.
pub const MAX_THRESHOLDS_PER_CONFIG: u32 = 16;

/// How urgent an alert is.
#[derive(Clone, Copy, PartialEq, Eq, PartialOrd, Ord, Structural, Debug)]
pub enum AlertSeverity {
    /// Worth noting.
    Info,
    /// May call for action.
    Warning,
    /// Calls for attention at once.
    Critical,
}

impl AlertSeverity {
    /// The severity as a number.
    pub open spec fn level(self) -> u32 {
        match self {
            AlertSeverity::Info => 0,
            AlertSeverity::Warning => 1,
            AlertSeverity::Critical => 2,
        }
    }

    /// The severity as a number.
    pub fn code(self) -> (code: u32)
        ensures
            code == self.level(),
    {
        match self {
            AlertSeverity::Info => 0,
            AlertSeverity::Warning => 1,
            AlertSeverity::Critical => 2,
        }
    }
}

/// What a threshold watches.
#[derive(Clone, Copy, PartialEq, Eq, Structural, Debug)]
pub enum AlertKind {
    /// The staked balance is below a floor.
    BalanceDrop,
    /// The yearly rate is below a minimum.
    YieldUnderperformance,
    /// The unlock date is closer than a number of seconds.
    UpcomingUnlock,
    /// A condition of the user's own.
    Custom,
}

/// One condition that fires an alert.
pub struct AlertThreshold {
    pub kind: AlertKind,
    /// The floor, the minimum or the seconds, as the kind says.
    pub trigger_value: i128,
    pub severity: AlertSeverity,
    pub label: String,
    pub enabled: bool,
}

impl Replicate for AlertThreshold {
    fn replicate(&self) -> (copy: Self) {
        AlertThreshold {
            kind: self.kind,
            trigger_value: self.trigger_value,
            severity: self.severity,
            label: self.label.clone(),
            enabled: self.enabled,
        }
    }
}

/// The thresholds of a staker for an asset.
pub struct AlertConfig {
    pub staker: Address,
    pub asset: Symbol,
    /// Checked in this order.
    pub thresholds: Vec<AlertThreshold>,
    pub alerts_enabled: bool,
}

/// A configuration as a value.
pub struct AlertSettings {
    pub staker: Address,
    pub asset: Symbol,
    pub thresholds: Seq<AlertThreshold>,
    pub alerts_enabled: bool,
}

impl View for AlertConfig {
    type V = AlertSettings;

    open spec fn view(&self) -> AlertSettings {
        AlertSettings {
            staker: self.staker,
            asset: self.asset,
            thresholds: self.thresholds@,
            alerts_enabled: self.alerts_enabled,
        }
    }
}

impl table::Duplicate for AlertConfig {
    fn duplicate(&self) -> (copy: Self) {
        AlertConfig {
            staker: self.staker,
            asset: self.asset,
            thresholds: table::replicate_list(&self.thresholds),
            alerts_enabled: self.alerts_enabled,
        }
    }
}

/// What is published when a threshold fires.
pub struct AlertEvent {
    pub staker: Address,
    pub asset: Symbol,
    pub kind: AlertKind,
    pub severity: AlertSeverity,
    pub fired_at: u64,
    pub threshold_value: i128,
    pub observed_value: i128,
    pub label: String,
}

/// What is kept of an alert.
pub struct AlertHistoryEntry {
    /// The position in the history.
    pub index: u32,
    pub kind: AlertKind,
    pub severity: AlertSeverity,
    pub fired_at: u64,
    pub threshold_value: i128,
    pub observed_value: i128,
    pub label: String,
    pub acknowledged: bool,
}

impl Replicate for AlertHistoryEntry {
    fn replicate(&self) -> (copy: Self) {
        AlertHistoryEntry {
            index: self.index,
            kind: self.kind,
            severity: self.severity,
            fired_at: self.fired_at,
            threshold_value: self.threshold_value,
            observed_value: self.observed_value,
            label: self.label.clone(),
            acknowledged: self.acknowledged,
        }
    }
}

/// Configurations, histories, and the alerts to publish.
pub struct AlertMonitor {
    pub configs: Table<(Address, Symbol), AlertConfig>,
    pub histories: Table<(Address, Symbol), Vec<AlertHistoryEntry>>,
    pub outbox: Vec<AlertEvent>,
}

/// The monitor's state as a value.
pub struct AlertLedger {
    pub configs: Map<(Address, Symbol), AlertSettings>,
    pub histories: Map<(Address, Symbol), Seq<AlertHistoryEntry>>,
    pub outbox: Seq<AlertEvent>,
}

impl View for AlertMonitor {
    type V = AlertLedger;

    open spec fn view(&self) -> AlertLedger {
        AlertLedger {
            configs: self.configs@.map_values(|c: AlertConfig| c@),
            histories: table::lists(self.histories@),
            outbox: self.outbox@,
        }
    }
}

/// What is observed of a position.
pub struct Observation {
    pub balance: i128,
    pub apr: i128,
    /// 0 where nothing is locked.
    pub unlock_ts: u64,
    pub now: u64,
}

impl Observation {
    /// Whether there is an unlock date ahead.
    pub open spec fn unlock_is_ahead(self) -> bool {
        self.unlock_ts != 0 && self.unlock_ts > self.now
    }

    /// The value that a kind of threshold is held against.
    pub open spec fn value(self, kind: AlertKind) -> i128 {
        match kind {
            AlertKind::BalanceDrop => self.balance,
            AlertKind::YieldUnderperformance => self.apr,
            AlertKind::UpcomingUnlock => if self.unlock_is_ahead() {
                (self.unlock_ts - self.now) as i128
            } else {
                0
            },
            AlertKind::Custom => 0,
        }
    }

    /// Whether a threshold fires.
    pub open spec fn breaches(self, threshold: AlertThreshold) -> bool {
        let observed = self.value(threshold.kind);
        threshold.enabled && match threshold.kind {
            AlertKind::BalanceDrop => observed < threshold.trigger_value,
            AlertKind::YieldUnderperformance => observed < threshold.trigger_value,
            AlertKind::UpcomingUnlock => self.unlock_is_ahead() && observed
                < threshold.trigger_value,
            AlertKind::Custom => observed == threshold.trigger_value,
        }
    }

    /// The thresholds that fire, in order.
    pub open spec fn firing(self, thresholds: Seq<AlertThreshold>) -> Seq<AlertThreshold> {
        thresholds.filter(|t: AlertThreshold| self.breaches(t))
    }

    /// The event of a threshold that fires.
    pub open spec fn event(
        self,
        staker: Address,
        asset: Symbol,
        threshold: AlertThreshold,
    ) -> AlertEvent {
        AlertEvent {
            staker,
            asset,
            kind: threshold.kind,
            severity: threshold.severity,
            fired_at: self.now,
            threshold_value: threshold.trigger_value,
            observed_value: self.value(threshold.kind),
            label: threshold.label,
        }
    }

    /// The history entry of a threshold that fires.
    pub open spec fn entry(self, index: int, threshold: AlertThreshold) -> AlertHistoryEntry {
        AlertHistoryEntry {
            index: index as u32,
            kind: threshold.kind,
            severity: threshold.severity,
            fired_at: self.now,
            threshold_value: threshold.trigger_value,
            observed_value: self.value(threshold.kind),
            label: threshold.label,
            acknowledged: false,
        }
    }
}

impl AlertLedger {
    /// Configurations are filed under their own staker and asset, keep to the
    /// limit, and histories are numbered from 0.
    pub open spec fn wf(self) -> bool {
        &&& forall|key: (Address, Symbol)| #[trigger]
            self.configs.contains_key(key) ==> self.configs[key].staker == key.0
                && self.configs[key].asset == key.1 && self.configs[key].thresholds.len()
                <= MAX_THRESHOLDS_PER_CONFIG
        &&& forall|key: (Address, Symbol), i: int|
            self.histories.contains_key(key) && 0 <= i < self.histories[key].len() ==> (
            #[trigger] self.histories[key][i]).index == i
    }

    /// The state with a configuration put in place.
    pub open spec fn configured(self, settings: AlertSettings) -> AlertLedger {
        AlertLedger {
            configs: self.configs.insert((settings.staker, settings.asset), settings),
            ..self
        }
    }

    /// The state after one threshold fired.
    pub open spec fn alerted(
        self,
        staker: Address,
        asset: Symbol,
        threshold: AlertThreshold,
        seen: Observation,
    ) -> AlertLedger {
        let key = (staker, asset);
        let log = table::list_at(self.histories, key);
        AlertLedger {
            histories: self.histories.insert(
                key,
                log.push(seen.entry(log.len() as int, threshold)),
            ),
            outbox: self.outbox.push(seen.event(staker, asset, threshold)),
            ..self
        }
    }

    /// The state after thresholds fired one after another.
    pub open spec fn alerted_by(
        self,
        staker: Address,
        asset: Symbol,
        thresholds: Seq<AlertThreshold>,
        seen: Observation,
    ) -> AlertLedger
        decreases thresholds.len(),
    {
        if thresholds.len() == 0 {
            self
        } else {
            self.alerted_by(staker, asset, thresholds.drop_last(), seen).alerted(
                staker,
                asset,
                thresholds.last(),
                seen,
            )
        }
    }
}

/// Alerts are only ever added: what the history held stays, in its place, and
/// each threshold that fired adds one entry.
pub proof fn history_only_grows(
    ledger: AlertLedger,
    staker: Address,
    asset: Symbol,
    thresholds: Seq<AlertThreshold>,
    seen: Observation,
)
    ensures
        ({
            let key = (staker, asset);
            let before = table::list_at(ledger.histories, key);
            let after = table::list_at(
                ledger.alerted_by(staker, asset, thresholds, seen).histories,
                key,
            );
            after.len() == before.len() + thresholds.len() && after.take(before.len() as int)
                == before
        }),
        ledger.alerted_by(staker, asset, thresholds, seen).outbox.len() == ledger.outbox.len()
            + thresholds.len(),
        ledger.alerted_by(staker, asset, thresholds, seen).configs == ledger.configs,
    decreases thresholds.len(),
{
    let key = (staker, asset);
    let before = table::list_at(ledger.histories, key);
    if thresholds.len() == 0 {
        assert(before.take(before.len() as int) =~= before);
    } else {
        history_only_grows(ledger, staker, asset, thresholds.drop_last(), seen);
        let so_far = ledger.alerted_by(staker, asset, thresholds.drop_last(), seen);
        let log = table::list_at(so_far.histories, key);
        let after = table::list_at(
            ledger.alerted_by(staker, asset, thresholds, seen).histories,
            key,
        );
        assert(after.take(before.len() as int) =~= log.take(before.len() as int));
    }
}

impl AlertMonitor {
    /// A monitor without configurations.
    pub fn new() -> (monitor: AlertMonitor)
        ensures
            monitor@.wf(),
            monitor@.configs == Map::<(Address, Symbol), AlertSettings>::empty(),
            monitor@.histories == Map::<(Address, Symbol), Seq<AlertHistoryEntry>>::empty(),
            monitor@.outbox == Seq::<AlertEvent>::empty(),
    {
        let monitor = AlertMonitor {
            configs: Table::new(),
            histories: Table::new(),
            outbox: Vec::new(),
        };
        assert(monitor@.configs =~= Map::<(Address, Symbol), AlertSettings>::empty());
        assert(monitor@.histories =~= Map::<(Address, Symbol), Seq<AlertHistoryEntry>>::empty());
        assert(monitor@.outbox =~= Seq::<AlertEvent>::empty());
        monitor
    }

    /// Store a configuration in place of the one that its staker had for its
    /// asset.
    pub fn set_config(&mut self, config: AlertConfig) -> (stored: AlertConfig)
        requires
            old(self)@.wf(),
            config@.thresholds.len() <= MAX_THRESHOLDS_PER_CONFIG,
        ensures
            final(self)@.wf(),
            stored@ == config@,
            final(self)@ == old(self)@.configured(config@),
    {
        let ghost ledger = self@;
        let ghost settings = config@;
        let stored = table::Duplicate::duplicate(&config);
        self.configs.set((config.staker, config.asset), config);
        assert(self@.configs =~= ledger.configured(settings).configs);
        stored
    }

    /// The configuration of a staker for an asset.
    pub fn get_config(&self, staker: &Address, asset: &Symbol) -> (config: Option<AlertConfig>)
        ensures
            config is Some <==> self@.configs.contains_key((*staker, *asset)),
            config matches Some(c) ==> c@ == self@.configs[(*staker, *asset)],
    {
        match self.configs.get(&(*staker, *asset)) {
            Some(c) => Some(table::Duplicate::duplicate(c)),
            None => None,
        }
    }

    /// Take a configuration out, to put a changed one in its place.
    fn take_config(&mut self, staker: &Address, asset: &Symbol) -> (config: AlertConfig)
        requires
            old(self)@.configs.contains_key((*staker, *asset)),
        ensures
            config@ == old(self)@.configs[(*staker, *asset)],
            final(self)@ == (AlertLedger {
                configs: old(self)@.configs.remove((*staker, *asset)),
                ..old(self)@
            }),
    {
        let ghost ledger = self@;
        assert(self.configs@.contains_key((*staker, *asset)));
        let taken = self.configs.take(&(*staker, *asset));
        assert(self@.configs =~= ledger.configs.remove((*staker, *asset)));
        match taken {
            Some(c) => c,
            None => AlertConfig {
                staker: *staker,
                asset: *asset,
                thresholds: Vec::new(),
                alerts_enabled: false,
            },
        }
    }

    /// Add a threshold to a configuration.
    pub fn add_threshold(&mut self, staker: &Address, asset: &Symbol, threshold: AlertThreshold)
        -> (config: AlertConfig)
        requires
            old(self)@.wf(),
            old(self)@.configs.contains_key((*staker, *asset)),
            old(self)@.configs[(*staker, *asset)].thresholds.len() < MAX_THRESHOLDS_PER_CONFIG,
        ensures
            final(self)@.wf(),
            ({
                let before = old(self)@.configs[(*staker, *asset)];
                config@ == (AlertSettings {
                    thresholds: before.thresholds.push(threshold),
                    ..before
                })
            }),
            final(self)@ == old(self)@.configured(config@),
    {
        let ghost ledger = self@;
        let mut config = self.take_config(staker, asset);
        config.thresholds.push(threshold);
        let ghost settings = config@;
        let stored = self.set_config(config);
        assert(self@.configs =~= ledger.configured(settings).configs);
        stored
    }

    /// Remove a threshold from a configuration.
    pub fn remove_threshold(&mut self, staker: &Address, asset: &Symbol, index: u32) -> (config:
        AlertConfig)
        requires
            old(self)@.wf(),
            old(self)@.configs.contains_key((*staker, *asset)),
            index < old(self)@.configs[(*staker, *asset)].thresholds.len(),
        ensures
            final(self)@.wf(),
            ({
                let before = old(self)@.configs[(*staker, *asset)];
                config@ == (AlertSettings {
                    thresholds: before.thresholds.remove(index as int),
                    ..before
                })
            }),
            final(self)@ == old(self)@.configured(config@),
    {
        let ghost ledger = self@;
        let mut config = self.take_config(staker, asset);
        config.thresholds.remove(index as usize);
        let ghost settings = config@;
        let stored = self.set_config(config);
        assert(self@.configs =~= ledger.configured(settings).configs);
        stored
    }

    /// Switch the alerts of a configuration on or off.
    pub fn set_alerts_enabled(&mut self, staker: &Address, asset: &Symbol, enabled: bool) -> (
        config: AlertConfig)
        requires
            old(self)@.wf(),
            old(self)@.configs.contains_key((*staker, *asset)),
        ensures
            final(self)@.wf(),
            ({
                let before = old(self)@.configs[(*staker, *asset)];
                config@ == (AlertSettings { alerts_enabled: enabled, ..before })
            }),
            final(self)@ == old(self)@.configured(config@),
    {
        let ghost ledger = self@;
        let mut config = self.take_config(staker, asset);
        config.alerts_enabled = enabled;
        let ghost settings = config@;
        let stored = self.set_config(config);
        assert(self@.configs =~= ledger.configured(settings).configs);
        stored
    }

    /// Check the thresholds of a configuration against what is observed; each
    /// that is breached publishes an alert and adds it to the history. Gives
    /// the number of alerts.
    pub fn check(
        &mut self,
        staker: &Address,
        asset: &Symbol,
        current_balance: i128,
        current_apr: i128,
        unlock_ts: u64,
        now: u64,
    ) -> (fired: u32)
        requires
            old(self)@.wf(),
            table::list_at(old(self)@.histories, (*staker, *asset)).len()
                + MAX_THRESHOLDS_PER_CONFIG <= u32::MAX,
        ensures
            final(self)@.wf(),
            ({
                let ledger = old(self)@;
                let key = (*staker, *asset);
                let seen = Observation {
                    balance: current_balance,
                    apr: current_apr,
                    unlock_ts,
                    now,
                };
                if !ledger.configs.contains_key(key) || !ledger.configs[key].alerts_enabled {
                    fired == 0 && final(self)@ == ledger
                } else {
                    let firing = seen.firing(ledger.configs[key].thresholds);
                    fired == firing.len() && final(self)@ == ledger.alerted_by(
                        *staker,
                        *asset,
                        firing,
                        seen,
                    )
                }
            }),
    {
        let ghost ledger = self@;
        let config = match self.get_config(staker, asset) {
            Some(c) => c,
            None => {
                return 0;
            },
        };
        if !config.alerts_enabled {
            return 0;
        }
        let seen = Observation { balance: current_balance, apr: current_apr, unlock_ts, now };
        let ghost keep = |t: AlertThreshold| seen.breaches(t);
        let mut fired: u32 = 0;
        let mut i: usize = 0;
        proof {
            table::lemma_filter_none(config.thresholds@, keep);
        }
        while i < config.thresholds.len()
            invariant
                i <= config.thresholds@.len(),
                config.thresholds@.len() <= MAX_THRESHOLDS_PER_CONFIG,
                keep == (|t: AlertThreshold| seen.breaches(t)),
                self@.wf(),
                fired <= i,
                fired == config.thresholds@.take(i as int).filter(keep).len(),
                self@ == ledger.alerted_by(
                    *staker,
                    *asset,
                    config.thresholds@.take(i as int).filter(keep),
                    seen,
                ),
                table::list_at(ledger.histories, (*staker, *asset)).len()
                    + MAX_THRESHOLDS_PER_CONFIG <= u32::MAX,
            decreases config.thresholds@.len() - i,
        {
            let ghost so_far = config.thresholds@.take(i as int).filter(keep);
            proof {
                table::lemma_filter_step(config.thresholds@, i as int, keep);
                history_only_grows(ledger, *staker, *asset, so_far, seen);
            }
            let t = &config.thresholds[i];
            if t.enabled {
                let observed = Self::observed_value(&seen, t.kind);
                if Self::threshold_breached(t, observed, &seen) {
                    self.emit_and_record(staker, asset, t, observed, &seen);
                    fired = fired + 1;
                    assert(so_far.push(*t).drop_last() =~= so_far);
                }
            }
            i += 1;
        }
        assert(config.thresholds@.take(i as int) =~= config.thresholds@);
        fired
    }

    /// The value that a kind of threshold is held against.
    fn observed_value(seen: &Observation, kind: AlertKind) -> (observed: i128)
        ensures
            observed == seen.value(kind),
    {
        match kind {
            AlertKind::BalanceDrop => seen.balance,
            AlertKind::YieldUnderperformance => seen.apr,
            AlertKind::UpcomingUnlock => {
                if seen.unlock_ts == 0 || seen.unlock_ts <= seen.now {
                    0
                } else {
                    (seen.unlock_ts - seen.now) as i128
                }
            },
            AlertKind::Custom => 0,
        }
    }

    /// Whether an observed value breaches a threshold that is enabled.
    fn threshold_breached(threshold: &AlertThreshold, observed: i128, seen: &Observation) -> (b:
        bool)
        requires
            threshold.enabled,
            observed == seen.value(threshold.kind),
        ensures
            b == seen.breaches(*threshold),
    {
        match threshold.kind {
            AlertKind::BalanceDrop => observed < threshold.trigger_value,
            AlertKind::YieldUnderperformance => observed < threshold.trigger_value,
            AlertKind::UpcomingUnlock => {
                if seen.unlock_ts == 0 || seen.unlock_ts <= seen.now {
                    false
                } else {
                    observed < threshold.trigger_value
                }
            },
            AlertKind::Custom => observed == threshold.trigger_value,
        }
    }

    /// Publish an alert and add it to the history.
    fn emit_and_record(
        &mut self,
        staker: &Address,
        asset: &Symbol,
        threshold: &AlertThreshold,
        observed: i128,
        seen: &Observation,
    )
        requires
            old(self)@.wf(),
            observed == seen.value(threshold.kind),
            table::list_at(old(self)@.histories, (*staker, *asset)).len() < u32::MAX,
        ensures
            final(self)@.wf(),
            final(self)@ == old(self)@.alerted(*staker, *asset, *threshold, *seen),
    {
        let ghost ledger = self@;
        let event = AlertEvent {
            staker: *staker,
            asset: *asset,
            kind: threshold.kind,
            severity: threshold.severity,
            fired_at: seen.now,
            threshold_value: threshold.trigger_value,
            observed_value: observed,
            label: threshold.label.clone(),
        };
        self.outbox.push(event);
        let key = (*staker, *asset);
        let index: u32 = match self.histories.get(&key) {
            Some(log) => log.len() as u32,
            None => 0,
        };
        let entry = AlertHistoryEntry {
            index,
            kind: threshold.kind,
            severity: threshold.severity,
            fired_at: seen.now,
            threshold_value: threshold.trigger_value,
            observed_value: observed,
            label: threshold.label.clone(),
            acknowledged: false,
        };
        let ghost log = table::list_at(ledger.histories, key);
        table::append(&mut self.histories, key, entry);
        assert(self@ == ledger.alerted(*staker, *asset, *threshold, *seen));
        assert forall|k: (Address, Symbol), i: int|
            self@.histories.contains_key(k) && 0 <= i < self@.histories[k].len() implies (
        #[trigger] self@.histories[k][i]).index == i by {
            if k == key {
                if i < log.len() {
                    assert(self@.histories[k][i] == ledger.histories[k][i]);
                }
            } else {
                assert(self@.histories[k][i] == ledger.histories[k][i]);
            }
        }
    }

    /// The alerts of a staker for an asset, oldest first.
    pub fn history(&self, staker: &Address, asset: &Symbol) -> (list: Vec<AlertHistoryEntry>)
        ensures
            list@ == table::list_at(self@.histories, (*staker, *asset)),
    {
        match self.histories.get(&(*staker, *asset)) {
            Some(list) => table::replicate_list(list),
            None => {
                let list: Vec<AlertHistoryEntry> = Vec::new();
                assert(list@ =~= Seq::<AlertHistoryEntry>::empty());
                list
            },
        }
    }

    /// Acknowledge an alert; it stays in the history.
    pub fn acknowledge(&mut self, staker: &Address, asset: &Symbol, index: u32)
        requires
            old(self)@.wf(),
            index < table::list_at(old(self)@.histories, (*staker, *asset)).len(),
        ensures
            final(self)@.wf(),
            ({
                let log = old(self)@.histories[(*staker, *asset)];
                final(self)@ == (AlertLedger {
                    histories: old(self)@.histories.insert(
                        (*staker, *asset),
                        log.update(
                            index as int,
                            AlertHistoryEntry { acknowledged: true, ..log[index as int] },
                        ),
                    ),
                    ..old(self)@
                })
            }),
    {
        let ghost ledger = self@;
        let key = (*staker, *asset);
        let mut log = self.history(staker, asset);
        let mut entry = log[index as usize].replicate();
        entry.acknowledged = true;
        log.set(index as usize, entry);
        table::put_list(&mut self.histories, key, log);
        assert forall|k: (Address, Symbol), i: int|
            self@.histories.contains_key(k) && 0 <= i < self@.histories[k].len() implies (
        #[trigger] self@.histories[k][i]).index == i by {
            assert(ledger.histories[k][i].index == i);
        }
    }

    /// The alerts that wait to be acknowledged, oldest first.
    pub fn pending_alerts(&self, staker: &Address, asset: &Symbol) -> (pending: Vec<
        AlertHistoryEntry,
    >)
        ensures
            pending@ == table::list_at(self@.histories, (*staker, *asset)).filter(
                |e: AlertHistoryEntry| !e.acknowledged,
            ),
    {
        let all = self.history(staker, asset);
        let ghost keep = |e: AlertHistoryEntry| !e.acknowledged;
        let mut pending: Vec<AlertHistoryEntry> = Vec::new();
        let mut i: usize = 0;
        proof {
            table::lemma_filter_none(all@, keep);
        }
        while i < all.len()
            invariant
                i <= all@.len(),
                keep == (|e: AlertHistoryEntry| !e.acknowledged),
                pending@ == all@.take(i as int).filter(keep),
            decreases all@.len() - i,
        {
            proof {
                table::lemma_filter_step(all@, i as int, keep);
            }
            if !all[i].acknowledged {
                pending.push(all[i].replicate());
            }
            i += 1;
        }
        assert(all@.take(i as int) =~= all@);
        pending
    }
}

/// A threshold fires where it is switched on and what it watches is past it:
/// the balance or the rate is below the floor, or the unlock date is ahead and
/// fewer seconds away than the window. A threshold of the user's own fires
/// where it is set to zero.
pub proof fn thresholds_fire_when_passed(seen: Observation, t: AlertThreshold)
    ensures
        !t.enabled ==> !seen.breaches(t),
        t.enabled && t.kind == AlertKind::BalanceDrop ==> (seen.breaches(t) <==> seen.balance
            < t.trigger_value),
        t.enabled && t.kind == AlertKind::YieldUnderperformance ==> (seen.breaches(t) <==> seen.apr
            < t.trigger_value),
        t.enabled && t.kind == AlertKind::UpcomingUnlock ==> (seen.breaches(t) <==> seen.unlock_ts
            > seen.now && seen.unlock_ts - seen.now < t.trigger_value),
        t.enabled && t.kind == AlertKind::Custom ==> (seen.breaches(t) <==> t.trigger_value == 0),
        t.kind == AlertKind::BalanceDrop ==> seen.value(t.kind) == seen.balance,
        t.kind == AlertKind::YieldUnderperformance ==> seen.value(t.kind) == seen.apr,
        t.kind == AlertKind::UpcomingUnlock && seen.unlock_ts > seen.now ==> seen.value(t.kind)
            == seen.unlock_ts - seen.now,
{
}

/// Every threshold that is passed fires, and no other, in the order in which
/// they were set.
pub proof fn each_passed_threshold_fires(
    seen: Observation,
    thresholds: Seq<AlertThreshold>,
    t: AlertThreshold,
)
    ensures
        seen.firing(thresholds.push(t)) == (if seen.breaches(t) {
            seen.firing(thresholds).push(t)
        } else {
            seen.firing(thresholds)
        }),
        seen.firing(Seq::empty()).len() == 0,
{
    let longer = thresholds.push(t);
    let keep = |b: AlertThreshold| seen.breaches(b);
    let n = thresholds.len() as int;
    table::lemma_filter_step(longer, n, keep);
    table::lemma_filter_none(longer, keep);
    assert(longer.take(n) =~= thresholds);
    assert(longer.take(n + 1) =~= longer);
    assert(longer.take(0) =~= Seq::<AlertThreshold>::empty());
}

/// An alert tells what fired it: the threshold, its severity and its label,
/// what was observed, and when. The same is published and kept; what is kept
/// is numbered by its place and not acknowledged yet.
pub proof fn alerts_tell_what_fired_them(
    ledger: AlertLedger,
    staker: Address,
    asset: Symbol,
    t: AlertThreshold,
    seen: Observation,
    other: (Address, Symbol),
)
    requires
        table::list_at(ledger.histories, (staker, asset)).len() <= u32::MAX,
    ensures
        ({
            let key = (staker, asset);
            let after = ledger.alerted(staker, asset, t, seen);
            let log = table::list_at(after.histories, key);
            let n = table::list_at(ledger.histories, key).len();
            let (entry, event) = (log.last(), after.outbox.last());
            &&& log.len() == n + 1 && log.drop_last() == table::list_at(ledger.histories, key)
            &&& entry.index == n && !entry.acknowledged
            &&& entry.kind == t.kind && entry.severity == t.severity && entry.fired_at == seen.now
                && entry.threshold_value == t.trigger_value && entry.observed_value == seen.value(
                t.kind,
            ) && entry.label == t.label
            &&& after.outbox.drop_last() == ledger.outbox
            &&& event.staker == staker && event.asset == asset
            &&& event.kind == t.kind && event.severity == t.severity && event.fired_at == seen.now
                && event.threshold_value == t.trigger_value && event.observed_value == seen.value(
                t.kind,
            ) && event.label == t.label
            &&& other != key ==> table::list_at(after.histories, other) == table::list_at(
                ledger.histories,
                other,
            )
        }),
{
    let after = ledger.alerted(staker, asset, t, seen);
    let key = (staker, asset);
    assert(table::list_at(after.histories, key).drop_last() =~= table::list_at(
        ledger.histories,
        key,
    ));
    assert(after.outbox.drop_last() =~= ledger.outbox);
}

/// The severities are ordered.
pub proof fn severities_rise()
    ensures
        AlertSeverity::Info.level() < AlertSeverity::Warning.level(),
        AlertSeverity::Warning.level() < AlertSeverity::Critical.level(),
{
}

} // verus!
