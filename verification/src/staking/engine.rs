//! The yield engine: accrual against the clock, claims against a reserve, and
//! planned distributions.
//!
//! A change of rate or principal first accrues what was earned before it, so
//! that every second counts at the rate and on the principal of its time.
use crate::fixed_point;
use crate::fixed_point::MathError;
use crate::math;
use crate::staking::compounding;
use crate::staking::compounding::YieldCalculator;
use crate::staking::records::{
    CompoundingMode, DistributionSchedule, DistributionType, YieldDistributionRecord,
    YieldHistoryEntry, YieldRecord,
};
use crate::table;
use crate::table::Table;
use crate::values::{Address, Symbol};
use vstd::prelude::*;

verus! {

/// Positions, their histories, planned and made payments, and the reserves
/// that payments come from.
pub struct YieldEngine {
    pub records: Table<(Address, Symbol), YieldRecord>,
    pub histories: Table<(Address, Symbol), Vec<YieldHistoryEntry>>,
    pub plans: Table<(Address, Symbol), Vec<DistributionSchedule>>,
    pub payments: Table<(Address, Symbol), Vec<YieldDistributionRecord>>,
    pub reserves: Table<Symbol, i128>,
    pub paused: bool,
}

/// The engine's state as a value.
pub struct YieldLedger {
    pub records: Map<(Address, Symbol), YieldRecord>,
    pub histories: Map<(Address, Symbol), Seq<YieldHistoryEntry>>,
    pub plans: Map<(Address, Symbol), Seq<DistributionSchedule>>,
    pub payments: Map<(Address, Symbol), Seq<YieldDistributionRecord>>,
    pub reserves: Map<Symbol, i128>,
    pub paused: bool,
}

impl View for YieldEngine {
    type V = YieldLedger;

    open spec fn view(&self) -> YieldLedger {
        YieldLedger {
            records: self.records@,
            histories: table::lists(self.histories@),
            plans: table::lists(self.plans@),
            payments: table::lists(self.payments@),
            reserves: self.reserves@,
            paused: self.paused,
        }
    }
}

/// What a position has earned since it was last accrued.
pub open spec fn pending(record: YieldRecord, now: u64) -> Result<i128, MathError> {
    if now <= record.last_accrual_ts {
        Ok(0i128)
    } else {
        compounding::yield_for(
            record.mode,
            record.principal as int,
            record.apr as int,
            now - record.last_accrual_ts,
        )
    }
}

/// A position accrued to `now`.
pub open spec fn accrued(record: YieldRecord, now: u64) -> Result<YieldRecord, MathError> {
    if now <= record.last_accrual_ts {
        Ok(record)
    } else {
        match pending(record, now) {
            Err(e) => Err(e),
            Ok(earned) => if math::fits(record.accrued_yield + earned) {
                Ok(
                    YieldRecord {
                        accrued_yield: (record.accrued_yield + earned) as i128,
                        last_accrual_ts: now,
                        ..record
                    },
                )
            } else {
                Err(MathError::Overflow)
            },
        }
    }
}

/// The history entry of an accrual.
pub open spec fn accrual_entry(record: YieldRecord, now: u64) -> YieldHistoryEntry {
    YieldHistoryEntry {
        timestamp: now,
        period_seconds: (now - record.last_accrual_ts) as u64,
        apr: record.apr,
        yield_earned: pending(record, now)->Ok_0,
        cumulative_yield: accrued(record, now)->Ok_0.accrued_yield,
        is_claim: false,
    }
}

/// The history entry of a claim.
pub open spec fn claim_entry(record: YieldRecord, left: i128, now: u64) -> YieldHistoryEntry {
    YieldHistoryEntry {
        timestamp: now,
        period_seconds: 0,
        apr: record.apr,
        yield_earned: 0,
        cumulative_yield: left,
        is_claim: true,
    }
}

/// How much of `available` is paid: no more than asked for and, where there
/// is a reserve, no more than it holds.
pub open spec fn payable(available: int, amount: int, reserve: int) -> int {
    let claimed = math::least(amount, available);
    if reserve >= 0 && claimed > reserve {
        reserve
    } else {
        claimed
    }
}

/// What a history says is accrued and not claimed.
pub open spec fn tally(history: Seq<YieldHistoryEntry>) -> i128 {
    if history.len() == 0 {
        0
    } else {
        history.last().cumulative_yield
    }
}

/// Whether an entry can follow a history: an accrual adds what was earned to
/// what was accrued before.
pub open spec fn follows(history: Seq<YieldHistoryEntry>, entry: YieldHistoryEntry) -> bool {
    entry.is_claim || entry.cumulative_yield == tally(history) + entry.yield_earned
}

/// Whether every entry of a history follows those before it.
pub open spec fn adds_up(history: Seq<YieldHistoryEntry>) -> bool {
    forall|i: int| 0 <= i < history.len() ==> follows(history.take(i), #[trigger] history[i])
}

proof fn lemma_still_adds_up(history: Seq<YieldHistoryEntry>, entry: YieldHistoryEntry)
    requires
        adds_up(history),
        follows(history, entry),
    ensures
        adds_up(history.push(entry)),
{
    let longer = history.push(entry);
    assert forall|i: int| 0 <= i < longer.len() implies follows(
        longer.take(i),
        #[trigger] longer[i],
    ) by {
        if i < history.len() {
            assert(longer.take(i) =~= history.take(i));
            assert(longer[i] == history[i]);
        } else {
            assert(longer.take(i) =~= history);
        }
    }
}

impl YieldLedger {
    /// What a position has accrued and not claimed; nothing where there is no
    /// position.
    pub open spec fn accrued_yield(self, key: (Address, Symbol)) -> i128 {
        if self.records.contains_key(key) {
            self.records[key].accrued_yield
        } else {
            0
        }
    }

    /// Every position is filed under its own staker and asset, and its history
    /// adds up to what it has accrued.
    pub open spec fn wf(self) -> bool {
        &&& forall|key: (Address, Symbol)| #[trigger]
            self.records.contains_key(key) ==> self.records[key].staker == key.0
                && self.records[key].asset == key.1
        &&& forall|key: (Address, Symbol)|
            #![trigger self.records.contains_key(key)]
            #![trigger table::list_at(self.histories, key)]
            self.accrued_yield(key) == tally(table::list_at(self.histories, key))
        &&& forall|key: (Address, Symbol)| #[trigger]
            self.histories.contains_key(key) ==> adds_up(self.histories[key])
    }

    /// The state with a history entry added.
    pub open spec fn noted(self, key: (Address, Symbol), entry: YieldHistoryEntry) -> YieldLedger {
        YieldLedger {
            histories: self.histories.insert(
                key,
                table::list_at(self.histories, key).push(entry),
            ),
            ..self
        }
    }

    /// The state with a record put in place.
    pub open spec fn stored(self, record: YieldRecord) -> YieldLedger {
        YieldLedger {
            records: self.records.insert((record.staker, record.asset), record),
            ..self
        }
    }

    /// The state with a payment added.
    pub open spec fn paid(self, payment: YieldDistributionRecord) -> YieldLedger {
        let key = (payment.staker, payment.asset);
        YieldLedger {
            payments: self.payments.insert(key, table::list_at(self.payments, key).push(payment)),
            ..self
        }
    }

    /// The state with the history entry of accruing `record` to `now`, if
    /// there is anything to accrue.
    pub open spec fn accruing(self, record: YieldRecord, now: u64) -> YieldLedger {
        if now <= record.last_accrual_ts {
            self
        } else {
            self.noted((record.staker, record.asset), accrual_entry(record, now))
        }
    }

    /// The reserve of an asset, -1 where it has none.
    pub open spec fn reserve(self, asset: Symbol) -> i128 {
        table::value_or(self.reserves, asset, -1i128)
    }

    /// The state with the reserve of an asset set, if it has one.
    pub open spec fn with_reserve(self, asset: Symbol, reserve: int) -> YieldLedger {
        if self.reserve(asset) >= 0 {
            YieldLedger { reserves: self.reserves.insert(asset, reserve as i128), ..self }
        } else {
            self
        }
    }

    /// The state after `claimed` of the accrued position `record` was paid.
    pub open spec fn settled(
        self,
        record: YieldRecord,
        claimed: int,
        now: u64,
        kind: DistributionType,
        reserve_after: int,
    ) -> YieldLedger {
        let left = (record.accrued_yield - claimed) as i128;
        self.noted((record.staker, record.asset), claim_entry(record, left, now)).stored(
            YieldRecord { accrued_yield: left, ..record },
        ).paid(
            YieldDistributionRecord {
                staker: record.staker,
                asset: record.asset,
                amount: claimed as i128,
                timestamp: now,
                distribution_type: kind,
                accrued_at_claim: record.accrued_yield,
                reserve_after: reserve_after as i128,
            },
        )
    }
}

/// Accruing a second time at the same moment changes nothing.
pub proof fn accrual_is_idempotent(record: YieldRecord, now: u64)
    requires
        accrued(record, now) is Ok,
    ensures
        accrued(accrued(record, now)->Ok_0, now) == accrued(record, now),
        pending(accrued(record, now)->Ok_0, now) == Ok::<i128, MathError>(0),
{
}

/// Accruing never takes anything away and leaves the terms of the position
/// alone.
pub proof fn accrual_never_loses(record: YieldRecord, now: u64)
    requires
        accrued(record, now) is Ok,
    ensures
        ({
            let after = accrued(record, now)->Ok_0;
            &&& after.accrued_yield >= record.accrued_yield
            &&& after.accrued_yield == record.accrued_yield + pending(record, now)->Ok_0
            &&& after.principal == record.principal && after.apr == record.apr && after.mode
                == record.mode
            &&& after.last_accrual_ts >= record.last_accrual_ts
        }),
{
    if now > record.last_accrual_ts {
        compounding::yields_are_not_negative(
            record.mode,
            record.principal as int,
            record.apr as int,
            now - record.last_accrual_ts,
        );
    }
}

/// A claim is covered: by what was asked for, by what was accrued, and by the
/// reserve where there is one.
pub proof fn claims_are_covered(available: int, amount: int, reserve: int)
    ensures
        payable(available, amount, reserve) <= available,
        payable(available, amount, reserve) <= amount,
        reserve >= 0 ==> payable(available, amount, reserve) <= reserve,
{
}

impl YieldEngine {
    /// An engine without positions.
    pub fn new() -> (engine: YieldEngine)
        ensures
            engine@.wf(),
            engine@.records == Map::<(Address, Symbol), YieldRecord>::empty(),
            engine@.histories == Map::<(Address, Symbol), Seq<YieldHistoryEntry>>::empty(),
            engine@.plans == Map::<(Address, Symbol), Seq<DistributionSchedule>>::empty(),
            engine@.payments == Map::<(Address, Symbol), Seq<YieldDistributionRecord>>::empty(),
            engine@.reserves == Map::<Symbol, i128>::empty(),
            !engine@.paused,
    {
        let engine = YieldEngine {
            records: Table::new(),
            histories: Table::new(),
            plans: Table::new(),
            payments: Table::new(),
            reserves: Table::new(),
            paused: false,
        };
        assert(engine@.histories =~= Map::<(Address, Symbol), Seq<YieldHistoryEntry>>::empty());
        assert(engine@.plans =~= Map::<(Address, Symbol), Seq<DistributionSchedule>>::empty());
        assert(engine@.payments =~= Map::<
            (Address, Symbol),
            Seq<YieldDistributionRecord>,
        >::empty());
        engine
    }

    /// Open a position, or give an existing one new terms. What an existing
    /// one has earned is accrued first and kept.
    pub fn open_position(
        &mut self,
        staker: &Address,
        asset: &Symbol,
        principal: i128,
        apr: i128,
        mode: CompoundingMode,
        now: u64,
    ) -> (r: Result<YieldRecord, MathError>)
        requires
            old(self)@.wf(),
        ensures
            final(self)@.wf(),
            ({
                let ledger = old(self)@;
                let key = (*staker, *asset);
                let held = ledger.records.contains_key(key);
                let opened = |kept: i128|
                    YieldRecord {
                        staker: *staker,
                        asset: *asset,
                        principal,
                        apr,
                        mode,
                        last_accrual_ts: now,
                        accrued_yield: kept,
                    };
                if held && accrued(ledger.records[key], now) is Err {
                    r == Err::<YieldRecord, MathError>(accrued(ledger.records[key], now)->Err_0)
                        && final(self)@ == ledger
                } else if held {
                    let record = opened(accrued(ledger.records[key], now)->Ok_0.accrued_yield);
                    r == Ok::<YieldRecord, MathError>(record) && final(self)@ == ledger.accruing(
                        ledger.records[key],
                        now,
                    ).stored(record)
                } else {
                    r == Ok::<YieldRecord, MathError>(opened(0)) && final(self)@ == ledger.stored(
                        opened(0),
                    )
                }
            }),
    {
        let kept: i128 = match self.load_record(staker, asset) {
            Some(existing) => match self.accrue_to(&existing, now) {
                Ok(updated) => updated.accrued_yield,
                Err(e) => {
                    return Err(e);
                },
            },
            None => 0,
        };
        let record = YieldRecord {
            staker: *staker,
            asset: *asset,
            principal,
            apr,
            mode,
            last_accrual_ts: now,
            accrued_yield: kept,
        };
        self.store_record(&record);
        Ok(record)
    }

    /// Accrue a position to `now`. A position that is missing counts as
    /// invalid input.
    pub fn accrue(&mut self, staker: &Address, asset: &Symbol, now: u64) -> (r: Result<
        YieldRecord,
        MathError,
    >)
        requires
            old(self)@.wf(),
        ensures
            final(self)@.wf(),
            old(self)@.changed(
                final(self)@,
                r,
                (*staker, *asset),
                now,
                |record: YieldRecord| record,
            ),
    {
        let record = match self.load_record(staker, asset) {
            Some(r) => r,
            None => {
                return Err(MathError::NegativeInput);
            },
        };
        match self.accrue_to(&record, now) {
            Ok(updated) => {
                self.store_record(&updated);
                Ok(updated)
            },
            Err(e) => Err(e),
        }
    }

    /// Change the principal of a position after accruing it to `now`.
    pub fn set_principal(
        &mut self,
        staker: &Address,
        asset: &Symbol,
        new_principal: i128,
        now: u64,
    ) -> (r: Result<YieldRecord, MathError>)
        requires
            old(self)@.wf(),
        ensures
            final(self)@.wf(),
            old(self)@.changed(
                final(self)@,
                r,
                (*staker, *asset),
                now,
                |record: YieldRecord| YieldRecord { principal: new_principal, ..record },
            ),
    {
        let record = match self.load_record(staker, asset) {
            Some(r) => r,
            None => {
                return Err(MathError::NegativeInput);
            },
        };
        match self.accrue_to(&record, now) {
            Ok(accrued_record) => {
                let mut updated = accrued_record;
                updated.principal = new_principal;
                self.store_record(&updated);
                Ok(updated)
            },
            Err(e) => Err(e),
        }
    }

    /// Change the rate of a position after accruing it to `now`.
    pub fn set_rate(&mut self, staker: &Address, asset: &Symbol, new_apr: i128, now: u64) -> (r:
        Result<YieldRecord, MathError>)
        requires
            old(self)@.wf(),
        ensures
            final(self)@.wf(),
            old(self)@.changed(
                final(self)@,
                r,
                (*staker, *asset),
                now,
                |record: YieldRecord| YieldRecord { apr: new_apr, ..record },
            ),
    {
        let record = match self.load_record(staker, asset) {
            Some(r) => r,
            None => {
                return Err(MathError::NegativeInput);
            },
        };
        match self.accrue_to(&record, now) {
            Ok(accrued_record) => {
                let mut updated = accrued_record;
                updated.apr = new_apr;
                self.store_record(&updated);
                Ok(updated)
            },
            Err(e) => Err(e),
        }
    }

    /// What a position has earned up to `now`, accrued or not.
    pub fn current_yield(&self, staker: &Address, asset: &Symbol, now: u64) -> (r: Result<
        i128,
        MathError,
    >)
        ensures
            ({
                let key = (*staker, *asset);
                let record = self@.records[key];
                if !self@.records.contains_key(key) {
                    r == Err::<i128, MathError>(MathError::NegativeInput)
                } else {
                    match accrued(record, now) {
                        Ok(updated) => r == Ok::<i128, MathError>(updated.accrued_yield),
                        Err(e) => r == Err::<i128, MathError>(e),
                    }
                }
            }),
    {
        let record = match self.load_record(staker, asset) {
            Some(r) => r,
            None => {
                return Err(MathError::NegativeInput);
            },
        };
        match Self::pending_yield(&record, now) {
            Err(e) => Err(e),
            Ok(pending) => match record.accrued_yield.checked_add(pending) {
                Some(total) => Ok(total),
                None => Err(MathError::Overflow),
            },
        }
    }

    fn pending_yield(record: &YieldRecord, now: u64) -> (r: Result<i128, MathError>)
        ensures
            r == pending(*record, now),
    {
        if now <= record.last_accrual_ts {
            return Ok(0);
        }
        let elapsed = now - record.last_accrual_ts;
        let calculator = YieldCalculator::new(record.mode);
        calculator.compute_yield(record.principal, record.apr, elapsed)
    }

    /// The record accrued to `now`, with the accrual in the history. The
    /// record itself is the caller's to store.
    fn accrue_to(&mut self, record: &YieldRecord, now: u64) -> (r: Result<YieldRecord, MathError>)
        ensures
            r == accrued(*record, now),
            final(self)@ == (if r is Ok {
                old(self)@.accruing(*record, now)
            } else {
                old(self)@
            }),
            ({
                let key = (record.staker, record.asset);
                old(self)@.wf() && old(self)@.accrued_yield(key) == record.accrued_yield
                    ==> adds_up(table::list_at(final(self)@.histories, key))
            }),
    {
        if now <= record.last_accrual_ts {
            return Ok(*record);
        }
        let elapsed = now - record.last_accrual_ts;
        let earned = match Self::pending_yield(record, now) {
            Ok(earned) => earned,
            Err(e) => {
                return Err(e);
            },
        };
        let cumulative = match record.accrued_yield.checked_add(earned) {
            Some(total) => total,
            None => {
                return Err(MathError::Overflow);
            },
        };
        self.append_history(
            &record.staker,
            &record.asset,
            YieldHistoryEntry {
                timestamp: now,
                period_seconds: elapsed,
                apr: record.apr,
                yield_earned: earned,
                cumulative_yield: cumulative,
                is_claim: false,
            },
        );
        let mut updated = *record;
        updated.accrued_yield = cumulative;
        updated.last_accrual_ts = now;
        Ok(updated)
    }

    /// Pay out everything that a position has accrued; gives the amount.
    pub fn finalize_claim(&mut self, record: YieldRecord, now: u64) -> (claimed: i128)
        requires
            old(self)@.wf(),
        ensures
            final(self)@.wf(),
            claimed == record.accrued_yield,
            final(self)@ == old(self)@.noted(
                (record.staker, record.asset),
                claim_entry(record, 0, now),
            ).stored(YieldRecord { accrued_yield: 0, ..record }),
    {
        let claimed = record.accrued_yield;
        let mut emptied = record;
        emptied.accrued_yield = 0;
        self.append_history(
            &record.staker,
            &record.asset,
            YieldHistoryEntry {
                timestamp: now,
                period_seconds: 0,
                apr: record.apr,
                yield_earned: 0,
                cumulative_yield: 0,
                is_claim: true,
            },
        );
        self.store_record(&emptied);
        claimed
    }

    /// Accrue a position to `now` and pay out all that it has; gives the
    /// amount. A position that is missing counts as invalid input.
    pub fn claim(&mut self, staker: &Address, asset: &Symbol, now: u64) -> (r: Result<
        i128,
        MathError,
    >)
        requires
            old(self)@.wf(),
        ensures
            final(self)@.wf(),
            old(self)@.claimed(final(self)@, r, (*staker, *asset), now),
    {
        let ghost ledger = self@;
        let record = match self.accrue(staker, asset, now) {
            Ok(record) => record,
            Err(e) => {
                return Err(e);
            },
        };
        let claimed = self.finalize_claim(record, now);
        proof {
            let key = (*staker, *asset);
            let emptied = ledger.accruing(ledger.records[key], now).noted(
                key,
                claim_entry(record, 0, now),
            ).stored(YieldRecord { accrued_yield: 0, ..record });
            assert(self@.records =~= emptied.records);
        }
        Ok(claimed)
    }

    /// The history of a position, oldest first.
    pub fn history(&self, staker: &Address, asset: &Symbol) -> (list: Vec<YieldHistoryEntry>)
        ensures
            list@ == table::list_at(self@.histories, (*staker, *asset)),
    {
        table::list_of(&self.histories, &(*staker, *asset))
    }

    fn append_history(&mut self, staker: &Address, asset: &Symbol, entry: YieldHistoryEntry)
        ensures
            final(self)@ == old(self)@.noted((*staker, *asset), entry),
            ({
                let history = table::list_at(old(self)@.histories, (*staker, *asset));
                adds_up(history) && follows(history, entry) ==> adds_up(history.push(entry))
            }),
    {
        proof {
            let history = table::list_at(self@.histories, (*staker, *asset));
            if adds_up(history) && follows(history, entry) {
                lemma_still_adds_up(history, entry);
            }
        }
        table::append(&mut self.histories, (*staker, *asset), entry);
    }

    /// Plan a payment: once, or again and again where the interval is not 0.
    pub fn schedule_distribution(
        &mut self,
        staker: &Address,
        asset: &Symbol,
        amount: i128,
        due_ts: u64,
        interval_seconds: u64,
    ) -> (schedule: DistributionSchedule)
        ensures
            schedule == (DistributionSchedule {
                staker: *staker,
                asset: *asset,
                due_ts,
                interval_seconds,
                amount,
                executed: false,
            }),
            final(self)@ == (YieldLedger {
                plans: old(self)@.plans.insert(
                    (*staker, *asset),
                    table::list_at(old(self)@.plans, (*staker, *asset)).push(schedule),
                ),
                ..old(self)@
            }),
    {
        let schedule = DistributionSchedule {
            staker: *staker,
            asset: *asset,
            due_ts,
            interval_seconds,
            amount,
            executed: false,
        };
        table::append(&mut self.plans, (*staker, *asset), schedule);
        schedule
    }

    /// The planned payments of a position.
    pub fn schedules(&self, staker: &Address, asset: &Symbol) -> (list: Vec<DistributionSchedule>)
        ensures
            list@ == table::list_at(self@.plans, (*staker, *asset)),
    {
        table::list_of(&self.plans, &(*staker, *asset))
    }

    /// The position of a staker in an asset.
    pub fn load_record(&self, staker: &Address, asset: &Symbol) -> (record: Option<YieldRecord>)
        ensures
            record == self@.records.get((*staker, *asset)),
    {
        match self.records.get(&(*staker, *asset)) {
            Some(r) => Some(*r),
            None => None,
        }
    }

    fn store_record(&mut self, record: &YieldRecord)
        ensures
            final(self)@ == old(self)@.stored(*record),
    {
        self.records.set((record.staker, record.asset), *record);
    }

    /// Add to the reserve of an asset; gives the new balance.
    pub fn fund_reserve(&mut self, asset: &Symbol, amount: i128) -> (balance: i128)
        requires
            amount > 0,
            table::value_or(old(self)@.reserves, *asset, 0) + amount <= i128::MAX,
        ensures
            balance == table::value_or(old(self)@.reserves, *asset, 0) + amount,
            final(self)@ == (YieldLedger {
                reserves: old(self)@.reserves.insert(*asset, balance),
                ..old(self)@
            }),
    {
        let current = self.reserve_balance(asset);
        let new_balance = current + amount;
        self.reserves.set(*asset, new_balance);
        new_balance
    }

    /// The reserve of an asset, 0 where it has none.
    pub fn reserve_balance(&self, asset: &Symbol) -> (balance: i128)
        ensures
            balance == table::value_or(self@.reserves, *asset, 0),
    {
        match self.reserves.get(asset) {
            Some(balance) => *balance,
            None => 0,
        }
    }

    /// Take from the reserve of an asset; gives the new balance.
    pub fn withdraw_reserve(&mut self, asset: &Symbol, amount: i128) -> (balance: i128)
        requires
            0 < amount <= table::value_or(old(self)@.reserves, *asset, 0),
        ensures
            balance == table::value_or(old(self)@.reserves, *asset, 0) - amount,
            final(self)@ == (YieldLedger {
                reserves: old(self)@.reserves.insert(*asset, balance),
                ..old(self)@
            }),
    {
        let current = self.reserve_balance(asset);
        let new_balance = current - amount;
        self.reserves.set(*asset, new_balance);
        new_balance
    }

    /// Whether payments are switched off.
    pub fn is_paused(&self) -> (b: bool)
        ensures
            b == self@.paused,
    {
        self.paused
    }

    /// Switch payments off or on.
    pub fn set_paused(&mut self, paused: bool)
        ensures
            final(self)@ == (YieldLedger { paused, ..old(self)@ }),
    {
        self.paused = paused;
    }

    /// Note a payment.
    pub fn record_distribution(&mut self, record: &YieldDistributionRecord)
        ensures
            final(self)@ == old(self)@.paid(*record),
    {
        table::append(&mut self.payments, (record.staker, record.asset), *record);
    }

    /// The payments of a position, oldest first.
    pub fn distribution_history(&self, staker: &Address, asset: &Symbol) -> (list: Vec<
        YieldDistributionRecord,
    >)
        ensures
            list@ == table::list_at(self@.payments, (*staker, *asset)),
    {
        table::list_of(&self.payments, &(*staker, *asset))
    }

    /// The payments of a position from `from_ts` to `to_ts`, both included.
    pub fn distribution_history_range(
        &self,
        staker: &Address,
        asset: &Symbol,
        from_ts: u64,
        to_ts: u64,
    ) -> (filtered: Vec<YieldDistributionRecord>)
        ensures
            filtered@ == table::list_at(self@.payments, (*staker, *asset)).filter(
                |p: YieldDistributionRecord| from_ts <= p.timestamp <= to_ts,
            ),
    {
        let all = self.distribution_history(staker, asset);
        let ghost keep = |p: YieldDistributionRecord| from_ts <= p.timestamp <= to_ts;
        let mut filtered: Vec<YieldDistributionRecord> = Vec::new();
        let mut i: usize = 0;
        proof {
            table::lemma_filter_none(all@, keep);
        }
        while i < all.len()
            invariant
                i <= all@.len(),
                keep == (|p: YieldDistributionRecord| from_ts <= p.timestamp <= to_ts),
                filtered@ == all@.take(i as int).filter(keep),
            decreases all@.len() - i,
        {
            let entry = all[i];
            proof {
                table::lemma_filter_step(all@, i as int, keep);
            }
            if entry.timestamp >= from_ts && entry.timestamp <= to_ts {
                filtered.push(entry);
            }
            i += 1;
        }
        assert(all@.take(i as int) =~= all@);
        filtered
    }

    /// The payments of a position of one type.
    pub fn distribution_history_by_type(
        &self,
        staker: &Address,
        asset: &Symbol,
        dist_type: DistributionType,
    ) -> (filtered: Vec<YieldDistributionRecord>)
        ensures
            filtered@ == table::list_at(self@.payments, (*staker, *asset)).filter(
                |p: YieldDistributionRecord| p.distribution_type == dist_type,
            ),
    {
        let all = self.distribution_history(staker, asset);
        let ghost keep = |p: YieldDistributionRecord| p.distribution_type == dist_type;
        let mut filtered: Vec<YieldDistributionRecord> = Vec::new();
        let mut i: usize = 0;
        proof {
            table::lemma_filter_none(all@, keep);
        }
        while i < all.len()
            invariant
                i <= all@.len(),
                keep == (|p: YieldDistributionRecord| p.distribution_type == dist_type),
                filtered@ == all@.take(i as int).filter(keep),
            decreases all@.len() - i,
        {
            let entry = all[i];
            proof {
                table::lemma_filter_step(all@, i as int, keep);
            }
            if entry.distribution_type == dist_type {
                filtered.push(entry);
            }
            i += 1;
        }
        assert(all@.take(i as int) =~= all@);
        filtered
    }

    /// Whether what a position was paid can be added up.
    pub fn can_total(&self, staker: &Address, asset: &Symbol) -> (b: bool)
        ensures
            b == totals_fit(table::list_at(self@.payments, (*staker, *asset))),
    {
        let history = self.distribution_history(staker, asset);
        let mut total: i128 = 0;
        let mut i: usize = 0;
        assert(history@.take(0) =~= Seq::<YieldDistributionRecord>::empty());
        while i < history.len()
            invariant
                i <= history@.len(),
                history@ == table::list_at(self@.payments, (*staker, *asset)),
                total == paid_in_all(history@.take(i as int)),
                forall|k: int|
                    0 <= k <= i ==> math::fits(#[trigger] paid_in_all(history@.take(k))),
            decreases history@.len() - i,
        {
            assert(history@.take(i + 1).drop_last() =~= history@.take(i as int));
            assert(history@.take(i + 1).last() == history@[i as int]);
            total = match total.checked_add(history[i].amount) {
                Some(sum) => sum,
                None => {
                    assert(!math::fits(paid_in_all(history@.take(i + 1))));
                    return false;
                },
            };
            i += 1;
        }
        true
    }

    /// What a position was paid in all.
    pub fn total_yield_claimed(&self, staker: &Address, asset: &Symbol) -> (total: i128)
        requires
            totals_fit(table::list_at(self@.payments, (*staker, *asset))),
        ensures
            total == paid_in_all(table::list_at(self@.payments, (*staker, *asset))),
    {
        let history = self.distribution_history(staker, asset);
        let mut total: i128 = 0;
        let mut i: usize = 0;
        while i < history.len()
            invariant
                i <= history@.len(),
                total == paid_in_all(history@.take(i as int)),
                forall|k: int|
                    0 <= k <= history@.len() ==> math::fits(
                        #[trigger] paid_in_all(history@.take(k)),
                    ),
            decreases history@.len() - i,
        {
            let entry = history[i];
            assert(history@.take(i + 1).drop_last() =~= history@.take(i as int));
            assert(math::fits(paid_in_all(history@.take(i + 1))));
            total = total + entry.amount;
            i += 1;
        }
        assert(history@.take(i as int) =~= history@);
        total
    }

    /// Claim up to `amount` of what a position has accrued by `now`; gives
    /// what was paid. Where there is a reserve, it pays no more than it holds.
    pub fn claim_yield_partial(
        &mut self,
        staker: &Address,
        asset: &Symbol,
        amount: i128,
        now: u64,
    ) -> (r: Result<i128, MathError>)
        requires
            old(self)@.wf(),
            amount > 0,
        ensures
            final(self)@.wf(),
            ({
                let ledger = old(self)@;
                let key = (*staker, *asset);
                let record = ledger.records[key];
                let reserve = ledger.reserve(*asset) as int;
                if !ledger.records.contains_key(key) {
                    r == Err::<i128, MathError>(MathError::NegativeInput) && final(self)@ == ledger
                } else {
                    match accrued(record, now) {
                        Err(e) => r == Err::<i128, MathError>(e) && final(self)@ == ledger,
                        Ok(updated) => {
                            let claimed = payable(
                                updated.accrued_yield as int,
                                amount as int,
                                reserve,
                            );
                            if claimed <= 0 {
                                r == Ok::<i128, MathError>(0) && final(self)@ == ledger.accruing(
                                    record,
                                    now,
                                ).stored(updated)
                            } else {
                                r == Ok::<i128, MathError>(claimed as i128) && final(self)@
                                    == ledger.accruing(record, now).with_reserve(
                                    *asset,
                                    reserve - claimed,
                                ).settled(
                                    updated,
                                    claimed,
                                    now,
                                    DistributionType::Claim,
                                    if reserve >= 0 {
                                        reserve - claimed
                                    } else {
                                        table::value_or(ledger.reserves, *asset, 0) as int
                                    },
                                )
                            }
                        },
                    }
                }
            }),
    {
        let ghost ledger = self@;
        let record = match self.load_record(staker, asset) {
            Some(r) => r,
            None => {
                return Err(MathError::NegativeInput);
            },
        };
        let updated = match self.accrue_to(&record, now) {
            Ok(r) => r,
            Err(e) => {
                return Err(e);
            },
        };
        let available = updated.accrued_yield;
        let mut claimed = if amount > available {
            available
        } else {
            amount
        };
        let reserve: i128 = match self.reserves.get(asset) {
            Some(balance) => *balance,
            None => -1,
        };
        if reserve >= 0 && claimed > reserve {
            claimed = reserve;
        }
        if claimed <= 0 {
            self.store_record(&updated);
            return Ok(0);
        }
        if reserve >= 0 {
            self.reserves.set(*asset, reserve - claimed);
        }
        let mut finalized = updated;
        finalized.accrued_yield = finalized.accrued_yield - claimed;
        self.append_history(
            staker,
            asset,
            YieldHistoryEntry {
                timestamp: now,
                period_seconds: 0,
                apr: finalized.apr,
                yield_earned: 0,
                cumulative_yield: finalized.accrued_yield,
                is_claim: true,
            },
        );
        self.store_record(&finalized);
        let remaining_reserve = self.reserve_balance(asset);
        self.record_distribution(
            &YieldDistributionRecord {
                staker: *staker,
                asset: *asset,
                amount: claimed,
                timestamp: now,
                distribution_type: DistributionType::Claim,
                accrued_at_claim: available,
                reserve_after: remaining_reserve,
            },
        );
        Ok(claimed)
    }

    /// Claim everything that each of `stakers` has accrued by `now`, in the
    /// order given and as far as the reserve goes; gives what each was paid.
    pub fn batch_claim(&mut self, stakers: &Vec<Address>, asset: &Symbol, now: u64) -> (results:
        Vec<(Address, i128)>)
        requires
            old(self)@.wf(),
        ensures
            final(self)@.wf(),
            ({
                let ledger = old(self)@;
                if ledger.paused {
                    final(self)@ == ledger && results@ == stakers@.map_values(
                        |staker: Address| (staker, 0i128),
                    )
                } else {
                    let done = claimed_by_all(ledger, stakers@, *asset, now);
                    results@ == done.results && final(self)@ == (if ledger.reserve(*asset) >= 0 {
                        YieldLedger {
                            reserves: ledger.reserves.insert(*asset, done.reserve as i128),
                            ..done.ledger
                        }
                    } else {
                        done.ledger
                    })
                }
            }),
    {
        let ghost ledger = self@;
        let mut results: Vec<(Address, i128)> = Vec::new();
        if self.is_paused() {
            let mut i: usize = 0;
            while i < stakers.len()
                invariant
                    i <= stakers@.len(),
                    self@ == ledger,
                    results@ == stakers@.take(i as int).map_values(
                        |staker: Address| (staker, 0i128),
                    ),
                decreases stakers@.len() - i,
            {
                results.push((stakers[i], 0));
                i += 1;
                assert(results@ =~= stakers@.take(i as int).map_values(
                    |staker: Address| (staker, 0i128),
                ));
            }
            assert(stakers@.take(i as int) =~= stakers@);
            return results;
        }
        let mut reserve_remaining: i128 = match self.reserves.get(asset) {
            Some(balance) => *balance,
            None => -1,
        };
        let has_reserve = reserve_remaining >= 0;
        let mut i: usize = 0;
        while i < stakers.len()
            invariant
                i <= stakers@.len(),
                self@.wf(),
                ledger.wf(),
                has_reserve == (ledger.reserve(*asset) >= 0),
                has_reserve ==> reserve_remaining >= 0,
                self@.reserves == ledger.reserves,
                claimed_by_all(ledger, stakers@.take(i as int), *asset, now) == (BatchClaims {
                    ledger: self@,
                    reserve: reserve_remaining as int,
                    results: results@,
                }),
            decreases stakers@.len() - i,
        {
            let staker = stakers[i];
            assert(stakers@.take(i + 1).drop_last() =~= stakers@.take(i as int));
            assert(stakers@.take(i + 1).last() == staker);
            let ghost before = self@;
            let (claimed, left) = self.claim_all(
                &staker,
                asset,
                now,
                reserve_remaining,
                has_reserve,
            );
            reserve_remaining = left;
            results.push((staker, claimed));
            i += 1;
        }
        assert(stakers@.take(i as int) =~= stakers@);
        let ghost done = self@;
        if has_reserve {
            self.reserves.set(*asset, reserve_remaining);
        }
        assert(self@.histories == done.histories);
        results
    }

    /// Claim all that one staker has accrued by `now`, as far as what remains
    /// of the reserve goes; gives what was paid and what then remains.
    fn claim_all(
        &mut self,
        staker: &Address,
        asset: &Symbol,
        now: u64,
        reserve_remaining: i128,
        has_reserve: bool,
    ) -> (r: (i128, i128))
        requires
            old(self)@.wf(),
            has_reserve ==> reserve_remaining >= 0,
        ensures
            final(self)@.wf(),
            ({
                let done = claimed_by_one(
                    old(self)@,
                    reserve_remaining as int,
                    *staker,
                    *asset,
                    now,
                    has_reserve,
                );
                final(self)@ == done.0 && r.0 == done.1 && r.1 == done.2
            }),
            final(self)@.reserves == old(self)@.reserves,
            has_reserve ==> r.1 >= 0,
    {
        let record = match self.load_record(staker, asset) {
            Some(r) => r,
            None => {
                return (0, reserve_remaining);
            },
        };
        let updated = match self.accrue_to(&record, now) {
            Ok(r) => r,
            Err(_) => {
                return (0, reserve_remaining);
            },
        };
        let available = updated.accrued_yield;
        if available <= 0 {
            self.store_record(&updated);
            return (0, reserve_remaining);
        }
        let mut claimed = available;
        if has_reserve && claimed > reserve_remaining {
            claimed = reserve_remaining;
        }
        if claimed <= 0 {
            self.store_record(&updated);
            return (0, reserve_remaining);
        }
        let left = if has_reserve {
            reserve_remaining - claimed
        } else {
            reserve_remaining
        };
        let mut finalized = updated;
        finalized.accrued_yield = finalized.accrued_yield - claimed;
        self.append_history(
            staker,
            asset,
            YieldHistoryEntry {
                timestamp: now,
                period_seconds: 0,
                apr: finalized.apr,
                yield_earned: 0,
                cumulative_yield: finalized.accrued_yield,
                is_claim: true,
            },
        );
        self.store_record(&finalized);
        self.record_distribution(
            &YieldDistributionRecord {
                staker: *staker,
                asset: *asset,
                amount: claimed,
                timestamp: now,
                distribution_type: DistributionType::BatchClaim,
                accrued_at_claim: available,
                reserve_after: left,
            },
        );
        (claimed, left)
    }

    /// Whether all payments that are made for a position by `now` stay in
    /// range.
    #[verifier::rlimit(40)]
    pub fn can_distribute(&self, staker: &Address, asset: &Symbol, now: u64) -> (b: bool)
        ensures
            b == payments_in_range(self@, *staker, *asset, now),
    {
        let key = (*staker, *asset);
        if !self.plans.has(&key) {
            return true;
        }
        let list = table::list_of(&self.plans, &key);
        let ghost plans = self@.plans[key];
        assert(list@ == plans);
        let mut reserve: i128 = match self.reserves.get(asset) {
            Some(balance) => *balance,
            None => -1,
        };
        let has_reserve = reserve >= 0;
        let mut total: i128 = 0;
        let mut i: usize = 0;
        assert(plans.take(0) =~= Seq::<DistributionSchedule>::empty());
        while i < list.len()
            invariant
                i <= list@.len(),
                list@ == plans,
                key == (*staker, *asset),
                self@.plans.contains_key(key),
                plans == self@.plans[key],
                has_reserve == (self@.reserve(*asset) >= 0),
                reserve == paid_out(self@, plans.take(i as int), *staker, *asset, now).reserve,
                total == paid_out(self@, plans.take(i as int), *staker, *asset, now).total,
                forall|j: int|
                    0 <= j < i ==> payment_in_range(
                        paid_out(self@, plans.take(j), *staker, *asset, now),
                        #[trigger] plans[j],
                        has_reserve,
                        now,
                    ),
            decreases list@.len() - i,
        {
            let plan = list[i];
            let ghost so_far = paid_out(self@, plans.take(i as int), *staker, *asset, now);
            assert(plans.take(i + 1).drop_last() =~= plans.take(i as int));
            assert(plans.take(i + 1).last() == plan);
            if !plan.executed && plan.due_ts <= now && (!has_reserve || reserve >= plan.amount) {
                assert(is_paid(plan, so_far.reserve, has_reserve, now));
                if plan.due_ts.checked_add(plan.interval_seconds).is_none() {
                    assert(!payment_in_range(so_far, plans[i as int], has_reserve, now));
                    return false;
                }
                total = match total.checked_add(plan.amount) {
                    Some(sum) => sum,
                    None => {
                        assert(!payment_in_range(so_far, plans[i as int], has_reserve, now));
                        return false;
                    },
                };
                if has_reserve {
                    reserve = match reserve.checked_sub(plan.amount) {
                        Some(left) => left,
                        None => {
                            assert(!payment_in_range(so_far, plans[i as int], has_reserve, now));
                            return false;
                        },
                    };
                }
                assert(payment_in_range(so_far, plans[i as int], has_reserve, now));
            }
            i += 1;
        }
        true
    }

    /// Make the planned payments of a position that are due at `now`; gives
    /// their total. A payment that the reserve does not cover stays due.
    pub fn process_distribution(&mut self, staker: &Address, asset: &Symbol, now: u64) -> (total:
        i128)
        requires
            !old(self)@.paused ==> payments_in_range(old(self)@, *staker, *asset, now),
        ensures
            ({
                let ledger = old(self)@;
                let key = (*staker, *asset);
                if ledger.paused || !ledger.plans.contains_key(key) {
                    total == 0 && final(self)@ == ledger
                } else {
                    let done = paid_out(ledger, ledger.plans[key], *staker, *asset, now);
                    &&& total == done.total
                    &&& final(self)@ == (YieldLedger {
                        plans: ledger.plans.insert(key, done.plans),
                        ..done.ledger
                    }).with_reserve(*asset, done.reserve)
                }
            }),
    {
        let ghost ledger = self@;
        let key = (*staker, *asset);
        if self.is_paused() {
            return 0;
        }
        if !self.plans.has(&key) {
            return 0;
        }
        let list = table::list_of(&self.plans, &key);
        let ghost plans = ledger.plans[key];
        assert(list@ == plans);
        let mut reserve: i128 = match self.reserves.get(asset) {
            Some(balance) => *balance,
            None => -1,
        };
        let has_reserve = reserve >= 0;
        let mut total: i128 = 0;
        let mut updated: Vec<DistributionSchedule> = Vec::new();
        let mut i: usize = 0;
        while i < list.len()
            invariant
                i <= list@.len(),
                list@ == plans,
                key == (*staker, *asset),
                ledger.plans.contains_key(key),
                plans == ledger.plans[key],
                payments_in_range(ledger, *staker, *asset, now),
                has_reserve == (ledger.reserve(*asset) >= 0),
                self@.reserves == ledger.reserves,
                self@.plans == ledger.plans,
                paid_out(ledger, plans.take(i as int), *staker, *asset, now) == (Payout {
                    ledger: self@,
                    reserve: reserve as int,
                    total: total as int,
                    plans: updated@,
                }),
            decreases list@.len() - i,
        {
            let mut s = list[i];
            let ghost so_far = paid_out(ledger, plans.take(i as int), *staker, *asset, now);
            assert(plans.take(i + 1).drop_last() =~= plans.take(i as int));
            assert(plans.take(i + 1).last() == s);
            assert(payment_in_range(so_far, plans[i as int], has_reserve, now));
            if !s.executed && s.due_ts <= now {
                let can_pay = !has_reserve || reserve >= s.amount;
                if can_pay {
                    total = total + s.amount;
                    if has_reserve {
                        reserve = reserve - s.amount;
                    }
                    self.record_distribution(
                        &YieldDistributionRecord {
                            staker: *staker,
                            asset: *asset,
                            amount: s.amount,
                            timestamp: now,
                            distribution_type: DistributionType::Scheduled,
                            accrued_at_claim: s.amount,
                            reserve_after: reserve,
                        },
                    );
                    if s.interval_seconds > 0 {
                        s.due_ts = s.due_ts + s.interval_seconds;
                    } else {
                        s.executed = true;
                    }
                }
            }
            updated.push(s);
            i += 1;
        }
        assert(plans.take(i as int) =~= plans);
        table::put_list(&mut self.plans, key, updated);
        if has_reserve {
            self.reserves.set(*asset, reserve);
        }
        total
    }
}

impl YieldLedger {
    /// How accruing a position and then changing it relates two states.
    pub open spec fn changed(
        self,
        after: YieldLedger,
        r: Result<YieldRecord, MathError>,
        key: (Address, Symbol),
        now: u64,
        change: spec_fn(YieldRecord) -> YieldRecord,
    ) -> bool {
        if !self.records.contains_key(key) {
            r == Err::<YieldRecord, MathError>(MathError::NegativeInput) && after == self
        } else {
            match accrued(self.records[key], now) {
                Err(e) => r == Err::<YieldRecord, MathError>(e) && after == self,
                Ok(updated) => r == Ok::<YieldRecord, MathError>(change(updated)) && after
                    == self.accruing(self.records[key], now).stored(change(updated)),
            }
        }
    }

    /// How claiming all that a position has accrued relates two states.
    pub open spec fn claimed(
        self,
        after: YieldLedger,
        r: Result<i128, MathError>,
        key: (Address, Symbol),
        now: u64,
    ) -> bool {
        if !self.records.contains_key(key) {
            r == Err::<i128, MathError>(MathError::NegativeInput) && after == self
        } else {
            match accrued(self.records[key], now) {
                Err(e) => r == Err::<i128, MathError>(e) && after == self,
                Ok(updated) => r == Ok::<i128, MathError>(updated.accrued_yield) && after
                    == self.accruing(self.records[key], now).noted(
                    key,
                    claim_entry(updated, 0, now),
                ).stored(YieldRecord { accrued_yield: 0, ..updated }),
            }
        }
    }
}

/// The sum of payments.
pub open spec fn paid_in_all(payments: Seq<YieldDistributionRecord>) -> int
    decreases payments.len(),
{
    if payments.len() == 0 {
        0
    } else {
        paid_in_all(payments.drop_last()) + payments.last().amount
    }
}

/// Whether the payments can be added up, one after another.
pub open spec fn totals_fit(payments: Seq<YieldDistributionRecord>) -> bool {
    forall|k: int|
        0 <= k <= payments.len() ==> math::fits(#[trigger] paid_in_all(payments.take(k)))
}

/// A batch of claims under way.
pub struct BatchClaims {
    pub ledger: YieldLedger,
    pub reserve: int,
    pub results: Seq<(Address, i128)>,
}

/// One full claim in a batch: the state after it, what was paid, and what
/// remains of the reserve.
pub open spec fn claimed_by_one(
    ledger: YieldLedger,
    reserve: int,
    staker: Address,
    asset: Symbol,
    now: u64,
    has_reserve: bool,
) -> (YieldLedger, int, int) {
    let key = (staker, asset);
    let record = ledger.records[key];
    if !ledger.records.contains_key(key) || accrued(record, now) is Err {
        (ledger, 0, reserve)
    } else {
        let updated = accrued(record, now)->Ok_0;
        let available = updated.accrued_yield as int;
        let claimed = if has_reserve {
            math::least(available, reserve)
        } else {
            available
        };
        let left = if has_reserve {
            reserve - claimed
        } else {
            reserve
        };
        if claimed <= 0 {
            (ledger.accruing(record, now).stored(updated), 0, reserve)
        } else {
            (
                ledger.accruing(record, now).settled(
                    updated,
                    claimed,
                    now,
                    DistributionType::BatchClaim,
                    left,
                ),
                claimed,
                left,
            )
        }
    }
}

/// The claims of all of `stakers`, one after another.
pub open spec fn claimed_by_all(
    ledger: YieldLedger,
    stakers: Seq<Address>,
    asset: Symbol,
    now: u64,
) -> BatchClaims
    decreases stakers.len(),
{
    if stakers.len() == 0 {
        BatchClaims { ledger, reserve: ledger.reserve(asset) as int, results: Seq::empty() }
    } else {
        let so_far = claimed_by_all(ledger, stakers.drop_last(), asset, now);
        let done = claimed_by_one(
            so_far.ledger,
            so_far.reserve,
            stakers.last(),
            asset,
            now,
            ledger.reserve(asset) >= 0,
        );
        BatchClaims {
            ledger: done.0,
            reserve: done.2,
            results: so_far.results.push((stakers.last(), done.1 as i128)),
        }
    }
}

/// What a batch paid in all.
pub open spec fn batch_total(results: Seq<(Address, i128)>) -> int
    decreases results.len(),
{
    if results.len() == 0 {
        0
    } else {
        batch_total(results.drop_last()) + results.last().1
    }
}

/// A batch pays exactly what leaves the reserve, never overdraws it, and
/// answers for every staker in the order given.
pub proof fn batch_claims_are_covered(
    ledger: YieldLedger,
    stakers: Seq<Address>,
    asset: Symbol,
    now: u64,
)
    requires
        ledger.reserve(asset) >= 0,
    ensures
        ({
            let done = claimed_by_all(ledger, stakers, asset, now);
            &&& 0 <= done.reserve
            &&& done.reserve + batch_total(done.results) == ledger.reserve(asset)
            &&& done.results.len() == stakers.len()
            &&& forall|i: int|
                0 <= i < stakers.len() ==> (#[trigger] done.results[i]).0 == stakers[i]
                    && done.results[i].1 >= 0
        }),
    decreases stakers.len(),
{
    if stakers.len() > 0 {
        batch_claims_are_covered(ledger, stakers.drop_last(), asset, now);
        let so_far = claimed_by_all(ledger, stakers.drop_last(), asset, now);
        let done = claimed_by_all(ledger, stakers, asset, now);
        assert(done.results.drop_last() =~= so_far.results);
        assert forall|i: int| 0 <= i < stakers.len() implies (#[trigger] done.results[i]).0
            == stakers[i] && done.results[i].1 >= 0 by {
            if i < stakers.len() - 1 {
                assert(done.results[i] == so_far.results[i]);
                assert(stakers.drop_last()[i] == stakers[i]);
            }
        }
    }
}

/// Planned payments under way.
pub struct Payout {
    pub ledger: YieldLedger,
    pub reserve: int,
    pub total: int,
    pub plans: Seq<DistributionSchedule>,
}

/// Whether a planned payment is made now.
pub open spec fn is_paid(
    plan: DistributionSchedule,
    reserve: int,
    has_reserve: bool,
    now: u64,
) -> bool {
    !plan.executed && plan.due_ts <= now && (has_reserve ==> reserve >= plan.amount)
}

/// A plan after its payment was made: due again, or done.
pub open spec fn renewed(plan: DistributionSchedule) -> DistributionSchedule {
    if plan.interval_seconds > 0 {
        DistributionSchedule {
            due_ts: (plan.due_ts + plan.interval_seconds) as u64,
            ..plan
        }
    } else {
        DistributionSchedule { executed: true, ..plan }
    }
}

/// The planned payments of a position, one after another.
pub open spec fn paid_out(
    ledger: YieldLedger,
    plans: Seq<DistributionSchedule>,
    staker: Address,
    asset: Symbol,
    now: u64,
) -> Payout
    decreases plans.len(),
{
    if plans.len() == 0 {
        Payout { ledger, reserve: ledger.reserve(asset) as int, total: 0, plans: Seq::empty() }
    } else {
        let so_far = paid_out(ledger, plans.drop_last(), staker, asset, now);
        let plan = plans.last();
        let has_reserve = ledger.reserve(asset) >= 0;
        if is_paid(plan, so_far.reserve, has_reserve, now) {
            let reserve = if has_reserve {
                so_far.reserve - plan.amount
            } else {
                so_far.reserve
            };
            Payout {
                ledger: so_far.ledger.paid(
                    YieldDistributionRecord {
                        staker,
                        asset,
                        amount: plan.amount,
                        timestamp: now,
                        distribution_type: DistributionType::Scheduled,
                        accrued_at_claim: plan.amount,
                        reserve_after: reserve as i128,
                    },
                ),
                reserve,
                total: so_far.total + plan.amount,
                plans: so_far.plans.push(renewed(plan)),
            }
        } else {
            Payout { plans: so_far.plans.push(plan), ..so_far }
        }
    }
}

/// Whether a payment, if it is made, stays in range.
pub open spec fn payment_in_range(
    so_far: Payout,
    plan: DistributionSchedule,
    has_reserve: bool,
    now: u64,
) -> bool {
    is_paid(plan, so_far.reserve, has_reserve, now) ==> {
        &&& math::fits(so_far.total + plan.amount)
        &&& has_reserve ==> math::fits(so_far.reserve - plan.amount)
        &&& plan.due_ts + plan.interval_seconds <= u64::MAX
    }
}

/// Whether all payments that are made for a position stay in range.
pub open spec fn payments_in_range(
    ledger: YieldLedger,
    staker: Address,
    asset: Symbol,
    now: u64,
) -> bool {
    let plans = ledger.plans[(staker, asset)];
    ledger.plans.contains_key((staker, asset)) ==> forall|i: int|
        0 <= i < plans.len() ==> payment_in_range(
            paid_out(ledger, plans.take(i), staker, asset, now),
            #[trigger] plans[i],
            ledger.reserve(asset) >= 0,
            now,
        )
}

/// Planned payments come out of the reserve to the last unit and never
/// overdraw it.
pub proof fn planned_payments_are_covered(
    ledger: YieldLedger,
    plans: Seq<DistributionSchedule>,
    staker: Address,
    asset: Symbol,
    now: u64,
)
    requires
        ledger.reserve(asset) >= 0,
    ensures
        ({
            let done = paid_out(ledger, plans, staker, asset, now);
            &&& 0 <= done.reserve
            &&& done.reserve + done.total == ledger.reserve(asset)
            &&& done.plans.len() == plans.len()
        }),
    decreases plans.len(),
{
    if plans.len() > 0 {
        planned_payments_are_covered(ledger, plans.drop_last(), staker, asset, now);
    }
}

/// What a position has pending follows from its own terms. A simple position
/// earns in proportion to its rate and the time since it last accrued; a
/// continuous one earns that and interest on the interest: at least
/// `rate + rate^2 / 2` of the principal for the rate over that time, less
/// rounding. Nothing is pending at or before the last accrual.
pub proof fn pending_follows_the_terms(record: YieldRecord, now: u64) -> (rate: int)
    requires
        pending(record, now) is Ok,
    ensures
        now <= record.last_accrual_ts ==> pending(record, now)->Ok_0 == 0,
        now > record.last_accrual_ts ==> {
            let earned = pending(record, now)->Ok_0;
            let elapsed = now - record.last_accrual_ts;
            let s: int = 1_000_000_000_000;
            &&& rate * 31_536_000 <= record.apr * elapsed < (rate + 1) * 31_536_000
            &&& record.mode == CompoundingMode::Simple ==> earned * s <= record.principal * rate < (
            earned + 1) * s
            &&& record.mode == CompoundingMode::Continuous ==> {
                &&& record.principal * (rate + rate * rate / (2 * s)) < (earned + 1) * s
                &&& earned * s <= record.principal * (fixed_point::exp_value(rate) - s) < (earned + 1)
                    * s
                &&& rate <= 2 * s ==> earned * (2 * s - rate) <= 2 * record.principal * rate
            }
        },
{
    let elapsed = now - record.last_accrual_ts;
    if elapsed <= 0 {
        0
    } else {
        match record.mode {
            CompoundingMode::Simple => compounding::simple_yields_are_in_proportion(
                record.principal as int,
                record.apr as int,
                elapsed,
            ),
            CompoundingMode::Continuous => compounding::continuous_yields_compound(
                record.principal as int,
                record.apr as int,
                elapsed,
            ),
        }
    }
}

/// What a position has pending is what a calculator in the position's own mode
/// gives for its principal, its rate and the seconds since it last accrued;
/// and of two positions that differ only in their mode the continuous one has
/// no less pending.
pub proof fn pending_keeps_the_mode(record: YieldRecord, now: u64)
    requires
        now > record.last_accrual_ts,
    ensures
        pending(record, now) == compounding::yield_for(
            record.mode,
            record.principal as int,
            record.apr as int,
            now - record.last_accrual_ts,
        ),
        ({
            let simple = YieldRecord { mode: CompoundingMode::Simple, ..record };
            let continuous = YieldRecord { mode: CompoundingMode::Continuous, ..record };
            let rate = record.apr * (now - record.last_accrual_ts) / 31_536_000;
            pending(simple, now) is Ok && pending(continuous, now) is Ok ==> {
                &&& pending(simple, now)->Ok_0 <= pending(continuous, now)->Ok_0
                &&& record.principal * (rate * rate / 2_000_000_000_000) >= 1_000_000_000_000
                    ==> pending(simple, now)->Ok_0 < pending(continuous, now)->Ok_0
            }
        }),
{
    let (p, a, t) = (
        record.principal as int,
        record.apr as int,
        now - record.last_accrual_ts,
    );
    if compounding::yield_for(CompoundingMode::Simple, p, a, t) is Ok && compounding::yield_for(
        CompoundingMode::Continuous,
        p,
        a,
        t,
    ) is Ok {
        compounding::compounding_earns_more(p, a, t);
    }
}

/// An accrual adds what is pending and moves the position to that moment; it
/// fails only where the pending yield has no value or the sum leaves the
/// range. A moment that is not after the last accrual changes nothing.
pub proof fn accruing_adds_what_is_pending(record: YieldRecord, now: u64)
    ensures
        now <= record.last_accrual_ts ==> accrued(record, now) == Ok::<YieldRecord, MathError>(
            record,
        ),
        now > record.last_accrual_ts && pending(record, now) is Ok && record.accrued_yield + pending(
            record,
            now,
        )->Ok_0 <= i128::MAX ==> accrued(record, now) is Ok,
        now > record.last_accrual_ts && pending(record, now) is Err ==> accrued(record, now) is Err
            && accrued(record, now)->Err_0 == pending(record, now)->Err_0,
        accrued(record, now) matches Ok(after) ==> {
            &&& after.accrued_yield == record.accrued_yield + pending(record, now)->Ok_0
            &&& after.last_accrual_ts >= now && after.last_accrual_ts >= record.last_accrual_ts
            &&& after.last_accrual_ts == now || after.last_accrual_ts == record.last_accrual_ts
            &&& after.staker == record.staker && after.asset == record.asset
            &&& after.principal == record.principal && after.apr == record.apr && after.mode
                == record.mode
        },
{
    if now > record.last_accrual_ts && pending(record, now) is Ok {
        compounding::yields_are_not_negative(
            record.mode,
            record.principal as int,
            record.apr as int,
            now - record.last_accrual_ts,
        );
    }
}

/// A claim pays as much as it can: all that was asked for, or else all that
/// was accrued, or else all that the reserve holds.
pub proof fn claims_are_paid_in_full(available: int, amount: int, reserve: int)
    ensures
        ({
            let paid = payable(available, amount, reserve);
            &&& paid == amount || paid == available || (reserve >= 0 && paid == reserve)
            &&& paid <= amount && paid <= available && (reserve >= 0 ==> paid <= reserve)
            &&& reserve < 0 && amount >= available ==> paid == available
            &&& reserve < 0 && amount <= available ==> paid == amount
        }),
{
}

/// Settling a claim takes what was paid off what was accrued and leaves the
/// rest of the position alone; it notes one payment of that amount, made now,
/// and one history entry that shows what is left.
pub proof fn settling_takes_off_what_was_paid(
    ledger: YieldLedger,
    record: YieldRecord,
    claimed: int,
    now: u64,
    kind: DistributionType,
    reserve_after: int,
)
    requires
        0 <= claimed <= record.accrued_yield,
    ensures
        ({
            let key = (record.staker, record.asset);
            let after = ledger.settled(record, claimed, now, kind, reserve_after);
            let payments = table::list_at(after.payments, key);
            let history = table::list_at(after.histories, key);
            &&& after.records[key].accrued_yield == record.accrued_yield - claimed
            &&& after.records[key].principal == record.principal && after.records[key].apr
                == record.apr && after.records[key].mode == record.mode
                && after.records[key].last_accrual_ts == record.last_accrual_ts
            &&& payments.len() == table::list_at(ledger.payments, key).len() + 1
            &&& payments.last().amount == claimed && payments.last().timestamp == now
                && payments.last().staker == record.staker && payments.last().asset == record.asset
                && payments.last().distribution_type == kind && payments.last().accrued_at_claim
                == record.accrued_yield
            &&& history.len() == table::list_at(ledger.histories, key).len() + 1
            &&& history.last().is_claim && history.last().cumulative_yield == record.accrued_yield
                - claimed && history.last().yield_earned == 0 && history.last().timestamp == now
            &&& after.reserves == ledger.reserves && after.plans == ledger.plans && after.paused
                == ledger.paused
            &&& forall|other: (Address, Symbol)|
                other != key ==> (#[trigger] after.records.contains_key(other))
                    == ledger.records.contains_key(other) && after.records[other]
                    == ledger.records[other]
        }),
{
}

/// In a batch each staker is paid all that is accrued by then, or all that is
/// left of the reserve where that is less; what is paid leaves the reserve and
/// the position. Who has no position is paid nothing and changes nothing.
pub proof fn batch_claims_are_paid_in_full(
    ledger: YieldLedger,
    reserve: int,
    staker: Address,
    asset: Symbol,
    now: u64,
    has_reserve: bool,
)
    requires
        ledger.wf(),
        has_reserve ==> reserve >= 0,
    ensures
        ({
            let key = (staker, asset);
            let (after, paid, left) = claimed_by_one(
                ledger,
                reserve,
                staker,
                asset,
                now,
                has_reserve,
            );
            let due = accrued(ledger.records[key], now);
            &&& !ledger.records.contains_key(key) || due is Err ==> paid == 0 && left == reserve
                && after == ledger
            &&& ledger.records.contains_key(key) && due is Ok ==> {
                let available = due->Ok_0.accrued_yield;
                &&& available > 0 && !has_reserve ==> paid == available && left == reserve
                &&& available > 0 && has_reserve ==> left == reserve - paid && paid <= available
                    && paid <= reserve && (paid == available || paid == reserve)
                &&& available <= 0 ==> paid == 0 && left == reserve
                &&& after.records[key].accrued_yield == available - paid
                &&& after.records[key].last_accrual_ts >= now
            }
        }),
{
    let key = (staker, asset);
    if ledger.records.contains_key(key) && accrued(ledger.records[key], now) is Ok {
        accruing_adds_what_is_pending(ledger.records[key], now);
    }
}

/// Stakers of a batch are served one after another: what each is paid is what
/// a single claim pays on the state and the reserve that those before left.
pub proof fn batches_are_served_in_order(
    ledger: YieldLedger,
    stakers: Seq<Address>,
    asset: Symbol,
    now: u64,
    next: Address,
)
    ensures
        ({
            let before = claimed_by_all(ledger, stakers, asset, now);
            let after = claimed_by_all(ledger, stakers.push(next), asset, now);
            let one = claimed_by_one(
                before.ledger,
                before.reserve,
                next,
                asset,
                now,
                ledger.reserve(asset) >= 0,
            );
            &&& after.ledger == one.0 && after.reserve == one.2
            &&& after.results == before.results.push((next, one.1 as i128))
        }),
        claimed_by_all(ledger, Seq::empty(), asset, now).ledger == ledger,
        claimed_by_all(ledger, Seq::empty(), asset, now).reserve == ledger.reserve(asset),
{
    assert(stakers.push(next).drop_last() =~= stakers);
}

/// A planned payment is made when it is due, was not made yet, and is covered
/// by what is left of the reserve; the amount is the plan's, and is noted. A
/// plan with an interval is then due one interval later, and another is done
/// for good. A plan that is not paid stays as it was.
pub proof fn plans_are_paid_when_due(
    ledger: YieldLedger,
    plans: Seq<DistributionSchedule>,
    staker: Address,
    asset: Symbol,
    now: u64,
    next: DistributionSchedule,
)
    requires
        next.due_ts + next.interval_seconds <= u64::MAX,
    ensures
        ({
            let key = (staker, asset);
            let before = paid_out(ledger, plans, staker, asset, now);
            let after = paid_out(ledger, plans.push(next), staker, asset, now);
            let covered = ledger.reserve(asset) >= 0 ==> before.reserve >= next.amount;
            let noted = table::list_at(after.ledger.payments, key);
            let pays = next.due_ts <= now && !next.executed && covered;
            &&& after.plans.len() == before.plans.len() + 1
            &&& after.plans.drop_last() == before.plans
            &&& pays ==> {
                &&& after.total == before.total + next.amount
                &&& ledger.reserve(asset) >= 0 ==> after.reserve == before.reserve - next.amount
                &&& noted.len() == table::list_at(before.ledger.payments, key).len() + 1
                &&& noted.last().amount == next.amount && noted.last().timestamp == now
                    && noted.last().staker == staker && noted.last().asset == asset
                    && noted.last().distribution_type == DistributionType::Scheduled
                &&& next.interval_seconds == 0 ==> after.plans.last().executed
                &&& next.interval_seconds > 0 ==> after.plans.last().due_ts == next.due_ts
                    + next.interval_seconds && !after.plans.last().executed
                &&& after.plans.last().amount == next.amount && after.plans.last().interval_seconds
                    == next.interval_seconds
            }
            &&& !pays ==> after.total == before.total && after.reserve == before.reserve
                && after.ledger == before.ledger && after.plans.last() == next
        }),
        paid_out(ledger, Seq::empty(), staker, asset, now).total == 0,
        paid_out(ledger, Seq::empty(), staker, asset, now).ledger == ledger,
{
    assert(plans.push(next).drop_last() =~= plans);
    let before = paid_out(ledger, plans, staker, asset, now);
    let after = paid_out(ledger, plans.push(next), staker, asset, now);
    assert(after.plans.drop_last() =~= before.plans);
}

/// A payment that is made once is not made again.
pub proof fn single_payments_are_not_repeated(
    plan: DistributionSchedule,
    reserve: int,
    has_reserve: bool,
    later: u64,
)
    requires
        plan.interval_seconds == 0,
    ensures
        !is_paid(renewed(plan), reserve, has_reserve, later),
{
}

/// What was paid in all is the sum of the payments.
pub proof fn payments_add_up(
    a: Seq<YieldDistributionRecord>,
    b: Seq<YieldDistributionRecord>,
    p: YieldDistributionRecord,
)
    ensures
        paid_in_all(seq![p]) == p.amount,
        paid_in_all(a + b) == paid_in_all(a) + paid_in_all(b),
    decreases b.len(),
{
    reveal_with_fuel(paid_in_all, 2);
    assert(seq![p].drop_last() =~= Seq::<YieldDistributionRecord>::empty());
    if b.len() == 0 {
        assert(a + b =~= a);
    } else {
        payments_add_up(a, b.drop_last(), p);
        assert((a + b).drop_last() =~= a + b.drop_last());
    }
}

/// A full claim pays everything that the position had accrued by then and
/// leaves nothing unclaimed.
pub proof fn a_full_claim_leaves_nothing(
    before: YieldLedger,
    after: YieldLedger,
    r: Result<i128, MathError>,
    key: (Address, Symbol),
    now: u64,
)
    requires
        before.wf(),
        before.claimed(after, r, key, now),
        r is Ok,
    ensures
        before.records.contains_key(key),
        r->Ok_0 == before.records[key].accrued_yield + pending(before.records[key], now)->Ok_0,
        after.records[key].accrued_yield == 0,
        after.records[key].principal == before.records[key].principal,
        after.accrued_yield(key) == 0,
        after.reserves == before.reserves,
{
    accruing_adds_what_is_pending(before.records[key], now);
}

/// A change of terms first accrues at the old terms: what was earned before it
/// stays, and the position earns at the new terms from then on.
pub proof fn changes_accrue_first(
    before: YieldLedger,
    after: YieldLedger,
    r: Result<YieldRecord, MathError>,
    key: (Address, Symbol),
    now: u64,
    principal: i128,
    apr: i128,
)
    requires
        before.wf(),
        r is Ok,
        before.changed(
            after,
            r,
            key,
            now,
            |record: YieldRecord| YieldRecord { principal, ..record },
        ) || before.changed(after, r, key, now, |record: YieldRecord| YieldRecord { apr, ..record }),
    ensures
        before.records.contains_key(key),
        after.records[key] == r->Ok_0,
        r->Ok_0.accrued_yield == before.records[key].accrued_yield + pending(
            before.records[key],
            now,
        )->Ok_0,
        r->Ok_0.last_accrual_ts >= now,
        r->Ok_0.principal == principal || r->Ok_0.apr == apr,
{
    accruing_adds_what_is_pending(before.records[key], now);
}

/// An accrual is written down with the time it covers, from the accrual before
/// it until now, with the rate and with what it earned; what is written down
/// of a claim earns nothing and covers no time.
pub proof fn accruals_are_noted(record: YieldRecord, left: i128, now: u64)
    requires
        now >= record.last_accrual_ts,
    ensures
        ({
            let entry = accrual_entry(record, now);
            &&& entry.timestamp == now && !entry.is_claim && entry.apr == record.apr
            &&& record.last_accrual_ts + entry.period_seconds == now
            &&& pending(record, now) is Ok ==> entry.yield_earned == pending(record, now)->Ok_0
            &&& accrued(record, now) is Ok ==> entry.cumulative_yield == accrued(
                record,
                now,
            )->Ok_0.accrued_yield
        }),
        ({
            let entry = claim_entry(record, left, now);
            &&& entry.timestamp == now && entry.is_claim && entry.apr == record.apr
            &&& entry.period_seconds == 0 && entry.yield_earned == 0 && entry.cumulative_yield
                == left
        }),
{
}

/// A position that does not exist has accrued nothing; one that does has
/// accrued what its record says. An entry goes last into its own history.
pub proof fn positions_hold_what_they_accrued(
    ledger: YieldLedger,
    key: (Address, Symbol),
    other: (Address, Symbol),
    entry: YieldHistoryEntry,
)
    ensures
        !ledger.records.contains_key(key) ==> ledger.accrued_yield(key) == 0,
        ledger.records.contains_key(key) ==> ledger.accrued_yield(key)
            == ledger.records[key].accrued_yield,
        table::list_at(ledger.noted(key, entry).histories, key) == table::list_at(
            ledger.histories,
            key,
        ).push(entry),
        other != key ==> table::list_at(ledger.noted(key, entry).histories, other)
            == table::list_at(ledger.histories, other),
        ledger.noted(key, entry).records == ledger.records,
{
}

} // verus!
