//! The fee contract.
//!
//! Whoever calls a function that is the administrator's has been found to be
//! the administrator. A call that is refused changes nothing.
use crate::fee::engine;
use crate::fee::records::{
    Error, FeeCalculationResult, FeeCategory, FeeRecord, FeeStructure, FeeType, FeeWaiver,
    RevenueRecipient, TierEntry, MAX_HISTORY, MAX_RECIPIENTS,
};
use crate::math;
use crate::math::BPS_DENOM;
use crate::table;
use crate::table::Table;
use crate::values;
use crate::values::{Address, Symbol};
use vstd::prelude::*;

verus! {

/// Fees, waivers, recipients, and what was collected.
pub struct FeeManagementContract {
    pub admin: Option<Address>,
    pub structures: Table<Symbol, FeeStructure>,
    pub fee_ids: Vec<Symbol>,
    pub portfolio_fees: Table<Symbol, Symbol>,
    pub history: Vec<FeeRecord>,
    pub waivers: Vec<FeeWaiver>,
    pub recipients: Vec<RevenueRecipient>,
    pub total_collected: i128,
    pub category_totals: Table<u32, i128>,
    pub portfolio_totals: Table<Symbol, i128>,
}

/// The contract's state as a value.
pub struct FeeLedger {
    pub admin: Option<Address>,
    pub structures: Map<Symbol, FeeStructure>,
    pub fee_ids: Seq<Symbol>,
    pub portfolio_fees: Map<Symbol, Symbol>,
    pub history: Seq<FeeRecord>,
    pub waivers: Seq<FeeWaiver>,
    pub recipients: Seq<RevenueRecipient>,
    pub total_collected: i128,
    pub category_totals: Map<u32, i128>,
    pub portfolio_totals: Map<Symbol, i128>,
}

impl View for FeeManagementContract {
    type V = FeeLedger;

    open spec fn view(&self) -> FeeLedger {
        FeeLedger {
            admin: self.admin,
            structures: self.structures@,
            fee_ids: self.fee_ids@,
            portfolio_fees: self.portfolio_fees@,
            history: self.history@,
            waivers: self.waivers@,
            recipients: self.recipients@,
            total_collected: self.total_collected,
            category_totals: self.category_totals@,
            portfolio_totals: self.portfolio_totals@,
        }
    }
}

/// A history with a record added; the oldest one makes room.
pub open spec fn remembered(history: Seq<FeeRecord>, record: FeeRecord) -> Seq<FeeRecord> {
    if history.len() >= MAX_HISTORY {
        history.skip(1).push(record)
    } else {
        history.push(record)
    }
}

/// The last `max` records, or all where `max` is 0.
pub open spec fn latest(history: Seq<FeeRecord>, max: int) -> Seq<FeeRecord> {
    if max == 0 || history.len() <= max {
        history
    } else {
        history.skip(history.len() - max)
    }
}

/// The position of the first waiver that counts as the same one; the length
/// where there is none.
pub open spec fn waiver_at(waivers: Seq<FeeWaiver>, waiver: FeeWaiver) -> int
    decreases waivers.len(),
{
    if waivers.len() == 0 || engine::is_same_waiver(waivers[0], waiver) {
        0
    } else {
        1 + waiver_at(waivers.drop_first(), waiver)
    }
}

/// Waivers with one put in place of the one that counts as the same, or added.
pub open spec fn with_waiver(waivers: Seq<FeeWaiver>, waiver: FeeWaiver) -> Seq<FeeWaiver> {
    let at = waiver_at(waivers, waiver);
    if at < waivers.len() {
        waivers.update(at, waiver)
    } else {
        waivers.push(waiver)
    }
}

/// A waiver by which others are looked up.
pub open spec fn waiver_for(address: Option<Address>, portfolio_id: Option<Symbol>) -> FeeWaiver {
    FeeWaiver { address, portfolio_id, discount_bps: 0, waived: false }
}

impl FeeLedger {
    /// Fees are filed under their own ids, discounts are rates, and the lists
    /// keep to their limits.
    pub open spec fn wf(self) -> bool {
        &&& forall|id: Symbol| #[trigger]
            self.structures.contains_key(id) ==> self.structures[id].fee_id == id
        &&& forall|i: int|
            0 <= i < self.waivers.len() ==> engine::is_rate(
                (#[trigger] self.waivers[i]).discount_bps as int,
            )
        &&& self.history.len() <= MAX_HISTORY
        &&& self.recipients.len() <= MAX_RECIPIENTS
    }

    /// The fee on an amount before any discount.
    pub open spec fn gross_fee(self, fee_id: Symbol, amount: i128) -> Result<int, Error> {
        if !self.structures.contains_key(fee_id) {
            Err(Error::FeeNotFound)
        } else if !self.structures[fee_id].active {
            Err(Error::FeeInactive)
        } else {
            let fs = self.structures[fee_id];
            match engine::raw_fee(
                fs.fee_type,
                fs.amount_bps,
                fs.tiered_entries@,
                amount as int,
            ) {
                Err(e) => Err(e),
                Ok(raw) => Ok(engine::bounded_fee(raw as int, amount as int)),
            }
        }
    }

    /// The fee on an amount with a discount.
    pub open spec fn quote(self, fee_id: Symbol, amount: i128, discount: (i128, bool)) -> Result<
        FeeCalculationResult,
        Error,
    > {
        match self.gross_fee(fee_id, amount) {
            Err(e) => Err(e),
            Ok(gross) => match engine::discounted(gross, discount.0 as int, discount.1) {
                Err(e) => Err(e),
                Ok(net) => Ok(
                    FeeCalculationResult {
                        fee_id,
                        gross_amount: amount,
                        discount_bps: discount.0,
                        fee_amount: net,
                        waived: discount.1,
                    },
                ),
            },
        }
    }

    /// The fee of a portfolio, or else the one given.
    pub open spec fn fee_for(self, portfolio_id: Symbol, fallback: Symbol) -> Symbol {
        table::value_or(self.portfolio_fees, portfolio_id, fallback)
    }

    /// What collecting a fee gives.
    pub open spec fn collection(
        self,
        caller: Address,
        fee_id: Symbol,
        portfolio_id: Symbol,
        base_amount: i128,
    ) -> Result<i128, Error> {
        match self.quote(
            fee_id,
            base_amount,
            engine::collection_discount(self.waivers, caller, portfolio_id),
        ) {
            Err(e) => Err(e),
            Ok(result) => if !math::fits(self.total_collected + result.fee_amount) {
                Err(Error::ArithmeticOverflow)
            } else if engine::revenue_split(self.recipients, result.fee_amount as int) is Err {
                Err(Error::ArithmeticOverflow)
            } else {
                Ok(result.fee_amount)
            },
        }
    }

    /// The state after a fee was collected.
    pub open spec fn collected(
        self,
        caller: Address,
        fee_id: Symbol,
        portfolio_id: Symbol,
        base_amount: i128,
        fee: i128,
        now: u64,
    ) -> FeeLedger {
        FeeLedger {
            history: remembered(
                self.history,
                FeeRecord {
                    fee_id,
                    portfolio_id,
                    amount: base_amount,
                    calculated_fee: fee,
                    timestamp: now,
                    beneficiary: caller,
                },
            ),
            total_collected: (self.total_collected + fee) as i128,
            ..self
        }
    }
}

/// A fee that is charged on an amount that is not negative is between nothing
/// and all of it, discounts included.
pub proof fn quotes_are_bounded(
    ledger: FeeLedger,
    fee_id: Symbol,
    amount: i128,
    discount: (i128, bool),
)
    requires
        0 <= amount,
        engine::is_rate(discount.0 as int),
        ledger.quote(fee_id, amount, discount) is Ok,
    ensures
        0 <= ledger.quote(fee_id, amount, discount)->Ok_0.fee_amount <= amount,
        discount.1 ==> ledger.quote(fee_id, amount, discount)->Ok_0.fee_amount == 0,
{
    let gross = ledger.gross_fee(fee_id, amount)->Ok_0;
    engine::discounts_never_raise_a_fee(gross as i128, discount.0, discount.1);
}

/// The history never outgrows its limit, and the newest record is the last.
pub proof fn the_history_is_bounded(history: Seq<FeeRecord>, record: FeeRecord)
    requires
        history.len() <= MAX_HISTORY,
    ensures
        remembered(history, record).len() <= MAX_HISTORY,
        remembered(history, record).last() == record,
{
}

proof fn lemma_waiver_at(waivers: Seq<FeeWaiver>, waiver: FeeWaiver, at: int)
    requires
        0 <= at <= waivers.len(),
        forall|j: int| 0 <= j < at ==> !engine::is_same_waiver(#[trigger] waivers[j], waiver),
        at < waivers.len() ==> engine::is_same_waiver(waivers[at], waiver),
    ensures
        waiver_at(waivers, waiver) == at,
    decreases waivers.len(),
{
    if waivers.len() > 0 && at > 0 {
        assert(!engine::is_same_waiver(waivers[0], waiver));
        let rest = waivers.drop_first();
        assert forall|j: int| 0 <= j < at - 1 implies !engine::is_same_waiver(
            #[trigger] rest[j],
            waiver,
        ) by {
            assert(rest[j] == waivers[j + 1]);
        }
        lemma_waiver_at(rest, waiver, at - 1);
    }
}

impl FeeManagementContract {
    /// A contract that waits to be initialized.
    pub fn new() -> (contract: FeeManagementContract)
        ensures
            contract@.wf(),
            contract@ == (FeeLedger {
                admin: None,
                structures: Map::empty(),
                fee_ids: Seq::empty(),
                portfolio_fees: Map::empty(),
                history: Seq::empty(),
                waivers: Seq::empty(),
                recipients: Seq::empty(),
                total_collected: 0,
                category_totals: Map::empty(),
                portfolio_totals: Map::empty(),
            }),
    {
        let contract = FeeManagementContract {
            admin: None,
            structures: Table::new(),
            fee_ids: Vec::new(),
            portfolio_fees: Table::new(),
            history: Vec::new(),
            waivers: Vec::new(),
            recipients: Vec::new(),
            total_collected: 0,
            category_totals: Table::new(),
            portfolio_totals: Table::new(),
        };
        assert(contract@.fee_ids =~= Seq::empty());
        assert(contract@.history =~= Seq::empty());
        assert(contract@.waivers =~= Seq::empty());
        assert(contract@.recipients =~= Seq::empty());
        contract
    }

    /// Name the administrator. This can be done once.
    pub fn initialize(&mut self, admin: Address) -> (r: Result<Symbol, Error>)
        ensures
            if old(self)@.admin is Some {
                r == Err::<Symbol, Error>(Error::AlreadyInitialized) && final(self)@ == old(self)@
            } else {
                r == Ok::<Symbol, Error>(values::symbol_of("ok"@)) && final(self)@ == (FeeLedger {
                    admin: Some(admin),
                    ..old(self)@
                })
            },
    {
        if self.admin.is_some() {
            return Err(Error::AlreadyInitialized);
        }
        self.admin = Some(admin);
        Ok(Symbol::from_text("ok"))
    }

    /// The administrator.
    pub fn get_admin(&self) -> (admin: Address)
        requires
            self@.admin is Some,
        ensures
            admin == self@.admin->0,
    {
        match self.admin {
            Some(a) => a,
            None => Address { is_contract: false, hi: 0, lo: 0 },
        }
    }

    /// Hand the administration over.
    pub fn transfer_admin(&mut self, new_admin: Address) -> (r: Symbol)
        requires
            old(self)@.admin is Some,
        ensures
            r == values::symbol_of("ok"@),
            final(self)@ == (FeeLedger { admin: Some(new_admin), ..old(self)@ }),
    {
        self.admin = Some(new_admin);
        Symbol::from_text("ok")
    }

    /// Define a fee, or define it anew.
    pub fn set_fee_structure(
        &mut self,
        fee_id: Symbol,
        fee_type: FeeType,
        amount_bps: i128,
        tiered_entries: Vec<TierEntry>,
        category: FeeCategory,
        active: bool,
        fee_cap: Option<i128>,
    ) -> (r: Result<Symbol, Error>)
        requires
            old(self)@.wf(),
            old(self)@.admin is Some,
        ensures
            final(self)@.wf(),
            ({
                let fs = FeeStructure {
                    fee_id,
                    fee_type,
                    amount_bps,
                    tiered_entries,
                    category,
                    active,
                    fee_cap,
                };
                if !engine::is_valid(fs) {
                    r == Err::<Symbol, Error>(Error::InvalidFeeConfiguration) && final(self)@
                        == old(self)@
                } else {
                    r == Ok::<Symbol, Error>(values::symbol_of("ok"@)) && final(self)@ == (
                    FeeLedger {
                        structures: old(self)@.structures.insert(fee_id, fs),
                        fee_ids: if old(self)@.fee_ids.contains(fee_id) {
                            old(self)@.fee_ids
                        } else {
                            old(self)@.fee_ids.push(fee_id)
                        },
                        ..old(self)@
                    })
                }
            }),
    {
        let fs = FeeStructure {
            fee_id,
            fee_type,
            amount_bps,
            tiered_entries,
            category,
            active,
            fee_cap,
        };
        match engine::validate_fee_structure(&fs) {
            Ok(_) => {},
            Err(e) => {
                return Err(e);
            },
        }
        self.structures.set(fee_id, fs);
        self.add_fee_id(&fee_id);
        Ok(Symbol::from_text("ok"))
    }

    fn add_fee_id(&mut self, fee_id: &Symbol)
        ensures
            final(self)@ == (FeeLedger {
                fee_ids: if old(self)@.fee_ids.contains(*fee_id) {
                    old(self)@.fee_ids
                } else {
                    old(self)@.fee_ids.push(*fee_id)
                },
                ..old(self)@
            }),
    {
        let mut i: usize = 0;
        while i < self.fee_ids.len()
            invariant
                *self == *old(self),
                i <= self.fee_ids@.len(),
                forall|j: int| 0 <= j < i ==> self.fee_ids@[j] != *fee_id,
            decreases self.fee_ids@.len() - i,
        {
            if self.fee_ids[i] == *fee_id {
                return ;
            }
            i += 1;
        }
        self.fee_ids.push(*fee_id);
    }

    /// Define a fee without category or cap.
    pub fn set_fee_structure_simple(
        &mut self,
        fee_id: Symbol,
        fee_type: FeeType,
        amount_bps: i128,
        tiered_entries: Vec<TierEntry>,
        active: bool,
    ) -> (r: Result<Symbol, Error>)
        requires
            old(self)@.wf(),
            old(self)@.admin is Some,
        ensures
            final(self)@.wf(),
            ({
                let fs = FeeStructure {
                    fee_id,
                    fee_type,
                    amount_bps,
                    tiered_entries,
                    category: FeeCategory::Custom,
                    active,
                    fee_cap: None,
                };
                if !engine::is_valid(fs) {
                    r == Err::<Symbol, Error>(Error::InvalidFeeConfiguration) && final(self)@
                        == old(self)@
                } else {
                    r == Ok::<Symbol, Error>(values::symbol_of("ok"@)) && final(self)@ == (
                    FeeLedger {
                        structures: old(self)@.structures.insert(fee_id, fs),
                        fee_ids: if old(self)@.fee_ids.contains(fee_id) {
                            old(self)@.fee_ids
                        } else {
                            old(self)@.fee_ids.push(fee_id)
                        },
                        ..old(self)@
                    })
                }
            }),
    {
        self.set_fee_structure(
            fee_id,
            fee_type,
            amount_bps,
            tiered_entries,
            FeeCategory::Custom,
            active,
            None,
        )
    }

    /// A fee.
    pub fn get_fee_structure(&self, fee_id: &Symbol) -> (fs: Option<&FeeStructure>)
        ensures
            fs is Some <==> self@.structures.contains_key(*fee_id),
            fs matches Some(f) ==> *f == self@.structures[*fee_id],
    {
        self.structures.get(fee_id)
    }

    /// The ids of all fees.
    pub fn list_fee_structures(&self) -> (ids: Vec<Symbol>)
        ensures
            ids@ == self@.fee_ids,
    {
        table::copy_list(&self.fee_ids)
    }

    /// Switch a fee on or off.
    pub fn set_fee_active(&mut self, fee_id: Symbol, active: bool) -> (r: Result<Symbol, Error>)
        requires
            old(self)@.wf(),
            old(self)@.admin is Some,
        ensures
            final(self)@.wf(),
            if !old(self)@.structures.contains_key(fee_id) {
                r == Err::<Symbol, Error>(Error::FeeNotFound) && final(self)@ == old(self)@
            } else {
                r == Ok::<Symbol, Error>(values::symbol_of("ok"@)) && final(self)@ == (FeeLedger {
                    structures: old(self)@.structures.insert(
                        fee_id,
                        FeeStructure { active, ..old(self)@.structures[fee_id] },
                    ),
                    ..old(self)@
                })
            },
    {
        let ghost ledger = self@;
        match self.structures.take(&fee_id) {
            Some(mut fs) => {
                fs.active = active;
                self.structures.set(fee_id, fs);
                assert(self@.structures =~= ledger.structures.insert(
                    fee_id,
                    FeeStructure { active, ..ledger.structures[fee_id] },
                ));
                Ok(Symbol::from_text("ok"))
            },
            None => {
                assert(self@.structures =~= ledger.structures);
                Err(Error::FeeNotFound)
            },
        }
    }

    /// Set or lift the cap of a fee.
    pub fn set_fee_cap(&mut self, fee_id: Symbol, cap: Option<i128>) -> (r: Result<Symbol, Error>)
        requires
            old(self)@.wf(),
            old(self)@.admin is Some,
        ensures
            final(self)@.wf(),
            if !old(self)@.structures.contains_key(fee_id) {
                r == Err::<Symbol, Error>(Error::FeeNotFound) && final(self)@ == old(self)@
            } else {
                r == Ok::<Symbol, Error>(values::symbol_of("ok"@)) && final(self)@ == (FeeLedger {
                    structures: old(self)@.structures.insert(
                        fee_id,
                        FeeStructure { fee_cap: cap, ..old(self)@.structures[fee_id] },
                    ),
                    ..old(self)@
                })
            },
    {
        let ghost ledger = self@;
        match self.structures.take(&fee_id) {
            Some(mut fs) => {
                fs.fee_cap = cap;
                self.structures.set(fee_id, fs);
                assert(self@.structures =~= ledger.structures.insert(
                    fee_id,
                    FeeStructure { fee_cap: cap, ..ledger.structures[fee_id] },
                ));
                Ok(Symbol::from_text("ok"))
            },
            None => {
                assert(self@.structures =~= ledger.structures);
                Err(Error::FeeNotFound)
            },
        }
    }

    /// Give a portfolio a fee of its own.
    pub fn set_portfolio_fee(&mut self, portfolio_id: Symbol, fee_id: Symbol) -> (r: Result<
        Symbol,
        Error,
    >)
        requires
            old(self)@.wf(),
            old(self)@.admin is Some,
        ensures
            final(self)@.wf(),
            if !old(self)@.structures.contains_key(fee_id) {
                r == Err::<Symbol, Error>(Error::FeeNotFound) && final(self)@ == old(self)@
            } else {
                r == Ok::<Symbol, Error>(values::symbol_of("ok"@)) && final(self)@ == (FeeLedger {
                    portfolio_fees: old(self)@.portfolio_fees.insert(portfolio_id, fee_id),
                    ..old(self)@
                })
            },
    {
        if !self.structures.has(&fee_id) {
            return Err(Error::FeeNotFound);
        }
        self.portfolio_fees.set(portfolio_id, fee_id);
        Ok(Symbol::from_text("ok"))
    }

    /// The fee of a portfolio, if it has one of its own.
    pub fn get_portfolio_fee(&self, portfolio_id: &Symbol) -> (fee_id: Option<Symbol>)
        ensures
            fee_id == self@.portfolio_fees.get(*portfolio_id),
    {
        match self.portfolio_fees.get(portfolio_id) {
            Some(id) => Some(*id),
            None => None,
        }
    }

    /// Take a portfolio's own fee away.
    pub fn remove_portfolio_fee(&mut self, portfolio_id: Symbol) -> (r: Symbol)
        requires
            old(self)@.wf(),
            old(self)@.admin is Some,
        ensures
            final(self)@.wf(),
            r == values::symbol_of("ok"@),
            final(self)@ == (FeeLedger {
                portfolio_fees: old(self)@.portfolio_fees.remove(portfolio_id),
                ..old(self)@
            }),
    {
        self.portfolio_fees.take(&portfolio_id);
        Symbol::from_text("ok")
    }

    /// The fee on an amount before any discount.
    fn gross_fee(&self, fee_id: &Symbol, amount: i128) -> (r: Result<i128, Error>)
        ensures
            match self@.gross_fee(*fee_id, amount) {
                Ok(fee) => r is Ok && r->Ok_0 == fee,
                Err(e) => r is Err && r->Err_0 == e,
            },
    {
        let fs = match self.structures.get(fee_id) {
            Some(fs) => fs,
            None => {
                return Err(Error::FeeNotFound);
            },
        };
        if !fs.active {
            return Err(Error::FeeInactive);
        }
        match engine::compute_raw_fee(&fs.fee_type, fs.amount_bps, &fs.tiered_entries, amount) {
            Ok(raw) => Ok(engine::clamp_fee(raw, amount)),
            Err(e) => Err(e),
        }
    }

    /// The fee on an amount with a discount.
    fn quote(&self, fee_id: Symbol, amount: i128, discount_bps: i128, waived: bool) -> (r: Result<
        FeeCalculationResult,
        Error,
    >)
        ensures
            r == self@.quote(fee_id, amount, (discount_bps, waived)),
    {
        let gross = match self.gross_fee(&fee_id, amount) {
            Ok(fee) => fee,
            Err(e) => {
                return Err(e);
            },
        };
        match engine::apply_discount(gross, discount_bps, waived) {
            Ok(net) => Ok(
                FeeCalculationResult {
                    fee_id,
                    gross_amount: amount,
                    discount_bps,
                    fee_amount: net,
                    waived,
                },
            ),
            Err(e) => Err(e),
        }
    }

    /// A fee on an amount, without discount.
    pub fn calculate_fee(&self, fee_id: Symbol, amount: i128) -> (r: Result<
        FeeCalculationResult,
        Error,
    >)
        ensures
            r == self@.quote(fee_id, amount, (0, false)),
    {
        self.quote(fee_id, amount, 0, false)
    }

    /// The fee of a portfolio on an amount, by its own fee or else the one
    /// given, with the portfolio's discount.
    pub fn calculate_portfolio_fee(
        &self,
        portfolio_id: Symbol,
        fallback_fee_id: Symbol,
        amount: i128,
    ) -> (r: Result<FeeCalculationResult, Error>)
        ensures
            r == self@.quote(
                self@.fee_for(portfolio_id, fallback_fee_id),
                amount,
                engine::portfolio_discount(self@.waivers, portfolio_id),
            ),
    {
        let fee_id = match self.portfolio_fees.get(&portfolio_id) {
            Some(id) => *id,
            None => fallback_fee_id,
        };
        let (discount_bps, waived) = engine::resolve_waiver_for_portfolio(
            &self.waivers,
            &portfolio_id,
        );
        self.quote(fee_id, amount, discount_bps, waived)
    }

    /// Collect a fee: charge it with the discounts of caller and portfolio,
    /// keep a record and count it. Gives the amount.
    pub fn collect_fee(
        &mut self,
        caller: Address,
        fee_id: Symbol,
        portfolio_id: Symbol,
        base_amount: i128,
        now: u64,
    ) -> (r: Result<i128, Error>)
        requires
            old(self)@.wf(),
        ensures
            final(self)@.wf(),
            r == old(self)@.collection(caller, fee_id, portfolio_id, base_amount),
            final(self)@ == (match r {
                Ok(fee) => old(self)@.collected(
                    caller,
                    fee_id,
                    portfolio_id,
                    base_amount,
                    fee,
                    now,
                ),
                Err(_) => old(self)@,
            }),
    {
        let (discount_bps, waived) = engine::resolve_waiver_for_collect(
            &self.waivers,
            &caller,
            &portfolio_id,
        );
        let fee = match self.quote(fee_id, base_amount, discount_bps, waived) {
            Ok(result) => result.fee_amount,
            Err(e) => {
                return Err(e);
            },
        };
        let total = match self.total_collected.checked_add(fee) {
            Some(t) => t,
            None => {
                return Err(Error::ArithmeticOverflow);
            },
        };
        match engine::distribute_revenue(&self.recipients, fee) {
            Ok(_) => {},
            Err(e) => {
                return Err(e);
            },
        }
        self.append_fee_record(
            FeeRecord {
                fee_id,
                portfolio_id,
                amount: base_amount,
                calculated_fee: fee,
                timestamp: now,
                beneficiary: caller,
            },
        );
        self.total_collected = total;
        Ok(fee)
    }

    fn append_fee_record(&mut self, record: FeeRecord)
        requires
            old(self)@.wf(),
        ensures
            final(self)@.wf(),
            final(self)@ == (FeeLedger {
                history: remembered(old(self)@.history, record),
                ..old(self)@
            }),
    {
        let ghost before = self@.history;
        if self.history.len() >= MAX_HISTORY as usize {
            self.history.remove(0);
            assert(self.history@ =~= before.skip(1));
        }
        self.history.push(record);
    }

    /// Collect the fee on a yield.
    pub fn collect_yield_fee(&mut self, caller: Address, portfolio_id: Symbol, y: i128, now: u64)
        -> (r: Result<i128, Error>)
        requires
            old(self)@.wf(),
        ensures
            final(self)@.wf(),
            r == old(self)@.collection(caller, values::symbol_of("YIELD"@), portfolio_id, y),
            final(self)@ == (match r {
                Ok(fee) => old(self)@.collected(
                    caller,
                    values::symbol_of("YIELD"@),
                    portfolio_id,
                    y,
                    fee,
                    now,
                ),
                Err(_) => old(self)@,
            }),
    {
        self.collect_fee(caller, Symbol::from_text("YIELD"), portfolio_id, y, now)
    }

    /// Collect the fee on the assets under management.
    pub fn collect_management_fee(
        &mut self,
        caller: Address,
        portfolio_id: Symbol,
        aum: i128,
        now: u64,
    ) -> (r: Result<i128, Error>)
        requires
            old(self)@.wf(),
        ensures
            final(self)@.wf(),
            r == old(self)@.collection(caller, values::symbol_of("MGMT"@), portfolio_id, aum),
            final(self)@ == (match r {
                Ok(fee) => old(self)@.collected(
                    caller,
                    values::symbol_of("MGMT"@),
                    portfolio_id,
                    aum,
                    fee,
                    now,
                ),
                Err(_) => old(self)@,
            }),
    {
        self.collect_fee(caller, Symbol::from_text("MGMT"), portfolio_id, aum, now)
    }

    /// Collect the fee on a rebalancing.
    pub fn collect_rebalance_fee(
        &mut self,
        caller: Address,
        portfolio_id: Symbol,
        t: i128,
        now: u64,
    ) -> (r: Result<i128, Error>)
        requires
            old(self)@.wf(),
        ensures
            final(self)@.wf(),
            r == old(self)@.collection(caller, values::symbol_of("REBAL"@), portfolio_id, t),
            final(self)@ == (match r {
                Ok(fee) => old(self)@.collected(
                    caller,
                    values::symbol_of("REBAL"@),
                    portfolio_id,
                    t,
                    fee,
                    now,
                ),
                Err(_) => old(self)@,
            }),
    {
        self.collect_fee(caller, Symbol::from_text("REBAL"), portfolio_id, t, now)
    }

    /// Grant a discount, in place of the one that counts as the same.
    pub fn set_fee_waiver(
        &mut self,
        address: Option<Address>,
        portfolio_id: Option<Symbol>,
        discount_bps: i128,
        waived: bool,
    ) -> (r: Result<Symbol, Error>)
        requires
            old(self)@.wf(),
            old(self)@.admin is Some,
        ensures
            final(self)@.wf(),
            if !engine::is_rate(discount_bps as int) {
                r == Err::<Symbol, Error>(Error::InvalidFeeConfiguration) && final(self)@ == old(
                    self,
                )@
            } else {
                r == Ok::<Symbol, Error>(values::symbol_of("ok"@)) && final(self)@ == (FeeLedger {
                    waivers: with_waiver(
                        old(self)@.waivers,
                        FeeWaiver { address, portfolio_id, discount_bps, waived },
                    ),
                    ..old(self)@
                })
            },
    {
        if discount_bps < 0 || discount_bps > BPS_DENOM {
            return Err(Error::InvalidFeeConfiguration);
        }
        let w = FeeWaiver { address, portfolio_id, discount_bps, waived };
        let mut idx: usize = 0;
        while idx < self.waivers.len() && !engine::waiver_matches(&self.waivers[idx], &w)
            invariant
                *self == *old(self),
                idx <= self.waivers@.len(),
                forall|j: int|
                    0 <= j < idx ==> !engine::is_same_waiver(#[trigger] self.waivers@[j], w),
            decreases self.waivers@.len() - idx,
        {
            idx += 1;
        }
        proof {
            lemma_waiver_at(self.waivers@, w, idx as int);
        }
        if idx < self.waivers.len() {
            self.waivers.set(idx, w);
        } else {
            self.waivers.push(w);
        }
        Ok(Symbol::from_text("ok"))
    }

    /// Take away the discounts for an address or a portfolio.
    pub fn remove_fee_waiver(&mut self, address: Option<Address>, portfolio_id: Option<Symbol>)
        -> (r: Symbol)
        requires
            old(self)@.wf(),
            old(self)@.admin is Some,
        ensures
            final(self)@.wf(),
            r == values::symbol_of("ok"@),
            final(self)@ == (FeeLedger {
                waivers: old(self)@.waivers.filter(
                    |w: FeeWaiver| !engine::is_same_waiver(w, waiver_for(address, portfolio_id)),
                ),
                ..old(self)@
            }),
    {
        let ghost all = self.waivers@;
        let target = FeeWaiver { address, portfolio_id, discount_bps: 0, waived: false };
        let ghost keep = |w: FeeWaiver|
            !engine::is_same_waiver(w, waiver_for(address, portfolio_id));
        let mut kept: Vec<FeeWaiver> = Vec::new();
        let mut i: usize = 0;
        proof {
            table::lemma_filter_none(all, keep);
        }
        while i < self.waivers.len()
            invariant
                *self == *old(self),
                self@.wf(),
                i <= self.waivers@.len(),
                all == self.waivers@,
                target == waiver_for(address, portfolio_id),
                keep == (|w: FeeWaiver|
                    !engine::is_same_waiver(w, waiver_for(address, portfolio_id))),
                kept@ == all.take(i as int).filter(keep),
                forall|j: int|
                    0 <= j < kept@.len() ==> engine::is_rate(
                        (#[trigger] kept@[j]).discount_bps as int,
                    ),
            decreases self.waivers@.len() - i,
        {
            let w = self.waivers[i];
            proof {
                table::lemma_filter_step(all, i as int, keep);
                assert(engine::is_rate(self@.waivers[i as int].discount_bps as int));
            }
            if !engine::waiver_matches(&w, &target) {
                kept.push(w);
            }
            i += 1;
        }
        assert(all.take(i as int) =~= all);
        self.waivers = kept;
        Symbol::from_text("ok")
    }

    /// All discounts.
    pub fn list_fee_waivers(&self) -> (waivers: Vec<FeeWaiver>)
        ensures
            waivers@ == self@.waivers,
    {
        table::copy_list(&self.waivers)
    }

    /// Set who shares the revenue.
    pub fn set_revenue_recipients(&mut self, recipients: Vec<RevenueRecipient>) -> (r: Result<
        Symbol,
        Error,
    >)
        requires
            old(self)@.wf(),
            old(self)@.admin is Some,
        ensures
            final(self)@.wf(),
            if recipients@.len() > MAX_RECIPIENTS {
                r == Err::<Symbol, Error>(Error::TooManyRecipients) && final(self)@ == old(self)@
            } else {
                r == Ok::<Symbol, Error>(values::symbol_of("ok"@)) && final(self)@ == (FeeLedger {
                    recipients: recipients@,
                    ..old(self)@
                })
            },
    {
        if recipients.len() > MAX_RECIPIENTS as usize {
            return Err(Error::TooManyRecipients);
        }
        self.recipients = recipients;
        Ok(Symbol::from_text("ok"))
    }

    /// Who shares the revenue.
    pub fn list_revenue_recipients(&self) -> (recipients: Vec<RevenueRecipient>)
        ensures
            recipients@ == self@.recipients,
    {
        table::copy_list(&self.recipients)
    }

    /// How an amount is shared among the recipients.
    pub fn distribute_revenue_amount(&self, amount: i128) -> (r: Result<
        Vec<(Address, i128)>,
        Error,
    >)
        requires
            self@.wf(),
        ensures
            match engine::revenue_split(self@.recipients, amount as int) {
                Ok(split) => r is Ok && r->Ok_0@ == split,
                Err(e) => r is Err && r->Err_0 == e,
            },
    {
        engine::distribute_revenue(&self.recipients, amount)
    }

    /// What was collected in all.
    pub fn get_total_collected(&self) -> (total: i128)
        ensures
            total == self@.total_collected,
    {
        self.total_collected
    }

    /// The last `max` fees that were collected, or all that are kept where
    /// `max` is 0.
    pub fn get_fee_history(&self, max: u32) -> (records: Vec<FeeRecord>)
        ensures
            records@ == latest(self@.history, max as int),
    {
        let n = self.history.len();
        let from: usize = if max == 0 || n <= max as usize {
            0
        } else {
            n - max as usize
        };
        let ghost wanted = latest(self@.history, max as int);
        let mut records: Vec<FeeRecord> = Vec::new();
        let mut i: usize = from;
        assert(wanted =~= self.history@.skip(from as int));
        while i < n
            invariant
                from <= i <= n,
                n == self.history@.len(),
                wanted == self.history@.skip(from as int),
                records@ == wanted.take(i - from),
            decreases n - i,
        {
            records.push(self.history[i]);
            i += 1;
            assert(records@ =~= wanted.take(i - from));
        }
        assert(records@ =~= wanted);
        records
    }

    /// How many fees the history holds.
    pub fn get_fee_history_count(&self) -> (n: u32)
        requires
            self@.wf(),
        ensures
            n == self@.history.len(),
    {
        self.history.len() as u32
    }

    /// What a fee would be: by the portfolio's own fee and discount where a
    /// portfolio is given.
    pub fn estimate_fee(&self, fee_id: Symbol, portfolio_id: Option<Symbol>, amount: i128) -> (r:
        Result<FeeCalculationResult, Error>)
        ensures
            r == (match portfolio_id {
                Some(p) => self@.quote(
                    self@.fee_for(p, fee_id),
                    amount,
                    engine::portfolio_discount(self@.waivers, p),
                ),
                None => self@.quote(fee_id, amount, (0, false)),
            }),
    {
        match portfolio_id {
            Some(p) => self.calculate_portfolio_fee(p, fee_id, amount),
            None => self.calculate_fee(fee_id, amount),
        }
    }

    /// Add to what was collected in a category.
    pub fn add_to_category_total(&mut self, category: &FeeCategory, amount: i128) -> (r: Result<
        (),
        Error,
    >)
        requires
            old(self)@.wf(),
        ensures
            final(self)@.wf(),
            ({
                let sum = table::value_or(
                    old(self)@.category_totals,
                    category.number(),
                    0i128,
                ) + amount;
                if math::fits(sum) {
                    r == Ok::<(), Error>(()) && final(self)@ == (FeeLedger {
                        category_totals: old(self)@.category_totals.insert(
                            category.number(),
                            sum as i128,
                        ),
                        ..old(self)@
                    })
                } else {
                    r == Err::<(), Error>(Error::ArithmeticOverflow) && final(self)@ == old(self)@
                }
            }),
    {
        let key = category.code();
        let current: i128 = match self.category_totals.get(&key) {
            Some(t) => *t,
            None => 0,
        };
        match current.checked_add(amount) {
            Some(sum) => {
                self.category_totals.set(key, sum);
                Ok(())
            },
            None => Err(Error::ArithmeticOverflow),
        }
    }

    /// Add to what was collected for a portfolio.
    pub fn add_to_portfolio_total(&mut self, portfolio_id: &Symbol, amount: i128) -> (r: Result<
        (),
        Error,
    >)
        requires
            old(self)@.wf(),
        ensures
            final(self)@.wf(),
            ({
                let sum = table::value_or(old(self)@.portfolio_totals, *portfolio_id, 0i128)
                    + amount;
                if math::fits(sum) {
                    r == Ok::<(), Error>(()) && final(self)@ == (FeeLedger {
                        portfolio_totals: old(self)@.portfolio_totals.insert(
                            *portfolio_id,
                            sum as i128,
                        ),
                        ..old(self)@
                    })
                } else {
                    r == Err::<(), Error>(Error::ArithmeticOverflow) && final(self)@ == old(self)@
                }
            }),
    {
        let current: i128 = match self.portfolio_totals.get(portfolio_id) {
            Some(t) => *t,
            None => 0,
        };
        match current.checked_add(amount) {
            Some(sum) => {
                self.portfolio_totals.set(*portfolio_id, sum);
                Ok(())
            },
            None => Err(Error::ArithmeticOverflow),
        }
    }

    /// A fee that is not negative and no more than its base.
    pub fn clamp_fee(fee: i128, base: i128) -> (r: i128)
        ensures
            r == engine::bounded_fee(fee as int, base as int),
    {
        engine::clamp_fee(fee, base)
    }

    /// Whether two waivers count as the same one.
    pub fn waiver_matches(a: &FeeWaiver, b: &FeeWaiver) -> (r: bool)
        ensures
            r == engine::is_same_waiver(*a, *b),
    {
        engine::waiver_matches(a, b)
    }
}

/// A fee is quoted for a structure that exists and is active; what it is
/// before the discount is what the structure gives on the amount, moved
/// between nothing and the amount.
pub proof fn quotes_follow_the_structure(
    ledger: FeeLedger,
    fee_id: Symbol,
    amount: i128,
    discount: (i128, bool),
)
    requires
        0 <= amount,
    ensures
        ({
            let q = ledger.quote(fee_id, amount, discount);
            let fs = ledger.structures[fee_id];
            let raw = engine::raw_fee(
                fs.fee_type,
                fs.amount_bps,
                fs.tiered_entries@,
                amount as int,
            );
            &&& q == Err::<FeeCalculationResult, Error>(Error::FeeNotFound)
                <==> !ledger.structures.contains_key(fee_id)
            &&& q == Err::<FeeCalculationResult, Error>(Error::FeeInactive)
                <==> ledger.structures.contains_key(fee_id) && !fs.active
            &&& q matches Ok(result) ==> {
                &&& raw is Ok
                &&& result.fee_id == fee_id && result.gross_amount == amount && result.discount_bps
                    == discount.0 && result.waived == discount.1
                &&& discount.1 ==> result.fee_amount == 0
                &&& !discount.1 && discount.0 == 0 && 0 <= raw->Ok_0 <= amount
                    ==> result.fee_amount == raw->Ok_0
                &&& !discount.1 && discount.0 == 0 && raw->Ok_0 > amount ==> result.fee_amount
                    == amount
                &&& !discount.1 && 0 <= discount.0 <= 10_000 && 0 <= raw->Ok_0 <= amount
                    && raw->Ok_0 * 10_000 <= i128::MAX ==> result.fee_amount * 10_000 <= raw->Ok_0
                    * (10_000 - discount.0) < (result.fee_amount + 1) * 10_000
            }
        }),
{
    let fs = ledger.structures[fee_id];
    let raw = engine::raw_fee(fs.fee_type, fs.amount_bps, fs.tiered_entries@, amount as int);
    if ledger.structures.contains_key(fee_id) && fs.active && raw is Ok && 0 <= raw->Ok_0
        <= amount && 0 <= discount.0 <= 10_000 && raw->Ok_0 * 10_000 <= i128::MAX {
        engine::discounts_take_their_rate_off(raw->Ok_0, discount.0, discount.1);
    }
}

/// A portfolio pays the fee that was set for it, and else the one given.
pub proof fn portfolios_pay_their_own_fee(
    ledger: FeeLedger,
    portfolio_id: Symbol,
    fallback: Symbol,
)
    ensures
        ledger.portfolio_fees.contains_key(portfolio_id) ==> ledger.fee_for(portfolio_id, fallback)
            == ledger.portfolio_fees[portfolio_id],
        !ledger.portfolio_fees.contains_key(portfolio_id) ==> ledger.fee_for(portfolio_id, fallback)
            == fallback,
{
}

/// What is collected is what is quoted, with the discount of the first waiver
/// for the payer or the portfolio; it adds to the total, and is recorded last
/// in the history with the payer, the amount and the moment.
pub proof fn collections_are_accounted_for(
    ledger: FeeLedger,
    caller: Address,
    fee_id: Symbol,
    portfolio_id: Symbol,
    base_amount: i128,
    now: u64,
)
    requires
        ledger.wf(),
        ledger.collection(caller, fee_id, portfolio_id, base_amount) is Ok,
    ensures
        ({
            let fee = ledger.collection(caller, fee_id, portfolio_id, base_amount)->Ok_0;
            let after = ledger.collected(caller, fee_id, portfolio_id, base_amount, fee, now);
            let record = after.history.last();
            let quoted = ledger.quote(
                fee_id,
                base_amount,
                engine::collection_discount(ledger.waivers, caller, portfolio_id),
            );
            &&& quoted is Ok && fee == quoted->Ok_0.fee_amount
            &&& after.total_collected == ledger.total_collected + fee
            &&& record.fee_id == fee_id && record.portfolio_id == portfolio_id && record.amount
                == base_amount && record.calculated_fee == fee && record.timestamp == now
                && record.beneficiary == caller
            &&& ledger.history.len() < MAX_HISTORY ==> after.history.len() == ledger.history.len()
                + 1 && after.history.drop_last() == ledger.history
            &&& ledger.history.len() == MAX_HISTORY ==> after.history.len() == MAX_HISTORY
                && after.history.drop_last() == ledger.history.skip(1)
            &&& after.structures == ledger.structures && after.waivers == ledger.waivers
                && after.recipients == ledger.recipients
        }),
{
    let fee = ledger.collection(caller, fee_id, portfolio_id, base_amount)->Ok_0;
    let after = ledger.collected(caller, fee_id, portfolio_id, base_amount, fee, now);
    if ledger.history.len() < MAX_HISTORY {
        assert(after.history.drop_last() =~= ledger.history);
    } else {
        assert(after.history.drop_last() =~= ledger.history.skip(1));
    }
}

/// The latest records come in the order of their making, as many as are asked
/// for and there are; all of them where none is named.
pub proof fn the_latest_records_are_last(history: Seq<FeeRecord>, max: int, i: int)
    requires
        0 <= max,
    ensures
        max == 0 ==> latest(history, max) == history,
        max > 0 ==> latest(history, max).len() <= max,
        max > 0 && history.len() >= max ==> latest(history, max).len() == max,
        history.len() <= max ==> latest(history, max) == history,
        0 <= i < latest(history, max).len() ==> latest(history, max)[i] == history[history.len()
            - latest(history, max).len() + i],
{
}

/// Setting a waiver replaces the one that counts as the same, in its place, or
/// adds it as the last; every other waiver stays.
pub proof fn a_waiver_replaces_its_like(waivers: Seq<FeeWaiver>, waiver: FeeWaiver, i: int)
    ensures
        ({
            let after = with_waiver(waivers, waiver);
            &&& after.contains(waiver)
            &&& (forall|j: int|
                0 <= j < waivers.len() ==> !engine::is_same_waiver(#[trigger] waivers[j], waiver))
                ==> after == waivers.push(waiver)
            &&& (exists|j: int|
                0 <= j < waivers.len() && engine::is_same_waiver(#[trigger] waivers[j], waiver))
                ==> after.len() == waivers.len()
            &&& 0 <= i < waivers.len() && !engine::is_same_waiver(waivers[i], waiver) ==> after[i]
                == waivers[i]
        }),
{
    lemma_waiver_at_is_first(waivers, waiver);
    let at = waiver_at(waivers, waiver);
    let after = with_waiver(waivers, waiver);
    assert(after[at] == waiver);
}

proof fn lemma_waiver_at_is_first(waivers: Seq<FeeWaiver>, waiver: FeeWaiver)
    ensures
        0 <= waiver_at(waivers, waiver) <= waivers.len(),
        waiver_at(waivers, waiver) < waivers.len() ==> engine::is_same_waiver(
            waivers[waiver_at(waivers, waiver)],
            waiver,
        ),
        forall|j: int|
            0 <= j < waiver_at(waivers, waiver) ==> !engine::is_same_waiver(
                #[trigger] waivers[j],
                waiver,
            ),
    decreases waivers.len(),
{
    if waivers.len() > 0 && !engine::is_same_waiver(waivers[0], waiver) {
        let rest = waivers.drop_first();
        lemma_waiver_at_is_first(rest, waiver);
        let at = waiver_at(rest, waiver);
        assert forall|j: int| 0 <= j < at + 1 implies !engine::is_same_waiver(
            #[trigger] waivers[j],
            waiver,
        ) by {
            if j > 0 {
                assert(waivers[j] == rest[j - 1]);
            }
        }
        if at < rest.len() {
            assert(rest[at] == waivers[at + 1]);
        }
    }
}

} // verus!
